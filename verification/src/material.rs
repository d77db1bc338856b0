use vstd::prelude::*;
use crate::BLOCK_SIZE;

verus! {

/// A sequence of `n` zero samples (+0.0 bit patterns).
pub open spec fn zero_samples(n: nat) -> Seq<u32> {
    Seq::new(n, |i: int| 0u32)
}

/// The first block of a flat sample sequence: its first `bs` samples,
/// zero-padded on the right when fewer than `bs` remain.
pub open spec fn first_block_of(s: Seq<u32>, bs: nat) -> Seq<u32> {
    if s.len() >= bs {
        s.take(bs as int)
    } else {
        s + zero_samples((bs - s.len()) as nat)
    }
}

/// Partition of a flat sample sequence into blocks of `bs` samples, in
/// input order; the final block is zero-padded on the right when the
/// sample count is not a multiple of `bs`.
pub open spec fn blocks_of(s: Seq<u32>, bs: nat) -> Seq<Seq<u32>>
    decreases s.len(),
{
    if bs == 0 || s.len() == 0 {
        Seq::empty()
    } else if s.len() <= bs {
        seq![first_block_of(s, bs)]
    } else {
        seq![s.take(bs as int)] + blocks_of(s.skip(bs as int), bs)
    }
}

/// Concatenation of a sequence of blocks, in order.
pub open spec fn flat_of(bl: Seq<Seq<u32>>) -> Seq<u32>
    decreases bl.len(),
{
    if bl.len() == 0 {
        Seq::empty()
    } else {
        bl[0] + flat_of(bl.skip(1))
    }
}

/// A decoded signal: ordered fixed-size blocks of samples, plus the
/// sample rate of the whole signal. Each sample is carried as the raw
/// IEEE-754 binary32 bit pattern of its value, so the zero sample is
/// the bit pattern 0.
pub struct AudioMaterial {
    /// The sample blocks, in signal order.
    pub blocks: Vec<Vec<u32>>,
    /// Sample rate of the signal, in hertz.
    pub sample_rate: i32,
    /// Length of every block of this signal.
    pub block_size: usize,
}

impl AudioMaterial {
    /// The blocks as mathematical sequences.
    pub open spec fn block_seq(self) -> Seq<Seq<u32>> {
        self.blocks@.map_values(|b: Vec<u32>| b@)
    }

    /// The flat sample sequence: all blocks concatenated in order,
    /// padding included.
    pub open spec fn flat(self) -> Seq<u32> {
        flat_of(self.block_seq())
    }

    /// Well-formed: a positive block size, and every block exactly
    /// full.
    pub open spec fn wf(self) -> bool {
        &&& self.block_size >= 1
        &&& forall|i: int|
            0 <= i < self.blocks@.len() ==> (#[trigger] self.blocks@[i])@.len() == self.block_size
    }

    /// Partitions a flat sample sequence into blocks of `block_size`
    /// samples, zero-padding the final block.
    pub fn with_block_size(samples: Vec<u32>, sample_rate: i32, block_size: usize) -> (m:
        AudioMaterial)
        requires
            block_size >= 1,
        ensures
            m.wf(),
            m.sample_rate == sample_rate,
            m.block_size == block_size,
            m.block_seq() == blocks_of(samples@, block_size as nat),
    {
        let ghost full = samples@;
        let mut blocks: Vec<Vec<u32>> = Vec::new();
        let mut idx: usize = 0;
        proof {
            assert(full.skip(0) =~= full);
            assert(blocks@.map_values(|b: Vec<u32>| b@) =~= Seq::<Seq<u32>>::empty());
            assert(blocks@.map_values(|b: Vec<u32>| b@) + blocks_of(full, block_size as nat)
                =~= blocks_of(full, block_size as nat));
        }
        while idx < samples.len()
            invariant
                1 <= block_size,
                idx <= samples.len(),
                samples@ == full,
                blocks_of(full, block_size as nat) == blocks@.map_values(|b: Vec<u32>| b@)
                    + blocks_of(full.skip(idx as int), block_size as nat),
                forall|i: int|
                    0 <= i < blocks@.len() ==> (#[trigger] blocks@[i])@.len() == block_size,
            decreases samples@.len() - idx,
        {
            let ghost rem = full.skip(idx as int);
            let avail = samples.len() - idx;
            let take = if avail < block_size {
                avail
            } else {
                block_size
            };
            let mut block: Vec<u32> = Vec::new();
            let mut j: usize = 0;
            while j < take
                invariant
                    j <= take,
                    take <= block_size,
                    idx + take <= samples.len(),
                    samples@ == full,
                    rem == full.skip(idx as int),
                    idx <= samples.len(),
                    block@ == rem.take(j as int),
                decreases take - j,
            {
                let s = samples[idx + j];
                assert(s == rem[j as int]);
                block.push(s);
                proof {
                    assert(block@ =~= rem.take(j + 1));
                }
                j = j + 1;
            }
            while j < block_size
                invariant
                    take <= j <= block_size,
                    take <= block_size,
                    rem == full.skip(idx as int),
                    block@ == rem.take(take as int) + zero_samples((j - take) as nat),
                decreases block_size - j,
            {
                block.push(0u32);
                proof {
                    assert(block@ =~= rem.take(take as int) + zero_samples((j + 1 - take) as nat));
                }
                j = j + 1;
            }
            proof {
                if rem.len() <= block_size {
                    // This is the final, possibly padded, block.
                    assert(take == rem.len());
                    assert(rem.take(take as int) =~= rem);
                    assert(block@ =~= first_block_of(rem, block_size as nat));
                    assert(blocks_of(rem, block_size as nat) =~= seq![block@]);
                    assert(full.skip(samples@.len() as int) =~= Seq::<u32>::empty());
                } else {
                    // A full block straight from the input.
                    assert(take == block_size);
                    assert(block@ =~= rem.take(block_size as int) + zero_samples(0));
                    assert(block@ =~= rem.take(block_size as int));
                    assert(full.skip(idx as int).skip(block_size as int) =~= full.skip(
                        idx + block_size as int,
                    ));
                }
            }
            let ghost prev_blocks = blocks@;
            blocks.push(block);
            proof {
                assert(blocks@.map_values(|b: Vec<u32>| b@) =~= prev_blocks.map_values(
                    |b: Vec<u32>| b@,
                ) + seq![block@]);
                assert(blocks_of(full, block_size as nat) =~= blocks@.map_values(|b: Vec<u32>| b@)
                    + blocks_of(full.skip(idx + take as int), block_size as nat));
            }
            idx = idx + take;
        }
        proof {
            assert(full.skip(idx as int) =~= Seq::<u32>::empty());
            assert(blocks_of(full, block_size as nat) =~= blocks@.map_values(|b: Vec<u32>| b@));
        }
        AudioMaterial { blocks, sample_rate, block_size }
    }

    /// Partitions a flat sample sequence into blocks of `BLOCK_SIZE`
    /// samples, zero-padding the final block.
    pub fn new(samples: Vec<u32>, sample_rate: i32) -> (m: AudioMaterial)
        ensures
            m.wf(),
            m.sample_rate == sample_rate,
            m.block_size == BLOCK_SIZE,
            m.block_seq() == blocks_of(samples@, BLOCK_SIZE as nat),
    {
        AudioMaterial::with_block_size(samples, sample_rate, BLOCK_SIZE)
    }

    /// Concatenates all blocks, padding included, back into one flat
    /// sample sequence.
    pub fn samples(&self) -> (out: Vec<u32>)
        ensures
            out@ == self.flat(),
    {
        let mut out: Vec<u32> = Vec::new();
        let mut k: usize = 0;
        proof {
            assert(self.block_seq().skip(0) =~= self.block_seq());
            assert(out@ + self.flat() =~= self.flat());
        }
        while k < self.blocks.len()
            invariant
                k <= self.blocks@.len(),
                self.flat() == out@ + flat_of(self.block_seq().skip(k as int)),
            decreases self.blocks@.len() - k,
        {
            let ghost done = out@;
            let block_len = self.blocks[k].len();
            let mut j: usize = 0;
            while j < block_len
                invariant
                    j <= block_len,
                    k < self.blocks@.len(),
                    block_len == self.blocks@[k as int]@.len(),
                    out@ == done + self.block_seq()[k as int].take(j as int),
                decreases block_len - j,
            {
                let s = self.blocks[k][j];
                out.push(s);
                proof {
                    assert(out@ =~= done + self.block_seq()[k as int].take(j + 1));
                }
                j = j + 1;
            }
            proof {
                assert(self.block_seq()[k as int].take(block_len as int) =~= self.block_seq()[
                    k as int
                ]);
                assert(self.block_seq().skip(k as int).skip(1) =~= self.block_seq().skip(k + 1));
                assert(self.block_seq().skip(k as int)[0] == self.block_seq()[k as int]);
            }
            k = k + 1;
        }
        proof {
            assert(self.block_seq().skip(k as int) =~= Seq::<Seq<u32>>::empty());
            assert(self.flat() =~= out@);
        }
        out
    }
}

/// Decoding a flat sample sequence into blocks and concatenating the
/// blocks back round-trips the samples exactly, except for the trailing
/// zero padding introduced to fill the last block.
pub proof fn lemma_round_trip(s: Seq<u32>, bs: nat)
    requires
        bs >= 1,
    ensures
        s.len() <= flat_of(blocks_of(s, bs)).len() < s.len() + bs,
        flat_of(blocks_of(s, bs)).len() % bs == 0,
        flat_of(blocks_of(s, bs)).take(s.len() as int) == s,
        forall|i: int|
            s.len() <= i < flat_of(blocks_of(s, bs)).len() ==> flat_of(blocks_of(s, bs))[i]
                == 0u32,
    decreases s.len(),
{
    let fl = flat_of(blocks_of(s, bs));
    if s.len() == 0 {
        assert(fl =~= Seq::<u32>::empty());
        assert(fl.take(0) =~= s);
    } else if s.len() <= bs {
        assert(blocks_of(s, bs) == seq![first_block_of(s, bs)]);
        assert(blocks_of(s, bs).skip(1) =~= Seq::<Seq<u32>>::empty());
        assert(fl == blocks_of(s, bs)[0] + flat_of(blocks_of(s, bs).skip(1)));
        assert(flat_of(Seq::<Seq<u32>>::empty()) == Seq::<u32>::empty());
        assert(fl =~= first_block_of(s, bs));
        if s.len() == bs {
            assert(fl =~= s);
        }
        assert(fl.take(s.len() as int) =~= s);
        assert(fl.len() == bs);
    } else {
        let tail = s.skip(bs as int);
        lemma_round_trip(tail, bs);
        let tail_fl = flat_of(blocks_of(tail, bs));
        assert(blocks_of(s, bs)[0] == s.take(bs as int));
        assert(blocks_of(s, bs).skip(1) =~= blocks_of(tail, bs));
        assert(fl == s.take(bs as int) + tail_fl);
        assert((s.len() + bs * ((fl.len() - s.len()) / bs as int)) >= 0);
        assert(fl.len() == bs + tail_fl.len());
        assert(fl.len() % bs == 0) by {
            assert(tail_fl.len() % bs == 0);
            assert((bs + tail_fl.len()) % bs == tail_fl.len() % bs) by (nonlinear_arith)
                requires
                    bs >= 1,
            ;
        }
        assert(fl.take(s.len() as int) =~= s) by {
            assert(tail_fl.take(tail.len() as int) == tail);
            assert forall|i: int| 0 <= i < s.len() implies fl[i] == s[i] by {
                if i < bs {
                    assert(fl[i] == s.take(bs as int)[i]);
                } else {
                    assert(fl[i] == tail_fl[i - bs]);
                    assert(tail_fl[i - bs] == tail_fl.take(tail.len() as int)[i - bs]);
                    assert(tail[i - bs] == s[i]);
                }
            }
        }
        assert forall|i: int| s.len() <= i < fl.len() implies fl[i] == 0u32 by {
            assert(fl[i] == tail_fl[i - bs]);
        }
    }
}

} // verus!
