use vstd::prelude::*;
use crate::errors::FilterError;
use crate::fp32::{add_bits, mul_bits, sub_bits, f32_add, f32_mul, f32_sub, F32_ONE,
    F32_POS_FINITE_END, F32_POS_ZERO};
use crate::material::{flat_of, AudioMaterial};

verus! {

/// All blocks of `bl` have length `bs`.
pub open spec fn uniform_blocks(bl: Seq<Seq<u32>>, bs: nat) -> bool {
    forall|i: int| 0 <= i < bl.len() ==> (#[trigger] bl[i]).len() == bs
}

pub proof fn lemma_flat_len(bl: Seq<Seq<u32>>, bs: nat)
    requires
        uniform_blocks(bl, bs),
    ensures
        flat_of(bl).len() == bl.len() * bs,
    decreases bl.len(),
{
    if bl.len() == 0 {
    } else {
        assert(bl[0].len() == bs);
        assert(uniform_blocks(bl.skip(1), bs)) by {
            assert forall|i: int| 0 <= i < bl.skip(1).len() implies (#[trigger] bl.skip(1)[i]).len()
                == bs by {
                assert(bl.skip(1)[i] == bl[i + 1]);
            }
        }
        lemma_flat_len(bl.skip(1), bs);
        assert(bl.len() * bs == bs + (bl.len() - 1) * bs) by (nonlinear_arith)
            requires
                bl.len() >= 1,
        ;
    }
}

pub proof fn lemma_flat_index(bl: Seq<Seq<u32>>, bs: nat, k: int, j: int)
    requires
        uniform_blocks(bl, bs),
        0 <= k < bl.len(),
        0 <= j < bs,
    ensures
        0 <= k * bs + j < flat_of(bl).len(),
        flat_of(bl)[k * bs + j] == bl[k][j],
    decreases k,
{
    lemma_flat_len(bl, bs);
    assert(0 <= k * bs + j < bl.len() * bs) by (nonlinear_arith)
        requires
            0 <= k < bl.len(),
            0 <= j < bs,
    ;
    if k == 0 {
        assert(k * bs + j == j) by (nonlinear_arith)
            requires
                k == 0,
        ;
        assert(flat_of(bl)[j] == bl[0][j]);
    } else {
        assert(uniform_blocks(bl.skip(1), bs)) by {
            assert forall|i: int| 0 <= i < bl.skip(1).len() implies (#[trigger] bl.skip(1)[i]).len()
                == bs by {
                assert(bl.skip(1)[i] == bl[i + 1]);
            }
        }
        lemma_flat_index(bl.skip(1), bs, k - 1, j);
        assert(k * bs + j - bs == (k - 1) * bs + j) by (nonlinear_arith);
        assert(k * bs + j >= bs) by (nonlinear_arith)
            requires
                k >= 1,
                j >= 0,
                bs >= 0,
        ;
        assert(bl.skip(1)[k - 1] == bl[k]);
        assert(bl[0].len() == bs);
        assert(flat_of(bl)[k * bs + j] == flat_of(bl.skip(1))[k * bs + j - bs]);
    }
}

/// Decomposes a flat sample index into its block index and offset.
pub proof fn lemma_flat_decompose(bl: Seq<Seq<u32>>, bs: nat, i: int)
    requires
        uniform_blocks(bl, bs),
        bs >= 1,
        0 <= i < flat_of(bl).len(),
    ensures
        0 <= i / (bs as int) < bl.len(),
        0 <= i % (bs as int) < bs,
        i == (i / (bs as int)) * (bs as int) + i % (bs as int),
        flat_of(bl)[i] == bl[i / (bs as int)][i % (bs as int)],
{
    lemma_flat_len(bl, bs);
    vstd::arithmetic::div_mod::lemma_fundamental_div_mod(i, bs as int);
    assert(i == (bs as int) * (i / (bs as int)) + i % (bs as int));
    assert((bs as int) * (i / (bs as int)) == (i / (bs as int)) * (bs as int)) by (nonlinear_arith);
    assert(0 <= i / (bs as int) < bl.len()) by (nonlinear_arith)
        requires
            0 <= i < bl.len() * bs,
            bs >= 1,
            i == (i / (bs as int)) * (bs as int) + i % (bs as int),
            0 <= i % (bs as int) < bs,
    ;
    lemma_flat_index(bl, bs, i / (bs as int), i % (bs as int));
}

/// Output of the integrator low-pass at sample index `n` of the flat
/// input `xs`: `y[n] = x[n] + y[n-1]`, with `y[-1]` seeded to zero.
/// The sums are IEEE-754 binary32 additions on sample bit patterns.
pub open spec fn integrator_out(xs: Seq<u32>, n: int) -> u32
    decreases n,
{
    let prev = if n <= 0 {
        F32_POS_ZERO
    } else {
        integrator_out(xs, n - 1)
    };
    add_bits(xs[n], prev)
}

impl AudioMaterial {
    /// The signal has the same shape as `other`: same block count, same
    /// block size, and the same sample rate.
    pub open spec fn same_shape(self, other: AudioMaterial) -> bool {
        &&& self.sample_rate == other.sample_rate
        &&& self.block_size == other.block_size
        &&& self.blocks@.len() == other.blocks@.len()
    }
}

/// Integrator low-pass: rewrites every sample to `y[n] = x[n] + y[n-1]`
/// in ascending order, seeding `y[-1]` with zero and carrying the last
/// output of each block into the next. A discrete integrator: it
/// accumulates unbounded gain for DC-biased input by design.
///
/// An empty signal is rejected with `InvalidInput` and left unchanged.
/// For an all-zero input signal the output is all zeros.
pub fn naive_low_pass(audio: &mut AudioMaterial) -> (res: Result<(), FilterError>)
    requires
        old(audio).wf(),
    ensures
        final(audio).wf(),
        final(audio).same_shape(*old(audio)),
        res is Err <==> old(audio).blocks@.len() == 0,
        res is Err ==> *final(audio) == *old(audio) && res == Err::<(), FilterError>(
            FilterError::InvalidInput,
        ),
        final(audio).flat().len() == old(audio).flat().len(),
        forall|i: int|
            0 <= i < old(audio).flat().len() ==> final(audio).flat()[i] == integrator_out(
                old(audio).flat(),
                i,
            ),
        (forall|i: int| 0 <= i < old(audio).flat().len() ==> old(audio).flat()[i] == F32_POS_ZERO)
            ==> forall|i: int|
            0 <= i < final(audio).flat().len() ==> final(audio).flat()[i] == F32_POS_ZERO,
{
    if audio.blocks.len() == 0 {
        return Err(FilterError::InvalidInput);
    }
    let ghost xs = audio.flat();
    let ghost orig = audio.block_seq();
    let ghost nblocks = audio.blocks@.len() as int;
    let ghost bs_i = audio.block_size as int;
    let ghost rate0 = audio.sample_rate;
    let ghost all_zero = forall|i: int| 0 <= i < xs.len() ==> xs[i] == F32_POS_ZERO;
    let mut last_sample: u32 = F32_POS_ZERO;
    let mut block_nb: usize = 0;
    while block_nb < audio.blocks.len()
        invariant
            audio.wf(),
            audio.sample_rate == rate0,
            audio.block_size as int == bs_i,
            audio.blocks@.len() == nblocks,
            orig.len() == nblocks,
            uniform_blocks(orig, audio.block_size as nat),
            xs == flat_of(orig),
            all_zero == (forall|i: int| 0 <= i < xs.len() ==> xs[i] == F32_POS_ZERO),
            0 <= block_nb <= nblocks,
            forall|k: int|
                block_nb <= k < nblocks ==> (#[trigger] audio.blocks@[k])@ == orig[k],
            forall|k: int, j: int|
                0 <= k < block_nb && 0 <= j < bs_i ==> (#[trigger] audio.blocks@[k]@[j])
                    == integrator_out(xs, k * bs_i + j),
            last_sample == if block_nb == 0 {
                F32_POS_ZERO
            } else {
                integrator_out(xs, block_nb * bs_i - 1)
            },
            all_zero ==> last_sample == F32_POS_ZERO,
            all_zero ==> forall|k: int, j: int|
                0 <= k < block_nb && 0 <= j < bs_i ==> (#[trigger] audio.blocks@[k]@[j])
                    == F32_POS_ZERO,
        decreases nblocks - block_nb,
    {
        let ghost base = block_nb * bs_i;
        proof {
            if block_nb == 0 {
                assert(base == 0) by (nonlinear_arith)
                    requires
                        base == block_nb * bs_i,
                        block_nb == 0,
                ;
            } else {
                assert(base >= bs_i) by (nonlinear_arith)
                    requires
                        base == block_nb * bs_i,
                        block_nb >= 1,
                        bs_i >= 1,
                ;
            }
        }
        let bs = audio.block_size;
        let mut new_block: Vec<u32> = Vec::new();
        let mut n: usize = 0;
        while n < bs
            invariant
                audio.wf(),
                audio.block_size as int == bs_i,
                bs as int == bs_i,
                audio.blocks@.len() == nblocks,
                orig.len() == nblocks,
                uniform_blocks(orig, audio.block_size as nat),
                xs == flat_of(orig),
                all_zero == (forall|i: int| 0 <= i < xs.len() ==> xs[i] == F32_POS_ZERO),
                0 <= block_nb < nblocks,
                base == block_nb * bs_i,
                0 <= n <= bs_i,
                forall|k: int|
                    block_nb <= k < nblocks ==> (#[trigger] audio.blocks@[k])@ == orig[k],
                new_block@.len() == n,
                forall|j: int|
                    0 <= j < n ==> (#[trigger] new_block@[j]) == integrator_out(xs, base + j),
                last_sample == if base + n == 0 {
                    F32_POS_ZERO
                } else {
                    integrator_out(xs, base + n - 1)
                },
                all_zero ==> last_sample == F32_POS_ZERO,
                all_zero ==> forall|j: int|
                    0 <= j < n ==> (#[trigger] new_block@[j]) == F32_POS_ZERO,
            decreases bs_i - n,
        {
            proof {
                lemma_flat_index(orig, bs as nat, block_nb as int, n as int);
                assert(0 <= base + n < xs.len());
                assert(audio.blocks@[block_nb as int]@ == orig[block_nb as int]);
            }
            let x = audio.blocks[block_nb][n];
            assert(x == xs[base + n]);
            let y = f32_add(x, last_sample);
            proof {
                assert(y == integrator_out(xs, base + n));
                if all_zero {
                    assert(xs[base + n] == F32_POS_ZERO);
                    assert(y == F32_POS_ZERO);
                }
            }
            new_block.push(y);
            last_sample = y;
            n = n + 1;
        }
        audio.blocks.set(block_nb, new_block);
        proof {
            assert(base + bs_i == (block_nb + 1) * bs_i) by (nonlinear_arith)
                requires
                    base == block_nb * bs_i,
            ;
        }
        block_nb = block_nb + 1;
    }
    proof {
        lemma_flat_len(audio.block_seq(), audio.block_size as nat);
        lemma_flat_len(orig, audio.block_size as nat);
        assert(uniform_blocks(audio.block_seq(), audio.block_size as nat));
        assert forall|i: int| 0 <= i < xs.len() implies audio.flat()[i] == integrator_out(
            xs,
            i,
        ) by {
            lemma_flat_decompose(audio.block_seq(), audio.block_size as nat, i);
            assert(audio.block_seq()[i / bs_i] == audio.blocks@[i / bs_i]@);
        }
        if all_zero {
            assert forall|i: int| 0 <= i < audio.flat().len() implies audio.flat()[i]
                == F32_POS_ZERO by {
                lemma_flat_decompose(audio.block_seq(), audio.block_size as nat, i);
            }
        }
    }
    Ok(())
}

/// Output of the single-pole IIR low-pass at sample index `n` of the
/// flat input `xs`: `y[n] = y[n-1] + alpha*(x[n] - y[n-1])`, with
/// `y[-1]` seeded with the very first sample of the whole signal. All
/// operations are IEEE-754 binary32 on sample bit patterns.
pub open spec fn single_pole_out(xs: Seq<u32>, alpha: u32, n: int) -> u32
    decreases n,
{
    let prev = if n <= 0 {
        xs[0]
    } else {
        single_pole_out(xs, alpha, n - 1)
    };
    add_bits(prev, mul_bits(alpha, sub_bits(xs[n], prev)))
}

/// Single-pole IIR low-pass with smoothing factor `alpha` (an IEEE-754
/// binary32 bit pattern): rewrites every sample in ascending order to
/// `y[n] = y[n-1] + alpha*(x[n] - y[n-1])`, seeding `y[-1]` with the
/// first sample of the whole signal and carrying the last output of
/// each block into the next.
///
/// An empty signal is rejected with `InvalidInput` and left unchanged.
/// With `alpha` equal to 1.0 the filter passes a constant finite
/// non-negative signal through unchanged.
pub fn single_pole_low_pass_filter(audio: &mut AudioMaterial, alpha: u32) -> (res: Result<
    (),
    FilterError,
>)
    requires
        old(audio).wf(),
    ensures
        final(audio).wf(),
        final(audio).same_shape(*old(audio)),
        res is Err <==> old(audio).blocks@.len() == 0,
        res is Err ==> *final(audio) == *old(audio) && res == Err::<(), FilterError>(
            FilterError::InvalidInput,
        ),
        final(audio).flat().len() == old(audio).flat().len(),
        res is Ok ==> forall|i: int|
            0 <= i < old(audio).flat().len() ==> final(audio).flat()[i] == single_pole_out(
                old(audio).flat(),
                alpha,
                i,
            ),
        (res is Ok && alpha == F32_ONE && old(audio).flat()[0] < F32_POS_FINITE_END && (forall|
            i: int,
        |
            0 <= i < old(audio).flat().len() ==> (#[trigger] old(audio).flat()[i]) == old(
                audio,
            ).flat()[0]))
            ==> forall|i: int|
            0 <= i < final(audio).flat().len() ==> final(audio).flat()[i] == old(audio).flat()[i],
{
    if audio.blocks.len() == 0 {
        return Err(FilterError::InvalidInput);
    }
    let ghost xs = audio.flat();
    let ghost orig = audio.block_seq();
    let ghost nblocks = audio.blocks@.len() as int;
    let ghost bs_i = audio.block_size as int;
    let ghost rate0 = audio.sample_rate;
    let ghost constant_sig = alpha == F32_ONE && xs[0] < F32_POS_FINITE_END && (forall|i: int|
        0 <= i < xs.len() ==> (#[trigger] xs[i]) == xs[0]);
    proof {
        lemma_flat_index(orig, audio.block_size as nat, 0, 0);
        assert(0 * bs_i + 0 == 0) by (nonlinear_arith);
    }
    let mut last_sample: u32 = audio.blocks[0][0];
    assert(last_sample == xs[0]);
    let mut block_nb: usize = 0;
    while block_nb < audio.blocks.len()
        invariant
            audio.wf(),
            audio.sample_rate == rate0,
            audio.block_size as int == bs_i,
            audio.blocks@.len() == nblocks,
            orig.len() == nblocks,
            nblocks >= 1,
            uniform_blocks(orig, audio.block_size as nat),
            xs == flat_of(orig),
            constant_sig == (alpha == F32_ONE && xs[0] < F32_POS_FINITE_END && (forall|i: int|
                0 <= i < xs.len() ==> (#[trigger] xs[i]) == xs[0])),
            0 <= block_nb <= nblocks,
            forall|k: int| block_nb <= k < nblocks ==> (#[trigger] audio.blocks@[k])@ == orig[k],
            forall|k: int, j: int|
                0 <= k < block_nb && 0 <= j < bs_i ==> (#[trigger] audio.blocks@[k]@[j])
                    == single_pole_out(xs, alpha, k * bs_i + j),
            last_sample == if block_nb == 0 {
                xs[0]
            } else {
                single_pole_out(xs, alpha, block_nb * bs_i - 1)
            },
            constant_sig ==> last_sample == xs[0],
            constant_sig ==> forall|k: int, j: int|
                0 <= k < block_nb && 0 <= j < bs_i ==> (#[trigger] audio.blocks@[k]@[j]) == xs[0],
        decreases nblocks - block_nb,
    {
        let ghost base = block_nb * bs_i;
        proof {
            if block_nb == 0 {
                assert(base == 0) by (nonlinear_arith)
                    requires
                        base == block_nb * bs_i,
                        block_nb == 0,
                ;
            } else {
                assert(base >= bs_i) by (nonlinear_arith)
                    requires
                        base == block_nb * bs_i,
                        block_nb >= 1,
                        bs_i >= 1,
                ;
            }
        }
        let bs = audio.block_size;
        let mut new_block: Vec<u32> = Vec::new();
        let mut n: usize = 0;
        while n < bs
            invariant
                audio.wf(),
                audio.block_size as int == bs_i,
                bs as int == bs_i,
                audio.blocks@.len() == nblocks,
                orig.len() == nblocks,
                uniform_blocks(orig, audio.block_size as nat),
                xs == flat_of(orig),
                constant_sig == (alpha == F32_ONE && xs[0] < F32_POS_FINITE_END && (forall|i: int|
                    0 <= i < xs.len() ==> (#[trigger] xs[i]) == xs[0])),
                0 <= block_nb < nblocks,
                base == block_nb * bs_i,
                0 <= n <= bs_i,
                forall|k: int|
                    block_nb <= k < nblocks ==> (#[trigger] audio.blocks@[k])@ == orig[k],
                new_block@.len() == n,
                forall|j: int|
                    0 <= j < n ==> (#[trigger] new_block@[j]) == single_pole_out(
                        xs,
                        alpha,
                        base + j,
                    ),
                last_sample == if base + n == 0 {
                    xs[0]
                } else {
                    single_pole_out(xs, alpha, base + n - 1)
                },
                constant_sig ==> last_sample == xs[0],
                constant_sig ==> forall|j: int|
                    0 <= j < n ==> (#[trigger] new_block@[j]) == xs[0],
            decreases bs_i - n,
        {
            proof {
                lemma_flat_index(orig, bs as nat, block_nb as int, n as int);
                assert(0 <= base + n < xs.len());
                assert(audio.blocks@[block_nb as int]@ == orig[block_nb as int]);
            }
            let x = audio.blocks[block_nb][n];
            assert(x == xs[base + n]);
            let d = f32_sub(x, last_sample);
            let t = f32_mul(alpha, d);
            let y = f32_add(last_sample, t);
            proof {
                assert(y == single_pole_out(xs, alpha, base + n));
                if constant_sig {
                    assert(x == xs[0]);
                    assert(d == F32_POS_ZERO);
                    assert(t == F32_POS_ZERO);
                    assert(y == xs[0]);
                }
            }
            new_block.push(y);
            last_sample = y;
            n = n + 1;
        }
        audio.blocks.set(block_nb, new_block);
        proof {
            assert(base + bs_i == (block_nb + 1) * bs_i) by (nonlinear_arith)
                requires
                    base == block_nb * bs_i,
            ;
            assert(base + bs_i >= 1);
        }
        block_nb = block_nb + 1;
    }
    proof {
        lemma_flat_len(audio.block_seq(), audio.block_size as nat);
        lemma_flat_len(orig, audio.block_size as nat);
        assert forall|i: int| 0 <= i < xs.len() implies audio.flat()[i] == single_pole_out(
            xs,
            alpha,
            i,
        ) by {
            lemma_flat_decompose(audio.block_seq(), audio.block_size as nat, i);
            assert(audio.block_seq()[i / bs_i] == audio.blocks@[i / bs_i]@);
        }
        if constant_sig {
            assert forall|i: int| 0 <= i < audio.flat().len() implies audio.flat()[i] == xs[i] by {
                lemma_flat_decompose(audio.block_seq(), audio.block_size as nat, i);
            }
        }
    }
    Ok(())
}

/// Direct-form-1 biquad state and coefficients. `x_1`/`x_2` hold the
/// previous two inputs, `y_1`/`y_2` the previous two outputs; the `b*`
/// fields are the feedforward and the `a*` fields the feedback
/// coefficients, constant for the filter's lifetime. Every field is an
/// IEEE-754 binary32 bit pattern.
#[derive(Clone, Copy, Debug, PartialEq, Eq, Structural)]
pub struct BiquadVars {
    pub x_1: u32,
    pub x_2: u32,
    pub y_1: u32,
    pub y_2: u32,
    pub a1: u32,
    pub a2: u32,
    pub b0: u32,
    pub b1: u32,
    pub b2: u32,
}

/// The biquad's input history: the flat input at a non-negative index,
/// and the initial state's stored previous inputs before the start.
pub open spec fn biquad_in(vars: BiquadVars, xs: Seq<u32>, n: int) -> u32 {
    if n >= 0 {
        xs[n]
    } else if n == -1 {
        vars.x_1
    } else {
        vars.x_2
    }
}

/// Output of the direct-form-1 biquad at sample index `n` of the flat
/// input `xs`:
/// `y[n] = b0*x[n] + b1*x[n-1] + b2*x[n-2] - a1*y[n-1] - a2*y[n-2]`,
/// accumulated left to right in IEEE-754 binary32, with history before
/// the start of the signal taken from the initial state `vars`.
pub open spec fn biquad_out(vars: BiquadVars, xs: Seq<u32>, n: int) -> u32
    decreases n + 2,
{
    if n == -1 {
        vars.y_1
    } else if n < -1 {
        vars.y_2
    } else {
        sub_bits(
            sub_bits(
                add_bits(
                    add_bits(
                        mul_bits(vars.b0, xs[n]),
                        mul_bits(vars.b1, biquad_in(vars, xs, n - 1)),
                    ),
                    mul_bits(vars.b2, biquad_in(vars, xs, n - 2)),
                ),
                mul_bits(vars.a1, biquad_out(vars, xs, n - 1)),
            ),
            mul_bits(vars.a2, biquad_out(vars, xs, n - 2)),
        )
    }
}

/// The biquad state after processing the whole flat input `xs` from
/// initial state `vars`: the coefficients unchanged, the history
/// holding the last two inputs and the last two outputs.
pub open spec fn biquad_vars_after(vars: BiquadVars, xs: Seq<u32>) -> BiquadVars {
    BiquadVars {
        x_1: biquad_in(vars, xs, xs.len() - 1),
        x_2: biquad_in(vars, xs, xs.len() - 2),
        y_1: biquad_out(vars, xs, xs.len() - 1),
        y_2: biquad_out(vars, xs, xs.len() - 2),
        a1: vars.a1,
        a2: vars.a2,
        b0: vars.b0,
        b1: vars.b1,
        b2: vars.b2,
    }
}

/// The identity coefficient set with empty history: `b0` is 1.0 and
/// every other coefficient and the whole history is +0.0.
pub open spec fn biquad_identity(vars: BiquadVars) -> bool {
    &&& vars.b0 == F32_ONE
    &&& vars.b1 == F32_POS_ZERO
    &&& vars.b2 == F32_POS_ZERO
    &&& vars.a1 == F32_POS_ZERO
    &&& vars.a2 == F32_POS_ZERO
    &&& vars.x_1 == F32_POS_ZERO
    &&& vars.x_2 == F32_POS_ZERO
    &&& vars.y_1 == F32_POS_ZERO
    &&& vars.y_2 == F32_POS_ZERO
}

/// Direct-form-1 biquad: rewrites every sample in ascending order to
/// `y[n] = b0*x[n] + b1*x[n-1] + b2*x[n-2] - a1*y[n-1] - a2*y[n-2]`,
/// reading the needed history into `vars` before overwriting, and
/// carrying the state across block boundaries. On return `vars` holds
/// the state after the last sample, so a further signal can be
/// processed in continuation.
///
/// An empty signal is rejected with `InvalidInput`, and both the signal
/// and the state are left unchanged. With the identity coefficient set
/// (`b0` 1.0, everything else +0.0) a signal of finite non-negative
/// samples is reproduced exactly.
pub fn biquad_filter(audio: &mut AudioMaterial, vars: &mut BiquadVars) -> (res: Result<
    (),
    FilterError,
>)
    requires
        old(audio).wf(),
    ensures
        final(audio).wf(),
        final(audio).same_shape(*old(audio)),
        res is Err <==> old(audio).blocks@.len() == 0,
        res is Err ==> *final(audio) == *old(audio) && *final(vars) == *old(vars) && res
            == Err::<(), FilterError>(FilterError::InvalidInput),
        final(audio).flat().len() == old(audio).flat().len(),
        res is Ok ==> forall|i: int|
            0 <= i < old(audio).flat().len() ==> final(audio).flat()[i] == biquad_out(
                *old(vars),
                old(audio).flat(),
                i,
            ),
        res is Ok ==> *final(vars) == biquad_vars_after(*old(vars), old(audio).flat()),
        (biquad_identity(*old(vars)) && (forall|i: int|
            0 <= i < old(audio).flat().len() ==> old(audio).flat()[i] < F32_POS_FINITE_END))
            ==> forall|i: int|
            0 <= i < final(audio).flat().len() ==> final(audio).flat()[i] == old(audio).flat()[i],
{
    if audio.blocks.len() == 0 {
        return Err(FilterError::InvalidInput);
    }
    let ghost xs = audio.flat();
    let ghost orig = audio.block_seq();
    let ghost v0 = *vars;
    let ghost nblocks = audio.blocks@.len() as int;
    let ghost bs_i = audio.block_size as int;
    let ghost rate0 = audio.sample_rate;
    let ghost identity = biquad_identity(v0) && (forall|i: int|
        0 <= i < xs.len() ==> xs[i] < F32_POS_FINITE_END);
    let mut block_nb: usize = 0;
    while block_nb < audio.blocks.len()
        invariant
            audio.wf(),
            audio.sample_rate == rate0,
            audio.block_size as int == bs_i,
            audio.blocks@.len() == nblocks,
            orig.len() == nblocks,
            uniform_blocks(orig, audio.block_size as nat),
            xs == flat_of(orig),
            identity == (biquad_identity(v0) && (forall|i: int|
                0 <= i < xs.len() ==> xs[i] < F32_POS_FINITE_END)),
            0 <= block_nb <= nblocks,
            vars.a1 == v0.a1 && vars.a2 == v0.a2 && vars.b0 == v0.b0 && vars.b1 == v0.b1
                && vars.b2 == v0.b2,
            vars.x_1 == biquad_in(v0, xs, block_nb * bs_i - 1),
            vars.x_2 == biquad_in(v0, xs, block_nb * bs_i - 2),
            vars.y_1 == biquad_out(v0, xs, block_nb * bs_i - 1),
            vars.y_2 == biquad_out(v0, xs, block_nb * bs_i - 2),
            forall|k: int| block_nb <= k < nblocks ==> (#[trigger] audio.blocks@[k])@ == orig[k],
            forall|k: int, j: int|
                0 <= k < block_nb && 0 <= j < bs_i ==> (#[trigger] audio.blocks@[k]@[j])
                    == biquad_out(v0, xs, k * bs_i + j),
            identity ==> vars.x_1 < F32_POS_FINITE_END && vars.x_2 < F32_POS_FINITE_END
                && vars.y_1 == vars.x_1 && vars.y_2 == vars.x_2,
            identity ==> forall|k: int, j: int|
                0 <= k < block_nb && 0 <= j < bs_i ==> (#[trigger] audio.blocks@[k]@[j]) == xs[k
                    * bs_i + j],
        decreases nblocks - block_nb,
    {
        let ghost base = block_nb * bs_i;
        proof {
            if block_nb == 0 {
                assert(base == 0) by (nonlinear_arith)
                    requires
                        base == block_nb * bs_i,
                        block_nb == 0,
                ;
            } else {
                assert(base >= bs_i) by (nonlinear_arith)
                    requires
                        base == block_nb * bs_i,
                        block_nb >= 1,
                        bs_i >= 1,
                ;
            }
        }
        let bs = audio.block_size;
        let mut new_block: Vec<u32> = Vec::new();
        let mut n: usize = 0;
        while n < bs
            invariant
                audio.wf(),
                audio.block_size as int == bs_i,
                bs as int == bs_i,
                audio.blocks@.len() == nblocks,
                orig.len() == nblocks,
                uniform_blocks(orig, audio.block_size as nat),
                xs == flat_of(orig),
                identity == (biquad_identity(v0) && (forall|i: int|
                    0 <= i < xs.len() ==> xs[i] < F32_POS_FINITE_END)),
                0 <= block_nb < nblocks,
                base == block_nb * bs_i,
                0 <= n <= bs_i,
                vars.a1 == v0.a1 && vars.a2 == v0.a2 && vars.b0 == v0.b0 && vars.b1 == v0.b1
                    && vars.b2 == v0.b2,
                vars.x_1 == biquad_in(v0, xs, base + n - 1),
                vars.x_2 == biquad_in(v0, xs, base + n - 2),
                vars.y_1 == biquad_out(v0, xs, base + n - 1),
                vars.y_2 == biquad_out(v0, xs, base + n - 2),
                forall|k: int|
                    block_nb <= k < nblocks ==> (#[trigger] audio.blocks@[k])@ == orig[k],
                new_block@.len() == n,
                forall|j: int|
                    0 <= j < n ==> (#[trigger] new_block@[j]) == biquad_out(v0, xs, base + j),
                identity ==> vars.x_1 < F32_POS_FINITE_END && vars.x_2 < F32_POS_FINITE_END
                    && vars.y_1 == vars.x_1 && vars.y_2 == vars.x_2,
                identity ==> forall|j: int|
                    0 <= j < n ==> (#[trigger] new_block@[j]) == xs[base + j],
            decreases bs_i - n,
        {
            proof {
                lemma_flat_index(orig, bs as nat, block_nb as int, n as int);
                assert(0 <= base + n < xs.len());
                assert(audio.blocks@[block_nb as int]@ == orig[block_nb as int]);
            }
            let x = audio.blocks[block_nb][n];
            assert(x == xs[base + n]);
            let mut result = f32_mul(vars.b0, x);
            result = f32_add(result, f32_mul(vars.b1, vars.x_1));
            result = f32_add(result, f32_mul(vars.b2, vars.x_2));
            result = f32_sub(result, f32_mul(vars.a1, vars.y_1));
            result = f32_sub(result, f32_mul(vars.a2, vars.y_2));
            proof {
                assert(result == biquad_out(v0, xs, base + n));
            }
            vars.x_2 = vars.x_1;
            vars.x_1 = x;
            vars.y_2 = vars.y_1;
            vars.y_1 = result;
            new_block.push(result);
            n = n + 1;
        }
        audio.blocks.set(block_nb, new_block);
        proof {
            assert(base + bs_i == (block_nb + 1) * bs_i) by (nonlinear_arith)
                requires
                    base == block_nb * bs_i,
            ;
        }
        block_nb = block_nb + 1;
    }
    proof {
        lemma_flat_len(audio.block_seq(), audio.block_size as nat);
        lemma_flat_len(orig, audio.block_size as nat);
        assert(nblocks * bs_i == xs.len());
        assert forall|i: int| 0 <= i < xs.len() implies audio.flat()[i] == biquad_out(
            v0,
            xs,
            i,
        ) by {
            lemma_flat_decompose(audio.block_seq(), audio.block_size as nat, i);
            assert(audio.block_seq()[i / bs_i] == audio.blocks@[i / bs_i]@);
        }
        assert(*vars == biquad_vars_after(v0, xs));
        if identity {
            assert forall|i: int| 0 <= i < audio.flat().len() implies audio.flat()[i] == xs[i] by {
                lemma_flat_decompose(audio.block_seq(), audio.block_size as nat, i);
            }
        }
    }
    Ok(())
}

/// Output of the low-pass comb filter at sample index `n` of the flat
/// input `xs`: `y[n] = x[n] + g1*y[n-3] + g2*x[n-5]`, accumulated left
/// to right in IEEE-754 binary32. A tap that reaches before the start
/// of the signal reads +0.0.
pub open spec fn comb_out(xs: Seq<u32>, g1: u32, g2: u32, n: int) -> u32
    decreases n,
{
    let fb = if n >= 3 {
        comb_out(xs, g1, g2, n - 3)
    } else {
        F32_POS_ZERO
    };
    let ff = if n >= 5 {
        xs[n - 5]
    } else {
        F32_POS_ZERO
    };
    add_bits(add_bits(xs[n], mul_bits(g1, fb)), mul_bits(g2, ff))
}

/// Low-pass comb filter with a feedback tap three samples back (gain
/// `g1`) and a feedforward tap five samples back on the input (gain
/// `g2`), both gains IEEE-754 binary32 bit patterns: rewrites every
/// sample in ascending order to `y[n] = x[n] + g1*y[n-3] + g2*x[n-5]`,
/// keeping the recent input and output history in scalars read before
/// any slot is overwritten, and carrying it across block boundaries.
/// Taps reaching before the start of the signal read zero.
///
/// An empty signal is rejected with `InvalidInput` and left unchanged.
pub fn low_pass_comb_filter(audio: &mut AudioMaterial, g1: u32, g2: u32) -> (res: Result<
    (),
    FilterError,
>)
    requires
        old(audio).wf(),
    ensures
        final(audio).wf(),
        final(audio).same_shape(*old(audio)),
        res is Err <==> old(audio).blocks@.len() == 0,
        res is Err ==> *final(audio) == *old(audio) && res == Err::<(), FilterError>(
            FilterError::InvalidInput,
        ),
        final(audio).flat().len() == old(audio).flat().len(),
        res is Ok ==> forall|i: int|
            0 <= i < old(audio).flat().len() ==> final(audio).flat()[i] == comb_out(
                old(audio).flat(),
                g1,
                g2,
                i,
            ),
{
    if audio.blocks.len() == 0 {
        return Err(FilterError::InvalidInput);
    }
    let ghost xs = audio.flat();
    let ghost orig = audio.block_seq();
    let ghost nblocks = audio.blocks@.len() as int;
    let ghost bs_i = audio.block_size as int;
    let ghost rate0 = audio.sample_rate;
    let mut yh1: u32 = F32_POS_ZERO;
    let mut yh2: u32 = F32_POS_ZERO;
    let mut yh3: u32 = F32_POS_ZERO;
    let mut xh1: u32 = F32_POS_ZERO;
    let mut xh2: u32 = F32_POS_ZERO;
    let mut xh3: u32 = F32_POS_ZERO;
    let mut xh4: u32 = F32_POS_ZERO;
    let mut xh5: u32 = F32_POS_ZERO;
    let ghost yh_ok = |cnt: int, h: int, v: u32|
        v == if cnt >= h {
            comb_out(xs, g1, g2, cnt - h)
        } else {
            F32_POS_ZERO
        };
    let ghost xh_ok = |cnt: int, h: int, v: u32|
        v == if cnt >= h {
            xs[cnt - h]
        } else {
            F32_POS_ZERO
        };
    let mut block_nb: usize = 0;
    while block_nb < audio.blocks.len()
        invariant
            audio.wf(),
            audio.sample_rate == rate0,
            audio.block_size as int == bs_i,
            audio.blocks@.len() == nblocks,
            orig.len() == nblocks,
            uniform_blocks(orig, audio.block_size as nat),
            xs == flat_of(orig),
            0 <= block_nb <= nblocks,
            yh_ok == (|cnt: int, h: int, v: u32|
                v == if cnt >= h {
                    comb_out(xs, g1, g2, cnt - h)
                } else {
                    F32_POS_ZERO
                }),
            xh_ok == (|cnt: int, h: int, v: u32|
                v == if cnt >= h {
                    xs[cnt - h]
                } else {
                    F32_POS_ZERO
                }),
            yh_ok(block_nb * bs_i, 1int, yh1),
            yh_ok(block_nb * bs_i, 2int, yh2),
            yh_ok(block_nb * bs_i, 3int, yh3),
            xh_ok(block_nb * bs_i, 1int, xh1),
            xh_ok(block_nb * bs_i, 2int, xh2),
            xh_ok(block_nb * bs_i, 3int, xh3),
            xh_ok(block_nb * bs_i, 4int, xh4),
            xh_ok(block_nb * bs_i, 5int, xh5),
            forall|k: int| block_nb <= k < nblocks ==> (#[trigger] audio.blocks@[k])@ == orig[k],
            forall|k: int, j: int|
                0 <= k < block_nb && 0 <= j < bs_i ==> (#[trigger] audio.blocks@[k]@[j])
                    == comb_out(xs, g1, g2, k * bs_i + j),
        decreases nblocks - block_nb,
    {
        let ghost base = block_nb * bs_i;
        let bs = audio.block_size;
        let mut new_block: Vec<u32> = Vec::new();
        let mut n: usize = 0;
        while n < bs
            invariant
                audio.wf(),
                audio.block_size as int == bs_i,
                bs as int == bs_i,
                audio.blocks@.len() == nblocks,
                orig.len() == nblocks,
                uniform_blocks(orig, audio.block_size as nat),
                xs == flat_of(orig),
                0 <= block_nb < nblocks,
                base == block_nb * bs_i,
                0 <= n <= bs_i,
                yh_ok == (|cnt: int, h: int, v: u32|
                    v == if cnt >= h {
                        comb_out(xs, g1, g2, cnt - h)
                    } else {
                        F32_POS_ZERO
                    }),
                xh_ok == (|cnt: int, h: int, v: u32|
                    v == if cnt >= h {
                        xs[cnt - h]
                    } else {
                        F32_POS_ZERO
                    }),
                yh_ok(base + n, 1int, yh1),
                yh_ok(base + n, 2int, yh2),
                yh_ok(base + n, 3int, yh3),
                xh_ok(base + n, 1int, xh1),
                xh_ok(base + n, 2int, xh2),
                xh_ok(base + n, 3int, xh3),
                xh_ok(base + n, 4int, xh4),
                xh_ok(base + n, 5int, xh5),
                forall|k: int|
                    block_nb <= k < nblocks ==> (#[trigger] audio.blocks@[k])@ == orig[k],
                new_block@.len() == n,
                forall|j: int|
                    0 <= j < n ==> (#[trigger] new_block@[j]) == comb_out(xs, g1, g2, base + j),
            decreases bs_i - n,
        {
            proof {
                lemma_flat_index(orig, bs as nat, block_nb as int, n as int);
                assert(0 <= base + n < xs.len());
                assert(audio.blocks@[block_nb as int]@ == orig[block_nb as int]);
            }
            let x = audio.blocks[block_nb][n];
            assert(x == xs[base + n]);
            let y = f32_add(f32_add(x, f32_mul(g1, yh3)), f32_mul(g2, xh5));
            proof {
                assert(y == comb_out(xs, g1, g2, base + n));
            }
            new_block.push(y);
            yh3 = yh2;
            yh2 = yh1;
            yh1 = y;
            xh5 = xh4;
            xh4 = xh3;
            xh3 = xh2;
            xh2 = xh1;
            xh1 = x;
            n = n + 1;
        }
        audio.blocks.set(block_nb, new_block);
        proof {
            assert(base + bs_i == (block_nb + 1) * bs_i) by (nonlinear_arith)
                requires
                    base == block_nb * bs_i,
            ;
        }
        block_nb = block_nb + 1;
    }
    proof {
        lemma_flat_len(audio.block_seq(), audio.block_size as nat);
        lemma_flat_len(orig, audio.block_size as nat);
        assert forall|i: int| 0 <= i < xs.len() implies audio.flat()[i] == comb_out(
            xs,
            g1,
            g2,
            i,
        ) by {
            lemma_flat_decompose(audio.block_seq(), audio.block_size as nat, i);
            assert(audio.block_seq()[i / bs_i] == audio.blocks@[i / bs_i]@);
        }
    }
    Ok(())
}

/// The biquad's output at an index depends only on the input samples
/// up to that index.
pub proof fn lemma_biquad_prefix(vars: BiquadVars, xs1: Seq<u32>, xs2: Seq<u32>, n: int)
    requires
        forall|k: int| 0 <= k <= n ==> xs1[k] == xs2[k],
    ensures
        biquad_out(vars, xs1, n) == biquad_out(vars, xs2, n),
    decreases n + 2,
{
    if n >= 0 {
        lemma_biquad_prefix(vars, xs1, xs2, n - 1);
        lemma_biquad_prefix(vars, xs1, xs2, n - 2);
        assert(biquad_in(vars, xs1, n - 1) == biquad_in(vars, xs2, n - 1));
        assert(biquad_in(vars, xs1, n - 2) == biquad_in(vars, xs2, n - 2));
    }
}

/// The biquad's output within the second of two concatenated blocks
/// equals its output when the second block is processed alone from the
/// state left behind by the first.
pub proof fn lemma_biquad_continuity_at(vars: BiquadVars, a: Seq<u32>, b: Seq<u32>, n: int)
    requires
        -2 <= n < b.len(),
    ensures
        biquad_out(biquad_vars_after(vars, a), b, n) == biquad_out(vars, a + b, a.len() + n),
    decreases n + 2,
{
    let w = biquad_vars_after(vars, a);
    let s = a + b;
    let m = a.len() + n;
    if n >= 0 {
        lemma_biquad_continuity_at(vars, a, b, n - 1);
        lemma_biquad_continuity_at(vars, a, b, n - 2);
        assert(s[m] == b[n]);
        assert(biquad_in(w, b, n - 1) == biquad_in(vars, s, m - 1)) by {
            if n - 1 >= 0 {
                assert(s[m - 1] == b[n - 1]);
            } else if a.len() >= 1 {
                assert(s[a.len() - 1] == a[a.len() - 1]);
            }
        }
        assert(biquad_in(w, b, n - 2) == biquad_in(vars, s, m - 2)) by {
            if n - 2 >= 0 {
                assert(s[m - 2] == b[n - 2]);
            } else if n == 1 {
                if a.len() >= 1 {
                    assert(s[a.len() - 1] == a[a.len() - 1]);
                }
            } else {
                if a.len() >= 2 {
                    assert(s[a.len() - 2] == a[a.len() - 2]);
                }
            }
        }
    } else {
        assert(forall|k: int| 0 <= k <= m ==> a[k] == s[k]);
        lemma_biquad_prefix(vars, a, s, m);
    }
}

/// Law of block continuity for the biquad: processing two consecutive
/// blocks with the filter state carried across the boundary yields
/// exactly the outputs and the final state of processing their
/// concatenation as one block of double length.
pub proof fn lemma_biquad_block_continuity(vars: BiquadVars, a: Seq<u32>, b: Seq<u32>)
    ensures
        forall|n: int|
            0 <= n < a.len() ==> #[trigger] biquad_out(vars, a, n) == biquad_out(vars, a + b, n),
        forall|n: int|
            0 <= n < b.len() ==> #[trigger] biquad_out(biquad_vars_after(vars, a), b, n)
                == biquad_out(vars, a + b, a.len() + n),
        biquad_vars_after(biquad_vars_after(vars, a), b) == biquad_vars_after(vars, a + b),
{
    let w = biquad_vars_after(vars, a);
    let s = a + b;
    assert forall|n: int| 0 <= n < a.len() implies #[trigger] biquad_out(vars, a, n) == biquad_out(
        vars,
        s,
        n,
    ) by {
        assert(forall|k: int| 0 <= k <= n ==> a[k] == s[k]);
        lemma_biquad_prefix(vars, a, s, n);
    }
    assert forall|n: int| 0 <= n < b.len() implies #[trigger] biquad_out(w, b, n) == biquad_out(
        vars,
        s,
        a.len() + n,
    ) by {
        lemma_biquad_continuity_at(vars, a, b, n);
    }
    lemma_biquad_continuity_at(vars, a, b, b.len() - 1);
    lemma_biquad_continuity_at(vars, a, b, b.len() - 2);
    assert(biquad_vars_after(w, b).y_1 == biquad_vars_after(vars, s).y_1);
    assert(biquad_vars_after(w, b).y_2 == biquad_vars_after(vars, s).y_2);
    assert(biquad_vars_after(w, b).x_1 == biquad_vars_after(vars, s).x_1) by {
        if b.len() >= 1 {
            assert(s[s.len() - 1] == b[b.len() - 1]);
        } else if a.len() >= 1 {
            assert(s[s.len() - 1] == a[a.len() - 1]);
        }
    }
    assert(biquad_vars_after(w, b).x_2 == biquad_vars_after(vars, s).x_2) by {
        if b.len() >= 2 {
            assert(s[s.len() - 2] == b[b.len() - 2]);
        } else if b.len() == 1 {
            if a.len() >= 1 {
                assert(s[s.len() - 2] == a[a.len() - 1]);
            }
        } else {
            if a.len() >= 2 {
                assert(s[s.len() - 2] == a[a.len() - 2]);
            }
        }
    }
}

} // verus!
