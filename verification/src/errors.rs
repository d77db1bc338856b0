use vstd::prelude::*;

verus! {

/// Failure taxonomy of the library: sources that cannot be decoded,
/// destinations that cannot be written, coefficient inputs out of
/// range, and malformed signals handed to a filter.
#[derive(Clone, Copy, Debug, PartialEq, Eq, Structural)]
pub enum FilterError {
    DecodeError,
    EncodeError,
    InvalidParameter,
    InvalidInput,
}

} // verus!
