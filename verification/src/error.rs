use vstd::prelude::*;

verus! {

/// The errors shared by the codecs of this crate.
///
/// `ContinuationBitInLastByte` reports a truncated variable-length integer:
/// the input ended while the continuation bit of its last byte was still set.
/// `Overflow` reports a variable-length integer whose value does not fit the
/// target integer width. `InvalidData` reports a corrupted compressed stream,
/// such as a dictionary code that no decoder state can resolve.
#[derive(Clone, Copy, Debug, PartialEq, Eq, Structural)]
pub enum AthenaError {
    InvalidInput,
    InvalidOutput,
    InvalidData,
    InsufficientBuffer,
    ContinuationBitInLastByte,
    Overflow,
}

impl AthenaError {
    /// A short human-readable name for the error.
    pub fn describe(&self) -> (r: &'static str)
        ensures
            r@.len() > 0,
    {
        proof {
            reveal_strlit("invalid input");
            reveal_strlit("invalid output");
            reveal_strlit("invalid data");
            reveal_strlit("insufficient buffer");
            reveal_strlit("continuation bit in last byte");
            reveal_strlit("overflow");
        }
        match self {
            AthenaError::InvalidInput => "invalid input",
            AthenaError::InvalidOutput => "invalid output",
            AthenaError::InvalidData => "invalid data",
            AthenaError::InsufficientBuffer => "insufficient buffer",
            AthenaError::ContinuationBitInLastByte => "continuation bit in last byte",
            AthenaError::Overflow => "overflow",
        }
    }
}

} // verus!
