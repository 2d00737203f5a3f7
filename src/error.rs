use vstd::prelude::*;

verus! {

/// The ways an operation of the codec can fail.
#[derive(Debug, Clone, Copy, PartialEq, Eq, Structural)]
pub enum CodecError {
    /// A radix below 2 was given to the radix converter.
    InvalidRadix,
    /// A digit was not below the radix it was written in.
    InvalidDigit,
    /// The frame does not fit in the carrier.
    PayloadTooLarge,
    /// An escape byte was followed by no code, or by an unknown code.
    MalformedPayload,
}

} // verus!
