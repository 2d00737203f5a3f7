//! The length re-mapping that avoids `0x00` only.
use vstd::prelude::*;
use crate::safe_value::{decode_safe_u32, encode_safe_u32, safe_bytes, safe_decoded, safe_encoded};

verus! {

/// The safe form of `x` in base 255: no byte of it is `0x00`.
pub fn convert_without_zeros(x: u32) -> (r: u32)
    ensures
        r == safe_encoded(x as int, 255),
        safe_bytes(r as int, 255),
{
    encode_safe_u32(x, 255)
}

/// The value that the base-255 safe word `x` stands for.
pub fn convert_back_with_zeros(x: u32) -> (r: u32)
    requires
        safe_bytes(x as int, 255),
    ensures
        r == safe_decoded(x as int, 255),
{
    decode_safe_u32(x, 255)
}

} // verus!
