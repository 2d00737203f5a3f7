//! A codec that carries a short byte payload through a raw video frame whose
//! transport reserves some byte values (notably `0x00` and `0xFF`).
//!
//! - `radix`: re-expresses a numeral of one base in another base.
//! - `safe_value`: maps a 32-bit value to four bytes that avoid the reserved values.
//! - `encoding`: the escape codec and the two-reserved-value length variant.
//! - `utils`: the zero-free length variant.
//! - `frame`: the frame format (magic marker, safe length, escaped payload).

pub mod error;
pub mod radix;
pub mod safe_value;
pub mod encoding;
pub mod utils;
pub mod frame;

pub use error::CodecError;
pub use encoding::{
    convert_back_with_0_and_255, convert_from_sdi_safe_payload, convert_to_sdi_safe_payload,
    convert_without_0_and_255, ESCAPE_BYTE, MAGIC_NUMBER,
};
pub use frame::{read_frame, write_frame, LENGTH_LIMIT};
pub use radix::convert;
pub use safe_value::{decode_safe_u32, encode_safe_u32, try_decode_safe_u32};
pub use utils::{convert_back_with_zeros, convert_without_zeros};
