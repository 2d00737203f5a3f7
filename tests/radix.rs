use datavideo::{convert, CodecError};

#[test]
fn radix_decimal_to_binary() {
    assert_eq!(convert(&[1, 0], 10, 2), Ok(vec![1, 0, 1, 0]));
}

#[test]
fn radix_zero_is_empty() {
    assert_eq!(convert(&[0, 0, 0], 256, 254), Ok(vec![]));
    assert_eq!(convert(&[], 10, 2), Ok(vec![]));
}

#[test]
fn radix_leading_zeros_dropped() {
    assert_eq!(convert(&[0, 0, 1, 255], 256, 16), Ok(vec![1, 15, 15]));
}

#[test]
fn radix_wide_input() {
    // 2^128 - 1: sixteen digits of base 256, eight of base 65536.
    let digits = vec![255u32; 16];
    assert_eq!(convert(&digits, 256, 65536), Ok(vec![65535; 8]));
    assert_eq!(convert(&vec![65535u32; 8], 65536, 256), Ok(digits));
}

#[test]
fn radix_u32_max_base_254() {
    assert_eq!(convert(&[255, 255, 255, 255], 256, 254), Ok(vec![1, 8, 24, 32, 15]));
}

#[test]
fn radix_invalid_radix() {
    assert_eq!(convert(&[1], 1, 10), Err(CodecError::InvalidRadix));
    assert_eq!(convert(&[1], 10, 0), Err(CodecError::InvalidRadix));
    assert_eq!(convert(&[12], 10, 1), Err(CodecError::InvalidRadix));
}

#[test]
fn radix_invalid_digit() {
    assert_eq!(convert(&[1, 10], 10, 2), Err(CodecError::InvalidDigit));
}
