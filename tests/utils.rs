use datavideo::{convert_back_with_zeros, convert_without_zeros, try_decode_safe_u32};

#[test]
fn utils_convert_without_zeros_works() {
    assert_eq!(u32::from_be_bytes([0, 0, 0, 255]), 255);
    assert_eq!(u32::from_le_bytes([255, 0, 0, 0]), 255);
    assert_eq!(
        u32::to_be_bytes(convert_without_zeros(u32::from_be_bytes([0, 0, 0, 0]))),
        [1, 1, 1, 1]
    );
    assert_eq!(
        u32::to_be_bytes(convert_without_zeros(u32::from_be_bytes([0, 0, 0, 1]))),
        [1, 1, 1, 2]
    );
    assert_eq!(
        u32::to_be_bytes(convert_without_zeros(u32::from_be_bytes([0, 0, 0, 255]))),
        [1, 1, 2, 1]
    );
}

#[test]
fn utils_convert_back_with_zeros_works() {
    assert_eq!(convert_back_with_zeros(convert_without_zeros(0)), 0);
    assert_eq!(convert_back_with_zeros(convert_without_zeros(1)), 1);
    assert_eq!(convert_back_with_zeros(convert_without_zeros(255)), 255);
    assert_eq!(
        convert_back_with_zeros(convert_without_zeros(345634)),
        345634
    );
}

#[test]
fn safe_255_bytes_avoid_zero() {
    for v in [0u32, 254, 255, 65025, 16581375, 4228250624, 0xFFFF_FFFF] {
        for b in convert_without_zeros(v).to_le_bytes() {
            assert_ne!(b, 0);
        }
    }
}

#[test]
fn safe_255_round_trip_edges() {
    for v in [0u32, 254, 255, 65024, 65025, 16581375, 4228250624] {
        assert_eq!(convert_back_with_zeros(convert_without_zeros(v)), v);
    }
    assert_eq!(convert_without_zeros(4228250624), 0xFFFF_FFFF);
}

#[test]
fn try_decode_rejects_reserved_bytes() {
    assert_eq!(try_decode_safe_u32(0x0101_0100, 254), None);
    assert_eq!(try_decode_safe_u32(0x01FF_0101, 254), None);
    assert_eq!(try_decode_safe_u32(0x01FF_0101, 255), Some(convert_back_with_zeros(0x01FF_0101)));
    assert_eq!(try_decode_safe_u32(0x0101_0102, 254), Some(1));
}
