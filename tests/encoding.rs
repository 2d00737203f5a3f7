use datavideo::{
    convert_back_with_0_and_255, convert_from_sdi_safe_payload, convert_to_sdi_safe_payload,
    convert_without_0_and_255, CodecError,
};

#[test]
fn convert_to_and_from_sdi_safe_payload_works() {
    let payload1 = [0, 2, 3, 4, 254, 255];

    assert_eq!(
        convert_to_sdi_safe_payload(&payload1),
        [254, 1, 2, 3, 4, 254, 2, 254, 3]
    );

    assert_eq!(
        convert_from_sdi_safe_payload(&convert_to_sdi_safe_payload(&payload1)),
        Ok(vec![0, 2, 3, 4, 254, 255])
    );

    let mut large_payload: Vec<u8> = vec![1; 1024 * 10];

    large_payload[103] = 255;

    assert_eq!(
        convert_from_sdi_safe_payload(&convert_to_sdi_safe_payload(&large_payload)),
        Ok(large_payload)
    );
}

#[test]
fn encoding_convert_without_zeros_works() {
    assert_eq!(u32::from_be_bytes([0, 0, 0, 255]), 255);
    assert_eq!(u32::from_le_bytes([255, 0, 0, 0]), 255);
    assert_eq!(
        u32::to_be_bytes(convert_without_0_and_255(u32::from_be_bytes([0, 0, 0, 0]))),
        [1, 1, 1, 1]
    );
    assert_eq!(
        u32::to_be_bytes(convert_without_0_and_255(u32::from_be_bytes([0, 0, 0, 1]))),
        [1, 1, 1, 2]
    );
    assert_eq!(
        u32::to_be_bytes(convert_without_0_and_255(u32::from_be_bytes([0, 0, 0, 255]))),
        [1, 1, 2, 2]
    );
}

#[test]
fn encoding_convert_back_with_zeros_works() {
    assert_eq!(convert_back_with_0_and_255(convert_without_0_and_255(0)), 0);
    assert_eq!(convert_back_with_0_and_255(convert_without_0_and_255(1)), 1);
    assert_eq!(
        convert_back_with_0_and_255(convert_without_0_and_255(255)),
        255
    );
    assert_eq!(
        convert_back_with_0_and_255(convert_without_0_and_255(345634)),
        345634
    );
}

#[test]
fn escape_edge_case_bytes() {
    let payload = [0x00u8, 0x02, 0x03, 0x04, 0xFE, 0xFF];
    let encoded = convert_to_sdi_safe_payload(&payload);
    assert_eq!(encoded, vec![254, 1, 2, 3, 4, 254, 2, 254, 3]);
    assert_eq!(convert_from_sdi_safe_payload(&encoded), Ok(payload.to_vec()));
}

#[test]
fn escape_round_trip_every_byte_value() {
    let payload: Vec<u8> = (0..=255u8).chain((0..=255u8).rev()).collect();
    let encoded = convert_to_sdi_safe_payload(&payload);
    assert!(encoded.iter().all(|&b| b != 0 && b != 255));
    assert!(encoded.len() <= 2 * payload.len());
    assert_eq!(encoded.len(), payload.len() + 6);
    assert_eq!(convert_from_sdi_safe_payload(&encoded), Ok(payload));
}

#[test]
fn escape_empty_payload() {
    assert_eq!(convert_to_sdi_safe_payload(&[]), Vec::<u8>::new());
    assert_eq!(convert_from_sdi_safe_payload(&[]), Ok(Vec::new()));
}

#[test]
fn escape_longest_payload_round_trips() {
    let payload: Vec<u8> = (0..65535u32).map(|i| (i % 256) as u8).collect();
    let encoded = convert_to_sdi_safe_payload(&payload);
    assert_eq!(convert_from_sdi_safe_payload(&encoded), Ok(payload));
}

#[test]
fn unescape_trailing_escape_byte_is_malformed() {
    assert_eq!(
        convert_from_sdi_safe_payload(&[1, 2, 254]),
        Err(CodecError::MalformedPayload)
    );
}

#[test]
fn unescape_unknown_code_is_malformed() {
    assert_eq!(
        convert_from_sdi_safe_payload(&[254, 4, 1]),
        Err(CodecError::MalformedPayload)
    );
    assert_eq!(
        convert_from_sdi_safe_payload(&[254, 0]),
        Err(CodecError::MalformedPayload)
    );
}

#[test]
fn safe_254_bytes_avoid_zero_and_255() {
    for v in [0u32, 1, 253, 254, 255, 64515, 64516, 16387063, 16387064, 4162314255, 0xFFFF_FFFF] {
        let w = convert_without_0_and_255(v);
        for b in w.to_le_bytes() {
            assert!(b != 0 && b != 255, "value {} gives byte {}", v, b);
        }
    }
}

#[test]
fn safe_254_round_trip_edges() {
    for v in [0u32, 1, 11, 253, 254, 64516, 16387064, 123456789, 4162314255] {
        assert_eq!(convert_back_with_0_and_255(convert_without_0_and_255(v)), v);
    }
}

#[test]
fn safe_254_largest_four_digit_value() {
    assert_eq!(convert_without_0_and_255(4162314255), u32::from_le_bytes([254, 254, 254, 254]));
    assert_eq!(convert_back_with_0_and_255(u32::from_le_bytes([254, 254, 254, 254])), 4162314255);
}

#[test]
fn safe_254_wraps_past_four_digits() {
    assert_eq!(
        convert_without_0_and_255(0xFFFF_FFFF),
        convert_without_0_and_255(0xFFFF_FFFF - 4162314256)
    );
    assert_eq!(
        convert_back_with_0_and_255(convert_without_0_and_255(0xFFFF_FFFF)),
        0xFFFF_FFFF - 4162314256
    );
}

#[test]
fn safe_254_encodes_eleven() {
    assert_eq!(convert_without_0_and_255(11), u32::from_le_bytes([12, 1, 1, 1]));
}
