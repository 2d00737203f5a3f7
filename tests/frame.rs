use datavideo::{
    convert_back_with_0_and_255, convert_to_sdi_safe_payload, read_frame, write_frame,
    CodecError, MAGIC_NUMBER,
};

const FRAME_SIZE: usize = 1920 * 1080 * 4;

#[test]
fn hello_world_tagged_frame() {
    let mut carrier = vec![0u8; FRAME_SIZE];
    assert_eq!(write_frame(&mut carrier, b"Hello world", true), Ok(()));
    assert_eq!(carrier[0..4], [0xDE, 0xAD, 0xB0, 0x0B]);
    let word = u32::from_be_bytes([carrier[4], carrier[5], carrier[6], carrier[7]]);
    assert_eq!(convert_back_with_0_and_255(word), 11);
    assert!(carrier[4..8].iter().all(|&b| b != 0 && b != 255));
    assert_eq!(carrier[4..8], [1, 1, 1, 12]);
    assert_eq!(&carrier[8..19], b"Hello world");
    assert!(carrier[19..].iter().all(|&b| b == 0));
    assert_eq!(read_frame(&carrier, true), Ok(Some(b"Hello world".to_vec())));
}

#[test]
fn all_zero_carrier_has_no_payload() {
    let carrier = vec![0u8; FRAME_SIZE];
    assert_eq!(read_frame(&carrier, true), Ok(None));
    assert_eq!(read_frame(&carrier, false), Ok(None));
}

#[test]
fn foreign_carrier_has_no_payload() {
    let mut carrier = vec![0u8; 64];
    assert_eq!(write_frame(&mut carrier, b"abc", true), Ok(()));
    carrier[0] = 0xDF;
    assert_eq!(read_frame(&carrier, true), Ok(None));
    let noise: Vec<u8> = (0..1000u32).map(|i| (i * 7 % 251) as u8).collect();
    assert_eq!(read_frame(&noise, true), Ok(None));
}

#[test]
fn frame_round_trip_with_reserved_bytes() {
    let payload = vec![0u8, 254, 255, 7, 0, 0];
    let mut carrier = vec![0xAAu8; 100];
    assert_eq!(write_frame(&mut carrier, &payload, true), Ok(()));
    assert_eq!(read_frame(&carrier, true), Ok(Some(payload.clone())));
    assert!(carrier[8 + 11..].iter().all(|&b| b == 0xAA));
}

#[test]
fn untagged_frame_round_trip() {
    let mut carrier = vec![0u8; 32];
    assert_eq!(write_frame(&mut carrier, b"data", false), Ok(()));
    assert_eq!(&carrier[4..8], b"data");
    assert_eq!(read_frame(&carrier, false), Ok(Some(b"data".to_vec())));
}

#[test]
fn frame_exactly_fills_carrier() {
    let payload = [1u8, 2, 255];
    let escaped = convert_to_sdi_safe_payload(&payload);
    let mut carrier = vec![0u8; escaped.len() + 8];
    assert_eq!(write_frame(&mut carrier, &payload, true), Ok(()));
    assert_eq!(read_frame(&carrier, true), Ok(Some(payload.to_vec())));
}

#[test]
fn frame_too_large_leaves_carrier() {
    let payload = [1u8, 2, 255];
    let mut carrier = vec![9u8; 11];
    assert_eq!(
        write_frame(&mut carrier, &payload, true),
        Err(CodecError::PayloadTooLarge)
    );
    assert_eq!(carrier, vec![9u8; 11]);
    let mut tiny = vec![9u8; 3];
    assert_eq!(write_frame(&mut tiny, &[], false), Err(CodecError::PayloadTooLarge));
}

#[test]
fn empty_payload_frame_reads_as_no_payload() {
    let mut carrier = vec![5u8; 16];
    assert_eq!(write_frame(&mut carrier, &[], true), Ok(()));
    assert_eq!(carrier[4..8], [1, 1, 1, 1]);
    assert_eq!(read_frame(&carrier, true), Ok(None));
}

#[test]
fn declared_length_past_end_is_no_payload() {
    let mut carrier = vec![0u8; 12];
    carrier[0..4].copy_from_slice(&MAGIC_NUMBER.to_be_bytes());
    // length 5, but only 4 bytes follow the header
    carrier[4..8].copy_from_slice(&[1, 1, 1, 6]);
    assert_eq!(read_frame(&carrier, true), Ok(None));
    carrier[4..8].copy_from_slice(&[1, 1, 1, 5]);
    assert_eq!(read_frame(&carrier, true), Ok(Some(vec![0, 0, 0, 0])));
}

#[test]
fn reserved_byte_in_length_is_no_payload() {
    let mut carrier = vec![1u8; 12];
    carrier[0..4].copy_from_slice(&MAGIC_NUMBER.to_be_bytes());
    carrier[4..8].copy_from_slice(&[1, 1, 255, 2]);
    assert_eq!(read_frame(&carrier, true), Ok(None));
}

#[test]
fn malformed_frame_payload() {
    let mut carrier = vec![0u8; 12];
    carrier[0..4].copy_from_slice(&MAGIC_NUMBER.to_be_bytes());
    carrier[4..8].copy_from_slice(&[1, 1, 1, 3]);
    carrier[8] = 254;
    carrier[9] = 9;
    assert_eq!(read_frame(&carrier, true), Err(CodecError::MalformedPayload));
}

#[test]
fn short_carrier_has_no_payload() {
    assert_eq!(read_frame(&[0xDE, 0xAD, 0xB0, 0x0B, 1, 1], true), Ok(None));
    assert_eq!(read_frame(&[], false), Ok(None));
}
