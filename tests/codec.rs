use blot::codec::{decode, encode, pack, unpack, CodecError, DELIMITER};

fn round_trip(msg: &str, payload: &[u8], index: u8) {
    let wire = encode(msg, payload, index).expect("fields fit");
    let frame = decode(&wire).expect("a frame that encode produced");
    assert_eq!(frame.msg, msg);
    assert_eq!(frame.payload, payload.to_vec());
    assert_eq!(frame.index, index);
}

#[test]
fn round_trip_plain_command() {
    round_trip("motorsOn", &[], 1);
}

#[test]
fn round_trip_payload_with_zero_bytes() {
    round_trip("go", &[0, 0, 72, 65, 0, 0, 64, 192], 3);
    round_trip("servo", &[0, 0, 0, 0], 0);
}

#[test]
fn round_trip_largest_fields_and_index() {
    let msg = "m".repeat(255);
    let payload: Vec<u8> = (0..255u32).map(|b| b as u8).collect();
    round_trip(&msg, &payload, 255);
    round_trip("", &[], 0);
}

#[test]
fn round_trip_non_ascii_message() {
    round_trip("h\u{e9}llo", &[1, 2, 3], 8);
}

#[test]
fn oversize_message_is_rejected() {
    let msg = "m".repeat(256);
    assert_eq!(encode(&msg, &[], 1), Err(CodecError::Oversize));
    assert_eq!(pack(&msg, &[], 1), Err(CodecError::Oversize));
}

#[test]
fn oversize_payload_is_rejected() {
    let payload = vec![7u8; 256];
    assert_eq!(encode("go", &payload, 1), Err(CodecError::Oversize));
    let payload = vec![0u8; 1000];
    assert_eq!(encode("go", &payload, 1), Err(CodecError::Oversize));
}

#[test]
fn encoded_frame_has_only_its_final_delimiter() {
    for payload in [vec![0u8; 255], vec![], vec![0u8], vec![1u8; 255]] {
        let wire = encode("go", &payload, 0).unwrap();
        assert_eq!(*wire.last().unwrap(), DELIMITER);
        assert!(wire[..wire.len() - 1].iter().all(|&b| b != DELIMITER));
    }
}

#[test]
fn pack_lays_out_fields() {
    assert_eq!(pack("go", &[1, 2], 4), Ok(vec![2, b'g', b'o', 2, 1, 2, 4]));
    assert_eq!(pack("", &[], 9), Ok(vec![0, 0, 9]));
}

#[test]
fn encode_stuffs_packed_buffer() {
    assert_eq!(encode("ack", &[], 1), Ok(vec![5, 3, b'a', b'c', b'k', 2, 1, 0]));
}

#[test]
fn unpack_reads_fields() {
    let f = unpack(&[2, b'g', b'o', 2, 9, 8, 4]).unwrap();
    assert_eq!(f.msg, "go");
    assert_eq!(f.payload, vec![9, 8]);
    assert_eq!(f.index, 4);
    let f = unpack(&[2, 0xc3, 0xa9, 0, 6, 99]).unwrap();
    assert_eq!(f.msg, "\u{e9}");
    assert_eq!(f.index, 6);
}

#[test]
fn unpack_rejects_short_buffers() {
    assert!(matches!(unpack(&[]), Err(CodecError::Malformed)));
    assert!(matches!(unpack(&[5, 1]), Err(CodecError::Malformed)));
    assert!(matches!(unpack(&[1, b'a', 3, 1, 2]), Err(CodecError::Malformed)));
}

#[test]
fn unpack_rejects_invalid_text() {
    assert!(matches!(unpack(&[1, 0xff, 0, 0]), Err(CodecError::Malformed)));
}

#[test]
fn decode_rejects_bad_frames() {
    assert!(matches!(decode(&[]), Err(CodecError::Malformed)));
    assert!(matches!(decode(&[5, 3, b'a', b'c', b'k', 2, 1]), Err(CodecError::Malformed)));
    assert!(matches!(decode(&[9, 1, 0]), Err(CodecError::Malformed)));
    assert!(matches!(decode(&[3, 0, 1, 0]), Err(CodecError::Malformed)));
}
