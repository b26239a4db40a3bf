use locallink::protocol::{decode_frame_header, encode_frame, FrameError, FRAME_PING, MAX_FRAME_PAYLOAD};

#[test]
fn encode_frame_lays_out_kind_seq_len_payload() {
    let bytes = encode_frame(FRAME_PING, 0x0102030405060708, b"hi").ok().expect("small payload");
    assert_eq!(bytes, vec![2, 1, 2, 3, 4, 5, 6, 7, 8, 0, 0, 0, 2, b'h', b'i']);
}

#[test]
fn frame_header_round_trips() {
    let bytes = encode_frame(9, 77, &[1, 2, 3, 4, 5]).ok().expect("small payload");
    let header = decode_frame_header(&bytes[..13]).ok().expect("valid header");
    assert_eq!(header.kind, 9);
    assert_eq!(header.seq, 77);
    assert_eq!(header.len, 5);
    assert_eq!(&bytes[13..], &[1, 2, 3, 4, 5]);
}

#[test]
fn oversized_payload_is_refused() {
    let payload = vec![0u8; MAX_FRAME_PAYLOAD + 1];
    assert!(matches!(encode_frame(1, 0, &payload), Err(FrameError::PayloadTooLarge)));
}

#[test]
fn oversized_header_length_is_refused() {
    let header = [1u8, 0, 0, 0, 0, 0, 0, 0, 0, 0xff, 0xff, 0xff, 0xff];
    assert!(matches!(decode_frame_header(&header), Err(FrameError::FrameTooLarge)));
    let limit = (MAX_FRAME_PAYLOAD as u32).to_be_bytes();
    let ok = [1u8, 0, 0, 0, 0, 0, 0, 0, 0, limit[0], limit[1], limit[2], limit[3]];
    assert_eq!(decode_frame_header(&ok).ok().expect("at the limit").len, MAX_FRAME_PAYLOAD);
}
