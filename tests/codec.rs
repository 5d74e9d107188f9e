use nexus_link::frame::{frame, frame_length, frame_message, unframe};
use nexus_link::message::{CodecError, Message};

fn samples() -> Vec<Message> {
    vec![
        Message::Text { content: "héllo, wörld".to_string() },
        Message::Text { content: String::new() },
        Message::FileOffer { name: "report.pdf".to_string(), size: 150000, id: 0x0123_4567_89ab_cdef_0011_2233_4455_6677 },
        Message::FileAccept { id: 1 },
        Message::FileReject { id: u128::MAX },
        Message::FileChunk { id: 42, offset: 65536, data: vec![0, 1, 2, 255] },
        Message::FileChunk { id: 0, offset: 0, data: Vec::new() },
        Message::FileComplete { id: 7 },
    ]
}

#[test]
fn decode_of_encode_gives_message_back() {
    for m in samples() {
        let bytes = m.encode().unwrap();
        assert_eq!(Message::decode(&bytes), Ok(m));
    }
}

#[test]
fn encode_layout_is_tag_then_fields() {
    let bytes = Message::FileAccept { id: 1 }.encode().unwrap();
    let mut expected = vec![2, 0, 0, 0, 1];
    expected.extend(vec![0u8; 15]);
    assert_eq!(bytes, expected);

    let bytes = Message::Text { content: "ab".to_string() }.encode().unwrap();
    assert_eq!(bytes, vec![0, 0, 0, 0, 2, 0, 0, 0, 0, 0, 0, 0, b'a', b'b']);
}

#[test]
fn decode_rejects_empty_input() {
    assert_eq!(Message::decode(&[]), Err(CodecError::Malformed));
}

#[test]
fn decode_rejects_unknown_tag() {
    let mut bytes = vec![6, 0, 0, 0];
    bytes.extend(vec![0u8; 16]);
    assert_eq!(Message::decode(&bytes), Err(CodecError::Malformed));
}

#[test]
fn decode_rejects_truncated_field() {
    let bytes = Message::FileComplete { id: 9 }.encode().unwrap();
    assert_eq!(Message::decode(&bytes[..bytes.len() - 1]), Err(CodecError::Malformed));
}

#[test]
fn decode_rejects_trailing_bytes() {
    let mut bytes = Message::FileComplete { id: 9 }.encode().unwrap();
    bytes.push(0);
    assert_eq!(Message::decode(&bytes), Err(CodecError::Malformed));
}

#[test]
fn decode_rejects_invalid_utf8() {
    let bytes = vec![0, 0, 0, 0, 1, 0, 0, 0, 0, 0, 0, 0, 0xff];
    assert_eq!(Message::decode(&bytes), Err(CodecError::Malformed));
}

#[test]
fn decode_rejects_overlong_declared_length() {
    let bytes = vec![0, 0, 0, 0, 9, 0, 0, 0, 0, 0, 0, 0, b'a'];
    assert_eq!(Message::decode(&bytes), Err(CodecError::Malformed));
}

#[test]
fn frame_prefixes_big_endian_length() {
    assert_eq!(frame(&[1, 2, 3]), Ok(vec![0, 0, 0, 3, 1, 2, 3]));
    assert_eq!(frame(&[]), Ok(vec![0, 0, 0, 0]));
}

#[test]
fn frame_length_reads_big_endian() {
    assert_eq!(frame_length(&[0, 0, 1, 0]), 256);
    assert_eq!(frame_length(&[1, 2, 3, 4]), 0x0102_0304);
    assert_eq!(frame_length(&[255, 255, 255, 255]), u32::MAX);
}

#[test]
fn unframe_of_frame_message_gives_message_back() {
    for m in samples() {
        let f = frame_message(&m).unwrap();
        assert_eq!(frame_length(&f[..4]) as usize, f.len() - 4);
        assert_eq!(unframe(&f), Ok(m));
    }
}

#[test]
fn unframe_shorter_than_declared_is_truncated() {
    assert_eq!(unframe(&[0, 0, 0, 5, 1, 2]), Err(CodecError::Truncated));
    let f = frame_message(&Message::Text { content: "hi".to_string() }).unwrap();
    for cut in 0..f.len() {
        assert_eq!(unframe(&f[..cut]), Err(CodecError::Truncated));
    }
}

#[test]
fn unframe_shorter_than_header_is_truncated() {
    assert_eq!(unframe(&[]), Err(CodecError::Truncated));
    assert_eq!(unframe(&[0, 0]), Err(CodecError::Truncated));
}

#[test]
fn unframe_with_bytes_past_payload_is_malformed() {
    let mut f = frame_message(&Message::FileAccept { id: 3 }).unwrap();
    f.push(0);
    assert_eq!(unframe(&f), Err(CodecError::Malformed));
}

#[test]
fn unframe_of_bad_payload_is_malformed() {
    assert_eq!(unframe(&[0, 0, 0, 4, 9, 0, 0, 0]), Err(CodecError::Malformed));
}
