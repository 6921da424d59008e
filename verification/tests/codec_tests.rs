use stronghold_p2p::codec::CodecError;
use stronghold_p2p::codec::decode_frame;
use stronghold_p2p::codec::encode_frame;

#[test]
fn round_trip_returns_original_payload() {
    let payload: Vec<u8> = vec![1, 2, 3, 250, 0, 42];
    let framed = encode_frame(&payload);
    assert_eq!(framed.len(), payload.len() + 4);
    let decoded = decode_frame(&framed, 1024).unwrap();
    assert_eq!(decoded, payload);
}

#[test]
fn round_trip_empty_payload() {
    let payload: Vec<u8> = Vec::new();
    let framed = encode_frame(&payload);
    assert_eq!(framed, vec![0, 0, 0, 0]);
    let decoded = decode_frame(&framed, 0).unwrap();
    assert_eq!(decoded, payload);
}

#[test]
fn frame_prefix_is_big_endian_length() {
    let payload: Vec<u8> = vec![7; 300];
    let framed = encode_frame(&payload);
    assert_eq!(&framed[0..4], &[0, 0, 1, 44]);
}

#[test]
fn maximum_length_message_accepted() {
    let payload: Vec<u8> = vec![9; 64];
    let framed = encode_frame(&payload);
    let decoded = decode_frame(&framed, 64).unwrap();
    assert_eq!(decoded, payload);
}

#[test]
fn message_above_cap_rejected_as_invalid_data() {
    let payload: Vec<u8> = vec![9; 65];
    let framed = encode_frame(&payload);
    assert_eq!(decode_frame(&framed, 64), Err(CodecError::InvalidData));
}

#[test]
fn truncated_frame_rejected() {
    let payload: Vec<u8> = vec![1, 2, 3];
    let mut framed = encode_frame(&payload);
    framed.pop();
    assert_eq!(decode_frame(&framed, 1024), Err(CodecError::InvalidData));
}

#[test]
fn trailing_bytes_rejected() {
    let payload: Vec<u8> = vec![1, 2, 3];
    let mut framed = encode_frame(&payload);
    framed.push(0);
    assert_eq!(decode_frame(&framed, 1024), Err(CodecError::InvalidData));
}

#[test]
fn short_prefix_rejected() {
    let bytes: Vec<u8> = vec![0, 0, 1];
    assert_eq!(decode_frame(&bytes, 1024), Err(CodecError::InvalidData));
}
