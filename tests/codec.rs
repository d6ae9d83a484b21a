use savewatch::envelope::{decode, encode, CodecError, HEADER_LEN, TERMINATOR};
use savewatch::varint::{read_varint, write_varint};

const HEADER: [u8; 22] = [
    0x00, 0x01, 0x00, 0x00, 0x00, 0xff, 0xff, 0xff, 0xff, 0x01, 0x00, 0x00, 0x00, 0x00, 0x00,
    0x00, 0x00, 0x06, 0x01, 0x00, 0x00, 0x00,
];

#[test]
fn round_trip_document() {
    let text = br#"{"a":1,"b":[true,null,"x"]}"#.to_vec();
    let raw = encode(&text);
    assert_eq!(decode(&raw), Ok(text));
}

#[test]
fn round_trip_empty_text() {
    let raw = encode(&[]);
    // one full padding block: 16 bytes, 24 base64 characters
    assert_eq!(raw.len(), HEADER_LEN + 1 + 24 + 1);
    assert_eq!(decode(&raw), Ok(Vec::new()));
}

#[test]
fn round_trip_long_text_two_byte_varint() {
    let text: Vec<u8> = (0..500u32).map(|i| (i % 251) as u8).collect();
    let raw = encode(&text);
    assert_eq!(decode(&raw), Ok(text));
}

#[test]
fn envelope_shape() {
    let raw = encode(br#"{"a":1}"#);
    assert_eq!(&raw[..HEADER_LEN], &HEADER[..]);
    assert_eq!(*raw.last().unwrap(), TERMINATOR);
    assert_eq!(TERMINATOR, 0x0B);
    let (len, k) = read_varint(&raw, HEADER_LEN, raw.len() - 1).unwrap();
    assert_eq!(HEADER_LEN + k + len, raw.len() - 1);
    // 7 bytes of text: one cipher block of 16 bytes, 24 base64 characters
    assert_eq!(len, 24);
    assert_eq!(k, 1);
}

#[test]
fn payload_is_ciphertext_not_plaintext() {
    let text = br#"{"a":1}"#;
    let raw = encode(text);
    let seg = &raw[HEADER_LEN + 1..raw.len() - 1];
    assert!(seg.iter().all(|b| b.is_ascii_alphanumeric() || *b == b'+' || *b == b'/' || *b == b'='));
    assert!(!seg.windows(text.len()).any(|w| w == text));
}

#[test]
fn encode_is_deterministic() {
    assert_eq!(encode(b"same"), encode(b"same"));
    assert_ne!(encode(b"same"), encode(b"other"));
}

#[test]
fn decode_short_buffer_is_malformed_envelope() {
    assert_eq!(decode(&[0u8; 22]), Err(CodecError::MalformedEnvelope));
    assert_eq!(decode(&[]), Err(CodecError::MalformedEnvelope));
}

#[test]
fn decode_truncated_varint_is_malformed_length() {
    let mut raw = HEADER.to_vec();
    raw.push(0x80);
    raw.push(TERMINATOR);
    assert_eq!(decode(&raw), Err(CodecError::MalformedLength));
}

#[test]
fn decode_length_past_end_is_malformed_length() {
    let mut raw = HEADER.to_vec();
    raw.push(10);
    raw.extend_from_slice(b"QUJD");
    raw.push(TERMINATOR);
    assert_eq!(decode(&raw), Err(CodecError::MalformedLength));
}

#[test]
fn decode_bad_base64_is_invalid_encoding() {
    let mut raw = HEADER.to_vec();
    raw.push(4);
    raw.extend_from_slice(b"!!!!");
    raw.push(TERMINATOR);
    assert_eq!(decode(&raw), Err(CodecError::InvalidEncoding));
}

#[test]
fn decode_partial_block_is_decryption_error() {
    let mut raw = HEADER.to_vec();
    raw.push(4);
    raw.extend_from_slice(b"QUJD");
    raw.push(TERMINATOR);
    assert_eq!(decode(&raw), Err(CodecError::DecryptionError));
}

#[test]
fn varint_exact_bytes() {
    assert_eq!(write_varint(0), vec![0]);
    assert_eq!(write_varint(127), vec![127]);
    assert_eq!(write_varint(128), vec![0x80, 0x01]);
    assert_eq!(write_varint(300), vec![0xAC, 0x02]);
}

#[test]
fn varint_reads_back() {
    let buf = vec![0xAC, 0x02];
    assert_eq!(read_varint(&buf, 0, 2), None);
    let mut long = vec![0x05];
    long.extend_from_slice(&[0; 5]);
    assert_eq!(read_varint(&long, 0, long.len()), Some((5, 1)));
    let padded = vec![0x85, 0x80, 0x00, 1, 2, 3, 4, 5];
    assert_eq!(read_varint(&padded, 0, padded.len()), Some((5, 3)));
}
