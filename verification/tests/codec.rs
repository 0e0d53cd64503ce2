use tryout::chunk::{Chunk, Chunks};
use tryout::error::Error;

/// Builds the wire bytes of one chunk by hand: size and tag big-endian, then
/// the payload.
fn tlv(tag: u32, payload: &[u8]) -> Vec<u8> {
    let mut out = Vec::new();
    out.extend_from_slice(&(payload.len() as u32).to_be_bytes());
    out.extend_from_slice(&tag.to_be_bytes());
    out.extend_from_slice(payload);
    out
}

#[test]
fn chunk_encoding_layout() {
    let c = Chunk::new(5, b"abc").unwrap();
    assert_eq!(c.to_owned_bytes(), vec![0, 0, 0, 3, 0, 0, 0, 5, 97, 98, 99]);
    assert_eq!(c.get_type(), 5);
    assert_eq!(c.get_data(), b"abc");
}

#[test]
fn chunk_sequence_round_trip() {
    let a = Chunk::new(1, b"hello").unwrap();
    let b = Chunk::new(99, b"").unwrap();
    let c = Chunk::new(0, &[0, 1, 2, 255]).unwrap();
    let bytes = Chunks::from_vec(vec![a, b, c]).to_bytes();
    let decoded = Chunks::from_bytes(&bytes).unwrap().into_iter();
    assert_eq!(decoded.len(), 3);
    assert_eq!(decoded[0].get_type(), 1);
    assert_eq!(decoded[0].get_data(), b"hello");
    assert_eq!(decoded[1].get_type(), 99);
    assert_eq!(decoded[1].get_data(), b"");
    assert_eq!(decoded[2].get_type(), 0);
    assert_eq!(decoded[2].get_data(), &[0, 1, 2, 255]);
}

#[test]
fn empty_buffer_is_empty_sequence() {
    let decoded = Chunks::from_bytes(&[]).unwrap();
    assert_eq!(decoded.iter().len(), 0);
}

#[test]
fn truncated_header_fails() {
    assert!(matches!(Chunks::from_bytes(&[0, 0, 0]), Err(Error::UnexpectedEOF)));
    assert!(matches!(Chunks::from_bytes(&[0, 0, 0, 1, 0, 0, 0]), Err(Error::UnexpectedEOF)));
}

#[test]
fn truncated_payload_fails() {
    // Declares five payload bytes but carries only two.
    let mut bytes = Vec::new();
    bytes.extend_from_slice(&5u32.to_be_bytes());
    bytes.extend_from_slice(&7u32.to_be_bytes());
    bytes.extend_from_slice(b"ab");
    assert!(matches!(Chunks::from_bytes(&bytes), Err(Error::Other)));
}

#[test]
fn truncation_after_whole_chunks_fails() {
    let mut bytes = tlv(3, b"xyz");
    bytes.extend_from_slice(&tlv(4, b"toolong")[..12]);
    assert!(matches!(Chunks::from_bytes(&bytes), Err(Error::Other)));
}

#[test]
fn zero_size_chunk_decodes() {
    let bytes = tlv(17, b"");
    let decoded = Chunks::from_bytes(&bytes).unwrap().into_iter();
    assert_eq!(decoded.len(), 1);
    assert_eq!(decoded[0].get_type(), 17);
    assert_eq!(decoded[0].get_data(), b"");
}

#[test]
fn hand_built_bytes_match_encoder() {
    let c = Chunk::new(16, b"payload").unwrap();
    assert_eq!(c.to_owned_bytes(), tlv(16, b"payload"));
}
