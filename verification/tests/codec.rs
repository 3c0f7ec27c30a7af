use bigint_buffer2::{
    be_bytes_to_words, le_bytes_to_words, words_to_be_bytes, words_to_le_bytes,
};

#[test]
fn test_be_bytes_to_words_empty() {
    let bytes: Vec<u8> = vec![];
    assert_eq!(be_bytes_to_words(&bytes), Vec::<u64>::new());
}

#[test]
fn test_be_bytes_to_words_zero() {
    let bytes: Vec<u8> = vec![0, 0, 0, 0];
    assert_eq!(be_bytes_to_words(&bytes), Vec::<u64>::new());
}

#[test]
fn test_be_bytes_to_words_single_byte() {
    let bytes: Vec<u8> = vec![0x42];
    assert_eq!(be_bytes_to_words(&bytes), vec![0x42u64]);
}

#[test]
fn test_be_bytes_to_words_8_bytes() {
    let bytes: Vec<u8> = vec![0x01, 0x02, 0x03, 0x04, 0x05, 0x06, 0x07, 0x08];
    assert_eq!(be_bytes_to_words(&bytes), vec![0x0102030405060708u64]);
}

#[test]
fn test_be_bytes_to_words_16_bytes() {
    let bytes: Vec<u8> = vec![
        0x01, 0x02, 0x03, 0x04, 0x05, 0x06, 0x07, 0x08, 0x09, 0x0A, 0x0B, 0x0C, 0x0D, 0x0E, 0x0F,
        0x10,
    ];
    // Words are in LSW-first order
    let expected = vec![0x090A0B0C0D0E0F10u64, 0x0102030405060708u64];
    assert_eq!(be_bytes_to_words(&bytes), expected);
}

#[test]
fn test_le_bytes_to_words_empty() {
    let bytes: Vec<u8> = vec![];
    assert_eq!(le_bytes_to_words(&bytes), Vec::<u64>::new());
}

#[test]
fn test_le_bytes_to_words_single_byte() {
    let bytes: Vec<u8> = vec![0x42];
    assert_eq!(le_bytes_to_words(&bytes), vec![0x42u64]);
}

#[test]
fn test_le_bytes_to_words_8_bytes() {
    let bytes: Vec<u8> = vec![0x08, 0x07, 0x06, 0x05, 0x04, 0x03, 0x02, 0x01];
    assert_eq!(le_bytes_to_words(&bytes), vec![0x0102030405060708u64]);
}

#[test]
fn test_words_to_be_bytes_empty_width() {
    let words: Vec<u64> = vec![0x1234];
    assert_eq!(words_to_be_bytes(&words, 0), Vec::<u8>::new());
}

#[test]
fn test_words_to_be_bytes_zero_value() {
    let words: Vec<u64> = vec![];
    assert_eq!(words_to_be_bytes(&words, 4), vec![0, 0, 0, 0]);
}

#[test]
fn test_words_to_be_bytes_simple() {
    let words: Vec<u64> = vec![0x0102030405060708];
    assert_eq!(
        words_to_be_bytes(&words, 8),
        vec![0x01, 0x02, 0x03, 0x04, 0x05, 0x06, 0x07, 0x08]
    );
}

#[test]
fn test_words_to_be_bytes_truncation() {
    // Value 0x123456 with width 2 should give 0x3456 (truncated)
    let words: Vec<u64> = vec![0x123456];
    assert_eq!(words_to_be_bytes(&words, 2), vec![0x34, 0x56]);
}

#[test]
fn test_words_to_le_bytes_empty_width() {
    let words: Vec<u64> = vec![0x1234];
    assert_eq!(words_to_le_bytes(&words, 0), Vec::<u8>::new());
}

#[test]
fn test_words_to_le_bytes_simple() {
    let words: Vec<u64> = vec![0x0102030405060708];
    assert_eq!(
        words_to_le_bytes(&words, 8),
        vec![0x08, 0x07, 0x06, 0x05, 0x04, 0x03, 0x02, 0x01]
    );
}

#[test]
fn test_roundtrip_be() {
    let original = vec![0xDEADBEEFCAFEBABEu64, 0x1234567890ABCDEFu64];
    let bytes = words_to_be_bytes(&original, 16);
    let recovered = be_bytes_to_words(&bytes);
    assert_eq!(recovered, original);
}

#[test]
fn test_roundtrip_le() {
    let original = vec![0xDEADBEEFCAFEBABEu64, 0x1234567890ABCDEFu64];
    let bytes = words_to_le_bytes(&original, 16);
    let recovered = le_bytes_to_words(&bytes);
    assert_eq!(recovered, original);
}
