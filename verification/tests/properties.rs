use bigint_buffer2::{
    be_bytes_to_words, le_bytes_to_words, to_buffer_be_fast, to_buffer_le_fast, twos_complement,
    words_to_be_bytes, words_to_be_bytes_into, words_to_le_bytes, words_to_le_bytes_into,
};

#[test]
fn test_zero_width_every_word_array() {
    let cases: Vec<Vec<u64>> = vec![
        vec![],
        vec![0],
        vec![1],
        vec![u64::MAX, u64::MAX],
        vec![0x123456789ABCDEF0, 7, 0],
    ];
    for words in &cases {
        assert_eq!(words_to_be_bytes(words, 0), Vec::<u8>::new());
        assert_eq!(words_to_le_bytes(words, 0), Vec::<u8>::new());
    }
}

#[test]
fn test_le_bytes_to_words_zero() {
    let bytes: Vec<u8> = vec![0, 0, 0, 0];
    assert_eq!(le_bytes_to_words(&bytes), Vec::<u64>::new());
}

#[test]
fn test_decode_concrete_both_endians() {
    let bytes: Vec<u8> = vec![0x01, 0x02, 0x03, 0x04, 0x05, 0x06, 0x07, 0x08];
    assert_eq!(be_bytes_to_words(&bytes), vec![0x0102030405060708u64]);
    assert_eq!(le_bytes_to_words(&bytes), vec![0x0807060504030201u64]);
    let words: Vec<u64> = vec![0x0102030405060708];
    assert_eq!(words_to_be_bytes(&words, 8), bytes);
}

#[test]
fn test_decode_elides_only_high_order_zeros() {
    // A zero byte in the middle is significant; only the most-significant
    // side is trimmed.
    let be: Vec<u8> = vec![0x00, 0x00, 0x12, 0x00, 0x34];
    assert_eq!(be_bytes_to_words(&be), vec![0x120034u64]);
    let le: Vec<u8> = vec![0x34, 0x00, 0x12, 0x00, 0x00];
    assert_eq!(le_bytes_to_words(&le), vec![0x120034u64]);
}

#[test]
fn test_decode_partial_group_sizes() {
    // 9 significant bytes: the leftover high-order byte forms the top word.
    let be: Vec<u8> = vec![0xAA, 0x01, 0x02, 0x03, 0x04, 0x05, 0x06, 0x07, 0x08];
    assert_eq!(
        be_bytes_to_words(&be),
        vec![0x0102030405060708u64, 0xAAu64]
    );
    let le: Vec<u8> = vec![0x08, 0x07, 0x06, 0x05, 0x04, 0x03, 0x02, 0x01, 0xAA];
    assert_eq!(
        le_bytes_to_words(&le),
        vec![0x0102030405060708u64, 0xAAu64]
    );
}

#[test]
fn test_encode_partial_width() {
    // Width 10: the top word contributes only its low two bytes.
    let words: Vec<u64> = vec![0x0102030405060708, 0x1122];
    assert_eq!(
        words_to_be_bytes(&words, 10),
        vec![0x11, 0x22, 0x01, 0x02, 0x03, 0x04, 0x05, 0x06, 0x07, 0x08]
    );
    assert_eq!(
        words_to_le_bytes(&words, 10),
        vec![0x08, 0x07, 0x06, 0x05, 0x04, 0x03, 0x02, 0x01, 0x22, 0x11]
    );
}

#[test]
fn test_encode_zero_extends_high_bytes() {
    // Non-canonical input (trailing zero word) encodes like the value alone.
    let words: Vec<u64> = vec![1, 0];
    let mut expected = vec![0u8; 16];
    expected[15] = 1;
    assert_eq!(words_to_be_bytes(&words, 16), expected);
    let mut expected_le = vec![0u8; 16];
    expected_le[0] = 1;
    assert_eq!(words_to_le_bytes(&words, 16), expected_le);
}

#[test]
fn test_encode_into_overwrites_garbage() {
    // Whatever the destination held, every byte is rewritten.
    let words: Vec<u64> = vec![0x0102030405060708, 0x1122];
    for width in 0..26usize {
        let clean = words_to_be_bytes(&words, width);
        let mut dirty = vec![0xAAu8; width];
        words_to_be_bytes_into(&words, &mut dirty);
        assert_eq!(dirty, clean);

        let clean_le = words_to_le_bytes(&words, width);
        let mut dirty_le = vec![0x55u8; width];
        words_to_le_bytes_into(&words, &mut dirty_le);
        assert_eq!(dirty_le, clean_le);
    }
}

#[test]
fn test_twos_complement_single_byte() {
    // -5 at width 1 is 0xFB in two's complement.
    let magnitude: Vec<u64> = vec![5];
    let unsigned = twos_complement(&magnitude, 1);
    assert_eq!(words_to_be_bytes(&unsigned, 1), vec![0xFB]);
}

#[test]
fn test_twos_complement_edge_cases() {
    let empty: Vec<u64> = vec![];
    assert_eq!(twos_complement(&empty, 4), Vec::<u64>::new());
    let five: Vec<u64> = vec![5];
    assert_eq!(twos_complement(&five, 0), Vec::<u64>::new());
    // Width 16 spans two words: 2^128 - 5.
    assert_eq!(
        twos_complement(&five, 16),
        vec![0xFFFFFFFFFFFFFFFBu64, 0xFFFFFFFFFFFFFFFFu64]
    );
    // Width 3 masks the single word down to 24 bits: 2^24 - 5.
    assert_eq!(twos_complement(&five, 3), vec![0xFFFFFBu64]);
    // Words past the width are dropped before negating.
    let long: Vec<u64> = vec![1, 2, 3];
    assert_eq!(twos_complement(&long, 8), vec![0xFFFFFFFFFFFFFFFFu64]);
    // A zero magnitude stays zero at any width.
    let zero: Vec<u64> = vec![0];
    assert_eq!(twos_complement(&zero, 2), vec![0u64]);
}

#[test]
fn test_twos_complement_carry_chain() {
    // Inverting all-ones gives zero everywhere; adding one must carry
    // through every word.
    let magnitude: Vec<u64> = vec![0, 0, 1];
    let unsigned = twos_complement(&magnitude, 24);
    assert_eq!(
        unsigned,
        vec![0u64, 0u64, 0xFFFFFFFFFFFFFFFFu64]
    );
}

#[test]
fn test_fast_writer_parity() {
    let word_sets: Vec<Vec<u64>> = vec![
        vec![],
        vec![0],
        vec![5],
        vec![0x0102030405060708],
        vec![0xDEADBEEFCAFEBABE, 0x1234567890ABCDEF],
        vec![u64::MAX, u64::MAX, 1],
    ];
    for words in &word_sets {
        for sign_bit in [false, true] {
            for width in 0..26usize {
                let adjusted = if sign_bit && !words.is_empty() {
                    twos_complement(words, width)
                } else {
                    words.clone()
                };
                let expected_be = words_to_be_bytes(&adjusted, width);
                let mut fast_be = vec![0u8; width];
                to_buffer_be_fast(words, sign_bit, &mut fast_be);
                assert_eq!(fast_be, expected_be);

                let expected_le = words_to_le_bytes(&adjusted, width);
                let mut fast_le = vec![0u8; width];
                to_buffer_le_fast(words, sign_bit, &mut fast_le);
                assert_eq!(fast_le, expected_le);
            }
        }
    }
}

#[test]
fn test_fast_writer_overwrites_garbage() {
    let words: Vec<u64> = vec![0xDEADBEEFCAFEBABE, 0x1234567890ABCDEF];
    for width in 0..26usize {
        let expected = words_to_be_bytes(&words, width);
        let mut dirty = vec![0xC3u8; width];
        to_buffer_be_fast(&words, false, &mut dirty);
        assert_eq!(dirty, expected);
    }
}

#[test]
fn test_roundtrip_strips_redundant_zero_words() {
    // A non-canonical array comes back canonicalized.
    let original: Vec<u64> = vec![7, 0, 0];
    let bytes = words_to_be_bytes(&original, 24);
    assert_eq!(be_bytes_to_words(&bytes), vec![7u64]);
    let bytes_le = words_to_le_bytes(&original, 24);
    assert_eq!(le_bytes_to_words(&bytes_le), vec![7u64]);
}

#[test]
fn test_roundtrip_many_widths() {
    let original: Vec<u64> = vec![0x0102030405060708, 0x0A0B];
    // Any width from 10 up holds the value without truncation.
    for width in 10..30usize {
        let be = words_to_be_bytes(&original, width);
        assert_eq!(be.len(), width);
        assert_eq!(be_bytes_to_words(&be), original);
        let le = words_to_le_bytes(&original, width);
        assert_eq!(le.len(), width);
        assert_eq!(le_bytes_to_words(&le), original);
    }
}

#[test]
fn test_signed_fast_writer_single_byte() {
    // encodeFast with the sign flag set writes the two's complement.
    let magnitude: Vec<u64> = vec![5];
    let mut dest = vec![0u8; 1];
    to_buffer_be_fast(&magnitude, true, &mut dest);
    assert_eq!(dest, vec![0xFB]);
    let mut dest_le = vec![0u8; 2];
    to_buffer_le_fast(&magnitude, true, &mut dest_le);
    assert_eq!(dest_le, vec![0xFB, 0xFF]);
}
