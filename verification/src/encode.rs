//! Encoding word arrays into byte buffers of a caller-chosen width.
//!
//! Which byte of which word lands at which buffer offset is decided in one
//! place: a buffer position is first mapped to its distance from the
//! least-significant end (for little-endian that is the position itself, for
//! big-endian it is counted from the back), and that distance picks byte
//! `distance % 8` of word `distance / 8`.  The allocating encoders, the
//! in-place encoders and the byte-at-a-time fast writers all follow this one
//! rule, so they agree byte for byte.

use vstd::prelude::*;
use vstd::arithmetic::power2::*;
use vstd::bits::{
    lemma_low_bits_mask_values, lemma_u64_low_bits_mask_is_mod, lemma_u64_shr_is_div,
    low_bits_mask,
};
use vstd::arithmetic::div_mod::lemma_fundamental_div_mod_converse;
use crate::model::{
    be_bytes_spec, be_stream_spec, byte_of_word, le_bytes_spec, le_stream_spec,
    lemma_byte_of_word_zero, lemma_word_byte_is_byte_at, lemma_word_byte_past, signed_words,
    word_at, word_byte,
};
use crate::complement::twos_complement;

verus! {

/// Byte `j` (least significant = 0) of a single word.
fn extract_byte(x: u64, j: usize) -> (b: u8)
    requires
        j < 8,
    ensures
        b == byte_of_word(x, j as nat),
{
    let shift = (j as u64) * 8;
    let shifted = x >> shift;
    proof {
        lemma_u64_shr_is_div(x, shift);
        lemma_u64_low_bits_mask_is_mod(shifted, 8);
        lemma_low_bits_mask_values();
        lemma2_to64();
        assert(shifted as nat == (x as nat) / pow2(8 * (j as nat)));
        assert(shifted & 0xff == shifted % 256);
    }
    (shifted & 0xff) as u8
}

/// Byte at distance `p` from the least-significant end of the encoding of a
/// word array: byte `p % 8` of word `p / 8`, zero past the last word.
fn word_stream_byte(words: &Vec<u64>, p: usize) -> (b: u8)
    ensures
        b == word_byte(words@, p as nat),
{
    let k = p / 8;
    let j = p % 8;
    if k < words.len() {
        let b = extract_byte(words[k], j);
        proof {
            assert(word_at(words@, (p as nat) / 8) == words@[k as int]);
        }
        b
    } else {
        proof {
            assert(word_at(words@, (p as nat) / 8) == 0);
            lemma_byte_of_word_zero((p as nat) % 8);
        }
        0
    }
}

/// Encode into a caller-supplied buffer, big-endian; the width is the
/// buffer's length.  Every byte of the destination is overwritten, so the
/// result does not depend on what the buffer held before.
pub fn words_to_be_bytes_into(words: &Vec<u64>, dest: &mut Vec<u8>)
    ensures
        final(dest)@ == be_bytes_spec(words@, old(dest)@.len() as nat),
{
    let width = dest.len();
    let mut i: usize = 0;
    while i < width
        invariant
            dest@.len() == width == old(dest)@.len(),
            i <= width,
            forall|q: int|
                0 <= q < i ==> dest@[q] == be_bytes_spec(words@, width as nat)[q],
        decreases width - i,
    {
        let b = word_stream_byte(words, width - 1 - i);
        proof {
            lemma_word_byte_is_byte_at(words@, (width - 1 - i) as nat);
        }
        dest.set(i, b);
        i += 1;
    }
    proof {
        assert(dest@ =~= be_bytes_spec(words@, width as nat));
    }
}

/// Encode into a caller-supplied buffer, little-endian; the width is the
/// buffer's length.  Every byte of the destination is overwritten, so the
/// result does not depend on what the buffer held before.
pub fn words_to_le_bytes_into(words: &Vec<u64>, dest: &mut Vec<u8>)
    ensures
        final(dest)@ == le_bytes_spec(words@, old(dest)@.len() as nat),
{
    let width = dest.len();
    let mut i: usize = 0;
    while i < width
        invariant
            dest@.len() == width == old(dest)@.len(),
            i <= width,
            forall|q: int|
                0 <= q < i ==> dest@[q] == le_bytes_spec(words@, width as nat)[q],
        decreases width - i,
    {
        let b = word_stream_byte(words, i);
        proof {
            lemma_word_byte_is_byte_at(words@, i as nat);
        }
        dest.set(i, b);
        i += 1;
    }
    proof {
        assert(dest@ =~= le_bytes_spec(words@, width as nat));
    }
}

/// Encode a word array as exactly `width` big-endian bytes, zero-extending
/// or truncating the value as the width demands; width 0 yields an empty
/// buffer.
pub fn words_to_be_bytes(words: &Vec<u64>, width: usize) -> (bytes: Vec<u8>)
    ensures
        bytes@ == be_bytes_spec(words@, width as nat),
{
    let mut bytes: Vec<u8> = Vec::new();
    while bytes.len() < width
        invariant
            bytes@.len() <= width,
        decreases width - bytes.len(),
    {
        bytes.push(0);
    }
    words_to_be_bytes_into(words, &mut bytes);
    bytes
}

/// Encode a word array as exactly `width` little-endian bytes,
/// zero-extending or truncating the value as the width demands; width 0
/// yields an empty buffer.
pub fn words_to_le_bytes(words: &Vec<u64>, width: usize) -> (bytes: Vec<u8>)
    ensures
        bytes@ == le_bytes_spec(words@, width as nat),
{
    let mut bytes: Vec<u8> = Vec::new();
    while bytes.len() < width
        invariant
            bytes@.len() <= width,
        decreases width - bytes.len(),
    {
        bytes.push(0);
    }
    words_to_le_bytes_into(words, &mut bytes);
    bytes
}

/// Write the word byte stream into an all-zero buffer from the back
/// (big-endian), byte by byte, stopping once the buffer is full.
fn write_stream_be(words: &Vec<u64>, dest: &mut Vec<u8>)
    requires
        forall|t: int| 0 <= t < old(dest)@.len() ==> old(dest)@[t] == 0,
    ensures
        final(dest)@ == be_stream_spec(words@, old(dest)@.len() as nat),
{
    let width = dest.len();
    let mut pos = width;
    let mut wi: usize = 0;
    while wi < words.len() && pos > 0
        invariant
            dest@.len() == width == old(dest)@.len(),
            pos <= width,
            wi <= words@.len(),
            pos == 0 || width - pos == 8 * wi,
            forall|t: int| 0 <= t < pos ==> dest@[t] == 0,
            forall|t: int|
                pos <= t < width ==> dest@[t] == word_byte(words@, (width - 1 - t) as nat),
        decreases words@.len() - wi,
    {
        let w = words[wi];
        let mut j: usize = 0;
        while j < 8 && pos > 0
            invariant
                dest@.len() == width,
                pos <= width,
                j <= 8,
                wi < words@.len(),
                w == words@[wi as int],
                pos == 0 || width - pos == 8 * wi + j,
                forall|t: int| 0 <= t < pos ==> dest@[t] == 0,
                forall|t: int|
                    pos <= t < width ==> dest@[t] == word_byte(words@, (width - 1 - t) as nat),
            decreases 8 - j,
        {
            pos -= 1;
            let b = extract_byte(w, j);
            proof {
                lemma_fundamental_div_mod_converse((8 * wi + j) as int, 8, wi as int, j as int);
                assert(width - 1 - pos == 8 * wi + j);
                assert(b == word_byte(words@, (width - 1 - pos) as nat));
            }
            dest.set(pos, b);
            j += 1;
        }
        wi += 1;
    }
    proof {
        assert forall|t: int| 0 <= t < pos implies dest@[t] == word_byte(
            words@,
            (width - 1 - t) as nat,
        ) by {
            lemma_word_byte_past(words@, (width - 1 - t) as nat);
        }
        assert(dest@ =~= be_stream_spec(words@, width as nat));
    }
}

/// Write the word byte stream into an all-zero buffer from the front
/// (little-endian), byte by byte, stopping once the buffer is full.
fn write_stream_le(words: &Vec<u64>, dest: &mut Vec<u8>)
    requires
        forall|t: int| 0 <= t < old(dest)@.len() ==> old(dest)@[t] == 0,
    ensures
        final(dest)@ == le_stream_spec(words@, old(dest)@.len() as nat),
{
    let width = dest.len();
    let mut pos: usize = 0;
    let mut wi: usize = 0;
    while wi < words.len() && pos < width
        invariant
            dest@.len() == width == old(dest)@.len(),
            pos <= width,
            wi <= words@.len(),
            pos == width || pos == 8 * wi,
            forall|t: int| 0 <= t < pos ==> dest@[t] == word_byte(words@, t as nat),
            forall|t: int| pos <= t < width ==> dest@[t] == 0,
        decreases words@.len() - wi,
    {
        let w = words[wi];
        let mut j: usize = 0;
        while j < 8 && pos < width
            invariant
                dest@.len() == width,
                pos <= width,
                j <= 8,
                wi < words@.len(),
                w == words@[wi as int],
                pos == width || pos == 8 * wi + j,
                forall|t: int| 0 <= t < pos ==> dest@[t] == word_byte(words@, t as nat),
                forall|t: int| pos <= t < width ==> dest@[t] == 0,
            decreases 8 - j,
        {
            let b = extract_byte(w, j);
            proof {
                lemma_fundamental_div_mod_converse((8 * wi + j) as int, 8, wi as int, j as int);
                assert(b == word_byte(words@, pos as nat));
            }
            dest.set(pos, b);
            pos += 1;
            j += 1;
        }
        wi += 1;
    }
    proof {
        assert forall|t: int| pos <= t < width implies dest@[t] == word_byte(words@, t as nat) by {
            lemma_word_byte_past(words@, t as nat);
        }
        assert(dest@ =~= le_stream_spec(words@, width as nat));
    }
}

/// Fast in-place serializer, big-endian: zero the destination, apply the
/// two's-complement converter when the sign flag is set, then write the word
/// byte stream from the back.  The observable result is byte for byte the
/// one of `words_to_be_bytes_into` applied after `twos_complement`.
///
/// The destination must not be read or written by any other party until the
/// call returns; a zero-length destination is a no-op.
pub fn to_buffer_be_fast(words: &Vec<u64>, sign_bit: bool, dest: &mut Vec<u8>)
    ensures
        final(dest)@ == be_stream_spec(
            signed_words(words@, sign_bit, old(dest)@.len() as nat),
            old(dest)@.len() as nat,
        ),
{
    let width = dest.len();
    let mut i: usize = 0;
    while i < width
        invariant
            dest@.len() == width == old(dest)@.len(),
            i <= width,
            forall|t: int| 0 <= t < i ==> dest@[t] == 0,
        decreases width - i,
    {
        dest.set(i, 0);
        i += 1;
    }
    if words.len() == 0 {
        proof {
            assert forall|t: int| 0 <= t < width implies dest@[t] == be_stream_spec(
                words@,
                width as nat,
            )[t] by {
                lemma_word_byte_past(words@, (width - 1 - t) as nat);
            }
            assert(dest@ =~= be_stream_spec(words@, width as nat));
        }
        return;
    }
    if sign_bit {
        let ws = twos_complement(words, width);
        write_stream_be(&ws, dest);
    } else {
        write_stream_be(words, dest);
    }
}

/// Fast in-place serializer, little-endian: zero the destination, apply the
/// two's-complement converter when the sign flag is set, then write the word
/// byte stream from the front.  The observable result is byte for byte the
/// one of `words_to_le_bytes_into` applied after `twos_complement`.
///
/// The destination must not be read or written by any other party until the
/// call returns; a zero-length destination is a no-op.
pub fn to_buffer_le_fast(words: &Vec<u64>, sign_bit: bool, dest: &mut Vec<u8>)
    ensures
        final(dest)@ == le_stream_spec(
            signed_words(words@, sign_bit, old(dest)@.len() as nat),
            old(dest)@.len() as nat,
        ),
{
    let width = dest.len();
    let mut i: usize = 0;
    while i < width
        invariant
            dest@.len() == width == old(dest)@.len(),
            i <= width,
            forall|t: int| 0 <= t < i ==> dest@[t] == 0,
        decreases width - i,
    {
        dest.set(i, 0);
        i += 1;
    }
    if words.len() == 0 {
        proof {
            assert forall|t: int| 0 <= t < width implies dest@[t] == le_stream_spec(
                words@,
                width as nat,
            )[t] by {
                lemma_word_byte_past(words@, t as nat);
            }
            assert(dest@ =~= le_stream_spec(words@, width as nat));
        }
        return;
    }
    if sign_bit {
        let ws = twos_complement(words, width);
        write_stream_le(&ws, dest);
    } else {
        write_stream_le(words, dest);
    }
}

} // verus!
