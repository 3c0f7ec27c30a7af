//! Laws the codec obeys, stated over the models that the functions'
//! contracts use.

use vstd::prelude::*;
use vstd::arithmetic::power2::*;
use vstd::arithmetic::div_mod::lemma_small_mod;
use crate::model::{
    be_bytes_spec, be_stream_spec, be_value, canon, canonical, le_bytes_spec, le_stream_spec,
    le_value, lemma_be_bytes_spec_value, lemma_canon_properties, lemma_canonical_unique,
    lemma_le_bytes_spec_value, lemma_stream_matches_bytes, signed_words, words_value,
};

verus! {

/// Round trip, big-endian: encoding a word array at a width large enough to
/// hold its value without truncation and decoding the buffer again gives
/// back the array with its redundant high-order zero words stripped.
/// `bytes` stands for whatever the encoder returns and `decoded` for
/// whatever the decoder returns for it, each pinned by its contract.
pub proof fn lemma_round_trip_be(w: Seq<u64>, k: nat, bytes: Seq<u8>, decoded: Seq<u64>)
    requires
        words_value(w) < pow2(8 * k),
        bytes == be_bytes_spec(w, k),
        words_value(decoded) == be_value(bytes),
        canonical(decoded),
    ensures
        decoded == canon(w),
{
    lemma_pow2_pos(8 * k);
    lemma_be_bytes_spec_value(w, k);
    lemma_small_mod(words_value(w), pow2(8 * k));
    lemma_canon_properties(w);
    lemma_canonical_unique(decoded, canon(w));
}

/// Round trip, little-endian: encoding a word array at a width large enough
/// to hold its value without truncation and decoding the buffer again gives
/// back the array with its redundant high-order zero words stripped.
pub proof fn lemma_round_trip_le(w: Seq<u64>, k: nat, bytes: Seq<u8>, decoded: Seq<u64>)
    requires
        words_value(w) < pow2(8 * k),
        bytes == le_bytes_spec(w, k),
        words_value(decoded) == le_value(bytes),
        canonical(decoded),
    ensures
        decoded == canon(w),
{
    lemma_pow2_pos(8 * k);
    lemma_le_bytes_spec_value(w, k);
    lemma_small_mod(words_value(w), pow2(8 * k));
    lemma_canon_properties(w);
    lemma_canonical_unique(decoded, canon(w));
}

/// Zero-width identity: encoding any word array at width zero yields the
/// empty buffer, in either endianness.
pub proof fn lemma_encode_zero_width(w: Seq<u64>)
    ensures
        be_bytes_spec(w, 0) == Seq::<u8>::empty(),
        le_bytes_spec(w, 0) == Seq::<u8>::empty(),
{
    assert(be_bytes_spec(w, 0) =~= Seq::<u8>::empty());
    assert(le_bytes_spec(w, 0) =~= Seq::<u8>::empty());
}

/// In-place writer parity: for every word array, sign flag, width and
/// endianness, the byte-stream placement that the fast writers follow
/// produces byte for byte the buffer of the allocating encoders applied to
/// the same sign-adjusted words.
pub proof fn lemma_fast_writer_parity(w: Seq<u64>, sign_bit: bool, width: nat)
    ensures
        be_stream_spec(signed_words(w, sign_bit, width), width) == be_bytes_spec(
            signed_words(w, sign_bit, width),
            width,
        ),
        le_stream_spec(signed_words(w, sign_bit, width), width) == le_bytes_spec(
            signed_words(w, sign_bit, width),
            width,
        ),
{
    lemma_stream_matches_bytes(signed_words(w, sign_bit, width), width);
}

} // verus!
