//! Decoding byte buffers into word arrays.
//!
//! Both decoders first elide the zero bytes on the most-significant side of
//! the buffer, then pack the remaining bytes into 64-bit words in 8-byte
//! groups starting from the least-significant side, so that a leftover group
//! smaller than 8 bytes always forms the most-significant word.  The result
//! therefore never carries a redundant high-order zero word.

use vstd::prelude::*;
use vstd::arithmetic::power2::*;
use vstd::arithmetic::div_mod::lemma_fundamental_div_mod_converse;
use crate::model::{
    be_sig_len, be_value, canonical, le_sig_len, le_value, lemma_be_sig_len_at,
    lemma_be_value_append, lemma_be_value_bound, lemma_be_value_zero, lemma_le_sig_len_at,
    lemma_le_value_append, lemma_le_value_bound, lemma_le_value_zero, lemma_words_value_snoc,
    words_for_width, words_value,
};

verus! {

/// Decode a big-endian byte buffer into words, least-significant word first.
///
/// Every buffer decodes successfully: an empty or all-zero buffer yields the
/// empty array (the value zero), and the result is always canonical.
pub fn be_bytes_to_words(bytes: &Vec<u8>) -> (words: Vec<u64>)
    ensures
        words_value(words@) == be_value(bytes@),
        canonical(words@),
        words@.len() == words_for_width(be_sig_len(bytes@)),
{
    let len = bytes.len();
    // Elide leading zero bytes: they carry no value in big-endian order.
    let mut f: usize = 0;
    while f < len && bytes[f] == 0
        invariant
            f <= len == bytes.len(),
            forall|i: int| 0 <= i < f ==> bytes@[i] == 0,
        decreases len - f,
    {
        f += 1;
    }
    proof {
        assert(bytes@ =~= bytes@.take(f as int) + bytes@.skip(f as int));
        lemma_be_value_append(bytes@.take(f as int), bytes@.skip(f as int));
        assert forall|i: int| 0 <= i < bytes@.take(f as int).len() implies bytes@.take(f as int)[i]
            == 0 by {
            assert(bytes@.take(f as int)[i] == bytes@[i]);
        }
        lemma_be_value_zero(bytes@.take(f as int));
        assert(be_value(bytes@.take(f as int)) == 0);
        assert(be_value(bytes@) == be_value(bytes@.take(f as int)) * pow2(
            8 * bytes@.skip(f as int).len(),
        ) + be_value(bytes@.skip(f as int)));
        assert(be_value(bytes@.take(f as int)) * pow2(8 * bytes@.skip(f as int).len()) == 0)
            by (nonlinear_arith)
            requires
                be_value(bytes@.take(f as int)) == 0,
        ;
        assert(be_value(bytes@) == be_value(bytes@.skip(f as int)));
    }
    let n = len - f;
    let mut words: Vec<u64> = Vec::new();
    let mut p: usize = 0;
    proof {
        assert(bytes@.skip(len as int) =~= Seq::<u8>::empty());
    }
    while p < n
        invariant
            f + n == len == bytes.len(),
            p <= n,
            p == n || p == 8 * words@.len(),
            words@.len() == words_for_width(p as nat),
            words_value(words@) == be_value(bytes@.skip((len - p) as int)),
            n > 0 ==> bytes@[f as int] != 0,
            p == n && words@.len() > 0 ==> words@[words@.len() - 1] != 0,
        decreases n - p,
    {
        let e = if n - p > 8 {
            p + 8
        } else {
            n
        };
        let lo = len - e;
        let hi = len - p;
        let mut word: u64 = 0;
        let mut idx = lo;
        proof {
            assert(bytes@.subrange(lo as int, lo as int) =~= Seq::<u8>::empty());
        }
        while idx < hi
            invariant
                lo <= idx <= hi <= bytes.len(),
                hi - lo <= 8,
                word as nat == be_value(bytes@.subrange(lo as int, idx as int)),
            decreases hi - idx,
        {
            proof {
                lemma2_to64();
                lemma2_to64_rest();
                lemma_be_value_bound(bytes@.subrange(lo as int, idx as int));
                if 8 * (idx - lo) < 56 {
                    lemma_pow2_strictly_increases((8 * (idx - lo)) as nat, 56);
                }
                assert(word < pow2(56));
            }
            word = word * 256 + (bytes[idx] as u64);
            proof {
                assert(bytes@.subrange(lo as int, idx + 1).drop_last() =~= bytes@.subrange(
                    lo as int,
                    idx as int,
                ));
                assert(bytes@.subrange(lo as int, idx + 1).last() == bytes@[idx as int]);
            }
            idx += 1;
        }
        proof {
            assert(bytes@.skip(lo as int) =~= bytes@.subrange(lo as int, hi as int) + bytes@.skip(
                hi as int,
            ));
            lemma_be_value_append(bytes@.subrange(lo as int, hi as int), bytes@.skip(hi as int));
            assert(bytes@.skip(hi as int).len() == p);
            assert(word as nat == be_value(bytes@.subrange(lo as int, hi as int)));
            assert(be_value(bytes@.skip(lo as int)) == (word as nat) * pow2(8 * p as nat) + be_value(
                bytes@.skip(hi as int),
            ));
            lemma_words_value_snoc(words@, word);
            assert(8 * p == 64 * words@.len());
            assert(pow2(8 * p as nat) == pow2(64 * words@.len()));
            assert(words_value(words@.push(word)) == words_value(words@) + pow2(8 * p as nat) * (
            word as nat));
            assert(hi as int == len - p);
            assert(words_value(words@) == be_value(bytes@.skip(hi as int)));
            assert((word as nat) * pow2(8 * p as nat) == pow2(8 * p as nat) * (word as nat))
                by (nonlinear_arith);
            assert(words_value(words@.push(word)) == be_value(bytes@.skip(lo as int)));
            lemma_fundamental_div_mod_converse(
                (e + 7) as int,
                8,
                (words@.len() + 1) as int,
                (e - 8 * words@.len() - 1) as int,
            );
            assert(words_for_width(e as nat) == words@.len() + 1);
            if e == n {
                assert(lo == f);
                assert(bytes@.subrange(lo as int, hi as int)[0] == bytes@[f as int]);
                lemma_be_value_zero(bytes@.subrange(lo as int, hi as int));
                assert(word != 0);
            }
        }
        words.push(word);
        p = e;
    }
    proof {
        assert(len - p == f);
        lemma_be_sig_len_at(bytes@, f as int);
        assert(be_sig_len(bytes@) == n);
    }
    words
}

/// Decode a little-endian byte buffer into words, least-significant word
/// first.
///
/// Every buffer decodes successfully: an empty or all-zero buffer yields the
/// empty array (the value zero), and the result is always canonical.
pub fn le_bytes_to_words(bytes: &Vec<u8>) -> (words: Vec<u64>)
    ensures
        words_value(words@) == le_value(bytes@),
        canonical(words@),
        words@.len() == words_for_width(le_sig_len(bytes@)),
{
    let len = bytes.len();
    // Elide trailing zero bytes: they carry no value in little-endian order.
    let mut sig: usize = len;
    while sig > 0 && bytes[sig - 1] == 0
        invariant
            sig <= len == bytes.len(),
            forall|i: int| sig <= i < len ==> bytes@[i] == 0,
        decreases sig,
    {
        sig -= 1;
    }
    proof {
        assert(bytes@ =~= bytes@.take(sig as int) + bytes@.skip(sig as int));
        lemma_le_value_append(bytes@.take(sig as int), bytes@.skip(sig as int));
        assert forall|i: int| 0 <= i < bytes@.skip(sig as int).len() implies bytes@.skip(
            sig as int,
        )[i] == 0 by {
            assert(bytes@.skip(sig as int)[i] == bytes@[i + sig]);
        }
        lemma_le_value_zero(bytes@.skip(sig as int));
        assert(le_value(bytes@.skip(sig as int)) == 0);
        assert(le_value(bytes@) == le_value(bytes@.take(sig as int)) + pow2(
            8 * bytes@.take(sig as int).len(),
        ) * le_value(bytes@.skip(sig as int)));
        assert(pow2(8 * bytes@.take(sig as int).len()) * le_value(bytes@.skip(sig as int)) == 0)
            by (nonlinear_arith)
            requires
                le_value(bytes@.skip(sig as int)) == 0,
        ;
        assert(le_value(bytes@) == le_value(bytes@.take(sig as int)));
        assert(bytes@.take(0) =~= Seq::<u8>::empty());
    }
    let mut words: Vec<u64> = Vec::new();
    let mut p: usize = 0;
    while p < sig
        invariant
            sig <= len == bytes.len(),
            p <= sig,
            p == sig || p == 8 * words@.len(),
            words@.len() == words_for_width(p as nat),
            words_value(words@) == le_value(bytes@.take(p as int)),
            sig > 0 ==> bytes@[sig - 1] != 0,
            p == sig && words@.len() > 0 ==> words@[words@.len() - 1] != 0,
        decreases sig - p,
    {
        let e = if sig - p > 8 {
            p + 8
        } else {
            sig
        };
        let mut word: u64 = 0;
        let mut j = e;
        proof {
            assert(bytes@.subrange(e as int, e as int) =~= Seq::<u8>::empty());
        }
        while j > p
            invariant
                p <= j <= e <= sig <= bytes.len(),
                e - p <= 8,
                word as nat == le_value(bytes@.subrange(j as int, e as int)),
            decreases j,
        {
            j -= 1;
            proof {
                lemma2_to64();
                lemma2_to64_rest();
                lemma_le_value_bound(bytes@.subrange(j + 1, e as int));
                if 8 * (e - j - 1) < 56 {
                    lemma_pow2_strictly_increases((8 * (e - j - 1)) as nat, 56);
                }
                assert(word < pow2(56));
            }
            word = word * 256 + (bytes[j] as u64);
            proof {
                assert(bytes@.subrange(j as int, e as int).drop_first() =~= bytes@.subrange(
                    j + 1,
                    e as int,
                ));
                assert(bytes@.subrange(j as int, e as int)[0] == bytes@[j as int]);
            }
        }
        proof {
            assert(bytes@.take(e as int) =~= bytes@.take(p as int) + bytes@.subrange(
                p as int,
                e as int,
            ));
            lemma_le_value_append(bytes@.take(p as int), bytes@.subrange(p as int, e as int));
            lemma_words_value_snoc(words@, word);
            assert(8 * p == 64 * words@.len());
            lemma_fundamental_div_mod_converse(
                (e + 7) as int,
                8,
                (words@.len() + 1) as int,
                (e - 8 * words@.len() - 1) as int,
            );
            assert(words_for_width(e as nat) == words@.len() + 1);
            if e == sig {
                assert(bytes@.subrange(p as int, e as int)[e - 1 - p] == bytes@[sig - 1]);
                lemma_le_value_zero(bytes@.subrange(p as int, e as int));
                assert(word != 0);
            }
        }
        words.push(word);
        p = e;
    }
    proof {
        lemma_le_sig_len_at(bytes@, sig as int);
        assert(le_sig_len(bytes@) == sig);
    }
    words
}

} // verus!
