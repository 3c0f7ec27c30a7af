//! Mathematical model of the codec.
//!
//! A word array is read as a natural number with base-2^64 digits, least
//! significant first; a byte buffer is read as a natural number with base-256
//! digits, least significant first for little-endian buffers and last for
//! big-endian buffers.  The spec functions here give every operation of the
//! codec its meaning in terms of those numbers, and the lemmas relate the
//! readings to each other.

use vstd::prelude::*;
use vstd::arithmetic::power2::*;
use vstd::arithmetic::div_mod::*;

verus! {

/// Value of a word array: base-2^64 digits, least-significant word first.
pub open spec fn words_value(w: Seq<u64>) -> nat
    decreases w.len(),
{
    if w.len() == 0 {
        0
    } else {
        (w[0] as nat) + pow2(64) * words_value(w.drop_first())
    }
}

/// Value of a little-endian byte buffer: base-256 digits, least significant first.
pub open spec fn le_value(b: Seq<u8>) -> nat
    decreases b.len(),
{
    if b.len() == 0 {
        0
    } else {
        (b[0] as nat) + 256 * le_value(b.drop_first())
    }
}

/// Value of a big-endian byte buffer: base-256 digits, least significant last.
pub open spec fn be_value(b: Seq<u8>) -> nat
    decreases b.len(),
{
    if b.len() == 0 {
        0
    } else {
        256 * be_value(b.drop_last()) + (b.last() as nat)
    }
}

/// A word array is canonical when it carries no redundant high-order zero word.
pub open spec fn canonical(w: Seq<u64>) -> bool {
    w.len() == 0 || w[w.len() - 1] != 0
}

/// Strips redundant high-order zero words.
pub open spec fn canon(w: Seq<u64>) -> Seq<u64>
    decreases w.len(),
{
    if w.len() == 0 {
        w
    } else if w[w.len() - 1] == 0 {
        canon(w.drop_last())
    } else {
        w
    }
}

/// Word `k` of a word array, with words past the end read as zero.
pub open spec fn word_at(w: Seq<u64>, k: nat) -> u64 {
    if k < w.len() {
        w[k as int]
    } else {
        0
    }
}

/// Byte `j` (least significant = 0) of a single word.
pub open spec fn byte_of_word(x: u64, j: nat) -> u8 {
    (((x as nat) / pow2(8 * j)) % 256) as u8
}

/// Byte `p` of the byte stream of a word array: byte `p % 8` of word `p / 8`.
/// This is the placement rule that the byte-at-a-time writer follows.
pub open spec fn word_byte(w: Seq<u64>, p: nat) -> u8 {
    byte_of_word(word_at(w, p / 8), p % 8)
}

/// Base-256 digit `p` (least significant = 0) of a natural number.
pub open spec fn byte_at(v: nat, p: nat) -> u8 {
    ((v / pow2(8 * p)) % 256) as u8
}

/// The little-endian encoding of a word array at the given width:
/// byte `i` is base-256 digit `i` of the array's value.
pub open spec fn le_bytes_spec(w: Seq<u64>, width: nat) -> Seq<u8> {
    Seq::new(width, |i: int| byte_at(words_value(w), i as nat))
}

/// The big-endian encoding of a word array at the given width:
/// byte `i` is base-256 digit `width - 1 - i` of the array's value.
pub open spec fn be_bytes_spec(w: Seq<u64>, width: nat) -> Seq<u8> {
    Seq::new(width, |i: int| byte_at(words_value(w), (width - 1 - i) as nat))
}

/// The buffer the byte-stream writer produces for little-endian order:
/// byte `i` is byte `i` of the word byte stream.
pub open spec fn le_stream_spec(w: Seq<u64>, width: nat) -> Seq<u8> {
    Seq::new(width, |i: int| word_byte(w, i as nat))
}

/// The buffer the byte-stream writer produces for big-endian order:
/// byte `i` is byte `width - 1 - i` of the word byte stream.
pub open spec fn be_stream_spec(w: Seq<u64>, width: nat) -> Seq<u8> {
    Seq::new(width, |i: int| word_byte(w, (width - 1 - i) as nat))
}

/// The word array of length `n` whose value is `v % pow2(64 * n)`:
/// word `i` is base-2^64 digit `i` of `v`.
pub open spec fn words_at(v: nat, n: nat) -> Seq<u64> {
    Seq::new(n, |i: int| ((v / pow2((64 * i) as nat)) % pow2(64)) as u64)
}

/// Number of words needed to cover a width in bytes.
pub open spec fn words_for_width(width: nat) -> nat {
    (width + 7) / 8
}

/// Number of significant bytes of a big-endian buffer: the bytes from the
/// first nonzero byte on.
pub open spec fn be_sig_len(b: Seq<u8>) -> nat
    decreases b.len(),
{
    if b.len() == 0 || b[0] != 0 {
        b.len()
    } else {
        be_sig_len(b.drop_first())
    }
}

/// Number of significant bytes of a little-endian buffer: the bytes up to
/// and including the last nonzero byte.
pub open spec fn le_sig_len(b: Seq<u8>) -> nat
    decreases b.len(),
{
    if b.len() == 0 || b[b.len() - 1] != 0 {
        b.len()
    } else {
        le_sig_len(b.drop_last())
    }
}

/// The two's complement of `v` at `bits` bits: `(2^bits - v) mod 2^bits`.
pub open spec fn twos_comp_nat(v: nat, bits: nat) -> nat {
    if v % pow2(bits) == 0 {
        0
    } else {
        (pow2(bits) - v % pow2(bits)) as nat
    }
}

/// The word array the two's-complement converter produces for a magnitude
/// at a byte width: empty for an empty magnitude or width zero, otherwise
/// the words of `(2^(8*width) - magnitude) mod 2^(8*width)`.
pub open spec fn twos_words(w: Seq<u64>, width: nat) -> Seq<u64> {
    if w.len() == 0 || width == 0 {
        Seq::empty()
    } else {
        words_at(twos_comp_nat(words_value(w), 8 * width), words_for_width(width))
    }
}

/// The word array actually serialized for a signed value: the two's
/// complement of the magnitude when the sign flag is set, the magnitude
/// itself otherwise.
pub open spec fn signed_words(w: Seq<u64>, sign_bit: bool, width: nat) -> Seq<u64> {
    if sign_bit && w.len() > 0 {
        twos_words(w, width)
    } else {
        w
    }
}

/// A word array's value is below `2^(64 * len)`.
pub proof fn lemma_words_value_bound(w: Seq<u64>)
    ensures
        words_value(w) < pow2(64 * w.len()),
    decreases w.len(),
{
    lemma2_to64();
    if w.len() == 0 {
    } else {
        lemma_words_value_bound(w.drop_first());
        let r = words_value(w.drop_first());
        let p = pow2((64 * (w.len() - 1)) as nat);
        assert((w[0] as nat) + pow2(64) * r < pow2(64) * p) by (nonlinear_arith)
            requires
                (w[0] as nat) < pow2(64),
                r < p,
        ;
        lemma_pow2_adds(64, (64 * (w.len() - 1)) as nat);
    }
}

/// A byte buffer's little-endian value is below `2^(8 * len)`.
pub proof fn lemma_le_value_bound(b: Seq<u8>)
    ensures
        le_value(b) < pow2(8 * b.len()),
    decreases b.len(),
{
    lemma2_to64();
    if b.len() == 0 {
    } else {
        lemma_le_value_bound(b.drop_first());
        let r = le_value(b.drop_first());
        let p = pow2((8 * (b.len() - 1)) as nat);
        assert((b[0] as nat) + 256 * r < 256 * p) by (nonlinear_arith)
            requires
                (b[0] as nat) < 256,
                r < p,
        ;
        lemma_pow2_adds(8, (8 * (b.len() - 1)) as nat);
    }
}

/// A byte buffer's big-endian value is below `2^(8 * len)`.
pub proof fn lemma_be_value_bound(b: Seq<u8>)
    ensures
        be_value(b) < pow2(8 * b.len()),
    decreases b.len(),
{
    lemma2_to64();
    if b.len() == 0 {
    } else {
        lemma_be_value_bound(b.drop_last());
        let r = be_value(b.drop_last());
        let p = pow2((8 * (b.len() - 1)) as nat);
        assert(256 * r + (b.last() as nat) < 256 * p) by (nonlinear_arith)
            requires
                (b.last() as nat) < 256,
                r < p,
        ;
        lemma_pow2_adds(8, (8 * (b.len() - 1)) as nat);
    }
}

/// Concatenating word arrays: the right part is shifted by the left part's length.
pub proof fn lemma_words_value_append(a: Seq<u64>, b: Seq<u64>)
    ensures
        words_value(a + b) == words_value(a) + pow2(64 * a.len()) * words_value(b),
    decreases a.len(),
{
    lemma2_to64();
    if a.len() == 0 {
        assert(a + b =~= b);
        assert(words_value(a) == 0);
        assert(pow2(64 * a.len()) == 1);
        assert(words_value(a + b) == words_value(b));
        assert(words_value(a + b) == words_value(a) + pow2(64 * a.len()) * words_value(b));
    } else {
        assert((a + b).drop_first() =~= a.drop_first() + b);
        assert((a + b)[0] == a[0]);
        lemma_words_value_append(a.drop_first(), b);
        let x = words_value(a.drop_first());
        let y = words_value(b);
        let q = pow2((64 * (a.len() - 1)) as nat);
        assert(a.drop_first().len() == a.len() - 1);
        assert(words_value(a.drop_first() + b) == x + q * y);
        assert(words_value(a + b) == (a[0] as nat) + pow2(64) * (x + q * y));
        assert(words_value(a) == (a[0] as nat) + pow2(64) * x);
        assert(pow2(64) * (x + q * y) == pow2(64) * x + (pow2(64) * q) * y) by (nonlinear_arith);
        lemma_pow2_adds(64, (64 * (a.len() - 1)) as nat);
        assert(pow2(64) * q == pow2(64 * a.len()));
        assert(words_value(a + b) == words_value(a) + pow2(64 * a.len()) * y);
    }
}

/// Appending one word adds its value shifted by the array's length.
pub proof fn lemma_words_value_snoc(s: Seq<u64>, x: u64)
    ensures
        words_value(s.push(x)) == words_value(s) + pow2(64 * s.len()) * (x as nat),
{
    assert(s.push(x) =~= s + seq![x]);
    lemma_words_value_append(s, seq![x]);
    assert(seq![x].drop_first() =~= Seq::<u64>::empty());
    assert(words_value(Seq::<u64>::empty()) == 0);
    assert(seq![x][0] == x);
    assert(words_value(seq![x]) == (seq![x][0] as nat) + pow2(64) * words_value(
        seq![x].drop_first(),
    ));
    assert(words_value(seq![x]) == x as nat);
}

/// Concatenating little-endian byte buffers: the right part is shifted by the
/// left part's length.
pub proof fn lemma_le_value_append(a: Seq<u8>, b: Seq<u8>)
    ensures
        le_value(a + b) == le_value(a) + pow2(8 * a.len()) * le_value(b),
    decreases a.len(),
{
    lemma2_to64();
    if a.len() == 0 {
        assert(a + b =~= b);
        assert(le_value(a) == 0);
        assert(pow2(8 * a.len()) == 1);
        assert(le_value(a + b) == le_value(b));
    } else {
        assert((a + b).drop_first() =~= a.drop_first() + b);
        assert((a + b)[0] == a[0]);
        lemma_le_value_append(a.drop_first(), b);
        let x = le_value(a.drop_first());
        let y = le_value(b);
        let q = pow2((8 * (a.len() - 1)) as nat);
        assert(a.drop_first().len() == a.len() - 1);
        assert(le_value(a.drop_first() + b) == x + q * y);
        assert(le_value(a + b) == (a[0] as nat) + 256 * (x + q * y));
        assert(le_value(a) == (a[0] as nat) + 256 * x);
        assert(256 * (x + q * y) == 256 * x + (256 * q) * y) by (nonlinear_arith);
        lemma_pow2_adds(8, (8 * (a.len() - 1)) as nat);
        assert(256 * q == pow2(8 * a.len()));
        assert(le_value(a + b) == le_value(a) + pow2(8 * a.len()) * y);
    }
}

/// Concatenating big-endian byte buffers: the left part is shifted by the
/// right part's length.
pub proof fn lemma_be_value_append(a: Seq<u8>, b: Seq<u8>)
    ensures
        be_value(a + b) == be_value(a) * pow2(8 * b.len()) + be_value(b),
    decreases b.len(),
{
    lemma2_to64();
    if b.len() == 0 {
        assert(a + b =~= a);
        assert(be_value(b) == 0);
        assert(pow2(8 * b.len()) == 1);
        assert(be_value(a + b) == be_value(a));
    } else {
        assert((a + b).drop_last() =~= a + b.drop_last());
        assert((a + b).last() == b.last());
        lemma_be_value_append(a, b.drop_last());
        let x = be_value(a);
        let y = be_value(b.drop_last());
        let q = pow2((8 * (b.len() - 1)) as nat);
        assert(b.drop_last().len() == b.len() - 1);
        assert(be_value(a + b.drop_last()) == x * q + y);
        assert(be_value(a + b) == 256 * (x * q + y) + (b.last() as nat));
        assert(256 * (x * q + y) == x * (256 * q) + 256 * y) by (nonlinear_arith);
        lemma_pow2_adds(8, (8 * (b.len() - 1)) as nat);
        assert(256 * q == pow2(8 * b.len()));
        assert(be_value(a + b) == x * pow2(8 * b.len()) + be_value(b));
    }
}

/// A little-endian buffer's value is zero exactly when every byte is zero.
pub proof fn lemma_le_value_zero(b: Seq<u8>)
    ensures
        (le_value(b) == 0) <==> (forall|i: int| 0 <= i < b.len() ==> b[i] == 0),
    decreases b.len(),
{
    if b.len() == 0 {
    } else {
        lemma_le_value_zero(b.drop_first());
        if le_value(b) == 0 {
            assert((b[0] as nat) + 256 * le_value(b.drop_first()) == 0);
            assert(le_value(b.drop_first()) == 0);
            assert forall|i: int| 0 <= i < b.len() implies b[i] == 0 by {
                if i > 0 {
                    assert(b.drop_first()[i - 1] == 0);
                    assert(b.drop_first()[i - 1] == b[i]);
                }
            }
        }
        if forall|i: int| 0 <= i < b.len() ==> b[i] == 0 {
            assert forall|i: int| 0 <= i < b.drop_first().len() implies b.drop_first()[i] == 0 by {
                assert(b.drop_first()[i] == b[i + 1]);
            }
            assert(le_value(b.drop_first()) == 0);
            assert(b[0] == 0);
            assert(le_value(b) == 0);
        }
    }
}

/// A big-endian buffer's value is zero exactly when every byte is zero.
pub proof fn lemma_be_value_zero(b: Seq<u8>)
    ensures
        (be_value(b) == 0) <==> (forall|i: int| 0 <= i < b.len() ==> b[i] == 0),
    decreases b.len(),
{
    if b.len() == 0 {
    } else {
        lemma_be_value_zero(b.drop_last());
        if be_value(b) == 0 {
            assert(256 * be_value(b.drop_last()) + (b.last() as nat) == 0);
            assert(be_value(b.drop_last()) == 0);
            assert forall|i: int| 0 <= i < b.len() implies b[i] == 0 by {
                if i < b.len() - 1 {
                    assert(b.drop_last()[i] == 0);
                    assert(b.drop_last()[i] == b[i]);
                }
            }
        }
        if forall|i: int| 0 <= i < b.len() ==> b[i] == 0 {
            assert forall|i: int| 0 <= i < b.drop_last().len() implies b.drop_last()[i] == 0 by {
                assert(b.drop_last()[i] == b[i]);
            }
            assert(be_value(b.drop_last()) == 0);
            assert(b.last() == 0);
            assert(be_value(b) == 0);
        }
    }
}

/// A word array's value is zero exactly when every word is zero.
pub proof fn lemma_words_value_zero(w: Seq<u64>)
    ensures
        (words_value(w) == 0) <==> (forall|i: int| 0 <= i < w.len() ==> w[i] == 0),
    decreases w.len(),
{
    if w.len() == 0 {
    } else {
        lemma_words_value_zero(w.drop_first());
        lemma_pow2_pos(64);
        if words_value(w) == 0 {
            assert((w[0] as nat) + pow2(64) * words_value(w.drop_first()) == 0);
            assert(pow2(64) * words_value(w.drop_first()) == 0);
            assert(words_value(w.drop_first()) == 0) by (nonlinear_arith)
                requires
                    pow2(64) * words_value(w.drop_first()) == 0,
                    pow2(64) > 0,
            ;
            assert forall|i: int| 0 <= i < w.len() implies w[i] == 0 by {
                if i > 0 {
                    assert(w.drop_first()[i - 1] == 0);
                    assert(w.drop_first()[i - 1] == w[i]);
                }
            }
        }
        if forall|i: int| 0 <= i < w.len() ==> w[i] == 0 {
            assert forall|i: int| 0 <= i < w.drop_first().len() implies w.drop_first()[i] == 0 by {
                assert(w.drop_first()[i] == w[i + 1]);
            }
            assert(words_value(w.drop_first()) == 0);
            assert(w[0] == 0);
            assert(words_value(w) == 0);
        }
    }
}

/// The big-endian reading of a buffer is the little-endian reading of its
/// reversal.
pub proof fn lemma_be_value_reverse(b: Seq<u8>)
    ensures
        be_value(b) == le_value(b.reverse()),
    decreases b.len(),
{
    if b.len() == 0 {
        assert(b.reverse() =~= b);
    } else {
        lemma_be_value_reverse(b.drop_last());
        assert(b.reverse().drop_first() =~= b.drop_last().reverse());
        assert(b.reverse()[0] == b.last());
        assert(le_value(b.reverse()) == (b.reverse()[0] as nat) + 256 * le_value(
            b.reverse().drop_first(),
        ));
    }
}

/// Word `k` of an array is base-2^64 digit `k` of the array's value.
pub proof fn lemma_words_value_extract(w: Seq<u64>, k: nat)
    ensures
        (words_value(w) / pow2(64 * k)) % pow2(64) == word_at(w, k),
    decreases k,
{
    lemma2_to64();
    lemma_pow2_pos(64 * k);
    if w.len() == 0 {
        assert(words_value(w) == 0);
        assert(0nat / pow2(64 * k) == 0) by (nonlinear_arith)
            requires
                pow2(64 * k) > 0,
        ;
        assert(0nat % pow2(64) == 0);
    } else if k == 0 {
        assert(pow2(64 * k) == 1);
        assert(words_value(w) / 1 == words_value(w));
        let r = words_value(w.drop_first());
        lemma_fundamental_div_mod_converse(
            words_value(w) as int,
            pow2(64) as int,
            r as int,
            w[0] as int,
        );
    } else {
        let v = words_value(w);
        let r = words_value(w.drop_first());
        lemma_fundamental_div_mod_converse(v as int, pow2(64) as int, r as int, w[0] as int);
        assert(v / pow2(64) == r);
        lemma_pow2_pos((64 * (k - 1)) as nat);
        lemma_div_denominator(v as int, pow2(64) as int, pow2((64 * (k - 1)) as nat) as int);
        lemma_pow2_adds(64, (64 * (k - 1)) as nat);
        assert(v / pow2(64 * k) == r / pow2((64 * (k - 1)) as nat));
        lemma_words_value_extract(w.drop_first(), (k - 1) as nat);
        assert(word_at(w, k) == word_at(w.drop_first(), (k - 1) as nat));
    }
}

/// Byte `p` of the word byte stream is base-256 digit `p` of the value:
/// cutting the value into words and the words into bytes is the same as
/// cutting the value into bytes directly.
pub proof fn lemma_word_byte_is_byte_at(w: Seq<u64>, p: nat)
    ensures
        word_byte(w, p) == byte_at(words_value(w), p),
{
    lemma2_to64();
    let k = p / 8;
    let j = p % 8;
    let v = words_value(w);
    let x = word_at(w, k) as nat;
    lemma_words_value_extract(w, k);
    let q = v / pow2(64 * k);
    assert(x == q % pow2(64));
    assert(p == 8 * k + j);
    lemma_pow2_pos(64 * k);
    lemma_pow2_pos(8 * j);
    lemma_pow2_adds(64 * k, 8 * j);
    lemma_div_denominator(v as int, pow2(64 * k) as int, pow2(8 * j) as int);
    assert(pow2(8 * p) == pow2(64 * k) * pow2(8 * j));
    assert(v / pow2(8 * p) == q / pow2(8 * j));
    let h = q / pow2(64);
    lemma_fundamental_div_mod(q as int, pow2(64) as int);
    assert(q == pow2(64) * h + x);
    let a = x / pow2(8 * j);
    let r = x % pow2(8 * j);
    lemma_fundamental_div_mod(x as int, pow2(8 * j) as int);
    assert(x == pow2(8 * j) * a + r);
    lemma_pow2_adds(8 * j, (64 - 8 * j) as nat);
    let c = pow2((64 - 8 * j) as nat);
    assert(pow2(64) == pow2(8 * j) * c);
    assert(q == (a + c * h) * pow2(8 * j) + r) by (nonlinear_arith)
        requires
            q == pow2(64) * h + x,
            x == pow2(8 * j) * a + r,
            pow2(64) == pow2(8 * j) * c,
    ;
    assert(0 <= r < pow2(8 * j));
    lemma_fundamental_div_mod_converse(q as int, pow2(8 * j) as int, (a + c * h) as int, r as int);
    assert(q / pow2(8 * j) == a + c * h);
    lemma_pow2_adds(8, (56 - 8 * j) as nat);
    let d = pow2((56 - 8 * j) as nat);
    assert(c == 256 * d);
    assert(a + c * h == 256 * (d * h) + a) by (nonlinear_arith)
        requires
            c == 256 * d,
    ;
    lemma_mod_multiples_vanish((d * h) as int, a as int, 256);
    assert((v / pow2(8 * p)) % 256 == a % 256);
}

/// The first `n` base-256 digits of a number read back as the number modulo
/// `2^(8*n)`.
pub proof fn lemma_byte_digits_value(v: nat, n: nat)
    ensures
        le_value(Seq::new(n, |i: int| byte_at(v, i as nat))) == v % pow2(8 * n),
    decreases n,
{
    lemma2_to64();
    lemma_pow2_pos(8 * n);
    let s = Seq::new(n, |i: int| byte_at(v, i as nat));
    if n == 0 {
        assert(pow2(8 * n) == 1);
        assert(v % 1 == 0);
    } else {
        let s2 = Seq::new((n - 1) as nat, |i: int| byte_at(v / 256, i as nat));
        assert forall|i: int| 0 <= i < n - 1 implies s.drop_first()[i] == s2[i] by {
            lemma_pow2_pos((8 * i) as nat);
            lemma_pow2_adds(8, (8 * i) as nat);
            lemma_div_denominator(v as int, 256, pow2((8 * i) as nat) as int);
            assert(pow2((8 * (i + 1)) as nat) == 256 * pow2((8 * i) as nat));
            assert(v / pow2((8 * (i + 1)) as nat) == (v / 256) / pow2((8 * i) as nat));
        }
        assert(s.drop_first() =~= s2);
        lemma_byte_digits_value(v / 256, (n - 1) as nat);
        assert(s[0] == byte_at(v, 0));
        assert(pow2(8 * 0) == 1);
        assert(v / 1nat == v);
        assert(v / pow2(8 * 0) == v);
        assert(s[0] as nat == v % 256);
        lemma_pow2_pos((8 * (n - 1)) as nat);
        lemma_mod_breakdown(v as int, 256, pow2((8 * (n - 1)) as nat) as int);
        lemma_pow2_adds(8, (8 * (n - 1)) as nat);
        assert(pow2(8 * n) == 256 * pow2((8 * (n - 1)) as nat));
        assert(le_value(s) == (s[0] as nat) + 256 * le_value(s.drop_first()));
    }
}

/// The little-endian encoding of a word array carries the array's value
/// truncated to the width.
pub proof fn lemma_le_bytes_spec_value(w: Seq<u64>, width: nat)
    ensures
        le_value(le_bytes_spec(w, width)) == words_value(w) % pow2(8 * width),
{
    lemma_byte_digits_value(words_value(w), width);
    assert(le_bytes_spec(w, width) =~= Seq::new(
        width,
        |i: int| byte_at(words_value(w), i as nat),
    ));
}

/// The big-endian encoding of a word array carries the array's value
/// truncated to the width.
pub proof fn lemma_be_bytes_spec_value(w: Seq<u64>, width: nat)
    ensures
        be_value(be_bytes_spec(w, width)) == words_value(w) % pow2(8 * width),
{
    let b = be_bytes_spec(w, width);
    lemma_be_value_reverse(b);
    assert forall|i: int| 0 <= i < width implies b.reverse()[i] == le_bytes_spec(w, width)[i] by {
        assert(b.reverse()[i] == b[width - 1 - i]);
        assert(b[width - 1 - i] == byte_at(words_value(w), i as nat));
    }
    assert(b.reverse() =~= le_bytes_spec(w, width));
    lemma_le_bytes_spec_value(w, width);
}

/// The byte-stream placement and the base-256 digits of the value give the
/// same buffer, for either endianness.
pub proof fn lemma_stream_matches_bytes(w: Seq<u64>, width: nat)
    ensures
        le_stream_spec(w, width) == le_bytes_spec(w, width),
        be_stream_spec(w, width) == be_bytes_spec(w, width),
{
    assert forall|i: int| 0 <= i < width implies le_stream_spec(w, width)[i] == le_bytes_spec(
        w,
        width,
    )[i] by {
        lemma_word_byte_is_byte_at(w, i as nat);
    }
    assert(le_stream_spec(w, width) =~= le_bytes_spec(w, width));
    assert forall|i: int| 0 <= i < width implies be_stream_spec(w, width)[i] == be_bytes_spec(
        w,
        width,
    )[i] by {
        lemma_word_byte_is_byte_at(w, (width - 1 - i) as nat);
    }
    assert(be_stream_spec(w, width) =~= be_bytes_spec(w, width));
}

/// The index of the first nonzero byte determines a big-endian buffer's
/// significant length.
pub proof fn lemma_be_sig_len_at(b: Seq<u8>, f: int)
    requires
        0 <= f <= b.len(),
        forall|i: int| 0 <= i < f ==> b[i] == 0,
        f < b.len() ==> b[f] != 0,
    ensures
        be_sig_len(b) == b.len() - f,
    decreases f,
{
    if f == 0 {
    } else {
        assert(b[0] == 0);
        assert forall|i: int| 0 <= i < f - 1 implies b.drop_first()[i] == 0 by {
            assert(b.drop_first()[i] == b[i + 1]);
        }
        if f - 1 < b.drop_first().len() {
            assert(b.drop_first()[f - 1] == b[f]);
        }
        lemma_be_sig_len_at(b.drop_first(), f - 1);
    }
}

/// The index just past the last nonzero byte determines a little-endian
/// buffer's significant length.
pub proof fn lemma_le_sig_len_at(b: Seq<u8>, s: int)
    requires
        0 <= s <= b.len(),
        forall|i: int| s <= i < b.len() ==> b[i] == 0,
        s > 0 ==> b[s - 1] != 0,
    ensures
        le_sig_len(b) == s,
    decreases b.len(),
{
    if b.len() == 0 {
    } else if s == b.len() {
    } else {
        assert(b[b.len() - 1] == 0);
        assert forall|i: int| s <= i < b.drop_last().len() implies b.drop_last()[i] == 0 by {
            assert(b.drop_last()[i] == b[i]);
        }
        if s > 0 {
            assert(b.drop_last()[s - 1] == b[s - 1]);
        }
        lemma_le_sig_len_at(b.drop_last(), s);
    }
}

/// Two word arrays that agree from position `i` on also agree from `i + 1`
/// on.
pub proof fn lemma_skip_shift(s1: Seq<u64>, s2: Seq<u64>, i: int)
    requires
        0 <= i < s1.len(),
        s1.len() == s2.len(),
        s1.skip(i) == s2.skip(i),
    ensures
        s1.skip(i + 1) == s2.skip(i + 1),
{
    assert forall|t: int| 0 <= t < s1.len() - i - 1 implies #[trigger] s1.skip(i + 1)[t]
        == s2.skip(i + 1)[t] by {
        assert(s1.skip(i)[t + 1] == s2.skip(i)[t + 1]);
        assert(s1.skip(i + 1)[t] == s1.skip(i)[t + 1]);
        assert(s2.skip(i + 1)[t] == s2.skip(i)[t + 1]);
    }
    assert(s1.skip(i + 1) =~= s2.skip(i + 1));
}

/// Splitting a word array at any point splits its value.
pub proof fn lemma_words_value_split(w: Seq<u64>, k: int)
    requires
        0 <= k <= w.len(),
    ensures
        words_value(w) == words_value(w.take(k)) + pow2(64 * k as nat) * words_value(w.skip(k)),
{
    assert(w =~= w.take(k) + w.skip(k));
    lemma_words_value_append(w.take(k), w.skip(k));
    assert(w.take(k).len() == k);
}

/// Truncating a two's complement to fewer bits gives the two's complement at
/// the smaller size.
pub proof fn lemma_twos_comp_mod(v: nat, small: nat, big: nat)
    requires
        small <= big,
    ensures
        twos_comp_nat(v, big) % pow2(small) == twos_comp_nat(v, small),
{
    lemma_pow2_pos(small);
    lemma_pow2_pos(big);
    lemma_pow2_pos((big - small) as nat);
    let m = pow2(small);
    let big_m = pow2(big);
    lemma_pow2_adds(small, (big - small) as nat);
    let k = pow2((big - small) as nat);
    assert(big_m == m * k);
    lemma_mod_mod(v as int, m as int, k as int);
    assert(v % big_m == v as int % (m * k) as int);
    assert((v % big_m) % m == v % m);
    let x = twos_comp_nat(v, big);
    if v % big_m == 0 {
        assert(x == 0);
        assert(x % m == 0) by {
            lemma_small_mod(0, m);
        }
        assert(v % m == 0);
    } else {
        assert(x == big_m - v % big_m);
        let u = v % big_m;
        let t = u / m;
        let s = u % m;
        lemma_fundamental_div_mod(u as int, m as int);
        assert(u == m * t + s);
        assert(v % m == s);
        if s == 0 {
            assert(x == m * (k - t)) by (nonlinear_arith)
                requires
                    x == m * k - u,
                    u == m * t + 0,
            ;
            lemma_mod_multiples_vanish((k - t) as int, 0, m as int);
            assert((m as int * ((k - t) as int) + 0) % (m as int) == 0int % (m as int));
            lemma_small_mod(0, m);
            assert(x % m == 0);
            assert(twos_comp_nat(v, small) == 0);
        } else {
            assert(x == m * (k - t - 1) + (m - s)) by (nonlinear_arith)
                requires
                    x == m * k - u,
                    u == m * t + s,
            ;
            assert(0 <= m - s < m);
            lemma_mod_multiples_vanish((k - t - 1) as int, (m - s) as int, m as int);
            lemma_small_mod((m - s) as nat, m);
            assert(x % m == m - s);
            assert(twos_comp_nat(v, small) == m - s);
        }
    }
}

/// Every byte of the zero word is zero.
pub proof fn lemma_byte_of_word_zero(j: nat)
    ensures
        byte_of_word(0u64, j) == 0,
{
    lemma_pow2_pos(8 * j);
    assert(0nat / pow2(8 * j) == 0) by (nonlinear_arith)
        requires
            pow2(8 * j) > 0,
    ;
}

/// The byte stream of a word array is zero past its `8 * len` real bytes.
pub proof fn lemma_word_byte_past(w: Seq<u64>, p: nat)
    requires
        p >= 8 * w.len(),
    ensures
        word_byte(w, p) == 0,
{
    assert(p / 8 >= w.len()) by (nonlinear_arith)
        requires
            p >= 8 * w.len(),
    ;
    lemma_byte_of_word_zero(p % 8);
}

/// Stripping high-order zero words keeps the value and yields a canonical
/// array.
pub proof fn lemma_canon_properties(w: Seq<u64>)
    ensures
        canonical(canon(w)),
        words_value(canon(w)) == words_value(w),
    decreases w.len(),
{
    if w.len() == 0 {
    } else if w[w.len() - 1] == 0 {
        lemma_canon_properties(w.drop_last());
        lemma_words_value_snoc(w.drop_last(), w.last());
        assert(w.drop_last().push(w.last()) =~= w);
    } else {
    }
}

/// Two canonical word arrays with the same value are the same array.
pub proof fn lemma_canonical_unique(w1: Seq<u64>, w2: Seq<u64>)
    requires
        canonical(w1),
        canonical(w2),
        words_value(w1) == words_value(w2),
    ensures
        w1 == w2,
    decreases w1.len(),
{
    lemma_pow2_pos(64);
    if words_value(w1) == 0 {
        lemma_words_value_zero(w1);
        lemma_words_value_zero(w2);
        assert(w1.len() == 0);
        assert(w2.len() == 0);
        assert(w1 =~= w2);
    } else {
        assert(w1.len() > 0);
        assert(w2.len() > 0);
        lemma_words_value_extract(w1, 0);
        lemma_words_value_extract(w2, 0);
        assert(pow2((64 * 0) as nat) == 1) by {
            lemma2_to64();
        }
        assert(words_value(w1) / 1 == words_value(w1));
        assert(w1[0] == w2[0]);
        let r1 = words_value(w1.drop_first());
        let r2 = words_value(w2.drop_first());
        assert(pow2(64) * r1 == pow2(64) * r2);
        assert(r1 == r2) by (nonlinear_arith)
            requires
                pow2(64) * r1 == pow2(64) * r2,
                pow2(64) > 0,
        ;
        assert(canonical(w1.drop_first())) by {
            if w1.len() > 1 {
                assert(w1.drop_first()[w1.len() - 2] == w1[w1.len() - 1]);
            }
        }
        assert(canonical(w2.drop_first())) by {
            if w2.len() > 1 {
                assert(w2.drop_first()[w2.len() - 2] == w2[w2.len() - 1]);
            }
        }
        lemma_canonical_unique(w1.drop_first(), w2.drop_first());
        assert(w1.len() == w2.len());
        assert forall|i: int| 0 <= i < w1.len() implies w1[i] == w2[i] by {
            if i > 0 {
                assert(w1.drop_first()[i - 1] == w2.drop_first()[i - 1]);
                assert(w1.drop_first()[i - 1] == w1[i]);
                assert(w2.drop_first()[i - 1] == w2[i]);
            }
        }
        assert(w1 =~= w2);
    }
}

} // verus!
