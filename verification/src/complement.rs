//! Two's-complement conversion of a magnitude at a fixed byte width.

use vstd::prelude::*;
use vstd::arithmetic::power2::*;
use vstd::arithmetic::div_mod::*;
use vstd::bits::{lemma_u64_low_bits_mask_is_mod, lemma_u64_shl_is_mul};
use crate::model::{
    lemma_skip_shift, lemma_twos_comp_mod, lemma_words_value_append, lemma_words_value_bound,
    lemma_words_value_extract, lemma_words_value_snoc, lemma_words_value_split,
    lemma_words_value_zero, twos_comp_nat, twos_words, words_for_width, words_value,
};

verus! {

/// Compute the word array whose encoding at `width` bytes is the standard
/// two's-complement representation of the negated magnitude: copy the
/// magnitude into `ceil(width / 8)` words, invert every bit, add one with
/// carry, and mask the top word down to the bits the width can hold.
///
/// An empty magnitude or a width of zero yields an empty result.
#[verifier::rlimit(50)]
pub fn twos_complement(words: &Vec<u64>, width: usize) -> (out: Vec<u64>)
    ensures
        out@ == twos_words(words@, width as nat),
{
    if words.len() == 0 || width == 0 {
        let out: Vec<u64> = Vec::new();
        proof {
            assert(out@ =~= twos_words(words@, width as nat));
        }
        return out;
    }
    let q = width / 8;
    let r = width % 8;
    let n = if r == 0 {
        q
    } else {
        q + 1
    };
    proof {
        lemma_fundamental_div_mod(width as int, 8);
        if r == 0 {
            lemma_fundamental_div_mod_converse((width + 7) as int, 8, q as int, 7);
        } else {
            lemma_fundamental_div_mod_converse((width + 7) as int, 8, (q + 1) as int, (r - 1) as int);
        }
        assert(n as nat == words_for_width(width as nat));
        assert(8 * width <= 64 * n);
    }

    // Copy the magnitude's low words and pad with zero words up to `n`.
    let m = if words.len() < n {
        words.len()
    } else {
        n
    };
    let mut out: Vec<u64> = Vec::new();
    let mut i: usize = 0;
    while i < m
        invariant
            i <= m <= words.len(),
            out@ == words@.take(i as int),
        decreases m - i,
    {
        let x = words[i];
        out.push(x);
        proof {
            assert(words@.take(i + 1) =~= words@.take(i as int).push(words@[i as int]));
        }
        i += 1;
    }
    while out.len() < n
        invariant
            m <= out@.len() <= n,
            out@.take(m as int) == words@.take(m as int),
            forall|t: int| m <= t < out@.len() ==> out@[t] == 0,
        decreases n - out.len(),
    {
        out.push(0);
    }
    proof {
        let zpart = out@.skip(m as int);
        assert(out@ =~= out@.take(m as int) + zpart);
        lemma_words_value_append(out@.take(m as int), zpart);
        assert forall|t: int| 0 <= t < zpart.len() implies zpart[t] == 0 by {
            assert(zpart[t] == out@[t + m]);
        }
        lemma_words_value_zero(zpart);
        assert(pow2(64 * m as nat) * words_value(zpart) == 0) by (nonlinear_arith)
            requires
                words_value(zpart) == 0,
        ;
        assert(words_value(out@) == words_value(words@.take(m as int)));
        lemma_pow2_pos(64 * n as nat);
        if m == words.len() {
            assert(words@.take(m as int) =~= words@);
            lemma_words_value_bound(words@);
            if 64 * words@.len() < 64 * n as nat {
                lemma_pow2_strictly_increases(64 * words@.len(), 64 * n as nat);
            }
            lemma_small_mod(words_value(words@), pow2(64 * n as nat));
        } else {
            assert(m == n);
            lemma_words_value_split(words@, n as int);
            lemma_words_value_bound(words@.take(n as int));
            lemma_mod_multiples_vanish(
                words_value(words@.skip(n as int)) as int,
                words_value(words@.take(n as int)) as int,
                pow2(64 * n as nat) as int,
            );
            lemma_small_mod(words_value(words@.take(n as int)), pow2(64 * n as nat));
        }
        assert(words_value(out@) == words_value(words@) % pow2(64 * n as nat));
    }
    let ghost v0 = words_value(out@);

    // Invert every word: the value becomes `2^(64*n) - 1 - v0`.
    let ghost pre_inv = out@;
    proof {
        lemma2_to64();
    }
    let mut i: usize = 0;
    while i < n
        invariant
            out@.len() == n,
            pre_inv.len() == n,
            i <= n,
            out@.skip(i as int) == pre_inv.skip(i as int),
            words_value(out@.take(i as int)) == pow2(64 * i as nat) - 1 - words_value(
                pre_inv.take(i as int),
            ),
        decreases n - i,
    {
        let x = out[i];
        let y = !x;
        proof {
            assert(!x == 0xffffffffffffffffu64 - x) by (bit_vector);
            assert(out@.skip(i as int)[0] == out@[i as int]);
            assert(pre_inv.skip(i as int)[0] == pre_inv[i as int]);
            assert(x == pre_inv[i as int]);
        }
        let ghost before = out@;
        out.set(i, y);
        proof {
            assert(out@.take(i as int) =~= before.take(i as int));
            assert(out@.take(i + 1) =~= out@.take(i as int).push(y));
            assert(out@.skip(i + 1) =~= before.skip(i + 1));
            lemma_skip_shift(before, pre_inv, i as int);
            assert(out@.skip(i + 1) == pre_inv.skip(i + 1));
            lemma_words_value_snoc(out@.take(i as int), y);
            assert(pre_inv.take(i + 1) =~= pre_inv.take(i as int).push(pre_inv[i as int]));
            lemma_words_value_snoc(pre_inv.take(i as int), pre_inv[i as int]);
            lemma_pow2_adds(64 * i as nat, 64);
            lemma2_to64();
            assert(words_value(out@.take(i + 1)) == pow2(64 * (i + 1) as nat) - 1 - words_value(
                pre_inv.take(i + 1),
            )) by (nonlinear_arith)
                requires
                    words_value(out@.take(i + 1)) == words_value(out@.take(i as int)) + pow2(
                        64 * i as nat,
                    ) * (y as nat),
                    words_value(out@.take(i as int)) == pow2(64 * i as nat) - 1 - words_value(
                        pre_inv.take(i as int),
                    ),
                    words_value(pre_inv.take(i + 1)) == words_value(pre_inv.take(i as int)) + pow2(
                        64 * i as nat,
                    ) * (pre_inv[i as int] as nat),
                    y as nat == 0xffffffffffffffff - pre_inv[i as int] as nat,
                    pow2(64 * (i + 1) as nat) == pow2(64 * i as nat) * pow2(64),
                    pow2(64) == 0x10000000000000000,
            ;
        }
        i += 1;
    }
    proof {
        assert(out@.take(n as int) =~= out@);
        assert(pre_inv.take(n as int) =~= pre_inv);
        assert(words_value(out@) == pow2(64 * n as nat) - 1 - v0);
    }
    let ghost vinv = words_value(out@);

    // Add one, propagating the carry and stopping once it dies out: the
    // value becomes `(vinv + 1) % 2^(64*n)`.
    let ghost pre_add = out@;
    let mut carry: bool = true;
    let mut i: usize = 0;
    while carry && i < n
        invariant
            out@.len() == n,
            pre_add.len() == n,
            i <= n,
            vinv == words_value(pre_add),
            carry ==> out@.skip(i as int) == pre_add.skip(i as int),
            carry ==> words_value(out@.take(i as int)) + pow2(64 * i as nat) == words_value(
                pre_add.take(i as int),
            ) + 1,
            !carry ==> words_value(out@) == vinv + 1,
        decreases n - i,
    {
        let x = out[i];
        proof {
            assert(out@.skip(i as int)[0] == out@[i as int]);
            assert(pre_add.skip(i as int)[0] == pre_add[i as int]);
            assert(x == pre_add[i as int]);
        }
        let ghost before = out@;
        if x == u64::MAX {
            out.set(i, 0);
            proof {
                assert(out@.take(i as int) =~= before.take(i as int));
                assert(out@.take(i + 1) =~= out@.take(i as int).push(0u64));
                assert(out@.skip(i + 1) =~= before.skip(i + 1));
                lemma_skip_shift(before, pre_add, i as int);
                assert(out@.skip(i + 1) == pre_add.skip(i + 1));
                lemma_words_value_snoc(out@.take(i as int), 0u64);
                assert(pre_add.take(i + 1) =~= pre_add.take(i as int).push(pre_add[i as int]));
                lemma_words_value_snoc(pre_add.take(i as int), pre_add[i as int]);
                lemma_pow2_adds(64 * i as nat, 64);
                lemma2_to64();
                assert(words_value(out@.take(i + 1)) + pow2(64 * (i + 1) as nat) == words_value(
                    pre_add.take(i + 1),
                ) + 1) by (nonlinear_arith)
                    requires
                        words_value(out@.take(i + 1)) == words_value(out@.take(i as int)) + pow2(
                            64 * i as nat,
                        ) * 0,
                        words_value(out@.take(i as int)) + pow2(64 * i as nat) == words_value(
                            pre_add.take(i as int),
                        ) + 1,
                        words_value(pre_add.take(i + 1)) == words_value(pre_add.take(i as int))
                            + pow2(64 * i as nat) * (pre_add[i as int] as nat),
                        pre_add[i as int] == 0xffffffffffffffffu64,
                        pow2(64 * (i + 1) as nat) == pow2(64 * i as nat) * pow2(64),
                        pow2(64) == 0x10000000000000000,
                ;
            }
            i += 1;
        } else {
            out.set(i, x + 1);
            proof {
                assert(out@.take(i as int) =~= before.take(i as int));
                assert(out@.take(i + 1) =~= out@.take(i as int).push((x + 1) as u64));
                assert(out@.skip(i + 1) =~= before.skip(i + 1));
                lemma_skip_shift(before, pre_add, i as int);
                assert(out@.skip(i + 1) == pre_add.skip(i + 1));
                lemma_words_value_snoc(out@.take(i as int), (x + 1) as u64);
                assert(pre_add.take(i + 1) =~= pre_add.take(i as int).push(pre_add[i as int]));
                lemma_words_value_snoc(pre_add.take(i as int), pre_add[i as int]);
                assert(words_value(out@.take(i + 1)) == words_value(pre_add.take(i + 1)) + 1)
                    by (nonlinear_arith)
                    requires
                        words_value(out@.take(i + 1)) == words_value(out@.take(i as int)) + pow2(
                            64 * i as nat,
                        ) * ((x + 1) as nat),
                        words_value(out@.take(i as int)) + pow2(64 * i as nat) == words_value(
                            pre_add.take(i as int),
                        ) + 1,
                        words_value(pre_add.take(i + 1)) == words_value(pre_add.take(i as int))
                            + pow2(64 * i as nat) * (x as nat),
                        x == pre_add[i as int],
                ;
                lemma_words_value_split(out@, i + 1);
                lemma_words_value_split(pre_add, i + 1);
                assert(words_value(out@) == vinv + 1);
            }
            carry = false;
            i += 1;
        }
    }
    proof {
        lemma_words_value_bound(out@);
        if carry {
            assert(i == n);
            assert(out@.take(n as int) =~= out@);
            assert(pre_add.take(n as int) =~= pre_add);
            assert(words_value(out@) + pow2(64 * n as nat) == vinv + 1);
            assert(words_value(out@) == 0 && v0 == 0);
        }
        assert(words_value(out@) == twos_comp_nat(words_value(words@), 64 * n as nat));
    }

    // Mask the top word so the value never carries bits past `8 * width`.
    if r != 0 {
        let eb: u64 = (r as u64) * 8;
        let one: u64 = 1;
        proof {
            lemma2_to64();
            lemma2_to64_rest();
            if (8 * r as nat) < 56 {
                lemma_pow2_strictly_increases(8 * r as nat, 56);
            }
            lemma_u64_shl_is_mul(one, eb);
            assert(one << eb == pow2(8 * r as nat));
        }
        let mask: u64 = (one << eb) - 1;
        let x = out[n - 1];
        proof {
            assert(mask as nat == pow2(8 * r as nat) - 1);
            lemma_u64_low_bits_mask_is_mod(x, 8 * r as nat);
            assert((x & mask) as nat == (x as nat) % pow2(8 * r as nat)) by {
                assert(vstd::bits::low_bits_mask(8 * r as nat) == pow2(8 * r as nat) - 1);
            }
        }
        let y = x & mask;
        let ghost before = out@;
        out.set(n - 1, y);
        proof {
            assert(out@.take(n - 1) =~= before.take(n - 1));
            assert(out@ =~= out@.take(n - 1).push(y));
            assert(before =~= before.take(n - 1).push(x));
            lemma_words_value_snoc(before.take(n - 1), x);
            lemma_words_value_snoc(out@.take(n - 1), y);
            lemma_words_value_bound(before.take(n - 1));
            let p = pow2(64 * (n - 1) as nat);
            lemma_pow2_pos(64 * (n - 1) as nat);
            lemma_pow2_pos(8 * r as nat);
            assert(p * (x as nat) == (x as nat) * p) by (nonlinear_arith);
            assert(words_value(before) == (x as nat) * p + words_value(before.take(n - 1)));
            lemma_fundamental_div_mod_converse(
                words_value(before) as int,
                p as int,
                x as int,
                words_value(before.take(n - 1)) as int,
            );
            lemma_mod_breakdown(words_value(before) as int, p as int, pow2(8 * r as nat) as int);
            lemma_pow2_adds(64 * (n - 1) as nat, 8 * r as nat);
            assert(64 * (n - 1) + 8 * r == 8 * width);
            assert(pow2(8 * width as nat) == p * pow2(8 * r as nat));
            assert(words_value(out@) == words_value(before) % pow2(8 * width as nat));
        }
    }
    proof {
        let v = words_value(words@);
        lemma_twos_comp_mod(v, 8 * width as nat, 64 * n as nat);
        lemma_pow2_pos(8 * width as nat);
        if r == 0 {
            assert(64 * n == 8 * width);
            lemma_words_value_bound(out@);
            lemma_small_mod(words_value(out@), pow2(8 * width as nat));
        }
        assert(words_value(out@) == twos_comp_nat(v, 8 * width as nat));
        let tw = twos_words(words@, width as nat);
        assert(tw.len() == n);
        assert forall|t: int| 0 <= t < n implies out@[t] == tw[t] by {
            lemma_words_value_extract(out@, t as nat);
        }
        assert(out@ =~= tw);
    }
    out
}

} // verus!
