//! The binary bridge: any valid base is a power of two, so a radix-2
//! digit sequence serves as the shared intermediate form for converting
//! between any two bases with a single bit-regrouping routine.

use vstd::prelude::*;
use vstd::arithmetic::power::pow;
use vstd::arithmetic::power::lemma_pow_adds;
use vstd::arithmetic::power::lemma_pow_increases;
use vstd::arithmetic::power::lemma_pow_multiplies;
use vstd::arithmetic::div_mod::lemma_fundamental_div_mod;

verus! {

use crate::{Number, valid_radix};
use crate::digits::{
    seq_value, digits_below,
    lemma_value_push, lemma_value_concat, lemma_pow_step, lemma_pow_zero,
    lemma_strip_zeros_noop,
};
use crate::radix::{fix_base, spec_fix_base, spec_log2, log2_radix, lemma_radix_pow2};

/// An element-for-element copy of a digit vector.
fn copy_digits(v: &Vec<u8>) -> (r: Vec<u8>)
    ensures
        r@ == v@,
{
    let mut r: Vec<u8> = Vec::new();
    let mut i: usize = 0;
    while i < v.len()
        invariant
            i <= v@.len(),
            r@ == v@.subrange(0, i as int),
        decreases v@.len() - i,
    {
        r.push(v[i]);
        proof {
            assert(r@ =~= v@.subrange(0, i + 1));
        }
        i = i + 1;
    }
    proof {
        assert(v@.subrange(0, v@.len() as int) =~= v@);
    }
    r
}

/// The `ratio` low bits of `d`, least-significant bit first.
fn digit_bits(d: u8, ratio: u8) -> (v: Vec<u8>)
    requires
        1 <= ratio <= 6,
        d < pow(2, ratio as nat),
    ensures
        v@.len() == ratio,
        digits_below(v@, 2),
        seq_value(v@, 2) == d,
{
    let mut v: Vec<u8> = Vec::new();
    let mut rem: u8 = d;
    let mut j: u8 = 0;
    proof {
        lemma_pow_zero(2);
    }
    while j < ratio
        invariant
            j <= ratio,
            v@.len() == j,
            digits_below(v@, 2),
            d == seq_value(v@, 2) + rem * pow(2, j as nat),
            seq_value(v@, 2) < pow(2, j as nat),
        decreases ratio - j,
    {
        let bit: u8 = rem % 2;
        let rem2: u8 = rem / 2;
        proof {
            lemma_value_push(v@, bit, 2);
            lemma_pow_step(2, j as nat);
            lemma_fundamental_div_mod(rem as int, 2);
            let p: int = pow(2, j as nat);
            assert(p >= 1) by {
                vstd::arithmetic::power::lemma_pow_positive(2, j as nat);
            }
            assert((2 * rem2 + bit) * p == bit * p + rem2 * (2 * p)) by (nonlinear_arith);
            assert(bit * p <= p) by (nonlinear_arith)
                requires
                    0 <= bit <= 1,
                    p >= 0,
            ;
        }
        v.push(bit);
        rem = rem2;
        j = j + 1;
    }
    proof {
        if rem >= 1 {
            let p: int = pow(2, ratio as nat);
            assert(rem * p >= p) by (nonlinear_arith)
                requires
                    rem >= 1,
                    p >= 0,
            ;
            assert(false);
        }
    }
    v
}

/// The radix-2 expansion of a `Number`: each source digit contributes
/// `log2(base)` bits, least-significant bit first, in source-digit order.
/// The result is a plain bit sequence, not necessarily normalized.
pub fn to_binary(nbr: &Number) -> (bits: Vec<u8>)
    requires
        nbr.wf(),
    ensures
        digits_below(bits@, 2),
        seq_value(bits@, 2) == nbr.nat_value(),
{
    if nbr.base == 2 {
        return copy_digits(&nbr.value);
    }
    let ratio: u8 = log2_radix(nbr.base);
    proof {
        lemma_radix_pow2(nbr.base);
        lemma_pow_zero(2);
        lemma_pow_zero(nbr.base as nat);
    }
    let len: usize = nbr.value.len();
    let b: u8 = nbr.base;
    let mut bits: Vec<u8> = Vec::new();
    let mut i: usize = 0;
    while i < len
        invariant
            nbr.wf(),
            b == nbr.base,
            ratio as nat == spec_log2(b),
            1 <= ratio <= 6,
            pow(2, ratio as nat) == b,
            i <= len,
            len == nbr.value@.len(),
            bits@.len() == i * ratio,
            digits_below(bits@, 2),
            seq_value(bits@, 2) == seq_value(nbr.value@.subrange(0, i as int), b as nat),
            pow(2, (i * ratio) as nat) == pow(b as int, i as nat),
        decreases len - i,
    {
        let d: u8 = nbr.value[i];
        let mut chunk: Vec<u8> = digit_bits(d, ratio);
        proof {
            lemma_value_concat(bits@, chunk@, 2);
            assert(nbr.value@.subrange(0, i + 1) =~= nbr.value@.subrange(0, i as int).push(d));
            lemma_value_push(nbr.value@.subrange(0, i as int), d, b as nat);
            let pi: int = pow(b as int, i as nat);
            assert(pi * d == d * pi) by (nonlinear_arith);
            lemma_pow_adds(2, (i * ratio) as nat, ratio as nat);
            lemma_pow_step(b as nat, i as nat);
            assert(pi * (b as int) == (b as int) * pi) by (nonlinear_arith);
        }
        bits.append(&mut chunk);
        i = i + 1;
    }
    proof {
        assert(nbr.value@.subrange(0, len as int) =~= nbr.value@);
    }
    bits
}

/// Regroup a bit sequence into digits of the target base: `log2(base)`
/// bits per digit, the final group zero-padded at the high end, then
/// normalized into a `Number`.
pub fn from_binary(bits: &Vec<u8>, base: u8) -> (n: Number)
    requires
        valid_radix(base),
        digits_below(bits@, 2),
    ensures
        n.wf(),
        n.base == base,
        n.nat_value() == seq_value(bits@, 2),
{
    let ratio: u8 = log2_radix(base);
    proof {
        lemma_radix_pow2(base);
    }
    let len: usize = bits.len();
    let mut digits: Vec<u8> = Vec::new();
    let mut i: usize = 0;
    while i < len
        invariant
            valid_radix(base),
            ratio as nat == spec_log2(base),
            1 <= ratio <= 6,
            pow(2, ratio as nat) == base,
            digits_below(bits@, 2),
            len == bits@.len(),
            i <= len,
            i == digits@.len() * ratio || i == len,
            digits_below(digits@, base as nat),
            seq_value(digits@, base as nat) == seq_value(bits@.subrange(0, i as int), 2),
        decreases len - i,
    {
        let avail: usize = len - i;
        let step: usize = if (ratio as usize) <= avail {
            ratio as usize
        } else {
            avail
        };
        let ghost k: nat = digits@.len();
        let mut d: u8 = 0;
        let mut p: u8 = 1;
        let mut j: usize = 0;
        proof {
            lemma_pow_zero(2);
            assert(bits@.subrange(i as int, i as int) =~= Seq::<u8>::empty());
        }
        while j < step
            invariant
                i + step <= len,
                1 <= step <= ratio <= 6,
                j <= step,
                len == bits@.len(),
                digits_below(bits@, 2),
                p == pow(2, j as nat),
                p <= 64,
                d == seq_value(bits@.subrange(i as int, i + j), 2),
                d < p,
            decreases step - j,
        {
            let bit: u8 = bits[i + j];
            proof {
                assert(bits@.subrange(i as int, i + j + 1)
                    =~= bits@.subrange(i as int, i + j).push(bit));
                lemma_value_push(bits@.subrange(i as int, i + j), bit, 2);
                lemma_pow_step(2, j as nat);
                assert(bit * p <= p) by (nonlinear_arith)
                    requires
                        0 <= bit <= 1,
                        p >= 0,
                ;
                assert(p <= 32) by {
                    reveal_with_fuel(pow, 7);
                }
            }
            d = d + bit * p;
            p = p * 2;
            j = j + 1;
        }
        proof {
            lemma_pow_increases(2, step as nat, ratio as nat);
            assert(d < base);
            lemma_value_push(digits@, d, base as nat);
            lemma_pow_multiplies(2, ratio as nat, k);
            assert(ratio as nat * k == k * ratio as nat) by (nonlinear_arith);
            assert(pow(base as int, k) == pow(2, (k * ratio as nat) as nat));
            assert(bits@.subrange(0, i + step as int)
                =~= bits@.subrange(0, i as int) + bits@.subrange(i as int, i + step as int));
            lemma_value_concat(
                bits@.subrange(0, i as int), bits@.subrange(i as int, i + step as int), 2);
            let pi: int = pow(2, i as nat);
            assert(pi * d == d * pi) by (nonlinear_arith);
            assert((k + 1) * (ratio as nat) == k * (ratio as nat) + ratio) by (nonlinear_arith);
        }
        digits.push(d);
        i = i + step;
    }
    proof {
        assert(bits@.subrange(0, len as int) =~= bits@);
    }
    Number::new(base, digits)
}

/// Re-express a `Number` in the given base (normalized first) without
/// changing its value, routing through the binary intermediate form.
pub fn to_base(nbr: &Number, base: u8) -> (n: Number)
    requires
        nbr.wf(),
    ensures
        n.wf(),
        n.base == spec_fix_base(base),
        n.nat_value() == nbr.nat_value(),
{
    let base: u8 = fix_base(base);
    if base == nbr.base {
        proof {
            lemma_strip_zeros_noop(nbr.value@);
        }
        return Number::new(base, copy_digits(&nbr.value));
    }
    let bits: Vec<u8> = to_binary(nbr);
    from_binary(&bits, base)
}

} // verus!
