//! Digit-wise arithmetic: carry-propagating addition and magnitude
//! comparison, each after re-expressing the second operand in the
//! first operand's base.

use vstd::prelude::*;
use vstd::arithmetic::power::pow;
use vstd::arithmetic::div_mod::lemma_fundamental_div_mod;

verus! {

use crate::Number;
use crate::digits::{
    seq_value, digits_below, lemma_value_push, lemma_pow_step, lemma_pow_zero,
    lemma_longer_is_greater, lemma_lex_greater,
};
use crate::bridge::to_base;

/// `i` clipped to the length `n`: the end of the processed prefix.
spec fn clip(i: int, n: int) -> int {
    if i <= n {
        i
    } else {
        n
    }
}

/// Schoolbook addition with carry propagation, least-significant digit
/// first; the result carries `a`'s base.
pub fn add_number(a: &Number, b: &Number) -> (n: Number)
    requires
        a.wf(),
        b.wf(),
    ensures
        n.wf(),
        n.base == a.base,
        n.nat_value() == a.nat_value() + b.nat_value(),
{
    let base: u8 = a.base;
    let b2: Number = to_base(b, base);
    let ghost bn: nat = base as nat;
    let alen: usize = a.value.len();
    let blen: usize = b2.value.len();
    let length: usize = if alen > blen {
        alen
    } else {
        blen
    };
    let mut result: Vec<u8> = Vec::new();
    let mut carry: u8 = 0;
    let mut i: usize = 0;
    proof {
        lemma_pow_zero(bn);
        assert(a.value@.subrange(0, 0) =~= Seq::<u8>::empty());
        assert(b2.value@.subrange(0, 0) =~= Seq::<u8>::empty());
    }
    while i < length
        invariant
            a.wf(),
            b2.wf(),
            base == a.base,
            bn == base as nat,
            b2.base == base,
            alen == a.value@.len(),
            blen == b2.value@.len(),
            length >= alen,
            length >= blen,
            i <= length,
            result@.len() == i,
            carry <= 1,
            digits_below(result@, bn),
            seq_value(result@, bn) + carry * pow(bn as int, i as nat)
                == seq_value(a.value@.subrange(0, clip(i as int, alen as int)), bn)
                    + seq_value(b2.value@.subrange(0, clip(i as int, blen as int)), bn),
        decreases length - i,
    {
        let x: u8 = if i < alen {
            a.value[i]
        } else {
            0
        };
        let y: u8 = if i < blen {
            b2.value[i]
        } else {
            0
        };
        let val: u8 = x + y + carry;
        let digit: u8 = val % base;
        let carry2: u8 = val / base;
        proof {
            lemma_fundamental_div_mod(val as int, base as int);
            assert(carry2 <= 1) by (nonlinear_arith)
                requires
                    carry2 == val as int / base as int,
                    val < 2 * base,
                    base >= 2,
            ;
            lemma_value_push(result@, digit, bn);
            lemma_pow_step(bn, i as nat);
            let p: int = pow(bn as int, i as nat);
            assert(((bn as int) * carry2 + digit) * p == digit * p + carry2 * ((bn as int) * p))
                by (nonlinear_arith);
            assert((x + y + carry) * p == x * p + y * p + carry * p) by (nonlinear_arith);
            if i < alen {
                assert(a.value@.subrange(0, i + 1)
                    =~= a.value@.subrange(0, i as int).push(a.value@[i as int]));
                lemma_value_push(a.value@.subrange(0, i as int), x, bn);
            } else {
                assert(a.value@.subrange(0, clip(i + 1, alen as int))
                    == a.value@.subrange(0, clip(i as int, alen as int)));
            }
            if i < blen {
                assert(b2.value@.subrange(0, i + 1)
                    =~= b2.value@.subrange(0, i as int).push(b2.value@[i as int]));
                lemma_value_push(b2.value@.subrange(0, i as int), y, bn);
            } else {
                assert(b2.value@.subrange(0, clip(i + 1, blen as int))
                    == b2.value@.subrange(0, clip(i as int, blen as int)));
            }
        }
        result.push(digit);
        carry = carry2;
        i = i + 1;
    }
    proof {
        assert(a.value@.subrange(0, alen as int) =~= a.value@);
        assert(b2.value@.subrange(0, blen as int) =~= b2.value@);
    }
    if carry > 0 {
        proof {
            lemma_value_push(result@, carry, bn);
        }
        result.push(carry);
    }
    Number::new(base, result)
}

/// Magnitude order as a signed unit: 1 when `x > y`, -1 when `x < y`,
/// 0 when they are equal.
pub open spec fn spec_cmp(x: nat, y: nat) -> i8 {
    if x > y {
        1
    } else if x < y {
        -1i8
    } else {
        0
    }
}

/// Magnitude comparison: `b` is re-expressed in `a`'s base; since both
/// are normalized, a longer digit sequence is larger, and equal lengths
/// compare digit by digit from the most-significant end.
/// Returns -1 if a < b, 0 if a == b, +1 if a > b.
pub fn cmp_number(a: &Number, b: &Number) -> (r: i8)
    requires
        a.wf(),
        b.wf(),
    ensures
        r == spec_cmp(a.nat_value(), b.nat_value()),
{
    let base: u8 = a.base;
    let b2: Number = to_base(b, base);
    let alen: usize = a.value.len();
    let blen: usize = b2.value.len();
    if alen > blen {
        proof {
            lemma_longer_is_greater(a.value@, b2.value@, base as nat);
        }
        return 1;
    }
    if alen < blen {
        proof {
            lemma_longer_is_greater(b2.value@, a.value@, base as nat);
        }
        return -1;
    }
    let mut i: usize = alen;
    while i > 0
        invariant
            a.wf(),
            b2.wf(),
            base == a.base,
            b2.base == base,
            b2.nat_value() == b.nat_value(),
            alen == a.value@.len(),
            blen == b2.value@.len(),
            alen == blen,
            i <= alen,
            forall|j: int| i <= j < alen ==> a.value@[j] == b2.value@[j],
        decreases i,
    {
        i = i - 1;
        let x: u8 = a.value[i];
        let y: u8 = b2.value[i];
        if x > y {
            proof {
                lemma_lex_greater(a.value@, b2.value@, base as nat, i as int);
            }
            return 1;
        }
        if x < y {
            proof {
                lemma_lex_greater(b2.value@, a.value@, base as nat, i as int);
            }
            return -1;
        }
    }
    proof {
        assert(a.value@ =~= b2.value@);
    }
    0
}

} // verus!
