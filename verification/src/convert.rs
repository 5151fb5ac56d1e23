//! Conversion between `Number` and native integers.

use vstd::prelude::*;
use vstd::arithmetic::power::pow;
use vstd::arithmetic::power::lemma_pow_positive;
use vstd::arithmetic::div_mod::lemma_fundamental_div_mod;

verus! {

use crate::{Number, ConvertError, valid_radix};
use crate::digits::{
    seq_value, digits_below, strip_zeros, normalize_digits,
    lemma_value_push, lemma_pow_step, lemma_pow_zero,
};
use crate::radix::{fix_base, spec_fix_base};
use crate::symbols::{symbol_of, digit_of, symbol_for, symbol_to_digit};

/// The input vector with its trailing (most-significant) zero digits
/// removed; a single digit is never removed.
pub fn remove_zeros(value: Vec<u8>) -> (r: Vec<u8>)
    ensures
        r@ == strip_zeros(value@),
{
    let ghost orig: Seq<u8> = value@;
    let mut v: Vec<u8> = value;
    while v.len() > 1 && v[v.len() - 1] == 0
        invariant
            strip_zeros(v@) == strip_zeros(orig),
        decreases v.len(),
    {
        proof {
            assert(strip_zeros(v@) == strip_zeros(v@.drop_last()));
        }
        v.pop();
    }
    v
}

/// Digit expansion of a native integer: repeated division by the base,
/// remainders collected least-significant-first (`from_native` in the
/// external interface).
pub fn to_number(nbr: u64, base: u8) -> (n: Number)
    ensures
        n.wf(),
        n.base == spec_fix_base(base),
        n.nat_value() == nbr,
{
    let base: u8 = fix_base(base);
    let ghost b: nat = base as nat;
    let mut quotient: u64 = nbr;
    let mut value: Vec<u8> = Vec::new();
    proof {
        lemma_pow_zero(b);
    }
    while quotient > 0
        invariant
            valid_radix(base),
            b == base as nat,
            digits_below(value@, b),
            nbr == seq_value(value@, b) + quotient * pow(b as int, value@.len()),
        decreases quotient,
    {
        let remainder: u8 = (quotient % (base as u64)) as u8;
        let q2: u64 = quotient / (base as u64);
        proof {
            lemma_fundamental_div_mod(quotient as int, base as int);
            lemma_value_push(value@, remainder, b);
            lemma_pow_step(b, value@.len());
            let p: int = pow(b as int, value@.len() as nat);
            assert(((b as int) * q2 + remainder) * p == remainder * p + q2 * ((b as int) * p))
                by (nonlinear_arith);
            assert(q2 < quotient) by (nonlinear_arith)
                requires
                    quotient >= 1,
                    b >= 2,
                    q2 == quotient as int / b as int,
            ;
        }
        value.push(remainder);
        quotient = q2;
    }
    Number::new(base, value)
}

/// What rendering a `Number` into the native range must yield:
/// the value when it fits, `Overflow` when it does not.
pub open spec fn spec_to_native(n: Number) -> Result<u64, ConvertError> {
    if n.nat_value() <= u64::MAX {
        Ok(n.nat_value() as u64)
    } else {
        Err(ConvertError::Overflow)
    }
}

/// Checked evaluation of `Σ digit[i] * base^i` (`to_native` in the
/// external interface): reports `Overflow` instead of wrapping.
pub fn to_uint(nbr: &Number) -> (r: Result<u64, ConvertError>)
    requires
        nbr.wf(),
    ensures
        r == spec_to_native(*nbr),
{
    let base: u64 = nbr.base as u64;
    let len: usize = nbr.value.len();
    let ghost b: nat = nbr.base as nat;
    let ghost s: Seq<u8> = nbr.value@;
    let mut acc: u64 = 0;
    let mut i: usize = len;
    while i > 0
        invariant
            nbr.wf(),
            i <= len,
            len == s.len(),
            s == nbr.value@,
            b == nbr.base as nat,
            base == nbr.base as u64,
            acc == seq_value(s.subrange(i as int, len as int), b),
        decreases i,
    {
        i = i - 1;
        let d: u8 = nbr.value[i];
        proof {
            assert(s.subrange(i as int, len as int).drop_first()
                =~= s.subrange(i as int + 1, len as int));
            assert(seq_value(s.subrange(i as int, len as int), b)
                == d + b * seq_value(s.subrange(i as int + 1, len as int), b));
            lemma_fundamental_div_mod(u64::MAX - d, base as int);
        }
        let limit: u64 = (u64::MAX - d as u64) / base;
        if acc > limit {
            proof {
                // acc * base + d, the value of the suffix from i, already
                // exceeds u64::MAX; the full value can only be larger.
                let md: int = u64::MAX - d;
                assert(acc * base > md) by (nonlinear_arith)
                    requires
                        acc >= md / (base as int) + 1,
                        base >= 2,
                        md >= 0,
                        md == (base as int) * (md / (base as int)) + (md % (base as int)),
                        0 <= md % (base as int) < base,
                ;
                assert(b * (acc as int) == (acc as int) * base);
                assert(seq_value(s.subrange(i as int, len as int), b) > u64::MAX);
                assert(s =~= s.subrange(0, i as int) + s.subrange(i as int, len as int));
                crate::digits::lemma_value_concat(
                    s.subrange(0, i as int), s.subrange(i as int, len as int), b);
                lemma_pow_positive(b as int, i as nat);
                let p: int = pow(b as int, i as nat);
                let suffix: nat = seq_value(s.subrange(i as int, len as int), b);
                assert(p * suffix >= suffix) by (nonlinear_arith)
                    requires
                        p >= 1,
                        suffix >= 0,
                ;
            }
            return Err(ConvertError::Overflow);
        }
        proof {
            let md: int = u64::MAX - d;
            assert(acc * base <= md) by (nonlinear_arith)
                requires
                    acc <= md / (base as int),
                    base >= 2,
                    md >= 0,
                    md == (base as int) * (md / (base as int)) + (md % (base as int)),
                    0 <= md % (base as int) < base,
            ;
            assert(b * (acc as int) == (acc as int) * base);
        }
        acc = acc * base + d as u64;
    }
    proof {
        assert(s.subrange(0, len as int) =~= s);
    }
    Ok(acc)
}

/// Relies on String::push: appends the given character at the end.
#[verifier::external_body]
fn push_char(s: &mut String, c: char)
    ensures
        final(s)@ == old(s)@.push(c),
{
    s.push(c);
}

/// The character sequence that renders a digit vector: one symbol per
/// digit, most-significant digit first.
pub open spec fn spec_render(digits: Seq<u8>) -> Seq<char> {
    Seq::new(digits.len(), |i: int| symbol_of(digits[digits.len() - 1 - i]))
}

/// Render a `Number` as its symbol string, most-significant digit first.
pub fn to_string(nbr: &Number) -> (s: String)
    requires
        nbr.wf(),
    ensures
        s@ == spec_render(nbr.value@),
{
    let len: usize = nbr.value.len();
    let mut s: String = String::new();
    let mut i: usize = 0;
    while i < len
        invariant
            nbr.wf(),
            len == nbr.value@.len(),
            i <= len,
            s@.len() == i,
            forall|j: int| 0 <= j < i ==> s@[j] == symbol_of(nbr.value@[len - 1 - j]),
        decreases len - i,
    {
        let d: u8 = nbr.value[len - 1 - i];
        let c: char = symbol_for(d);
        push_char(&mut s, c);
        i = i + 1;
    }
    proof {
        assert(s@ =~= spec_render(nbr.value@));
    }
    s
}

/// Every character of `s` is a symbol whose digit value is below `b`.
pub open spec fn parse_ok(s: Seq<char>, b: nat) -> bool {
    forall|i: int| 0 <= i < s.len()
        ==> (#[trigger] digit_of(s[i])) is Some && digit_of(s[i])->Some_0 < b
}

/// The digit values of a symbol string, read most-significant-first and
/// stored least-significant-first (meaningful where `parse_ok` holds).
pub open spec fn char_digits(s: Seq<char>) -> Seq<u8> {
    Seq::new(s.len(), |i: int| digit_of(s[s.len() - 1 - i])->Some_0)
}

/// Parse a symbol string in the given base (normalized first). A character
/// outside the alphabet, or one whose digit value reaches the base, is an
/// `InvalidDigit` error.
pub fn from_string(text: &str, base: u8) -> (r: Result<Number, ConvertError>)
    ensures
        parse_ok(text@, spec_fix_base(base) as nat) ==> (r matches Ok(n)
            && n.wf()
            && n.base == spec_fix_base(base)
            && n.value@ == normalize_digits(char_digits(text@))
            && n.nat_value() == seq_value(char_digits(text@), spec_fix_base(base) as nat)),
        !parse_ok(text@, spec_fix_base(base) as nat)
            ==> r == Err::<Number, ConvertError>(ConvertError::InvalidDigit),
{
    let b: u8 = fix_base(base);
    let len: usize = text.unicode_len();
    let mut digits: Vec<u8> = Vec::new();
    let mut i: usize = 0;
    while i < len
        invariant
            valid_radix(b),
            b == spec_fix_base(base),
            len == text@.len(),
            i <= len,
            digits@.len() == i,
            forall|j: int| 0 <= j < i ==> (#[trigger] digit_of(text@[len - 1 - j])) is Some
                && digit_of(text@[len - 1 - j])->Some_0 < b
                && digits@[j] == digit_of(text@[len - 1 - j])->Some_0,
        decreases len - i,
    {
        let c: char = text.get_char(len - 1 - i);
        match symbol_to_digit(c) {
            Option::None => {
                proof {
                    assert(!(digit_of(text@[len - 1 - i]) is Some));
                }
                return Err(ConvertError::InvalidDigit);
            },
            Option::Some(d) => {
                if d >= b {
                    proof {
                        assert(digit_of(text@[len - 1 - i])->Some_0 >= b);
                    }
                    return Err(ConvertError::InvalidDigit);
                }
                digits.push(d);
            },
        }
        i = i + 1;
    }
    proof {
        assert forall|k: int| 0 <= k < len
            implies (#[trigger] digit_of(text@[k])) is Some && digit_of(text@[k])->Some_0 < b by {
            let j: int = len - 1 - k;
            assert(digit_of(text@[len - 1 - j]) is Some);
        }
        assert(digits@ =~= char_digits(text@));
    }
    Ok(Number::new(b, digits))
}

} // verus!
