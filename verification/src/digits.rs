//! The mathematical model of a digit sequence: its numeric value, the
//! well-formedness predicates shared by every operation, and the lemmas
//! that relate values to sequence structure.

use vstd::prelude::*;
use vstd::arithmetic::power::pow;
use vstd::arithmetic::power::lemma_pow_positive;
use vstd::arithmetic::div_mod::lemma_fundamental_div_mod_converse;

verus! {

/// Numeric value of a least-significant-digit-first sequence in base `b`.
pub open spec fn seq_value(s: Seq<u8>, b: nat) -> nat
    decreases s.len(),
{
    if s.len() == 0 {
        0
    } else {
        (s[0] + b * seq_value(s.drop_first(), b)) as nat
    }
}

/// Every digit of `s` is a proper digit for base `b`.
pub open spec fn digits_below(s: Seq<u8>, b: nat) -> bool {
    forall|i: int| 0 <= i < s.len() ==> (#[trigger] s[i]) < b
}

/// A digit sequence in canonical form: at least one digit, and no
/// trailing (most-significant) zero unless the sequence is exactly `[0]`.
pub open spec fn normalized(s: Seq<u8>) -> bool {
    s.len() >= 1 && (s.len() > 1 ==> s.last() != 0)
}

/// `s` with its trailing (most-significant) zero digits removed,
/// never going below one digit.
pub open spec fn strip_zeros(s: Seq<u8>) -> Seq<u8>
    decreases s.len(),
{
    if s.len() > 1 && s.last() == 0 {
        strip_zeros(s.drop_last())
    } else {
        s
    }
}

/// Canonical form of an arbitrary digit sequence: trailing zeros removed,
/// and the empty sequence stands for the value zero.
pub open spec fn normalize_digits(s: Seq<u8>) -> Seq<u8> {
    if s.len() == 0 {
        seq![0u8]
    } else {
        strip_zeros(s)
    }
}

/// One unfolding of the (opaque) vstd power function.
pub proof fn lemma_pow_step(b: nat, e: nat)
    ensures
        pow(b as int, e + 1) == b * pow(b as int, e),
{
    reveal(pow);
}

/// The zeroth power is one.
pub proof fn lemma_pow_zero(b: nat)
    ensures
        pow(b as int, 0) == 1,
{
    reveal(pow);
}

/// A one-digit sequence denotes its digit.
pub proof fn lemma_value_single(d: u8, b: nat)
    ensures
        seq_value(seq![d], b) == d,
{
    assert(seq![d].drop_first() =~= Seq::<u8>::empty());
    assert(seq_value(Seq::<u8>::empty(), b) == 0);
}

/// Appending a most-significant digit adds its value scaled by `pow(b, s.len())`.
pub proof fn lemma_value_push(s: Seq<u8>, d: u8, b: nat)
    ensures
        seq_value(s.push(d), b) == seq_value(s, b) + d * pow(b as int, s.len()),
    decreases s.len(),
{
    if s.len() == 0 {
        assert(s.push(d) =~= seq![d]);
        lemma_value_single(d, b);
        lemma_pow_zero(b);
    } else {
        assert(s.push(d).drop_first() =~= s.drop_first().push(d));
        lemma_value_push(s.drop_first(), d, b);
        assert(seq_value(s.push(d), b)
            == s[0] + b * (seq_value(s.drop_first(), b) + d * pow(b as int, (s.len() - 1) as nat)));
        assert(b * (seq_value(s.drop_first(), b) + d * pow(b as int, (s.len() - 1) as nat))
            == b * seq_value(s.drop_first(), b) + b * (d * pow(b as int, (s.len() - 1) as nat)))
            by (nonlinear_arith);
        assert(b * (d * pow(b as int, (s.len() - 1) as nat))
            == d * (b * pow(b as int, (s.len() - 1) as nat))) by (nonlinear_arith);
        lemma_pow_step(b, (s.len() - 1) as nat);
    }
}

/// Concatenation splits the value: the high part is scaled by the
/// weight of the position where it starts.
pub proof fn lemma_value_concat(s1: Seq<u8>, s2: Seq<u8>, b: nat)
    ensures
        seq_value(s1 + s2, b) == seq_value(s1, b) + pow(b as int, s1.len()) * seq_value(s2, b),
    decreases s1.len(),
{
    if s1.len() == 0 {
        assert(s1 + s2 =~= s2);
        lemma_pow_zero(b);
    } else {
        assert((s1 + s2).drop_first() =~= s1.drop_first() + s2);
        assert((s1 + s2)[0] == s1[0]);
        lemma_value_concat(s1.drop_first(), s2, b);
        let tail: nat = seq_value(s1.drop_first(), b);
        let p: int = pow(b as int, (s1.len() - 1) as nat);
        assert(b * (tail + p * seq_value(s2, b))
            == b * tail + (b * p) * seq_value(s2, b)) by (nonlinear_arith);
        lemma_pow_step(b, (s1.len() - 1) as nat);
    }
}

/// A sequence of proper digits for base `b` has value below `pow(b, len)`.
pub proof fn lemma_value_bound(s: Seq<u8>, b: nat)
    requires
        b >= 1,
        digits_below(s, b),
    ensures
        seq_value(s, b) < pow(b as int, s.len()),
    decreases s.len(),
{
    if s.len() == 0 {
        lemma_pow_zero(b);
    } else {
        lemma_value_bound(s.drop_first(), b);
        let tail: nat = seq_value(s.drop_first(), b);
        let p: int = pow(b as int, (s.len() - 1) as nat);
        assert(tail <= p - 1);
        assert(b * tail <= b * (p - 1)) by (nonlinear_arith)
            requires tail <= p - 1, b >= 1;
        assert(b * (p - 1) == b * p - b) by (nonlinear_arith);
        lemma_pow_step(b, (s.len() - 1) as nat);
        assert(s[0] < b);
    }
}

/// A sequence whose most-significant digit is nonzero has value at least
/// the weight of that digit's position.
pub proof fn lemma_value_lower(s: Seq<u8>, b: nat)
    requires
        b >= 1,
        s.len() >= 1,
        s.last() != 0,
    ensures
        seq_value(s, b) >= pow(b as int, (s.len() - 1) as nat),
    decreases s.len(),
{
    if s.len() == 1 {
        assert(s[0] == s.last());
        lemma_pow_zero(b);
    } else {
        assert(s.drop_first().last() == s.last());
        lemma_value_lower(s.drop_first(), b);
        let p: int = pow(b as int, (s.len() - 2) as nat);
        let tail: nat = seq_value(s.drop_first(), b);
        assert(b * tail >= b * p) by (nonlinear_arith)
            requires tail >= p, b >= 1;
        lemma_pow_step(b, (s.len() - 2) as nat);
    }
}

/// Removing trailing zeros does not change the value.
pub proof fn lemma_strip_zeros_value(s: Seq<u8>, b: nat)
    ensures
        seq_value(strip_zeros(s), b) == seq_value(s, b),
    decreases s.len(),
{
    if s.len() > 1 && s.last() == 0 {
        assert(s =~= s.drop_last().push(s.last()));
        lemma_value_push(s.drop_last(), s.last(), b);
        lemma_strip_zeros_value(s.drop_last(), b);
    }
}

/// Stripping a nonempty sequence yields a normalized one.
pub proof fn lemma_strip_zeros_normalized(s: Seq<u8>)
    requires
        s.len() >= 1,
    ensures
        normalized(strip_zeros(s)),
    decreases s.len(),
{
    if s.len() > 1 && s.last() == 0 {
        lemma_strip_zeros_normalized(s.drop_last());
    }
}

/// Stripping keeps every remaining digit: the result is a prefix of `s`.
pub proof fn lemma_strip_zeros_below(s: Seq<u8>, b: nat)
    requires
        digits_below(s, b),
    ensures
        digits_below(strip_zeros(s), b),
    decreases s.len(),
{
    if s.len() > 1 && s.last() == 0 {
        assert(digits_below(s.drop_last(), b));
        lemma_strip_zeros_below(s.drop_last(), b);
    }
}

/// A normalized sequence is already in canonical form.
pub proof fn lemma_strip_zeros_noop(s: Seq<u8>)
    requires
        normalized(s),
    ensures
        strip_zeros(s) == s,
{
}

/// Two normalized proper-digit sequences with the same value are equal:
/// the canonical representation in a given base is unique.
pub proof fn lemma_value_unique(s1: Seq<u8>, s2: Seq<u8>, b: nat)
    requires
        b >= 2,
        digits_below(s1, b),
        digits_below(s2, b),
        normalized(s1),
        normalized(s2),
        seq_value(s1, b) == seq_value(s2, b),
    ensures
        s1 == s2,
    decreases s1.len(),
{
    if s1.len() == 1 && s2.len() == 1 {
        assert(s1 =~= seq![s1[0]]);
        assert(s2 =~= seq![s2[0]]);
        lemma_value_single(s1[0], b);
        lemma_value_single(s2[0], b);
        assert(s1 =~= s2);
    } else if s2.len() > s1.len() {
        // s2 is longer, so its value is at least pow(b, s2.len() - 1),
        // while s1's value is below pow(b, s1.len()): a contradiction.
        lemma_value_lower(s2, b);
        lemma_value_bound(s1, b);
        vstd::arithmetic::power::lemma_pow_increases(b, s1.len(), (s2.len() - 1) as nat);
        assert(false);
    } else if s1.len() > s2.len() {
        lemma_value_lower(s1, b);
        lemma_value_bound(s2, b);
        vstd::arithmetic::power::lemma_pow_increases(b, s2.len(), (s1.len() - 1) as nat);
        assert(false);
    } else {
        // Equal lengths, both at least 2: heads agree by div/mod reasoning,
        // tails agree by induction.
        let v: int = seq_value(s1, b) as int;
        let t1: int = seq_value(s1.drop_first(), b) as int;
        let t2: int = seq_value(s2.drop_first(), b) as int;
        assert(s1[0] < b && s2[0] < b);
        assert(v == t1 * b + s1[0]) by (nonlinear_arith)
            requires v == (s1[0] + b * t1), t1 >= 0, b >= 0;
        assert(v == t2 * b + s2[0]) by (nonlinear_arith)
            requires v == (s2[0] + b * t2), t2 >= 0, b >= 0;
        lemma_fundamental_div_mod_converse(v, b as int, t1, s1[0] as int);
        lemma_fundamental_div_mod_converse(v, b as int, t2, s2[0] as int);
        assert(s1[0] == s2[0]);
        assert(t1 == t2);
        assert(s1.drop_first().last() == s1.last());
        assert(s2.drop_first().last() == s2.last());
        lemma_value_unique(s1.drop_first(), s2.drop_first(), b);
        assert forall|i: int| 0 <= i < s1.len() implies s1[i] == s2[i] by {
            if i > 0 {
                assert(s1[i] == s1.drop_first()[i - 1]);
                assert(s2[i] == s2.drop_first()[i - 1]);
            }
        }
        assert(s1 =~= s2);
    }
}

/// A longer normalized sequence always denotes a strictly larger value.
pub proof fn lemma_longer_is_greater(s1: Seq<u8>, s2: Seq<u8>, b: nat)
    requires
        b >= 2,
        digits_below(s1, b),
        digits_below(s2, b),
        normalized(s1),
        normalized(s2),
        s1.len() > s2.len(),
    ensures
        seq_value(s1, b) > seq_value(s2, b),
{
    lemma_value_lower(s1, b);
    lemma_value_bound(s2, b);
    vstd::arithmetic::power::lemma_pow_increases(b, s2.len(), (s1.len() - 1) as nat);
    lemma_pow_positive(b as int, s2.len());
}

/// For equal-length sequences, the first difference seen from the
/// most-significant end decides the order.
pub proof fn lemma_lex_greater(s1: Seq<u8>, s2: Seq<u8>, b: nat, i: int)
    requires
        b >= 1,
        digits_below(s1, b),
        digits_below(s2, b),
        s1.len() == s2.len(),
        0 <= i < s1.len(),
        s1[i] > s2[i],
        forall|j: int| i < j < s1.len() ==> s1[j] == s2[j],
    ensures
        seq_value(s1, b) > seq_value(s2, b),
{
    let n: int = s1.len() as int;
    assert(s1 =~= s1.subrange(0, i).push(s1[i]) + s1.subrange(i + 1, n));
    assert(s2 =~= s2.subrange(0, i).push(s2[i]) + s2.subrange(i + 1, n));
    assert(s1.subrange(i + 1, n) =~= s2.subrange(i + 1, n));
    lemma_value_concat(s1.subrange(0, i).push(s1[i]), s1.subrange(i + 1, n), b);
    lemma_value_concat(s2.subrange(0, i).push(s2[i]), s2.subrange(i + 1, n), b);
    lemma_value_push(s1.subrange(0, i), s1[i], b);
    lemma_value_push(s2.subrange(0, i), s2[i], b);
    assert(digits_below(s1.subrange(0, i), b));
    assert(digits_below(s2.subrange(0, i), b));
    lemma_value_bound(s1.subrange(0, i), b);
    lemma_value_bound(s2.subrange(0, i), b);
    let p: int = pow(b as int, i as nat);
    lemma_pow_positive(b as int, i as nat);
    // The digit gap at position i outweighs any difference in the low parts.
    assert(s1[i] * p >= s2[i] * p + p) by (nonlinear_arith)
        requires s1[i] >= s2[i] + 1, p > 0;
}

} // verus!
