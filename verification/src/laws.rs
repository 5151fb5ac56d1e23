//! The laws the library guarantees across operations, stated over the
//! same spec functions the operations' contracts use and proved from
//! them. Each proof function's parameters stand for the inputs and
//! outputs of the operations it relates; its `requires` are exactly what
//! those operations' contracts establish.

use vstd::prelude::*;

verus! {

use crate::{Number, ConvertError};
use crate::digits::{normalize_digits, lemma_value_unique, lemma_strip_zeros_noop};
use crate::radix::spec_fix_base;
use crate::symbols::{digit_of, lemma_symbol_roundtrip};
use crate::convert::{spec_to_native, spec_render, parse_ok, char_digits};
use crate::arith::spec_cmp;

/// The canonical representation is unique: two well-formed numbers in the
/// same base denoting the same value have identical digits.
pub proof fn lemma_number_eq(a: Number, b: Number)
    requires
        a.wf(),
        b.wf(),
        a.base == b.base,
        a.nat_value() == b.nat_value(),
    ensures
        a.value@ == b.value@,
{
    lemma_value_unique(a.value@, b.value@, a.base as nat);
}

/// A well-formed number carries no trailing zero digit: its digit vector
/// has at least one digit, and more than one only with a nonzero top digit.
pub proof fn lemma_no_trailing_zero(x: Number)
    requires
        x.wf(),
    ensures
        x.value@.len() >= 1,
        x.value@.len() > 1 ==> x.value@.last() != 0,
{
}

/// Round trip through the native range: a well-formed number holding a
/// native value renders back as exactly that value. Together with
/// `to_number`'s contract this gives `to_uint(to_number(n, r)) == Ok(n)`.
pub proof fn lemma_native_round_trip(x: Number, n: u64)
    requires
        x.wf(),
        x.nat_value() == n,
    ensures
        spec_to_native(x) == Ok::<u64, ConvertError>(n),
{
}

/// Round trip through the symbol string: rendering a well-formed number
/// parses cleanly in its own base and yields the same digits back.
/// Together with the contracts of `to_string` and `from_string` this gives
/// `from_string(to_string(x), x.base) == Ok(x)`.
pub proof fn lemma_string_round_trip(x: Number)
    requires
        x.wf(),
    ensures
        parse_ok(spec_render(x.value@), x.base as nat),
        char_digits(spec_render(x.value@)) == x.value@,
        normalize_digits(char_digits(spec_render(x.value@))) == x.value@,
{
    let d: Seq<u8> = x.value@;
    let s: Seq<char> = spec_render(d);
    let n: int = d.len() as int;
    assert forall|i: int| 0 <= i < n
        implies (#[trigger] digit_of(s[i])) is Some
            && digit_of(s[i])->Some_0 < x.base as nat by {
        lemma_symbol_roundtrip(d[n - 1 - i]);
    }
    assert forall|j: int| 0 <= j < n implies char_digits(s)[j] == d[j] by {
        lemma_symbol_roundtrip(d[j]);
        assert(s[n - 1 - j] == crate::symbols::symbol_of(d[j]));
    }
    assert(char_digits(s) =~= d);
    lemma_strip_zeros_noop(d);
}

/// What re-expressing `x` in base `r` must produce, as `to_base` ensures it.
pub open spec fn is_to_radix(x: Number, r: u8, y: Number) -> bool {
    y.wf() && y.base == spec_fix_base(r) && y.nat_value() == x.nat_value()
}

/// Conversion round trip: converting `x` away to `r2` and back to its own
/// base `r1` lands on exactly the number that converting `x` to `r1`
/// directly produces.
pub proof fn lemma_convert_round_trip(x: Number, r1: u8, r2: u8, y: Number, z: Number, w: Number)
    requires
        x.wf(),
        x.base == r1,
        is_to_radix(x, r2, y),
        is_to_radix(y, r1, z),
        is_to_radix(x, r1, w),
    ensures
        z.base == w.base,
        z.value@ == w.value@,
{
    lemma_number_eq(z, w);
}

/// What the sum of `a` and `b` must be, as `add_number` ensures it.
pub open spec fn is_sum(a: Number, b: Number, c: Number) -> bool {
    c.wf() && c.base == a.base && c.nat_value() == a.nat_value() + b.nat_value()
}

/// Addition is commutative: once both operands carry the same base, adding
/// them in either order produces identical numbers.
pub proof fn lemma_add_commutes(a: Number, b: Number, c1: Number, c2: Number)
    requires
        a.wf(),
        b.wf(),
        a.base == b.base,
        is_sum(a, b, c1),
        is_sum(b, a, c2),
    ensures
        c1.base == c2.base,
        c1.value@ == c2.value@,
{
    lemma_number_eq(c1, c2);
}

/// Comparison agrees with the native rendering: for numbers within the
/// native range, `cmp_number`'s verdict matches the order of the values
/// `to_uint` reports.
pub proof fn lemma_compare_consistent(a: Number, b: Number, na: u64, nb: u64)
    requires
        a.wf(),
        b.wf(),
        spec_to_native(a) == Ok::<u64, ConvertError>(na),
        spec_to_native(b) == Ok::<u64, ConvertError>(nb),
    ensures
        (spec_cmp(a.nat_value(), b.nat_value()) == 1) <==> (na > nb),
        (spec_cmp(a.nat_value(), b.nat_value()) == -1) <==> (na < nb),
        (spec_cmp(a.nat_value(), b.nat_value()) == 0) <==> (na == nb),
{
}

} // verus!
