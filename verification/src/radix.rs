//! Radix validation: which bases are allowed, the documented fallback,
//! and the binary logarithm that the binary bridge builds on.

use vstd::prelude::*;
use vstd::arithmetic::power::pow;

verus! {

use crate::valid_radix;

/// The base substituted for an invalid one.
pub open spec fn spec_fix_base(b: u8) -> u8 {
    if valid_radix(b) {
        b
    } else {
        16
    }
}

/// Binary logarithm of a valid base.
pub open spec fn spec_log2(b: u8) -> nat {
    if b == 2 {
        1
    } else if b == 4 {
        2
    } else if b == 8 {
        3
    } else if b == 16 {
        4
    } else if b == 32 {
        5
    } else {
        6
    }
}

/// Every valid base is two raised to its binary logarithm.
pub proof fn lemma_radix_pow2(b: u8)
    requires
        valid_radix(b),
    ensures
        pow(2, spec_log2(b)) == b,
        1 <= spec_log2(b) <= 6,
{
    reveal_with_fuel(pow, 7);
}

/// True exactly when `base` is a power of two between 2 and 64.
pub fn is_base_valid(base: u8) -> (r: bool)
    ensures
        r == valid_radix(base),
{
    base == 2 || base == 4 || base == 8 || base == 16 || base == 32 || base == 64
}

/// A valid base passes through unchanged; anything else becomes 16.
pub fn fix_base(base: u8) -> (r: u8)
    ensures
        r == spec_fix_base(base),
        valid_radix(r),
{
    if is_base_valid(base) {
        base
    } else {
        16
    }
}

/// Binary logarithm of a valid base, as executable code.
pub fn log2_radix(base: u8) -> (r: u8)
    requires
        valid_radix(base),
    ensures
        r as nat == spec_log2(base),
        1 <= r <= 6,
{
    if base == 2 {
        1
    } else if base == 4 {
        2
    } else if base == 8 {
        3
    } else if base == 16 {
        4
    } else if base == 32 {
        5
    } else {
        6
    }
}

} // verus!
