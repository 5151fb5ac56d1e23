//! Radix arithmetic on digit-sequence numbers.
//!
//! A [`Number`] holds a non-negative integer as a least-significant-first
//! digit vector in a power-of-two base between 2 and 64. The library
//! converts between native integers, symbol strings and bases (through a
//! binary intermediate form), adds numbers and compares magnitudes, and
//! proves that every operation preserves the numeric value it claims to.

use vstd::prelude::*;

pub mod arith;
pub mod bridge;
pub mod convert;
pub mod symbols;
pub mod digits;
pub mod laws;
pub mod radix;

verus! {

use crate::digits::{
    normalized, digits_below, seq_value, normalize_digits, strip_zeros,
    lemma_strip_zeros_value, lemma_strip_zeros_normalized, lemma_strip_zeros_below,
    lemma_value_single,
};

/// A non-negative integer held as digits in a power-of-two base.
///
/// `value[0]` is the least significant digit. A well-formed `Number`
/// is normalized: no trailing zero digit, and the value zero is the
/// single digit `0`.
#[derive(Debug)]
pub struct Number {
    pub base: u8,
    pub value: Vec<u8>,
}

/// The bases a `Number` may use: the powers of two from 2 through 64.
pub open spec fn valid_radix(r: u8) -> bool {
    r == 2 || r == 4 || r == 8 || r == 16 || r == 32 || r == 64
}

impl Number {
    /// Structural invariant: a valid base, proper digits, canonical form.
    pub open spec fn wf(self) -> bool {
        &&& valid_radix(self.base)
        &&& digits_below(self.value@, self.base as nat)
        &&& normalized(self.value@)
    }

    /// The integer this `Number` denotes.
    pub open spec fn nat_value(self) -> nat {
        seq_value(self.value@, self.base as nat)
    }

    /// Construct a `Number`, normalizing the digit vector: trailing zero
    /// digits are removed, and an empty vector becomes the single digit `0`.
    pub fn new(base: u8, value: Vec<u8>) -> (n: Number)
        requires
            valid_radix(base),
            digits_below(value@, base as nat),
        ensures
            n.wf(),
            n.base == base,
            n.value@ == normalize_digits(value@),
            n.nat_value() == seq_value(value@, base as nat),
    {
        let ghost orig: Seq<u8> = value@;
        let mut v: Vec<u8> = crate::convert::remove_zeros(value);
        if v.len() == 0 {
            v.push(0);
        }
        proof {
            if orig.len() == 0 {
                assert(strip_zeros(orig) == orig);
                assert(v@ =~= seq![0u8]);
                lemma_value_single(0, base as nat);
            } else {
                lemma_strip_zeros_value(orig, base as nat);
                lemma_strip_zeros_normalized(orig);
                lemma_strip_zeros_below(orig, base as nat);
            }
        }
        Number { base, value: v }
    }
}

/// The operation an external caller selects.
#[derive(Debug, Clone, Copy, PartialEq, Eq, Structural)]
pub enum Operation {
    Add,
    Convert,
}

/// A validated request: the operation, its first operand, and the second
/// operand (for addition) or destination base (for conversion).
#[derive(Debug)]
pub struct Config {
    pub operation: Operation,
    pub base: Option<u8>,
    pub number1: Number,
    pub number2: Option<Number>,
}

impl Config {
    /// What a request must provide for its operation to be performable.
    pub open spec fn wf(self) -> bool {
        &&& self.number1.wf()
        &&& (self.operation == Operation::Add
            ==> self.number2 is Some && self.number2->0.wf())
        &&& (self.operation == Operation::Convert ==> self.base is Some)
    }
}

/// Perform the requested operation: add the two operands, or re-express
/// the first operand in the requested base.
pub fn process_command(config: &Config) -> (n: Number)
    requires
        config.wf(),
    ensures
        n.wf(),
        config.operation == Operation::Add ==> n.base == config.number1.base
            && n.nat_value() == config.number1.nat_value() + config.number2->0.nat_value(),
        config.operation == Operation::Convert
            ==> n.base == crate::radix::spec_fix_base(config.base->0)
            && n.nat_value() == config.number1.nat_value(),
{
    match config.operation {
        Operation::Add => crate::arith::add_number(
            &config.number1, config.number2.as_ref().unwrap()),
        Operation::Convert => crate::bridge::to_base(&config.number1, config.base.unwrap()),
    }
}

/// The failures the library reports.
#[derive(Debug, Clone, Copy, PartialEq, Eq, Structural)]
pub enum ConvertError {
    /// A radix outside the valid set, where a caller asks for a hard
    /// rejection instead of the default base.
    InvalidRadix,
    /// A character without a digit value, or a digit at or above the radix.
    InvalidDigit,
    /// The number does not fit the native unsigned range.
    Overflow,
    /// A digit above 63 handed to the symbol table.
    DigitOutOfRange,
}

} // verus!
