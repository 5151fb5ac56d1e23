//! The fixed 64-symbol alphabet: digit values 0 through 63 map to
//! `0`-`9`, `A`-`Z`, `a`-`z`, `+`, `/`, and back.

use vstd::prelude::*;

verus! {

use crate::ConvertError;

/// The symbol printed for digit `d` (meaningful for `d < 64`).
pub open spec fn symbol_of(d: u8) -> char {
    if d < 10 {
        ((d + 48) as u8) as char
    } else if d < 36 {
        ((d + 55) as u8) as char
    } else if d < 62 {
        ((d + 61) as u8) as char
    } else if d == 62 {
        '+'
    } else {
        '/'
    }
}

/// The digit value of a symbol, `None` for a character outside the alphabet.
pub open spec fn digit_of(c: char) -> Option<u8> {
    let v = c as u32;
    if 48 <= v && v <= 57 {
        Some((v - 48) as u8)
    } else if 65 <= v && v <= 90 {
        Some((v - 55) as u8)
    } else if 97 <= v && v <= 122 {
        Some((v - 61) as u8)
    } else if v == 43 {
        Some(62u8)
    } else if v == 47 {
        Some(63u8)
    } else {
        None
    }
}

/// The two directions of the symbol table invert each other.
pub proof fn lemma_symbol_roundtrip(d: u8)
    requires
        d < 64,
    ensures
        digit_of(symbol_of(d)) == Some(d),
{
}

/// Table lookup for digits known to be in range.
pub(crate) fn symbol_for(d: u8) -> (c: char)
    requires
        d < 64,
    ensures
        c == symbol_of(d),
{
    if d < 10 {
        (d + 48) as char
    } else if d < 36 {
        (d + 55) as char
    } else if d < 62 {
        (d + 61) as char
    } else if d == 62 {
        '+'
    } else {
        '/'
    }
}

/// The symbol for a digit value, or `DigitOutOfRange` above 63.
pub fn digit_to_symbol(d: u8) -> (r: Result<char, ConvertError>)
    ensures
        d <= 63 ==> r == Ok::<char, ConvertError>(symbol_of(d)),
        d > 63 ==> r == Err::<char, ConvertError>(ConvertError::DigitOutOfRange),
{
    if d <= 63 {
        Ok(symbol_for(d))
    } else {
        Err(ConvertError::DigitOutOfRange)
    }
}

/// The digit value of a symbol, `None` for a character outside the alphabet.
pub fn symbol_to_digit(c: char) -> (r: Option<u8>)
    ensures
        r == digit_of(c),
{
    let v: u32 = c as u32;
    if 48 <= v && v <= 57 {
        Some((v - 48) as u8)
    } else if 65 <= v && v <= 90 {
        Some((v - 55) as u8)
    } else if 97 <= v && v <= 122 {
        Some((v - 61) as u8)
    } else if v == 43 {
        Some(62u8)
    } else if v == 47 {
        Some(63u8)
    } else {
        None
    }
}

} // verus!
