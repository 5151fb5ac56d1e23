use base_converter::arith::{add_number, cmp_number};
use base_converter::bridge::{from_binary, to_base, to_binary};
use base_converter::convert::{from_string, remove_zeros, to_number, to_string, to_uint};
use base_converter::radix::{fix_base, is_base_valid};
use base_converter::{ConvertError, Number};

#[test]
fn native_round_trip_small() {
    for r in [2u8, 4, 8, 16, 32, 64] {
        for n in [0u64, 1, 2, 63, 64, 65, 255, 4096, 123456789] {
            let x = to_number(n, r);
            assert_eq!(x.base, r);
            assert_eq!(to_uint(&x), Ok(n));
        }
    }
}

#[test]
fn native_round_trip_max() {
    for r in [2u8, 4, 8, 16, 32, 64] {
        let x = to_number(u64::MAX, r);
        assert_eq!(to_uint(&x), Ok(u64::MAX));
    }
}

#[test]
fn zero_is_single_digit() {
    let x = to_number(0, 16);
    assert_eq!(x.value, vec![0u8]);
    assert_eq!(to_string(&x), "0");
    assert_eq!(to_uint(&x), Ok(0));
}

#[test]
fn invalid_radix_defaults_to_sixteen() {
    let x = to_number(255, 10);
    assert_eq!(x.base, 16);
    assert_eq!(to_string(&x), "FF");
    assert_eq!(fix_base(0), 16);
    assert_eq!(fix_base(3), 16);
    assert_eq!(fix_base(65), 16);
    assert_eq!(fix_base(8), 8);
}

#[test]
fn base_validity() {
    for r in [2u8, 4, 8, 16, 32, 64] {
        assert!(is_base_valid(r));
    }
    for r in [0u8, 1, 3, 5, 10, 63, 65, 128, 255] {
        assert!(!is_base_valid(r));
    }
}

#[test]
fn example_sum_across_radices() {
    let a = to_number(165165163, 16);
    let b = to_number(531311, 8);
    let sum = add_number(&a, &b);
    assert_eq!(sum.base, 16);
    assert_eq!(to_uint(&sum), Ok(165696474));
}

#[test]
fn example_binary_string_is_sixty_three() {
    let x = from_string("111111", 2).unwrap();
    assert_eq!(to_uint(&x), Ok(63));
}

#[test]
fn example_symbol_beyond_radix_rejected() {
    assert_eq!(from_string("Z", 16).unwrap_err(), ConvertError::InvalidDigit);
}

#[test]
fn example_twelve_decimal_is_fourteen_octal() {
    let x = to_number(12, 2);
    let y = to_base(&x, 8);
    assert_eq!(to_string(&y), "14");
}

#[test]
fn string_round_trip() {
    for (text, base) in [
        ("0", 2u8),
        ("101101", 2),
        ("7654", 8),
        ("DEADBEEF", 16),
        ("zz", 64),
        ("+/", 64),
    ] {
        let x = from_string(text, base).unwrap();
        let rendered = to_string(&x);
        let y = from_string(&rendered, base).unwrap();
        assert_eq!(x.base, y.base);
        assert_eq!(x.value, y.value);
    }
}

#[test]
fn parse_normalizes_leading_zeros() {
    let x = from_string("0012", 8).unwrap();
    assert_eq!(to_string(&x), "12");
    assert_eq!(x.value, vec![2u8, 1]);
}

#[test]
fn parse_unknown_symbol_rejected() {
    assert_eq!(from_string("1%1", 2).unwrap_err(), ConvertError::InvalidDigit);
    assert_eq!(from_string("12", 2).unwrap_err(), ConvertError::InvalidDigit);
}

#[test]
fn parse_digit_equal_to_radix_rejected() {
    // The digit value 8 is not a digit of base 8.
    assert_eq!(from_string("8", 8).unwrap_err(), ConvertError::InvalidDigit);
}

#[test]
fn overflow_is_reported() {
    // One above u64::MAX: a one followed by sixteen hex zeros.
    let x = from_string("10000000000000000", 16).unwrap();
    assert_eq!(to_uint(&x), Err(ConvertError::Overflow));
    // u64::MAX itself still fits.
    let y = from_string("FFFFFFFFFFFFFFFF", 16).unwrap();
    assert_eq!(to_uint(&y), Ok(u64::MAX));
}

#[test]
fn conversion_preserves_value() {
    let bases = [2u8, 4, 8, 16, 32, 64];
    for n in [0u64, 1, 63, 64, 12345, 987654321] {
        for &r1 in &bases {
            let x = to_number(n, r1);
            for &r2 in &bases {
                let y = to_base(&x, r2);
                assert_eq!(y.base, r2);
                assert_eq!(to_uint(&y), Ok(n));
            }
        }
    }
}

#[test]
fn conversion_round_trip_is_identity() {
    let x = to_number(987654, 4);
    let away = to_base(&x, 64);
    let back = to_base(&away, 4);
    let direct = to_base(&x, 4);
    assert_eq!(back.base, direct.base);
    assert_eq!(back.value, direct.value);
}

#[test]
fn binary_bridge_round_trip() {
    let x = to_number(0xCAFE, 16);
    let bits = to_binary(&x);
    assert_eq!(bits.len(), 16);
    let y = from_binary(&bits, 16);
    assert_eq!(y.value, x.value);
    let z = from_binary(&bits, 2);
    assert_eq!(to_uint(&z), Ok(0xCAFE));
}

#[test]
fn addition_carries_across_digits() {
    let a = from_string("FF", 16).unwrap();
    let b = from_string("1", 16).unwrap();
    let sum = add_number(&a, &b);
    assert_eq!(to_string(&sum), "100");
}

#[test]
fn addition_commutes() {
    let a = to_number(165165163, 16);
    let b = to_base(&to_number(531311, 8), 16);
    let s1 = add_number(&a, &b);
    let s2 = add_number(&b, &a);
    assert_eq!(s1.base, s2.base);
    assert_eq!(s1.value, s2.value);
}

#[test]
fn comparison_matches_native_order() {
    let pairs = [(0u64, 0u64), (1, 0), (0, 1), (63, 64), (64, 63), (500, 500)];
    for (m, n) in pairs {
        let a = to_number(m, 8);
        let b = to_number(n, 32);
        let expected: i8 = if m > n {
            1
        } else if m < n {
            -1
        } else {
            0
        };
        assert_eq!(cmp_number(&a, &b), expected);
    }
}

#[test]
fn construction_strips_trailing_zeros() {
    let n = Number::new(16, vec![1, 0, 0]);
    assert_eq!(n.value, vec![1u8]);
    let z = Number::new(16, vec![0, 0, 0]);
    assert_eq!(z.value, vec![0u8]);
    assert_eq!(remove_zeros(vec![5, 0, 3, 0, 0]), vec![5, 0, 3]);
    assert_eq!(remove_zeros(vec![0]), vec![0]);
}
