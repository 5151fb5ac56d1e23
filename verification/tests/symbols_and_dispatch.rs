use base_converter::convert::{to_number, to_string, to_uint};
use base_converter::process_command;
use base_converter::symbols::{digit_to_symbol, symbol_to_digit};
use base_converter::{Config, ConvertError, Operation};

#[test]
fn alphabet_in_order() {
    let expected = "0123456789ABCDEFGHIJKLMNOPQRSTUVWXYZabcdefghijklmnopqrstuvwxyz+/";
    for (i, c) in expected.chars().enumerate() {
        assert_eq!(digit_to_symbol(i as u8), Ok(c));
        assert_eq!(symbol_to_digit(c), Some(i as u8));
    }
}

#[test]
fn digit_out_of_range_rejected() {
    assert_eq!(digit_to_symbol(64), Err(ConvertError::DigitOutOfRange));
    assert_eq!(digit_to_symbol(255), Err(ConvertError::DigitOutOfRange));
}

#[test]
fn unknown_symbols_have_no_digit() {
    for c in ['%', ' ', '-', '*', '\n', '~'] {
        assert_eq!(symbol_to_digit(c), None);
    }
}

#[test]
fn dispatch_add() {
    let config = Config {
        operation: Operation::Add,
        base: None,
        number1: to_number(40, 16),
        number2: Some(to_number(2, 2)),
    };
    let result = process_command(&config);
    assert_eq!(result.base, 16);
    assert_eq!(to_uint(&result), Ok(42));
}

#[test]
fn dispatch_convert() {
    let config = Config {
        operation: Operation::Convert,
        base: Some(8),
        number1: to_number(12, 2),
        number2: None,
    };
    let result = process_command(&config);
    assert_eq!(result.base, 8);
    assert_eq!(to_string(&result), "14");
}
