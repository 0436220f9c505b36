use pagelayout::number::{parse_number, read_value, NumberError, MAX_VALUE};

#[test]
fn empty_token_keeps_current() {
    assert_eq!(read_value("", 42_000), Ok(42_000));
    assert_eq!(read_value("", -7_500), Ok(-7_500));
}

#[test]
fn plus_token_adds() {
    assert_eq!(read_value("+5", 10_000), Ok(15_000));
    assert_eq!(read_value("+5", -2_000), Ok(3_000));
}

#[test]
fn minus_token_subtracts() {
    assert_eq!(read_value("-3", 10_000), Ok(7_000));
    assert_eq!(read_value("-3", 0), Ok(-3_000));
}

#[test]
fn plain_token_is_absolute() {
    assert_eq!(read_value("7", 10_000), Ok(7_000));
    assert_eq!(read_value("7", -99_000), Ok(7_000));
    assert_eq!(read_value("7", 0), Ok(7_000));
}

#[test]
fn signed_operand_after_relative_sign() {
    assert_eq!(read_value("+-3", 10_000), Ok(7_000));
    assert_eq!(read_value("--3", 10_000), Ok(13_000));
}

#[test]
fn decimal_fractions() {
    assert_eq!(parse_number("12.5"), Ok(12_500));
    assert_eq!(parse_number(".5"), Ok(500));
    assert_eq!(parse_number("5."), Ok(5_000));
    assert_eq!(parse_number("0.125"), Ok(125));
    assert_eq!(parse_number("1.23456"), Ok(1_234));
    assert_eq!(parse_number("-2.25"), Ok(-2_250));
    assert_eq!(parse_number("+3"), Ok(3_000));
    assert_eq!(parse_number("007"), Ok(7_000));
    assert_eq!(read_value("+0.5", 1_000), Ok(1_500));
}

#[test]
fn malformed_numbers() {
    for t in [
        "abc", "", ".", "1.2.3", "5x", " 5", "+", "-", "--5", "1,5", "e3", "1e", "1e+", "1e-",
        ".e1", "1e3.5", "1e3e4", "1ee3", "inf", "infinity", "nan", "NaN", "-inf",
    ] {
        assert_eq!(parse_number(t), Err(NumberError::Malformed), "token {:?}", t);
    }
    assert_eq!(read_value("+", 1_000), Err(NumberError::Malformed));
    assert_eq!(read_value("+x", 1_000), Err(NumberError::Malformed));
    assert_eq!(read_value("abc", 1_000), Err(NumberError::Malformed));
}

#[test]
fn numbers_out_of_range() {
    assert_eq!(parse_number("1000000000000"), Ok(MAX_VALUE));
    assert_eq!(parse_number("1000000000000.001"), Err(NumberError::OutOfRange));
    assert_eq!(parse_number("99999999999999999999999"), Err(NumberError::OutOfRange));
    assert_eq!(parse_number("99999999999999999999999x"), Err(NumberError::Malformed));
    assert_eq!(read_value("+1", MAX_VALUE), Err(NumberError::OutOfRange));
    assert_eq!(read_value("-1", -MAX_VALUE), Err(NumberError::OutOfRange));
}

#[test]
fn exponent_literals() {
    assert_eq!(parse_number("1e3"), Ok(1_000_000));
    assert_eq!(parse_number("1E3"), Ok(1_000_000));
    assert_eq!(parse_number("1.5e-2"), Ok(15));
    assert_eq!(parse_number("1.5E+2"), Ok(150_000));
    assert_eq!(parse_number(".5e1"), Ok(5_000));
    assert_eq!(parse_number("5.e0"), Ok(5_000));
    assert_eq!(parse_number("-2e1"), Ok(-20_000));
    assert_eq!(parse_number("1e-4"), Ok(0));
    assert_eq!(parse_number("123456e-5"), Ok(1_234));
    assert_eq!(parse_number("1e-99999999999999999999999999999"), Ok(0));
    assert_eq!(parse_number("0e99999999999999999999999999999"), Ok(0));
    assert_eq!(parse_number("1e12"), Ok(MAX_VALUE));
    assert_eq!(parse_number("1e13"), Err(NumberError::OutOfRange));
    assert_eq!(parse_number("1e99999999999999999999999999999"), Err(NumberError::OutOfRange));
}

#[test]
fn relative_exponent_tokens() {
    assert_eq!(read_value("1e3", 0), Ok(1_000_000));
    assert_eq!(read_value("+1e3", 5_000), Ok(1_005_000));
    assert_eq!(read_value("-1e3", 5_000), Ok(-995_000));
    assert_eq!(read_value("-1e3", read_value("+1e3", 5_000).unwrap()), Ok(5_000));
    assert_eq!(read_value("+2.5e-1", 1_000), Ok(1_250));
}
