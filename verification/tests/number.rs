use ledger::decimal::Dec;
use ledger::number::{is_format, parse, NumberFormat};

fn d(s: &str) -> Dec {
    Dec::parse(s).unwrap()
}

#[test]
fn parse_plain_numbers() {
    assert_eq!(parse("0", NumberFormat::Plain), Some(d("0")));
    assert_eq!(parse("10", NumberFormat::Plain), Some(d("10")));
    assert_eq!(parse("1234.56", NumberFormat::Plain), Some(d("1234.56")));
    assert_eq!(parse("-42.5", NumberFormat::Plain), Some(d("-42.5")));
}

#[test]
fn parse_us_format() {
    assert_eq!(parse("1,234", NumberFormat::Us), Some(d("1234")));
    assert_eq!(parse("1,234.56", NumberFormat::Us), Some(d("1234.56")));
    assert_eq!(
        parse("-12,345,678.90", NumberFormat::Us),
        Some(d("-12345678.90"))
    );
    assert_eq!(parse("-90", NumberFormat::Us), Some(d("-90")));
}

#[test]
fn parse_european_format() {
    assert_eq!(parse("1.234", NumberFormat::European), Some(d("1234")));
    assert_eq!(
        parse("1.234,56", NumberFormat::European),
        Some(d("1234.56"))
    );
    assert_eq!(
        parse("-12.345.678,90", NumberFormat::European),
        Some(d("-12345678.90"))
    );
    assert_eq!(parse("34", NumberFormat::European), Some(d("34")));
}

#[test]
fn parse_french_format() {
    assert_eq!(parse("1 234", NumberFormat::French), Some(d("1234")));
    assert_eq!(parse("1 234,56", NumberFormat::French), Some(d("1234.56")));
    assert_eq!(
        parse("12 345 678,90", NumberFormat::French),
        Some(d("12345678.90"))
    );
    assert_eq!(
        parse("-12 345 678,90", NumberFormat::French),
        Some(d("-12345678.90"))
    );
}

#[test]
fn parse_swiss_format() {
    assert_eq!(parse("1'234", NumberFormat::Swiss), Some(d("1234")));
    assert_eq!(parse("1'234.56", NumberFormat::Swiss), Some(d("1234.56")));
    assert_eq!(
        parse("12'345'678.90", NumberFormat::Swiss),
        Some(d("12345678.90"))
    );
}

#[test]
fn parse_indian_format() {
    assert_eq!(parse("1,234", NumberFormat::Indian), Some(d("1234")));
    assert_eq!(
        parse("1,23,456.78", NumberFormat::Indian),
        Some(d("123456.78"))
    );
    assert_eq!(
        parse("12,34,56,789.00", NumberFormat::Indian),
        Some(d("123456789.00"))
    );
    assert_eq!(
        parse("-12,34,56,789.00", NumberFormat::Indian),
        Some(d("-123456789.00"))
    );
    assert_eq!(parse("-12,34.00", NumberFormat::Indian), None);
    assert_eq!(parse("-12,34,32.00", NumberFormat::Indian), None);
}

#[test]
fn parse_with_leading_and_trailing_zeros() {
    assert_eq!(parse("001,234.500", NumberFormat::Us), Some(d("1234.500")));
    assert_eq!(parse("000", NumberFormat::Us), Some(d("0")));
}

#[test]
fn format_recognition() {
    assert!(is_format("1,234.5", NumberFormat::Us));
    assert!(!is_format("1,23.5", NumberFormat::Us));
    assert!(!is_format("1234,5", NumberFormat::Us));
    assert!(!is_format("1.", NumberFormat::Plain));
    assert!(!is_format("", NumberFormat::Plain));
    assert!(!is_format("+", NumberFormat::Plain));
    assert!(is_format("0,123", NumberFormat::Indian));
    assert!(!is_format("01,123", NumberFormat::Indian));
    assert!(is_format("1'000", NumberFormat::Swiss));
}

#[test]
fn decimal_value_equality() {
    assert_eq!(d("1.0"), d("1.00"));
    assert_ne!(d("1.0"), d("1.01"));
    assert_eq!(d("1.5").mantissa(), 15);
    assert_eq!(d("1.5").get_scale(), 1);
}

#[test]
fn digits_of_other_scripts_are_in_the_format_but_not_read() {
    assert!(is_format("١٢٣", NumberFormat::Plain));
    assert!(is_format("１,２３４.５", NumberFormat::Us));
    assert!(is_format("-٣.٥", NumberFormat::Plain));
    assert!(!is_format("١٢a", NumberFormat::Plain));
    assert!(!is_format("Ⅻ", NumberFormat::Plain));
    assert_eq!(parse("١٢٣", NumberFormat::Plain), None);
}
