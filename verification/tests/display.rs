use ledger::decimal::Dec;
use ledger::display::{add_thousands_separator, format_decimal_manual};
use ledger::quantity::Quantity;
use ledger::symbol::Symbol;

fn dec(s: &str) -> Dec {
    Dec::parse(s).unwrap()
}

#[test]
fn thousands_separator_groups_by_three() {
    assert_eq!(add_thousands_separator("1234567"), "1,234,567");
    assert_eq!(add_thousands_separator("123456"), "123,456");
    assert_eq!(add_thousands_separator("1000"), "1,000");
    assert_eq!(add_thousands_separator("999"), "999");
    assert_eq!(add_thousands_separator("12"), "12");
    assert_eq!(add_thousands_separator(""), "");
}

#[test]
fn thousands_separator_keeps_the_sign() {
    assert_eq!(add_thousands_separator("-1234"), "-1,234");
    assert_eq!(add_thousands_separator("-123"), "-123");
    assert_eq!(add_thousands_separator("-"), "-");
}

#[test]
fn format_decimal_manual_rounds_and_groups() {
    assert_eq!(format_decimal_manual(dec("1234567.891"), 2), "1,234,567.89");
    assert_eq!(format_decimal_manual(dec("1000"), 3), "1,000.000");
    assert_eq!(format_decimal_manual(dec("-9876.5"), 0), "-9,876");
    assert_eq!(format_decimal_manual(dec("0.5"), 1), "0.5");
}

#[test]
fn quantity_text_puts_the_symbol_first() {
    let q = Quantity {
        q: dec("1500.25"),
        s: Symbol::new("$"),
    };
    assert_eq!(q.to_text(Some(2)), "$ 1,500.25");
    assert_eq!(q.to_text(None), "$ 1,500.250");
    let bare = Quantity {
        q: dec("12"),
        s: Symbol::new(""),
    };
    assert_eq!(bare.to_text(Some(0)), "12");
}

#[test]
fn numbers_too_long_to_write_are_told_apart() {
    assert!(dec("12345").fits_format(3));
    assert!(!dec("12345").fits_format(28));
    assert!(dec("1234").fits_format(27));
    assert!(dec("0.5").fits_format(29));
    assert!(!dec("10000000000000000000000000000").fits_format(3));
    assert!(dec("1000000000000000000000000000").fits_format(3));
    assert!(dec("-9999999999999999999999999999").fits_format(0));
}

#[test]
fn numbers_are_written_truncated_at_the_precision() {
    let w = |s: &str, p: usize| Dec::parse(s).unwrap().to_string_prec(p);
    assert_eq!(w("123.456", 2), "123.45");
    assert_eq!(w("-123.456", 2), "-123.45");
    assert_eq!(w("-0.001", 2), "-0.00");
    assert_eq!(w("0.000", 0), "0");
    assert_eq!(w("0.7", 0), "0");
    assert_eq!(w("5", 3), "5.000");
    assert_eq!(w("-12", 0), "-12");
    assert_eq!(w("0.05", 1), "0.0");
    assert_eq!(
        w("0.5", 30),
        format!("0.5{}", "0".repeat(29))
    );
    assert_eq!(w("1000000", 2), "1000000.00");
}
