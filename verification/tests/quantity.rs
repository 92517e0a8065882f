use ledger::amount::Amount;
use ledger::decimal::Dec;
use ledger::quantity::Quantity;
use ledger::symbol::Symbol;

fn dec(s: &str) -> Dec {
    Dec::parse(s).unwrap()
}

fn quantity(num: &str, sym: &str) -> Quantity {
    Quantity {
        q: dec(num),
        s: Symbol::new(sym),
    }
}

#[test]
fn add_same_symbol() {
    let a = quantity("10", "$");
    let b = quantity("5", "$");
    let result = a.add(b);
    let q = result.to_quantity().unwrap();
    assert_eq!(q.q, dec("15"));
    assert_eq!(q.s, Symbol::new("$"));
}

#[test]
fn add_different_symbols() {
    let a = quantity("10", "$");
    let b = quantity("5", "EUR");
    let result = a.add(b);
    assert!(result.to_quantity().is_none());
    assert_eq!(result.arity(), 2);
}

#[test]
fn sub_same_symbol() {
    let a = quantity("10", "$");
    let b = quantity("3", "$");
    let result = a.sub(b);
    let q = result.to_quantity().unwrap();
    assert_eq!(q.q, dec("7"));
    assert_eq!(q.s, Symbol::new("$"));
}

#[test]
fn sub_different_symbols() {
    let a = quantity("10", "$");
    let b = quantity("5", "EUR");
    let result = a.sub(b);
    assert_eq!(result.arity(), 2);
}

#[test]
fn sub_to_zero_removes_commodity() {
    let a = quantity("5", "$");
    let b = quantity("5", "$");
    let result = a.sub(b);
    assert!(result.to_quantity().is_none());
}

#[test]
fn div_assign_decimal() {
    let mut q = quantity("10", "$");
    q.div_assign(dec("2"));
    assert_eq!(q.q, dec("5"));
    assert_eq!(q.s, Symbol::new("$"));
}

#[test]
fn div_assign_non_even() {
    let mut q = quantity("10", "$");
    q.div_assign(dec("3"));
    assert!(dec("3").lt_value(&q.q) && q.q.lt_value(&dec("4")));
    assert_eq!(q.s, Symbol::new("$"));
}

#[test]
fn mul_decimal() {
    let q = quantity("5", "EUR");
    let result = q.mul(dec("3"));
    assert_eq!(result.q, dec("15"));
    assert_eq!(result.s, Symbol::new("EUR"));
}

#[test]
fn mul_decimal_by_zero() {
    let q = quantity("5", "$");
    let result = q.mul(dec("0"));
    assert_eq!(result.q, dec("0"));
    assert_eq!(result.s, Symbol::new("$"));
}

#[test]
fn mul_decimal_preserves_symbol() {
    let q = quantity("7", "AAPL");
    let result = q.mul(dec("2"));
    assert_eq!(result.s, Symbol::new("AAPL"));
    assert_eq!(result.q, dec("14"));
}

#[test]
fn mul_assign_decimal() {
    let mut q = quantity("4", "$");
    q.mul_assign(dec("5"));
    assert_eq!(q.q, dec("20"));
    assert_eq!(q.s, Symbol::new("$"));
}

#[test]
fn mul_assign_decimal_fractional() {
    let mut q = quantity("10", "$");
    q.mul_assign(dec("0.5"));
    assert_eq!(q.q, dec("5.0"));
}

#[test]
fn abs_of_negative_and_positive() {
    assert_eq!(quantity("-12.5", "$").abs(), quantity("12.5", "$"));
    assert_eq!(quantity("3", "X").abs(), quantity("3", "X"));
}

#[test]
fn neg_flips_the_sign() {
    assert_eq!(quantity("12.5", "$").neg(), quantity("-12.5", "$"));
    assert_eq!(quantity("-1", "Y").neg(), quantity("1", "Y"));
}

#[test]
fn to_unit_is_one_of_the_same_commodity() {
    let u = quantity("42.7", "LTM").to_unit();
    assert_eq!(u.q, dec("1"));
    assert_eq!(u.s, Symbol::new("LTM"));
}

#[test]
fn div_quantity_keeps_the_left_commodity() {
    let r = quantity("-1", "Y").div_quantity(&quantity("2", "X"));
    assert_eq!(r, quantity("-0.5", "Y"));
}

#[test]
fn mul_quantity_keeps_the_left_commodity() {
    let r = quantity("30", "$").mul_quantity(&quantity("-10", "LTM"));
    assert_eq!(r, quantity("-300", "$"));
}

#[test]
fn to_amount_of_zero_is_empty() {
    assert_eq!(quantity("0.00", "$").to_amount().arity(), 0);
    let a = quantity("2", "$").to_amount();
    assert_eq!(a.to_quantity(), Some(quantity("2", "$")));
}

#[test]
fn quantities_of_a_quantity_is_itself() {
    let q = quantity("2", "$");
    assert_eq!(q.quantities(), vec![quantity("2", "$")]);
}

#[test]
fn add_two_quantities_changes_an_empty_amount() {
    let mut a = Amount::new();
    a.add_quantity(&quantity("1", "$"));
    a.add_quantity(&quantity("2", "EUR"));
    let qs = a.quantities();
    assert_eq!(qs, vec![quantity("1", "$"), quantity("2", "EUR")]);
}

#[test]
fn checked_mul_and_div_give_none_where_there_is_no_result() {
    let a = quantity("10", "$");
    let m = a.clone().checked_mul(dec("2.5")).unwrap();
    assert!(m.q.eq_value(&dec("25")));
    assert_eq!(m.s, Symbol::new("$"));
    let v = a.clone().checked_div(dec("4")).unwrap();
    assert!(v.q.eq_value(&dec("2.5")));
    assert_eq!(a.clone().checked_div(dec("0")), None);
    let big = quantity("79228162514264337593543950335", "$");
    assert_eq!(big.checked_mul(dec("2")), None);
}
