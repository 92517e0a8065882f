use ledger::amount::Amount;
use ledger::decimal::Dec;
use ledger::quantity::Quantity;
use ledger::symbol::Symbol;

fn dec(s: &str) -> Dec {
    Dec::parse(s).unwrap()
}

fn quantity(num: &str, sym: &str) -> Quantity {
    Quantity {
        q: dec(num),
        s: Symbol::new(sym),
    }
}

fn amount(qs: &[(&str, &str)]) -> Amount {
    let mut a = Amount::new();
    for (n, s) in qs {
        a.add_quantity(&quantity(n, s));
    }
    a
}

#[test]
fn new_amount_is_empty_and_zero() {
    let a = Amount::new();
    assert_eq!(a.arity(), 0);
    assert!(a.is_zero());
    assert!(a.to_quantity().is_none());
}

#[test]
fn from_quantity_drops_zero() {
    assert_eq!(Amount::from_quantity(quantity("0", "$")).arity(), 0);
    assert_eq!(Amount::from_qs(dec("0.000"), Symbol::new("$")).arity(), 0);
    let a = Amount::from_qs(dec("1.5"), Symbol::new("$"));
    assert_eq!(a.to_quantity(), Some(quantity("1.5", "$")));
}

#[test]
fn add_quantity_accumulates_per_commodity() {
    let mut a = amount(&[("10", "$"), ("3", "EUR")]);
    a.add_quantity(&quantity("5", "$"));
    assert_eq!(a.value_of(&Symbol::new("$")), dec("15"));
    assert_eq!(a.value_of(&Symbol::new("EUR")), dec("3"));
    assert_eq!(a.value_of(&Symbol::new("GBP")), dec("0"));
    assert_eq!(a.arity(), 2);
}

#[test]
fn add_quantity_to_zero_removes_the_commodity() {
    let mut a = amount(&[("10", "$"), ("3", "EUR")]);
    a.add_quantity(&quantity("-10", "$"));
    assert_eq!(a.quantities(), vec![quantity("3", "EUR")]);
}

#[test]
fn sub_quantity_subtracts() {
    let mut a = amount(&[("10", "$")]);
    a.sub_quantity(&quantity("4", "$"));
    a.sub_quantity(&quantity("1", "EUR"));
    assert_eq!(a.quantities(), vec![quantity("6", "$"), quantity("-1", "EUR")]);
}

#[test]
fn add_assign_and_sub_assign_amounts() {
    let mut a = amount(&[("10", "$"), ("3", "EUR")]);
    let b = amount(&[("-3", "EUR"), ("2", "X")]);
    a.add_assign(&b);
    assert_eq!(a.quantities(), vec![quantity("10", "$"), quantity("2", "X")]);
    a.sub_assign(&b);
    assert_eq!(a.quantities(), vec![quantity("10", "$"), quantity("3", "EUR")]);
}

#[test]
fn add_and_sub_by_value() {
    let a = amount(&[("1", "$")]);
    let b = amount(&[("2", "$")]);
    let c = a.add(&b);
    assert_eq!(c.to_quantity(), Some(quantity("3", "$")));
    let d = c.sub(&amount(&[("3", "$")]));
    assert!(d.is_zero());
    assert_eq!(d.arity(), 0);
}

#[test]
fn mul_and_div_keep_zero_quantities() {
    let a = amount(&[("10", "$"), ("4", "EUR")]);
    let m = a.mul(dec("0"));
    assert_eq!(m.arity(), 2);
    assert!(m.is_zero());
    let a = amount(&[("10", "$"), ("4", "EUR")]);
    let d = a.div(dec("2"));
    assert_eq!(d.quantities(), vec![quantity("5", "$"), quantity("2", "EUR")]);
}

#[test]
fn mul_assign_and_div_assign() {
    let mut a = amount(&[("10", "$")]);
    a.mul_assign(dec("3"));
    assert_eq!(a.to_quantity(), Some(quantity("30", "$")));
    a.div_assign(dec("4"));
    assert_eq!(a.to_quantity(), Some(quantity("7.5", "$")));
}

#[test]
fn sum_of_quantities() {
    let qs = vec![
        quantity("1000.00", "$"),
        quantity("1500", "$"),
        quantity("2", "LTM"),
        quantity("-2", "LTM"),
    ];
    let s = Amount::sum(&qs);
    assert_eq!(s.quantities(), vec![quantity("2500", "$")]);
}

#[test]
fn try_add_quantity_reports_overflow() {
    let max = "79228162514264337593543950335";
    let mut a = amount(&[(max, "$")]);
    assert!(!a.try_add_quantity(&quantity("1", "$")));
    assert_eq!(a.to_quantity(), Some(quantity(max, "$")));
    assert!(a.try_add_quantity(&quantity("-1", "$")));
    assert_eq!(
        a.to_quantity(),
        Some(quantity("79228162514264337593543950334", "$"))
    );
}

#[test]
fn duplicate_keeps_the_entries() {
    let a = amount(&[("1", "$"), ("2", "X")]);
    let b = a.duplicate();
    assert_eq!(a.quantities(), b.quantities());
}
