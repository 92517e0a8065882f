use ledger::date::Date;
use ledger::journal::AccName;
use ledger::parser::State;
use ledger::report::{
    BalancePeriodFlags, InfoReport, JnlInfo, Period, Schema, StateWire, TotalMode, Valuation,
    ValuationFlags,
};
use ledger::symbol::Symbol;

fn d(y: i32, m: u32, day: u32) -> Date {
    Date::from_ymd(y, m, day).unwrap()
}

fn flags(b: bool, m: bool, h: bool, q: bool) -> ValuationFlags {
    ValuationFlags {
        basis: Some(b),
        market: Some(m),
        historical: Some(h),
        quantity: Some(q),
    }
}

#[test]
fn valuation_flags_pick_the_single_flag_set() {
    assert_eq!(flags(true, false, false, false).get(), Valuation::Basis);
    assert_eq!(flags(false, true, false, false).get(), Valuation::Market);
    assert_eq!(flags(false, false, true, false).get(), Valuation::Historical);
    assert_eq!(flags(false, false, false, true).get(), Valuation::Quantity);
}

#[test]
fn valuation_flags_default_to_quantity() {
    assert_eq!(flags(false, false, false, false).get(), Valuation::Quantity);
    assert_eq!(flags(true, true, false, false).get(), Valuation::Quantity);
    let none = ValuationFlags {
        basis: None,
        market: None,
        historical: None,
        quantity: None,
    };
    assert_eq!(none.get(), Valuation::Quantity);
}

#[test]
fn total_mode_shows_tables_and_total() {
    assert!(TotalMode::Full.show_tables() && TotalMode::Full.show_total());
    assert!(TotalMode::NoTotal.show_tables() && !TotalMode::NoTotal.show_total());
    assert!(!TotalMode::OnlyTotal.show_tables() && TotalMode::OnlyTotal.show_total());
}

#[test]
fn schema_names_and_order() {
    let names: Vec<&str> = Schema::variants().iter().map(|s| s.name()).collect();
    assert_eq!(names, vec!["balance", "register", "info", "print"]);
}

#[test]
fn state_wire_of_each_state() {
    assert_eq!(StateWire::from_state(State::Unmarked), StateWire::Unmarked);
    assert_eq!(StateWire::from_state(State::Cleared), StateWire::Cleared);
    assert_eq!(StateWire::from_state(State::Pending), StateWire::Pending);
}

fn period_flags(at: Vec<Date>, daily: bool, weekly: bool, monthly: bool, step: i32) -> BalancePeriodFlags {
    BalancePeriodFlags {
        at,
        daily,
        weekly,
        monthly,
        step,
    }
}

#[test]
fn period_precedence() {
    assert_eq!(period_flags(vec![], true, true, false, 0).get_period(), Period::Daily);
    assert_eq!(period_flags(vec![], false, true, true, 0).get_period(), Period::Weekly);
    assert_eq!(period_flags(vec![], false, false, false, 0).get_period(), Period::Monthly);
}

#[test]
fn several_dates_exclude_steps() {
    assert!(period_flags(vec![d(2026, 1, 1), d(2026, 2, 1)], false, false, false, 1)
        .validate()
        .is_err());
    assert!(period_flags(vec![d(2026, 1, 1), d(2026, 2, 1)], true, false, false, 0)
        .validate()
        .is_err());
    assert!(period_flags(vec![d(2026, 1, 1), d(2026, 2, 1)], false, false, false, 0)
        .validate()
        .is_ok());
    assert!(period_flags(vec![d(2026, 1, 1)], true, false, false, 3).validate().is_ok());
}

#[test]
fn at_dates_from_flags() {
    let today = d(2026, 5, 20);
    let several = period_flags(vec![d(2026, 2, 1), d(2026, 1, 1)], false, false, false, 0);
    assert_eq!(several.at_dates(today), Some(vec![d(2026, 2, 1), d(2026, 1, 1)]));
    let weekly = period_flags(vec![d(2026, 1, 1)], false, true, false, 2);
    assert_eq!(
        weekly.at_dates(today),
        Some(vec![d(2026, 1, 1), d(2026, 1, 8), d(2026, 1, 15)])
    );
    let monthly = period_flags(vec![], false, false, false, -1);
    assert_eq!(monthly.at_dates(today), Some(vec![d(2026, 5, 20), d(2026, 4, 20)]));
    let none = period_flags(vec![], false, false, false, 0);
    assert_eq!(none.at_dates(today), Some(vec![today]));
}

#[test]
fn info_report_views_the_catalog() {
    let info = JnlInfo {
        accounts: vec![AccName::new("A"), AccName::new("B")],
        commodities: vec![Symbol::new("$")],
        payees: vec!["grocery".to_string()],
    };
    let r = InfoReport::from_info(&info);
    assert_eq!(r.accounts, &[AccName::new("A"), AccName::new("B")][..]);
    assert_eq!(r.commodities, &[Symbol::new("$")][..]);
    assert_eq!(r.payees, &["grocery".to_string()][..]);
}
