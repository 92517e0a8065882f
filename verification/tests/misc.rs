use ledger::date::Date;
use ledger::misc::{iter_dates, iter_dates_checked, to_datetime, BetweenDate, Step};

fn d(y: i32, m: u32, day: u32) -> Date {
    Date::from_ymd(y, m, day).unwrap()
}

#[test]
fn check_from_to_inside() {
    let bd = BetweenDate::new(Some(d(2025, 1, 1)), Some(d(2025, 12, 31)));
    assert!(bd.check(d(2025, 6, 15)));
}

#[test]
fn check_from_to_on_boundaries() {
    let bd = BetweenDate::new(Some(d(2025, 1, 1)), Some(d(2025, 12, 31)));
    assert!(bd.check(d(2025, 1, 1)));
    assert!(bd.check(d(2025, 12, 31)));
}

#[test]
fn check_from_to_outside() {
    let bd = BetweenDate::new(Some(d(2025, 1, 1)), Some(d(2025, 12, 31)));
    assert!(!bd.check(d(2024, 12, 31)));
    assert!(!bd.check(d(2026, 1, 1)));
}

#[test]
fn check_from_only_accepts_after() {
    let bd = BetweenDate::new(Some(d(2025, 6, 1)), None);
    assert!(bd.check(d(2025, 6, 1)));
    assert!(bd.check(d(2030, 1, 1)));
    assert!(!bd.check(d(2025, 5, 31)));
}

#[test]
fn check_to_only_accepts_before() {
    let bd = BetweenDate::new(None, Some(d(2025, 6, 1)));
    assert!(bd.check(d(2025, 6, 1)));
    assert!(bd.check(d(2020, 1, 1)));
    assert!(!bd.check(d(2025, 6, 2)));
}

#[test]
fn check_always_accepts_any_date() {
    let bd = BetweenDate::new(None, None);
    assert!(bd.check(d(2000, 1, 1)));
    assert!(bd.check(d(2099, 12, 31)));
}

#[test]
fn iter_dates_days_positive() {
    let dates = iter_dates(d(2024, 12, 31), Step::Days(4));
    assert_eq!(
        dates,
        vec![
            d(2024, 12, 31),
            d(2025, 1, 1),
            d(2025, 1, 2),
            d(2025, 1, 3),
            d(2025, 1, 4)
        ]
    );
}

#[test]
fn iter_dates_days_negative() {
    let dates = iter_dates(d(2025, 1, 4), Step::Days(-4));
    assert_eq!(
        dates,
        vec![
            d(2025, 1, 4),
            d(2025, 1, 3),
            d(2025, 1, 2),
            d(2025, 1, 1),
            d(2024, 12, 31)
        ]
    );
}

#[test]
fn iter_dates_days_zero() {
    let dates = iter_dates(d(2025, 6, 15), Step::Days(0));
    assert_eq!(dates, vec![d(2025, 6, 15)]);
}

#[test]
fn iter_dates_weeks_positive() {
    let dates = iter_dates(d(2024, 12, 18), Step::Weeks(2));
    assert_eq!(dates, vec![d(2024, 12, 18), d(2024, 12, 25), d(2025, 1, 1)]);
}

#[test]
fn iter_dates_weeks_negative() {
    let dates = iter_dates(d(2025, 1, 1), Step::Weeks(-2));
    assert_eq!(dates, vec![d(2025, 1, 1), d(2024, 12, 25), d(2024, 12, 18)]);
}

#[test]
fn iter_dates_weeks_zero() {
    let dates = iter_dates(d(2025, 3, 10), Step::Weeks(0));
    assert_eq!(dates, vec![d(2025, 3, 10)]);
}

#[test]
fn iter_dates_months_positive() {
    let dates = iter_dates(d(2024, 11, 15), Step::Months(3));
    assert_eq!(
        dates,
        vec![
            d(2024, 11, 15),
            d(2024, 12, 15),
            d(2025, 1, 15),
            d(2025, 2, 15)
        ]
    );
}

#[test]
fn iter_dates_months_negative() {
    let dates = iter_dates(d(2025, 2, 15), Step::Months(-3));
    assert_eq!(
        dates,
        vec![
            d(2025, 2, 15),
            d(2025, 1, 15),
            d(2024, 12, 15),
            d(2024, 11, 15)
        ]
    );
}

#[test]
fn iter_dates_months_zero() {
    let dates = iter_dates(d(2025, 7, 1), Step::Months(0));
    assert_eq!(dates, vec![d(2025, 7, 1)]);
}

#[test]
fn iter_dates_months_clamp_to_month_end_and_stay_there() {
    let dates = iter_dates(d(2025, 1, 31), Step::Months(2));
    assert_eq!(dates, vec![d(2025, 1, 31), d(2025, 2, 28), d(2025, 3, 28)]);
}

#[test]
fn iter_dates_checked_stops_at_the_edge_of_the_calendar() {
    let last = d(262142, 12, 31);
    assert_eq!(iter_dates_checked(last, Step::Days(1)), None);
    assert_eq!(iter_dates_checked(last, Step::Months(1)), None);
    assert_eq!(
        iter_dates_checked(last, Step::Days(-1)),
        Some(vec![last, d(262142, 12, 30)])
    );
}

#[test]
fn to_datetime_is_midnight() {
    let dt = to_datetime(d(2025, 3, 4));
    assert_eq!(dt.date, d(2025, 3, 4));
    assert_eq!(dt, d(2025, 3, 4).to_datetime());
}

#[test]
fn months_roll_over_and_clamp_the_day() {
    let d = |y: i32, m: u32, day: u32| Date::from_ymd(y, m, day).unwrap();
    assert_eq!(d(2024, 1, 31).next_month(), Some(d(2024, 2, 29)));
    assert_eq!(d(2023, 1, 31).next_month(), Some(d(2023, 2, 28)));
    assert_eq!(d(2024, 12, 15).next_month(), Some(d(2025, 1, 15)));
    assert_eq!(d(2024, 3, 31).prev_month(), Some(d(2024, 2, 29)));
    assert_eq!(d(2024, 1, 10).prev_month(), Some(d(2023, 12, 10)));
    assert_eq!(d(262142, 12, 1).next_month(), None);
    assert_eq!(d(-262143, 1, 1).prev_month(), None);
}
