//! Calendar dates and times of day, checked and moved by `chrono`.

use vstd::prelude::*;

use chrono::Datelike;

verus! {

/// First year `chrono::NaiveDate` can hold.
pub const MIN_YEAR: i32 = -262143i32;

/// Last year `chrono::NaiveDate` can hold.
pub const MAX_YEAR: i32 = 262142i32;

/// Leap years of the proleptic Gregorian calendar.
pub open spec fn is_leap(y: int) -> bool {
    y % 4 == 0 && (y % 100 != 0 || y % 400 == 0)
}

/// Number of days of month `m` of year `y`.
pub open spec fn days_in_month(y: int, m: int) -> int {
    if m == 2 {
        if is_leap(y) {
            29
        } else {
            28
        }
    } else if m == 4 || m == 6 || m == 9 || m == 11 {
        30
    } else {
        31
    }
}

/// `y-m-d` is a day of the calendar that `chrono::NaiveDate` can hold.
pub open spec fn valid_ymd(y: int, m: int, d: int) -> bool {
    &&& MIN_YEAR <= y <= MAX_YEAR
    &&& 1 <= m <= 12
    &&& 1 <= d <= days_in_month(y, m)
}

/// `h:m:s` is a time of day.
pub open spec fn valid_hms(h: int, m: int, s: int) -> bool {
    0 <= h < 24 && 0 <= m < 60 && 0 <= s < 60
}

/// A day of the calendar.
#[derive(Clone, Copy, Debug, PartialEq, Eq, Hash, PartialOrd, Ord)]
pub struct Date {
    y: i32,
    m: u32,
    d: u32,
}

/// A time of day, to the second.
#[derive(Clone, Copy, Debug, PartialEq, Eq, Hash, PartialOrd, Ord)]
pub struct Time {
    h: u32,
    mi: u32,
    s: u32,
}

/// A day and a time of that day.
#[derive(Clone, Copy, Debug, PartialEq, Eq, Hash, PartialOrd, Ord)]
pub struct DateTime {
    pub date: Date,
    pub time: Time,
}

impl Date {
    pub closed spec fn year(self) -> int {
        self.y as int
    }

    pub closed spec fn month(self) -> int {
        self.m as int
    }

    pub closed spec fn day(self) -> int {
        self.d as int
    }

    pub open spec fn wf(self) -> bool {
        valid_ymd(self.year(), self.month(), self.day())
    }

    /// Calendar order: by year, then month, then day.
    pub open spec fn before_eq(self, o: Date) -> bool {
        ||| self.year() < o.year()
        ||| self.year() == o.year() && self.month() < o.month()
        ||| self.year() == o.year() && self.month() == o.month() && self.day() <= o.day()
    }

    /// The last day `chrono` represents, December 31 of year 262142.
    pub closed spec fn last_spec() -> Date {
        Date { y: 262142, m: 12, d: 31 }
    }

    /// The last day `chrono` represents, December 31 of year 262142.
    pub fn last() -> (r: Date)
        ensures
            r == Date::last_spec(),
            r.year() == 262142 && r.month() == 12 && r.day() == 31,
    {
        Date { y: 262142, m: 12, d: 31 }
    }

    /// `before_eq` is a total order.
    pub proof fn lemma_order(a: Date, b: Date, c: Date)
        ensures
            a.before_eq(a),
            a.before_eq(b) || b.before_eq(a),
            a.before_eq(b) && b.before_eq(a) ==> a == b,
            a.before_eq(b) && b.before_eq(c) ==> a.before_eq(c),
    {
        if a.year() == b.year() && a.month() == b.month() && a.day() == b.day() {
            assert(a == b);
        }
    }

    /// The day `y-m-d`, or `None` when there is no such day.
    pub fn from_ymd(y: i32, m: u32, d: u32) -> (r: Option<Date>)
        ensures
            r is Some <==> valid_ymd(y as int, m as int, d as int),
            r matches Some(x) ==> x.year() == y && x.month() == m && x.day() == d && x.wf(),
    {
        if chrono_date_exists(y, m, d) {
            Some(Date { y, m, d })
        } else {
            None
        }
    }

    pub fn get_year(&self) -> (r: i32)
        ensures
            r == self.year(),
    {
        self.y
    }

    pub fn get_month(&self) -> (r: u32)
        ensures
            r == self.month(),
    {
        self.m
    }

    pub fn get_day(&self) -> (r: u32)
        ensures
            r == self.day(),
    {
        self.d
    }

    /// Whether `self` comes no later than `o`.
    pub fn le(&self, o: &Date) -> (r: bool)
        ensures
            r == self.before_eq(*o),
    {
        self.y < o.y || (self.y == o.y && self.m < o.m) || (self.y == o.y && self.m == o.m
            && self.d <= o.d)
    }

    /// Midnight of this day.
    pub closed spec fn midnight_of(self) -> DateTime {
        DateTime { date: self, time: Time { h: 0, mi: 0, s: 0 } }
    }

    /// Midnight of this day.
    pub fn to_datetime(&self) -> (r: DateTime)
        ensures
            r == self.midnight_of(),
            r.date == *self,
            r.time.hour() == 0 && r.time.minute() == 0 && r.time.second() == 0,
    {
        DateTime { date: *self, time: Time { h: 0, mi: 0, s: 0 } }
    }

    /// The day `n` days later (earlier for a negative `n`), or `None`
    /// when it falls outside the range `chrono` can hold.
    pub fn add_days(&self, n: i64) -> (r: Option<Date>)
        requires
            self.wf(),
            -1_000_000 <= n <= 1_000_000,
        ensures
            r == date_add_days(*self, n as int),
            r matches Some(x) ==> x.wf(),
    {
        chrono_add_days(*self, n)
    }

    /// The same day one month later (or the last day of that month when
    /// it is shorter), or `None` outside `chrono`'s range.
    pub fn next_month(&self) -> (r: Option<Date>)
        requires
            self.wf(),
        ensures
            r == date_next_month(*self),
            r matches Some(x) ==> x.wf(),
    {
        chrono_add_months(*self)
    }

    /// The same day one month earlier (or the last day of that month when
    /// it is shorter), or `None` outside `chrono`'s range.
    pub fn prev_month(&self) -> (r: Option<Date>)
        requires
            self.wf(),
        ensures
            r == date_prev_month(*self),
            r matches Some(x) ==> x.wf(),
    {
        chrono_sub_months(*self)
    }
}

impl Time {
    pub closed spec fn hour(self) -> int {
        self.h as int
    }

    pub closed spec fn minute(self) -> int {
        self.mi as int
    }

    pub closed spec fn second(self) -> int {
        self.s as int
    }

    /// The time `h:m:s`, or `None` when it is not a time of day.
    pub fn from_hms(h: u32, m: u32, s: u32) -> (r: Option<Time>)
        ensures
            r is Some <==> valid_hms(h as int, m as int, s as int),
            r matches Some(x) ==> x.hour() == h && x.minute() == m && x.second() == s,
    {
        if chrono_time_exists(h, m, s) {
            Some(Time { h, mi: m, s })
        } else {
            None
        }
    }

    /// Midnight.
    pub fn midnight() -> (r: Time)
        ensures
            r.hour() == 0 && r.minute() == 0 && r.second() == 0,
    {
        Time { h: 0, mi: 0, s: 0 }
    }
}

impl DateTime {
    /// Calendar order, then time of day.
    pub open spec fn before_eq(self, o: DateTime) -> bool {
        ||| (self.date.before_eq(o.date) && self.date != o.date)
        ||| self.date == o.date && (self.time.hour() < o.time.hour() || (self.time.hour()
            == o.time.hour() && self.time.minute() < o.time.minute()) || (self.time.hour()
            == o.time.hour() && self.time.minute() == o.time.minute() && self.time.second()
            <= o.time.second()))
    }

    /// `before_eq` is a total order.
    pub proof fn lemma_order(a: DateTime, b: DateTime, c: DateTime)
        ensures
            a.before_eq(a),
            a.before_eq(b) || b.before_eq(a),
            a.before_eq(b) && b.before_eq(a) ==> a == b,
            a.before_eq(b) && b.before_eq(c) ==> a.before_eq(c),
    {
        if a.date.year() == b.date.year() && a.date.month() == b.date.month() && a.date.day()
            == b.date.day() {
            assert(a.date == b.date);
        }
        if b.date.year() == c.date.year() && b.date.month() == c.date.month() && b.date.day()
            == c.date.day() {
            assert(b.date == c.date);
        }
        if a.date.year() == c.date.year() && a.date.month() == c.date.month() && a.date.day()
            == c.date.day() {
            assert(a.date == c.date);
        }
        if a.date == b.date && a.time.hour() == b.time.hour() && a.time.minute()
            == b.time.minute() && a.time.second() == b.time.second() {
            assert(a.time == b.time);
        }
    }

    /// Whether `self` comes no later than `o`.
    pub fn le(&self, o: &DateTime) -> (r: bool)
        ensures
            r == self.before_eq(*o),
    {
        if self.date.y != o.date.y || self.date.m != o.date.m || self.date.d != o.date.d {
            return self.date.le(&o.date);
        }
        self.time.h < o.time.h || (self.time.h == o.time.h && self.time.mi < o.time.mi) || (
        self.time.h == o.time.h && self.time.mi == o.time.mi && self.time.s <= o.time.s)
    }

    /// Whether both name the same instant.
    pub fn same(&self, o: &DateTime) -> (r: bool)
        ensures
            r == (*self == *o),
    {
        self.date.y == o.date.y && self.date.m == o.date.m && self.date.d == o.date.d
            && self.time.h == o.time.h && self.time.mi == o.time.mi && self.time.s == o.time.s
    }
}

/// The day `n` days after `d`, as `chrono` computes it (`None` outside
/// its range).
pub uninterp spec fn date_add_days(d: Date, n: int) -> Option<Date>;

/// Day `d` of month `m` of year `y`, or the last day of that month when
/// it is shorter; `None` outside `chrono`'s range.
pub closed spec fn clamped_day(y: int, m: int, d: int) -> Option<Date> {
    let dd = if d > days_in_month(y, m) {
        days_in_month(y, m)
    } else {
        d
    };
    if valid_ymd(y, m, dd) {
        Some(Date { y: y as i32, m: m as u32, d: dd as u32 })
    } else {
        None
    }
}

/// The same day of the next month, as `chrono::NaiveDate::checked_add_months`
/// computes it: the month after, in the next year after December, the day
/// clamped to the last day of a shorter month (`None` outside its range).
pub open spec fn date_next_month(d: Date) -> Option<Date> {
    if d.month() == 12 {
        clamped_day(d.year() + 1, 1, d.day())
    } else {
        clamped_day(d.year(), d.month() + 1, d.day())
    }
}

/// The same day of the previous month, as
/// `chrono::NaiveDate::checked_sub_months` computes it: the month before,
/// in the previous year before January, the day clamped to the last day of
/// a shorter month (`None` outside its range).
pub open spec fn date_prev_month(d: Date) -> Option<Date> {
    if d.month() == 1 {
        clamped_day(d.year() - 1, 12, d.day())
    } else {
        clamped_day(d.year(), d.month() - 1, d.day())
    }
}

/// `chrono::NaiveDate::from_ymd_opt` tells whether a day exists. Claims:
/// it does exactly for the days of the proleptic Gregorian calendar
/// within years -262143 to 262142, as its documentation says.
#[verifier::external_body]
fn chrono_date_exists(y: i32, m: u32, d: u32) -> (r: bool)
    ensures
        r == valid_ymd(y as int, m as int, d as int),
{
    chrono::NaiveDate::from_ymd_opt(y, m, d).is_some()
}

/// `chrono::NaiveTime::from_hms_opt` tells whether a time exists. Claims:
/// it does exactly for hours below 24 and minutes and seconds below 60.
#[verifier::external_body]
fn chrono_time_exists(h: u32, m: u32, s: u32) -> (r: bool)
    ensures
        r == valid_hms(h as int, m as int, s as int),
{
    chrono::NaiveTime::from_hms_opt(h, m, s).is_some()
}

/// `chrono::NaiveDate::checked_add_signed` by whole days. Claims: the
/// result is the named day, and a day it returns exists.
#[verifier::external_body]
fn chrono_add_days(d: Date, n: i64) -> (r: Option<Date>)
    requires
        d.wf(),
        -1_000_000 <= n <= 1_000_000,
    ensures
        r == date_add_days(d, n as int),
        r matches Some(x) ==> x.wf(),
{
    let x = chrono::NaiveDate::from_ymd_opt(d.y, d.m, d.d).unwrap();
    x.checked_add_signed(chrono::TimeDelta::days(n)).map(
        |z| Date { y: z.year(), m: z.month(), d: z.day() },
    )
}

/// `chrono::NaiveDate::checked_add_months` by one month. Claims: the
/// result is the day `date_next_month` states (chrono's `diff_months`:
/// roll the month and year, clamp the day, `from_ymd_opt`).
#[verifier::external_body]
fn chrono_add_months(d: Date) -> (r: Option<Date>)
    requires
        d.wf(),
    ensures
        r == date_next_month(d),
        r matches Some(x) ==> x.wf(),
{
    let x = chrono::NaiveDate::from_ymd_opt(d.y, d.m, d.d).unwrap();
    x.checked_add_months(chrono::Months::new(1)).map(
        |z| Date { y: z.year(), m: z.month(), d: z.day() },
    )
}

/// `chrono::NaiveDate::checked_sub_months` by one month. Claims: the
/// result is the day `date_prev_month` states (chrono's `diff_months`:
/// roll the month and year, clamp the day, `from_ymd_opt`).
#[verifier::external_body]
fn chrono_sub_months(d: Date) -> (r: Option<Date>)
    requires
        d.wf(),
    ensures
        r == date_prev_month(d),
        r matches Some(x) ==> x.wf(),
{
    let x = chrono::NaiveDate::from_ymd_opt(d.y, d.m, d.d).unwrap();
    x.checked_sub_months(chrono::Months::new(1)).map(
        |z| Date { y: z.year(), m: z.month(), d: z.day() },
    )
}

} // verus!
