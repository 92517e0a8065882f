//! Date ranges and sequences of dates.

use vstd::prelude::*;

use crate::date::{date_add_days, date_next_month, date_prev_month, Date, DateTime};

verus! {

/// Midnight of `date`.
pub fn to_datetime(date: Date) -> (r: DateTime)
    ensures
        r == date.midnight_of(),
        r.date == date,
        r.time.hour() == 0 && r.time.minute() == 0 && r.time.second() == 0,
{
    date.to_datetime()
}

/// A range of dates that a date may fall in.
#[derive(Debug, Clone, Copy)]
pub enum BetweenDate {
    FromTo(Date, Date),
    From(Date),
    To(Date),
    Always,
}

impl BetweenDate {
    /// The range with the given bounds, each included.
    pub open spec fn with_bounds(from: Option<Date>, to: Option<Date>) -> BetweenDate {
        match (from, to) {
            (Some(f), Some(t)) => BetweenDate::FromTo(f, t),
            (Some(f), None) => BetweenDate::From(f),
            (None, Some(t)) => BetweenDate::To(t),
            (None, None) => BetweenDate::Always,
        }
    }

    /// Whether `d` is within the range.
    pub open spec fn contains(self, d: Date) -> bool {
        match self {
            BetweenDate::FromTo(f, t) => f.before_eq(d) && d.before_eq(t),
            BetweenDate::From(f) => f.before_eq(d),
            BetweenDate::To(t) => d.before_eq(t),
            BetweenDate::Always => true,
        }
    }

    /// Creates a `BetweenDate` from optional `from` and `to` dates.
    pub fn new(from: Option<Date>, to: Option<Date>) -> (r: BetweenDate)
        ensures
            r == BetweenDate::with_bounds(from, to),
    {
        match (from, to) {
            (Some(f), Some(t)) => BetweenDate::FromTo(f, t),
            (Some(f), None) => BetweenDate::From(f),
            (None, Some(t)) => BetweenDate::To(t),
            (None, None) => BetweenDate::Always,
        }
    }

    /// Returns true if `d` is within the range.
    pub fn check(&self, d: Date) -> (r: bool)
        ensures
            r == self.contains(d),
    {
        match self {
            BetweenDate::FromTo(from, to) => from.le(&d) && d.le(to),
            BetweenDate::From(from) => from.le(&d),
            BetweenDate::To(to) => d.le(to),
            BetweenDate::Always => true,
        }
    }
}

/// A date is in the range made from two optional bounds exactly when it
/// is no earlier than the first one and no later than the second one,
/// a missing bound leaving that side open.
pub proof fn lemma_between_bounds(from: Option<Date>, to: Option<Date>, d: Date)
    ensures
        BetweenDate::with_bounds(from, to).contains(d) == ((from matches Some(f) ==> f.before_eq(d))
            && (to matches Some(t) ==> d.before_eq(t))),
{
}

/// A step between dates: a signed number of days, weeks or months.
#[derive(Debug, Clone, Copy)]
pub enum Step {
    Days(i32),
    Weeks(i32),
    Months(i32),
}

impl Step {
    /// The signed number of steps.
    pub open spec fn count(self) -> int {
        match self {
            Step::Days(n) => n as int,
            Step::Weeks(n) => n as int,
            Step::Months(n) => n as int,
        }
    }
}

/// The date one step (of sign `s`) after `d`, as `chrono` computes it.
pub open spec fn step_from(d: Date, step: Step, s: int) -> Option<Date> {
    match step {
        Step::Days(_) => date_add_days(d, s),
        Step::Weeks(_) => date_add_days(d, 7 * s),
        Step::Months(_) => if s > 0 {
            date_next_month(d)
        } else {
            date_prev_month(d)
        },
    }
}

/// The sign of the number of steps.
pub open spec fn sign(n: int) -> int {
    if n > 0 {
        1
    } else if n < 0 {
        -1
    } else {
        0
    }
}

/// The first `k + 1` dates from `start`, each one step after the one
/// before; `None` where a step leaves `chrono`'s range.
pub open spec fn dates_from(start: Date, step: Step, k: nat) -> Option<Seq<Date>>
    decreases k,
{
    if k == 0 {
        Some(seq![start])
    } else {
        match dates_from(start, step, (k - 1) as nat) {
            Some(ds) => match step_from(ds.last(), step, sign(step.count())) {
                Some(d) => Some(ds.push(d)),
                None => None,
            },
            None => None,
        }
    }
}

/// The number of steps, in absolute value.
pub open spec fn abs_count(step: Step) -> nat {
    if step.count() < 0 {
        (-step.count()) as nat
    } else {
        step.count() as nat
    }
}

proof fn lemma_dates_from(start: Date, step: Step, k: nat)
    ensures
        dates_from(start, step, k) matches Some(ds) ==> ds.len() == k + 1 && ds[0] == start,
    decreases k,
{
    if k > 0 {
        lemma_dates_from(start, step, (k - 1) as nat);
    }
}

/// One step from `d`.
fn step_once(d: Date, step: Step, s: i64) -> (r: Option<Date>)
    requires
        d.wf(),
        s == 1 || s == -1,
    ensures
        r == step_from(d, step, s as int),
        r matches Some(x) ==> x.wf(),
{
    match step {
        Step::Days(_) => d.add_days(s),
        Step::Weeks(_) => d.add_days(7 * s),
        Step::Months(_) => if s > 0 {
            d.next_month()
        } else {
            d.prev_month()
        },
    }
}

/// The dates from `start`, advancing by days, weeks, or months: `start`
/// first, then one date per step, `|n| + 1` dates in all; the sign of
/// `n` gives the direction. `None` where a step leaves `chrono`'s range.
pub fn iter_dates_checked(start: Date, step: Step) -> (r: Option<Vec<Date>>)
    requires
        start.wf(),
    ensures
        match r {
            Some(v) => dates_from(start, step, abs_count(step)) == Some(v@),
            None => dates_from(start, step, abs_count(step)) is None,
        },
{
    let n: i32 = match step {
        Step::Days(n) => n,
        Step::Weeks(n) => n,
        Step::Months(n) => n,
    };
    let s: i64 = if n > 0 {
        1
    } else if n < 0 {
        -1
    } else {
        0
    };
    let total: i64 = if n < 0 {
        -(n as i64)
    } else {
        n as i64
    };
    let mut out: Vec<Date> = Vec::new();
    out.push(start);
    let mut curr = start;
    let mut k: i64 = 0;
    while k < total
        invariant
            0 <= k <= total,
            start.wf(),
            total == abs_count(step),
            s == sign(step.count()),
            total > 0 ==> (s == 1 || s == -1),
            curr.wf(),
            dates_from(start, step, k as nat) == Some(out@),
            out@.last() == curr,
        decreases total - k,
    {
        proof {
            lemma_dates_from(start, step, k as nat);
        }
        let next = match step_once(curr, step, s) {
            Some(d) => d,
            None => {
                proof {
                    assert(dates_from(start, step, (k + 1) as nat) is None);
                    lemma_dates_none(start, step, (k + 1) as nat, abs_count(step));
                }
                return None;
            },
        };
        out.push(next);
        curr = next;
        k = k + 1;
    }
    Some(out)
}

/// A step that fails makes every longer sequence fail.
proof fn lemma_dates_none(start: Date, step: Step, k: nat, m: nat)
    requires
        dates_from(start, step, k) is None,
        k <= m,
    ensures
        dates_from(start, step, m) is None,
    decreases m - k,
{
    if k < m {
        lemma_dates_none(start, step, k, (m - 1) as nat);
    }
}

/// The dates from `start` (see `iter_dates_checked`), where no step
/// leaves `chrono`'s range.
pub fn iter_dates(start: Date, step: Step) -> (r: Vec<Date>)
    requires
        start.wf(),
        dates_from(start, step, abs_count(step)) is Some,
    ensures
        dates_from(start, step, abs_count(step)) == Some(r@),
        r@.len() == abs_count(step) + 1,
        r@[0] == start,
{
    proof {
        lemma_dates_from(start, step, abs_count(step));
    }
    match iter_dates_checked(start, step) {
        Some(v) => v,
        None => Vec::new(),
    }
}

} // verus!
