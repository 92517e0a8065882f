//! The choices that shape a report: how holdings are valued, over which
//! dates, in which output format, and which lines are shown.

use vstd::prelude::*;

use crate::date::Date;
use crate::journal::AccName;
use crate::misc::{abs_count, dates_from, iter_dates_checked, Step};
use crate::parser::{ParseError, State};
use crate::symbol::Symbol;

verus! {

/// How the value of a holding is computed.
///
/// - `Basis`: its book value
/// - `Quantity`: its raw quantity, without valuation
/// - `Market`: its most recent market value from the price database
/// - `Historical`: its market value on the date it was acquired
#[derive(Debug, Copy, Clone, PartialEq, Eq)]
pub enum Valuation {
    Basis,
    Quantity,
    Market,
    Historical,
}

/// The valuation flags of the command line: at most one of them is set.
pub struct ValuationFlags {
    pub basis: Option<bool>,
    pub market: Option<bool>,
    pub historical: Option<bool>,
    pub quantity: Option<bool>,
}

impl ValuationFlags {
    /// The valuation asked for: the one flag set to true while the others
    /// are set to false; the raw quantity in every other case.
    pub open spec fn get_spec(&self) -> Valuation {
        match (self.basis, self.market, self.historical, self.quantity) {
            (Some(true), Some(false), Some(false), Some(false)) => Valuation::Basis,
            (Some(false), Some(true), Some(false), Some(false)) => Valuation::Market,
            (Some(false), Some(false), Some(true), Some(false)) => Valuation::Historical,
            _ => Valuation::Quantity,
        }
    }

    /// The valuation asked for (see `get_spec`).
    pub fn get(&self) -> (r: Valuation)
        ensures
            r == self.get_spec(),
    {
        match (self.basis, self.market, self.historical, self.quantity) {
            (Some(true), Some(false), Some(false), Some(false)) => Valuation::Basis,
            (Some(false), Some(true), Some(false), Some(false)) => Valuation::Market,
            (Some(false), Some(false), Some(true), Some(false)) => Valuation::Historical,
            (Some(false), Some(false), Some(false), Some(true)) => Valuation::Quantity,
            _ => Valuation::Quantity,
        }
    }
}

/// The interval between the dates of a balance report.
#[derive(Debug, Clone, Copy, PartialEq, Eq)]
pub enum Period {
    Daily,
    Weekly,
    Monthly,
}

/// The period flags of a balance report.
pub struct BalancePeriodFlags {
    /// the reference dates
    pub at: Vec<Date>,
    pub daily: bool,
    pub weekly: bool,
    pub monthly: bool,
    /// the number of periods from the reference date, signed
    pub step: i32,
}

impl BalancePeriodFlags {
    /// Daily, weekly or monthly, in that order of precedence; monthly
    /// when no flag is set.
    pub fn get_period(&self) -> (r: Period)
        ensures
            r == (if self.daily {
                Period::Daily
            } else if self.weekly {
                Period::Weekly
            } else {
                Period::Monthly
            }),
    {
        if self.daily {
            Period::Daily
        } else if self.weekly {
            Period::Weekly
        } else {
            Period::Monthly
        }
    }

    /// The step between the report dates.
    pub open spec fn step_spec(&self) -> Step {
        if self.daily {
            Step::Days(self.step)
        } else if self.weekly {
            Step::Weeks(self.step)
        } else {
            Step::Months(self.step)
        }
    }

    /// Several reference dates cannot be combined with a step or a
    /// period.
    pub fn validate(&self) -> (r: Result<(), &'static str>)
        ensures
            r is Err <==> (self.at@.len() > 1 && (self.daily || self.weekly || self.monthly
                || self.step != 0)),
    {
        if self.at.len() > 1 && (self.daily || self.weekly || self.monthly || self.step != 0) {
            return Err(
                "multiple --at values cannot be combined with --step, --daily, --weekly or --monthly",
            );
        }
        Ok(())
    }

    /// The dates at which to evaluate the balance: the reference dates
    /// when there are several; otherwise the dates from the reference
    /// date (`today` when none is given), one period apart, `|step| + 1`
    /// of them. `None` where a date leaves `chrono`'s range.
    pub fn at_dates(&self, today: Date) -> (r: Option<Vec<Date>>)
        requires
            forall|i: int| 0 <= i < self.at@.len() ==> (#[trigger] self.at@[i]).wf(),
            today.wf(),
        ensures
            self.at@.len() > 1 ==> (r matches Some(v) && v@ == self.at@),
            self.at@.len() <= 1 ==> ({
                let base = if self.at@.len() == 1 {
                    self.at@[0]
                } else {
                    today
                };
                match r {
                    Some(v) => dates_from(base, self.step_spec(), abs_count(self.step_spec())) == Some(v@),
                    None => dates_from(base, self.step_spec(), abs_count(self.step_spec())) is None,
                }
            }),
    {
        if self.at.len() > 1 {
            let mut v: Vec<Date> = Vec::new();
            let mut i: usize = 0;
            while i < self.at.len()
                invariant
                    i <= self.at@.len(),
                    v@ == self.at@.take(i as int),
                decreases self.at@.len() - i,
            {
                v.push(self.at[i]);
                assert(v@ =~= self.at@.take(i + 1));
                i = i + 1;
            }
            assert(self.at@.take(self.at@.len() as int) =~= self.at@);
            return Some(v);
        }
        let base = if self.at.len() == 1 {
            self.at[0]
        } else {
            today
        };
        let step = match self.get_period() {
            Period::Daily => Step::Days(self.step),
            Period::Weekly => Step::Weeks(self.step),
            Period::Monthly => Step::Months(self.step),
        };
        iter_dates_checked(base, step)
    }
}

/// Output format of a report.
#[derive(Debug, Clone, Copy, PartialEq, Eq)]
pub enum Fmt {
    Tty,
    Json,
    Lisp,
}

/// The reports whose JSON shape can be printed.
#[derive(Debug, Clone, Copy, PartialEq, Eq)]
pub enum Schema {
    Balance,
    Register,
    Info,
    Print,
}

impl Schema {
    /// The name of the report.
    pub open spec fn name_spec(self) -> Seq<char> {
        match self {
            Schema::Balance => seq!['b', 'a', 'l', 'a', 'n', 'c', 'e'],
            Schema::Register => seq!['r', 'e', 'g', 'i', 's', 't', 'e', 'r'],
            Schema::Info => seq!['i', 'n', 'f', 'o'],
            Schema::Print => seq!['p', 'r', 'i', 'n', 't'],
        }
    }

    /// The name of the report, as written on the command line.
    pub fn name(&self) -> (r: &'static str)
        ensures
            r@ == self.name_spec(),
    {
        match self {
            Schema::Balance => {
                let s = "balance";
                proof {
                    reveal_strlit("balance");
                }
                s
            },
            Schema::Register => {
                let s = "register";
                proof {
                    reveal_strlit("register");
                }
                s
            },
            Schema::Info => {
                let s = "info";
                proof {
                    reveal_strlit("info");
                }
                s
            },
            Schema::Print => {
                let s = "print";
                proof {
                    reveal_strlit("print");
                }
                s
            },
        }
    }

    /// Every report, in the order they are listed.
    pub fn variants() -> (r: Vec<Schema>)
        ensures
            r@ == seq![Schema::Balance, Schema::Register, Schema::Info, Schema::Print],
    {
        let mut v = Vec::new();
        v.push(Schema::Balance);
        v.push(Schema::Register);
        v.push(Schema::Info);
        v.push(Schema::Print);
        assert(v@ =~= seq![Schema::Balance, Schema::Register, Schema::Info, Schema::Print]);
        v
    }
}

/// The arguments of the `schema` command: the report whose schema to
/// print, or none to list them.
pub struct SchemaArgs {
    pub command: Option<Schema>,
}

/// Which parts of a balance report are shown.
#[derive(Debug, PartialEq, Eq, Copy, Clone)]
pub enum TotalMode {
    /// Show accounts and total (default)
    Full,
    /// `--no-total`: show accounts, omit the total line
    NoTotal,
    /// `--only-total`: show only the total, omit account lines
    OnlyTotal,
}

impl TotalMode {
    /// Whether the account lines are shown.
    pub fn show_tables(&self) -> (r: bool)
        ensures
            r == (*self == TotalMode::Full || *self == TotalMode::NoTotal),
    {
        match self {
            TotalMode::Full | TotalMode::NoTotal => true,
            TotalMode::OnlyTotal => false,
        }
    }

    /// Whether the total line is shown.
    pub fn show_total(&self) -> (r: bool)
        ensures
            r == (*self == TotalMode::Full || *self == TotalMode::OnlyTotal),
    {
        match self {
            TotalMode::Full | TotalMode::OnlyTotal => true,
            TotalMode::NoTotal => false,
        }
    }
}

/// The clearance state of a transaction or posting, as reports write it.
#[derive(Debug, Clone, Copy, PartialEq, Eq)]
pub enum StateWire {
    /// No marker.
    Unmarked,
    /// `*`: fully reconciled.
    Cleared,
    /// `!`: pending reconciliation.
    Pending,
}

impl StateWire {
    /// The report form of a state.
    pub fn from_state(s: State) -> (r: StateWire)
        ensures
            r == (match s {
                State::Unmarked => StateWire::Unmarked,
                State::Cleared => StateWire::Cleared,
                State::Pending => StateWire::Pending,
            }),
    {
        match s {
            State::Unmarked => StateWire::Unmarked,
            State::Cleared => StateWire::Cleared,
            State::Pending => StateWire::Pending,
        }
    }
}

/// What a journal holds: its accounts, commodities and payees.
pub struct JnlInfo {
    pub accounts: Vec<AccName>,
    pub commodities: Vec<Symbol>,
    pub payees: Vec<String>,
}

/// A view of a `JnlInfo` for reports.
pub struct InfoReport<'a> {
    pub accounts: &'a [AccName],
    pub commodities: &'a [Symbol],
    pub payees: &'a [String],
}

impl<'a> InfoReport<'a> {
    /// The report of `j`.
    pub fn from_info(j: &'a JnlInfo) -> (r: InfoReport<'a>)
        ensures
            r.accounts@ == j.accounts@,
            r.commodities@ == j.commodities@,
            r.payees@ == j.payees@,
    {
        InfoReport {
            accounts: j.accounts.as_slice(),
            commodities: j.commodities.as_slice(),
            payees: j.payees.as_slice(),
        }
    }
}

/// An error of the standard library's input and output.
#[verifier::external_type_specification]
#[verifier::external_body]
pub struct ExIoError(std::io::Error);

/// Why a journal could not be read.
#[derive(Debug)]
pub enum JournalError {
    Io(std::io::Error),
    Parser(ParseError),
}

/// Why a journal and its price database could not be read.
#[derive(Debug)]
pub enum ReadDbError {
    JournalError(JournalError),
    PriceDBError(crate::pricedb::ParseError),
}

} // verus!
