use ledger::catalog::scan;
use ledger::date::Date;
use ledger::decimal::Dec;
use ledger::journal::AccName;
use ledger::parser::State;
use ledger::quantity::Quantity;
use ledger::report::JnlInfo;
use ledger::symbol::Symbol;
use ledger::xact::{Journal, ParsedPosting, ParsedXact, Xact, XactDate};

fn quantity(num: &str, sym: &str) -> Quantity {
    Quantity {
        q: Dec::parse(num).unwrap(),
        s: Symbol::new(sym),
    }
}

fn posting(account: &str, q: Option<Quantity>) -> ParsedPosting {
    ParsedPosting {
        state: State::Unmarked,
        account: account.to_string(),
        quantity: q,
        uprice: None,
        lot_uprice: None,
        lot_date: None,
        lot_note: String::new(),
        comment: String::new(),
        tags: Vec::new(),
        vtags: Vec::new(),
    }
}

fn xact(day: u32, payee: &str, postings: Vec<ParsedPosting>) -> Xact {
    ParsedXact {
        state: State::Unmarked,
        code: String::new(),
        date: XactDate {
            txdate: Date::from_ymd(2026, 1, day).unwrap(),
            efdate: None,
        },
        payee: payee.to_string(),
        comment: String::new(),
        tags: Vec::new(),
        vtags: Vec::new(),
        postings,
    }
    .into_xact()
    .unwrap()
}

fn report(xacts: Vec<Xact>) -> JnlInfo {
    let journal = Journal::new(xacts, Vec::new());
    scan(journal.xacts())
}

fn a_b(day: u32, payee: &str) -> Xact {
    xact(
        day,
        payee,
        vec![
            posting("A", Some(quantity("1", "$"))),
            posting("B", Some(quantity("-1", "$"))),
        ],
    )
}

#[test]
fn collect_accounts_and_commodities() {
    let r = report(vec![xact(
        1,
        "salary",
        vec![
            posting("Assets:Bank", Some(quantity("1", "$"))),
            posting("Income:Salary", Some(quantity("-1", "$"))),
        ],
    )]);
    assert!(r.accounts.contains(&AccName::new("Assets:Bank")));
    assert!(r.accounts.contains(&AccName::new("Income:Salary")));
    assert!(r.commodities.contains(&Symbol::new("$")));
}

#[test]
fn accounts_and_commodities_sorted_and_deduped() {
    let r = report(vec![a_b(1, "test"), a_b(2, "test2")]);
    assert_eq!(r.accounts, vec![AccName::new("A"), AccName::new("B")]);
    assert_eq!(r.commodities, vec![Symbol::new("$")]);
}

#[test]
fn empty_journal_returns_empty_report() {
    let r = report(Vec::new());
    assert!(r.accounts.is_empty());
    assert!(r.commodities.is_empty());
    assert!(r.payees.is_empty());
}

#[test]
fn payees_sorted_and_deduped() {
    let r = report(vec![a_b(1, "grocery"), a_b(2, "salary"), a_b(3, "grocery")]);
    assert_eq!(r.payees, vec!["grocery".to_string(), "salary".to_string()]);
}

#[test]
fn empty_symbol_excluded_from_commodities() {
    let r = report(vec![xact(
        1,
        "test",
        vec![posting("A", Some(quantity("1", "$"))), posting("B", None)],
    )]);
    assert!(!r.commodities.contains(&Symbol::new("")));
}

#[test]
fn string_order_puts_prefixes_first_and_compares_characters() {
    let r = report(vec![xact(
        1,
        "t",
        vec![
            posting("b", Some(quantity("1", "Z"))),
            posting("a:b", Some(quantity("-1", "Z"))),
            posting("a", Some(quantity("1", "AAPL"))),
            posting("B", Some(quantity("-1", "AAPL"))),
        ],
    )]);
    assert_eq!(
        r.accounts,
        vec![
            AccName::new("B"),
            AccName::new("a"),
            AccName::new("a:b"),
            AccName::new("b")
        ]
    );
    assert_eq!(r.commodities, vec![Symbol::new("AAPL"), Symbol::new("Z")]);
}
