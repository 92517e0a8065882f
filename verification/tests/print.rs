use ledger::date::Date;
use ledger::decimal::Dec;
use ledger::ledger::Query;
use ledger::parser::State;
use ledger::print::{print, xact_text};
use ledger::quantity::Quantity;
use ledger::symbol::Symbol;
use ledger::xact::{ParsedPosting, ParsedXact, Xact, XactDate};

fn d(y: i32, m: u32, day: u32) -> Date {
    Date::from_ymd(y, m, day).unwrap()
}

fn quantity(num: &str, sym: &str) -> Quantity {
    Quantity {
        q: Dec::parse(num).unwrap(),
        s: Symbol::new(sym),
    }
}

fn posting(acc: &str, q: Option<Quantity>, uprice: Option<Quantity>) -> ParsedPosting {
    ParsedPosting {
        state: State::Unmarked,
        account: acc.to_string(),
        quantity: q,
        uprice,
        lot_uprice: None,
        lot_date: None,
        lot_note: String::new(),
        comment: String::new(),
        tags: Vec::new(),
        vtags: Vec::new(),
    }
}

fn xact(date: Date, state: State, payee: &str, comment: &str, postings: Vec<ParsedPosting>) -> Xact {
    ParsedXact {
        state,
        code: String::new(),
        date: XactDate {
            txdate: date,
            efdate: None,
        },
        payee: payee.to_string(),
        comment: comment.to_string(),
        tags: Vec::new(),
        vtags: Vec::new(),
        postings,
    }
    .into_xact()
    .unwrap()
}

#[test]
fn transaction_written_in_journal_format() {
    let x = xact(
        d(2012, 1, 1),
        State::Cleared,
        "Opening",
        "opening",
        vec![
            posting("Assets:A", Some(quantity("10", "AAPL")), Some(quantity("5.00", "$"))),
            posting("Equity:Open", None, None),
        ],
    );
    let expected = format!(
        "2012-01-01 * Opening  ; opening\n    Assets:A{}AAPL 10.000 @ $ 5.000\n    Equity:Open{}$ -50.000\n",
        " ".repeat(36),
        " ".repeat(33)
    );
    assert_eq!(xact_text(&x), expected);
}

#[test]
fn long_account_names_keep_two_spaces() {
    let name = "Assets:Some:Very:Long:Account:Name:That:Goes:On";
    let x = xact(
        d(2026, 3, 4),
        State::Pending,
        "",
        "",
        vec![
            posting(name, Some(quantity("1", "$")), None),
            posting("B", Some(quantity("-1", "$")), None),
        ],
    );
    let text = xact_text(&x);
    assert!(text.starts_with("2026-03-04 !\n"));
    assert!(text.contains(&format!("    {}  $ 1.000\n", name)));
}

#[test]
fn years_past_9999_carry_a_sign() {
    let x = xact(
        d(10000, 1, 2),
        State::Unmarked,
        "far",
        "",
        vec![
            posting("A", Some(quantity("1", "$")), None),
            posting("B", None, None),
        ],
    );
    assert!(xact_text(&x).starts_with("+10000-01-02 far\n"));
}

#[test]
fn print_selects_by_date_and_account() {
    let xs = vec![
        xact(
            d(2026, 1, 1),
            State::Unmarked,
            "a",
            "",
            vec![
                posting("Assets:Cash", Some(quantity("1", "$")), None),
                posting("Income", None, None),
            ],
        ),
        xact(
            d(2026, 2, 1),
            State::Unmarked,
            "b",
            "",
            vec![
                posting("Expenses:Food", Some(quantity("1", "$")), None),
                posting("Assets:Cash", None, None),
            ],
        ),
        xact(
            d(2026, 3, 1),
            State::Unmarked,
            "c",
            "",
            vec![
                posting("Expenses:Rent", Some(quantity("1", "$")), None),
                posting("Liabilities:Card", None, None),
            ],
        ),
    ];
    let q = Query::new(vec!["Cash".to_string()]).unwrap();
    let sel = print(&xs, &q, None, None);
    assert_eq!(sel.len(), 2);
    assert_eq!(sel[0].payee, "a");
    assert_eq!(sel[1].payee, "b");

    let all = Query::all();
    let sel = print(&xs, &all, Some(d(2026, 2, 1)), None);
    assert_eq!(sel.len(), 2);
    assert_eq!(sel[0].payee, "b");
    assert_eq!(sel[1].payee, "c");

    let sel = print(&xs, &all, Some(d(2026, 1, 15)), Some(d(2026, 2, 15)));
    assert_eq!(sel.len(), 1);
    assert_eq!(sel[0].payee, "b");
}

#[test]
fn dates_written_as_chrono_writes_them() {
    assert_eq!(ledger::print::date_string(d(2026, 3, 4)), "2026-03-04");
    assert_eq!(ledger::print::date_string(d(7, 12, 31)), "0007-12-31");
    assert_eq!(ledger::print::date_string(d(-44, 3, 15)), "-0044-03-15");
    assert_eq!(ledger::print::date_string(d(12345, 6, 7)), "+12345-06-07");
}

#[test]
fn transactions_with_quantities_too_long_are_not_written() {
    let ok = xact(
        d(2026, 1, 1),
        State::Unmarked,
        "a",
        "",
        vec![
            posting("A", Some(quantity("1", "$")), None),
            posting("B", None, None),
        ],
    );
    assert_eq!(ledger::print::xact_text_checked(&ok), Some(xact_text(&ok)));
    let big = xact(
        d(2026, 1, 1),
        State::Unmarked,
        "b",
        "",
        vec![
            posting("A", Some(quantity("10000000000000000000000000000", "$")), None),
            posting("B", None, None),
        ],
    );
    assert_eq!(ledger::print::xact_text_checked(&big), None);
}
