use ledger::amount::Amount;
use ledger::date::Date;
use ledger::decimal::Dec;
use ledger::journal::AccName;
use ledger::parser::State;
use ledger::prices::{PriceDB, PriceType};
use ledger::quantity::Quantity;
use ledger::register::{register, register_checked, revaluation_anchor};
use ledger::report::Valuation;
use ledger::symbol::Symbol;
use ledger::tamount::TAmount;
use ledger::xact::{Journal, LotPrice, ParsedPosting, ParsedXact, Xact, XactDate};

fn d(y: i32, m: u32, day: u32) -> Date {
    Date::from_ymd(y, m, day).unwrap()
}

fn quantity(num: &str, sym: &str) -> Quantity {
    Quantity {
        q: Dec::parse(num).unwrap(),
        s: Symbol::new(sym),
    }
}

fn dollars(num: &str) -> Amount {
    Amount::from_quantity(quantity(num, "$"))
}

fn posting(acc: &str, q: Option<Quantity>, lot: Option<Quantity>) -> ParsedPosting {
    ParsedPosting {
        state: State::Unmarked,
        account: acc.to_string(),
        quantity: q,
        uprice: None,
        lot_uprice: lot.map(|price| LotPrice {
            price,
            ptype: PriceType::Floating,
        }),
        lot_date: None,
        lot_note: String::new(),
        comment: String::new(),
        tags: Vec::new(),
        vtags: Vec::new(),
    }
}

fn xact(date: Date, payee: &str, postings: Vec<ParsedPosting>) -> Xact {
    ParsedXact {
        state: State::Unmarked,
        code: String::new(),
        date: XactDate {
            txdate: date,
            efdate: None,
        },
        payee: payee.to_string(),
        comment: String::new(),
        tags: Vec::new(),
        vtags: Vec::new(),
        postings,
    }
    .into_xact()
    .unwrap()
}

fn dollar_xact(date: Date, payee: &str, postings: &[(&str, Option<&str>)]) -> Xact {
    xact(
        date,
        payee,
        postings
            .iter()
            .map(|(acc, q)| posting(acc, q.map(|n| quantity(n, "$")), None))
            .collect(),
    )
}

fn journal(xacts: Vec<Xact>) -> (Journal, PriceDB) {
    let j = Journal::new(xacts, Vec::new());
    let db = PriceDB::from_journal(&j);
    (j, db)
}

#[test]
fn one_row_per_posting_with_running_totals() {
    let (j, db) = journal(vec![
        dollar_xact(
            d(2026, 1, 1),
            "salary",
            &[("Assets:Cash", Some("100")), ("Income:Salary", None)],
        ),
        dollar_xact(
            d(2026, 1, 2),
            "lunch",
            &[("Expenses:Food", Some("12")), ("Assets:Cash", None)],
        ),
    ]);
    let groups = register(j.xacts(), Valuation::Quantity, 0, &db);
    assert_eq!(groups.len(), 2);

    assert_eq!(*groups[0].date, d(2026, 1, 1));
    assert_eq!(groups[0].payee, "salary");
    assert_eq!(groups[0].rows.len(), 2);
    assert_eq!(groups[0].rows[0].acc_name, AccName::new("Assets:Cash"));
    assert_eq!(groups[0].rows[0].total, dollars("100"));
    assert_eq!(groups[0].rows[0].running_total, dollars("100"));
    assert_eq!(groups[0].rows[1].acc_name, AccName::new("Income:Salary"));
    assert_eq!(groups[0].rows[1].total, dollars("-100"));
    assert_eq!(groups[0].rows[1].running_total, Amount::new());

    assert_eq!(groups[1].payee, "lunch");
    assert_eq!(groups[1].rows[0].acc_name, AccName::new("Expenses:Food"));
    assert_eq!(groups[1].rows[0].running_total, dollars("12"));
    assert_eq!(groups[1].rows[1].total, dollars("-12"));
    assert_eq!(groups[1].rows[1].running_total, Amount::new());
}

#[test]
fn basis_values_postings_at_their_lot_price() {
    let (j, db) = journal(vec![xact(
        d(2026, 1, 1),
        "buy",
        vec![
            posting("Assets:Broker", Some(quantity("10", "AAPL")), Some(quantity("5", "$"))),
            posting("Assets:Cash", Some(quantity("-50", "$")), None),
        ],
    )]);
    let groups = register(j.xacts(), Valuation::Basis, 0, &db);
    assert_eq!(groups.len(), 1);
    assert_eq!(groups[0].rows[0].total, dollars("50"));
    assert_eq!(groups[0].rows[0].running_total, dollars("50"));
    assert_eq!(groups[0].rows[1].total, dollars("-50"));
    assert_eq!(groups[0].rows[1].running_total, Amount::new());

    let groups = register(j.xacts(), Valuation::Quantity, 0, &db);
    assert_eq!(
        groups[0].rows[0].total,
        Amount::from_quantity(quantity("10", "AAPL"))
    );
}

#[test]
fn depth_gathers_accounts_under_their_first_parts() {
    let (j, db) = journal(vec![dollar_xact(
        d(2026, 1, 1),
        "split",
        &[
            ("Expenses:Food", Some("2")),
            ("Expenses:Rent", Some("3")),
            ("Assets:Cash", None),
        ],
    )]);
    let groups = register(j.xacts(), Valuation::Quantity, 1, &db);
    assert_eq!(groups.len(), 1);
    let rows = &groups[0].rows;
    assert_eq!(rows.len(), 2);
    assert_eq!(rows[0].acc_name, AccName::new("Assets"));
    assert_eq!(rows[0].total, dollars("-5"));
    assert_eq!(rows[0].running_total, dollars("-5"));
    assert_eq!(rows[1].acc_name, AccName::new("Expenses"));
    assert_eq!(rows[1].total, dollars("5"));
    assert_eq!(rows[1].running_total, Amount::new());
}

#[test]
fn no_transactions_no_groups() {
    let (j, db) = journal(Vec::new());
    let groups = register_checked(j.xacts(), Valuation::Basis, 0, &db).unwrap();
    assert!(groups.is_empty());
}

#[test]
fn revaluation_anchor_picks_next_then_at_then_today() {
    let a = dollar_xact(d(2026, 1, 1), "a", &[("A", Some("1")), ("B", None)]);
    let b = dollar_xact(d(2026, 2, 1), "b", &[("A", Some("1")), ("B", None)]);
    let today = d(2026, 3, 1);
    assert_eq!(revaluation_anchor(&a, Some(&b), None, today), Some(d(2026, 2, 1)));
    assert_eq!(revaluation_anchor(&b, None, Some(d(2026, 2, 10)), today), Some(d(2026, 2, 10)));
    assert_eq!(revaluation_anchor(&b, None, None, today), Some(today));
    assert_eq!(revaluation_anchor(&b, None, None, d(2026, 1, 15)), None);
    assert_eq!(revaluation_anchor(&b, None, None, d(2026, 2, 1)), None);
}

#[test]
fn posting_value_under_each_valuation() {
    let x = xact(
        d(2026, 1, 15),
        "buy",
        vec![
            posting("Assets:Broker", Some(quantity("10", "AAPL")), Some(quantity("4", "$"))),
            posting("Assets:Cash", Some(quantity("-40", "$")), None),
        ],
    );
    let mut db = PriceDB::new();
    db.upsert_price(Symbol::new("AAPL"), d(2026, 1, 1).to_datetime(), quantity("5", "$"));
    db.upsert_price(Symbol::new("AAPL"), d(2026, 2, 1).to_datetime(), quantity("6", "$"));
    let p = &x.postings[0];
    assert_eq!(p.value(Valuation::Quantity, &db), quantity("10", "AAPL"));
    assert_eq!(p.value(Valuation::Basis, &db), quantity("40", "$"));
    assert_eq!(p.book_value(), quantity("40", "$"));
    assert_eq!(p.value(Valuation::Market, &db), quantity("60", "$"));
    assert_eq!(p.market_value(&db), quantity("60", "$"));
    assert_eq!(p.value(Valuation::Historical, &db), quantity("50", "$"));
    assert_eq!(p.historical_value(&db), quantity("50", "$"));
}

#[test]
fn postings_grouped_by_account_in_order_of_first_posting() {
    let x = dollar_xact(
        d(2026, 1, 1),
        "split",
        &[("B", Some("1")), ("A", Some("2")), ("B", Some("3")), ("C", None)],
    );
    let groups = x.get_all_postings();
    assert_eq!(groups.len(), 3);
    assert_eq!(groups[0].0, AccName::new("B"));
    assert_eq!(groups[0].1.len(), 2);
    assert_eq!(groups[1].0, AccName::new("A"));
    assert_eq!(groups[1].1.len(), 1);
    assert_eq!(groups[2].0, AccName::new("C"));
    assert_eq!(groups[2].1[0].quantity, quantity("-6", "$"));
}

#[test]
fn journal_filter_by_query_keeps_matching_transactions() {
    let (j, _) = journal(vec![
        dollar_xact(d(2026, 1, 1), "a", &[("Assets:Cash", Some("1")), ("Income", None)]),
        dollar_xact(d(2026, 1, 2), "b", &[("Expenses:Food", Some("1")), ("Liabilities", None)]),
    ]);
    let q = ledger::ledger::Query::new(vec!["^Assets".to_string()]).unwrap();
    assert!(!q.is_empty());
    let kept = j.filter_by_query(&q);
    assert_eq!(kept.nxact(), 1);
    assert_eq!(kept.xacts()[0].payee, "a");
    let all = ledger::ledger::Query::all();
    assert!(all.is_empty());
}

#[test]
fn a_transaction_without_rows_adds_no_group() {
    let (j, db) = journal(vec![
        xact(d(2026, 1, 1), "nothing", Vec::new()),
        dollar_xact(d(2026, 1, 2), "lunch", &[("Expenses:Food", Some("3")), ("Assets:Cash", None)]),
    ]);
    let groups = register(j.xacts(), Valuation::Quantity, 0, &db);
    assert_eq!(groups.len(), 1);
    assert_eq!(groups[0].payee, "lunch");
    assert_eq!(groups[0].rows[1].running_total, Amount::new());
}

#[test]
fn put_then_at_gives_the_value_back() {
    let day = d(2026, 1, 5);
    let other = d(2026, 1, 6);
    let t: TAmount<Amount> = TAmount::single(other, dollars("2"));
    let t = t.put(day, dollars("7"));
    assert_eq!(*t.at(&day).unwrap(), dollars("7"));
    assert_eq!(*t.at(&other).unwrap(), dollars("2"));
    let t = t.put(day, dollars("9"));
    assert_eq!(*t.at(&day).unwrap(), dollars("9"));
}
