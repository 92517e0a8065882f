use ledger::account::Balance;
use ledger::accview::AccountView;
use ledger::date::Date;
use ledger::decimal::Dec;
use ledger::holdings::{Holdings, Lot};
use ledger::journal::AccName;
use ledger::ledger::{Ledger, Query};
use ledger::parser::State;
use ledger::prices::PriceDB;
use ledger::quantity::Quantity;
use ledger::symbol::Symbol;
use ledger::xact::{Journal, ParsedPosting, ParsedXact, Xact, XactDate};

fn d(y: i32, m: u32, day: u32) -> Date {
    Date::from_ymd(y, m, day).unwrap()
}

fn quantity(num: &str, sym: &str) -> Quantity {
    Quantity {
        q: Dec::parse(num).unwrap(),
        s: Symbol::new(sym),
    }
}

/// A transaction of `postings`, each an account with an amount in `$`
/// (none for the posting that balances it).
fn xact(date: Date, payee: &str, postings: &[(&str, Option<&str>)]) -> Xact {
    let ps = postings
        .iter()
        .map(|(acc, q)| ParsedPosting {
            state: State::Unmarked,
            account: acc.to_string(),
            quantity: q.map(|n| quantity(n, "$")),
            uprice: None,
            lot_uprice: None,
            lot_date: None,
            lot_note: String::new(),
            comment: String::new(),
            tags: Vec::new(),
            vtags: Vec::new(),
        })
        .collect();
    ParsedXact {
        state: State::Unmarked,
        code: String::new(),
        date: XactDate {
            txdate: date,
            efdate: None,
        },
        payee: payee.to_string(),
        comment: String::new(),
        tags: Vec::new(),
        vtags: Vec::new(),
        postings: ps,
    }
    .into_xact()
    .unwrap()
}

fn journal(xacts: Vec<Xact>) -> (Journal, PriceDB) {
    let j = Journal::new(xacts, Vec::new());
    let db = PriceDB::from_journal(&j);
    (j, db)
}

/// 2026-01-01 salary
///   Income:Salary   $100
///   Assets:Cash
#[test]
fn from_journal_populates_accounts() {
    let (journal, _) = journal(vec![xact(
        d(2026, 1, 1),
        "salary",
        &[("Income:Salary", Some("100")), ("Assets:Cash", None)],
    )]);
    let ledger = Ledger::from_journal(&journal);

    let income = AccName::new("Income:Salary");
    let cash = AccName::new("Assets:Cash");

    assert!(ledger.get_acc_postings(&income).is_some());
    assert!(ledger.get_acc_postings(&cash).is_some());
}

#[test]
fn acc_posting_acc_name_returns_correct_name() {
    let (journal, _) = journal(vec![xact(
        d(2026, 1, 1),
        "test",
        &[("Expenses:Food", Some("50")), ("Assets:Cash", Some("-50"))],
    )]);
    let ledger = Ledger::from_journal(&journal);

    let food = AccName::new("Expenses:Food");
    let (name, ps) = ledger
        .get_all_posting()
        .iter()
        .find(|(n, _)| *n == food)
        .unwrap();
    assert_eq!(name, &food);
    assert!(ps.iter().all(|p| p.acc_name == food));
}

#[test]
fn get_acc_postings_returns_none_for_unknown_account() {
    let (journal, _) = journal(vec![xact(
        d(2026, 1, 1),
        "test",
        &[("A", Some("10")), ("B", Some("-10"))],
    )]);
    let ledger = Ledger::from_journal(&journal);

    let unknown = AccName::new("C:Unknown");
    assert!(ledger.get_acc_postings(&unknown).is_none());
}

#[test]
fn get_all_posting_returns_all_accounts() {
    let (journal, _) = journal(vec![xact(
        d(2026, 1, 1),
        "test",
        &[("A", Some("10")), ("B", Some("20")), ("C", Some("-30"))],
    )]);
    let ledger = Ledger::from_journal(&journal);

    let mut names: Vec<String> = ledger
        .get_all_posting()
        .iter()
        .map(|(n, _)| n.as_str().to_string())
        .collect();
    names.sort();

    assert_eq!(names, vec!["A", "B", "C"]);
}

fn three_dates() -> (Journal, PriceDB) {
    journal(vec![
        xact(d(2026, 1, 1), "early", &[("A", Some("10")), ("B", Some("-10"))]),
        xact(d(2026, 6, 1), "mid", &[("A", Some("20")), ("B", Some("-20"))]),
        xact(d(2026, 12, 1), "late", &[("A", Some("30")), ("B", Some("-30"))]),
    ])
}

#[test]
fn filter_by_date_keeps_only_postings_in_range() {
    let (journal, _) = three_dates();
    let ledger = Ledger::from_journal(&journal);

    let filtered = ledger.filter_by_date(Some(d(2026, 3, 1)), Some(d(2026, 9, 1)));

    let acc_a = AccName::new("A");
    let postings = filtered.get_acc_postings(&acc_a).unwrap();
    // Only the mid posting (2026-06-01) is kept
    assert_eq!(postings.len(), 1);
    assert_eq!(postings[0].date, d(2026, 6, 1));
}

#[test]
fn filter_by_date_no_bounds_keeps_all() {
    let (journal, _) = journal(vec![
        xact(d(2026, 1, 1), "first", &[("A", Some("10")), ("B", Some("-10"))]),
        xact(d(2026, 12, 31), "last", &[("A", Some("20")), ("B", Some("-20"))]),
    ]);
    let ledger = Ledger::from_journal(&journal);

    let filtered = ledger.filter_by_date(None, None);
    let postings = filtered.get_acc_postings(&AccName::new("A")).unwrap();
    assert_eq!(postings.len(), 2);
}

#[test]
fn fill_from_xacts_multiple_transactions_same_account() {
    let (journal, _) = journal(vec![
        xact(d(2026, 1, 1), "first", &[("A", Some("10")), ("B", Some("-10"))]),
        xact(d(2026, 2, 1), "second", &[("A", Some("20")), ("B", Some("-20"))]),
    ]);
    let ledger = Ledger::from_journal(&journal);

    let postings = ledger.get_acc_postings(&AccName::new("A")).unwrap();
    // Both postings to account A are present
    assert_eq!(postings.len(), 2);
}

#[test]
fn account_name_returns_correct_name() {
    let (journal, _) = journal(vec![xact(
        d(2026, 1, 1),
        "test",
        &[("Assets:Cash", Some("100")), ("Income", Some("-100"))],
    )]);
    let ledger = Ledger::from_journal(&journal);
    let bal = Balance::from_ledger(&ledger, &Query::all());

    let cash_name = AccName::new("Assets:Cash");
    let account = bal.account(&cash_name).expect("Assets:Cash account not found");

    assert_eq!(account.name(), &cash_name);
}

#[test]
fn account_balance_returns_sum_of_postings() {
    let (journal, price_db) = journal(vec![
        xact(d(2026, 1, 1), "first", &[("Assets:Cash", Some("100")), ("Income", Some("-100"))]),
        xact(d(2026, 2, 1), "second", &[("Assets:Cash", Some("50")), ("Income", Some("-50"))]),
    ]);
    let ledger = Ledger::from_journal(&journal);
    let bal = Balance::from_ledger(&ledger, &Query::all());

    let account = bal.account(&AccName::new("Assets:Cash")).expect("Assets:Cash account not found");

    let total = account.balance(&price_db);
    let uprice = quantity("1", "$").to_amount();
    let expected = Holdings::from_lots(vec![Lot {
        qty: quantity("150", "$"),
        m_uprice: uprice.duplicate(),
        h_uprice: uprice.duplicate(),
        b_uprice: uprice,
    }]);
    assert!(total.same_as(&expected));
}

#[test]
fn account_to_hier_view_uses_today() {
    let (journal, price_db) = journal(vec![xact(
        d(2026, 1, 1),
        "test",
        &[("Assets:Cash", Some("200")), ("Income", Some("-200"))],
    )]);
    let ledger = Ledger::from_journal(&journal);
    let bal = Balance::from_ledger(&ledger, &Query::all());

    let account = bal.account(&AccName::new("Assets:Cash")).expect("Assets:Cash not found");

    let hier = account.to_hier_view(&price_db).unwrap();
    // The root of the hierarchy is "Assets"
    assert_eq!(hier.name(), &AccName::new("Assets"));
}

#[test]
fn test_balance() {
    let (journal, price_db) = journal(vec![xact(
        d(2026, 2, 19),
        "transaction 1",
        &[("A", Some("1")), ("A:B", Some("-1"))],
    )]);
    let ledger = Ledger::from_journal(&journal);

    let bal = Balance::from_ledger(&ledger, &Query::all());
    let total = bal.balance(&price_db);
    assert!(total.is_zero());

    let today = d(2026, 3, 1);
    let total = bal.balance_as_of(today, &price_db);
    assert!(total.is_zero());

    let balv = bal.to_balance_view_as_of(today, &price_db).unwrap();
    let total = balv.balance();
    assert!(total.at(&today).unwrap().is_zero());

    let flat = balv.to_flat().unwrap();
    let total = flat.balance();
    assert!(total.at(&today).unwrap().is_zero());
}

#[test]
fn query_keeps_matching_accounts() {
    let (journal, _) = journal(vec![xact(
        d(2026, 1, 1),
        "test",
        &[("Assets:Cash", Some("10")), ("Expenses:Food", Some("-10"))],
    )]);
    let ledger = Ledger::from_journal(&journal);
    let q = Query::new(vec!["^Assets".to_string()]).unwrap();
    let bal = Balance::from_ledger(&ledger, &q);
    assert_eq!(bal.accounts().len(), 1);
    assert_eq!(bal.accounts()[0].name(), &AccName::new("Assets:Cash"));
    assert!(q.is_match("Assets:Bank"));
    assert!(!q.is_match("Liabilities:Assets x"));
    assert!(Query::new(vec!["foo(bar".to_string()]).is_none());
}

#[test]
fn balance_accounts_come_in_name_order() {
    let (journal, _) = journal(vec![xact(
        d(2026, 1, 1),
        "test",
        &[("Zeta", Some("1")), ("Alpha", Some("2")), ("Mid", Some("-3"))],
    )]);
    let ledger = Ledger::from_journal(&journal);
    let bal = Balance::from_ledger(&ledger, &Query::all());
    let names: Vec<&str> = bal.accounts().iter().map(|a| a.name().as_str()).collect();
    assert_eq!(names, vec!["Alpha", "Mid", "Zeta"]);
    let x = &journal.xacts()[0];
    let bx = Balance::from_xact(x);
    let names: Vec<&str> = bx.accounts().iter().map(|a| a.name().as_str()).collect();
    assert_eq!(names, vec!["Alpha", "Mid", "Zeta"]);
}

#[test]
fn balance_view_at_dates_keeps_each_date() {
    let (journal, price_db) = journal(vec![
        xact(d(2026, 1, 1), "first", &[("Assets:Cash", Some("100")), ("Income", Some("-100"))]),
        xact(d(2026, 2, 1), "second", &[("Assets:Cash", Some("50")), ("Income", Some("-50"))]),
    ]);
    let ledger = Ledger::from_journal(&journal);
    let bal = Balance::from_ledger(&ledger, &Query::all());
    let dates = vec![d(2026, 1, 15), d(2026, 2, 15)];
    let bv = bal.to_balance_view_at_dates(&price_db, &dates).unwrap();
    let cash = bv.account(&AccName::new("Assets")).unwrap();
    let jan = cash.balance().at(&d(2026, 1, 15)).unwrap();
    let feb = cash.balance().at(&d(2026, 2, 15)).unwrap();
    assert_eq!(jan.quantities()[0].q, Dec::parse("100").unwrap());
    assert_eq!(feb.quantities()[0].q, Dec::parse("150").unwrap());
}
