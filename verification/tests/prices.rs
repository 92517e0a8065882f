use ledger::date::{Date, DateTime, Time};
use ledger::decimal::Dec;
use ledger::misc::to_datetime;
use ledger::parser::State;
use ledger::pricedb::MarketPrice;
use ledger::prices::{PriceDB, PriceType};
use ledger::quantity::Quantity;
use ledger::symbol::Symbol;
use ledger::journal::AccName;
use ledger::report::Valuation;
use ledger::xact::{Journal, LotPrice, ParsedPosting, ParsedXact, Posting, XactDate};

fn quantity(num: &str, sym: &str) -> Quantity {
    Quantity {
        q: Dec::parse(num).unwrap(),
        s: Symbol::new(sym),
    }
}

fn d(y: i32, m: u32, day: u32) -> Date {
    Date::from_ymd(y, m, day).unwrap()
}

fn dt(y: i32, m: u32, day: u32, h: u32) -> DateTime {
    DateTime {
        date: d(y, m, day),
        time: Time::from_hms(h, 0, 0).unwrap(),
    }
}

fn posting(state: State, account: &str, q: Option<Quantity>) -> ParsedPosting {
    ParsedPosting {
        state,
        account: account.to_string(),
        quantity: q,
        uprice: None,
        lot_uprice: None,
        lot_date: None,
        lot_note: String::new(),
        comment: String::new(),
        tags: Vec::new(),
        vtags: Vec::new(),
    }
}

#[test]
fn prices_test_price_db() {
    let mut db = PriceDB::new();
    let s1 = Symbol::new("USD");
    let s2 = Symbol::new("$");
    let at1 = to_datetime(d(2025, 1, 1));
    let at2 = to_datetime(d(2025, 2, 1));
    let at3 = to_datetime(d(2025, 3, 1));

    db.upsert_price(s1.clone(), at1, quantity("100.0", "USD"));
    db.upsert_price(s1.clone(), at2, quantity("105.0", "USD"));
    db.upsert_price(s1.clone(), at3, quantity("110.0", "USD"));
    db.upsert_price(s2.clone(), at1, quantity("1.0", "$"));
    db.upsert_price(s2.clone(), at2, quantity("1.05", "$"));

    assert_eq!(db.latest_price(s1.clone()), quantity("110.0", "USD"));
    assert_eq!(db.price_as_of(s1.clone(), at2), Some(quantity("105.0", "USD")));
    let t = d(2022, 12, 31);
    assert_eq!(db.price_as_of(s1.clone(), to_datetime(t)), None);
    assert_eq!(db.latest_price(s2.clone()), quantity("1.05", "$"));
    assert_eq!(db.price_as_of(s2.clone(), at1), Some(quantity("1.0", "$")));
}

#[test]
fn prices_test_from_journal() {
    // P 2025/07/25 LTM  $ 20.15
    // P 2025/08/09  12:00:00 LTM $ 21.10
    // 2004/05/11 * ( #1985 ) Checking balance
    //     ! Assets:Brokerage   -10 LTM {{$300.00}} [2025/08/29] @@ $200.00
    //     * Assets:Cash
    // P 2025/08/28 LTM  $ 23.69
    let mut brokerage = posting(State::Pending, "Assets:Brokerage", Some(quantity("-10", "LTM")));
    brokerage.uprice = Some(quantity("20.00", "$"));
    brokerage.lot_uprice = Some(LotPrice {
        price: quantity("30.00", "$"),
        ptype: PriceType::Floating,
    });
    brokerage.lot_date = Some(d(2025, 8, 29));
    let raw = ParsedXact {
        state: State::Cleared,
        code: "#1985".to_string(),
        date: XactDate {
            txdate: d(2004, 5, 11),
            efdate: None,
        },
        payee: "Checking balance".to_string(),
        comment: String::new(),
        tags: Vec::new(),
        vtags: Vec::new(),
        postings: vec![brokerage, posting(State::Cleared, "Assets:Cash", None)],
    };
    let xact = raw.into_xact().unwrap();
    let prices = vec![
        MarketPrice {
            date_time: to_datetime(d(2025, 7, 25)),
            sym: Symbol::new("LTM"),
            price: quantity("20.15", "$"),
        },
        MarketPrice {
            date_time: dt(2025, 8, 9, 12),
            sym: Symbol::new("LTM"),
            price: quantity("21.10", "$"),
        },
        MarketPrice {
            date_time: to_datetime(d(2025, 8, 28)),
            sym: Symbol::new("LTM"),
            price: quantity("23.69", "$"),
        },
    ];
    let journal = Journal::new(vec![xact], prices);
    let db = PriceDB::from_journal(&journal);

    let s = Symbol::new("LTM");
    let d1 = to_datetime(d(2025, 7, 25));
    let d2 = to_datetime(d(2025, 8, 9));
    let d3 = to_datetime(d(2025, 8, 28));
    let d4 = to_datetime(d(2025, 5, 11));

    assert_eq!(db.latest_price(s.clone()), quantity("23.69", "$"));
    assert_eq!(db.price_as_of(s.clone(), d1), Some(quantity("20.15", "$")));
    assert_eq!(db.price_as_of(s.clone(), d2), Some(quantity("20.15", "$")));
    assert_eq!(db.price_as_of(s.clone(), d3), Some(quantity("23.69", "$")));
    assert_eq!(db.price_as_of(s.clone(), d4), Some(quantity("20.00", "$")));
}

#[test]
fn upsert_replaces_the_price_at_the_same_instant() {
    let mut db = PriceDB::new();
    let s = Symbol::new("X");
    let at = dt(2025, 1, 1, 9);
    db.upsert_price(s.clone(), at, quantity("1", "$"));
    db.upsert_price(s.clone(), at, quantity("2", "$"));
    assert_eq!(db.price_as_of(s.clone(), at), Some(quantity("2", "$")));
    assert_eq!(db.latest_price(s.clone()), quantity("2", "$"));
}

#[test]
fn price_as_of_reads_back_what_was_written() {
    let mut db = PriceDB::new();
    let s = Symbol::new("X");
    db.upsert_price(s.clone(), dt(2025, 3, 1, 0), quantity("3", "$"));
    db.upsert_price(s.clone(), dt(2025, 1, 1, 0), quantity("1", "$"));
    db.upsert_price(Symbol::new("Y"), dt(2025, 2, 1, 0), quantity("7", "$"));
    assert_eq!(db.price_as_of(s.clone(), dt(2025, 1, 1, 0)), Some(quantity("1", "$")));
    assert_eq!(db.price_as_of(s.clone(), dt(2025, 2, 15, 0)), Some(quantity("1", "$")));
    assert_eq!(db.price_as_of(s.clone(), dt(2025, 3, 1, 0)), Some(quantity("3", "$")));
    assert_eq!(db.price_as_of(s.clone(), dt(2024, 12, 31, 23)), None);
    assert_eq!(db.latest_price(s.clone()), quantity("3", "$"));
    assert_eq!(db.price_as_of(Symbol::new("Z"), dt(2030, 1, 1, 0)), None);
}

#[test]
fn time_of_day_orders_prices_of_one_day() {
    let mut db = PriceDB::new();
    let s = Symbol::new("X");
    db.upsert_price(s.clone(), dt(2025, 3, 1, 12), quantity("2", "$"));
    db.upsert_price(s.clone(), dt(2025, 3, 1, 0), quantity("1", "$"));
    assert_eq!(db.price_as_of(s.clone(), dt(2025, 3, 1, 11)), Some(quantity("1", "$")));
    assert_eq!(db.price_as_of(s.clone(), dt(2025, 3, 1, 12)), Some(quantity("2", "$")));
}

#[test]
fn pricedb_test_price_db() {
    let mut db = PriceDB::new();
    let s1 = Symbol::new("USD");
    let s2 = Symbol::new("$");
    let at1 = to_datetime(d(2025, 1, 1));
    let at2 = to_datetime(d(2025, 2, 1));
    let at3 = to_datetime(d(2025, 3, 1));

    db.upsert_price(s1.clone(), at1, quantity("100.0", "USD"));
    db.upsert_price(s1.clone(), at2, quantity("105.0", "USD"));
    db.upsert_price(s1.clone(), at3, quantity("110.0", "USD"));
    db.upsert_price(s2.clone(), at1, quantity("1.0", "$"));
    db.upsert_price(s2.clone(), at2, quantity("1.05", "$"));

    assert_eq!(db.latest_price(s1.clone()), quantity("110.0", "USD"));
    assert_eq!(db.price_as_of(s1.clone(), at2), Some(quantity("105.0", "USD")));
    let t = d(2022, 12, 31);
    assert_eq!(db.price_as_of(s1.clone(), to_datetime(t)), None);
    assert_eq!(db.latest_price(s2.clone()), quantity("1.05", "$"));
    assert_eq!(db.price_as_of(s2.clone(), at1), Some(quantity("1.0", "$")));
}

#[test]
fn pricedb_test_from_journal() {
    // P 2025/07/25 LTM  $ 20.15
    // P 2025/08/09  12:00:00 LTM $ 21.10
    // 2004/05/11 * ( #1985 ) Checking balance
    //     ! Assets:Brokerage   -10 LTM {{$300.00}} [2025/08/29] @@ $200.00
    //     * Assets:Cash
    // P 2025/08/28 LTM  $ 23.69
    let mut brokerage = posting(State::Pending, "Assets:Brokerage", Some(quantity("-10", "LTM")));
    brokerage.uprice = Some(quantity("20.00", "$"));
    brokerage.lot_uprice = Some(LotPrice {
        price: quantity("30.00", "$"),
        ptype: PriceType::Floating,
    });
    brokerage.lot_date = Some(d(2025, 8, 29));
    let raw = ParsedXact {
        state: State::Cleared,
        code: "#1985".to_string(),
        date: XactDate {
            txdate: d(2004, 5, 11),
            efdate: None,
        },
        payee: "Checking balance".to_string(),
        comment: String::new(),
        tags: Vec::new(),
        vtags: Vec::new(),
        postings: vec![brokerage, posting(State::Cleared, "Assets:Cash", None)],
    };
    let xact = raw.into_xact().unwrap();
    let prices = vec![
        MarketPrice {
            date_time: to_datetime(d(2025, 7, 25)),
            sym: Symbol::new("LTM"),
            price: quantity("20.15", "$"),
        },
        MarketPrice {
            date_time: dt(2025, 8, 9, 12),
            sym: Symbol::new("LTM"),
            price: quantity("21.10", "$"),
        },
        MarketPrice {
            date_time: to_datetime(d(2025, 8, 28)),
            sym: Symbol::new("LTM"),
            price: quantity("23.69", "$"),
        },
    ];
    let journal = Journal::new(vec![xact], prices);
    let db = PriceDB::from_journal(&journal);

    let s = Symbol::new("LTM");
    let d1 = to_datetime(d(2025, 7, 25));
    let d2 = to_datetime(d(2025, 8, 9));
    let d3 = to_datetime(d(2025, 8, 28));
    let d4 = to_datetime(d(2025, 5, 11));

    assert_eq!(db.latest_price(s.clone()), quantity("23.69", "$"));
    assert_eq!(db.price_as_of(s.clone(), d1), Some(quantity("20.15", "$")));
    assert_eq!(db.price_as_of(s.clone(), d2), Some(quantity("20.15", "$")));
    assert_eq!(db.price_as_of(s.clone(), d3), Some(quantity("23.69", "$")));
    assert_eq!(db.price_as_of(s.clone(), d4), Some(quantity("20.00", "$")));
}

#[test]
fn price_lines_give_prices_and_errors() {
    let lines: Vec<String> = vec![
        "P 2025/01/01 USD $ 1.10".to_string(),
        "   ".to_string(),
        "X 2025/01/02 USD $ 1.20".to_string(),
        "P 2025/02/01 USD $ 1.30".to_string(),
    ];
    let (prices, errors) = ledger::pricedb::parse_price_lines(&lines);
    assert_eq!(prices.len(), 2);
    assert_eq!(errors, vec![(2, Some(ledger::pricedb::ParseError::ExpectedP))]);
    let mut db = PriceDB::new();
    db.upsert_market_prices(&prices);
    let usd = Symbol::new("USD");
    assert_eq!(db.price_as_of(usd.clone(), dt(2025, 1, 15, 0)), Some(quantity("1.10", "$")));
    assert_eq!(db.latest_price(usd), quantity("1.30", "$"));
}

fn held(sym: &str, qty: &str, on: Date, basis: &str) -> Posting {
    Posting {
        date: on,
        state: State::Unmarked,
        acc_name: AccName::new("Assets:Broker"),
        quantity: quantity(qty, sym),
        uprice: quantity(basis, "$"),
        lot_uprice: LotPrice {
            price: quantity(basis, "$"),
            ptype: PriceType::Static,
        },
        lot_date: None,
        lot_note: String::new(),
        comment: String::new(),
        tags: Vec::new(),
        vtags: Vec::new(),
    }
}

#[test]
fn value_checked_values_under_each_valuation() {
    let mut db = PriceDB::new();
    let aapl = Symbol::new("AAPL");
    db.upsert_price(aapl.clone(), to_datetime(d(2025, 1, 1)), quantity("120", "$"));
    db.upsert_price(aapl.clone(), to_datetime(d(2025, 3, 1)), quantity("150", "$"));
    let p = held("AAPL", "10", d(2025, 2, 1), "100");

    let q = p.value_checked(Valuation::Quantity, &db).unwrap();
    assert!(q.q.eq_value(&Dec::parse("10").unwrap()));
    assert_eq!(q.s, aapl);
    let b = p.value_checked(Valuation::Basis, &db).unwrap();
    assert!(b.q.eq_value(&Dec::parse("1000").unwrap()));
    assert_eq!(b.s, Symbol::new("$"));
    let m = p.value_checked(Valuation::Market, &db).unwrap();
    assert!(m.q.eq_value(&Dec::parse("1500").unwrap()));
    let h = p.value_checked(Valuation::Historical, &db).unwrap();
    assert!(h.q.eq_value(&Dec::parse("1200").unwrap()));
    assert_eq!(p.value(Valuation::Market, &db), m);
}

#[test]
fn value_checked_without_a_price_gives_none() {
    let mut db = PriceDB::new();
    db.upsert_price(Symbol::new("AAPL"), to_datetime(d(2025, 3, 1)), quantity("150", "$"));
    assert!(db.has_price(&Symbol::new("AAPL")));
    assert!(!db.has_price(&Symbol::new("MSFT")));
    let msft = held("MSFT", "10", d(2025, 2, 1), "100");
    assert_eq!(msft.value_checked(Valuation::Market, &db), None);
    assert_eq!(msft.value_checked(Valuation::Historical, &db), None);
    let early = held("AAPL", "10", d(2025, 2, 1), "100");
    assert_eq!(early.value_checked(Valuation::Historical, &db), None);
    assert!(early.value_checked(Valuation::Market, &db).is_some());
}
