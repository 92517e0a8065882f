use ledger::date::Date;
use ledger::decimal::Dec;
use ledger::journal::AccName;
use ledger::misc::to_datetime;
use ledger::parser::{parse_comment, ParseError, State};
use ledger::pricedb::MarketPrice;
use ledger::prices::PriceType;
use ledger::quantity::Quantity;
use ledger::symbol::{Symbol, Tag};
use ledger::prices::PriceBasis;
use ledger::xact::{
    fill_inferred_prices, guess_primary, one_or_many, one_or_many_checked, parse_posting_parts,
    Journal, LotPrice, Lots, ParsedPosting, ParsedXact, Posting, PriceClause, Xact, XactDate,
};

fn quantity(num: &str, sym: &str) -> Quantity {
    Quantity {
        q: Dec::parse(num).unwrap(),
        s: Symbol::new(sym),
    }
}

fn d(y: i32, m: u32, day: u32) -> Date {
    Date::from_ymd(y, m, day).unwrap()
}

fn lot(num: &str, sym: &str) -> LotPrice {
    LotPrice {
        price: quantity(num, sym),
        ptype: PriceType::Floating,
    }
}

fn posting(state: State, account: &str, q: Option<Quantity>) -> ParsedPosting {
    ParsedPosting {
        state,
        account: account.to_string(),
        quantity: q,
        uprice: None,
        lot_uprice: None,
        lot_date: None,
        lot_note: String::new(),
        comment: String::new(),
        tags: Vec::new(),
        vtags: Vec::new(),
    }
}

fn xact(state: State, code: &str, date: Date, payee: &str, postings: Vec<ParsedPosting>) -> ParsedXact {
    ParsedXact {
        state,
        code: code.to_string(),
        date: XactDate {
            txdate: date,
            efdate: None,
        },
        payee: payee.to_string(),
        comment: String::new(),
        tags: Vec::new(),
        vtags: Vec::new(),
        postings,
    }
}

fn check_posting(
    p: &Posting,
    date: Date,
    state: State,
    acc: &str,
    q: Quantity,
    uprice: Quantity,
    lot_uprice: LotPrice,
) {
    assert_eq!(p.date, date);
    assert_eq!(p.state, state);
    assert_eq!(p.acc_name, AccName::new(acc));
    assert_eq!(p.quantity, q);
    assert_eq!(p.uprice, uprice);
    assert_eq!(p.lot_uprice, lot_uprice);
}

/// 2004/05/11 * Checking balance  ; :XTag:
///     Assets:Bank:Checking              $1,000.00  ; :Tag1: Tag2: Value one
///     Assets:Brokerage                     50 LTM @ $30.00
///     Assets:Brokerage                     40 LTM {$30.00}
///     Assets:Brokerage                     10 LTM {$30.00} @ $20.00
///     Equity:Opening Balances
fn checking_balance() -> ParsedXact {
    let mut checking = posting(State::Unmarked, "Assets:Bank:Checking", Some(quantity("1000.00", "$")));
    checking.comment = ":Tag1: Tag2: Value one".to_string();
    checking.tags = vec![Tag::new("Tag1")];
    checking.vtags = vec![(Tag::new("Tag2"), "Value one".to_string())];
    let mut b1 = posting(State::Unmarked, "Assets:Brokerage", Some(quantity("50", "LTM")));
    b1.uprice = Some(quantity("30.00", "$"));
    let mut b2 = posting(State::Unmarked, "Assets:Brokerage", Some(quantity("40", "LTM")));
    b2.lot_uprice = Some(lot("30.00", "$"));
    let mut b3 = posting(State::Unmarked, "Assets:Brokerage", Some(quantity("10", "LTM")));
    b3.uprice = Some(quantity("20.00", "$"));
    b3.lot_uprice = Some(lot("30.00", "$"));
    let mut x = xact(
        State::Cleared,
        "",
        d(2004, 5, 11),
        "Checking balance",
        vec![
            checking,
            b1,
            b2,
            b3,
            posting(State::Unmarked, "Equity:Opening Balances", None),
        ],
    );
    x.comment = ":XTag:".to_string();
    x.tags = vec![Tag::new("XTag")];
    x
}

#[test]
fn parser_test_parse_xact() {
    let x = checking_balance().into_xact().unwrap();
    let day = d(2004, 5, 11);
    assert_eq!(x.state, State::Cleared);
    assert_eq!(x.code, "");
    assert_eq!(x.date, XactDate { txdate: day, efdate: None });
    assert_eq!(x.payee, "Checking balance");
    assert_eq!(x.comment, ":XTag:");
    assert_eq!(x.tags, vec![Tag::new("XTag")]);
    assert!(x.vtags.is_empty());
    assert_eq!(x.postings.len(), 5);
    let ps = &x.postings;
    check_posting(&ps[0], day, State::Unmarked, "Assets:Bank:Checking", quantity("1000.00", "$"), quantity("1", "$"), lot("1", "$"));
    assert_eq!(ps[0].comment, ":Tag1: Tag2: Value one");
    assert_eq!(ps[0].tags, vec![Tag::new("Tag1")]);
    assert_eq!(ps[0].vtags, vec![(Tag::new("Tag2"), "Value one".to_string())]);
    check_posting(&ps[1], day, State::Unmarked, "Assets:Brokerage", quantity("50", "LTM"), quantity("30.00", "$"), lot("30.00", "$"));
    check_posting(&ps[2], day, State::Unmarked, "Assets:Brokerage", quantity("40", "LTM"), quantity("30.00", "$"), lot("30.00", "$"));
    check_posting(&ps[3], day, State::Unmarked, "Assets:Brokerage", quantity("10", "LTM"), quantity("20.00", "$"), lot("30.00", "$"));
    check_posting(&ps[4], day, State::Unmarked, "Equity:Opening Balances", quantity("-4000.00", "$"), quantity("1", "$"), lot("1", "$"));
    assert_eq!(ps[4].lot_date, None);
    assert_eq!(ps[4].comment, "");
}

#[test]
fn parser_test_parse_xact2() {
    let mut b = posting(State::Pending, "Assets:Brokerage", Some(quantity("10", "LTM")));
    b.uprice = Some(quantity("20.00", "$"));
    b.lot_uprice = Some(lot("30.00", "$"));
    b.lot_date = Some(d(2025, 8, 29));
    let mut raw = xact(
        State::Cleared,
        "#1985",
        d(2004, 5, 11),
        "Checking balance",
        vec![b, posting(State::Cleared, "Assets:Checking", None)],
    );
    raw.comment = "TagVal: Suma was great, but ma was blind".to_string();
    raw.vtags = vec![(Tag::new("TagVal"), "Suma was great, but ma was blind".to_string())];
    let x = raw.into_xact().unwrap();
    let day = d(2004, 5, 11);
    assert_eq!(x.code, "#1985");
    assert_eq!(x.vtags, vec![(Tag::new("TagVal"), "Suma was great, but ma was blind".to_string())]);
    assert_eq!(x.postings.len(), 2);
    check_posting(&x.postings[0], day, State::Pending, "Assets:Brokerage", quantity("10", "LTM"), quantity("20.00", "$"), lot("30.00", "$"));
    assert_eq!(x.postings[0].lot_date, Some(d(2025, 8, 29)));
    check_posting(&x.postings[1], day, State::Cleared, "Assets:Checking", quantity("-300", "$"), quantity("1", "$"), lot("1", "$"));
    assert_eq!(x.postings[1].lot_date, None);
}

#[test]
fn parser_test_parse_xact3() {
    let mut b = posting(State::Pending, "Assets:Brokerage", Some(quantity("10", "LTM")));
    b.uprice = Some(quantity("20.00", "$"));
    b.lot_uprice = Some(lot("30.00", "$"));
    b.lot_date = Some(d(2025, 8, 29));
    let mut cash = posting(State::Cleared, "Assets:Cash", None);
    cash.comment = ":SuTag:MaTag:".to_string();
    cash.tags = vec![Tag::new("SuTag"), Tag::new("MaTag")];
    let raw = xact(State::Cleared, "#1985", d(2004, 5, 11), "Checking balance", vec![b, cash]);
    let x = raw.into_xact().unwrap();
    let day = d(2004, 5, 11);
    assert_eq!(x.postings.len(), 2);
    check_posting(&x.postings[0], day, State::Pending, "Assets:Brokerage", quantity("10", "LTM"), quantity("20.00", "$"), lot("30.00", "$"));
    check_posting(&x.postings[1], day, State::Cleared, "Assets:Cash", quantity("-300", "$"), quantity("1", "$"), lot("1", "$"));
    assert_eq!(x.postings[1].comment, ":SuTag:MaTag:");
    assert_eq!(x.postings[1].tags, vec![Tag::new("SuTag"), Tag::new("MaTag")]);
}

#[test]
fn parser_test_parse_xact4() {
    let mut b = posting(State::Pending, "Assets:Brokerage", Some(quantity("-10", "LTM")));
    b.uprice = Some(quantity("20.00", "$"));
    b.lot_uprice = Some(lot("30.00", "$"));
    b.lot_date = Some(d(2025, 8, 29));
    let raw = xact(
        State::Cleared,
        "#1985",
        d(2004, 5, 11),
        "Checking balance",
        vec![b, posting(State::Cleared, "Assets:Cash", None)],
    );
    let x = raw.into_xact().unwrap();
    let day = d(2004, 5, 11);
    check_posting(&x.postings[0], day, State::Pending, "Assets:Brokerage", quantity("-10", "LTM"), quantity("20.00", "$"), lot("30.00", "$"));
    check_posting(&x.postings[1], day, State::Cleared, "Assets:Cash", quantity("300", "$"), quantity("1", "$"), lot("1", "$"));
}

#[test]
fn test_parse_xact5() {
    let raw = xact(
        State::Cleared,
        "",
        d(2004, 5, 11),
        "Checking balance",
        vec![
            posting(State::Unmarked, "Assets:Brokerage", Some(quantity("1", "X"))),
            posting(State::Unmarked, "Assets:Checking", Some(quantity("-1", "Y"))),
        ],
    );
    let x = raw.into_xact().unwrap();
    let day = d(2004, 5, 11);
    // Y is the primary commodity
    check_posting(&x.postings[0], day, State::Unmarked, "Assets:Brokerage", quantity("1", "X"), quantity("1", "Y"), lot("1", "Y"));
    check_posting(&x.postings[1], day, State::Unmarked, "Assets:Checking", quantity("-1", "Y"), quantity("1", "Y"), lot("1", "Y"));
}

#[test]
fn test_parse_xact6() {
    let raw = xact(
        State::Cleared,
        "",
        d(2004, 5, 11),
        "Checking balance",
        vec![
            posting(State::Unmarked, "Assets:Brokerage", Some(quantity("1", "X"))),
            posting(State::Unmarked, "Assets:Checking", Some(quantity("1", "Y"))),
        ],
    );
    assert!(matches!(raw.into_xact(), Err(ParseError::XactNoBalanced)));
}

#[test]
fn test_parse_xact7() {
    let raw = xact(
        State::Cleared,
        "",
        d(2004, 5, 11),
        "Checking balance",
        vec![
            posting(State::Unmarked, "Assets:Brokerage", Some(quantity("1", "X"))),
            posting(State::Unmarked, "Assets:Checking", Some(quantity("1", "X"))),
        ],
    );
    assert!(matches!(raw.into_xact(), Err(ParseError::XactNoBalanced)));
}

#[test]
fn two_postings_without_amount_are_refused() {
    let raw = xact(
        State::Unmarked,
        "",
        d(2025, 1, 1),
        "t",
        vec![
            posting(State::Unmarked, "A", Some(quantity("1", "$"))),
            posting(State::Unmarked, "B", None),
            posting(State::Unmarked, "C", None),
        ],
    );
    assert_eq!(raw.neliding_amount(), 2);
    assert!(matches!(raw.into_xact(), Err(ParseError::ElidingAmount(2))));
}

#[test]
fn three_commodities_without_eliding_are_refused() {
    let raw = xact(
        State::Unmarked,
        "",
        d(2025, 1, 1),
        "t",
        vec![
            posting(State::Unmarked, "A", Some(quantity("1", "$"))),
            posting(State::Unmarked, "B", Some(quantity("-1", "X"))),
            posting(State::Unmarked, "C", Some(quantity("1", "Y"))),
        ],
    );
    assert!(matches!(raw.into_xact(), Err(ParseError::XactNoBalanced)));
}

#[test]
fn balanced_postings_settle_without_eliding() {
    let raw = xact(
        State::Unmarked,
        "",
        d(2025, 1, 1),
        "t",
        vec![
            posting(State::Unmarked, "A", Some(quantity("1.50", "$"))),
            posting(State::Unmarked, "B", Some(quantity("-1.5", "$"))),
        ],
    );
    let x = raw.into_xact().unwrap();
    assert_eq!(x.postings.len(), 2);
    assert_eq!(x.postings[1].quantity, quantity("-1.5", "$"));
}

/// Two commodities make the balance a conversion: the postings in the
/// commodity of the first posting (`$`, secondary) are priced in the
/// other one.
#[test]
fn eliding_posting_takes_one_posting_per_commodity() {
    let raw = xact(
        State::Unmarked,
        "",
        d(2025, 1, 1),
        "t",
        vec![
            posting(State::Unmarked, "A", Some(quantity("5", "$"))),
            posting(State::Unmarked, "Rest", None),
            posting(State::Unmarked, "B", Some(quantity("2", "EUR"))),
        ],
    );
    let x = raw.into_xact().unwrap();
    let day = d(2025, 1, 1);
    assert_eq!(x.postings.len(), 4);
    check_posting(&x.postings[0], day, State::Unmarked, "A", quantity("5", "$"), quantity("0.40", "EUR"), lot("0.40", "EUR"));
    check_posting(&x.postings[1], day, State::Unmarked, "B", quantity("2", "EUR"), quantity("1", "EUR"), lot("1", "EUR"));
    check_posting(&x.postings[2], day, State::Unmarked, "Rest", quantity("-5", "$"), quantity("0.40", "EUR"), lot("0.40", "EUR"));
    check_posting(&x.postings[3], day, State::Unmarked, "Rest", quantity("-2", "EUR"), quantity("1", "EUR"), lot("1", "EUR"));
}

#[test]
fn eliding_posting_absent_when_balanced() {
    let raw = xact(
        State::Unmarked,
        "",
        d(2025, 1, 1),
        "t",
        vec![
            posting(State::Unmarked, "A", Some(quantity("5", "$"))),
            posting(State::Unmarked, "B", Some(quantity("-5", "$"))),
            posting(State::Unmarked, "Rest", None),
        ],
    );
    let x = raw.into_xact().unwrap();
    assert_eq!(x.postings.len(), 2);
}

#[test]
fn lot_price_alone_also_prices_the_unit() {
    let mut b = posting(State::Unmarked, "A", Some(quantity("2", "X")));
    b.lot_uprice = Some(LotPrice {
        price: quantity("7", "$"),
        ptype: PriceType::Static,
    });
    let raw = xact(State::Unmarked, "", d(2025, 1, 1), "t", vec![b, posting(State::Unmarked, "B", None)]);
    let x = raw.into_xact().unwrap();
    assert_eq!(x.postings[0].uprice, quantity("7", "$"));
    assert_eq!(x.postings[0].lot_uprice.ptype, PriceType::Static);
    assert_eq!(x.postings[1].quantity, quantity("-14", "$"));
}

#[test]
fn maybe_remove_eliding_takes_the_first() {
    let mut raw = xact(
        State::Unmarked,
        "",
        d(2025, 1, 1),
        "t",
        vec![
            posting(State::Unmarked, "A", Some(quantity("5", "$"))),
            posting(State::Unmarked, "B", None),
            posting(State::Unmarked, "C", None),
        ],
    );
    let el = raw.maybe_remove_eliding().unwrap();
    assert_eq!(el.account, "B");
    assert_eq!(raw.postings.len(), 2);
    assert_eq!(raw.postings[1].account, "C");
    let el = raw.maybe_remove_eliding().unwrap();
    assert_eq!(el.account, "C");
    assert!(raw.maybe_remove_eliding().is_none());
}

#[test]
fn into_posting_defaults_to_one_unit() {
    let p = posting(State::Pending, "A", Some(quantity("-3.5", "EUR")));
    let out = p.into_posting(d(2020, 2, 29));
    check_posting(&out, d(2020, 2, 29), State::Pending, "A", quantity("-3.5", "EUR"), quantity("1", "EUR"), lot("1", "EUR"));
}

#[test]
fn into_posting_unit_price_stands_for_the_lot_price() {
    let mut p = posting(State::Unmarked, "A", Some(quantity("3", "X")));
    p.uprice = Some(quantity("2", "$"));
    let out = p.into_posting(d(2020, 1, 1));
    assert_eq!(out.uprice, quantity("2", "$"));
    assert_eq!(out.lot_uprice, lot("2", "$"));
}

#[test]
fn guess_and_fill_in_a_conversion() {
    let raw = xact(
        State::Unmarked,
        "",
        d(2025, 1, 1),
        "t",
        vec![
            posting(State::Unmarked, "A", Some(quantity("2", "X"))),
            posting(State::Unmarked, "B", Some(quantity("-10", "$"))),
        ],
    );
    let ps: Vec<Posting> = raw.postings.into_iter().map(|p| p.into_posting(d(2025, 1, 1))).collect();
    let (pri, sec) = guess_primary(&ps, &quantity("2", "X"), &quantity("-10", "$")).unwrap();
    assert_eq!(pri, quantity("-10", "$"));
    assert_eq!(sec, quantity("2", "X"));
    let filled = fill_inferred_prices(ps, &pri, &sec).unwrap();
    assert_eq!(filled[0].uprice, quantity("5", "$"));
    assert_eq!(filled[0].lot_uprice, lot("5", "$"));
    assert_eq!(filled[1].uprice, quantity("1", "$"));
}

#[test]
fn guess_primary_finds_nothing_without_a_hint() {
    let raw = xact(
        State::Unmarked,
        "",
        d(2025, 1, 1),
        "t",
        vec![posting(State::Unmarked, "A", Some(quantity("2", "Z")))],
    );
    let ps: Vec<Posting> = raw.postings.into_iter().map(|p| p.into_posting(d(2025, 1, 1))).collect();
    assert!(guess_primary(&ps, &quantity("2", "X"), &quantity("-10", "$")).is_none());
}

#[test]
fn one_or_many_single_object_and_list_agree() {
    let one = || {
        xact(
            State::Cleared,
            "",
            d(2012, 3, 1),
            "X",
            vec![
                posting(State::Unmarked, "A", Some(quantity("1", "$"))),
                posting(State::Unmarked, "B", None),
            ],
        )
    };
    let single: Vec<Xact> = one_or_many(|| Ok(one()), || -> Result<Vec<ParsedXact>, String> { panic!("the list decoder is not called") }).unwrap();
    let list: Vec<Xact> = one_or_many(|| Err("not one".to_string()), || Ok(vec![one()])).unwrap();
    assert_eq!(single.len(), 1);
    assert_eq!(list.len(), 1);
    for xs in [&single, &list] {
        assert_eq!(xs[0].payee, "X");
        assert_eq!(xs[0].postings.len(), 2);
        assert_eq!(xs[0].postings[1].quantity, quantity("-1", "$"));
    }
}

#[test]
fn one_or_many_reports_the_first_error() {
    let good = xact(
        State::Cleared,
        "",
        d(2012, 3, 1),
        "X",
        vec![
            posting(State::Unmarked, "A", Some(quantity("1", "$"))),
            posting(State::Unmarked, "B", None),
        ],
    );
    let bad = xact(
        State::Cleared,
        "",
        d(2012, 3, 2),
        "Y",
        vec![posting(State::Unmarked, "A", Some(quantity("1", "$")))],
    );
    let r = one_or_many(|| Err("e".to_string()), move || Ok(vec![good, bad]));
    assert!(matches!(r, Err(ParseError::XactNoBalanced)));
    let r = one_or_many(|| -> Result<ParsedXact, String> { Err("first".to_string()) }, || -> Result<Vec<ParsedXact>, String> { Err("second".to_string()) });
    match r {
        Err(ParseError::Deser(msg)) => assert_eq!(msg, "first"),
        _ => panic!("expected a decoding error"),
    }
}

#[test]
fn one_or_many_checked_reports_overflow() {
    let max = "79228162514264337593543950335";
    let big = xact(
        State::Cleared,
        "",
        d(2012, 3, 1),
        "X",
        vec![
            posting(State::Unmarked, "A", Some(quantity(max, "$"))),
            posting(State::Unmarked, "B", Some(quantity(max, "$"))),
            posting(State::Unmarked, "C", None),
        ],
    );
    assert!(one_or_many_checked(move || Ok(big), || Err(String::new())).is_none());
}

#[test]
fn comment_lines_give_tags_and_value_tags() {
    let lines = vec![
        ":Init:".to_string(),
        "memo: latte".to_string(),
        "memo: espresso :Coffee:".to_string(),
    ];
    let (text, tags, vtags) = parse_comment(&lines);
    assert_eq!(text, ":Init:\nmemo: latte\nmemo: espresso :Coffee:");
    assert_eq!(tags, vec![Tag::new("Init"), Tag::new("Coffee")]);
    assert_eq!(vtags, vec![(Tag::new("memo"), "espresso :Coffee:".to_string())]);
}

#[test]
fn comment_of_no_lines_is_empty() {
    let (text, tags, vtags) = parse_comment(&Vec::new());
    assert_eq!(text, "");
    assert!(tags.is_empty());
    assert!(vtags.is_empty());
}

fn simple(date: Date, payee: &str, amount: &str) -> Xact {
    xact(
        State::Unmarked,
        "",
        date,
        payee,
        vec![
            posting(State::Unmarked, "A", Some(quantity(amount, "$"))),
            posting(State::Unmarked, "B", None),
        ],
    )
    .into_xact()
    .unwrap()
}

fn three_months() -> Journal {
    Journal::new(
        vec![
            simple(d(2025, 1, 1), "first", "100"),
            simple(d(2025, 2, 1), "second", "200"),
            simple(d(2025, 3, 1), "third", "300"),
        ],
        Vec::new(),
    )
}

fn payees(xs: &[Xact]) -> Vec<&str> {
    xs.iter().map(|x| x.payee.as_str()).collect()
}

#[test]
fn filter_by_date_from_only() {
    let filtered = three_months().filter_by_date(Some(d(2025, 2, 1)), None);
    assert_eq!(payees(filtered.xacts()), vec!["second", "third"]);
}

#[test]
fn filter_by_date_to_only() {
    let filtered = three_months().filter_by_date(None, Some(d(2025, 2, 1)));
    assert_eq!(payees(filtered.xacts()), vec!["first", "second"]);
}

#[test]
fn filter_by_date_from_and_to() {
    let filtered = three_months().filter_by_date(Some(d(2025, 1, 15)), Some(d(2025, 2, 15)));
    assert_eq!(payees(filtered.xacts()), vec!["second"]);
}

#[test]
fn filter_by_date_none_none_returns_all() {
    let j = Journal::new(
        vec![simple(d(2025, 1, 1), "first", "100"), simple(d(2025, 2, 1), "second", "200")],
        Vec::new(),
    );
    let filtered = j.filter_by_date(None, None);
    assert_eq!(payees(filtered.xacts()), vec!["first", "second"]);
}

#[test]
fn filter_by_date_filters_market_prices_too() {
    let mp = |m: u32, p: &str| MarketPrice {
        date_time: to_datetime(d(2025, m, 1)),
        sym: Symbol::new("LTM"),
        price: quantity(p, "$"),
    };
    let j = Journal::new(
        vec![simple(d(2025, 1, 1), "dummy", "100")],
        vec![mp(1, "10.00"), mp(3, "20.00"), mp(5, "30.00")],
    );
    let filtered = j.filter_by_date(Some(d(2025, 2, 1)), Some(d(2025, 4, 1)));
    let prices = filtered.market_prices();
    assert_eq!(prices.len(), 1);
    assert_eq!(prices[0].price, quantity("20.00", "$"));
}

#[test]
fn xacts_head_returns_first_n() {
    let j = three_months();
    assert_eq!(payees(j.xacts_head(2)), vec!["first", "second"]);
}

#[test]
fn xacts_head_more_than_total_returns_all() {
    let j = Journal::new(
        vec![simple(d(2025, 1, 1), "first", "100"), simple(d(2025, 2, 1), "second", "200")],
        Vec::new(),
    );
    assert_eq!(payees(j.xacts_head(10)), vec!["first", "second"]);
}

#[test]
fn xacts_head_zero_returns_none() {
    let j = Journal::new(vec![simple(d(2025, 1, 1), "first", "100")], Vec::new());
    assert!(j.xacts_head(0).is_empty());
}

#[test]
fn xacts_tail_returns_last_n() {
    let j = three_months();
    assert_eq!(payees(j.xacts_tail(2)), vec!["second", "third"]);
}

#[test]
fn xacts_tail_more_than_total_returns_all() {
    let j = Journal::new(
        vec![simple(d(2025, 1, 1), "first", "100"), simple(d(2025, 2, 1), "second", "200")],
        Vec::new(),
    );
    assert_eq!(payees(j.xacts_tail(10)), vec!["first", "second"]);
}

#[test]
fn xacts_tail_zero_returns_none() {
    let j = Journal::new(vec![simple(d(2025, 1, 1), "first", "100")], Vec::new());
    assert!(j.xacts_tail(0).is_empty());
}

#[test]
fn xacts_tail_preserves_order() {
    let j = Journal::new(
        vec![
            simple(d(2025, 1, 1), "alpha", "1"),
            simple(d(2025, 2, 1), "beta", "2"),
            simple(d(2025, 3, 1), "gamma", "3"),
            simple(d(2025, 4, 1), "delta", "4"),
        ],
        Vec::new(),
    );
    assert_eq!(payees(j.xacts_tail(3)), vec!["beta", "gamma", "delta"]);
    assert_eq!(j.nxact(), 4);
}

fn no_lots() -> Lots {
    Lots {
        price: None,
        price_type: None,
        price_basis: None,
        date: None,
        note: String::new(),
    }
}

#[test]
fn posting_parts_total_prices_are_divided_by_the_amount() {
    // ! Assets:Brokerage   -10 LTM {{$300.00}} [2025/08/29] @@ $200.00
    let lots = Lots {
        price: Some(quantity("300.00", "$")),
        price_type: Some(PriceType::Floating),
        price_basis: Some(PriceBasis::Total),
        date: Some(d(2025, 8, 29)),
        note: String::new(),
    };
    let p = parse_posting_parts(
        State::Pending,
        "Assets:Brokerage".to_string(),
        Some(quantity("-10", "LTM")),
        Some(PriceClause::Total(quantity("200.00", "$"))),
        lots,
        &Vec::new(),
    )
    .unwrap();
    assert_eq!(p.uprice, Some(quantity("20.00", "$")));
    assert_eq!(p.lot_uprice, Some(lot("30.00", "$")));
    assert_eq!(p.lot_date, Some(d(2025, 8, 29)));
    assert_eq!(p.quantity, Some(quantity("-10", "LTM")));
}

#[test]
fn posting_parts_unit_prices_are_kept() {
    let lots = Lots {
        price: Some(quantity("30.00", "$")),
        price_type: Some(PriceType::Static),
        price_basis: Some(PriceBasis::PerUnit),
        date: None,
        note: "gift".to_string(),
    };
    let p = parse_posting_parts(
        State::Unmarked,
        "A".to_string(),
        Some(quantity("10", "LTM")),
        Some(PriceClause::PerUnit(quantity("20.00", "$"))),
        lots,
        &vec![":Tag1: Tag2: Value one".to_string()],
    )
    .unwrap();
    assert_eq!(p.uprice, Some(quantity("20.00", "$")));
    assert_eq!(
        p.lot_uprice,
        Some(LotPrice {
            price: quantity("30.00", "$"),
            ptype: PriceType::Static
        })
    );
    assert_eq!(p.lot_note, "gift");
    assert_eq!(p.comment, ":Tag1: Tag2: Value one");
    assert_eq!(p.tags, vec![Tag::new("Tag1")]);
    assert_eq!(p.vtags, vec![(Tag::new("Tag2"), "Value one".to_string())]);
}

#[test]
fn posting_parts_total_without_amount_is_refused() {
    let p = parse_posting_parts(
        State::Unmarked,
        "A".to_string(),
        None,
        Some(PriceClause::Total(quantity("200.00", "$"))),
        no_lots(),
        &Vec::new(),
    );
    assert!(p.is_none());
    let zero = parse_posting_parts(
        State::Unmarked,
        "A".to_string(),
        Some(quantity("0", "X")),
        Some(PriceClause::Total(quantity("200.00", "$"))),
        no_lots(),
        &Vec::new(),
    );
    assert!(zero.is_none());
}

#[test]
fn posting_parts_without_prices() {
    let p = parse_posting_parts(
        State::Cleared,
        "Assets:Cash".to_string(),
        None,
        None,
        no_lots(),
        &Vec::new(),
    )
    .unwrap();
    assert_eq!(p.state, State::Cleared);
    assert_eq!(p.account, "Assets:Cash");
    assert!(p.quantity.is_none() && p.uprice.is_none() && p.lot_uprice.is_none());
    assert_eq!(p.comment, "");
}

#[test]
fn a_filled_in_amount_balances_the_book_values() {
    let raw = xact(
        State::Cleared,
        "",
        d(2024, 5, 1),
        "Trip",
        vec![
            posting(State::Unmarked, "Expenses:Hotel", Some(quantity("120.50", "$"))),
            posting(State::Unmarked, "Expenses:Food", Some(quantity("35", "EUR"))),
            posting(State::Unmarked, "Expenses:Taxi", Some(quantity("12.4", "GBP"))),
            posting(State::Unmarked, "Expenses:Food", Some(quantity("-5", "EUR"))),
            posting(State::Unmarked, "Assets:Cash", None),
        ],
    );
    let x = raw.into_xact().unwrap();
    assert_eq!(x.postings.len(), 7);
    let mut sum = ledger::amount::Amount::new();
    for p in &x.postings {
        sum.add_quantity(&p.book_value());
    }
    assert!(sum.is_zero());
}

#[test]
fn a_balanced_transaction_keeps_book_values_adding_to_nothing() {
    let raw = xact(
        State::Cleared,
        "",
        d(2024, 5, 2),
        "Rent",
        vec![
            posting(State::Unmarked, "Expenses:Rent", Some(quantity("800.00", "$"))),
            posting(State::Unmarked, "Assets:Bank", Some(quantity("-800", "$"))),
        ],
    );
    let x = raw.into_xact().unwrap();
    let mut sum = ledger::amount::Amount::new();
    for p in &x.postings {
        sum.add_quantity(&p.book_value());
    }
    assert!(sum.is_zero());
}
