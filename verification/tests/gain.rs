use ledger::amount::Amount;
use ledger::decimal::Dec;
use ledger::holdings::{Holdings, Lot};
use ledger::quantity::Quantity;
use ledger::report::Valuation;
use ledger::symbol::Symbol;

fn dec(s: &str) -> Dec {
    Dec::parse(s).unwrap()
}

/// A lot of `qty` units of `sym`, with market, historical and book unit
/// prices in `$`.
fn lot(sym: &str, qty: &str, market: &str, historical: &str, basis: &str) -> Lot {
    let uprice = |q: &str| -> Amount {
        Amount::from_quantity(Quantity {
            q: dec(q),
            s: Symbol::new("$"),
        })
    };
    Lot {
        qty: Quantity {
            q: dec(qty),
            s: Symbol::new(sym),
        },
        m_uprice: uprice(market),
        h_uprice: uprice(historical),
        b_uprice: uprice(basis),
    }
}

fn assert_dec(got: Option<Dec>, want: &str) {
    let g = got.expect("a gain");
    assert!(g.eq_value(&dec(want)), "{:?} != {}", g, want);
}

#[test]
fn gain_positive_when_market_above_basis() {
    // 10 AAPL, basis $100, market $150: (1500 - 1000) / 1000 = 0.5
    let h = Holdings::from_lots(vec![lot("AAPL", "10", "150", "120", "100")]);
    assert_dec(h.gain(Valuation::Market), "0.5");
}

#[test]
fn gain_negative_when_market_below_basis() {
    // basis = $1000, market = $800: -0.2
    let h = Holdings::from_lots(vec![lot("AAPL", "10", "80", "120", "100")]);
    assert_dec(h.gain(Valuation::Market), "-0.2");
}

#[test]
fn gain_zero_when_market_equals_basis() {
    let h = Holdings::from_lots(vec![lot("AAPL", "10", "100", "120", "100")]);
    assert_dec(h.gain(Valuation::Market), "0");
}

#[test]
fn gain_none_for_multi_commodity_holdings() {
    // Both values are single "$" amounts, so a gain is computed.
    let h = Holdings::from_lots(vec![
        lot("AAPL", "10", "150", "120", "100"),
        lot("MSFT", "5", "200", "180", "160"),
    ]);
    let g = h.gain(Valuation::Market);
    assert!(g.is_some());
}

#[test]
fn gain_none_for_empty_holdings() {
    let h = Holdings::new();
    let g = h.gain(Valuation::Market);
    assert!(g.is_none());
}

#[test]
fn sgain_positive() {
    let h = Holdings::from_lots(vec![lot("AAPL", "10", "150", "120", "100")]);
    let (g, s) = h.sgain(&Symbol::new("AAPL"), Valuation::Market).unwrap();
    assert!(g.eq_value(&dec("0.5")));
    assert_eq!(s, Symbol::new("$"));
}

#[test]
fn sgain_negative() {
    let h = Holdings::from_lots(vec![lot("AAPL", "10", "80", "120", "100")]);
    let (g, s) = h.sgain(&Symbol::new("AAPL"), Valuation::Market).unwrap();
    assert!(g.eq_value(&dec("-0.2")));
    assert_eq!(s, Symbol::new("$"));
}

#[test]
fn sgain_none_for_missing_symbol() {
    let h = Holdings::from_lots(vec![lot("AAPL", "10", "150", "120", "100")]);
    let g = h.sgain(&Symbol::new("GOOG"), Valuation::Market);
    assert_eq!(g, None);
}

#[test]
fn gain_of_a_zero_basis_is_none() {
    // A zero book price makes an empty book value: no gain, and no failure.
    let h = Holdings::from_lots(vec![lot("AAPL", "10", "150", "120", "0")]);
    assert_eq!(h.gain_checked(Valuation::Market), Some(None));
    assert_eq!(h.sgain_checked(&Symbol::new("AAPL"), Valuation::Market), Some(None));
}

#[test]
fn gain_checked_passes_the_gain_on() {
    let h = Holdings::from_lots(vec![lot("AAPL", "10", "150", "120", "100")]);
    let g = h.gain_checked(Valuation::Market).unwrap();
    assert_dec(g, "0.5");
    let g = h.gain_checked(Valuation::Quantity).unwrap();
    assert!(g.is_none());
}

#[test]
fn amount_as_a_value_at_one_date() {
    let day = ledger::date::Date::from_ymd(2026, 1, 2).unwrap();
    let a = ledger::amount::Amount::from_quantity(ledger::quantity::Quantity {
        q: ledger::decimal::Dec::parse("3").unwrap(),
        s: ledger::symbol::Symbol::new("$"),
    });
    let t = a.to_tamount(day);
    assert_eq!(t.baskets().len(), 1);
    assert_eq!(t.baskets()[0].0, day);
    assert_eq!(t.at(&day).unwrap().arity(), 1);
}

#[test]
fn detail_gives_the_gain_in_percent_and_the_price() {
    let h = Holdings::from_lots(vec![
        lot("AAPL", "10", "150", "120", "100"),
        lot("MSFT", "5", "200", "180", "160"),
    ]);
    let (pct, price) = h.detail(&Symbol::new("AAPL"), Valuation::Market).unwrap();
    assert_dec(pct, "50");
    assert_eq!(price.len(), 1);
    assert!(price[0].q.eq_value(&dec("1500")));
    assert_eq!(price[0].s, Symbol::new("$"));

    let (pct, price) = h.detail(&Symbol::new("MSFT"), Valuation::Historical).unwrap();
    assert_dec(pct, "12.5");
    assert!(price[0].q.eq_value(&dec("900")));

    let (pct, price) = h.detail(&Symbol::new("GOOG"), Valuation::Market).unwrap();
    assert!(pct.is_none());
    assert!(price.is_empty());

    let (pct, price) = h.detail(&Symbol::new("AAPL"), Valuation::Quantity).unwrap();
    assert!(pct.is_none());
    assert!(price.is_empty());
}
