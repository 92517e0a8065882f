use ledger::amount::Amount;
use ledger::decimal::Dec;
use ledger::holdings::{Holdings, Lot};
use ledger::quantity::Quantity;
use ledger::report::Valuation;
use ledger::symbol::Symbol;

fn dec(s: &str) -> Dec {
    Dec::parse(s).unwrap()
}

/// An amount of `$`.
fn uprice(q: &str) -> Amount {
    Amount::from_quantity(Quantity {
        q: dec(q),
        s: Symbol::new("$"),
    })
}

/// A lot of `qty` units of `sym`, with market, historical and book unit
/// prices in `$`.
fn lot(sym: &str, qty: &str, m: &str, h: &str, b: &str) -> Lot {
    Lot {
        qty: Quantity {
            q: dec(qty),
            s: Symbol::new(sym),
        },
        m_uprice: uprice(m),
        h_uprice: uprice(h),
        b_uprice: uprice(b),
    }
}

#[test]
fn add_accumulates_qty_and_averages_prices() {
    // 10 AAPL @ $100 + 10 AAPL @ $120 = 20 AAPL @ $110
    let a = lot("AAPL", "10", "100", "100", "100");
    let b = lot("AAPL", "10", "120", "120", "120");
    let c = a.add(b);
    assert_eq!(c, lot("AAPL", "20", "110", "110", "110"));
}

#[test]
fn add_to_zero_clears_lot() {
    // 10 AAPL + (-10 AAPL) = 0
    let a = lot("AAPL", "10", "100", "100", "100");
    let b = lot("AAPL", "-10", "120", "120", "120");
    let c = a.add(b);
    assert_eq!(c, lot("AAPL", "0", "0", "0", "0"));
}

#[test]
fn sub_reduces_qty_and_adjusts_prices() {
    // 20 AAPL @ $110 - 10 AAPL @ $100 = 10 AAPL @ $120
    let a = lot("AAPL", "20", "110", "110", "110");
    let b = lot("AAPL", "10", "100", "100", "100");
    let c = a.sub(b);
    assert_eq!(c, lot("AAPL", "10", "120", "120", "120"));
}

#[test]
fn sub_to_zero_clears_lot() {
    // 10 AAPL - 10 AAPL = 0
    let a = lot("AAPL", "10", "100", "100", "100");
    let b = lot("AAPL", "10", "120", "120", "120");
    let c = a.sub(b);
    assert_eq!(c, lot("AAPL", "0", "0", "0", "0"));
}

#[test]
fn holdings_add_lot_inserts_entry() {
    let h = Holdings::from_lots(vec![
        lot("AAPL", "10", "100", "100", "100"),
        lot("MSFT", "5", "200", "200", "200"),
    ]);
    let expected = Holdings::from_lots(vec![
        lot("AAPL", "10", "100", "100", "100"),
        lot("MSFT", "5", "200", "200", "200"),
    ]);
    assert_eq!(h, expected);
}

#[test]
fn holdings_add_same_symbol_merges_lots() {
    // 10 AAPL @ $100 + 10 AAPL @ $120 = 20 AAPL @ $110; MSFT unchanged
    let a = Holdings::from_lots(vec![
        lot("AAPL", "10", "100", "100", "100"),
        lot("MSFT", "5", "200", "200", "200"),
    ]);
    let b = Holdings::from_lots(vec![lot("AAPL", "10", "120", "120", "120")]);
    let c = a.add(b);
    let expected = Holdings::from_lots(vec![
        lot("AAPL", "20", "110", "110", "110"),
        lot("MSFT", "5", "200", "200", "200"),
    ]);
    assert_eq!(c, expected);
}

#[test]
fn holdings_add_different_symbols_keeps_both() {
    let a = Holdings::from_lots(vec![
        lot("AAPL", "10", "100", "100", "100"),
        lot("MSFT", "5", "200", "200", "200"),
    ]);
    let b = Holdings::from_lots(vec![lot("GOOG", "3", "150", "150", "150")]);
    let c = a.add(b);
    let expected = Holdings::from_lots(vec![
        lot("AAPL", "10", "100", "100", "100"),
        lot("MSFT", "5", "200", "200", "200"),
        lot("GOOG", "3", "150", "150", "150"),
    ]);
    assert_eq!(c, expected);
}

#[test]
fn holdings_add_opposite_lots_removes_entry() {
    // Cancelling AAPL leaves only MSFT.
    let a = Holdings::from_lots(vec![
        lot("AAPL", "10", "100", "100", "100"),
        lot("MSFT", "5", "200", "200", "200"),
    ]);
    let b = Holdings::from_lots(vec![lot("AAPL", "-10", "100", "100", "100")]);
    let c = a.add(b);
    let expected = Holdings::from_lots(vec![lot("MSFT", "5", "200", "200", "200")]);
    assert_eq!(c, expected);
}

#[test]
fn holdings_sub_reduces_quantity() {
    // Subtract 5 AAPL; MSFT unchanged.
    let a = Holdings::from_lots(vec![
        lot("AAPL", "10", "100", "100", "100"),
        lot("MSFT", "5", "200", "200", "200"),
    ]);
    let b = Holdings::from_lots(vec![lot("AAPL", "5", "100", "100", "100")]);
    let c = a.sub(b);
    let expected = Holdings::from_lots(vec![
        lot("AAPL", "5", "100", "100", "100"),
        lot("MSFT", "5", "200", "200", "200"),
    ]);
    assert_eq!(c, expected);
}

#[test]
fn holdings_sum_from_lots() {
    let lots = vec![
        lot("AAPL", "10", "100", "100", "100"),
        lot("AAPL", "10", "120", "120", "120"),
        lot("MSFT", "5", "200", "200", "200"),
    ];
    let h = Holdings::sum_checked(lots).unwrap();
    let expected = Holdings::from_lots(vec![
        lot("AAPL", "20", "110", "110", "110"),
        lot("MSFT", "5", "200", "200", "200"),
    ]);
    assert_eq!(h, expected);
}

#[test]
fn subtracting_a_commodity_not_held_leaves_a_short_lot() {
    let a = Holdings::from_lots(vec![lot("AAPL", "10", "100", "100", "100")]);
    let b = Holdings::from_lots(vec![lot("MSFT", "5", "200", "200", "200")]);
    let c = a.sub(b);
    assert_eq!(
        c,
        Holdings::from_lots(vec![
            lot("AAPL", "10", "100", "100", "100"),
            lot("MSFT", "-5", "200", "200", "200"),
        ])
    );
}

#[test]
fn from_lots_keeps_the_last_lot_of_a_commodity() {
    let h = Holdings::from_lots(vec![
        lot("AAPL", "10", "100", "100", "100"),
        lot("AAPL", "3", "90", "90", "90"),
    ]);
    assert_eq!(h.arity(), 1);
    assert_eq!(
        h.quantities(),
        vec![Quantity {
            q: dec("3"),
            s: Symbol::new("AAPL")
        }]
    );
}

#[test]
fn valuation_of_holdings() {
    let h = Holdings::from_lots(vec![
        lot("AAPL", "10", "120", "110", "100"),
        lot("MSFT", "2", "300", "250", "200"),
    ]);
    let market = h.valued_in_checked(Valuation::Market).unwrap();
    assert_eq!(market.to_quantity().unwrap().q, dec("1800"));
    let hist = h.valued_in_checked(Valuation::Historical).unwrap();
    assert_eq!(hist.to_quantity().unwrap().q, dec("1600"));
    let basis = h.valued_in_checked(Valuation::Basis).unwrap();
    assert_eq!(basis.to_quantity().unwrap().q, dec("1400"));
    let qty = h.valued_in_checked(Valuation::Quantity).unwrap();
    assert_eq!(qty.arity(), 2);
    let one = h
        .svalued_in_checked(&Symbol::new("MSFT"), Valuation::Market)
        .unwrap();
    assert_eq!(one.to_quantity().unwrap().q, dec("600"));
    let none = h
        .svalued_in_checked(&Symbol::new("GOOG"), Valuation::Market)
        .unwrap();
    assert_eq!(none.arity(), 0);
    assert!(!h.is_zero());
}

#[test]
fn svalued_in_values_one_commodity() {
    let h = Holdings::from_lots(vec![
        lot("AAPL", "10", "100", "90", "80"),
        lot("MSFT", "2", "50", "50", "50"),
    ]);
    assert_eq!(h.svalued_in(&Symbol::new("AAPL"), Valuation::Market), uprice("1000"));
    assert_eq!(h.svalued_in(&Symbol::new("AAPL"), Valuation::Basis), uprice("800"));
    assert_eq!(h.svalued_in(&Symbol::new("GOOG"), Valuation::Market), Amount::new());
}
