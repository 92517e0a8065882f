use ledger::accview::{build_hier_account, AccountView, FlatAccountView, HierAccountView};
use ledger::amount::Amount;
use ledger::balview::BalanceView;
use ledger::date::Date;
use ledger::decimal::Dec;
use ledger::holdings::{Holdings, Lot};
use ledger::journal::AccName;
use ledger::quantity::Quantity;
use ledger::report::Valuation;
use ledger::symbol::Symbol;
use ledger::tamount::TAmount;

fn today() -> Date {
    Date::from_ymd(2026, 3, 1).unwrap()
}

fn dec(s: &str) -> Dec {
    Dec::parse(s).unwrap()
}

fn amount(n: &str, s: &str) -> Amount {
    Amount::from_quantity(Quantity {
        q: dec(n),
        s: Symbol::new(s),
    })
}

fn tamount(n: &str, s: &str) -> TAmount<Amount> {
    TAmount::single(today(), amount(n, s))
}

/// A lot of `qty` units of `sym`, with unit prices in `$`.
fn lot(sym: &str, qty: &str, m: &str, h: &str, b: &str) -> Lot {
    Lot {
        qty: Quantity {
            q: dec(qty),
            s: Symbol::new(sym),
        },
        m_uprice: amount(m, "$"),
        h_uprice: amount(h, "$"),
        b_uprice: amount(b, "$"),
    }
}

/// Holdings in a TAmount at today's date.
fn th(lots: Vec<Lot>) -> TAmount<Holdings> {
    TAmount::single(today(), Holdings::from_lots(lots))
}

/// A hierarchical account with holdings at a given path.
fn hier(name: &str, lots: Vec<Lot>) -> HierAccountView<TAmount<Holdings>> {
    build_hier_account(AccName::new(name), th(lots)).unwrap()
}

type HierHoldings = BalanceView<HierAccountView<TAmount<Holdings>>>;
type FlatAmounts = BalanceView<FlatAccountView<TAmount<Amount>>>;
type HierAmounts = BalanceView<HierAccountView<TAmount<Amount>>>;

#[test]
fn balance_total_sums_holdings() {
    let mut bv: HierHoldings = BalanceView::new();
    bv.add_assign(hier("Assets", vec![lot("AAPL", "10", "150", "120", "100")]));
    bv.add_assign(hier("Expenses", vec![lot("MSFT", "5", "200", "200", "200")]));

    let total = bv.balance();
    let total = total.at(&today()).unwrap();
    let expected = Holdings::from_lots(vec![
        lot("AAPL", "10", "150", "120", "100"),
        lot("MSFT", "5", "200", "200", "200"),
    ]);
    assert!(total.same_as(&expected));
    assert_eq!(*total, expected);
}

#[test]
fn to_flat_with_holdings() {
    let mut bv: HierHoldings = BalanceView::new();
    bv.add_assign(hier("Assets:Bank", vec![lot("AAPL", "10", "150", "120", "100")]));

    let flat = bv.to_flat().unwrap();
    assert_eq!(flat.accounts().len(), 1);
    assert!(flat.account(&AccName::new("Assets:Bank")).is_some());
}

#[test]
fn to_compact_with_holdings() {
    let mut bv: HierHoldings = BalanceView::new();
    bv.add_assign(hier("Assets:Bank", vec![lot("AAPL", "10", "150", "120", "100")]));

    let compact = bv.to_compact().unwrap();
    assert_eq!(compact.accounts().len(), 1);
    assert!(compact.account(&AccName::new("Assets")).is_some());
    assert_eq!(compact.accounts()[0].1.name(), &AccName::new("Assets:Bank"));
}

#[test]
fn valued_in_market_converts_holdings_to_amount() {
    let mut bv: HierHoldings = BalanceView::new();
    bv.add_assign(hier(
        "Assets",
        vec![
            lot("AAPL", "10", "150", "120", "100"),
            lot("MSFT", "5", "200", "200", "200"),
        ],
    ));

    let valued = bv.valued_in(Valuation::Market).unwrap();
    // 10*150 + 5*200 = 2500
    let total = valued.balance();
    assert_eq!(*total.at(&today()).unwrap(), amount("2500", "$"));
}

#[test]
fn valued_in_basis_converts_holdings_to_amount() {
    let mut bv: HierHoldings = BalanceView::new();
    bv.add_assign(hier("Assets", vec![lot("AAPL", "10", "150", "120", "100")]));

    let valued = bv.valued_in(Valuation::Basis).unwrap();
    // 10*100 = 1000
    let total = valued.balance();
    assert_eq!(*total.at(&today()).unwrap(), amount("1000", "$"));
}

#[test]
fn remove_zero_accounts_with_holdings() {
    let mut bv: HierHoldings = BalanceView::new();
    bv.add_assign(hier("Assets", vec![lot("AAPL", "10", "150", "120", "100")]));
    bv.add_assign(build_hier_account(AccName::new("Equity"), TAmount::<Holdings>::new()).unwrap());

    assert_eq!(bv.accounts().len(), 2);
    bv.remove_zero_accounts();
    assert_eq!(bv.accounts().len(), 1);
    assert!(bv.account(&AccName::new("Assets")).is_some());
}

#[test]
fn limit_depth_with_holdings() {
    let mut bv: HierHoldings = BalanceView::new();
    bv.add_assign(hier("Assets:Bank:Checking", vec![lot("AAPL", "10", "150", "120", "100")]));

    let bv = bv.limit_accounts_depth(2);
    let acc = &bv.accounts()[0].1;
    // depth 1: Assets, depth 2: Bank, Checking is trimmed
    let bank = &acc.sub_accounts()[0];
    assert_eq!(bank.name(), &AccName::new("Bank"));
    assert_eq!(bank.sub_accounts().len(), 0);
}

#[test]
fn hier_limit_depth_zero_returns_unchanged() {
    let mut bv: HierHoldings = BalanceView::new();
    bv.add_assign(hier("Assets:Bank:Checking", vec![lot("AAPL", "10", "150", "120", "100")]));
    let bv2 = bv.limit_accounts_depth(0);
    // All sub-accounts intact
    let acc = &bv2.accounts()[0].1;
    assert_eq!(acc.name(), &AccName::new("Assets"));
    let bank = &acc.sub_accounts()[0];
    assert_eq!(bank.name(), &AccName::new("Bank"));
    assert_eq!(bank.sub_accounts().len(), 1);
}

#[test]
fn valued_in_quantity_hier_preserves_accounts() {
    let mut bv: HierHoldings = BalanceView::new();
    bv.add_assign(hier("Assets:Bank", vec![lot("AAPL", "5", "100", "80", "60")]));
    bv.add_assign(hier("Expenses", vec![lot("MSFT", "3", "200", "200", "200")]));

    let valued = bv.valued_in(Valuation::Quantity).unwrap();
    assert_eq!(valued.accounts().len(), 2);
}

#[test]
fn flat_remove_empty_accounts_removes_zero_balances() {
    let mut bv: FlatAmounts = BalanceView::new();
    // Non-zero account
    let h1 = build_hier_account(AccName::new("Assets:Checking"), tamount("100", "$")).unwrap();
    bv.add_assign_hier(h1);
    // Zero balance account
    let h2 = build_hier_account(AccName::new("Equity"), TAmount::<Amount>::new()).unwrap();
    bv.add_assign_hier(h2);

    assert_eq!(bv.accounts().len(), 2);
    bv.remove_empty_accounts();
    assert_eq!(bv.accounts().len(), 1);
    assert_eq!(bv.accounts()[0].1.name(), &AccName::new("Assets:Checking"));
}

#[test]
fn flat_limit_depth_zero_returns_unchanged() {
    let mut bv: FlatAmounts = BalanceView::new();
    let h = build_hier_account(AccName::new("Assets:Bank:Checking"), tamount("100", "$")).unwrap();
    bv.add_assign_hier(h);

    let bv2 = bv.limit_accounts_depth(0).unwrap();
    assert_eq!(bv2.accounts().len(), 1);
    assert_eq!(bv2.accounts()[0].1.name(), &AccName::new("Assets:Bank:Checking"));
}

#[test]
fn flat_limit_depth_nonzero_trims_hierarchy() {
    let mut bv: FlatAmounts = BalanceView::new();
    let h = build_hier_account(AccName::new("Assets:Bank:Checking"), tamount("100", "$")).unwrap();
    bv.add_assign_hier(h);

    // Depth 1 keeps only top-level "Assets"
    let bv2 = bv.limit_accounts_depth(1).unwrap();
    assert_eq!(bv2.accounts().len(), 1);
    let acc = bv2.account(&AccName::new("Assets")).unwrap();
    assert_eq!(*acc.balance().at(&today()).unwrap(), amount("100", "$"));
}

#[test]
fn hier_remove_zero_accounts_all_zero_empties_balance() {
    let mut bv: HierHoldings = BalanceView::new();
    bv.add_assign(build_hier_account(AccName::new("Assets"), TAmount::<Holdings>::new()).unwrap());
    bv.add_assign(build_hier_account(AccName::new("Equity"), TAmount::<Holdings>::new()).unwrap());

    assert_eq!(bv.accounts().len(), 2);
    bv.remove_zero_accounts();
    assert_eq!(bv.accounts().len(), 0);
}

#[test]
fn compact_remove_empty_accounts_removes_zero_no_children() {
    let mut bv_hier: HierAmounts = BalanceView::new();
    bv_hier.add_assign(build_hier_account(AccName::new("Assets:Checking"), tamount("100", "$")).unwrap());
    bv_hier.add_assign(build_hier_account(AccName::new("Equity"), TAmount::<Amount>::new()).unwrap());

    let mut compact = bv_hier.to_compact().unwrap();
    assert_eq!(compact.accounts().len(), 2);
    compact.remove_empty_accounts();
    assert_eq!(compact.accounts().len(), 1);
    assert_eq!(compact.accounts()[0].1.name(), &AccName::new("Assets:Checking"));
}

#[test]
fn compact_remove_empty_accounts_keeps_nonzero_sub_account() {
    let mut bv_hier: HierAmounts = BalanceView::new();
    bv_hier.add_assign(build_hier_account(AccName::new("Assets:Bank:Checking"), tamount("50", "$")).unwrap());
    bv_hier.add_assign(build_hier_account(AccName::new("Assets:Bank:Savings"), tamount("50", "$")).unwrap());

    let mut compact = bv_hier.to_compact().unwrap();
    compact.remove_empty_accounts();
    // The top-level "Assets" entry (non-zero) remains.
    assert_eq!(compact.accounts().len(), 1);
    // Sub-accounts (Checking and Savings) are non-zero so they stay.
    let top = &compact.accounts()[0].1;
    assert_eq!(top.sub_accounts().len(), 2);
}

#[test]
fn compact_limit_depth_zero_returns_unchanged() {
    let mut bv_hier: HierAmounts = BalanceView::new();
    bv_hier.add_assign(build_hier_account(AccName::new("Assets:Bank:Checking"), tamount("100", "$")).unwrap());
    bv_hier.add_assign(build_hier_account(AccName::new("Assets:Bank:Savings"), tamount("50", "$")).unwrap());

    let compact = bv_hier.to_compact().unwrap();
    // depth=0 means no limit: everything intact
    let bv2 = compact.limit_accounts_depth(0).unwrap();
    assert_eq!(bv2.accounts().len(), 1);
    // Assets:Bank compacts to a top-level entry with 2 direct children
    assert_eq!(bv2.accounts()[0].1.sub_accounts().len(), 2);
}

#[test]
fn compact_limit_depth_nonzero_trims() {
    let mut bv_hier: HierAmounts = BalanceView::new();
    bv_hier.add_assign(build_hier_account(AccName::new("Assets:Bank:Checking"), tamount("100", "$")).unwrap());

    let compact = bv_hier.to_compact().unwrap();
    // Depth 1 removes all sub-accounts from the top-level entry.
    let limited = compact.limit_accounts_depth(1).unwrap();
    assert_eq!(limited.accounts().len(), 1);
    assert_eq!(limited.accounts()[0].1.sub_accounts().len(), 0);
}

#[test]
fn flat_add_assign_hier() {
    let mut bv: FlatAmounts = BalanceView::new();
    let hier_acc = build_hier_account(AccName::new("Assets:Bank"), tamount("100", "$")).unwrap();
    bv.add_assign_hier(hier_acc);

    assert_eq!(bv.accounts().len(), 1);
    assert_eq!(bv.accounts()[0].1.name(), &AccName::new("Assets:Bank"));
}

#[test]
fn hier_add_assign_flat() {
    // A FlatAccountView obtained by flattening.
    let hier_src = build_hier_account(AccName::new("Assets:Bank"), tamount("50", "$")).unwrap();
    let flat_accs = hier_src.to_flat().unwrap();
    assert_eq!(flat_accs.len(), 1);

    let mut bv: HierAmounts = BalanceView::new();
    for flat_acc in flat_accs {
        bv.add_assign_flat(flat_acc);
    }

    assert_eq!(bv.accounts().len(), 1);
    assert_eq!(bv.accounts()[0].1.name(), &AccName::new("Assets"));
}

#[test]
fn flat_add_assign_flat_merges_same_name() {
    let h1 = build_hier_account(AccName::new("Assets"), tamount("30", "$")).unwrap();
    let h2 = build_hier_account(AccName::new("Assets"), tamount("20", "$")).unwrap();

    let mut bv: FlatAmounts = BalanceView::new();
    bv.add_assign_hier(h1); // adds Assets as a flat account
    bv.add_assign_hier(h2); // merges into the existing Assets entry

    assert_eq!(bv.accounts().len(), 1);
    let bal = bv.accounts()[0].1.balance().at(&today()).unwrap();
    let q = bal.to_quantity().unwrap();
    assert!(q.q.eq_value(&dec("50")));
}

#[test]
fn balance_view_flat_add_assign_balance_view_flat() {
    let mut bv1: FlatAmounts = BalanceView::new();
    bv1.add_assign_hier(build_hier_account(AccName::new("Assets"), tamount("100", "$")).unwrap());

    let mut bv2: FlatAmounts = BalanceView::new();
    bv2.add_assign_hier(build_hier_account(AccName::new("Expenses"), tamount("50", "$")).unwrap());

    bv1.add_assign_balance(bv2);
    assert_eq!(bv1.accounts().len(), 2);
}

#[test]
fn balance_view_hier_add_assign_balance_view_hier() {
    let mut bv1: HierHoldings = BalanceView::new();
    bv1.add_assign(hier("Assets", vec![lot("AAPL", "5", "100", "80", "60")]));

    let mut bv2: HierHoldings = BalanceView::new();
    bv2.add_assign(hier("Expenses", vec![lot("MSFT", "2", "200", "200", "200")]));

    bv1.add_assign_balance(bv2);
    assert_eq!(bv1.accounts().len(), 2);
    let total = bv1.balance();
    assert_eq!(
        total.at(&today()),
        Some(&Holdings::from_lots(vec![
            lot("AAPL", "5", "100", "80", "60"),
            lot("MSFT", "2", "200", "200", "200")
        ])),
    );
}
