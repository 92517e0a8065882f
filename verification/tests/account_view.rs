use ledger::accview::{
    build_hier_account, flatten_account, merge_hier_account, merge_sub_accounts, AccountView,
    FlatAccountView, HierAccountView,
};
use ledger::amount::Amount;
use ledger::date::Date;
use ledger::decimal::Dec;
use ledger::journal::AccName;
use ledger::quantity::Quantity;
use ledger::symbol::Symbol;
use ledger::tamount::TAmount;

fn today() -> Date {
    Date::from_ymd(2026, 3, 1).unwrap()
}

/// `n` of commodity `s` at today's date.
fn tamount(n: &str, s: &str) -> TAmount<Amount> {
    let a = Amount::from_quantity(Quantity {
        q: Dec::parse(n).unwrap(),
        s: Symbol::new(s),
    });
    TAmount::single(today(), a)
}

fn node(
    name: &str,
    bal: TAmount<Amount>,
    subs: Vec<HierAccountView<TAmount<Amount>>>,
) -> HierAccountView<TAmount<Amount>> {
    HierAccountView::from_parts(AccName::new(name), bal, subs).unwrap()
}

#[test]
fn test_nest_account() {
    let acc1 = FlatAccountView::new(AccName::new("Assets:Bank:Cash"), tamount("100", "$"));
    let hier = acc1.to_hier();

    let expected = || {
        node(
            "Assets",
            tamount("100", "$"),
            vec![node(
                "Bank",
                tamount("100", "$"),
                vec![node("Cash", tamount("100", "$"), vec![])],
            )],
        )
    };
    assert_eq!(hier, Some(expected()));

    // a fully hierarchical account remains equal
    let hier = expected().to_hier();
    assert_eq!(hier, Some(expected()));

    let acc = FlatAccountView::new(AccName::new("Assets"), tamount("100", "$"));
    let hier = acc.to_hier();
    assert_eq!(hier, Some(node("Assets", tamount("100", "$"), vec![])));

    let acc = node(
        "Assets",
        tamount("100", "$"),
        vec![node(
            "Bank:Personal",
            tamount("100", "$"),
            vec![node("Cash", tamount("100", "$"), vec![])],
        )],
    );
    let expected = node(
        "Assets",
        tamount("100", "$"),
        vec![node(
            "Bank",
            tamount("100", "$"),
            vec![node(
                "Personal",
                tamount("100", "$"),
                vec![node("Cash", tamount("100", "$"), vec![])],
            )],
        )],
    );
    assert_eq!(acc.to_hier(), Some(expected));
}

#[test]
fn test_build_hier_account() {
    // Assets $10
    // `-- Bank $10
    //    `-- Cash $10
    let expected = node(
        "Assets",
        tamount("10", "$"),
        vec![node(
            "Bank",
            tamount("10", "$"),
            vec![node("Cash", tamount("10", "$"), vec![])],
        )],
    );
    assert_eq!(
        build_hier_account(AccName::new("Assets:Bank:Cash"), tamount("10", "$")),
        Some(expected)
    );

    let expected = node("Assets", tamount("10", "$"), vec![]);
    assert_eq!(
        build_hier_account(AccName::new("Assets"), tamount("10", "$")),
        Some(expected)
    );
}

#[test]
fn test_merge_sub_account() {
    let mut acc = build_hier_account(AccName::new("Assets:Bank:Cash"), tamount("100", "$")).unwrap();
    merge_sub_accounts(&mut acc);
    assert_eq!(acc, node("Assets:Bank:Cash", tamount("100", "$"), vec![]));

    // Expenses $50
    // |-- Food
    // |   `-- Fav
    // |       `-- Fuente Alemana $25
    // `-- Grocery $15
    let mut acc = node(
        "Expenses",
        tamount("50", "$"),
        vec![
            node(
                "Food",
                tamount("25", "$"),
                vec![node(
                    "Fav",
                    tamount("25", "$"),
                    vec![node("Fuente Alemana", tamount("25", "$"), vec![])],
                )],
            ),
            node("Grocery", tamount("15", "$"), vec![]),
        ],
    );

    merge_sub_accounts(&mut acc);

    assert_eq!(
        acc,
        node(
            "Expenses",
            tamount("50", "$"),
            vec![
                node("Food:Fav:Fuente Alemana", tamount("25", "$"), vec![]),
                node("Grocery", tamount("15", "$"), vec![]),
            ],
        )
    );
}

#[test]
fn test_flatten() {
    // Expenses $10 + $40
    // |-- Food
    // |   `-- Fav
    // |       `-- Fuente Alemana $25
    // `-- Grocery $15
    let acc = node(
        "Expenses",
        tamount("50", "$"),
        vec![
            node(
                "Food",
                tamount("25", "$"),
                vec![node(
                    "Fav",
                    tamount("25", "$"),
                    vec![node("Fuente Alemana", tamount("25", "$"), vec![])],
                )],
            ),
            node("Grocery", tamount("15", "$"), vec![]),
        ],
    );

    let expected = vec![
        FlatAccountView::new(AccName::new("Expenses"), tamount("10", "$")),
        FlatAccountView::new(
            AccName::new("Expenses:Food:Fav:Fuente Alemana"),
            tamount("25", "$"),
        ),
        FlatAccountView::new(AccName::new("Expenses:Grocery"), tamount("15", "$")),
    ];

    assert_eq!(flatten_account(acc), expected);
}

#[test]
fn test_merge() {
    let acc1 = build_hier_account(AccName::new("Expenses"), tamount("10", "$")).unwrap();
    let acc2 = build_hier_account(
        AccName::new("Expenses:Food:Fav:Fuente Alemana"),
        tamount("25", "$"),
    )
    .unwrap();
    let acc3 = build_hier_account(AccName::new("Expenses:Grocery"), tamount("15", "$")).unwrap();

    let merged = merge_hier_account(merge_hier_account(acc1, acc2), acc3);

    let expected = node(
        "Expenses",
        tamount("50", "$"),
        vec![
            node(
                "Food",
                tamount("25", "$"),
                vec![node(
                    "Fav",
                    tamount("25", "$"),
                    vec![node("Fuente Alemana", tamount("25", "$"), vec![])],
                )],
            ),
            node("Grocery", tamount("15", "$"), vec![]),
        ],
    );

    assert_eq!(merged, expected);
}

#[test]
fn compacting_reorders_by_new_names() {
    // "A" compacts to "A:x", which comes after "A b" (space before colon)
    let acc = node(
        "R",
        tamount("3", "$"),
        vec![
            node("A", tamount("1", "$"), vec![node("x", tamount("1", "$"), vec![])]),
            node("A b", tamount("2", "$"), vec![]),
        ],
    );
    let mut acc = acc;
    let c = merge_sub_accounts(&mut acc);
    let names: Vec<String> = c
        .sub_accounts()
        .iter()
        .map(|s| s.name().as_str().to_string())
        .collect();
    assert_eq!(names, vec!["A b".to_string(), "A:x".to_string()]);
}

#[test]
fn from_parts_refuses_unordered_sub_accounts() {
    let r = HierAccountView::from_parts(
        AccName::new("R"),
        tamount("1", "$"),
        vec![
            node("B", tamount("1", "$"), vec![]),
            node("A", tamount("1", "$"), vec![]),
        ],
    );
    assert!(r.is_none());
}
