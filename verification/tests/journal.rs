use ledger::journal::{AccName, AccountName};

#[test]
fn all_accounts_three_levels() {
    let acc = AccName::new("A:B:C");
    let all = acc.all_accounts();
    assert_eq!(all, vec!["A", "A:B", "A:B:C"]);
}

#[test]
fn all_accounts_single_component() {
    let acc = AccName::new("Root");
    let all = acc.all_accounts();
    assert_eq!(all, vec!["Root"]);
}

#[test]
fn all_accounts_two_levels() {
    let acc = AccName::new("Assets:Bank");
    let all = acc.all_accounts();
    assert_eq!(all, vec!["Assets", "Assets:Bank"]);
}

#[test]
fn parent_accounts_three_levels() {
    let acc = AccName::new("A:B:C");
    let parents = acc.parent_accounts();
    assert_eq!(parents, vec!["A", "A:B"]);
}

#[test]
fn parent_accounts_single_component_is_empty() {
    let acc = AccName::new("Root");
    let parents = acc.parent_accounts();
    assert!(parents.is_empty());
}

#[test]
fn parent_accounts_two_levels() {
    let acc = AccName::new("Assets:Bank");
    let parents = acc.parent_accounts();
    assert_eq!(parents, vec!["Assets"]);
}

#[test]
fn parent_account_returns_root() {
    let acc = AccName::new("Assets:Bank:Checking");
    assert_eq!(acc.parent_account(), Some("Assets".to_string()));
}

#[test]
fn parent_account_single_component_returns_self() {
    let acc = AccName::new("Expenses");
    let p = acc.parent_account();
    assert!(p.is_none());
}

#[test]
fn split_parts_three_levels() {
    let acc = AccName::new("Assets:Bank:Checking");
    let parts = acc.split_parts();
    assert_eq!(parts, vec!["Assets", "Bank", "Checking"]);
}

#[test]
fn split_parts_single_component() {
    let acc = AccName::new("Root");
    let parts = acc.split_parts();
    assert_eq!(parts, vec!["Root"]);
}

#[test]
fn append_to_existing() {
    let acc = AccName::new("Assets:Bank");
    let sub = AccName::new("Checking");
    let result = acc.append(&sub);
    assert_eq!(result, AccName::new("Assets:Bank:Checking"));
}

#[test]
fn append_to_empty() {
    let acc = AccName::new("");
    let sub = AccName::new("Checking");
    let result = acc.append(&sub);
    assert_eq!(result, AccName::new("Checking"));
}

#[test]
fn append_multi_level_sub() {
    let acc = AccName::new("A");
    let sub = AccName::new("B:C");
    let result = acc.append(&sub);
    assert_eq!(result, AccName::new("A:B:C"));
}

#[test]
fn pop_parent_account_takes_root() {
    let mut acc = AccName::new("assets:bank:checking");
    let parent = acc.pop_parent_account();
    assert_eq!(parent, Some(AccName::new("assets")));
    assert_eq!(acc, AccName::new("bank:checking"));
    assert_eq!(acc.pop_parent_account(), Some(AccName::new("bank")));
    assert_eq!(acc.pop_parent_account(), None);
    assert_eq!(acc, AccName::new("checking"));
    let mut empty = AccName::new("");
    assert_eq!(empty.pop_parent_account(), None);
    assert_eq!(empty, AccName::new(""));
}

#[test]
fn split_then_join_restores_name() {
    let acc = AccName::new("Assets::Cash:");
    let parts = acc.split_parts();
    assert_eq!(parts, vec!["Assets", "", "Cash", ""]);
    assert_eq!(parts.join(":"), "Assets::Cash:");
}

#[test]
fn account_name_parent_account_is_self_without_separator() {
    let acc = AccountName::new("Expenses");
    assert_eq!(acc.parent_account(), "Expenses");
    let acc = AccountName::new("Assets:Bank:Checking");
    assert_eq!(acc.parent_account(), "Assets");
    assert_eq!(acc.all_accounts(), vec!["Assets", "Assets:Bank", "Assets:Bank:Checking"]);
    assert_eq!(acc.parent_accounts(), vec!["Assets", "Assets:Bank"]);
    assert_eq!(acc.split_parts(), vec!["Assets", "Bank", "Checking"]);
    assert_eq!(
        AccountName::new("").append(&AccountName::new("Checking")),
        AccountName::new("Checking")
    );
    assert_eq!(
        AccountName::new("Assets:Bank").append(&AccountName::new("Checking")),
        AccountName::new("Assets:Bank:Checking")
    );
}
