use libdrcr::accounts::{entries_for_kind, kinds_for_account, AccountConfiguration};
use libdrcr::balances::BalanceMap;
use libdrcr::report::DynamicReportEntry;

fn config(account: &str, kind: &str) -> AccountConfiguration {
    AccountConfiguration { id: None, account: account.to_string(), kind: kind.to_string(), data: None }
}

#[test]
fn kinds_collected_per_account() {
    let kinds = kinds_for_account(vec![
        config("Cash", "drcr.asset"),
        config("Loan", "drcr.liability"),
        config("Cash", "austax.cash"),
    ]);
    let cash = kinds.get(&"Cash".to_string()).expect("Cash has kinds");
    assert_eq!(cash, &vec!["drcr.asset".to_string(), "austax.cash".to_string()]);
    assert!(kinds.get(&"Nothing".to_string()).is_none());
}

#[test]
fn entries_for_kind_sorted_and_inverted() {
    let kinds = kinds_for_account(vec![
        config("Zebra", "drcr.income"),
        config("Apple", "drcr.income"),
        config("Cash", "drcr.asset"),
        config("Mango", "drcr.income"),
    ]);
    let mut now = BalanceMap::new();
    now.insert("Zebra".to_string(), -30);
    now.insert("Apple".to_string(), -10);
    now.insert("Cash".to_string(), 40);
    let mut before = BalanceMap::new();
    before.insert("Apple".to_string(), -5);
    let entries = entries_for_kind("drcr.income", true, &vec![&now, &before], &kinds);
    let rows: Vec<(String, Vec<i64>, bool)> = entries
        .iter()
        .map(|e| match e {
            DynamicReportEntry::LiteralRow(r) => (r.text.clone(), r.quantity.clone(), r.auto_hide),
            _ => panic!("expected rows"),
        })
        .collect();
    assert_eq!(
        rows,
        vec![
            ("Apple".to_string(), vec![10, 5], true),
            ("Mango".to_string(), vec![0, 0], true),
            ("Zebra".to_string(), vec![30, 0], true),
        ]
    );
}

#[test]
fn entries_for_kind_without_accounts() {
    let kinds = kinds_for_account(vec![config("Cash", "drcr.asset")]);
    let b = BalanceMap::new();
    assert!(entries_for_kind("drcr.income", false, &vec![&b], &kinds).is_empty());
}
