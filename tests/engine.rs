use libdrcr::balances::{
    balances_between, balances_from_transactions, try_update_balances_within, BalanceMap, Posting,
    Transaction, TransactionWithPostings,
};
use libdrcr::engine::{
    execute_step, generate_report, register_dynamic_builders, resolve_steps, solve_for, DBBalances,
    DBTransactions, GenerateBalances, ReportingContext, ReportingError, ReportingStep, SourceStep,
};
use libdrcr::graph::{
    check_dependencies, sort_steps, would_be_ready_to_execute, ReportingCalculationError,
    ReportingGraphDependencies,
};
use libdrcr::products::{
    ReportingExecutionError, ReportingProduct, ReportingProducts, Transactions,
};
use libdrcr::types::{
    Date, DateArgs, DateStartDateEndArgs, ReportingProductId, ReportingProductKind,
    ReportingStepArgs, ReportingStepId, VoidArgs,
};

fn posting(account: &str, quantity: i64) -> Posting {
    Posting {
        id: None,
        transaction_id: None,
        description: None,
        account: account.to_string(),
        quantity,
        commodity: "AUD".to_string(),
        quantity_ascost: None,
    }
}

fn transaction(days: i32, postings: Vec<Posting>) -> TransactionWithPostings {
    TransactionWithPostings {
        transaction: Transaction { id: Some(1), dt: Date { days }, description: "t".to_string() },
        postings,
    }
}

fn void() -> ReportingStepArgs {
    ReportingStepArgs::VoidArgs(VoidArgs {})
}

fn at(days: i32) -> ReportingStepArgs {
    ReportingStepArgs::DateArgs(DateArgs { date: Date { days } })
}

fn product(name: &str, kind: ReportingProductKind, args: ReportingStepArgs) -> ReportingProductId {
    ReportingProductId { name: name.to_string(), kind, args }
}

fn step_id(name: &str, kinds: Vec<ReportingProductKind>, args: ReportingStepArgs) -> ReportingStepId {
    ReportingStepId { name: name.to_string(), product_kinds: kinds, args }
}

fn transactions_source(name: &str, txs: Vec<TransactionWithPostings>) -> SourceStep {
    SourceStep::new(
        step_id(name, vec![ReportingProductKind::Transactions], void()),
        vec![],
        vec![(
            product(name, ReportingProductKind::Transactions, void()),
            ReportingProduct::Transactions(Transactions { transactions: txs }),
        )],
    )
    .expect("products match the id")
}

fn balance(store: &ReportingProducts, key: &ReportingProductId, account: &str) -> i64 {
    for (k, v) in store.map() {
        if k.same_as(key) {
            match v {
                ReportingProduct::BalancesAt(b) => return b.balances.get(&account.to_string()),
                ReportingProduct::BalancesBetween(b) => return b.balances.get(&account.to_string()),
                _ => panic!("not balances"),
            }
        }
    }
    panic!("product missing")
}

#[test]
fn balances_from_transactions_end_to_end() {
    let txs = vec![transaction(100, vec![posting("AccountX", 500), posting("AccountY", -500)])];
    let mut context = ReportingContext::new(Date { days: 365 }, "AUD".to_string());
    context.register_lookup_fn(transactions_source("AllTransactions", txs));
    register_dynamic_builders(&mut context);
    let target = product("AllTransactions", ReportingProductKind::BalancesAt, at(200));
    let store = match generate_report(vec![target.copy()], &mut context) {
        Ok(store) => store,
        Err(_) => panic!("report should succeed"),
    };
    assert_eq!(balance(&store, &target, "AccountX"), 500);
    assert_eq!(balance(&store, &target, "AccountY"), -500);
    assert_eq!(balance(&store, &target, "AccountZ"), 0);
    // The transactions and the balances, and nothing else
    assert_eq!(store.len(), 2);
}

#[test]
fn balances_between_end_to_end() {
    let txs = vec![
        transaction(10, vec![posting("Cash", 100), posting("Income", -100)]),
        transaction(20, vec![posting("Cash", 40), posting("Income", -40)]),
    ];
    let opening = SourceStep::new(
        step_id("Balances", vec![ReportingProductKind::BalancesAt], at(14)),
        vec![],
        vec![(product("Balances", ReportingProductKind::BalancesAt, at(14)), {
            let mut m = BalanceMap::new();
            m.insert("Cash".to_string(), 100);
            m.insert("Income".to_string(), -100);
            ReportingProduct::BalancesAt(libdrcr::balances::BalancesAt { balances: m })
        })],
    )
    .unwrap();
    let closing = SourceStep::new(
        step_id("Balances", vec![ReportingProductKind::BalancesAt], at(30)),
        vec![],
        vec![(product("Balances", ReportingProductKind::BalancesAt, at(30)), {
            let mut m = BalanceMap::new();
            m.insert("Cash".to_string(), 140);
            m.insert("Income".to_string(), -140);
            ReportingProduct::BalancesAt(libdrcr::balances::BalancesAt { balances: m })
        })],
    )
    .unwrap();
    let _ = txs;
    let mut context = ReportingContext::new(Date { days: 365 }, "AUD".to_string());
    context.register_lookup_fn(opening);
    context.register_lookup_fn(closing);
    register_dynamic_builders(&mut context);
    let range = ReportingStepArgs::DateStartDateEndArgs(DateStartDateEndArgs {
        date_start: Date { days: 15 },
        date_end: Date { days: 30 },
    });
    let target = product("Balances", ReportingProductKind::BalancesBetween, range);
    let store = match generate_report(vec![target.copy()], &mut context) {
        Ok(store) => store,
        Err(_) => panic!("report should succeed"),
    };
    assert_eq!(balance(&store, &target, "Cash"), 40);
    assert_eq!(balance(&store, &target, "Income"), -40);
    assert_eq!(store.len(), 3);
}

fn generic_product(name: &str) -> Vec<(ReportingProductId, ReportingProduct)> {
    vec![(
        product(name, ReportingProductKind::Generic, void()),
        ReportingProduct::Generic(libdrcr::report::DynamicReport::new(name.to_string(), vec![], vec![])),
    )]
}

#[test]
fn source_step_needs_a_product_per_kind() {
    let s = SourceStep::new(step_id("A", vec![ReportingProductKind::Generic], void()), vec![], vec![]);
    assert!(s.is_none());
}

#[test]
fn cycle_is_reported() {
    let a = SourceStep::new(
        step_id("A", vec![ReportingProductKind::Generic], void()),
        vec![product("B", ReportingProductKind::Generic, void())],
        generic_product("A"),
    )
    .unwrap();
    let b = SourceStep::new(
        step_id("B", vec![ReportingProductKind::Generic], void()),
        vec![product("A", ReportingProductKind::Generic, void())],
        generic_product("B"),
    )
    .unwrap();
    let mut context = ReportingContext::new(Date { days: 365 }, "AUD".to_string());
    context.register_lookup_fn(a);
    context.register_lookup_fn(b);
    let r = generate_report(vec![product("A", ReportingProductKind::Generic, void())], &mut context);
    assert!(matches!(
        r,
        Err(ReportingError::ReportingCalculationError(ReportingCalculationError::CircularDependencies))
    ));
}

#[test]
fn missing_product_is_reported() {
    let a = SourceStep::new(
        step_id("A", vec![ReportingProductKind::Generic], void()),
        vec![product("Nowhere", ReportingProductKind::Generic, void())],
        generic_product("A"),
    )
    .unwrap();
    let mut context = ReportingContext::new(Date { days: 365 }, "AUD".to_string());
    context.register_lookup_fn(a);
    let r = generate_report(vec![product("A", ReportingProductKind::Generic, void())], &mut context);
    assert!(matches!(
        r,
        Err(ReportingError::ReportingCalculationError(
            ReportingCalculationError::NoStepForProduct { .. }
        ))
    ));
}

#[test]
fn unknown_step_is_reported() {
    let mut deps = ReportingGraphDependencies::new();
    deps.add_dependency(
        step_id("Ghost", vec![ReportingProductKind::Generic], void()),
        product("A", ReportingProductKind::Generic, void()),
    );
    let ids = vec![step_id("A", vec![ReportingProductKind::Generic], void())];
    assert!(matches!(
        check_dependencies(&ids, &deps),
        Err(ReportingCalculationError::UnknownStep { .. })
    ));
}

#[test]
fn scheduler_orders_dependencies_first() {
    let ids = vec![
        step_id("C", vec![ReportingProductKind::Generic], void()),
        step_id("B", vec![ReportingProductKind::Generic], void()),
        step_id("A", vec![ReportingProductKind::Generic], void()),
    ];
    let mut deps = ReportingGraphDependencies::new();
    deps.add_dependency(ids[0].copy(), product("B", ReportingProductKind::Generic, void()));
    deps.add_dependency(ids[1].copy(), product("A", ReportingProductKind::Generic, void()));
    deps.add_dependency(ids[1].copy(), product("A", ReportingProductKind::Generic, void()));
    assert_eq!(deps.vec().len(), 2);
    assert!(check_dependencies(&ids, &deps).is_ok());
    match sort_steps(&ids, &deps) {
        Ok(order) => assert_eq!(order, vec![2, 1, 0]),
        Err(_) => panic!("graph has an order"),
    }
    assert!(!would_be_ready_to_execute(&ids[0], &ids, &deps, &vec![]));
    assert!(would_be_ready_to_execute(&ids[0], &ids, &deps, &vec![1]));
    assert_eq!(deps.dependencies_for_step(&ids[1]).len(), 1);
}

#[test]
fn add_target_dependency_adds_one_edge_per_kind() {
    let mut deps = ReportingGraphDependencies::new();
    let target = step_id(
        "Target",
        vec![ReportingProductKind::Transactions, ReportingProductKind::BalancesBetween],
        at(5),
    );
    deps.add_target_dependency(target.copy(), step_id("Dep", vec![], void()));
    assert_eq!(deps.vec().len(), 2);
    assert_eq!(deps.vec()[0].dependency.name, "Dep");
    assert!(deps.vec()[1].dependency.kind == ReportingProductKind::BalancesBetween);
    assert!(deps.vec()[1].dependency.args.same_as(&at(5)));
}

#[test]
fn generate_balances_step_folds_transactions() {
    let mut store = ReportingProducts::new();
    let tx_id = product("T", ReportingProductKind::Transactions, void());
    store.insert(
        tx_id.copy(),
        ReportingProduct::Transactions(Transactions {
            transactions: vec![
                transaction(1, vec![posting("X", 5), posting("Y", -5)]),
                transaction(2, vec![posting("X", 7), posting("Z", -7)]),
            ],
        }),
    );
    let step = ReportingStep::GenerateBalances(GenerateBalances {
        step_name: "T".to_string(),
        args: DateArgs { date: Date { days: 3 } },
    });
    let mut deps = ReportingGraphDependencies::new();
    deps.add_dependency(step.id(), tx_id);
    let out = match execute_step(step, &deps, &store) {
        Ok(out) => out,
        Err(_) => panic!("step should run"),
    };
    let key = product("T", ReportingProductKind::BalancesAt, at(3));
    assert_eq!(balance(&out, &key, "X"), 12);
    assert_eq!(balance(&out, &key, "Y"), -5);
    assert_eq!(balance(&out, &key, "Z"), -7);
}

#[test]
fn fold_overflow_is_detected() {
    let txs = vec![transaction(1, vec![posting("X", i64::MAX), posting("X", 1)])];
    assert!(balances_from_transactions(&txs).is_none());
}

#[test]
fn update_until_date_skips_later_transactions() {
    let txs = vec![
        transaction(1, vec![posting("X", 5)]),
        transaction(10, vec![posting("X", 100)]),
        transaction(3, vec![posting("X", 2)]),
    ];
    let mut m = BalanceMap::new();
    m.insert("X".to_string(), 1);
    assert!(try_update_balances_within(&mut m, &txs, Date { days: i32::MIN }, Date { days: 5 }));
    assert_eq!(m.get(&"X".to_string()), 8);
    let mut n = BalanceMap::new();
    assert!(try_update_balances_within(&mut n, &txs, Date { days: 2 }, Date { days: 10 }));
    assert_eq!(n.get(&"X".to_string()), 102);
}

#[test]
fn balances_between_subtracts_opening() {
    let mut closing = BalanceMap::new();
    closing.insert("A".to_string(), 10);
    let mut opening = BalanceMap::new();
    opening.insert("A".to_string(), 4);
    opening.insert("B".to_string(), 3);
    let diff = balances_between(&closing, &opening);
    assert_eq!(diff.get(&"A".to_string()), 6);
    assert_eq!(diff.get(&"B".to_string()), -3);
    assert_eq!(diff.to_vec().len(), 2);
}

#[test]
fn store_insert_replaces_in_place() {
    let mut store = ReportingProducts::new();
    let a = product("A", ReportingProductKind::Generic, void());
    let b = product("B", ReportingProductKind::Generic, void());
    let txs = |n: usize| {
        ReportingProduct::Transactions(Transactions {
            transactions: (0..n).map(|_| transaction(1, vec![])).collect(),
        })
    };
    store.insert(a.copy(), txs(1));
    store.insert(b.copy(), txs(2));
    store.insert(a.copy(), txs(3));
    assert_eq!(store.len(), 2);
    assert!(store.map()[0].0.same_as(&a));
    match store.get_or_err(&a) {
        Ok(ReportingProduct::Transactions(t)) => assert_eq!(t.transactions.len(), 3),
        _ => panic!("expected transactions"),
    }
    assert!(store.get_or_err(&product("C", ReportingProductKind::Generic, void())).is_err());
    let mut other = ReportingProducts::new();
    other.insert(product("C", ReportingProductKind::Generic, void()), txs(0));
    store.append(&mut other);
    assert_eq!(store.len(), 3);
    assert_eq!(other.len(), 0);
    assert!(store.get_owned_or_err(&b).is_ok());
}

#[test]
fn source_step_rejects_foreign_products() {
    let s = SourceStep::new(
        step_id("A", vec![ReportingProductKind::Generic], void()),
        vec![],
        vec![(
            product("B", ReportingProductKind::Transactions, void()),
            ReportingProduct::Transactions(Transactions { transactions: vec![] }),
        )],
    );
    assert!(s.is_none());
}

fn balances_source(name: &str, days: i32, entries: Vec<(&str, i64)>) -> SourceStep {
    let mut m = BalanceMap::new();
    for (account, q) in entries {
        m.insert(account.to_string(), q);
    }
    SourceStep::new(
        step_id(name, vec![ReportingProductKind::BalancesAt], at(days)),
        vec![],
        vec![(
            product(name, ReportingProductKind::BalancesAt, at(days)),
            ReportingProduct::BalancesAt(libdrcr::balances::BalancesAt { balances: m }),
        )],
    )
    .unwrap()
}

#[test]
fn update_balances_at_rolls_forward() {
    let combined = SourceStep::new(
        step_id("Combined", vec![ReportingProductKind::Transactions], at(20)),
        vec![product("Base", ReportingProductKind::BalancesAt, at(1))],
        vec![(
            product("Combined", ReportingProductKind::Transactions, at(20)),
            ReportingProduct::Transactions(Transactions {
                transactions: vec![
                    transaction(5, vec![posting("Cash", 10)]),
                    transaction(50, vec![posting("Cash", 1000)]),
                ],
            }),
        )],
    )
    .unwrap();
    let mut context = ReportingContext::new(Date { days: 365 }, "AUD".to_string());
    context.register_lookup_fn(combined);
    context.register_lookup_fn(balances_source("Base", 1, vec![("Cash", 100), ("Loan", -3)]));
    register_dynamic_builders(&mut context);
    let target = product("Combined", ReportingProductKind::BalancesAt, at(20));
    let store = match generate_report(
        vec![product("Combined", ReportingProductKind::Transactions, at(20)), target.copy()],
        &mut context,
    ) {
        Ok(store) => store,
        Err(_) => panic!("report should succeed"),
    };
    assert_eq!(balance(&store, &target, "Cash"), 110);
    assert_eq!(balance(&store, &target, "Loan"), -3);
    assert_eq!(store.len(), 3);
}

#[test]
fn update_balances_between_adds_transactions_in_range() {
    let range = DateStartDateEndArgs { date_start: Date { days: 10 }, date_end: Date { days: 20 } };
    let range_args = ReportingStepArgs::DateStartDateEndArgs(range);
    let mut opening = BalanceMap::new();
    opening.insert("Income".to_string(), -7);
    let base = SourceStep::new(
        step_id("Base", vec![ReportingProductKind::BalancesBetween], range_args.copy()),
        vec![],
        vec![(
            product("Base", ReportingProductKind::BalancesBetween, range_args.copy()),
            ReportingProduct::BalancesBetween(libdrcr::balances::BalancesBetween { balances: opening }),
        )],
    )
    .unwrap();
    let combined = SourceStep::new(
        step_id("Combined", vec![ReportingProductKind::Transactions], void()),
        vec![product("Base", ReportingProductKind::BalancesBetween, range_args.copy())],
        vec![(
            product("Combined", ReportingProductKind::Transactions, void()),
            ReportingProduct::Transactions(Transactions {
                transactions: vec![
                    transaction(5, vec![posting("Income", -1000)]),
                    transaction(10, vec![posting("Income", -2)]),
                    transaction(20, vec![posting("Income", -1)]),
                    transaction(21, vec![posting("Income", -1000)]),
                ],
            }),
        )],
    )
    .unwrap();
    let mut context = ReportingContext::new(Date { days: 365 }, "AUD".to_string());
    context.register_lookup_fn(base);
    context.register_lookup_fn(combined);
    register_dynamic_builders(&mut context);
    let target = product("Combined", ReportingProductKind::BalancesBetween, range_args.copy());
    let store = match generate_report(
        vec![product("Combined", ReportingProductKind::Transactions, void()), target.copy()],
        &mut context,
    ) {
        Ok(store) => store,
        Err(_) => panic!("report should succeed"),
    };
    assert_eq!(balance(&store, &target, "Income"), -10);
}

#[test]
fn db_steps_feed_the_builders() {
    let txs = vec![transaction(3, vec![posting("Cash", 9), posting("Equity", -9)])];
    let mut context = ReportingContext::new(Date { days: 365 }, "AUD".to_string());
    context.register_lookup_fn(DBTransactions::step(txs));
    let mut opening = BalanceMap::new();
    opening.insert("Cash".to_string(), 1);
    context.register_lookup_fn(DBBalances::step(DateArgs { date: Date { days: 0 } }, opening));
    register_dynamic_builders(&mut context);
    let target = product("DBTransactions", ReportingProductKind::BalancesAt, at(10));
    let store = match generate_report(vec![target.copy()], &mut context) {
        Ok(store) => store,
        Err(_) => panic!("report should succeed"),
    };
    assert_eq!(balance(&store, &target, "Cash"), 9);
    assert_eq!(balance(&store, &target, "Equity"), -9);
    let at_zero = product("DBBalances", ReportingProductKind::BalancesAt, at(0));
    let store = match generate_report(vec![at_zero.copy()], &mut context) {
        Ok(store) => store,
        Err(_) => panic!("report should succeed"),
    };
    assert_eq!(balance(&store, &at_zero, "Cash"), 1);
}

#[test]
fn balances_between_from_rolled_forward_balances() {
    let combined = SourceStep::new(
        step_id("Combined", vec![ReportingProductKind::Transactions], void()),
        vec![product("Base", ReportingProductKind::BalancesAt, at(1))],
        vec![(
            product("Combined", ReportingProductKind::Transactions, void()),
            ReportingProduct::Transactions(Transactions {
                transactions: vec![
                    transaction(5, vec![posting("Cash", 10)]),
                    transaction(15, vec![posting("Cash", 20)]),
                    transaction(25, vec![posting("Cash", 40)]),
                ],
            }),
        )],
    )
    .unwrap();
    let mut context = ReportingContext::new(Date { days: 365 }, "AUD".to_string());
    context.register_lookup_fn(combined);
    context.register_lookup_fn(balances_source("Base", 1, vec![("Cash", 100)]));
    register_dynamic_builders(&mut context);
    let range = ReportingStepArgs::DateStartDateEndArgs(DateStartDateEndArgs {
        date_start: Date { days: 10 },
        date_end: Date { days: 20 },
    });
    let target = product("Combined", ReportingProductKind::BalancesBetween, range);
    let store = match generate_report(
        vec![product("Combined", ReportingProductKind::Transactions, void()), target.copy()],
        &mut context,
    ) {
        Ok(store) => store,
        Err(_) => panic!("report should succeed"),
    };
    assert_eq!(balance(&store, &target, "Cash"), 20);
    let closing = product("Combined", ReportingProductKind::BalancesAt, at(20));
    assert_eq!(balance(&store, &closing, "Cash"), 130);
    assert_eq!(store.len(), 5);
}

#[test]
fn missing_dependency_at_execution() {
    let store = ReportingProducts::new();
    let step = ReportingStep::GenerateBalances(GenerateBalances {
        step_name: "T".to_string(),
        args: DateArgs { date: Date { days: 3 } },
    });
    let mut deps = ReportingGraphDependencies::new();
    deps.add_dependency(step.id(), product("T", ReportingProductKind::Transactions, void()));
    assert!(matches!(
        execute_step(step, &deps, &store),
        Err(ReportingExecutionError::DependencyNotAvailable { .. })
    ));
    let empty = ReportingProducts::new();
    assert!(empty.get_owned_or_err(&product("T", ReportingProductKind::Transactions, void())).is_err());
}

#[test]
fn unresolvable_target_is_reported() {
    let mut context = ReportingContext::new(Date { days: 365 }, "AUD".to_string());
    register_dynamic_builders(&mut context);
    let r = generate_report(vec![product("Nothing", ReportingProductKind::BalancesAt, at(3))], &mut context);
    assert!(matches!(
        r,
        Err(ReportingError::ReportingCalculationError(
            ReportingCalculationError::NoStepForProduct { .. }
        ))
    ));
}

fn report_source(name: &str) -> SourceStep {
    SourceStep::new(
        step_id(name, vec![ReportingProductKind::Generic], void()),
        vec![],
        vec![(
            product(name, ReportingProductKind::Generic, void()),
            ReportingProduct::Generic(libdrcr::report::DynamicReport::new(
                name.to_string(),
                vec![],
                vec![],
            )),
        )],
    )
    .unwrap()
}

#[test]
fn feeding_step_adds_edges_to_named_steps() {
    let mut context = ReportingContext::new(Date { days: 365 }, "AUD".to_string());
    context.register_lookup_fn(report_source("Income"));
    context.register_lookup_fn(report_source("Tax").with_feeds(vec!["Income".to_string()]));
    let (steps, deps) = resolve_steps(
        vec![
            product("Income", ReportingProductKind::Generic, void()),
            product("Tax", ReportingProductKind::Generic, void()),
        ],
        &mut context,
    );
    assert_eq!(steps.len(), 2);
    assert_eq!(deps.vec().len(), 1);
    assert_eq!(deps.vec()[0].step.name, "Income");
    assert_eq!(deps.vec()[0].dependency.name, "Tax");
    let ids: Vec<ReportingStepId> = steps.iter().map(|s| s.id()).collect();
    match sort_steps(&ids, &deps) {
        Ok(order) => {
            assert_eq!(ids[order[0]].name, "Tax");
            assert_eq!(ids[order[1]].name, "Income");
        }
        Err(_) => panic!("graph has an order"),
    }
}

#[test]
fn solve_for_returns_sorted_steps() {
    let txs = vec![transaction(100, vec![posting("AccountX", 500), posting("AccountY", -500)])];
    let mut context = ReportingContext::new(Date { days: 365 }, "AUD".to_string());
    context.register_lookup_fn(transactions_source("AllTransactions", txs));
    register_dynamic_builders(&mut context);
    let target = product("AllTransactions", ReportingProductKind::BalancesAt, at(200));
    match solve_for(vec![target.copy()], &mut context) {
        Ok((sorted, deps)) => {
            assert_eq!(sorted.len(), 2);
            assert!(sorted[0].id().product_kinds == vec![ReportingProductKind::Transactions]);
            assert!(sorted[1].id().produces(&target));
            assert_eq!(deps.vec().len(), 1);
        }
        Err(_) => panic!("graph resolves"),
    }
}
