use clarus::callgraph::{self, CallGraph};
use clarus::detector::cross_contract;
use clarus::loader::{finish_loading, ContractSource};
use clarus::registry::Registry;

fn file(dir: &str, name: &str, text: &str) -> ContractSource {
    ContractSource {
        name: name.to_string(),
        path: format!("{}/{}.clar", dir, name),
        source: text.to_string(),
    }
}

const VULNERABLE: &str = "(define-map balances principal uint)
(define-public (withdraw (amount uint))
  (let ((balance (default-to u0 (map-get? balances tx-sender))))
    (try! (stx-transfer? amount (as-contract tx-sender) tx-sender))
    (map-set balances tx-sender (- balance amount))
    (contract-call? .safe deposit amount)
    (ok true)))";

const SAFE: &str = "(define-map balances principal uint)
(define-public (deposit (amount uint))
  (begin
    (asserts! (> amount u0) (err u1))
    (map-set balances tx-sender amount)
    (try! (contract-call? .token transfer amount tx-sender))
    (ok true)))";

const BUG: &str = "(define-data-var total uint u0)
(define-public (burn (amount uint))
  (begin
    (var-set total (- (var-get total) amount))
    (ok true)))";

/// The contracts of the single-project fixture, loaded as `load_contracts`
/// hands them to the library.
fn contracts() -> Vec<ContractSource> {
    let dir = "tests/contracts";
    finish_loading(
        dir,
        vec![file(dir, "vulnerable", VULNERABLE), file(dir, "safe", SAFE), file(dir, "bug", BUG)],
    )
    .unwrap()
}

const MULTI_VAULT: &str = "(define-map deposits principal uint)
(define-public (withdraw (amount uint))
  (begin
    (try! (contract-call? .token transfer amount tx-sender))
    (try! (contract-call? .rewards claim tx-sender))
    (map-delete deposits tx-sender)
    (ok true)))";

const MULTI_TOKEN: &str = "(define-public (transfer (amount uint) (to principal))
  (begin
    (try! (contract-call? .vault withdraw amount))
    (ok true)))";

const MULTI_REWARDS: &str = "(define-public (claim (who principal))
  (ok true))";

fn multicontract() -> Vec<ContractSource> {
    let dir = "tests/multicontract";
    finish_loading(
        dir,
        vec![
            file(dir, "vault", MULTI_VAULT),
            file(dir, "token", MULTI_TOKEN),
            file(dir, "rewards", MULTI_REWARDS),
        ],
    )
    .unwrap()
}

fn build_graph() -> CallGraph {
    let registry = Registry::build(contracts()).unwrap();
    callgraph::build(&registry)
}

#[test]
fn builds_registry_from_directory() {
    let registry = Registry::build(contracts()).unwrap();

    assert!(registry.len() >= 3);
}

#[test]
fn lookup_by_name() {
    let registry = Registry::build(contracts()).unwrap();

    let contract = registry.get("vulnerable");
    assert!(contract.is_some());
    assert_eq!(contract.unwrap().name, "vulnerable");
}

#[test]
fn lookup_with_leading_dot() {
    let registry = Registry::build(contracts()).unwrap();

    let contract = registry.get(".vulnerable");
    assert!(contract.is_some());
}

#[test]
fn builds_without_panic() {
    let graph = build_graph();
    println!("Edges found: {}", graph.edges.len());
    assert_eq!(graph.edges.len(), 2);
}

#[test]
fn summary_has_correct_structure() {
    let graph = build_graph();
    let summary = graph.summary();

    println!("Contracts : {}", summary.total_contracts);
    println!("Functions : {}", summary.total_functions);
    println!("Edges     : {}", summary.total_edges);
    println!("Cycles    : {}", summary.cycles.len());
    assert_eq!(summary.total_contracts, 3);
    assert_eq!(summary.total_functions, 3);
    assert_eq!(summary.total_edges, 2);
    assert!(summary.cycles.is_empty());
}

#[test]
fn detects_cross_contract_reentrancy_in_multicontract() {
    let registry = Registry::build(multicontract()).unwrap();
    let graph = callgraph::build(&registry);
    let findings = cross_contract::detect(&registry, &graph);

    assert!(!findings.is_empty());
    assert!(findings.iter().any(|f| f.kind == "Cross-Contract Reentrancy"));
    assert!(findings.iter().any(|f| f.function_name == "withdraw"));
}

#[test]
fn finding_names_callee_contract() {
    let registry = Registry::build(multicontract()).unwrap();
    let graph = callgraph::build(&registry);
    let findings = cross_contract::detect(&registry, &graph);

    let reentrancy = findings.iter().find(|f| f.kind == "Cross-Contract Reentrancy").unwrap();

    assert!(reentrancy.message.contains("token") || reentrancy.message.contains("rewards"));
}

fn graph_of(sources: Vec<(&str, &str)>) -> CallGraph {
    let registry = Registry::build(sources.into_iter().map(|(n, t)| file("p", n, t)).collect()).unwrap();
    callgraph::build(&registry)
}

#[test]
fn self_call_gives_exactly_one_cycle() {
    let graph = graph_of(vec![("a", "(define-public (f) (contract-call? .a f))")]);
    assert_eq!(graph.find_cycles(), vec![vec![("a".to_string(), "f".to_string())]]);
}

#[test]
fn independent_cycles_are_each_found() {
    let graph = graph_of(vec![
        ("a", "(define-public (f) (contract-call? .b g))\n(define-public (h) (contract-call? .a h))"),
        ("b", "(define-public (g) (contract-call? .a f))"),
        ("c", "(define-public (x) (contract-call? .c y))\n(define-public (y) (contract-call? .c x))"),
    ]);
    let cycles = graph.find_cycles();
    assert_eq!(cycles.len(), 3);
    assert!(cycles.len() <= graph.edges.len());
    let on = |c: &str, f: &str| cycles.iter().any(|cy| cy.iter().any(|(a, b)| a == c && b == f));
    assert!(on("a", "f") && on("b", "g"));
    assert!(on("a", "h"));
    assert!(on("c", "x") && on("c", "y"));
}
