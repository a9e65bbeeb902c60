use clarus::analyzer::{analyze_project, Severity};
use clarus::callgraph::{self, CallGraph};
use clarus::detector::cross_contract;
use clarus::loader::{clar_contract_name, contract_name, finish_loading, ContractSource};
use clarus::registry::Registry;

fn source(name: &str, text: &str) -> ContractSource {
    ContractSource {
        name: name.to_string(),
        path: format!("contracts/{}.clar", name),
        source: text.to_string(),
    }
}

const VAULT: &str = "(define-map balances principal uint)
(define-public (deposit (amount uint))
  (begin
    (try! (contract-call? .token transfer amount tx-sender))
    (ok true)))
(define-public (withdraw (amount uint))
  (begin
    (asserts! (is-eq tx-sender contract-caller) (err u1))
    (try! (contract-call? .token transfer amount tx-sender))
    (map-set balances tx-sender u0)
    (ok true)))";

const TOKEN: &str = "(define-public (transfer (amount uint) (to principal))
  (begin
    (contract-call? .vault withdraw amount)
    (ok true)))
(define-read-only (get-balance) (ok u0))";

const REWARDS: &str = "(define-public (claim)
  (begin
    (contract-call? .rewards helper)
    (var-set claimed true)
    (ok true)))
(define-private (helper) (ok true))";

fn project() -> Registry {
    Registry::build(vec![source("vault", VAULT), source("token", TOKEN), source("rewards", REWARDS)]).unwrap()
}

#[test]
fn registry_orders_and_finds_contracts() {
    let registry = project();
    assert_eq!(registry.len(), 3);
    let names: Vec<&str> = registry.all().iter().map(|c| c.name.as_str()).collect();
    assert_eq!(names, vec!["rewards", "token", "vault"]);
    assert_eq!(registry.names(), vec!["rewards", "token", "vault"]);
    assert_eq!(registry.get("vault").unwrap().name, "vault");
    assert_eq!(registry.get(".vault").unwrap().name, "vault");
    assert_eq!(registry.get("..token").unwrap().source.path, "contracts/token.clar");
    assert!(registry.get("nothing").is_none());
    assert!(Registry::new().get("vault").is_none());
}

#[test]
fn registry_later_source_replaces_earlier() {
    let registry = Registry::build(vec![source("a", "(x)"), source("a", "(y) (z)")]).unwrap();
    assert_eq!(registry.len(), 1);
    assert_eq!(registry.get("a").unwrap().ast.len(), 2);
}

#[test]
fn registry_reports_first_parse_error() {
    let err = Registry::build(vec![source("good", "(ok)"), source("bad", "(oops"), source("worse", ")")])
        .err()
        .unwrap();
    assert_eq!(err, "Parse error in 'bad': Unclosed parenthesis opened at line 1");
}

#[test]
fn call_graph_edges_and_lookups() {
    let registry = project();
    let graph = callgraph::build(&registry);
    assert_eq!(graph.edges.len(), 4);
    let first = &graph.edges[0];
    assert_eq!(first.caller_contract, "rewards");
    assert_eq!(first.caller_function, "claim");
    assert_eq!(first.callee_contract, "rewards");
    assert_eq!(first.callee_function, "helper");
    assert_eq!(first.line, 3);
    let by_withdraw = graph.calls_made_by("vault", "withdraw");
    assert_eq!(by_withdraw.len(), 1);
    assert_eq!(by_withdraw[0].callee_function, "transfer");
    assert_eq!(by_withdraw[0].line, 9);
    let into_transfer = graph.callers_of("token", "transfer");
    assert_eq!(into_transfer.len(), 2);
    assert_eq!(into_transfer[0].caller_function, "deposit");
    assert_eq!(into_transfer[1].caller_function, "withdraw");
    assert!(graph.calls_made_by("token", "get-balance").is_empty());
}

#[test]
fn call_graph_cycles_and_summary() {
    let registry = project();
    let graph = callgraph::build(&registry);
    let cycles = graph.find_cycles();
    assert!(!cycles.is_empty());
    for cycle in &cycles {
        assert!(!cycle.is_empty());
        for (k, node) in cycle.iter().enumerate() {
            let next = &cycle[(k + 1) % cycle.len()];
            assert!(graph
                .calls_made_by(&node.0, &node.1)
                .iter()
                .any(|e| e.callee_contract == next.0 && e.callee_function == next.1));
        }
    }
    let summary = graph.summary();
    assert_eq!(summary.total_contracts, 3);
    assert_eq!(summary.total_functions, 5);
    assert_eq!(summary.total_edges, 4);
    assert_eq!(summary.cycles.len(), cycles.len());
}

#[test]
fn empty_graph() {
    let graph = CallGraph::new();
    assert!(graph.edges.is_empty());
    assert!(graph.find_cycles().is_empty());
    let summary = graph.summary();
    assert_eq!(summary.total_contracts, 0);
    assert_eq!(summary.total_functions, 0);
}

#[test]
fn cross_contract_reentrancy_names_the_callee() {
    let registry = project();
    let graph = callgraph::build(&registry);
    let findings = cross_contract::detect(&registry, &graph);
    assert_eq!(findings.len(), 1);
    assert_eq!(findings[0].kind, "Cross-Contract Reentrancy");
    assert_eq!(findings[0].function_name, "withdraw");
    assert_eq!(findings[0].line, 10);
    assert_eq!(
        findings[0].message,
        "'map-set' mutated after calling token.transfer on line 9 — re-entry possible before state is updated"
    );
    assert_eq!(findings[0].fix, "Move 'map-set' to before the contract-call? to token.transfer on line 9");
}

#[test]
fn project_findings_sorted_by_severity_then_contract() {
    let registry = project();
    let graph = callgraph::build(&registry);
    let findings = analyze_project(&registry, &graph);
    assert!(!findings.is_empty());
    let rank = |s: &Severity| match s {
        Severity::Critical => 0,
        Severity::High => 1,
        Severity::Medium => 2,
        Severity::Low => 3,
    };
    for w in findings.windows(2) {
        let a = (rank(&w[0].finding.severity), w[0].contract_name.as_str());
        let b = (rank(&w[1].finding.severity), w[1].contract_name.as_str());
        assert!(a <= b);
    }
    let cross = findings.iter().find(|f| f.finding.kind == "Cross-Contract Reentrancy").unwrap();
    assert_eq!(cross.contract_name, "vault");
    assert!(findings.iter().any(|f| f.contract_name == "rewards" && f.finding.kind == "Reentrancy"));
    assert!(findings.iter().any(|f| f.contract_name == "token" && f.finding.kind == "Unchecked Return Value"));
}

#[test]
fn loading_sorts_by_name_and_rejects_empty() {
    let err = finish_loading("contracts", vec![]).unwrap_err();
    assert_eq!(err, "No .clar files found in 'contracts'");
    let loaded = finish_loading("d", vec![source("b", "1"), source("a", "2"), source("b", "3")]).unwrap();
    let order: Vec<(&str, &str)> = loaded.iter().map(|c| (c.name.as_str(), c.source.as_str())).collect();
    assert_eq!(order, vec![("a", "2"), ("b", "1"), ("b", "3")]);
}

#[test]
fn contract_names_from_file_names() {
    assert_eq!(clar_contract_name(Some("clar"), Some("vault")), Some("vault".to_string()));
    assert_eq!(clar_contract_name(Some("clar"), None), Some("unknown".to_string()));
    assert_eq!(clar_contract_name(Some("txt"), Some("notes")), None);
    assert_eq!(clar_contract_name(Some("CLAR"), Some("x")), None);
    assert_eq!(clar_contract_name(None, Some("Makefile")), None);
    assert_eq!(contract_name(Some("token")), "token");
    assert_eq!(contract_name(None), "unknown");
}

#[test]
fn cloned_contracts_keep_their_trees() {
    let registry = project();
    let vault = registry.get("vault").unwrap().clone();
    assert_eq!(vault.ast, registry.get("vault").unwrap().ast);
    let empty: Registry = Default::default();
    assert_eq!(empty.len(), 0);
}
