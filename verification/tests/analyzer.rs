use clarus::analyzer;
use clarus::analyzer::Finding;
use clarus::analyzer::{count_project_severity, count_severity, ProjectFinding, Severity};
use clarus::parser;

fn run(source: &str) -> Vec<Finding> {
    let mut p = parser::Parser::new(source);
    let nodes = p.parse().unwrap();
    analyzer::analyze(&nodes)
}

#[test]
fn detects_reentrancy_stx_transfer() {
    let source = r#"
            (define-public (withdraw (amount uint))
                (let ((bal (default-to u0 (map-get? balances tx-sender))))
                    (try! (stx-transfer? amount (as-contract tx-sender) tx-sender))
                    (map-set balances tx-sender u0)
                ))
        "#;
    let findings = run(source);
    assert!(findings.iter().any(|f| f.kind == "Reentrancy"));
}

#[test]
fn detects_unchecked_stx_transfer() {
    let source = r#"
            (define-public (withdraw-all)
                (let ((bal (default-to u0 (map-get? balances tx-sender))))
                    (stx-transfer? bal (as-contract tx-sender) tx-sender)
                    (map-delete balances tx-sender)
                    (ok true)))
        "#;
    let findings = run(source);
    assert!(findings.iter().any(|f| f.kind == "Unchecked Return Value"));
    assert!(findings.iter().any(|f| f.kind == "Reentrancy"));
}

#[test]
fn detects_missing_access_control() {
    let source = r#"
            (define-public (deposit)
                (let ((amount (stx-get-balance tx-sender)))
                    (map-set balances tx-sender amount)
                    (ok true)))
        "#;
    let findings = run(source);
    assert!(findings.iter().any(|f| f.kind == "Missing Access Control"));
}

#[test]
fn detects_integer_underflow_without_bounds_check() {
    let source = r#"
            (define-public (transfer-from (owner principal) (amount uint))
                (let ((owner-balance (default-to u0 (map-get? balances owner))))
                    (map-set balances owner (- owner-balance amount))
                    (ok true)))
        "#;
    let findings = run(source);
    assert!(findings.iter().any(|f| f.kind == "Integer Underflow"));
}

#[test]
fn no_underflow_when_asserts_present() {
    let source = r#"
            (define-public (withdraw (amount uint))
                (let ((bal (default-to u0 (map-get? balances tx-sender))))
                    (asserts! (>= bal amount) (err u1))
                    (map-set balances tx-sender (- bal amount))
                    (ok true)))
        "#;
    let findings = run(source);
    assert!(!findings.iter().any(|f| f.kind == "Integer Underflow"));
}

#[test]
fn clean_contract_has_no_findings() {
    let source = r#"
            (define-public (withdraw (amount uint))
                (let ((bal (default-to u0 (map-get? balances tx-sender))))
                    (asserts! (>= bal amount) (err u1))
                    (asserts! (is-eq tx-sender contract-caller) (err u2))
                    (map-set balances tx-sender (- bal amount))
                    (try! (stx-transfer? amount (as-contract tx-sender) tx-sender))
                    (ok true)))
        "#;
    let findings = run(source);
    assert!(findings.iter().all(|f| f.kind != "Reentrancy"));
    assert!(findings.iter().all(|f| f.kind != "Integer Underflow"));
    assert!(findings.iter().all(|f| f.kind != "Unchecked Return Value"));
}

#[test]
fn severity_counts_for_the_summary() {
    let source = "(define-public (withdraw-all)\n (let ((bal u1))\n  (stx-transfer? bal (as-contract tx-sender) tx-sender)\n  (map-delete balances tx-sender)\n  (ok (- bal u1))))";
    let findings = run(source);
    let expected = |s: Severity| findings.iter().filter(|f| f.severity == s).count();
    for s in [Severity::Critical, Severity::High, Severity::Medium, Severity::Low] {
        assert_eq!(count_severity(&findings, s), expected(s));
    }
    assert!(count_severity(&findings, Severity::Critical) >= 1);
    let tagged: Vec<ProjectFinding> = findings
        .iter()
        .map(|f| ProjectFinding { contract_name: "vault".to_string(), finding: f.clone() })
        .collect();
    for s in [Severity::Critical, Severity::High, Severity::Medium, Severity::Low] {
        assert_eq!(count_project_severity(&tagged, s), expected(s));
    }
    assert_eq!(count_severity(&[], Severity::Low), 0);
}
