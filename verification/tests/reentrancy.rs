use clarus::ast::ClarityNode;
use clarus::detector::reentrancy::detect;
use clarus::parser::Parser;

fn parse(source: &str) -> Vec<ClarityNode> {
    Parser::new(source).parse().unwrap()
}

#[test]
fn detects_basic_reentrancy() {
    let source = r#"
            (define-public (withdraw (amount uint))
                (begin
                    (contract-call? .token transfer tx-sender amount)
                    (map-set balances tx-sender u0)
                )
            )
        "#;

    let nodes = parse(source);
    let findings = detect(&nodes);

    assert_eq!(findings.len(), 1);
    assert_eq!(findings[0].function_name, "withdraw");
    assert!(findings[0].message.contains("map-set"));
}

#[test]
fn no_finding_when_mutation_before_call() {
    let source = r#"
            (define-public (withdraw (amount uint))
                (begin
                    (map-set balances tx-sender u0)
                    (contract-call? .token transfer tx-sender amount)
                )
            )
        "#;

    let nodes = parse(source);
    let findings = detect(&nodes);

    assert!(findings.is_empty());
}

#[test]
fn detects_var_set_after_call() {
    let source = r#"
            (define-public (claim)
                (begin
                    (contract-call? .rewards distribute tx-sender)
                    (var-set total-claimed u100)
                )
            )
        "#;

    let nodes = parse(source);
    let findings = detect(&nodes);

    assert_eq!(findings.len(), 1);
    assert!(findings[0].message.contains("var-set"));
}

#[test]
fn ignores_private_functions() {
    let source = r#"
            (define-private (internal-withdraw (amount uint))
                (begin
                    (contract-call? .token transfer tx-sender amount)
                    (map-set balances tx-sender u0)
                )
            )
        "#;

    let nodes = parse(source);
    let findings = detect(&nodes);

    assert!(findings.is_empty());
}

#[test]
fn detects_nested_mutation_in_if_block() {
    let source = r#"
            (define-public (withdraw (amount uint))
                (begin
                    (contract-call? .token transfer tx-sender amount)
                    (if (> amount u0)
                        (map-set balances tx-sender u0)
                        (ok false)
                    )
                )
            )
        "#;

    let nodes = parse(source);
    let findings = detect(&nodes);

    assert_eq!(findings.len(), 1);
}

#[test]
fn detects_reentrancy_inside_let_block() {
    let source = r#"
            (define-public (withdraw (amount uint))
                (let ((bal (default-to u0 (map-get? balances tx-sender))))
                    (try! (stx-transfer? amount (as-contract tx-sender) tx-sender))
                    (map-set balances tx-sender u0)
                )
            )
        "#;

    let nodes = parse(source);
    let findings = detect(&nodes);

    assert_eq!(findings.len(), 1);
    assert!(findings[0].kind == "Reentrancy");
}
