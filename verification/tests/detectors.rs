use clarus::analyzer::Severity;
use clarus::ast::ClarityNode;
use clarus::detector::{access_control, integer_overflow, reentrancy, trait_dispatch, unchecked_returns};
use clarus::parser::Parser;

fn parse(source: &str) -> Vec<ClarityNode> {
    Parser::new(source).parse().unwrap()
}

#[test]
fn reentrancy_message_and_fix_name_the_call_line() {
    let nodes = parse("(define-public (withdraw)\n (begin\n  (stx-transfer? u1 tx-sender recipient)\n  (map-delete balances tx-sender)))");
    let findings = reentrancy::detect(&nodes);
    assert_eq!(findings.len(), 1);
    assert!(matches!(findings[0].severity, Severity::Critical));
    assert_eq!(findings[0].line, 4);
    assert_eq!(findings[0].message, "'map-delete' called after external interaction on line 3");
    assert_eq!(findings[0].fix, "Move 'map-delete' to before the external call on line 3");
}

#[test]
fn reentrancy_call_in_let_binding_counts() {
    let nodes = parse("(define-public (f)\n (let ((r (contract-call? .t g)))\n  (var-set x u1)))");
    let findings = reentrancy::detect(&nodes);
    assert_eq!(findings.len(), 1);
    assert_eq!(findings[0].message, "'var-set' called after external interaction on line 2");
}

#[test]
fn reentrancy_needs_a_named_function() {
    let nodes = parse("(define-public)\n(define-public ((x)) (contract-call? .t g) (map-set m k v))");
    assert!(reentrancy::detect(&nodes).is_empty());
}

#[test]
fn underflow_and_overflow_findings() {
    let nodes = parse("(define-private (f (a uint))\n (+ a (- a u1)))\n(define-public (g (a uint))\n (- a u1))");
    let findings = integer_overflow::detect(&nodes);
    assert_eq!(findings.len(), 3);
    assert_eq!(findings[0].kind, "Integer Overflow");
    assert!(matches!(findings[0].severity, Severity::Low));
    assert_eq!(findings[0].function_name, "f");
    assert_eq!(findings[0].line, 2);
    assert_eq!(findings[1].kind, "Integer Underflow");
    assert_eq!(findings[1].function_name, "f");
    assert_eq!(findings[1].line, 2);
    assert_eq!(findings[2].kind, "Integer Underflow");
    assert!(matches!(findings[2].severity, Severity::High));
    assert_eq!(findings[2].function_name, "g");
    assert_eq!(findings[2].line, 4);
    assert_eq!(findings[2].message, "Subtraction may underflow — no bounds check found in function");
    assert_eq!(findings[2].fix, "Add (asserts! (>= balance amount) (err u1)) before subtracting");
}

#[test]
fn bounds_check_after_subtraction_does_not_silence_it() {
    let nodes = parse(
        "(define-public (f (a uint) (b uint))\n(begin\n(var-set total (- a b))\n(asserts! (>= a b) (err u1))\n(ok (- a b))))",
    );
    let findings = integer_overflow::detect(&nodes);
    assert_eq!(findings.len(), 1);
    assert_eq!(findings[0].kind, "Integer Underflow");
    assert_eq!(findings[0].line, 3);
}

#[test]
fn bounds_check_before_subtraction_silences_it() {
    let nodes = parse("(define-public (g (a uint))\n (begin (asserts! (< u1 a) (err u1)) (ok (- a u1))))");
    let findings = integer_overflow::detect(&nodes);
    assert!(findings.is_empty());
}

#[test]
fn upper_bound_before_addition_silences_it() {
    let nodes = parse("(define-public (inc (a uint))\n(begin\n(asserts! (< a u100) (err u1))\n(ok (+ a u1))))");
    assert!(integer_overflow::detect(&nodes).is_empty());
    let lower = parse("(define-public (inc (a uint))\n(begin\n(asserts! (> a u100) (err u1))\n(ok (+ a u1))))");
    let findings = integer_overflow::detect(&lower);
    assert_eq!(findings.len(), 1);
    assert_eq!(findings[0].kind, "Integer Overflow");
    assert_eq!(findings[0].line, 4);
}

#[test]
fn operands_are_searched() {
    let nodes = parse("(define-private (f (a uint))\n (+ u1\n (- a u1)))");
    let findings = integer_overflow::detect(&nodes);
    assert_eq!(findings.len(), 2);
    assert_eq!((findings[0].kind.as_str(), findings[0].line), ("Integer Overflow", 2));
    assert_eq!((findings[1].kind.as_str(), findings[1].line), ("Integer Underflow", 3));
}

#[test]
fn access_control_finding_on_the_definition_line() {
    let nodes = parse("\n(define-public (set-owner (p principal))\n (var-set owner p))");
    let findings = access_control::detect(&nodes);
    assert_eq!(findings.len(), 1);
    assert_eq!(findings[0].line, 2);
    assert_eq!(findings[0].message, "Public function 'set-owner' modifies state without access control check");
    assert_eq!(
        findings[0].fix,
        "Add (asserts! (is-eq tx-sender contract-owner) (err u403)) at the top of the function"
    );
}

#[test]
fn access_control_accepts_nested_is_eq() {
    let nodes = parse("(define-public (set (p principal))\n (begin (if (is-eq contract-caller p) (var-set owner p) (ok false))))");
    assert!(access_control::detect(&nodes).is_empty());
}

#[test]
fn access_control_ignores_principal_outside_checks() {
    let nodes = parse("(define-public (set)\n (map-set m tx-sender u1))");
    assert_eq!(access_control::detect(&nodes).len(), 1);
}

#[test]
fn unchecked_return_message() {
    let nodes = parse("(define-private (pay)\n (begin\n  (ft-transfer? tok u1 a b)\n  (try! (nft-transfer? n u1 a b))))");
    let findings = unchecked_returns::detect(&nodes);
    assert_eq!(findings.len(), 1);
    assert_eq!(findings[0].line, 3);
    assert!(matches!(findings[0].severity, Severity::Medium));
    assert_eq!(findings[0].message, "'ft-transfer?' return value is not checked — errors will be silently ignored");
    assert_eq!(findings[0].fix, "Wrap with try! — (try! (ft-transfer? ...))");
}

#[test]
fn unchecked_call_nested_in_other_form_inside_wrapper_is_flagged() {
    let nodes = parse("(define-public (pay)\n (try! (begin (stx-transfer? u1 a b))))");
    assert_eq!(unchecked_returns::detect(&nodes).len(), 1);
}

#[test]
fn trait_dispatch_finding() {
    let nodes = parse("(define-public (swap (token <ft-trait>) (amount uint))\n (begin\n  (contract-call? token transfer amount tx-sender recipient)\n  (map-set reserves recipient (+ reserve amount))))");
    let findings = trait_dispatch::detect(&nodes, "dex");
    assert_eq!(findings.len(), 1);
    assert_eq!(findings[0].kind, "Trait Dispatch Reentrancy");
    assert_eq!(findings[0].function_name, "swap");
    assert_eq!(findings[0].line, 4);
    assert_eq!(
        findings[0].message,
        "'map-set' called after trait dispatch on line 3 — any conforming contract could be passed as the trait argument"
    );
    assert_eq!(
        findings[0].fix,
        "Move 'map-set' to before the trait-based contract-call? on line 3. Validate the trait implementor if possible."
    );
}

#[test]
fn trait_dispatch_needs_a_trait_parameter() {
    let nodes = parse("(define-public (swap (token principal))\n (begin (contract-call? token transfer) (map-set m k v)))");
    assert!(trait_dispatch::detect(&nodes, "dex").is_empty());
    let nodes = parse("(define-public (swap (token <t>))\n (begin (contract-call? .other transfer) (map-set m k v)))");
    assert!(trait_dispatch::detect(&nodes, "dex").is_empty());
}

#[test]
fn severity_labels() {
    assert_eq!(Severity::Critical.as_str(), "CRITICAL");
    assert_eq!(Severity::High.as_str(), "HIGH");
    assert_eq!(Severity::Medium.as_str(), "MEDIUM");
    assert_eq!(Severity::Low.as_str(), "LOW");
}

#[test]
fn decimal_notation() {
    assert_eq!(clarus::text::decimal(0), "0");
    assert_eq!(clarus::text::decimal(7), "7");
    assert_eq!(clarus::text::decimal(1234), "1234");
    assert_eq!(clarus::text::decimal(usize::MAX), usize::MAX.to_string());
}

#[test]
fn text_helpers() {
    assert_eq!(clarus::text::trim_leading_dots("..vault"), "vault");
    assert_eq!(clarus::text::trim_leading_dots("vault."), "vault.");
    assert!(clarus::text::str_lt("abc", "abd"));
    assert!(clarus::text::str_lt("ab", "abc"));
    assert!(!clarus::text::str_lt("abc", "abc"));
    assert!(clarus::text::str_lt("Z", "a"));
    assert!(clarus::text::is_whitespace('\u{3000}'));
    assert!(!clarus::text::is_whitespace('x'));
}

#[test]
fn detectors_report_parts_one_after_the_other() {
    let nodes = parse(
        "(define-public (f)\n (begin (stx-transfer? u1 tx-sender r) (map-set m k v) (- x u1)))\n\
         (define-public (g)\n (begin (contract-call? .t h) (var-set x u1) (+ y u2)))",
    );
    assert_eq!(nodes.len(), 2);
    let (a, b) = nodes.split_at(1);
    let whole = reentrancy::detect(&nodes);
    let parts: Vec<_> = reentrancy::detect(a).into_iter().chain(reentrancy::detect(b)).collect();
    assert_eq!(whole.len(), 2);
    assert_eq!(whole.len(), parts.len());
    for (w, p) in whole.iter().zip(parts.iter()) {
        assert_eq!((&w.function_name, &w.message, w.line), (&p.function_name, &p.message, p.line));
    }
    let ints = integer_overflow::detect(&nodes);
    let int_parts: Vec<_> = integer_overflow::detect(a).into_iter().chain(integer_overflow::detect(b)).collect();
    assert_eq!(ints.len(), 2);
    for (w, p) in ints.iter().zip(int_parts.iter()) {
        assert_eq!((&w.kind, &w.function_name, w.line), (&p.kind, &p.function_name, p.line));
    }
}

#[test]
fn no_external_call_means_no_reentrancy() {
    let nodes = parse("(define-public (f)\n (begin (map-set m k v) (var-set x u1) (ok true)))");
    assert!(reentrancy::detect(&nodes).is_empty());
}

#[test]
fn single_file_analysis_has_no_project_kinds() {
    let nodes = parse("(define-public (swap (token <ft-trait>) (amount uint))\n (begin\n  (contract-call? token transfer amount tx-sender recipient)\n  (map-set reserves recipient (+ reserve amount))))");
    let findings = clarus::analyzer::analyze(&nodes);
    assert!(!findings.is_empty());
    assert!(findings
        .iter()
        .all(|f| f.kind != "Trait Dispatch Reentrancy" && f.kind != "Cross-Contract Reentrancy"));
}
