use clarus::ast::ClarityNode;
use clarus::parser::Parser;

fn parse(source: &str) -> Result<Vec<ClarityNode>, String> {
    Parser::new(source).parse()
}

#[test]
fn unclosed_parenthesis_names_its_line() {
    let err = parse("\n(define-public (foo)\n  (ok true)").unwrap_err();
    assert_eq!(err, "Unclosed parenthesis opened at line 2");
}

#[test]
fn stray_closing_parenthesis_is_an_empty_atom() {
    let err = parse("(ok true)\n\n)").unwrap_err();
    assert_eq!(err, "Empty atom at line 3");
}

#[test]
fn string_literal_keeps_quotes_and_escapes() {
    let nodes = parse(r#"(print "a \"b\" c")"#).unwrap();
    let children = nodes[0].as_list().unwrap();
    assert_eq!(children.len(), 2);
    assert_eq!(children[1].as_atom(), Some(r#""a \"b\" c""#));
}

#[test]
fn empty_source_has_no_nodes() {
    assert!(parse("").unwrap().is_empty());
    assert!(parse("  ;; only a comment\n\t\n").unwrap().is_empty());
}

#[test]
fn nested_lists_and_lines() {
    let nodes = parse("(a\n (b c)\n d)\n(e)").unwrap();
    assert_eq!(nodes.len(), 2);
    assert_eq!(nodes[0].line(), 1);
    assert_eq!(nodes[1].line(), 4);
    let children = nodes[0].as_list().unwrap();
    assert_eq!(children.len(), 3);
    assert_eq!(children[0].as_atom(), Some("a"));
    assert!(children[1].is_form("b"));
    assert_eq!(children[1].line(), 2);
    assert_eq!(children[2].line(), 3);
    assert_eq!(children[2].as_atom(), Some("d"));
}

#[test]
fn atom_accessors() {
    let atom = ClarityNode::Atom("tx-sender".to_string(), 7);
    assert_eq!(atom.as_atom(), Some("tx-sender"));
    assert!(atom.as_list().is_none());
    assert!(!atom.is_form("tx-sender"));
    assert_eq!(atom.line(), 7);
    let empty = ClarityNode::List(vec![], 2);
    assert!(!empty.is_form("begin"));
    assert!(empty.as_atom().is_none());
}

#[test]
fn comment_shifts_lines_only() {
    let a = parse("(map-set m k v)").unwrap();
    let b = parse(";; note\n(map-set m k v)").unwrap();
    assert_eq!(a.len(), b.len());
    assert_eq!(a[0].line() + 1, b[0].line());
    assert!(b[0].is_form("map-set"));
}

#[test]
fn leading_newline_moves_every_node_down() {
    let plain = parse("(a b)\n(c)").unwrap();
    let shifted = parse("\n(a b)\n(c)").unwrap();
    assert_eq!(plain.len(), shifted.len());
    for (p, s) in plain.iter().zip(shifted.iter()) {
        assert_eq!(p.line() + 1, s.line());
    }
    assert_eq!(parse(")").unwrap_err(), "Empty atom at line 1");
    assert_eq!(parse("\n)").unwrap_err(), "Empty atom at line 2");
}

#[test]
fn leading_whitespace_changes_nothing() {
    assert_eq!(parse("(a (b c))").unwrap(), parse(" \t(a (b c))").unwrap());
    assert_eq!(parse("(a").unwrap_err(), parse("\t(a").unwrap_err());
}

#[test]
fn parses_exactly_when_parentheses_balance() {
    assert!(parse("(a (b)) c").is_ok());
    assert_eq!(parse("(a))\n(b)").unwrap_err(), "Empty atom at line 1");
    assert_eq!(parse("(a)\n\n) (").unwrap_err(), "Empty atom at line 3");
    assert_eq!(parse("(a\n(b)\n(c").unwrap_err(), "Unclosed parenthesis opened at line 3");
    assert_eq!(parse("(a\n(b\n)").unwrap_err(), "Unclosed parenthesis opened at line 1");
}

#[test]
fn every_node_line_counts_the_line_breaks_before_it() {
    let nodes = parse(";; header\n(a\n  (b\n c) \"s\")\nd").unwrap();
    assert_eq!(nodes.len(), 2);
    assert_eq!(nodes[0].line(), 2);
    let children = nodes[0].as_list().unwrap();
    assert_eq!(children[0].line(), 2);
    assert_eq!(children[1].line(), 3);
    let inner = children[1].as_list().unwrap();
    assert_eq!(inner[0].line(), 3);
    assert_eq!(inner[1].line(), 4);
    assert_eq!(children[2].as_atom(), Some("\"s\""));
    assert_eq!(children[2].line(), 4);
    assert_eq!(nodes[1].line(), 5);
}

#[test]
fn lines_after_a_string_literal() {
    let nodes = parse("\"a\"\n(b)").unwrap();
    assert_eq!(nodes.len(), 2);
    assert_eq!(nodes[0].line(), 1);
    assert_eq!(nodes[1].line(), 2);
    assert_eq!(nodes[1].as_list().unwrap()[0].line(), 2);
}
