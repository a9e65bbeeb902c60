use clarus::parser::Parser;

#[test]
fn test_parse_simple_list() {
    let source = "(map-set balances tx-sender u100)";
    let mut parser = Parser::new(source);
    let nodes = parser.parse().unwrap();

    assert_eq!(nodes.len(), 1);
    assert!(nodes[0].is_form("map-set"));
}

#[test]
fn test_parse_ignores_comments() {
    let source = "
            ;; this is a comment
            (define-public (foo) ;; inline comment
                (ok true)
            )
        ";
    let mut parser = Parser::new(source);
    let nodes = parser.parse().unwrap();

    assert_eq!(nodes.len(), 1);
    assert!(nodes[0].is_form("define-public"));
}

#[test]
fn test_line_numbers_tracked() {
    let source = "\n\n(map-set balances tx-sender u100)";
    let mut parser = Parser::new(source);
    let nodes = parser.parse().unwrap();

    assert_eq!(nodes[0].line(), 3);
}
