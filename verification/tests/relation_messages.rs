use ex_grapha_core::relation::{collect_operands, parse_expression, parse_relation, RelationErrorKind};

#[test]
fn error_text_includes_position() {
    let errors = parse_expression("n-a & n-b").unwrap_err();
    assert_eq!(errors.len(), 1);
    assert_eq!(errors[0].kind, RelationErrorKind::UnexpectedToken);
    assert_eq!(errors[0].position, Some(4));
    assert_eq!(errors[0].message, "unexpected character '&'");
    assert_eq!(errors[0].to_string(), "unexpected character '&' (at position 4)");
}

#[test]
fn error_text_without_position() {
    let errors = parse_expression("   ").unwrap_err();
    assert_eq!(errors[0].kind, RelationErrorKind::EmptyExpression);
    assert_eq!(errors[0].position, None);
    assert_eq!(errors[0].to_string(), "relation expression is empty");
}

#[test]
fn positions_count_from_the_trimmed_text() {
    let errors = parse_expression("  n-a AND").unwrap_err();
    assert_eq!(errors[0].kind, RelationErrorKind::UnexpectedEnd);
    assert_eq!(errors[0].position, Some(7));
    assert_eq!(errors[0].message, "unexpected end of expression, expected operand");
}

#[test]
fn unmatched_paren_messages() {
    let errors = parse_expression("(n-a").unwrap_err();
    assert_eq!(errors[0].kind, RelationErrorKind::UnmatchedParen);
    assert_eq!(errors[0].position, Some(0));
    assert_eq!(errors[0].message, "unmatched opening parenthesis");

    let errors = parse_expression("(n-a n-b)").unwrap_err();
    assert_eq!(errors[0].kind, RelationErrorKind::UnmatchedParen);
    assert_eq!(errors[0].position, Some(5));
    assert_eq!(errors[0].message, "expected closing parenthesis, found NodeId(\"n-b\")");
}

#[test]
fn trailing_tokens_are_reported() {
    let errors = parse_expression("n-a )").unwrap_err();
    assert_eq!(errors[0].kind, RelationErrorKind::UnexpectedToken);
    assert_eq!(errors[0].position, Some(4));
    assert_eq!(errors[0].message, "unexpected token after expression: RParen");
}

#[test]
fn operand_errors_have_exact_messages() {
    let deps = vec!["n-aaa".to_string(), "n-ccc".to_string()];
    let errors = parse_relation("n-aaa OR n-bbb", &deps).unwrap_err();
    assert_eq!(errors.len(), 2);
    assert_eq!(errors[0].kind, RelationErrorKind::UnknownOperand);
    assert_eq!(errors[0].message, "operand `n-bbb` in expression is not in the dependency list");
    assert_eq!(errors[1].kind, RelationErrorKind::MissingOperand);
    assert_eq!(
        errors[1].message,
        "dependency `n-ccc` is not referenced in the relation expression"
    );
    assert_eq!(errors[1].position, None);
}

#[test]
fn accepted_exactly_when_operands_match_dependencies() {
    let deps = vec!["n-b".to_string(), "n-a".to_string()];
    assert!(parse_relation("NOT (n-a IFF n-b)", &deps).is_ok());
    assert!(parse_relation("n-a", &deps).is_err());
    assert!(parse_relation("n-a AND n-b AND n-c", &deps).is_err());
    let ast = parse_expression("n-a IMPLIES n-b IMPLIES n-a").unwrap();
    let ops = collect_operands(&ast);
    assert_eq!(ops.len(), 2);
    assert_eq!(ops.to_vec(), vec!["n-a".to_string(), "n-b".to_string()]);
}

#[test]
fn brackets_keep_the_tree() {
    let plain = parse_expression("n-a AND n-b OR n-c").unwrap();
    let bracketed = parse_expression("(n-a AND n-b OR n-c)").unwrap();
    assert_eq!(plain, bracketed);
    let spaced = parse_expression("( n-a IMPLIES n-b )").unwrap();
    assert_eq!(spaced, parse_expression(" n-a IMPLIES n-b ").unwrap());
}

#[test]
fn not_before_brackets_negates_the_tree() {
    let plain = parse_expression("n-a OR n-b").unwrap();
    let negated = parse_expression("NOT (n-a OR n-b)").unwrap();
    assert_eq!(negated, ex_grapha_core::relation::RelationExpr::Not(Box::new(plain)));
}

#[test]
fn surrounding_whitespace_changes_nothing() {
    assert_eq!(parse_expression(" n-a IFF n-b\t").unwrap(), parse_expression("n-a IFF n-b").unwrap());
    assert_eq!(parse_expression(" n-a &\t").unwrap_err(), parse_expression("n-a &").unwrap_err());
    assert_eq!(
        parse_expression("\u{3000}\n n-a AND n-b\r\n").unwrap(),
        parse_expression("n-a AND n-b").unwrap()
    );
}

#[test]
fn non_ascii_whitespace_is_trimmed_but_refused_inside_brackets() {
    assert!(parse_expression("\u{3000}n-a").is_ok());
    let errors = parse_expression("(\u{3000}n-a)").unwrap_err();
    assert_eq!(errors[0].kind, RelationErrorKind::UnexpectedToken);
    assert_eq!(errors[0].position, Some(1));
}
