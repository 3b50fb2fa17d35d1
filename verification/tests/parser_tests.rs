use crt_core::expr::{tokenize_expr, Expr, ExprParseError, ExprParser, LexError, Token};
use crt_core::parser::{
    parse_crt, parse_entity_line, parse_expr, parse_link_line, validate_refs, Entity, Link,
    ParseError,
};
use std::collections::BTreeMap;

const SAMPLE: &str = "Entities\nE1. First\nE2. Second\nE3. Third\n\nLinks\nL1. (E1 AND E2) → E3\n";

fn e(id: u32) -> Expr {
    Expr::EntityRef(id)
}

fn not(inner: Expr) -> Expr {
    Expr::Not(Box::new(inner))
}

#[test]
fn parses_parenthesized_and() {
    parse_crt(SAMPLE).expect("should parse AND expression in parentheses");
}

#[test]
fn parses_simple_link() {
    let pair = "L1. E1 → E2\n";
    let parsed = parse_link_line(pair).expect("simple link line should parse");
    assert_eq!(parsed, Link { id: 1, segments: vec![e(1), e(2)] });
}

#[test]
fn raw_expr_parses() {
    let result = parse_expr("(E1 AND E2)").expect("parsed expression");
    assert!(matches!(result, Expr::And(_)));
    assert_eq!(result, Expr::And(vec![e(1), e(2)]));
}

#[test]
fn sample_tree_has_three_entities_and_one_link() {
    let tree = parse_crt(SAMPLE).unwrap();
    assert_eq!(tree.entities.len(), 3);
    assert_eq!(tree.entities[&2], Entity { id: 2, text: "Second".to_string() });
    assert_eq!(tree.links.len(), 1);
    assert_eq!(tree.links[0], Link { id: 1, segments: vec![Expr::And(vec![e(1), e(2)]), e(3)] });
}

#[test]
fn distinct_entities_all_arrive() {
    let mut text = String::new();
    for n in 1..=40 {
        text.push_str(&format!("E{}. entity number {}\n", n * 3, n));
    }
    let tree = parse_crt(&text).unwrap();
    assert_eq!(tree.entities.len(), 40);
    assert_eq!(tree.links.len(), 0);
}

#[test]
fn duplicate_entity_is_rejected() {
    assert_eq!(parse_crt("E1. a\nE1. b"), Err(ParseError::DuplicateEntity(1)));
}

#[test]
fn duplicate_link_is_rejected() {
    let text = "E1. a\nE2. b\nL4. E1 → E2\nL4. E2 → E1\n";
    assert_eq!(parse_crt(text), Err(ParseError::DuplicateLink(4)));
}

#[test]
fn undefined_reference_is_rejected() {
    assert_eq!(parse_crt("E1. a\nL1. E1 → E2"), Err(ParseError::UndefinedEntityReference(1, 2)));
}

#[test]
fn first_undefined_reference_in_document_order_is_named() {
    let text = "E1. a\nL7. E1 → NOT E9 → E8\nL2. E5 → E1\n";
    assert_eq!(parse_crt(text), Err(ParseError::UndefinedEntityReference(7, 9)));
}

#[test]
fn link_may_refer_to_entity_declared_later() {
    let tree = parse_crt("L1. E1 → E2\nE1. a\nE2. b\n").unwrap();
    assert_eq!(tree.entities.len(), 2);
    assert_eq!(tree.links.len(), 1);
}

#[test]
fn entity_and_link_numbers_do_not_collide() {
    let tree = parse_crt("E7. a\nE8. b\nL7. E7 → E8\n").unwrap();
    assert_eq!(tree.entities.len(), 2);
    assert_eq!(tree.links[0].id, 7);
}

#[test]
fn link_without_arrow_is_malformed() {
    assert_eq!(
        parse_crt("E1. a\n  L1. E1  \n"),
        Err(ParseError::MalformedLink("L1. E1".to_string()))
    );
    assert_eq!(parse_link_line("E1. a"), Err(ParseError::MalformedLink("E1. a".to_string())));
}

#[test]
fn entity_line_errors() {
    assert_eq!(parse_crt("E1.   \n"), Err(ParseError::EmptyEntityText(1)));
    assert_eq!(
        parse_crt("E99999999999. big\n"),
        Err(ParseError::InvalidId("99999999999".to_string()))
    );
    assert_eq!(
        parse_entity_line("Heading"),
        Err(ParseError::MalformedEntity("Heading".to_string()))
    );
    assert_eq!(parse_entity_line("  E12.  Some text  "), Ok((12, "Some text".to_string())));
    assert_eq!(parse_entity_line("E4294967295.x"), Ok((4294967295, "x".to_string())));
    assert_eq!(
        parse_entity_line("E4294967296.x"),
        Err(ParseError::InvalidId("4294967296".to_string()))
    );
}

#[test]
fn headings_and_blank_lines_carry_nothing() {
    let tree = parse_crt("\n\nEntities\n\nE1 without a dot\nLinks\nsome prose\n\n").unwrap();
    assert_eq!(tree.entities.len(), 0);
    assert_eq!(tree.links.len(), 0);
    let empty = parse_crt("").unwrap();
    assert_eq!(empty.entities.len(), 0);
}

#[test]
fn chain_link_keeps_every_segment() {
    let tree = parse_crt("E1. a\nE2. b\nE3. c\nL1. E1 → E2 → NOT E3 // why\n").unwrap();
    assert_eq!(tree.links[0].segments, vec![e(1), e(2), not(e(3))]);
}

#[test]
fn expression_errors_reach_the_document() {
    assert_eq!(
        parse_crt("E1. a\nL1. E1 → \n"),
        Err(ParseError::ExprParseError(ExprParseError::EmptyExpression))
    );
    assert_eq!(
        parse_crt("E1. a\nL1. E1 → E1 OR E1\n"),
        Err(ParseError::LexError(LexError::UnexpectedCharacter('O')))
    );
    assert_eq!(
        parse_crt("E1. a\nL1. (E1 → E1\n"),
        Err(ParseError::ExprParseError(ExprParseError::MissingCloseParen))
    );
}

#[test]
fn lexer_reads_every_token() {
    assert_eq!(
        tokenize_expr("( e12 and NoT\tE3 )"),
        Ok(vec![
            Token::LParen,
            Token::Entity(12),
            Token::And,
            Token::Not,
            Token::Entity(3),
            Token::RParen
        ])
    );
    assert_eq!(tokenize_expr(""), Ok(vec![]));
    assert_eq!(tokenize_expr("E1AND"), Ok(vec![Token::Entity(1), Token::And]));
}

#[test]
fn lexer_errors() {
    assert_eq!(tokenize_expr("E1 & E2"), Err(LexError::UnexpectedCharacter('&')));
    assert_eq!(tokenize_expr("NOTE1"), Err(LexError::UnexpectedIdentifier("NOTE".to_string())));
    assert_eq!(tokenize_expr("ANDY"), Err(LexError::UnexpectedIdentifier("ANDY".to_string())));
    assert_eq!(tokenize_expr("An"), Err(LexError::UnexpectedIdentifier("An".to_string())));
    assert_eq!(tokenize_expr("E"), Err(LexError::MissingDigits));
    assert_eq!(tokenize_expr("Ex"), Err(LexError::MissingDigits));
    assert_eq!(
        tokenize_expr("E4294967296"),
        Err(LexError::InvalidEntityId("4294967296".to_string()))
    );
    assert_eq!(tokenize_expr("E1\nE2"), Err(LexError::UnexpectedCharacter('\n')));
}

#[test]
fn expression_grammar() {
    assert_eq!(parse_expr("E1"), Ok(e(1)));
    assert_eq!(parse_expr("(E1)"), Ok(e(1)));
    assert_eq!(parse_expr("NOT NOT E1"), Ok(not(not(e(1)))));
    assert_eq!(parse_expr("NOT E1 AND E2"), Ok(Expr::And(vec![not(e(1)), e(2)])));
    assert_eq!(parse_expr("NOT (E1 AND E2)"), Ok(not(Expr::And(vec![e(1), e(2)]))));
    assert_eq!(parse_expr("E1 AND E2 AND E3"), Ok(Expr::And(vec![e(1), e(2), e(3)])));
    assert_eq!(
        parse_expr("(E1 AND E2) AND E3"),
        Ok(Expr::And(vec![Expr::And(vec![e(1), e(2)]), e(3)]))
    );
    assert_eq!(parse_expr("  E5 // trailing words ( and ) "), Ok(e(5)));
}

#[test]
fn expression_parse_errors() {
    let fails = |text: &str| match parse_expr(text) {
        Err(ParseError::ExprParseError(kind)) => kind,
        other => panic!("{:?}", other),
    };
    assert_eq!(fails(""), ExprParseError::EmptyExpression);
    assert_eq!(fails("   // only a comment"), ExprParseError::EmptyExpression);
    assert_eq!(fails("E1 E2"), ExprParseError::TrailingTokens);
    assert_eq!(fails("E1 )"), ExprParseError::TrailingTokens);
    assert_eq!(fails("(E1 AND E2"), ExprParseError::MissingCloseParen);
    assert_eq!(fails(")"), ExprParseError::UnexpectedCloseParen);
    assert_eq!(fails("E1 AND"), ExprParseError::UnexpectedEnd);
    assert_eq!(fails("NOT"), ExprParseError::UnexpectedEnd);
    assert_eq!(fails("AND E1"), ExprParseError::UnexpectedToken);
    assert_eq!(ExprParser::new(vec![]).parse(), Err(ExprParseError::UnexpectedEnd));
}

#[test]
fn validate_refs_names_link_and_entity() {
    let mut entities = BTreeMap::new();
    entities.insert(1, Entity { id: 1, text: "a".to_string() });
    let good = vec![Link { id: 3, segments: vec![e(1), not(e(1))] }];
    assert_eq!(validate_refs(&entities, &good), Ok(()));
    let bad = vec![Link { id: 3, segments: vec![e(1), Expr::And(vec![e(1), not(e(4))])] }];
    assert_eq!(validate_refs(&entities, &bad), Err(ParseError::UndefinedEntityReference(3, 4)));
}

#[test]
fn cloned_expression_is_equal() {
    let expr = Expr::And(vec![not(e(1)), Expr::And(vec![e(2), e(3)])]);
    assert_eq!(expr.clone(), expr);
    let link = Link { id: 9, segments: vec![expr.clone(), e(4)] };
    assert_eq!(link.clone(), link);
}

#[test]
fn line_ends_of_either_kind() {
    let tree = parse_crt("E1. a\r\nE2. b\r\n\r\nL1. E1 → E2\r\n").unwrap();
    assert_eq!(tree.entities[&1].text, "a");
    assert_eq!(tree.links[0].segments, vec![e(1), e(2)]);
    let no_final_break = parse_crt("E1. a\nE2. b\nL1. E1 → E2").unwrap();
    assert_eq!(no_final_break, tree);
}

#[test]
fn entity_text_may_hold_anything() {
    let tree = parse_crt("E1. L2. E3 → E4 // not a comment here\n").unwrap();
    assert_eq!(tree.entities[&1].text, "L2. E3 → E4 // not a comment here");
    assert_eq!(tree.links.len(), 0);
}

const FIXTURE: &str = "\
Current Reality Tree

Entities
E1. Releases go out once a quarter
E2. Every release needs a manual regression run
E3. The regression run takes two weeks
E4. Teams batch their changes
E5. Defects are found late
E6. Customers wait months for fixes
E7. There is an automated test suite

Links
L1. E2 AND E3 → E1
L2. E1 → E4 → E5
L3. (E1 AND E5) → E6 // the visible symptom
L4. NOT E7 → E2
L5. NOT (E7 AND E4) → E5
";

#[test]
fn parses_fixture_file() {
    let tree = parse_crt(FIXTURE).expect("the whole document should parse");
    assert_eq!(tree.entities.len(), 7);
    assert_eq!(tree.links.len(), 5);
    assert_eq!(tree.entities[&6].text, "Customers wait months for fixes");
    assert_eq!(tree.links[1], Link { id: 2, segments: vec![e(1), e(4), e(5)] });
    assert_eq!(tree.links[2], Link { id: 3, segments: vec![Expr::And(vec![e(1), e(5)]), e(6)] });
    assert_eq!(tree.links[4].segments[0], not(Expr::And(vec![e(7), e(4)])));
}
