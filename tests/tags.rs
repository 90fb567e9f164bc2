use karva::tags::{parse_tag_expr, tokenize, TagExpr, TagFilterSet, Token};

fn set(exprs: &[&str]) -> TagFilterSet {
    let v: Vec<String> = exprs.iter().map(|s| s.to_string()).collect();
    TagFilterSet::new(&v).expect("valid expressions")
}

fn tags(names: &[&str]) -> Vec<String> {
    names.iter().map(|s| s.to_string()).collect()
}

#[test]
fn tokens_of_an_expression() {
    assert_eq!(
        tokenize("(slow or fast) and not flaky"),
        vec![
            Token::Open,
            Token::Word(1, 5),
            Token::Or,
            Token::Word(9, 13),
            Token::Close,
            Token::And,
            Token::Not,
            Token::Word(23, 28),
        ]
    );
    assert_eq!(tokenize("  "), vec![]);
}

#[test]
fn not_binds_tighter_than_and_than_or() {
    let e = parse_tag_expr("a or b and not c").expect("parse");
    assert_eq!(
        e,
        TagExpr::Or(
            Box::new(TagExpr::Tag(0, 1)),
            Box::new(TagExpr::And(
                Box::new(TagExpr::Tag(5, 6)),
                Box::new(TagExpr::Not(Box::new(TagExpr::Tag(15, 16))))
            ))
        )
    );
}

#[test]
fn malformed_expressions_are_refused() {
    assert!(parse_tag_expr("").is_none());
    assert!(parse_tag_expr("slow and").is_none());
    assert!(parse_tag_expr("(slow").is_none());
    assert!(parse_tag_expr("slow fast").is_none());
    assert!(parse_tag_expr("not").is_none());
    let v = vec!["slow".to_string(), "or".to_string()];
    assert!(matches!(TagFilterSet::new(&v), Err(1)));
}

#[test]
fn expressions_match_tags() {
    assert!(set(&["slow"]).matches(&tags(&["slow"])));
    assert!(!set(&["slow"]).matches(&tags(&["fast"])));
    assert!(set(&["not slow"]).matches(&tags(&["fast"])));
    assert!(set(&["slow and integration"]).matches(&tags(&["integration", "slow"])));
    assert!(!set(&["slow and integration"]).matches(&tags(&["slow"])));
    assert!(set(&["slow or integration"]).matches(&tags(&["integration"])));
    let grouped = set(&["(slow or fast) and not flaky"]);
    assert!(grouped.matches(&tags(&["fast"])));
    assert!(!grouped.matches(&tags(&["fast", "flaky"])));
    assert!(!grouped.matches(&tags(&[])));
}

#[test]
fn any_expression_of_a_set_suffices() {
    let s = set(&["slow", "fast"]);
    assert!(s.matches(&tags(&["fast"])));
    assert!(!s.matches(&tags(&["other"])));
    let empty = set(&[]);
    assert!(empty.is_empty());
    assert!(empty.matches(&tags(&[])));
}
