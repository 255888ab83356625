use shopping::product::Product;
use shopping::search::ProductQueryMatcher;

fn widget() -> Product {
    Product::new(
        "p1".to_string(),
        "Premium Widget".to_string(),
        "Acme".to_string(),
        "A sturdy widget for daily use".to_string(),
        vec!["tools".to_string(), "Hardware".to_string()],
    )
}

#[test]
fn tokenize_splits_on_spaces() {
    let toks = ProductQueryMatcher::tokenize("hello brave world");
    assert_eq!(toks, vec!["hello".to_string(), "brave".to_string(), "world".to_string()]);
}

#[test]
fn tokenize_keeps_quoted_spaces_together() {
    let toks = ProductQueryMatcher::tokenize("\"premium widget\" acme");
    assert_eq!(toks, vec!["premium widget".to_string(), "acme".to_string()]);
}

#[test]
fn tokenize_trims_tokens() {
    let toks = ProductQueryMatcher::tokenize("\" padded \"");
    assert_eq!(toks, vec!["padded".to_string()]);
}

#[test]
fn tokenize_collapses_repeated_spaces() {
    let toks = ProductQueryMatcher::tokenize("  a   b  ");
    assert_eq!(toks, vec!["a".to_string(), "b".to_string()]);
}

#[test]
fn new_splits_field_filters_at_the_first_colon() {
    let m = ProductQueryMatcher::new("widget name:premium tag:a:b");
    assert_eq!(m.terms, vec!["widget".to_string()]);
    assert_eq!(
        m.field_filters,
        vec![
            ("name".to_string(), "premium".to_string()),
            ("tag".to_string(), "a:b".to_string()),
        ]
    );
}

#[test]
fn term_match_is_case_insensitive() {
    let m = ProductQueryMatcher::new("PREMIUM");
    assert!(m.matches(&widget()));
    let m = ProductQueryMatcher::new("\"premium widget\"");
    assert!(m.matches(&widget()));
    let m = ProductQueryMatcher::new("\"premium gadget\"");
    assert!(!m.matches(&widget()));
}

#[test]
fn terms_match_any_searchable_field() {
    assert!(ProductQueryMatcher::new("acme").matches(&widget()));
    assert!(ProductQueryMatcher::new("sturdy").matches(&widget()));
    assert!(ProductQueryMatcher::new("hardware").matches(&widget()));
    assert!(!ProductQueryMatcher::new("nonsense").matches(&widget()));
}

#[test]
fn every_term_must_match() {
    assert!(ProductQueryMatcher::new("premium acme").matches(&widget()));
    assert!(!ProductQueryMatcher::new("premium nonsense").matches(&widget()));
}

#[test]
fn field_filters_constrain_single_fields() {
    assert!(ProductQueryMatcher::new("name:widget").matches(&widget()));
    assert!(ProductQueryMatcher::new("brand:acme").matches(&widget()));
    assert!(ProductQueryMatcher::new("description:daily").matches(&widget()));
    assert!(ProductQueryMatcher::new("tag:hardware").matches(&widget()));
    assert!(!ProductQueryMatcher::new("brand:widget").matches(&widget()));
}

#[test]
fn product_id_filter_matches_exactly() {
    assert!(ProductQueryMatcher::new("product-id:p1").matches(&widget()));
    assert!(ProductQueryMatcher::new("productid:p1").matches(&widget()));
    assert!(!ProductQueryMatcher::new("product-id:P1").matches(&widget()));
    assert!(!ProductQueryMatcher::new("product-id:p").matches(&widget()));
    assert!(ProductQueryMatcher::new("product-id:*").matches(&widget()));
}

#[test]
fn unknown_fields_match_nothing() {
    assert!(!ProductQueryMatcher::new("color:red").matches(&widget()));
}

#[test]
fn star_matches_everything() {
    assert!(ProductQueryMatcher::new("*").matches(&widget()));
    assert!(ProductQueryMatcher::new("name:*").matches(&widget()));
}

#[test]
fn empty_query_matches_everything() {
    assert!(ProductQueryMatcher::new("").matches(&widget()));
}

#[test]
fn filters_and_terms_combine() {
    assert!(ProductQueryMatcher::new("brand:acme premium").matches(&widget()));
    assert!(!ProductQueryMatcher::new("brand:acme nonsense").matches(&widget()));
    assert!(!ProductQueryMatcher::new("brand:other premium").matches(&widget()));
}
