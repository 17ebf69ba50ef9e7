use recon::filter::{Filter, FilterSyntaxError};

#[test]
fn test_filter_simple() {
    let filter = Filter::parse(&vec!["where".to_string(), "value=1".to_string()]).unwrap();
    assert_eq!(filter, Filter::new(" value = \"1\""));
}

#[test]
fn test_filter_str1() {
    let filter = Filter::parse(&vec!["where".to_string(), "value=abc".to_string()]).unwrap();
    assert_eq!(filter, Filter::new(" value = \"abc\""));
}

#[test]
fn test_filter_str2() {
    let filter = Filter::parse(&vec![
        "where".to_string(),
        "value".to_string(),
        "=".to_string(),
        "asdf".to_string(),
    ])
    .unwrap();
    assert_eq!(filter, Filter::new(" value = \"asdf\""));
}

#[test]
fn test_filter_and() {
    let filter = Filter::parse(&vec![
        "where".to_string(),
        "value".to_string(),
        "=".to_string(),
        "foobar".to_string(),
        "and".to_string(),
        "id".to_string(),
        "=".to_string(),
        "1".to_string(),
    ])
    .unwrap();
    assert_eq!(filter, Filter::new(" value = \"foobar\" and id = \"1\""));
}

#[test]
fn test_filter_like() {
    let filter = Filter::parse(&vec![
        "where".to_string(),
        "value".to_string(),
        "like".to_string(),
        "%foobar".to_string(),
    ])
    .unwrap();
    assert_eq!(filter, Filter::new(" value like \"%foobar\""));
}

#[test]
fn filter_empty_matches_all() {
    let filter = Filter::parse(&vec![]).unwrap();
    assert_eq!(filter.query(), "1");
}

#[test]
fn filter_must_begin_with_where() {
    let r = Filter::parse(&vec!["value=1".to_string()]);
    assert_eq!(r, Err(FilterSyntaxError));
}

#[test]
fn filter_where_is_case_insensitive() {
    let filter = Filter::parse(&vec!["WHERE".to_string(), "value=x".to_string()]).unwrap();
    assert_eq!(filter, Filter::new(" value = \"x\""));
}

#[test]
fn filter_quotes_are_escaped() {
    let filter =
        Filter::parse(&vec!["where".to_string(), "value=a\"b".to_string()]).unwrap();
    assert_eq!(filter, Filter::new(" value = \"a\\\"b\""));
}

// The round trip the proofs state: the combined and the split form of
// one comparison compile to the same predicate.
#[test]
fn filter_round_trip_combined_and_split() {
    let combined =
        Filter::parse(&vec!["where".to_string(), "key=val".to_string()]).unwrap();
    let split = Filter::parse(&vec![
        "where".to_string(),
        "key".to_string(),
        "=".to_string(),
        "val".to_string(),
    ])
    .unwrap();
    assert_eq!(combined, split);
}
