use json_diff::codec::parse;
use json_diff::json::Json;

#[test]
fn parse_reads_every_kind_of_value() {
    assert_eq!(parse("null").unwrap(), Json::Null);
    assert_eq!(parse(" true ").unwrap(), Json::Bool(true));
    assert_eq!(parse("false").unwrap(), Json::Bool(false));
    assert_eq!(parse("\"a\\nb\"").unwrap(), Json::String("a\nb".to_string()));
    assert_eq!(parse("[]").unwrap(), Json::Array(vec![]));
    assert_eq!(parse("{}").unwrap(), Json::Object(vec![]));
    assert_eq!(
        parse("[1, [2], {\"k\": null}]").unwrap(),
        Json::Array(vec![
            Json::Number("1".to_string()),
            Json::Array(vec![Json::Number("2".to_string())]),
            Json::Object(vec![("k".to_string(), Json::Null)]),
        ])
    );
}

#[test]
fn parse_keeps_a_number_as_its_text() {
    assert_eq!(parse("12").unwrap(), Json::Number("12".to_string()));
    assert_eq!(parse("-7").unwrap(), Json::Number("-7".to_string()));
    assert_eq!(parse("1.0").unwrap(), Json::Number("1.0".to_string()));
    assert_eq!(parse("2.50").unwrap(), Json::Number("2.5".to_string()));
    assert_eq!(parse("1e2").unwrap(), Json::Number("100.0".to_string()));
    assert_eq!(parse("18446744073709551615").unwrap(), Json::Number("18446744073709551615".to_string()));
}

#[test]
fn parse_orders_the_members_by_their_keys() {
    assert_eq!(
        parse(r#"{"b": 1, "a": 2, "b": 3}"#).unwrap(),
        Json::Object(vec![
            ("a".to_string(), Json::Number("2".to_string())),
            ("b".to_string(), Json::Number("3".to_string())),
        ])
    );
}

#[test]
fn parse_says_what_is_wrong() {
    let e = parse("[1,").unwrap_err();
    assert_eq!(e.message, "EOF while parsing a value at line 1 column 3");
    let e = parse("{\"a\" 1}").unwrap_err();
    assert_eq!(e.message, "expected `:` at line 1 column 6");
    assert!(parse("").is_err());
    assert!(parse("nul").is_err());
    assert!(parse("1 2").is_err());
}

#[test]
fn within_limits_holds_of_small_documents() {
    assert!(parse("[[1, 2], {\"a\": [3]}]").unwrap().within_limits());
    assert!(Json::Null.within_limits());
    assert!(Json::Array(vec![Json::Array(vec![])]).within_limits());
}
