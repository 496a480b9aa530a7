use json_diff::codec::parse;
use json_diff::json::Json;
use json_diff::json_diff::{convert, diff, diff_rec, has_differences, ArrayDiff, JsonV, ObjectDiff};

fn number(text: &str) -> JsonV {
    JsonV::Number(text.to_string(), None)
}

fn string(text: &str) -> JsonV {
    JsonV::String(text.to_string(), None)
}

fn pair(first: JsonV, second: JsonV) -> Option<Box<(JsonV, JsonV)>> {
    Some(Box::new((first, second)))
}

fn unchanged(tree: &JsonV) -> bool {
    match tree {
        JsonV::Null(pair) => pair.is_none(),
        JsonV::String(_, pair) => pair.is_none(),
        JsonV::Bool(_, pair) => pair.is_none(),
        JsonV::Number(_, pair) => pair.is_none(),
        JsonV::Array(same, diffs) => diffs.is_empty() && same.iter().all(|e| unchanged(&e.1)),
        JsonV::Object(same, diffs) => diffs.is_empty() && same.iter().all(|e| unchanged(&e.1)),
    }
}

#[test]
fn test_diff_2() {
    let r = r#"
            {
            "f1": "v2",
            "f8": "v0",
            "f9": false,
            "f2": {
                "f3": 456,
                "f4": {
                    "f0":123
                }
            },
            "f3": {
                "f5": "v6"
            }
        }"#;
    let r2 = r#"
            {
            "f1": "v2",
            "f8": "v1",
            "f9": true,
            "f2": {
                "f3": 456,
                "f4": {
                    "f0":122
                }
            },
            "f3": "v6"
        }"#;

    println!("{}", r);
    println!("{}", r2);

    let ja: Json = parse(r).unwrap();
    let jb: Json = parse(r2).unwrap();
    let c2 = diff_rec(&ja, &jb);

    println!("");
    println!("{:?}", c2);
}

#[test]
fn test_diff_3() {
    let r = r#"
        {
            "f0": "test",
            "f1":
                [
                    {"item1": 123}, 
                    {"item2": 123}, 
                    {"item3": 345}, 
                    {"item4": 345} 
                ]
        }
        "#;
    let r2 = r#"
        {
            "f0": "test",
            "f1":
                [
                    {"item0": 123}, 
                    {"item2": 123}, 
                    {"item3": 123}, 
                    {"item5": 345}
                ]
        }
        "#;

    println!("{}", r);
    println!("{}", r2);

    let ja: Json = parse(r).unwrap();
    let jb: Json = parse(r2).unwrap();
    let c2 = diff_rec(&ja, &jb);

    println!("");
    println!("{:?}", c2);
}

#[test]
fn nested_documents_differ_where_expected() {
    let r = r#"{"f1": "v2", "f8": "v0", "f9": false,
        "f2": {"f3": 456, "f4": {"f0": 123}}, "f3": {"f5": "v6"}}"#;
    let r2 = r#"{"f1": "v2", "f8": "v1", "f9": true,
        "f2": {"f3": 456, "f4": {"f0": 122}}, "f3": "v6"}"#;
    let tree = diff(r, r2).unwrap();
    let expected = JsonV::Object(
        vec![("f1".to_string(), string("v2"))],
        vec![
            ObjectDiff::ObjectValueDiff(
                "f2".to_string(),
                JsonV::Object(
                    vec![("f3".to_string(), number("456"))],
                    vec![ObjectDiff::ObjectValueDiff(
                        "f4".to_string(),
                        JsonV::Object(
                            vec![],
                            vec![ObjectDiff::ObjectValueDiff(
                                "f0".to_string(),
                                JsonV::Number("0".to_string(), pair(number("123"), number("122"))),
                            )],
                        ),
                    )],
                ),
            ),
            ObjectDiff::ObjectValueDiff(
                "f3".to_string(),
                JsonV::Null(pair(
                    JsonV::Object(vec![("f5".to_string(), string("v6"))], vec![]),
                    string("v6"),
                )),
            ),
            ObjectDiff::ObjectValueDiff(
                "f8".to_string(),
                JsonV::String("".to_string(), pair(string("v0"), string("v1"))),
            ),
            ObjectDiff::ObjectValueDiff(
                "f9".to_string(),
                JsonV::Bool(false, pair(JsonV::Bool(false, None), JsonV::Bool(true, None))),
            ),
        ],
    );
    assert_eq!(tree, expected);
}

#[test]
fn arrays_of_objects_are_aligned_by_their_texts() {
    let r = r#"{"f0": "test", "f1": [{"item1": 123}, {"item2": 123}, {"item3": 345}, {"item4": 345}]}"#;
    let r2 = r#"{"f0": "test", "f1": [{"item0": 123}, {"item2": 123}, {"item3": 123}, {"item5": 345}]}"#;
    let tree = diff(r, r2).unwrap();
    let item = |key: &str, value: &str| JsonV::Object(vec![(key.to_string(), number(value))], vec![]);
    let expected = JsonV::Object(
        vec![("f0".to_string(), string("test"))],
        vec![ObjectDiff::ObjectValueDiff(
            "f1".to_string(),
            JsonV::Array(
                vec![(2, item("item2", "123"))],
                vec![
                    ArrayDiff::ArrayValueInFirst(0, item("item1", "123")),
                    ArrayDiff::ArrayValueInSecond(1, item("item0", "123")),
                    ArrayDiff::ArrayValueInFirst(3, item("item3", "345")),
                    ArrayDiff::ArrayValueInFirst(4, item("item4", "345")),
                    ArrayDiff::ArrayValueInSecond(5, item("item3", "123")),
                    ArrayDiff::ArrayValueInSecond(6, item("item5", "345")),
                ],
            ),
        )],
    );
    assert_eq!(tree, expected);
}

#[test]
fn object_with_one_changed_member() {
    let tree = diff(r#"{"a":1,"b":2}"#, r#"{"a":1,"b":3}"#).unwrap();
    assert_eq!(
        tree,
        JsonV::Object(
            vec![("a".to_string(), number("1"))],
            vec![ObjectDiff::ObjectValueDiff(
                "b".to_string(),
                JsonV::Number("0".to_string(), pair(number("2"), number("3"))),
            )],
        )
    );
}

#[test]
fn objects_without_a_common_key() {
    let tree = diff(r#"{"x":1}"#, r#"{"y":1}"#).unwrap();
    assert_eq!(
        tree,
        JsonV::Object(
            vec![],
            vec![
                ObjectDiff::ObjectKeyPresent("x".to_string(), number("1")),
                ObjectDiff::ObjectKeyMissing("y".to_string(), number("1")),
            ],
        )
    );
}

#[test]
fn array_with_one_changed_element() {
    let tree = diff(r#"["a","b"]"#, r#"["a","c"]"#).unwrap();
    assert_eq!(
        tree,
        JsonV::Array(
            vec![(0, string("a"))],
            vec![ArrayDiff::ArrayValueInFirst(1, string("b")), ArrayDiff::ArrayValueInSecond(2, string("c"))],
        )
    );
}

#[test]
fn values_of_different_kinds() {
    let tree = diff("true", "\"true\"").unwrap();
    assert_eq!(tree, JsonV::Null(pair(JsonV::Bool(true, None), string("true"))));
}

#[test]
fn null_against_something_else() {
    assert_eq!(diff("null", "0").unwrap(), JsonV::Null(pair(JsonV::Null(None), number("0"))));
    assert_eq!(diff("[]", "null").unwrap(), JsonV::Null(pair(JsonV::Array(vec![], vec![]), JsonV::Null(None))));
    assert_eq!(diff("{}", "[]").unwrap(), JsonV::Null(pair(JsonV::Object(vec![], vec![]), JsonV::Array(vec![], vec![]))));
    assert_eq!(diff("null", "null").unwrap(), JsonV::Null(None));
}

#[test]
fn scalars_that_agree() {
    assert_eq!(diff("true", "true").unwrap(), JsonV::Bool(true, None));
    assert_eq!(diff("false", "false").unwrap(), JsonV::Bool(false, None));
    assert_eq!(diff("\"a\"", "\"a\"").unwrap(), string("a"));
    assert_eq!(diff("12", "12").unwrap(), number("12"));
}

#[test]
fn scalars_that_differ() {
    assert_eq!(
        diff("true", "false").unwrap(),
        JsonV::Bool(false, pair(JsonV::Bool(true, None), JsonV::Bool(false, None)))
    );
    assert_eq!(
        diff("\"a\"", "\"b\"").unwrap(),
        JsonV::String("".to_string(), pair(string("a"), string("b")))
    );
    assert_eq!(
        diff("1", "2").unwrap(),
        JsonV::Number("0".to_string(), pair(number("1"), number("2")))
    );
}

#[test]
fn numbers_are_compared_as_doubles() {
    assert_eq!(diff("1", "1.0").unwrap(), number("1"));
    assert_eq!(diff("100", "1e2").unwrap(), number("100"));
    assert_eq!(diff("0.5", "5e-1").unwrap(), number("0.5"));
    assert_eq!(diff("-3", "-3.0").unwrap(), number("-3"));
    assert_eq!(diff("9007199254740993", "9007199254740992").unwrap(), number("9007199254740992"));
    assert_eq!(
        diff("0.1", "0.2").unwrap(),
        JsonV::Number("0".to_string(), pair(number("0.1"), number("0.2")))
    );
    assert_eq!(
        diff("0", "-0.0").unwrap(),
        JsonV::Number("0".to_string(), pair(number("0"), number("-0")))
    );
}

#[test]
fn elements_of_arrays_are_compared_as_texts() {
    assert_eq!(
        diff("[1]", "[1.0]").unwrap(),
        JsonV::Array(
            vec![],
            vec![ArrayDiff::ArrayValueInFirst(0, number("1")), ArrayDiff::ArrayValueInSecond(1, number("1"))],
        )
    );
    assert_eq!(
        diff(r#"[{"b":1,"a":"x"}]"#, r#"[{"a":"x","b":1}]"#).unwrap(),
        JsonV::Array(
            vec![(
                0,
                JsonV::Object(
                    vec![("a".to_string(), string("x")), ("b".to_string(), number("1"))],
                    vec![],
                ),
            )],
            vec![],
        )
    );
}

#[test]
fn array_against_an_empty_array() {
    assert_eq!(
        diff("[1,2]", "[]").unwrap(),
        JsonV::Array(
            vec![],
            vec![ArrayDiff::ArrayValueInFirst(0, number("1")), ArrayDiff::ArrayValueInFirst(1, number("2"))],
        )
    );
    assert_eq!(
        diff("[]", "[true]").unwrap(),
        JsonV::Array(vec![], vec![ArrayDiff::ArrayValueInSecond(0, JsonV::Bool(true, None))])
    );
    assert_eq!(diff("[]", "[]").unwrap(), JsonV::Array(vec![], vec![]));
}

#[test]
fn array_with_an_element_in_front() {
    assert_eq!(
        diff("[2,3]", "[1,2,3]").unwrap(),
        JsonV::Array(
            vec![(1, number("2")), (2, number("3"))],
            vec![ArrayDiff::ArrayValueInSecond(0, number("1"))],
        )
    );
}

#[test]
fn null_member_against_a_missing_member() {
    assert_eq!(
        diff(r#"{"a":null}"#, r#"{}"#).unwrap(),
        JsonV::Object(vec![], vec![ObjectDiff::ObjectKeyPresent("a".to_string(), JsonV::Null(None))])
    );
    assert_eq!(
        diff(r#"{"a":null}"#, r#"{"a":1}"#).unwrap(),
        JsonV::Object(
            vec![],
            vec![ObjectDiff::ObjectValueDiff(
                "a".to_string(),
                JsonV::Null(pair(JsonV::Null(None), number("1"))),
            )],
        )
    );
}

#[test]
fn members_come_in_the_order_of_their_keys() {
    let tree = diff(r#"{"d":1,"b":1,"c":1,"a":1}"#, r#"{"e":2,"c":2,"b":1,"0":2}"#).unwrap();
    assert_eq!(
        tree,
        JsonV::Object(
            vec![("b".to_string(), number("1"))],
            vec![
                ObjectDiff::ObjectKeyPresent("a".to_string(), number("1")),
                ObjectDiff::ObjectKeyPresent("d".to_string(), number("1")),
                ObjectDiff::ObjectKeyMissing("0".to_string(), number("2")),
                ObjectDiff::ObjectKeyMissing("e".to_string(), number("2")),
                ObjectDiff::ObjectValueDiff(
                    "c".to_string(),
                    JsonV::Number("0".to_string(), pair(number("1"), number("2"))),
                ),
            ],
        )
    );
}

#[test]
fn members_of_hand_made_objects_come_in_the_order_of_their_keys() {
    let a = Json::Object(vec![
        ("z".to_string(), Json::Bool(true)),
        ("a".to_string(), Json::Null),
    ]);
    let b = Json::Object(vec![
        ("m".to_string(), Json::Null),
        ("z".to_string(), Json::Bool(true)),
        ("a".to_string(), Json::Null),
    ]);
    assert_eq!(
        diff_rec(&a, &b),
        JsonV::Object(
            vec![("a".to_string(), JsonV::Null(None)), ("z".to_string(), JsonV::Bool(true, None))],
            vec![ObjectDiff::ObjectKeyMissing("m".to_string(), JsonV::Null(None))],
        )
    );
}

#[test]
fn a_document_does_not_differ_from_itself() {
    let texts = [
        "null",
        "true",
        "1.5",
        "\"text\"",
        "[]",
        "{}",
        r#"[1, "a", null, [2, [3]], {"k": [true, false]}]"#,
        r#"{"f1": "v2", "f2": {"f3": 456, "f4": {"f0": 123, "f5": [1, 2, {"a": []}]}}, "f9": false}"#,
    ];
    for text in texts {
        let tree = diff(text, text).unwrap();
        assert!(unchanged(&tree), "{}", text);
        assert!(!has_differences(&tree), "{}", text);
        assert_eq!(tree, convert(&parse(text).unwrap()), "{}", text);
    }
}

#[test]
fn keys_of_an_object_are_split_between_the_two_lists() {
    let a = r#"{"a":1,"b":[1],"c":{"x":1},"d":null,"e":"s"}"#;
    let b = r#"{"b":[2],"c":{"x":1},"d":null,"e":"t","f":0,"g":1}"#;
    match diff(a, b).unwrap() {
        JsonV::Object(same, diffs) => {
            let mut same_keys: Vec<String> = same.iter().map(|e| e.0.clone()).collect();
            let mut diff_keys: Vec<String> = diffs
                .iter()
                .map(|d| match d {
                    ObjectDiff::ObjectKeyMissing(k, _) => k.clone(),
                    ObjectDiff::ObjectKeyPresent(k, _) => k.clone(),
                    ObjectDiff::ObjectValueDiff(k, _) => k.clone(),
                })
                .collect();
            assert_eq!(same_keys, vec!["c", "d"]);
            assert_eq!(diff_keys, vec!["a", "f", "g", "b", "e"]);
            assert!(same_keys.iter().all(|k| !diff_keys.contains(k)));
            same_keys.append(&mut diff_keys);
            same_keys.sort();
            assert_eq!(same_keys, vec!["a", "b", "c", "d", "e", "f", "g"]);
        }
        other => panic!("not an object: {:?}", other),
    }
}

#[test]
fn places_of_an_array_have_no_gap() {
    let a = r#"[1,2,3,4,5,6]"#;
    let b = r#"[0,2,3,9,9,6,7]"#;
    match diff(a, b).unwrap() {
        JsonV::Array(same, diffs) => {
            let mut places: Vec<usize> = same.iter().map(|e| e.0).collect();
            for d in &diffs {
                match d {
                    ArrayDiff::ArrayValueInFirst(at, _) => places.push(*at),
                    ArrayDiff::ArrayValueInSecond(at, _) => places.push(*at),
                }
            }
            places.sort();
            let expected: Vec<usize> = (0..places.len()).collect();
            assert_eq!(places, expected);
            assert!(places.len() >= 7);
            assert!(places.len() <= 13);
        }
        other => panic!("not an array: {:?}", other),
    }
}

#[test]
fn has_differences_looks_at_the_root() {
    assert!(!has_differences(&JsonV::Null(None)));
    assert!(has_differences(&JsonV::Null(pair(JsonV::Null(None), JsonV::Bool(true, None)))));
    assert!(!has_differences(&string("a")));
    assert!(has_differences(&JsonV::String("".to_string(), pair(string("a"), string("b")))));
    assert!(!has_differences(&JsonV::Bool(true, None)));
    assert!(!has_differences(&number("1")));
    assert!(!has_differences(&JsonV::Array(vec![(0, number("1"))], vec![])));
    assert!(has_differences(&JsonV::Array(vec![], vec![ArrayDiff::ArrayValueInFirst(0, number("1"))])));
    assert!(!has_differences(&JsonV::Object(vec![("a".to_string(), number("1"))], vec![])));
    assert!(has_differences(&JsonV::Object(
        vec![],
        vec![ObjectDiff::ObjectKeyMissing("a".to_string(), number("1"))]
    )));
}

#[test]
fn convert_keeps_every_element_at_its_place() {
    let document = parse(r#"{"b": [true, null, "x", 2.50], "a": {"c": -1}}"#).unwrap();
    assert_eq!(
        convert(&document),
        JsonV::Object(
            vec![
                ("a".to_string(), JsonV::Object(vec![("c".to_string(), number("-1"))], vec![])),
                (
                    "b".to_string(),
                    JsonV::Array(
                        vec![
                            (0, JsonV::Bool(true, None)),
                            (1, JsonV::Null(None)),
                            (2, string("x")),
                            (3, number("2.5")),
                        ],
                        vec![],
                    ),
                ),
            ],
            vec![],
        )
    );
}

#[test]
fn a_number_that_is_none_counts_as_zero_and_differs_from_itself() {
    let odd = Json::Number("twelve".to_string());
    assert_eq!(convert(&odd), number("0"));
    assert_eq!(
        diff_rec(&odd, &odd),
        JsonV::Number("0".to_string(), pair(number("0"), number("0")))
    );
}

#[test]
fn diff_fails_where_a_text_is_no_json() {
    assert!(diff("{", "{}").is_err());
    assert!(diff("{}", "[1,").is_err());
    assert!(diff("", "").is_err());
    assert!(diff("{} x", "{}").is_err());
    assert!(diff("{}", "{}").is_ok());
}
