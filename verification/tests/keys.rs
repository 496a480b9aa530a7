use json_diff::keys::{a_intersection_complement_b, has_key, insert_sorted, key_less, union};

fn strings(items: &[&str]) -> Vec<String> {
    items.iter().map(|s| s.to_string()).collect()
}

#[test]
fn union_is_sorted_and_without_repeats() {
    let res = union(strings(&["b", "a", "b"]), strings(&["c", "a"]));
    assert_eq!(res, strings(&["a", "b", "c"]));
}

#[test]
fn union_of_nothing_is_nothing() {
    assert_eq!(union(Vec::new(), Vec::new()), Vec::<String>::new());
}

#[test]
fn union_with_nothing_sorts() {
    assert_eq!(union(strings(&["z", "y"]), Vec::new()), strings(&["y", "z"]));
    assert_eq!(union(Vec::new(), strings(&["z", "y"])), strings(&["y", "z"]));
}

#[test]
fn complement_keeps_what_the_second_lacks() {
    let res = a_intersection_complement_b(strings(&["d", "a", "c"]), strings(&["c", "x"]));
    assert_eq!(res, strings(&["a", "d"]));
}

#[test]
fn complement_of_a_list_and_itself_is_empty() {
    let res = a_intersection_complement_b(strings(&["a", "b"]), strings(&["b", "a"]));
    assert_eq!(res, Vec::<String>::new());
}

#[test]
fn keys_are_ordered_as_strings_are() {
    let pairs = [
        ("", ""),
        ("", "a"),
        ("a", ""),
        ("a", "b"),
        ("b", "a"),
        ("a", "a"),
        ("a", "ab"),
        ("ab", "a"),
        ("B", "a"),
        ("z", "\u{e9}"),
        ("\u{e9}", "\u{20ac}"),
        ("\u{20ac}", "\u{1f600}"),
        ("\u{ffff}", "\u{10000}"),
        ("item10", "item2"),
    ];
    for (a, b) in pairs {
        assert_eq!(key_less(a, b), a < b, "{:?} {:?}", a, b);
    }
}

#[test]
fn has_key_finds_what_is_there() {
    let keys = strings(&["a", "b"]);
    assert!(has_key(&keys, &"b".to_string()));
    assert!(!has_key(&keys, &"c".to_string()));
    assert!(!has_key(&Vec::new(), &"c".to_string()));
}

#[test]
fn insert_sorted_puts_a_key_in_its_place() {
    let mut keys = strings(&["a", "c"]);
    insert_sorted(&mut keys, "b".to_string());
    assert_eq!(keys, strings(&["a", "b", "c"]));
    insert_sorted(&mut keys, "b".to_string());
    assert_eq!(keys, strings(&["a", "b", "c"]));
    insert_sorted(&mut keys, "".to_string());
    assert_eq!(keys, strings(&["", "a", "b", "c"]));
    insert_sorted(&mut keys, "d".to_string());
    assert_eq!(keys, strings(&["", "a", "b", "c", "d"]));
}
