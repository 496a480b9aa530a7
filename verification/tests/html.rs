use json_diff::html_generator::{
    generate, generate_line, generate_rec, get_array_elements_in_order, is_primitive_json_type,
    missing, newline_node, present, same, text_node, text_of_chain, to_html, Either, Label, Line,
    L2,
};
use json_diff::json_diff::{diff, ArrayDiff, JsonV, ObjectDiff};

#[test]
fn test_generate_html() {
    let map2: Vec<(String, JsonV)> = vec![(
        "item5".to_string(),
        JsonV::String("value5".to_string(), None),
    )];
    let mut map1: Vec<(String, JsonV)> = Vec::new();

    map1.push((
        "item1".to_string(),
        JsonV::String("value1".to_string(), None),
    ));
    map1.push((
        "item2".to_string(),
        JsonV::String("value2".to_string(), None),
    ));
    map1.push((
        "item3".to_string(),
        JsonV::Object(
            map2,
            vec![ObjectDiff::ObjectValueDiff(
                "missing1".to_string(),
                JsonV::Bool(
                    true,
                    Some(Box::new((
                        JsonV::Bool(false, None),
                        JsonV::Bool(true, None),
                    ))),
                ),
            )],
        ),
    ));
    map1.push((
        "item5".to_string(),
        JsonV::Array(
            vec![
                (0, JsonV::Number("10".to_string(), None)),
                (1, JsonV::Number("20".to_string(), None)),
            ],
            vec![ArrayDiff::ArrayValueInFirst(
                0,
                JsonV::String("arr".to_string(), None),
            )],
        ),
    ));

    let json = JsonV::Object(map1, Vec::new());
    println!("{:?}\n", json);
    let res = generate(json);

    println!("{}", res);
}

#[test]
fn test_keep_array_order() {
    let arr = vec![(1, JsonV::String("test2".to_string(), None))];
    let d = vec![ArrayDiff::ArrayValueInFirst(
        0,
        JsonV::String("test1".to_string(), None),
    )];
    let res = get_array_elements_in_order(arr, d);

    let exp: Vec<Either<(usize, JsonV), ArrayDiff>> = vec![
        Either::Right(ArrayDiff::ArrayValueInFirst(
            0,
            JsonV::String("test1".to_string(), None),
        )),
        Either::Left((1, JsonV::String("test2".to_string(), None))),
    ];

    println!("{}", format!("{:?}", res));
    println!("{}", format!("{:?}", exp));
    assert_eq!(format!("{:?}", res), format!("{:?}", exp));
}

#[test]
fn html_of_null() {
    let tree = JsonV::Null(None);
    assert_eq!(
        generate(tree),
        "<div style=\"display: flex; flex-direction: column;\"><div style=\"margin-left:0px\"><span class=\"same\" style=\"color:black\">null</span>\n</div></div>"
    );
}

#[test]
fn html_of_a_string() {
    let tree = JsonV::String("a".to_string(), None);
    assert_eq!(
        generate(tree),
        "<div style=\"display: flex; flex-direction: column;\"><div style=\"margin-left:0px\"><span class=\"same\" style=\"color:black\">\"a\"</span>\n</div></div>"
    );
}

#[test]
fn html_of_two_booleans_at_the_root() {
    let tree = JsonV::Bool(false, Some(Box::new((JsonV::Bool(true, None), JsonV::Bool(false, None)))));
    assert_eq!(
        generate(tree),
        "<div style=\"display: flex; flex-direction: column;\"><div style=\"margin-left:0px\"><span class=\"missing\" style=\"color:red\">---false---</span>\n<span class=\"same\" style=\"color:black\">, </span>\n<span class=\"present\" style=\"color:green\">+++true+++</span>\n</div></div>"
    );
}

#[test]
fn html_of_values_of_different_kinds() {
    let tree = JsonV::Null(Some(Box::new((JsonV::Bool(true, None), JsonV::String("true".to_string(), None)))));
    assert_eq!(
        generate(tree),
        "<div style=\"display: flex; flex-direction: column;\"><div style=\"margin-left:0px\"><span class=\"same\" style=\"color:black\">, </span>\n<span class=\"present\" style=\"color:green\">+++true+++</span>\n</div><div style=\"margin-left:0px\"><span class=\"missing\" style=\"color:red\">---\"true\"---</span>\n</div></div>"
    );
}

#[test]
fn html_of_an_empty_array() {
    let tree = JsonV::Array(vec![], vec![]);
    assert_eq!(
        generate(tree),
        "<div style=\"display: flex; flex-direction: column;\"><div style=\"margin-left:0px\"><span class=\"same\" style=\"color:black\">[</span>\n</div><div style=\"margin-left:0px\"><span class=\"same\" style=\"color:black\">]</span>\n</div></div>"
    );
}

#[test]
fn html_of_an_empty_object() {
    let tree = JsonV::Object(vec![], vec![]);
    assert_eq!(
        generate(tree),
        "<div style=\"display: flex; flex-direction: column;\"><div style=\"margin-left:0px\"><span class=\"same\" style=\"color:black\">{</span>\n</div><div style=\"margin-left:0px\"><span class=\"same\" style=\"color:black\">}</span>\n</div></div>"
    );
}

#[test]
fn html_of_an_array() {
    let tree = JsonV::Array(vec![(0, JsonV::String("a".to_string(), None))], vec![ArrayDiff::ArrayValueInFirst(1, JsonV::String("b".to_string(), None)), ArrayDiff::ArrayValueInSecond(2, JsonV::String("c".to_string(), None))]);
    assert_eq!(
        generate(tree),
        "<div style=\"display: flex; flex-direction: column;\"><div style=\"margin-left:0px\"><span class=\"same\" style=\"color:black\">[</span>\n</div><div style=\"margin-left:30px\"><span class=\"same\" style=\"color:black\">\"a\"</span>\n<span class=\"same\" style=\"color:black\">, </span>\n</div><div style=\"margin-left:30px\"><span class=\"present\" style=\"color:green\">+++\"b\"+++</span>\n<span class=\"same\" style=\"color:black\">, </span>\n</div><div style=\"margin-left:30px\"><span class=\"missing\" style=\"color:red\">---\"c\"---</span>\n<span class=\"same\" style=\"color:black\">, </span>\n</div><div style=\"margin-left:0px\"><span class=\"same\" style=\"color:black\">]</span>\n</div></div>"
    );
}

#[test]
fn html_of_an_array_follows_the_places() {
    let tree = JsonV::Array(vec![(1, JsonV::Number("10".to_string(), None)), (0, JsonV::Number("20".to_string(), None))], vec![ArrayDiff::ArrayValueInFirst(0, JsonV::String("arr".to_string(), None)), ArrayDiff::ArrayValueInSecond(1, JsonV::Null(None))]);
    assert_eq!(
        generate(tree),
        "<div style=\"display: flex; flex-direction: column;\"><div style=\"margin-left:0px\"><span class=\"same\" style=\"color:black\">[</span>\n</div><div style=\"margin-left:30px\"><span class=\"same\" style=\"color:black\">20</span>\n<span class=\"same\" style=\"color:black\">, </span>\n</div><div style=\"margin-left:30px\"><span class=\"present\" style=\"color:green\">+++\"arr\"+++</span>\n<span class=\"same\" style=\"color:black\">, </span>\n</div><div style=\"margin-left:30px\"><span class=\"same\" style=\"color:black\">10</span>\n<span class=\"same\" style=\"color:black\">, </span>\n</div><div style=\"margin-left:30px\"><span class=\"missing\" style=\"color:red\">---null---</span>\n<span class=\"same\" style=\"color:black\">, </span>\n</div><div style=\"margin-left:0px\"><span class=\"same\" style=\"color:black\">]</span>\n</div></div>"
    );
}

#[test]
fn html_of_an_object() {
    let tree = JsonV::Object(vec![("a".to_string(), JsonV::Number("1".to_string(), None))], vec![ObjectDiff::ObjectKeyPresent("x".to_string(), JsonV::Number("1".to_string(), None)), ObjectDiff::ObjectKeyMissing("y".to_string(), JsonV::Array(vec![(0, JsonV::Number("2".to_string(), None))], vec![])), ObjectDiff::ObjectValueDiff("b".to_string(), JsonV::Number("0".to_string(), Some(Box::new((JsonV::Number("2".to_string(), None), JsonV::Number("3".to_string(), None)))))), ObjectDiff::ObjectValueDiff("o".to_string(), JsonV::Object(vec![], vec![ObjectDiff::ObjectKeyPresent("k".to_string(), JsonV::Bool(true, None))]))]);
    assert_eq!(
        generate(tree),
        "<div style=\"display: flex; flex-direction: column;\"><div style=\"margin-left:0px\"><span class=\"same\" style=\"color:black\">{</span>\n</div><div style=\"margin-left:30px\"><span class=\"same\" style=\"color:black\">a: </span>\n<span class=\"same\" style=\"color:black\">1</span>\n<span class=\"same\" style=\"color:black\">, </span>\n</div><div style=\"margin-left:30px\"><span class=\"same\" style=\"color:black\">x: </span>\n<span class=\"present\" style=\"color:green\">+++1+++</span>\n<span class=\"same\" style=\"color:black\">, </span>\n</div><div style=\"margin-left:30px\"><span class=\"same\" style=\"color:black\">y: </span>\n<span class=\"same\" style=\"color:black\">[</span>\n</div><div style=\"margin-left:60px\"><span class=\"missing\" style=\"color:red\">---2---</span>\n<span class=\"same\" style=\"color:black\">, </span>\n</div><div style=\"margin-left:30px\"><span class=\"same\" style=\"color:black\">]</span>\n<span class=\"same\" style=\"color:black\">, </span>\n</div><div style=\"margin-left:30px\"><span class=\"same\" style=\"color:black\">b: ###</span>\n</div><div style=\"margin-left:30px\"><span class=\"present\" style=\"color:green\">+++2+++</span>\n<span class=\"same\" style=\"color:black\">, </span>\n<span class=\"missing\" style=\"color:red\">---3---</span>\n</div><div style=\"margin-left:30px\"><span class=\"same\" style=\"color:black\">###, </span>\n</div><div style=\"margin-left:30px\"><span class=\"same\" style=\"color:black\">o: </span>\n</div><div style=\"margin-left:30px\"><span class=\"same\" style=\"color:black\">{</span>\n</div><div style=\"margin-left:60px\"><span class=\"same\" style=\"color:black\">k: </span>\n<span class=\"present\" style=\"color:green\">+++true+++</span>\n<span class=\"same\" style=\"color:black\">, </span>\n</div><div style=\"margin-left:30px\"><span class=\"same\" style=\"color:black\">}</span>\n</div><div style=\"margin-left:30px\"><span class=\"same\" style=\"color:black\">, </span>\n</div><div style=\"margin-left:0px\"><span class=\"same\" style=\"color:black\">}</span>\n</div></div>"
    );
}

#[test]
fn html_of_a_nested_object() {
    let tree = JsonV::Object(vec![("item1".to_string(), JsonV::String("value1".to_string(), None)), ("item2".to_string(), JsonV::String("value2".to_string(), None)), ("item3".to_string(), JsonV::Object(vec![("item5".to_string(), JsonV::String("value5".to_string(), None))], vec![ObjectDiff::ObjectValueDiff("missing1".to_string(), JsonV::Bool(true, Some(Box::new((JsonV::Bool(false, None), JsonV::Bool(true, None))))))])), ("item5".to_string(), JsonV::Array(vec![(0, JsonV::Number("10".to_string(), None)), (1, JsonV::Number("20".to_string(), None))], vec![ArrayDiff::ArrayValueInFirst(0, JsonV::String("arr".to_string(), None))]))], vec![]);
    assert_eq!(
        generate(tree),
        "<div style=\"display: flex; flex-direction: column;\"><div style=\"margin-left:0px\"><span class=\"same\" style=\"color:black\">{</span>\n</div><div style=\"margin-left:30px\"><span class=\"same\" style=\"color:black\">item1: </span>\n<span class=\"same\" style=\"color:black\">\"value1\"</span>\n<span class=\"same\" style=\"color:black\">, </span>\n</div><div style=\"margin-left:30px\"><span class=\"same\" style=\"color:black\">item2: </span>\n<span class=\"same\" style=\"color:black\">\"value2\"</span>\n<span class=\"same\" style=\"color:black\">, </span>\n</div><div style=\"margin-left:30px\"><span class=\"same\" style=\"color:black\">item3: </span>\n<span class=\"same\" style=\"color:black\">{</span>\n</div><div style=\"margin-left:60px\"><span class=\"same\" style=\"color:black\">item5: </span>\n<span class=\"same\" style=\"color:black\">\"value5\"</span>\n<span class=\"same\" style=\"color:black\">, </span>\n</div><div style=\"margin-left:60px\"><span class=\"same\" style=\"color:black\">missing1: ###</span>\n</div><div style=\"margin-left:60px\"><span class=\"present\" style=\"color:green\">+++false+++</span>\n<span class=\"same\" style=\"color:black\">, </span>\n<span class=\"missing\" style=\"color:red\">---true---</span>\n</div><div style=\"margin-left:60px\"><span class=\"same\" style=\"color:black\">###, </span>\n</div><div style=\"margin-left:30px\"><span class=\"same\" style=\"color:black\">}</span>\n<span class=\"same\" style=\"color:black\">, </span>\n</div><div style=\"margin-left:30px\"><span class=\"same\" style=\"color:black\">item5: </span>\n<span class=\"same\" style=\"color:black\">[</span>\n</div><div style=\"margin-left:60px\"><span class=\"same\" style=\"color:black\">10</span>\n<span class=\"same\" style=\"color:black\">, </span>\n</div><div style=\"margin-left:60px\"><span class=\"present\" style=\"color:green\">+++\"arr\"+++</span>\n<span class=\"same\" style=\"color:black\">, </span>\n</div><div style=\"margin-left:60px\"><span class=\"same\" style=\"color:black\">20</span>\n<span class=\"same\" style=\"color:black\">, </span>\n</div><div style=\"margin-left:30px\"><span class=\"same\" style=\"color:black\">]</span>\n<span class=\"same\" style=\"color:black\">, </span>\n</div><div style=\"margin-left:0px\"><span class=\"same\" style=\"color:black\">}</span>\n</div></div>"
    );
}

#[test]
fn elements_of_one_place_keep_their_order() {
    let n = |text: &str| JsonV::Number(text.to_string(), None);
    let res = get_array_elements_in_order(
        vec![(2, n("a")), (0, n("b")), (2, n("c"))],
        vec![
            ArrayDiff::ArrayValueInSecond(2, n("d")),
            ArrayDiff::ArrayValueInFirst(1, n("e")),
            ArrayDiff::ArrayValueInFirst(0, n("f")),
        ],
    );
    assert_eq!(
        res,
        vec![
            Either::Left((0, n("b"))),
            Either::Right(ArrayDiff::ArrayValueInFirst(0, n("f"))),
            Either::Right(ArrayDiff::ArrayValueInFirst(1, n("e"))),
            Either::Left((2, n("a"))),
            Either::Left((2, n("c"))),
            Either::Right(ArrayDiff::ArrayValueInSecond(2, n("d"))),
        ]
    );
    assert_eq!(get_array_elements_in_order(vec![], vec![]), vec![]);
}

#[test]
fn spans_wrap_their_text() {
    assert_eq!(same("x".to_string()), "<span class=\"same\" style=\"color:black\">x</span>\n");
    assert_eq!(
        present("x".to_string()),
        "<span class=\"present\" style=\"color:green\">+++x+++</span>\n"
    );
    assert_eq!(
        missing("x".to_string()),
        "<span class=\"missing\" style=\"color:red\">---x---</span>\n"
    );
}

#[test]
fn generate_line_turns_a_link_into_a_part_of_a_row() {
    assert_eq!(generate_line(Line::Start), None);
    assert_eq!(generate_line(Line::NewLine), Some((0, L2::Newline)));
    assert_eq!(
        generate_line(Line::Same(2, "a".to_string())),
        Some((2, L2::Text(same("a".to_string()))))
    );
    assert_eq!(
        generate_line(Line::Text(3, "a".to_string())),
        Some((3, L2::Text(same("a".to_string()))))
    );
    assert_eq!(
        generate_line(Line::DiffMissing(1, "a".to_string())),
        Some((1, L2::Text(missing("a".to_string()))))
    );
    assert_eq!(
        generate_line(Line::DiffPresent(0, "a".to_string())),
        Some((0, L2::Text(present("a".to_string()))))
    );
}

#[test]
fn chain_of_an_array() {
    let tree = JsonV::Array(
        vec![(0, JsonV::Bool(true, None))],
        vec![ArrayDiff::ArrayValueInSecond(1, JsonV::Null(None))],
    );
    let mut chain = vec![Line::Start];
    generate_rec(4, &tree, &mut chain, Label::DiffPresent);
    assert_eq!(
        chain,
        vec![
            Line::Start,
            Line::Text(4, "[".to_string()),
            Line::NewLine,
            Line::DiffPresent(5, "true".to_string()),
            Line::Text(4, ", ".to_string()),
            Line::NewLine,
            Line::DiffMissing(5, "null".to_string()),
            Line::Text(4, ", ".to_string()),
            Line::NewLine,
            Line::Text(4, "]".to_string()),
        ]
    );
    assert_eq!(text_of_chain(&chain), "[\ntrue, \nnull, \n]");
}

#[test]
fn chain_of_a_scalar_at_the_deepest_level() {
    let tree = JsonV::Array(vec![(0, JsonV::Null(None))], vec![]);
    let mut chain = Vec::new();
    generate_rec(usize::MAX, &tree, &mut chain, Label::Same);
    assert_eq!(chain[2], Line::Same(usize::MAX, "null".to_string()));
}

#[test]
fn nodes_are_added_at_the_end() {
    let mut chain = vec![Line::Start];
    text_node(&mut chain, "a".to_string(), 1);
    newline_node(&mut chain);
    assert_eq!(chain, vec![Line::Start, Line::Text(1, "a".to_string()), Line::NewLine]);
    assert_eq!(Line::Text(1, "a".to_string()).to_string(), "a");
    assert_eq!(Line::NewLine.to_string(), "\n");
    assert_eq!(Line::Start.to_string(), "");
}

#[test]
fn rows_without_pieces_are_left_out() {
    let chain = vec![
        Line::Start,
        Line::NewLine,
        Line::NewLine,
        Line::Same(12, "a".to_string()),
        Line::Text(1, "b".to_string()),
        Line::NewLine,
        Line::NewLine,
    ];
    assert_eq!(
        to_html(chain),
        "<div style=\"display: flex; flex-direction: column;\"><div style=\"margin-left:360px\"><span class=\"same\" style=\"color:black\">a</span>\n<span class=\"same\" style=\"color:black\">b</span>\n</div></div>"
    );
    assert_eq!(to_html(vec![]), "<div style=\"display: flex; flex-direction: column;\"></div>");
    assert_eq!(
        to_html(vec![Line::Start]),
        "<div style=\"display: flex; flex-direction: column;\"></div>"
    );
}

#[test]
fn the_first_row_is_written_from_its_last_piece() {
    let chain = vec![
        Line::Start,
        Line::Same(1, "a".to_string()),
        Line::Text(2, "b".to_string()),
        Line::NewLine,
        Line::Same(3, "c".to_string()),
        Line::Text(4, "d".to_string()),
    ];
    assert_eq!(
        to_html(chain),
        "<div style=\"display: flex; flex-direction: column;\"><div style=\"margin-left:60px\"><span class=\"same\" style=\"color:black\">b</span>\n<span class=\"same\" style=\"color:black\">a</span>\n</div><div style=\"margin-left:90px\"><span class=\"same\" style=\"color:black\">c</span>\n<span class=\"same\" style=\"color:black\">d</span>\n</div></div>"
    );
}

#[test]
fn scalars_are_primitive() {
    assert!(is_primitive_json_type(&JsonV::Null(None)));
    assert!(is_primitive_json_type(&JsonV::Bool(true, None)));
    assert!(is_primitive_json_type(&JsonV::Number("1".to_string(), None)));
    assert!(is_primitive_json_type(&JsonV::String("".to_string(), None)));
    assert!(!is_primitive_json_type(&JsonV::Array(vec![], vec![])));
    assert!(!is_primitive_json_type(&JsonV::Object(vec![], vec![])));
}

#[test]
fn html_of_the_difference_of_two_texts() {
    let tree = diff("[1, 2]", "[1, 3]").unwrap();
    assert_eq!(
        generate(tree),
        "<div style=\"display: flex; flex-direction: column;\"><div style=\"margin-left:0px\"><span class=\"same\" style=\"color:black\">[</span>\n</div><div style=\"margin-left:30px\"><span class=\"same\" style=\"color:black\">1</span>\n<span class=\"same\" style=\"color:black\">, </span>\n</div><div style=\"margin-left:30px\"><span class=\"present\" style=\"color:green\">+++2+++</span>\n<span class=\"same\" style=\"color:black\">, </span>\n</div><div style=\"margin-left:30px\"><span class=\"missing\" style=\"color:red\">---3---</span>\n<span class=\"same\" style=\"color:black\">, </span>\n</div><div style=\"margin-left:0px\"><span class=\"same\" style=\"color:black\">]</span>\n</div></div>"
    );
}

#[test]
fn find_diff_shows_the_difference_or_an_error() {
    assert_eq!(json_diff::find_diff("[1, 2]", "[1, 3]"), generate(diff("[1, 2]", "[1, 3]").unwrap()));
    assert_eq!(json_diff::find_diff("[1, 2", "[1, 3]"), "error!");
    assert_eq!(json_diff::find_diff("1", ""), "error!");
}
