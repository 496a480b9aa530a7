//! A difference of two documents, shown as HTML.
//!
//! The tree is first written as a chain of pieces of text, each marked as
//! shared, as missing or as present, with breaks between the rows; the chain
//! is then laid out in rows, one `div` for each.
use crate::decimal::{decimal, decimal_text};
use crate::json_diff::{
    array_diffs_of, members_of, object_diffs_of, place_of, same_of, ArrayDiff, ArrayDiffModel,
    DiffTree, JsonV, Named, ObjectDiff, ObjectDiffModel, Placed,
};
use crate::order::{lemma_ordered, ordered, reversed, sort_by_place};
use vstd::prelude::*;
use vstd::string::StringExecFns;

verus! {

/// A link of the chain: a piece of text at a depth of nesting, or a break.
#[derive(Debug, PartialEq)]
pub enum Line {
    /// Text on which the two documents agree.
    Same(usize, String),
    /// Text that only the second document has.
    DiffMissing(usize, String),
    /// Text that only the first document has.
    DiffPresent(usize, String),
    /// The end of a row.
    NewLine,
    /// Punctuation and keys.
    Text(usize, String),
    /// The head of a chain.
    Start,
}

/// The mathematical value of a `Line`.
pub enum LineModel {
    Same(int, Seq<char>),
    DiffMissing(int, Seq<char>),
    DiffPresent(int, Seq<char>),
    NewLine,
    Text(int, Seq<char>),
    Start,
}

impl View for Line {
    type V = LineModel;

    open spec fn view(&self) -> LineModel {
        match self {
            Line::Same(indent, text) => LineModel::Same(*indent as int, text@),
            Line::DiffMissing(indent, text) => LineModel::DiffMissing(*indent as int, text@),
            Line::DiffPresent(indent, text) => LineModel::DiffPresent(*indent as int, text@),
            Line::NewLine => LineModel::NewLine,
            Line::Text(indent, text) => LineModel::Text(*indent as int, text@),
            Line::Start => LineModel::Start,
        }
    }
}

impl Clone for Line {
    fn clone(&self) -> (r: Line)
        ensures
            r@ == self@,
    {
        match self {
            Line::Same(indent, text) => Line::Same(*indent, text.clone()),
            Line::DiffMissing(indent, text) => Line::DiffMissing(*indent, text.clone()),
            Line::DiffPresent(indent, text) => Line::DiffPresent(*indent, text.clone()),
            Line::NewLine => Line::NewLine,
            Line::Text(indent, text) => Line::Text(*indent, text.clone()),
            Line::Start => Line::Start,
        }
    }
}

/// The mathematical value of a chain.
pub open spec fn chain_of(lines: Seq<Line>) -> Seq<LineModel> {
    Seq::new(lines.len(), |i: int| lines[i]@)
}

/// The text of a link: its own text, a line feed for a break, nothing for
/// the head.
pub open spec fn line_text(line: LineModel) -> Seq<char> {
    match line {
        LineModel::Same(_, text) => text,
        LineModel::DiffMissing(_, text) => text,
        LineModel::DiffPresent(_, text) => text,
        LineModel::Text(_, text) => text,
        LineModel::Start => Seq::empty(),
        LineModel::NewLine => "\n"@,
    }
}

/// The texts of the first `n` links of a chain, one after the other.
pub open spec fn chain_text(lines: Seq<LineModel>, n: int) -> Seq<char>
    decreases n,
{
    if n <= 0 {
        Seq::empty()
    } else {
        chain_text(lines, n - 1) + line_text(lines[n - 1])
    }
}

impl Line {
    /// The text of the link.
    pub fn to_string(&self) -> (r: String)
        ensures
            r@ == line_text(self@),
    {
        match self {
            Line::Same(_, x) => x.clone(),
            Line::DiffMissing(_, x) => x.clone(),
            Line::DiffPresent(_, x) => x.clone(),
            Line::Text(_, s) => s.clone(),
            Line::Start => String::new(),
            Line::NewLine => "\n".to_owned(),
        }
    }
}

/// The texts of the links of a chain, one after the other.
pub fn text_of_chain(lines: &Vec<Line>) -> (agg: String)
    ensures
        agg@ == chain_text(chain_of(lines@), lines.len() as int),
{
    let mut agg = String::new();
    let mut i: usize = 0;
    while i < lines.len()
        invariant
            i <= lines.len(),
            agg@ == chain_text(chain_of(lines@), i as int),
        decreases lines.len() - i,
    {
        agg.append(lines[i].to_string().as_str());
        i += 1;
    }
    agg
}

/// Whether a piece of the tree is shared, or which side has it.
#[derive(Clone, Copy, Debug, PartialEq, Eq)]
pub enum Label {
    /// Both documents have it.
    Same,
    /// Only the second document has it.
    DiffMissing,
    /// Only the first document has it.
    DiffPresent,
}

/// The link for a piece of text under a label.
pub open spec fn labelled(label: Label, indent: int, text: Seq<char>) -> LineModel {
    match label {
        Label::Same => LineModel::Same(indent, text),
        Label::DiffMissing => LineModel::DiffMissing(indent, text),
        Label::DiffPresent => LineModel::DiffPresent(indent, text),
    }
}

/// The link for a piece of text under a label.
fn labelled_line(label: Label, indent: usize, text: String) -> (line: Line)
    ensures
        line@ == labelled(label, indent as int, text@),
{
    match label {
        Label::Same => Line::Same(indent, text),
        Label::DiffMissing => Line::DiffMissing(indent, text),
        Label::DiffPresent => Line::DiffPresent(indent, text),
    }
}

/// Adds a piece of punctuation to a chain.
pub fn text_node(previous: &mut Vec<Line>, text: String, indent: usize)
    ensures
        chain_of(final(previous)@) == chain_of(old(previous)@).push(
            LineModel::Text(indent as int, text@),
        ),
{
    previous.push(Line::Text(indent, text));
}

/// Adds a break to a chain.
pub fn newline_node(previous: &mut Vec<Line>)
    ensures
        chain_of(final(previous)@) == chain_of(old(previous)@).push(LineModel::NewLine),
{
    previous.push(Line::NewLine);
}

/// Shared text as HTML.
pub open spec fn same_span(text: Seq<char>) -> Seq<char> {
    "<span class=\"same\" style=\"color:black\">"@ + text + "</span>\n"@
}

/// Text that only the first document has, as HTML.
pub open spec fn present_span(text: Seq<char>) -> Seq<char> {
    "<span class=\"present\" style=\"color:green\">+++"@ + text + "+++</span>\n"@
}

/// Text that only the second document has, as HTML.
pub open spec fn missing_span(text: Seq<char>) -> Seq<char> {
    "<span class=\"missing\" style=\"color:red\">---"@ + text + "---</span>\n"@
}

/// Shared text as HTML.
pub fn same(s: String) -> (r: String)
    ensures
        r@ == same_span(s@),
{
    let mut r = "<span class=\"same\" style=\"color:black\">".to_owned();
    r.append(s.as_str());
    r.append("</span>\n");
    r
}

/// Text that only the first document has, as HTML.
pub fn present(s: String) -> (r: String)
    ensures
        r@ == present_span(s@),
{
    let mut r = "<span class=\"present\" style=\"color:green\">+++".to_owned();
    r.append(s.as_str());
    r.append("+++</span>\n");
    r
}

/// Text that only the second document has, as HTML.
pub fn missing(s: String) -> (r: String)
    ensures
        r@ == missing_span(s@),
{
    let mut r = "<span class=\"missing\" style=\"color:red\">---".to_owned();
    r.append(s.as_str());
    r.append("---</span>\n");
    r
}

/// What a link adds to a row: a piece of HTML, or the row's end.
#[derive(Debug, PartialEq)]
pub enum L2 {
    Text(String),
    Newline,
}

/// A piece of a row: HTML at a depth of nesting.
pub struct Piece {
    pub indent: int,
    pub html: Seq<char>,
}

/// What a link adds to a row.
pub enum Part {
    /// A piece of HTML.
    Piece(Piece),
    /// The end of the row.
    Break,
    /// Nothing.
    Nothing,
}

/// What a link adds to a row: a span for a piece of text, the row's end for
/// a break, nothing for the head of the chain.
pub open spec fn part_of(line: LineModel) -> Part {
    match line {
        LineModel::DiffMissing(indent, text) => Part::Piece(
            Piece { indent, html: missing_span(text) },
        ),
        LineModel::DiffPresent(indent, text) => Part::Piece(
            Piece { indent, html: present_span(text) },
        ),
        LineModel::NewLine => Part::Break,
        LineModel::Same(indent, text) => Part::Piece(Piece { indent, html: same_span(text) }),
        LineModel::Start => Part::Nothing,
        LineModel::Text(indent, text) => Part::Piece(Piece { indent, html: same_span(text) }),
    }
}

/// The mathematical value of what `generate_line` returns.
pub open spec fn part_view(part: Option<(usize, L2)>) -> Part {
    match part {
        Some((indent, L2::Text(html))) => Part::Piece(Piece { indent: indent as int, html: html@ }),
        Some((_, L2::Newline)) => Part::Break,
        None => Part::Nothing,
    }
}

/// What a link adds to a row.
pub fn generate_line(line: Line) -> (r: Option<(usize, L2)>)
    ensures
        part_view(r) == part_of(line@),
{
    match line {
        Line::DiffMissing(indent, text) => Some((indent, L2::Text(missing(text)))),
        Line::DiffPresent(indent, text) => Some((indent, L2::Text(present(text)))),
        Line::NewLine => Some((0, L2::Newline)),
        Line::Same(indent, text) => Some((indent, L2::Text(same(text)))),
        Line::Start => None,
        Line::Text(indent, text) => Some((indent, L2::Text(same(text)))),
    }
}

/// The HTML of the first `n` pieces of a row, one after the other.
pub open spec fn row_text(pieces: Seq<Piece>, n: int) -> Seq<char>
    decreases n,
{
    if n <= 0 {
        Seq::empty()
    } else {
        row_text(pieces, n - 1) + pieces[n - 1].html
    }
}

/// A row as HTML: a `div` with a left margin of 30 pixels for each level of
/// nesting of the row's first piece.
pub open spec fn row_html(pieces: Seq<Piece>) -> Seq<char> {
    "<div style=\"margin-left:"@ + decimal((30 * pieces[0].indent) as nat) + "px\">"@ + row_text(
        pieces,
        pieces.len() as int,
    ) + "</div>"@
}

/// How far a chain is laid out: the rows that are done, the pieces of the
/// row that is open, and whether that row is the first of the chain.
pub struct Layout {
    pub done: Seq<char>,
    pub row: Seq<Piece>,
    pub opening: bool,
}

/// The pieces of the open row in the order in which they are written: those
/// of the first row of a chain from the last to the first, those of any
/// other row from the first to the last.
pub open spec fn arranged(layout: Layout) -> Seq<Piece> {
    if layout.opening {
        layout.row.reverse()
    } else {
        layout.row
    }
}

/// The layout with the open row closed; a row without pieces leaves no trace.
pub open spec fn closed(layout: Layout) -> Layout {
    Layout {
        done: if layout.row.len() > 0 {
            layout.done + row_html(arranged(layout))
        } else {
            layout.done
        },
        row: Seq::empty(),
        opening: false,
    }
}

/// The layout of the first `n` links of a chain.
pub open spec fn layout_of(lines: Seq<LineModel>, n: int) -> Layout
    decreases n,
{
    if n <= 0 {
        Layout { done: Seq::empty(), row: Seq::empty(), opening: true }
    } else {
        let before = layout_of(lines, n - 1);
        match part_of(lines[n - 1]) {
            Part::Piece(piece) => Layout { row: before.row.push(piece), ..before },
            Part::Break => closed(before),
            Part::Nothing => before,
        }
    }
}

/// A chain as HTML: its rows, in a column.
pub open spec fn page_of(lines: Seq<LineModel>) -> Seq<char> {
    "<div style=\"display: flex; flex-direction: column;\">"@ + closed(
        layout_of(lines, lines.len() as int),
    ).done + "</div>"@
}

/// The mathematical value of the pieces of a row.
pub open spec fn pieces_of(row: Seq<(usize, String)>) -> Seq<Piece> {
    Seq::new(row.len(), |i: int| Piece { indent: row[i].0 as int, html: row[i].1@ })
}

/// Closes the open row: writes it to `done` as a `div`, unless it is empty.
fn close_row(done: &mut String, row: Vec<(usize, String)>, opening: bool)
    ensures
        final(done)@ == closed(Layout { done: old(done)@, row: pieces_of(row@), opening }).done,
{
    if row.len() > 0 {
        let ghost pieces = arranged(Layout { done: done@, row: pieces_of(row@), opening });
        let single_line = if opening {
            reversed(row)
        } else {
            row
        };
        let indent = single_line[0].0;
        done.append("<div style=\"margin-left:");
        done.append(decimal_text(30 * (indent as u128)).as_str());
        done.append("px\">");
        let ghost head = done@;
        let mut i: usize = 0;
        while i < single_line.len()
            invariant
                i <= single_line.len(),
                pieces == pieces_of(single_line@),
                done@ == head + row_text(pieces, i as int),
            decreases single_line.len() - i,
        {
            done.append(single_line[i].1.as_str());
            i += 1;
        }
        done.append("</div>");
    }
}

/// Lays a chain out in rows and writes the rows as HTML.
///
/// A break ends a row; a row without pieces is left out. The pieces of the
/// first row are written from the last to the first.
pub fn to_html(lines: Vec<Line>) -> (html: String)
    ensures
        html@ == page_of(chain_of(lines@)),
{
    let ghost chain = chain_of(lines@);
    let ghost total = lines@.len() as int;
    let mut rest = reversed(lines);
    let mut output_html = String::new();
    let mut current_line: Vec<(usize, String)> = Vec::new();
    let mut opening = true;
    assert(pieces_of(current_line@) =~= Seq::empty());
    while rest.len() > 0
        invariant
            rest@.len() <= total,
            chain.len() == total,
            forall|k: int| 0 <= k < rest@.len() ==> (#[trigger] rest@[k])@ == chain[total - 1 - k],
            layout_of(chain, total - rest@.len()) == (Layout {
                done: output_html@,
                row: pieces_of(current_line@),
                opening,
            }),
        decreases rest.len(),
    {
        let ghost n = total - rest@.len();
        let ghost before = pieces_of(current_line@);
        match rest.pop() {
            Some(line) => {
                assert(line@ == chain[n]);
                match generate_line(line) {
                    Some((indent, text_element)) => {
                        match text_element {
                            L2::Text(text) => {
                                current_line.push((indent, text));
                                assert(pieces_of(current_line@) =~= before.push(
                                    Piece { indent: indent as int, html: text@ },
                                ));
                            },
                            L2::Newline => {
                                close_row(&mut output_html, current_line, opening);
                                current_line = Vec::new();
                                opening = false;
                                assert(pieces_of(current_line@) =~= Seq::empty());
                            },
                        }
                    },
                    None => {},
                }
            },
            None => {},
        }
    }
    close_row(&mut output_html, current_line, opening);
    let mut html = "<div style=\"display: flex; flex-direction: column;\">".to_owned();
    html.append(output_html.as_str());
    html.append("</div>");
    html
}

/// One level of nesting deeper.
pub open spec fn deeper(indent: int) -> int {
    if indent < usize::MAX {
        indent + 1
    } else {
        indent
    }
}

/// Whether the tree is that of a scalar.
pub open spec fn is_scalar(tree: DiffTree) -> bool {
    match tree {
        DiffTree::Null(_) => true,
        DiffTree::Bool(_, _) => true,
        DiffTree::Number(_, _) => true,
        DiffTree::String(_, _) => true,
        _ => false,
    }
}

/// Whether the tree is that of a scalar.
pub fn is_primitive_json_type(j: &JsonV) -> (r: bool)
    ensures
        r == is_scalar(j@),
{
    match j {
        JsonV::Null(_) => true,
        JsonV::Bool(_, _) => true,
        JsonV::Number(_, _) => true,
        JsonV::String(_, _) => true,
        _ => false,
    }
}

/// One of two things.
#[derive(Debug, PartialEq)]
pub enum Either<L, R> {
    Left(L),
    Right(R),
}

/// An element of an array in a tree: the list that holds it, and where.
#[derive(Clone, Copy, Debug, PartialEq, Eq)]
pub enum Slot {
    /// An element that both arrays share.
    Shared(usize),
    /// An element that one array lacks.
    Lacking(usize),
}

/// The elements of an array in a tree, each with its place: the shared ones,
/// then the others.
pub open spec fn slots(same: Seq<Placed>, diffs: Seq<ArrayDiffModel>) -> Seq<(usize, Slot)> {
    Seq::new(
        same.len(),
        |i: int| (same[i].at as usize, Slot::Shared(i as usize)),
    ) + Seq::new(diffs.len(), |j: int| (place_of(diffs[j]) as usize, Slot::Lacking(j as usize)))
}

/// The mark that sets off a scalar on which two objects differ.
pub open spec fn addon(tree: DiffTree) -> Seq<char> {
    if is_scalar(tree) {
        "###"@
    } else {
        ""@
    }
}

/// The first `n` blocks, one after the other.
pub open spec fn concat(blocks: Seq<Seq<LineModel>>, n: int) -> Seq<LineModel>
    decreases n,
{
    if n <= 0 {
        Seq::empty()
    } else {
        concat(blocks, n - 1) + blocks[n - 1]
    }
}

/// The links of an element of an array.
pub open spec fn block_of(
    shared: Seq<Seq<LineModel>>,
    lacking: Seq<Seq<LineModel>>,
    slot: Slot,
) -> Seq<LineModel> {
    match slot {
        Slot::Shared(i) => shared[i as int],
        Slot::Lacking(j) => lacking[j as int],
    }
}

/// The links of the first `n` elements of an array, in the order `order`,
/// each followed by a comma and a break.
pub open spec fn joined(
    order: Seq<(usize, Slot)>,
    shared: Seq<Seq<LineModel>>,
    lacking: Seq<Seq<LineModel>>,
    indent: int,
    n: int,
) -> Seq<LineModel>
    decreases n,
{
    if n <= 0 {
        Seq::empty()
    } else {
        joined(order, shared, lacking, indent, n - 1) + block_of(shared, lacking, order[n - 1].1)
            + seq![LineModel::Text(indent, ", "@), LineModel::NewLine]
    }
}

/// The two sides of a difference: the first side as present, a comma, a
/// break where asked for, and the second side as missing.
pub open spec fn sides_lines(
    first: Seq<LineModel>,
    second: Seq<LineModel>,
    indent: int,
    with_break: bool,
) -> Seq<LineModel> {
    if with_break {
        first + seq![LineModel::Text(indent, ", "@), LineModel::NewLine] + second
    } else {
        first + seq![LineModel::Text(indent, ", "@)] + second
    }
}

/// A member of an object: the key, the value, a comma and a break.
pub open spec fn member_lines(key: Seq<char>, value: Seq<LineModel>, indent: int) -> Seq<
    LineModel,
> {
    seq![LineModel::Text(indent, key + ": "@)] + value + seq![
        LineModel::Text(indent, ", "@),
        LineModel::NewLine,
    ]
}

/// A member on which two objects differ: the key and the mark in a row of
/// their own, the value, the mark and a comma in a row of their own.
pub open spec fn changed_lines(
    key: Seq<char>,
    mark: Seq<char>,
    value: Seq<LineModel>,
    indent: int,
) -> Seq<LineModel> {
    seq![LineModel::Text(indent, key + ": "@ + mark), LineModel::NewLine] + value + seq![
        LineModel::NewLine,
        LineModel::Text(indent, mark + ", "@),
        LineModel::NewLine,
    ]
}

/// The chain of a tree at a depth of nesting, under a label.
///
/// A scalar without a pair is one link under the label; one with a pair
/// shows both sides. An array shows its elements in the order of their
/// places, an object its members: first those on which the documents agree.
pub open spec fn lines_of(indent: int, tree: DiffTree, label: Label) -> Seq<LineModel>
    decreases tree,
{
    match tree {
        DiffTree::Null(Some(sides)) => sides_lines(
            lines_of(indent, sides.first, Label::DiffPresent),
            lines_of(indent, sides.second, Label::DiffMissing),
            indent,
            true,
        ),
        DiffTree::Null(None) => seq![labelled(label, indent, "null"@)],
        DiffTree::String(_, Some(sides)) => sides_lines(
            lines_of(indent, sides.first, Label::DiffPresent),
            lines_of(indent, sides.second, Label::DiffMissing),
            indent,
            false,
        ),
        DiffTree::String(text, None) => seq![labelled(label, indent, "\""@ + text + "\""@)],
        DiffTree::Bool(_, Some(sides)) => sides_lines(
            lines_of(indent, sides.first, Label::DiffPresent),
            lines_of(indent, sides.second, Label::DiffMissing),
            indent,
            false,
        ),
        DiffTree::Bool(b, None) => seq![
            labelled(label, indent, if b {
                "true"@
            } else {
                "false"@
            }),
        ],
        DiffTree::Number(_, Some(sides)) => sides_lines(
            lines_of(indent, sides.first, Label::DiffPresent),
            lines_of(indent, sides.second, Label::DiffMissing),
            indent,
            false,
        ),
        DiffTree::Number(text, None) => seq![labelled(label, indent, text)],
        DiffTree::Array(same, diffs) => {
            let order = ordered(slots(same, diffs));
            seq![LineModel::Text(indent, "["@), LineModel::NewLine] + joined(
                order,
                array_shared(indent, same, label),
                array_lacking(indent, diffs),
                indent,
                order.len() as int,
            ) + seq![LineModel::Text(indent, "]"@)]
        },
        DiffTree::Object(same, diffs) => {
            seq![LineModel::Text(indent, "{"@), LineModel::NewLine] + concat(
                object_shared(indent, same, label),
                same.len() as int,
            ) + concat(object_other(indent, diffs), diffs.len() as int) + seq![
                LineModel::Text(indent, "}"@),
            ]
        },
    }
}

/// The chains of the elements that two arrays share.
pub open spec fn array_shared(indent: int, same: Seq<Placed>, label: Label) -> Seq<Seq<LineModel>>
    decreases same,
{
    Seq::new(
        same.len(),
        |i: int|
            if 0 <= i < same.len() {
                lines_of(deeper(indent), same[i].tree, label)
            } else {
                Seq::empty()
            },
    )
}

/// The chains of the elements that one of two arrays lacks: those of the
/// first array as present, those of the second as missing.
pub open spec fn array_lacking(indent: int, diffs: Seq<ArrayDiffModel>) -> Seq<Seq<LineModel>>
    decreases diffs,
{
    Seq::new(
        diffs.len(),
        |j: int|
            if 0 <= j < diffs.len() {
                match diffs[j] {
                    ArrayDiffModel::ArrayValueInFirst(_, element) => lines_of(
                        deeper(indent),
                        element,
                        Label::DiffPresent,
                    ),
                    ArrayDiffModel::ArrayValueInSecond(_, element) => lines_of(
                        deeper(indent),
                        element,
                        Label::DiffMissing,
                    ),
                }
            } else {
                Seq::empty()
            },
    )
}

/// The chains of the members on which two objects agree.
pub open spec fn object_shared(indent: int, same: Seq<Named>, label: Label) -> Seq<Seq<LineModel>>
    decreases same,
{
    Seq::new(
        same.len(),
        |i: int|
            if 0 <= i < same.len() {
                member_lines(
                    same[i].key,
                    lines_of(deeper(indent), same[i].tree, label),
                    deeper(indent),
                )
            } else {
                Seq::empty()
            },
    )
}

/// The chains of the members on which two objects do not agree: a member of
/// the second object alone as missing, one of the first alone as present, one
/// of both between two rows of its own.
pub open spec fn object_other(indent: int, diffs: Seq<ObjectDiffModel>) -> Seq<Seq<LineModel>>
    decreases diffs,
{
    Seq::new(
        diffs.len(),
        |j: int|
            if 0 <= j < diffs.len() {
                match diffs[j] {
                    ObjectDiffModel::ObjectKeyMissing(key, value) => member_lines(
                        key,
                        lines_of(deeper(indent), value, Label::DiffMissing),
                        deeper(indent),
                    ),
                    ObjectDiffModel::ObjectKeyPresent(key, value) => member_lines(
                        key,
                        lines_of(deeper(indent), value, Label::DiffPresent),
                        deeper(indent),
                    ),
                    ObjectDiffModel::ObjectValueDiff(key, value) => changed_lines(
                        key,
                        addon(value),
                        lines_of(deeper(indent), value, Label::Same),
                        deeper(indent),
                    ),
                }
            } else {
                Seq::empty()
            },
    )
}

/// One level of nesting deeper.
fn nest(indent: usize) -> (r: usize)
    ensures
        r == deeper(indent as int),
{
    if indent < usize::MAX {
        indent + 1
    } else {
        indent
    }
}

/// Adds a piece of text under a label to a chain.
fn label_node(previous: &mut Vec<Line>, label: Label, text: String, indent: usize)
    ensures
        chain_of(final(previous)@) == chain_of(old(previous)@).push(
            labelled(label, indent as int, text@),
        ),
{
    previous.push(labelled_line(label, indent, text));
}

/// The elements of an array in a tree in the order of their places; elements
/// of one place keep their order, a shared one before the others.
fn array_order(v: &Vec<(usize, JsonV)>, differences: &Vec<ArrayDiff>) -> (order: Vec<(usize, Slot)>)
    ensures
        order@ == ordered(slots(same_of(v@), array_diffs_of(differences@))),
        forall|k: int|
            0 <= k < order@.len() ==> match (#[trigger] order@[k]).1 {
                Slot::Shared(i) => i < v.len(),
                Slot::Lacking(j) => j < differences.len(),
            },
{
    let ghost wanted = slots(same_of(v@), array_diffs_of(differences@));
    let mut all_elements: Vec<(usize, Slot)> = Vec::new();
    let mut i: usize = 0;
    while i < v.len()
        invariant
            i <= v.len(),
            wanted == slots(same_of(v@), array_diffs_of(differences@)),
            all_elements@ == wanted.take(i as int),
        decreases v.len() - i,
    {
        all_elements.push((v[i].0, Slot::Shared(i)));
        i += 1;
    }
    let mut j: usize = 0;
    while j < differences.len()
        invariant
            j <= differences.len(),
            wanted == slots(same_of(v@), array_diffs_of(differences@)),
            all_elements@ == wanted.take(v.len() + j),
        decreases differences.len() - j,
    {
        let at = match &differences[j] {
            ArrayDiff::ArrayValueInFirst(i, _) => *i,
            ArrayDiff::ArrayValueInSecond(i, _) => *i,
        };
        all_elements.push((at, Slot::Lacking(j)));
        j += 1;
    }
    assert(wanted.take(v.len() + differences.len()) =~= wanted);
    proof {
        lemma_ordered(wanted);
        assert forall|k: int| 0 <= k < ordered(wanted).len() implies match (#[trigger] ordered(
            wanted,
        )[k]).1 {
            Slot::Shared(i) => i < v.len(),
            Slot::Lacking(j) => j < differences.len(),
        } by {
            let entry = ordered(wanted)[k];
        }
    }
    sort_by_place(all_elements)
}

/// The elements of an array in a tree, each with its place: the shared ones,
/// then the others.
pub open spec fn entries(v: Seq<(usize, JsonV)>, differences: Seq<ArrayDiff>) -> Seq<
    (usize, Either<(usize, JsonV), ArrayDiff>),
> {
    Seq::new(v.len(), |i: int| (v[i].0, Either::Left(v[i]))) + Seq::new(
        differences.len(),
        |j: int|
            (
                match differences[j] {
                    ArrayDiff::ArrayValueInFirst(at, _) => at,
                    ArrayDiff::ArrayValueInSecond(at, _) => at,
                },
                Either::Right(differences[j]),
            ),
    )
}

/// The entries without their places.
pub open spec fn unplaced(sorted: Seq<(usize, Either<(usize, JsonV), ArrayDiff>)>) -> Seq<
    Either<(usize, JsonV), ArrayDiff>,
> {
    Seq::new(sorted.len(), |i: int| sorted[i].1)
}

/// The elements of an array in a tree in the order of their places; elements
/// of one place keep their order, a shared one before the others.
pub fn get_array_elements_in_order(v: Vec<(usize, JsonV)>, differences: Vec<ArrayDiff>) -> (r: Vec<
    Either<(usize, JsonV), ArrayDiff>,
>)
    ensures
        r@ == unplaced(ordered(entries(v@, differences@))),
{
    let ghost wanted = entries(v@, differences@);
    let ghost shared = v@;
    let ghost lacking = differences@;
    let mut back: Vec<(usize, Either<(usize, JsonV), ArrayDiff>)> = Vec::new();
    let mut differences = differences;
    while differences.len() > 0
        invariant
            differences@ == lacking.take(differences@.len() as int),
            wanted == entries(shared, lacking),
            back@.len() == lacking.len() - differences@.len(),
            forall|k: int|
                0 <= k < back@.len() ==> #[trigger] back@[k] == wanted[wanted.len() - 1 - k],
        decreases differences.len(),
    {
        match differences.pop() {
            Some(d) => {
                let at = match &d {
                    ArrayDiff::ArrayValueInFirst(i, _) => *i,
                    ArrayDiff::ArrayValueInSecond(i, _) => *i,
                };
                back.push((at, Either::Right(d)));
            },
            None => {},
        }
    }
    let mut v = v;
    while v.len() > 0
        invariant
            v@.len() <= shared.len(),
            v@ == shared.take(v@.len() as int),
            wanted == entries(shared, lacking),
            back@.len() == lacking.len() + shared.len() - v@.len(),
            forall|k: int|
                0 <= k < back@.len() ==> #[trigger] back@[k] == wanted[wanted.len() - 1 - k],
        decreases v.len(),
    {
        match v.pop() {
            Some(e) => {
                let at = e.0;
                back.push((at, Either::Left(e)));
            },
            None => {},
        }
    }
    assert(back@.reverse() =~= wanted);
    let all_elements = reversed(back);
    let sorted = sort_by_place(all_elements);
    let ghost order = sorted@;
    let mut tail = reversed(sorted);
    let mut r: Vec<Either<(usize, JsonV), ArrayDiff>> = Vec::new();
    while tail.len() > 0
        invariant
            tail@.len() + r@.len() == order.len(),
            tail@ == order.reverse().take(tail@.len() as int),
            forall|k: int| 0 <= k < r@.len() ==> #[trigger] r@[k] == order[k].1,
        decreases tail.len(),
    {
        match tail.pop() {
            Some(entry) => {
                r.push(entry.1);
            },
            None => {},
        }
    }
    r
}

/// Writes a tree as a chain, behind the links that are there.
pub fn generate_rec(indent: usize, json: &JsonV, last_node: &mut Vec<Line>, type_to_use: Label)
    ensures
        chain_of(final(last_node)@) == chain_of(old(last_node)@) + lines_of(
            indent as int,
            json@,
            type_to_use,
        ),
    decreases json, 1int,
{
    match json {
        JsonV::Null(st) => {
            match st {
                Some(o) => {
                    generate_rec(indent, &o.0, last_node, Label::DiffPresent);
                    text_node(last_node, ", ".to_owned(), indent);
                    newline_node(last_node);
                    generate_rec(indent, &o.1, last_node, Label::DiffMissing);
                },
                None => {
                    label_node(last_node, type_to_use, "null".to_owned(), indent);
                },
            }
        },
        JsonV::String(s, st) => {
            match st {
                Some(o) => {
                    generate_rec(indent, &o.0, last_node, Label::DiffPresent);
                    text_node(last_node, ", ".to_owned(), indent);
                    generate_rec(indent, &o.1, last_node, Label::DiffMissing);
                },
                None => {
                    let mut quoted = "\"".to_owned();
                    quoted.append(s.as_str());
                    quoted.append("\"");
                    label_node(last_node, type_to_use, quoted, indent);
                },
            }
        },
        JsonV::Bool(b, st) => {
            let bool_string = if *b {
                "true"
            } else {
                "false"
            };
            match st {
                Some(o) => {
                    generate_rec(indent, &o.0, last_node, Label::DiffPresent);
                    text_node(last_node, ", ".to_owned(), indent);
                    generate_rec(indent, &o.1, last_node, Label::DiffMissing);
                },
                None => {
                    label_node(last_node, type_to_use, bool_string.to_owned(), indent);
                },
            }
        },
        JsonV::Number(n, st) => {
            match st {
                Some(o) => {
                    generate_rec(indent, &o.0, last_node, Label::DiffPresent);
                    text_node(last_node, ", ".to_owned(), indent);
                    generate_rec(indent, &o.1, last_node, Label::DiffMissing);
                },
                None => {
                    label_node(last_node, type_to_use, n.clone(), indent);
                },
            }
        },
        JsonV::Array(_, _) => {
            generate_array(indent, json, last_node, type_to_use);
        },
        JsonV::Object(_, _) => {
            generate_object(indent, json, last_node, type_to_use);
        },
    }
}

/// Writes the tree of an array as a chain, behind the links that are there.
fn generate_array(indent: usize, json: &JsonV, last_node: &mut Vec<Line>, type_to_use: Label)
    requires
        json is Array,
    ensures
        chain_of(final(last_node)@) == chain_of(old(last_node)@) + lines_of(
            indent as int,
            json@,
            type_to_use,
        ),
    decreases json, 0int,
{
    match json {
        JsonV::Array(v, differences) => {
            let ghost same = same_of(v@);
            let ghost diffs = array_diffs_of(differences@);
            let ghost shared = array_shared(indent as int, same, type_to_use);
            let ghost lacking = array_lacking(indent as int, diffs);
            text_node(last_node, "[".to_owned(), indent);
            newline_node(last_node);
            let ghost head = chain_of(last_node@);
            let elements = array_order(v, differences);
            let mut k: usize = 0;
            while k < elements.len()
                invariant
                    k <= elements.len(),
                    decreases_to!(json => v),
                    decreases_to!(json => differences),
                    same == same_of(v@),
                    diffs == array_diffs_of(differences@),
                    shared.len() == same.len(),
                    lacking.len() == diffs.len(),
                    forall|i: int|
                        0 <= i < same.len() ==> #[trigger] shared[i] == lines_of(
                            deeper(indent as int),
                            same[i].tree,
                            type_to_use,
                        ),
                    forall|j: int|
                        0 <= j < diffs.len() ==> #[trigger] lacking[j] == match diffs[j] {
                            ArrayDiffModel::ArrayValueInFirst(_, element) => lines_of(
                                deeper(indent as int),
                                element,
                                Label::DiffPresent,
                            ),
                            ArrayDiffModel::ArrayValueInSecond(_, element) => lines_of(
                                deeper(indent as int),
                                element,
                                Label::DiffMissing,
                            ),
                        },
                    forall|t: int|
                        0 <= t < elements@.len() ==> match (#[trigger] elements@[t]).1 {
                            Slot::Shared(i) => i < v.len(),
                            Slot::Lacking(j) => j < differences.len(),
                        },
                    chain_of(last_node@) == head + joined(
                        elements@,
                        shared,
                        lacking,
                        indent as int,
                        k as int,
                    ),
                decreases elements.len() - k,
            {
                match elements[k].1 {
                    Slot::Shared(i) => {
                        generate_rec(nest(indent), &v[i].1, last_node, type_to_use);
                    },
                    Slot::Lacking(j) => {
                        match &differences[j] {
                            ArrayDiff::ArrayValueInFirst(_, element) => {
                                generate_rec(nest(indent), element, last_node, Label::DiffPresent);
                            },
                            ArrayDiff::ArrayValueInSecond(_, element) => {
                                generate_rec(nest(indent), element, last_node, Label::DiffMissing);
                            },
                        }
                    },
                }
                text_node(last_node, ", ".to_owned(), indent);
                newline_node(last_node);
                k += 1;
            }
            text_node(last_node, "]".to_owned(), indent);
        },
        _ => {},
    }
}

/// Writes the tree of an object as a chain, behind the links that are there.
fn generate_object(indent: usize, json: &JsonV, last_node: &mut Vec<Line>, type_to_use: Label)
    requires
        json is Object,
    ensures
        chain_of(final(last_node)@) == chain_of(old(last_node)@) + lines_of(
            indent as int,
            json@,
            type_to_use,
        ),
    decreases json, 0int,
{
    match json {
        JsonV::Object(h, st) => {
            let ghost same = members_of(h@);
            let ghost diffs = object_diffs_of(st@);
            let ghost inner = deeper(indent as int);
            let ghost shared = object_shared(indent as int, same, type_to_use);
            let ghost other = object_other(indent as int, diffs);
            text_node(last_node, "{".to_owned(), indent);
            newline_node(last_node);
            let ghost head = chain_of(last_node@);
            let mut i: usize = 0;
            while i < h.len()
                invariant
                    i <= h.len(),
                    decreases_to!(json => h),
                    same == members_of(h@),
                    inner == deeper(indent as int),
                    shared.len() == same.len(),
                    forall|t: int|
                        0 <= t < same.len() ==> #[trigger] shared[t] == member_lines(
                            same[t].key,
                            lines_of(inner, same[t].tree, type_to_use),
                            inner,
                        ),
                    chain_of(last_node@) == head + concat(shared, i as int),
                decreases h.len() - i,
            {
                let mut key_text = h[i].0.clone();
                key_text.append(": ");
                text_node(last_node, key_text, nest(indent));
                generate_rec(nest(indent), &h[i].1, last_node, type_to_use);
                text_node(last_node, ", ".to_owned(), nest(indent));
                newline_node(last_node);
                i += 1;
            }
            let ghost middle = chain_of(last_node@);
            let mut j: usize = 0;
            while j < st.len()
                invariant
                    j <= st.len(),
                    decreases_to!(json => st),
                    diffs == object_diffs_of(st@),
                    inner == deeper(indent as int),
                    other.len() == diffs.len(),
                    forall|t: int|
                        0 <= t < diffs.len() ==> #[trigger] other[t] == match diffs[t] {
                            ObjectDiffModel::ObjectKeyMissing(key, value) => member_lines(
                                key,
                                lines_of(inner, value, Label::DiffMissing),
                                inner,
                            ),
                            ObjectDiffModel::ObjectKeyPresent(key, value) => member_lines(
                                key,
                                lines_of(inner, value, Label::DiffPresent),
                                inner,
                            ),
                            ObjectDiffModel::ObjectValueDiff(key, value) => changed_lines(
                                key,
                                addon(value),
                                lines_of(inner, value, Label::Same),
                                inner,
                            ),
                        },
                    chain_of(last_node@) == middle + concat(other, j as int),
                decreases st.len() - j,
            {
                match &st[j] {
                    ObjectDiff::ObjectKeyMissing(s, v) => {
                        let mut key_text = s.clone();
                        key_text.append(": ");
                        text_node(last_node, key_text, nest(indent));
                        generate_rec(nest(indent), v, last_node, Label::DiffMissing);
                        text_node(last_node, ", ".to_owned(), nest(indent));
                        newline_node(last_node);
                    },
                    ObjectDiff::ObjectKeyPresent(s, v) => {
                        let mut key_text = s.clone();
                        key_text.append(": ");
                        text_node(last_node, key_text, nest(indent));
                        generate_rec(nest(indent), v, last_node, Label::DiffPresent);
                        text_node(last_node, ", ".to_owned(), nest(indent));
                        newline_node(last_node);
                    },
                    ObjectDiff::ObjectValueDiff(s, v) => {
                        let addon = if is_primitive_json_type(v) {
                            "###"
                        } else {
                            ""
                        };
                        let mut key_text = s.clone();
                        key_text.append(": ");
                        key_text.append(addon);
                        text_node(last_node, key_text, nest(indent));
                        newline_node(last_node);
                        generate_rec(nest(indent), v, last_node, Label::Same);
                        newline_node(last_node);
                        let mut end_text = addon.to_owned();
                        end_text.append(", ");
                        text_node(last_node, end_text, nest(indent));
                        newline_node(last_node);
                    },
                }
                j += 1;
            }
            text_node(last_node, "}".to_owned(), indent);
        },
        _ => {},
    }
}

/// Shows a difference of two documents as HTML.
pub fn generate(json: JsonV) -> (html: String)
    ensures
        html@ == page_of(seq![LineModel::Start] + lines_of(0, json@, Label::Same)),
{
    let mut start_node: Vec<Line> = Vec::new();
    start_node.push(Line::Start);
    assert(chain_of(start_node@) =~= seq![LineModel::Start]);
    generate_rec(0, &json, &mut start_node, Label::Same);
    let html = to_html(start_node);
    html
}

} // verus!
