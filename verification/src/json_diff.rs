//! The difference of two JSON documents, as a tree.
use crate::codec::{canonical_text, float_text, number_as_float, parse, readable, serialize, ParseError};
use crate::edit_distance::{
    edit_distance, in_range, lemma_script_congruent, lemma_walks_in_range, matches_of, script,
    EditType,
};
use crate::json::{
    array_limit, fits, items_model, keys_of, members_model, Json, JsonModel, MemberModel,
};
use crate::keys::{
    a_intersection_complement_b, lemma_position, lemma_sorted_difference, position,
    sorted_difference, sorted_union, texts, union,
};
use crate::text::Text;
use vstd::prelude::*;

verus! {

/// A JSON document in which every place says whether the two documents that
/// were compared agree there.
///
/// A scalar holds the value on which the two agree and no pair, or a pair of
/// the two sides where they differ. An array holds the elements that both
/// sides have, each with its place, and the elements that one side lacks. An
/// object holds the members on which both sides agree, and the members that
/// one side lacks or on which the two differ.
#[derive(Debug, PartialEq)]
pub enum JsonV {
    Null(Option<Box<JsonVPair>>),
    String(String, Option<Box<JsonVPair>>),
    Bool(bool, Option<Box<JsonVPair>>),
    /// The number is written as the decimal text of its value as a double.
    Number(String, Option<Box<JsonVPair>>),
    Array(Vec<(usize, JsonV)>, Vec<ArrayDiff>),
    Object(Vec<(String, JsonV)>, Vec<ObjectDiff>),
}

/// The two sides of a place where the documents differ: first, then second.
pub type JsonVPair = (JsonV, JsonV);

/// An element of an array that only one side has, with its place.
#[derive(Debug, PartialEq)]
pub enum ArrayDiff {
    ArrayValueInSecond(usize, JsonV),
    ArrayValueInFirst(usize, JsonV),
}

/// A member of an object on which the two sides do not agree.
#[derive(Debug, PartialEq)]
pub enum ObjectDiff {
    /// Only the second side has the key; the value is the second side's.
    ObjectKeyMissing(String, JsonV),
    /// Only the first side has the key; the value is the first side's.
    ObjectKeyPresent(String, JsonV),
    /// Both sides have the key, with values that differ.
    ObjectValueDiff(String, JsonV),
}

/// The mathematical value of a `JsonV`.
pub enum DiffTree {
    Null(Option<Box<Sides>>),
    String(Seq<char>, Option<Box<Sides>>),
    Bool(bool, Option<Box<Sides>>),
    Number(Seq<char>, Option<Box<Sides>>),
    Array(Seq<Placed>, Seq<ArrayDiffModel>),
    Object(Seq<Named>, Seq<ObjectDiffModel>),
}

/// The two sides of a place where the documents differ.
pub struct Sides {
    pub first: DiffTree,
    pub second: DiffTree,
}

/// An element that two arrays share, with its place.
pub struct Placed {
    pub at: int,
    pub tree: DiffTree,
}

/// A member on which two objects agree.
pub struct Named {
    pub key: Seq<char>,
    pub tree: DiffTree,
}

/// The mathematical value of an `ArrayDiff`.
pub enum ArrayDiffModel {
    ArrayValueInSecond(int, DiffTree),
    ArrayValueInFirst(int, DiffTree),
}

/// The place of an element that one of two arrays lacks.
pub open spec fn place_of(entry: ArrayDiffModel) -> int {
    match entry {
        ArrayDiffModel::ArrayValueInSecond(at, _) => at,
        ArrayDiffModel::ArrayValueInFirst(at, _) => at,
    }
}

/// The mathematical value of an `ObjectDiff`.
pub enum ObjectDiffModel {
    ObjectKeyMissing(Seq<char>, DiffTree),
    ObjectKeyPresent(Seq<char>, DiffTree),
    ObjectValueDiff(Seq<char>, DiffTree),
}

/// The mathematical value of `tree`.
pub open spec fn tree_of(tree: JsonV) -> DiffTree
    decreases tree,
{
    match tree {
        JsonV::Null(pair) => DiffTree::Null(pair_of(pair)),
        JsonV::String(text, pair) => DiffTree::String(text@, pair_of(pair)),
        JsonV::Bool(b, pair) => DiffTree::Bool(b, pair_of(pair)),
        JsonV::Number(text, pair) => DiffTree::Number(text@, pair_of(pair)),
        JsonV::Array(same, diffs) => {
            DiffTree::Array(same_of(same@), array_diffs_of(diffs@))
        },
        JsonV::Object(same, diffs) => {
            DiffTree::Object(members_of(same@), object_diffs_of(diffs@))
        },
    }
}

/// The mathematical value of the two sides of a difference.
pub open spec fn pair_of(pair: Option<Box<JsonVPair>>) -> Option<Box<Sides>>
    decreases pair,
{
    match pair {
        None => None,
        Some(sides) => Some(Box::new(Sides { first: tree_of(sides.0), second: tree_of(sides.1) })),
    }
}

/// The mathematical value of the elements that two arrays share.
pub open spec fn same_of(same: Seq<(usize, JsonV)>) -> Seq<Placed>
    decreases same,
{
    Seq::new(
        same.len(),
        |i: int|
            if 0 <= i < same.len() {
                Placed { at: same[i].0 as int, tree: tree_of(same[i].1) }
            } else {
                Placed { at: 0, tree: DiffTree::Null(None) }
            },
    )
}

/// The mathematical value of the elements that one of two arrays lacks.
pub open spec fn array_diffs_of(diffs: Seq<ArrayDiff>) -> Seq<ArrayDiffModel>
    decreases diffs,
{
    Seq::new(
        diffs.len(),
        |i: int|
            if 0 <= i < diffs.len() {
                match diffs[i] {
                    ArrayDiff::ArrayValueInSecond(at, tree) => ArrayDiffModel::ArrayValueInSecond(
                        at as int,
                        tree_of(tree),
                    ),
                    ArrayDiff::ArrayValueInFirst(at, tree) => ArrayDiffModel::ArrayValueInFirst(
                        at as int,
                        tree_of(tree),
                    ),
                }
            } else {
                ArrayDiffModel::ArrayValueInFirst(0, DiffTree::Null(None))
            },
    )
}

/// The mathematical value of the members on which two objects agree.
pub open spec fn members_of(same: Seq<(String, JsonV)>) -> Seq<Named>
    decreases same,
{
    Seq::new(
        same.len(),
        |i: int|
            if 0 <= i < same.len() {
                Named { key: same[i].0@, tree: tree_of(same[i].1) }
            } else {
                Named { key: Seq::empty(), tree: DiffTree::Null(None) }
            },
    )
}

/// The mathematical value of the members on which two objects do not agree.
pub open spec fn object_diffs_of(diffs: Seq<ObjectDiff>) -> Seq<ObjectDiffModel>
    decreases diffs,
{
    Seq::new(
        diffs.len(),
        |i: int|
            if 0 <= i < diffs.len() {
                match diffs[i] {
                    ObjectDiff::ObjectKeyMissing(key, tree) => ObjectDiffModel::ObjectKeyMissing(
                        key@,
                        tree_of(tree),
                    ),
                    ObjectDiff::ObjectKeyPresent(key, tree) => ObjectDiffModel::ObjectKeyPresent(
                        key@,
                        tree_of(tree),
                    ),
                    ObjectDiff::ObjectValueDiff(key, tree) => ObjectDiffModel::ObjectValueDiff(
                        key@,
                        tree_of(tree),
                    ),
                }
            } else {
                ObjectDiffModel::ObjectKeyMissing(Seq::empty(), DiffTree::Null(None))
            },
    )
}

impl View for JsonV {
    type V = DiffTree;

    open spec fn view(&self) -> DiffTree {
        tree_of(*self)
    }
}

impl View for ArrayDiff {
    type V = ArrayDiffModel;

    open spec fn view(&self) -> ArrayDiffModel {
        match self {
            ArrayDiff::ArrayValueInSecond(at, tree) => ArrayDiffModel::ArrayValueInSecond(
                *at as int,
                tree_of(*tree),
            ),
            ArrayDiff::ArrayValueInFirst(at, tree) => ArrayDiffModel::ArrayValueInFirst(
                *at as int,
                tree_of(*tree),
            ),
        }
    }
}

impl View for ObjectDiff {
    type V = ObjectDiffModel;

    open spec fn view(&self) -> ObjectDiffModel {
        match self {
            ObjectDiff::ObjectKeyMissing(key, tree) => ObjectDiffModel::ObjectKeyMissing(
                key@,
                tree_of(*tree),
            ),
            ObjectDiff::ObjectKeyPresent(key, tree) => ObjectDiffModel::ObjectKeyPresent(
                key@,
                tree_of(*tree),
            ),
            ObjectDiff::ObjectValueDiff(key, tree) => ObjectDiffModel::ObjectValueDiff(
                key@,
                tree_of(*tree),
            ),
        }
    }
}

/// A copy of the two sides of a difference.
fn clone_pair(pair: &Option<Box<JsonVPair>>) -> (r: Option<Box<JsonVPair>>)
    ensures
        pair_of(r) == pair_of(*pair),
    decreases pair, 1int,
{
    match pair {
        Some(sides) => Some(Box::new((clone_tree(&sides.0), clone_tree(&sides.1)))),
        None => None,
    }
}

/// A copy of a tree.
fn clone_tree(tree: &JsonV) -> (r: JsonV)
    ensures
        r@ == tree@,
    decreases tree, 0int,
{
    match tree {
        JsonV::Null(pair) => JsonV::Null(clone_pair(pair)),
        JsonV::String(text, pair) => JsonV::String(text.clone(), clone_pair(pair)),
        JsonV::Bool(b, pair) => JsonV::Bool(*b, clone_pair(pair)),
        JsonV::Number(text, pair) => JsonV::Number(text.clone(), clone_pair(pair)),
        JsonV::Array(same, diffs) => {
            let mut same_copy: Vec<(usize, JsonV)> = Vec::new();
            let mut i: usize = 0;
            while i < same.len()
                invariant
                    i <= same.len(),
                    decreases_to!(tree => same),
                    same_copy@.len() == i,
                    forall|k: int|
                        0 <= k < i ==> (#[trigger] same_copy@[k]).0 == same@[k].0
                            && same_copy@[k].1@ == same@[k].1@,
                decreases same.len() - i,
            {
                same_copy.push((same[i].0, clone_tree(&same[i].1)));
                i += 1;
            }
            let mut diffs_copy: Vec<ArrayDiff> = Vec::new();
            let mut j: usize = 0;
            while j < diffs.len()
                invariant
                    j <= diffs.len(),
                    decreases_to!(tree => diffs),
                    diffs_copy@.len() == j,
                    forall|k: int| 0 <= k < j ==> (#[trigger] diffs_copy@[k])@ == diffs@[k]@,
                decreases diffs.len() - j,
            {
                let copy = match &diffs[j] {
                    ArrayDiff::ArrayValueInSecond(at, element) => ArrayDiff::ArrayValueInSecond(
                        *at,
                        clone_tree(element),
                    ),
                    ArrayDiff::ArrayValueInFirst(at, element) => ArrayDiff::ArrayValueInFirst(
                        *at,
                        clone_tree(element),
                    ),
                };
                diffs_copy.push(copy);
                j += 1;
            }
            proof {
                assert(same_of(same_copy@) =~= same_of(same@));
                assert(array_diffs_of(diffs_copy@) =~= array_diffs_of(diffs@));
            }
            JsonV::Array(same_copy, diffs_copy)
        },
        JsonV::Object(same, diffs) => {
            let mut same_copy: Vec<(String, JsonV)> = Vec::new();
            let mut i: usize = 0;
            while i < same.len()
                invariant
                    i <= same.len(),
                    decreases_to!(tree => same),
                    same_copy@.len() == i,
                    forall|k: int|
                        0 <= k < i ==> (#[trigger] same_copy@[k]).0@ == same@[k].0@
                            && same_copy@[k].1@ == same@[k].1@,
                decreases same.len() - i,
            {
                same_copy.push((same[i].0.clone(), clone_tree(&same[i].1)));
                i += 1;
            }
            let mut diffs_copy: Vec<ObjectDiff> = Vec::new();
            let mut j: usize = 0;
            while j < diffs.len()
                invariant
                    j <= diffs.len(),
                    decreases_to!(tree => diffs),
                    diffs_copy@.len() == j,
                    forall|k: int| 0 <= k < j ==> (#[trigger] diffs_copy@[k])@ == diffs@[k]@,
                decreases diffs.len() - j,
            {
                let copy = match &diffs[j] {
                    ObjectDiff::ObjectKeyMissing(key, value) => ObjectDiff::ObjectKeyMissing(
                        key.clone(),
                        clone_tree(value),
                    ),
                    ObjectDiff::ObjectKeyPresent(key, value) => ObjectDiff::ObjectKeyPresent(
                        key.clone(),
                        clone_tree(value),
                    ),
                    ObjectDiff::ObjectValueDiff(key, value) => ObjectDiff::ObjectValueDiff(
                        key.clone(),
                        clone_tree(value),
                    ),
                };
                diffs_copy.push(copy);
                j += 1;
            }
            proof {
                assert(members_of(same_copy@) =~= members_of(same@));
                assert(object_diffs_of(diffs_copy@) =~= object_diffs_of(diffs@));
            }
            JsonV::Object(same_copy, diffs_copy)
        },
    }
}

impl Clone for JsonV {
    fn clone(&self) -> (r: JsonV)
        ensures
            r@ == self@,
    {
        clone_tree(self)
    }
}

impl Clone for ArrayDiff {
    fn clone(&self) -> (r: ArrayDiff)
        ensures
            r@ == self@,
    {
        match self {
            ArrayDiff::ArrayValueInSecond(at, tree) => ArrayDiff::ArrayValueInSecond(
                *at,
                clone_tree(tree),
            ),
            ArrayDiff::ArrayValueInFirst(at, tree) => ArrayDiff::ArrayValueInFirst(
                *at,
                clone_tree(tree),
            ),
        }
    }
}

impl Clone for ObjectDiff {
    fn clone(&self) -> (r: ObjectDiff)
        ensures
            r@ == self@,
    {
        match self {
            ObjectDiff::ObjectKeyMissing(key, tree) => ObjectDiff::ObjectKeyMissing(
                key.clone(),
                clone_tree(tree),
            ),
            ObjectDiff::ObjectKeyPresent(key, tree) => ObjectDiff::ObjectKeyPresent(
                key.clone(),
                clone_tree(tree),
            ),
            ObjectDiff::ObjectValueDiff(key, tree) => ObjectDiff::ObjectValueDiff(
                key.clone(),
                clone_tree(tree),
            ),
        }
    }
}

/// Whether the two documents differ at the root of `tree`: a scalar with a
/// pair, or an array or object with an entry in its list of differences.
pub open spec fn differs(tree: DiffTree) -> bool {
    match tree {
        DiffTree::Null(pair) => pair is Some,
        DiffTree::String(_, pair) => pair is Some,
        DiffTree::Bool(_, pair) => pair is Some,
        DiffTree::Number(_, pair) => pair is Some,
        DiffTree::Array(_, diffs) => diffs.len() > 0,
        DiffTree::Object(_, diffs) => diffs.len() > 0,
    }
}

/// Whether the two documents differ at the root of `j`.
pub fn has_differences(j: &JsonV) -> (r: bool)
    ensures
        r == differs(j@),
{
    match j {
        JsonV::Null(st) => st.is_some(),
        JsonV::String(_, st) => st.is_some(),
        JsonV::Bool(_, st) => st.is_some(),
        JsonV::Number(_, st) => st.is_some(),
        JsonV::Object(_, st) => !st.is_empty(),
        JsonV::Array(_, st) => !st.is_empty(),
    }
}

/// The text of a number whose value as a double is not known.
pub open spec fn zero_text() -> Seq<char> {
    seq!['0']
}

/// The decimal text of the value of `number` as a double.
pub open spec fn number_text(number: Seq<char>) -> Seq<char> {
    match float_text(number) {
        Some(text) => text,
        None => zero_text(),
    }
}

/// `document` as a tree without differences: every scalar without a pair,
/// every element of an array at its own place, every member of an object in
/// its place, and every list of differences empty.
pub open spec fn normalized(document: JsonModel) -> DiffTree
    decreases document,
{
    match document {
        JsonModel::Null => DiffTree::Null(None),
        JsonModel::Bool(b) => DiffTree::Bool(b, None),
        JsonModel::Number(number) => DiffTree::Number(number_text(number), None),
        JsonModel::String(text) => DiffTree::String(text, None),
        JsonModel::Array(items) => DiffTree::Array(
            Seq::new(
                items.len(),
                |i: int|
                    if 0 <= i < items.len() {
                        Placed { at: i, tree: normalized(items[i]) }
                    } else {
                        Placed { at: 0, tree: DiffTree::Null(None) }
                    },
            ),
            Seq::empty(),
        ),
        JsonModel::Object(members) => DiffTree::Object(
            Seq::new(
                members.len(),
                |i: int|
                    if 0 <= i < members.len() {
                        Named { key: members[i].key, tree: normalized(members[i].value) }
                    } else {
                        Named { key: Seq::empty(), tree: DiffTree::Null(None) }
                    },
            ),
            Seq::empty(),
        ),
    }
}

/// The text of the double that `number` denotes, `0` where it denotes none.
fn number_value(number: &String) -> (r: String)
    ensures
        r@ == number_text(number@),
{
    match number_as_float(number.as_str()) {
        Some(text) => text,
        None => {
            proof {
                reveal_strlit("0");
            }
            let zero = "0".to_owned();
            zero
        },
    }
}

/// Turns a document into a tree without differences.
pub fn convert(v: &Json) -> (r: JsonV)
    ensures
        r@ == normalized(v@),
    decreases v,
{
    match v {
        Json::Null => JsonV::Null(None),
        Json::Bool(b) => JsonV::Bool(*b, None),
        Json::Number(n) => JsonV::Number(number_value(n), None),
        Json::String(s) => JsonV::String(s.clone(), None),
        Json::Object(o) => {
            let mut map: Vec<(String, JsonV)> = Vec::new();
            let mut i: usize = 0;
            while i < o.len()
                invariant
                    i <= o.len(),
                    decreases_to!(v => o),
                    map@.len() == i,
                    forall|k: int|
                        0 <= k < i ==> (#[trigger] map@[k]).0@ == o@[k].0@ && tree_of(map@[k].1)
                            == normalized(o@[k].1@),
                decreases o.len() - i,
            {
                let converted = convert(&o[i].1);
                map.push((o[i].0.clone(), converted));
                i += 1;
            }
            let differences: Vec<ObjectDiff> = Vec::new();
            proof {
                assert(members_of(map@) =~= normalized(v@)->Object_0);
                assert(object_diffs_of(differences@) =~= Seq::empty());
            }
            JsonV::Object(map, differences)
        },
        Json::Array(b) => {
            let mut converted_elements: Vec<(usize, JsonV)> = Vec::new();
            let mut i: usize = 0;
            while i < b.len()
                invariant
                    i <= b.len(),
                    decreases_to!(v => b),
                    converted_elements@.len() == i,
                    forall|k: int|
                        0 <= k < i ==> (#[trigger] converted_elements@[k]).0 == k && tree_of(
                            converted_elements@[k].1,
                        ) == normalized(b@[k]@),
                decreases b.len() - i,
            {
                let converted = convert(&b[i]);
                converted_elements.push((i, converted));
                i += 1;
            }
            let differences: Vec<ArrayDiff> = Vec::new();
            proof {
                assert(same_of(converted_elements@) =~= normalized(v@)->Array_0);
                assert(array_diffs_of(differences@) =~= Seq::empty());
            }
            JsonV::Array(converted_elements, differences)
        },
    }
}

/// The relation "element `i` of `xs` and element `j` of `ys` are written alike".
pub open spec fn same_text(xs: Seq<JsonModel>, ys: Seq<JsonModel>) -> spec_fn(int, int) -> bool {
    |i: int, j: int| canonical_text(xs[i]) == canonical_text(ys[j])
}

/// The elements that two arrays share, as the first `n` steps of the
/// alignment `ops` give them: each at the place of the step that keeps it.
pub open spec fn array_same(ops: Seq<EditType>, xs: Seq<JsonModel>, n: int) -> Seq<Placed>
    decreases n,
{
    if n <= 0 {
        Seq::empty()
    } else {
        let rest = array_same(ops, xs, n - 1);
        match ops[n - 1] {
            EditType::Substitute(x, _, same) => if same {
                rest.push(Placed { at: n - 1, tree: normalized(xs[x as int]) })
            } else {
                rest
            },
            _ => rest,
        }
    }
}

/// The elements that one of two arrays lacks, as the first `n` steps of the
/// alignment `ops` give them. An element that is replaced by an unequal one
/// gives two entries at one place: the second side's, then the first side's.
pub open spec fn array_diffs(
    ops: Seq<EditType>,
    xs: Seq<JsonModel>,
    ys: Seq<JsonModel>,
    n: int,
) -> Seq<ArrayDiffModel>
    decreases n,
{
    if n <= 0 {
        Seq::empty()
    } else {
        let rest = array_diffs(ops, xs, ys, n - 1);
        match ops[n - 1] {
            EditType::Insert(y) => rest.push(
                ArrayDiffModel::ArrayValueInSecond(n - 1, normalized(ys[y as int])),
            ),
            EditType::Delete(x) => rest.push(
                ArrayDiffModel::ArrayValueInFirst(n - 1, normalized(xs[x as int])),
            ),
            EditType::Substitute(x, y, same) => if same {
                rest
            } else {
                rest.push(
                    ArrayDiffModel::ArrayValueInSecond(n - 1, normalized(ys[y as int])),
                ).push(ArrayDiffModel::ArrayValueInFirst(n - 1, normalized(xs[x as int])))
            },
            EditType::Unknown => rest,
        }
    }
}

/// The difference of two arrays: their elements are aligned by their texts.
pub open spec fn array_diff(xs: Seq<JsonModel>, ys: Seq<JsonModel>) -> DiffTree {
    let ops = script(same_text(xs, ys), xs.len() as int, ys.len() as int);
    DiffTree::Array(array_same(ops, xs, ops.len() as int), array_diffs(ops, xs, ys, ops.len() as int))
}

/// The value of the first member of `members` whose key is `key`.
pub open spec fn value_at(members: Seq<MemberModel>, key: Seq<char>) -> JsonModel {
    members[position(keys_of(members), key)].value
}

/// For each key of `keys`, the difference of the values that the two objects
/// hold under it, where both hold one.
pub open spec fn object_children(
    first: Seq<MemberModel>,
    second: Seq<MemberModel>,
    keys: Seq<Seq<char>>,
) -> Seq<Option<DiffTree>>
    decreases first,
{
    Seq::new(
        keys.len(),
        |i: int|
            {
                let p = position(keys_of(first), keys[i]);
                let q = position(keys_of(second), keys[i]);
                if 0 <= p < first.len() && 0 <= q < second.len() {
                    Some(diff_model(first[p].value, second[q].value))
                } else {
                    None
                }
            },
    )
}

/// The members on which two objects agree, among the first `n` keys.
pub open spec fn agreeing(keys: Seq<Seq<char>>, children: Seq<Option<DiffTree>>, n: int) -> Seq<
    Named,
>
    decreases n,
{
    if n <= 0 {
        Seq::empty()
    } else {
        let rest = agreeing(keys, children, n - 1);
        match children[n - 1] {
            Some(child) => if differs(child) {
                rest
            } else {
                rest.push(Named { key: keys[n - 1], tree: child })
            },
            None => rest,
        }
    }
}

/// The members that two objects both have and on which they differ, among
/// the first `n` keys.
pub open spec fn disagreeing(
    keys: Seq<Seq<char>>,
    children: Seq<Option<DiffTree>>,
    n: int,
) -> Seq<ObjectDiffModel>
    decreases n,
{
    if n <= 0 {
        Seq::empty()
    } else {
        let rest = disagreeing(keys, children, n - 1);
        match children[n - 1] {
            Some(child) => if differs(child) {
                rest.push(ObjectDiffModel::ObjectValueDiff(keys[n - 1], child))
            } else {
                rest
            },
            None => rest,
        }
    }
}

/// The members that only the first object has, one for each key of `keys`.
pub open spec fn only_first(members: Seq<MemberModel>, keys: Seq<Seq<char>>) -> Seq<
    ObjectDiffModel,
> {
    Seq::new(
        keys.len(),
        |i: int| ObjectDiffModel::ObjectKeyPresent(keys[i], normalized(value_at(members, keys[i]))),
    )
}

/// The members that only the second object has, one for each key of `keys`.
pub open spec fn only_second(members: Seq<MemberModel>, keys: Seq<Seq<char>>) -> Seq<
    ObjectDiffModel,
> {
    Seq::new(
        keys.len(),
        |i: int| ObjectDiffModel::ObjectKeyMissing(keys[i], normalized(value_at(members, keys[i]))),
    )
}

/// Two numbers are equal where both have a value as a double, and the same.
pub open spec fn numbers_equal(first: Option<Seq<char>>, second: Option<Seq<char>>) -> bool {
    first is Some && second is Some && first == second
}

/// The two sides of a difference, each as a tree without differences.
pub open spec fn apart(a: JsonModel, b: JsonModel) -> Option<Box<Sides>> {
    Some(Box::new(Sides { first: normalized(a), second: normalized(b) }))
}

/// The difference of two documents.
///
/// Two objects are compared member by member, the keys in ascending order.
/// Two arrays are aligned by the texts of their elements. Two scalars of one
/// kind agree or give a pair. Anything else gives a pair at a `Null`.
pub open spec fn diff_model(a: JsonModel, b: JsonModel) -> DiffTree
    decreases a,
{
    match (a, b) {
        (JsonModel::Object(first), JsonModel::Object(second)) => {
            let keys = sorted_union(keys_of(first), keys_of(second));
            let children = object_children(first, second, keys);
            DiffTree::Object(
                agreeing(keys, children, keys.len() as int),
                only_first(first, sorted_difference(keys_of(first), keys_of(second))) + only_second(
                    second,
                    sorted_difference(keys_of(second), keys_of(first)),
                ) + disagreeing(keys, children, keys.len() as int),
            )
        },
        (JsonModel::Array(xs), JsonModel::Array(ys)) => array_diff(xs, ys),
        (JsonModel::String(s1), JsonModel::String(s2)) => if s1 == s2 {
            DiffTree::String(s1, None)
        } else {
            DiffTree::String(Seq::empty(), apart(a, b))
        },
        (JsonModel::Number(n1), JsonModel::Number(n2)) => if numbers_equal(
            float_text(n1),
            float_text(n2),
        ) {
            DiffTree::Number(float_text(n1)->0, None)
        } else {
            DiffTree::Number(zero_text(), apart(a, b))
        },
        (JsonModel::Bool(b1), JsonModel::Bool(b2)) => if b1 == b2 {
            DiffTree::Bool(b1, None)
        } else {
            DiffTree::Bool(false, apart(a, b))
        },
        (JsonModel::Null, JsonModel::Null) => DiffTree::Null(None),
        _ => DiffTree::Null(apart(a, b)),
    }
}

/// The text of an optional string.
pub open spec fn text_of(text: Option<String>) -> Option<Seq<char>> {
    match text {
        Some(t) => Some(t@),
        None => None,
    }
}

/// Whether both texts are there and alike.
fn equal_texts(a: &Option<String>, b: &Option<String>) -> (r: bool)
    ensures
        r == numbers_equal(text_of(*a), text_of(*b)),
{
    match (a, b) {
        (Some(a), Some(b)) => *a == *b,
        _ => false,
    }
}

/// The keys of the members of an object, in the members' order.
fn object_keys(o: &Vec<(String, Json)>) -> (keys: Vec<String>)
    ensures
        texts(keys@) == keys_of(members_model(o@)),
{
    let mut keys: Vec<String> = Vec::new();
    let mut i: usize = 0;
    while i < o.len()
        invariant
            i <= o.len(),
            keys@.len() == i,
            forall|k: int| 0 <= k < i ==> (#[trigger] keys@[k])@ == o@[k].0@,
        decreases o.len() - i,
    {
        keys.push(o[i].0.clone());
        i += 1;
    }
    keys
}

/// The value of the first member of `members` whose key is `key`.
fn find<'a>(members: &'a Vec<(String, Json)>, key: &String) -> (r: Option<&'a Json>)
    ensures
        match r {
            Some(value) => {
                let p = position(keys_of(members_model(members@)), key@);
                0 <= p < members.len() && *value == members@[p].1
            },
            None => position(keys_of(members_model(members@)), key@) == members.len(),
        },
{
    let ghost keys = keys_of(members_model(members@));
    let mut i: usize = 0;
    while i < members.len()
        invariant
            i <= members.len(),
            keys == keys_of(members_model(members@)),
            forall|k: int| 0 <= k < i ==> #[trigger] keys[k] != key@,
        decreases members.len() - i,
    {
        if members[i].0 == *key {
            proof {
                assert(keys[i as int] == key@);
                lemma_position(keys, key@);
            }
            return Some(&members[i].1);
        }
        i += 1;
    }
    proof {
        lemma_position(keys, key@);
    }
    None
}

/// The texts of the elements of an array.
fn element_texts(arr: &Vec<Json>) -> (r: Vec<Text>)
    ensures
        r@.len() == arr@.len(),
        forall|i: int| 0 <= i < arr@.len() ==> (#[trigger] r@[i])@ == canonical_text(arr@[i]@),
{
    let mut r: Vec<Text> = Vec::new();
    let mut i: usize = 0;
    while i < arr.len()
        invariant
            i <= arr.len(),
            r@.len() == i,
            forall|k: int| 0 <= k < i ==> (#[trigger] r@[k])@ == canonical_text(arr@[k]@),
        decreases arr.len() - i,
    {
        r.push(Text(serialize(&arr[i])));
        i += 1;
    }
    r
}

/// The difference of two arrays.
fn diff_arrays(arr1: &Vec<Json>, arr2: &Vec<Json>) -> (r: JsonV)
    requires
        arr1.len() <= array_limit(),
        arr2.len() <= array_limit(),
    ensures
        r@ == array_diff(items_model(arr1@), items_model(arr2@)),
{
    let arr1_elements_serialized = element_texts(arr1);
    let arr2_elements_serialized = element_texts(arr2);
    let ghost xs = items_model(arr1@);
    let ghost ys = items_model(arr2@);
    let ghost n = arr1.len() as int;
    let ghost m = arr2.len() as int;
    let ghost t1 = arr1_elements_serialized@;
    let ghost t2 = arr2_elements_serialized@;
    let edit_types = edit_distance(arr1_elements_serialized, arr2_elements_serialized);
    let ghost ops = edit_types@;
    proof {
        lemma_script_congruent(matches_of(t1, t2), same_text(xs, ys), n, m);
        lemma_walks_in_range(ops, 0, 0, n, m);
    }
    let mut same: Vec<(usize, JsonV)> = Vec::new();
    let mut diffs: Vec<ArrayDiff> = Vec::new();
    let mut i: usize = 0;
    while i < edit_types.len()
        invariant
            i <= edit_types.len(),
            ops == edit_types@,
            n == arr1.len(),
            m == arr2.len(),
            xs == items_model(arr1@),
            ys == items_model(arr2@),
            forall|k: int| 0 <= k < ops.len() ==> in_range(#[trigger] ops[k], n, m),
            same_of(same@) == array_same(ops, xs, i as int),
            array_diffs_of(diffs@) == array_diffs(ops, xs, ys, i as int),
        decreases edit_types.len() - i,
    {
        match edit_types[i] {
            EditType::Insert(index) => {
                diffs.push(ArrayDiff::ArrayValueInSecond(i, convert(&arr2[index])));
            },
            EditType::Delete(index) => {
                diffs.push(ArrayDiff::ArrayValueInFirst(i, convert(&arr1[index])));
            },
            EditType::Substitute(index_arg1, index_arg2, is_same) => {
                if is_same {
                    same.push((i, convert(&arr1[index_arg1])));
                } else {
                    diffs.push(ArrayDiff::ArrayValueInSecond(i, convert(&arr2[index_arg2])));
                    diffs.push(ArrayDiff::ArrayValueInFirst(i, convert(&arr1[index_arg1])));
                }
            },
            EditType::Unknown => (),
        }
        i += 1;
    }
    JsonV::Array(same, diffs)
}

/// The members that only one of two objects has: one entry for each key of
/// `keys`, for the first object where `first_side` is set, else for the second.
fn one_sided(members: &Vec<(String, Json)>, keys: &Vec<String>, first_side: bool) -> (r: Vec<
    ObjectDiff,
>)
    requires
        forall|i: int|
            0 <= i < keys.len() ==> keys_of(members_model(members@)).contains(
                #[trigger] texts(keys@)[i],
            ),
    ensures
        object_diffs_of(r@) == if first_side {
            only_first(members_model(members@), texts(keys@))
        } else {
            only_second(members_model(members@), texts(keys@))
        },
{
    let ghost model = members_model(members@);
    let ghost wanted = if first_side {
        only_first(model, texts(keys@))
    } else {
        only_second(model, texts(keys@))
    };
    let mut r: Vec<ObjectDiff> = Vec::new();
    let mut i: usize = 0;
    while i < keys.len()
        invariant
            i <= keys.len(),
            model == members_model(members@),
            wanted == if first_side {
                only_first(model, texts(keys@))
            } else {
                only_second(model, texts(keys@))
            },
            forall|k: int|
                0 <= k < keys.len() ==> keys_of(model).contains(#[trigger] texts(keys@)[k]),
            wanted.len() == keys.len(),
            object_diffs_of(r@) == wanted.take(i as int),
        decreases keys.len() - i,
    {
        let ghost before = object_diffs_of(r@);
        proof {
            assert(keys_of(model).contains(texts(keys@)[i as int]));
            lemma_position(keys_of(model), keys@[i as int]@);
        }
        match find(members, &keys[i]) {
            Some(value) => {
                let tree = convert(value);
                if first_side {
                    r.push(ObjectDiff::ObjectKeyPresent(keys[i].clone(), tree));
                } else {
                    r.push(ObjectDiff::ObjectKeyMissing(keys[i].clone(), tree));
                }
                proof {
                    assert(object_diffs_of(r@) =~= before.push(wanted[i as int]));
                }
            },
            None => {},
        }
        i += 1;
    }
    r
}

/// Compares two documents.
///
/// The result is `diff_model` of the two: it says for every place of the
/// documents whether they agree there, and never fails.
pub fn diff_rec(arg1: &Json, arg2: &Json) -> (r: JsonV)
    requires
        fits(arg1@),
        fits(arg2@),
    ensures
        r@ == diff_model(arg1@, arg2@),
    decreases arg1,
{
    match (arg1, arg2) {
        // Check keys first then values
        (Json::Object(a_obj), Json::Object(b_obj)) => {
            let ghost first = members_model(a_obj@);
            let ghost second = members_model(b_obj@);
            // Find fields not in the other and vice versa
            let fields_in_a_not_b = a_intersection_complement_b(
                object_keys(a_obj),
                object_keys(b_obj),
            );
            let fields_in_b_not_a = a_intersection_complement_b(
                object_keys(b_obj),
                object_keys(a_obj),
            );
            // Find fields where the values differ in the two structures
            let all_keys = union(object_keys(a_obj), object_keys(b_obj));
            let ghost keys = texts(all_keys@);
            let ghost children = object_children(first, second, keys);
            let mut differences: Vec<ObjectDiff> = Vec::new();
            let mut similarities: Vec<(String, JsonV)> = Vec::new();
            let mut i: usize = 0;
            while i < all_keys.len()
                invariant
                    i <= all_keys.len(),
                    keys == texts(all_keys@),
                    first == members_model(a_obj@),
                    second == members_model(b_obj@),
                    children == object_children(first, second, keys),
                    decreases_to!(arg1 => a_obj),
                    forall|k: int| 0 <= k < first.len() ==> fits((#[trigger] first[k]).value),
                    forall|k: int| 0 <= k < second.len() ==> fits((#[trigger] second[k]).value),
                    members_of(similarities@) == agreeing(keys, children, i as int),
                    object_diffs_of(differences@) == disagreeing(keys, children, i as int),
                decreases all_keys.len() - i,
            {
                let key = &all_keys[i];
                match (find(a_obj, key), find(b_obj, key)) {
                    (Some(a_value), Some(b_value)) => {
                        let ghost p = position(keys_of(first), key@);
                        let ghost q = position(keys_of(second), key@);
                        proof {
                            assert(first[p].value == a_value@);
                            assert(second[q].value == b_value@);
                        }
                        let json_element = diff_rec(a_value, b_value);
                        if has_differences(&json_element) {
                            differences.push(ObjectDiff::ObjectValueDiff(key.clone(), json_element));
                        } else {
                            similarities.push((key.clone(), json_element));
                        }
                    },
                    _ => {},
                }
                i += 1;
            }
            proof {
                lemma_sorted_difference(keys_of(first), keys_of(second));
                lemma_sorted_difference(keys_of(second), keys_of(first));
                assert forall|k: int| 0 <= k < fields_in_a_not_b.len() implies keys_of(
                    first,
                ).contains(#[trigger] texts(fields_in_a_not_b@)[k]) by {}
                assert forall|k: int| 0 <= k < fields_in_b_not_a.len() implies keys_of(
                    second,
                ).contains(#[trigger] texts(fields_in_b_not_a@)[k]) by {}
            }
            let mut all_differences = one_sided(a_obj, &fields_in_a_not_b, true);
            let mut entries_missing_in_a = one_sided(b_obj, &fields_in_b_not_a, false);
            let ghost present = object_diffs_of(all_differences@);
            let ghost missing = object_diffs_of(entries_missing_in_a@);
            let ghost changed = object_diffs_of(differences@);
            all_differences.append(&mut entries_missing_in_a);
            all_differences.append(&mut differences);
            proof {
                assert(object_diffs_of(all_differences@) =~= present + missing + changed);
            }
            JsonV::Object(similarities, all_differences)
        },
        // Check equal number of elements and element equality
        (Json::Array(arr1), Json::Array(arr2)) => diff_arrays(arr1, arr2),
        (Json::String(s1), Json::String(s2)) => {
            if *s1 == *s2 {
                JsonV::String(s1.clone(), None)
            } else {
                let v1 = Box::new((convert(arg1), convert(arg2)));
                JsonV::String(String::new(), Some(v1))
            }
        },
        (Json::Number(n1), Json::Number(n2)) => {
            let f1 = number_as_float(n1.as_str());
            let f2 = number_as_float(n2.as_str());
            if equal_texts(&f1, &f2) {
                JsonV::Number(f1.unwrap(), None)
            } else {
                let zero = "0".to_owned();
                proof {
                    reveal_strlit("0");
                    assert(zero@ =~= zero_text());
                }
                JsonV::Number(zero, Some(Box::new((convert(arg1), convert(arg2)))))
            }
        },
        (Json::Bool(b1), Json::Bool(b2)) => {
            if *b1 == *b2 {
                JsonV::Bool(*b1, None)
            } else {
                JsonV::Bool(false, Some(Box::new((convert(arg1), convert(arg2)))))
            }
        },
        (Json::Null, Json::Null) => JsonV::Null(None),
        _ => JsonV::Null(Some(Box::new((convert(arg1), convert(arg2))))),
    }
}

/// Compares two JSON texts.
///
/// Fails exactly where one of the texts is not readable, and else returns the
/// difference of the two documents.
pub fn diff(a: &str, b: &str) -> (r: Result<JsonV, ParseError>)
    ensures
        match (readable(a@), readable(b@)) {
            (Some(first), Some(second)) => r matches Ok(tree) && tree@ == diff_model(first, second),
            _ => r is Err,
        },
{
    let a_as_json = match parse(a) {
        Ok(document) => document,
        Err(e) => {
            return Err(e);
        },
    };
    let b_as_json = match parse(b) {
        Ok(document) => document,
        Err(e) => {
            return Err(e);
        },
    };
    let json = diff_rec(&a_as_json, &b_as_json);
    Ok(json)
}

} // verus!
