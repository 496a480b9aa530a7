//! What holds of every difference of two documents.
use crate::codec::float_text;
use crate::edit_distance::{
    lemma_script_aligns, lemma_script_identical, lemma_walks_forward, lemma_walks_in_range,
    script, step, EditType,
};
use crate::json::{fits, keys_of, JsonModel, MemberModel};
use crate::json_diff::{
    agreeing, array_diff, array_diffs, array_same, diff_model, differs, disagreeing, normalized,
    object_children, only_first, only_second, place_of, same_text, ArrayDiffModel, DiffTree,
    Named, ObjectDiffModel, Placed,
};
use crate::keys::{
    ascending, lemma_key_lt_irreflexive, lemma_position, lemma_sorted_difference,
    lemma_sorted_union, position, sorted_difference, sorted_union,
};
use vstd::prelude::*;

verus! {

/// A document is well formed where every number has a value and no object
/// has two members with one key, at any depth.
pub open spec fn well_formed(document: JsonModel) -> bool
    decreases document,
{
    match document {
        JsonModel::Number(number) => float_text(number) is Some,
        JsonModel::Array(items) => forall|i: int|
            0 <= i < items.len() ==> well_formed(#[trigger] items[i]),
        JsonModel::Object(members) => {
            &&& keys_of(members).no_duplicates()
            &&& forall|i: int| 0 <= i < members.len() ==> well_formed((#[trigger] members[i]).value)
        },
        _ => true,
    }
}

/// The two documents agree at every place of `tree`: no scalar has a pair
/// and no array or object has an entry in its list of differences, at any
/// depth.
pub open spec fn unchanged(tree: DiffTree) -> bool
    decreases tree,
{
    match tree {
        DiffTree::Null(pair) => pair is None,
        DiffTree::String(_, pair) => pair is None,
        DiffTree::Bool(_, pair) => pair is None,
        DiffTree::Number(_, pair) => pair is None,
        DiffTree::Array(same, diffs) => {
            &&& diffs.len() == 0
            &&& forall|i: int| 0 <= i < same.len() ==> unchanged((#[trigger] same[i]).tree)
        },
        DiffTree::Object(same, diffs) => {
            &&& diffs.len() == 0
            &&& forall|i: int| 0 <= i < same.len() ==> unchanged((#[trigger] same[i]).tree)
        },
    }
}

/// A document as a tree without differences has none, at any depth.
pub proof fn lemma_normalized_unchanged(document: JsonModel)
    ensures
        unchanged(normalized(document)),
        !differs(normalized(document)),
    decreases document,
{
    match document {
        JsonModel::Array(items) => {
            let same = normalized(document)->Array_0;
            assert forall|i: int| 0 <= i < same.len() implies unchanged(
                (#[trigger] same[i]).tree,
            ) by {
                lemma_normalized_unchanged(items[i]);
            }
        },
        JsonModel::Object(members) => {
            let same = normalized(document)->Object_0;
            assert forall|i: int| 0 <= i < same.len() implies unchanged(
                (#[trigger] same[i]).tree,
            ) by {
                lemma_normalized_unchanged(members[i].value);
            }
        },
        _ => {},
    }
}

/// The step puts an element against an equal one.
pub open spec fn keeps(op: EditType) -> bool {
    match op {
        EditType::Substitute(_, _, same) => same,
        _ => false,
    }
}

/// Both objects have the member, and agree on it at every depth.
pub open spec fn agrees(child: Option<DiffTree>) -> bool {
    match child {
        Some(tree) => unchanged(tree),
        None => false,
    }
}

/// An alignment that keeps every element gives no difference.
proof fn lemma_all_kept(ops: Seq<EditType>, xs: Seq<JsonModel>, ys: Seq<JsonModel>, n: int)
    requires
        0 <= n <= ops.len(),
        forall|k: int| 0 <= k < n ==> keeps(#[trigger] ops[k]),
    ensures
        array_diffs(ops, xs, ys, n).len() == 0,
        forall|i: int|
            0 <= i < array_same(ops, xs, n).len() ==> unchanged(
                (#[trigger] array_same(ops, xs, n)[i]).tree,
            ),
    decreases n,
{
    if n > 0 {
        lemma_all_kept(ops, xs, ys, n - 1);
        match ops[n - 1] {
            EditType::Substitute(x, _, _) => {
                lemma_normalized_unchanged(xs[x as int]);
            },
            _ => {},
        }
    }
}

/// Members that all agree give no difference.
proof fn lemma_all_agree(keys: Seq<Seq<char>>, children: Seq<Option<DiffTree>>, n: int)
    requires
        0 <= n <= children.len(),
        forall|k: int| 0 <= k < n ==> agrees(#[trigger] children[k]),
    ensures
        disagreeing(keys, children, n).len() == 0,
        forall|i: int|
            0 <= i < agreeing(keys, children, n).len() ==> unchanged(
                (#[trigger] agreeing(keys, children, n)[i]).tree,
            ),
    decreases n,
{
    if n > 0 {
        lemma_all_agree(keys, children, n - 1);
    }
}

/// Reflexivity: the difference of a well-formed document and itself has no
/// pair and no entry in a list of differences, at any depth.
pub proof fn lemma_diff_reflexive(document: JsonModel)
    requires
        well_formed(document),
        fits(document),
    ensures
        unchanged(diff_model(document, document)),
        !differs(diff_model(document, document)),
    decreases document,
{
    match document {
        JsonModel::Array(xs) => {
            let n = xs.len() as int;
            let same = same_text(xs, xs);
            lemma_script_identical(same, n);
            let ops = script(same, n, n);
            lemma_all_kept(ops, xs, xs, n);
        },
        JsonModel::Object(members) => {
            let own = keys_of(members);
            let keys = sorted_union(own, own);
            let children = object_children(members, members, keys);
            lemma_sorted_difference(own, own);
            let none = sorted_difference(own, own);
            if none.len() > 0 {
                assert(none.contains(none[0]));
            }
            assert forall|k: int| 0 <= k < keys.len() implies agrees(#[trigger] children[k]) by {
                lemma_position(own, keys[k]);
                let p = position(own, keys[k]);
                lemma_diff_reflexive(members[p].value);
            }
            lemma_all_agree(keys, children, keys.len() as int);
        },
        _ => {},
    }
}

/// Some element that the arrays share, or that one of them lacks, stands at
/// the place `at`.
pub open spec fn occupied(same: Seq<Placed>, diffs: Seq<ArrayDiffModel>, at: int) -> bool {
    ||| exists|i: int| 0 <= i < same.len() && (#[trigger] same[i]).at == at
    ||| exists|j: int| 0 <= j < diffs.len() && place_of(#[trigger] diffs[j]) == at
}

/// The first `n` steps of an alignment occupy the places `0..n`, and no other.
proof fn lemma_places(ops: Seq<EditType>, xs: Seq<JsonModel>, ys: Seq<JsonModel>, n: int)
    requires
        0 <= n <= ops.len(),
        forall|k: int| 0 <= k < n ==> #[trigger] ops[k] != EditType::Unknown,
    ensures
        forall|at: int|
            occupied(array_same(ops, xs, n), array_diffs(ops, xs, ys, n), at) <==> 0 <= at < n,
    decreases n,
{
    if n > 0 {
        lemma_places(ops, xs, ys, n - 1);
        let same0 = array_same(ops, xs, n - 1);
        let diffs0 = array_diffs(ops, xs, ys, n - 1);
        let same = array_same(ops, xs, n);
        let diffs = array_diffs(ops, xs, ys, n);
        assert(forall|i: int| 0 <= i < same0.len() ==> same[i] == same0[i]);
        assert(forall|j: int| 0 <= j < diffs0.len() ==> diffs[j] == diffs0[j]);
        assert forall|at: int| occupied(same, diffs, at) <==> 0 <= at < n by {
            if occupied(same, diffs, at) {
                if exists|i: int| 0 <= i < same.len() && (#[trigger] same[i]).at == at {
                    let i = choose|i: int| 0 <= i < same.len() && (#[trigger] same[i]).at == at;
                    if i < same0.len() {
                        assert(occupied(same0, diffs0, at));
                    }
                } else {
                    let j = choose|j: int| 0 <= j < diffs.len() && place_of(#[trigger] diffs[j]) == at;
                    if j < diffs0.len() {
                        assert(occupied(same0, diffs0, at));
                    }
                }
            }
            if 0 <= at < n - 1 {
                assert(occupied(same0, diffs0, at));
            }
            if at == n - 1 {
                match ops[n - 1] {
                    EditType::Substitute(_, _, true) => {
                        assert(same[same.len() - 1].at == at);
                    },
                    _ => {
                        assert(place_of(diffs[diffs.len() - 1]) == at);
                    },
                }
            }
        }
    }
}

/// Conservation of places: in the difference of two arrays the elements that
/// both share and the elements that one lacks occupy, together, the places
/// from 0 up to the length of the alignment without a gap; and that length is
/// at least the length of either array and at most the sum of both.
pub proof fn lemma_array_places(xs: Seq<JsonModel>, ys: Seq<JsonModel>)
    requires
        xs.len() <= usize::MAX,
        ys.len() <= usize::MAX,
    ensures
        ({
            let steps = script(same_text(xs, ys), xs.len() as int, ys.len() as int).len();
            let tree = array_diff(xs, ys);
            &&& tree is Array
            &&& forall|at: int|
                occupied(tree->Array_0, tree->Array_1, at) <==> 0 <= at < steps
            &&& xs.len() <= steps
            &&& ys.len() <= steps
            &&& steps <= xs.len() + ys.len()
        }),
{
    let n = xs.len() as int;
    let m = ys.len() as int;
    let ops = script(same_text(xs, ys), n, m);
    lemma_script_aligns(same_text(xs, ys), n, m);
    lemma_walks_in_range(ops, 0, 0, n, m);
    lemma_walks_forward(ops, 0, 0, n, m);
    lemma_places(ops, xs, ys, ops.len() as int);
}

/// The key of a member on which two objects do not agree.
pub open spec fn entry_key(entry: ObjectDiffModel) -> Seq<char> {
    match entry {
        ObjectDiffModel::ObjectKeyMissing(key, _) => key,
        ObjectDiffModel::ObjectKeyPresent(key, _) => key,
        ObjectDiffModel::ObjectValueDiff(key, _) => key,
    }
}

/// `key` is the key of a member on which the two objects agree.
pub open spec fn among_same(same: Seq<Named>, key: Seq<char>) -> bool {
    exists|i: int| 0 <= i < same.len() && (#[trigger] same[i]).key == key
}

/// `key` is the key of a member on which the two objects do not agree.
pub open spec fn among_diffs(diffs: Seq<ObjectDiffModel>, key: Seq<char>) -> bool {
    exists|i: int| 0 <= i < diffs.len() && entry_key(#[trigger] diffs[i]) == key
}

/// The key stands among the first `n` keys, with a child of the given kind.
spec fn listed(
    keys: Seq<Seq<char>>,
    children: Seq<Option<DiffTree>>,
    n: int,
    key: Seq<char>,
    changed: bool,
) -> bool {
    exists|i: int|
        0 <= i < n && #[trigger] keys[i] == key && children[i] is Some && differs(children[i]->0)
            == changed
}

/// Which keys the first `n` keys send to either list.
proof fn lemma_split(keys: Seq<Seq<char>>, children: Seq<Option<DiffTree>>, n: int)
    requires
        0 <= n <= keys.len(),
        keys.len() == children.len(),
    ensures
        forall|key: Seq<char>|
            among_same(agreeing(keys, children, n), key) <==> listed(keys, children, n, key, false),
        forall|key: Seq<char>|
            among_diffs(disagreeing(keys, children, n), key) <==> listed(
                keys,
                children,
                n,
                key,
                true,
            ),
    decreases n,
{
    if n > 0 {
        lemma_split(keys, children, n - 1);
        let same0 = agreeing(keys, children, n - 1);
        let diffs0 = disagreeing(keys, children, n - 1);
        let same = agreeing(keys, children, n);
        let diffs = disagreeing(keys, children, n);
        assert(forall|i: int| 0 <= i < same0.len() ==> same[i] == same0[i]);
        assert(forall|j: int| 0 <= j < diffs0.len() ==> diffs[j] == diffs0[j]);
        assert forall|key: Seq<char>|
            among_same(same, key) <==> listed(keys, children, n, key, false) by {
            if among_same(same, key) {
                let i = choose|i: int| 0 <= i < same.len() && (#[trigger] same[i]).key == key;
                if i < same0.len() {
                    assert(among_same(same0, key));
                }
            }
            if listed(keys, children, n, key, false) {
                let w = choose|w: int|
                    0 <= w < n && #[trigger] keys[w] == key && children[w] is Some && differs(
                        children[w]->0,
                    ) == false;
                if w < n - 1 {
                    assert(listed(keys, children, n - 1, key, false));
                } else {
                    assert(same[same.len() - 1].key == key);
                }
            }
        }
        assert forall|key: Seq<char>|
            among_diffs(diffs, key) <==> listed(keys, children, n, key, true) by {
            if among_diffs(diffs, key) {
                let i = choose|i: int| 0 <= i < diffs.len() && entry_key(#[trigger] diffs[i]) == key;
                if i < diffs0.len() {
                    assert(among_diffs(diffs0, key));
                }
            }
            if listed(keys, children, n, key, true) {
                let w = choose|w: int|
                    0 <= w < n && #[trigger] keys[w] == key && children[w] is Some && differs(
                        children[w]->0,
                    ) == true;
                if w < n - 1 {
                    assert(listed(keys, children, n - 1, key, true));
                } else {
                    assert(entry_key(diffs[diffs.len() - 1]) == key);
                }
            }
        }
    }
}

/// Partition of the keys: in the difference of two objects every key of
/// either object is the key of a member on which the two agree or of a member
/// on which they do not, never of both, and no other key is.
pub proof fn lemma_object_partition(first: Seq<MemberModel>, second: Seq<MemberModel>)
    ensures
        ({
            let tree = diff_model(JsonModel::Object(first), JsonModel::Object(second));
            &&& tree is Object
            &&& forall|key: Seq<char>|
                (among_same(tree->Object_0, key) || among_diffs(tree->Object_1, key)) <==> (keys_of(
                    first,
                ).contains(key) || keys_of(second).contains(key))
            &&& forall|key: Seq<char>|
                !(among_same(tree->Object_0, key) && among_diffs(tree->Object_1, key))
        }),
{
    let ka = keys_of(first);
    let kb = keys_of(second);
    let keys = sorted_union(ka, kb);
    let children = object_children(first, second, keys);
    let n = keys.len() as int;
    let da = sorted_difference(ka, kb);
    let db = sorted_difference(kb, ka);
    let present = only_first(first, da);
    let missing = only_second(second, db);
    let changed = disagreeing(keys, children, n);
    let diffs = present + missing + changed;
    lemma_sorted_union(ka, kb);
    lemma_sorted_difference(ka, kb);
    lemma_sorted_difference(kb, ka);
    lemma_split(keys, children, n);
    assert forall|i: int| 0 <= i < n implies ((#[trigger] children[i]) is Some <==> (ka.contains(
        keys[i],
    ) && kb.contains(keys[i]))) by {
        lemma_position(ka, keys[i]);
        lemma_position(kb, keys[i]);
    }
    assert forall|key: Seq<char>|
        among_diffs(diffs, key) <==> (da.contains(key) || db.contains(key) || among_diffs(
            changed,
            key,
        )) by {
        if da.contains(key) {
            let i = choose|i: int| 0 <= i < da.len() && da[i] == key;
            assert(entry_key(diffs[i]) == key);
        }
        if db.contains(key) {
            let i = choose|i: int| 0 <= i < db.len() && db[i] == key;
            assert(entry_key(diffs[present.len() + i]) == key);
        }
        if among_diffs(changed, key) {
            let i = choose|i: int| 0 <= i < changed.len() && entry_key(#[trigger] changed[i]) == key;
            assert(entry_key(diffs[present.len() + missing.len() + i]) == key);
        }
    }
}

/// How many of the entries are elements of the first array.
pub open spec fn count_first(diffs: Seq<ArrayDiffModel>) -> int
    decreases diffs.len(),
{
    if diffs.len() == 0 {
        0
    } else {
        count_first(diffs.drop_last()) + if diffs.last() is ArrayValueInFirst {
            1int
        } else {
            0int
        }
    }
}

/// How many of the entries are elements of the second array.
pub open spec fn count_second(diffs: Seq<ArrayDiffModel>) -> int
    decreases diffs.len(),
{
    if diffs.len() == 0 {
        0
    } else {
        count_second(diffs.drop_last()) + if diffs.last() is ArrayValueInSecond {
            1int
        } else {
            0int
        }
    }
}

/// What the first `n` steps of an alignment give depends on those steps alone.
proof fn lemma_array_prefix(
    ops: Seq<EditType>,
    other: Seq<EditType>,
    xs: Seq<JsonModel>,
    ys: Seq<JsonModel>,
    n: int,
)
    requires
        forall|k: int| 0 <= k < n ==> ops[k] == other[k],
    ensures
        array_same(ops, xs, n) == array_same(other, xs, n),
        array_diffs(ops, xs, ys, n) == array_diffs(other, xs, ys, n),
    decreases n,
{
    if n > 0 {
        lemma_array_prefix(ops, other, xs, ys, n - 1);
    }
}

/// The shared elements and the entries that the alignment of the first `i`
/// elements with the first `j` elements gives account for those elements.
proof fn lemma_array_counts(xs: Seq<JsonModel>, ys: Seq<JsonModel>, i: int, j: int)
    requires
        0 <= i,
        0 <= j,
    ensures
        ({
            let ops = script(same_text(xs, ys), i, j);
            let same = array_same(ops, xs, ops.len() as int);
            let diffs = array_diffs(ops, xs, ys, ops.len() as int);
            &&& same.len() + count_first(diffs) == i
            &&& same.len() + count_second(diffs) == j
        }),
    decreases i + j,
{
    let rule = same_text(xs, ys);
    let ops = script(rule, i, j);
    let n = ops.len() as int;
    let op = step(rule, i, j);
    match op {
        EditType::Insert(_) => {
            let before = script(rule, i, j - 1);
            lemma_array_counts(xs, ys, i, j - 1);
            lemma_array_prefix(ops, before, xs, ys, n - 1);
            assert(array_diffs(ops, xs, ys, n).drop_last() =~= array_diffs(ops, xs, ys, n - 1));
        },
        EditType::Delete(_) => {
            let before = script(rule, i - 1, j);
            lemma_array_counts(xs, ys, i - 1, j);
            lemma_array_prefix(ops, before, xs, ys, n - 1);
            assert(array_diffs(ops, xs, ys, n).drop_last() =~= array_diffs(ops, xs, ys, n - 1));
        },
        EditType::Substitute(_, _, _) => {
            let before = script(rule, i - 1, j - 1);
            lemma_array_counts(xs, ys, i - 1, j - 1);
            lemma_array_prefix(ops, before, xs, ys, n - 1);
        },
        EditType::Unknown => {},
    }
}

/// Conservation of elements: in the difference of two arrays every element
/// of the first array is either shared or an entry of the first side, and
/// every element of the second array is either shared or an entry of the
/// second side; nothing else is.
pub proof fn lemma_array_elements(xs: Seq<JsonModel>, ys: Seq<JsonModel>)
    ensures
        ({
            let tree = array_diff(xs, ys);
            &&& tree is Array
            &&& tree->Array_0.len() + count_first(tree->Array_1) == xs.len()
            &&& tree->Array_0.len() + count_second(tree->Array_1) == ys.len()
        }),
{
    lemma_array_counts(xs, ys, xs.len() as int, ys.len() as int);
}

/// The keys of the members on which two objects agree.
pub open spec fn same_keys(same: Seq<Named>) -> Seq<Seq<char>> {
    Seq::new(same.len(), |i: int| same[i].key)
}

/// The keys of the members on which two objects do not agree.
pub open spec fn diff_keys(diffs: Seq<ObjectDiffModel>) -> Seq<Seq<char>> {
    Seq::new(diffs.len(), |i: int| entry_key(diffs[i]))
}

/// The keys that the first `n` keys send to either list ascend, and are
/// among those `n` keys.
proof fn lemma_split_ascending(keys: Seq<Seq<char>>, children: Seq<Option<DiffTree>>, n: int)
    requires
        0 <= n <= keys.len(),
        keys.len() == children.len(),
        ascending(keys),
    ensures
        ascending(same_keys(agreeing(keys, children, n))),
        ascending(diff_keys(disagreeing(keys, children, n))),
        forall|i: int|
            0 <= i < agreeing(keys, children, n).len() ==> exists|w: int|
                0 <= w < n && keys[w] == #[trigger] same_keys(agreeing(keys, children, n))[i],
        forall|i: int|
            0 <= i < disagreeing(keys, children, n).len() ==> exists|w: int|
                0 <= w < n && keys[w] == #[trigger] diff_keys(disagreeing(keys, children, n))[i],
    decreases n,
{
    if n > 0 {
        lemma_split_ascending(keys, children, n - 1);
        let same0 = same_keys(agreeing(keys, children, n - 1));
        let diffs0 = diff_keys(disagreeing(keys, children, n - 1));
        let same = same_keys(agreeing(keys, children, n));
        let diffs = diff_keys(disagreeing(keys, children, n));
        assert(forall|i: int| 0 <= i < same0.len() ==> same[i] == same0[i]);
        assert(forall|i: int| 0 <= i < diffs0.len() ==> diffs[i] == diffs0[i]);
    }
}

/// No key of an ascending list occurs twice in it.
proof fn lemma_ascending_distinct(keys: Seq<Seq<char>>)
    requires
        ascending(keys),
    ensures
        keys.no_duplicates(),
{
    assert forall|i: int, j: int| 0 <= i < keys.len() && 0 <= j < keys.len() && i != j implies keys[i]
        != keys[j] by {
        lemma_key_lt_irreflexive(keys[i]);
    }
}

/// Each key once: in the difference of two objects no key occurs twice among
/// the members on which the two agree, and none twice among the others.
pub proof fn lemma_object_keys_once(first: Seq<MemberModel>, second: Seq<MemberModel>)
    ensures
        ({
            let tree = diff_model(JsonModel::Object(first), JsonModel::Object(second));
            &&& tree is Object
            &&& same_keys(tree->Object_0).no_duplicates()
            &&& diff_keys(tree->Object_1).no_duplicates()
        }),
{
    let ka = keys_of(first);
    let kb = keys_of(second);
    let keys = sorted_union(ka, kb);
    let children = object_children(first, second, keys);
    let n = keys.len() as int;
    let same = agreeing(keys, children, n);
    let da = sorted_difference(ka, kb);
    let db = sorted_difference(kb, ka);
    let present = only_first(first, da);
    let missing = only_second(second, db);
    let changed = disagreeing(keys, children, n);
    let diffs = present + missing + changed;
    lemma_sorted_union(ka, kb);
    lemma_sorted_difference(ka, kb);
    lemma_sorted_difference(kb, ka);
    lemma_split(keys, children, n);
    lemma_split_ascending(keys, children, n);
    lemma_ascending_distinct(same_keys(same));
    lemma_ascending_distinct(diff_keys(changed));
    lemma_ascending_distinct(da);
    lemma_ascending_distinct(db);
    assert forall|i: int| 0 <= i < n implies ((#[trigger] children[i]) is Some <==> (ka.contains(
        keys[i],
    ) && kb.contains(keys[i]))) by {
        lemma_position(ka, keys[i]);
        lemma_position(kb, keys[i]);
    }
    let all = diff_keys(diffs);
    let a = present.len() as int;
    let b = missing.len() as int;
    assert forall|i: int| 0 <= i < all.len() implies #[trigger] all[i] == (if i < a {
        da[i]
    } else if i < a + b {
        db[i - a]
    } else {
        diff_keys(changed)[i - a - b]
    }) by {}
    assert forall|i: int| a + b <= i < all.len() implies ka.contains(#[trigger] all[i])
        && kb.contains(all[i]) by {
        let key = all[i];
        assert(among_diffs(changed, key));
    }
}

} // verus!
