//! Sets of object keys, held as lists in ascending order.
//!
//! Keys are ordered as strings are: by the bytes of their UTF-8 encoding.
use vstd::prelude::*;
use vstd::string::StringSliceAdditionalSpecFns;
use vstd::utf8::{encode_utf8, encode_utf8_decode_utf8};

verus! {

/// The lexicographic order of byte strings.
pub open spec fn bytes_lt(a: Seq<u8>, b: Seq<u8>) -> bool
    decreases a.len(),
{
    if b.len() == 0 {
        false
    } else if a.len() == 0 {
        true
    } else if a[0] != b[0] {
        a[0] < b[0]
    } else {
        bytes_lt(a.drop_first(), b.drop_first())
    }
}

/// The order of keys: that of their UTF-8 encodings.
pub open spec fn key_lt(a: Seq<char>, b: Seq<char>) -> bool {
    bytes_lt(encode_utf8(a), encode_utf8(b))
}

/// The texts of a list of strings.
pub open spec fn texts(keys: Seq<String>) -> Seq<Seq<char>> {
    Seq::new(keys.len(), |i: int| keys[i]@)
}

/// `keys` ascends strictly; in particular no key occurs twice.
pub open spec fn ascending(keys: Seq<Seq<char>>) -> bool {
    forall|i: int, j: int| 0 <= i < j < keys.len() ==> key_lt(#[trigger] keys[i], #[trigger] keys[j])
}

/// `p` is the place of the first occurrence of `key` in `keys`, or the length
/// of `keys` where `key` does not occur.
pub open spec fn found_at(keys: Seq<Seq<char>>, key: Seq<char>, p: int) -> bool {
    &&& 0 <= p <= keys.len()
    &&& forall|i: int| 0 <= i < p ==> #[trigger] keys[i] != key
    &&& p < keys.len() ==> keys[p] == key
}

/// The place of the first occurrence of `key` in `keys`, or the length of
/// `keys` where `key` does not occur.
pub open spec fn position(keys: Seq<Seq<char>>, key: Seq<char>) -> int {
    choose|p: int| found_at(keys, key, p)
}

/// `p` is the number of keys at the front of `keys` that come before `key`.
pub open spec fn ranks_at(keys: Seq<Seq<char>>, key: Seq<char>, p: int) -> bool {
    &&& 0 <= p <= keys.len()
    &&& forall|i: int| 0 <= i < p ==> key_lt(#[trigger] keys[i], key)
    &&& p < keys.len() ==> !key_lt(keys[p], key)
}

/// The number of keys at the front of `keys` that come before `key`.
pub open spec fn rank(keys: Seq<Seq<char>>, key: Seq<char>) -> int {
    choose|p: int| ranks_at(keys, key, p)
}

/// `keys` with `key` put in its place, unless it is there already.
pub open spec fn insert_key(keys: Seq<Seq<char>>, key: Seq<char>) -> Seq<Seq<char>> {
    let p = rank(keys, key);
    if p < keys.len() && keys[p] == key {
        keys
    } else {
        keys.insert(p, key)
    }
}

/// `keys` with each key of `more` put in its place, from the first on.
pub open spec fn insert_all(keys: Seq<Seq<char>>, more: Seq<Seq<char>>) -> Seq<Seq<char>>
    decreases more.len(),
{
    if more.len() == 0 {
        keys
    } else {
        insert_key(insert_all(keys, more.drop_last()), more.last())
    }
}

/// The keys that occur in `a` or in `b`, each once, in ascending order.
pub open spec fn sorted_union(a: Seq<Seq<char>>, b: Seq<Seq<char>>) -> Seq<Seq<char>> {
    insert_all(insert_all(Seq::empty(), a), b)
}

/// The test "does not occur in `other`".
pub open spec fn absent_from(other: Seq<Seq<char>>) -> spec_fn(Seq<char>) -> bool {
    |key: Seq<char>| !other.contains(key)
}

/// The keys that occur in `a` and not in `b`, each once, in ascending order.
pub open spec fn sorted_difference(a: Seq<Seq<char>>, b: Seq<Seq<char>>) -> Seq<Seq<char>> {
    sorted_union(a, b).filter(absent_from(b))
}

/// No byte string comes before itself.
pub proof fn lemma_bytes_lt_irreflexive(a: Seq<u8>)
    ensures
        !bytes_lt(a, a),
    decreases a.len(),
{
    if a.len() > 0 {
        lemma_bytes_lt_irreflexive(a.drop_first());
    }
}

/// The order of byte strings is transitive.
pub proof fn lemma_bytes_lt_transitive(a: Seq<u8>, b: Seq<u8>, c: Seq<u8>)
    requires
        bytes_lt(a, b),
        bytes_lt(b, c),
    ensures
        bytes_lt(a, c),
    decreases a.len(),
{
    if a.len() > 0 && b.len() > 0 && c.len() > 0 && a[0] == b[0] && b[0] == c[0] {
        lemma_bytes_lt_transitive(a.drop_first(), b.drop_first(), c.drop_first());
    }
}

/// Of two different byte strings one comes before the other.
pub proof fn lemma_bytes_lt_connected(a: Seq<u8>, b: Seq<u8>)
    requires
        !bytes_lt(a, b),
        !bytes_lt(b, a),
    ensures
        a == b,
    decreases a.len(),
{
    if a.len() > 0 && b.len() > 0 {
        lemma_bytes_lt_connected(a.drop_first(), b.drop_first());
        assert(a =~= seq![a[0]] + a.drop_first());
    }
}

/// No key comes before itself.
pub proof fn lemma_key_lt_irreflexive(a: Seq<char>)
    ensures
        !key_lt(a, a),
{
    lemma_bytes_lt_irreflexive(encode_utf8(a));
}

/// The order of keys is transitive.
pub proof fn lemma_key_lt_transitive(a: Seq<char>, b: Seq<char>, c: Seq<char>)
    requires
        key_lt(a, b),
        key_lt(b, c),
    ensures
        key_lt(a, c),
{
    lemma_bytes_lt_transitive(encode_utf8(a), encode_utf8(b), encode_utf8(c));
}

/// Of two different keys one comes before the other.
pub proof fn lemma_key_lt_connected(a: Seq<char>, b: Seq<char>)
    requires
        !key_lt(a, b),
        !key_lt(b, a),
    ensures
        a == b,
{
    lemma_bytes_lt_connected(encode_utf8(a), encode_utf8(b));
    encode_utf8_decode_utf8(a);
    encode_utf8_decode_utf8(b);
}

/// Every key has a position in every list of keys, and only one; the position
/// is a place of the list exactly where the key occurs in it.
pub proof fn lemma_position(keys: Seq<Seq<char>>, key: Seq<char>)
    ensures
        found_at(keys, key, position(keys, key)),
        forall|p: int| found_at(keys, key, p) ==> p == position(keys, key),
        position(keys, key) < keys.len() <==> keys.contains(key),
{
    lemma_position_exists(keys, key, 0);
}

/// A position at or behind `from`, where no key in front of `from` is `key`.
proof fn lemma_position_exists(keys: Seq<Seq<char>>, key: Seq<char>, from: int) -> (p: int)
    requires
        0 <= from <= keys.len(),
        forall|i: int| 0 <= i < from ==> #[trigger] keys[i] != key,
    ensures
        found_at(keys, key, p),
    decreases keys.len() - from,
{
    if from < keys.len() && keys[from] != key {
        lemma_position_exists(keys, key, from + 1)
    } else {
        from
    }
}

/// Every list of keys has a rank for every key, and only one.
pub proof fn lemma_rank(keys: Seq<Seq<char>>, key: Seq<char>)
    ensures
        ranks_at(keys, key, rank(keys, key)),
        forall|p: int| ranks_at(keys, key, p) ==> p == rank(keys, key),
{
    lemma_rank_exists(keys, key, 0);
}

/// A rank at or behind `from`, where every key in front of `from` comes
/// before `key`.
proof fn lemma_rank_exists(keys: Seq<Seq<char>>, key: Seq<char>, from: int) -> (p: int)
    requires
        0 <= from <= keys.len(),
        forall|i: int| 0 <= i < from ==> key_lt(#[trigger] keys[i], key),
    ensures
        ranks_at(keys, key, p),
    decreases keys.len() - from,
{
    if from < keys.len() && key_lt(keys[from], key) {
        lemma_rank_exists(keys, key, from + 1)
    } else {
        from
    }
}

/// Putting a key in its place keeps the order, and adds that key and no other.
pub proof fn lemma_insert_key(keys: Seq<Seq<char>>, key: Seq<char>)
    requires
        ascending(keys),
    ensures
        ascending(insert_key(keys, key)),
        forall|k: Seq<char>|
            insert_key(keys, key).contains(k) <==> (keys.contains(k) || k == key),
{
    lemma_rank(keys, key);
    let p = rank(keys, key);
    let after = insert_key(keys, key);
    if !(p < keys.len() && keys[p] == key) {
        assert forall|i: int, j: int| 0 <= i < j < after.len() implies key_lt(
            #[trigger] after[i],
            #[trigger] after[j],
        ) by {
            if i == p {
                if !key_lt(key, keys[p]) {
                    lemma_key_lt_connected(key, keys[p]);
                }
                if j - 1 > p {
                    lemma_key_lt_transitive(key, keys[p], keys[j - 1]);
                }
            }
        }
        assert forall|k: Seq<char>| after.contains(k) <==> (keys.contains(k) || k == key) by {
            if keys.contains(k) {
                let i = choose|i: int| 0 <= i < keys.len() && keys[i] == k;
                if i < p {
                    assert(after[i] == k);
                } else {
                    assert(after[i + 1] == k);
                }
            }
            if k == key {
                assert(after[p] == k);
            }
        }
    }
}

/// Putting keys in their places keeps the order, and adds those keys and no others.
pub proof fn lemma_insert_all(keys: Seq<Seq<char>>, more: Seq<Seq<char>>)
    requires
        ascending(keys),
    ensures
        ascending(insert_all(keys, more)),
        forall|k: Seq<char>|
            insert_all(keys, more).contains(k) <==> (keys.contains(k) || more.contains(k)),
    decreases more.len(),
{
    if more.len() > 0 {
        let before = insert_all(keys, more.drop_last());
        lemma_insert_all(keys, more.drop_last());
        lemma_insert_key(before, more.last());
        assert forall|k: Seq<char>|
            insert_all(keys, more).contains(k) <==> (keys.contains(k) || more.contains(k)) by {
            if more.contains(k) {
                let i = choose|i: int| 0 <= i < more.len() && more[i] == k;
                if i < more.len() - 1 {
                    assert(more.drop_last()[i] == k);
                }
            }
            if more.drop_last().contains(k) {
                let i = choose|i: int| 0 <= i < more.len() - 1 && more.drop_last()[i] == k;
                assert(more[i] == k);
            }
        }
    }
}

/// The union of two lists of keys ascends, and holds the keys of either list
/// and no others.
pub proof fn lemma_sorted_union(a: Seq<Seq<char>>, b: Seq<Seq<char>>)
    ensures
        ascending(sorted_union(a, b)),
        forall|k: Seq<char>| sorted_union(a, b).contains(k) <==> (a.contains(k) || b.contains(k)),
{
    let none = Seq::<Seq<char>>::empty();
    lemma_insert_all(none, a);
    lemma_insert_all(insert_all(none, a), b);
}

/// A part of an ascending list ascends, where it keeps the list's order.
proof fn lemma_filter_ascending(keys: Seq<Seq<char>>, keep: spec_fn(Seq<char>) -> bool)
    requires
        ascending(keys),
    ensures
        ascending(keys.filter(keep)),
        forall|k: Seq<char>| keys.filter(keep).contains(k) <==> (keys.contains(k) && keep(k)),
        keys.len() > 0 && keys.filter(keep).len() > 0 ==> (keys.filter(keep).last() == keys.last()
            || key_lt(keys.filter(keep).last(), keys.last())),
    decreases keys.len(),
{
    let kept = keys.filter(keep);
    if keys.len() > 0 {
        let front = keys.drop_last();
        lemma_filter_ascending(front, keep);
        let part = front.filter(keep);
        assert(keys =~= front.push(keys.last()));
        front.lemma_filter_push(keys.last(), keep);
        assert(forall|k: Seq<char>| part.contains(k) <==> (front.contains(k) && keep(k)));
        if part.len() > 0 && front.len() > 0 {
            if part.last() != front.last() {
                lemma_key_lt_transitive(part.last(), front.last(), keys.last());
            }
        }
        if keep(keys.last()) {
            assert forall|i: int, j: int| 0 <= i < j < kept.len() implies key_lt(
                #[trigger] kept[i],
                #[trigger] kept[j],
            ) by {
                if j == kept.len() - 1 {
                    if i < part.len() - 1 {
                        lemma_key_lt_transitive(part[i], part.last(), keys.last());
                    }
                }
            }
        }
        assert forall|k: Seq<char>| kept.contains(k) <==> (keys.contains(k) && keep(k)) by {
            if kept.contains(k) {
                let i = choose|i: int| 0 <= i < kept.len() && kept[i] == k;
                if i < part.len() {
                    assert(part.contains(k));
                }
            }
        }
    }
}

/// The difference of two lists of keys ascends, and holds the keys of the
/// first list that the second one lacks, and no others.
pub proof fn lemma_sorted_difference(a: Seq<Seq<char>>, b: Seq<Seq<char>>)
    ensures
        ascending(sorted_difference(a, b)),
        forall|k: Seq<char>| sorted_difference(a, b).contains(k) <==> (a.contains(k) && !b.contains(k)),
{
    lemma_sorted_union(a, b);
    lemma_filter_ascending(sorted_union(a, b), absent_from(b));
}

/// Whether `a` comes before `b`.
pub fn key_less(a: &str, b: &str) -> (r: bool)
    ensures
        r == key_lt(a@, b@),
{
    let x = a.as_bytes();
    let y = b.as_bytes();
    let mut i: usize = 0;
    assert(x@.skip(0) =~= x@ && y@.skip(0) =~= y@);
    while i < x.len() && i < y.len()
        invariant
            i <= x.len(),
            i <= y.len(),
            x@ == encode_utf8(a@),
            y@ == encode_utf8(b@),
            bytes_lt(x@, y@) == bytes_lt(x@.skip(i as int), y@.skip(i as int)),
        decreases x.len() - i,
    {
        proof {
            assert(x@.skip(i as int).drop_first() =~= x@.skip(i + 1));
            assert(y@.skip(i as int).drop_first() =~= y@.skip(i + 1));
        }
        if x[i] != y[i] {
            return x[i] < y[i];
        }
        i += 1;
    }
    x.len() < y.len()
}

/// Whether `key` occurs in `keys`.
pub fn has_key(keys: &Vec<String>, key: &String) -> (r: bool)
    ensures
        r == texts(keys@).contains(key@),
{
    let mut i: usize = 0;
    while i < keys.len()
        invariant
            i <= keys.len(),
            forall|k: int| 0 <= k < i ==> texts(keys@)[k] != key@,
        decreases keys.len() - i,
    {
        if keys[i] == *key {
            assert(texts(keys@)[i as int] == key@);
            return true;
        }
        i += 1;
    }
    false
}

/// Puts `key` in its place in `keys`, unless it is there already.
pub fn insert_sorted(keys: &mut Vec<String>, key: String)
    ensures
        texts(final(keys)@) == insert_key(texts(old(keys)@), key@),
{
    let ghost before = texts(keys@);
    let mut p: usize = 0;
    while p < keys.len() && key_less(keys[p].as_str(), key.as_str())
        invariant
            p <= keys.len(),
            before == texts(keys@),
            forall|i: int| 0 <= i < p ==> key_lt(#[trigger] before[i], key@),
        decreases keys.len() - p,
    {
        p += 1;
    }
    assert(ranks_at(before, key@, p as int));
    if !(p < keys.len() && keys[p] == key) {
        keys.insert(p, key);
    }
}

/// The strings that occur in `s` or in `other`, each once, in ascending order.
pub fn union(s: Vec<String>, other: Vec<String>) -> (stack: Vec<String>)
    ensures
        texts(stack@) == sorted_union(texts(s@), texts(other@)),
{
    union_of(&s, &other)
}

/// The strings that occur in `a` and not in `b`, each once, in ascending order.
pub fn a_intersection_complement_b(a: Vec<String>, b: Vec<String>) -> (u2: Vec<String>)
    ensures
        texts(u2@) == sorted_difference(texts(a@), texts(b@)),
{
    let u = union_of(&a, &b);
    let ghost all = texts(u@);
    let ghost keep = absent_from(texts(b@));
    let mut u2: Vec<String> = Vec::new();
    let mut i: usize = 0;
    while i < u.len()
        invariant
            i <= u.len(),
            all == texts(u@),
            keep == absent_from(texts(b@)),
            texts(u2@) == all.take(i as int).filter(keep),
        decreases u.len() - i,
    {
        proof {
            assert(all.take(i + 1) =~= all.take(i as int).push(all[i as int]));
            all.take(i as int).lemma_filter_push(all[i as int], keep);
        }
        if !has_key(&b, &u[i]) {
            u2.push(u[i].clone());
        }
        i += 1;
    }
    assert(all.take(u.len() as int) =~= all);
    u2
}

/// The strings that occur in `s` or in `other`, each once, in ascending
/// order; the two lists stay with the caller.
pub fn union_of(s: &Vec<String>, other: &Vec<String>) -> (stack: Vec<String>)
    ensures
        texts(stack@) == sorted_union(texts(s@), texts(other@)),
{
    let mut stack: Vec<String> = Vec::new();
    let mut i: usize = 0;
    while i < s.len()
        invariant
            i <= s.len(),
            texts(stack@) == insert_all(Seq::empty(), texts(s@).take(i as int)),
        decreases s.len() - i,
    {
        insert_sorted(&mut stack, s[i].clone());
        assert(texts(s@).take(i + 1).drop_last() =~= texts(s@).take(i as int));
        i += 1;
    }
    assert(texts(s@).take(s.len() as int) =~= texts(s@));
    let ghost first = texts(stack@);
    let mut j: usize = 0;
    while j < other.len()
        invariant
            j <= other.len(),
            texts(stack@) == insert_all(first, texts(other@).take(j as int)),
        decreases other.len() - j,
    {
        insert_sorted(&mut stack, other[j].clone());
        assert(texts(other@).take(j + 1).drop_last() =~= texts(other@).take(j as int));
        j += 1;
    }
    assert(texts(other@).take(other.len() as int) =~= texts(other@));
    stack
}

} // verus!
