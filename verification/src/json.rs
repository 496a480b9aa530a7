//! JSON documents as the differ reads them.
use vstd::prelude::*;

verus! {

/// A JSON document.
///
/// A number is held as its JSON text, an object as the list of its members in
/// the order in which they were written.
#[derive(Debug, PartialEq)]
pub enum Json {
    Null,
    Bool(bool),
    Number(String),
    String(String),
    Array(Vec<Json>),
    Object(Vec<(String, Json)>),
}

/// The mathematical value of a `Json`.
pub enum JsonModel {
    Null,
    Bool(bool),
    Number(Seq<char>),
    String(Seq<char>),
    Array(Seq<JsonModel>),
    Object(Seq<MemberModel>),
}

/// The mathematical value of a member of an object.
pub struct MemberModel {
    pub key: Seq<char>,
    pub value: JsonModel,
}

/// The mathematical value of `json`.
pub open spec fn model_of(json: Json) -> JsonModel
    decreases json,
{
    match json {
        Json::Null => JsonModel::Null,
        Json::Bool(b) => JsonModel::Bool(b),
        Json::Number(text) => JsonModel::Number(text@),
        Json::String(text) => JsonModel::String(text@),
        Json::Array(items) => {
            JsonModel::Array(items_model(items@))
        },
        Json::Object(members) => {
            JsonModel::Object(members_model(members@))
        },
    }
}

/// The mathematical value of the elements of an array.
pub open spec fn items_model(items: Seq<Json>) -> Seq<JsonModel>
    decreases items,
{
    Seq::new(
        items.len(),
        |i: int|
            if 0 <= i < items.len() {
                model_of(items[i])
            } else {
                JsonModel::Null
            },
    )
}

/// The mathematical value of the members of an object.
pub open spec fn members_model(members: Seq<(String, Json)>) -> Seq<MemberModel>
    decreases members,
{
    Seq::new(
        members.len(),
        |i: int|
            if 0 <= i < members.len() {
                MemberModel { key: members[i].0@, value: model_of(members[i].1) }
            } else {
                MemberModel { key: Seq::empty(), value: JsonModel::Null }
            },
    )
}

impl View for Json {
    type V = JsonModel;

    open spec fn view(&self) -> JsonModel {
        model_of(*self)
    }
}

/// The largest number of elements of an array that takes part in an
/// alignment: two such arrays have fewer than `usize::MAX` elements together.
pub open spec fn array_limit() -> int {
    (usize::MAX - 1) / 2
}

/// No array of `v`, at any depth, has more than `array_limit()` elements.
pub open spec fn fits(v: JsonModel) -> bool
    decreases v,
{
    match v {
        JsonModel::Array(items) => {
            &&& items.len() <= array_limit()
            &&& forall|i: int| 0 <= i < items.len() ==> fits(#[trigger] items[i])
        },
        JsonModel::Object(members) => {
            forall|i: int| 0 <= i < members.len() ==> fits((#[trigger] members[i]).value)
        },
        _ => true,
    }
}

/// The keys of an object's members, in the members' order.
pub open spec fn keys_of(members: Seq<MemberModel>) -> Seq<Seq<char>> {
    Seq::new(members.len(), |i: int| members[i].key)
}

impl Clone for Json {
    fn clone(&self) -> (r: Json)
        ensures
            r@ == self@,
        decreases self,
    {
        match self {
            Json::Null => Json::Null,
            Json::Bool(b) => Json::Bool(*b),
            Json::Number(text) => Json::Number(text.clone()),
            Json::String(text) => Json::String(text.clone()),
            Json::Array(items) => {
                let mut copies: Vec<Json> = Vec::new();
                let mut i: usize = 0;
                while i < items.len()
                    invariant
                        i <= items.len(),
                        decreases_to!(self => items),
                        copies@.len() == i,
                        forall|k: int| 0 <= k < i ==> (#[trigger] copies@[k])@ == items@[k]@,
                    decreases items.len() - i,
                {
                    copies.push(items[i].clone());
                    i += 1;
                }
                assert(items_model(copies@) =~= items_model(items@));
                Json::Array(copies)
            },
            Json::Object(members) => {
                let mut copies: Vec<(String, Json)> = Vec::new();
                let mut i: usize = 0;
                while i < members.len()
                    invariant
                        i <= members.len(),
                        decreases_to!(self => members),
                        copies@.len() == i,
                        forall|k: int|
                            0 <= k < i ==> (#[trigger] copies@[k]).0@ == members@[k].0@
                                && copies@[k].1@ == members@[k].1@,
                    decreases members.len() - i,
                {
                    copies.push((members[i].0.clone(), members[i].1.clone()));
                    i += 1;
                }
                assert(members_model(copies@) =~= members_model(members@));
                Json::Object(copies)
            },
        }
    }
}

impl Json {
    /// Whether no array of this document has more than `array_limit()` elements.
    pub fn within_limits(&self) -> (r: bool)
        ensures
            r == fits(self@),
        decreases self,
    {
        match self {
            Json::Array(items) => {
                if items.len() > (usize::MAX - 1) / 2 {
                    return false;
                }
                let mut i: usize = 0;
                while i < items.len()
                    invariant
                        i <= items.len(),
                        decreases_to!(self => items),
                        self@ == JsonModel::Array(items_model(items@)),
                        forall|k: int| 0 <= k < i ==> fits(#[trigger] items_model(items@)[k]),
                    decreases items.len() - i,
                {
                    if !items[i].within_limits() {
                        assert(!fits(items_model(items@)[i as int]));
                        return false;
                    }
                    i += 1;
                }
                true
            },
            Json::Object(members) => {
                let mut i: usize = 0;
                while i < members.len()
                    invariant
                        i <= members.len(),
                        decreases_to!(self => members),
                        self@ == JsonModel::Object(members_model(members@)),
                        forall|k: int|
                            0 <= k < i ==> fits((#[trigger] members_model(members@)[k]).value),
                    decreases members.len() - i,
                {
                    if !members[i].1.within_limits() {
                        assert(!fits(members_model(members@)[i as int].value));
                        return false;
                    }
                    i += 1;
                }
                true
            },
            _ => true,
        }
    }
}

} // verus!
