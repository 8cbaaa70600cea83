use vstd::prelude::*;

use crate::text::text_eq;

verus! {

/// A JSON document as the semantic checks read it: the tree that a `.ui`
/// (TOML) file or the schema file parses into.
///
/// Numbers are kept by their decimal text: no check reads their value.
/// An object keeps its members in the order in which they are iterated.
#[derive(Debug)]
pub enum Json {
    Null,
    Bool(bool),
    Number(String),
    Str(String),
    Array(Vec<Json>),
    Object(Vec<(String, Json)>),
}

/// Number of nodes of a document tree.
pub open spec fn size(j: Json) -> nat
    decreases j,
{
    match j {
        Json::Array(items) => 1 + size_items(items@),
        Json::Object(members) => 1 + size_members(members@),
        _ => 1,
    }
}

pub open spec fn size_items(s: Seq<Json>) -> nat
    decreases s,
{
    if s.len() == 0 {
        0
    } else {
        size_items(s.drop_last()) + size(s.last())
    }
}

pub open spec fn size_members(s: Seq<(String, Json)>) -> nat
    decreases s,
{
    if s.len() == 0 {
        0
    } else {
        size_members(s.drop_last()) + size(s.last().1)
    }
}

/// The value of the first member named `key` of an object's members.
pub open spec fn members_get(ms: Seq<(String, Json)>, key: Seq<char>) -> Option<Json>
    decreases ms.len(),
{
    if ms.len() == 0 {
        None
    } else if ms[0].0@ == key {
        Some(ms[0].1)
    } else {
        members_get(ms.drop_first(), key)
    }
}

/// The member `key` of a document: its value where the document is an
/// object that has such a member, else nothing.
pub open spec fn member(j: Json, key: Seq<char>) -> Option<Json> {
    match j {
        Json::Object(ms) => members_get(ms@, key),
        _ => None,
    }
}

/// The member `key` of a document where it is a string; else the empty text.
pub open spec fn text_member(j: Json, key: Seq<char>) -> Seq<char> {
    match member(j, key) {
        Some(Json::Str(s)) => s@,
        _ => Seq::empty(),
    }
}

/// The member `key` of a document is the string `text`.
pub open spec fn has_text_member(j: Json, key: Seq<char>, text: Seq<char>) -> bool {
    member(j, key) matches Some(Json::Str(s)) && s@ == text
}

/// The members of a document that is an object; else none.
pub open spec fn members_of(j: Json) -> Seq<(String, Json)> {
    match j {
        Json::Object(ms) => ms@,
        _ => Seq::empty(),
    }
}

/// The names of a member list, in order.
pub open spec fn member_names(ms: Seq<(String, Json)>) -> Seq<Seq<char>> {
    ms.map_values(|m: (String, Json)| m.0@)
}

pub proof fn lemma_item_smaller(items: Seq<Json>, i: int)
    requires
        0 <= i < items.len(),
    ensures
        size(items[i]) <= size_items(items),
    decreases items.len(),
{
    if i < items.len() - 1 {
        lemma_item_smaller(items.drop_last(), i);
    }
}

pub proof fn lemma_member_value_smaller(ms: Seq<(String, Json)>, i: int)
    requires
        0 <= i < ms.len(),
    ensures
        size(ms[i].1) <= size_members(ms),
    decreases ms.len(),
{
    if i < ms.len() - 1 {
        lemma_member_value_smaller(ms.drop_last(), i);
    }
}

/// Where `members_get` finds a value, it is that of the first member so named.
pub proof fn lemma_members_get_index(ms: Seq<(String, Json)>, key: Seq<char>) -> (i: int)
    requires
        members_get(ms, key) is Some,
    ensures
        0 <= i < ms.len(),
        ms[i].0@ == key,
        members_get(ms, key) == Some(ms[i].1),
        forall|k: int| 0 <= k < i ==> ms[k].0@ != key,
    decreases ms.len(),
{
    if ms[0].0@ == key {
        0
    } else {
        let j = lemma_members_get_index(ms.drop_first(), key);
        assert forall|k: int| 0 <= k < j + 1 implies ms[k].0@ != key by {
            if k > 0 {
                assert(ms[k] == ms.drop_first()[k - 1]);
            }
        }
        j + 1
    }
}

/// The document is, or holds somewhere below it, the string `t`.
pub open spec fn holds_text(j: Json, t: Seq<char>) -> bool
    decreases j,
{
    match j {
        Json::Str(s) => s@ == t,
        Json::Array(items) => items_hold_text(items@, t),
        Json::Object(members) => members_hold_text(members@, t),
        _ => false,
    }
}

pub open spec fn items_hold_text(s: Seq<Json>, t: Seq<char>) -> bool
    decreases s,
{
    if s.len() == 0 {
        false
    } else {
        items_hold_text(s.drop_last(), t) || holds_text(s.last(), t)
    }
}

pub open spec fn members_hold_text(s: Seq<(String, Json)>, t: Seq<char>) -> bool
    decreases s,
{
    if s.len() == 0 {
        false
    } else {
        members_hold_text(s.drop_last(), t) || holds_text(s.last().1, t)
    }
}

proof fn lemma_item_holds_text(items: Seq<Json>, i: int, t: Seq<char>)
    requires
        0 <= i < items.len(),
        holds_text(items[i], t),
    ensures
        items_hold_text(items, t),
    decreases items.len(),
{
    if i < items.len() - 1 {
        lemma_item_holds_text(items.drop_last(), i, t);
    }
}

proof fn lemma_member_holds_text(ms: Seq<(String, Json)>, i: int, t: Seq<char>)
    requires
        0 <= i < ms.len(),
        holds_text(ms[i].1, t),
    ensures
        members_hold_text(ms, t),
    decreases ms.len(),
{
    if i < ms.len() - 1 {
        lemma_member_holds_text(ms.drop_last(), i, t);
    }
}

/// A string held by an item of an array is held by the array.
pub proof fn lemma_item_text_held(j: Json, i: int, t: Seq<char>)
    requires
        j matches Json::Array(items) && 0 <= i < items@.len() && holds_text(items@[i], t),
    ensures
        holds_text(j, t),
{
    if let Json::Array(items) = j {
        lemma_item_holds_text(items@, i, t);
    }
}

/// A string held by the value of a member of an object is held by the
/// object.
pub proof fn lemma_member_value_text_held(j: Json, i: int, t: Seq<char>)
    requires
        0 <= i < members_of(j).len(),
        holds_text(members_of(j)[i].1, t),
    ensures
        holds_text(j, t),
{
    if let Json::Object(ms) = j {
        lemma_member_holds_text(ms@, i, t);
    }
}

/// A string held by a member of a document is held by the document.
pub proof fn lemma_member_text_held(j: Json, key: Seq<char>, t: Seq<char>)
    requires
        member(j, key) matches Some(v) && holds_text(v, t),
    ensures
        holds_text(j, t),
{
    if let Json::Object(ms) = j {
        let i = lemma_members_get_index(ms@, key);
        lemma_member_holds_text(ms@, i, t);
    }
}

/// A member of a document is smaller than the document.
pub proof fn lemma_member_smaller(j: Json, key: Seq<char>)
    requires
        member(j, key) is Some,
    ensures
        size(member(j, key)->0) < size(j),
{
    match j {
        Json::Object(ms) => {
            let i = lemma_members_get_index(ms@, key);
            lemma_member_value_smaller(ms@, i);
        },
        _ => {},
    }
}

impl Json {
    /// The member `key` of this document (see `member`).
    pub fn get_member(&self, key: &str) -> (r: Option<&Json>)
        ensures
            r is Some == member(*self, key@) is Some,
            r matches Some(v) ==> member(*self, key@) == Some(*v),
    {
        match self {
            Json::Object(ms) => {
                let mut i: usize = 0;
                assert(ms@.skip(0) =~= ms@);
                while i < ms.len()
                    invariant
                        i <= ms@.len(),
                        member(*self, key@) == members_get(ms@, key@),
                        members_get(ms@, key@) == members_get(ms@.skip(i as int), key@),
                    decreases ms.len() - i,
                {
                    assert(ms@.skip(i as int)[0] == ms@[i as int]);
                    if text_eq(ms[i].0.as_str(), key) {
                        assert(members_get(ms@.skip(i as int), key@) == Some(ms@[i as int].1));
                        return Some(&ms[i].1);
                    }
                    assert(ms@.skip(i as int).drop_first() =~= ms@.skip(i + 1));
                    i += 1;
                }
                None
            },
            _ => None,
        }
    }

    /// The text of the member `key` where it is a string.
    pub fn get_text_member(&self, key: &str) -> (r: Option<&String>)
        ensures
            r is Some <==> member(*self, key@) matches Some(Json::Str(_)),
            r matches Some(s) ==> member(*self, key@) == Some(Json::Str(*s)),
    {
        match self.get_member(key) {
            Some(Json::Str(s)) => Some(s),
            _ => None,
        }
    }
}

/// The position of the first member named `key`.
pub open spec fn name_index(ms: Seq<(String, Json)>, key: Seq<char>) -> Option<int>
    decreases ms.len(),
{
    if ms.len() == 0 {
        None
    } else if ms[0].0@ == key {
        Some(0)
    } else {
        match name_index(ms.drop_first(), key) {
            Some(i) => Some(i + 1),
            None => None,
        }
    }
}

/// `name_index` finds the first member so named, and `members_get` its value.
pub proof fn lemma_name_index(ms: Seq<(String, Json)>, key: Seq<char>)
    ensures
        name_index(ms, key) matches Some(i) ==> {
            &&& 0 <= i < ms.len()
            &&& ms[i].0@ == key
            &&& forall|k: int| 0 <= k < i ==> ms[k].0@ != key
            &&& members_get(ms, key) == Some(ms[i].1)
        },
        name_index(ms, key) is None ==> {
            &&& members_get(ms, key) is None
            &&& forall|k: int| 0 <= k < ms.len() ==> ms[k].0@ != key
        },
    decreases ms.len(),
{
    if ms.len() > 0 && ms[0].0@ != key {
        lemma_name_index(ms.drop_first(), key);
        assert forall|k: int| 0 < k < ms.len() implies ms[k] == ms.drop_first()[k - 1] by {}
    }
}

/// The position of the first member named `key`.
pub fn find_name(ms: &Vec<(String, Json)>, key: &str) -> (r: Option<usize>)
    ensures
        r matches Some(i) ==> name_index(ms@, key@) == Some(i as int),
        r is None ==> name_index(ms@, key@) is None,
{
    proof {
        lemma_name_index(ms@, key@);
    }
    let mut i: usize = 0;
    while i < ms.len()
        invariant
            i <= ms@.len(),
            forall|k: int| 0 <= k < i ==> ms@[k].0@ != key@,
            name_index(ms@, key@) matches Some(p) ==> {
                &&& 0 <= p < ms.len()
                &&& ms@[p].0@ == key@
                &&& forall|k: int| 0 <= k < p ==> ms@[k].0@ != key@
            },
            name_index(ms@, key@) is None ==> forall|k: int|
                0 <= k < ms.len() ==> ms@[k].0@ != key@,
        decreases ms.len() - i,
    {
        if text_eq(ms[i].0.as_str(), key) {
            return Some(i);
        }
        i += 1;
    }
    None
}

} // verus!
