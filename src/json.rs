//! The snapshot tree: a JSON-shaped value whose objects keep the order of
//! their members. A number is held as the bit pattern of an IEEE-754 double.

use vstd::prelude::*;

verus! {

#[derive(Debug, PartialEq, Eq)]
pub enum Json {
    Null,
    Bool(bool),
    Number(u64),
    Str(String),
    Array(Vec<Json>),
    Object(Vec<(String, Json)>),
}

/// The mathematical value of a `Json` tree.
pub enum JsonV {
    Null,
    Bool(bool),
    Number(u64),
    Str(Seq<char>),
    Array(Seq<JsonV>),
    Object(Seq<(Seq<char>, JsonV)>),
}

impl JsonV {
    /// A leaf is anything but an array or an object.
    pub open spec fn is_leaf(self) -> bool {
        !(self is Array || self is Object)
    }
}

/// The value of a tree.
pub open spec fn json_view(j: Json) -> JsonV
    decreases j,
{
    match j {
        Json::Null => JsonV::Null,
        Json::Bool(b) => JsonV::Bool(b),
        Json::Number(n) => JsonV::Number(n),
        Json::Str(s) => JsonV::Str(s@),
        Json::Array(items) => JsonV::Array(
            Seq::new(
                items.len() as nat,
                |i: int|
                    if 0 <= i < items.len() {
                        json_view(items[i])
                    } else {
                        JsonV::Null
                    },
            ),
        ),
        Json::Object(members) => JsonV::Object(
            Seq::new(
                members.len() as nat,
                |i: int|
                    if 0 <= i < members.len() {
                        (members[i].0@, json_view(members[i].1))
                    } else {
                        (Seq::empty(), JsonV::Null)
                    },
            ),
        ),
    }
}

impl View for Json {
    type V = JsonV;

    open spec fn view(&self) -> JsonV {
        json_view(*self)
    }
}

impl Json {
    /// A copy of the tree.
    pub fn duplicate(&self) -> (r: Json)
        ensures
            r@ == self@,
        decreases self,
    {
        match self {
            Json::Null => Json::Null,
            Json::Bool(b) => Json::Bool(*b),
            Json::Number(n) => Json::Number(*n),
            Json::Str(s) => Json::Str(s.clone()),
            Json::Array(items) => {
                let mut out: Vec<Json> = Vec::new();
                let mut i: usize = 0;
                while i < items.len()
                    invariant
                        *self == Json::Array(*items),
                        i <= items.len(),
                        out.len() == i,
                        forall|j: int| 0 <= j < i ==> (#[trigger] out[j])@ == items[j]@,
                    decreases items.len() - i,
                {
                    proof {
                        assert(decreases_to!(*self => self->Array_0));
                        assert(decreases_to!(self->Array_0 => self->Array_0[i as int]));
                    }
                    out.push(items[i].duplicate());
                    i = i + 1;
                }
                let r = Json::Array(out);
                assert(r@ == self@) by {
                    assert(r@->Array_0 =~= self@->Array_0) by {
                        assert forall|j: int| 0 <= j < out.len() implies r@->Array_0[j] == self@->Array_0[j] by {
                            assert(out[j]@ == items[j]@);
                            lemma_array_view(out, j);
                            lemma_array_view(*items, j);
                        }
                    }
                }
                r
            },
            Json::Object(members) => {
                let mut out: Vec<(String, Json)> = Vec::new();
                let mut i: usize = 0;
                while i < members.len()
                    invariant
                        *self == Json::Object(*members),
                        i <= members.len(),
                        out.len() == i,
                        forall|j: int|
                            0 <= j < i ==> (#[trigger] out[j]).0@ == members[j].0@ && out[j].1@
                                == members[j].1@,
                    decreases members.len() - i,
                {
                    proof {
                        assert(decreases_to!(*self => self->Object_0));
                        assert(decreases_to!(self->Object_0 => self->Object_0[i as int]));
                        assert(decreases_to!(self->Object_0[i as int] => self->Object_0[i as int].1));
                    }
                    let v = members[i].1.duplicate();
                    out.push((members[i].0.clone(), v));
                    i = i + 1;
                }
                let r = Json::Object(out);
                assert(r@ == self@) by {
                    assert(r@->Object_0 =~= self@->Object_0) by {
                        assert forall|j: int| 0 <= j < out.len() implies r@->Object_0[j] == self@->Object_0[j] by {
                            assert(out[j].0@ == members[j].0@ && out[j].1@ == members[j].1@);
                        }
                    }
                }
                r
            },
        }
    }
}

proof fn lemma_array_view(v: Vec<Json>, j: int)
    requires
        0 <= j < v.len(),
    ensures
        Json::Array(v)@->Array_0[j] == v[j]@,
        Json::Array(v)@->Array_0.len() == v.len(),
{
}

/// The mathematical value of the items of an array.
pub open spec fn items_view(items: Seq<Json>) -> Seq<JsonV> {
    Seq::new(items.len(), |i: int| items[i]@)
}

pub proof fn lemma_items_view(items: Vec<Json>)
    ensures
        Json::Array(items)@ == JsonV::Array(items_view(items@)),
{
    assert(Json::Array(items)@->Array_0 =~= items_view(items@));
}

/// The mathematical value of the members of an object.
pub open spec fn members_view(members: Seq<(String, Json)>) -> Seq<(Seq<char>, JsonV)> {
    Seq::new(members.len(), |i: int| (members[i].0@, members[i].1@))
}

pub proof fn lemma_object_view(members: Vec<(String, Json)>)
    ensures
        Json::Object(members)@ == JsonV::Object(members_view(members@)),
{
    assert(Json::Object(members)@->Object_0 =~= members_view(members@));
}

/// The value of the first member named `key`, if any.
pub open spec fn member(members: Seq<(Seq<char>, JsonV)>, key: Seq<char>) -> Option<JsonV>
    decreases members.len(),
{
    if members.len() == 0 {
        None
    } else if members[0].0 == key {
        Some(members[0].1)
    } else {
        member(members.drop_first(), key)
    }
}

/// Looks up the first member named `key`.
pub fn find_member<'a>(members: &'a Vec<(String, Json)>, key: &str) -> (r: Option<&'a Json>)
    ensures
        match r {
            Some(v) => member(members_view(members@), key@) == Some(v@),
            None => member(members_view(members@), key@) is None,
        },
{
    let ghost ms = members_view(members@);
    let mut i: usize = 0;
    assert(ms.skip(0) =~= ms);
    while i < members.len()
        invariant
            i <= members.len(),
            ms == members_view(members@),
            member(ms, key@) == member(ms.skip(i as int), key@),
        decreases members.len() - i,
    {
        assert(ms.skip(i as int).drop_first() =~= ms.skip(i + 1));
        assert(ms.skip(i as int)[0] == ms[i as int]);
        if members[i].0 == key.to_owned() {
            return Some(&members[i].1);
        }
        i = i + 1;
    }
    None
}

} // verus!
