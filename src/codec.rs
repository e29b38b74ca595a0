//! The tagged snapshot form of a collection, and reading it back.
//!
//! A snapshot is an object with one member, `nodes`, whose members map the
//! text of each identifier to the tagged form of its node. The tag member
//! `geometry_node` names the variant; the variant's fields follow it.

use vstd::prelude::*;
use crate::collection::{
    ids_agree, lemma_map_of_at, lemma_map_of_push, lemma_map_of_update, lemma_sorted_entries_unique, map_of,
    sorted_by_id, NodeCollection,
};
use crate::ident::{id_from_text, render_id, uuid_text, lemma_uuid_text_injective};
use crate::diff::{
    all_unchanged, diff_at, leaf_same, keys_unique, lemma_diff_identity_at, lemma_single_leaf_change,
    only_modified, replace_at, value_at, PathSegV,
};
use crate::diff::{lemma_member_unique, with_member};
use crate::json::{find_member, lemma_object_view, member, members_view, Json, JsonV};
use crate::node::{Node, Point3, PointData, Rectangle, RectangleData};

verus! {

#[derive(Clone, Copy, Debug, PartialEq, Eq, Structural)]
pub enum CodecError {
    /// The tag names no registered variant.
    UnknownVariant,
    /// The tag is missing, or the fields that the variant needs are missing
    /// or of the wrong kind.
    MalformedFields,
    /// A value has no snapshot form (a number that is not finite).
    SerializationFailure,
}

/// The variants that the registry knows.
#[derive(Clone, Copy, Debug, PartialEq, Eq, Structural)]
pub enum Variant {
    Point3,
    Rectangle,
}

pub open spec fn tag_key() -> Seq<char> {
    "geometry_node"@
}

/// The tag under which a variant is written.
pub open spec fn tag_of(v: Variant) -> Seq<char> {
    match v {
        Variant::Point3 => "Point3"@,
        Variant::Rectangle => "Rectangle"@,
    }
}

/// The registry: each tag that names a variant, and the variant it names.
pub open spec fn variant_of(tag: Seq<char>) -> Option<Variant> {
    if tag == tag_of(Variant::Point3) {
        Some(Variant::Point3)
    } else if tag == tag_of(Variant::Rectangle) {
        Some(Variant::Rectangle)
    } else {
        None
    }
}

/// Looks up the variant that a tag names.
pub fn lookup_variant(tag: &str) -> (r: Option<Variant>)
    ensures
        r == variant_of(tag@),
{
    let t = tag.to_owned();
    if t == "Point3".to_owned() {
        Some(Variant::Point3)
    } else if t == "Rectangle".to_owned() {
        Some(Variant::Rectangle)
    } else {
        None
    }
}

/// A double, given by its bits, is finite: its exponent is not all ones.
pub open spec fn is_finite_bits(bits: u64) -> bool {
    (bits / 0x10_0000_0000_0000) % 0x800 != 0x7ff
}

pub fn finite_bits(bits: u64) -> (r: bool)
    ensures
        r == is_finite_bits(bits),
{
    (bits / 0x10_0000_0000_0000) % 0x800 != 0x7ff
}

pub open spec fn point_finite(p: Point3) -> bool {
    is_finite_bits(p.data.x) && is_finite_bits(p.data.y) && is_finite_bits(p.data.z)
}

pub open spec fn node_finite(n: Node) -> bool {
    match n {
        Node::Point3(p) => point_finite(p),
        Node::Rectangle(r) => point_finite(r.data.anchor) && is_finite_bits(r.data.width)
            && is_finite_bits(r.data.height),
    }
}

pub open spec fn point_members(p: Point3) -> Seq<(Seq<char>, JsonV)> {
    seq![
        ("x"@, JsonV::Number(p.data.x)),
        ("y"@, JsonV::Number(p.data.y)),
        ("z"@, JsonV::Number(p.data.z)),
        ("uuid"@, JsonV::Str(uuid_text(p.uuid))),
    ]
}

/// The tagged form of a node.
pub open spec fn node_json(n: Node) -> JsonV {
    match n {
        Node::Point3(p) => JsonV::Object(
            seq![(tag_key(), JsonV::Str(tag_of(Variant::Point3)))] + point_members(p),
        ),
        Node::Rectangle(r) => JsonV::Object(
            seq![
                (tag_key(), JsonV::Str(tag_of(Variant::Rectangle))),
                ("anchor"@, JsonV::Object(point_members(r.data.anchor))),
                ("width"@, JsonV::Number(r.data.width)),
                ("height"@, JsonV::Number(r.data.height)),
                ("uuid"@, JsonV::Str(uuid_text(r.uuid))),
            ],
        ),
    }
}

/// The members of the `nodes` object: one per entry, in the entries' order.
pub open spec fn entry_members(entries: Seq<(u128, Node)>) -> Seq<(Seq<char>, JsonV)> {
    Seq::new(entries.len(), |i: int| (uuid_text(entries[i].0), node_json(entries[i].1)))
}

/// The snapshot of a collection whose entries, in increasing order of key,
/// are `entries`.
pub open spec fn snapshot_of(entries: Seq<(u128, Node)>) -> JsonV {
    JsonV::Object(seq![("nodes"@, JsonV::Object(entry_members(entries)))])
}

fn number_json(bits: u64) -> (r: Json)
    ensures
        r@ == JsonV::Number(bits),
{
    Json::Number(bits)
}

fn id_json(v: u128) -> (r: Json)
    ensures
        r@ == JsonV::Str(uuid_text(v)),
{
    Json::Str(render_id(v))
}

fn push_point_members(p: &Point3, out: &mut Vec<(String, Json)>)
    ensures
        members_view(final(out)@) == members_view(old(out)@) + point_members(*p),
{
    let ghost before = members_view(out@);
    out.push(("x".to_owned(), number_json(p.data.x)));
    out.push(("y".to_owned(), number_json(p.data.y)));
    out.push(("z".to_owned(), number_json(p.data.z)));
    out.push(("uuid".to_owned(), id_json(p.uuid)));
    assert(members_view(out@) =~= before + point_members(*p));
}

/// The tagged form of a node.
pub fn encode_node(n: &Node) -> (r: Json)
    ensures
        r@ == node_json(*n),
{
    let mut ms: Vec<(String, Json)> = Vec::new();
    match n {
        Node::Point3(p) => {
            ms.push(("geometry_node".to_owned(), Json::Str("Point3".to_owned())));
            push_point_members(p, &mut ms);
            assert(members_view(ms@) =~= seq![(tag_key(), JsonV::Str(tag_of(Variant::Point3)))]
                + point_members(*p));
        },
        Node::Rectangle(r) => {
            ms.push(("geometry_node".to_owned(), Json::Str("Rectangle".to_owned())));
            let mut anchor: Vec<(String, Json)> = Vec::new();
            push_point_members(&r.data.anchor, &mut anchor);
            assert(members_view(anchor@) =~= point_members(r.data.anchor));
            proof {
                lemma_object_view(anchor);
            }
            ms.push(("anchor".to_owned(), Json::Object(anchor)));
            ms.push(("width".to_owned(), number_json(r.data.width)));
            ms.push(("height".to_owned(), number_json(r.data.height)));
            ms.push(("uuid".to_owned(), id_json(r.uuid)));
            assert(members_view(ms@) =~= node_json(*n)->Object_0);
        },
    }
    proof {
        lemma_object_view(ms);
    }
    Json::Object(ms)
}

/// The snapshot of a collection. It fails, and only then, where a number
/// that a node holds is not finite.
pub fn serialize(c: &NodeCollection) -> (r: Result<Json, CodecError>)
    requires
        c.wf(),
    ensures
        match r {
            Ok(j) => j@ == snapshot_of(c.entries()),
            Err(e) => e == CodecError::SerializationFailure,
        },
        r is Ok <==> forall|k: u128| #[trigger] c@.contains_key(k) ==> node_finite(c@[k]),
{
    let entries = c.entries_vec();
    let ghost es = c.entries();
    let mut ms: Vec<(String, Json)> = Vec::new();
    let mut i: usize = 0;
    while i < entries.len()
        invariant
            entries@ == es,
            es == c.entries(),
            c.wf(),
            i <= entries.len(),
            ms@.len() == i,
            members_view(ms@) =~= entry_members(es.take(i as int)),
            forall|j: int| 0 <= j < i ==> node_finite(#[trigger] es[j].1),
        decreases entries.len() - i,
    {
        let (key, node) = &entries[i];
        let ok = match node {
            Node::Point3(p) => finite_bits(p.data.x) && finite_bits(p.data.y) && finite_bits(p.data.z),
            Node::Rectangle(r) => finite_bits(r.data.anchor.data.x) && finite_bits(r.data.anchor.data.y) && finite_bits(
                r.data.anchor.data.z,
            ) && finite_bits(r.data.width) && finite_bits(r.data.height),
        };
        if !ok {
            proof {
                lemma_map_of_at(es, i as int);
                assert(!node_finite(es[i as int].1));
                assert(c@.contains_key(es[i as int].0));
            }
            return Err(CodecError::SerializationFailure);
        }
        let v = encode_node(node);
        let ghost prev = ms@;
        ms.push((render_id(*key), v));
        proof {
            assert forall|j: int| 0 <= j < i implies members_view(ms@)[j] == entry_members(es.take(i + 1))[j] by {
                assert(ms@[j] == prev[j]);
                assert(members_view(prev)[j] == entry_members(es.take(i as int))[j]);
                assert(es.take(i as int)[j] == es.take(i + 1)[j]);
            }
            assert(members_view(ms@)[i as int] == (uuid_text(es[i as int].0), node_json(es[i as int].1)));
            assert(members_view(ms@) =~= entry_members(es.take(i + 1)));
        }
        i = i + 1;
    }
    assert(es.take(i as int) =~= es);
    proof {
        lemma_object_view(ms);
        assert forall|k: u128| #[trigger] c@.contains_key(k) implies node_finite(c@[k]) by {
            let j = choose|j: int| 0 <= j < es.len() && es[j].0 == k;
            lemma_map_of_at(es, j);
        }
    }
    let mut top: Vec<(String, Json)> = Vec::new();
    top.push(("nodes".to_owned(), Json::Object(ms)));
    proof {
        lemma_object_view(top);
        assert(members_view(top@) =~= snapshot_of(es)->Object_0);
    }
    Ok(Json::Object(top))
}

/// The identifier whose text is `s`, if there is one.
pub open spec fn id_in_text(s: Seq<char>) -> Option<u128> {
    if exists|k: u128| uuid_text(k) == s {
        Some(choose|k: u128| uuid_text(k) == s)
    } else {
        None
    }
}

pub open spec fn number_in(v: Option<JsonV>) -> Option<u64> {
    match v {
        Some(JsonV::Number(b)) => Some(b),
        _ => None,
    }
}

pub open spec fn id_in(v: Option<JsonV>) -> Option<u128> {
    match v {
        Some(JsonV::Str(s)) => id_in_text(s),
        _ => None,
    }
}

/// The point that the members `ms` describe, if they describe one.
pub open spec fn point_in(ms: Seq<(Seq<char>, JsonV)>) -> Option<Point3> {
    match (
        number_in(member(ms, "x"@)),
        number_in(member(ms, "y"@)),
        number_in(member(ms, "z"@)),
        id_in(member(ms, "uuid"@)),
    ) {
        (Some(x), Some(y), Some(z), Some(uuid)) => Some(Point3 { data: PointData { x, y, z }, uuid }),
        _ => None,
    }
}

/// The node that the tagged form `j` describes, or why it describes none.
pub open spec fn node_of(j: JsonV) -> Result<Node, CodecError> {
    match j {
        JsonV::Object(ms) => match member(ms, tag_key()) {
            Some(JsonV::Str(t)) => match variant_of(t) {
                None => Err(CodecError::UnknownVariant),
                Some(Variant::Point3) => match point_in(ms) {
                    Some(p) => Ok(Node::Point3(p)),
                    None => Err(CodecError::MalformedFields),
                },
                Some(Variant::Rectangle) => match (
                    member(ms, "anchor"@),
                    number_in(member(ms, "width"@)),
                    number_in(member(ms, "height"@)),
                    id_in(member(ms, "uuid"@)),
                ) {
                    (Some(JsonV::Object(a)), Some(width), Some(height), Some(uuid)) => match point_in(
                        a,
                    ) {
                        Some(anchor) => Ok(Node::Rectangle(Rectangle { data: RectangleData { anchor, width, height }, uuid })),
                        None => Err(CodecError::MalformedFields),
                    },
                    _ => Err(CodecError::MalformedFields),
                },
            },
            _ => Err(CodecError::MalformedFields),
        },
        _ => Err(CodecError::MalformedFields),
    }
}

/// The nodes that the members of a `nodes` object describe, read in order;
/// the first member that describes none decides the error. A member must be
/// named by the text of its node's own identifier.
pub open spec fn entries_in(ms: Seq<(Seq<char>, JsonV)>) -> Result<Map<u128, Node>, CodecError>
    decreases ms.len(),
{
    if ms.len() == 0 {
        Ok(Map::empty())
    } else {
        match entries_in(ms.drop_last()) {
            Err(e) => Err(e),
            Ok(m) => match id_in_text(ms.last().0) {
                None => Err(CodecError::MalformedFields),
                Some(k) => match node_of(ms.last().1) {
                    Err(e) => Err(e),
                    Ok(n) => if n.id() == k {
                        Ok(m.insert(k, n))
                    } else {
                        Err(CodecError::MalformedFields)
                    },
                },
            },
        }
    }
}

/// What a snapshot holds: identifier to node, or why it holds no collection.
pub open spec fn collection_of(j: JsonV) -> Result<Map<u128, Node>, CodecError> {
    match j {
        JsonV::Object(ms) => match member(ms, "nodes"@) {
            Some(JsonV::Object(es)) => entries_in(es),
            _ => Err(CodecError::MalformedFields),
        },
        _ => Err(CodecError::MalformedFields),
    }
}

proof fn lemma_id_in_text(s: Seq<char>, r: Option<u128>)
    requires
        match r {
            Some(v) => uuid_text(v) == s,
            None => forall|v: u128| uuid_text(v) != s,
        },
    ensures
        r == id_in_text(s),
{
    if let Some(v) = r {
        let k = choose|k: u128| uuid_text(k) == s;
        lemma_uuid_text_injective(k, v);
    }
}

fn read_number(ms: &Vec<(String, Json)>, key: &str) -> (r: Option<u64>)
    ensures
        r == number_in(member(members_view(ms@), key@)),
{
    match find_member(ms, key) {
        Some(Json::Number(b)) => Some(*b),
        _ => None,
    }
}

fn read_text_id(s: &String) -> (r: Option<u128>)
    ensures
        r == id_in_text(s@),
{
    let r = id_from_text(s.as_str());
    proof {
        lemma_id_in_text(s@, r);
    }
    r
}

fn read_id(ms: &Vec<(String, Json)>, key: &str) -> (r: Option<u128>)
    ensures
        r == id_in(member(members_view(ms@), key@)),
{
    match find_member(ms, key) {
        Some(Json::Str(s)) => read_text_id(s),
        _ => None,
    }
}

fn read_point(ms: &Vec<(String, Json)>) -> (r: Option<Point3>)
    ensures
        r == point_in(members_view(ms@)),
{
    let x = read_number(ms, "x");
    let y = read_number(ms, "y");
    let z = read_number(ms, "z");
    let uuid = read_id(ms, "uuid");
    match (x, y, z, uuid) {
        (Some(x), Some(y), Some(z), Some(uuid)) => Some(Point3 { data: PointData { x, y, z }, uuid }),
        _ => None,
    }
}

/// Reads a node from its tagged form, dispatching on the tag through the
/// registry.
pub fn decode_node(j: &Json) -> (r: Result<Node, CodecError>)
    ensures
        r == node_of(j@),
{
    match j {
        Json::Object(ms) => {
            proof {
                lemma_object_view(*ms);
            }
            let tag = match find_member(ms, "geometry_node") {
                Some(Json::Str(t)) => t,
                _ => {
                    return Err(CodecError::MalformedFields);
                },
            };
            match lookup_variant(tag.as_str()) {
                None => Err(CodecError::UnknownVariant),
                Some(Variant::Point3) => match read_point(ms) {
                    Some(p) => Ok(Node::Point3(p)),
                    None => Err(CodecError::MalformedFields),
                },
                Some(Variant::Rectangle) => {
                    let width = read_number(ms, "width");
                    let height = read_number(ms, "height");
                    let uuid = read_id(ms, "uuid");
                    match (find_member(ms, "anchor"), width, height, uuid) {
                        (Some(Json::Object(a)), Some(width), Some(height), Some(uuid)) => {
                            proof {
                                lemma_object_view(*a);
                            }
                            match read_point(a) {
                                Some(anchor) => Ok(
                                    Node::Rectangle(Rectangle { data: RectangleData { anchor, width, height }, uuid }),
                                ),
                                None => Err(CodecError::MalformedFields),
                            }
                        },
                        _ => Err(CodecError::MalformedFields),
                    }
                },
            }
        },
        _ => Err(CodecError::MalformedFields),
    }
}

proof fn lemma_entries_in_err(ms: Seq<(Seq<char>, JsonV)>, i: int)
    requires
        0 <= i <= ms.len(),
        entries_in(ms.take(i)) is Err,
    ensures
        entries_in(ms) == entries_in(ms.take(i)),
    decreases ms.len() - i,
{
    if i < ms.len() {
        assert(ms.take(i + 1).drop_last() =~= ms.take(i));
        lemma_entries_in_err(ms, i + 1);
    } else {
        assert(ms.take(i) =~= ms);
    }
}

/// Reads a collection back from its snapshot. The whole read fails with the
/// first error met; no part of a collection is returned.
pub fn deserialize(j: &Json) -> (r: Result<NodeCollection, CodecError>)
    ensures
        match r {
            Ok(c) => c.wf() && collection_of(j@) == Ok::<Map<u128, Node>, CodecError>(c@),
            Err(e) => collection_of(j@) == Err::<Map<u128, Node>, CodecError>(e),
        },
{
    let top = match j {
        Json::Object(ms) => ms,
        _ => {
            return Err(CodecError::MalformedFields);
        },
    };
    proof {
        lemma_object_view(*top);
    }
    let es = match find_member(top, "nodes") {
        Some(Json::Object(es)) => es,
        _ => {
            return Err(CodecError::MalformedFields);
        },
    };
    proof {
        lemma_object_view(*es);
    }
    let ghost esv = members_view(es@);
    assert(collection_of(j@) == entries_in(esv));
    let mut c = NodeCollection::new();
    let mut i: usize = 0;
    assert(esv.take(0) =~= Seq::<(Seq<char>, JsonV)>::empty());
    while i < es.len()
        invariant
            esv == members_view(es@),
            collection_of(j@) == entries_in(esv),
            i <= es.len(),
            c.wf(),
            entries_in(esv.take(i as int)) == Ok::<Map<u128, Node>, CodecError>(c@),
        decreases es.len() - i,
    {
        let ghost m0 = c@;
        assert(esv.take(i + 1).drop_last() =~= esv.take(i as int));
        assert(esv.take(i + 1).last() == esv[i as int]);
        let key = match read_text_id(&es[i].0) {
            Some(k) => k,
            None => {
                proof {
                    assert(esv[i as int].0 == es@[i as int].0@);
                    assert(entries_in(esv.take(i + 1)) == Err::<Map<u128, Node>, CodecError>(CodecError::MalformedFields));
                    lemma_entries_in_err(esv, i + 1);
                }
                return Err(CodecError::MalformedFields);
            },
        };
        let node = match decode_node(&es[i].1) {
            Ok(n) => n,
            Err(e) => {
                proof {
                    assert(esv[i as int].1 == es@[i as int].1@);
                    assert(entries_in(esv.take(i + 1)) == Err::<Map<u128, Node>, CodecError>(e));
                    lemma_entries_in_err(esv, i + 1);
                }
                return Err(e);
            },
        };
        if node.uuid() != key {
            proof {
                lemma_entries_in_err(esv, i + 1);
            }
            return Err(CodecError::MalformedFields);
        }
        c.push(node);
        i = i + 1;
    }
    assert(esv.take(i as int) =~= esv);
    Ok(c)
}

/// The member names of the snapshot form differ from one another, and so
/// do the tags.
proof fn lemma_names_distinct()
    ensures
        "x"@ != "y"@,
        "x"@ != "z"@,
        "x"@ != "uuid"@,
        "y"@ != "z"@,
        "y"@ != "uuid"@,
        "z"@ != "uuid"@,
        tag_key() != "x"@,
        tag_key() != "y"@,
        tag_key() != "z"@,
        tag_key() != "uuid"@,
        tag_key() != "anchor"@,
        tag_key() != "width"@,
        tag_key() != "height"@,
        "anchor"@ != "width"@,
        "anchor"@ != "height"@,
        "anchor"@ != "uuid"@,
        "width"@ != "height"@,
        "width"@ != "uuid"@,
        "height"@ != "uuid"@,
        tag_of(Variant::Point3) != tag_of(Variant::Rectangle),
{
    reveal_strlit("geometry_node");
    reveal_strlit("Point3");
    reveal_strlit("Rectangle");
    reveal_strlit("anchor");
    reveal_strlit("width");
    reveal_strlit("height");
    reveal_strlit("x");
    reveal_strlit("y");
    reveal_strlit("z");
    reveal_strlit("uuid");
    assert("x"@[0] != "y"@[0]);
    assert("x"@[0] != "z"@[0]);
    assert("y"@[0] != "z"@[0]);
    assert("x"@.len() != "uuid"@.len());
    assert("y"@.len() != "uuid"@.len());
    assert("z"@.len() != "uuid"@.len());
    assert(tag_key().len() == 13);
    assert("x"@.len() == 1 && "y"@.len() == 1 && "z"@.len() == 1 && "uuid"@.len() == 4);
    assert("anchor"@.len() == 6 && "width"@.len() == 5 && "height"@.len() == 6);
    assert("anchor"@[0] != "height"@[0]);
    assert("Point3"@.len() == 6 && "Rectangle"@.len() == 9);
}

proof fn lemma_id_round_trip(v: u128)
    ensures
        id_in_text(uuid_text(v)) == Some(v),
{
    let k = choose|k: u128| uuid_text(k) == uuid_text(v);
    lemma_uuid_text_injective(k, v);
}

proof fn lemma_point_round_trip(p: Point3, pre: Seq<(Seq<char>, JsonV)>)
    requires
        forall|i: int|
            0 <= i < pre.len() ==> #[trigger] pre[i].0 != "x"@ && pre[i].0 != "y"@ && pre[i].0
                != "z"@ && pre[i].0 != "uuid"@,
    ensures
        point_in(pre + point_members(p)) == Some(p),
    decreases pre.len(),
{
    lemma_names_distinct();
    let ms = pre + point_members(p);
    if pre.len() == 0 {
        assert(ms =~= point_members(p));
        assert(ms.drop_first() =~= seq![
            ("y"@, JsonV::Number(p.data.y)),
            ("z"@, JsonV::Number(p.data.z)),
            ("uuid"@, JsonV::Str(uuid_text(p.uuid))),
        ]);
        assert(ms.drop_first().drop_first() =~= seq![
            ("z"@, JsonV::Number(p.data.z)),
            ("uuid"@, JsonV::Str(uuid_text(p.uuid))),
        ]);
        assert(ms.drop_first().drop_first().drop_first() =~= seq![
            ("uuid"@, JsonV::Str(uuid_text(p.uuid))),
        ]);
        let m1 = ms.drop_first();
        let m2 = m1.drop_first();
        let m3 = m2.drop_first();
        assert(ms[0].0 == "x"@ && m1[0].0 == "y"@ && m2[0].0 == "z"@ && m3[0].0 == "uuid"@);
        assert(member(ms, "x"@) == Some(JsonV::Number(p.data.x)));
        assert(member(m1, "y"@) == Some(JsonV::Number(p.data.y)));
        assert(member(ms, "y"@) == member(m1, "y"@));
        assert(member(m2, "z"@) == Some(JsonV::Number(p.data.z)));
        assert(member(m1, "z"@) == member(m2, "z"@));
        assert(member(ms, "z"@) == member(m1, "z"@));
        assert(member(m3, "uuid"@) == Some(JsonV::Str(uuid_text(p.uuid))));
        assert(member(m2, "uuid"@) == member(m3, "uuid"@));
        assert(member(m1, "uuid"@) == member(m2, "uuid"@));
        assert(member(ms, "uuid"@) == member(m1, "uuid"@));
        lemma_id_round_trip(p.uuid);
    } else {
        let rest = pre.drop_first();
        assert(ms.drop_first() =~= rest + point_members(p));
        assert(ms[0] == pre[0]);
        lemma_point_round_trip(p, rest);
        assert(member(ms, "x"@) == member(rest + point_members(p), "x"@));
        assert(member(ms, "y"@) == member(rest + point_members(p), "y"@));
        assert(member(ms, "z"@) == member(rest + point_members(p), "z"@));
        assert(member(ms, "uuid"@) == member(rest + point_members(p), "uuid"@));
    }
}

/// Reading a node back from its tagged form gives the same node.
pub proof fn lemma_node_round_trip(n: Node)
    ensures
        node_of(node_json(n)) == Ok::<Node, CodecError>(n),
{
    lemma_names_distinct();
    match n {
        Node::Point3(p) => {
            let pre = seq![(tag_key(), JsonV::Str(tag_of(Variant::Point3)))];
            assert(pre[0].0 == tag_key());
            lemma_point_round_trip(p, pre);
            assert(node_json(n)->Object_0 == pre + point_members(p));
            assert((pre + point_members(p))[0] == pre[0]);
            assert(variant_of(tag_of(Variant::Point3)) == Some(Variant::Point3));
        },
        Node::Rectangle(r) => {
            let ms = node_json(n)->Object_0;
            lemma_point_round_trip(r.data.anchor, Seq::empty());
            assert(Seq::<(Seq<char>, JsonV)>::empty() + point_members(r.data.anchor) =~= point_members(r.data.anchor));
            assert(variant_of(tag_of(Variant::Rectangle)) == Some(Variant::Rectangle));
            let m1 = ms.drop_first();
            let m2 = m1.drop_first();
            let m3 = m2.drop_first();
            let m4 = m3.drop_first();
            assert(ms[0].0 == tag_key() && ms[1].0 == "anchor"@ && ms[2].0 == "width"@ && ms[3].0 == "height"@ && ms[4].0 == "uuid"@);
            assert(m1[0] == ms[1] && m2[0] == ms[2] && m3[0] == ms[3] && m4[0] == ms[4]);
            assert(m1.len() == 4 && m2.len() == 3 && m3.len() == 2 && m4.len() == 1);
            assert(member(m1, "anchor"@) == Some(ms[1].1));
            assert(member(m2, "width"@) == Some(ms[2].1));
            assert(member(m3, "height"@) == Some(ms[3].1));
            assert(member(m4, "uuid"@) == Some(ms[4].1));
            assert(member(ms, "anchor"@) == member(m1, "anchor"@));
            assert(member(ms, "width"@) == member(m1, "width"@));
            assert(member(m1, "width"@) == member(m2, "width"@));
            assert(member(ms, "height"@) == member(m1, "height"@));
            assert(member(m1, "height"@) == member(m2, "height"@));
            assert(member(m2, "height"@) == member(m3, "height"@));
            assert(member(ms, "uuid"@) == member(m1, "uuid"@));
            assert(member(m1, "uuid"@) == member(m2, "uuid"@));
            assert(member(m2, "uuid"@) == member(m3, "uuid"@));
            assert(member(m3, "uuid"@) == member(m4, "uuid"@));
            lemma_id_round_trip(r.uuid);
        },
    }
}


proof fn lemma_entries_round_trip(s: Seq<(u128, Node)>)
    requires
        sorted_by_id(s),
        ids_agree(map_of(s)),
    ensures
        entries_in(entry_members(s)) == Ok::<Map<u128, Node>, CodecError>(map_of(s)),
    decreases s.len(),
{
    if s.len() == 0 {
        assert(map_of(s) =~= Map::empty());
    } else {
        let pre = s.drop_last();
        let e = s.last();
        assert(pre.push(e) =~= s);
        lemma_map_of_push(pre, e);
        lemma_map_of_at(s, s.len() - 1);
        assert(ids_agree(map_of(pre))) by {
            assert forall|k: u128| #[trigger] map_of(pre).contains_key(k) implies map_of(pre)[k].id() == k by {
                let i = choose|i: int| 0 <= i < pre.len() && pre[i].0 == k;
                lemma_map_of_at(pre, i);
                lemma_map_of_at(s, i);
                assert(s[i] == pre[i]);
            }
        }
        lemma_entries_round_trip(pre);
        assert(entry_members(s).drop_last() =~= entry_members(pre));
        lemma_id_round_trip(e.0);
        lemma_node_round_trip(e.1);
    }
}

/// Reading back the snapshot of a collection gives the same collection.
pub proof fn lemma_round_trip(c: NodeCollection)
    requires
        c.wf(),
    ensures
        collection_of(snapshot_of(c.entries())) == Ok::<Map<u128, Node>, CodecError>(c@),
{
    lemma_entries_round_trip(c.entries());
}

proof fn lemma_point_members_unique(p: Point3)
    ensures
        keys_unique(JsonV::Object(point_members(p))),
{
    lemma_names_distinct();
    let ms = point_members(p);
    assert forall|i: int, j: int| 0 <= i < j < ms.len() implies ms[i].0 != ms[j].0 by {}
    assert forall|i: int| 0 <= i < ms.len() implies keys_unique(#[trigger] ms[i].1) by {}
}

proof fn lemma_node_json_unique(n: Node)
    ensures
        keys_unique(node_json(n)),
{
    lemma_names_distinct();
    let ms = node_json(n)->Object_0;
    match n {
        Node::Point3(p) => {
            assert(ms =~= seq![
                (tag_key(), JsonV::Str(tag_of(Variant::Point3))),
                ("x"@, JsonV::Number(p.data.x)),
                ("y"@, JsonV::Number(p.data.y)),
                ("z"@, JsonV::Number(p.data.z)),
                ("uuid"@, JsonV::Str(uuid_text(p.uuid))),
            ]);
            assert forall|i: int, j: int| 0 <= i < j < ms.len() implies ms[i].0 != ms[j].0 by {}
            assert forall|i: int| 0 <= i < ms.len() implies keys_unique(#[trigger] ms[i].1) by {}
        },
        Node::Rectangle(r) => {
            lemma_point_members_unique(r.data.anchor);
            assert forall|i: int, j: int| 0 <= i < j < ms.len() implies ms[i].0 != ms[j].0 by {}
            assert forall|i: int| 0 <= i < ms.len() implies keys_unique(#[trigger] ms[i].1) by {}
        },
    }
}

/// No object in the snapshot of a collection repeats a member name.
pub proof fn lemma_snapshot_keys_unique(c: NodeCollection)
    requires
        c.wf(),
    ensures
        keys_unique(snapshot_of(c.entries())),
{
    let es = c.entries();
    let ms = entry_members(es);
    assert forall|i: int, j: int| 0 <= i < j < ms.len() implies ms[i].0 != ms[j].0 by {
        if ms[i].0 == ms[j].0 {
            lemma_uuid_text_injective(es[i].0, es[j].0);
        }
    }
    assert forall|i: int| 0 <= i < ms.len() implies keys_unique(#[trigger] ms[i].1) by {
        lemma_node_json_unique(es[i].1);
    }
    assert(keys_unique(JsonV::Object(ms)));
    let top = snapshot_of(es)->Object_0;
    assert forall|i: int| 0 <= i < top.len() implies keys_unique(#[trigger] top[i].1) by {}
}

/// Comparing the snapshot of a collection with itself reports every leaf
/// unchanged, and nothing added, removed or modified.
pub proof fn lemma_snapshot_diff_identity(c: NodeCollection)
    requires
        c.wf(),
    ensures
        all_unchanged(diff_at(Seq::empty(), snapshot_of(c.entries()), snapshot_of(c.entries()))),
{
    lemma_snapshot_keys_unique(c);
    lemma_diff_identity_at(Seq::empty(), snapshot_of(c.entries()));
}

/// Changing one leaf of the snapshot of a collection to a value that differs
/// from it as a leaf, and nothing else, is
/// reported as exactly one modification at the path of that leaf, from its
/// old value to its new one, with every other record `Unchanged`.
pub proof fn lemma_snapshot_single_change(c: NodeCollection, p: Seq<PathSegV>, new: JsonV)
    requires
        c.wf(),
        value_at(snapshot_of(c.entries()), p) is Some,
        value_at(snapshot_of(c.entries()), p)->0.is_leaf(),
        new.is_leaf(),
        !leaf_same(value_at(snapshot_of(c.entries()), p)->0, new),
    ensures
        only_modified(
            diff_at(
                Seq::empty(),
                snapshot_of(c.entries()),
                replace_at(snapshot_of(c.entries()), p, new),
            ),
            p,
            value_at(snapshot_of(c.entries()), p)->0,
            new,
        ),
{
    lemma_snapshot_keys_unique(c);
    lemma_single_leaf_change(Seq::empty(), snapshot_of(c.entries()), p, new);
    assert(Seq::<PathSegV>::empty() + p =~= p);
}

/// Where two collections differ only in one field of the node stored under
/// `id`, whose value in the snapshot form goes from one leaf to a value that
/// differs from it as a leaf,
/// comparing their snapshots reports exactly one modification, at the path
/// `nodes`, the text of `id`, then the field's path within the node, from
/// the old value to the new one; every other record is `Unchanged`.
pub proof fn lemma_field_change(
    c1: NodeCollection,
    c2: NodeCollection,
    id: u128,
    n2: Node,
    field: Seq<PathSegV>,
    new: JsonV,
)
    requires
        c1.wf(),
        c2.wf(),
        c1@.contains_key(id),
        c2@ == c1@.insert(id, n2),
        value_at(node_json(c1@[id]), field) is Some,
        value_at(node_json(c1@[id]), field)->0.is_leaf(),
        new.is_leaf(),
        !leaf_same(value_at(node_json(c1@[id]), field)->0, new),
        node_json(n2) == replace_at(node_json(c1@[id]), field, new),
    ensures
        only_modified(
            diff_at(Seq::empty(), snapshot_of(c1.entries()), snapshot_of(c2.entries())),
            seq![PathSegV::Key("nodes"@), PathSegV::Key(uuid_text(id))] + field,
            value_at(node_json(c1@[id]), field)->0,
            new,
        ),
{
    let s1 = c1.entries();
    let i = choose|i: int| 0 <= i < s1.len() && s1[i].0 == id;
    lemma_map_of_at(s1, i);
    let n1 = s1[i].1;
    let s2 = s1.update(i, (id, n2));
    lemma_map_of_update(s1, i, n2);
    lemma_sorted_entries_unique(s2, c2.entries());
    let snap1 = snapshot_of(s1);
    let em1 = entry_members(s1);
    let em2 = entry_members(s2);
    let path = seq![PathSegV::Key("nodes"@), PathSegV::Key(uuid_text(id))] + field;
    let p1 = path.drop_first();
    assert(p1 =~= seq![PathSegV::Key(uuid_text(id))] + field);
    assert(p1.drop_first() =~= field);
    lemma_snapshot_keys_unique(c1);
    let top = snap1->Object_0;
    assert(top[0].1 == JsonV::Object(em1));
    assert(keys_unique(JsonV::Object(em1)));
    assert(em1[i] == (uuid_text(id), node_json(n1)));
    lemma_member_unique(em1, i);
    assert(member(top, "nodes"@) == Some(JsonV::Object(em1)));
    assert(value_at(JsonV::Object(em1), p1) == value_at(node_json(n1), field));
    assert(value_at(snap1, path) == value_at(node_json(n1), field));
    assert(with_member(em1, uuid_text(id), node_json(n2)) =~= em2) by {
        assert forall|j: int| 0 <= j < em1.len() implies with_member(em1, uuid_text(id), node_json(n2))[j] == em2[j] by {
            if j != i && em1[j].0 == uuid_text(id) {
                if j < i {
                    assert(em1[j].0 != em1[i].0);
                } else {
                    assert(em1[i].0 != em1[j].0);
                }
            }
        }
    }
    assert(replace_at(JsonV::Object(em1), p1, new) == JsonV::Object(em2));
    assert(with_member(top, "nodes"@, JsonV::Object(em2)) =~= snapshot_of(s2)->Object_0);
    assert(replace_at(snap1, path, new) == snapshot_of(s2));
    lemma_single_leaf_change(Seq::empty(), snap1, path, new);
    assert(Seq::<PathSegV>::empty() + path =~= path);
}

} // verus!
