use geometry_nodes::codec::{decode_node, deserialize, encode_node, lookup_variant, serialize, CodecError, Variant};
use geometry_nodes::collection::NodeCollection;
use geometry_nodes::ident::id_from_text;
use geometry_nodes::json::{find_member, Json};
use geometry_nodes::node::{Node, Point3, Rectangle};

const ID: u128 = 0xa1a2a3a4b1b2c1c2d1d2d3d4d5d6d7d8;
const ID_TEXT: &str = "a1a2a3a4-b1b2-c1c2-d1d2-d3d4d5d6d7d8";

fn text(s: &str) -> Json {
    Json::Str(s.to_string())
}

fn object(members: Vec<(&str, Json)>) -> Json {
    Json::Object(members.into_iter().map(|(k, v)| (k.to_string(), v)).collect())
}

fn point_json(tag: Option<&str>, id: &str) -> Json {
    let mut ms = Vec::new();
    if let Some(t) = tag {
        ms.push(("geometry_node", text(t)));
    }
    ms.push(("x", Json::Number(1.0f64.to_bits())));
    ms.push(("y", Json::Number(2.0f64.to_bits())));
    ms.push(("z", Json::Number(3.0f64.to_bits())));
    ms.push(("uuid", text(id)));
    object(ms)
}

fn snapshot(entries: Vec<(&str, Json)>) -> Json {
    object(vec![("nodes", object(entries))])
}

#[test]
fn identifier_text_is_hyphenated_lower_hex() {
    let mut p = Point3::new();
    p.uuid = ID;
    let j = encode_node(&Node::Point3(p));
    match j {
        Json::Object(ms) => {
            assert_eq!(find_member(&ms, "uuid"), Some(&text(ID_TEXT)));
            assert_eq!(find_member(&ms, "geometry_node"), Some(&text("Point3")));
        }
        _ => panic!("not an object"),
    }
}

#[test]
fn identifier_text_reads_back() {
    assert_eq!(id_from_text(ID_TEXT), Some(ID));
    assert_eq!(id_from_text("A1A2A3A4-B1B2-C1C2-D1D2-D3D4D5D6D7D8"), None);
    assert_eq!(id_from_text("a1a2a3a4b1b2c1c2d1d2d3d4d5d6d7d8"), None);
    assert_eq!(id_from_text("not an id"), None);
}

#[test]
fn registry_knows_both_variants() {
    assert_eq!(lookup_variant("Point3"), Some(Variant::Point3));
    assert_eq!(lookup_variant("Rectangle"), Some(Variant::Rectangle));
    assert_eq!(lookup_variant("Circle"), None);
}

#[test]
fn round_trip_keeps_every_node() {
    let mut c = NodeCollection::new();
    let mut r = Rectangle::new();
    r.data.width = 10.0f64.to_bits();
    r.data.height = 20.0f64.to_bits();
    r.data.anchor.data.z = (-4.25f64).to_bits();
    let mut p = Point3::new();
    p.data.x = 3.5f64.to_bits();
    c.push(Node::Rectangle(r));
    c.push(Node::Point3(p));
    let snap = serialize(&c).unwrap();
    let back = deserialize(&snap).unwrap();
    assert_eq!(back.entries_vec(), c.entries_vec());
    assert_eq!(serialize(&back).unwrap(), snap);
}

#[test]
fn empty_collection_round_trips() {
    let c = NodeCollection::new();
    let snap = serialize(&c).unwrap();
    assert_eq!(snap, snapshot(vec![]));
    assert_eq!(deserialize(&snap).unwrap().len(), 0);
}

#[test]
fn snapshot_layout() {
    let mut c = NodeCollection::new();
    let mut p = Point3::new();
    p.uuid = ID;
    c.push(Node::Point3(p));
    let expected = snapshot(vec![(
        ID_TEXT,
        object(vec![
            ("geometry_node", text("Point3")),
            ("x", Json::Number(0)),
            ("y", Json::Number(0)),
            ("z", Json::Number(0)),
            ("uuid", text(ID_TEXT)),
        ]),
    )]);
    assert_eq!(serialize(&c).unwrap(), expected);
}

#[test]
fn decoding_ignores_member_order() {
    let j = object(vec![
        ("uuid", text(ID_TEXT)),
        ("z", Json::Number(3.0f64.to_bits())),
        ("geometry_node", text("Point3")),
        ("y", Json::Number(2.0f64.to_bits())),
        ("x", Json::Number(1.0f64.to_bits())),
    ]);
    let n = decode_node(&j).unwrap();
    let mut p = Point3::new();
    p.data.x = 1.0f64.to_bits();
    p.data.y = 2.0f64.to_bits();
    p.data.z = 3.0f64.to_bits();
    p.uuid = ID;
    assert_eq!(n, Node::Point3(p));
}

#[test]
fn unknown_tag_is_unknown_variant() {
    let j = snapshot(vec![(ID_TEXT, point_json(Some("Circle"), ID_TEXT))]);
    assert_eq!(deserialize(&j).err(), Some(CodecError::UnknownVariant));
}

#[test]
fn missing_tag_is_malformed() {
    let j = snapshot(vec![(ID_TEXT, point_json(None, ID_TEXT))]);
    assert_eq!(deserialize(&j).err(), Some(CodecError::MalformedFields));
}

#[test]
fn missing_field_is_malformed() {
    let j = object(vec![("geometry_node", text("Point3")), ("x", Json::Number(0)), ("uuid", text(ID_TEXT))]);
    assert_eq!(decode_node(&j), Err(CodecError::MalformedFields));
}

#[test]
fn mistyped_field_is_malformed() {
    let j = object(vec![
        ("geometry_node", text("Rectangle")),
        ("anchor", Json::Null),
        ("width", Json::Number(0)),
        ("height", Json::Number(0)),
        ("uuid", text(ID_TEXT)),
    ]);
    assert_eq!(decode_node(&j), Err(CodecError::MalformedFields));
}

#[test]
fn key_must_match_node_identifier() {
    let other = "00000000-0000-0000-0000-000000000001";
    let j = snapshot(vec![(other, point_json(Some("Point3"), ID_TEXT))]);
    assert_eq!(deserialize(&j).err(), Some(CodecError::MalformedFields));
}

#[test]
fn first_error_decides() {
    let j = snapshot(vec![
        (ID_TEXT, point_json(None, ID_TEXT)),
        ("00000000-0000-0000-0000-000000000001", point_json(Some("Circle"), "00000000-0000-0000-0000-000000000001")),
    ]);
    assert_eq!(deserialize(&j).err(), Some(CodecError::MalformedFields));
}

#[test]
fn non_object_snapshot_is_malformed() {
    assert_eq!(deserialize(&Json::Null).err(), Some(CodecError::MalformedFields));
    assert_eq!(deserialize(&object(vec![])).err(), Some(CodecError::MalformedFields));
}

#[test]
fn non_finite_number_fails_to_serialize() {
    let mut c = NodeCollection::new();
    let mut r = Rectangle::new();
    r.data.width = f64::NAN.to_bits();
    c.push(Node::Rectangle(r));
    assert_eq!(serialize(&c), Err(CodecError::SerializationFailure));
    let mut c2 = NodeCollection::new();
    let mut p = Point3::new();
    p.data.z = f64::INFINITY.to_bits();
    c2.push(Node::Point3(p));
    assert_eq!(serialize(&c2), Err(CodecError::SerializationFailure));
}
