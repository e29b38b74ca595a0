use geometry_nodes::codec::{deserialize, serialize};
use geometry_nodes::collection::NodeCollection;
use geometry_nodes::node::{GeometryNode, Node, Point3, PointData, Rectangle};

#[test]
fn new_collection_is_empty() {
    let c = NodeCollection::new();
    assert_eq!(c.len(), 0);
}

#[test]
fn push_stores_under_own_identifier() {
    let mut c = NodeCollection::new();
    let p = Point3::new();
    let id = GeometryNode::uuid(&p);
    c.push(p.into_node());
    assert_eq!(c.len(), 1);
    let got: Option<&Point3> = c.try_get_typed(&id);
    assert_eq!(got, Some(&p));
}

#[test]
fn push_overwrites_existing_entry() {
    let mut c = NodeCollection::new();
    let mut p = Point3::new();
    p.data.x = 1.5f64.to_bits();
    let id = p.uuid;
    c.push(Node::Point3(p));
    let other = Point3::new();
    c.push(Node::Point3(other));
    assert_eq!(c.len(), 2);
    let mut q = Point3::new();
    q.uuid = id;
    q.data.y = 7.0f64.to_bits();
    c.push(Node::Point3(q));
    assert_eq!(c.len(), 2);
    let got: &Point3 = c.try_get_typed(&id).unwrap();
    assert_eq!(got.data.x, 0);
    assert_eq!(f64::from_bits(got.data.y), 7.0);
}

#[test]
fn push_replaces_variant_too() {
    let mut c = NodeCollection::new();
    let p = Point3::new();
    let id = p.uuid;
    c.push(Node::Point3(p));
    let mut r = Rectangle::new();
    r.uuid = id;
    c.push(Node::Rectangle(r));
    assert_eq!(c.len(), 1);
    assert!(c.try_get_typed::<Point3>(&id).is_none());
    assert!(c.try_get_typed::<Rectangle>(&id).is_some());
}

#[test]
fn narrowing_returns_only_the_stored_variant() {
    let mut c = NodeCollection::new();
    let p = Point3::new();
    let r = Rectangle::new();
    let (pid, rid) = (p.uuid, r.uuid);
    c.push(p.into_node());
    c.push(r.into_node());
    assert!(c.try_get_typed::<Point3>(&pid).is_some());
    assert!(c.try_get_typed::<Rectangle>(&pid).is_none());
    assert!(c.try_get_typed::<Rectangle>(&rid).is_some());
    assert!(c.try_get_typed::<Point3>(&rid).is_none());
}

#[test]
fn narrowing_a_missing_key_is_absent() {
    let c = NodeCollection::new();
    assert!(c.try_get_typed::<Point3>(&42u128).is_none());
}

#[test]
fn typed_mut_changes_the_stored_node() {
    let mut c = NodeCollection::new();
    let r = Rectangle::new();
    let id = r.uuid;
    c.push(Node::Rectangle(r));
    assert!(c.try_get_typed_mut::<Point3>(&id).is_none());
    if let Some(rect) = c.try_get_typed_mut::<Rectangle>(&id) {
        *rect.width_mut() = 10.0f64.to_bits();
        *rect.height_mut() = 20.0f64.to_bits();
    }
    let got: &Rectangle = c.try_get_typed(&id).unwrap();
    assert_eq!(f64::from_bits(got.data.width), 10.0);
    assert_eq!(f64::from_bits(got.data.height), 20.0);
}

#[test]
fn remove_returns_the_node() {
    let mut c = NodeCollection::new();
    let p = Point3::new();
    let id = p.uuid;
    c.push(Node::Point3(p));
    c.push(Node::Point3(Point3::new()));
    assert_eq!(c.remove(&id), Some(Node::Point3(p)));
    assert_eq!(c.len(), 1);
    assert!(c.try_get_typed::<Point3>(&id).is_none());
}

#[test]
fn remove_absent_is_none() {
    let mut c = NodeCollection::new();
    c.push(Node::Point3(Point3::new()));
    assert_eq!(c.remove(&7u128), None);
    assert_eq!(c.len(), 1);
}

#[test]
fn entries_are_ordered_by_identifier() {
    let mut c = NodeCollection::new();
    for _ in 0..5 {
        c.push(Node::Point3(Point3::new()));
    }
    let keys: Vec<u128> = c.entries_vec().iter().map(|e| e.0).collect();
    let mut sorted = keys.clone();
    sorted.sort();
    assert_eq!(keys, sorted);
    for (k, n) in c.entries_vec() {
        assert_eq!(*k, n.uuid());
    }
}

#[test]
fn constructors_start_at_zero_with_fresh_ids() {
    let p = Point3::new();
    let r = Rectangle::new();
    assert_eq!((p.data.x, p.data.y, p.data.z), (0, 0, 0));
    assert_eq!((r.data.width, r.data.height), (0, 0));
    assert_eq!((r.data.anchor.data.x, r.data.anchor.data.y, r.data.anchor.data.z), (0, 0, 0));
    assert_ne!(r.uuid, r.data.anchor.uuid);
    assert_ne!(p.uuid, r.uuid);
}

#[test]
fn writing_through_the_handle_keeps_the_identifier() {
    let mut c = NodeCollection::new();
    let p = Point3::new();
    let id = p.uuid;
    c.push(Node::Point3(p));
    let other = Point3::new();
    if let Some(d) = c.try_get_typed_mut::<Point3>(&id) {
        *d = other.data;
        *d = PointData { x: 9.0f64.to_bits(), y: 0, z: 0 };
    }
    let got: &Point3 = c.try_get_typed(&id).unwrap();
    assert_eq!(got.uuid, id);
    assert_eq!(f64::from_bits(got.data.x), 9.0);
    let back = deserialize(&serialize(&c).unwrap()).unwrap();
    assert_eq!(back.entries_vec(), c.entries_vec());
}
