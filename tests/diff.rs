use geometry_nodes::codec::{deserialize, serialize};
use geometry_nodes::collection::NodeCollection;
use geometry_nodes::diff::{diff, Change, PathSeg};
use geometry_nodes::json::Json;
use geometry_nodes::node::{GeometryNode, Node, Point3, Rectangle};

fn key(s: &str) -> PathSeg {
    PathSeg::Key(s.to_string())
}

fn id_text(id: u128) -> String {
    let h = format!("{:032x}", id);
    format!("{}-{}-{}-{}-{}", &h[0..8], &h[8..12], &h[12..16], &h[16..20], &h[20..32])
}

fn object(members: Vec<(&str, Json)>) -> Json {
    Json::Object(members.into_iter().map(|(k, v)| (k.to_string(), v)).collect())
}

fn modified(changes: &[Change]) -> Vec<&Change> {
    changes.iter().filter(|c| !matches!(c, Change::Unchanged(..))).collect()
}

fn leaf_count(j: &Json) -> usize {
    match j {
        Json::Array(xs) => xs.iter().map(leaf_count).sum(),
        Json::Object(ms) => ms.iter().map(|(_, v)| leaf_count(v)).sum(),
        _ => 1,
    }
}

#[test]
fn diff_of_snapshot_with_itself_is_all_unchanged() {
    let mut c = NodeCollection::new();
    c.push(Node::Rectangle(Rectangle::new()));
    c.push(Node::Point3(Point3::new()));
    let snap = serialize(&c).unwrap();
    let changes = diff(&snap, &snap);
    assert!(changes.iter().all(|c| matches!(c, Change::Unchanged(..))));
    assert_eq!(changes.len(), leaf_count(&snap));
    assert_eq!(changes.len(), 13);
}

#[test]
fn leaf_diffs() {
    assert_eq!(diff(&Json::Number(1), &Json::Number(1)), vec![Change::Unchanged(vec![], Json::Number(1))]);
    assert_eq!(
        diff(&Json::Bool(true), &Json::Str("t".to_string())),
        vec![Change::Modified(vec![], Json::Bool(true), Json::Str("t".to_string()))]
    );
    assert_eq!(
        diff(&Json::Null, &Json::Array(vec![])),
        vec![Change::Modified(vec![], Json::Null, Json::Array(vec![]))]
    );
}

#[test]
fn keys_only_on_one_side_are_removed_or_added() {
    let a = object(vec![("a", Json::Number(1)), ("b", Json::Number(2))]);
    let b = object(vec![("b", Json::Number(2)), ("c", Json::Number(3))]);
    assert_eq!(
        diff(&a, &b),
        vec![
            Change::Removed(vec![key("a")], Json::Number(1)),
            Change::Unchanged(vec![key("b")], Json::Number(2)),
            Change::Added(vec![key("c")], Json::Number(3)),
        ]
    );
}

#[test]
fn removed_subtree_is_reported_whole() {
    let a = object(vec![("n", object(vec![("x", Json::Number(1)), ("y", Json::Number(2))]))]);
    let b = object(vec![]);
    let changes = diff(&a, &b);
    assert_eq!(changes.len(), 1);
    assert!(matches!(&changes[0], Change::Removed(p, Json::Object(ms)) if p == &vec![key("n")] && ms.len() == 2));
}

#[test]
fn arrays_compare_by_position() {
    let a = Json::Array(vec![Json::Number(1), Json::Number(2)]);
    let b = Json::Array(vec![Json::Number(2), Json::Number(1), Json::Number(3)]);
    assert_eq!(
        diff(&a, &b),
        vec![
            Change::Modified(vec![PathSeg::Index(0)], Json::Number(1), Json::Number(2)),
            Change::Modified(vec![PathSeg::Index(1)], Json::Number(2), Json::Number(1)),
            Change::Added(vec![PathSeg::Index(2)], Json::Number(3)),
        ]
    );
    assert_eq!(
        diff(&b, &a),
        vec![
            Change::Modified(vec![PathSeg::Index(0)], Json::Number(2), Json::Number(1)),
            Change::Modified(vec![PathSeg::Index(1)], Json::Number(1), Json::Number(2)),
            Change::Removed(vec![PathSeg::Index(2)], Json::Number(3)),
        ]
    );
}

#[test]
fn array_against_object_removes_items_and_adds_members() {
    let a = Json::Array(vec![Json::Number(1)]);
    let b = object(vec![("k", Json::Null)]);
    assert_eq!(
        diff(&a, &b),
        vec![
            Change::Removed(vec![PathSeg::Index(0)], Json::Number(1)),
            Change::Added(vec![key("k")], Json::Null),
        ]
    );
}

#[test]
fn one_changed_field_gives_one_modified_record() {
    let mut c = NodeCollection::new();
    let mut r = Rectangle::new();
    let rid = r.uuid;
    c.push(Node::Rectangle(r));
    c.push(Node::Point3(Point3::new()));
    let before = serialize(&c).unwrap();
    *c.try_get_typed_mut::<Rectangle>(&rid).unwrap().height_mut() = 2.5f64.to_bits();
    r.data.height = 2.5f64.to_bits();
    let after = serialize(&c).unwrap();
    let changes = diff(&before, &after);
    let m = modified(&changes);
    assert_eq!(
        m,
        vec![&Change::Modified(
            vec![key("nodes"), key(&id_text(rid)), key("height")],
            Json::Number(0),
            Json::Number(2.5f64.to_bits())
        )]
    );
    assert_eq!(changes.len(), leaf_count(&before));
}

#[test]
fn reassigned_anchor_shows_under_anchor_only() {
    let mut rect = Rectangle::new();
    *rect.width_mut() = 10.0f64.to_bits();
    *rect.height_mut() = 20.0f64.to_bits();
    let id = GeometryNode::uuid(&rect);
    let old_anchor = rect.data.anchor;
    let pt = Point3::new();
    let pt_id = pt.uuid;

    let mut nodes = NodeCollection::new();
    nodes.push(rect.into_node());
    nodes.push(pt.into_node());
    let naive = serialize(&nodes).unwrap();

    if let Some(rect) = nodes.try_get_typed_mut::<Rectangle>(&id) {
        rect.anchor = pt;
    }
    let optimized = serialize(&nodes).unwrap();
    let changes = diff(&naive, &optimized);
    let m = modified(&changes);
    assert!(!m.is_empty());
    for c in &m {
        match c {
            Change::Modified(path, _, _) => {
                assert_eq!(&path[..3], &[key("nodes"), key(&id_text(id)), key("anchor")]);
            }
            _ => panic!("only modifications expected"),
        }
    }
    assert!(m.contains(&&Change::Modified(
        vec![key("nodes"), key(&id_text(id)), key("anchor"), key("uuid")],
        Json::Str(id_text(old_anchor.uuid)),
        Json::Str(id_text(pt_id))
    )));
    assert_eq!(changes.len(), leaf_count(&naive));
    let p_after: &Point3 = nodes.try_get_typed(&pt_id).unwrap();
    assert_eq!(*p_after, pt);
}

#[test]
fn anchor_moved_to_a_moved_point() {
    let mut rect = Rectangle::new();
    let id = rect.uuid;
    let mut pt = Point3::new();
    pt.data.x = 5.0f64.to_bits();
    let mut nodes = NodeCollection::new();
    nodes.push(Node::Rectangle(rect));
    nodes.push(Node::Point3(pt));
    let before = serialize(&nodes).unwrap();
    rect.data.anchor = pt;
    nodes.push(Node::Rectangle(rect));
    let after = serialize(&nodes).unwrap();
    let changes = diff(&before, &after);
    let m = modified(&changes);
    assert_eq!(m.len(), 2);
    assert_eq!(
        m[0],
        &Change::Modified(
            vec![key("nodes"), key(&id_text(id)), key("anchor"), key("x")],
            Json::Number(0),
            Json::Number(5.0f64.to_bits())
        )
    );
}

#[test]
fn moved_point_after_round_trip_gives_two_modified() {
    let mut nodes = NodeCollection::new();
    nodes.push(Node::Rectangle(Rectangle::new()));
    let pt = Point3::new();
    let pt_id = pt.uuid;
    nodes.push(Node::Point3(pt));
    let optimized = serialize(&nodes).unwrap();

    let mut deser = deserialize(&optimized).unwrap();
    if let Some(pt) = deser.try_get_typed_mut::<Point3>(&pt_id) {
        pt.x = 50.0f64.to_bits();
        pt.y = 100.0f64.to_bits();
    }
    let dv = serialize(&deser).unwrap();
    let changes = diff(&optimized, &dv);
    let m = modified(&changes);
    assert_eq!(
        m,
        vec![
            &Change::Modified(
                vec![key("nodes"), key(&id_text(pt_id)), key("x")],
                Json::Number(0),
                Json::Number(50.0f64.to_bits())
            ),
            &Change::Modified(
                vec![key("nodes"), key(&id_text(pt_id)), key("y")],
                Json::Number(0),
                Json::Number(100.0f64.to_bits())
            ),
        ]
    );
    assert_eq!(changes.len(), leaf_count(&optimized));
}

#[test]
fn added_and_removed_nodes() {
    let mut c = NodeCollection::new();
    let p = Point3::new();
    let pid = p.uuid;
    c.push(Node::Point3(p));
    let before = serialize(&c).unwrap();
    c.remove(&pid);
    let q = Point3::new();
    let qid = q.uuid;
    c.push(Node::Point3(q));
    let after = serialize(&c).unwrap();
    let changes = diff(&before, &after);
    assert_eq!(changes.len(), 2);
    assert!(matches!(&changes[0], Change::Removed(p, _) if p == &vec![key("nodes"), key(&id_text(pid))]));
    assert!(matches!(&changes[1], Change::Added(p, _) if p == &vec![key("nodes"), key(&id_text(qid))]));
}

#[test]
fn zeros_of_either_sign_are_equal() {
    let a = Json::Number(0.0f64.to_bits());
    let b = Json::Number((-0.0f64).to_bits());
    assert_eq!(diff(&a, &b), vec![Change::Unchanged(vec![], Json::Number(0.0f64.to_bits()))]);
}
