//! The concrete node variants and the capability they share.
//!
//! A coordinate or length is held as the bit pattern of an IEEE-754 double
//! (`f64::to_bits`), which is what the snapshot stores and compares.

use vstd::prelude::*;
use crate::ident::fresh_id;

verus! {

/// The coordinates of a point.
#[derive(Clone, Copy, Debug, PartialEq, Eq, Structural)]
pub struct PointData {
    pub x: u64,
    pub y: u64,
    pub z: u64,
}

/// A point in space: its coordinates and its identifier.
#[derive(Clone, Copy, Debug, PartialEq, Eq, Structural)]
pub struct Point3 {
    pub data: PointData,
    pub uuid: u128,
}

/// The anchor and extent of a rectangle. The anchor point is owned by value.
#[derive(Clone, Copy, Debug, PartialEq, Eq, Structural)]
pub struct RectangleData {
    pub anchor: Point3,
    pub width: u64,
    pub height: u64,
}

/// A rectangle: its anchor and extent, and its identifier.
#[derive(Clone, Copy, Debug, PartialEq, Eq, Structural)]
pub struct Rectangle {
    pub data: RectangleData,
    pub uuid: u128,
}

/// A node held by a collection: one of the concrete variants.
#[derive(Clone, Copy, Debug, PartialEq, Eq, Structural)]
pub enum Node {
    Point3(Point3),
    Rectangle(Rectangle),
}

impl Point3 {
    /// A point at the origin with a fresh identifier.
    pub fn new() -> (r: Point3)
        ensures
            r.data == (PointData { x: 0, y: 0, z: 0 }),
    {
        Point3 { data: PointData { x: 0, y: 0, z: 0 }, uuid: fresh_id() }
    }
}

impl RectangleData {
    /// A handle on the width; the rest stays as it is.
    pub fn width_mut(&mut self) -> (r: &mut u64)
        ensures
            *r == old(self).width,
            *final(self) == (RectangleData { width: *final(r), ..*old(self) }),
    {
        &mut self.width
    }

    /// A handle on the height; the rest stays as it is.
    pub fn height_mut(&mut self) -> (r: &mut u64)
        ensures
            *r == old(self).height,
            *final(self) == (RectangleData { height: *final(r), ..*old(self) }),
    {
        &mut self.height
    }
}

impl Rectangle {
    /// An empty rectangle anchored at a fresh point at the origin, with a
    /// fresh identifier of its own.
    pub fn new() -> (r: Rectangle)
        ensures
            r.data.anchor.data == (PointData { x: 0, y: 0, z: 0 }),
            r.data.width == 0 && r.data.height == 0,
    {
        let anchor = Point3::new();
        Rectangle { data: RectangleData { anchor, width: 0, height: 0 }, uuid: fresh_id() }
    }

    /// A handle on the width; the rest of the rectangle stays as it is.
    pub fn width_mut(&mut self) -> (r: &mut u64)
        ensures
            *r == old(self).data.width,
            *final(self) == (Rectangle {
                data: RectangleData { width: *final(r), ..old(self).data },
                ..*old(self)
            }),
    {
        self.data.width_mut()
    }

    /// A handle on the height; the rest of the rectangle stays as it is.
    pub fn height_mut(&mut self) -> (r: &mut u64)
        ensures
            *r == old(self).data.height,
            *final(self) == (Rectangle {
                data: RectangleData { height: *final(r), ..old(self).data },
                ..*old(self)
            }),
    {
        self.data.height_mut()
    }
}

impl Node {
    pub open spec fn id(self) -> u128 {
        match self {
            Node::Point3(p) => p.uuid,
            Node::Rectangle(r) => r.uuid,
        }
    }

    /// The identifier the node reports for itself.
    pub fn uuid(&self) -> (r: u128)
        ensures
            r == self.id(),
    {
        match self {
            Node::Point3(p) => p.uuid,
            Node::Rectangle(r) => r.uuid,
        }
    }
}

/// A concrete node variant: it reports its identifier, can be stored as a
/// `Node`, and can be recovered from a `Node` only where the node is of
/// this variant.
pub trait GeometryNode: Sized {
    /// What a value of this variant holds besides its identifier.
    type Data;

    /// The node that stores `self`.
    spec fn as_node(self) -> Node;

    /// `node` with the data of this variant set to `d`, where `node` is of
    /// this variant; its identifier is kept.
    spec fn with_data(node: Node, d: Self::Data) -> Node;

    fn uuid(&self) -> (r: u128)
        ensures
            r == self.as_node().id();

    fn into_node(self) -> (r: Node)
        ensures
            r == self.as_node();

    /// The value of this variant that `node` stores, if it stores one.
    fn narrow(node: &Node) -> (r: Option<&Self>)
        ensures
            match r {
                Some(t) => t.as_node() == *node,
                None => forall|t: Self| #[trigger] t.as_node() != *node,
            };

    /// As `narrow`, giving a handle on the data of the stored value, through
    /// which it can be changed in place. The handle does not reach the
    /// identifier, which stays as it was.
    fn narrow_data_mut(node: &mut Node) -> (r: Option<&mut Self::Data>)
        ensures
            match r {
                Some(d) => {
                    &&& exists|t: Self| #[trigger] t.as_node() == *old(node)
                    &&& Self::with_data(*old(node), *d) == *old(node)
                    &&& *final(node) == Self::with_data(*old(node), *final(d))
                    &&& final(node).id() == old(node).id()
                },
                None => {
                    &&& forall|t: Self| #[trigger] t.as_node() != *old(node)
                    &&& *final(node) == *old(node)
                },
            };
}

impl GeometryNode for Point3 {
    type Data = PointData;

    open spec fn as_node(self) -> Node {
        Node::Point3(self)
    }

    open spec fn with_data(node: Node, d: PointData) -> Node {
        match node {
            Node::Point3(p) => Node::Point3(Point3 { data: d, uuid: p.uuid }),
            _ => node,
        }
    }

    fn uuid(&self) -> (r: u128) {
        self.uuid
    }

    fn into_node(self) -> (r: Node) {
        Node::Point3(self)
    }

    fn narrow(node: &Node) -> (r: Option<&Point3>) {
        match node {
            Node::Point3(p) => Some(p),
            _ => None,
        }
    }

    fn narrow_data_mut(node: &mut Node) -> (r: Option<&mut PointData>) {
        proof {
            if let Node::Point3(p) = *node {
                assert(p.as_node() == *node);
            }
        }
        match node {
            Node::Point3(p) => Some(&mut p.data),
            _ => None,
        }
    }
}

impl GeometryNode for Rectangle {
    type Data = RectangleData;

    open spec fn as_node(self) -> Node {
        Node::Rectangle(self)
    }

    open spec fn with_data(node: Node, d: RectangleData) -> Node {
        match node {
            Node::Rectangle(r) => Node::Rectangle(Rectangle { data: d, uuid: r.uuid }),
            _ => node,
        }
    }

    fn uuid(&self) -> (r: u128) {
        self.uuid
    }

    fn into_node(self) -> (r: Node) {
        Node::Rectangle(self)
    }

    fn narrow(node: &Node) -> (r: Option<&Rectangle>) {
        match node {
            Node::Rectangle(p) => Some(p),
            _ => None,
        }
    }

    fn narrow_data_mut(node: &mut Node) -> (r: Option<&mut RectangleData>) {
        proof {
            if let Node::Rectangle(p) = *node {
                assert(p.as_node() == *node);
            }
        }
        match node {
            Node::Rectangle(p) => Some(&mut p.data),
            _ => None,
        }
    }
}

/// A stored node is of exactly one variant: it is recovered as a `Point3`
/// or as a `Rectangle`, never as both.
pub proof fn lemma_narrowing_exclusive(n: Node)
    ensures
        (exists|p: Point3| #[trigger] p.as_node() == n) != (exists|r: Rectangle|
            #[trigger] r.as_node() == n),
{
    match n {
        Node::Point3(p) => {
            assert(p.as_node() == n);
        },
        Node::Rectangle(r) => {
            assert(r.as_node() == n);
        },
    }
}

/// The value of variant `T` that `node` stores, if it stores one.
pub fn concrete_node<T: GeometryNode>(node: &Node) -> (r: Option<&T>)
    ensures
        match r {
            Some(t) => t.as_node() == *node,
            None => forall|t: T| #[trigger] t.as_node() != *node,
        },
{
    T::narrow(node)
}

/// As `concrete_node`, giving a handle on the data of the stored value; the
/// identifier stays as it was.
pub fn concrete_node_mut<T: GeometryNode>(node: &mut Node) -> (r: Option<&mut T::Data>)
    ensures
        match r {
            Some(d) => {
                &&& exists|t: T| #[trigger] t.as_node() == *old(node)
                &&& T::with_data(*old(node), *d) == *old(node)
                &&& *final(node) == T::with_data(*old(node), *final(d))
                &&& final(node).id() == old(node).id()
            },
            None => {
                &&& forall|t: T| #[trigger] t.as_node() != *old(node)
                &&& *final(node) == *old(node)
            },
        },
{
    T::narrow_data_mut(node)
}

} // verus!
