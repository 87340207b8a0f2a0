//! The map elements that highways are made of.

use crate::coords::XZPoint;
use crate::tags::Tags;
use vstd::prelude::*;

verus! {

/// A point of the map, in block coordinates.
#[derive(Debug, PartialEq)]
pub struct ProcessedNode {
    pub id: u64,
    pub x: i32,
    pub z: i32,
    pub tags: Tags,
}

/// A line through nodes.
#[derive(Debug, PartialEq)]
pub struct ProcessedWay {
    pub id: u64,
    pub nodes: Vec<ProcessedNode>,
    pub tags: Tags,
}

/// The part that a way plays in a relation.
#[derive(Clone, Copy, Debug, PartialEq, Eq, Structural)]
pub enum ProcessedMemberRole {
    Outer,
    Inner,
    Part,
}

/// A way as a member of a relation.
#[derive(Debug, PartialEq)]
pub struct ProcessedMember {
    pub role: ProcessedMemberRole,
    pub way: ProcessedWay,
}

/// A group of ways that belong together.
#[derive(Debug, PartialEq)]
pub struct ProcessedRelation {
    pub id: u64,
    pub members: Vec<ProcessedMember>,
    pub tags: Tags,
}

/// Any element of the map.
#[derive(Debug, PartialEq)]
pub enum ProcessedElement {
    Node(ProcessedNode),
    Way(ProcessedWay),
    Relation(ProcessedRelation),
}

/// What a node is, apart from how its tags are stored.
pub struct NodeView {
    pub id: u64,
    pub x: i32,
    pub z: i32,
    pub tags: Map<Seq<char>, Seq<char>>,
}

/// What a way is, apart from how its parts are stored.
pub struct WayView {
    pub id: u64,
    pub nodes: Seq<NodeView>,
    pub tags: Map<Seq<char>, Seq<char>>,
}

impl View for ProcessedNode {
    type V = NodeView;

    open spec fn view(&self) -> NodeView {
        NodeView { id: self.id, x: self.x, z: self.z, tags: self.tags@ }
    }
}

/// The views of a list of nodes.
pub open spec fn node_views(nodes: Seq<ProcessedNode>) -> Seq<NodeView> {
    nodes.map_values(|n: ProcessedNode| n@)
}

impl View for ProcessedWay {
    type V = WayView;

    open spec fn view(&self) -> WayView {
        WayView { id: self.id, nodes: node_views(self.nodes@), tags: self.tags@ }
    }
}

impl ProcessedNode {
    /// The column of the node.
    pub fn xz(&self) -> (r: XZPoint)
        ensures
            r == (XZPoint { x: self.x, z: self.z }),
    {
        XZPoint { x: self.x, z: self.z }
    }
}

impl Clone for ProcessedNode {
    fn clone(&self) -> (r: ProcessedNode)
        ensures
            r@ == self@,
    {
        ProcessedNode { id: self.id, x: self.x, z: self.z, tags: self.tags.clone() }
    }
}

/// A copy of a list of nodes.
pub fn clone_nodes(nodes: &Vec<ProcessedNode>) -> (r: Vec<ProcessedNode>)
    ensures
        node_views(r@) == node_views(nodes@),
{
    let mut r: Vec<ProcessedNode> = Vec::new();
    let n: usize = nodes.len();
    let mut i: usize = 0;
    while i < n
        invariant
            n == nodes@.len(),
            i <= n,
            r@.len() == i,
            forall|j: int| 0 <= j < i ==> (#[trigger] r@[j])@ == nodes@[j]@,
        decreases n - i,
    {
        r.push(nodes[i].clone());
        i = i + 1;
    }
    assert(node_views(r@) =~= node_views(nodes@));
    r
}

impl Clone for ProcessedWay {
    fn clone(&self) -> (r: ProcessedWay)
        ensures
            r@ == self@,
    {
        ProcessedWay { id: self.id, nodes: clone_nodes(&self.nodes), tags: self.tags.clone() }
    }
}

impl ProcessedElement {
    /// The tags of the element.
    pub open spec fn tag_map(self) -> Map<Seq<char>, Seq<char>> {
        match self {
            ProcessedElement::Node(node) => node.tags@,
            ProcessedElement::Way(way) => way.tags@,
            ProcessedElement::Relation(rel) => rel.tags@,
        }
    }

    /// The tags of the element.
    pub fn tags(&self) -> (r: &Tags)
        ensures
            r@ == self.tag_map(),
    {
        match self {
            ProcessedElement::Node(node) => &node.tags,
            ProcessedElement::Way(way) => &way.tags,
            ProcessedElement::Relation(rel) => &rel.tags,
        }
    }
}

/// The views of nodes and ways keep their numbers, their places and their tags,
/// and the nodes of a way in their order.
pub proof fn elements_are_seen_whole(node: ProcessedNode, way: ProcessedWay, i: int)
    ensures
        node@.id == node.id && node@.x == node.x && node@.z == node.z && node@.tags == node.tags@,
        way@.id == way.id && way@.tags == way.tags@,
        way@.nodes.len() == way.nodes@.len(),
        0 <= i < way.nodes@.len() ==> way@.nodes[i] == way.nodes@[i]@,
{
}

} // verus!
