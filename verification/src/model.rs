//! The node model: one schema for code and for documentation.
use vstd::prelude::*;

use crate::order::Table;

verus! {

/// A node is an atom (a leaf) or a composite of other nodes. A composite is itself a node and
/// may be the child of another, so that trees nest to any depth.
#[derive(Debug, Clone, Copy, PartialEq, Eq, Structural)]
pub enum Kind {
    /// An irreducible leaf: a code entity or a prose atom.
    Atom,
    /// A composite of child nodes.
    Composite,
}

/// The two planes that share one tree: code structure and documentation.
#[derive(Debug, Clone, Copy, PartialEq, Eq, Structural)]
pub enum Plane {
    Code,
    Docs,
}

/// A hierarchical id, such as `codec.abir.codec`.
pub type NodeId = String;

/// A node. Documentation and code nodes are of the same type; they differ by their plane,
/// their facets and by what their anchors point at.
#[derive(Debug)]
pub struct Node {
    pub id: NodeId,
    pub kind: Kind,
    pub plane: Plane,
    /// The one node that contains this one; `None` only for the root.
    pub parent: Option<NodeId>,
    /// The nodes that this one contains.
    pub children: Vec<NodeId>,
    /// The nodes that this one uses.
    pub depends_on: Vec<NodeId>,
    /// Cross-cutting axes: layer, repository, language, maturity and the like.
    pub facets: Table<String, false>,
    /// File or symbol paths for code, source paths for documentation.
    pub anchors: Vec<String>,
}

impl Node {
    /// A node by itself: no parent, no children, no dependencies, no facets, no anchors.
    pub fn new(id: NodeId, kind: Kind, plane: Plane) -> (r: Node)
        ensures
            r.id == id,
            r.kind == kind,
            r.plane == plane,
            r.parent is None,
            r.children@.len() == 0,
            r.depends_on@.len() == 0,
            r.facets@.len() == 0,
            r.anchors@.len() == 0,
    {
        Node {
            id,
            kind,
            plane,
            parent: None,
            children: Vec::new(),
            depends_on: Vec::new(),
            facets: Table::new(),
            anchors: Vec::new(),
        }
    }
}

} // verus!
