//! The workflow definition (`flow.json`): nodes, their data, and the edges between them.
use vstd::prelude::*;
use crate::find::{first, first_elem, first_from};
use crate::text::str_eq;

verus! {

/// A workflow definition: its nodes and the directed edges between them.
#[derive(Debug)]
pub struct Flow {
    pub nodes: Vec<Node>,
    pub edges: Vec<Edge>,
}

/// A node of the workflow; `node_type` is `start`, `end`, `business`, `process` or `decision`.
#[derive(Debug)]
pub struct Node {
    pub id: String,
    pub node_type: String,
    pub data: NodeData,
}

/// What a node shows: its label, and per type its task file, inline content,
/// or (for a decision) its condition and branches.
#[derive(Debug)]
pub struct NodeData {
    pub label: String,
    pub node_ref_path: Option<String>,
    pub condition: Option<String>,
    pub branches: Vec<Branch>,
    pub content: Option<String>,
}

/// One branch of a decision node.
#[derive(Debug)]
pub struct Branch {
    pub id: String,
    pub name: String,
    pub description: Option<String>,
}

/// A directed edge; an edge out of a decision node carries the id of its branch.
#[derive(Debug)]
pub struct Edge {
    pub source: String,
    pub target: String,
    pub branch_id: Option<String>,
}

/// The node has the given id.
pub open spec fn has_id(id: Seq<char>) -> spec_fn(Node) -> bool {
    |n: Node| n.id@ == id
}

/// The node has the given type.
pub open spec fn has_type(t: Seq<char>) -> spec_fn(Node) -> bool {
    |n: Node| n.node_type@ == t
}

impl Flow {
    /// The first node with id `id`.
    pub open spec fn node_with_id(self, id: Seq<char>) -> Option<Node> {
        first_elem(self.nodes@, has_id(id))
    }

    /// The first node of type `start`.
    pub open spec fn first_start(self) -> Option<Node> {
        first_elem(self.nodes@, has_type("start"@))
    }

    /// The first node whose id is `id`.
    pub fn node(&self, id: &str) -> (r: Option<&Node>)
        ensures
            r matches Some(n) ==> self.node_with_id(id@) == Some(*n),
            r is None ==> self.node_with_id(id@) is None,
    {
        let mut i: usize = 0;
        while i < self.nodes.len()
            invariant
                i <= self.nodes.len(),
                first(self.nodes@, has_id(id@)) == first_from(self.nodes@, has_id(id@), i as int),
            decreases self.nodes.len() - i,
        {
            if str_eq(self.nodes[i].id.as_str(), id) {
                return Some(&self.nodes[i]);
            }
            i = i + 1;
        }
        None
    }

    /// The first node of type `start`.
    pub fn start_node(&self) -> (r: Option<&Node>)
        ensures
            r matches Some(n) ==> self.first_start() == Some(*n),
            r is None ==> self.first_start() is None,
    {
        let mut i: usize = 0;
        while i < self.nodes.len()
            invariant
                i <= self.nodes.len(),
                first(self.nodes@, has_type("start"@)) == first_from(
                    self.nodes@,
                    has_type("start"@),
                    i as int,
                ),
            decreases self.nodes.len() - i,
        {
            if str_eq(self.nodes[i].node_type.as_str(), "start") {
                return Some(&self.nodes[i]);
            }
            i = i + 1;
        }
        None
    }
}

} // verus!
