//! Routing over a workflow: which node follows the current one.
use vstd::prelude::*;
use crate::find::{first, first_elem, first_from, lemma_first, lemma_first_is, lemma_first_none};
use crate::model::{Branch, Edge, Flow, Node};
use crate::text::{opt_str_view, push_str, str_eq, views};

verus! {

/// Routing over the nodes and edges of one workflow.
pub struct Graph<'a> {
    flow: &'a Flow,
}

/// The edge leaves the node `id`.
pub open spec fn leaves(id: Seq<char>) -> spec_fn(Edge) -> bool {
    |e: Edge| e.source@ == id
}

/// The edge belongs to the branch `bid`.
pub open spec fn on_branch(bid: Seq<char>) -> spec_fn(Edge) -> bool {
    |e: Edge|
        match e.branch_id {
            Some(b) => b@ == bid,
            None => false,
        }
}

/// The edges that leave `id`, in the order of the flow.
pub open spec fn outgoing_edges(edges: Seq<Edge>, id: Seq<char>) -> Seq<Edge> {
    edges.filter(leaves(id))
}

/// Where routing goes from `current`: the target's id, or the reason why there is none.
/// A decision node follows the first of its edges that belongs to the chosen branch;
/// any other node must have exactly one outgoing edge; an end node has no successor.
pub open spec fn route(flow: Flow, current: Seq<char>, branch: Option<Seq<char>>) -> Result<
    Seq<char>,
    Seq<char>,
> {
    match flow.node_with_id(current) {
        None => Err("节点不存在: "@ + current),
        Some(n) => if n.node_type@ == "end"@ {
            Err("当前已是结束节点"@)
        } else if n.node_type@ == "decision"@ {
            match branch {
                None => Err("decision 节点需要分支选择"@),
                Some(b) => match first_elem(outgoing_edges(flow.edges@, current), on_branch(b)) {
                    Some(e) => Ok(e.target@),
                    None => Err("分支 "@ + b + " 不存在"@),
                },
            }
        } else {
            let outs = outgoing_edges(flow.edges@, current);
            if outs.len() == 1 {
                Ok(outs[0].target@)
            } else if outs.len() == 0 {
                Err("节点 "@ + current + " 无出边"@)
            } else {
                Err("business 节点 "@ + current + " 存在多条出边"@)
            }
        },
    }
}

/// Choosing branch `bid` at `decision` leads back to a node whose label is in `visited`.
pub open spec fn loops_back(flow: Flow, decision: Seq<char>, bid: Seq<char>, visited: Seq<Seq<char>>) -> bool {
    match route(flow, decision, Some(bid)) {
        Ok(t) => match flow.node_with_id(t) {
            Some(n) => visited.contains(n.data.label@),
            None => false,
        },
        Err(_) => false,
    }
}

/// The names of the branches of the node `id`, none if there is no such node.
pub open spec fn branch_names_of(flow: Flow, id: Seq<char>) -> Seq<Seq<char>> {
    match flow.node_with_id(id) {
        Some(n) => n.data.branches@.map_values(|b: Branch| b.name@),
        None => seq![],
    }
}

/// A string holding `a`, then `b`, then `c`.
fn concat3(a: &str, b: &str, c: &str) -> (s: String)
    ensures
        s@ == a@ + b@ + c@,
{
    let mut s = String::from_str(a);
    push_str(&mut s, b);
    push_str(&mut s, c);
    s
}

impl<'a> Graph<'a> {
    /// The flow this graph routes over.
    pub closed spec fn flow(self) -> Flow {
        *self.flow
    }

    /// Routing over `flow`.
    pub fn new(flow: &'a Flow) -> (g: Self)
        ensures
            g.flow() == *flow,
    {
        Graph { flow }
    }

    /// The edges that leave `node_id`, in flow order.
    fn outgoing(&self, node_id: &str) -> (r: Vec<&'a Edge>)
        ensures
            r@.map_values(|e: &Edge| *e) == outgoing_edges(self.flow().edges@, node_id@),
    {
        let edges = &self.flow.edges;
        let mut r: Vec<&'a Edge> = Vec::new();
        let mut i: usize = 0;
        while i < edges.len()
            invariant
                i <= edges.len(),
                edges == &self.flow.edges,
                r@.map_values(|e: &Edge| *e) == edges@.take(i as int).filter(leaves(node_id@)),
            decreases edges.len() - i,
        {
            let ghost before = r@;
            if str_eq(edges[i].source.as_str(), node_id) {
                r.push(&edges[i]);
            }
            proof {
                reveal(Seq::filter);
                assert(edges@.take(i + 1).drop_last() =~= edges@.take(i as int));
                assert(edges@.take(i + 1).last() == edges@[i as int]);
                if leaves(node_id@)(edges@[i as int]) {
                    assert(r@.map_values(|e: &Edge| *e) =~= before.map_values(|e: &Edge| *e).push(
                        edges@[i as int],
                    ));
                } else {
                    assert(r@ == before);
                }
            }
            i = i + 1;
        }
        proof {
            assert(edges@.take(edges@.len() as int) =~= edges@);
        }
        r
    }

    /// The id of the node that follows `current_id`: for a decision node, along the
    /// edge of `branch_id`; otherwise along the node's only outgoing edge.
    #[verifier::loop_isolation(false)]
    pub fn next_node(&self, current_id: &str, branch_id: Option<&str>) -> (r: Result<String, String>)
        ensures
            match (r, route(self.flow(), current_id@, opt_str_view(branch_id))) {
                (Ok(t), Ok(u)) => t@ == u,
                (Err(m), Err(u)) => m@ == u,
                _ => false,
            },
    {
        let node = match self.flow.node(current_id) {
            Some(n) => n,
            None => {
                let mut m = String::from_str("节点不存在: ");
                push_str(&mut m, current_id);
                return Err(m);
            },
        };
        if str_eq(node.node_type.as_str(), "end") {
            return Err(String::from_str("当前已是结束节点"));
        }
        let outs = self.outgoing(current_id);
        let ghost outs_v = outs@.map_values(|e: &Edge| *e);
        if str_eq(node.node_type.as_str(), "decision") {
            let bid = match branch_id {
                Some(b) => b,
                None => {
                    return Err(String::from_str("decision 节点需要分支选择"));
                },
            };
            let mut i: usize = 0;
            while i < outs.len()
                invariant
                    i <= outs.len(),
                    outs_v == outs@.map_values(|e: &Edge| *e),
                    first(outs_v, on_branch(bid@)) == first_from(outs_v, on_branch(bid@), i as int),
                decreases outs.len() - i,
            {
                let e: &Edge = outs[i];
                assert(outs_v[i as int] == *e);
                let hit = match &e.branch_id {
                    Some(b) => str_eq(b.as_str(), bid),
                    None => false,
                };
                if hit {
                    assert(on_branch(bid@)(outs_v[i as int]));
                    assert(first(outs_v, on_branch(bid@)) == Some(i as int));
                    return Ok(e.target.clone());
                }
                i = i + 1;
            }
            return Err(concat3("分支 ", bid, " 不存在"));
        }
        if outs.len() == 1 {
            assert(outs_v[0] == *outs@[0]);
            Ok(outs[0].target.clone())
        } else if outs.len() == 0 {
            Err(concat3("节点 ", current_id, " 无出边"))
        } else {
            Err(concat3("business 节点 ", current_id, " 存在多条出边"))
        }
    }

    /// Whether choosing `branch_id` at `decision_id` returns to a node that has already
    /// been executed: one whose label is in `visited`.
    #[verifier::loop_isolation(false)]
    pub fn is_loop_back(&self, decision_id: &str, branch_id: &str, visited: &[String]) -> (r: bool)
        ensures
            r == loops_back(self.flow(), decision_id@, branch_id@, views(visited@)),
    {
        let target = match self.next_node(decision_id, Some(branch_id)) {
            Ok(t) => t,
            Err(_) => {
                return false;
            },
        };
        let node = match self.flow.node(target.as_str()) {
            Some(n) => n,
            None => {
                return false;
            },
        };
        let mut i: usize = 0;
        while i < visited.len()
            invariant
                i <= visited.len(),
                forall|k: int| 0 <= k < i ==> visited@[k]@ != node.data.label@,
            decreases visited.len() - i,
        {
            if visited[i] == node.data.label {
                proof {
                    assert(views(visited@)[i as int] == node.data.label@);
                    assert(views(visited@).contains(node.data.label@));
                    assert(opt_str_view(Some(branch_id)) == Some(branch_id@));
                    assert(route(self.flow(), decision_id@, Some(branch_id@)) == Ok::<Seq<char>, Seq<char>>(target@));
                }
                return true;
            }
            i = i + 1;
        }
        proof {
            assert forall|k: int| 0 <= k < views(visited@).len() implies views(visited@)[k] != node.data.label@ by {
                assert(views(visited@)[k] == visited@[k]@);
            }
        }
        false
    }

    /// The names of the branches of node `decision_id`, in order; none if there is no such node.
    pub fn branch_names(&self, decision_id: &str) -> (r: Vec<String>)
        ensures
            views(r@) == branch_names_of(self.flow(), decision_id@),
    {
        let node = match self.flow.node(decision_id) {
            Some(n) => n,
            None => {
                let r: Vec<String> = Vec::new();
                proof {
                    assert(views(r@) =~= Seq::<Seq<char>>::empty());
                }
                return r;
            },
        };
        let bs = &node.data.branches;
        let mut r: Vec<String> = Vec::new();
        let mut i: usize = 0;
        while i < bs.len()
            invariant
                i <= bs.len(),
                r@.len() == i,
                forall|k: int| 0 <= k < i ==> #[trigger] r@[k]@ == bs@[k].name@,
            decreases bs.len() - i,
        {
            r.push(bs[i].name.clone());
            i = i + 1;
        }
        proof {
            assert(views(r@) =~= bs@.map_values(|b: Branch| b.name@));
        }
        r
    }
}

} // verus!
