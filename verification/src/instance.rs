//! A new instance of a workflow.
use vstd::prelude::*;
use crate::executor::{mermaid_chart, render_mermaid};
use crate::graph::{route, Graph};
use crate::model::Flow;
use crate::state::{trace_view, Limits, ProcessFile, ProcessState, StateView, Status};
use crate::text::opt_str_view;

verus! {

/// The state a new instance starts in: idle on the node after the flow's start node,
/// with no steps taken, nothing completed, and the execution id `invoke`; or why the
/// flow cannot start.
pub open spec fn initial_state_of(
    flow: Flow,
    workflow: Seq<char>,
    instance_id: Seq<char>,
    input: Option<Seq<char>>,
    limits: Limits,
    invoke: Seq<char>,
) -> Result<StateView, Seq<char>> {
    match flow.first_start() {
        None => Err("工作流缺少 start 节点"@),
        Some(start) => match route(flow, start.id@, None) {
            Err(m) => Err(m),
            Ok(first_id) => match flow.node_with_id(first_id) {
                None => Err("首个节点不存在"@),
                Some(first) => Ok(
                    StateView {
                        workflow: workflow,
                        instance_id: instance_id,
                        initial_input: input,
                        status: Status::Idle,
                        current: first_id,
                        current_name: first.data.label@,
                        current_invoke: invoke,
                        step: 0,
                        loop_count: 0,
                        retry_count: 0,
                        last_node: None,
                        last_invoke: None,
                        completed: seq![],
                        limits: limits,
                    },
                ),
            },
        },
    }
}

/// The process file of a new instance (see `initial_state_of`): its chart drawn and its
/// trace empty.
pub fn initial_process(
    flow: &Flow,
    workflow: &str,
    instance_id: &str,
    input: Option<&str>,
    limits: Limits,
    invoke: &str,
) -> (r: Result<ProcessFile, String>)
    ensures
        match (r, initial_state_of(*flow, workflow@, instance_id@, opt_str_view(input), limits, invoke@)) {
            (Ok(pf), Ok(s)) => pf.state@ == s && pf.mermaid@ == mermaid_chart(*flow, pf.state)
                && pf.trace@.len() == 0,
            (Err(m), Err(n)) => m@ == n,
            _ => false,
        },
{
    let start = match flow.start_node() {
        Some(s) => s,
        None => {
            return Err(String::from_str("工作流缺少 start 节点"));
        },
    };
    let graph = Graph::new(flow);
    let first_id = match graph.next_node(start.id.as_str(), None) {
        Ok(t) => t,
        Err(m) => {
            return Err(m);
        },
    };
    let first = match flow.node(first_id.as_str()) {
        Some(n) => n,
        None => {
            return Err(String::from_str("首个节点不存在"));
        },
    };
    let state = ProcessState {
        workflow: String::from_str(workflow),
        instance_id: String::from_str(instance_id),
        initial_input: match input {
            Some(s) => Some(String::from_str(s)),
            None => None,
        },
        status: Status::Idle,
        current: first_id,
        current_name: first.data.label.clone(),
        current_invoke: String::from_str(invoke),
        step: 0,
        loop_count: 0,
        retry_count: 0,
        last_node: None,
        last_invoke: None,
        completed: Vec::new(),
        limits,
    };
    proof {
        assert(crate::text::views(state.completed@) =~= Seq::<Seq<char>>::empty());
    }
    let mermaid = render_mermaid(flow, &state);
    Ok(ProcessFile { state, mermaid, trace: Vec::new() })
}

/// The process file of a new instance whose first execution gets a fresh id (see
/// `initial_process`).
pub fn create_process(
    flow: &Flow,
    workflow: &str,
    instance_id: &str,
    input: Option<&str>,
    limits: Limits,
) -> (r: Result<ProcessFile, String>)
    ensures
        exists|stamp: Seq<char>, ms: nat|
            #![trigger crate::clock::invoke_id(stamp, ms)]
            ms < 2000 && crate::clock::shows_time(stamp, crate::clock::invoke_stamp_pattern()) && match (
                r,
                initial_state_of(*flow, workflow@, instance_id@, opt_str_view(input), limits, crate::clock::invoke_id(stamp, ms)),
            ) {
                (Ok(pf), Ok(s)) => pf.state@ == s && pf.mermaid@ == mermaid_chart(*flow, pf.state)
                    && pf.trace@.len() == 0,
                (Err(m), Err(n)) => m@ == n,
                _ => false,
            },
{
    let inv = crate::clock::gen_invoke_id();
    initial_process(flow, workflow, instance_id, input, limits, inv.as_str())
}

} // verus!
