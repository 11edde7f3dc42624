//! The commands that drive an instance: their decisions over the state, the flow and
//! what the caller read, and the text they answer with.
use vstd::prelude::*;
use crate::find::{first, first_elem, first_from};
use crate::model::{Branch, Flow, Node};
use crate::state::{
    trace_view, upsert, EventView, LogView, ProcessFile, ProcessState, StateView, Status, TraceLogEntry,
};
use crate::text::{chars_of, join, join_strings, push_char, push_decimal, push_str, str_eq, views};

verus! {

// ---------------------------------------------------------------------------
// The progress chart

/// `char::is_alphanumeric`: the Unicode `Alphabetic` or `Numeric` property.
pub uninterp spec fn is_alnum(c: char) -> bool;

/// Whether `c` is alphanumeric.
/// Trusted: `char::is_alphanumeric` returns the value named `is_alnum(c)`.
#[verifier::external_body]
fn char_is_alphanumeric(c: char) -> (r: bool)
    ensures
        r == is_alnum(c),
{
    c.is_alphanumeric()
}

/// The character that stands for `c` in a chart id: `c` itself when alphanumeric or `_`.
pub open spec fn id_char(c: char) -> char {
    if is_alnum(c) || c == '_' {
        c
    } else {
        '_'
    }
}

/// A chart id for `s`: every character that is not alphanumeric or `_` becomes `_`.
pub open spec fn chart_id(s: Seq<char>) -> Seq<char> {
    s.map_values(|c: char| id_char(c))
}

/// The chart id for `s` (see `chart_id`).
fn mermaid_id(s: &str) -> (r: String)
    ensures
        r@ == chart_id(s@),
{
    let v = chars_of(s);
    let mut r = String::new();
    let mut i: usize = 0;
    while i < v.len()
        invariant
            i <= v.len(),
            v@ == s@,
            r@ == chart_id(v@.take(i as int)),
        decreases v.len() - i,
    {
        let c = v[i];
        let d = if char_is_alphanumeric(c) || c == '_' {
            c
        } else {
            '_'
        };
        push_char(&mut r, d);
        proof {
            assert(chart_id(v@.take(i + 1)) =~= chart_id(v@.take(i as int)).push(d));
        }
        i = i + 1;
    }
    proof {
        assert(v@.take(v@.len() as int) =~= v@);
    }
    r
}

/// The name under which the chart shows the node `id`: fixed names for the start and
/// end nodes, the chart id of the node's id otherwise.
pub open spec fn chart_name(flow: Flow, id: Seq<char>) -> Seq<char> {
    match flow.node_with_id(id) {
        Some(n) => if n.node_type@ == "start"@ {
            "start_node"@
        } else if n.node_type@ == "end"@ {
            "end_node"@
        } else {
            chart_id(n.id@)
        },
        None => chart_id(id),
    }
}

fn node_ref_name(flow: &Flow, id: &str) -> (r: String)
    ensures
        r@ == chart_name(*flow, id@),
{
    match flow.node(id) {
        Some(n) => {
            if str_eq(n.node_type.as_str(), "start") {
                String::from_str("start_node")
            } else if str_eq(n.node_type.as_str(), "end") {
                String::from_str("end_node")
            } else {
                mermaid_id(n.id.as_str())
            }
        },
        None => mermaid_id(id),
    }
}

/// The pieces of `ss`, one after the other.
pub open spec fn concat_all(ss: Seq<Seq<char>>) -> Seq<char>
    decreases ss.len(),
{
    if ss.len() == 0 {
        seq![]
    } else {
        concat_all(ss.drop_last()) + ss.last()
    }
}

/// The chart line that declares node `n`: rounded for start and end, a rhombus for a
/// decision, a box otherwise.
pub open spec fn node_decl(flow: Flow, n: Node) -> Seq<char> {
    let name = chart_name(flow, n.id@);
    let label = n.data.label@;
    if n.node_type@ == "start"@ || n.node_type@ == "end"@ {
        "    "@ + name + "(["@ + label + "])"@ + "\n"@
    } else if n.node_type@ == "decision"@ {
        "    "@ + name + "{"@ + label + "}"@ + "\n"@
    } else {
        "    "@ + name + "["@ + label + "]"@ + "\n"@
    }
}

/// The branch of node `n` with id `bid`.
pub open spec fn branch_id_is(bid: Seq<char>) -> spec_fn(Branch) -> bool {
    |b: Branch| b.id@ == bid
}

/// The name of the branch `bid` of the node `source`, empty if there is none.
pub open spec fn branch_label(flow: Flow, source: Seq<char>, bid: Seq<char>) -> Seq<char> {
    match flow.node_with_id(source) {
        Some(n) => match first_elem(n.data.branches@, branch_id_is(bid)) {
            Some(b) => b.name@,
            None => seq![],
        },
        None => seq![],
    }
}

/// The chart line of edge `e`, labelled with its branch's name when it has one.
pub open spec fn edge_decl(flow: Flow, e: crate::model::Edge) -> Seq<char> {
    let src = chart_name(flow, e.source@);
    let dst = chart_name(flow, e.target@);
    match e.branch_id {
        Some(bid) => "    "@ + src + " -->|"@ + branch_label(flow, e.source@, bid@) + "| "@ + dst
            + "\n"@,
        None => "    "@ + src + " --> "@ + dst + "\n"@,
    }
}

/// How the chart colours a node.
#[derive(Debug, Clone, Copy, PartialEq, Eq, Structural)]
pub enum Progress {
    Done,
    Current,
    Pending,
}

/// The colour of node `n`: the start is done; the end is done once the instance has
/// completed; the node being worked on is current (unless the instance has completed);
/// a node that was completed is done; everything else is pending.
pub open spec fn progress_of(state: ProcessState, n: Node) -> Progress {
    if n.node_type@ == "start"@ {
        Progress::Done
    } else if n.node_type@ == "end"@ {
        if state.status == Status::Completed {
            Progress::Done
        } else {
            Progress::Pending
        }
    } else if state.current_name@ == n.data.label@ && state.status != Status::Completed {
        Progress::Current
    } else if views(state.completed@).contains(n.data.label@) {
        Progress::Done
    } else {
        Progress::Pending
    }
}

/// The chart names of the first `k` nodes whose colour is `p`, in flow order.
pub open spec fn names_with(flow: Flow, state: ProcessState, p: Progress, k: int) -> Seq<Seq<char>>
    decreases k,
{
    if k <= 0 || k > flow.nodes@.len() {
        seq![]
    } else {
        let r = names_with(flow, state, p, k - 1);
        let n = flow.nodes@[k - 1];
        if progress_of(state, n) == p {
            r.push(chart_name(flow, n.id@))
        } else {
            r
        }
    }
}

/// The `class` line that colours `names` with `class`, if there are any.
pub open spec fn class_line(names: Seq<Seq<char>>, class: Seq<char>) -> Seq<char> {
    if names.len() == 0 {
        seq![]
    } else {
        "    class "@ + join(names, ","@) + " "@ + class + ";\n"@
    }
}

/// The progress chart of an instance: every node and edge of the flow, and the nodes
/// coloured done, current or pending.
pub open spec fn mermaid_chart(flow: Flow, state: ProcessState) -> Seq<char> {
    let nodes = flow.nodes@;
    let edges = flow.edges@;
    let n = nodes.len() as int;
    "```mermaid\nflowchart TD\n\n"@ + concat_all(Seq::new(nodes.len(), |i: int| node_decl(flow, nodes[i])))
        + "\n"@ + concat_all(Seq::new(edges.len(), |i: int| edge_decl(flow, edges[i]))) + "\n"@
        + "    classDef done fill:#4caf50,color:#fff;\n"@
        + "    classDef current fill:#ff9800,color:#fff;\n"@
        + "    classDef pending fill:#f5f5f5,color:#333;\n\n"@ + class_line(
        names_with(flow, state, Progress::Done, n),
        "done"@,
    ) + class_line(names_with(flow, state, Progress::Current, n), "current"@) + class_line(
        names_with(flow, state, Progress::Pending, n),
        "pending"@,
    ) + "```"@
}

} // verus!

verus! {

fn push_node_decl(s: &mut String, flow: &Flow, n: &Node)
    ensures
        final(s)@ == old(s)@ + node_decl(*flow, *n),
{
    let name = node_ref_name(flow, n.id.as_str());
    push_str(s, "    ");
    push_str(s, name.as_str());
    if str_eq(n.node_type.as_str(), "start") || str_eq(n.node_type.as_str(), "end") {
        push_str(s, "([");
        push_str(s, n.data.label.as_str());
        push_str(s, "])");
    } else if str_eq(n.node_type.as_str(), "decision") {
        push_str(s, "{");
        push_str(s, n.data.label.as_str());
        push_str(s, "}");
    } else {
        push_str(s, "[");
        push_str(s, n.data.label.as_str());
        push_str(s, "]");
    }
    push_str(s, "\n");
    proof {
        let name = chart_name(*flow, n.id@);
        let label = n.data.label@;
        if n.node_type@ == "start"@ || n.node_type@ == "end"@ {
            assert(final(s)@ =~= old(s)@ + ("    "@ + name + "(["@ + label + "])"@ + "\n"@));
        } else if n.node_type@ == "decision"@ {
            assert(final(s)@ =~= old(s)@ + ("    "@ + name + "{"@ + label + "}"@ + "\n"@));
        } else {
            assert(final(s)@ =~= old(s)@ + ("    "@ + name + "["@ + label + "]"@ + "\n"@));
        }
    }
}

#[verifier::loop_isolation(false)]
fn find_branch_label(flow: &Flow, source: &str, bid: &str) -> (r: String)
    ensures
        r@ == branch_label(*flow, source@, bid@),
{
    match flow.node(source) {
        Some(n) => {
            let bs = &n.data.branches;
            let mut i: usize = 0;
            while i < bs.len()
                invariant
                    i <= bs.len(),
                    first(bs@, branch_id_is(bid@)) == first_from(bs@, branch_id_is(bid@), i as int),
                decreases bs.len() - i,
            {
                if str_eq(bs[i].id.as_str(), bid) {
                    assert(first(bs@, branch_id_is(bid@)) == Some(i as int));
                    return bs[i].name.clone();
                }
                i = i + 1;
            }
            String::new()
        },
        None => String::new(),
    }
}

fn push_edge_decl(s: &mut String, flow: &Flow, e: &crate::model::Edge)
    ensures
        final(s)@ == old(s)@ + edge_decl(*flow, *e),
{
    let src = node_ref_name(flow, e.source.as_str());
    let dst = node_ref_name(flow, e.target.as_str());
    push_str(s, "    ");
    push_str(s, src.as_str());
    match &e.branch_id {
        Some(bid) => {
            let label = find_branch_label(flow, e.source.as_str(), bid.as_str());
            push_str(s, " -->|");
            push_str(s, label.as_str());
            push_str(s, "| ");
        },
        None => {
            push_str(s, " --> ");
        },
    }
    push_str(s, dst.as_str());
    push_str(s, "\n");
    proof {
        let srcv = chart_name(*flow, e.source@);
        let dstv = chart_name(*flow, e.target@);
        match &e.branch_id {
            Some(bid) => {
                assert(final(s)@ =~= old(s)@ + ("    "@ + srcv + " -->|"@ + branch_label(
                    *flow,
                    e.source@,
                    bid@,
                ) + "| "@ + dstv + "\n"@));
            },
            None => {
                assert(final(s)@ =~= old(s)@ + ("    "@ + srcv + " --> "@ + dstv + "\n"@));
            },
        }
    }
}

#[verifier::loop_isolation(false)]
fn progress(state: &ProcessState, n: &Node) -> (r: Progress)
    ensures
        r == progress_of(*state, *n),
{
    if str_eq(n.node_type.as_str(), "start") {
        return Progress::Done;
    }
    if str_eq(n.node_type.as_str(), "end") {
        return if state.status == Status::Completed {
            Progress::Done
        } else {
            Progress::Pending
        };
    }
    if state.current_name == n.data.label && state.status != Status::Completed {
        return Progress::Current;
    }
    let mut i: usize = 0;
    while i < state.completed.len()
        invariant
            i <= state.completed.len(),
            forall|k: int| 0 <= k < i ==> state.completed@[k]@ != n.data.label@,
        decreases state.completed.len() - i,
    {
        if state.completed[i] == n.data.label {
            proof {
                assert(views(state.completed@)[i as int] == n.data.label@);
            }
            return Progress::Done;
        }
        i = i + 1;
    }
    proof {
        assert forall|k: int| 0 <= k < views(state.completed@).len() implies views(
            state.completed@,
        )[k] != n.data.label@ by {
            assert(views(state.completed@)[k] == state.completed@[k]@);
        }
    }
    Progress::Pending
}

fn push_class_line(s: &mut String, names: &Vec<String>, class: &str)
    ensures
        final(s)@ == old(s)@ + class_line(views(names@), class@),
{
    if names.len() > 0 {
        let joined = join_strings(names, ",");
        push_str(s, "    class ");
        push_str(s, joined.as_str());
        push_str(s, " ");
        push_str(s, class);
        push_str(s, ";\n");
        proof {
            assert(final(s)@ =~= old(s)@ + ("    class "@ + join(views(names@), ","@) + " "@ + class@
                + ";\n"@));
        }
    } else {
        proof {
            assert(views(names@).len() == 0);
            assert(old(s)@ + class_line(views(names@), class@) =~= old(s)@);
        }
    }
}

/// The progress chart of an instance (see `mermaid_chart`).
pub fn render_mermaid(flow: &Flow, state: &ProcessState) -> (r: String)
    ensures
        r@ == mermaid_chart(*flow, *state),
{
    let ghost nodes = flow.nodes@;
    let ghost edges = flow.edges@;
    let ghost nd = Seq::new(nodes.len(), |i: int| node_decl(*flow, nodes[i]));
    let ghost ed = Seq::new(edges.len(), |i: int| edge_decl(*flow, edges[i]));
    let mut s = String::from_str("```mermaid\nflowchart TD\n\n");
    let ghost head = s@;
    let mut i: usize = 0;
    while i < flow.nodes.len()
        invariant
            i <= flow.nodes.len(),
            nodes == flow.nodes@,
            nd == Seq::new(nodes.len(), |i: int| node_decl(*flow, nodes[i])),
            s@ == head + concat_all(nd.take(i as int)),
        decreases flow.nodes.len() - i,
    {
        push_node_decl(&mut s, flow, &flow.nodes[i]);
        proof {
            assert(nd.take(i + 1).drop_last() =~= nd.take(i as int));
            assert(nd.take(i + 1).last() == nd[i as int]);
        }
        i = i + 1;
    }
    proof {
        assert(nd.take(nodes.len() as int) =~= nd);
    }
    push_str(&mut s, "\n");
    let ghost mid = s@;
    let mut j: usize = 0;
    while j < flow.edges.len()
        invariant
            j <= flow.edges.len(),
            edges == flow.edges@,
            ed == Seq::new(edges.len(), |i: int| edge_decl(*flow, edges[i])),
            s@ == mid + concat_all(ed.take(j as int)),
        decreases flow.edges.len() - j,
    {
        push_edge_decl(&mut s, flow, &flow.edges[j]);
        proof {
            assert(ed.take(j + 1).drop_last() =~= ed.take(j as int));
            assert(ed.take(j + 1).last() == ed[j as int]);
        }
        j = j + 1;
    }
    proof {
        assert(ed.take(edges.len() as int) =~= ed);
    }
    push_str(&mut s, "\n");
    push_str(&mut s, "    classDef done fill:#4caf50,color:#fff;\n");
    push_str(&mut s, "    classDef current fill:#ff9800,color:#fff;\n");
    push_str(&mut s, "    classDef pending fill:#f5f5f5,color:#333;\n\n");
    let mut done: Vec<String> = Vec::new();
    let mut current: Vec<String> = Vec::new();
    let mut pending: Vec<String> = Vec::new();
    let mut k: usize = 0;
    while k < flow.nodes.len()
        invariant
            k <= flow.nodes.len(),
            views(done@) == names_with(*flow, *state, Progress::Done, k as int),
            views(current@) == names_with(*flow, *state, Progress::Current, k as int),
            views(pending@) == names_with(*flow, *state, Progress::Pending, k as int),
        decreases flow.nodes.len() - k,
    {
        let n = &flow.nodes[k];
        let name = node_ref_name(flow, n.id.as_str());
        let ghost (d0, c0, p0) = (views(done@), views(current@), views(pending@));
        match progress(state, n) {
            Progress::Done => {
                done.push(name);
                proof {
                    assert(views(done@) =~= d0.push(name@));
                }
            },
            Progress::Current => {
                current.push(name);
                proof {
                    assert(views(current@) =~= c0.push(name@));
                }
            },
            Progress::Pending => {
                pending.push(name);
                proof {
                    assert(views(pending@) =~= p0.push(name@));
                }
            },
        }
        k = k + 1;
    }
    push_class_line(&mut s, &done, "done");
    push_class_line(&mut s, &current, "current");
    push_class_line(&mut s, &pending, "pending");
    push_str(&mut s, "```");
    proof {
        assert(s@ =~= mermaid_chart(*flow, *state));
    }
    s
}

} // verus!

verus! {

// ---------------------------------------------------------------------------
// The commands, as decisions over the state

/// The four commands that move an instance along.
#[derive(Debug, Clone, Copy, PartialEq, Eq, Structural)]
pub enum Command {
    Next,
    Complete,
    Fail,
    Choose,
}

/// The status an instance must be in for `cmd`: `next` needs an idle instance,
/// `complete` and `fail` an executing node, `choose` a pending decision.
pub open spec fn accepts(cmd: Command, s: Status) -> bool {
    match cmd {
        Command::Next => s == Status::Idle,
        Command::Complete => s == Status::Executing,
        Command::Fail => s == Status::Executing,
        Command::Choose => s == Status::AwaitingChoice,
    }
}

/// Why `cmd` is refused in a status it does not accept.
pub open spec fn refusal(cmd: Command) -> Seq<char> {
    match cmd {
        Command::Next => "当前节点未完成，先 complete/choose"@,
        Command::Complete => "当前无执行中的业务节点"@,
        Command::Fail => "当前无执行中的业务节点"@,
        Command::Choose => "当前无待决策节点"@,
    }
}

/// Whether the instance may take `cmd` now; the reason when it may not.
pub fn command_ready(state: &ProcessState, cmd: Command) -> (r: Result<(), String>)
    ensures
        r is Ok <==> accepts(cmd, state.status),
        r matches Err(m) ==> m@ == refusal(cmd),
{
    match cmd {
        Command::Next => if state.status == Status::Idle {
            Ok(())
        } else {
            Err(String::from_str("当前节点未完成，先 complete/choose"))
        },
        Command::Complete => if state.status == Status::Executing {
            Ok(())
        } else {
            Err(String::from_str("当前无执行中的业务节点"))
        },
        Command::Fail => if state.status == Status::Executing {
            Ok(())
        } else {
            Err(String::from_str("当前无执行中的业务节点"))
        },
        Command::Choose => if state.status == Status::AwaitingChoice {
            Ok(())
        } else {
            Err(String::from_str("当前无待决策节点"))
        },
    }
}

/// A step of the trace that a command records: the row's status, node, execution
/// and branch.
pub struct RecordView {
    pub status: Seq<char>,
    pub node: Seq<char>,
    pub invoke: Seq<char>,
    pub branch: Option<Seq<char>>,
}

/// What a command answers when it succeeds: a message, or the node to show.
#[derive(Debug)]
pub enum Reply {
    Message(String),
    ShowNode,
}

/// What a command answers, as a value.
pub enum ReplyView {
    Message(Seq<char>),
    ShowNode,
}

impl View for Reply {
    type V = ReplyView;

    open spec fn view(&self) -> ReplyView {
        match self {
            Reply::Message(m) => ReplyView::Message(m@),
            Reply::ShowNode => ReplyView::ShowNode,
        }
    }
}

/// What a command decided: the state afterwards, the step it records (if any),
/// whether process.md is written back, and the answer.
pub struct Outcome {
    pub state: StateView,
    pub record: Option<RecordView>,
    pub save: bool,
    pub reply: Result<ReplyView, Seq<char>>,
}

/// What the caller has to carry out after a command decided: the line for
/// `trace.jsonl`, whether to write process.md back, and the answer.
#[derive(Debug)]
pub struct Step {
    pub log: Option<TraceLogEntry>,
    pub save: bool,
    pub reply: Result<Reply, String>,
}

/// The log line for a recorded step of command `cmd` at time `ts`.
pub open spec fn log_of(cmd: Seq<char>, rec: RecordView, ts: Seq<char>) -> LogView {
    LogView {
        ts: ts,
        command: cmd,
        node: Some(rec.node),
        invoke: Some(rec.invoke),
        status: Some(rec.status),
        branch: rec.branch,
    }
}

/// The trace row for a recorded step at time `time`.
pub open spec fn event_of(rec: RecordView, time: Seq<char>) -> EventView {
    EventView { status: rec.status, node: rec.node, invoke: rec.invoke, branch: rec.branch, time: time }
}

/// `step` carries out `o` on `pf` for command `cmd` at time `now`: the state is `o.state`,
/// the trace holds the recorded step, the log line is that step's, the chart is redrawn
/// when the file is saved, and the answer is `o.reply`.
pub open spec fn carries_out(
    o: Outcome,
    old_pf: ProcessFile,
    new_pf: ProcessFile,
    step: Step,
    flow: Flow,
    cmd: Seq<char>,
    now: Seq<char>,
) -> bool {
    &&& new_pf.state@ == o.state
    &&& match o.record {
        Some(rec) => {
            &&& trace_view(new_pf.trace@) == upsert(trace_view(old_pf.trace@), event_of(rec, now))
            &&& step.log matches Some(l) && l@ == log_of(cmd, rec, now)
        },
        None => {
            &&& trace_view(new_pf.trace@) == trace_view(old_pf.trace@)
            &&& step.log is None
        },
    }
    &&& step.save == o.save
    &&& (o.save ==> new_pf.mermaid@ == mermaid_chart(flow, new_pf.state))
    &&& (!o.save ==> new_pf.mermaid == old_pf.mermaid)
    &&& match (step.reply, o.reply) {
        (Ok(a), Ok(b)) => a@ == b,
        (Err(a), Err(b)) => a@ == b,
        _ => false,
    }
}

/// `names` with `x` added at the end, unless it is already there.
pub open spec fn add_once(names: Seq<Seq<char>>, x: Seq<char>) -> Seq<Seq<char>> {
    if names.contains(x) {
        names
    } else {
        names.push(x)
    }
}

} // verus!

verus! {

/// The execution whose artifact `next` insists on: the node and execution last completed,
/// when both are known.
pub open spec fn pending_artifact_of(s: StateView) -> Option<(Seq<char>, Seq<char>)> {
    match (s.last_node, s.last_invoke) {
        (Some(n), Some(i)) => Some((n, i)),
        _ => None,
    }
}

/// The node and execution whose artifact must exist before `next` may move on.
pub fn pending_artifact(state: &ProcessState) -> (r: Option<(String, String)>)
    ensures
        match (r, pending_artifact_of(state@)) {
            (Some(p), Some(q)) => p.0@ == q.0 && p.1@ == q.1,
            (None, None) => true,
            _ => false,
        },
{
    match (&state.last_node, &state.last_invoke) {
        (Some(n), Some(i)) => Some((n.clone(), i.clone())),
        _ => None,
    }
}

/// What `next` decides. It needs an idle instance on a node of the flow. At the end node
/// the instance completes. Otherwise the artifact of the last completed execution must
/// have been written; the step count goes up, and past `max_steps` the instance aborts;
/// else the node starts: a decision awaits a choice, any other node executes.
pub open spec fn next_outcome(s: StateView, flow: Flow, artifact_written: bool) -> Outcome {
    if s.status != Status::Idle {
        Outcome { state: s, record: None, save: false, reply: Err(refusal(Command::Next)) }
    } else {
        match flow.node_with_id(s.current) {
            None => Outcome { state: s, record: None, save: false, reply: Err("当前节点不存在"@) },
            Some(n) => if n.node_type@ == "end"@ {
                Outcome {
                    state: StateView { status: Status::Completed, ..s },
                    record: Some(
                        RecordView {
                            status: "completed"@,
                            node: n.data.label@,
                            invoke: "-"@,
                            branch: None,
                        },
                    ),
                    save: true,
                    reply: Ok(ReplyView::Message("工作流已完成"@)),
                }
            } else if pending_artifact_of(s) is Some && !artifact_written {
                let p = pending_artifact_of(s)->0;
                Outcome {
                    state: s,
                    record: None,
                    save: false,
                    reply: Err("节点 "@ + p.0 + " ("@ + p.1 + ") 未写入产物，请补写后再 next"@),
                }
            } else if s.step + 1 > s.limits.max_steps {
                Outcome {
                    state: StateView { step: s.step + 1, status: Status::Aborted, ..s },
                    record: None,
                    save: true,
                    reply: Err("超出最大步数 "@ + crate::text::decimal(s.limits.max_steps as nat)),
                }
            } else {
                Outcome {
                    state: StateView {
                        step: s.step + 1,
                        status: if n.node_type@ == "decision"@ {
                            Status::AwaitingChoice
                        } else {
                            Status::Executing
                        },
                        ..s
                    },
                    record: Some(
                        RecordView {
                            status: "active"@,
                            node: n.data.label@,
                            invoke: s.current_invoke,
                            branch: None,
                        },
                    ),
                    save: true,
                    reply: Ok(ReplyView::ShowNode),
                }
            },
        }
    }
}

/// A log line for command `cmd` recording a step.
fn log_entry(now: &str, cmd: &str, status: &str, node: &str, invoke: &str, branch: Option<&str>) -> (r: TraceLogEntry)
    ensures
        r@ == log_of(
            cmd@,
            RecordView { status: status@, node: node@, invoke: invoke@, branch: crate::text::opt_str_view(branch) },
            now@,
        ),
{
    TraceLogEntry {
        ts: String::from_str(now),
        command: String::from_str(cmd),
        node: Some(String::from_str(node)),
        invoke: Some(String::from_str(invoke)),
        status: Some(String::from_str(status)),
        branch: match branch {
            Some(b) => Some(String::from_str(b)),
            None => None,
        },
    }
}

/// Takes the `next` command on `pf` (see `next_outcome`); `artifact_written` says whether
/// the artifact of `pending_artifact` exists, `now` is the time of the step.
pub fn next_step(pf: &mut ProcessFile, flow: &Flow, artifact_written: bool, now: &str) -> (r: Step)
    requires
        old(pf).state.step < usize::MAX,
    ensures
        carries_out(
            next_outcome(old(pf).state@, *flow, artifact_written),
            *old(pf),
            *final(pf),
            r,
            *flow,
            "next"@,
            now@,
        ),
{
    if pf.state.status != Status::Idle {
        return Step {
            log: None,
            save: false,
            reply: Err(String::from_str("当前节点未完成，先 complete/choose")),
        };
    }
    let node = match flow.node(pf.state.current.as_str()) {
        Some(n) => n,
        None => {
            return Step { log: None, save: false, reply: Err(String::from_str("当前节点不存在")) };
        },
    };
    if str_eq(node.node_type.as_str(), "end") {
        pf.state.status = Status::Completed;
        pf.record("completed", node.data.label.as_str(), "-", None, now);
        let log = log_entry(now, "next", "completed", node.data.label.as_str(), "-", None);
        pf.mermaid = render_mermaid(flow, &pf.state);
        return Step {
            log: Some(log),
            save: true,
            reply: Ok(Reply::Message(String::from_str("工作流已完成"))),
        };
    }
    match (&pf.state.last_node, &pf.state.last_invoke) {
        (Some(ln), Some(li)) => {
            if !artifact_written {
                let mut m = String::from_str("节点 ");
                push_str(&mut m, ln.as_str());
                push_str(&mut m, " (");
                push_str(&mut m, li.as_str());
                push_str(&mut m, ") 未写入产物，请补写后再 next");
                return Step { log: None, save: false, reply: Err(m) };
            }
        },
        _ => {},
    }
    pf.state.step = pf.state.step + 1;
    match crate::limits::check_step_limit(&pf.state) {
        Err(msg) => {
            pf.state.status = Status::Aborted;
            pf.mermaid = render_mermaid(flow, &pf.state);
            return Step { log: None, save: true, reply: Err(msg) };
        },
        Ok(()) => {},
    }
    pf.state.status = if str_eq(node.node_type.as_str(), "decision") {
        Status::AwaitingChoice
    } else {
        Status::Executing
    };
    let invoke = pf.state.current_invoke.clone();
    pf.record("active", node.data.label.as_str(), invoke.as_str(), None, now);
    let log = log_entry(now, "next", "active", node.data.label.as_str(), invoke.as_str(), None);
    pf.mermaid = render_mermaid(flow, &pf.state);
    Step { log: Some(log), save: true, reply: Ok(Reply::ShowNode) }
}

} // verus!

verus! {

/// Whether `output` can stand as a node's artifact: it must hold more than whitespace.
pub fn complete_check(output: &str) -> (r: Result<(), String>)
    ensures
        r is Ok <==> crate::text::trim(output@).len() > 0,
        r matches Err(m) ==> m@ == "请通过 --output / --output-file / stdin 提供产物"@,
{
    let t = crate::text::trimmed(output);
    if t.as_str().unicode_len() == 0 {
        Err(String::from_str("请通过 --output / --output-file / stdin 提供产物"))
    } else {
        Ok(())
    }
}

/// What `complete` decides once the artifact is written: the step is recorded and the
/// node counts as completed; then the instance moves along the node's only edge to an
/// idle next node with execution id `next_invoke`, the retry count cleared, and the
/// finished execution remembered as the one whose artifact `next` checks.
pub open spec fn complete_outcome(s: StateView, flow: Flow, next_invoke: Seq<char>) -> Outcome {
    let rec = RecordView { status: "completed"@, node: s.current_name, invoke: s.current_invoke, branch: None };
    let s1 = StateView { completed: add_once(s.completed, s.current_name), ..s };
    match crate::graph::route(flow, s.current, None) {
        Err(m) => Outcome { state: s1, record: Some(rec), save: false, reply: Err(m) },
        Ok(t) => match flow.node_with_id(t) {
            None => Outcome { state: s1, record: Some(rec), save: false, reply: Err("下一个节点不存在"@) },
            Some(nn) => Outcome {
                state: StateView {
                    last_node: Some(s.current_name),
                    last_invoke: Some(s.current_invoke),
                    current: t,
                    current_name: nn.data.label@,
                    current_invoke: next_invoke,
                    retry_count: 0,
                    status: Status::Idle,
                    ..s1
                },
                record: Some(rec),
                save: true,
                reply: Ok(ReplyView::Message("已推进到 "@ + nn.data.label@)),
            },
        },
    }
}

/// Adds `x` to `names` unless it is there already.
fn push_once(names: &mut Vec<String>, x: &String)
    ensures
        views(final(names)@) == add_once(views(old(names)@), x@),
{
    let mut i: usize = 0;
    while i < names.len()
        invariant
            i <= names.len(),
            names@ == old(names)@,
            forall|k: int| 0 <= k < i ==> names@[k]@ != x@,
        decreases names.len() - i,
    {
        if names[i] == *x {
            proof {
                assert(views(names@)[i as int] == x@);
            }
            return;
        }
        i = i + 1;
    }
    proof {
        assert forall|k: int| 0 <= k < views(names@).len() implies views(names@)[k] != x@ by {
            assert(views(names@)[k] == names@[k]@);
        }
    }
    let ghost before = views(names@);
    names.push(x.clone());
    proof {
        assert(views(names@) =~= before.push(x@));
    }
}

/// Takes the `complete` command on `pf`, whose current node is executing and whose
/// artifact has been written (see `complete_outcome`).
pub fn complete_step(pf: &mut ProcessFile, flow: &Flow, next_invoke: &str, now: &str) -> (r: Step)
    requires
        old(pf).state.status == Status::Executing,
    ensures
        carries_out(
            complete_outcome(old(pf).state@, *flow, next_invoke@),
            *old(pf),
            *final(pf),
            r,
            *flow,
            "complete"@,
            now@,
        ),
{
    let name = pf.state.current_name.clone();
    let invoke = pf.state.current_invoke.clone();
    pf.record("completed", name.as_str(), invoke.as_str(), None, now);
    let log = log_entry(now, "complete", "completed", name.as_str(), invoke.as_str(), None);
    push_once(&mut pf.state.completed, &name);
    let graph = crate::graph::Graph::new(flow);
    let next_id = match graph.next_node(pf.state.current.as_str(), None) {
        Ok(t) => t,
        Err(m) => {
            return Step { log: Some(log), save: false, reply: Err(m) };
        },
    };
    let next_node = match flow.node(next_id.as_str()) {
        Some(n) => n,
        None => {
            return Step { log: Some(log), save: false, reply: Err(String::from_str("下一个节点不存在")) };
        },
    };
    pf.state.last_node = Some(name);
    pf.state.last_invoke = Some(invoke);
    pf.state.current = next_id;
    pf.state.current_name = next_node.data.label.clone();
    pf.state.current_invoke = String::from_str(next_invoke);
    pf.state.retry_count = 0;
    pf.state.status = Status::Idle;
    pf.mermaid = render_mermaid(flow, &pf.state);
    let mut m = String::from_str("已推进到 ");
    push_str(&mut m, next_node.data.label.as_str());
    Step { log: Some(log), save: true, reply: Ok(Reply::Message(m)) }
}

/// What `fail` decides once the error is written: the step is recorded as failed and the
/// retry count goes up; past `max_retry` the instance aborts, otherwise it is idle again
/// on the same node with the fresh execution id `next_invoke`.
pub open spec fn fail_outcome(s: StateView, next_invoke: Seq<char>) -> Outcome {
    let rec = RecordView { status: "failed"@, node: s.current_name, invoke: s.current_invoke, branch: None };
    let s1 = StateView { retry_count: s.retry_count + 1, ..s };
    if s1.retry_count > s.limits.max_retry {
        Outcome {
            state: StateView { status: Status::Aborted, ..s1 },
            record: Some(rec),
            save: true,
            reply: Err("超出最大重试次数 "@ + crate::text::decimal(s.limits.max_retry as nat)),
        }
    } else {
        Outcome {
            state: StateView {
                last_node: None,
                last_invoke: None,
                current_invoke: next_invoke,
                status: Status::Idle,
                ..s1
            },
            record: Some(rec),
            save: true,
            reply: Ok(ReplyView::Message("已标记失败，可重新 next 重试"@)),
        }
    }
}

/// Takes the `fail` command on `pf`, whose current node is executing and whose error has
/// been written (see `fail_outcome`).
pub fn fail_step(pf: &mut ProcessFile, flow: &Flow, next_invoke: &str, now: &str) -> (r: Step)
    requires
        old(pf).state.status == Status::Executing,
        old(pf).state.retry_count < usize::MAX,
    ensures
        carries_out(
            fail_outcome(old(pf).state@, next_invoke@),
            *old(pf),
            *final(pf),
            r,
            *flow,
            "fail"@,
            now@,
        ),
{
    let name = pf.state.current_name.clone();
    let invoke = pf.state.current_invoke.clone();
    pf.record("failed", name.as_str(), invoke.as_str(), None, now);
    let log = log_entry(now, "fail", "failed", name.as_str(), invoke.as_str(), None);
    pf.state.retry_count = pf.state.retry_count + 1;
    match crate::limits::check_retry_limit(&pf.state) {
        Err(msg) => {
            pf.state.status = Status::Aborted;
            pf.mermaid = render_mermaid(flow, &pf.state);
            return Step { log: Some(log), save: true, reply: Err(msg) };
        },
        Ok(()) => {},
    }
    pf.state.last_node = None;
    pf.state.last_invoke = None;
    pf.state.current_invoke = String::from_str(next_invoke);
    pf.state.status = Status::Idle;
    pf.mermaid = render_mermaid(flow, &pf.state);
    Step {
        log: Some(log),
        save: true,
        reply: Ok(Reply::Message(String::from_str("已标记失败，可重新 next 重试"))),
    }
}

} // verus!

verus! {

/// What `choose` decides before anything is written: the decision node must exist and
/// `branch` must be one of its branches; the artifact then records the choice and, when
/// given, the reason.
pub open spec fn choose_detail_of(flow: Flow, s: StateView, branch: Seq<char>, reason: Option<Seq<char>>) -> Result<Seq<char>, Seq<char>> {
    match flow.node_with_id(s.current) {
        None => Err("决策节点不存在"@),
        Some(n) => {
            let names = crate::graph::branch_names_of(flow, s.current);
            if !names.contains(branch) {
                Err("分支 "@ + branch + " 不存在，可选: "@ + join(names, "/"@))
            } else {
                match reason {
                    Some(r) => Ok("## 选择分支\n- "@ + branch + "\n\n## 理由\n- "@ + r),
                    None => Ok("## 选择分支\n- "@ + branch),
                }
            }
        },
    }
}

/// The artifact text for choosing `branch` at the current decision node, or why the
/// choice is refused (see `choose_detail_of`).
pub fn choose_detail(state: &ProcessState, flow: &Flow, branch: &str, reason: Option<&str>) -> (r: Result<String, String>)
    ensures
        match (r, choose_detail_of(*flow, state@, branch@, crate::text::opt_str_view(reason))) {
            (Ok(a), Ok(b)) => a@ == b,
            (Err(a), Err(b)) => a@ == b,
            _ => false,
        },
{
    if flow.node(state.current.as_str()).is_none() {
        return Err(String::from_str("决策节点不存在"));
    }
    let graph = crate::graph::Graph::new(flow);
    let names = graph.branch_names(state.current.as_str());
    let mut i: usize = 0;
    let mut found = false;
    while i < names.len()
        invariant
            i <= names.len(),
            found ==> views(names@).contains(branch@),
            !found ==> forall|k: int| 0 <= k < i ==> names@[k]@ != branch@,
        decreases names.len() - i,
    {
        if !found && str_eq(names[i].as_str(), branch) {
            found = true;
            proof {
                assert(views(names@)[i as int] == branch@);
            }
        }
        i = i + 1;
    }
    if !found {
        proof {
            assert forall|k: int| 0 <= k < views(names@).len() implies views(names@)[k] != branch@ by {
                assert(views(names@)[k] == names@[k]@);
            }
        }
        let mut m = String::from_str("分支 ");
        push_str(&mut m, branch);
        push_str(&mut m, " 不存在，可选: ");
        let joined = join_strings(&names, "/");
        push_str(&mut m, joined.as_str());
        return Err(m);
    }
    let mut d = String::from_str("## 选择分支\n- ");
    push_str(&mut d, branch);
    match reason {
        Some(r) => {
            push_str(&mut d, "\n\n## 理由\n- ");
            push_str(&mut d, r);
        },
        None => {},
    }
    Ok(d)
}

/// The branch of the node named `name`.
pub open spec fn branch_named(name: Seq<char>) -> spec_fn(Branch) -> bool {
    |b: Branch| b.name@ == name
}

/// What `choose` decides once its artifact is written: the step is recorded with the
/// branch and the node counts as completed; when the branch leads back to a completed
/// node the loop count goes up; the instance moves along the branch to an idle node with
/// execution id `next_invoke`; past `max_loop` it aborts.
pub open spec fn choose_outcome(s: StateView, flow: Flow, branch: Seq<char>, next_invoke: Seq<char>) -> Outcome {
    let rec = RecordView {
        status: "completed"@,
        node: s.current_name,
        invoke: s.current_invoke,
        branch: Some(branch),
    };
    let s1 = StateView { completed: add_once(s.completed, s.current_name), ..s };
    let n = flow.node_with_id(s.current)->0;
    let bid = first_elem(n.data.branches@, branch_named(branch))->0.id@;
    let s2 = if crate::graph::loops_back(flow, s.current, bid, s1.completed) {
        StateView { loop_count: s1.loop_count + 1, ..s1 }
    } else {
        s1
    };
    match crate::graph::route(flow, s.current, Some(bid)) {
        Err(m) => Outcome { state: s2, record: Some(rec), save: false, reply: Err(m) },
        Ok(t) => match flow.node_with_id(t) {
            None => Outcome { state: s2, record: Some(rec), save: false, reply: Err("下一个节点不存在"@) },
            Some(nn) => {
                let s3 = StateView {
                    last_node: None,
                    last_invoke: None,
                    current: t,
                    current_name: nn.data.label@,
                    current_invoke: next_invoke,
                    status: Status::Idle,
                    ..s2
                };
                if s3.loop_count > s.limits.max_loop {
                    Outcome {
                        state: StateView { status: Status::Aborted, ..s3 },
                        record: Some(rec),
                        save: true,
                        reply: Err("超出最大环回次数 "@ + crate::text::decimal(s.limits.max_loop as nat)),
                    }
                } else {
                    Outcome {
                        state: s3,
                        record: Some(rec),
                        save: true,
                        reply: Ok(ReplyView::Message("已选择分支 "@ + branch + "，推进到 "@ + nn.data.label@)),
                    }
                }
            },
        },
    }
}

/// Takes the `choose` command on `pf`, which awaits a choice at a decision node that has
/// a branch named `branch`, once the choice's artifact has been written
/// (see `choose_outcome`).
#[verifier::loop_isolation(false)]
pub fn choose_step(pf: &mut ProcessFile, flow: &Flow, branch: &str, next_invoke: &str, now: &str) -> (r: Step)
    requires
        old(pf).state.status == Status::AwaitingChoice,
        old(pf).state.loop_count < usize::MAX,
        choose_detail_of(*flow, old(pf).state@, branch@, None) is Ok,
    ensures
        carries_out(
            choose_outcome(old(pf).state@, *flow, branch@, next_invoke@),
            *old(pf),
            *final(pf),
            r,
            *flow,
            "choose"@,
            now@,
        ),
{
    let name = pf.state.current_name.clone();
    let invoke = pf.state.current_invoke.clone();
    pf.record("completed", name.as_str(), invoke.as_str(), Some(branch), now);
    let log = log_entry(now, "choose", "completed", name.as_str(), invoke.as_str(), Some(branch));
    push_once(&mut pf.state.completed, &name);
    let node = flow.node(pf.state.current.as_str()).unwrap();
    let bs = &node.data.branches;
    let ghost names = crate::graph::branch_names_of(*flow, old(pf).state.current@);
    proof {
        let w = choose|w: int| 0 <= w < names.len() && names[w] == branch@;
        assert(names[w] == bs@[w].name@);
        assert(branch_named(branch@)(bs@[w]));
        crate::find::lemma_first(bs@, branch_named(branch@));
    }
    let mut i: usize = 0;
    while i < bs.len()
        invariant
            i <= bs.len(),
            first(bs@, branch_named(branch@)) == first_from(bs@, branch_named(branch@), i as int),
            first(bs@, branch_named(branch@)) is Some,
        decreases bs.len() - i,
    {
        if str_eq(bs[i].name.as_str(), branch) {
            break;
        }
        i = i + 1;
    }
    assert(i < bs.len());
    assert(first(bs@, branch_named(branch@)) == Some(i as int));
    let bid = &bs[i].id;
    let graph = crate::graph::Graph::new(flow);
    if graph.is_loop_back(pf.state.current.as_str(), bid.as_str(), pf.state.completed.as_slice()) {
        pf.state.loop_count = pf.state.loop_count + 1;
    }
    let next_id = match graph.next_node(pf.state.current.as_str(), Some(bid.as_str())) {
        Ok(t) => t,
        Err(m) => {
            return Step { log: Some(log), save: false, reply: Err(m) };
        },
    };
    let next_node = match flow.node(next_id.as_str()) {
        Some(n) => n,
        None => {
            return Step { log: Some(log), save: false, reply: Err(String::from_str("下一个节点不存在")) };
        },
    };
    pf.state.last_node = None;
    pf.state.last_invoke = None;
    pf.state.current = next_id;
    pf.state.current_name = next_node.data.label.clone();
    pf.state.current_invoke = String::from_str(next_invoke);
    pf.state.status = Status::Idle;
    match crate::limits::check_loop_limit(&pf.state) {
        Err(msg) => {
            pf.state.status = Status::Aborted;
            pf.mermaid = render_mermaid(flow, &pf.state);
            return Step { log: Some(log), save: true, reply: Err(msg) };
        },
        Ok(()) => {},
    }
    pf.mermaid = render_mermaid(flow, &pf.state);
    let mut m = String::from_str("已选择分支 ");
    push_str(&mut m, branch);
    push_str(&mut m, "，推进到 ");
    push_str(&mut m, next_node.data.label.as_str());
    Step { log: Some(log), save: true, reply: Ok(Reply::Message(m)) }
}

} // verus!

verus! {

// ---------------------------------------------------------------------------
// What the commands show

/// The text shown for a decision node: its condition, then its branches, each with its
/// description in brackets when it has one.
pub open spec fn decision_text_of(n: Node) -> Seq<char> {
    "# 判断内容\n\n"@ + match n.data.condition {
        Some(c) => c@,
        None => seq![],
    } + "\n\n# 可选分支\n\n"@ + concat_all(
        Seq::new(n.data.branches@.len(), |i: int| branch_line(n.data.branches@[i])),
    )
}

/// The line for one branch of a decision.
pub open spec fn branch_line(b: Branch) -> Seq<char> {
    match b.description {
        Some(d) => "- "@ + b.name@ + " ("@ + d@ + ")\n"@,
        None => "- "@ + b.name@ + "\n"@,
    }
}

/// The text shown for a decision node (see `decision_text_of`).
pub fn decision_text(n: &Node) -> (r: String)
    ensures
        r@ == decision_text_of(*n),
{
    let mut s = String::from_str("# 判断内容\n\n");
    match &n.data.condition {
        Some(c) => push_str(&mut s, c.as_str()),
        None => {},
    }
    push_str(&mut s, "\n\n# 可选分支\n\n");
    let ghost head = s@;
    let ghost bl = Seq::new(n.data.branches@.len(), |i: int| branch_line(n.data.branches@[i]));
    let bs = &n.data.branches;
    let mut i: usize = 0;
    while i < bs.len()
        invariant
            i <= bs.len(),
            bl == Seq::new(bs@.len(), |i: int| branch_line(bs@[i])),
            s@ == head + concat_all(bl.take(i as int)),
        decreases bs.len() - i,
    {
        let ghost before = s@;
        let b = &bs[i];
        push_str(&mut s, "- ");
        push_str(&mut s, b.name.as_str());
        match &b.description {
            Some(d) => {
                push_str(&mut s, " (");
                push_str(&mut s, d.as_str());
                push_str(&mut s, ")\n");
            },
            None => {
                push_str(&mut s, "\n");
            },
        }
        proof {
            match &b.description {
                Some(d) => {
                    assert(s@ =~= before + ("- "@ + b.name@ + " ("@ + d@ + ")\n"@));
                },
                None => {
                    assert(s@ =~= before + ("- "@ + b.name@ + "\n"@));
                },
            }
            assert(bl.take(i + 1).drop_last() =~= bl.take(i as int));
            assert(bl.take(i + 1).last() == bl[i as int]);
        }
        i = i + 1;
    }
    proof {
        assert(bl.take(bs@.len() as int) =~= bl);
        if n.data.condition is None {
            assert("# 判断内容\n\n"@ + Seq::<char>::empty() =~= "# 判断内容\n\n"@);
        }
    }
    s
}

/// Where the task text of a node that is not a decision comes from.
#[derive(Debug)]
pub enum NodeBody {
    /// The text itself (a process node's inline content, or why there is none).
    Text(String),
    /// The file, relative to the project root, that holds the task.
    File(String),
}

/// Where the task text of `n` comes from: a process node carries it inline; any other
/// node names a file, and a node that names none gets a message saying so.
pub open spec fn node_body_of(n: Node) -> (bool, Seq<char>) {
    if n.node_type@ == "process"@ {
        match n.data.content {
            Some(c) => (true, c@),
            None => (true, "process 节点 "@ + n.data.label@ + " 缺少 content"@),
        }
    } else {
        let p = match n.data.node_ref_path {
            Some(p) => p@,
            None => seq![],
        };
        if p.len() == 0 {
            (true, "节点 "@ + n.data.label@ + " 缺少 nodeRefPath"@)
        } else {
            (false, p)
        }
    }
}

/// Where the task text of `n` comes from (see `node_body_of`): `Text` for `(true, _)`,
/// `File` for `(false, _)`.
pub fn node_body(n: &Node) -> (r: NodeBody)
    ensures
        match r {
            NodeBody::Text(t) => node_body_of(*n).0 && t@ == node_body_of(*n).1,
            NodeBody::File(p) => !node_body_of(*n).0 && p@ == node_body_of(*n).1,
        },
{
    if str_eq(n.node_type.as_str(), "process") {
        return match &n.data.content {
            Some(c) => NodeBody::Text(c.clone()),
            None => {
                let mut m = String::from_str("process 节点 ");
                push_str(&mut m, n.data.label.as_str());
                push_str(&mut m, " 缺少 content");
                NodeBody::Text(m)
            },
        };
    }
    let p = match &n.data.node_ref_path {
        Some(p) => p.clone(),
        None => String::new(),
    };
    if p.as_str().unicode_len() == 0 {
        let mut m = String::from_str("节点 ");
        push_str(&mut m, n.data.label.as_str());
        push_str(&mut m, " 缺少 nodeRefPath");
        return NodeBody::Text(m);
    }
    NodeBody::File(p)
}

/// The `status` table of an instance.
pub open spec fn status_table(s: StateView) -> Seq<char> {
    "| 字段 | 值 |\n|------|-----|\n| 实例 | "@ + s.instance_id + " |\n| 工作流 | "@ + s.workflow
        + " |\n| 状态 | "@ + crate::state::status_name(s.status) + " |\n| 当前节点 | "@
        + s.current_name + " ("@ + s.current_invoke + ") |\n| 步数 | "@ + crate::text::decimal(
        s.step as nat,
    ) + " |\n| 环回次数 | "@ + crate::text::decimal(s.loop_count as nat) + " |\n| 失败重试 | "@
        + crate::text::decimal(s.retry_count as nat) + " |\n| 限制 | max_steps="@
        + crate::text::decimal(s.limits.max_steps as nat) + " / max_loop="@ + crate::text::decimal(
        s.limits.max_loop as nat,
    ) + " / max_retry="@ + crate::text::decimal(s.limits.max_retry as nat) + " |"@
}

/// The `status` table of an instance (see `status_table`).
pub fn status_text(state: &ProcessState) -> (r: String)
    ensures
        r@ == status_table(state@),
{
    let mut s = String::from_str("| 字段 | 值 |\n|------|-----|\n| 实例 | ");
    push_str(&mut s, state.instance_id.as_str());
    push_str(&mut s, " |\n| 工作流 | ");
    push_str(&mut s, state.workflow.as_str());
    push_str(&mut s, " |\n| 状态 | ");
    push_str(&mut s, state.status.as_str());
    push_str(&mut s, " |\n| 当前节点 | ");
    push_str(&mut s, state.current_name.as_str());
    push_str(&mut s, " (");
    push_str(&mut s, state.current_invoke.as_str());
    push_str(&mut s, ") |\n| 步数 | ");
    push_decimal(&mut s, state.step);
    push_str(&mut s, " |\n| 环回次数 | ");
    push_decimal(&mut s, state.loop_count);
    push_str(&mut s, " |\n| 失败重试 | ");
    push_decimal(&mut s, state.retry_count);
    push_str(&mut s, " |\n| 限制 | max_steps=");
    push_decimal(&mut s, state.limits.max_steps);
    push_str(&mut s, " / max_loop=");
    push_decimal(&mut s, state.limits.max_loop);
    push_str(&mut s, " / max_retry=");
    push_decimal(&mut s, state.limits.max_retry);
    push_str(&mut s, " |");
    proof {
        assert(s@ =~= status_table(state@));
    }
    s
}

} // verus!

verus! {

// ---------------------------------------------------------------------------
// Listing workflows and instances

/// The answer of `list`: the workflow names in their sorted order, one per line.
pub open spec fn workflow_list_of(names: Seq<Seq<char>>, text: Seq<char>) -> bool {
    exists|s: Seq<Seq<char>>|
        crate::order::sorted(s) && s.to_multiset() == names.to_multiset() && text == join(s, "\n"@)
}

/// The answer of `list` for the workflows `names` (see `workflow_list_of`).
pub fn workflow_list(names: &Vec<String>) -> (r: String)
    ensures
        workflow_list_of(views(names@), r@),
{
    let s = crate::order::sort_strings(names);
    join_strings(&s, "\n")
}

/// A workflow's instance ids in the order `instance list` shows them (see `order::sorted`).
pub fn instance_order(ids: &Vec<String>) -> (r: Vec<String>)
    ensures
        crate::order::sorted(views(r@)),
        views(r@).to_multiset() == views(ids@).to_multiset(),
{
    crate::order::sort_strings(ids)
}

/// The row of `instance list` for instance `id` of workflow `wf` in status `st`.
pub open spec fn instance_row(id: Seq<char>, wf: Seq<char>, st: Seq<char>) -> Seq<char> {
    "| "@ + id + " | "@ + wf + " | "@ + st + " |\n"@
}

/// The table of `instance list`: its header, then one row per `(id, workflow, status)`.
pub open spec fn instance_table_of(rows: Seq<(String, String, String)>) -> Seq<char> {
    "| 实例 | 工作流 | 状态 |\n|------|--------|------|\n"@ + crate::executor::concat_all(
        Seq::new(rows.len(), |i: int| instance_row(rows[i].0@, rows[i].1@, rows[i].2@)),
    )
}

/// The table of `instance list` (see `instance_table_of`).
pub fn instance_table(rows: &[(String, String, String)]) -> (r: String)
    ensures
        r@ == instance_table_of(rows@),
{
    let mut s = String::from_str("| 实例 | 工作流 | 状态 |\n|------|--------|------|\n");
    let ghost head = s@;
    let ghost ls = Seq::new(rows@.len(), |i: int| instance_row(rows@[i].0@, rows@[i].1@, rows@[i].2@));
    let mut i: usize = 0;
    while i < rows.len()
        invariant
            i <= rows@.len(),
            ls == Seq::new(rows@.len(), |i: int| instance_row(rows@[i].0@, rows@[i].1@, rows@[i].2@)),
            s@ == head + concat_all(ls.take(i as int)),
        decreases rows.len() - i,
    {
        let ghost before = s@;
        let row = &rows[i];
        push_str(&mut s, "| ");
        push_str(&mut s, row.0.as_str());
        push_str(&mut s, " | ");
        push_str(&mut s, row.1.as_str());
        push_str(&mut s, " | ");
        push_str(&mut s, row.2.as_str());
        push_str(&mut s, " |\n");
        proof {
            assert(s@ =~= before + ls[i as int]);
            assert(ls.take(i + 1).drop_last() =~= ls.take(i as int));
            assert(ls.take(i + 1).last() == ls[i as int]);
        }
        i = i + 1;
    }
    proof {
        assert(ls.take(rows@.len() as int) =~= ls);
    }
    s
}

} // verus!

verus! {

// ---------------------------------------------------------------------------
// The commands at the current time

/// Takes `next` now: the step is stamped with the current local time.
pub fn take_next(pf: &mut ProcessFile, flow: &Flow, artifact_written: bool) -> (r: Step)
    requires
        old(pf).state.step < usize::MAX,
    ensures
        exists|now: Seq<char>|
            #![trigger crate::clock::is_trace_stamp(now)]
            crate::clock::is_trace_stamp(now) && carries_out(next_outcome(old(pf).state@, *flow, artifact_written), *old(pf), *final(pf), r, *flow, "next"@, now),
{
    let now = crate::clock::trace_timestamp();
    next_step(pf, flow, artifact_written, now.as_str())
}

/// Takes `complete` now: the next execution gets a fresh id and the step the current
/// local time.
pub fn take_complete(pf: &mut ProcessFile, flow: &Flow) -> (r: Step)
    requires
        old(pf).state.status == Status::Executing,
    ensures
        exists|stamp: Seq<char>, ms: nat, now: Seq<char>|
            #![trigger crate::clock::invoke_id(stamp, ms), crate::clock::is_trace_stamp(now)]
            ms < 2000 && crate::clock::shows_time(stamp, crate::clock::invoke_stamp_pattern())
                && crate::clock::is_trace_stamp(now) && carries_out(
                complete_outcome(old(pf).state@, *flow, crate::clock::invoke_id(stamp, ms)),
                *old(pf),
                *final(pf),
                r,
                *flow,
                "complete"@,
                now,
            ),
{
    let now = crate::clock::trace_timestamp();
    let inv = crate::clock::gen_invoke_id();
    complete_step(pf, flow, inv.as_str(), now.as_str())
}

/// Takes `fail` now: the retry gets a fresh execution id and the step the current local
/// time.
pub fn take_fail(pf: &mut ProcessFile, flow: &Flow) -> (r: Step)
    requires
        old(pf).state.status == Status::Executing,
        old(pf).state.retry_count < usize::MAX,
    ensures
        exists|stamp: Seq<char>, ms: nat, now: Seq<char>|
            #![trigger crate::clock::invoke_id(stamp, ms), crate::clock::is_trace_stamp(now)]
            ms < 2000 && crate::clock::shows_time(stamp, crate::clock::invoke_stamp_pattern())
                && crate::clock::is_trace_stamp(now) && carries_out(
                fail_outcome(old(pf).state@, crate::clock::invoke_id(stamp, ms)),
                *old(pf),
                *final(pf),
                r,
                *flow,
                "fail"@,
                now,
            ),
{
    let now = crate::clock::trace_timestamp();
    let inv = crate::clock::gen_invoke_id();
    fail_step(pf, flow, inv.as_str(), now.as_str())
}

/// Takes `choose` now: the next execution gets a fresh id and the step the current
/// local time.
pub fn take_choose(pf: &mut ProcessFile, flow: &Flow, branch: &str) -> (r: Step)
    requires
        old(pf).state.status == Status::AwaitingChoice,
        old(pf).state.loop_count < usize::MAX,
        choose_detail_of(*flow, old(pf).state@, branch@, None) is Ok,
    ensures
        exists|stamp: Seq<char>, ms: nat, now: Seq<char>|
            #![trigger crate::clock::invoke_id(stamp, ms), crate::clock::is_trace_stamp(now)]
            ms < 2000 && crate::clock::shows_time(stamp, crate::clock::invoke_stamp_pattern())
                && crate::clock::is_trace_stamp(now) && carries_out(
                choose_outcome(old(pf).state@, *flow, branch@, crate::clock::invoke_id(stamp, ms)),
                *old(pf),
                *final(pf),
                r,
                *flow,
                "choose"@,
                now,
            ),
{
    let now = crate::clock::trace_timestamp();
    let inv = crate::clock::gen_invoke_id();
    choose_step(pf, flow, branch, inv.as_str(), now.as_str())
}

} // verus!

verus! {

/// A chart id is safe for mermaid: as long as the text it stands for, made only of
/// alphanumeric characters and `_`, and left as it is when taken again.
pub proof fn law_chart_id_safe(s: Seq<char>)
    ensures
        chart_id(s).len() == s.len(),
        forall|i: int| 0 <= i < s.len() ==> is_alnum(#[trigger] chart_id(s)[i]) || chart_id(s)[i] == '_',
        chart_id(chart_id(s)) == chart_id(s),
{
    assert(chart_id(chart_id(s)) =~= chart_id(s));
}

proof fn lemma_coloured_once(flow: Flow, state: ProcessState, k: int)
    requires
        0 <= k <= flow.nodes@.len(),
    ensures
        names_with(flow, state, Progress::Done, k).len() + names_with(flow, state, Progress::Current, k).len()
            + names_with(flow, state, Progress::Pending, k).len() == k,
    decreases k,
{
    if k > 0 {
        lemma_coloured_once(flow, state, k - 1);
    }
}

/// The chart colours every node of the flow once: done, current or pending.
pub proof fn law_every_node_coloured_once(flow: Flow, state: ProcessState)
    ensures
        ({
            let n = flow.nodes@.len() as int;
            names_with(flow, state, Progress::Done, n).len() + names_with(flow, state, Progress::Current, n).len()
                + names_with(flow, state, Progress::Pending, n).len() == n
        }),
{
    lemma_coloured_once(flow, state, flow.nodes@.len() as int);
}

} // verus!

verus! {

/// The log lines a carried-out step appends to `trace.jsonl`: its line, if it has one.
pub open spec fn logged(step: Step) -> Seq<TraceLogEntry> {
    match step.log {
        Some(l) => seq![l],
        None => seq![],
    }
}

/// The trace of process.md follows `trace.jsonl`: when the trace is the replay of the log
/// before a command, it is the replay of the log with the command's line after it.
pub proof fn law_trace_follows_log(
    o: Outcome,
    old_pf: ProcessFile,
    new_pf: ProcessFile,
    step: Step,
    flow: Flow,
    cmd: Seq<char>,
    now: Seq<char>,
    log: Seq<TraceLogEntry>,
)
    requires
        carries_out(o, old_pf, new_pf, step, flow, cmd, now),
        trace_view(old_pf.trace@) == crate::state::rebuilt(log),
    ensures
        trace_view(new_pf.trace@) == crate::state::rebuilt(log + logged(step)),
{
    match o.record {
        Some(rec) => {
            let l = step.log->0;
            let all = log + logged(step);
            assert(all.drop_last() =~= log);
            assert(all.last() == l);
            assert(crate::state::entry_event(l) == Some(event_of(rec, now)));
        },
        None => {
            assert(log + logged(step) =~= log);
        },
    }
}

} // verus!

verus! {

proof fn lemma_names_with_has(flow: Flow, state: ProcessState, p: Progress, k: int, j: int)
    requires
        0 <= j < k <= flow.nodes@.len(),
        progress_of(state, flow.nodes@[j]) == p,
    ensures
        names_with(flow, state, p, k).contains(chart_name(flow, flow.nodes@[j].id@)),
    decreases k,
{
    let r = names_with(flow, state, p, k - 1);
    if j == k - 1 {
        assert(names_with(flow, state, p, k) == r.push(chart_name(flow, flow.nodes@[j].id@)));
        assert(names_with(flow, state, p, k)[r.len() as int] == chart_name(flow, flow.nodes@[j].id@));
    } else {
        lemma_names_with_has(flow, state, p, k - 1, j);
        let w = chart_name(flow, flow.nodes@[j].id@);
        let m = choose|m: int| 0 <= m < r.len() && r[m] == w;
        if progress_of(state, flow.nodes@[k - 1]) == p {
            assert(names_with(flow, state, p, k)[m] == w);
        }
    }
}

/// While an instance is not completed, the node it is working on is coloured current,
/// whether or not it was completed before (a loop back to it): the chart has a
/// `class ... current;` line that names it.
pub proof fn law_current_node_coloured_current(flow: Flow, state: ProcessState, i: int)
    requires
        state.status != Status::Completed,
        0 <= i < flow.nodes@.len(),
        flow.nodes@[i].node_type@ != "start"@,
        flow.nodes@[i].node_type@ != "end"@,
        flow.nodes@[i].data.label@ == state.current_name@,
    ensures
        progress_of(state, flow.nodes@[i]) == Progress::Current,
        names_with(flow, state, Progress::Current, flow.nodes@.len() as int).contains(
            chart_name(flow, flow.nodes@[i].id@),
        ),
        exists|names: Seq<Seq<char>>, pos: int|
            #![trigger crate::text::occurs_at(mermaid_chart(flow, state), "    class "@ + join(names, ","@) + " current;\n"@, pos)]
            names.contains(chart_name(flow, flow.nodes@[i].id@)) && crate::text::occurs_at(
                mermaid_chart(flow, state),
                "    class "@ + join(names, ","@) + " current;\n"@,
                pos,
            ),
{
    let n = flow.nodes@.len() as int;
    lemma_names_with_has(flow, state, Progress::Current, n, i);
    let nodes = flow.nodes@;
    let edges = flow.edges@;
    let cur = names_with(flow, state, Progress::Current, n);
    let line = "    class "@ + join(cur, ","@) + " current;\n"@;
    assert(cur.len() > 0);
    assert(class_line(cur, "current"@) =~= line) by {
        reveal_strlit(" ");
        reveal_strlit("current");
        reveal_strlit(";\n");
        reveal_strlit(" current;\n");
    }
    let x = "```mermaid\nflowchart TD\n\n"@ + concat_all(Seq::new(nodes.len(), |i: int| node_decl(flow, nodes[i])))
        + "\n"@ + concat_all(Seq::new(edges.len(), |i: int| edge_decl(flow, edges[i]))) + "\n"@
        + "    classDef done fill:#4caf50,color:#fff;\n"@
        + "    classDef current fill:#ff9800,color:#fff;\n"@
        + "    classDef pending fill:#f5f5f5,color:#333;\n\n"@ + class_line(
        names_with(flow, state, Progress::Done, n),
        "done"@,
    );
    let y = class_line(names_with(flow, state, Progress::Pending, n), "pending"@) + "```"@;
    let chart = mermaid_chart(flow, state);
    assert(chart == x + line + y);
    assert(chart.subrange(x.len() as int, (x.len() + line.len()) as int) =~= line);
    assert(crate::text::occurs_at(chart, line, x.len() as int));
}

} // verus!
