//! The instance as a state machine: the state each command leaves behind, and what every
//! command keeps.
use vstd::prelude::*;
use crate::executor::{
    accepts, add_once, choose_detail_of, choose_outcome, complete_outcome, fail_outcome,
    next_outcome, pending_artifact_of, Command, Outcome,
};
use crate::model::Flow;
use crate::state::{StateView, Status};

verus! {

/// The state that stays in process.md after a command decided `o` on `s`: the new state
/// when the file is written back, the old one otherwise.
pub open spec fn persisted(o: Outcome, s: StateView) -> StateView {
    if o.save {
        o.state
    } else {
        s
    }
}

/// The state after command `cmd` on `s`. A command the status does not accept changes
/// nothing, nor does `complete` without an artifact (`output` holding only whitespace)
/// or `choose` of a branch the decision does not have. `artifact_written` is what
/// `next` finds of the last execution's artifact; `invoke` is the id given to the next
/// execution.
pub open spec fn after(
    cmd: Command,
    s: StateView,
    flow: Flow,
    artifact_written: bool,
    output: Seq<char>,
    branch: Seq<char>,
    invoke: Seq<char>,
) -> StateView {
    if !accepts(cmd, s.status) {
        s
    } else {
        match cmd {
            Command::Next => persisted(next_outcome(s, flow, artifact_written), s),
            Command::Complete => if crate::text::trim(output).len() > 0 {
                persisted(complete_outcome(s, flow, invoke), s)
            } else {
                s
            },
            Command::Fail => persisted(fail_outcome(s, invoke), s),
            Command::Choose => if choose_detail_of(flow, s, branch, None) is Ok {
                persisted(choose_outcome(s, flow, branch, invoke), s)
            } else {
                s
            },
        }
    }
}

/// An instance that has not been aborted is within its three limits.
pub open spec fn within_limits(s: StateView) -> bool {
    s.status != Status::Aborted ==> {
        &&& s.step <= s.limits.max_steps
        &&& s.loop_count <= s.limits.max_loop
        &&& s.retry_count <= s.limits.max_retry
    }
}

/// No name occurs twice.
pub open spec fn no_duplicates(names: Seq<Seq<char>>) -> bool {
    forall|i: int, j: int| 0 <= i < j < names.len() ==> #[trigger] names[i] != #[trigger] names[j]
}

/// A completed or aborted instance is finished: every command leaves it as it is.
pub proof fn law_finished_instance_stays(
    cmd: Command,
    s: StateView,
    flow: Flow,
    artifact_written: bool,
    output: Seq<char>,
    branch: Seq<char>,
    invoke: Seq<char>,
)
    requires
        s.status == Status::Completed || s.status == Status::Aborted,
    ensures
        after(cmd, s, flow, artifact_written, output, branch, invoke) == s,
{
}

/// Every command keeps an instance within its limits (`max_steps`, `max_loop`,
/// `max_retry`) or aborts it, and no command changes the limits.
pub proof fn law_limits_kept(
    cmd: Command,
    s: StateView,
    flow: Flow,
    artifact_written: bool,
    output: Seq<char>,
    branch: Seq<char>,
    invoke: Seq<char>,
)
    requires
        within_limits(s),
    ensures
        within_limits(after(cmd, s, flow, artifact_written, output, branch, invoke)),
        after(cmd, s, flow, artifact_written, output, branch, invoke).limits == s.limits,
{
}

/// The step count and the loop count never go down; only `next` counts a step, by one,
/// and only `choose` counts a loop-back, by one.
pub proof fn law_counters_grow(
    cmd: Command,
    s: StateView,
    flow: Flow,
    artifact_written: bool,
    output: Seq<char>,
    branch: Seq<char>,
    invoke: Seq<char>,
)
    ensures
        ({
            let t = after(cmd, s, flow, artifact_written, output, branch, invoke);
            &&& t.step == s.step || (cmd == Command::Next && t.step == s.step + 1)
            &&& t.loop_count == s.loop_count || (cmd == Command::Choose && t.loop_count == s.loop_count + 1)
        }),
{
}

/// The list of completed nodes never names a node twice.
pub proof fn law_completed_has_no_duplicates(
    cmd: Command,
    s: StateView,
    flow: Flow,
    artifact_written: bool,
    output: Seq<char>,
    branch: Seq<char>,
    invoke: Seq<char>,
)
    requires
        no_duplicates(s.completed),
    ensures
        no_duplicates(after(cmd, s, flow, artifact_written, output, branch, invoke).completed),
{
    let c = s.completed;
    let x = s.current_name;
    if !c.contains(x) {
        let d = add_once(c, x);
        assert forall|i: int, j: int| 0 <= i < j < d.len() implies #[trigger] d[i] != #[trigger] d[j] by {
            if j == c.len() {
                assert(d[i] == c[i]);
            } else {
                assert(d[i] == c[i] && d[j] == c[j]);
            }
        }
    }
}

/// Which status each command can lead to: `next` starts a node (executing, or awaiting a
/// choice at a decision), finishes the instance at the end node, or aborts it; `complete`
/// makes it idle; `fail` and `choose` make it idle or abort it. A command that changes
/// nothing leaves the status as it was.
pub proof fn law_status_moves(
    cmd: Command,
    s: StateView,
    flow: Flow,
    artifact_written: bool,
    output: Seq<char>,
    branch: Seq<char>,
    invoke: Seq<char>,
)
    ensures
        ({
            let t = after(cmd, s, flow, artifact_written, output, branch, invoke).status;
            match cmd {
                Command::Next => t == s.status || (s.status == Status::Idle && (t == Status::Executing
                    || t == Status::AwaitingChoice || t == Status::Completed || t == Status::Aborted)),
                Command::Complete => t == s.status || (s.status == Status::Executing && t == Status::Idle),
                Command::Fail => t == s.status || (s.status == Status::Executing && (t == Status::Idle
                    || t == Status::Aborted)),
                Command::Choose => t == s.status || (s.status == Status::AwaitingChoice && (t
                    == Status::Idle || t == Status::Aborted)),
            }
        }),
{
}

/// `next` refuses to move on while the artifact of the last completed execution is
/// missing: the state stays as it was.
pub proof fn law_next_waits_for_artifact(s: StateView, flow: Flow)
    requires
        pending_artifact_of(s) is Some,
        flow.node_with_id(s.current) matches Some(n) && n.node_type@ != "end"@,
    ensures
        next_outcome(s, flow, false).state == s,
        !next_outcome(s, flow, false).save,
        next_outcome(s, flow, false).reply is Err,
{
}

/// A `complete` that moves on leaves the instance idle on the next node with its retry
/// count cleared, the finished node in the completed list, and the finished execution as
/// the one whose artifact the following `next` checks.
pub proof fn law_complete_moves_on(s: StateView, flow: Flow, invoke: Seq<char>)
    requires
        complete_outcome(s, flow, invoke).save,
    ensures
        ({
            let t = complete_outcome(s, flow, invoke).state;
            &&& t.status == Status::Idle
            &&& t.retry_count == 0
            &&& t.current_invoke == invoke
            &&& t.completed.contains(s.current_name)
            &&& pending_artifact_of(t) == Some((s.current_name, s.current_invoke))
            &&& crate::graph::route(flow, s.current, None) == Ok::<Seq<char>, Seq<char>>(t.current)
        }),
{
    let c = s.completed;
    if !c.contains(s.current_name) {
        assert(add_once(c, s.current_name)[c.len() as int] == s.current_name);
    }
}

/// A `choose` counts a loop-back exactly when the chosen branch leads to a node that has
/// already been completed, and moves the instance along that branch.
pub proof fn law_choose_counts_loop_back(s: StateView, flow: Flow, branch: Seq<char>, invoke: Seq<char>)
    requires
        choose_outcome(s, flow, branch, invoke).save,
    ensures
        ({
            let t = choose_outcome(s, flow, branch, invoke).state;
            let n = flow.node_with_id(s.current)->0;
            let bid = crate::find::first_elem(n.data.branches@, crate::executor::branch_named(branch))->0.id@;
            &&& t.loop_count == s.loop_count + if crate::graph::loops_back(
                flow,
                s.current,
                bid,
                add_once(s.completed, s.current_name),
            ) {
                1int
            } else {
                0int
            }
            &&& crate::graph::route(flow, s.current, Some(bid)) == Ok::<Seq<char>, Seq<char>>(t.current)
            &&& t.current_invoke == invoke
        }),
{
}

/// A new instance starts idle, within its limits, with nothing completed and no step
/// taken.
pub proof fn law_new_instance_starts_clean(
    flow: Flow,
    workflow: Seq<char>,
    instance_id: Seq<char>,
    input: Option<Seq<char>>,
    limits: crate::state::Limits,
    invoke: Seq<char>,
)
    requires
        crate::instance::initial_state_of(flow, workflow, instance_id, input, limits, invoke) is Ok,
    ensures
        ({
            let s = crate::instance::initial_state_of(flow, workflow, instance_id, input, limits, invoke)->Ok_0;
            &&& s.status == Status::Idle
            &&& s.step == 0 && s.loop_count == 0 && s.retry_count == 0
            &&& s.completed.len() == 0
            &&& within_limits(s)
            &&& no_duplicates(s.completed)
        }),
{
}

/// One command as the machine receives it, with what it gets from outside.
pub struct CommandInput {
    pub cmd: Command,
    pub artifact_written: bool,
    pub output: Seq<char>,
    pub branch: Seq<char>,
    pub invoke: Seq<char>,
}

/// The state after the commands `inputs`, taken in order from `s`.
pub open spec fn run(s: StateView, flow: Flow, inputs: Seq<CommandInput>) -> StateView
    decreases inputs.len(),
{
    if inputs.len() == 0 {
        s
    } else {
        let i = inputs.last();
        after(i.cmd, run(s, flow, inputs.drop_last()), flow, i.artifact_written, i.output, i.branch, i.invoke)
    }
}

/// Whatever commands an instance takes from its creation, it stays within its limits
/// unless aborted, and its completed list never names a node twice.
pub proof fn law_every_run_keeps_limits(
    flow: Flow,
    workflow: Seq<char>,
    instance_id: Seq<char>,
    input: Option<Seq<char>>,
    limits: crate::state::Limits,
    invoke: Seq<char>,
    inputs: Seq<CommandInput>,
)
    requires
        crate::instance::initial_state_of(flow, workflow, instance_id, input, limits, invoke) is Ok,
    ensures
        ({
            let s = crate::instance::initial_state_of(flow, workflow, instance_id, input, limits, invoke)->Ok_0;
            &&& within_limits(run(s, flow, inputs))
            &&& no_duplicates(run(s, flow, inputs).completed)
            &&& run(s, flow, inputs).limits == limits
        }),
    decreases inputs.len(),
{
    let s = crate::instance::initial_state_of(flow, workflow, instance_id, input, limits, invoke)->Ok_0;
    if inputs.len() > 0 {
        law_every_run_keeps_limits(flow, workflow, instance_id, input, limits, invoke, inputs.drop_last());
        let i = inputs.last();
        let p = run(s, flow, inputs.drop_last());
        law_limits_kept(i.cmd, p, flow, i.artifact_written, i.output, i.branch, i.invoke);
        law_completed_has_no_duplicates(i.cmd, p, flow, i.artifact_written, i.output, i.branch, i.invoke);
    }
}

} // verus!
