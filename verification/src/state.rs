//! The state of a workflow instance, its execution trace, and the text of `process.md`.
use vstd::prelude::*;
use crate::text::{
    chars_of, concat_lines, decimal, decimal_string, find_char, find_char_from, free_of, join,
    join_strings, lemma_concat_lines_push, lemma_decimal_digits, lemma_find_char_from,
    lemma_join_free, lemma_join_front, lemma_lines_of_concat, lemma_split_join, lemma_trim_padded,
    lemma_trim_stable, lines, lines_of, opt_view, padded, padded_string, plain_line, push_char,
    push_str, split, split_bounds, str_eq, string_from_range, trim, trim_bounds, trim_stable, views,
    is_ws, opt_str_view, chars_start_with, find_seq, join_range, skip_newlines, starts_with,
    lemma_concat_lines_append, lemma_concat_lines_join, lemma_join_append,
};

verus! {

/// Where an instance stands.
#[derive(Debug, Clone, Copy, PartialEq, Eq, Structural)]
pub enum Status {
    Idle,
    Executing,
    AwaitingChoice,
    Completed,
    Aborted,
}

/// The name a status is written under.
pub open spec fn status_name(s: Status) -> Seq<char> {
    match s {
        Status::Idle => "idle"@,
        Status::Executing => "executing"@,
        Status::AwaitingChoice => "awaiting_choice"@,
        Status::Completed => "completed"@,
        Status::Aborted => "aborted"@,
    }
}

impl Status {
    /// The name of this status (see `status_name`).
    pub fn as_str(&self) -> (r: &'static str)
        ensures
            r@ == status_name(*self),
    {
        match self {
            Status::Idle => "idle",
            Status::Executing => "executing",
            Status::AwaitingChoice => "awaiting_choice",
            Status::Completed => "completed",
            Status::Aborted => "aborted",
        }
    }
}

/// The three guards against runaway instances: total steps, loop-backs, and retries.
#[derive(Debug, Clone, Copy)]
pub struct Limits {
    pub max_steps: usize,
    pub max_loop: usize,
    pub max_retry: usize,
}

impl Default for Limits {
    fn default() -> (r: Self)
        ensures
            r.max_steps == 100,
            r.max_loop == 10,
            r.max_retry == 2,
    {
        Limits { max_steps: 100, max_loop: 10, max_retry: 2 }
    }
}

/// The state of one instance, as kept in the front matter of `process.md`.
#[derive(Debug)]
pub struct ProcessState {
    pub workflow: String,
    pub instance_id: String,
    pub initial_input: Option<String>,
    pub status: Status,
    pub current: String,
    pub current_name: String,
    pub current_invoke: String,
    pub step: usize,
    pub loop_count: usize,
    pub retry_count: usize,
    pub last_node: Option<String>,
    pub last_invoke: Option<String>,
    pub completed: Vec<String>,
    pub limits: Limits,
}

/// One row of the execution trace: one execution (`invoke`) of one node.
#[derive(Debug)]
pub struct TraceEvent {
    pub status: String,
    pub node: String,
    pub invoke: String,
    pub branch: Option<String>,
    pub time: String,
}

/// `process.md`: the state, the progress chart, and the execution trace.
#[derive(Debug)]
pub struct ProcessFile {
    pub state: ProcessState,
    pub mermaid: String,
    pub trace: Vec<TraceEvent>,
}

/// One line of `trace.jsonl`: a command, and for a step of the workflow the node,
/// execution, status and branch it concerns.
#[derive(Debug)]
pub struct TraceLogEntry {
    pub ts: String,
    pub command: String,
    pub node: Option<String>,
    pub invoke: Option<String>,
    pub status: Option<String>,
    pub branch: Option<String>,
}

} // verus!

verus! {

/// What a trace row says, as values.
pub struct EventView {
    pub status: Seq<char>,
    pub node: Seq<char>,
    pub invoke: Seq<char>,
    pub branch: Option<Seq<char>>,
    pub time: Seq<char>,
}

impl View for TraceEvent {
    type V = EventView;

    open spec fn view(&self) -> EventView {
        EventView {
            status: self.status@,
            node: self.node@,
            invoke: self.invoke@,
            branch: opt_view(self.branch),
            time: self.time@,
        }
    }
}

/// The rows of a trace, as values.
pub open spec fn trace_view(t: Seq<TraceEvent>) -> Seq<EventView> {
    t.map_values(|e: TraceEvent| e@)
}

/// The row is the execution `invoke` of node `node`.
pub open spec fn is_run(node: Seq<char>, invoke: Seq<char>) -> spec_fn(EventView) -> bool {
    |e: EventView| e.node == node && e.invoke == invoke
}

/// A trace holds at most one row per execution of a node.
pub open spec fn runs_distinct(t: Seq<EventView>) -> bool {
    forall|i: int, j: int|
        0 <= i < j < t.len() ==> !(#[trigger] t[i].node == #[trigger] t[j].node && t[i].invoke
            == t[j].invoke)
}

/// Records `ev` in the trace: the row of the same execution, if there is one, takes the
/// new status (and the new branch, where `ev` has one); otherwise `ev` is appended.
pub open spec fn upsert(t: Seq<EventView>, ev: EventView) -> Seq<EventView> {
    match crate::find::first(t, is_run(ev.node, ev.invoke)) {
        Some(i) => t.update(
            i,
            EventView {
                status: ev.status,
                branch: if ev.branch is Some {
                    ev.branch
                } else {
                    t[i].branch
                },
                ..t[i]
            },
        ),
        None => t.push(ev),
    }
}

/// Records each of `updates` in turn.
pub open spec fn merged(base: Seq<EventView>, updates: Seq<EventView>) -> Seq<EventView>
    decreases updates.len(),
{
    if updates.len() == 0 {
        base
    } else {
        upsert(merged(base, updates.drop_last()), updates.last())
    }
}

/// A copy of an optional string.
pub fn clone_opt(o: &Option<String>) -> (r: Option<String>)
    ensures
        opt_view(r) == opt_view(*o),
{
    match o {
        Some(s) => Some(s.clone()),
        None => None,
    }
}

/// Records `ev` in `trace` (see `upsert`).
pub fn upsert_event(trace: &mut Vec<TraceEvent>, ev: TraceEvent)
    ensures
        trace_view(final(trace)@) == upsert(trace_view(old(trace)@), ev@),
{
    let ghost tv = trace_view(trace@);
    let mut i: usize = 0;
    while i < trace.len()
        invariant
            i <= trace.len(),
            trace@ == old(trace)@,
            tv == trace_view(trace@),
            crate::find::first(tv, is_run(ev@.node, ev@.invoke)) == crate::find::first_from(
                tv,
                is_run(ev@.node, ev@.invoke),
                i as int,
            ),
        decreases trace.len() - i,
    {
        if trace[i].node == ev.node && trace[i].invoke == ev.invoke {
            assert(tv[i as int] == trace@[i as int]@);
            let old_branch = clone_opt(&trace[i].branch);
            let old_time = trace[i].time.clone();
            let e = TraceEvent {
                status: ev.status,
                node: ev.node,
                invoke: ev.invoke,
                branch: if ev.branch.is_some() {
                    ev.branch
                } else {
                    old_branch
                },
                time: old_time,
            };
            trace.set(i, e);
            proof {
                assert(trace_view(trace@) =~= upsert(tv, ev@));
            }
            return;
        }
        i = i + 1;
    }
    let ghost tv0 = tv;
    trace.push(ev);
    proof {
        assert(trace_view(trace@) =~= tv0.push(ev@));
    }
}

} // verus!

verus! {

/// The trace row that a log line records, if it names a node, an execution and a status.
pub open spec fn entry_event(e: TraceLogEntry) -> Option<EventView> {
    match (e.node, e.invoke, e.status) {
        (Some(n), Some(i), Some(s)) => Some(
            EventView { status: s@, node: n@, invoke: i@, branch: opt_view(e.branch), time: e.ts@ },
        ),
        _ => None,
    }
}

/// The trace that the log lines `entries` describe, replayed in order.
pub open spec fn rebuilt(entries: Seq<TraceLogEntry>) -> Seq<EventView>
    decreases entries.len(),
{
    if entries.len() == 0 {
        seq![]
    } else {
        let t = rebuilt(entries.drop_last());
        match entry_event(entries.last()) {
            Some(ev) => upsert(t, ev),
            None => t,
        }
    }
}

/// The trace described by the lines of `trace.jsonl`: one row per execution of a node,
/// holding the last status and branch logged for it and the time it was first logged.
pub fn reconstruct_trace_from_jsonl(entries: &[TraceLogEntry]) -> (r: Vec<TraceEvent>)
    ensures
        trace_view(r@) == rebuilt(entries@),
{
    let mut trace: Vec<TraceEvent> = Vec::new();
    let mut k: usize = 0;
    proof {
        assert(trace_view(trace@) =~= rebuilt(entries@.take(0)));
    }
    while k < entries.len()
        invariant
            k <= entries.len(),
            trace_view(trace@) == rebuilt(entries@.take(k as int)),
        decreases entries.len() - k,
    {
        let entry = &entries[k];
        proof {
            assert(entries@.take(k + 1).drop_last() =~= entries@.take(k as int));
            assert(entries@.take(k + 1).last() == entries@[k as int]);
        }
        match (&entry.node, &entry.invoke, &entry.status) {
            (Some(node), Some(invoke), Some(status)) => {
                let ev = TraceEvent {
                    status: status.clone(),
                    node: node.clone(),
                    invoke: invoke.clone(),
                    branch: clone_opt(&entry.branch),
                    time: entry.ts.clone(),
                };
                upsert_event(&mut trace, ev);
            },
            _ => {},
        }
        k = k + 1;
    }
    proof {
        assert(entries@.take(entries@.len() as int) =~= entries@);
    }
    trace
}

/// Records each of `updates`, in order, in `base` (see `upsert`).
pub fn merge_trace(base: &mut Vec<TraceEvent>, updates: Vec<TraceEvent>)
    ensures
        trace_view(final(base)@) == merged(trace_view(old(base)@), trace_view(updates@)),
{
    let ghost ups = trace_view(updates@);
    let ghost b0 = trace_view(base@);
    for ev in it: updates
        invariant
            it.seq() == updates@,
            ups == trace_view(updates@),
            b0 == trace_view(old(base)@),
            trace_view(base@) == merged(b0, ups.take(it.index() as int)),
    {
        proof {
            assert(ups.take(it.index() + 1).drop_last() =~= ups.take(it.index() as int));
            assert(ups.take(it.index() + 1).last() == ev@);
        }
        upsert_event(base, ev);
    }
    proof {
        assert(ups.take(ups.len() as int) =~= ups);
    }
}

} // verus!

verus! {

/// Recording a step keeps the trace at one row per execution of a node.
pub proof fn law_upsert_keeps_runs_distinct(t: Seq<EventView>, ev: EventView)
    requires
        runs_distinct(t),
    ensures
        runs_distinct(upsert(t, ev)),
{
    crate::find::lemma_first(t, is_run(ev.node, ev.invoke));
    let u = upsert(t, ev);
    match crate::find::first(t, is_run(ev.node, ev.invoke)) {
        Some(m) => {
            assert forall|i: int, j: int|
                0 <= i < j < u.len() implies !(#[trigger] u[i].node == #[trigger] u[j].node
                && u[i].invoke == u[j].invoke) by {
                assert(u[i].node == t[i].node && u[i].invoke == t[i].invoke);
                assert(u[j].node == t[j].node && u[j].invoke == t[j].invoke);
            }
        },
        None => {
            assert forall|i: int, j: int|
                0 <= i < j < u.len() implies !(#[trigger] u[i].node == #[trigger] u[j].node
                && u[i].invoke == u[j].invoke) by {
                if j == t.len() {
                    assert(!is_run(ev.node, ev.invoke)(t[i]));
                } else {
                    assert(u[i] == t[i] && u[j] == t[j]);
                }
            }
        },
    }
}

/// After a step is recorded, its execution has a row that holds the step's status,
/// and the rows of all other executions are as they were.
pub proof fn law_upsert_records(t: Seq<EventView>, ev: EventView)
    ensures
        exists|i: int|
            0 <= i < upsert(t, ev).len() && #[trigger] upsert(t, ev)[i].node == ev.node && upsert(
                t,
                ev,
            )[i].invoke == ev.invoke && upsert(t, ev)[i].status == ev.status,
        forall|i: int|
            0 <= i < t.len() && !(t[i].node == ev.node && t[i].invoke == ev.invoke) ==> #[trigger] upsert(
                t,
                ev,
            )[i] == t[i],
        upsert(t, ev).len() == t.len() || upsert(t, ev).len() == t.len() + 1,
{
    crate::find::lemma_first(t, is_run(ev.node, ev.invoke));
    match crate::find::first(t, is_run(ev.node, ev.invoke)) {
        Some(m) => {
            assert(upsert(t, ev)[m].node == ev.node);
        },
        None => {
            assert(upsert(t, ev)[t.len() as int] == ev);
        },
    }
}

/// Recording the same step twice leaves the trace as recording it once does.
pub proof fn law_upsert_idempotent(t: Seq<EventView>, ev: EventView)
    ensures
        upsert(upsert(t, ev), ev) == upsert(t, ev),
{
    let p = is_run(ev.node, ev.invoke);
    let u = upsert(t, ev);
    crate::find::lemma_first(t, p);
    match crate::find::first(t, p) {
        Some(m) => {
            assert forall|k: int| 0 <= k < m implies !p(#[trigger] u[k]) by {
                assert(u[k] == t[k]);
                assert(!p(t[k]));
            }
            crate::find::lemma_first_is(u, p, m);
            assert(upsert(u, ev) =~= u);
        },
        None => {
            let n = t.len() as int;
            assert forall|k: int| 0 <= k < n implies !p(#[trigger] u[k]) by {
                assert(u[k] == t[k]);
                assert(!p(t[k]));
            }
            crate::find::lemma_first_is(u, p, n);
            assert(upsert(u, ev) =~= u);
        },
    }
}

/// Replaying any log yields one row per execution of a node.
pub proof fn law_rebuilt_runs_distinct(entries: Seq<TraceLogEntry>)
    ensures
        runs_distinct(rebuilt(entries)),
    decreases entries.len(),
{
    if entries.len() > 0 {
        law_rebuilt_runs_distinct(entries.drop_last());
        if let Some(ev) = entry_event(entries.last()) {
            law_upsert_keeps_runs_distinct(rebuilt(entries.drop_last()), ev);
        }
    }
}

/// Merging updates into a trace with one row per execution keeps it so.
pub proof fn law_merged_runs_distinct(base: Seq<EventView>, updates: Seq<EventView>)
    requires
        runs_distinct(base),
    ensures
        runs_distinct(merged(base, updates)),
    decreases updates.len(),
{
    if updates.len() > 0 {
        law_merged_runs_distinct(base, updates.drop_last());
        law_upsert_keeps_runs_distinct(merged(base, updates.drop_last()), updates.last());
    }
}

} // verus!

verus! {

// ---------------------------------------------------------------------------
// The execution-trace table of process.md

/// The node column of a trace row: the node, and the branch in brackets after it.
pub open spec fn node_cell(e: EventView) -> Seq<char> {
    match e.branch {
        Some(b) => e.node + seq!['('] + b + seq![')'],
        None => e.node,
    }
}

/// A table line: its pieces between `|` bars.
pub open spec fn bar_line(parts: Seq<Seq<char>>) -> Seq<char> {
    join(parts, seq!['|'])
}

/// The pieces of the table line for row number `n` showing `e`.
pub open spec fn row_parts(n: nat, e: EventView) -> Seq<Seq<char>> {
    seq![
        seq![],
        padded(decimal(n)),
        padded(e.status),
        padded(node_cell(e)),
        padded(e.invoke),
        padded(e.time),
        seq![],
    ]
}

/// The pieces of the table's header line.
pub open spec fn header_parts() -> Seq<Seq<char>> {
    seq![
        seq![],
        padded("#"@),
        padded("状态"@),
        padded("节点"@),
        padded("节点执行ID"@),
        padded("执行时间"@),
        seq![],
    ]
}

/// The pieces of the line under the header.
pub open spec fn rule_parts() -> Seq<Seq<char>> {
    seq![seq![], "---"@, "------"@, "------"@, "-----------"@, "---------"@, seq![]]
}

/// The lines of the trace table of `t`: header, rule, then one numbered row per event.
pub open spec fn table_lines(t: Seq<EventView>) -> Seq<Seq<char>> {
    seq![bar_line(header_parts()), bar_line(rule_parts())] + Seq::new(
        t.len(),
        |i: int| bar_line(row_parts((i + 1) as nat, t[i])),
    )
}

/// The trace table of `t`, as written into process.md.
pub open spec fn trace_table(t: Seq<EventView>) -> Seq<char> {
    concat_lines(table_lines(t))
}

/// A line of `|`-separated pieces, followed by a newline.
fn push_bar_line(s: &mut String, parts: &Vec<String>)
    ensures
        final(s)@ == old(s)@ + bar_line(views(parts@)) + seq!['\n'],
{
    let line = join_strings(parts, "|");
    push_str(s, line.as_str());
    push_char(s, '\n');
    proof {
        assert(seq!['|'] == "|"@) by {
            reveal_strlit("|");
        }
    }
}

fn render_trace_row(s: &mut String, n: usize, e: &TraceEvent)
    ensures
        final(s)@ == old(s)@ + bar_line(row_parts(n as nat, e@)) + seq!['\n'],
{
    let mut parts: Vec<String> = Vec::new();
    parts.push(String::new());
    let num = decimal_string(n);
    parts.push(padded_string(num.as_str()));
    parts.push(padded_string(e.status.as_str()));
    let mut cell = e.node.clone();
    match &e.branch {
        Some(b) => {
            push_char(&mut cell, '(');
            push_str(&mut cell, b.as_str());
            push_char(&mut cell, ')');
        },
        None => {},
    }
    proof {
        if e.branch is Some {
            assert(cell@ =~= node_cell(e@));
        }
    }
    parts.push(padded_string(cell.as_str()));
    parts.push(padded_string(e.invoke.as_str()));
    parts.push(padded_string(e.time.as_str()));
    parts.push(String::new());
    proof {
        assert(views(parts@) =~= row_parts(n as nat, e@));
    }
    push_bar_line(s, &parts);
}

/// The trace as the table that process.md holds.
pub fn render_trace_table(trace: &[TraceEvent]) -> (r: String)
    ensures
        r@ == trace_table(trace_view(trace@)),
{
    let ghost tv = trace_view(trace@);
    let mut s = String::new();
    let mut head: Vec<String> = Vec::new();
    head.push(String::new());
    head.push(padded_string("#"));
    head.push(padded_string("状态"));
    head.push(padded_string("节点"));
    head.push(padded_string("节点执行ID"));
    head.push(padded_string("执行时间"));
    head.push(String::new());
    proof {
        assert(views(head@) =~= header_parts());
    }
    push_bar_line(&mut s, &head);
    let mut rule: Vec<String> = Vec::new();
    rule.push(String::new());
    rule.push(String::from_str("---"));
    rule.push(String::from_str("------"));
    rule.push(String::from_str("------"));
    rule.push(String::from_str("-----------"));
    rule.push(String::from_str("---------"));
    rule.push(String::new());
    proof {
        assert(views(rule@) =~= rule_parts());
    }
    push_bar_line(&mut s, &rule);
    proof {
        let ls = table_lines(tv);
        lemma_concat_lines_push(Seq::<Seq<char>>::empty(), ls[0]);
        lemma_concat_lines_push(seq![ls[0]], ls[1]);
        assert(seq![ls[0]].push(ls[1]) =~= ls.take(2));
        assert(Seq::<Seq<char>>::empty().push(ls[0]) =~= seq![ls[0]]);
        assert(concat_lines(Seq::<Seq<char>>::empty()) =~= Seq::<char>::empty());
        assert(s@ =~= concat_lines(ls.take(2)));
    }
    let mut i: usize = 0;
    while i < trace.len()
        invariant
            i <= trace.len(),
            tv == trace_view(trace@),
            s@ == concat_lines(table_lines(tv).take(i + 2)),
        decreases trace.len() - i,
    {
        render_trace_row(&mut s, i + 1, &trace[i]);
        proof {
            let ls = table_lines(tv);
            assert(ls[i + 2] == bar_line(row_parts((i + 1) as nat, tv[i as int])));
            assert(tv[i as int] == trace@[i as int]@);
            lemma_concat_lines_push(ls.take(i + 2), ls[i + 2]);
            assert(ls.take(i + 2).push(ls[i + 2]) =~= ls.take(i + 3));
        }
        i = i + 1;
    }
    proof {
        assert(table_lines(tv).take(trace.len() + 2) =~= table_lines(tv));
    }
    s
}

} // verus!

verus! {

/// The node and branch a node cell names: `node(branch)` when the cell has a `(` and
/// ends with `)`, the whole cell and no branch otherwise.
pub open spec fn node_parts(cell: Seq<char>) -> (Seq<char>, Option<Seq<char>>) {
    match find_char_from(cell, '(', 0) {
        Some(open) => if cell.len() > 0 && cell.last() == ')' && open < cell.len() - 1 {
            (cell.subrange(0, open), Some(cell.subrange(open + 1, cell.len() - 1)))
        } else {
            (cell, None)
        },
        None => (cell, None),
    }
}

/// The trace row a table line holds, if it is a numbered row of at least five cells.
pub open spec fn parse_row(line: Seq<char>) -> Option<EventView> {
    let l = trim(line);
    if !(l.len() > 0 && l[0] == '|') {
        None
    } else {
        let cells = split(l, '|');
        if cells.len() < 6 {
            None
        } else {
            let num = trim(cells[1]);
            if num.len() == 0 || num == "#"@ || num[0] == '-' {
                None
            } else {
                let np = node_parts(trim(cells[3]));
                Some(
                    EventView {
                        status: trim(cells[2]),
                        node: np.0,
                        invoke: trim(cells[4]),
                        branch: np.1,
                        time: trim(cells[5]),
                    },
                )
            }
        }
    }
}

/// The rows that the lines `ls` hold, in order.
pub open spec fn parsed_rows(ls: Seq<Seq<char>>) -> Seq<EventView>
    decreases ls.len(),
{
    if ls.len() == 0 {
        seq![]
    } else {
        let r = parsed_rows(ls.drop_last());
        match parse_row(ls.last()) {
            Some(e) => r.push(e),
            None => r,
        }
    }
}

/// The trace that a trace table in `text` describes.
pub open spec fn parse_table(text: Seq<char>) -> Seq<EventView> {
    parsed_rows(lines(text))
}

/// The node and the branch written in a node cell.
fn parse_node_cell(cell: &str) -> (r: (String, Option<String>))
    ensures
        r.0@ == node_parts(cell@).0,
        opt_view(r.1) == node_parts(cell@).1,
{
    let v = chars_of(cell);
    match find_char(&v, '(', 0) {
        Some(open) => {
            if v.len() > 0 && v[v.len() - 1] == ')' && open < v.len() - 1 {
                let node = string_from_range(&v, 0, open);
                let branch = string_from_range(&v, open + 1, v.len() - 1);
                return (node, Some(branch));
            }
            (String::from_str(cell), None)
        },
        None => (String::from_str(cell), None),
    }
}

/// The trimmed text of `v[lo..hi]`.
fn trimmed_range(v: &Vec<char>, lo: usize, hi: usize) -> (r: String)
    requires
        lo <= hi <= v.len(),
    ensures
        r@ == trim(v@.subrange(lo as int, hi as int)),
{
    let (a, b) = trim_bounds(v, lo, hi);
    string_from_range(v, a, b)
}

/// The row a table line holds, if any (see `parse_row`).
fn parse_trace_line(line: &str) -> (r: Option<TraceEvent>)
    ensures
        match (r, parse_row(line@)) {
            (Some(e), Some(p)) => e@ == p,
            (None, None) => true,
            _ => false,
        },
{
    let raw = chars_of(line);
    let (a, b) = trim_bounds(&raw, 0, raw.len());
    proof {
        assert(raw@.subrange(0, raw@.len() as int) =~= raw@);
    }
    if a == b || raw[a] != '|' {
        return None;
    }
    let l = string_from_range(&raw, a, b);
    let v = chars_of(l.as_str());
    let cells = split_bounds(&v, '|');
    if cells.len() < 6 {
        return None;
    }
    let num = trimmed_range(&v, cells[1].0, cells[1].1);
    let num_chars = chars_of(num.as_str());
    if num_chars.len() == 0 || str_eq(num.as_str(), "#") || num_chars[0] == '-' {
        return None;
    }
    let status = trimmed_range(&v, cells[2].0, cells[2].1);
    let cell = trimmed_range(&v, cells[3].0, cells[3].1);
    let invoke = trimmed_range(&v, cells[4].0, cells[4].1);
    let time = trimmed_range(&v, cells[5].0, cells[5].1);
    let (node, branch) = parse_node_cell(cell.as_str());
    Some(TraceEvent { status, node, invoke, branch, time })
}

/// The rows of the trace table in `text`: every line that, trimmed, starts with `|`,
/// has at least five cells, and whose first cell is a row number.
pub fn parse_trace_table(text: &str) -> (r: Vec<TraceEvent>)
    ensures
        trace_view(r@) == parse_table(text@),
{
    let ls = lines_of(text);
    let ghost lv = views(ls@);
    let mut r: Vec<TraceEvent> = Vec::new();
    let mut i: usize = 0;
    proof {
        assert(trace_view(r@) =~= parsed_rows(lv.take(0)));
    }
    while i < ls.len()
        invariant
            i <= ls.len(),
            lv == views(ls@),
            trace_view(r@) == parsed_rows(lv.take(i as int)),
        decreases ls.len() - i,
    {
        proof {
            assert(lv.take(i + 1).drop_last() =~= lv.take(i as int));
            assert(lv.take(i + 1).last() == ls@[i as int]@);
        }
        match parse_trace_line(ls[i].as_str()) {
            Some(e) => {
                let ghost before = trace_view(r@);
                r.push(e);
                proof {
                    assert(trace_view(r@) =~= before.push(e@));
                }
            },
            None => {},
        }
        i = i + 1;
    }
    proof {
        assert(lv.take(ls.len() as int) =~= lv);
    }
    r
}

} // verus!

verus! {

/// A field that the trace table carries unchanged: no whitespace at its ends, and
/// neither a `|` nor a line break in it.
pub open spec fn writable_field(x: Seq<char>) -> bool {
    trim_stable(x) && free_of(x, '|') && free_of(x, '\n')
}

/// A trace row that the table carries unchanged: plain fields, and a node name without
/// `(`, so that the branch written after it can be told apart.
pub open spec fn event_writable(e: EventView) -> bool {
    &&& writable_field(e.status)
    &&& writable_field(e.node)
    &&& writable_field(e.invoke)
    &&& writable_field(e.time)
    &&& free_of(e.node, '(')
    &&& match e.branch {
        Some(b) => free_of(b, '|') && free_of(b, '\n'),
        None => true,
    }
}

proof fn lemma_padded_free(x: Seq<char>, c: char)
    requires
        free_of(x, c),
        c != ' ',
    ensures
        free_of(padded(x), c),
{
    let p = padded(x);
    assert forall|k: int| 0 <= k < p.len() implies p[k] != c by {
        if k > 0 && k < p.len() - 1 {
            assert(p[k] == x[k - 1]);
        }
    }
}

proof fn lemma_bar_line_ends(parts: Seq<Seq<char>>)
    requires
        parts.len() >= 2,
        parts[0].len() == 0,
        parts.last().len() == 0,
    ensures
        bar_line(parts).len() > 0,
        bar_line(parts)[0] == '|',
        bar_line(parts).last() == '|',
{
    lemma_join_front(parts, seq!['|']);
    let j = bar_line(parts);
    assert(j == parts[0] + seq!['|'] + join(parts.drop_first(), seq!['|']));
    assert(j[0] == '|');
    assert(j == join(parts.drop_last(), seq!['|']) + seq!['|'] + parts.last());
    assert(j.last() == '|');
}

proof fn lemma_node_cell(e: EventView)
    requires
        event_writable(e),
    ensures
        trim_stable(node_cell(e)),
        free_of(node_cell(e), '|'),
        free_of(node_cell(e), '\n'),
        node_parts(node_cell(e)) == (e.node, e.branch),
{
    let cell = node_cell(e);
    let n = e.node;
    lemma_find_char_from(n, '(', 0);
    match e.branch {
        Some(b) => {
            assert(cell.len() == n.len() + b.len() + 2);
            assert(cell[n.len() as int] == '(');
            assert forall|k: int| 0 <= k < n.len() implies cell[k] != '(' by {
                assert(cell[k] == n[k]);
            }
            lemma_find_char_from(cell, '(', 0);
            assert(find_char_from(cell, '(', 0) == Some(n.len() as int)) by {
                match find_char_from(cell, '(', 0) {
                    Some(j) => {
                        if j < n.len() {
                            assert(cell[j] == n[j]);
                        }
                    },
                    None => {},
                }
            }
            assert(cell.last() == ')');
            assert(cell.subrange(0, n.len() as int) =~= n);
            assert(cell.subrange(n.len() + 1 as int, cell.len() - 1) =~= b);
            assert forall|k: int| 0 <= k < cell.len() implies cell[k] != '|' && cell[k] != '\n' by {
                if k < n.len() {
                    assert(cell[k] == n[k]);
                } else if k > n.len() && k < cell.len() - 1 {
                    assert(cell[k] == b[k - n.len() - 1]);
                }
            }
            if n.len() > 0 {
                assert(cell[0] == n[0]);
            }
            assert(!is_ws('(') && !is_ws(')'));
        },
        None => {
            assert(cell == n);
        },
    }
}

proof fn lemma_decimal_field(n: nat)
    ensures
        writable_field(decimal(n)),
        decimal(n).len() > 0,
        decimal(n)[0] != '-',
        decimal(n) != "#"@,
{
    lemma_decimal_digits(n);
    let d = decimal(n);
    assert(!is_ws(d[0]) && !is_ws(d.last())) by {
        assert('0' <= d[0] <= '9');
        assert('0' <= d[d.len() - 1] <= '9');
    }
    assert forall|k: int| 0 <= k < d.len() implies d[k] != '|' && d[k] != '\n' by {
        assert('0' <= d[k] <= '9');
    }
    reveal_strlit("#");
    if d == "#"@ {
        assert('0' <= d[0] <= '9');
    }
}

/// A row line of the table parses back to the row it shows.
proof fn lemma_row_line(n: nat, e: EventView)
    requires
        event_writable(e),
    ensures
        plain_line(bar_line(row_parts(n, e))),
        parse_row(bar_line(row_parts(n, e))) == Some(e),
{
    let parts = row_parts(n, e);
    let l = bar_line(parts);
    lemma_node_cell(e);
    lemma_decimal_field(n);
    assert forall|i: int| 0 <= i < parts.len() implies free_of(#[trigger] parts[i], '|') && free_of(
        parts[i],
        '\n',
    ) by {
        if i == 1 {
            lemma_padded_free(decimal(n), '|');
            lemma_padded_free(decimal(n), '\n');
        } else if i == 2 {
            lemma_padded_free(e.status, '|');
            lemma_padded_free(e.status, '\n');
        } else if i == 3 {
            lemma_padded_free(node_cell(e), '|');
            lemma_padded_free(node_cell(e), '\n');
        } else if i == 4 {
            lemma_padded_free(e.invoke, '|');
            lemma_padded_free(e.invoke, '\n');
        } else if i == 5 {
            lemma_padded_free(e.time, '|');
            lemma_padded_free(e.time, '\n');
        }
    }
    lemma_join_free(parts, seq!['|'], '\n');
    lemma_bar_line_ends(parts);
    assert(plain_line(l));
    assert(trim_stable(l)) by {
        assert(!is_ws('|'));
    }
    lemma_trim_stable(l);
    lemma_split_join(parts, '|');
    lemma_trim_padded(decimal(n));
    lemma_trim_padded(e.status);
    lemma_trim_padded(node_cell(e));
    lemma_trim_padded(e.invoke);
    lemma_trim_padded(e.time);
}

/// The header and the rule under it hold no row.
proof fn lemma_head_lines()
    ensures
        plain_line(bar_line(header_parts())),
        parse_row(bar_line(header_parts())) is None,
        plain_line(bar_line(rule_parts())),
        parse_row(bar_line(rule_parts())) is None,
{
    reveal_strlit("#");
    reveal_strlit("状态");
    reveal_strlit("节点");
    reveal_strlit("节点执行ID");
    reveal_strlit("执行时间");
    reveal_strlit("---");
    reveal_strlit("------");
    reveal_strlit("-----------");
    reveal_strlit("---------");
    let h = header_parts();
    let r = rule_parts();
    assert forall|i: int| 0 <= i < h.len() implies free_of(#[trigger] h[i], '|') && free_of(
        h[i],
        '\n',
    ) by {
        if i > 0 && i < 6 {
            let x = if i == 1 {
                "#"@
            } else if i == 2 {
                "状态"@
            } else if i == 3 {
                "节点"@
            } else if i == 4 {
                "节点执行ID"@
            } else {
                "执行时间"@
            };
            assert(h[i] == padded(x));
            lemma_padded_free(x, '|');
            lemma_padded_free(x, '\n');
        }
    }
    assert forall|i: int| 0 <= i < r.len() implies free_of(#[trigger] r[i], '|') && free_of(
        r[i],
        '\n',
    ) by {}
    lemma_join_free(h, seq!['|'], '\n');
    lemma_join_free(r, seq!['|'], '\n');
    lemma_bar_line_ends(h);
    lemma_bar_line_ends(r);
    assert(!is_ws('|'));
    lemma_trim_stable(bar_line(h));
    lemma_trim_stable(bar_line(r));
    lemma_split_join(h, '|');
    lemma_split_join(r, '|');
    lemma_trim_padded("#"@);
    lemma_trim_stable("---"@);
}

proof fn lemma_parsed_prefix(t: Seq<EventView>, k: int)
    requires
        0 <= k <= t.len(),
        forall|i: int| 0 <= i < t.len() ==> event_writable(#[trigger] t[i]),
    ensures
        parsed_rows(table_lines(t).take(k + 2)) == t.take(k),
    decreases k,
{
    let ls = table_lines(t);
    if k == 0 {
        lemma_head_lines();
        assert(ls[0] == bar_line(header_parts()));
        assert(ls[1] == bar_line(rule_parts()));
        let one = seq![ls[0]];
        assert(one.drop_last() =~= Seq::<Seq<char>>::empty());
        assert(one.last() == ls[0]);
        assert(parsed_rows(Seq::<Seq<char>>::empty()) == Seq::<EventView>::empty());
        assert(parsed_rows(one) == Seq::<EventView>::empty());
        assert(ls.take(2).drop_last() =~= one);
        assert(ls.take(2).last() == ls[1]);
        assert(parsed_rows(ls.take(2)) == Seq::<EventView>::empty());
        assert(t.take(0) =~= Seq::<EventView>::empty());
    } else {
        lemma_parsed_prefix(t, k - 1);
        assert(ls.take(k + 2).drop_last() =~= ls.take(k + 1));
        assert(ls.take(k + 2).last() == bar_line(row_parts(k as nat, t[k - 1])));
        lemma_row_line(k as nat, t[k - 1]);
        assert(t.take(k) =~= t.take(k - 1).push(t[k - 1]));
    }
}

/// Writing a trace as a table and reading the table back gives the trace, when each row
/// is writable (see `event_writable`).
pub proof fn law_trace_table_roundtrip(t: Seq<EventView>)
    requires
        forall|i: int| 0 <= i < t.len() ==> event_writable(#[trigger] t[i]),
    ensures
        parse_table(trace_table(t)) == t,
{
    let ls = table_lines(t);
    lemma_head_lines();
    assert forall|i: int| 0 <= i < ls.len() implies plain_line(#[trigger] ls[i]) by {
        if i >= 2 {
            assert(ls[i] == bar_line(row_parts((i - 1) as nat, t[i - 2])));
            lemma_row_line((i - 1) as nat, t[i - 2]);
        }
    }
    lemma_lines_of_concat(ls);
    lemma_parsed_prefix(t, t.len() as int);
    assert(ls.take(t.len() + 2 as int) =~= ls);
    assert(t.take(t.len() as int) =~= t);
}

} // verus!

verus! {

// ---------------------------------------------------------------------------
// The text of process.md

/// Index of the first line at or after `k` that closes the front matter (`---`),
/// or the number of lines when none does.
pub open spec fn frontmatter_end(ls: Seq<Seq<char>>, k: int) -> int
    decreases ls.len() - k,
{
    if k < 0 || k >= ls.len() {
        ls.len() as int
    } else if ls[k] == "---"@ {
        k
    } else {
        frontmatter_end(ls, k + 1)
    }
}

/// The front matter ends at or after `k`, within the lines.
pub proof fn lemma_frontmatter_end(ls: Seq<Seq<char>>, k: int)
    requires
        0 <= k <= ls.len(),
    ensures
        k <= frontmatter_end(ls, k) <= ls.len(),
    decreases ls.len() - k,
{
    if k < ls.len() && ls[k] != "---"@ {
        lemma_frontmatter_end(ls, k + 1);
    }
}

/// The heading that opens the trace section of process.md.
pub open spec fn trace_marker() -> Seq<char> {
    "## 执行轨迹"@
}

/// The heading that opens the progress section of process.md.
pub open spec fn progress_heading() -> Seq<char> {
    "## 流程进度"@
}

/// process.md taken apart: the front matter (its lines joined with `'\n'`), the progress
/// chart, and the text of the trace section; an error when the file does not open with `---`.
pub open spec fn process_md_parts(content: Seq<char>) -> Result<(Seq<char>, Seq<char>, Seq<char>), Seq<char>> {
    let ls = lines(content);
    if ls.len() == 0 || ls[0] != "---"@ {
        Err("process.md 缺少 frontmatter 开头 ---"@)
    } else {
        let k = frontmatter_end(ls, 1);
        let yaml = join(ls.subrange(1, k), seq!['\n']);
        let rest_from = if k < ls.len() {
            k + 1
        } else {
            ls.len() as int
        };
        let body = join(ls.subrange(rest_from, ls.len() as int), seq!['\n']);
        match crate::text::find_from(body, trace_marker(), 0) {
            Some(idx) => {
                let raw = trim(body.subrange(0, idx));
                let mermaid = if starts_with(raw, progress_heading()) {
                    trim(raw.skip(progress_heading().len() as int))
                } else {
                    raw
                };
                let after_from = idx + trace_marker().len();
                Ok((yaml, mermaid, body.subrange(skip_newlines(body, after_from), body.len() as int)))
            },
            None => Ok((yaml, seq![], body)),
        }
    }
}

/// Splits the text of process.md into its front matter, its progress chart, and the text
/// of its trace section (see `process_md_parts`).
pub fn split_process_md(content: &str) -> (r: Result<(String, String, String), String>)
    ensures
        match (r, process_md_parts(content@)) {
            (Ok(p), Ok(q)) => p.0@ == q.0 && p.1@ == q.1 && p.2@ == q.2,
            (Err(m), Err(n)) => m@ == n,
            _ => false,
        },
{
    let ls = lines_of(content);
    let ghost lv = views(ls@);
    if ls.len() == 0 || !str_eq(ls[0].as_str(), "---") {
        return Err(String::from_str("process.md 缺少 frontmatter 开头 ---"));
    }
    let mut k: usize = 1;
    while k < ls.len() && !str_eq(ls[k].as_str(), "---")
        invariant
            1 <= k <= ls.len(),
            lv == views(ls@),
            frontmatter_end(lv, 1) == frontmatter_end(lv, k as int),
        decreases ls.len() - k,
    {
        assert(lv[k as int] == ls@[k as int]@);
        k = k + 1;
    }
    proof {
        if k < ls.len() {
            assert(lv[k as int] == ls@[k as int]@);
        }
        assert(frontmatter_end(lv, k as int) == k);
    }
    let nl = "\n";
    proof {
        assert(nl@ == seq!['\n']) by {
            reveal_strlit("\n");
        }
    }
    let yaml = join_range(&ls, 1, k, nl);
    let rest_from = if k < ls.len() {
        k + 1
    } else {
        ls.len()
    };
    let body = join_range(&ls, rest_from, ls.len(), nl);
    let bv = chars_of(body.as_str());
    let mv = chars_of("## 执行轨迹");
    match find_seq(&bv, &mv, 0) {
        Some(idx) => {
            proof {
                crate::text::lemma_find_from(bv@, mv@, 0);
            }
            let (a, b) = trim_bounds(&bv, 0, idx);
            let raw = string_from_range(&bv, a, b);
            let rv = chars_of(raw.as_str());
            let hv = chars_of("## 流程进度");
            let mermaid = if chars_start_with(&rv, &hv) {
                let (c, d) = trim_bounds(&rv, hv.len(), rv.len());
                proof {
                    assert(rv@.subrange(hv.len() as int, rv.len() as int) =~= rv@.skip(hv.len() as int));
                }
                string_from_range(&rv, c, d)
            } else {
                raw
            };
            let after_from = idx + mv.len();
            let mut e = after_from;
            while e < bv.len() && bv[e] == '\n'
                invariant
                    after_from <= e <= bv.len(),
                    skip_newlines(bv@, after_from as int) == skip_newlines(bv@, e as int),
                decreases bv.len() - e,
            {
                e = e + 1;
            }
            let after = string_from_range(&bv, e, bv.len());
            Ok((yaml, mermaid, after))
        },
        None => Ok((yaml, String::new(), body)),
    }
}

/// The text of process.md: the front matter `yaml` between `---` lines, then the
/// progress chart and the trace table under their headings.
pub open spec fn process_md_text(yaml: Seq<char>, mermaid: Seq<char>, trace: Seq<EventView>) -> Seq<char> {
    "---\n"@ + yaml + "---\n\n"@ + "## 流程进度\n\n"@ + mermaid + "\n\n## 执行轨迹\n\n"@ + trace_table(trace)
        + "\n"@
}

impl ProcessFile {
    /// The text of this process file, with `state_yaml` as its front matter.
    pub fn compose(&self, state_yaml: &str) -> (r: String)
        ensures
            r@ == process_md_text(state_yaml@, self.mermaid@, trace_view(self.trace@)),
    {
        let table = render_trace_table(self.trace.as_slice());
        let mut s = String::from_str("---\n");
        push_str(&mut s, state_yaml);
        push_str(&mut s, "---\n\n");
        push_str(&mut s, "## 流程进度\n\n");
        push_str(&mut s, self.mermaid.as_str());
        push_str(&mut s, "\n\n## 执行轨迹\n\n");
        push_str(&mut s, table.as_str());
        push_str(&mut s, "\n");
        s
    }
}

} // verus!

verus! {

impl ProcessFile {
    /// Records a step of `node` (execution `invoke`) in the trace at `time` (see `upsert`).
    pub fn record(&mut self, status: &str, node: &str, invoke: &str, branch: Option<&str>, time: &str)
        ensures
            trace_view(final(self).trace@) == upsert(
                trace_view(old(self).trace@),
                EventView {
                    status: status@,
                    node: node@,
                    invoke: invoke@,
                    branch: opt_str_view(branch),
                    time: time@,
                },
            ),
            final(self).state == old(self).state,
            final(self).mermaid == old(self).mermaid,
    {
        let ev = TraceEvent {
            status: String::from_str(status),
            node: String::from_str(node),
            invoke: String::from_str(invoke),
            branch: match branch {
                Some(b) => Some(String::from_str(b)),
                None => None,
            },
            time: String::from_str(time),
        };
        upsert_event(&mut self.trace, ev);
    }

    /// Records a step of `node` (execution `invoke`) in the trace; a new row is stamped
    /// with the current local time (see `upsert`).
    pub fn append_trace(&mut self, status: &str, node: &str, invoke: &str, branch: Option<&str>)
        ensures
            exists|time: Seq<char>|
                trace_view(final(self).trace@) == upsert(
                    trace_view(old(self).trace@),
                    EventView {
                        status: status@,
                        node: node@,
                        invoke: invoke@,
                        branch: opt_str_view(branch),
                        time: time,
                    },
                ),
            final(self).state == old(self).state,
            final(self).mermaid == old(self).mermaid,
    {
        let time = crate::clock::trace_timestamp();
        self.record(status, node, invoke, branch, time.as_str());
    }
}

} // verus!

verus! {

/// The state of an instance, as values.
pub struct StateView {
    pub workflow: Seq<char>,
    pub instance_id: Seq<char>,
    pub initial_input: Option<Seq<char>>,
    pub status: Status,
    pub current: Seq<char>,
    pub current_name: Seq<char>,
    pub current_invoke: Seq<char>,
    pub step: int,
    pub loop_count: int,
    pub retry_count: int,
    pub last_node: Option<Seq<char>>,
    pub last_invoke: Option<Seq<char>>,
    pub completed: Seq<Seq<char>>,
    pub limits: Limits,
}

impl View for ProcessState {
    type V = StateView;

    open spec fn view(&self) -> StateView {
        StateView {
            workflow: self.workflow@,
            instance_id: self.instance_id@,
            initial_input: opt_view(self.initial_input),
            status: self.status,
            current: self.current@,
            current_name: self.current_name@,
            current_invoke: self.current_invoke@,
            step: self.step as int,
            loop_count: self.loop_count as int,
            retry_count: self.retry_count as int,
            last_node: opt_view(self.last_node),
            last_invoke: opt_view(self.last_invoke),
            completed: views(self.completed@),
            limits: self.limits,
        }
    }
}

/// A line of `trace.jsonl`, as values.
pub struct LogView {
    pub ts: Seq<char>,
    pub command: Seq<char>,
    pub node: Option<Seq<char>>,
    pub invoke: Option<Seq<char>>,
    pub status: Option<Seq<char>>,
    pub branch: Option<Seq<char>>,
}

impl View for TraceLogEntry {
    type V = LogView;

    open spec fn view(&self) -> LogView {
        LogView {
            ts: self.ts@,
            command: self.command@,
            node: opt_view(self.node),
            invoke: opt_view(self.invoke),
            status: opt_view(self.status),
            branch: opt_view(self.branch),
        }
    }
}

} // verus!

verus! {

/// `<inst_dir>/trace/trace.jsonl`.
pub fn trace_jsonl_path(inst_dir: &str) -> (r: String)
    ensures
        r@ == crate::artifact::path_join(crate::artifact::path_join(inst_dir@, "trace"@), "trace.jsonl"@),
{
    let t = crate::artifact::join_path(inst_dir, "trace");
    crate::artifact::join_path(t.as_str(), "trace.jsonl")
}

} // verus!

verus! {

/// The execution `invoke` of `node` has a row in `t`.
pub open spec fn has_run(t: Seq<EventView>, node: Seq<char>, invoke: Seq<char>) -> bool {
    exists|i: int| 0 <= i < t.len() && #[trigger] t[i].node == node && t[i].invoke == invoke
}

/// The trace an instance is read with: the rows of process.md, updated in order by the
/// steps that `trace.jsonl` logs (see `rebuilt` and `merged`). With no step logged, it is
/// the trace of process.md.
pub open spec fn effective(file: Seq<EventView>, entries: Seq<TraceLogEntry>) -> Seq<EventView> {
    merged(file, rebuilt(entries))
}

impl ProcessFile {
    /// Brings the trace up to date with the log lines `entries` (see `effective`).
    pub fn absorb_log(&mut self, entries: &[TraceLogEntry])
        ensures
            trace_view(final(self).trace@) == effective(trace_view(old(self).trace@), entries@),
            final(self).state == old(self).state,
            final(self).mermaid == old(self).mermaid,
    {
        let updates = reconstruct_trace_from_jsonl(entries);
        merge_trace(&mut self.trace, updates);
    }
}

/// A log line that records only that `command` ran at `ts`.
pub fn command_entry(ts: &str, command: &str) -> (r: TraceLogEntry)
    ensures
        r@ == (LogView { ts: ts@, command: command@, node: None, invoke: None, status: None, branch: None }),
{
    TraceLogEntry {
        ts: String::from_str(ts),
        command: String::from_str(command),
        node: None,
        invoke: None,
        status: None,
        branch: None,
    }
}

/// A log line that records only that `command` ran now, stamped in the strftime `pattern`
/// (one of literals and `%Y %m %d %H %M %S`).
pub fn command_entry_now(command: &str, pattern: &str) -> (r: TraceLogEntry)
    requires
        crate::clock::simple_pattern(pattern@),
    ensures
        crate::clock::shows_time(r@.ts, pattern@),
        r@.command == command@,
        r@.node is None && r@.invoke is None && r@.status is None && r@.branch is None,
{
    let ts = crate::clock::local_timestamp(pattern);
    command_entry(ts.as_str(), command)
}

} // verus!

verus! {

proof fn lemma_upsert_keeps_run(t: Seq<EventView>, ev: EventView, node: Seq<char>, invoke: Seq<char>)
    ensures
        has_run(t, node, invoke) ==> has_run(upsert(t, ev), node, invoke),
        has_run(upsert(t, ev), ev.node, ev.invoke),
{
    law_upsert_records(t, ev);
    crate::find::lemma_first(t, is_run(ev.node, ev.invoke));
    let u = upsert(t, ev);
    if has_run(t, node, invoke) {
        let i = choose|i: int| 0 <= i < t.len() && #[trigger] t[i].node == node && t[i].invoke == invoke;
        assert(u[i].node == node && u[i].invoke == invoke);
    }
}

proof fn lemma_merged_keeps_runs(base: Seq<EventView>, updates: Seq<EventView>)
    ensures
        forall|k: int| 0 <= k < base.len() ==> has_run(merged(base, updates), #[trigger] base[k].node, base[k].invoke),
        forall|k: int| 0 <= k < updates.len() ==> has_run(merged(base, updates), #[trigger] updates[k].node, updates[k].invoke),
    decreases updates.len(),
{
    if updates.len() == 0 {
        assert forall|k: int| 0 <= k < base.len() implies has_run(merged(base, updates), #[trigger] base[k].node, base[k].invoke) by {
            assert(merged(base, updates)[k].node == base[k].node);
        }
    } else {
        let prev = updates.drop_last();
        let m = merged(base, prev);
        lemma_merged_keeps_runs(base, prev);
        assert forall|k: int| 0 <= k < base.len() implies has_run(merged(base, updates), #[trigger] base[k].node, base[k].invoke) by {
            lemma_upsert_keeps_run(m, updates.last(), base[k].node, base[k].invoke);
        }
        assert forall|k: int| 0 <= k < updates.len() implies has_run(merged(base, updates), #[trigger] updates[k].node, updates[k].invoke) by {
            lemma_upsert_keeps_run(m, updates.last(), updates[k].node, updates[k].invoke);
            if k < prev.len() {
                assert(prev[k] == updates[k]);
            }
        }
    }
}

proof fn lemma_rebuilt_has_logged(entries: Seq<TraceLogEntry>)
    ensures
        forall|k: int|
            0 <= k < entries.len() && (#[trigger] entry_event(entries[k])) is Some ==> has_run(
                rebuilt(entries),
                entry_event(entries[k])->0.node,
                entry_event(entries[k])->0.invoke,
            ),
    decreases entries.len(),
{
    if entries.len() > 0 {
        let prev = entries.drop_last();
        lemma_rebuilt_has_logged(prev);
        let t = rebuilt(prev);
        assert forall|k: int|
            0 <= k < entries.len() && (#[trigger] entry_event(entries[k])) is Some implies has_run(
                rebuilt(entries),
                entry_event(entries[k])->0.node,
                entry_event(entries[k])->0.invoke,
            ) by {
            let e = entry_event(entries[k])->0;
            if k < prev.len() {
                assert(prev[k] == entries[k]);
                if let Some(ev) = entry_event(entries.last()) {
                    lemma_upsert_keeps_run(t, ev, e.node, e.invoke);
                }
            } else {
                lemma_upsert_keeps_run(t, e, e.node, e.invoke);
            }
        }
    }
}

proof fn lemma_rebuilt_empty(entries: Seq<TraceLogEntry>)
    requires
        forall|k: int| 0 <= k < entries.len() ==> (#[trigger] entry_event(entries[k])) is None,
    ensures
        rebuilt(entries) == Seq::<EventView>::empty(),
    decreases entries.len(),
{
    if entries.len() > 0 {
        let prev = entries.drop_last();
        assert forall|k: int| 0 <= k < prev.len() implies (#[trigger] entry_event(prev[k])) is None by {
            assert(prev[k] == entries[k]);
        }
        lemma_rebuilt_empty(prev);
        assert(entry_event(entries[entries.len() - 1]) is None);
    }
}

/// `t` has a row of the execution of `e`, with the status of `e`.
pub open spec fn has_status_of(t: Seq<EventView>, e: EventView) -> bool {
    exists|i: int| 0 <= i < t.len() && #[trigger] t[i].node == e.node && t[i].invoke == e.invoke && t[i].status == e.status
}

proof fn lemma_merged_status(base: Seq<EventView>, updates: Seq<EventView>)
    requires
        runs_distinct(updates),
    ensures
        forall|j: int| 0 <= j < updates.len() ==> has_status_of(merged(base, updates), #[trigger] updates[j]),
    decreases updates.len(),
{
    if updates.len() > 0 {
        let prev = updates.drop_last();
        let ev = updates.last();
        let m = merged(base, prev);
        assert(runs_distinct(prev)) by {
            assert forall|i: int, j: int|
                0 <= i < j < prev.len() implies !(#[trigger] prev[i].node == #[trigger] prev[j].node
                && prev[i].invoke == prev[j].invoke) by {
                assert(prev[i] == updates[i] && prev[j] == updates[j]);
            }
        }
        lemma_merged_status(base, prev);
        law_upsert_records(m, ev);
        let u = upsert(m, ev);
        assert(u == merged(base, updates));
        assert forall|j: int| 0 <= j < updates.len() implies has_status_of(u, #[trigger] updates[j]) by {
            if j < prev.len() {
                assert(prev[j] == updates[j]);
                assert(has_status_of(m, prev[j]));
                let i = choose|i: int|
                    0 <= i < m.len() && #[trigger] m[i].node == prev[j].node && m[i].invoke == prev[j].invoke
                        && m[i].status == prev[j].status;
                assert(!(updates[j].node == updates[updates.len() - 1].node && updates[j].invoke
                    == updates[updates.len() - 1].invoke));
                assert(u[i] == m[i]);
            } else {
                let i = choose|i: int|
                    0 <= i < u.len() && #[trigger] u[i].node == ev.node && u[i].invoke == ev.invoke
                        && u[i].status == ev.status;
                assert(u[i].node == updates[j].node);
            }
        }
    }
}

/// Reading an instance keeps every execution that process.md holds and every execution
/// that `trace.jsonl` logs a step of: each has a row in the trace read.
pub proof fn law_effective_keeps_runs(file: Seq<EventView>, entries: Seq<TraceLogEntry>)
    ensures
        forall|k: int| 0 <= k < file.len() ==> has_run(effective(file, entries), #[trigger] file[k].node, file[k].invoke),
        forall|k: int|
            0 <= k < entries.len() && (#[trigger] entry_event(entries[k])) is Some ==> has_run(
                effective(file, entries),
                entry_event(entries[k])->0.node,
                entry_event(entries[k])->0.invoke,
            ),
{
    let r = rebuilt(entries);
    lemma_merged_keeps_runs(file, r);
    lemma_rebuilt_has_logged(entries);
    assert forall|k: int|
        0 <= k < entries.len() && (#[trigger] entry_event(entries[k])) is Some implies has_run(
            effective(file, entries),
            entry_event(entries[k])->0.node,
            entry_event(entries[k])->0.invoke,
        ) by {
        let e = entry_event(entries[k])->0;
        let i = choose|i: int| 0 <= i < r.len() && #[trigger] r[i].node == e.node && r[i].invoke == e.invoke;
        assert(has_run(merged(file, r), r[i].node, r[i].invoke));
    }
}

/// When `trace.jsonl` logs no step (it is missing, or holds only commands that read),
/// an instance is read with the trace of process.md.
pub proof fn law_effective_without_log(file: Seq<EventView>, entries: Seq<TraceLogEntry>)
    requires
        forall|k: int| 0 <= k < entries.len() ==> (#[trigger] entry_event(entries[k])) is None,
    ensures
        effective(file, entries) == file,
{
    lemma_rebuilt_empty(entries);
}

/// The log is the authority on status: every execution that the replayed log holds is
/// read with the status the log gives it.
pub proof fn law_effective_status_from_log(file: Seq<EventView>, entries: Seq<TraceLogEntry>)
    ensures
        forall|j: int|
            0 <= j < rebuilt(entries).len() ==> has_status_of(effective(file, entries), #[trigger] rebuilt(entries)[j]),
{
    law_rebuilt_runs_distinct(entries);
    lemma_merged_status(file, rebuilt(entries));
}

} // verus!

verus! {

// ---------------------------------------------------------------------------
// Reading back what was written to process.md

/// The lines of process.md as `process_md_text` writes it, with the front matter given
/// as `ylines` and the chart as `mlines`.
pub open spec fn md_lines(ylines: Seq<Seq<char>>, mlines: Seq<Seq<char>>, t: Seq<EventView>) -> Seq<Seq<char>> {
    seq!["---"@] + ylines + seq!["---"@, seq![], progress_heading(), seq![]] + mlines + seq![
        seq![],
        trace_marker(),
        seq![],
    ] + table_lines(t) + seq![seq![]]
}

proof fn lemma_concat_small(a: Seq<char>, b: Seq<char>, c: Seq<char>, d: Seq<char>)
    ensures
        concat_lines(seq![a]) == a + seq!['\n'],
        concat_lines(seq![a, b, c]) == a + seq!['\n'] + b + seq!['\n'] + c + seq!['\n'],
        concat_lines(seq![a, b, c, d]) == a + seq!['\n'] + b + seq!['\n'] + c + seq!['\n'] + d + seq!['\n'],
{
    let e: Seq<Seq<char>> = seq![];
    let nl = seq!['\n'];
    assert(concat_lines(e) =~= Seq::<char>::empty());
    assert(seq![a].drop_first() =~= e);
    assert(concat_lines(seq![a]) =~= a + nl);
    let s1 = seq![d];
    let s2 = seq![c, d];
    let s3 = seq![b, c, d];
    let s4 = seq![a, b, c, d];
    assert(s1.drop_first() =~= e);
    assert(concat_lines(s1) =~= d + nl);
    assert(s2.drop_first() =~= s1 && s2[0] == c);
    assert(concat_lines(s2) =~= c + nl + d + nl);
    assert(s3.drop_first() =~= s2 && s3[0] == b);
    assert(concat_lines(s3) =~= b + nl + c + nl + d + nl);
    assert(s4.drop_first() =~= s3 && s4[0] == a);
    assert(concat_lines(s4) =~= a + nl + b + nl + c + nl + d + nl);
    let t1 = seq![c];
    let t2 = seq![b, c];
    let t3 = seq![a, b, c];
    assert(t1.drop_first() =~= e);
    assert(concat_lines(t1) =~= c + nl);
    assert(t2.drop_first() =~= t1 && t2[0] == b);
    assert(concat_lines(t2) =~= b + nl + c + nl);
    assert(t3.drop_first() =~= t2 && t3[0] == a);
    assert(concat_lines(t3) =~= a + nl + b + nl + c + nl);
}

proof fn lemma_md_text_lines(ylines: Seq<Seq<char>>, mlines: Seq<Seq<char>>, t: Seq<EventView>)
    requires
        mlines.len() >= 1,
    ensures
        process_md_text(concat_lines(ylines), join(mlines, seq!['\n']), t) == concat_lines(md_lines(ylines, mlines, t)),
{
    let e: Seq<char> = seq![];
    let l1 = seq!["---"@];
    let l3 = seq!["---"@, e, progress_heading(), e];
    let l5 = seq![e, trace_marker(), e];
    let l6 = table_lines(t);
    let l7: Seq<Seq<char>> = seq![e];
    let a1 = l1 + ylines;
    let a2 = a1 + l3;
    let a3 = a2 + mlines;
    let a4 = a3 + l5;
    let a5 = a4 + l6;
    lemma_concat_lines_append(l1, ylines);
    lemma_concat_lines_append(a1, l3);
    lemma_concat_lines_append(a2, mlines);
    lemma_concat_lines_append(a3, l5);
    lemma_concat_lines_append(a4, l6);
    lemma_concat_lines_append(a5, l7);
    lemma_concat_lines_join(mlines);
    lemma_concat_small("---"@, e, e, e);
    lemma_concat_small("---"@, e, progress_heading(), e);
    lemma_concat_small(e, trace_marker(), e, e);
    assert(md_lines(ylines, mlines, t) == a5 + l7);
    reveal_strlit("---");
    reveal_strlit("## 流程进度");
    reveal_strlit("## 执行轨迹");
    reveal_strlit("---\n");
    reveal_strlit("---\n\n");
    reveal_strlit("## 流程进度\n\n");
    reveal_strlit("\n\n## 执行轨迹\n\n");
    reveal_strlit("\n");
    assert(process_md_text(concat_lines(ylines), join(mlines, seq!['\n']), t) =~= concat_lines(
        md_lines(ylines, mlines, t),
    ));
}

/// Every line of `ls` is a plain line.
pub open spec fn all_plain(ls: Seq<Seq<char>>) -> bool {
    forall|i: int| 0 <= i < ls.len() ==> plain_line(#[trigger] ls[i])
}

proof fn lemma_all_plain_append(a: Seq<Seq<char>>, b: Seq<Seq<char>>)
    requires
        all_plain(a),
        all_plain(b),
    ensures
        all_plain(a + b),
{
    assert forall|i: int| 0 <= i < (a + b).len() implies plain_line(#[trigger] (a + b)[i]) by {
        if i < a.len() {
            assert((a + b)[i] == a[i]);
        } else {
            assert((a + b)[i] == b[i - a.len()]);
        }
    }
}

proof fn lemma_table_plain(t: Seq<EventView>)
    requires
        forall|i: int| 0 <= i < t.len() ==> event_writable(#[trigger] t[i]),
    ensures
        all_plain(table_lines(t)),
        table_lines(t).len() >= 2,
{
    let ls = table_lines(t);
    lemma_head_lines();
    assert forall|i: int| 0 <= i < ls.len() implies plain_line(#[trigger] ls[i]) by {
        if i >= 2 {
            assert(ls[i] == bar_line(row_parts((i - 1) as nat, t[i - 2])));
            lemma_row_line((i - 1) as nat, t[i - 2]);
        }
    }
}

proof fn lemma_join3(x: Seq<char>, y: Seq<char>, z: Seq<char>, sep: Seq<char>)
    ensures
        join(seq![x, y, z], sep) == x + sep + y + sep + z,
{
    let s = seq![x, y, z];
    assert(s.drop_last() =~= seq![x, y]);
    assert(seq![x, y].drop_last() =~= seq![x]);
    assert(join(seq![x], sep) == x);
    assert(join(seq![x, y], sep) == x + sep + y);
}

proof fn lemma_frontmatter_at(ls: Seq<Seq<char>>, k: int, end: int)
    requires
        1 <= k <= end < ls.len(),
        ls[end] == "---"@,
        forall|j: int| 1 <= j < end ==> #[trigger] ls[j] != "---"@,
    ensures
        frontmatter_end(ls, k) == end,
    decreases end - k,
{
    if k < end {
        lemma_frontmatter_at(ls, k + 1, end);
    }
}

proof fn lemma_md_layout(ylines: Seq<Seq<char>>, mlines: Seq<Seq<char>>, t: Seq<EventView>)
    requires
        all_plain(ylines),
        forall|i: int| 0 <= i < ylines.len() ==> #[trigger] ylines[i] != "---"@,
        mlines.len() >= 1,
        all_plain(mlines),
        forall|i: int| 0 <= i < t.len() ==> event_writable(#[trigger] t[i]),
    ensures
        ({
            let ls = md_lines(ylines, mlines, t);
            let nl = seq!['\n'];
            let k = ylines.len() + 1int;
            &&& lines(concat_lines(ls)) == ls
            &&& ls.len() > 0 && ls[0] == "---"@
            &&& frontmatter_end(ls, 1) == k
            &&& k < ls.len()
            &&& ls.subrange(1, k) == ylines
            &&& join(ls.subrange(k + 1, ls.len() as int), nl) == nl + progress_heading() + nl + nl + join(mlines, nl)
                + nl + nl + trace_marker() + nl + nl + trace_table(t)
        }),
{
    let e: Seq<char> = seq![];
    let nl = seq!['\n'];
    let l1 = seq!["---"@];
    let l3 = seq!["---"@, e, progress_heading(), e];
    let l5 = seq![e, trace_marker(), e];
    let l6 = table_lines(t);
    let l7: Seq<Seq<char>> = seq![e];
    let ls = md_lines(ylines, mlines, t);
    reveal_strlit("---");
    reveal_strlit("## 流程进度");
    reveal_strlit("## 执行轨迹");
    assert(all_plain(l1));
    assert(all_plain(l3));
    assert(all_plain(l5));
    assert(all_plain(l7));
    lemma_table_plain(t);
    lemma_all_plain_append(l1, ylines);
    lemma_all_plain_append(l1 + ylines, l3);
    lemma_all_plain_append(l1 + ylines + l3, mlines);
    lemma_all_plain_append(l1 + ylines + l3 + mlines, l5);
    lemma_all_plain_append(l1 + ylines + l3 + mlines + l5, l6);
    lemma_all_plain_append(l1 + ylines + l3 + mlines + l5 + l6, l7);
    crate::text::lemma_lines_of_concat(ls);
    let k = ylines.len() + 1int;
    assert(ls[k] == "---"@);
    assert forall|j: int| 1 <= j < k implies #[trigger] ls[j] != "---"@ by {
        assert(ls[j] == ylines[j - 1]);
    }
    lemma_frontmatter_at(ls, 1, k);
    assert(ls.subrange(1, k) =~= ylines);
    let a = seq![e, progress_heading(), e];
    let c = l6 + l7;
    assert(ls.subrange(k + 1, ls.len() as int) =~= a + mlines + l5 + c);
    lemma_join_append(a, mlines, nl);
    lemma_join_append(a + mlines, l5, nl);
    lemma_join_append(a + mlines + l5, c, nl);
    lemma_join3(e, progress_heading(), e, nl);
    lemma_join3(e, trace_marker(), e, nl);
    assert(c.drop_last() =~= l6);
    assert(c.last() == e);
    lemma_concat_lines_join(l6);
    assert(join(c, nl) =~= trace_table(t));
    assert(join(ls.subrange(k + 1, ls.len() as int), nl) =~= nl + progress_heading() + nl + nl + join(mlines, nl)
        + nl + nl + trace_marker() + nl + nl + trace_table(t));
}

proof fn lemma_find_marker(m: Seq<char>, t: Seq<char>)
    requires
        forall|k: int| !crate::text::occurs_at(m, trace_marker(), k),
    ensures
        ({
            let nl = seq!['\n'];
            let p = nl + progress_heading() + nl + nl;
            let b = p + m + (nl + nl + trace_marker() + nl + nl) + t;
            crate::text::find_from(b, trace_marker(), 0) == Some(p.len() + m.len() + 2int)
        }),
{
    reveal_strlit("## 流程进度");
    reveal_strlit("## 执行轨迹");
    let nl = seq!['\n'];
    let h = progress_heading();
    let mk = trace_marker();
    let p = nl + h + nl + nl;
    let q = nl + nl + mk + nl + nl;
    let b = p + m + q + t;
    let idx = p.len() + m.len() + 2int;
    assert(p =~= seq!['\n', '#', '#', ' ', '流', '程', '进', '度', '\n', '\n']);
    assert(mk =~= seq!['#', '#', ' ', '执', '行', '轨', '迹']);
    assert(q.len() == 11);
    assert forall|j: int| 0 <= j < idx implies !crate::text::occurs_at(b, mk, j) by {
        if crate::text::occurs_at(b, mk, j) {
            let w = b.subrange(j, j + 7);
            assert(w == mk);
            assert(b[j] == w[0] && b[j + 1] == w[1] && b[j + 3] == w[3]);
            if j < p.len() {
                assert(b[j] == p[j]);
                if j == 1 {
                    assert(b[j + 3] == p[4]);
                } else if j == 2 {
                    assert(b[j + 1] == p[3]);
                }
            } else if j < p.len() + m.len() {
                if j + 7 <= p.len() + m.len() {
                    assert(m.subrange(j - p.len(), j - p.len() + 7) =~= w);
                    assert(crate::text::occurs_at(m, mk, j - p.len()));
                } else {
                    let o = p.len() + m.len() - j;
                    assert(b[j + o] == q[0]);
                    assert(b[j + o] == w[o]);
                    assert(w[o] == mk[o]);
                }
            } else {
                assert(b[j] == q[j - p.len() - m.len()]);
            }
        }
    }
    assert(b.subrange(idx, idx + 7) =~= mk) by {
        assert forall|k: int| 0 <= k < 7 implies b[idx + k] == mk[k] by {
            assert(b[idx + k] == q[2 + k]);
        }
    }
    crate::text::lemma_find_from(b, mk, 0);
    match crate::text::find_from(b, mk, 0) {
        Some(j) => {
            if j < idx {
                assert(!crate::text::occurs_at(b, mk, j));
            } else if j > idx {
                assert(crate::text::occurs_at(b, mk, idx));
            }
        },
        None => {
            assert(crate::text::occurs_at(b, mk, idx));
        },
    }
}

proof fn lemma_chart_back(m: Seq<char>)
    requires
        trim_stable(m),
    ensures
        ({
            let nl = seq!['\n'];
            let h = progress_heading();
            let raw = trim(nl + h + nl + nl + m + nl + nl);
            &&& starts_with(raw, h)
            &&& trim(raw.skip(h.len() as int)) == m
        }),
{
    reveal_strlit("## 流程进度");
    let nl = seq!['\n'];
    let h = progress_heading();
    let x = nl + h + nl + nl + m + nl + nl;
    assert(h =~= seq!['#', '#', ' ', '流', '程', '进', '度']);
    assert(is_ws('\n'));
    assert(!is_ws('#'));
    assert(!is_ws('度'));
    assert(x[0] == '\n' && x[1] == '#');
    assert(crate::text::skip_ws(x, 1) == 1);
    assert(crate::text::skip_ws(x, 0) == 1);
    let n = x.len() as int;
    assert(x[n - 1] == '\n' && x[n - 2] == '\n');
    let raw_end = if m.len() > 0 {
        assert(x[n - 3] == m.last());
        assert(crate::text::back_ws(x, 1, n - 2) == n - 2);
        n - 2
    } else {
        assert(x[n - 3] == '\n' && x[n - 4] == '\n' && x[n - 5] == '度');
        assert(crate::text::back_ws(x, 1, n - 4) == n - 4);
        assert(crate::text::back_ws(x, 1, n - 3) == n - 4);
        assert(crate::text::back_ws(x, 1, n - 2) == n - 4);
        n - 4
    };
    assert(crate::text::back_ws(x, 1, n - 1) == raw_end);
    assert(crate::text::back_ws(x, 1, n) == raw_end);
    let raw = x.subrange(1, raw_end);
    assert(trim(x) == raw);
    assert(raw.take(h.len() as int) =~= h);
    let y = raw.skip(h.len() as int);
    if m.len() > 0 {
        assert(y =~= nl + nl + m);
        assert(crate::text::skip_ws(y, 2) == 2);
        assert(crate::text::skip_ws(y, 1) == 2);
        assert(crate::text::skip_ws(y, 0) == 2);
        assert(y[y.len() - 1] == m.last());
        assert(crate::text::back_ws(y, 2, y.len() as int) == y.len());
        assert(y.subrange(2, y.len() as int) =~= m);
    } else {
        assert(y =~= Seq::<char>::empty());
        assert(trim(y) =~= m);
    }
}

proof fn lemma_table_starts_with_bar(t: Seq<EventView>)
    ensures
        trace_table(t).len() > 0,
        trace_table(t)[0] == '|',
{
    let ls = table_lines(t);
    let parts = header_parts();
    crate::text::lemma_join_front(parts, seq!['|']);
    assert(parts[0] =~= Seq::<char>::empty());
    let l0 = bar_line(parts);
    assert(l0[0] == '|');
    assert(ls[0] == l0);
    assert(trace_table(t) == ls[0] + seq!['\n'] + concat_lines(ls.drop_first()));
}

/// What is written to process.md reads back as written: taking apart the text of a
/// process file gives back its front matter (the lines `ylines`, joined), its chart (the
/// lines `mlines`, joined) and its trace table, and the table parses back to the trace.
/// This holds when no front-matter line is `---`, no line ends in a carriage return,
/// the chart has no whitespace at its ends and does not hold the trace heading, and
/// every row is writable (see `event_writable`).
pub proof fn law_process_md_roundtrip(ylines: Seq<Seq<char>>, mlines: Seq<Seq<char>>, t: Seq<EventView>)
    requires
        all_plain(ylines),
        forall|i: int| 0 <= i < ylines.len() ==> #[trigger] ylines[i] != "---"@,
        mlines.len() >= 1,
        all_plain(mlines),
        trim_stable(join(mlines, seq!['\n'])),
        forall|k: int| !crate::text::occurs_at(join(mlines, seq!['\n']), trace_marker(), k),
        forall|i: int| 0 <= i < t.len() ==> event_writable(#[trigger] t[i]),
    ensures
        process_md_parts(process_md_text(concat_lines(ylines), join(mlines, seq!['\n']), t)) == Ok::<
            (Seq<char>, Seq<char>, Seq<char>),
            Seq<char>,
        >((join(ylines, seq!['\n']), join(mlines, seq!['\n']), trace_table(t))),
        parse_table(trace_table(t)) == t,
{
    let nl = seq!['\n'];
    let m = join(mlines, nl);
    let tt = trace_table(t);
    let ls = md_lines(ylines, mlines, t);
    lemma_md_text_lines(ylines, mlines, t);
    lemma_md_layout(ylines, mlines, t);
    let k = ylines.len() + 1int;
    let h = progress_heading();
    let mk = trace_marker();
    let p = nl + h + nl + nl;
    let q = nl + nl + mk + nl + nl;
    let b = p + m + q + tt;
    assert(join(ls.subrange(k + 1, ls.len() as int), nl) =~= b);
    lemma_find_marker(m, tt);
    let idx = p.len() + m.len() + 2int;
    assert(b.subrange(0, idx) =~= nl + h + nl + nl + m + nl + nl);
    lemma_chart_back(m);
    reveal_strlit("## 执行轨迹");
    assert(mk.len() == 7);
    lemma_table_starts_with_bar(t);
    assert(b[idx + 7] == '\n' && b[idx + 8] == '\n');
    assert(b[idx + 9] == tt[0]);
    assert(skip_newlines(b, idx + 9) == idx + 9);
    assert(skip_newlines(b, idx + 8) == idx + 9);
    assert(skip_newlines(b, idx + 7) == idx + 9);
    assert(b.subrange(idx + 9, b.len() as int) =~= tt);
    law_trace_table_roundtrip(t);
}

} // verus!

verus! {

// ---------------------------------------------------------------------------
// Replaying logs in parts, and merging twice

/// The row `row` after recording `ev` of the same execution: `ev`'s status, and `ev`'s
/// branch where it has one.
pub open spec fn absorbed(row: EventView, ev: EventView) -> EventView {
    EventView {
        status: ev.status,
        branch: if ev.branch is Some {
            ev.branch
        } else {
            row.branch
        },
        ..row
    }
}

proof fn lemma_upsert_ids(t: Seq<EventView>, f: EventView)
    ensures
        upsert(t, f).len() >= t.len(),
        forall|k: int|
            0 <= k < t.len() ==> (#[trigger] upsert(t, f)[k]).node == t[k].node && upsert(t, f)[k].invoke
                == t[k].invoke,
        upsert(t, f).len() > t.len() ==> upsert(t, f) == t.push(f),
        upsert(t, f).len() == t.len() ==> has_run(t, f.node, f.invoke),
{
    crate::find::lemma_first(t, is_run(f.node, f.invoke));
    if let Some(j) = crate::find::first(t, is_run(f.node, f.invoke)) {
        assert(t[j].node == f.node && t[j].invoke == f.invoke);
    }
}

proof fn lemma_first_run_same_ids(x: Seq<EventView>, y: Seq<EventView>, node: Seq<char>, invoke: Seq<char>)
    requires
        x.len() <= y.len(),
        forall|k: int| 0 <= k < x.len() ==> (#[trigger] y[k]).node == x[k].node && y[k].invoke == x[k].invoke,
        crate::find::first(x, is_run(node, invoke)) is Some,
    ensures
        crate::find::first(y, is_run(node, invoke)) == crate::find::first(x, is_run(node, invoke)),
{
    let p = is_run(node, invoke);
    crate::find::lemma_first(x, p);
    let j = crate::find::first(x, p)->0;
    assert(p(y[j]));
    assert forall|k: int| 0 <= k < j implies !p(#[trigger] y[k]) by {
        assert(!p(x[k]));
    }
    crate::find::lemma_first_is(y, p, j);
}

/// Recording `ev` where its execution already has a row updates that row in place.
proof fn lemma_upsert_in_place(t: Seq<EventView>, ev: EventView)
    requires
        has_run(t, ev.node, ev.invoke),
    ensures
        ({
            let j = crate::find::first(t, is_run(ev.node, ev.invoke))->0;
            &&& crate::find::first(t, is_run(ev.node, ev.invoke)) is Some
            &&& 0 <= j < t.len()
            &&& upsert(t, ev) == t.update(j, absorbed(t[j], ev))
        }),
{
    let p = is_run(ev.node, ev.invoke);
    crate::find::lemma_first(t, p);
    let i = choose|i: int| 0 <= i < t.len() && #[trigger] t[i].node == ev.node && t[i].invoke == ev.invoke;
    if crate::find::first(t, p) is None {
        assert(!p(t[i]));
    }
}

/// Two steps of different executions, one of which already has a row, can be recorded
/// in either order.
proof fn lemma_upsert_commute(x: Seq<EventView>, e: EventView, f: EventView)
    requires
        !(e.node == f.node && e.invoke == f.invoke),
        has_run(x, e.node, e.invoke),
    ensures
        upsert(upsert(x, f), e) == upsert(upsert(x, e), f),
{
    let pe = is_run(e.node, e.invoke);
    let pf = is_run(f.node, f.invoke);
    lemma_upsert_in_place(x, e);
    let j = crate::find::first(x, pe)->0;
    crate::find::lemma_first(x, pe);
    assert(pe(x[j]));
    assert(x[j].node == e.node && x[j].invoke == e.invoke);
    let cj = absorbed(x[j], e);
    let a = upsert(x, f);
    let b = upsert(x, e);
    lemma_upsert_ids(x, f);
    lemma_first_run_same_ids(x, a, e.node, e.invoke);
    law_upsert_records(x, f);
    assert(a[j] == x[j]);
    assert(has_run(a, e.node, e.invoke)) by {
        assert(a[j].node == e.node && a[j].invoke == e.invoke);
    }
    lemma_upsert_in_place(a, e);
    assert(upsert(a, e) == a.update(j, cj));
    assert(b == x.update(j, cj));
    crate::find::lemma_first(x, pf);
    match crate::find::first(x, pf) {
        Some(k) => {
            assert(k != j);
            assert(has_run(x, f.node, f.invoke)) by {
                assert(x[k].node == f.node && x[k].invoke == f.invoke);
            }
            lemma_upsert_in_place(x, f);
            assert(a == x.update(k, absorbed(x[k], f)));
            assert forall|m: int| 0 <= m < x.len() implies (#[trigger] b[m]).node == x[m].node && b[m].invoke
                == x[m].invoke by {}
            lemma_first_run_same_ids(x, b, f.node, f.invoke);
            assert(has_run(b, f.node, f.invoke)) by {
                assert(b[k].node == f.node && b[k].invoke == f.invoke);
            }
            lemma_upsert_in_place(b, f);
            assert(b[k] == x[k]);
            assert(upsert(a, e) =~= upsert(b, f));
        },
        None => {
            assert(a == x.push(f));
            assert forall|m: int| 0 <= m < b.len() implies !pf(#[trigger] b[m]) by {
                assert(!pf(x[m]));
            }
            crate::find::lemma_first_none(b, pf);
            assert(upsert(b, f) == b.push(f));
            assert(upsert(a, e) =~= upsert(b, f));
        },
    }
}

/// Recording two steps of one execution in turn is recording their combination.
proof fn lemma_upsert_twice_same(x: Seq<EventView>, e1: EventView, e2: EventView)
    requires
        e1.node == e2.node && e1.invoke == e2.invoke,
    ensures
        upsert(upsert(x, e1), e2) == upsert(x, absorbed(e1, e2)),
{
    let c = absorbed(e1, e2);
    let y = upsert(x, e1);
    if has_run(x, e1.node, e1.invoke) {
        lemma_upsert_in_place(x, e1);
        lemma_upsert_in_place(x, c);
        let j = crate::find::first(x, is_run(e1.node, e1.invoke))->0;
        crate::find::lemma_first(x, is_run(e1.node, e1.invoke));
        assert(is_run(e1.node, e1.invoke)(x[j]));
        assert forall|m: int| 0 <= m < x.len() implies (#[trigger] y[m]).node == x[m].node && y[m].invoke
            == x[m].invoke by {}
        lemma_first_run_same_ids(x, y, e1.node, e1.invoke);
        assert(has_run(y, e2.node, e2.invoke)) by {
            assert(y[j].node == e2.node && y[j].invoke == e2.invoke);
        }
        lemma_upsert_in_place(y, e2);
        assert(upsert(y, e2) =~= upsert(x, c));
    } else {
        let p = is_run(e1.node, e1.invoke);
        assert forall|m: int| 0 <= m < x.len() implies !p(#[trigger] x[m]) by {
            if p(x[m]) {
                assert(x[m].node == e1.node && x[m].invoke == e1.invoke);
            }
        }
        crate::find::lemma_first_none(x, p);
        assert(y == x.push(e1));
        assert(has_run(y, e2.node, e2.invoke)) by {
            assert(y[x.len() as int] == e1);
        }
        lemma_upsert_in_place(y, e2);
        let j = crate::find::first(y, p)->0;
        crate::find::lemma_first(y, p);
        assert(j == x.len()) by {
            if j < x.len() {
                assert(y[j] == x[j]);
                assert(!p(x[j]));
            }
        }
        assert(upsert(x, c) == x.push(c));
        assert(upsert(y, e2) =~= x.push(c));
    }
}

proof fn lemma_merged_append(t: Seq<EventView>, p: Seq<EventView>, q: Seq<EventView>)
    ensures
        merged(t, p + q) == merged(merged(t, p), q),
    decreases q.len(),
{
    if q.len() == 0 {
        assert(p + q =~= p);
    } else {
        lemma_merged_append(t, p, q.drop_last());
        assert((p + q).drop_last() =~= p + q.drop_last());
        assert((p + q).last() == q.last());
    }
}

/// A step whose execution has a row commutes past a run of steps of other executions.
proof fn lemma_merged_commute_present(y: Seq<EventView>, ev: EventView, s: Seq<EventView>)
    requires
        has_run(y, ev.node, ev.invoke),
        forall|k: int| 0 <= k < s.len() ==> !((#[trigger] s[k]).node == ev.node && s[k].invoke == ev.invoke),
    ensures
        upsert(merged(y, s), ev) == merged(upsert(y, ev), s),
    decreases s.len(),
{
    if s.len() > 0 {
        let s1 = s.drop_last();
        assert forall|k: int| 0 <= k < s1.len() implies !((#[trigger] s1[k]).node == ev.node && s1[k].invoke
            == ev.invoke) by {
            assert(s1[k] == s[k]);
        }
        lemma_merged_commute_present(y, ev, s1);
        let m = merged(y, s1);
        let i = choose|i: int| 0 <= i < y.len() && #[trigger] y[i].node == ev.node && y[i].invoke == ev.invoke;
        lemma_merged_keeps_runs(y, s1);
        assert(has_run(m, y[i].node, y[i].invoke));
        assert(s.last() == s[s.len() - 1]);
        lemma_upsert_commute(m, ev, s.last());
    }
}

/// A step commutes past a run of steps of other executions that all have rows already.
proof fn lemma_merged_commute_rows(x: Seq<EventView>, ev: EventView, s: Seq<EventView>)
    requires
        forall|k: int| 0 <= k < s.len() ==> has_run(x, (#[trigger] s[k]).node, s[k].invoke),
        forall|k: int| 0 <= k < s.len() ==> !((#[trigger] s[k]).node == ev.node && s[k].invoke == ev.invoke),
    ensures
        merged(upsert(x, ev), s) == upsert(merged(x, s), ev),
    decreases s.len(),
{
    if s.len() > 0 {
        let s1 = s.drop_last();
        assert forall|k: int| 0 <= k < s1.len() implies has_run(x, (#[trigger] s1[k]).node, s1[k].invoke)
            && !(s1[k].node == ev.node && s1[k].invoke == ev.invoke) by {
            assert(s1[k] == s[k]);
        }
        lemma_merged_commute_rows(x, ev, s1);
        let m = merged(x, s1);
        let l = s.last();
        assert(l == s[s.len() - 1]);
        assert(has_run(x, l.node, l.invoke));
        let i = choose|i: int| 0 <= i < x.len() && #[trigger] x[i].node == l.node && x[i].invoke == l.invoke;
        lemma_merged_keeps_runs(x, s1);
        assert(has_run(m, x[i].node, x[i].invoke));
        lemma_upsert_commute(m, l, ev);
    }
}

/// Merging into a trace, then recording a step, is merging the updates with that step
/// recorded among them, when the updates hold one row per execution.
proof fn lemma_merged_upsert(t: Seq<EventView>, u: Seq<EventView>, ev: EventView)
    requires
        runs_distinct(u),
    ensures
        merged(t, upsert(u, ev)) == upsert(merged(t, u), ev),
{
    let p = is_run(ev.node, ev.invoke);
    crate::find::lemma_first(u, p);
    match crate::find::first(u, p) {
        None => {
            assert(upsert(u, ev).drop_last() =~= u);
        },
        Some(i) => {
            let x = u[i];
            let c = absorbed(x, ev);
            let pre = u.take(i);
            let suf = u.skip(i + 1);
            assert(upsert(u, ev) =~= pre.push(c) + suf);
            assert(u =~= pre.push(x) + suf);
            lemma_merged_append(t, pre.push(c), suf);
            lemma_merged_append(t, pre.push(x), suf);
            assert(pre.push(c).drop_last() =~= pre);
            assert(pre.push(x).drop_last() =~= pre);
            let mp = merged(t, pre);
            lemma_upsert_twice_same(mp, x, ev);
            let y = upsert(mp, x);
            lemma_upsert_keeps_run(mp, x, x.node, x.invoke);
            assert forall|k: int| 0 <= k < suf.len() implies !((#[trigger] suf[k]).node == ev.node
                && suf[k].invoke == ev.invoke) by {
                assert(suf[k] == u[i + 1 + k]);
            }
            lemma_merged_commute_present(y, ev, suf);
        },
    }
}

/// Replaying a log in two parts: the trace of the whole log is the trace of the first
/// part with the trace of the second part merged into it.
pub proof fn law_rebuilt_in_parts(a: Seq<TraceLogEntry>, b: Seq<TraceLogEntry>)
    ensures
        rebuilt(a + b) == merged(rebuilt(a), rebuilt(b)),
    decreases b.len(),
{
    if b.len() == 0 {
        assert(a + b =~= a);
    } else {
        let b1 = b.drop_last();
        law_rebuilt_in_parts(a, b1);
        assert((a + b).drop_last() =~= a + b1);
        assert((a + b).last() == b.last());
        if let Some(ev) = entry_event(b.last()) {
            law_rebuilt_runs_distinct(b1);
            lemma_merged_upsert(rebuilt(a), rebuilt(b1), ev);
        }
    }
}

proof fn lemma_merged_collapsed(x: Seq<EventView>, u: Seq<EventView>)
    ensures
        merged(x, u) == merged(x, merged(seq![], u)),
        runs_distinct(merged(seq![], u)),
    decreases u.len(),
{
    law_merged_runs_distinct(seq![], u);
    if u.len() > 0 {
        let u1 = u.drop_last();
        lemma_merged_collapsed(x, u1);
        law_merged_runs_distinct(seq![], u1);
        lemma_merged_upsert(x, merged(seq![], u1), u.last());
    }
}

proof fn lemma_merge_distinct_twice(b: Seq<EventView>, c: Seq<EventView>)
    requires
        runs_distinct(c),
    ensures
        merged(merged(b, c), c) == merged(b, c),
    decreases c.len(),
{
    if c.len() > 0 {
        let c1 = c.drop_last();
        let e = c.last();
        assert(runs_distinct(c1)) by {
            assert forall|i: int, j: int| 0 <= i < j < c1.len() implies !(#[trigger] c1[i].node
                == #[trigger] c1[j].node && c1[i].invoke == c1[j].invoke) by {
                assert(c1[i] == c[i] && c1[j] == c[j]);
            }
        }
        lemma_merge_distinct_twice(b, c1);
        let m1 = merged(b, c1);
        let y = upsert(m1, e);
        lemma_merged_keeps_runs(b, c1);
        assert forall|k: int| 0 <= k < c1.len() implies has_run(m1, (#[trigger] c1[k]).node, c1[k].invoke)
            && !(c1[k].node == e.node && c1[k].invoke == e.invoke) by {
            assert(c1[k] == c[k]);
            assert(e == c[c.len() - 1]);
        }
        lemma_merged_commute_rows(m1, e, c1);
        law_upsert_idempotent(m1, e);
    }
}

/// Merging the same updates a second time changes nothing.
pub proof fn law_merge_twice(base: Seq<EventView>, updates: Seq<EventView>)
    ensures
        merged(merged(base, updates), updates) == merged(base, updates),
{
    let c = merged(seq![], updates);
    lemma_merged_collapsed(base, updates);
    lemma_merged_collapsed(merged(base, updates), updates);
    lemma_merge_distinct_twice(base, c);
}

} // verus!
