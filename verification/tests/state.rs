use workflow_engine::state::{
    command_entry, command_entry_now, merge_trace, parse_trace_table, reconstruct_trace_from_jsonl,
    render_trace_table, split_process_md, trace_jsonl_path, Limits, ProcessFile, ProcessState, Status,
    TraceEvent, TraceLogEntry,
};

fn sample_state() -> ProcessState {
    ProcessState {
        workflow: "wf".into(),
        instance_id: "id".into(),
        initial_input: Some("任务".into()),
        status: Status::Idle,
        current: "b-1".into(),
        current_name: "任务理解".into(),
        current_invoke: "invoke-20260818-000001".into(),
        step: 0,
        loop_count: 0,
        retry_count: 0,
        last_node: None,
        last_invoke: None,
        completed: vec![],
        limits: Limits::default(),
    }
}

fn log(ts: &str, command: &str, node: Option<&str>, invoke: Option<&str>, status: Option<&str>, branch: Option<&str>) -> TraceLogEntry {
    TraceLogEntry {
        ts: ts.into(),
        command: command.into(),
        node: node.map(|s| s.to_string()),
        invoke: invoke.map(|s| s.to_string()),
        status: status.map(|s| s.to_string()),
        branch: branch.map(|s| s.to_string()),
    }
}

fn event(status: &str, node: &str, invoke: &str, branch: Option<&str>, time: &str) -> TraceEvent {
    TraceEvent {
        status: status.into(),
        node: node.into(),
        invoke: invoke.into(),
        branch: branch.map(|s| s.to_string()),
        time: time.into(),
    }
}

// The front matter as the YAML writer lays it out for `sample_state`.
const SAMPLE_YAML: &str = "workflow: wf\ninstance_id: id\ninitial_input: 任务\nstatus: idle\ncurrent: b-1\ncurrent_name: 任务理解\ncurrent_invoke: invoke-20260818-000001\nstep: 0\nloop_count: 0\nretry_count: 0\nlimits:\n  max_steps: 100\n  max_loop: 10\n  max_retry: 2\n";

#[test]
fn roundtrip_write_read() {
    let mut pf = ProcessFile {
        state: sample_state(),
        mermaid: "```mermaid\nflowchart TD\n```".into(),
        trace: Vec::new(),
    };
    pf.append_trace("completed", "任务理解", "invoke-1", None);
    let text = pf.compose(SAMPLE_YAML);

    let (yaml, mermaid, trace_text) = split_process_md(&text).unwrap();
    assert!(yaml.contains("workflow: wf"));
    assert!(yaml.contains("initial_input: 任务"));
    assert!(yaml.contains("status: idle"));
    assert!(yaml.contains("current_invoke: invoke-20260818-000001"));
    assert_eq!(yaml, SAMPLE_YAML.trim_end_matches('\n'));
    assert_eq!(mermaid, "```mermaid\nflowchart TD\n```");
    let trace = parse_trace_table(&trace_text);
    assert_eq!(trace.len(), 1);
    assert_eq!(trace[0].status, "completed");
    assert_eq!(trace[0].node, "任务理解");
    assert_eq!(trace[0].invoke, "invoke-1");
}

#[test]
fn default_limits() {
    let l = Limits::default();
    assert_eq!(l.max_steps, 100);
    assert_eq!(l.max_loop, 10);
    assert_eq!(l.max_retry, 2);
}

#[test]
fn status_as_str() {
    assert_eq!(Status::Idle.as_str(), "idle");
    assert_eq!(Status::Executing.as_str(), "executing");
    assert_eq!(Status::AwaitingChoice.as_str(), "awaiting_choice");
    assert_eq!(Status::Completed.as_str(), "completed");
    assert_eq!(Status::Aborted.as_str(), "aborted");
}

#[test]
fn reconstruct_trace_upsert_semantics() {
    let entries = vec![
        log("2026-08-22-19-50-04", "next", Some("任务理解"), Some("invoke-1"), Some("active"), None),
        log("2026-08-22-19-50-05", "complete", Some("任务理解"), Some("invoke-1"), Some("completed"), None),
        log("2026-08-22-19-50-06", "status", None, None, None, None),
        log("2026-08-22-19-50-07", "next", Some("任务调研"), Some("invoke-2"), Some("active"), None),
    ];
    let trace = reconstruct_trace_from_jsonl(&entries);
    assert_eq!(trace.len(), 2);
    assert_eq!(trace[0].node, "任务理解");
    assert_eq!(trace[0].status, "completed");
    assert_eq!(trace[0].time, "2026-08-22-19-50-04");
    assert_eq!(trace[1].node, "任务调研");
    assert_eq!(trace[1].status, "active");
}

#[test]
fn reconstruct_trace_with_branch() {
    let entries = vec![log("2026-08-22-19-50-04", "choose", Some("审核"), Some("invoke-1"), Some("completed"), Some("没问题"))];
    let trace = reconstruct_trace_from_jsonl(&entries);
    assert_eq!(trace.len(), 1);
    assert_eq!(trace[0].branch.as_deref(), Some("没问题"));
}

#[test]
fn record_updates_the_row_of_the_same_execution() {
    let mut pf = ProcessFile { state: sample_state(), mermaid: String::new(), trace: Vec::new() };
    pf.record("active", "审核", "invoke-1", None, "t1");
    pf.record("completed", "审核", "invoke-1", Some("通过"), "t2");
    pf.record("active", "审核", "invoke-2", None, "t3");
    pf.record("completed", "审核", "invoke-2", None, "t4");
    assert_eq!(pf.trace.len(), 2);
    assert_eq!(pf.trace[0].status, "completed");
    assert_eq!(pf.trace[0].branch.as_deref(), Some("通过"));
    assert_eq!(pf.trace[0].time, "t1");
    assert_eq!(pf.trace[1].status, "completed");
    assert_eq!(pf.trace[1].branch, None);
    assert_eq!(pf.trace[1].time, "t3");
}

#[test]
fn recording_twice_is_recording_once() {
    let mut a = vec![event("active", "A", "i1", None, "t")];
    merge_trace(&mut a, vec![event("completed", "A", "i1", Some("b"), "u")]);
    let once: Vec<(String, Option<String>)> = a.iter().map(|e| (e.status.clone(), e.branch.clone())).collect();
    merge_trace(&mut a, vec![event("completed", "A", "i1", Some("b"), "u")]);
    let twice: Vec<(String, Option<String>)> = a.iter().map(|e| (e.status.clone(), e.branch.clone())).collect();
    assert_eq!(once, twice);
    assert_eq!(a.len(), 1);
}

#[test]
fn merge_trace_updates_and_appends() {
    let mut base = vec![event("active", "A", "i1", None, "t1"), event("completed", "B", "i2", None, "t2")];
    merge_trace(
        &mut base,
        vec![event("completed", "A", "i1", None, "x"), event("active", "C", "i3", Some("br"), "t3")],
    );
    assert_eq!(base.len(), 3);
    assert_eq!(base[0].status, "completed");
    assert_eq!(base[0].time, "t1");
    assert_eq!(base[2].node, "C");
    assert_eq!(base[2].branch.as_deref(), Some("br"));
}

#[test]
fn trace_table_text_and_back() {
    let trace = vec![
        event("completed", "任务理解", "invoke-1", None, "2026-08-22-19-50-04"),
        event("completed", "审核", "invoke-2", Some("没问题"), "2026-08-22-19-50-05"),
    ];
    let table = render_trace_table(&trace);
    assert_eq!(
        table,
        "| # | 状态 | 节点 | 节点执行ID | 执行时间 |\n|---|------|------|-----------|---------|\n| 1 | completed | 任务理解 | invoke-1 | 2026-08-22-19-50-04 |\n| 2 | completed | 审核(没问题) | invoke-2 | 2026-08-22-19-50-05 |\n"
    );
    let back = parse_trace_table(&table);
    assert_eq!(back.len(), 2);
    assert_eq!(back[1].node, "审核");
    assert_eq!(back[1].branch.as_deref(), Some("没问题"));
    assert_eq!(back[1].time, "2026-08-22-19-50-05");
}

#[test]
fn parse_trace_table_skips_other_lines() {
    let text = "intro\n| # | 状态 |\n| short | row |\n|---|---|---|---|---|\n  | 7 | failed | A | i9 | t |  \n";
    let rows = parse_trace_table(text);
    assert_eq!(rows.len(), 1);
    assert_eq!(rows[0].status, "failed");
    assert_eq!(rows[0].invoke, "i9");
}

#[test]
fn split_process_md_requires_front_matter() {
    assert_eq!(split_process_md("no front matter").unwrap_err(), "process.md 缺少 frontmatter 开头 ---");
    assert_eq!(split_process_md("").unwrap_err(), "process.md 缺少 frontmatter 开头 ---");
    let (yaml, mermaid, trace) = split_process_md("---\na: 1\n---\nbody text").unwrap();
    assert_eq!(yaml, "a: 1");
    assert_eq!(mermaid, "");
    assert_eq!(trace, "body text");
}

#[test]
fn trace_jsonl_readonly_only_falls_back_to_process_md() {
    let mut pf = ProcessFile {
        state: sample_state(),
        mermaid: String::new(),
        trace: vec![event("completed", "任务理解", "i1", None, "t1"), event("completed", "任务调研", "i2", None, "t2")],
    };
    pf.absorb_log(&[log("2026-08-22-20-00-00", "status", None, None, None, None)]);
    assert_eq!(pf.trace.len(), 2);
    assert_eq!(pf.trace[0].node, "任务理解");
    assert_eq!(pf.trace[1].node, "任务调研");
}

#[test]
fn trace_jsonl_partial_history_merges_with_process_md() {
    let mut pf = ProcessFile {
        state: sample_state(),
        mermaid: String::new(),
        trace: vec![event("completed", "任务理解", "i1", None, "t1"), event("completed", "任务调研", "i2", None, "t2")],
    };
    pf.absorb_log(&[log("2026-08-22-20-00-00", "next", Some("任务理解"), Some("invoke-partial"), Some("active"), None)]);
    assert_eq!(pf.trace.len(), 3);
    assert_eq!(pf.trace[2].invoke, "invoke-partial");
}

#[test]
fn process_md_trace_derived_from_trace_jsonl() {
    let mut pf = ProcessFile {
        state: sample_state(),
        mermaid: String::new(),
        trace: vec![event("active", "任务理解", "i1", None, "t1")],
    };
    pf.absorb_log(&[
        log("t0", "next", Some("任务理解"), Some("i1"), Some("active"), None),
        log("t1", "complete", Some("任务理解"), Some("i1"), Some("completed"), None),
        log("t2", "next", Some("DECOUPLED_TEST"), Some("invoke-decoupled"), Some("active"), None),
    ]);
    assert_eq!(pf.trace.len(), 2);
    assert_eq!(pf.trace[0].status, "completed");
    assert_eq!(pf.trace[1].node, "DECOUPLED_TEST");
}

#[test]
fn command_entries() {
    let e = command_entry("2026-08-22 19:50:04", "status");
    assert_eq!(e.ts, "2026-08-22 19:50:04");
    assert_eq!(e.command, "status");
    assert!(e.node.is_none() && e.invoke.is_none() && e.status.is_none() && e.branch.is_none());
    let now = command_entry_now("artifact list", "%Y-%m-%d %H:%M:%S");
    assert_eq!(now.command, "artifact list");
    assert_eq!(now.ts.len(), 19);
    assert!(now.node.is_none());
}

#[test]
fn trace_jsonl_location() {
    assert_eq!(trace_jsonl_path("/r/.workflows/wf/instance/i1"), "/r/.workflows/wf/instance/i1/trace/trace.jsonl");
}

#[test]
fn append_trace_stamps_new_rows_with_the_time() {
    let mut pf = ProcessFile { state: sample_state(), mermaid: String::new(), trace: Vec::new() };
    pf.append_trace("active", "A", "i1", None);
    assert_eq!(pf.trace.len(), 1);
    let t = &pf.trace[0].time;
    assert_eq!(t.len(), 19);
    assert_eq!(t.matches('-').count(), 5);
}

#[test]
fn artifact_list_reads_from_trace_jsonl() {
    let mut pf = ProcessFile { state: sample_state(), mermaid: String::new(), trace: Vec::new() };
    pf.absorb_log(&[
        log("t0", "instance create", None, None, None, None),
        log("t1", "next", Some("任务理解"), Some("i1"), Some("active"), None),
        log("t2", "complete", Some("任务理解"), Some("i1"), Some("completed"), None),
        log("t3", "next", Some("任务调研"), Some("i2"), Some("active"), None),
        log("t4", "complete", Some("任务调研"), Some("i2"), Some("completed"), None),
    ]);
    assert_eq!(pf.trace.len(), 2);
    assert_eq!(pf.trace[0].node, "任务理解");
    assert_eq!(pf.trace[1].node, "任务调研");
    assert!(pf.trace.iter().all(|e| e.status == "completed"));
}

#[test]
fn artifact_list_fallback_without_trace_jsonl() {
    let mut pf = ProcessFile {
        state: sample_state(),
        mermaid: String::new(),
        trace: vec![event("completed", "任务理解", "i1", None, "t1"), event("completed", "任务调研", "i2", None, "t2")],
    };
    pf.absorb_log(&[]);
    assert_eq!(pf.trace.len(), 2);
    assert_eq!(pf.trace[0].node, "任务理解");
    assert_eq!(pf.trace[1].status, "completed");
}

#[test]
fn replaying_a_log_in_two_parts() {
    let a = || {
        vec![
            log("t1", "next", Some("A"), Some("i1"), Some("active"), None),
            log("t2", "next", Some("B"), Some("i2"), Some("active"), None),
        ]
    };
    let b = || {
        vec![
            log("t3", "choose", Some("A"), Some("i1"), Some("completed"), Some("通过")),
            log("t4", "next", Some("C"), Some("i3"), Some("active"), None),
            log("t5", "complete", Some("B"), Some("i2"), Some("completed"), None),
        ]
    };
    let mut all = a();
    all.extend(b());
    let whole = reconstruct_trace_from_jsonl(&all);
    let (a, b) = (a(), b());
    let mut parts = reconstruct_trace_from_jsonl(&a);
    merge_trace(&mut parts, reconstruct_trace_from_jsonl(&b));
    let rows = |t: &[TraceEvent]| -> Vec<(String, String, String, Option<String>, String)> {
        t.iter().map(|e| (e.status.clone(), e.node.clone(), e.invoke.clone(), e.branch.clone(), e.time.clone())).collect()
    };
    assert_eq!(rows(&whole), rows(&parts));
    assert_eq!(whole.len(), 3);
}

#[test]
fn merging_twice_is_merging_once() {
    let updates = || {
        vec![
            event("active", "A", "i1", None, "u1"),
            event("completed", "A", "i1", Some("b"), "u2"),
            event("failed", "C", "i3", None, "u3"),
        ]
    };
    let rows = |t: &[TraceEvent]| -> Vec<(String, String, String, Option<String>, String)> {
        t.iter().map(|e| (e.status.clone(), e.node.clone(), e.invoke.clone(), e.branch.clone(), e.time.clone())).collect()
    };
    let mut once = vec![event("active", "B", "i2", None, "t")];
    merge_trace(&mut once, updates());
    let mut twice = vec![event("active", "B", "i2", None, "t")];
    merge_trace(&mut twice, updates());
    merge_trace(&mut twice, updates());
    assert_eq!(rows(&once), rows(&twice));
}
