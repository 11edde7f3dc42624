use std::collections::BTreeMap;
use workflow_engine::executor::{
    choose_detail, choose_step, command_ready, complete_check, complete_step, decision_text, fail_step, next_step,
    node_body, pending_artifact, render_mermaid, status_text, take_complete, take_next, Command, NodeBody,
    Reply, Step,
};
use workflow_engine::instance::{create_process, initial_process};
use workflow_engine::model::{Branch, Edge, Flow, Node, NodeData};
use workflow_engine::state::{command_entry, reconstruct_trace_from_jsonl, Limits, ProcessFile, ProcessState, Status, TraceLogEntry};

fn node(id: &str, node_type: &str, label: &str) -> Node {
    Node {
        id: id.to_string(),
        node_type: node_type.to_string(),
        data: NodeData {
            label: label.to_string(),
            node_ref_path: None,
            condition: None,
            branches: vec![],
            content: None,
        },
    }
}

fn business(id: &str, label: &str, path: &str) -> Node {
    let mut n = node(id, "business", label);
    n.data.node_ref_path = Some(path.to_string());
    n
}

fn edge(source: &str, target: &str, branch: Option<&str>) -> Edge {
    Edge { source: source.to_string(), target: target.to_string(), branch_id: branch.map(|b| b.to_string()) }
}

fn branch(id: &str, name: &str, description: Option<&str>) -> Branch {
    Branch { id: id.to_string(), name: name.to_string(), description: description.map(|d| d.to_string()) }
}

fn decision(id: &str, label: &str, branches: Vec<Branch>) -> Node {
    let mut n = node(id, "decision", label);
    n.data.branches = branches;
    n
}

/// start → a (任务理解) → end
fn single_flow() -> Flow {
    Flow {
        nodes: vec![
            node("start", "start", "开始"),
            node("end", "end", "结束"),
            business("a", "任务理解", ".nodes/任务理解.md"),
        ],
        edges: vec![edge("start", "a", None), edge("a", "end", None)],
    }
}

/// The files a run reads and writes, kept in memory: node task files and artifacts.
struct World {
    files: BTreeMap<String, String>,
    artifacts: BTreeMap<(String, String), String>,
    counter: usize,
    log: Vec<TraceLogEntry>,
}

impl World {
    fn new() -> Self {
        let mut files = BTreeMap::new();
        files.insert(".nodes/任务理解.md".to_string(), "# 任务\n- 理解任务\n".to_string());
        files.insert(".nodes/任务调研.md".to_string(), "# 任务\n- 调研\n".to_string());
        files.insert(".nodes/调研.md".to_string(), "# 调研\n- 调研\n".to_string());
        files.insert(".nodes/写方案.md".to_string(), "# 写方案\n- 写方案\n".to_string());
        World { files, artifacts: BTreeMap::new(), counter: 0, log: Vec::new() }
    }

    fn fresh_invoke(&mut self) -> String {
        self.counter += 1;
        format!("invoke-{}", self.counter)
    }

    fn create(&mut self, flow: &Flow) -> ProcessFile {
        let inv = self.fresh_invoke();
        self.log.push(command_entry("2026-08-22-19-50-00", "instance create"));
        initial_process(flow, "wf", "i1", None, Limits::default(), &inv).unwrap()
    }

    fn keep(&mut self, step: Step) -> Result<Reply, String> {
        if let Some(l) = step.log {
            self.log.push(l);
        }
        step.reply
    }

    fn show(&self, flow: &Flow, pf: &ProcessFile) -> String {
        let n = flow.node(&pf.state.current).unwrap();
        if n.node_type == "decision" {
            return decision_text(n);
        }
        match node_body(n) {
            NodeBody::Text(t) => t,
            NodeBody::File(p) => self.files.get(&p).cloned().unwrap_or_else(|| format!("节点文件缺失: {p}")),
        }
    }

    fn next(&mut self, flow: &Flow, pf: &mut ProcessFile) -> Result<String, String> {
        let written = match pending_artifact(&pf.state) {
            Some((n, i)) => self.artifacts.get(&(n, i)).map(|c| !c.is_empty()).unwrap_or(false),
            None => true,
        };
        let step: Step = next_step(pf, flow, written, "2026-08-22-19-50-04");
        match self.keep(step) {
            Ok(Reply::ShowNode) => Ok(self.show(flow, pf)),
            Ok(Reply::Message(m)) => Ok(m),
            Err(e) => Err(e),
        }
    }

    fn complete(&mut self, flow: &Flow, pf: &mut ProcessFile, output: &str) -> Result<String, String> {
        command_ready(&pf.state, Command::Complete)?;
        complete_check(output)?;
        self.artifacts.insert((pf.state.current_name.clone(), pf.state.current_invoke.clone()), output.to_string());
        let inv = self.fresh_invoke();
        let step = complete_step(pf, flow, &inv, "2026-08-22-19-50-05");
        match self.keep(step) {
            Ok(Reply::Message(m)) => Ok(m),
            Ok(Reply::ShowNode) => Ok(String::new()),
            Err(e) => Err(e),
        }
    }

    fn fail(&mut self, flow: &Flow, pf: &mut ProcessFile, reason: &str) -> Result<String, String> {
        command_ready(&pf.state, Command::Fail)?;
        let inv = self.fresh_invoke();
        let step = fail_step(pf, flow, &inv, "2026-08-22-19-50-06");
        match self.keep(step) {
            Ok(Reply::Message(m)) => Ok(m),
            Ok(Reply::ShowNode) => Ok(String::new()),
            Err(e) => Err(format!("{e} ({reason})")),
        }
    }

    fn choose_branch(&mut self, flow: &Flow, pf: &mut ProcessFile, b: &str, reason: Option<&str>) -> Result<String, String> {
        command_ready(&pf.state, Command::Choose)?;
        let detail = choose_detail(&pf.state, flow, b, reason)?;
        self.artifacts.insert((pf.state.current_name.clone(), pf.state.current_invoke.clone()), detail);
        let inv = self.fresh_invoke();
        let step = choose_step(pf, flow, b, &inv, "2026-08-22-19-50-07");
        match self.keep(step) {
            Ok(Reply::Message(m)) => Ok(m),
            Ok(Reply::ShowNode) => Ok(String::new()),
            Err(e) => Err(e),
        }
    }

    fn invokes_of(&self, node: &str) -> usize {
        self.artifacts.keys().filter(|(n, _)| n == node).count()
    }
}

#[test]
fn next_outputs_node_content() {
    let flow = single_flow();
    let mut w = World::new();
    let mut pf = w.create(&flow);
    let out = w.next(&flow, &mut pf).unwrap();
    assert!(out.contains("- 理解任务"));
    assert_eq!(pf.state.status, Status::Executing);
}

#[test]
fn next_requires_idle() {
    let flow = single_flow();
    let mut w = World::new();
    let mut pf = w.create(&flow);
    w.next(&flow, &mut pf).unwrap();
    assert!(w.next(&flow, &mut pf).is_err());
}

#[test]
fn complete_requires_output_and_advances() {
    let flow = single_flow();
    let mut w = World::new();
    let mut pf = w.create(&flow);
    w.next(&flow, &mut pf).unwrap();
    assert!(w.complete(&flow, &mut pf, "").is_err());
    w.complete(&flow, &mut pf, "产物").unwrap();
    assert_eq!(pf.state.current, "end");
    assert_eq!(pf.state.status, Status::Idle);
    let out = w.next(&flow, &mut pf).unwrap();
    assert!(out.contains("已完成"));
}

#[test]
fn process_node_outputs_inline_content() {
    let mut p = node("p", "process", "代码审核");
    p.data.content = Some("详细审核代码看看".to_string());
    let flow = Flow {
        nodes: vec![node("start", "start", "开始"), node("end", "end", "结束"), p],
        edges: vec![edge("start", "p", None), edge("p", "end", None)],
    };
    let mut w = World::new();
    let mut pf = w.create(&flow);
    let out = w.next(&flow, &mut pf).unwrap();
    assert!(out.contains("详细审核代码看看"));
}

#[test]
fn business_node_missing_ref_reports_clearly() {
    let flow = Flow {
        nodes: vec![node("start", "start", "开始"), node("end", "end", "结束"), node("a", "business", "任务理解")],
        edges: vec![edge("start", "a", None), edge("a", "end", None)],
    };
    let mut w = World::new();
    let mut pf = w.create(&flow);
    let out = w.next(&flow, &mut pf).unwrap();
    assert!(out.contains("缺少 nodeRefPath"));
}

#[test]
fn mermaid_render_sanitizes_node_ids_with_spaces() {
    let flow = Flow {
        nodes: vec![
            node("start", "start", "开始"),
            node("end", "end", "结束"),
            decision("d", "检测 审核", vec![branch("b1", "没问题", None), branch("b2", "其他", None)]),
        ],
        edges: vec![edge("start", "d", None), edge("d", "end", Some("b1")), edge("d", "end", Some("b2"))],
    };
    let state = ProcessState {
        workflow: "wf".into(),
        instance_id: "id".into(),
        initial_input: None,
        status: Status::Idle,
        current: "d".into(),
        current_name: "检测 审核".into(),
        current_invoke: "invoke-1".into(),
        step: 0,
        loop_count: 0,
        retry_count: 0,
        last_node: None,
        last_invoke: None,
        completed: vec![],
        limits: Limits::default(),
    };
    let mermaid = render_mermaid(&flow, &state);
    assert!(mermaid.contains("d{检测 审核}"), "节点 ID 应为安全标识而非带空格的 label:\n{mermaid}");
    assert!(!mermaid.contains("检测 审核{检测 审核}"), "节点 ID 不应包含空格:\n{mermaid}");
}

fn type_flow() -> Flow {
    let mut p = node("p", "process", "搜索代码库");
    p.data.content = Some("直接搜索".to_string());
    Flow {
        nodes: vec![
            node("start", "start", "开始"),
            node("end", "end", "结束"),
            business("a", "任务理解", ".nodes/任务理解.md"),
            decision(
                "d",
                "查类型",
                vec![branch("code", "写代码", None), branch("other", "其他", Some("均不符合上述分类的进入本分支"))],
            ),
            p,
        ],
        edges: vec![
            edge("start", "a", None),
            edge("a", "d", None),
            edge("d", "p", Some("other")),
            edge("p", "end", None),
            edge("d", "end", Some("code")),
        ],
    }
}

#[test]
fn choose_forward_does_not_increment_loop_count() {
    let flow = type_flow();
    let mut w = World::new();
    let mut pf = w.create(&flow);
    w.next(&flow, &mut pf).unwrap();
    w.complete(&flow, &mut pf, "理解产物").unwrap();
    w.next(&flow, &mut pf).unwrap();
    w.choose_branch(&flow, &mut pf, "其他", None).unwrap();
    assert_eq!(pf.state.loop_count, 0);
}

fn review_flow() -> Flow {
    Flow {
        nodes: vec![
            node("start", "start", "开始"),
            node("end", "end", "结束"),
            business("a", "调研", ".nodes/调研.md"),
            business("b", "写方案", ".nodes/写方案.md"),
            decision("d", "审核", vec![branch("ok", "通过", None), branch("other", "其他", None)]),
        ],
        edges: vec![
            edge("start", "a", None),
            edge("a", "b", None),
            edge("b", "d", None),
            edge("d", "b", Some("other")),
            edge("d", "end", Some("ok")),
        ],
    }
}

#[test]
fn choose_loop_back_increments_loop_count() {
    let flow = review_flow();
    let mut w = World::new();
    let mut pf = w.create(&flow);
    w.next(&flow, &mut pf).unwrap();
    w.complete(&flow, &mut pf, "调研产物").unwrap();
    w.next(&flow, &mut pf).unwrap();
    w.complete(&flow, &mut pf, "方案产物").unwrap();
    w.next(&flow, &mut pf).unwrap();
    w.choose_branch(&flow, &mut pf, "其他", None).unwrap();
    assert_eq!(pf.state.loop_count, 1);
}

#[test]
fn create_instance() {
    let flow = single_flow();
    let pf = create_process(&flow, "wf", "inst-1", Some("任务"), Limits::default()).unwrap();
    assert_eq!(pf.state.instance_id, "inst-1");
    assert_eq!(pf.state.status, Status::Idle);
    assert_eq!(pf.state.current, "a");
    assert!(pf.state.current_invoke.starts_with("invoke-"));
    assert_eq!(pf.state.initial_input.as_deref(), Some("任务"));
    assert!(pf.trace.is_empty());
}

/// start → a (任务理解) → b (任务调研) → d (审核: 没问题 → end, 其他 → b)
fn main_flow() -> Flow {
    let mut d = decision("d", "审核", vec![branch("ok", "没问题", None), branch("other", "其他", Some("均不符合"))]);
    d.data.condition = Some("前置产物".to_string());
    Flow {
        nodes: vec![
            node("start", "start", "开始"),
            node("end", "end", "结束"),
            business("a", "任务理解", ".nodes/任务理解.md"),
            business("b", "任务调研", ".nodes/任务调研.md"),
            d,
        ],
        edges: vec![
            edge("start", "a", None),
            edge("a", "b", None),
            edge("b", "d", None),
            edge("d", "end", Some("ok")),
            edge("d", "b", Some("other")),
        ],
    }
}

#[test]
fn linear_run_to_completion() {
    let flow = main_flow();
    let mut w = World::new();
    let mut pf = w.create(&flow);
    let out = w.next(&flow, &mut pf).unwrap();
    assert!(out.contains("- 理解"));
    w.complete(&flow, &mut pf, "理解产物").unwrap();
    let out = w.next(&flow, &mut pf).unwrap();
    assert!(out.contains("- 调研"));
    w.complete(&flow, &mut pf, "调研产物").unwrap();
    let out = w.next(&flow, &mut pf).unwrap();
    assert!(out.contains("可选分支"));
    w.choose_branch(&flow, &mut pf, "没问题", None).unwrap();
    let out = w.next(&flow, &mut pf).unwrap();
    assert!(out.contains("已完成"));
    assert_eq!(pf.state.status, Status::Completed);
    assert_eq!(pf.trace.last().unwrap().invoke, "-");
}

#[test]
fn loop_reentry_increments_invoke() {
    let flow = main_flow();
    let mut w = World::new();
    let mut pf = w.create(&flow);
    w.next(&flow, &mut pf).unwrap();
    w.complete(&flow, &mut pf, "a1").unwrap();
    w.next(&flow, &mut pf).unwrap();
    w.complete(&flow, &mut pf, "b1").unwrap();
    w.next(&flow, &mut pf).unwrap();
    w.choose_branch(&flow, &mut pf, "其他", None).unwrap();
    w.next(&flow, &mut pf).unwrap();
    assert_eq!(w.invokes_of("任务调研"), 1);
    w.complete(&flow, &mut pf, "b2").unwrap();
    assert_eq!(w.invokes_of("任务调研"), 2);
}

#[test]
fn complete_without_output_rejected() {
    let flow = main_flow();
    let mut w = World::new();
    let mut pf = w.create(&flow);
    w.next(&flow, &mut pf).unwrap();
    let err = w.complete(&flow, &mut pf, "").unwrap_err();
    assert!(err.contains("提供产物"));
    let err = w.complete(&flow, &mut pf, " \n\t").unwrap_err();
    assert!(err.contains("提供产物"));
}

#[test]
fn illegal_transition_rejected() {
    let flow = main_flow();
    let mut w = World::new();
    let mut pf = w.create(&flow);
    let err = w.complete(&flow, &mut pf, "x").unwrap_err();
    assert!(err.contains("无执行中"));
}

#[test]
fn choose_refuses_unknown_branch() {
    let flow = main_flow();
    let mut w = World::new();
    let mut pf = w.create(&flow);
    w.next(&flow, &mut pf).unwrap();
    w.complete(&flow, &mut pf, "a1").unwrap();
    w.next(&flow, &mut pf).unwrap();
    w.complete(&flow, &mut pf, "b1").unwrap();
    w.next(&flow, &mut pf).unwrap();
    let err = w.choose_branch(&flow, &mut pf, "不存在", None).unwrap_err();
    assert_eq!(err, "分支 不存在 不存在，可选: 没问题/其他");
    assert_eq!(pf.state.status, Status::AwaitingChoice);
    let d = choose_detail(&pf.state, &flow, "没问题", Some("评审通过")).unwrap();
    assert_eq!(d, "## 选择分支\n- 没问题\n\n## 理由\n- 评审通过");
    assert_eq!(choose_detail(&pf.state, &flow, "没问题", None).unwrap(), "## 选择分支\n- 没问题");
}

#[test]
fn next_waits_for_the_last_artifact() {
    let flow = main_flow();
    let mut w = World::new();
    let mut pf = w.create(&flow);
    w.next(&flow, &mut pf).unwrap();
    w.complete(&flow, &mut pf, "a1").unwrap();
    let (n, i) = pending_artifact(&pf.state).unwrap();
    assert_eq!(n, "任务理解");
    let step = next_step(&mut pf, &flow, false, "t");
    assert!(!step.save && step.log.is_none());
    assert_eq!(step.reply.unwrap_err(), format!("节点 任务理解 ({i}) 未写入产物，请补写后再 next"));
    assert_eq!(pf.state.status, Status::Idle);
}

#[test]
fn step_limit_aborts() {
    let flow = main_flow();
    let mut w = World::new();
    let inv = w.fresh_invoke();
    let mut pf = initial_process(&flow, "wf", "i1", None, Limits { max_steps: 1, max_loop: 10, max_retry: 2 }, &inv).unwrap();
    w.next(&flow, &mut pf).unwrap();
    w.complete(&flow, &mut pf, "a1").unwrap();
    let err = w.next(&flow, &mut pf).unwrap_err();
    assert_eq!(err, "超出最大步数 1");
    assert_eq!(pf.state.status, Status::Aborted);
    assert_eq!(pf.state.step, 2);
    assert!(w.next(&flow, &mut pf).is_err());
}

#[test]
fn retry_limit_aborts_and_fail_resets_the_execution() {
    let flow = main_flow();
    let mut w = World::new();
    let mut pf = w.create(&flow);
    w.next(&flow, &mut pf).unwrap();
    let before = pf.state.current_invoke.clone();
    assert_eq!(w.fail(&flow, &mut pf, "r").unwrap(), "已标记失败，可重新 next 重试");
    assert_eq!(pf.state.status, Status::Idle);
    assert_eq!(pf.state.retry_count, 1);
    assert_ne!(pf.state.current_invoke, before);
    assert_eq!(pf.trace.iter().filter(|e| e.status == "failed").count(), 1);
    w.next(&flow, &mut pf).unwrap();
    w.fail(&flow, &mut pf, "r").unwrap();
    w.next(&flow, &mut pf).unwrap();
    let err = w.fail(&flow, &mut pf, "r").unwrap_err();
    assert!(err.starts_with("超出最大重试次数 2"));
    assert_eq!(pf.state.status, Status::Aborted);
}

#[test]
fn complete_clears_retries_and_records_completion() {
    let flow = main_flow();
    let mut w = World::new();
    let mut pf = w.create(&flow);
    w.next(&flow, &mut pf).unwrap();
    w.fail(&flow, &mut pf, "r").unwrap();
    w.next(&flow, &mut pf).unwrap();
    let msg = w.complete(&flow, &mut pf, "a1").unwrap();
    assert_eq!(msg, "已推进到 任务调研");
    assert_eq!(pf.state.retry_count, 0);
    assert_eq!(pf.state.completed, vec!["任务理解".to_string()]);
    assert_eq!(pf.state.last_node.as_deref(), Some("任务理解"));
}

#[test]
fn status_table_text() {
    let flow = main_flow();
    let mut w = World::new();
    let pf = w.create(&flow);
    assert_eq!(
        status_text(&pf.state),
        "| 字段 | 值 |\n|------|-----|\n| 实例 | i1 |\n| 工作流 | wf |\n| 状态 | idle |\n| 当前节点 | 任务理解 (invoke-1) |\n| 步数 | 0 |\n| 环回次数 | 0 |\n| 失败重试 | 0 |\n| 限制 | max_steps=100 / max_loop=10 / max_retry=2 |"
    );
}

#[test]
fn decision_text_lists_branches() {
    let flow = main_flow();
    let d = flow.node("d").unwrap();
    assert_eq!(decision_text(d), "# 判断内容\n\n前置产物\n\n# 可选分支\n\n- 没问题\n- 其他 (均不符合)\n");
}

#[test]
fn commands_at_the_current_time() {
    let flow = single_flow();
    let mut pf = create_process(&flow, "wf", "i1", None, Limits::default()).unwrap();
    let step = take_next(&mut pf, &flow, true);
    assert!(matches!(step.reply, Ok(Reply::ShowNode)));
    let log = step.log.unwrap();
    assert_eq!(log.command, "next");
    assert_eq!(log.status.as_deref(), Some("active"));
    assert_eq!(log.ts.len(), 19);
    let step = take_complete(&mut pf, &flow);
    assert!(step.save);
    assert!(pf.state.current_invoke.starts_with("invoke-"));
    assert_eq!(pf.state.current, "end");
}

#[test]
fn mermaid_colours_progress() {
    let flow = main_flow();
    let mut w = World::new();
    let mut pf = w.create(&flow);
    w.next(&flow, &mut pf).unwrap();
    w.complete(&flow, &mut pf, "a1").unwrap();
    let m = render_mermaid(&flow, &pf.state);
    assert!(m.starts_with("```mermaid\nflowchart TD\n\n"));
    assert!(m.contains("    start_node([开始])\n"));
    assert!(m.contains("    d{审核}\n"));
    assert!(m.contains("    d -->|没问题| end_node\n"));
    assert!(m.contains("    class start_node,a done;\n"));
    assert!(m.contains("    class b current;\n"));
    assert!(m.contains("    class end_node,d pending;\n"));
    assert!(m.ends_with("```"));
    assert_eq!(pf.mermaid, m);
}

#[test]
fn finished_instance_refuses_every_command() {
    let flow = single_flow();
    let mut w = World::new();
    let mut pf = w.create(&flow);
    w.next(&flow, &mut pf).unwrap();
    w.complete(&flow, &mut pf, "产物").unwrap();
    w.next(&flow, &mut pf).unwrap();
    assert_eq!(pf.state.status, Status::Completed);
    let before = format!("{:?}", pf.state);
    assert_eq!(w.next(&flow, &mut pf).unwrap_err(), "当前节点未完成，先 complete/choose");
    assert_eq!(w.complete(&flow, &mut pf, "x").unwrap_err(), "当前无执行中的业务节点");
    assert_eq!(w.fail(&flow, &mut pf, "x").unwrap_err(), "当前无执行中的业务节点");
    assert_eq!(w.choose_branch(&flow, &mut pf, "x", None).unwrap_err(), "当前无待决策节点");
    assert_eq!(format!("{:?}", pf.state), before);
}

#[test]
fn completed_list_names_each_node_once() {
    let flow = main_flow();
    let mut w = World::new();
    let mut pf = w.create(&flow);
    for out in ["a1", "b1"] {
        w.next(&flow, &mut pf).unwrap();
        w.complete(&flow, &mut pf, out).unwrap();
    }
    w.next(&flow, &mut pf).unwrap();
    w.choose_branch(&flow, &mut pf, "其他", None).unwrap();
    assert_eq!(pf.state.loop_count, 1);
    w.next(&flow, &mut pf).unwrap();
    w.complete(&flow, &mut pf, "b2").unwrap();
    w.next(&flow, &mut pf).unwrap();
    w.choose_branch(&flow, &mut pf, "其他", None).unwrap();
    assert_eq!(pf.state.loop_count, 2);
    assert_eq!(pf.state.completed, vec!["任务理解".to_string(), "任务调研".to_string(), "审核".to_string()]);
    assert_eq!(pf.state.step, 5);
}

#[test]
fn loop_limit_aborts() {
    let flow = main_flow();
    let mut w = World::new();
    let inv = w.fresh_invoke();
    let mut pf = initial_process(&flow, "wf", "i1", None, Limits { max_steps: 100, max_loop: 0, max_retry: 2 }, &inv).unwrap();
    for out in ["a1", "b1"] {
        w.next(&flow, &mut pf).unwrap();
        w.complete(&flow, &mut pf, out).unwrap();
    }
    w.next(&flow, &mut pf).unwrap();
    assert_eq!(w.choose_branch(&flow, &mut pf, "其他", None).unwrap_err(), "超出最大环回次数 0");
    assert_eq!(pf.state.status, Status::Aborted);
    assert_eq!(pf.state.loop_count, 1);
}

#[test]
fn trace_jsonl_created_on_instance_create() {
    let flow = main_flow();
    let mut w = World::new();
    w.create(&flow);
    assert_eq!(w.log.len(), 1);
    assert_eq!(w.log[0].command, "instance create");
}

#[test]
fn trace_jsonl_records_workflow_commands() {
    let flow = main_flow();
    let mut w = World::new();
    let mut pf = w.create(&flow);
    w.next(&flow, &mut pf).unwrap();
    w.complete(&flow, &mut pf, "理解产物").unwrap();
    assert!(w.log.len() >= 3);
    assert!(w.log.iter().any(|l| l.command == "instance create"));
    assert!(w.log.iter().any(|l| l.command == "next" && l.status.as_deref() == Some("active")));
    assert!(w.log.iter().any(|l| l.command == "complete" && l.status.as_deref() == Some("completed")));
}

#[test]
fn trace_jsonl_records_choose_with_branch() {
    let flow = main_flow();
    let mut w = World::new();
    let mut pf = w.create(&flow);
    for out in ["理解产物", "调研产物"] {
        w.next(&flow, &mut pf).unwrap();
        w.complete(&flow, &mut pf, out).unwrap();
    }
    w.next(&flow, &mut pf).unwrap();
    w.choose_branch(&flow, &mut pf, "其他", None).unwrap();
    assert!(w.log.iter().any(|l| l.command == "choose"));
    assert!(w.log.iter().any(|l| l.branch.as_deref() == Some("其他")));
}

#[test]
fn trace_jsonl_records_fail_command() {
    let flow = main_flow();
    let mut w = World::new();
    let mut pf = w.create(&flow);
    w.next(&flow, &mut pf).unwrap();
    w.fail(&flow, &mut pf, "执行失败原因").unwrap();
    assert!(w.log.iter().any(|l| l.command == "fail" && l.status.as_deref() == Some("failed")));
}

#[test]
fn trace_jsonl_end_node_completed() {
    let flow = main_flow();
    let mut w = World::new();
    let mut pf = w.create(&flow);
    for out in ["理解产物", "调研产物"] {
        w.next(&flow, &mut pf).unwrap();
        w.complete(&flow, &mut pf, out).unwrap();
    }
    w.next(&flow, &mut pf).unwrap();
    w.choose_branch(&flow, &mut pf, "没问题", None).unwrap();
    w.next(&flow, &mut pf).unwrap();
    assert!(w.log.iter().any(|l| l.command == "next" && l.status.as_deref() == Some("completed")));
    assert!(w.log.iter().any(|l| l.invoke.as_deref() == Some("-")));
}

#[test]
fn log_replays_to_the_trace() {
    let flow = main_flow();
    let mut w = World::new();
    let mut pf = w.create(&flow);
    for out in ["理解产物", "调研产物"] {
        w.next(&flow, &mut pf).unwrap();
        w.complete(&flow, &mut pf, out).unwrap();
    }
    w.next(&flow, &mut pf).unwrap();
    w.choose_branch(&flow, &mut pf, "其他", None).unwrap();
    let replayed = reconstruct_trace_from_jsonl(&w.log);
    let a: Vec<_> = replayed.iter().map(|e| (&e.node, &e.invoke, &e.status, &e.branch)).collect();
    let b: Vec<_> = pf.trace.iter().map(|e| (&e.node, &e.invoke, &e.status, &e.branch)).collect();
    assert_eq!(a, b);
}
