use std::collections::BTreeMap;
use workflow_engine::artifact_query::{
    apply_context_limit, artifact_content, artifact_kind, compute_diff, context_entry, context_entry_now, diff_pairs, diff_select,
    diff_text, entry_of, list_text, node_display, search_check, search_hits, table_text_at, timeline_text,
    view_select, view_text, ArtifactEntry, ArtifactType, DiffLine,
};
use workflow_engine::state::{Status, TraceEvent};

#[test]
fn compute_diff_identical() {
    let result = compute_diff("aaa\nbbb", "aaa\nbbb");
    assert!(result.iter().all(|l| matches!(l, DiffLine::Context(_))));
}

#[test]
fn compute_diff_empty() {
    let result = compute_diff("", "");
    assert!(result.is_empty());
}

#[test]
fn compute_diff_add_only() {
    let result = compute_diff("", "aaa");
    assert_eq!(result.len(), 1);
    assert!(matches!(result[0], DiffLine::Added(_)));
}

#[test]
fn compute_diff_remove_only() {
    let result = compute_diff("aaa", "");
    assert_eq!(result.len(), 1);
    assert!(matches!(result[0], DiffLine::Removed(_)));
}

fn tags(d: &[DiffLine]) -> String {
    d.iter()
        .map(|l| match l {
            DiffLine::Context(t) => format!(" {t}"),
            DiffLine::Added(t) => format!("+{t}"),
            DiffLine::Removed(t) => format!("-{t}"),
            DiffLine::Separator => "...".to_string(),
        })
        .collect::<Vec<_>>()
        .join(",")
}

#[test]
fn compute_diff_replaced_line() {
    let d = compute_diff("a\nb\nc", "a\nx\nc");
    assert_eq!(tags(&d), " a,-b,+x, c");
}

#[test]
fn context_limit_keeps_lines_near_changes() {
    let old = "aaa\nbbb\nccc\nddd\neee\nfff\nggg\nhhh\niii\njjj";
    let new = "aaa\nbbb\nccc\nddd\neee-x\nfff\nggg\nhhh\niii\njjj";
    let d = compute_diff(old, new);
    let shown = apply_context_limit(&d, 1);
    assert_eq!(tags(&shown), " ddd,-eee,+eee-x, fff");
    assert!(apply_context_limit(&compute_diff("a\nb", "a\nb"), 3).is_empty());
}

#[test]
fn context_limit_separates_distant_changes() {
    let old = "1\n2\n3\n4\n5\n6\n7\n8";
    let new = "x\n2\n3\n4\n5\n6\n7\ny";
    let shown = apply_context_limit(&compute_diff(old, new), 1);
    assert_eq!(tags(&shown), "-1,+x, 2,..., 7,-8,+y");
}

fn event(status: &str, node: &str, invoke: &str, branch: Option<&str>, time: &str) -> TraceEvent {
    TraceEvent {
        status: status.into(),
        node: node.into(),
        invoke: invoke.into(),
        branch: branch.map(|s| s.to_string()),
        time: time.into(),
    }
}

/// The trace of an instance and its artifact files, kept in memory.
struct Instance {
    trace: Vec<TraceEvent>,
    details: BTreeMap<(String, String), String>,
    errors: BTreeMap<(String, String), String>,
}

impl Instance {
    fn key(e: &TraceEvent) -> (String, String) {
        (e.node.clone(), e.invoke.clone())
    }

    fn entries(&self) -> Vec<ArtifactEntry> {
        let mut out = Vec::new();
        for (i, e) in self.trace.iter().enumerate() {
            let k = Self::key(e);
            let d = self.details.get(&k).map(|c| !c.is_empty()).unwrap_or(false);
            let r = self.errors.get(&k).map(|c| !c.is_empty()).unwrap_or(false);
            out.push(entry_of(i + 1, e, artifact_kind(&e.invoke, d, r)));
        }
        out
    }

    fn content(&self, e: &ArtifactEntry) -> Option<(ArtifactType, String)> {
        let k = (e.node.clone(), e.invoke.clone());
        artifact_content(self.details.get(&k).cloned(), self.errors.get(&k).cloned())
    }

    fn view(&self, node: Option<&str>, invoke: Option<&str>) -> Result<String, String> {
        let es = self.entries();
        let idx = view_select(&es, node, invoke)?;
        let contents: Vec<_> = idx.iter().map(|&i| self.content(&es[i])).collect();
        Ok(view_text(&es, &idx, &contents))
    }

    fn search(&self, kw: &str) -> Result<String, String> {
        search_check(kw)?;
        let es = self.entries();
        let contents: Vec<_> = es.iter().map(|e| if e.invoke == "-" { None } else { self.content(e) }).collect();
        let hits = search_hits(&es, &contents, kw);
        Ok(table_text_at(&es, &hits))
    }

    fn timeline(&self, input: Option<&str>, context: Option<&str>) -> String {
        let es = self.entries();
        let contents: Vec<_> = es.iter().map(|e| if e.invoke == "-" { None } else { self.content(e) }).collect();
        timeline_text("i1", "wf", Status::Completed, input, context, &es, &contents)
    }

    fn diff(&self, node: &str, context: usize, full: bool) -> Result<String, String> {
        let es = self.entries();
        let idx = diff_select(&es, node)?;
        let texts: Vec<Option<String>> = idx.iter().map(|&i| self.content(&es[i]).map(|(_, t)| t)).collect();
        let diffs = diff_pairs(&texts, context, full)?;
        Ok(diff_text(&es, &idx, &diffs))
    }
}

/// 任务理解 once, 任务调研 twice (looped back by 审核), then the end node.
fn looped() -> Instance {
    let trace = vec![
        event("completed", "任务理解", "invoke-1", None, "t1"),
        event("completed", "任务调研", "invoke-2", None, "t2"),
        event("completed", "审核", "invoke-3", Some("其他"), "t3"),
        event("completed", "任务调研", "invoke-4", None, "t4"),
        event("completed", "结束", "-", None, "t5"),
    ];
    let mut details = BTreeMap::new();
    details.insert(("任务理解".to_string(), "invoke-1".to_string()), "理解产物内容".to_string());
    details.insert(("任务调研".to_string(), "invoke-2".to_string()), "第一次调研结果".to_string());
    details.insert(("审核".to_string(), "invoke-3".to_string()), "## 选择分支\n- 其他".to_string());
    details.insert(("任务调研".to_string(), "invoke-4".to_string()), "第二次调研结果".to_string());
    Instance { trace, details, errors: BTreeMap::new() }
}

#[test]
fn artifact_list_shows_completed_artifacts() {
    let inst = looped();
    let out = list_text(&inst.entries());
    assert!(out.contains("任务理解"));
    assert!(out.contains("任务调研"));
    assert!(out.contains("detail"));
    assert!(out.contains("completed"));
    assert!(out.contains("| 3 | 审核(其他) | invoke-3 | detail | completed | t3 |\n"));
}

#[test]
fn list_with_end_node_invoke_dash() {
    let inst = looped();
    let out = list_text(&inst.entries());
    assert!(out.contains("| 5 | 结束 | - | none | completed | t5 |\n"));
}

#[test]
fn artifact_list_empty_instance() {
    let inst = Instance { trace: vec![], details: BTreeMap::new(), errors: BTreeMap::new() };
    assert_eq!(
        list_text(&inst.entries()),
        "| # | 节点 | 执行ID | 类型 | 状态 | 执行时间 |\n|---|------|--------|------|------|---------|\n"
    );
}

#[test]
fn artifact_view_by_node() {
    let inst = looped();
    let out = inst.view(Some("任务理解"), None).unwrap();
    assert!(out.contains("理解产物内容"));
    assert_eq!(out, "## [1/1] 任务理解 (invoke-1)\n> 类型: detail | 状态: completed | 时间: t1\n\n理解产物内容\n");
}

#[test]
fn artifact_view_by_invoke() {
    let inst = looped();
    let out = inst.view(None, Some("invoke-4")).unwrap();
    assert!(out.contains("第二次调研结果"));
    assert!(!out.contains("第一次调研结果"));
}

#[test]
fn artifact_view_loop_back_returns_all() {
    let inst = looped();
    let out = inst.view(Some("任务调研"), None).unwrap();
    assert!(out.contains("## [1/2] 任务调研 (invoke-2)"));
    assert!(out.contains("## [2/2] 任务调研 (invoke-4)"));
    assert!(out.contains("\n---\n\n"));
}

#[test]
fn artifact_view_invoke_precedence() {
    let inst = looped();
    let out = inst.view(Some("任务理解"), Some("invoke-2")).unwrap();
    assert!(out.contains("第一次调研结果"));
    assert!(!out.contains("理解产物内容"));
}

#[test]
fn artifact_view_missing_node_errors() {
    let inst = looped();
    let err = inst.view(Some("不存在的节点"), None).unwrap_err();
    assert!(err.contains("未找到节点"));
    assert_eq!(err, "未找到节点: 不存在的节点");
}

#[test]
fn artifact_view_no_args_errors() {
    let inst = looped();
    let err = inst.view(None, None).unwrap_err();
    assert!(err.contains("请通过 --node 或 --invoke"));
}

#[test]
fn artifact_view_invoke_not_found() {
    let inst = looped();
    assert_eq!(inst.view(None, Some("invoke-none")).unwrap_err(), "未找到执行ID: invoke-none");
}

#[test]
fn view_no_artifact_text_output() {
    let inst = looped();
    let out = inst.view(Some("结束"), None).unwrap();
    assert_eq!(out, "## [1/1] 结束 (-)\n> 类型: none | 状态: completed | 时间: t5\n\n> 该执行无产物\n");
}

#[test]
fn view_empty_detail_md() {
    let mut inst = looped();
    inst.details.insert(("任务理解".to_string(), "invoke-1".to_string()), String::new());
    let out = inst.view(Some("任务理解"), None).unwrap();
    assert!(out.contains("> 类型: none"));
    assert!(out.contains("> 该执行无产物"));
}

#[test]
fn error_artifact_coverage() {
    let mut inst = looped();
    inst.trace.push(event("failed", "任务理解", "invoke-9", None, "t9"));
    inst.errors.insert(("任务理解".to_string(), "invoke-9".to_string()), "失败原因".to_string());
    let out = inst.view(None, Some("invoke-9")).unwrap();
    assert!(out.contains("> 类型: error | 状态: failed"));
    assert!(out.contains("失败原因"));
    assert!(list_text(&inst.entries()).contains("| invoke-9 | error | failed |"));
}

#[test]
fn artifact_search_finds_keyword_in_order() {
    let inst = looped();
    let out = inst.search("调研").unwrap();
    assert!(out.contains("任务调研"));
    assert!(!out.contains("任务理解"));
    let first = out.find("invoke-2").unwrap();
    let second = out.find("invoke-4").unwrap();
    assert!(first < second);
}

#[test]
fn artifact_search_no_match() {
    let inst = looped();
    let out = inst.search("不存在的关键词").unwrap();
    assert_eq!(out, "| # | 节点 | 执行ID | 类型 | 状态 | 执行时间 |\n|---|------|--------|------|------|---------|\n");
}

#[test]
fn search_empty_keyword_errors() {
    let inst = looped();
    assert_eq!(inst.search("").unwrap_err(), "搜索关键词不能为空");
}

#[test]
fn artifact_timeline_shows_all_artifacts() {
    let inst = looped();
    let out = inst.timeline(Some("测试任务"), None);
    assert!(out.contains("理解产物内容"));
    assert!(out.contains("第一次调研结果"));
    assert!(out.contains("执行时间线"));
    assert!(out.contains("产物详情"));
    assert!(out.contains("测试任务"));
    assert!(out.starts_with("# 实例: i1\n# 工作流: wf\n# 状态: completed\n# 初始任务: 测试任务\n\n## 执行时间线\n\n"));
}

#[test]
fn timeline_includes_context() {
    let inst = looped();
    let out = inst.timeline(None, Some("## [t] 主题\n\n内容\n"));
    assert!(out.contains("\n## 上下文\n\n## [t] 主题\n\n内容\n\n## 执行时间线\n\n"));
}

#[test]
fn timeline_context_no_trailing_newline() {
    let inst = looped();
    let out = inst.timeline(None, Some("内容"));
    assert!(out.contains("\n## 上下文\n\n内容\n\n## 执行时间线"));
}

#[test]
fn artifact_timeline_no_context() {
    let inst = looped();
    let out = inst.timeline(None, None);
    assert!(!out.contains("## 上下文"));
    let out = inst.timeline(None, Some(""));
    assert!(!out.contains("## 上下文"));
}

#[test]
fn timeline_text_with_none_artifact() {
    let inst = looped();
    let out = inst.timeline(None, None);
    assert!(out.contains("### [5] 结束 (-)\n> 类型: none | 状态: completed | 时间: t5\n\n> 无产物\n\n"));
}

#[test]
fn artifact_diff_shows_changes_between_executions() {
    let inst = looped();
    let out = inst.diff("任务调研", 3, false).unwrap();
    assert!(out.contains("- 第一次调研结果"));
    assert!(out.contains("+ 第二次调研结果"));
    assert_eq!(
        out,
        "## [1→2] 任务调研 (invoke-2)\n> 对比: invoke-2 (completed, t2) → invoke-4 (completed, t4)\n\n```diff\n- 第一次调研结果\n+ 第二次调研结果\n```\n"
    );
}

#[test]
fn artifact_diff_single_execution_errors() {
    let inst = looped();
    let err = inst.diff("任务理解", 3, false).unwrap_err();
    assert!(err.contains("仅执行 1 次"));
    assert_eq!(err, "节点 任务理解 仅执行 1 次，需至少 2 次才能对比");
}

#[test]
fn artifact_diff_no_changes() {
    let mut inst = looped();
    inst.details.insert(("任务调研".to_string(), "invoke-4".to_string()), "第一次调研结果".to_string());
    let out = inst.diff("任务调研", 3, false).unwrap();
    assert!(out.contains("无变更"));
}

#[test]
fn artifact_diff_context_limit_mode() {
    let mut inst = looped();
    let old = "aaa\nbbb\nccc\nddd\neee\nfff\nggg\nhhh\niii\njjj";
    let new = "aaa\nbbb\nccc\nddd\neee-x\nfff\nggg\nhhh\niii\njjj";
    inst.details.insert(("任务调研".to_string(), "invoke-2".to_string()), old.to_string());
    inst.details.insert(("任务调研".to_string(), "invoke-4".to_string()), new.to_string());
    let out = inst.diff("任务调研", 1, false).unwrap();
    assert!(out.contains("- eee"));
    assert!(out.contains("+ eee-x"));
    assert!(out.contains("ddd"));
    assert!(out.contains("fff"));
    assert!(!out.contains("aaa"));
    assert!(!out.contains("jjj"));
    let out = inst.diff("任务调研", 1, true).unwrap();
    assert!(out.contains("aaa"));
    assert!(out.contains("jjj"));
}

#[test]
fn diff_separator_coverage() {
    let mut inst = looped();
    inst.details.insert(("任务调研".to_string(), "invoke-2".to_string()), "1\n2\n3\n4\n5\n6\n7\n8".to_string());
    inst.details.insert(("任务调研".to_string(), "invoke-4".to_string()), "x\n2\n3\n4\n5\n6\n7\ny".to_string());
    let out = inst.diff("任务调研", 1, false).unwrap();
    assert!(out.contains("...\n"));
}

#[test]
fn diff_multiple_pairs_newline() {
    let mut inst = looped();
    inst.trace.push(event("completed", "任务调研", "invoke-6", None, "t6"));
    inst.details.insert(("任务调研".to_string(), "invoke-6".to_string()), "第三次调研结果".to_string());
    let out = inst.diff("任务调研", 3, false).unwrap();
    assert!(out.contains("## [1→2]"));
    assert!(out.contains("```\n\n## [2→3]"));
    assert!(out.ends_with("```\n"));
}

#[test]
fn diff_max_lines_exceeded() {
    let mut inst = looped();
    let big: Vec<String> = (0..5001).map(|i| format!("line {i}")).collect();
    inst.details.insert(("任务调研".to_string(), "invoke-2".to_string()), big.join("\n"));
    let err = inst.diff("任务调研", 3, false).unwrap_err();
    assert_eq!(err, "产物行数超过 5000 行上限，已跳过 diff 计算");
}

#[test]
fn context_set_empty_topic_errors() {
    assert_eq!(context_entry("", "内容", "t").unwrap_err(), "topic 不能为空");
}

#[test]
fn context_set_empty_content_errors() {
    assert_eq!(context_entry("主题", "", "t").unwrap_err(), "content 不能为空");
}

#[test]
fn context_entry_keeps_topic_on_one_line() {
    assert_eq!(
        context_entry("多\n行\r主题", "内容\n第二行", "2026-08-22 19:50:04").unwrap(),
        "## [2026-08-22 19:50:04] 多 行 主题\n\n内容\n第二行\n"
    );
    let now = context_entry_now("主题", "内容").unwrap();
    assert!(now.starts_with("## ["));
    assert!(now.ends_with("] 主题\n\n内容\n"));
}

#[test]
fn node_display_with_branch() {
    assert_eq!(node_display("审核", &Some("通过".to_string())), "审核(通过)");
    assert_eq!(node_display("审核", &None), "审核");
}

#[test]
fn artifact_kind_rules() {
    assert_eq!(artifact_kind("-", true, true), ArtifactType::Absent);
    assert_eq!(artifact_kind("invoke-1", true, true), ArtifactType::Detail);
    assert_eq!(artifact_kind("invoke-1", false, true), ArtifactType::Error);
    assert_eq!(artifact_kind("invoke-1", false, false), ArtifactType::Absent);
    assert_eq!(ArtifactType::Absent.as_str(), "none");
}

#[test]
fn diff_line_tags_and_values() {
    let d = compute_diff("a\nb", "a\nc");
    let shown: Vec<(String, String)> = d.iter().map(|l| (l.tag().to_string(), l.value().to_string())).collect();
    assert_eq!(
        shown,
        vec![
            ("context".to_string(), "a".to_string()),
            ("removed".to_string(), "b".to_string()),
            ("added".to_string(), "c".to_string()),
        ]
    );
    assert_eq!(DiffLine::Separator.tag(), "separator");
    assert_eq!(DiffLine::Separator.value(), "...");
}

#[test]
fn artifact_content_prefers_detail() {
    assert_eq!(
        artifact_content(Some("d".into()), Some("e".into())).map(|(t, c)| (t.as_str(), c)),
        Some(("detail", "d".to_string()))
    );
    assert_eq!(
        artifact_content(Some(String::new()), Some("e".into())).map(|(t, c)| (t.as_str(), c)),
        Some(("error", "e".to_string()))
    );
    assert!(artifact_content(None, Some(String::new())).is_none());
    assert!(artifact_content(None, None).is_none());
}

#[test]
fn diff_sides_give_back_both_texts() {
    let old = "a\nb\nc\nd";
    let new = "b\nx\nd\ne";
    let d = compute_diff(old, new);
    let old_side: Vec<&str> = d
        .iter()
        .filter_map(|l| match l {
            DiffLine::Context(t) | DiffLine::Removed(t) => Some(t.as_str()),
            _ => None,
        })
        .collect();
    let new_side: Vec<&str> = d
        .iter()
        .filter_map(|l| match l {
            DiffLine::Context(t) | DiffLine::Added(t) => Some(t.as_str()),
            _ => None,
        })
        .collect();
    assert_eq!(old_side, old.lines().collect::<Vec<_>>());
    assert_eq!(new_side, new.lines().collect::<Vec<_>>());
    assert_eq!(d.iter().filter(|l| matches!(l, DiffLine::Context(_))).count(), 2);
}

#[test]
fn context_limit_drops_no_change() {
    let old = "1\n2\n3\n4\n5\n6\n7\n8\n9";
    let new = "1\nX\n3\n4\n5\n6\n7\nY\n9";
    let d = compute_diff(old, new);
    let edits = |v: &[DiffLine]| -> String {
        tags(&v.iter().filter(|l| matches!(l, DiffLine::Added(_) | DiffLine::Removed(_))).map(|l| match l {
            DiffLine::Added(t) => DiffLine::Added(t.clone()),
            DiffLine::Removed(t) => DiffLine::Removed(t.clone()),
            _ => DiffLine::Separator,
        }).collect::<Vec<_>>())
    };
    for ctx in [0, 1, 2, 10] {
        assert_eq!(edits(&apply_context_limit(&d, ctx)), edits(&d));
    }
}

#[test]
fn artifact_list_loop_back_multiple_executions() {
    let inst = looped();
    let out = list_text(&inst.entries());
    assert!(out.matches("任务调研").count() >= 2);
}

#[test]
fn artifact_search_loop_back_multiple() {
    let mut inst = looped();
    inst.details.insert(("任务调研".to_string(), "invoke-2".to_string()), "调研关键词A".to_string());
    inst.details.insert(("任务调研".to_string(), "invoke-4".to_string()), "调研关键词B".to_string());
    let out = inst.search("调研关键词").unwrap();
    assert!(out.matches("任务调研").count() >= 2);
    assert!(!out.contains("任务理解"));
}

#[test]
fn search_and_timeline_with_end_node() {
    let inst = looped();
    assert!(inst.search("产物").is_ok());
    assert!(inst.timeline(None, None).contains("结束"));
}

#[test]
fn context_set_and_get() {
    let mut file = String::new();
    file.push_str(&context_entry("调研", "完成了项目调研", "2026-08-22 19:50:04").unwrap());
    assert!(file.contains("调研"));
    assert!(file.contains("完成了项目调研"));
    file.push_str(&context_entry("方案", "设计了方案", "2026-08-22 19:50:05").unwrap());
    assert!(file.contains("调研"));
    assert!(file.contains("方案"));
    assert!(file.contains("完成了项目调研"));
    assert!(file.contains("设计了方案"));
}

#[test]
fn context_multiple_entries_in_timeline() {
    let inst = looped();
    let mut ctx = context_entry("阶段1", "完成理解", "t1").unwrap();
    ctx.push_str(&context_entry("阶段2", "开始调研", "t2").unwrap());
    let out = inst.timeline(None, Some(&ctx));
    assert!(out.contains("阶段1"));
    assert!(out.contains("完成理解"));
    assert!(out.contains("阶段2"));
    assert!(out.contains("开始调研"));
}

#[test]
fn view_empty_error_md() {
    let mut inst = looped();
    inst.trace.push(event("failed", "任务理解", "invoke-9", None, "t9"));
    inst.errors.insert(("任务理解".to_string(), "invoke-9".to_string()), String::new());
    let out = inst.view(None, Some("invoke-9")).unwrap();
    assert!(out.contains("> 类型: none"));
    assert!(out.contains("> 该执行无产物"));
}
