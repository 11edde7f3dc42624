use workflow_engine::artifact::{artifact_dir, flow_file, instance_dir, join_path};
use workflow_engine::clock::{gen_instance_id, gen_invoke_id, instance_id_from, invoke_id_from, local_timestamp, trace_timestamp};
use workflow_engine::executor::{instance_order, instance_table, workflow_list};
use workflow_engine::order::{sort_strings, str_lt};

fn strings(v: &[&str]) -> Vec<String> {
    v.iter().map(|s| s.to_string()).collect()
}

#[test]
fn workflows_are_listed_sorted() {
    assert_eq!(workflow_list(&strings(&["zeta", "alpha", "mid"])), "alpha\nmid\nzeta");
    assert_eq!(workflow_list(&strings(&[])), "");
    assert_eq!(workflow_list(&strings(&["只有一个"])), "只有一个");
}

#[test]
fn sorting_follows_string_order() {
    let v = strings(&["b", "a", "ab", "", "B", "é", "a", "z9", "z10"]);
    let mut expected = v.clone();
    expected.sort();
    assert_eq!(sort_strings(&v), expected);
    assert!(str_lt("a", "ab"));
    assert!(!str_lt("ab", "a"));
    assert!(str_lt("B", "a"));
    assert!(!str_lt("same", "same"));
    assert!(str_lt("", "x"));
}

#[test]
fn instance_ids_sorted() {
    let ids = strings(&["20260818T003758-038b", "20260101T000000-0001", "20260818T003758-0001"]);
    assert_eq!(
        instance_order(&ids),
        strings(&["20260101T000000-0001", "20260818T003758-0001", "20260818T003758-038b"])
    );
}

#[test]
fn instance_table_rows() {
    let rows = vec![
        ("i1".to_string(), "wf".to_string(), "idle".to_string()),
        ("i2".to_string(), "wf".to_string(), "unknown".to_string()),
    ];
    assert_eq!(
        instance_table(&rows),
        "| 实例 | 工作流 | 状态 |\n|------|--------|------|\n| i1 | wf | idle |\n| i2 | wf | unknown |\n"
    );
    assert_eq!(instance_table(&[]), "| 实例 | 工作流 | 状态 |\n|------|--------|------|\n");
}

#[test]
fn execution_ids() {
    assert_eq!(invoke_id_from("20260818-003758", 38), "invoke-20260818-003758-038");
    assert_eq!(invoke_id_from("20260818-003758", 1999), "invoke-20260818-003758-1999");
    let id = gen_invoke_id();
    assert!(id.starts_with("invoke-"));
    assert_eq!(id.len(), "invoke-20260818-003758-038".len());
}

#[test]
fn instance_ids() {
    assert_eq!(instance_id_from("20260818T003758", 907), "20260818T003758-038b");
    assert_eq!(instance_id_from("20260818T003758", 0), "20260818T003758-0000");
    assert_eq!(instance_id_from("20260818T003758", 1999), "20260818T003758-07cf");
    let id = gen_instance_id();
    assert_eq!(id.len(), "20260818T003758-038b".len());
    assert_eq!(&id[8..9], "T");
}

#[test]
fn timestamps() {
    let t = trace_timestamp();
    assert_eq!(t.len(), 19);
    assert_eq!(t.matches('-').count(), 5);
    let u = local_timestamp("%Y-%m-%d %H:%M:%S");
    assert_eq!(u.len(), 19);
    assert_eq!(&u[10..11], " ");
}

#[test]
fn instance_paths() {
    assert_eq!(join_path("/r", "a"), "/r/a");
    assert_eq!(join_path("/r/", "a"), "/r/a");
    assert_eq!(join_path("", "a"), "a");
    assert_eq!(join_path("/r", "/abs"), "/abs");
    assert_eq!(instance_dir("/r", "wf", "i1"), "/r/.workflows/wf/instance/i1");
    assert_eq!(
        artifact_dir("/r", "wf", "i1", "任务调研", "invoke-2"),
        "/r/.workflows/wf/instance/i1/artifacts/任务调研/invoke-2"
    );
    assert_eq!(flow_file("/r", "wf"), "/r/.workflows/wf/meta-data/flow.json");
}
