use workflow_engine::graph::Graph;
use workflow_engine::model::{Branch, Edge, Flow, Node, NodeData};

fn node(id: &str, node_type: &str, label: &str) -> Node {
    Node {
        id: id.to_string(),
        node_type: node_type.to_string(),
        data: NodeData {
            label: label.to_string(),
            node_ref_path: None,
            condition: None,
            branches: vec![],
            content: None,
        },
    }
}

fn edge(source: &str, target: &str, branch: Option<&str>) -> Edge {
    Edge { source: source.to_string(), target: target.to_string(), branch_id: branch.map(|b| b.to_string()) }
}

fn branch(id: &str, name: &str, description: Option<&str>) -> Branch {
    Branch { id: id.to_string(), name: name.to_string(), description: description.map(|d| d.to_string()) }
}

fn flow() -> Flow {
    let mut d = node("d", "decision", "D");
    d.data.branches = vec![branch("ok", "没问题", None), branch("other", "其他", Some("均不符合"))];
    Flow {
        nodes: vec![node("start", "start", "开始"), node("end", "end", "结束"), node("a", "business", "A"), d],
        edges: vec![
            edge("start", "a", None),
            edge("a", "d", None),
            edge("d", "end", Some("ok")),
            edge("d", "a", Some("other")),
        ],
    }
}

#[test]
fn business_single_out() {
    let f = flow();
    let g = Graph::new(&f);
    assert_eq!(g.next_node("a", None).unwrap(), "d");
}

#[test]
fn decision_branch_match() {
    let f = flow();
    let g = Graph::new(&f);
    assert_eq!(g.next_node("d", Some("ok")).unwrap(), "end");
    assert_eq!(g.next_node("d", Some("other")).unwrap(), "a");
}

#[test]
fn decision_requires_branch() {
    let f = flow();
    let g = Graph::new(&f);
    assert!(g.next_node("d", None).is_err());
}

#[test]
fn loop_back_detection() {
    let f = flow();
    let g = Graph::new(&f);
    assert!(g.is_loop_back("d", "other", &["A".to_string()]));
    assert!(!g.is_loop_back("d", "ok", &["A".to_string()]));
    assert!(!g.is_loop_back("d", "other", &["结束".to_string()]));
    assert_eq!(g.branch_names("d"), vec!["没问题", "其他"]);
}

#[test]
fn routing_errors_name_their_cause() {
    let f = flow();
    let g = Graph::new(&f);
    assert_eq!(g.next_node("end", None).unwrap_err(), "当前已是结束节点");
    assert_eq!(g.next_node("d", None).unwrap_err(), "decision 节点需要分支选择");
    assert_eq!(g.next_node("d", Some("zz")).unwrap_err(), "分支 zz 不存在");
    assert_eq!(g.next_node("nope", None).unwrap_err(), "节点不存在: nope");
}

#[test]
fn business_node_edge_count_errors() {
    let mut f = flow();
    f.edges.push(edge("a", "end", None));
    f.nodes.push(node("lonely", "business", "L"));
    let g = Graph::new(&f);
    assert_eq!(g.next_node("a", None).unwrap_err(), "business 节点 a 存在多条出边");
    assert_eq!(g.next_node("lonely", None).unwrap_err(), "节点 lonely 无出边");
}

#[test]
fn branch_names_of_unknown_node_is_empty() {
    let f = flow();
    let g = Graph::new(&f);
    assert!(g.branch_names("zz").is_empty());
    assert!(g.branch_names("a").is_empty());
}
