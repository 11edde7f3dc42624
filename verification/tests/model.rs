use workflow_engine::model::{Branch, Edge, Flow, Node, NodeData};

fn node(id: &str, node_type: &str, label: &str) -> Node {
    Node {
        id: id.to_string(),
        node_type: node_type.to_string(),
        data: NodeData {
            label: label.to_string(),
            node_ref_path: None,
            condition: None,
            branches: vec![],
            content: None,
        },
    }
}

fn edge(source: &str, target: &str, branch: Option<&str>) -> Edge {
    Edge { source: source.to_string(), target: target.to_string(), branch_id: branch.map(|b| b.to_string()) }
}

// The flow of the definition file used by these tests, written out as values.
fn sample_flow() -> Flow {
    let mut b = node("b-1", "business", "任务理解");
    b.data.node_ref_path = Some(".nodes/任务理解.md".to_string());
    let mut d = node("d-1", "decision", "审核");
    d.data.condition = Some("前置产物".to_string());
    d.data.branches = vec![
        Branch { id: "br-1".to_string(), name: "没问题".to_string(), description: None },
        Branch {
            id: "br-2".to_string(),
            name: "其他".to_string(),
            description: Some("均不符合上述分类的进入本分支".to_string()),
        },
    ];
    Flow {
        nodes: vec![node("start-1", "start", "开始"), node("end-1", "end", "结束"), b, d],
        edges: vec![edge("start-1", "b-1", None), edge("b-1", "d-1", None), edge("d-1", "end-1", Some("br-1"))],
    }
}

#[test]
fn parse_valid_flow() {
    let flow = sample_flow();
    assert_eq!(flow.nodes.len(), 4);
    assert_eq!(flow.edges.len(), 3);
    assert_eq!(flow.start_node().unwrap().id, "start-1");
}

#[test]
fn node_lookup() {
    let flow = sample_flow();
    let d = flow.node("d-1").unwrap();
    assert_eq!(d.data.branches.len(), 2);
    assert_eq!(d.data.branches[1].description.as_deref(), Some("均不符合上述分类的进入本分支"));
}

#[test]
fn missing_optional_fields() {
    let flow = Flow { nodes: vec![node("s", "start", "开始")], edges: vec![] };
    let n = &flow.nodes[0];
    assert_eq!(n.data.node_ref_path, None);
    assert_eq!(n.data.condition, None);
    assert!(n.data.branches.is_empty());
}

#[test]
fn lookups_take_the_first_match() {
    let flow = Flow {
        nodes: vec![node("x", "business", "first"), node("x", "start", "second"), node("y", "start", "third")],
        edges: vec![],
    };
    assert_eq!(flow.node("x").unwrap().data.label, "first");
    assert_eq!(flow.start_node().unwrap().data.label, "second");
    assert!(flow.node("z").is_none());
    let empty = Flow { nodes: vec![], edges: vec![] };
    assert!(empty.start_node().is_none());
}
