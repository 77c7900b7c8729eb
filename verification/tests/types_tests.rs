use iac_forge::ir::IacType;
use std::collections::HashMap;
use workspace_state_graph::types::{InputPort, OutputPort, WorkspaceGraph, WorkspaceId, WorkspaceMap, WorkspaceNode};

fn sample_id(s: &str) -> WorkspaceId {
    WorkspaceId(s.to_string())
}

fn sample_node(name: &str, state_key: &str) -> WorkspaceNode {
    WorkspaceNode {
        id: sample_id(name),
        name: name.into(),
        state_key: state_key.into(),
        provider: "aws".into(),
        outputs: vec![],
        inputs: vec![],
    }
}

#[test]
fn workspace_id_ord_is_lexical() {
    let ids = vec![sample_id("zebra"), sample_id("alpha"), sample_id("mid")];
    let mut sorted = ids.clone();
    sorted.sort();
    assert_eq!(sorted[0].0, "alpha");
    assert_eq!(sorted[1].0, "mid");
    assert_eq!(sorted[2].0, "zebra");
}

#[test]
fn workspace_id_equal_when_inner_equal() {
    assert_eq!(sample_id("x"), sample_id("x"));
    assert_ne!(sample_id("x"), sample_id("y"));
}

#[test]
fn workspace_id_is_hashable_as_hashmap_key() {
    let mut m: HashMap<WorkspaceId, u32> = HashMap::new();
    m.insert(sample_id("a"), 1);
    m.insert(sample_id("b"), 2);
    m.insert(sample_id("a"), 3);
    assert_eq!(m.len(), 2);
    assert_eq!(m.get(&sample_id("a")).copied(), Some(3));
}

#[test]
fn workspace_graph_default_is_empty() {
    let g = WorkspaceGraph::default();
    assert!(g.nodes.is_empty());
    assert!(g.edges.is_empty());
}

#[test]
fn workspace_graph_btreemap_iterates_in_sorted_order() {
    let mut g = WorkspaceGraph::default();
    for name in ["zulu", "alpha", "mike", "charlie"] {
        g.nodes.insert(WorkspaceNode {
            id: sample_id(name),
            name: name.into(),
            state_key: format!("pangea/{name}"),
            provider: "aws".into(),
            outputs: vec![],
            inputs: vec![],
        });
    }
    let keys = g.nodes.keys();
    let order: Vec<&str> = keys.iter().map(|w| w.0.as_str()).collect();
    assert_eq!(order, vec!["alpha", "charlie", "mike", "zulu"]);
}

#[test]
fn output_ports_with_same_name_different_resource_are_distinct() {
    let a = OutputPort {
        name: "id".into(),
        field_type: IacType::String,
        source_resource: "aws_vpc.main.id".into(),
    };
    let b = OutputPort {
        name: "id".into(),
        field_type: IacType::String,
        source_resource: "aws_subnet.main.id".into(),
    };
    assert_ne!(a, b);
}

#[test]
fn workspace_map_insert_replaces_and_returns_old() {
    let mut m = WorkspaceMap::new();
    assert!(m.insert(sample_node("dup", "first.tfstate")).is_none());
    let old = m.insert(sample_node("dup", "second.tfstate")).expect("replaced");
    assert_eq!(old.state_key, "first.tfstate");
    assert_eq!(m.len(), 1);
    assert_eq!(m.get(&sample_id("dup")).unwrap().state_key, "second.tfstate");
}

#[test]
fn workspace_map_get_after_insert_leaves_others() {
    let mut m = WorkspaceMap::new();
    m.insert(sample_node("b", "b.tfstate"));
    m.insert(sample_node("a", "a.tfstate"));
    m.insert(sample_node("c", "c.tfstate"));
    assert_eq!(m.len(), 3);
    assert_eq!(m.get(&sample_id("a")).unwrap().state_key, "a.tfstate");
    assert_eq!(m.get(&sample_id("b")).unwrap().state_key, "b.tfstate");
    assert_eq!(m.get(&sample_id("c")).unwrap().state_key, "c.tfstate");
    assert!(m.get(&sample_id("d")).is_none());
    assert!(m.contains_key(&sample_id("b")));
    assert!(!m.contains_key(&sample_id("z")));
    assert_eq!(m.index_of(&sample_id("c")), Some(2));
    let names: Vec<&str> = m.values().iter().map(|n| n.name.as_str()).collect();
    assert_eq!(names, vec!["a", "b", "c"]);
}

#[test]
fn workspace_map_orders_by_characters_not_length() {
    let mut m = WorkspaceMap::new();
    for name in ["ws10", "ws2", "ws1", "w"] {
        m.insert(sample_node(name, "k"));
    }
    let keys: Vec<String> = m.keys().into_iter().map(|k| k.0).collect();
    assert_eq!(keys, vec!["w", "ws1", "ws10", "ws2"]);
}

#[test]
fn clones_keep_every_field() {
    let node = WorkspaceNode {
        id: sample_id("n"),
        name: "N".into(),
        state_key: "n.tfstate".into(),
        provider: "aws".into(),
        outputs: vec![OutputPort {
            name: "o".into(),
            field_type: IacType::List(Box::new(IacType::String)),
            source_resource: "r.o".into(),
        }],
        inputs: vec![InputPort {
            name: "i".into(),
            field_type: IacType::Integer,
            source_workspace: sample_id("m"),
            source_output: "p".into(),
        }],
    };
    assert_eq!(node.clone(), node);
    assert!(sample_id("x").same(&sample_id("x")));
    assert!(!sample_id("x").same(&sample_id("xy")));
}
