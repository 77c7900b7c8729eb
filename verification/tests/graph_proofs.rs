use iac_forge::ir::IacType;
use workspace_state_graph::analysis::{affected_workspaces, deployment_order};
use workspace_state_graph::builder::WorkspaceGraphBuilder;
use workspace_state_graph::types::WorkspaceId;
use workspace_state_graph::verify::{
    verify_compatibility, verify_connectivity, verify_graph, verify_ordering, verify_uniqueness,
};

/// 7. Empty graph passes all verification.
#[test]
fn graph_proofs_empty_graph_passes_all_verification() {
    let graph = WorkspaceGraphBuilder::new().build();
    assert_eq!(verify_graph(&graph), Ok(()));
    assert!(verify_connectivity(&graph).is_empty());
    assert!(verify_ordering(&graph).is_empty());
    assert!(verify_compatibility(&graph).is_empty());
    assert!(verify_uniqueness(&graph).is_empty());
}

/// 8. Single-node graph passes all verification.
#[test]
fn single_node_passes_all_verification() {
    let graph = WorkspaceGraphBuilder::new()
        .workspace("only", "only-ws", "only/terraform.tfstate", "aws")
        .output("only", "vpc_id", IacType::String, "aws_vpc.main")
        .build();
    assert_eq!(verify_graph(&graph), Ok(()));
}

/// Verify that `affected_workspaces` on a diamond DAG returns complete closure.
#[test]
fn affected_workspaces_diamond() {
    // a -> b, a -> c, b -> d, c -> d
    let graph = WorkspaceGraphBuilder::new()
        .workspace("a", "A", "a.tfstate", "aws")
        .output("a", "x", IacType::String, "res.x")
        .workspace("b", "B", "b.tfstate", "aws")
        .input("b", "x", IacType::String, "a", "x")
        .output("b", "y", IacType::String, "res.y")
        .workspace("c", "C", "c.tfstate", "aws")
        .input("c", "x", IacType::String, "a", "x")
        .output("c", "z", IacType::String, "res.z")
        .workspace("d", "D", "d.tfstate", "aws")
        .input("d", "y", IacType::String, "b", "y")
        .input("d", "z", IacType::String, "c", "z")
        .build();

    let affected = affected_workspaces(&graph, &WorkspaceId("a".to_owned()));
    assert_eq!(affected.len(), 3);
    assert!(affected.contains(&WorkspaceId("b".to_owned())));
    assert!(affected.contains(&WorkspaceId("c".to_owned())));
    assert!(affected.contains(&WorkspaceId("d".to_owned())));
}

/// Verify deployment order on a diamond DAG.
#[test]
fn deployment_order_diamond() {
    let graph = WorkspaceGraphBuilder::new()
        .workspace("a", "A", "a.tfstate", "aws")
        .output("a", "x", IacType::String, "res.x")
        .workspace("b", "B", "b.tfstate", "aws")
        .input("b", "x", IacType::String, "a", "x")
        .output("b", "y", IacType::String, "res.y")
        .workspace("c", "C", "c.tfstate", "aws")
        .input("c", "x", IacType::String, "a", "x")
        .output("c", "z", IacType::String, "res.z")
        .workspace("d", "D", "d.tfstate", "aws")
        .input("d", "y", IacType::String, "b", "y")
        .input("d", "z", IacType::String, "c", "z")
        .build();

    let order = deployment_order(&graph).expect("should succeed");
    let pos = |id: &str| order.iter().position(|w| w.0 == id).unwrap();
    assert!(pos("a") < pos("b"));
    assert!(pos("a") < pos("c"));
    assert!(pos("b") < pos("d"));
    assert!(pos("c") < pos("d"));
}
