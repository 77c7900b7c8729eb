use iac_forge::ir::IacType;
use workspace_state_graph::analysis::{affected_workspaces, deployment_order};
use workspace_state_graph::builder::WorkspaceGraphBuilder;
use workspace_state_graph::types::WorkspaceId;
use workspace_state_graph::verify::GraphViolation;

#[test]
fn affected_workspaces_transitive() {
    // a -> b -> c
    let graph = WorkspaceGraphBuilder::new()
        .workspace("a", "A", "a.tfstate", "aws")
        .output("a", "x", IacType::String, "res.x")
        .workspace("b", "B", "b.tfstate", "aws")
        .input("b", "x", IacType::String, "a", "x")
        .output("b", "y", IacType::String, "res.y")
        .workspace("c", "C", "c.tfstate", "aws")
        .input("c", "y", IacType::String, "b", "y")
        .build();

    let affected = affected_workspaces(&graph, &WorkspaceId("a".to_owned()));
    assert_eq!(affected.len(), 2);
    assert!(affected.contains(&WorkspaceId("b".to_owned())));
    assert!(affected.contains(&WorkspaceId("c".to_owned())));
}

#[test]
fn affected_workspaces_does_not_include_self() {
    let graph = WorkspaceGraphBuilder::new()
        .workspace("a", "A", "a.tfstate", "aws")
        .output("a", "x", IacType::String, "res.x")
        .workspace("b", "B", "b.tfstate", "aws")
        .input("b", "x", IacType::String, "a", "x")
        .build();

    let affected = affected_workspaces(&graph, &WorkspaceId("a".to_owned()));
    assert!(!affected.contains(&WorkspaceId("a".to_owned())));
}

#[test]
fn affected_workspaces_leaf_has_no_dependents() {
    let graph = WorkspaceGraphBuilder::new()
        .workspace("a", "A", "a.tfstate", "aws")
        .output("a", "x", IacType::String, "res.x")
        .workspace("b", "B", "b.tfstate", "aws")
        .input("b", "x", IacType::String, "a", "x")
        .build();

    let affected = affected_workspaces(&graph, &WorkspaceId("b".to_owned()));
    assert!(affected.is_empty());
}

#[test]
fn analysis_deployment_order_respects_edges() {
    // a -> b -> c
    let graph = WorkspaceGraphBuilder::new()
        .workspace("a", "A", "a.tfstate", "aws")
        .output("a", "x", IacType::String, "res.x")
        .workspace("b", "B", "b.tfstate", "aws")
        .input("b", "x", IacType::String, "a", "x")
        .output("b", "y", IacType::String, "res.y")
        .workspace("c", "C", "c.tfstate", "aws")
        .input("c", "y", IacType::String, "b", "y")
        .build();

    let order = deployment_order(&graph).expect("should succeed");
    let pos = |id: &str| order.iter().position(|w| w.0 == id).expect("should exist");
    assert!(pos("a") < pos("b"));
    assert!(pos("b") < pos("c"));
}

#[test]
fn deployment_order_cycle_error() {
    let graph = WorkspaceGraphBuilder::new()
        .workspace("a", "A", "a.tfstate", "aws")
        .output("a", "x", IacType::String, "res.x")
        .input("a", "y", IacType::String, "b", "y")
        .workspace("b", "B", "b.tfstate", "aws")
        .output("b", "y", IacType::String, "res.y")
        .input("b", "x", IacType::String, "a", "x")
        .build();

    let result = deployment_order(&graph);
    assert!(result.is_err());
    assert!(matches!(result.unwrap_err(), GraphViolation::CyclicDependency { .. }));
}

#[test]
fn deployment_order_empty_graph() {
    let graph = WorkspaceGraphBuilder::new().build();
    let order = deployment_order(&graph).expect("should succeed");
    assert!(order.is_empty());
}

#[test]
fn deployment_order_breaks_ties_by_identity() {
    // Independent workspaces come out in identity order; each dependent is
    // appended once its last dependency has been deployed.
    let graph = WorkspaceGraphBuilder::new()
        .workspace("z", "Z", "z.tfstate", "aws")
        .output("z", "o", IacType::String, "res.o")
        .workspace("m", "M", "m.tfstate", "aws")
        .workspace("b", "B", "b.tfstate", "aws")
        .input("b", "o", IacType::String, "z", "o")
        .workspace("a", "A", "a.tfstate", "aws")
        .build();
    let order = deployment_order(&graph).expect("no cycles");
    let ids: Vec<&str> = order.iter().map(|w| w.0.as_str()).collect();
    assert_eq!(ids, vec!["a", "m", "z", "b"]);
}

#[test]
fn cycle_error_names_blocked_workspaces_in_order() {
    // c and b form a cycle; d depends on it; a is free.
    let graph = WorkspaceGraphBuilder::new()
        .workspace("a", "A", "a.tfstate", "aws")
        .workspace("b", "B", "b.tfstate", "aws")
        .output("b", "x", IacType::String, "res.x")
        .input("b", "y", IacType::String, "c", "y")
        .workspace("c", "C", "c.tfstate", "aws")
        .output("c", "y", IacType::String, "res.y")
        .input("c", "x", IacType::String, "b", "x")
        .workspace("d", "D", "d.tfstate", "aws")
        .input("d", "x", IacType::String, "b", "x")
        .build();
    match deployment_order(&graph) {
        Err(GraphViolation::CyclicDependency { workspaces }) => {
            assert_eq!(workspaces, vec!["b".to_owned(), "c".to_owned(), "d".to_owned()]);
        }
        other => panic!("expected a cycle, got {other:?}"),
    }
}

#[test]
fn affected_excludes_changed_even_on_a_cycle() {
    let graph = WorkspaceGraphBuilder::new()
        .workspace("a", "A", "a.tfstate", "aws")
        .output("a", "x", IacType::String, "res.x")
        .input("a", "y", IacType::String, "b", "y")
        .workspace("b", "B", "b.tfstate", "aws")
        .output("b", "y", IacType::String, "res.y")
        .input("b", "x", IacType::String, "a", "x")
        .build();
    let affected = affected_workspaces(&graph, &WorkspaceId("a".to_owned()));
    assert_eq!(affected, vec![WorkspaceId("b".to_owned())]);
}

#[test]
fn affected_of_unknown_workspace_is_empty() {
    let graph = WorkspaceGraphBuilder::new()
        .workspace("a", "A", "a.tfstate", "aws")
        .workspace("b", "B", "b.tfstate", "aws")
        .input("b", "x", IacType::String, "ghost", "x")
        .build();
    assert!(affected_workspaces(&graph, &WorkspaceId("ghost".to_owned())).is_empty());
}

#[test]
fn affected_is_in_discovery_order() {
    let graph = WorkspaceGraphBuilder::new()
        .workspace("root", "R", "r.tfstate", "aws")
        .output("root", "o", IacType::String, "res.o")
        .workspace("zz", "Z", "z.tfstate", "aws")
        .input("zz", "o", IacType::String, "root", "o")
        .output("zz", "p", IacType::String, "res.p")
        .workspace("aa", "A", "a.tfstate", "aws")
        .input("aa", "p", IacType::String, "zz", "p")
        .workspace("mm", "M", "m.tfstate", "aws")
        .input("mm", "o", IacType::String, "root", "o")
        .build();
    let affected = affected_workspaces(&graph, &WorkspaceId("root".to_owned()));
    // First level in identity order (mm, zz), then what zz feeds (aa).
    assert_eq!(
        affected,
        vec![WorkspaceId("mm".to_owned()), WorkspaceId("zz".to_owned()), WorkspaceId("aa".to_owned())]
    );
}
