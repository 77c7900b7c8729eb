//! Deterministic runs over families of graphs and compositions: linear chains
//! and fan-outs of every size up to a bound.

use iac_forge::ir::IacType;
use workspace_state_graph::analysis::{affected_workspaces, deployment_order};
use workspace_state_graph::builder::WorkspaceGraphBuilder;
use workspace_state_graph::composition::{CompositionBuilder, CompositionPlan};
use workspace_state_graph::types::{InputPort, WorkspaceGraph, WorkspaceId};
use workspace_state_graph::verify::{
    verify_compatibility, verify_connectivity, verify_graph, verify_ordering, verify_uniqueness, GraphViolation,
};

fn types() -> Vec<IacType> {
    vec![IacType::String, IacType::Integer, IacType::Float, IacType::Boolean]
}

fn linear_graph(n: usize, ty: &IacType) -> WorkspaceGraph {
    let mut b = WorkspaceGraphBuilder::new();
    for i in 0..n {
        let id = format!("w{i}");
        b = b.workspace(&id, &format!("W{i}"), &format!("{id}.tfstate"), "aws");
        b = b.output(&id, &format!("out_{i}"), ty.clone(), &format!("res_{i}.attr"));
        if i > 0 {
            b = b.input(&id, &format!("in_{i}"), ty.clone(), &format!("w{}", i - 1), &format!("out_{}", i - 1));
        }
    }
    b.build()
}

fn linear_composition(n: usize, ty: &IacType, parent: &str) -> CompositionPlan {
    let mut builder = CompositionBuilder::new(parent, "Test Platform", "aws");
    for i in 0..n {
        let child_name = format!("child{i}");
        let out_name = format!("out_{i}");
        let ty_clone = ty.clone();
        if i == 0 {
            builder = builder.sub_workspace(&child_name, move |ws| ws.output(&out_name, ty_clone, &format!("res_{i}.attr")));
        } else {
            let prev_name = format!("child{}", i - 1);
            let prev_out = format!("out_{}", i - 1);
            builder = builder.sub_workspace(&child_name, move |ws| {
                ws.input_from(&prev_name, &prev_out, ty_clone.clone()).output(&out_name, ty_clone, &format!("res_{i}.attr"))
            });
        }
    }
    builder.build()
}

fn fanout_composition(n: usize, ty: &IacType) -> CompositionPlan {
    let ty_root = ty.clone();
    let mut builder = CompositionBuilder::new("fanout", "Fanout Platform", "aws")
        .sub_workspace("root", move |ws| ws.output("root_out", ty_root, "root_res.attr"));
    for i in 0..n {
        let ty_leaf = ty.clone();
        builder = builder.sub_workspace(&format!("leaf{i}"), move |ws| {
            ws.input_from("root", "root_out", ty_leaf.clone()).output(
                &format!("leaf_out_{i}"),
                ty_leaf,
                &format!("leaf_res_{i}.attr"),
            )
        });
    }
    builder.build()
}

#[test]
fn well_composed_plans_always_pass_verification() {
    for ty in types() {
        for n in 1..=6 {
            for parent in ["abc", "platform"] {
                let plan = linear_composition(n, &ty, parent);
                assert!(plan.verify().is_ok());
                assert_eq!(plan.graph.nodes.len(), n + 1);
                assert_eq!(plan.graph.edges.len(), n - 1);
            }
            let plan = fanout_composition(n, &ty);
            assert!(plan.verify().is_ok());
            assert_eq!(plan.graph.nodes.len(), n + 2);
        }
    }
}

#[test]
fn valid_linear_graphs_pass_every_check() {
    for ty in types() {
        for n in 0..=8 {
            let graph = linear_graph(n, &ty);
            assert_eq!(verify_graph(&graph), Ok(()));
            assert!(verify_uniqueness(&graph).is_empty());
            assert!(verify_connectivity(&graph).is_empty());
            assert!(verify_compatibility(&graph).is_empty());
            assert!(verify_ordering(&graph).is_empty());
        }
    }
}

#[test]
fn removing_an_output_only_disconnects() {
    for n in 2..=8 {
        let mut graph = linear_graph(n, &IacType::String);
        let mut first = graph.nodes.get(&WorkspaceId("w0".to_owned())).unwrap().clone();
        first.outputs.clear();
        graph.nodes.insert(first);
        let violations = verify_connectivity(&graph);
        assert_eq!(violations.len(), 1);
        assert!(violations.iter().all(|v| matches!(v, GraphViolation::DisconnectedInput { .. })));
    }
}

#[test]
fn flipping_an_input_type_only_mismatches() {
    for n in 2..=8 {
        let mut graph = linear_graph(n, &IacType::Integer);
        let last_id = WorkspaceId(format!("w{}", n - 1));
        let mut last = graph.nodes.get(&last_id).unwrap().clone();
        last.inputs[0].field_type = IacType::String;
        graph.nodes.insert(last);
        let violations = verify_compatibility(&graph);
        assert_eq!(violations.len(), 1);
        assert!(violations.iter().all(|v| matches!(v, GraphViolation::TypeMismatch { .. })));
    }
}

#[test]
fn a_back_edge_makes_every_workspace_cyclic() {
    for n in 2..=8 {
        let mut graph = linear_graph(n, &IacType::String);
        let mut first = graph.nodes.get(&WorkspaceId("w0".to_owned())).unwrap().clone();
        first.inputs.push(InputPort {
            name: "back".into(),
            field_type: IacType::String,
            source_workspace: WorkspaceId(format!("w{}", n - 1)),
            source_output: format!("out_{}", n - 1),
        });
        graph.nodes.insert(first);
        let violations = verify_ordering(&graph);
        assert_eq!(violations.len(), 1);
        match &violations[0] {
            GraphViolation::CyclicDependency { workspaces } => assert_eq!(workspaces.len(), n),
            other => panic!("expected a cycle, got {other:?}"),
        }
        assert!(deployment_order(&graph).is_err());
    }
}

#[test]
fn deployment_order_respects_every_edge_and_impact_is_complete() {
    for n in 1..=8 {
        let graph = linear_graph(n, &IacType::Boolean);
        let order = deployment_order(&graph).expect("acyclic");
        assert_eq!(order.len(), n);
        for edge in &graph.edges {
            let from = order.iter().position(|w| *w == edge.from).unwrap();
            let to = order.iter().position(|w| *w == edge.to).unwrap();
            assert!(from < to);
        }
        let affected = affected_workspaces(&graph, &WorkspaceId("w0".to_owned()));
        assert_eq!(affected.len(), n - 1);
        assert!(!affected.contains(&WorkspaceId("w0".to_owned())));
    }
}

#[test]
fn composition_processes_follow_the_naming_rules() {
    let plan = linear_composition(8, &IacType::String, "plat");
    for (i, child) in plan.children.iter().enumerate() {
        assert_eq!(child.pid, u32::try_from(i).unwrap() + 2);
        assert_eq!(child.ppid, 1);
        assert_eq!(child.id.0, format!("plat-{}", child.name));
        assert_eq!(child.state_key, format!("pangea/plat/{}", child.name));
        assert!(plan.graph.nodes.contains_key(&child.id));
    }
}

#[test]
fn a_fresh_output_keeps_a_verified_graph_verified() {
    for n in 1..=6 {
        let mut graph = linear_graph(n, &IacType::String);
        assert_eq!(verify_graph(&graph), Ok(()));
        let mut node = graph.nodes.get(&WorkspaceId("w0".to_owned())).unwrap().clone();
        node.outputs.push(workspace_state_graph::types::OutputPort {
            name: "fresh".into(),
            field_type: IacType::Integer,
            source_resource: "res.fresh".into(),
        });
        graph.nodes.insert(node);
        assert_eq!(verify_graph(&graph), Ok(()));
    }
}

#[test]
fn impact_of_impact_is_impact() {
    let graph = linear_graph(6, &IacType::String);
    for start in 0..6 {
        let x = WorkspaceId(format!("w{start}"));
        let affected = affected_workspaces(&graph, &x);
        for w in &affected {
            for d in affected_workspaces(&graph, w) {
                assert!(affected.contains(&d));
            }
        }
    }
}
