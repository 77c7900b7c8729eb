//! Composition proofs: CompositionBuilder + verify_graph reject disconnected
//! references, type mismatches, cycles and duplicate outputs.

use workspace_state_graph::analysis::affected_workspaces;
use workspace_state_graph::composition::CompositionBuilder;
use workspace_state_graph::types::WorkspaceId;
use workspace_state_graph::verify::{verify_ordering, GraphViolation};

// ── Non-proptest proofs ─────────────────────────────────────────────────

// ── Proof 8: Empty composition is valid ──────────────────────────────────
//
// A composition with no children (just parent) passes verification.
// This is the base case: an orchestrator with nothing to orchestrate.
#[test]
fn proof8_empty_composition_is_valid() {
    let plan = CompositionBuilder::new("empty", "Empty Platform", "aws").build();

    assert!(plan.verify().is_ok(), "Empty composition must pass verification");
    assert!(plan.children.is_empty(), "Empty composition has no children");
    // Parent workspace must exist in the graph.
    assert_eq!(plan.graph.nodes.len(), 1, "Only parent workspace should exist");
    assert!(
        plan.graph.nodes.contains_key(&WorkspaceId("empty".to_owned())),
        "Parent workspace must be in graph"
    );
    assert!(plan.graph.edges.is_empty(), "No edges in empty composition");

    // Deployment order should contain only the parent.
    let order = plan.deployment_order().expect("empty composition must sort");
    assert_eq!(order.len(), 1);
    assert_eq!(order[0], WorkspaceId("empty".to_owned()));
}

// ── Proof 9: Diamond dependencies are handled ───────────────────────────
//
// A -> B, A -> C, B -> D, C -> D (diamond pattern) — verify it's valid and
// deployment order respects ALL edges. Diamond patterns are common in real
// infrastructure (e.g., VPC -> subnets + security groups -> cluster).
#[test]
fn proof9_diamond_dependencies_are_handled() {
    let plan = CompositionBuilder::new("diamond", "Diamond Platform", "aws")
        .sub_workspace("a", |ws| {
            ws.output("x", iac_forge::ir::IacType::String, "res_a.x")
        })
        .sub_workspace("b", |ws| {
            ws.input_from("a", "x", iac_forge::ir::IacType::String)
                .output("y", iac_forge::ir::IacType::String, "res_b.y")
        })
        .sub_workspace("c", |ws| {
            ws.input_from("a", "x", iac_forge::ir::IacType::String)
                .output("z", iac_forge::ir::IacType::String, "res_c.z")
        })
        .sub_workspace("d", |ws| {
            ws.input_from("b", "y", iac_forge::ir::IacType::String)
                .input_from("c", "z", iac_forge::ir::IacType::String)
        })
        .build();

    // Verification passes.
    assert!(plan.verify().is_ok(), "Diamond composition must pass verification");

    // Correct node count: parent + 4 children.
    assert_eq!(plan.graph.nodes.len(), 5);

    // Correct edge count: a->b, a->c, b->d, c->d = 4 edges.
    assert_eq!(plan.graph.edges.len(), 4);

    // Deployment order respects all edges.
    let order = plan.deployment_order().expect("diamond must sort");
    let pos = |suffix: &str| {
        order
            .iter()
            .position(|id| id.0.ends_with(suffix))
            .unwrap_or_else(|| panic!("workspace ending with '{suffix}' not found in order"))
    };
    assert!(pos("-a") < pos("-b"), "a must deploy before b");
    assert!(pos("-a") < pos("-c"), "a must deploy before c");
    assert!(pos("-b") < pos("-d"), "b must deploy before d");
    assert!(pos("-c") < pos("-d"), "c must deploy before d");

    // Impact analysis: changing a affects b, c, d.
    let affected = affected_workspaces(
        &plan.graph,
        &WorkspaceId("diamond-a".to_owned()),
    );
    assert_eq!(affected.len(), 3, "Changing a must affect b, c, d");
    assert!(affected.contains(&WorkspaceId("diamond-b".to_owned())));
    assert!(affected.contains(&WorkspaceId("diamond-c".to_owned())));
    assert!(affected.contains(&WorkspaceId("diamond-d".to_owned())));
}

// ── Proof 10: Self-referencing composition is rejected ──────────────────
//
// A sub-workspace that reads its own output should cause a cycle error
// when the cycle detection runs. The CompositionBuilder resolves names
// using the parent prefix, so a self-reference creates a real cycle in
// the graph that verify_ordering catches.
#[test]
fn proof10_self_referencing_composition_is_rejected() {
    let plan = CompositionBuilder::new("self_ref", "Self Ref", "aws")
        .sub_workspace("loopy", |ws| {
            ws.output("x", iac_forge::ir::IacType::String, "res.x")
                .input_from("loopy", "x", iac_forge::ir::IacType::String)
        })
        .build();

    // The graph should have a cycle: loopy reads from itself.
    let cycle_violations = verify_ordering(&plan.graph);
    assert!(
        !cycle_violations.is_empty(),
        "Self-referencing workspace must create a cycle"
    );
    for v in &cycle_violations {
        assert!(
            matches!(v, GraphViolation::CyclicDependency { .. }),
            "Expected CyclicDependency, got {v:?}"
        );
    }

    // verify_graph should also fail.
    assert!(
        plan.verify().is_err(),
        "Self-referencing composition must fail verification"
    );
}

// ── Additional composition integrity proofs ─────────────────────────────

/// Verify that duplicate output names within a composed sub-workspace are detected.
#[test]
fn composition_detects_duplicate_outputs() {
    let plan = CompositionBuilder::new("dup", "Duplicate", "aws")
        .sub_workspace("net", |ws| {
            ws.output("vpc_id", iac_forge::ir::IacType::String, "aws_vpc.a.id")
                .output("vpc_id", iac_forge::ir::IacType::String, "aws_vpc.b.id")
        })
        .build();

    let result = plan.verify();
    assert!(
        result.is_err(),
        "Duplicate outputs in composition must be rejected"
    );
    let violations = result.unwrap_err();
    assert!(
        violations.iter().any(|v| matches!(v, GraphViolation::DuplicateOutput { .. })),
        "Must contain DuplicateOutput violation"
    );
}

/// Verify that a composition with type mismatch between siblings is caught
/// at the composition level (not just at the raw graph level).
#[test]
fn composition_type_mismatch_between_siblings() {
    let plan = CompositionBuilder::new("mismatch", "Mismatch", "aws")
        .sub_workspace("producer", |ws| {
            ws.output("value", iac_forge::ir::IacType::String, "res.value")
        })
        .sub_workspace("consumer", |ws| {
            // Consumer expects Integer but producer outputs String.
            ws.input_from("producer", "value", iac_forge::ir::IacType::Integer)
        })
        .build();

    let result = plan.verify();
    assert!(
        result.is_err(),
        "Type mismatch between composition siblings must fail"
    );
    let violations = result.unwrap_err();
    assert!(
        violations.iter().any(|v| matches!(v, GraphViolation::TypeMismatch { .. })),
        "Must contain TypeMismatch violation"
    );
}

/// Verify that a composition referencing a nonexistent sibling is caught.
#[test]
fn composition_disconnected_reference_to_nonexistent_sibling() {
    let plan = CompositionBuilder::new("missing", "Missing", "aws")
        .sub_workspace("consumer", |ws| {
            // References "ghost" which does not exist.
            ws.input_from("ghost", "value", iac_forge::ir::IacType::String)
        })
        .build();

    let result = plan.verify();
    assert!(
        result.is_err(),
        "Reference to nonexistent sibling must fail"
    );
    let violations = result.unwrap_err();
    assert!(
        violations.iter().any(|v| matches!(v, GraphViolation::DisconnectedInput { .. })),
        "Must contain DisconnectedInput violation"
    );
}

/// Verify that process lookup works correctly for all children in a composition.
#[test]
fn composition_process_lookup_consistency() {
    let plan = CompositionBuilder::new("lookup", "Lookup", "aws")
        .sub_workspace("alpha", |ws| {
            ws.output("a", iac_forge::ir::IacType::String, "r.a")
        })
        .sub_workspace("beta", |ws| {
            ws.input_from("alpha", "a", iac_forge::ir::IacType::String)
                .output("b", iac_forge::ir::IacType::String, "r.b")
        })
        .sub_workspace("gamma", |ws| {
            ws.input_from("beta", "b", iac_forge::ir::IacType::String)
        })
        .build();

    // Lookup by PID.
    for (i, child) in plan.children.iter().enumerate() {
        let pid = u32::try_from(i).unwrap() + 2;
        let found = plan.process(pid);
        assert!(found.is_some(), "Process with PID {} must exist", pid);
        assert_eq!(found.unwrap().name, child.name);
    }

    // Lookup by name.
    for child in &plan.children {
        let found = plan.process_by_name(&child.name);
        assert!(found.is_some(), "Process with name {} must exist", child.name);
        assert_eq!(found.unwrap().pid, child.pid);
    }

    // Nonexistent lookups return None.
    assert!(plan.process(99).is_none());
    assert!(plan.process_by_name("nonexistent").is_none());
}
