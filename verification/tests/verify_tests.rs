use iac_forge::ir::IacType;
use workspace_state_graph::builder::WorkspaceGraphBuilder;
use workspace_state_graph::verify::{
    verify_compatibility, verify_connectivity, verify_graph, verify_ordering, verify_uniqueness, GraphViolation,
};

#[test]
fn verify_empty_graph_passes_all_verification() {
    let graph = WorkspaceGraphBuilder::new().build();
    assert_eq!(verify_graph(&graph), Ok(()));
}

#[test]
fn single_node_graph_passes_all_verification() {
    let graph = WorkspaceGraphBuilder::new()
        .workspace("dns", "pleme-dns", "dns/terraform.tfstate", "aws")
        .output("dns", "zone_id", IacType::String, "aws_route53_zone.zone")
        .build();
    assert_eq!(verify_graph(&graph), Ok(()));
}

#[test]
fn valid_two_node_graph_passes() {
    let graph = WorkspaceGraphBuilder::new()
        .workspace("dns", "pleme-dns", "dns/terraform.tfstate", "aws")
        .output("dns", "zone_id", IacType::String, "aws_route53_zone.zone")
        .workspace("cluster", "seph-cluster", "cluster/terraform.tfstate", "aws")
        .input("cluster", "zone_id", IacType::String, "dns", "zone_id")
        .build();
    assert_eq!(verify_graph(&graph), Ok(()));
}

#[test]
fn detects_disconnected_input() {
    let graph = WorkspaceGraphBuilder::new()
        .workspace("cluster", "seph-cluster", "cluster/terraform.tfstate", "aws")
        .input("cluster", "zone_id", IacType::String, "nonexistent", "zone_id")
        .build();
    let violations = verify_connectivity(&graph);
    assert_eq!(violations.len(), 1);
    assert!(matches!(&violations[0], GraphViolation::DisconnectedInput { .. }));
}

#[test]
fn detects_type_mismatch() {
    let graph = WorkspaceGraphBuilder::new()
        .workspace("dns", "pleme-dns", "dns/terraform.tfstate", "aws")
        .output("dns", "zone_id", IacType::String, "aws_route53_zone.zone")
        .workspace("cluster", "seph-cluster", "cluster/terraform.tfstate", "aws")
        .input("cluster", "zone_id", IacType::Integer, "dns", "zone_id")
        .build();
    let violations = verify_compatibility(&graph);
    assert_eq!(violations.len(), 1);
    assert!(matches!(&violations[0], GraphViolation::TypeMismatch { .. }));
}

#[test]
fn detects_cycle() {
    let graph = WorkspaceGraphBuilder::new()
        .workspace("a", "A", "a/terraform.tfstate", "aws")
        .output("a", "out_a", IacType::String, "res_a")
        .input("a", "in_a", IacType::String, "b", "out_b")
        .workspace("b", "B", "b/terraform.tfstate", "aws")
        .output("b", "out_b", IacType::String, "res_b")
        .input("b", "in_b", IacType::String, "a", "out_a")
        .build();
    let violations = verify_ordering(&graph);
    assert_eq!(violations.len(), 1);
    assert!(matches!(&violations[0], GraphViolation::CyclicDependency { .. }));
}

#[test]
fn detects_duplicate_output() {
    let graph = WorkspaceGraphBuilder::new()
        .workspace("dns", "pleme-dns", "dns/terraform.tfstate", "aws")
        .output("dns", "zone_id", IacType::String, "aws_route53_zone.zone")
        .output("dns", "zone_id", IacType::String, "aws_route53_zone.other")
        .build();
    let violations = verify_uniqueness(&graph);
    assert_eq!(violations.len(), 1);
    assert!(matches!(&violations[0], GraphViolation::DuplicateOutput { .. }));
}

#[test]
fn violations_carry_their_context() {
    let graph = WorkspaceGraphBuilder::new()
        .workspace("dns", "D", "d.tfstate", "aws")
        .output("dns", "zone_id", IacType::String, "r.1")
        .output("dns", "zone_id", IacType::Integer, "r.2")
        .output("dns", "zone_id", IacType::Boolean, "r.3")
        .workspace("app", "A", "a.tfstate", "aws")
        .input("app", "zone", IacType::Integer, "dns", "zone_id")
        .input("app", "other", IacType::String, "dns", "missing")
        .build();
    assert_eq!(
        verify_uniqueness(&graph),
        vec![
            GraphViolation::DuplicateOutput { workspace: "dns".into(), output: "zone_id".into() },
            GraphViolation::DuplicateOutput { workspace: "dns".into(), output: "zone_id".into() },
        ]
    );
    assert_eq!(
        verify_connectivity(&graph),
        vec![GraphViolation::DisconnectedInput {
            workspace: "app".into(),
            input: "other".into(),
            source_workspace: "dns".into(),
            source_output: "missing".into(),
        }]
    );
    // The first output of that name is the one compared.
    assert_eq!(
        verify_compatibility(&graph),
        vec![GraphViolation::TypeMismatch {
            from_workspace: "dns".into(),
            output: "zone_id".into(),
            output_type: IacType::String,
            to_workspace: "app".into(),
            input: "zone".into(),
            input_type: IacType::Integer,
        }]
    );
    assert!(verify_ordering(&graph).is_empty());
    let all = verify_graph(&graph).unwrap_err();
    assert_eq!(all.len(), 4);
    assert!(matches!(all[0], GraphViolation::DuplicateOutput { .. }));
    assert!(matches!(all[2], GraphViolation::DisconnectedInput { .. }));
    assert!(matches!(all[3], GraphViolation::TypeMismatch { .. }));
}

#[test]
fn list_and_element_types_do_not_match() {
    let graph = WorkspaceGraphBuilder::new()
        .workspace("vpc", "V", "v.tfstate", "aws")
        .output("vpc", "subnets", IacType::List(Box::new(IacType::String)), "aws_subnet.*.id")
        .workspace("app", "A", "a.tfstate", "aws")
        .input("app", "subnets", IacType::String, "vpc", "subnets")
        .build();
    let violations = verify_compatibility(&graph);
    assert_eq!(violations.len(), 1);
    match &violations[0] {
        GraphViolation::TypeMismatch { output_type, input_type, .. } => {
            assert_eq!(*output_type, IacType::List(Box::new(IacType::String)));
            assert_eq!(*input_type, IacType::String);
        }
        other => panic!("expected a type mismatch, got {other:?}"),
    }
}

#[test]
fn missing_source_is_disconnected_but_not_mismatched() {
    let graph = WorkspaceGraphBuilder::new()
        .workspace("app", "A", "a.tfstate", "aws")
        .input("app", "x", IacType::String, "ghost", "x")
        .build();
    assert_eq!(verify_connectivity(&graph).len(), 1);
    assert!(verify_compatibility(&graph).is_empty());
    // A missing source is no dependency, so there is no cycle either.
    assert!(verify_ordering(&graph).is_empty());
}

#[test]
fn violation_clone_is_equal() {
    let v = GraphViolation::CyclicDependency { workspaces: vec!["a".into(), "b".into()] };
    assert_eq!(v.clone(), v);
    let t = GraphViolation::TypeMismatch {
        from_workspace: "a".into(),
        output: "o".into(),
        output_type: IacType::Integer,
        to_workspace: "b".into(),
        input: "i".into(),
        input_type: IacType::Boolean,
    };
    assert_eq!(t.clone(), t);
    let o = GraphViolation::OrphanWorkspace { workspace: "z".into() };
    assert_eq!(o.clone(), o);
}
