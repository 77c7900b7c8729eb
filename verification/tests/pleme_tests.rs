use iac_forge::ir::IacType;
use workspace_state_graph::analysis::deployment_order;
use workspace_state_graph::pleme::{
    builder_fleet_composition, minimal_graph, minimal_graph_typed, pleme_infrastructure_graph,
    quero_infrastructure_graph, quero_infrastructure_graph_typed, quero_platform_composition,
};
use workspace_state_graph::types::WorkspaceId;

fn id(s: &str) -> WorkspaceId {
    WorkspaceId(s.to_owned())
}

#[test]
fn pleme_list_ports_carry_list_types() {
    let graph = pleme_infrastructure_graph();
    let dns = graph.nodes.get(&id("pleme-dns")).unwrap();
    assert_eq!(dns.outputs[2].name, "nameservers");
    assert_eq!(dns.outputs[2].field_type, IacType::List(Box::new(IacType::String)));
    assert_eq!(dns.outputs[0].field_type, IacType::String);
    let cluster = graph.nodes.get(&id("seph-cluster")).unwrap();
    assert_eq!(cluster.inputs[1].name, "subnet_ids");
    assert_eq!(cluster.inputs[1].field_type, IacType::List(Box::new(IacType::String)));
    assert_eq!(cluster.inputs[1].source_output, "private_subnet_ids");
}

#[test]
fn pleme_workspaces_are_held_in_identity_order() {
    let graph = pleme_infrastructure_graph();
    let keys: Vec<String> = graph.nodes.keys().into_iter().map(|k| k.0).collect();
    assert_eq!(
        keys,
        vec!["akeyless-dev-config", "nix-builders", "pleme-dns", "seph-cluster", "seph-vpc", "state-backend"]
    );
    let akeyless = graph.nodes.get(&id("akeyless-dev-config")).unwrap();
    assert_eq!(akeyless.provider, "akeyless");
    assert_eq!(akeyless.state_key, "pangea/akeyless-dev-config");
}

#[test]
fn pleme_deployment_order_is_kahn_order() {
    let graph = pleme_infrastructure_graph();
    let order: Vec<String> = deployment_order(&graph).unwrap().into_iter().map(|w| w.0).collect();
    assert_eq!(
        order,
        vec!["pleme-dns", "seph-vpc", "state-backend", "nix-builders", "seph-cluster", "akeyless-dev-config"]
    );
}

#[test]
fn minimal_graph_shape() {
    let graph = minimal_graph();
    let keys: Vec<String> = graph.nodes.keys().into_iter().map(|k| k.0).collect();
    assert_eq!(keys, vec!["cluster", "dns", "vpc"]);
    assert_eq!(graph.edges.len(), 2);
    assert_eq!(graph.edges[0].from, id("vpc"));
    assert_eq!(graph.edges[1].from, id("dns"));
    let cluster = graph.nodes.get(&id("cluster")).unwrap();
    assert_eq!(cluster.outputs[0].source_resource, "aws_lb.api.dns_name");
}

#[test]
fn quero_graph_shape() {
    let graph = quero_infrastructure_graph();
    let monitoring = graph.nodes.get(&id("quero-monitoring")).unwrap();
    assert!(monitoring.outputs.is_empty());
    assert_eq!(monitoring.inputs.len(), 2);
    let vpc = graph.nodes.get(&id("quero-vpc")).unwrap();
    assert_eq!(vpc.outputs[1].field_type, IacType::List(Box::new(IacType::String)));
}

#[test]
fn builder_fleet_plan_shape() {
    let plan = builder_fleet_composition();
    assert_eq!(plan.parent, id("nix-builders"));
    let ids: Vec<&str> = plan.children.iter().map(|c| c.id.0.as_str()).collect();
    assert_eq!(ids, vec!["nix-builders-network", "nix-builders-security", "nix-builders-compute", "nix-builders-dns"]);
    assert_eq!(plan.children[2].state_key, "pangea/nix-builders/compute");
    // security 1, compute 4, dns 1
    assert_eq!(plan.graph.edges.len(), 6);
    let compute = plan.graph.nodes.get(&id("nix-builders-compute")).unwrap();
    assert_eq!(compute.inputs[1].field_type, IacType::List(Box::new(IacType::String)));
    assert_eq!(compute.inputs[2].source_workspace, id("nix-builders-security"));
}

#[test]
fn quero_platform_plan_shape() {
    let plan = quero_platform_composition();
    assert_eq!(plan.graph.nodes.len(), 7);
    // aarch64 2, x86 2, cache 1, seph 3
    assert_eq!(plan.graph.edges.len(), 8);
    let seph = plan.graph.nodes.get(&id("quero-seph")).unwrap();
    assert_eq!(seph.inputs[1].source_workspace, id("quero-vpc"));
    assert_eq!(seph.state_key, "pangea/quero/seph");
}

#[test]
fn vpc_impact_comes_in_discovery_order() {
    let graph = pleme_infrastructure_graph();
    let affected = workspace_state_graph::analysis::affected_workspaces(&graph, &id("seph-vpc"));
    assert_eq!(affected, vec![id("seph-cluster"), id("akeyless-dev-config")]);
}

#[test]
fn typed_topologies_use_the_given_port_type() {
    let graph = minimal_graph_typed(IacType::Integer);
    let cluster = graph.nodes.get(&id("cluster")).unwrap();
    assert_eq!(cluster.inputs[0].field_type, IacType::Integer);
    assert_eq!(graph.edges[1].field_type, IacType::Integer);
    let quero = quero_infrastructure_graph_typed(IacType::Boolean);
    let vpc = quero.nodes.get(&id("quero-vpc")).unwrap();
    assert_eq!(vpc.outputs[1].field_type, IacType::List(Box::new(IacType::Boolean)));
}
