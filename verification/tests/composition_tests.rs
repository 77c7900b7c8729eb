use iac_forge::ir::IacType;
use workspace_state_graph::composition::CompositionBuilder;
use workspace_state_graph::types::WorkspaceId;

#[test]
fn simple_composition() {
    let plan = CompositionBuilder::new("test", "Test Platform", "aws")
        .sub_workspace("vpc", |ws| ws.output("vpc_id", IacType::String, "aws_vpc.main.id"))
        .sub_workspace("cluster", |ws| {
            ws.input_from("vpc", "vpc_id", IacType::String)
                .output("endpoint", IacType::String, "aws_lb.api.dns_name")
        })
        .build();

    // Parent + 2 children = 3 nodes
    assert_eq!(plan.graph.nodes.len(), 3);
    // 1 edge: vpc -> cluster
    assert_eq!(plan.graph.edges.len(), 1);
    assert!(plan.verify().is_ok());
}

#[test]
fn pids_assigned_sequentially() {
    let plan = CompositionBuilder::new("p", "P", "aws")
        .sub_workspace("a", |ws| ws.output("x", IacType::String, "r.x"))
        .sub_workspace("b", |ws| ws.output("y", IacType::String, "r.y"))
        .sub_workspace("c", |ws| ws.output("z", IacType::String, "r.z"))
        .build();

    assert_eq!(plan.children[0].pid, 2);
    assert_eq!(plan.children[1].pid, 3);
    assert_eq!(plan.children[2].pid, 4);
    assert!(plan.children.iter().all(|c| c.ppid == 1));
}

#[test]
fn state_keys_nested() {
    let plan = CompositionBuilder::new("seph", "Seph", "aws")
        .sub_workspace("network", |ws| ws.output("id", IacType::String, "r.id"))
        .build();

    assert_eq!(plan.children[0].state_key, "pangea/seph/network");
}

#[test]
fn composition_deployment_order_respects_edges() {
    let plan = CompositionBuilder::new("app", "App", "aws")
        .sub_workspace("db", |ws| ws.output("url", IacType::String, "aws_rds.main.endpoint"))
        .sub_workspace("api", |ws| {
            ws.input_from("db", "url", IacType::String)
                .output("endpoint", IacType::String, "aws_lb.api.dns_name")
        })
        .sub_workspace("frontend", |ws| ws.input_from("api", "endpoint", IacType::String))
        .build();

    let order = plan.deployment_order().expect("no cycles");
    let pos = |suffix: &str| order.iter().position(|id| id.0.ends_with(suffix)).unwrap();

    assert!(pos("db") < pos("api"));
    assert!(pos("api") < pos("frontend"));
}

#[test]
fn process_lookup_by_pid_and_name() {
    let plan = CompositionBuilder::new("p", "P", "aws")
        .sub_workspace("net", |ws| ws.output("x", IacType::String, "r.x"))
        .build();

    assert!(plan.process(2).is_some());
    assert_eq!(plan.process(2).unwrap().name, "net");
    assert!(plan.process_by_name("net").is_some());
    assert!(plan.process(99).is_none());
}

#[test]
fn seph_platform_composition() {
    let plan = CompositionBuilder::new("seph", "Seph Platform", "aws")
        .sub_workspace("network", |ws| {
            ws.output("vpc_id", IacType::String, "aws_vpc.seph.id").output(
                "subnet_ids",
                IacType::List(Box::new(IacType::String)),
                "aws_subnet.*.id",
            )
        })
        .sub_workspace("dns", |ws| ws.output("zone_id", IacType::String, "aws_route53_zone.main.zone_id"))
        .sub_workspace("cluster", |ws| {
            ws.input_from("network", "vpc_id", IacType::String)
                .input_from("network", "subnet_ids", IacType::List(Box::new(IacType::String)))
                .input_from("dns", "zone_id", IacType::String)
                .output("endpoint", IacType::String, "aws_lb.api.dns_name")
        })
        .sub_workspace("secrets", |ws| {
            ws.input_from("cluster", "endpoint", IacType::String)
                .output("gateway_url", IacType::String, "akeyless_gateway.dev.hostname")
        })
        .build();

    // Parent + 4 children
    assert_eq!(plan.graph.nodes.len(), 5);
    // network->cluster (2 inputs), dns->cluster (1), cluster->secrets (1) = 4 edges
    assert_eq!(plan.graph.edges.len(), 4);
    assert!(plan.verify().is_ok());

    let order = plan.deployment_order().expect("DAG");
    let pos = |s: &str| order.iter().position(|id| id.0.contains(s)).unwrap();
    assert!(pos("network") < pos("cluster"));
    assert!(pos("dns") < pos("cluster"));
    assert!(pos("cluster") < pos("secrets"));
}

#[test]
fn composition_resolves_ids_keys_and_parent() {
    let plan = CompositionBuilder::new("seph", "Seph Platform", "gcp")
        .sub_workspace("network", |ws| ws.output("vpc_id", IacType::String, "r.v"))
        .sub_workspace("cluster", |ws| ws.input_as("net_id", "network", "vpc_id", IacType::String))
        .build();
    assert_eq!(plan.parent, WorkspaceId("seph".to_owned()));
    let parent = plan.graph.nodes.get(&WorkspaceId("seph".to_owned())).unwrap();
    assert_eq!(parent.state_key, "pangea/seph");
    assert_eq!(parent.name, "Seph Platform");
    assert_eq!(parent.provider, "gcp");
    assert_eq!(plan.children[1].id, WorkspaceId("seph-cluster".to_owned()));
    let cluster = plan.graph.nodes.get(&WorkspaceId("seph-cluster".to_owned())).unwrap();
    assert_eq!(cluster.state_key, "pangea/seph/cluster");
    assert_eq!(cluster.provider, "gcp");
    assert_eq!(cluster.inputs[0].name, "net_id");
    assert_eq!(cluster.inputs[0].source_workspace, WorkspaceId("seph-network".to_owned()));
    assert_eq!(cluster.inputs[0].source_output, "vpc_id");
    assert_eq!(plan.graph.edges[0].from, WorkspaceId("seph-network".to_owned()));
    assert_eq!(plan.graph.edges[0].to, WorkspaceId("seph-cluster".to_owned()));
}

#[test]
fn process_lookup_takes_the_first_of_a_repeated_name() {
    let plan = CompositionBuilder::new("p", "P", "aws")
        .sub_workspace("twin", |ws| ws.output("x", IacType::String, "r.x"))
        .sub_workspace("twin", |ws| ws.output("y", IacType::String, "r.y"))
        .build();
    assert_eq!(plan.children.len(), 2);
    assert_eq!(plan.process_by_name("twin").unwrap().pid, 2);
    assert_eq!(plan.process(3).unwrap().name, "twin");
    // Both children resolve to the same workspace, which the later one replaces.
    assert_eq!(plan.graph.nodes.len(), 2);
    let twin = plan.graph.nodes.get(&WorkspaceId("p-twin".to_owned())).unwrap();
    assert_eq!(twin.outputs.len(), 2);
}

#[test]
fn plan_clone_is_equal_in_every_part() {
    let plan = CompositionBuilder::new("p", "P", "aws")
        .sub_workspace("a", |ws| ws.output("x", IacType::String, "r.x"))
        .build();
    let copy = plan.clone();
    assert_eq!(copy.parent, plan.parent);
    assert_eq!(copy.children[0].id, plan.children[0].id);
    assert_eq!(copy.children[0].state_key, plan.children[0].state_key);
    assert_eq!(copy.graph.nodes.values(), plan.graph.nodes.values());
    assert_eq!(copy.graph.edges, plan.graph.edges);
}
