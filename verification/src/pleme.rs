//! Real pleme-io infrastructure topology.
use vstd::prelude::*;
use iac_forge::ir::IacType;
use crate::builder::{BuilderView, WorkspaceGraphBuilder, bare_node, built_graph};
use crate::composition::{
    ChildSpecView, CompositionBuilder, CompositionPlan, CompositionView, InputDecl, OutputDecl,
    SubWorkspaceBuilder, SubWorkspaceView, planned,
};
use crate::types::{
    InputPortView, OutputPortView, WorkspaceGraph, WorkspaceNodeView, clone_field_type, iac_list,
    is_list_type, list_type, sorted_insert, string_type,
};
use crate::text::text_lt;

verus! {

/// The workspaces `ns`, declared one after the other.
pub open spec fn declared(ns: Seq<WorkspaceNodeView>) -> Seq<WorkspaceNodeView>
    decreases ns.len(),
{
    if ns.len() == 0 {
        seq![]
    } else {
        sorted_insert(declared(ns.drop_last()), ns.last())
    }
}

/// Declaring one more workspace.
pub proof fn lemma_declared_push(ns: Seq<WorkspaceNodeView>, n: WorkspaceNodeView)
    ensures
        declared(ns.push(n)) == sorted_insert(declared(ns), n),
{
    assert(ns.push(n).drop_last() =~= ns);
}

/// Declaring workspaces one after the other, from none.
pub proof fn lemma_declared_all(ns: Seq<WorkspaceNodeView>)
    ensures
        forall|k: int|
            0 <= k < ns.len() ==> #[trigger] declared(ns.take(k + 1)) == sorted_insert(declared(ns.take(k)), ns[k]),
{
    assert forall|k: int| 0 <= k < ns.len() implies #[trigger] declared(ns.take(k + 1)) == sorted_insert(
        declared(ns.take(k)),
        ns[k],
    ) by {
        assert(ns.take(k + 1) =~= ns.take(k).push(ns[k]));
        lemma_declared_push(ns.take(k), ns[k]);
    }
}

/// A declared workspace without ports.
pub open spec fn ws(id: &str, name: &str, state_key: &str, provider: &str) -> WorkspaceNodeView {
    bare_node(id@, name@, state_key@, provider@)
}

/// A declared output port of workspace `ws`.
pub open spec fn out(ws: &str, name: &str, ty: IacType, source: &str) -> (Seq<char>, OutputPortView) {
    (ws@, OutputPortView { name: name@, field_type: ty, source_resource: source@ })
}

/// A declared input port of workspace `ws`.
pub open spec fn inp(ws: &str, name: &str, ty: IacType, source_ws: &str, source_output: &str) -> (
    Seq<char>,
    InputPortView,
) {
    (
        ws@,
        InputPortView { name: name@, field_type: ty, source_workspace: source_ws@, source_output: source_output@ },
    )
}

/// The pleme-io workspaces, in declaration order.
pub open spec fn pleme_workspaces() -> Seq<WorkspaceNodeView> {
    seq![
        ws("state-backend", "State Backend", "pangea/state-backend", "aws"),
        ws("pleme-dns", "DNS Infrastructure", "pangea/pleme-dns", "aws"),
        ws("nix-builders", "Nix Builder Fleet", "pangea/nix-builders", "aws"),
        ws("seph-vpc", "Seph VPC", "pangea/seph-vpc", "aws"),
        ws("seph-cluster", "Seph K3s Cluster", "pangea/seph-cluster", "aws"),
        ws("akeyless-dev-config", "Akeyless Dev Config", "pangea/akeyless-dev-config", "akeyless"),
    ]
}

/// The declarations of the pleme-io infrastructure, with `s` as the string type.
pub open spec fn pleme_declarations(s: IacType) -> BuilderView {
    let l = iac_list(s);
    BuilderView {
        nodes: declared(pleme_workspaces()),
        outputs: seq![
            out("state-backend", "bucket_name", s, "aws_s3_bucket.state.bucket"),
            out("state-backend", "dynamodb_table", s, "aws_dynamodb_table.lock.name"),
            out("state-backend", "bucket_arn", s, "aws_s3_bucket.state.arn"),
            out("pleme-dns", "zone_id", s, "aws_route53_zone.zone.zone_id"),
            out("pleme-dns", "domain", s, "output.domain"),
            out("pleme-dns", "nameservers", l, "aws_route53_zone.zone.name_servers"),
            out("nix-builders", "vpc_id", s, "aws_vpc.aarch64-vpc.id"),
            out("nix-builders", "nlb_dns", s, "aws_lb.aarch64-builder-nlb.dns_name"),
            out("nix-builders", "asg_name", s, "aws_autoscaling_group.aarch64-builder-asg.name"),
            out("seph-vpc", "vpc_id", s, "aws_vpc.seph.id"),
            out("seph-vpc", "public_subnet_ids", l, "aws_subnet.public.*.id"),
            out("seph-vpc", "private_subnet_ids", l, "aws_subnet.private.*.id"),
            out("seph-vpc", "security_group_id", s, "aws_security_group.default.id"),
            out("seph-cluster", "cluster_endpoint", s, "aws_lb.api.dns_name"),
            out("seph-cluster", "vpn_endpoint", s, "aws_lb.vpn.dns_name"),
            out("seph-cluster", "cluster_ca", s, "tls_self_signed_cert.ca.cert_pem"),
            out("akeyless-dev-config", "gateway_url", s, "akeyless_gateway.dev.hostname"),
        ],
        inputs: seq![
            inp("nix-builders", "zone_id", s, "pleme-dns", "zone_id"),
            inp("seph-cluster", "vpc_id", s, "seph-vpc", "vpc_id"),
            inp("seph-cluster", "subnet_ids", l, "seph-vpc", "private_subnet_ids"),
            inp("seph-cluster", "dns_zone_id", s, "pleme-dns", "zone_id"),
            inp("akeyless-dev-config", "cluster_endpoint", s, "seph-cluster", "cluster_endpoint"),
        ],
    }
}

/// Build the complete pleme-io infrastructure graph.
///
/// ```text
/// state-backend (no deps)
/// pleme-dns (independent -- Route53 + Porkbun)
///      |  \
/// seph-cluster  nix-builders (read pleme-dns zone_id)
///      |    (seph-cluster also reads seph-vpc)
/// akeyless-dev-config (reads seph-cluster outputs)
/// ```
pub fn pleme_infrastructure_graph() -> (g: WorkspaceGraph)
    ensures
        exists|s: IacType| !is_list_type(s) && g@ == built_graph(pleme_declarations(s)),
{
    let s = string_type();
    let g = pleme_infrastructure_graph_typed(s);
    assert(!is_list_type(s) && g@ == built_graph(pleme_declarations(s)));
    g
}

/// The same topology, with `s` as the port type for strings; list ports are
/// lists of `s`.
pub fn pleme_infrastructure_graph_typed(s: IacType) -> (g: WorkspaceGraph)
    ensures
        g@ == built_graph(pleme_declarations(s)),
{
    let l = list_type(clone_field_type(&s));
    let b = WorkspaceGraphBuilder::new()
        // -- State Backend (root -- no dependencies) --
        .workspace("state-backend", "State Backend", "pangea/state-backend", "aws")
        .output("state-backend", "bucket_name", clone_field_type(&s), "aws_s3_bucket.state.bucket")
        .output("state-backend", "dynamodb_table", clone_field_type(&s), "aws_dynamodb_table.lock.name")
        .output("state-backend", "bucket_arn", clone_field_type(&s), "aws_s3_bucket.state.arn")
        // -- pleme-dns (independent -- Route53 + Porkbun) --
        .workspace("pleme-dns", "DNS Infrastructure", "pangea/pleme-dns", "aws")
        .output("pleme-dns", "zone_id", clone_field_type(&s), "aws_route53_zone.zone.zone_id")
        .output("pleme-dns", "domain", clone_field_type(&s), "output.domain")
        .output("pleme-dns", "nameservers", clone_field_type(&l), "aws_route53_zone.zone.name_servers")
        // -- nix-builders (Nix builder fleet -- depends on pleme-dns zone) --
        .workspace("nix-builders", "Nix Builder Fleet", "pangea/nix-builders", "aws")
        .input("nix-builders", "zone_id", clone_field_type(&s), "pleme-dns", "zone_id")
        .output("nix-builders", "vpc_id", clone_field_type(&s), "aws_vpc.aarch64-vpc.id")
        .output("nix-builders", "nlb_dns", clone_field_type(&s), "aws_lb.aarch64-builder-nlb.dns_name")
        .output("nix-builders", "asg_name", clone_field_type(&s), "aws_autoscaling_group.aarch64-builder-asg.name")
        // -- seph-vpc (VPC infrastructure) --
        .workspace("seph-vpc", "Seph VPC", "pangea/seph-vpc", "aws")
        .output("seph-vpc", "vpc_id", clone_field_type(&s), "aws_vpc.seph.id")
        .output("seph-vpc", "public_subnet_ids", clone_field_type(&l), "aws_subnet.public.*.id")
        .output("seph-vpc", "private_subnet_ids", clone_field_type(&l), "aws_subnet.private.*.id")
        .output("seph-vpc", "security_group_id", clone_field_type(&s), "aws_security_group.default.id")
        // -- seph-cluster (K3s cluster -- depends on VPC + DNS) --
        .workspace("seph-cluster", "Seph K3s Cluster", "pangea/seph-cluster", "aws")
        .input("seph-cluster", "vpc_id", clone_field_type(&s), "seph-vpc", "vpc_id")
        .input("seph-cluster", "subnet_ids", clone_field_type(&l), "seph-vpc", "private_subnet_ids")
        .input("seph-cluster", "dns_zone_id", clone_field_type(&s), "pleme-dns", "zone_id")
        .output("seph-cluster", "cluster_endpoint", clone_field_type(&s), "aws_lb.api.dns_name")
        .output("seph-cluster", "vpn_endpoint", clone_field_type(&s), "aws_lb.vpn.dns_name")
        .output("seph-cluster", "cluster_ca", clone_field_type(&s), "tls_self_signed_cert.ca.cert_pem")
        // -- akeyless-dev-config (Akeyless secrets -- depends on cluster) --
        .workspace("akeyless-dev-config", "Akeyless Dev Config", "pangea/akeyless-dev-config", "akeyless")
        .input("akeyless-dev-config", "cluster_endpoint", clone_field_type(&s), "seph-cluster", "cluster_endpoint")
        .output("akeyless-dev-config", "gateway_url", clone_field_type(&s), "akeyless_gateway.dev.hostname");
    proof {
        let d = pleme_declarations(s);
        assert(b@.outputs =~= d.outputs);
        assert(b@.inputs =~= d.inputs);
        let ns = seq![
            ws("state-backend", "State Backend", "pangea/state-backend", "aws"),
            ws("pleme-dns", "DNS Infrastructure", "pangea/pleme-dns", "aws"),
            ws("nix-builders", "Nix Builder Fleet", "pangea/nix-builders", "aws"),
            ws("seph-vpc", "Seph VPC", "pangea/seph-vpc", "aws"),
            ws("seph-cluster", "Seph K3s Cluster", "pangea/seph-cluster", "aws"),
            ws("akeyless-dev-config", "Akeyless Dev Config", "pangea/akeyless-dev-config", "akeyless"),
        ];
        lemma_declared_all(ns);
        assert(ns.take(0) =~= Seq::<WorkspaceNodeView>::empty());
        assert(ns.take(6) =~= ns);
        assert(declared(ns.take(1)) == sorted_insert(declared(ns.take(0)), ns[0]));
        assert(declared(ns.take(2)) == sorted_insert(declared(ns.take(1)), ns[1]));
        assert(declared(ns.take(3)) == sorted_insert(declared(ns.take(2)), ns[2]));
        assert(declared(ns.take(4)) == sorted_insert(declared(ns.take(3)), ns[3]));
        assert(declared(ns.take(5)) == sorted_insert(declared(ns.take(4)), ns[4]));
        assert(declared(ns.take(6)) == sorted_insert(declared(ns.take(5)), ns[5]));
        assert(b@.nodes == d.nodes);
    }
    b.build()
}

/// The declarations of the quero.lol infrastructure, with `s` as the string type.
pub open spec fn quero_declarations(s: IacType) -> BuilderView {
    let l = iac_list(s);
    BuilderView {
        nodes: declared(quero_workspaces()),
        outputs: seq![
            out("quero-dns", "public_zone_id", s, "aws_route53_zone.quero-public.zone_id"),
            out("quero-dns", "private_zone_id", s, "aws_route53_zone.quero-private.zone_id"),
            out("quero-dns", "nameservers", l, "aws_route53_zone.quero-public.name_servers"),
            out("quero-vpc", "vpc_id", s, "aws_vpc.quero.id"),
            out("quero-vpc", "subnet_ids", l, "aws_subnet.*.id"),
            out("quero-builders-aarch64", "nlb_dns", s, "aws_lb.aarch64-nlb.dns_name"),
            out("quero-builders-x86", "nlb_dns", s, "aws_lb.x86-nlb.dns_name"),
            out("quero-cache", "endpoint", s, "aws_s3_bucket.cache.bucket_domain_name"),
            out("quero-seph", "endpoint", s, "aws_lb.api.dns_name"),
        ],
        inputs: seq![
            inp("quero-builders-aarch64", "vpc_id", s, "quero-vpc", "vpc_id"),
            inp("quero-builders-aarch64", "zone_id", s, "quero-dns", "public_zone_id"),
            inp("quero-builders-x86", "vpc_id", s, "quero-vpc", "vpc_id"),
            inp("quero-builders-x86", "zone_id", s, "quero-dns", "public_zone_id"),
            inp("quero-cache", "zone_id", s, "quero-dns", "public_zone_id"),
            inp("quero-seph", "vpc_id", s, "quero-vpc", "vpc_id"),
            inp("quero-seph", "subnet_ids", l, "quero-vpc", "subnet_ids"),
            inp("quero-seph", "zone_id", s, "quero-dns", "public_zone_id"),
            inp("quero-monitoring", "zone_id", s, "quero-dns", "public_zone_id"),
            inp("quero-monitoring", "cluster_endpoint", s, "quero-seph", "endpoint"),
        ],
    }
}

/// The quero.lol workspaces, in declaration order.
pub open spec fn quero_workspaces() -> Seq<WorkspaceNodeView> {
    seq![
        ws("quero-dns", "quero.lol DNS", "pangea/quero-dns", "aws"),
        ws("quero-vpc", "quero VPC", "pangea/quero-vpc", "aws"),
        ws("quero-builders-aarch64", "ARM64 Builders", "pangea/quero-builders-aarch64", "aws"),
        ws("quero-builders-x86", "x86 Builders", "pangea/quero-builders-x86", "aws"),
        ws("quero-cache", "Nix Binary Cache", "pangea/quero-cache", "aws"),
        ws("quero-seph", "K8s Cluster", "pangea/quero-seph", "aws"),
        ws("quero-monitoring", "Monitoring", "pangea/quero-monitoring", "aws"),
    ]
}

/// quero.lol infrastructure graph -- 7 workspaces.
///
/// ```text
/// quero-dns (Route53 + Porkbun delegation)
///      |   \       \            \
///      |    quero-builders-aarch64  quero-cache  quero-seph
///      |    quero-builders-x86                      |
///      |                                     quero-monitoring
/// quero-vpc
///      |    \            \
///      |    quero-builders-aarch64  quero-seph
///      |    quero-builders-x86
/// ```
pub fn quero_infrastructure_graph() -> (g: WorkspaceGraph)
    ensures
        exists|s: IacType| !is_list_type(s) && g@ == built_graph(quero_declarations(s)),
{
    let s = string_type();
    let g = quero_infrastructure_graph_typed(s);
    assert(!is_list_type(s) && g@ == built_graph(quero_declarations(s)));
    g
}

/// The same topology, with `s` as the port type for strings; list ports are
/// lists of `s`.
pub fn quero_infrastructure_graph_typed(s: IacType) -> (g: WorkspaceGraph)
    ensures
        g@ == built_graph(quero_declarations(s)),
{
    let l = list_type(clone_field_type(&s));
    let b = WorkspaceGraphBuilder::new()
        // -- quero-dns (Route53 + Porkbun -- no deps) --
        .workspace("quero-dns", "quero.lol DNS", "pangea/quero-dns", "aws")
        .output("quero-dns", "public_zone_id", clone_field_type(&s), "aws_route53_zone.quero-public.zone_id")
        .output("quero-dns", "private_zone_id", clone_field_type(&s), "aws_route53_zone.quero-private.zone_id")
        .output("quero-dns", "nameservers", clone_field_type(&l), "aws_route53_zone.quero-public.name_servers")
        // -- quero-vpc (independent) --
        .workspace("quero-vpc", "quero VPC", "pangea/quero-vpc", "aws")
        .output("quero-vpc", "vpc_id", clone_field_type(&s), "aws_vpc.quero.id")
        .output("quero-vpc", "subnet_ids", clone_field_type(&l), "aws_subnet.*.id")
        // -- quero-builders-aarch64 (depends on vpc + dns) --
        .workspace("quero-builders-aarch64", "ARM64 Builders", "pangea/quero-builders-aarch64", "aws")
        .input("quero-builders-aarch64", "vpc_id", clone_field_type(&s), "quero-vpc", "vpc_id")
        .input("quero-builders-aarch64", "zone_id", clone_field_type(&s), "quero-dns", "public_zone_id")
        .output("quero-builders-aarch64", "nlb_dns", clone_field_type(&s), "aws_lb.aarch64-nlb.dns_name")
        // -- quero-builders-x86 (depends on vpc + dns) --
        .workspace("quero-builders-x86", "x86 Builders", "pangea/quero-builders-x86", "aws")
        .input("quero-builders-x86", "vpc_id", clone_field_type(&s), "quero-vpc", "vpc_id")
        .input("quero-builders-x86", "zone_id", clone_field_type(&s), "quero-dns", "public_zone_id")
        .output("quero-builders-x86", "nlb_dns", clone_field_type(&s), "aws_lb.x86-nlb.dns_name")
        // -- quero-cache (depends on dns) --
        .workspace("quero-cache", "Nix Binary Cache", "pangea/quero-cache", "aws")
        .input("quero-cache", "zone_id", clone_field_type(&s), "quero-dns", "public_zone_id")
        .output("quero-cache", "endpoint", clone_field_type(&s), "aws_s3_bucket.cache.bucket_domain_name")
        // -- quero-seph (depends on vpc + dns) --
        .workspace("quero-seph", "K8s Cluster", "pangea/quero-seph", "aws")
        .input("quero-seph", "vpc_id", clone_field_type(&s), "quero-vpc", "vpc_id")
        .input("quero-seph", "subnet_ids", clone_field_type(&l), "quero-vpc", "subnet_ids")
        .input("quero-seph", "zone_id", clone_field_type(&s), "quero-dns", "public_zone_id")
        .output("quero-seph", "endpoint", clone_field_type(&s), "aws_lb.api.dns_name")
        // -- quero-monitoring (depends on dns + seph) --
        .workspace("quero-monitoring", "Monitoring", "pangea/quero-monitoring", "aws")
        .input("quero-monitoring", "zone_id", clone_field_type(&s), "quero-dns", "public_zone_id")
        .input("quero-monitoring", "cluster_endpoint", clone_field_type(&s), "quero-seph", "endpoint");
    proof {
        let d = quero_declarations(s);
        assert(b@.outputs =~= d.outputs);
        assert(b@.inputs =~= d.inputs);
        let ns = quero_workspaces();
        lemma_declared_all(ns);
        assert(ns.take(0) =~= Seq::<WorkspaceNodeView>::empty());
        assert(ns.take(7) =~= ns);
        assert(declared(ns.take(1)) == sorted_insert(declared(ns.take(0)), ns[0]));
        assert(declared(ns.take(2)) == sorted_insert(declared(ns.take(1)), ns[1]));
        assert(declared(ns.take(3)) == sorted_insert(declared(ns.take(2)), ns[2]));
        assert(declared(ns.take(4)) == sorted_insert(declared(ns.take(3)), ns[3]));
        assert(declared(ns.take(5)) == sorted_insert(declared(ns.take(4)), ns[4]));
        assert(declared(ns.take(6)) == sorted_insert(declared(ns.take(5)), ns[5]));
        assert(declared(ns.take(7)) == sorted_insert(declared(ns.take(6)), ns[6]));
        assert(b@.nodes == d.nodes);
    }
    b.build()
}

/// The declarations of the minimal graph, with `s` as the string type.
pub open spec fn minimal_declarations(s: IacType) -> BuilderView {
    BuilderView {
        nodes: declared(
            seq![
                ws("vpc", "VPC", "pangea/vpc", "aws"),
                ws("dns", "DNS", "pangea/dns", "aws"),
                ws("cluster", "Cluster", "pangea/cluster", "aws"),
            ],
        ),
        outputs: seq![
            out("vpc", "vpc_id", s, "aws_vpc.main.id"),
            out("dns", "zone_id", s, "aws_route53_zone.main.zone_id"),
            out("cluster", "endpoint", s, "aws_lb.api.dns_name"),
        ],
        inputs: seq![
            inp("cluster", "vpc_id", s, "vpc", "vpc_id"),
            inp("cluster", "zone_id", s, "dns", "zone_id"),
        ],
    }
}

/// Build a minimal graph for testing (just VPC + DNS + cluster).
pub fn minimal_graph() -> (g: WorkspaceGraph)
    ensures
        exists|s: IacType| !is_list_type(s) && g@ == built_graph(minimal_declarations(s)),
{
    let s = string_type();
    let g = minimal_graph_typed(s);
    assert(!is_list_type(s) && g@ == built_graph(minimal_declarations(s)));
    g
}

/// The same topology, with `s` as the port type for strings; list ports are
/// lists of `s`.
pub fn minimal_graph_typed(s: IacType) -> (g: WorkspaceGraph)
    ensures
        g@ == built_graph(minimal_declarations(s)),
{
    let b = WorkspaceGraphBuilder::new()
        .workspace("vpc", "VPC", "pangea/vpc", "aws")
        .output("vpc", "vpc_id", clone_field_type(&s), "aws_vpc.main.id")
        .workspace("dns", "DNS", "pangea/dns", "aws")
        .output("dns", "zone_id", clone_field_type(&s), "aws_route53_zone.main.zone_id")
        .workspace("cluster", "Cluster", "pangea/cluster", "aws")
        .input("cluster", "vpc_id", clone_field_type(&s), "vpc", "vpc_id")
        .input("cluster", "zone_id", clone_field_type(&s), "dns", "zone_id")
        .output("cluster", "endpoint", clone_field_type(&s), "aws_lb.api.dns_name");
    proof {
        let d = minimal_declarations(s);
        assert(b@.outputs =~= d.outputs);
        assert(b@.inputs =~= d.inputs);
        let ns = seq![
            ws("vpc", "VPC", "pangea/vpc", "aws"),
            ws("dns", "DNS", "pangea/dns", "aws"),
            ws("cluster", "Cluster", "pangea/cluster", "aws"),
        ];
        lemma_declared_all(ns);
        assert(ns.take(0) =~= Seq::<WorkspaceNodeView>::empty());
        assert(ns.take(3) =~= ns);
        assert(declared(ns.take(1)) == sorted_insert(declared(ns.take(0)), ns[0]));
        assert(declared(ns.take(2)) == sorted_insert(declared(ns.take(1)), ns[1]));
        assert(declared(ns.take(3)) == sorted_insert(declared(ns.take(2)), ns[2]));
        assert(b@.nodes == d.nodes);
    }
    b.build()
}

/// A declared output of a sub-workspace.
pub open spec fn produces(name: &str, ty: IacType, source: &str) -> OutputDecl {
    (name@, ty, source@)
}

/// A declared input of a sub-workspace, read from a sibling under the output's own name.
pub open spec fn reads(source_ws: &str, output: &str, ty: IacType) -> InputDecl {
    (output@, ty, source_ws@, output@)
}

/// A declared sub-workspace.
pub open spec fn child(name: &str, pid: u32, outputs: Seq<OutputDecl>, inputs: Seq<InputDecl>) -> ChildSpecView {
    ChildSpecView { name: name@, pid, outputs, inputs }
}

/// The network layer of the Nix builder fleet.
pub open spec fn fleet_network(s: IacType) -> ChildSpecView {
    child(
        "network",
        2,
        seq![produces("vpc_id", s, "aws_vpc.aarch64-vpc.id"), produces("subnet_ids", iac_list(s), "aws_subnet.*.id")],
        seq![],
    )
}

/// The security layer of the Nix builder fleet.
pub open spec fn fleet_security(s: IacType) -> ChildSpecView {
    child(
        "security",
        3,
        seq![
            produces("sg_id", s, "aws_security_group.aarch64-builder-sg.id"),
            produces("instance_profile_arn", s, "aws_iam_instance_profile.aarch64-builder-profile.arn"),
        ],
        seq![reads("network", "vpc_id", s)],
    )
}

/// The compute layer of the Nix builder fleet.
pub open spec fn fleet_compute(s: IacType) -> ChildSpecView {
    child(
        "compute",
        4,
        seq![
            produces("nlb_dns", s, "aws_lb.aarch64-builder-nlb.dns_name"),
            produces("asg_name", s, "aws_autoscaling_group.aarch64-builder-asg.name"),
        ],
        seq![
            reads("network", "vpc_id", s),
            reads("network", "subnet_ids", iac_list(s)),
            reads("security", "sg_id", s),
            reads("security", "instance_profile_arn", s),
        ],
    )
}

/// The DNS layer of the Nix builder fleet.
pub open spec fn fleet_dns(s: IacType) -> ChildSpecView {
    child(
        "dns",
        5,
        seq![produces("builder_fqdn", s, "aws_route53_record.aarch64-builder-public-cname.fqdn")],
        seq![reads("compute", "nlb_dns", s)],
    )
}

/// The declarations of the Nix builder fleet composition, with `s` as the string type.
pub open spec fn fleet_declarations(s: IacType) -> CompositionView {
    CompositionView {
        parent_name: "nix-builders"@,
        parent_label: "Nix Builder Fleet"@,
        provider: "aws"@,
        children: seq![fleet_network(s), fleet_security(s), fleet_compute(s), fleet_dns(s)],
        next_pid: 6,
    }
}

/// A sub-workspace builder after the ports of `c` are declared on it.
pub open spec fn declares(v: SubWorkspaceView, c: ChildSpecView) -> SubWorkspaceView {
    SubWorkspaceView { outputs: v.outputs + c.outputs, inputs: v.inputs + c.inputs, ..v }
}

/// Composition model for the Nix builder fleet.
/// Decomposes into 4 logical layers: network -> security -> compute -> dns.
pub fn builder_fleet_composition() -> (plan: CompositionPlan)
    ensures
        exists|s: IacType| !is_list_type(s) && plan@ == planned(fleet_declarations(s)),
{
    let s = string_type();
    let plan = builder_fleet_composition_typed(s);
    assert(!is_list_type(s) && plan@ == planned(fleet_declarations(s)));
    plan
}

/// The same topology, with `s` as the port type for strings; list ports are
/// lists of `s`.
pub fn builder_fleet_composition_typed(s: IacType) -> (plan: CompositionPlan)
    ensures
        plan@ == planned(fleet_declarations(s)),
{
    let b0 = CompositionBuilder::new("nix-builders", "Nix Builder Fleet", "aws");
    let network_layer = |ws: SubWorkspaceBuilder| -> (r: SubWorkspaceBuilder)
        ensures
            r@ == declares(ws@, fleet_network(s)),
        {
            let ghost v = ws@;
            let r = ws.output("vpc_id", clone_field_type(&s), "aws_vpc.aarch64-vpc.id").output(
                "subnet_ids",
                list_type(clone_field_type(&s)),
                "aws_subnet.*.id",
            );
            assert(r@.outputs =~= v.outputs + fleet_network(s).outputs);
            assert(r@.inputs =~= v.inputs + fleet_network(s).inputs);
            r
        };
    let b1 = b0.sub_workspace("network", network_layer);
    let security_layer = |ws: SubWorkspaceBuilder| -> (r: SubWorkspaceBuilder)
        ensures
            r@ == declares(ws@, fleet_security(s)),
        {
            let ghost v = ws@;
            let r = ws.input_from("network", "vpc_id", clone_field_type(&s)).output(
                "sg_id",
                clone_field_type(&s),
                "aws_security_group.aarch64-builder-sg.id",
            ).output(
                "instance_profile_arn",
                clone_field_type(&s),
                "aws_iam_instance_profile.aarch64-builder-profile.arn",
            );
            assert(r@.outputs =~= v.outputs + fleet_security(s).outputs);
            assert(r@.inputs =~= v.inputs + fleet_security(s).inputs);
            r
        };
    let b2 = b1.sub_workspace("security", security_layer);
    let compute_layer = |ws: SubWorkspaceBuilder| -> (r: SubWorkspaceBuilder)
        ensures
            r@ == declares(ws@, fleet_compute(s)),
        {
            let ghost v = ws@;
            let r = ws.input_from("network", "vpc_id", clone_field_type(&s)).input_from(
                "network",
                "subnet_ids",
                list_type(clone_field_type(&s)),
            ).input_from("security", "sg_id", clone_field_type(&s)).input_from(
                "security",
                "instance_profile_arn",
                clone_field_type(&s),
            ).output("nlb_dns", clone_field_type(&s), "aws_lb.aarch64-builder-nlb.dns_name").output(
                "asg_name",
                clone_field_type(&s),
                "aws_autoscaling_group.aarch64-builder-asg.name",
            );
            assert(r@.outputs =~= v.outputs + fleet_compute(s).outputs);
            assert(r@.inputs =~= v.inputs + fleet_compute(s).inputs);
            r
        };
    let b3 = b2.sub_workspace("compute", compute_layer);
    let dns_layer = |ws: SubWorkspaceBuilder| -> (r: SubWorkspaceBuilder)
        ensures
            r@ == declares(ws@, fleet_dns(s)),
        {
            let ghost v = ws@;
            let r = ws.input_from("compute", "nlb_dns", clone_field_type(&s)).output(
                "builder_fqdn",
                clone_field_type(&s),
                "aws_route53_record.aarch64-builder-public-cname.fqdn",
            );
            assert(r@.outputs =~= v.outputs + fleet_dns(s).outputs);
            assert(r@.inputs =~= v.inputs + fleet_dns(s).inputs);
            r
        };
    let b4 = b3.sub_workspace("dns", dns_layer);
    proof {
        let d = fleet_declarations(s);
        let c = b4@.children;
        assert(c[0] == b1@.children[0]);
        assert(c[1] == b2@.children[1]);
        assert(c[2] == b3@.children[2]);
        assert forall|k: int| 0 <= k < 4 implies c[k] == #[trigger] d.children[k] by {
            assert(Seq::<OutputDecl>::empty() + d.children[k].outputs =~= d.children[k].outputs);
            assert(Seq::<InputDecl>::empty() + d.children[k].inputs =~= d.children[k].inputs);
        }
        assert(c =~= d.children);
        assert(b4@ == d);
    }
    b4.build()
}

/// The `dns` sub-workspace of the quero.lol platform.
pub open spec fn quero_dns(s: IacType) -> ChildSpecView {
    child("dns", 2, seq![produces("public_zone_id", s, "aws_route53_zone.quero-public.zone_id"), produces("private_zone_id", s, "aws_route53_zone.quero-private.zone_id")], seq![])
}

/// The `vpc` sub-workspace of the quero.lol platform.
pub open spec fn quero_vpc(s: IacType) -> ChildSpecView {
    child("vpc", 3, seq![produces("vpc_id", s, "aws_vpc.quero.id"), produces("subnet_ids", iac_list(s), "aws_subnet.*.id")], seq![])
}

/// The `builders-aarch64` sub-workspace of the quero.lol platform.
pub open spec fn quero_builders_aarch64(s: IacType) -> ChildSpecView {
    child("builders-aarch64", 4, seq![produces("nlb_dns", s, "aws_lb.aarch64-nlb.dns_name")], seq![reads("vpc", "vpc_id", s), reads("dns", "public_zone_id", s)])
}

/// The `builders-x86` sub-workspace of the quero.lol platform.
pub open spec fn quero_builders_x86(s: IacType) -> ChildSpecView {
    child("builders-x86", 5, seq![produces("nlb_dns", s, "aws_lb.x86-nlb.dns_name")], seq![reads("vpc", "vpc_id", s), reads("dns", "public_zone_id", s)])
}

/// The `cache` sub-workspace of the quero.lol platform.
pub open spec fn quero_cache(s: IacType) -> ChildSpecView {
    child("cache", 6, seq![produces("endpoint", s, "aws_s3_bucket.cache.bucket_domain_name")], seq![reads("dns", "public_zone_id", s)])
}

/// The `seph` sub-workspace of the quero.lol platform.
pub open spec fn quero_seph(s: IacType) -> ChildSpecView {
    child("seph", 7, seq![produces("endpoint", s, "aws_lb.api.dns_name")], seq![reads("vpc", "vpc_id", s), reads("vpc", "subnet_ids", iac_list(s)), reads("dns", "public_zone_id", s)])
}

/// The declarations of the quero.lol platform composition, with `s` as the string type.
pub open spec fn quero_platform_declarations(s: IacType) -> CompositionView {
    CompositionView {
        parent_name: "quero"@,
        parent_label: "quero.lol Platform"@,
        provider: "aws"@,
        children: seq![
            quero_dns(s),
            quero_vpc(s),
            quero_builders_aarch64(s),
            quero_builders_x86(s),
            quero_cache(s),
            quero_seph(s),
        ],
        next_pid: 8,
    }
}

/// quero.lol platform composition (6 sub-workspaces).
///
/// Decomposes the quero.lol platform into sub-workspaces:
/// dns, vpc, builders-aarch64, builders-x86, cache, seph.
pub fn quero_platform_composition() -> (plan: CompositionPlan)
    ensures
        exists|s: IacType| !is_list_type(s) && plan@ == planned(quero_platform_declarations(s)),
{
    let s = string_type();
    let plan = quero_platform_composition_typed(s);
    assert(!is_list_type(s) && plan@ == planned(quero_platform_declarations(s)));
    plan
}

/// The same topology, with `s` as the port type for strings; list ports are
/// lists of `s`.
pub fn quero_platform_composition_typed(s: IacType) -> (plan: CompositionPlan)
    ensures
        plan@ == planned(quero_platform_declarations(s)),
{
    let b0 = CompositionBuilder::new("quero", "quero.lol Platform", "aws");
    let dns_layer = |ws: SubWorkspaceBuilder| -> (r: SubWorkspaceBuilder)
        ensures
            r@ == declares(ws@, quero_dns(s)),
        {
            let ghost v = ws@;
            let r = ws
            .output("public_zone_id", clone_field_type(&s), "aws_route53_zone.quero-public.zone_id")
            .output("private_zone_id", clone_field_type(&s), "aws_route53_zone.quero-private.zone_id");
            assert(r@.outputs =~= v.outputs + quero_dns(s).outputs);
            assert(r@.inputs =~= v.inputs + quero_dns(s).inputs);
            r
        };
    let b1 = b0.sub_workspace("dns", dns_layer);
    let vpc_layer = |ws: SubWorkspaceBuilder| -> (r: SubWorkspaceBuilder)
        ensures
            r@ == declares(ws@, quero_vpc(s)),
        {
            let ghost v = ws@;
            let r = ws
            .output("vpc_id", clone_field_type(&s), "aws_vpc.quero.id")
            .output("subnet_ids", list_type(clone_field_type(&s)), "aws_subnet.*.id");
            assert(r@.outputs =~= v.outputs + quero_vpc(s).outputs);
            assert(r@.inputs =~= v.inputs + quero_vpc(s).inputs);
            r
        };
    let b2 = b1.sub_workspace("vpc", vpc_layer);
    let builders_aarch64_layer = |ws: SubWorkspaceBuilder| -> (r: SubWorkspaceBuilder)
        ensures
            r@ == declares(ws@, quero_builders_aarch64(s)),
        {
            let ghost v = ws@;
            let r = ws
            .input_from("vpc", "vpc_id", clone_field_type(&s))
            .input_from("dns", "public_zone_id", clone_field_type(&s))
            .output("nlb_dns", clone_field_type(&s), "aws_lb.aarch64-nlb.dns_name");
            assert(r@.outputs =~= v.outputs + quero_builders_aarch64(s).outputs);
            assert(r@.inputs =~= v.inputs + quero_builders_aarch64(s).inputs);
            r
        };
    let b3 = b2.sub_workspace("builders-aarch64", builders_aarch64_layer);
    let builders_x86_layer = |ws: SubWorkspaceBuilder| -> (r: SubWorkspaceBuilder)
        ensures
            r@ == declares(ws@, quero_builders_x86(s)),
        {
            let ghost v = ws@;
            let r = ws
            .input_from("vpc", "vpc_id", clone_field_type(&s))
            .input_from("dns", "public_zone_id", clone_field_type(&s))
            .output("nlb_dns", clone_field_type(&s), "aws_lb.x86-nlb.dns_name");
            assert(r@.outputs =~= v.outputs + quero_builders_x86(s).outputs);
            assert(r@.inputs =~= v.inputs + quero_builders_x86(s).inputs);
            r
        };
    let b4 = b3.sub_workspace("builders-x86", builders_x86_layer);
    let cache_layer = |ws: SubWorkspaceBuilder| -> (r: SubWorkspaceBuilder)
        ensures
            r@ == declares(ws@, quero_cache(s)),
        {
            let ghost v = ws@;
            let r = ws
            .input_from("dns", "public_zone_id", clone_field_type(&s))
            .output("endpoint", clone_field_type(&s), "aws_s3_bucket.cache.bucket_domain_name");
            assert(r@.outputs =~= v.outputs + quero_cache(s).outputs);
            assert(r@.inputs =~= v.inputs + quero_cache(s).inputs);
            r
        };
    let b5 = b4.sub_workspace("cache", cache_layer);
    let seph_layer = |ws: SubWorkspaceBuilder| -> (r: SubWorkspaceBuilder)
        ensures
            r@ == declares(ws@, quero_seph(s)),
        {
            let ghost v = ws@;
            let r = ws
            .input_from("vpc", "vpc_id", clone_field_type(&s))
            .input_from("vpc", "subnet_ids", list_type(clone_field_type(&s)))
            .input_from("dns", "public_zone_id", clone_field_type(&s))
            .output("endpoint", clone_field_type(&s), "aws_lb.api.dns_name");
            assert(r@.outputs =~= v.outputs + quero_seph(s).outputs);
            assert(r@.inputs =~= v.inputs + quero_seph(s).inputs);
            r
        };
    let b6 = b5.sub_workspace("seph", seph_layer);
    proof {
        let d = quero_platform_declarations(s);
        let c = b6@.children;
        assert(c[0] == b1@.children[0]);
        assert(c[1] == b2@.children[1]);
        assert(c[2] == b3@.children[2]);
        assert(c[3] == b4@.children[3]);
        assert(c[4] == b5@.children[4]);
        assert forall|k: int| 0 <= k < 6 implies c[k] == #[trigger] d.children[k] by {
            assert(Seq::<OutputDecl>::empty() + d.children[k].outputs =~= d.children[k].outputs);
            assert(Seq::<InputDecl>::empty() + d.children[k].inputs =~= d.children[k].inputs);
        }
        assert(c =~= d.children);
        assert(b6@ == d);
    }
    b6.build()
}

/// Every workspace of `sorted_insert(nodes, n)` is `n` or a workspace of `nodes`.
proof fn lemma_sorted_insert_members(nodes: Seq<WorkspaceNodeView>, n: WorkspaceNodeView)
    ensures
        forall|i: int|
            0 <= i < sorted_insert(nodes, n).len() ==> #[trigger] sorted_insert(nodes, n)[i] == n || nodes.contains(
                sorted_insert(nodes, n)[i],
            ),
    decreases nodes.len(),
{
    let r = sorted_insert(nodes, n);
    if nodes.len() > 0 {
        let rest = nodes.drop_first();
        lemma_sorted_insert_members(rest, n);
        assert forall|i: int| 0 <= i < r.len() implies #[trigger] r[i] == n || nodes.contains(r[i]) by {
            if nodes[0].id == n.id {
                if i > 0 {
                    assert(r[i] == nodes[i]);
                }
            } else if text_lt(n.id, nodes[0].id) {
                if i > 0 {
                    assert(r[i] == nodes[i - 1]);
                }
            } else {
                if i == 0 {
                    assert(r[0] == nodes[0]);
                } else {
                    let x = sorted_insert(rest, n)[i - 1];
                    assert(r[i] == x);
                    if x != n {
                        let k = choose|k: int| 0 <= k < rest.len() && rest[k] == x;
                        assert(nodes[k + 1] == x);
                    }
                }
            }
        }
    }
}

/// Every workspace of `declared(ns)` is one of `ns`.
proof fn lemma_declared_members(ns: Seq<WorkspaceNodeView>)
    ensures
        forall|i: int| 0 <= i < declared(ns).len() ==> ns.contains(#[trigger] declared(ns)[i]),
    decreases ns.len(),
{
    if ns.len() > 0 {
        let prior = ns.drop_last();
        lemma_declared_members(prior);
        lemma_sorted_insert_members(declared(prior), ns.last());
        assert forall|i: int| 0 <= i < declared(ns).len() implies ns.contains(#[trigger] declared(ns)[i]) by {
            let x = declared(ns)[i];
            if x == ns.last() {
                assert(ns[ns.len() - 1] == x);
            } else {
                let k = choose|k: int| 0 <= k < declared(prior).len() && declared(prior)[k] == x;
                let m = choose|m: int| 0 <= m < prior.len() && prior[m] == x;
                assert(ns[m] == x);
            }
        }
    }
}

/// The pleme-io and the quero.lol topologies share no workspace identity.
pub proof fn lemma_topologies_disjoint(s: IacType, t: IacType, i: int, j: int)
    requires
        0 <= i < built_graph(pleme_declarations(s)).nodes.len(),
        0 <= j < built_graph(quero_declarations(t)).nodes.len(),
    ensures
        built_graph(pleme_declarations(s)).nodes[i].id != built_graph(quero_declarations(t)).nodes[j].id,
{
    let p = pleme_workspaces();
    let q = quero_workspaces();
    lemma_declared_members(p);
    lemma_declared_members(q);
    let a = declared(p)[i];
    let b = declared(q)[j];
    assert(p.contains(a));
    assert(q.contains(b));
    reveal_strlit("state-backend");
    reveal_strlit("pleme-dns");
    reveal_strlit("nix-builders");
    reveal_strlit("seph-vpc");
    reveal_strlit("seph-cluster");
    reveal_strlit("akeyless-dev-config");
    reveal_strlit("quero-dns");
    reveal_strlit("quero-vpc");
    reveal_strlit("quero-builders-aarch64");
    reveal_strlit("quero-builders-x86");
    reveal_strlit("quero-cache");
    reveal_strlit("quero-seph");
    reveal_strlit("quero-monitoring");
    assert forall|k: int| 0 <= k < p.len() implies (#[trigger] p[k]).id[0] != 'q' by {}
    assert forall|k: int| 0 <= k < q.len() implies (#[trigger] q[k]).id[0] == 'q' by {}
    let ka = choose|k: int| 0 <= k < p.len() && p[k] == a;
    let kb = choose|k: int| 0 <= k < q.len() && q[k] == b;
    assert(a.id[0] != b.id[0]);
}

} // verus!
