//! Fluent graph construction.
use vstd::prelude::*;
use iac_forge::ir::IacType;
use crate::dependency::{depends, depends_on_id, is_deployment_order};
use crate::types::{
    GraphView, InputPort, InputPortView, OutputPort, OutputPortView, WorkspaceEdge, WorkspaceEdgeView,
    WorkspaceGraph, WorkspaceId, WorkspaceMap, WorkspaceNode, WorkspaceNodeView, clone_field_type,
    lemma_insert_then_get, lemma_position_sorted, node_ids, node_with_id, sorted_insert,
};
use crate::text::strictly_sorted;

verus! {

/// An output port waiting to be attached to the workspace it names.
struct PendingOutput {
    workspace: String,
    port: OutputPort,
}

/// An input port waiting to be attached to the workspace it names.
struct PendingInput {
    workspace: String,
    port: InputPort,
}

/// What a builder holds, as values: the workspaces declared so far, and the
/// ports declared so far, each with the identity of the workspace it is for.
pub ghost struct BuilderView {
    pub nodes: Seq<WorkspaceNodeView>,
    pub outputs: Seq<(Seq<char>, OutputPortView)>,
    pub inputs: Seq<(Seq<char>, InputPortView)>,
}

/// The ports among `pending` that are for workspace `ws`, in declaration order.
pub open spec fn ports_for<P>(pending: Seq<(Seq<char>, P)>, ws: Seq<char>) -> Seq<P>
    decreases pending.len(),
{
    if pending.len() == 0 {
        seq![]
    } else {
        ports_for(pending.drop_last(), ws) + if pending.last().0 == ws {
            seq![pending.last().1]
        } else {
            seq![]
        }
    }
}

/// The edge that a declared input gives: from its source workspace to the
/// workspace it was declared for.
pub open spec fn edge_of(pending: (Seq<char>, InputPortView)) -> WorkspaceEdgeView {
    WorkspaceEdgeView {
        from: pending.1.source_workspace,
        to: pending.0,
        output_name: pending.1.source_output,
        input_name: pending.1.name,
        field_type: pending.1.field_type,
    }
}

/// A declared workspace with its declared ports attached.
pub open spec fn with_ports(
    n: WorkspaceNodeView,
    outputs: Seq<(Seq<char>, OutputPortView)>,
    inputs: Seq<(Seq<char>, InputPortView)>,
) -> WorkspaceNodeView {
    WorkspaceNodeView {
        outputs: n.outputs + ports_for(outputs, n.id),
        inputs: n.inputs + ports_for(inputs, n.id),
        ..n
    }
}

/// The graph a builder builds: every declared workspace with the ports declared
/// for it (ports for undeclared workspaces are dropped), and one edge for every
/// declared input, in declaration order.
pub open spec fn built_graph(b: BuilderView) -> GraphView {
    GraphView {
        nodes: b.nodes.map_values(|n: WorkspaceNodeView| with_ports(n, b.outputs, b.inputs)),
        edges: b.inputs.map_values(|p: (Seq<char>, InputPortView)| edge_of(p)),
    }
}

/// A workspace with the given metadata and no ports.
pub open spec fn bare_node(id: Seq<char>, name: Seq<char>, state_key: Seq<char>, provider: Seq<char>) -> WorkspaceNodeView {
    WorkspaceNodeView {
        id,
        name,
        state_key,
        provider,
        outputs: seq![],
        inputs: seq![],
    }
}

/// Fluent builder for constructing a [`WorkspaceGraph`].
///
/// Workspaces, outputs, and inputs are accumulated and assembled into a
/// complete graph (with auto-generated edges) when [`build`](Self::build) is called.
pub struct WorkspaceGraphBuilder {
    nodes: WorkspaceMap,
    pending_outputs: Vec<PendingOutput>,
    pending_inputs: Vec<PendingInput>,
}

impl View for WorkspaceGraphBuilder {
    type V = BuilderView;

    closed spec fn view(&self) -> BuilderView {
        BuilderView {
            nodes: self.nodes@,
            outputs: self.pending_outputs@.map_values(|p: PendingOutput| (p.workspace@, p.port@)),
            inputs: self.pending_inputs@.map_values(|p: PendingInput| (p.workspace@, p.port@)),
        }
    }
}

impl Default for WorkspaceGraphBuilder {
    fn default() -> (b: Self)
        ensures
            b@.nodes == Seq::<WorkspaceNodeView>::empty(),
            b@.outputs == Seq::<(Seq<char>, OutputPortView)>::empty(),
            b@.inputs == Seq::<(Seq<char>, InputPortView)>::empty(),
    {
        Self::new()
    }
}

impl WorkspaceGraphBuilder {
    /// Create a new empty builder.
    pub fn new() -> (b: Self)
        ensures
            b@ == replay(Seq::<BuilderCall>::empty()),
            b@.nodes == Seq::<WorkspaceNodeView>::empty(),
            b@.outputs == Seq::<(Seq<char>, OutputPortView)>::empty(),
            b@.inputs == Seq::<(Seq<char>, InputPortView)>::empty(),
    {
        let b = WorkspaceGraphBuilder {
            nodes: WorkspaceMap::new(),
            pending_outputs: Vec::new(),
            pending_inputs: Vec::new(),
        };
        assert(b@.outputs =~= Seq::<(Seq<char>, OutputPortView)>::empty());
        assert(b@.inputs =~= Seq::<(Seq<char>, InputPortView)>::empty());
        b
    }

    /// Add a workspace node (replacing one declared earlier with the same id).
    pub fn workspace(self, id: &str, name: &str, state_key: &str, provider: &str) -> (b: Self)
        ensures
            b@ == after_call(
                self@,
                (BuilderCall::Workspace { id: id@, name: name@, state_key: state_key@, provider: provider@ }),
            ),
            b@.nodes == sorted_insert(self@.nodes, bare_node(id@, name@, state_key@, provider@)),
            b@.outputs == self@.outputs,
            b@.inputs == self@.inputs,
    {
        let mut s = self;
        let node = WorkspaceNode {
            id: WorkspaceId(id.to_owned()),
            name: name.to_owned(),
            state_key: state_key.to_owned(),
            provider: provider.to_owned(),
            outputs: Vec::new(),
            inputs: Vec::new(),
        };
        assert(node@ == bare_node(id@, name@, state_key@, provider@)) by {
            assert(node@.outputs =~= Seq::<OutputPortView>::empty());
            assert(node@.inputs =~= Seq::<InputPortView>::empty());
        }
        let _ = s.nodes.insert(node);
        s
    }

    /// Add an output port to a workspace.
    pub fn output(self, workspace: &str, name: &str, field_type: IacType, source: &str) -> (b: Self)
        ensures
            b@ == after_call(
                self@,
                (BuilderCall::Output {
                    workspace: workspace@,
                    port: OutputPortView { name: name@, field_type: field_type, source_resource: source@ },
                }),
            ),
            b@.nodes == self@.nodes,
            b@.outputs == self@.outputs.push(
                (
                    workspace@,
                    OutputPortView { name: name@, field_type: field_type, source_resource: source@ },
                ),
            ),
            b@.inputs == self@.inputs,
    {
        let mut s = self;
        s.pending_outputs.push(
            PendingOutput {
                workspace: workspace.to_owned(),
                port: OutputPort {
                    name: name.to_owned(),
                    field_type,
                    source_resource: source.to_owned(),
                },
            },
        );
        assert(s@.outputs =~= self@.outputs.push(
            (workspace@, OutputPortView { name: name@, field_type: field_type, source_resource: source@ }),
        ));
        s
    }

    /// Add an input port to a workspace.
    pub fn input(
        self,
        workspace: &str,
        name: &str,
        field_type: IacType,
        source_ws: &str,
        source_output: &str,
    ) -> (b: Self)
        ensures
            b@ == after_call(
                self@,
                (BuilderCall::Input {
                    workspace: workspace@,
                    port: InputPortView {
                        name: name@,
                        field_type: field_type,
                        source_workspace: source_ws@,
                        source_output: source_output@,
                    },
                }),
            ),
            b@.nodes == self@.nodes,
            b@.outputs == self@.outputs,
            b@.inputs == self@.inputs.push(
                (
                    workspace@,
                    InputPortView {
                        name: name@,
                        field_type: field_type,
                        source_workspace: source_ws@,
                        source_output: source_output@,
                    },
                ),
            ),
    {
        let mut s = self;
        s.pending_inputs.push(
            PendingInput {
                workspace: workspace.to_owned(),
                port: InputPort {
                    name: name.to_owned(),
                    field_type,
                    source_workspace: WorkspaceId(source_ws.to_owned()),
                    source_output: source_output.to_owned(),
                },
            },
        );
        assert(s@.inputs =~= self@.inputs.push(
            (
                workspace@,
                InputPortView {
                    name: name@,
                    field_type: field_type,
                    source_workspace: source_ws@,
                    source_output: source_output@,
                },
            ),
        ));
        s
    }

    /// Build the graph, auto-generating edges from input declarations.
    pub fn build(self) -> (g: WorkspaceGraph)
        ensures
            g@ == built_graph(self@),
    {
        let ghost v = self@;
        let WorkspaceGraphBuilder { nodes, pending_outputs, pending_inputs } = self;
        let entries = nodes.into_nodes();
        let mut attached: Vec<WorkspaceNode> = Vec::new();
        let mut i: usize = 0;
        while i < entries.len()
            invariant
                entries@.map_values(|n: WorkspaceNode| n@) == v.nodes,
                pending_outputs@.map_values(|p: PendingOutput| (p.workspace@, p.port@)) == v.outputs,
                pending_inputs@.map_values(|p: PendingInput| (p.workspace@, p.port@)) == v.inputs,
                i <= entries@.len(),
                attached@.len() == i,
                forall|k: int| 0 <= k < i ==> #[trigger] attached@[k]@ == with_ports(v.nodes[k], v.outputs, v.inputs),
            decreases entries@.len() - i,
        {
            let mut node = entries[i].clone();
            assert(node@ == v.nodes[i as int]);
            let ghost base = node@;
            let mut k: usize = 0;
            while k < pending_outputs.len()
                invariant
                    pending_outputs@.map_values(|p: PendingOutput| (p.workspace@, p.port@)) == v.outputs,
                    k <= pending_outputs@.len(),
                    node@.id == base.id,
                    node@.inputs == base.inputs,
                    node@ == (WorkspaceNodeView { outputs: node@.outputs, ..base }),
                    node@.outputs == base.outputs + ports_for(v.outputs.take(k as int), base.id),
                decreases pending_outputs@.len() - k,
            {
                let pending = &pending_outputs[k];
                assert(v.outputs[k as int] == (pending.workspace@, pending.port@));
                assert(v.outputs.take(k + 1).drop_last() =~= v.outputs.take(k as int));
                assert(v.outputs.take(k + 1).last() == v.outputs[k as int]);
                assert(ports_for(v.outputs.take(k + 1), base.id) == ports_for(v.outputs.take(k as int), base.id) + if v.outputs[k as int].0 == base.id {
                    seq![v.outputs[k as int].1]
                } else {
                    seq![]
                });
                let ghost prev = node.outputs@;
                if pending.workspace == node.id.0 {
                    let port = pending.port.clone();
                    node.outputs.push(port);
                    assert(node.outputs@.map_values(|o: OutputPort| o@) =~= prev.map_values(|o: OutputPort| o@).push(port@));
                }
                assert(node@.outputs =~= base.outputs + ports_for(v.outputs.take(k + 1), base.id));
                k = k + 1;
            }
            assert(v.outputs.take(k as int) =~= v.outputs);
            let mut k: usize = 0;
            while k < pending_inputs.len()
                invariant
                    pending_inputs@.map_values(|p: PendingInput| (p.workspace@, p.port@)) == v.inputs,
                    k <= pending_inputs@.len(),
                    node@.id == base.id,
                    node@.outputs == base.outputs + ports_for(v.outputs, base.id),
                    node@ == (WorkspaceNodeView { outputs: node@.outputs, inputs: node@.inputs, ..base }),
                    node@.inputs == base.inputs + ports_for(v.inputs.take(k as int), base.id),
                decreases pending_inputs@.len() - k,
            {
                let pending = &pending_inputs[k];
                assert(v.inputs[k as int] == (pending.workspace@, pending.port@));
                assert(v.inputs.take(k + 1).drop_last() =~= v.inputs.take(k as int));
                assert(v.inputs.take(k + 1).last() == v.inputs[k as int]);
                assert(ports_for(v.inputs.take(k + 1), base.id) == ports_for(v.inputs.take(k as int), base.id) + if v.inputs[k as int].0 == base.id {
                    seq![v.inputs[k as int].1]
                } else {
                    seq![]
                });
                let ghost prev = node.inputs@;
                if pending.workspace == node.id.0 {
                    let port = pending.port.clone();
                    node.inputs.push(port);
                    assert(node.inputs@.map_values(|x: InputPort| x@) =~= prev.map_values(|x: InputPort| x@).push(port@));
                }
                assert(node@.inputs =~= base.inputs + ports_for(v.inputs.take(k + 1), base.id));
                k = k + 1;
            }
            assert(v.inputs.take(k as int) =~= v.inputs);
            assert(node@ == with_ports(v.nodes[i as int], v.outputs, v.inputs));
            attached.push(node);
            i = i + 1;
        }
        let ghost built = built_graph(v);
        assert(attached@.map_values(|n: WorkspaceNode| n@) =~= built.nodes);
        assert(node_ids(built.nodes) =~= node_ids(v.nodes));
        let nodes = WorkspaceMap::from_sorted(attached);
        let mut edges: Vec<WorkspaceEdge> = Vec::new();
        let mut k: usize = 0;
        while k < pending_inputs.len()
            invariant
                pending_inputs@.map_values(|p: PendingInput| (p.workspace@, p.port@)) == v.inputs,
                k <= pending_inputs@.len(),
                edges@.len() == k,
                forall|m: int| 0 <= m < k ==> #[trigger] edges@[m]@ == edge_of(v.inputs[m]),
            decreases pending_inputs@.len() - k,
        {
            let pending = &pending_inputs[k];
            assert(v.inputs[k as int] == (pending.workspace@, pending.port@));
            edges.push(
                WorkspaceEdge {
                    from: pending.port.source_workspace.clone(),
                    to: WorkspaceId(pending.workspace.clone()),
                    output_name: pending.port.source_output.clone(),
                    input_name: pending.port.name.clone(),
                    field_type: clone_field_type(&pending.port.field_type),
                },
            );
            k = k + 1;
        }
        let g = WorkspaceGraph { nodes, edges };
        assert(g@.edges =~= built.edges);
        g
    }
}

/// A port declared for workspace `ws` is among the ports attached to it.
proof fn lemma_port_attached<P>(pending: Seq<(Seq<char>, P)>, ws: Seq<char>, m: int)
    requires
        0 <= m < pending.len(),
        pending[m].0 == ws,
    ensures
        ports_for(pending, ws).contains(pending[m].1),
    decreases pending.len(),
{
    let prior = pending.drop_last();
    if m < pending.len() - 1 {
        lemma_port_attached(prior, ws, m);
        let t = choose|t: int| 0 <= t < ports_for(prior, ws).len() && ports_for(prior, ws)[t] == prior[m].1;
        assert(ports_for(pending, ws)[t] == pending[m].1);
    } else {
        let r = ports_for(pending, ws);
        assert(r[r.len() - 1] == pending[m].1);
    }
}

/// In a graph built by the builder, every edge whose ends are both workspaces of
/// the graph runs forward in every deployment order: the workspace it reads from
/// is deployed before the workspace that reads.
pub proof fn lemma_deployment_order_respects_edges(b: BuilderView, order: Seq<Seq<char>>, e: int, k1: int, k2: int)
    requires
        is_deployment_order(built_graph(b).nodes, order),
        0 <= e < built_graph(b).edges.len(),
        0 <= k1 < order.len(),
        0 <= k2 < order.len(),
        order[k1] == built_graph(b).edges[e].from,
        order[k2] == built_graph(b).edges[e].to,
    ensures
        k1 < k2,
{
    let g = built_graph(b);
    let p = b.inputs[e];
    assert(g.edges[e] == edge_of(p));
    assert(node_ids(g.nodes).contains(order[k1]));
    assert(node_ids(g.nodes).contains(order[k2]));
    let i = choose|i: int| 0 <= i < node_ids(g.nodes).len() && node_ids(g.nodes)[i] == order[k1];
    let j = choose|j: int| 0 <= j < node_ids(g.nodes).len() && node_ids(g.nodes)[j] == order[k2];
    assert(g.nodes[j] == with_ports(b.nodes[j], b.outputs, b.inputs));
    assert(g.nodes[j].id == p.0);
    lemma_port_attached(b.inputs, p.0, e);
    let attached = ports_for(b.inputs, p.0);
    let t = choose|t: int| 0 <= t < attached.len() && attached[t] == p.1;
    let k = b.nodes[j].inputs.len() + t;
    assert(g.nodes[j].inputs[k] == p.1);
    assert(g.nodes[j].inputs[k].source_workspace == g.nodes[i].id);
    assert(depends(g.nodes, i, j));
    assert(depends_on_id(g.nodes, order[k1], order[k2]));
}

/// The ports for `ws` among two runs of declarations, one after the other.
pub proof fn lemma_ports_for_concat<P>(a: Seq<(Seq<char>, P)>, b: Seq<(Seq<char>, P)>, ws: Seq<char>)
    ensures
        ports_for(a + b, ws) == ports_for(a, ws) + ports_for(b, ws),
    decreases b.len(),
{
    if b.len() == 0 {
        assert(a + b =~= a);
        assert(ports_for(a, ws) + ports_for(b, ws) =~= ports_for(a, ws));
    } else {
        let prior = b.drop_last();
        lemma_ports_for_concat(a, prior, ws);
        assert((a + b).drop_last() =~= a + prior);
        assert((a + b).last() == b.last());
        let tail = if b.last().0 == ws {
            seq![b.last().1]
        } else {
            seq![]
        };
        assert(ports_for(a, ws) + ports_for(prior, ws) + tail =~= ports_for(a, ws) + (ports_for(prior, ws) + tail));
    }
}

/// The ports for `ws` among declarations that are all for workspace `x`: all of them
/// when `x` is `ws`, none otherwise.
pub proof fn lemma_ports_for_uniform<P>(a: Seq<(Seq<char>, P)>, x: Seq<char>, ws: Seq<char>)
    requires
        forall|i: int| 0 <= i < a.len() ==> (#[trigger] a[i]).0 == x,
    ensures
        x == ws ==> ports_for(a, ws) == a.map_values(|q: (Seq<char>, P)| q.1),
        x != ws ==> ports_for(a, ws) == Seq::<P>::empty(),
    decreases a.len(),
{
    if a.len() == 0 {
        assert(a.map_values(|q: (Seq<char>, P)| q.1) =~= Seq::<P>::empty());
    } else {
        let prior = a.drop_last();
        assert forall|i: int| 0 <= i < prior.len() implies (#[trigger] prior[i]).0 == x by {
            assert(prior[i] == a[i]);
        }
        lemma_ports_for_uniform(prior, x, ws);
        assert(a[a.len() - 1].0 == x);
        if x == ws {
            assert(ports_for(a, ws) =~= a.map_values(|q: (Seq<char>, P)| q.1));
        } else {
            assert(ports_for(a, ws) =~= Seq::<P>::empty());
        }
    }
}

/// One call on a graph builder.
pub ghost enum BuilderCall {
    Workspace { id: Seq<char>, name: Seq<char>, state_key: Seq<char>, provider: Seq<char> },
    Output { workspace: Seq<char>, port: OutputPortView },
    Input { workspace: Seq<char>, port: InputPortView },
}

/// What a builder holds after `call`, as its methods state.
pub open spec fn after_call(b: BuilderView, call: BuilderCall) -> BuilderView {
    match call {
        BuilderCall::Workspace { id, name, state_key, provider } => BuilderView {
            nodes: sorted_insert(b.nodes, bare_node(id, name, state_key, provider)),
            ..b
        },
        BuilderCall::Output { workspace, port } => BuilderView { outputs: b.outputs.push((workspace, port)), ..b },
        BuilderCall::Input { workspace, port } => BuilderView { inputs: b.inputs.push((workspace, port)), ..b },
    }
}

/// What a new builder holds after `calls`, in order.
pub open spec fn replay(calls: Seq<BuilderCall>) -> BuilderView
    decreases calls.len(),
{
    if calls.len() == 0 {
        BuilderView { nodes: seq![], outputs: seq![], inputs: seq![] }
    } else {
        after_call(replay(calls.drop_last()), calls.last())
    }
}

/// The workspace that the last call declaring `id` declares, if any call does.
pub open spec fn last_declared(calls: Seq<BuilderCall>, id: Seq<char>) -> Option<WorkspaceNodeView>
    decreases calls.len(),
{
    if calls.len() == 0 {
        None
    } else {
        match calls.last() {
            BuilderCall::Workspace { id: w, name, state_key, provider } => if w == id {
                Some(bare_node(w, name, state_key, provider))
            } else {
                last_declared(calls.drop_last(), id)
            },
            _ => last_declared(calls.drop_last(), id),
        }
    }
}

/// The output calls among `calls`, in call order.
pub open spec fn output_calls(calls: Seq<BuilderCall>) -> Seq<(Seq<char>, OutputPortView)>
    decreases calls.len(),
{
    if calls.len() == 0 {
        seq![]
    } else {
        output_calls(calls.drop_last()) + match calls.last() {
            BuilderCall::Output { workspace, port } => seq![(workspace, port)],
            _ => seq![],
        }
    }
}

/// The input calls among `calls`, in call order.
pub open spec fn input_calls(calls: Seq<BuilderCall>) -> Seq<(Seq<char>, InputPortView)>
    decreases calls.len(),
{
    if calls.len() == 0 {
        seq![]
    } else {
        input_calls(calls.drop_last()) + match calls.last() {
            BuilderCall::Input { workspace, port } => seq![(workspace, port)],
            _ => seq![],
        }
    }
}

proof fn lemma_replay(calls: Seq<BuilderCall>)
    ensures
        strictly_sorted(node_ids(replay(calls).nodes)),
        forall|id: Seq<char>| #[trigger] node_with_id(replay(calls).nodes, id) == last_declared(calls, id),
        replay(calls).outputs == output_calls(calls),
        replay(calls).inputs == input_calls(calls),
    decreases calls.len(),
{
    if calls.len() == 0 {
        let nodes = replay(calls).nodes;
        assert(node_ids(nodes) =~= Seq::<Seq<char>>::empty());
        assert forall|id: Seq<char>| #[trigger] node_with_id(nodes, id) == last_declared(calls, id) by {}
    } else {
        let prior = calls.drop_last();
        lemma_replay(prior);
        let before = replay(prior);
        match calls.last() {
            BuilderCall::Workspace { id: w, name, state_key, provider } => {
                let n = bare_node(w, name, state_key, provider);
                lemma_insert_then_get(before.nodes, n);
                assert forall|id: Seq<char>| #[trigger] node_with_id(replay(calls).nodes, id) == last_declared(calls, id) by {
                    if id != w {
                        assert(node_with_id(before.nodes, id) == last_declared(prior, id));
                    }
                }
                assert(output_calls(calls) =~= output_calls(prior));
                assert(input_calls(calls) =~= input_calls(prior));
            },
            BuilderCall::Output { workspace, port } => {
                assert forall|id: Seq<char>| #[trigger] node_with_id(replay(calls).nodes, id) == last_declared(calls, id) by {
                    assert(node_with_id(before.nodes, id) == last_declared(prior, id));
                }
                assert(input_calls(calls) =~= input_calls(prior));
            },
            BuilderCall::Input { workspace, port } => {
                assert forall|id: Seq<char>| #[trigger] node_with_id(replay(calls).nodes, id) == last_declared(calls, id) by {
                    assert(node_with_id(before.nodes, id) == last_declared(prior, id));
                }
                assert(output_calls(calls) =~= output_calls(prior));
            },
        }
    }
}

/// The graph a new builder builds after a sequence of calls: one workspace for
/// every identity some `workspace` call declared, as the last such call declared
/// it, with every output and input declared for that identity attached in call
/// order, before or after the `workspace` call; ports for identities never
/// declared are dropped; and one edge per `input` call, in call order.
pub proof fn lemma_built_after_calls(calls: Seq<BuilderCall>)
    ensures
        built_graph(replay(calls)).well_ordered(),
        forall|id: Seq<char>|
            #[trigger] node_with_id(built_graph(replay(calls)).nodes, id) == match last_declared(calls, id) {
                Some(n) => Some(with_ports(n, output_calls(calls), input_calls(calls))),
                None => None,
            },
        built_graph(replay(calls)).edges == input_calls(calls).map_values(
            |p: (Seq<char>, InputPortView)| edge_of(p),
        ),
{
    let b = replay(calls);
    let g = built_graph(b);
    lemma_replay(calls);
    assert(node_ids(g.nodes) =~= node_ids(b.nodes)) by {
        assert forall|i: int| 0 <= i < g.nodes.len() implies #[trigger] node_ids(g.nodes)[i] == node_ids(b.nodes)[i] by {
            assert(g.nodes[i] == with_ports(b.nodes[i], b.outputs, b.inputs));
        }
    }
    assert forall|id: Seq<char>|
        #[trigger] node_with_id(g.nodes, id) == match last_declared(calls, id) {
            Some(n) => Some(with_ports(n, output_calls(calls), input_calls(calls))),
            None => None,
        } by {
        assert(node_with_id(b.nodes, id) == last_declared(calls, id));
        if exists|i: int| 0 <= i < b.nodes.len() && b.nodes[i].id == id {
            let i = choose|i: int| 0 <= i < b.nodes.len() && b.nodes[i].id == id;
            lemma_position_sorted(b.nodes, i);
            lemma_position_sorted(g.nodes, i);
            assert(g.nodes[i] == with_ports(b.nodes[i], b.outputs, b.inputs));
        } else {
            assert forall|i: int| 0 <= i < g.nodes.len() implies g.nodes[i].id != id by {
                assert(g.nodes[i] == with_ports(b.nodes[i], b.outputs, b.inputs));
            }
        }
    }
}

} // verus!
