//! Workspace composition: architectures that decompose into sub-workspaces.
//!
//! A parent workspace (PID 1) orchestrates child workspaces (PID 2, 3, ...);
//! each child owns its own state, and typed ports connect siblings.
use vstd::prelude::*;
use iac_forge::ir::IacType;
use crate::analysis::{deployment_order, ids_view};
use crate::builder::{
    BuilderView, WorkspaceGraphBuilder, bare_node, built_graph, lemma_ports_for_concat, lemma_ports_for_uniform,
    ports_for, with_ports,
};
use crate::dependency::{acyclic, blocked_ids, depends, is_deployment_order, kahn_ids, lemma_ranked_acyclic};
use crate::text::{strictly_sorted, text_equal};
use crate::types::{
    GraphView, InputPortView, OutputPortView, WorkspaceGraph, WorkspaceId, clone_field_type, lemma_insert_then_get,
    types_match, lemma_types_match_reflexive, lemma_position_sorted, node_ids, node_with_id, position_of, sorted_insert,
};
use crate::verify::{
    GraphViolation, ViolationView, all_violations, first_output_named, has_output_named, is_compatible,
    is_disconnected, is_first_named, lemma_verified_graph, verify_graph, violations_view,
};

verus! {

/// The identity of child `name` of parent `parent`: `{parent}-{name}`.
pub open spec fn child_id(parent: Seq<char>, name: Seq<char>) -> Seq<char> {
    parent + seq!['-'] + name
}

/// The state key of parent `parent`: `pangea/{parent}`.
pub open spec fn parent_state_key(parent: Seq<char>) -> Seq<char> {
    seq!['p', 'a', 'n', 'g', 'e', 'a', '/'] + parent
}

/// The state key of child `name` of parent `parent`: `pangea/{parent}/{name}`.
pub open spec fn child_state_key(parent: Seq<char>, name: Seq<char>) -> Seq<char> {
    parent_state_key(parent) + seq!['/'] + name
}

/// A declared output of a sub-workspace: name, type and source resource.
pub type OutputDecl = (Seq<char>, IacType, Seq<char>);

/// A declared input of a sub-workspace: local name, type, sibling and sibling's output.
pub type InputDecl = (Seq<char>, IacType, Seq<char>, Seq<char>);

/// A child workspace in the composition -- a sub-process.
#[derive(Debug)]
pub struct ChildProcess {
    /// Workspace identity.
    pub id: WorkspaceId,
    /// Human name.
    pub name: String,
    /// Process ID in the convergence tree.
    pub pid: u32,
    /// Parent PID.
    pub ppid: u32,
    /// S3 state key.
    pub state_key: String,
}

/// What a child process is, as values.
pub ghost struct ChildProcessView {
    pub id: Seq<char>,
    pub name: Seq<char>,
    pub pid: u32,
    pub ppid: u32,
    pub state_key: Seq<char>,
}

impl View for ChildProcess {
    type V = ChildProcessView;

    open spec fn view(&self) -> ChildProcessView {
        ChildProcessView {
            id: self.id@,
            name: self.name@,
            pid: self.pid,
            ppid: self.ppid,
            state_key: self.state_key@,
        }
    }
}

impl Clone for ChildProcess {
    fn clone(&self) -> (r: Self)
        ensures
            r == *self,
    {
        ChildProcess {
            id: self.id.clone(),
            name: self.name.clone(),
            pid: self.pid,
            ppid: self.ppid,
            state_key: self.state_key.clone(),
        }
    }
}

/// A resolved composition plan -- an architecture decomposed into sub-workspaces.
#[derive(Debug)]
pub struct CompositionPlan {
    /// The parent workspace (orchestrator -- holds no resources itself).
    pub parent: WorkspaceId,
    /// Child workspace PIDs and names.
    pub children: Vec<ChildProcess>,
    /// The complete resolved graph (parent + children + edges).
    pub graph: WorkspaceGraph,
}

/// What a composition plan is, as values.
pub ghost struct PlanView {
    pub parent: Seq<char>,
    pub children: Seq<ChildProcessView>,
    pub graph: GraphView,
}

impl View for CompositionPlan {
    type V = PlanView;

    open spec fn view(&self) -> PlanView {
        PlanView {
            parent: self.parent@,
            children: self.children@.map_values(|c: ChildProcess| c@),
            graph: self.graph@,
        }
    }
}

impl Clone for CompositionPlan {
    fn clone(&self) -> (r: Self)
        ensures
            r@ == self@,
    {
        let children = self.children.clone();
        assert(children@.map_values(|c: ChildProcess| c@) =~= self.children@.map_values(|c: ChildProcess| c@)) by {
            assert forall|k: int| 0 <= k < children@.len() implies children@[k] == self.children@[k] by {
                assert(cloned::<ChildProcess>(self.children@[k], children@[k]));
            }
        }
        CompositionPlan { parent: self.parent.clone(), children, graph: self.graph.clone() }
    }
}

/// The first position of `children` holding the given PID.
pub open spec fn is_first_with_pid(children: Seq<ChildProcessView>, pid: u32, k: int) -> bool {
    &&& 0 <= k < children.len()
    &&& children[k].pid == pid
    &&& forall|j: int| 0 <= j < k ==> children[j].pid != pid
}

/// The first position of `children` holding the given name.
pub open spec fn is_first_with_name(children: Seq<ChildProcessView>, name: Seq<char>, k: int) -> bool {
    &&& 0 <= k < children.len()
    &&& children[k].name == name
    &&& forall|j: int| 0 <= j < k ==> children[j].name != name
}

impl CompositionPlan {
    /// Verify the composition graph satisfies all invariants.
    pub fn verify(&self) -> (r: Result<(), Vec<GraphViolation>>)
        ensures
            r is Ok <==> all_violations(self@.graph.nodes).len() == 0,
            r matches Err(v) ==> violations_view(v@) == all_violations(self@.graph.nodes),
    {
        verify_graph(&self.graph)
    }

    /// Get deployment order (topological sort respecting dependencies).
    pub fn deployment_order(&self) -> (r: Result<Vec<WorkspaceId>, GraphViolation>)
        ensures
            r is Ok <==> acyclic(self@.graph.nodes),
            r is Ok <==> (exists|o: Seq<Seq<char>>| is_deployment_order(self@.graph.nodes, o)),
            r matches Ok(order) ==> is_deployment_order(self@.graph.nodes, ids_view(order@)),
            r matches Ok(order) ==> ids_view(order@) == kahn_ids(self@.graph.nodes),
            r matches Err(v) ==> v@ == (ViolationView::CyclicDependency {
                workspaces: blocked_ids(self@.graph.nodes),
            }),
    {
        deployment_order(&self.graph)
    }

    /// Get child process by PID (the first one that has it).
    pub fn process(&self, pid: u32) -> (r: Option<&ChildProcess>)
        ensures
            r matches Some(c) ==> exists|k: int| is_first_with_pid(self@.children, pid, k) && c@ == self@.children[k],
            r is None ==> forall|k: int| 0 <= k < self@.children.len() ==> self@.children[k].pid != pid,
    {
        let mut k: usize = 0;
        while k < self.children.len()
            invariant
                k <= self.children@.len(),
                forall|j: int| 0 <= j < k ==> self@.children[j].pid != pid,
            decreases self.children@.len() - k,
        {
            if self.children[k].pid == pid {
                assert(is_first_with_pid(self@.children, pid, k as int));
                return Some(&self.children[k]);
            }
            k = k + 1;
        }
        None
    }

    /// Get child process by name (the first one that has it).
    pub fn process_by_name(&self, name: &str) -> (r: Option<&ChildProcess>)
        ensures
            r matches Some(c) ==> exists|k: int| is_first_with_name(self@.children, name@, k) && c@ == self@.children[k],
            r is None ==> forall|k: int| 0 <= k < self@.children.len() ==> self@.children[k].name != name@,
    {
        let mut k: usize = 0;
        while k < self.children.len()
            invariant
                k <= self.children@.len(),
                forall|j: int| 0 <= j < k ==> self@.children[j].name != name@,
            decreases self.children@.len() - k,
        {
            if text_equal(self.children[k].name.as_str(), name) {
                assert(is_first_with_name(self@.children, name@, k as int));
                return Some(&self.children[k]);
            }
            k = k + 1;
        }
        None
    }
}

// ── Sub-workspace builder ───────────────────────────────────────────────

/// Builder for a single sub-workspace within a composition.
pub struct SubWorkspaceBuilder {
    parent_name: String,
    name: String,
    outputs: Vec<(String, IacType, String)>,
    inputs: Vec<(String, IacType, String, String)>,
}

/// What a sub-workspace builder holds, as values.
pub ghost struct SubWorkspaceView {
    pub parent_name: Seq<char>,
    pub name: Seq<char>,
    pub outputs: Seq<OutputDecl>,
    pub inputs: Seq<InputDecl>,
}

/// The values of declared outputs.
pub open spec fn output_decls(v: Seq<(String, IacType, String)>) -> Seq<OutputDecl> {
    v.map_values(|o: (String, IacType, String)| (o.0@, o.1, o.2@))
}

/// The values of declared inputs.
pub open spec fn input_decls(v: Seq<(String, IacType, String, String)>) -> Seq<InputDecl> {
    v.map_values(|i: (String, IacType, String, String)| (i.0@, i.1, i.2@, i.3@))
}

impl View for SubWorkspaceBuilder {
    type V = SubWorkspaceView;

    closed spec fn view(&self) -> SubWorkspaceView {
        SubWorkspaceView {
            parent_name: self.parent_name@,
            name: self.name@,
            outputs: output_decls(self.outputs@),
            inputs: input_decls(self.inputs@),
        }
    }
}

impl SubWorkspaceBuilder {
    /// Declare an output this sub-workspace produces.
    pub fn output(self, name: &str, field_type: IacType, source: &str) -> (b: Self)
        ensures
            b@ == (SubWorkspaceView {
                outputs: self@.outputs.push((name@, field_type, source@)),
                ..self@
            }),
    {
        let mut s = self;
        s.outputs.push((name.to_owned(), field_type, source.to_owned()));
        assert(output_decls(s.outputs@) =~= self@.outputs.push((name@, field_type, source@)));
        s
    }

    /// Declare an input from a sibling sub-workspace, under the output's own name.
    pub fn input_from(self, source_ws: &str, output_name: &str, field_type: IacType) -> (b: Self)
        ensures
            b@ == (SubWorkspaceView {
                inputs: self@.inputs.push((output_name@, field_type, source_ws@, output_name@)),
                ..self@
            }),
    {
        let mut s = self;
        s.inputs.push((output_name.to_owned(), field_type, source_ws.to_owned(), output_name.to_owned()));
        assert(input_decls(s.inputs@) =~= self@.inputs.push((output_name@, field_type, source_ws@, output_name@)));
        s
    }

    /// Declare an input with a different local name.
    pub fn input_as(self, local_name: &str, source_ws: &str, source_output: &str, field_type: IacType) -> (b: Self)
        ensures
            b@ == (SubWorkspaceView {
                inputs: self@.inputs.push((local_name@, field_type, source_ws@, source_output@)),
                ..self@
            }),
    {
        let mut s = self;
        s.inputs.push((local_name.to_owned(), field_type, source_ws.to_owned(), source_output.to_owned()));
        assert(input_decls(s.inputs@) =~= self@.inputs.push((local_name@, field_type, source_ws@, source_output@)));
        s
    }
}

// ── Composition builder ─────────────────────────────────────────────────

/// A declared sub-workspace, waiting for the plan to be built.
struct SubWorkspaceSpec {
    name: String,
    pid: u32,
    outputs: Vec<(String, IacType, String)>,
    inputs: Vec<(String, IacType, String, String)>,
}

/// What a declared sub-workspace is, as values.
pub ghost struct ChildSpecView {
    pub name: Seq<char>,
    pub pid: u32,
    pub outputs: Seq<OutputDecl>,
    pub inputs: Seq<InputDecl>,
}

/// What a composition builder holds, as values.
pub ghost struct CompositionView {
    pub parent_name: Seq<char>,
    pub parent_label: Seq<char>,
    pub provider: Seq<char>,
    pub children: Seq<ChildSpecView>,
    pub next_pid: u32,
}

/// Fluent builder for composing an architecture into sub-workspaces.
pub struct CompositionBuilder {
    parent_name: String,
    parent_label: String,
    provider: String,
    children: Vec<SubWorkspaceSpec>,
    next_pid: u32,
}

impl View for CompositionBuilder {
    type V = CompositionView;

    closed spec fn view(&self) -> CompositionView {
        CompositionView {
            parent_name: self.parent_name@,
            parent_label: self.parent_label@,
            provider: self.provider@,
            children: self.children@.map_values(
                |c: SubWorkspaceSpec|
                    ChildSpecView {
                        name: c.name@,
                        pid: c.pid,
                        outputs: output_decls(c.outputs@),
                        inputs: input_decls(c.inputs@),
                    },
            ),
            next_pid: self.next_pid,
        }
    }
}

/// The graph-builder state after declaring child `c`: the child workspace
/// `{parent}-{name}` with state key `pangea/{parent}/{name}`, its outputs, and its
/// inputs with siblings resolved to `{parent}-{sibling}`.
pub open spec fn add_child(b: BuilderView, parent: Seq<char>, provider: Seq<char>, c: ChildSpecView) -> BuilderView {
    let id = child_id(parent, c.name);
    BuilderView {
        nodes: sorted_insert(b.nodes, bare_node(id, c.name, child_state_key(parent, c.name), provider)),
        outputs: b.outputs + c.outputs.map_values(
            |o: OutputDecl| (id, OutputPortView { name: o.0, field_type: o.1, source_resource: o.2 }),
        ),
        inputs: b.inputs + c.inputs.map_values(
            |i: InputDecl|
                (
                    id,
                    InputPortView {
                        name: i.0,
                        field_type: i.1,
                        source_workspace: child_id(parent, i.2),
                        source_output: i.3,
                    },
                ),
        ),
    }
}

/// The graph-builder state for a composition: the parent workspace, then each
/// child in declaration order.
pub open spec fn composition_builder(c: CompositionView, k: int) -> BuilderView
    decreases k,
{
    if k <= 0 {
        BuilderView {
            nodes: seq![bare_node(c.parent_name, c.parent_label, parent_state_key(c.parent_name), c.provider)],
            outputs: seq![],
            inputs: seq![],
        }
    } else {
        add_child(composition_builder(c, k - 1), c.parent_name, c.provider, c.children[k - 1])
    }
}

/// The child processes of a composition: `{parent}-{name}`, its PID, parent PID
/// 1, and state key `pangea/{parent}/{name}`.
pub open spec fn child_processes(c: CompositionView) -> Seq<ChildProcessView> {
    c.children.map_values(
        |s: ChildSpecView|
            ChildProcessView {
                id: child_id(c.parent_name, s.name),
                name: s.name,
                pid: s.pid,
                ppid: 1,
                state_key: child_state_key(c.parent_name, s.name),
            },
    )
}

/// The plan a composition builder builds.
pub open spec fn planned(c: CompositionView) -> PlanView {
    PlanView {
        parent: c.parent_name,
        children: child_processes(c),
        graph: built_graph(composition_builder(c, c.children.len() as int)),
    }
}

/// `a` followed by `sep` and `b`.
fn joined(a: &str, sep: &str, b: &str) -> (r: String)
    ensures
        r@ == a@ + sep@ + b@,
{
    let mut s = a.to_owned();
    s.append(sep);
    s.append(b);
    s
}

impl CompositionBuilder {
    #[verifier::type_invariant]
    spec fn pids_sequential(self) -> bool {
        &&& self.next_pid == self.children@.len() + 2
        &&& forall|k: int| 0 <= k < self.children@.len() ==> #[trigger] self.children@[k].pid == k + 2
    }

    /// Start a new composition. PID 1 is the parent (orchestrator).
    pub fn new(name: &str, label: &str, provider: &str) -> (b: Self)
        ensures
            b@.parent_name == name@,
            b@.parent_label == label@,
            b@.provider == provider@,
            b@.children == Seq::<ChildSpecView>::empty(),
            b@.next_pid == 2,
    {
        let b = CompositionBuilder {
            parent_name: name.to_owned(),
            parent_label: label.to_owned(),
            provider: provider.to_owned(),
            children: Vec::new(),
            next_pid: 2,
        };
        assert(b@.children =~= Seq::<ChildSpecView>::empty());
        b
    }

    /// Add a sub-workspace (child process). The closure configures its ports.
    pub fn sub_workspace(
        self,
        name: &str,
        f: impl FnOnce(SubWorkspaceBuilder) -> SubWorkspaceBuilder,
    ) -> (b: Self)
        requires
            self@.next_pid < u32::MAX,
            forall|sb: SubWorkspaceBuilder| f.requires((sb,)),
        ensures
            b@.parent_name == self@.parent_name,
            b@.parent_label == self@.parent_label,
            b@.provider == self@.provider,
            b@.next_pid == self@.next_pid + 1,
            b@.children.len() == self@.children.len() + 1,
            b@.children.drop_last() == self@.children,
            b@.children.last().name == name@,
            b@.children.last().pid == self@.next_pid,
            b@.next_pid == b@.children.len() + 2,
            forall|k: int| 0 <= k < b@.children.len() ==> #[trigger] b@.children[k].pid == k + 2,
            exists|given: SubWorkspaceBuilder, got: SubWorkspaceBuilder|
                {
                    &&& given@ == (SubWorkspaceView {
                        parent_name: self@.parent_name,
                        name: name@,
                        outputs: seq![],
                        inputs: seq![],
                    })
                    &&& f.ensures((given,), got)
                    &&& b@.children.last().outputs == got@.outputs
                    &&& b@.children.last().inputs == got@.inputs
                },
    {
        proof {
            use_type_invariant(&self);
        }
        let ghost old_view = self@;
        let CompositionBuilder { parent_name, parent_label, provider, mut children, next_pid } = self;
        let pid = next_pid;
        let given = SubWorkspaceBuilder {
            parent_name: parent_name.clone(),
            name: name.to_owned(),
            outputs: Vec::new(),
            inputs: Vec::new(),
        };
        let ghost given_view = given@;
        assert(given_view.outputs =~= Seq::<OutputDecl>::empty());
        assert(given_view.inputs =~= Seq::<InputDecl>::empty());
        let ghost given_copy = given;
        let got = f(given);
        let ghost got_view = got@;
        let SubWorkspaceBuilder { outputs, inputs, .. } = got;
        children.push(SubWorkspaceSpec { name: name.to_owned(), pid, outputs, inputs });
        let b = CompositionBuilder { parent_name, parent_label, provider, children, next_pid: next_pid + 1 };
        assert(b@.children.drop_last() =~= old_view.children);
        proof {
            use_type_invariant(&b);
        }
        b
    }

    /// Build the composition plan, generating the workspace graph.
    pub fn build(self) -> (plan: CompositionPlan)
        ensures
            plan@ == planned(self@),
            forall|k: int| 0 <= k < plan@.children.len() ==> #[trigger] plan@.children[k].pid == k + 2,
    {
        proof {
            use_type_invariant(&self);
        }
        let ghost c = self@;
        proof {
            reveal_strlit("pangea/");
            reveal_strlit("-");
            reveal_strlit("/");
            assert("pangea/"@ =~= seq!['p', 'a', 'n', 'g', 'e', 'a', '/']);
            assert("-"@ =~= seq!['-']);
            assert("/"@ =~= seq!['/']);
        }
        let parent_id = self.parent_name.clone();
        let parent_key = joined("pangea/", "", self.parent_name.as_str());
        proof {
            reveal_strlit("");
            assert(""@ =~= Seq::<char>::empty());
            assert(parent_key@ =~= parent_state_key(c.parent_name));
        }
        let mut graph_builder = WorkspaceGraphBuilder::new().workspace(
            parent_id.as_str(),
            self.parent_label.as_str(),
            parent_key.as_str(),
            self.provider.as_str(),
        );
        assert(graph_builder@ == composition_builder(c, 0)) by {
            assert(sorted_insert(Seq::empty(), bare_node(c.parent_name, c.parent_label, parent_state_key(c.parent_name), c.provider))
                =~= seq![bare_node(c.parent_name, c.parent_label, parent_state_key(c.parent_name), c.provider)]);
        }
        let mut processes: Vec<ChildProcess> = Vec::new();
        let mut i: usize = 0;
        while i < self.children.len()
            invariant
                c == self@,
                i <= self.children@.len(),
                graph_builder@ == composition_builder(c, i as int),
                processes@.len() == i,
                forall|k: int| 0 <= k < i ==> #[trigger] processes@[k]@ == child_processes(c)[k],
                "-"@ =~= seq!['-'],
                "/"@ =~= seq!['/'],
                "pangea/"@ =~= seq!['p', 'a', 'n', 'g', 'e', 'a', '/'],
                ""@ =~= Seq::<char>::empty(),
            decreases self.children@.len() - i,
        {
            let child = &self.children[i];
            let ghost cv = c.children[i as int];
            assert(cv.name == child.name@ && cv.pid == child.pid);
            assert(cv.outputs == output_decls(child.outputs@));
            assert(cv.inputs == input_decls(child.inputs@));
            let id_text = joined(self.parent_name.as_str(), "-", child.name.as_str());
            let prefix = joined("pangea/", self.parent_name.as_str(), "/");
            let key_text = joined(prefix.as_str(), child.name.as_str(), "");
            proof {
                assert(id_text@ =~= child_id(c.parent_name, cv.name));
                assert(key_text@ =~= child_state_key(c.parent_name, cv.name));
            }
            let ghost base = graph_builder@;
            graph_builder = graph_builder.workspace(
                id_text.as_str(),
                child.name.as_str(),
                key_text.as_str(),
                self.provider.as_str(),
            );
            let ghost out_map = |o: OutputDecl| (child_id(c.parent_name, cv.name), OutputPortView { name: o.0, field_type: o.1, source_resource: o.2 });
            let mut k: usize = 0;
            while k < child.outputs.len()
                invariant
                    k <= child.outputs@.len(),
                    cv.outputs == output_decls(child.outputs@),
                    id_text@ == child_id(c.parent_name, cv.name),
                    graph_builder@.nodes == sorted_insert(base.nodes, bare_node(child_id(c.parent_name, cv.name), cv.name, child_state_key(c.parent_name, cv.name), c.provider)),
                    graph_builder@.inputs == base.inputs,
                    forall|o: OutputDecl| #[trigger] out_map(o) == (child_id(c.parent_name, cv.name), OutputPortView { name: o.0, field_type: o.1, source_resource: o.2 }),
                    graph_builder@.outputs == base.outputs + cv.outputs.take(k as int).map_values(out_map),
                decreases child.outputs@.len() - k,
            {
                let decl = &child.outputs[k];
                assert(cv.outputs[k as int] == (decl.0@, decl.1, decl.2@));
                let ghost before = graph_builder@.outputs;
                graph_builder = graph_builder.output(
                    id_text.as_str(),
                    decl.0.as_str(),
                    clone_field_type(&decl.1),
                    decl.2.as_str(),
                );
                assert(cv.outputs.take(k + 1).map_values(out_map) =~= cv.outputs.take(k as int).map_values(out_map).push(out_map(cv.outputs[k as int])));
                assert(out_map(cv.outputs[k as int]) == (id_text@, OutputPortView { name: decl.0@, field_type: decl.1, source_resource: decl.2@ }));
                assert(graph_builder@.outputs == before.push(out_map(cv.outputs[k as int])));
                assert(graph_builder@.outputs =~= base.outputs + cv.outputs.take(k + 1).map_values(out_map));
                k = k + 1;
            }
            assert(cv.outputs.take(k as int) =~= cv.outputs);
            let ghost in_map = |x: InputDecl|
                (
                    child_id(c.parent_name, cv.name),
                    InputPortView {
                        name: x.0,
                        field_type: x.1,
                        source_workspace: child_id(c.parent_name, x.2),
                        source_output: x.3,
                    },
                );
            let mut k: usize = 0;
            while k < child.inputs.len()
                invariant
                    k <= child.inputs@.len(),
                    cv.inputs == input_decls(child.inputs@),
                    id_text@ == child_id(c.parent_name, cv.name),
                    c == self@,
                    "-"@ =~= seq!['-'],
                    graph_builder@.nodes == sorted_insert(base.nodes, bare_node(child_id(c.parent_name, cv.name), cv.name, child_state_key(c.parent_name, cv.name), c.provider)),
                    graph_builder@.outputs == base.outputs + cv.outputs.map_values(out_map),
                    forall|x: InputDecl| #[trigger] in_map(x) == (child_id(c.parent_name, cv.name), InputPortView {
                        name: x.0,
                        field_type: x.1,
                        source_workspace: child_id(c.parent_name, x.2),
                        source_output: x.3,
                    }),
                    graph_builder@.inputs == base.inputs + cv.inputs.take(k as int).map_values(in_map),
                decreases child.inputs@.len() - k,
            {
                let decl = &child.inputs[k];
                assert(cv.inputs[k as int] == (decl.0@, decl.1, decl.2@, decl.3@));
                let resolved_source = joined(self.parent_name.as_str(), "-", decl.2.as_str());
                assert(resolved_source@ =~= child_id(c.parent_name, decl.2@));
                let ghost before = graph_builder@.inputs;
                graph_builder = graph_builder.input(
                    id_text.as_str(),
                    decl.0.as_str(),
                    clone_field_type(&decl.1),
                    resolved_source.as_str(),
                    decl.3.as_str(),
                );
                assert(cv.inputs.take(k + 1).map_values(in_map) =~= cv.inputs.take(k as int).map_values(in_map).push(in_map(cv.inputs[k as int])));
                assert(in_map(cv.inputs[k as int]) == (id_text@, InputPortView { name: decl.0@, field_type: decl.1, source_workspace: resolved_source@, source_output: decl.3@ }));
                assert(graph_builder@.inputs == before.push(in_map(cv.inputs[k as int])));
                assert(graph_builder@.inputs =~= base.inputs + cv.inputs.take(k + 1).map_values(in_map));
                k = k + 1;
            }
            assert(cv.inputs.take(k as int) =~= cv.inputs);
            assert(graph_builder@ == composition_builder(c, i + 1));
            processes.push(
                ChildProcess {
                    id: WorkspaceId(id_text),
                    name: child.name.clone(),
                    pid: child.pid,
                    ppid: 1,
                    state_key: key_text,
                },
            );
            i = i + 1;
        }
        let plan = CompositionPlan {
            parent: WorkspaceId(parent_id),
            graph: graph_builder.build(),
            children: processes,
        };
        assert(plan@.children =~= child_processes(c));
        plan
    }
}

/// The PIDs of the declared sub-workspaces run 2, 3, ... in declaration order, as
/// every composition builder keeps them.
pub open spec fn pids_in_order(c: CompositionView) -> bool {
    forall|k: int| 0 <= k < c.children.len() ==> #[trigger] c.children[k].pid == k + 2
}

/// No two declared sub-workspaces share a name.
pub open spec fn names_distinct(c: CompositionView) -> bool {
    forall|a: int, b: int| 0 <= a < b < c.children.len() ==> #[trigger] c.children[a].name != #[trigger] c.children[b].name
}

/// Child `k` of a built plan is process `k + 2`, a child of process 1, with identity
/// `{parent}-{child}` and state key `pangea/{parent}/{child}`; no two children share
/// a PID.
pub proof fn lemma_plan_processes(c: CompositionView, k: int, m: int)
    requires
        pids_in_order(c),
        0 <= k < c.children.len(),
        0 <= m < c.children.len(),
        k != m,
    ensures
        planned(c).children.len() == c.children.len(),
        planned(c).children[k].pid == k + 2,
        planned(c).children[k].ppid == 1,
        planned(c).children[k].name == c.children[k].name,
        planned(c).children[k].id == child_id(c.parent_name, c.children[k].name),
        planned(c).children[k].state_key == child_state_key(c.parent_name, c.children[k].name),
        planned(c).children[k].pid != planned(c).children[m].pid,
{
    assert(c.children[k].pid == k + 2);
    assert(c.children[m].pid == m + 2);
}

/// Sub-workspace identities `{parent}-{name}` tell the names apart, and never equal
/// the parent's own identity.
proof fn lemma_child_id_injective(parent: Seq<char>, a: Seq<char>, b: Seq<char>)
    ensures
        child_id(parent, a) != parent,
        child_id(parent, a) == child_id(parent, b) ==> a == b,
{
    let n: int = parent.len() + 1int;
    assert(child_id(parent, a).len() == n + a.len());
    if child_id(parent, a) == child_id(parent, b) {
        assert(child_id(parent, a).skip(n) =~= a);
        assert(child_id(parent, b).skip(n) =~= b);
    }
}

/// The workspaces the graph builder holds after the parent and the first `k`
/// sub-workspaces of `c` are declared.
proof fn lemma_declared_workspaces(c: CompositionView, k: int)
    requires
        0 <= k <= c.children.len(),
    ensures
        strictly_sorted(node_ids(composition_builder(c, k).nodes)),
        node_with_id(composition_builder(c, k).nodes, c.parent_name) == Some(
            bare_node(c.parent_name, c.parent_label, parent_state_key(c.parent_name), c.provider),
        ),
        forall|i: int|
            0 <= i < k ==> node_with_id(composition_builder(c, k).nodes, #[trigger] child_id(c.parent_name, c.children[i].name))
                == Some(
                bare_node(
                    child_id(c.parent_name, c.children[i].name),
                    c.children[i].name,
                    child_state_key(c.parent_name, c.children[i].name),
                    c.provider,
                ),
            ),
        forall|id: Seq<char>|
            #[trigger] node_with_id(composition_builder(c, k).nodes, id) is Some ==> id == c.parent_name || exists|i: int|
                0 <= i < k && id == child_id(c.parent_name, c.children[i].name),
        names_distinct(c) ==> composition_builder(c, k).nodes.len() == k + 1,
    decreases k,
{
    let p = c.parent_name;
    if k == 0 {
        let nodes = composition_builder(c, 0).nodes;
        assert(node_ids(nodes) =~= seq![p]);
        assert(position_of(nodes, p) == Some(0int));
        assert forall|id: Seq<char>| #[trigger] node_with_id(nodes, id) is Some implies id == p by {}
    } else {
        lemma_declared_workspaces(c, k - 1);
        let before = composition_builder(c, k - 1).nodes;
        let ch = c.children[k - 1];
        let n = bare_node(child_id(p, ch.name), ch.name, child_state_key(p, ch.name), c.provider);
        let after = composition_builder(c, k).nodes;
        assert(after == sorted_insert(before, n));
        lemma_insert_then_get(before, n);
        lemma_child_id_injective(p, ch.name, ch.name);
        assert forall|i: int| 0 <= i < k implies node_with_id(after, #[trigger] child_id(p, c.children[i].name))
            == Some(
            bare_node(
                child_id(p, c.children[i].name),
                c.children[i].name,
                child_state_key(p, c.children[i].name),
                c.provider,
            ),
        ) by {
            lemma_child_id_injective(p, c.children[i].name, ch.name);
        }
        assert forall|id: Seq<char>| #[trigger] node_with_id(after, id) is Some implies id == p || exists|i: int|
            0 <= i < k && id == child_id(p, c.children[i].name) by {
            if id != n.id {
                assert(node_with_id(before, id) is Some);
            }
        }
        if names_distinct(c) {
            if position_of(before, n.id) is Some {
                assert(node_with_id(before, n.id) is Some);
                if n.id != p {
                    let i = choose|i: int| 0 <= i < k - 1 && n.id == child_id(p, c.children[i].name);
                    lemma_child_id_injective(p, c.children[i].name, ch.name);
                    assert(c.children[i].name != c.children[k - 1].name);
                }
            }
        }
    }
}

/// How many inputs the first `k` sub-workspaces declare.
pub open spec fn input_count(c: CompositionView, k: int) -> nat
    decreases k,
{
    if k <= 0 {
        0
    } else {
        input_count(c, k - 1) + c.children[k - 1].inputs.len()
    }
}

proof fn lemma_builder_input_count(c: CompositionView, k: int)
    requires
        0 <= k <= c.children.len(),
    ensures
        composition_builder(c, k).inputs.len() == input_count(c, k),
    decreases k,
{
    if k > 0 {
        lemma_builder_input_count(c, k - 1);
    }
}

/// The graph of a built plan holds the parent workspace, with state key
/// `pangea/{parent}`, under the composition's provider. When the sub-workspace
/// names are distinct it holds one workspace more than there are sub-workspaces.
/// It has one edge per declared input.
pub proof fn lemma_plan_graph(c: CompositionView)
    ensures
        exists|j: int|
            0 <= j < planned(c).graph.nodes.len() && #[trigger] planned(c).graph.nodes[j].id == c.parent_name
                && planned(c).graph.nodes[j].state_key == parent_state_key(c.parent_name)
                && planned(c).graph.nodes[j].provider == c.provider,
        names_distinct(c) ==> planned(c).graph.nodes.len() == c.children.len() + 1,
        planned(c).graph.edges.len() == input_count(c, c.children.len() as int),
{
    let n = c.children.len() as int;
    let b = composition_builder(c, n);
    let nodes = planned(c).graph.nodes;
    lemma_declared_workspaces(c, n);
    lemma_builder_input_count(c, n);
    assert(nodes.len() == b.nodes.len());
    let jp = position_of(b.nodes, c.parent_name)->0;
    assert(0 <= jp < b.nodes.len() && b.nodes[jp].id == c.parent_name);
    assert(b.nodes[jp] == bare_node(c.parent_name, c.parent_label, parent_state_key(c.parent_name), c.provider));
    assert(nodes[jp] == with_ports(b.nodes[jp], b.outputs, b.inputs));
    assert(planned(c).graph.nodes[jp].id == c.parent_name);
}

/// For every sub-workspace, the graph of a built plan holds a workspace
/// `{parent}-{child}` with state key `pangea/{parent}/{child}`, under the
/// composition's provider.
pub proof fn lemma_plan_child_workspace(c: CompositionView, k: int)
    requires
        0 <= k < c.children.len(),
    ensures
        exists|j: int|
            0 <= j < planned(c).graph.nodes.len() && #[trigger] planned(c).graph.nodes[j].id == child_id(
                c.parent_name,
                c.children[k].name,
            ) && planned(c).graph.nodes[j].state_key == child_state_key(c.parent_name, c.children[k].name)
                && planned(c).graph.nodes[j].provider == c.provider,
{
    let n = c.children.len() as int;
    let b = composition_builder(c, n);
    let nodes = planned(c).graph.nodes;
    lemma_declared_workspaces(c, n);
    assert(nodes.len() == b.nodes.len());
    let id = child_id(c.parent_name, c.children[k].name);
    assert(node_with_id(b.nodes, id) is Some);
    let jc = position_of(b.nodes, id)->0;
    assert(0 <= jc < b.nodes.len() && b.nodes[jc].id == id);
    assert(b.nodes[jc] == bare_node(id, c.children[k].name, child_state_key(c.parent_name, c.children[k].name), c.provider));
    assert(nodes[jc] == with_ports(b.nodes[jc], b.outputs, b.inputs));
    assert(planned(c).graph.nodes[jc].id == id);
}

/// The output ports that sub-workspace `k` declares.
pub open spec fn declared_outputs(c: CompositionView, k: int) -> Seq<OutputPortView> {
    c.children[k].outputs.map_values(
        |o: OutputDecl| OutputPortView { name: o.0, field_type: o.1, source_resource: o.2 },
    )
}

/// The input ports that sub-workspace `k` declares, with siblings resolved to
/// `{parent}-{sibling}`.
pub open spec fn declared_inputs(c: CompositionView, k: int) -> Seq<InputPortView> {
    c.children[k].inputs.map_values(
        |i: InputDecl|
            InputPortView {
                name: i.0,
                field_type: i.1,
                source_workspace: child_id(c.parent_name, i.2),
                source_output: i.3,
            },
    )
}

/// With distinct sub-workspace names, the ports the graph builder holds for
/// sub-workspace `j` are exactly those it declared, and it holds none for any other
/// workspace.
proof fn lemma_composed_ports(c: CompositionView, k: int)
    requires
        names_distinct(c),
        0 <= k <= c.children.len(),
    ensures
        forall|ws: Seq<char>|
            (forall|i: int| 0 <= i < k ==> ws != #[trigger] child_id(c.parent_name, c.children[i].name)) ==> {
                &&& ports_for(composition_builder(c, k).outputs, ws) == Seq::<OutputPortView>::empty()
                &&& ports_for(composition_builder(c, k).inputs, ws) == Seq::<InputPortView>::empty()
            },
        forall|j: int|
            0 <= j < k ==> {
                &&& ports_for(composition_builder(c, k).outputs, #[trigger] child_id(c.parent_name, c.children[j].name))
                    == declared_outputs(c, j)
                &&& ports_for(composition_builder(c, k).inputs, child_id(c.parent_name, c.children[j].name))
                    == declared_inputs(c, j)
            },
    decreases k,
{
    let p = c.parent_name;
    if k == 0 {
        let b = composition_builder(c, 0);
        assert forall|ws: Seq<char>| true implies {
            &&& ports_for(b.outputs, ws) == Seq::<OutputPortView>::empty()
            &&& ports_for(b.inputs, ws) == Seq::<InputPortView>::empty()
        } by {}
    } else {
        lemma_composed_ports(c, k - 1);
        let before = composition_builder(c, k - 1);
        let ch = c.children[k - 1];
        let id = child_id(p, ch.name);
        let outs = ch.outputs.map_values(
            |o: OutputDecl| (id, OutputPortView { name: o.0, field_type: o.1, source_resource: o.2 }),
        );
        let ins = ch.inputs.map_values(
            |i: InputDecl|
                (
                    id,
                    InputPortView {
                        name: i.0,
                        field_type: i.1,
                        source_workspace: child_id(p, i.2),
                        source_output: i.3,
                    },
                ),
        );
        let b = composition_builder(c, k);
        assert(b.outputs == before.outputs + outs);
        assert(b.inputs == before.inputs + ins);
        assert(outs.map_values(|q: (Seq<char>, OutputPortView)| q.1) =~= declared_outputs(c, k - 1));
        assert(ins.map_values(|q: (Seq<char>, InputPortView)| q.1) =~= declared_inputs(c, k - 1));
        assert forall|ws: Seq<char>| true implies {
            &&& ports_for(b.outputs, ws) == ports_for(before.outputs, ws) + ports_for(outs, ws)
            &&& ports_for(b.inputs, ws) == ports_for(before.inputs, ws) + ports_for(ins, ws)
            &&& id == ws ==> ports_for(outs, ws) == declared_outputs(c, k - 1)
            &&& id == ws ==> ports_for(ins, ws) == declared_inputs(c, k - 1)
            &&& id != ws ==> ports_for(outs, ws) == Seq::<OutputPortView>::empty()
            &&& id != ws ==> ports_for(ins, ws) == Seq::<InputPortView>::empty()
        } by {
            lemma_ports_for_concat(before.outputs, outs, ws);
            lemma_ports_for_concat(before.inputs, ins, ws);
            lemma_ports_for_uniform(outs, id, ws);
            lemma_ports_for_uniform(ins, id, ws);
        }
        assert forall|ws: Seq<char>|
            (forall|i: int| 0 <= i < k ==> ws != #[trigger] child_id(p, c.children[i].name)) implies {
                &&& ports_for(b.outputs, ws) == Seq::<OutputPortView>::empty()
                &&& ports_for(b.inputs, ws) == Seq::<InputPortView>::empty()
            } by {
            assert(ws != child_id(p, c.children[k - 1].name));
            assert forall|i: int| 0 <= i < k - 1 implies ws != #[trigger] child_id(p, c.children[i].name) by {
                assert(ws != child_id(p, c.children[i].name));
            }
            assert(ports_for(before.outputs, ws) == Seq::<OutputPortView>::empty());
            assert(ports_for(before.inputs, ws) == Seq::<InputPortView>::empty());
            assert(ports_for(b.outputs, ws) == ports_for(before.outputs, ws) + ports_for(outs, ws));
            assert(ports_for(b.inputs, ws) == ports_for(before.inputs, ws) + ports_for(ins, ws));
            assert(ports_for(b.outputs, ws) =~= Seq::<OutputPortView>::empty());
            assert(ports_for(b.inputs, ws) =~= Seq::<InputPortView>::empty());
        }
        assert forall|j: int| 0 <= j < k implies {
            &&& ports_for(b.outputs, #[trigger] child_id(p, c.children[j].name)) == declared_outputs(c, j)
            &&& ports_for(b.inputs, child_id(p, c.children[j].name)) == declared_inputs(c, j)
        } by {
            let wj = child_id(p, c.children[j].name);
            if j < k - 1 {
                lemma_child_id_injective(p, c.children[j].name, ch.name);
                assert(c.children[j].name != c.children[k - 1].name);
                assert(wj != id);
                assert(ports_for(before.outputs, wj) == declared_outputs(c, j));
                assert(ports_for(before.inputs, wj) == declared_inputs(c, j));
                assert(ports_for(b.outputs, wj) == ports_for(before.outputs, wj) + ports_for(outs, wj));
                assert(ports_for(b.inputs, wj) == ports_for(before.inputs, wj) + ports_for(ins, wj));
                assert(ports_for(b.outputs, wj) =~= declared_outputs(c, j));
                assert(ports_for(b.inputs, wj) =~= declared_inputs(c, j));
            } else {
                assert forall|i: int| 0 <= i < k - 1 implies wj != #[trigger] child_id(p, c.children[i].name) by {
                    lemma_child_id_injective(p, c.children[i].name, ch.name);
                    assert(c.children[i].name != c.children[k - 1].name);
                }
                assert(wj == id);
                assert(ports_for(before.outputs, wj) == Seq::<OutputPortView>::empty());
                assert(ports_for(before.inputs, wj) == Seq::<InputPortView>::empty());
                assert(ports_for(b.outputs, wj) == ports_for(before.outputs, wj) + ports_for(outs, wj));
                assert(ports_for(b.inputs, wj) == ports_for(before.inputs, wj) + ports_for(ins, wj));
                assert(ports_for(b.outputs, wj) =~= declared_outputs(c, j));
                assert(ports_for(b.inputs, wj) =~= declared_inputs(c, j));
            }
        }
    }
}

/// What workspace `j` of a built plan's graph is, when the sub-workspace names are
/// distinct: the parent (`-1`), with no ports, or sub-workspace `r`, with exactly
/// the ports it declared.
proof fn lemma_plan_node(c: CompositionView, j: int) -> (r: int)
    requires
        names_distinct(c),
        0 <= j < planned(c).graph.nodes.len(),
    ensures
        -1 <= r < c.children.len(),
        r == -1 ==> planned(c).graph.nodes[j].id == c.parent_name,
        r == -1 ==> planned(c).graph.nodes[j].outputs == Seq::<OutputPortView>::empty(),
        r == -1 ==> planned(c).graph.nodes[j].inputs == Seq::<InputPortView>::empty(),
        r >= 0 ==> planned(c).graph.nodes[j].id == child_id(c.parent_name, c.children[r].name),
        r >= 0 ==> planned(c).graph.nodes[j].outputs == declared_outputs(c, r),
        r >= 0 ==> planned(c).graph.nodes[j].inputs == declared_inputs(c, r),
{
    let p = c.parent_name;
    let n = c.children.len() as int;
    let b = composition_builder(c, n);
    let g = planned(c).graph.nodes;
    lemma_declared_workspaces(c, n);
    lemma_composed_ports(c, n);
    assert(g[j] == with_ports(b.nodes[j], b.outputs, b.inputs));
    let id = b.nodes[j].id;
    lemma_position_sorted(b.nodes, j);
    assert(node_with_id(b.nodes, id) is Some);
    if id == p {
        assert forall|i: int| 0 <= i < n implies p != #[trigger] child_id(p, c.children[i].name) by {
            lemma_child_id_injective(p, c.children[i].name, c.children[i].name);
        }
        assert(ports_for(b.outputs, p) == Seq::<OutputPortView>::empty());
        assert(ports_for(b.inputs, p) == Seq::<InputPortView>::empty());
        assert(g[j].outputs =~= Seq::<OutputPortView>::empty());
        assert(g[j].inputs =~= Seq::<InputPortView>::empty());
        -1
    } else {
        let r = choose|i: int| 0 <= i < n && id == child_id(p, c.children[i].name);
        assert(node_with_id(b.nodes, child_id(p, c.children[r].name)) == Some(b.nodes[j]));
        assert(ports_for(b.outputs, child_id(p, c.children[r].name)) == declared_outputs(c, r));
        assert(ports_for(b.inputs, child_id(p, c.children[r].name)) == declared_inputs(c, r));
        assert(g[j].outputs =~= declared_outputs(c, r));
        assert(g[j].inputs =~= declared_inputs(c, r));
        r
    }
}

/// Sub-workspace `k` is soundly declared: its output names are distinct, and each
/// of its inputs reads, from a sibling declared before it, an output of that name
/// whose type matches the input's.
pub open spec fn soundly_declared(c: CompositionView, k: int) -> bool {
    let outs = c.children[k].outputs;
    let ins = c.children[k].inputs;
    &&& forall|a: int, b: int| 0 <= a < b < outs.len() ==> #[trigger] outs[a].0 != #[trigger] outs[b].0
    &&& forall|m: int|
        0 <= m < ins.len() ==> exists|i: int, q: int|
            0 <= i < k && 0 <= q < c.children[i].outputs.len() && c.children[i].name == (#[trigger] ins[m]).2
                && #[trigger] c.children[i].outputs[q].0 == ins[m].3 && types_match(
                c.children[i].outputs[q].1,
                ins[m].1,
            )
}

/// Every sub-workspace has its own name and is soundly declared.
pub open spec fn well_composed(c: CompositionView) -> bool {
    &&& names_distinct(c)
    &&& forall|k: int| 0 <= k < c.children.len() ==> #[trigger] soundly_declared(c, k)
}

/// A composition whose sub-workspaces each have their own name, unique output
/// names, and inputs that read matching outputs of siblings declared earlier,
/// builds a plan that passes every verification: the builder produces sound
/// graphs by construction.
pub proof fn lemma_well_composed_plan_verifies(c: CompositionView)
    requires
        well_composed(c),
    ensures
        all_violations(planned(c).graph.nodes).len() == 0,
{
    let p = c.parent_name;
    let n = c.children.len() as int;
    let b = composition_builder(c, n);
    let g = planned(c).graph.nodes;
    lemma_declared_workspaces(c, n);
    assert(node_ids(g) =~= node_ids(b.nodes)) by {
        assert forall|j: int| 0 <= j < g.len() implies #[trigger] node_ids(g)[j] == node_ids(b.nodes)[j] by {
            assert(g[j] == with_ports(b.nodes[j], b.outputs, b.inputs));
        }
    }
    // Where sub-workspace `i` sits in the graph.
    assert forall|i: int| #![trigger c.children[i]] 0 <= i < n implies exists|x: int|
        0 <= x < g.len() && #[trigger] g[x].id == child_id(p, c.children[i].name) && g[x].outputs == declared_outputs(c, i)
            && position_of(g, child_id(p, c.children[i].name)) == Some(x) by {
        let id = child_id(p, c.children[i].name);
        assert(node_with_id(b.nodes, id) is Some);
        let x = position_of(b.nodes, id)->0;
        assert(0 <= x < b.nodes.len() && b.nodes[x].id == id);
        assert(g[x] == with_ports(b.nodes[x], b.outputs, b.inputs));
        let r = lemma_plan_node(c, x);
        if r == -1 {
            lemma_child_id_injective(p, c.children[i].name, c.children[i].name);
        } else {
            lemma_child_id_injective(p, c.children[r].name, c.children[i].name);
            assert(r == i);
        }
        lemma_position_sorted(g, x);
    }
    // Uniqueness.
    assert forall|j: int, a: int, b2: int| 0 <= j < g.len() && 0 <= a < b2 < g[j].outputs.len() implies #[trigger] g[j].outputs[a].name
        != #[trigger] g[j].outputs[b2].name by {
        let r = lemma_plan_node(c, j);
        assert(soundly_declared(c, r));
        assert(c.children[r].outputs[a].0 != c.children[r].outputs[b2].0);
    }
    // Connectivity and compatibility.
    assert forall|j: int, m: int| 0 <= j < g.len() && 0 <= m < g[j].inputs.len() implies !is_disconnected(
        g,
        #[trigger] g[j].inputs[m],
    ) && is_compatible(g, g[j].inputs[m]) by {
        let r = lemma_plan_node(c, j);
        assert(soundly_declared(c, r));
        let d = c.children[r].inputs[m];
        let (i, q) = choose|i: int, q: int|
            0 <= i < r && 0 <= q < c.children[i].outputs.len() && c.children[i].name == d.2 && #[trigger] c.children[i].outputs[q].0
                == d.3 && types_match(c.children[i].outputs[q].1, d.1);
        let id = child_id(p, c.children[i].name);
        let x = choose|x: int|
            0 <= x < g.len() && #[trigger] g[x].id == id && g[x].outputs == declared_outputs(c, i) && position_of(g, id)
                == Some(x);
        let outs = declared_outputs(c, i);
        assert(g[j].inputs[m].source_workspace == id);
        assert(node_with_id(g, id) == Some(g[x]));
        assert(outs[q].name == d.3);
        assert(has_output_named(outs, d.3));
        assert(is_first_named(outs, d.3, q)) by {
            assert forall|a: int| 0 <= a < q implies outs[a].name != d.3 by {
                assert(soundly_declared(c, i));
                assert(c.children[i].outputs[a].0 != c.children[i].outputs[q].0);
            }
        }
        let f = choose|f: int| is_first_named(outs, d.3, f);
        if f != q {
            if f < q {
                assert(outs[f].name != d.3);
            } else {
                assert(outs[q].name != d.3);
            }
        }
        assert(first_output_named(outs, d.3) == Some(outs[q]));
    }
    // No cycle: every dependency runs from an earlier sub-workspace to a later one.
    let rank = |x: int|
        if 0 <= x < g.len() && g[x].id != p {
            (choose|i: int| 0 <= i < n && g[x].id == child_id(p, c.children[i].name)) as nat + 1
        } else {
            0nat
        };
    assert forall|x: int, j: int| #[trigger] depends(g, x, j) implies rank(x) < rank(j) by {
        let r = lemma_plan_node(c, j);
        let m = choose|m: int| 0 <= m < g[j].inputs.len() && #[trigger] g[j].inputs[m].source_workspace == g[x].id;
        assert(soundly_declared(c, r));
        let d = c.children[r].inputs[m];
        let (i, q) = choose|i: int, q: int|
            0 <= i < r && 0 <= q < c.children[i].outputs.len() && c.children[i].name == d.2 && #[trigger] c.children[i].outputs[q].0
                == d.3 && types_match(c.children[i].outputs[q].1, d.1);
        assert(g[x].id == child_id(p, c.children[i].name));
        lemma_child_id_injective(p, c.children[i].name, c.children[i].name);
        let rx = choose|t: int| 0 <= t < n && g[x].id == child_id(p, c.children[t].name);
        lemma_child_id_injective(p, c.children[rx].name, c.children[i].name);
        assert(rx == i);
        let rj = choose|t: int| 0 <= t < n && g[j].id == child_id(p, c.children[t].name);
        lemma_child_id_injective(p, c.children[rj].name, c.children[r].name);
        lemma_child_id_injective(p, c.children[r].name, c.children[r].name);
        assert(rj == r);
    }
    lemma_ranked_acyclic(g, rank);
    lemma_verified_graph(planned(c).graph);
}

/// A linear chain of sub-workspaces: distinct names, one output each, and each
/// sub-workspace after the first reads exactly the output of the one declared just
/// before it, with the same type; the first reads nothing.
pub open spec fn is_chain(c: CompositionView) -> bool {
    &&& names_distinct(c)
    &&& forall|k: int| 0 <= k < c.children.len() ==> (#[trigger] c.children[k]).outputs.len() == 1
    &&& c.children.len() > 0 ==> c.children[0].inputs.len() == 0
    &&& forall|k: int|
        0 < k < c.children.len() ==> {
            let input = (#[trigger] c.children[k]).inputs[0];
            let prev = c.children[k - 1];
            &&& c.children[k].inputs.len() == 1
            &&& input.2 == prev.name
            &&& input.3 == prev.outputs[0].0
            &&& input.1 == prev.outputs[0].1
        }
}

/// A linear chain of sub-workspaces builds a plan that passes every verification.
pub proof fn lemma_chain_plan_verifies(c: CompositionView)
    requires
        is_chain(c),
    ensures
        well_composed(c),
        all_violations(planned(c).graph.nodes).len() == 0,
{
    assert forall|k: int| 0 <= k < c.children.len() implies #[trigger] soundly_declared(c, k) by {
        let outs = c.children[k].outputs;
        let ins = c.children[k].inputs;
        assert(outs.len() == 1);
        assert forall|m: int| 0 <= m < ins.len() implies exists|i: int, q: int|
            0 <= i < k && 0 <= q < c.children[i].outputs.len() && c.children[i].name == (#[trigger] ins[m]).2
                && #[trigger] c.children[i].outputs[q].0 == ins[m].3 && types_match(
                c.children[i].outputs[q].1,
                ins[m].1,
            ) by {
            if k == 0 {
                assert(ins.len() == 0);
            } else {
                assert(c.children[k].inputs.len() == 1);
                assert(m == 0);
                let prev = c.children[k - 1];
                assert(prev.outputs.len() == 1);
                lemma_types_match_reflexive(prev.outputs[0].1);
                assert(c.children[k - 1].outputs[0].0 == ins[m].3);
            }
        }
    }
    lemma_well_composed_plan_verifies(c);
}

} // verus!
