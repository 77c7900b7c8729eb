//! Graph invariant verification.
use vstd::prelude::*;
use iac_forge::ir::IacType;
use crate::dependency::{
    acyclic, blocked, blocked_ids, depends, depends_on_member, is_blocked_id, lemma_blocked_ids_members,
    self_supporting, topological_positions, untaken_ids,
};
use crate::text::strictly_sorted;
use crate::types::{
    GraphView, InputPort, InputPortView, OutputPort, OutputPortView, WorkspaceGraph, WorkspaceNode,
    WorkspaceNodeView, clone_field_type, field_types_equal, lemma_position_sorted, node_ids, node_with_id,
    position_of, types_match,
};

verus! {

/// A violation of graph invariants.
#[derive(Debug, PartialEq, Eq)]
pub enum GraphViolation {
    DisconnectedInput {
        workspace: String,
        input: String,
        source_workspace: String,
        source_output: String,
    },
    TypeMismatch {
        from_workspace: String,
        output: String,
        output_type: IacType,
        to_workspace: String,
        input: String,
        input_type: IacType,
    },
    CyclicDependency { workspaces: Vec<String> },
    OrphanWorkspace { workspace: String },
    DuplicateOutput { workspace: String, output: String },
}

/// What a violation is, as values.
pub ghost enum ViolationView {
    DisconnectedInput {
        workspace: Seq<char>,
        input: Seq<char>,
        source_workspace: Seq<char>,
        source_output: Seq<char>,
    },
    TypeMismatch {
        from_workspace: Seq<char>,
        output: Seq<char>,
        output_type: IacType,
        to_workspace: Seq<char>,
        input: Seq<char>,
        input_type: IacType,
    },
    CyclicDependency { workspaces: Seq<Seq<char>> },
    OrphanWorkspace { workspace: Seq<char> },
    DuplicateOutput { workspace: Seq<char>, output: Seq<char> },
}

impl View for GraphViolation {
    type V = ViolationView;

    open spec fn view(&self) -> ViolationView {
        match self {
            GraphViolation::DisconnectedInput { workspace, input, source_workspace, source_output } =>
                ViolationView::DisconnectedInput {
                workspace: workspace@,
                input: input@,
                source_workspace: source_workspace@,
                source_output: source_output@,
            },
            GraphViolation::TypeMismatch {
                from_workspace,
                output,
                output_type,
                to_workspace,
                input,
                input_type,
            } => ViolationView::TypeMismatch {
                from_workspace: from_workspace@,
                output: output@,
                output_type: *output_type,
                to_workspace: to_workspace@,
                input: input@,
                input_type: *input_type,
            },
            GraphViolation::CyclicDependency { workspaces } => ViolationView::CyclicDependency {
                workspaces: workspaces@.map_values(|w: String| w@),
            },
            GraphViolation::OrphanWorkspace { workspace } => ViolationView::OrphanWorkspace {
                workspace: workspace@,
            },
            GraphViolation::DuplicateOutput { workspace, output } => ViolationView::DuplicateOutput {
                workspace: workspace@,
                output: output@,
            },
        }
    }
}

impl Clone for GraphViolation {
    fn clone(&self) -> (r: Self)
        ensures
            r@ == self@,
    {
        match self {
            GraphViolation::DisconnectedInput { workspace, input, source_workspace, source_output } =>
                GraphViolation::DisconnectedInput {
                workspace: workspace.clone(),
                input: input.clone(),
                source_workspace: source_workspace.clone(),
                source_output: source_output.clone(),
            },
            GraphViolation::TypeMismatch {
                from_workspace,
                output,
                output_type,
                to_workspace,
                input,
                input_type,
            } => GraphViolation::TypeMismatch {
                from_workspace: from_workspace.clone(),
                output: output.clone(),
                output_type: clone_field_type(output_type),
                to_workspace: to_workspace.clone(),
                input: input.clone(),
                input_type: clone_field_type(input_type),
            },
            GraphViolation::CyclicDependency { workspaces } => {
                let copy = workspaces.clone();
                assert(copy@.map_values(|w: String| w@) =~= workspaces@.map_values(|w: String| w@)) by {
                    assert forall|k: int| 0 <= k < copy@.len() implies copy@[k]@ == workspaces@[k]@ by {
                        assert(cloned::<String>(workspaces@[k], copy@[k]));
                    }
                }
                GraphViolation::CyclicDependency { workspaces: copy }
            },
            GraphViolation::OrphanWorkspace { workspace } => GraphViolation::OrphanWorkspace {
                workspace: workspace.clone(),
            },
            GraphViolation::DuplicateOutput { workspace, output } => GraphViolation::DuplicateOutput {
                workspace: workspace.clone(),
                output: output.clone(),
            },
        }
    }
}

/// The views of a sequence of violations.
pub open spec fn violations_view(v: Seq<GraphViolation>) -> Seq<ViolationView> {
    v.map_values(|x: GraphViolation| x@)
}

// ---------------------------------------------------------------------------
// Uniqueness
// ---------------------------------------------------------------------------

/// Some output among `outputs` is named `name`.
pub open spec fn has_output_named(outputs: Seq<OutputPortView>, name: Seq<char>) -> bool {
    exists|k: int| 0 <= k < outputs.len() && outputs[k].name == name
}

/// One `DuplicateOutput` for each output of `outputs` whose name an earlier one has.
pub open spec fn duplicate_outputs(workspace: Seq<char>, outputs: Seq<OutputPortView>) -> Seq<ViolationView>
    decreases outputs.len(),
{
    if outputs.len() == 0 {
        seq![]
    } else {
        let prior = outputs.drop_last();
        duplicate_outputs(workspace, prior) + if has_output_named(prior, outputs.last().name) {
            seq![ViolationView::DuplicateOutput { workspace, output: outputs.last().name }]
        } else {
            seq![]
        }
    }
}

/// The uniqueness violations of the nodes, node by node in order.
pub open spec fn uniqueness_violations(nodes: Seq<WorkspaceNodeView>) -> Seq<ViolationView>
    decreases nodes.len(),
{
    if nodes.len() == 0 {
        seq![]
    } else {
        uniqueness_violations(nodes.drop_last()) + duplicate_outputs(nodes.last().id, nodes.last().outputs)
    }
}

fn output_name_seen(outputs: &Vec<OutputPort>, upto: usize, name: &String) -> (r: bool)
    requires
        upto <= outputs@.len(),
    ensures
        r == has_output_named(outputs@.take(upto as int).map_values(|o: OutputPort| o@), name@),
{
    let ghost prior = outputs@.take(upto as int).map_values(|o: OutputPort| o@);
    let mut k: usize = 0;
    while k < upto
        invariant
            upto <= outputs@.len(),
            prior == outputs@.take(upto as int).map_values(|o: OutputPort| o@),
            forall|j: int| 0 <= j < k ==> prior[j].name != name@,
        decreases upto - k,
    {
        if outputs[k].name == *name {
            assert(prior[k as int].name == name@);
            return true;
        }
        k = k + 1;
    }
    false
}

/// No duplicate output names within a workspace.
pub fn verify_uniqueness(graph: &WorkspaceGraph) -> (r: Vec<GraphViolation>)
    ensures
        violations_view(r@) == uniqueness_violations(graph@.nodes),
{
    let nodes = graph.nodes.values();
    let ghost all = graph@.nodes;
    let mut violations: Vec<GraphViolation> = Vec::new();
    let mut i: usize = 0;
    while i < nodes.len()
        invariant
            i <= nodes@.len(),
            nodes@.map_values(|n: WorkspaceNode| n@) == all,
            violations_view(violations@) == uniqueness_violations(all.take(i as int)),
        decreases nodes@.len() - i,
    {
        let node = &nodes[i];
        assert(node@ == all[i as int]);
        let ghost outs = node@.outputs;
        let ghost before = violations_view(violations@);
        let mut j: usize = 0;
        while j < node.outputs.len()
            invariant
                j <= node.outputs@.len(),
                outs == node.outputs@.map_values(|o: OutputPort| o@),
                violations_view(violations@) == before + duplicate_outputs(node@.id, outs.take(j as int)),
            decreases node.outputs@.len() - j,
        {
            let seen = output_name_seen(&node.outputs, j, &node.outputs[j].name);
            proof {
                assert(outs.take(j + 1).drop_last() =~= outs.take(j as int));
                assert(outs.take(j as int) =~= node.outputs@.take(j as int).map_values(|o: OutputPort| o@));
                assert(outs.take(j + 1).last() == outs[j as int]);
                assert(outs[j as int] == node.outputs@[j as int]@);
            }
            let ghost prev = violations@;
            proof {
                assert(duplicate_outputs(node@.id, outs.take(j + 1)) == duplicate_outputs(node@.id, outs.take(j as int)) + if has_output_named(outs.take(j as int), outs[j as int].name) {
                    seq![ViolationView::DuplicateOutput { workspace: node@.id, output: outs[j as int].name }]
                } else {
                    seq![]
                });
            }
            if seen {
                let v = GraphViolation::DuplicateOutput {
                    workspace: node.id.0.clone(),
                    output: node.outputs[j].name.clone(),
                };
                assert(v@ == ViolationView::DuplicateOutput { workspace: node@.id, output: outs[j as int].name });
                violations.push(v);
                assert(violations_view(violations@) =~= violations_view(prev) + seq![v@]);
            }
            proof {
                assert(violations_view(violations@) =~= before + duplicate_outputs(node@.id, outs.take(j + 1)));
            }
            j = j + 1;
        }
        proof {
            assert(outs.take(j as int) =~= outs);
            assert(all.take(i + 1).drop_last() =~= all.take(i as int));
        }
        i = i + 1;
    }
    assert(all.take(i as int) =~= all);
    violations
}

// ---------------------------------------------------------------------------
// Connectivity
// ---------------------------------------------------------------------------

/// The input's source workspace is missing, or has no output of the wanted name.
pub open spec fn is_disconnected(nodes: Seq<WorkspaceNodeView>, input: InputPortView) -> bool {
    match node_with_id(nodes, input.source_workspace) {
        Some(src) => !has_output_named(src.outputs, input.source_output),
        None => true,
    }
}

/// The violation reported for a disconnected input of `workspace`.
pub open spec fn disconnected_violation(workspace: Seq<char>, input: InputPortView) -> ViolationView {
    ViolationView::DisconnectedInput {
        workspace,
        input: input.name,
        source_workspace: input.source_workspace,
        source_output: input.source_output,
    }
}

/// One `DisconnectedInput` for each disconnected input among `inputs`, in order.
pub open spec fn disconnected_inputs(
    nodes: Seq<WorkspaceNodeView>,
    workspace: Seq<char>,
    inputs: Seq<InputPortView>,
) -> Seq<ViolationView>
    decreases inputs.len(),
{
    if inputs.len() == 0 {
        seq![]
    } else {
        disconnected_inputs(nodes, workspace, inputs.drop_last()) + if is_disconnected(nodes, inputs.last()) {
            seq![disconnected_violation(workspace, inputs.last())]
        } else {
            seq![]
        }
    }
}

/// The connectivity violations of the workspaces in `scope`, looked up in `nodes`.
pub open spec fn connectivity_violations_of(
    nodes: Seq<WorkspaceNodeView>,
    scope: Seq<WorkspaceNodeView>,
) -> Seq<ViolationView>
    decreases scope.len(),
{
    if scope.len() == 0 {
        seq![]
    } else {
        connectivity_violations_of(nodes, scope.drop_last()) + disconnected_inputs(
            nodes,
            scope.last().id,
            scope.last().inputs,
        )
    }
}

/// The connectivity violations of a graph, workspace by workspace in order.
pub open spec fn connectivity_violations(nodes: Seq<WorkspaceNodeView>) -> Seq<ViolationView> {
    connectivity_violations_of(nodes, nodes)
}

fn has_output(outputs: &Vec<OutputPort>, name: &String) -> (r: bool)
    ensures
        r == has_output_named(outputs@.map_values(|o: OutputPort| o@), name@),
{
    assert(outputs@.take(outputs@.len() as int) =~= outputs@);
    output_name_seen(outputs, outputs.len(), name)
}

/// Every required input has a providing output in the source workspace.
pub fn verify_connectivity(graph: &WorkspaceGraph) -> (r: Vec<GraphViolation>)
    ensures
        violations_view(r@) == connectivity_violations(graph@.nodes),
{
    let nodes = graph.nodes.values();
    let ghost all = graph@.nodes;
    let mut violations: Vec<GraphViolation> = Vec::new();
    let mut i: usize = 0;
    while i < nodes.len()
        invariant
            i <= nodes@.len(),
            all == graph@.nodes,
            nodes@.map_values(|n: WorkspaceNode| n@) == all,
            violations_view(violations@) == connectivity_violations_of(all, all.take(i as int)),
        decreases nodes@.len() - i,
    {
        let node = &nodes[i];
        assert(node@ == all[i as int]);
        let ghost ins = node@.inputs;
        let ghost before = violations_view(violations@);
        let mut j: usize = 0;
        while j < node.inputs.len()
            invariant
                j <= node.inputs@.len(),
                all == graph@.nodes,
                ins == node.inputs@.map_values(|x: InputPort| x@),
                violations_view(violations@) == before + disconnected_inputs(all, node@.id, ins.take(j as int)),
            decreases node.inputs@.len() - j,
        {
            let input = &node.inputs[j];
            assert(input@ == ins[j as int]);
            let output_exists = match graph.nodes.get(&input.source_workspace) {
                Some(src) => has_output(&src.outputs, &input.source_output),
                None => false,
            };
            assert(output_exists == !is_disconnected(all, ins[j as int]));
            let ghost prev = violations@;
            proof {
                assert(ins.take(j + 1).drop_last() =~= ins.take(j as int));
                assert(ins.take(j + 1).last() == ins[j as int]);
            }
            if !output_exists {
                let v = GraphViolation::DisconnectedInput {
                    workspace: node.id.0.clone(),
                    input: input.name.clone(),
                    source_workspace: input.source_workspace.0.clone(),
                    source_output: input.source_output.clone(),
                };
                assert(v@ == disconnected_violation(node@.id, ins[j as int]));
                violations.push(v);
                assert(violations_view(violations@) =~= violations_view(prev) + seq![v@]);
            }
            proof {
                assert(violations_view(violations@) =~= before + disconnected_inputs(all, node@.id, ins.take(j + 1)));
            }
            j = j + 1;
        }
        proof {
            assert(ins.take(j as int) =~= ins);
            assert(all.take(i + 1).drop_last() =~= all.take(i as int));
        }
        i = i + 1;
    }
    assert(all.take(i as int) =~= all);
    violations
}

// ---------------------------------------------------------------------------
// Compatibility
// ---------------------------------------------------------------------------

/// `k` is the position of the first output of `outputs` named `name`.
pub open spec fn is_first_named(outputs: Seq<OutputPortView>, name: Seq<char>, k: int) -> bool {
    &&& 0 <= k < outputs.len()
    &&& outputs[k].name == name
    &&& forall|j: int| 0 <= j < k ==> outputs[j].name != name
}

/// The first output of `outputs` named `name`, if there is one.
pub open spec fn first_output_named(outputs: Seq<OutputPortView>, name: Seq<char>) -> Option<OutputPortView> {
    if exists|k: int| is_first_named(outputs, name, k) {
        Some(outputs[choose|k: int| is_first_named(outputs, name, k)])
    } else {
        None
    }
}

/// The type mismatch of an input of `workspace`, if its source output (the first of
/// that name in the source workspace) has a type that does not match the input's.
pub open spec fn mismatch_of(
    nodes: Seq<WorkspaceNodeView>,
    workspace: Seq<char>,
    input: InputPortView,
) -> Option<ViolationView> {
    match node_with_id(nodes, input.source_workspace) {
        Some(src) => match first_output_named(src.outputs, input.source_output) {
            Some(out) => if types_match(out.field_type, input.field_type) {
                None
            } else {
                Some(
                    ViolationView::TypeMismatch {
                        from_workspace: input.source_workspace,
                        output: input.source_output,
                        output_type: out.field_type,
                        to_workspace: workspace,
                        input: input.name,
                        input_type: input.field_type,
                    },
                )
            },
            None => None,
        },
        None => None,
    }
}

/// The type mismatches among `inputs`, in order.
pub open spec fn mismatched_inputs(
    nodes: Seq<WorkspaceNodeView>,
    workspace: Seq<char>,
    inputs: Seq<InputPortView>,
) -> Seq<ViolationView>
    decreases inputs.len(),
{
    if inputs.len() == 0 {
        seq![]
    } else {
        mismatched_inputs(nodes, workspace, inputs.drop_last()) + match mismatch_of(
            nodes,
            workspace,
            inputs.last(),
        ) {
            Some(v) => seq![v],
            None => seq![],
        }
    }
}

/// The compatibility violations of the workspaces in `scope`, looked up in `nodes`.
pub open spec fn compatibility_violations_of(
    nodes: Seq<WorkspaceNodeView>,
    scope: Seq<WorkspaceNodeView>,
) -> Seq<ViolationView>
    decreases scope.len(),
{
    if scope.len() == 0 {
        seq![]
    } else {
        compatibility_violations_of(nodes, scope.drop_last()) + mismatched_inputs(
            nodes,
            scope.last().id,
            scope.last().inputs,
        )
    }
}

/// The compatibility violations of a graph, workspace by workspace in order.
pub open spec fn compatibility_violations(nodes: Seq<WorkspaceNodeView>) -> Seq<ViolationView> {
    compatibility_violations_of(nodes, nodes)
}

fn find_output<'a>(outputs: &'a Vec<OutputPort>, name: &String) -> (r: Option<&'a OutputPort>)
    ensures
        r matches Some(o) ==> first_output_named(outputs@.map_values(|x: OutputPort| x@), name@) == Some(o@),
        r is None ==> first_output_named(outputs@.map_values(|x: OutputPort| x@), name@) is None,
{
    let ghost outs = outputs@.map_values(|x: OutputPort| x@);
    let mut k: usize = 0;
    while k < outputs.len()
        invariant
            k <= outputs@.len(),
            outs == outputs@.map_values(|x: OutputPort| x@),
            forall|j: int| 0 <= j < k ==> outs[j].name != name@,
        decreases outputs@.len() - k,
    {
        if outputs[k].name == *name {
            proof {
                assert(is_first_named(outs, name@, k as int));
                let c = choose|c: int| is_first_named(outs, name@, c);
                if c < k {
                } else if c > k {
                    assert(outs[k as int].name == name@);
                }
            }
            return Some(&outputs[k]);
        }
        k = k + 1;
    }
    None
}

/// Output type matches input type for every edge.
pub fn verify_compatibility(graph: &WorkspaceGraph) -> (r: Vec<GraphViolation>)
    ensures
        violations_view(r@) == compatibility_violations(graph@.nodes),
{
    let nodes = graph.nodes.values();
    let ghost all = graph@.nodes;
    let mut violations: Vec<GraphViolation> = Vec::new();
    let mut i: usize = 0;
    while i < nodes.len()
        invariant
            i <= nodes@.len(),
            all == graph@.nodes,
            nodes@.map_values(|n: WorkspaceNode| n@) == all,
            violations_view(violations@) == compatibility_violations_of(all, all.take(i as int)),
        decreases nodes@.len() - i,
    {
        let node = &nodes[i];
        assert(node@ == all[i as int]);
        let ghost ins = node@.inputs;
        let ghost before = violations_view(violations@);
        let mut j: usize = 0;
        while j < node.inputs.len()
            invariant
                j <= node.inputs@.len(),
                all == graph@.nodes,
                ins == node.inputs@.map_values(|x: InputPort| x@),
                violations_view(violations@) == before + mismatched_inputs(all, node@.id, ins.take(j as int)),
            decreases node.inputs@.len() - j,
        {
            let input = &node.inputs[j];
            assert(input@ == ins[j as int]);
            let ghost prev = violations@;
            proof {
                assert(ins.take(j + 1).drop_last() =~= ins.take(j as int));
                assert(ins.take(j + 1).last() == ins[j as int]);
            }
            let mut found: Option<GraphViolation> = None;
            if let Some(source_node) = graph.nodes.get(&input.source_workspace) {
                if let Some(output) = find_output(&source_node.outputs, &input.source_output) {
                    if !field_types_equal(&output.field_type, &input.field_type) {
                        found = Some(GraphViolation::TypeMismatch {
                            from_workspace: input.source_workspace.0.clone(),
                            output: input.source_output.clone(),
                            output_type: clone_field_type(&output.field_type),
                            to_workspace: node.id.0.clone(),
                            input: input.name.clone(),
                            input_type: clone_field_type(&input.field_type),
                        });
                    }
                }
            }
            match found {
                Some(v) => {
                    assert(mismatch_of(all, node@.id, ins[j as int]) == Some(v@));
                    violations.push(v);
                    assert(violations_view(violations@) =~= violations_view(prev) + seq![v@]);
                },
                None => {
                    assert(mismatch_of(all, node@.id, ins[j as int]) is None);
                },
            }
            proof {
                assert(violations_view(violations@) =~= before + mismatched_inputs(all, node@.id, ins.take(j + 1)));
            }
            j = j + 1;
        }
        proof {
            assert(ins.take(j as int) =~= ins);
            assert(all.take(i + 1).drop_last() =~= all.take(i as int));
        }
        i = i + 1;
    }
    assert(all.take(i as int) =~= all);
    violations
}

// ---------------------------------------------------------------------------
// Ordering
// ---------------------------------------------------------------------------

/// No violation when the dependency graph is acyclic; otherwise one
/// `CyclicDependency` naming, in increasing order, every workspace that lies on a
/// cycle or depends on one.
pub open spec fn ordering_violations(nodes: Seq<WorkspaceNodeView>) -> Seq<ViolationView> {
    if acyclic(nodes) {
        seq![]
    } else {
        seq![ViolationView::CyclicDependency { workspaces: blocked_ids(nodes) }]
    }
}

/// No cycles in the dependency graph (topological sort must exist).
pub fn verify_ordering(graph: &WorkspaceGraph) -> (r: Vec<GraphViolation>)
    ensures
        violations_view(r@) == ordering_violations(graph@.nodes),
{
    let order = topological_positions(graph);
    if order.len() == graph.nodes.len() {
        let r: Vec<GraphViolation> = Vec::new();
        assert(violations_view(r@) =~= ordering_violations(graph@.nodes));
        r
    } else {
        let members = untaken_ids(graph, &order);
        let v = GraphViolation::CyclicDependency { workspaces: members };
        let r = vec![v];
        assert(violations_view(r@) =~= ordering_violations(graph@.nodes));
        r
    }
}

// ---------------------------------------------------------------------------
// All together
// ---------------------------------------------------------------------------

/// Every violation of a graph: uniqueness, then connectivity, compatibility and
/// ordering.
pub open spec fn all_violations(nodes: Seq<WorkspaceNodeView>) -> Seq<ViolationView> {
    uniqueness_violations(nodes) + connectivity_violations(nodes) + compatibility_violations(nodes)
        + ordering_violations(nodes)
}

/// Verify all graph invariants.
///
/// Returns `Ok(())` if every invariant holds, or `Err` with all violations.
pub fn verify_graph(graph: &WorkspaceGraph) -> (r: Result<(), Vec<GraphViolation>>)
    ensures
        r is Ok <==> all_violations(graph@.nodes).len() == 0,
        r matches Err(v) ==> violations_view(v@) == all_violations(graph@.nodes),
{
    let mut violations: Vec<GraphViolation> = Vec::new();
    let mut a = verify_uniqueness(graph);
    let mut b = verify_connectivity(graph);
    let mut c = verify_compatibility(graph);
    let mut d = verify_ordering(graph);
    let ghost (va, vb, vc, vd) = (a@, b@, c@, d@);
    violations.append(&mut a);
    violations.append(&mut b);
    violations.append(&mut c);
    violations.append(&mut d);
    assert(violations@ =~= va + vb + vc + vd);
    assert(violations_view(violations@) =~= violations_view(va) + violations_view(vb) + violations_view(vc)
        + violations_view(vd));
    if violations.len() == 0 {
        Ok(())
    } else {
        Err(violations)
    }
}

// ---------------------------------------------------------------------------
// What the checks prove
// ---------------------------------------------------------------------------

/// No two outputs of one workspace share a name.
pub open spec fn outputs_unique(nodes: Seq<WorkspaceNodeView>) -> bool {
    forall|i: int, a: int, b: int|
        0 <= i < nodes.len() && 0 <= a < b < nodes[i].outputs.len() ==> #[trigger] nodes[i].outputs[a].name
            != #[trigger] nodes[i].outputs[b].name
}

/// Every input of every workspace has a providing output in its source workspace.
pub open spec fn inputs_connected(nodes: Seq<WorkspaceNodeView>) -> bool {
    forall|j: int, k: int|
        0 <= j < nodes.len() && 0 <= k < nodes[j].inputs.len() ==> !is_disconnected(nodes, #[trigger] nodes[j].inputs[k])
}

/// The input agrees in type with the output that provides it (the first of that
/// name in its source workspace), where there is one.
pub open spec fn is_compatible(nodes: Seq<WorkspaceNodeView>, input: InputPortView) -> bool {
    match node_with_id(nodes, input.source_workspace) {
        Some(src) => match first_output_named(src.outputs, input.source_output) {
            Some(out) => types_match(out.field_type, input.field_type),
            None => true,
        },
        None => true,
    }
}

/// Every input of every workspace agrees in type with its providing output.
pub open spec fn inputs_compatible(nodes: Seq<WorkspaceNodeView>) -> bool {
    forall|j: int, k: int|
        0 <= j < nodes.len() && 0 <= k < nodes[j].inputs.len() ==> is_compatible(nodes, #[trigger] nodes[j].inputs[k])
}

proof fn lemma_duplicate_outputs_empty(workspace: Seq<char>, outputs: Seq<OutputPortView>)
    ensures
        duplicate_outputs(workspace, outputs).len() == 0 <==> forall|a: int, b: int|
            0 <= a < b < outputs.len() ==> #[trigger] outputs[a].name != #[trigger] outputs[b].name,
    decreases outputs.len(),
{
    if outputs.len() > 0 {
        let prior = outputs.drop_last();
        lemma_duplicate_outputs_empty(workspace, prior);
        if duplicate_outputs(workspace, outputs).len() == 0 {
            assert forall|a: int, b: int| 0 <= a < b < outputs.len() implies #[trigger] outputs[a].name
                != #[trigger] outputs[b].name by {
                if b < outputs.len() - 1 {
                    assert(prior[a] == outputs[a] && prior[b] == outputs[b]);
                } else if outputs[a].name == outputs[b].name {
                    assert(prior[a] == outputs[a]);
                    assert(has_output_named(prior, outputs.last().name));
                }
            }
        } else if forall|a: int, b: int| 0 <= a < b < outputs.len() ==> #[trigger] outputs[a].name
            != #[trigger] outputs[b].name {
            assert forall|a: int, b: int| 0 <= a < b < prior.len() implies #[trigger] prior[a].name
                != #[trigger] prior[b].name by {
                assert(prior[a] == outputs[a] && prior[b] == outputs[b]);
            }
            if has_output_named(prior, outputs.last().name) {
                let a = choose|a: int| 0 <= a < prior.len() && prior[a].name == outputs.last().name;
                assert(outputs[a] == prior[a]);
                assert(outputs[a].name != outputs[outputs.len() - 1].name);
            }
        }
    }
}

proof fn lemma_uniqueness_empty(nodes: Seq<WorkspaceNodeView>)
    ensures
        uniqueness_violations(nodes).len() == 0 <==> outputs_unique(nodes),
    decreases nodes.len(),
{
    if nodes.len() > 0 {
        let prior = nodes.drop_last();
        let last = nodes.last();
        lemma_uniqueness_empty(prior);
        lemma_duplicate_outputs_empty(last.id, last.outputs);
        if uniqueness_violations(nodes).len() == 0 {
            assert forall|i: int, a: int, b: int|
                0 <= i < nodes.len() && 0 <= a < b < nodes[i].outputs.len() implies #[trigger] nodes[i].outputs[a].name
                    != #[trigger] nodes[i].outputs[b].name by {
                if i < nodes.len() - 1 {
                    assert(prior[i] == nodes[i]);
                    assert(prior[i].outputs[a] == nodes[i].outputs[a]);
                    assert(prior[i].outputs[b] == nodes[i].outputs[b]);
                } else {
                    assert(last.outputs[a] == nodes[i].outputs[a]);
                    assert(last.outputs[b] == nodes[i].outputs[b]);
                }
            }
        } else if outputs_unique(nodes) {
            assert forall|i: int, a: int, b: int|
                0 <= i < prior.len() && 0 <= a < b < prior[i].outputs.len() implies #[trigger] prior[i].outputs[a].name
                    != #[trigger] prior[i].outputs[b].name by {
                assert(prior[i] == nodes[i]);
                assert(nodes[i].outputs[a].name != nodes[i].outputs[b].name);
            }
            assert forall|a: int, b: int| 0 <= a < b < last.outputs.len() implies #[trigger] last.outputs[a].name
                != #[trigger] last.outputs[b].name by {
                assert(nodes[nodes.len() - 1].outputs[a].name != nodes[nodes.len() - 1].outputs[b].name);
            }
        }
    }
}

proof fn lemma_disconnected_inputs_empty(nodes: Seq<WorkspaceNodeView>, workspace: Seq<char>, inputs: Seq<InputPortView>)
    ensures
        disconnected_inputs(nodes, workspace, inputs).len() == 0 <==> forall|k: int|
            0 <= k < inputs.len() ==> !is_disconnected(nodes, #[trigger] inputs[k]),
    decreases inputs.len(),
{
    if inputs.len() > 0 {
        let prior = inputs.drop_last();
        lemma_disconnected_inputs_empty(nodes, workspace, prior);
        if disconnected_inputs(nodes, workspace, inputs).len() == 0 {
            assert forall|k: int| 0 <= k < inputs.len() implies !is_disconnected(nodes, #[trigger] inputs[k]) by {
                if k < inputs.len() - 1 {
                    assert(prior[k] == inputs[k]);
                }
            }
        } else if forall|k: int| 0 <= k < inputs.len() ==> !is_disconnected(nodes, #[trigger] inputs[k]) {
            assert forall|k: int| 0 <= k < prior.len() implies !is_disconnected(nodes, #[trigger] prior[k]) by {
                assert(prior[k] == inputs[k]);
            }
            assert(!is_disconnected(nodes, inputs[inputs.len() - 1]));
        }
    }
}

proof fn lemma_connectivity_empty(nodes: Seq<WorkspaceNodeView>, scope: Seq<WorkspaceNodeView>)
    ensures
        connectivity_violations_of(nodes, scope).len() == 0 <==> forall|j: int, k: int|
            0 <= j < scope.len() && 0 <= k < scope[j].inputs.len() ==> !is_disconnected(
                nodes,
                #[trigger] scope[j].inputs[k],
            ),
    decreases scope.len(),
{
    if scope.len() > 0 {
        let prior = scope.drop_last();
        let last = scope.last();
        lemma_connectivity_empty(nodes, prior);
        lemma_disconnected_inputs_empty(nodes, last.id, last.inputs);
        if connectivity_violations_of(nodes, scope).len() == 0 {
            assert forall|j: int, k: int| 0 <= j < scope.len() && 0 <= k < scope[j].inputs.len() implies !is_disconnected(
                nodes,
                #[trigger] scope[j].inputs[k],
            ) by {
                if j < scope.len() - 1 {
                    assert(prior[j] == scope[j]);
                    assert(prior[j].inputs[k] == scope[j].inputs[k]);
                } else {
                    assert(last.inputs[k] == scope[j].inputs[k]);
                }
            }
        } else if forall|j: int, k: int| 0 <= j < scope.len() && 0 <= k < scope[j].inputs.len() ==> !is_disconnected(
            nodes,
            #[trigger] scope[j].inputs[k],
        ) {
            assert forall|j: int, k: int| 0 <= j < prior.len() && 0 <= k < prior[j].inputs.len() implies !is_disconnected(
                nodes,
                #[trigger] prior[j].inputs[k],
            ) by {
                assert(prior[j] == scope[j]);
                assert(!is_disconnected(nodes, scope[j].inputs[k]));
            }
            assert forall|k: int| 0 <= k < last.inputs.len() implies !is_disconnected(nodes, #[trigger] last.inputs[k]) by {
                assert(!is_disconnected(nodes, scope[scope.len() - 1].inputs[k]));
            }
        }
    }
}

proof fn lemma_mismatched_inputs_empty(nodes: Seq<WorkspaceNodeView>, workspace: Seq<char>, inputs: Seq<InputPortView>)
    ensures
        mismatched_inputs(nodes, workspace, inputs).len() == 0 <==> forall|k: int|
            0 <= k < inputs.len() ==> is_compatible(nodes, #[trigger] inputs[k]),
    decreases inputs.len(),
{
    if inputs.len() > 0 {
        let prior = inputs.drop_last();
        lemma_mismatched_inputs_empty(nodes, workspace, prior);
        assert forall|k: int| 0 <= k < inputs.len() implies (mismatch_of(nodes, workspace, #[trigger] inputs[k]) is None
            <==> is_compatible(nodes, inputs[k])) by {}
        if mismatched_inputs(nodes, workspace, inputs).len() == 0 {
            assert forall|k: int| 0 <= k < inputs.len() implies is_compatible(nodes, #[trigger] inputs[k]) by {
                if k < inputs.len() - 1 {
                    assert(prior[k] == inputs[k]);
                }
            }
        } else if forall|k: int| 0 <= k < inputs.len() ==> is_compatible(nodes, #[trigger] inputs[k]) {
            assert forall|k: int| 0 <= k < prior.len() implies is_compatible(nodes, #[trigger] prior[k]) by {
                assert(prior[k] == inputs[k]);
            }
            assert(is_compatible(nodes, inputs[inputs.len() - 1]));
        }
    }
}

proof fn lemma_compatibility_empty(nodes: Seq<WorkspaceNodeView>, scope: Seq<WorkspaceNodeView>)
    ensures
        compatibility_violations_of(nodes, scope).len() == 0 <==> forall|j: int, k: int|
            0 <= j < scope.len() && 0 <= k < scope[j].inputs.len() ==> is_compatible(
                nodes,
                #[trigger] scope[j].inputs[k],
            ),
    decreases scope.len(),
{
    if scope.len() > 0 {
        let prior = scope.drop_last();
        let last = scope.last();
        lemma_compatibility_empty(nodes, prior);
        lemma_mismatched_inputs_empty(nodes, last.id, last.inputs);
        if compatibility_violations_of(nodes, scope).len() == 0 {
            assert forall|j: int, k: int| 0 <= j < scope.len() && 0 <= k < scope[j].inputs.len() implies is_compatible(
                nodes,
                #[trigger] scope[j].inputs[k],
            ) by {
                if j < scope.len() - 1 {
                    assert(prior[j] == scope[j]);
                    assert(prior[j].inputs[k] == scope[j].inputs[k]);
                } else {
                    assert(last.inputs[k] == scope[j].inputs[k]);
                }
            }
        } else if forall|j: int, k: int| 0 <= j < scope.len() && 0 <= k < scope[j].inputs.len() ==> is_compatible(
            nodes,
            #[trigger] scope[j].inputs[k],
        ) {
            assert forall|j: int, k: int| 0 <= j < prior.len() && 0 <= k < prior[j].inputs.len() implies is_compatible(
                nodes,
                #[trigger] prior[j].inputs[k],
            ) by {
                assert(prior[j] == scope[j]);
                assert(is_compatible(nodes, scope[j].inputs[k]));
            }
            assert forall|k: int| 0 <= k < last.inputs.len() implies is_compatible(nodes, #[trigger] last.inputs[k]) by {
                assert(is_compatible(nodes, scope[scope.len() - 1].inputs[k]));
            }
        }
    }
}

/// `verify_uniqueness` reports nothing exactly when no workspace has two outputs
/// of the same name.
pub proof fn lemma_uniqueness_proves(g: GraphView)
    ensures
        uniqueness_violations(g.nodes).len() == 0 <==> outputs_unique(g.nodes),
{
    lemma_uniqueness_empty(g.nodes);
}

/// `verify_connectivity` reports nothing exactly when every input has a providing
/// output in its source workspace.
pub proof fn lemma_connectivity_proves(g: GraphView)
    ensures
        connectivity_violations(g.nodes).len() == 0 <==> inputs_connected(g.nodes),
{
    lemma_connectivity_empty(g.nodes, g.nodes);
}

/// `verify_compatibility` reports nothing exactly when every input agrees in type
/// with the output that provides it.
pub proof fn lemma_compatibility_proves(g: GraphView)
    ensures
        compatibility_violations(g.nodes).len() == 0 <==> inputs_compatible(g.nodes),
{
    lemma_compatibility_empty(g.nodes, g.nodes);
}

/// `verify_ordering` reports nothing exactly when the dependency graph has no cycle,
/// which is exactly when `deployment_order` succeeds.
pub proof fn lemma_ordering_proves(g: GraphView)
    ensures
        ordering_violations(g.nodes).len() == 0 <==> acyclic(g.nodes),
{
}

/// `verify_graph` passes exactly when all four invariants hold: output names are
/// unique per workspace, every input is connected, every connected input agrees in
/// type, and there is no cycle. In particular a verified graph always has a
/// deployment order.
pub proof fn lemma_verified_graph(g: GraphView)
    ensures
        all_violations(g.nodes).len() == 0 <==> {
            &&& outputs_unique(g.nodes)
            &&& inputs_connected(g.nodes)
            &&& inputs_compatible(g.nodes)
            &&& acyclic(g.nodes)
        },
{
    lemma_uniqueness_proves(g);
    lemma_connectivity_proves(g);
    lemma_compatibility_proves(g);
}

proof fn lemma_duplicate_outputs_kind(workspace: Seq<char>, outputs: Seq<OutputPortView>)
    ensures
        forall|k: int| 0 <= k < duplicate_outputs(workspace, outputs).len() ==> #[trigger] duplicate_outputs(workspace, outputs)[k] is DuplicateOutput,
    decreases outputs.len(),
{
    if outputs.len() > 0 {
        lemma_duplicate_outputs_kind(workspace, outputs.drop_last());
    }
}

proof fn lemma_uniqueness_kind(nodes: Seq<WorkspaceNodeView>)
    ensures
        forall|k: int| 0 <= k < uniqueness_violations(nodes).len() ==> #[trigger] uniqueness_violations(nodes)[k] is DuplicateOutput,
    decreases nodes.len(),
{
    if nodes.len() > 0 {
        lemma_uniqueness_kind(nodes.drop_last());
        lemma_duplicate_outputs_kind(nodes.last().id, nodes.last().outputs);
        let a = uniqueness_violations(nodes.drop_last());
        let b = duplicate_outputs(nodes.last().id, nodes.last().outputs);
        assert forall|k: int| 0 <= k < (a + b).len() implies #[trigger] (a + b)[k] is DuplicateOutput by {
            if k >= a.len() {
                assert((a + b)[k] == b[k - a.len()]);
            }
        }
    }
}

proof fn lemma_disconnected_inputs_kind(nodes: Seq<WorkspaceNodeView>, workspace: Seq<char>, inputs: Seq<InputPortView>)
    ensures
        forall|k: int| 0 <= k < disconnected_inputs(nodes, workspace, inputs).len() ==> #[trigger] disconnected_inputs(
            nodes,
            workspace,
            inputs,
        )[k] is DisconnectedInput,
    decreases inputs.len(),
{
    if inputs.len() > 0 {
        lemma_disconnected_inputs_kind(nodes, workspace, inputs.drop_last());
    }
}

proof fn lemma_connectivity_kind(nodes: Seq<WorkspaceNodeView>, scope: Seq<WorkspaceNodeView>)
    ensures
        forall|k: int| 0 <= k < connectivity_violations_of(nodes, scope).len() ==> #[trigger] connectivity_violations_of(
            nodes,
            scope,
        )[k] is DisconnectedInput,
    decreases scope.len(),
{
    if scope.len() > 0 {
        lemma_connectivity_kind(nodes, scope.drop_last());
        lemma_disconnected_inputs_kind(nodes, scope.last().id, scope.last().inputs);
        let a = connectivity_violations_of(nodes, scope.drop_last());
        let b = disconnected_inputs(nodes, scope.last().id, scope.last().inputs);
        assert forall|k: int| 0 <= k < (a + b).len() implies #[trigger] (a + b)[k] is DisconnectedInput by {
            if k >= a.len() {
                assert((a + b)[k] == b[k - a.len()]);
            }
        }
    }
}

proof fn lemma_mismatched_inputs_kind(nodes: Seq<WorkspaceNodeView>, workspace: Seq<char>, inputs: Seq<InputPortView>)
    ensures
        forall|k: int| 0 <= k < mismatched_inputs(nodes, workspace, inputs).len() ==> #[trigger] mismatched_inputs(
            nodes,
            workspace,
            inputs,
        )[k] is TypeMismatch,
    decreases inputs.len(),
{
    if inputs.len() > 0 {
        lemma_mismatched_inputs_kind(nodes, workspace, inputs.drop_last());
    }
}

proof fn lemma_compatibility_kind(nodes: Seq<WorkspaceNodeView>, scope: Seq<WorkspaceNodeView>)
    ensures
        forall|k: int| 0 <= k < compatibility_violations_of(nodes, scope).len() ==> #[trigger] compatibility_violations_of(
            nodes,
            scope,
        )[k] is TypeMismatch,
    decreases scope.len(),
{
    if scope.len() > 0 {
        lemma_compatibility_kind(nodes, scope.drop_last());
        lemma_mismatched_inputs_kind(nodes, scope.last().id, scope.last().inputs);
        let a = compatibility_violations_of(nodes, scope.drop_last());
        let b = mismatched_inputs(nodes, scope.last().id, scope.last().inputs);
        assert forall|k: int| 0 <= k < (a + b).len() implies #[trigger] (a + b)[k] is TypeMismatch by {
            if k >= a.len() {
                assert((a + b)[k] == b[k - a.len()]);
            }
        }
    }
}

/// Each check reports only its own kind of violation: `verify_uniqueness` only
/// `DuplicateOutput`, `verify_connectivity` only `DisconnectedInput`,
/// `verify_compatibility` only `TypeMismatch`, `verify_ordering` only
/// `CyclicDependency`; no check reports `OrphanWorkspace`.
pub proof fn lemma_violation_kinds(g: GraphView)
    ensures
        forall|k: int| 0 <= k < uniqueness_violations(g.nodes).len() ==> #[trigger] uniqueness_violations(g.nodes)[k] is DuplicateOutput,
        forall|k: int| 0 <= k < connectivity_violations(g.nodes).len() ==> #[trigger] connectivity_violations(g.nodes)[k] is DisconnectedInput,
        forall|k: int| 0 <= k < compatibility_violations(g.nodes).len() ==> #[trigger] compatibility_violations(g.nodes)[k] is TypeMismatch,
        forall|k: int| 0 <= k < ordering_violations(g.nodes).len() ==> #[trigger] ordering_violations(g.nodes)[k] is CyclicDependency,
        forall|k: int| 0 <= k < all_violations(g.nodes).len() ==> !(#[trigger] all_violations(g.nodes)[k] is OrphanWorkspace),
{
    lemma_uniqueness_kind(g.nodes);
    lemma_connectivity_kind(g.nodes, g.nodes);
    lemma_compatibility_kind(g.nodes, g.nodes);
    let a = uniqueness_violations(g.nodes);
    let b = connectivity_violations(g.nodes);
    let c = compatibility_violations(g.nodes);
    let d = ordering_violations(g.nodes);
    assert forall|k: int| 0 <= k < all_violations(g.nodes).len() implies !(#[trigger] all_violations(g.nodes)[k] is OrphanWorkspace) by {
        let all = a + b + c + d;
        if k < a.len() {
            assert(all[k] == a[k]);
        } else if k < a.len() + b.len() {
            assert(all[k] == b[k - a.len()]);
        } else if k < a.len() + b.len() + c.len() {
            assert(all[k] == c[k - a.len() - b.len()]);
        } else {
            assert(all[k] == d[k - a.len() - b.len() - c.len()]);
        }
    }
}

/// The workspaces with `o` added, last, to the outputs of workspace `j`.
pub open spec fn with_output(nodes: Seq<WorkspaceNodeView>, j: int, o: OutputPortView) -> Seq<WorkspaceNodeView> {
    nodes.update(j, WorkspaceNodeView { outputs: nodes[j].outputs.push(o), ..nodes[j] })
}

/// At most one position is the first of a name.
proof fn lemma_first_named_unique(outputs: Seq<OutputPortView>, name: Seq<char>, a: int, b: int)
    requires
        is_first_named(outputs, name, a),
        is_first_named(outputs, name, b),
    ensures
        a == b,
{
}

/// A name that some output has has a first output.
proof fn lemma_first_named_exists(outputs: Seq<OutputPortView>, name: Seq<char>)
    requires
        has_output_named(outputs, name),
    ensures
        exists|k: int| is_first_named(outputs, name, k),
    decreases outputs.len(),
{
    let prior = outputs.drop_last();
    if has_output_named(prior, name) {
        lemma_first_named_exists(prior, name);
        let k = choose|k: int| is_first_named(prior, name, k);
        assert forall|u: int| 0 <= u < k implies outputs[u].name != name by {
            assert(prior[u] == outputs[u]);
        }
        assert(is_first_named(outputs, name, k));
    } else {
        let t = choose|t: int| 0 <= t < outputs.len() && outputs[t].name == name;
        if t < outputs.len() - 1 {
            assert(prior[t] == outputs[t]);
        }
        assert forall|u: int| 0 <= u < outputs.len() - 1 implies outputs[u].name != name by {
            assert(prior[u] == outputs[u]);
        }
        assert(is_first_named(outputs, name, outputs.len() - 1));
    }
}

/// Adding an output of another name changes no first output of a name already present.
proof fn lemma_first_named_after_push(outputs: Seq<OutputPortView>, o: OutputPortView, name: Seq<char>)
    requires
        has_output_named(outputs, name),
        o.name != name,
    ensures
        has_output_named(outputs.push(o), name),
        first_output_named(outputs.push(o), name) == first_output_named(outputs, name),
{
    let grown = outputs.push(o);
    lemma_first_named_exists(outputs, name);
    let k0 = choose|k: int| is_first_named(outputs, name, k);
    assert(grown[k0] == outputs[k0]);
    assert forall|u: int| 0 <= u < k0 implies grown[u].name != name by {
        assert(grown[u] == outputs[u]);
    }
    assert(is_first_named(grown, name, k0));
    let k1 = choose|k: int| is_first_named(grown, name, k);
    lemma_first_named_unique(grown, name, k0, k1);
}

/// Workspaces with the same dependencies, or fewer, have no more cycles.
#[verifier::spinoff_prover]
proof fn lemma_fewer_dependencies_acyclic(nodes: Seq<WorkspaceNodeView>, fewer: Seq<WorkspaceNodeView>)
    requires
        acyclic(nodes),
        fewer.len() == nodes.len(),
        forall|a: int, b: int| #[trigger] depends(fewer, a, b) ==> depends(nodes, a, b),
    ensures
        acyclic(fewer),
{
    assert forall|x: int| 0 <= x < fewer.len() implies !#[trigger] blocked(fewer, x) by {
        if blocked(fewer, x) {
            let set = choose|set: Set<int>| self_supporting(fewer, set) && set.contains(x);
            assert forall|w: int| #[trigger] set.contains(w) implies 0 <= w < nodes.len() && depends_on_member(
                nodes,
                set,
                w,
            ) by {
                assert(depends_on_member(fewer, set, w));
                reveal(depends_on_member);
                let p = choose|p: int| set.contains(p) && depends(fewer, p, w);
                assert(depends(nodes, p, w));
            }
            assert(self_supporting(nodes, set));
            assert(!blocked(nodes, x));
        }
    }
}

/// Adding an output under a fresh name to a workspace of a verified graph keeps it
/// verified.
pub proof fn lemma_fresh_output_keeps_verified(g: GraphView, j: int, o: OutputPortView)
    requires
        g.well_ordered(),
        0 <= j < g.nodes.len(),
        all_violations(g.nodes).len() == 0,
        !has_output_named(g.nodes[j].outputs, o.name),
    ensures
        all_violations(with_output(g.nodes, j, o)).len() == 0,
{
    let nodes = g.nodes;
    let n2 = with_output(nodes, j, o);
    let g2 = GraphView { nodes: n2, edges: g.edges };
    lemma_verified_graph(g);
    lemma_verified_graph(g2);
    assert(node_ids(n2) =~= node_ids(nodes)) by {
        assert forall|i: int| 0 <= i < n2.len() implies #[trigger] node_ids(n2)[i] == node_ids(nodes)[i] by {}
    }
    assert forall|id: Seq<char>| #[trigger] position_of(n2, id) == position_of(nodes, id) by {
        if exists|i: int| 0 <= i < nodes.len() && nodes[i].id == id {
            let i = choose|i: int| 0 <= i < nodes.len() && nodes[i].id == id;
            lemma_position_sorted(nodes, i);
            lemma_position_sorted(n2, i);
        } else {
            assert forall|i: int| 0 <= i < n2.len() implies n2[i].id != id by {
                assert(n2[i].id == nodes[i].id);
            }
        }
    }
    assert(outputs_unique(n2)) by {
        assert forall|i: int, a: int, b: int|
            0 <= i < n2.len() && 0 <= a < b < n2[i].outputs.len() implies #[trigger] n2[i].outputs[a].name
                != #[trigger] n2[i].outputs[b].name by {
            if i != j {
                assert(n2[i] == nodes[i]);
                assert(nodes[i].outputs[a].name != nodes[i].outputs[b].name);
            } else if b < nodes[j].outputs.len() {
                assert(nodes[j].outputs[a].name != nodes[j].outputs[b].name);
            } else {
                assert(nodes[j].outputs[a] == n2[i].outputs[a]);
            }
        }
    }
    assert forall|x: int, k: int| 0 <= x < n2.len() && 0 <= k < n2[x].inputs.len() implies !is_disconnected(
        n2,
        #[trigger] n2[x].inputs[k],
    ) && is_compatible(n2, n2[x].inputs[k]) by {
        let input = nodes[x].inputs[k];
        assert(n2[x].inputs[k] == input);
        assert(!is_disconnected(nodes, input));
        assert(is_compatible(nodes, input));
        assert(position_of(n2, input.source_workspace) == position_of(nodes, input.source_workspace));
        let i = position_of(nodes, input.source_workspace)->0;
        if i == j {
            assert(input.source_output != o.name);
            lemma_first_named_after_push(nodes[j].outputs, o, input.source_output);
        } else {
            assert(n2[i] == nodes[i]);
        }
    }
    assert forall|a: int, b: int| #[trigger] depends(n2, a, b) implies depends(nodes, a, b) by {
        let k = choose|k: int| 0 <= k < n2[b].inputs.len() && #[trigger] n2[b].inputs[k].source_workspace == n2[a].id;
        assert(nodes[b].inputs[k].source_workspace == nodes[a].id);
    }
    lemma_fewer_dependencies_acyclic(nodes, n2);
}


// ---------------------------------------------------------------------------
// What each check reports, in terms of the graph
// ---------------------------------------------------------------------------

/// Some workspace of `nodes` with identity `workspace` has an output named `output`.
pub open spec fn provided(nodes: Seq<WorkspaceNodeView>, workspace: Seq<char>, output: Seq<char>) -> bool {
    exists|i: int| 0 <= i < nodes.len() && #[trigger] nodes[i].id == workspace && has_output_named(nodes[i].outputs, output)
}

/// In workspaces kept in identity order, an input is disconnected exactly when no
/// workspace provides the output it reads.
proof fn lemma_disconnected_iff_unprovided(nodes: Seq<WorkspaceNodeView>, input: InputPortView)
    requires
        strictly_sorted(node_ids(nodes)),
    ensures
        is_disconnected(nodes, input) <==> !provided(nodes, input.source_workspace, input.source_output),
{
    if provided(nodes, input.source_workspace, input.source_output) {
        let i = choose|i: int|
            0 <= i < nodes.len() && #[trigger] nodes[i].id == input.source_workspace && has_output_named(
                nodes[i].outputs,
                input.source_output,
            );
        lemma_position_sorted(nodes, i);
    } else {
        if let Some(p) = position_of(nodes, input.source_workspace) {
            assert(0 <= p < nodes.len() && nodes[p].id == input.source_workspace);
        }
    }
}

proof fn lemma_disconnected_inputs_members(
    nodes: Seq<WorkspaceNodeView>,
    workspace: Seq<char>,
    inputs: Seq<InputPortView>,
)
    ensures
        forall|m: int|
            0 <= m < disconnected_inputs(nodes, workspace, inputs).len() ==> exists|k: int|
                #![trigger inputs[k]]
                0 <= k < inputs.len() && #[trigger] disconnected_inputs(nodes, workspace, inputs)[m] == disconnected_violation(
                    workspace,
                    inputs[k],
                ) && is_disconnected(nodes, inputs[k]),
        forall|k: int|
            0 <= k < inputs.len() && is_disconnected(nodes, #[trigger] inputs[k]) ==> disconnected_inputs(
                nodes,
                workspace,
                inputs,
            ).contains(disconnected_violation(workspace, inputs[k])),
    decreases inputs.len(),
{
    if inputs.len() > 0 {
        let prior = inputs.drop_last();
        lemma_disconnected_inputs_members(nodes, workspace, prior);
        let a = disconnected_inputs(nodes, workspace, prior);
        let d = disconnected_inputs(nodes, workspace, inputs);
        let last = inputs.len() - 1;
        assert(inputs[last] == inputs.last());
        assert forall|m: int| 0 <= m < d.len() implies exists|k: int|
            #![trigger inputs[k]]
            0 <= k < inputs.len() && #[trigger] d[m] == disconnected_violation(workspace, inputs[k]) && is_disconnected(
                nodes,
                inputs[k],
            ) by {
            if m < a.len() {
                assert(d[m] == a[m]);
                let k = choose|k: int|
                    #![trigger prior[k]]
                    0 <= k < prior.len() && a[m] == disconnected_violation(workspace, prior[k]) && is_disconnected(
                        nodes,
                        prior[k],
                    );
                assert(prior[k] == inputs[k]);
            } else {
                assert(d[m] == disconnected_violation(workspace, inputs[last]));
            }
        }
        assert forall|k: int| 0 <= k < inputs.len() && is_disconnected(nodes, #[trigger] inputs[k]) implies d.contains(
            disconnected_violation(workspace, inputs[k]),
        ) by {
            if k < last {
                assert(prior[k] == inputs[k]);
                let m = choose|m: int| 0 <= m < a.len() && a[m] == disconnected_violation(workspace, prior[k]);
                assert(d[m] == a[m]);
            } else {
                assert(d[d.len() - 1] == disconnected_violation(workspace, inputs[last]));
            }
        }
    }
}

proof fn lemma_connectivity_members(nodes: Seq<WorkspaceNodeView>, scope: Seq<WorkspaceNodeView>)
    ensures
        forall|m: int|
            0 <= m < connectivity_violations_of(nodes, scope).len() ==> exists|j: int, k: int|
                #![trigger scope[j].inputs[k]]
                0 <= j < scope.len() && 0 <= k < scope[j].inputs.len() && #[trigger] connectivity_violations_of(nodes, scope)[m]
                    == disconnected_violation(scope[j].id, scope[j].inputs[k]) && is_disconnected(
                    nodes,
                    scope[j].inputs[k],
                ),
        forall|j: int, k: int|
            0 <= j < scope.len() && 0 <= k < scope[j].inputs.len() && is_disconnected(
                nodes,
                #[trigger] scope[j].inputs[k],
            ) ==> connectivity_violations_of(nodes, scope).contains(
                disconnected_violation(scope[j].id, scope[j].inputs[k]),
            ),
    decreases scope.len(),
{
    if scope.len() > 0 {
        let prior = scope.drop_last();
        let last = scope.len() - 1;
        lemma_connectivity_members(nodes, prior);
        lemma_disconnected_inputs_members(nodes, scope[last].id, scope[last].inputs);
        assert(scope[last] == scope.last());
        let a = connectivity_violations_of(nodes, prior);
        let b = disconnected_inputs(nodes, scope[last].id, scope[last].inputs);
        let c = connectivity_violations_of(nodes, scope);
        assert(c == a + b);
        assert forall|m: int| 0 <= m < c.len() implies exists|j: int, k: int|
            #![trigger scope[j].inputs[k]]
            0 <= j < scope.len() && 0 <= k < scope[j].inputs.len() && #[trigger] c[m] == disconnected_violation(
                scope[j].id,
                scope[j].inputs[k],
            ) && is_disconnected(nodes, scope[j].inputs[k]) by {
            if m < a.len() {
                assert(c[m] == a[m]);
                let (j, k) = choose|j: int, k: int|
                    #![trigger prior[j].inputs[k]]
                    0 <= j < prior.len() && 0 <= k < prior[j].inputs.len() && a[m] == disconnected_violation(
                        prior[j].id,
                        prior[j].inputs[k],
                    ) && is_disconnected(nodes, prior[j].inputs[k]);
                assert(prior[j] == scope[j]);
            } else {
                assert(c[m] == b[m - a.len()]);
                let k = choose|k: int|
                    #![trigger scope[last].inputs[k]]
                    0 <= k < scope[last].inputs.len() && b[m - a.len()] == disconnected_violation(
                        scope[last].id,
                        scope[last].inputs[k],
                    ) && is_disconnected(nodes, scope[last].inputs[k]);
            }
        }
        assert forall|j: int, k: int|
            0 <= j < scope.len() && 0 <= k < scope[j].inputs.len() && is_disconnected(
                nodes,
                #[trigger] scope[j].inputs[k],
            ) implies c.contains(disconnected_violation(scope[j].id, scope[j].inputs[k])) by {
            let v = disconnected_violation(scope[j].id, scope[j].inputs[k]);
            if j < last {
                assert(prior[j] == scope[j]);
                assert(is_disconnected(nodes, prior[j].inputs[k]));
                let m = choose|m: int| 0 <= m < a.len() && a[m] == v;
                assert(c[m] == a[m]);
            } else {
                assert(is_disconnected(nodes, scope[last].inputs[k]));
                let m = choose|m: int| 0 <= m < b.len() && b[m] == v;
                assert(c[a.len() + m] == b[m]);
            }
        }
    }
}

/// Position `a` (a workspace, then a port of it) comes before position `b`.
pub open spec fn position_before(a: (int, int), b: (int, int)) -> bool {
    a.0 < b.0 || (a.0 == b.0 && a.1 < b.1)
}

/// `pos` gives, report by report, the workspace and the input of it that the
/// report is about: `reports[m]` is the `DisconnectedInput` of input `pos[m].1` of
/// workspace `pos[m].0`, and the positions strictly increase, so each input is
/// reported at most once and the reports follow the order of the workspaces and of
/// their inputs.
pub open spec fn disconnected_reports_at(
    nodes: Seq<WorkspaceNodeView>,
    reports: Seq<ViolationView>,
    pos: Seq<(int, int)>,
) -> bool {
    &&& pos.len() == reports.len()
    &&& forall|m: int|
        0 <= m < pos.len() ==> 0 <= (#[trigger] pos[m]).0 < nodes.len() && 0 <= pos[m].1 < nodes[pos[m].0].inputs.len()
            && reports[m] == (ViolationView::DisconnectedInput {
            workspace: nodes[pos[m].0].id,
            input: nodes[pos[m].0].inputs[pos[m].1].name,
            source_workspace: nodes[pos[m].0].inputs[pos[m].1].source_workspace,
            source_output: nodes[pos[m].0].inputs[pos[m].1].source_output,
        })
    &&& forall|m1: int, m2: int| 0 <= m1 < m2 < pos.len() ==> position_before(#[trigger] pos[m1], #[trigger] pos[m2])
}

proof fn lemma_disconnected_inputs_order(nodes: Seq<WorkspaceNodeView>, workspace: Seq<char>, inputs: Seq<InputPortView>) -> (ks: Seq<int>)
    ensures
        ks.len() == disconnected_inputs(nodes, workspace, inputs).len(),
        forall|m: int|
            0 <= m < ks.len() ==> 0 <= #[trigger] ks[m] < inputs.len() && disconnected_inputs(nodes, workspace, inputs)[m]
                == disconnected_violation(workspace, inputs[ks[m]]),
        forall|m1: int, m2: int| 0 <= m1 < m2 < ks.len() ==> #[trigger] ks[m1] < #[trigger] ks[m2],
    decreases inputs.len(),
{
    if inputs.len() == 0 {
        seq![]
    } else {
        let prior = inputs.drop_last();
        let last = inputs.len() - 1;
        let ks0 = lemma_disconnected_inputs_order(nodes, workspace, prior);
        let a = disconnected_inputs(nodes, workspace, prior);
        let d = disconnected_inputs(nodes, workspace, inputs);
        assert(inputs[last] == inputs.last());
        assert forall|m: int| 0 <= m < ks0.len() implies d[m] == a[m] && prior[ks0[m]] == inputs[ks0[m]] by {}
        if is_disconnected(nodes, inputs.last()) {
            let ks = ks0.push(last);
            assert forall|m: int| 0 <= m < ks.len() implies 0 <= #[trigger] ks[m] < inputs.len() && d[m]
                == disconnected_violation(workspace, inputs[ks[m]]) by {
                if m < ks0.len() {
                    assert(ks[m] == ks0[m]);
                }
            }
            assert forall|m1: int, m2: int| 0 <= m1 < m2 < ks.len() implies #[trigger] ks[m1] < #[trigger] ks[m2] by {
                if m2 < ks0.len() {
                    assert(ks[m1] == ks0[m1] && ks[m2] == ks0[m2]);
                } else {
                    assert(ks[m1] == ks0[m1]);
                }
            }
            ks
        } else {
            ks0
        }
    }
}

proof fn lemma_connectivity_order(nodes: Seq<WorkspaceNodeView>, scope: Seq<WorkspaceNodeView>) -> (ps: Seq<(int, int)>)
    ensures
        ps.len() == connectivity_violations_of(nodes, scope).len(),
        forall|m: int|
            0 <= m < ps.len() ==> 0 <= (#[trigger] ps[m]).0 < scope.len() && 0 <= ps[m].1 < scope[ps[m].0].inputs.len()
                && connectivity_violations_of(nodes, scope)[m] == disconnected_violation(
                scope[ps[m].0].id,
                scope[ps[m].0].inputs[ps[m].1],
            ),
        forall|m1: int, m2: int| 0 <= m1 < m2 < ps.len() ==> position_before(#[trigger] ps[m1], #[trigger] ps[m2]),
    decreases scope.len(),
{
    if scope.len() == 0 {
        seq![]
    } else {
        let prior = scope.drop_last();
        let last = scope.len() - 1;
        let ps0 = lemma_connectivity_order(nodes, prior);
        assert(scope[last] == scope.last());
        let ks = lemma_disconnected_inputs_order(nodes, scope[last].id, scope[last].inputs);
        let tail = ks.map_values(|k: int| (last, k));
        let ps = ps0 + tail;
        let a = connectivity_violations_of(nodes, prior);
        let b = disconnected_inputs(nodes, scope[last].id, scope[last].inputs);
        let c = connectivity_violations_of(nodes, scope);
        assert(c == a + b);
        assert forall|m: int| 0 <= m < ps.len() implies 0 <= (#[trigger] ps[m]).0 < scope.len() && 0 <= ps[m].1
            < scope[ps[m].0].inputs.len() && c[m] == disconnected_violation(
            scope[ps[m].0].id,
            scope[ps[m].0].inputs[ps[m].1],
        ) by {
            if m < ps0.len() {
                assert(ps[m] == ps0[m]);
                assert(c[m] == a[m]);
                assert(prior[ps0[m].0] == scope[ps0[m].0]);
            } else {
                assert(ps[m] == tail[m - ps0.len()]);
                assert(tail[m - ps0.len()] == (last, ks[m - ps0.len()]));
                assert(c[m] == b[m - a.len()]);
            }
        }
        assert forall|m1: int, m2: int| 0 <= m1 < m2 < ps.len() implies position_before(
            #[trigger] ps[m1],
            #[trigger] ps[m2],
        ) by {
            if m2 < ps0.len() {
                assert(ps[m1] == ps0[m1] && ps[m2] == ps0[m2]);
            } else if m1 < ps0.len() {
                assert(ps[m1] == ps0[m1]);
                assert(ps[m2] == tail[m2 - ps0.len()]);
            } else {
                assert(ps[m1] == tail[m1 - ps0.len()] && ps[m2] == tail[m2 - ps0.len()]);
                assert(ks[m1 - ps0.len()] < ks[m2 - ps0.len()]);
            }
        }
        ps
    }
}

/// What `verify_connectivity` reports: each violation is a `DisconnectedInput`
/// whose `workspace` is the workspace that declares the input and whose
/// `source_workspace` and `source_output` are what that input reads, where no
/// workspace of the graph provides that output (whether or not the source
/// workspace exists); every such input is reported; and the reports come once per
/// input, in the order of the workspaces and of their inputs.
pub proof fn lemma_connectivity_reports(g: GraphView)
    requires
        g.well_ordered(),
    ensures
        forall|m: int|
            0 <= m < connectivity_violations(g.nodes).len() ==> exists|j: int, k: int|
                #![trigger g.nodes[j].inputs[k]]
                0 <= j < g.nodes.len() && 0 <= k < g.nodes[j].inputs.len() && #[trigger] connectivity_violations(g.nodes)[m]
                    == (ViolationView::DisconnectedInput {
                    workspace: g.nodes[j].id,
                    input: g.nodes[j].inputs[k].name,
                    source_workspace: g.nodes[j].inputs[k].source_workspace,
                    source_output: g.nodes[j].inputs[k].source_output,
                }) && !provided(g.nodes, g.nodes[j].inputs[k].source_workspace, g.nodes[j].inputs[k].source_output),
        forall|j: int, k: int|
            0 <= j < g.nodes.len() && 0 <= k < g.nodes[j].inputs.len() && !provided(
                g.nodes,
                (#[trigger] g.nodes[j].inputs[k]).source_workspace,
                g.nodes[j].inputs[k].source_output,
            ) ==> connectivity_violations(g.nodes).contains(
                ViolationView::DisconnectedInput {
                    workspace: g.nodes[j].id,
                    input: g.nodes[j].inputs[k].name,
                    source_workspace: g.nodes[j].inputs[k].source_workspace,
                    source_output: g.nodes[j].inputs[k].source_output,
                },
            ),
        exists|pos: Seq<(int, int)>| #[trigger] disconnected_reports_at(g.nodes, connectivity_violations(g.nodes), pos),
{
    let nodes = g.nodes;
    let pos = lemma_connectivity_order(nodes, nodes);
    assert(disconnected_reports_at(nodes, connectivity_violations(nodes), pos));
    lemma_connectivity_members(nodes, nodes);
    assert forall|j: int, k: int| 0 <= j < nodes.len() && 0 <= k < nodes[j].inputs.len() implies
        (is_disconnected(nodes, #[trigger] nodes[j].inputs[k]) <==> !provided(
            nodes,
            nodes[j].inputs[k].source_workspace,
            nodes[j].inputs[k].source_output,
        )) by {
        lemma_disconnected_iff_unprovided(nodes, nodes[j].inputs[k]);
    }
}

/// `v` is the type mismatch between output `q` of workspace `i` and input `k` of
/// workspace `j`: the input reads workspace `i`'s output of that name (the first
/// output of workspace `i` so named), the two types do not match, `from_workspace` is the workspace whose output is read and
/// `to_workspace` the workspace that declares the input.
pub open spec fn reports_mismatch(nodes: Seq<WorkspaceNodeView>, v: ViolationView, j: int, k: int, i: int, q: int) -> bool {
    &&& 0 <= j < nodes.len()
    &&& 0 <= k < nodes[j].inputs.len()
    &&& 0 <= i < nodes.len()
    &&& 0 <= q < nodes[i].outputs.len()
    &&& nodes[i].id == nodes[j].inputs[k].source_workspace
    &&& is_first_named(nodes[i].outputs, nodes[j].inputs[k].source_output, q)
    &&& !types_match(nodes[i].outputs[q].field_type, nodes[j].inputs[k].field_type)
    &&& v == ViolationView::TypeMismatch {
        from_workspace: nodes[i].id,
        output: nodes[i].outputs[q].name,
        output_type: nodes[i].outputs[q].field_type,
        to_workspace: nodes[j].id,
        input: nodes[j].inputs[k].name,
        input_type: nodes[j].inputs[k].field_type,
    }
}

/// `v` is the type mismatch between some input of some workspace of `nodes` and
/// the output it reads.
pub open spec fn is_reported_mismatch(nodes: Seq<WorkspaceNodeView>, v: ViolationView) -> bool {
    exists|j: int, k: int, i: int, q: int| #[trigger] reports_mismatch(nodes, v, j, k, i, q)
}

/// `v` is the mismatch of `input`, declared by `workspace`, with the first output of
/// that name in its source workspace.
spec fn mismatch_with_source(nodes: Seq<WorkspaceNodeView>, v: ViolationView, workspace: Seq<char>, input: InputPortView) -> bool {
    exists|i: int, q: int|
        #![trigger nodes[i].outputs[q]]
        0 <= i < nodes.len() && 0 <= q < nodes[i].outputs.len() && nodes[i].id == input.source_workspace
            && is_first_named(nodes[i].outputs, input.source_output, q) && !types_match(
            nodes[i].outputs[q].field_type,
            input.field_type,
        ) && v == (ViolationView::TypeMismatch {
            from_workspace: nodes[i].id,
            output: nodes[i].outputs[q].name,
            output_type: nodes[i].outputs[q].field_type,
            to_workspace: workspace,
            input: input.name,
            input_type: input.field_type,
        })
}

proof fn lemma_mismatch_of_source(nodes: Seq<WorkspaceNodeView>, workspace: Seq<char>, input: InputPortView)
    ensures
        mismatch_of(nodes, workspace, input) matches Some(v) ==> mismatch_with_source(nodes, v, workspace, input),
{
    if let Some(v) = mismatch_of(nodes, workspace, input) {
        let i = position_of(nodes, input.source_workspace)->0;
        let outs = nodes[i].outputs;
        let q = choose|q: int| is_first_named(outs, input.source_output, q);
        assert(nodes[i].outputs[q] == outs[q]);
    }
}

proof fn lemma_mismatched_inputs_members(nodes: Seq<WorkspaceNodeView>, workspace: Seq<char>, inputs: Seq<InputPortView>)
    ensures
        forall|m: int|
            0 <= m < mismatched_inputs(nodes, workspace, inputs).len() ==> exists|k: int|
                #![trigger inputs[k]]
                0 <= k < inputs.len() && mismatch_with_source(
                    nodes,
                    #[trigger] mismatched_inputs(nodes, workspace, inputs)[m],
                    workspace,
                    inputs[k],
                ),
        forall|k: int|
            0 <= k < inputs.len() && (#[trigger] mismatch_of(nodes, workspace, inputs[k])) is Some
                ==> mismatched_inputs(nodes, workspace, inputs).contains(mismatch_of(nodes, workspace, inputs[k])->0),
    decreases inputs.len(),
{
    if inputs.len() > 0 {
        let prior = inputs.drop_last();
        let last = inputs.len() - 1;
        lemma_mismatched_inputs_members(nodes, workspace, prior);
        lemma_mismatch_of_source(nodes, workspace, inputs[last]);
        assert(inputs[last] == inputs.last());
        let a = mismatched_inputs(nodes, workspace, prior);
        let d = mismatched_inputs(nodes, workspace, inputs);
        assert forall|m: int| 0 <= m < d.len() implies exists|k: int|
            #![trigger inputs[k]]
            0 <= k < inputs.len() && mismatch_with_source(nodes, #[trigger] d[m], workspace, inputs[k]) by {
            if m < a.len() {
                assert(d[m] == a[m]);
                let k = choose|k: int|
                    #![trigger prior[k]]
                    0 <= k < prior.len() && mismatch_with_source(nodes, a[m], workspace, prior[k]);
                assert(prior[k] == inputs[k]);
            } else {
                assert(d[m] == mismatch_of(nodes, workspace, inputs[last])->0);
            }
        }
        assert forall|k: int|
            0 <= k < inputs.len() && (#[trigger] mismatch_of(nodes, workspace, inputs[k])) is Some implies d.contains(
            mismatch_of(nodes, workspace, inputs[k])->0,
        ) by {
            if k < last {
                assert(prior[k] == inputs[k]);
                let m = choose|m: int| 0 <= m < a.len() && a[m] == mismatch_of(nodes, workspace, prior[k])->0;
                assert(d[m] == a[m]);
            } else {
                assert(d[d.len() - 1] == mismatch_of(nodes, workspace, inputs[last])->0);
            }
        }
    }
}

proof fn lemma_compatibility_members(nodes: Seq<WorkspaceNodeView>, scope: Seq<WorkspaceNodeView>)
    ensures
        forall|m: int|
            0 <= m < compatibility_violations_of(nodes, scope).len() ==> exists|j: int, k: int|
                #![trigger scope[j].inputs[k]]
                0 <= j < scope.len() && 0 <= k < scope[j].inputs.len() && mismatch_with_source(
                    nodes,
                    #[trigger] compatibility_violations_of(nodes, scope)[m],
                    scope[j].id,
                    scope[j].inputs[k],
                ),
        forall|j: int, k: int|
            0 <= j < scope.len() && 0 <= k < scope[j].inputs.len() && (#[trigger] mismatch_of(
                nodes,
                scope[j].id,
                scope[j].inputs[k],
            )) is Some ==> compatibility_violations_of(nodes, scope).contains(
                mismatch_of(nodes, scope[j].id, scope[j].inputs[k])->0,
            ),
    decreases scope.len(),
{
    if scope.len() > 0 {
        let prior = scope.drop_last();
        let last = scope.len() - 1;
        lemma_compatibility_members(nodes, prior);
        lemma_mismatched_inputs_members(nodes, scope[last].id, scope[last].inputs);
        assert(scope[last] == scope.last());
        let a = compatibility_violations_of(nodes, prior);
        let b = mismatched_inputs(nodes, scope[last].id, scope[last].inputs);
        let c = compatibility_violations_of(nodes, scope);
        assert(c == a + b);
        assert forall|m: int| 0 <= m < c.len() implies exists|j: int, k: int|
            #![trigger scope[j].inputs[k]]
            0 <= j < scope.len() && 0 <= k < scope[j].inputs.len() && mismatch_with_source(
                nodes,
                #[trigger] c[m],
                scope[j].id,
                scope[j].inputs[k],
            ) by {
            if m < a.len() {
                assert(c[m] == a[m]);
                let (j, k) = choose|j: int, k: int|
                    #![trigger prior[j].inputs[k]]
                    0 <= j < prior.len() && 0 <= k < prior[j].inputs.len() && mismatch_with_source(
                        nodes,
                        a[m],
                        prior[j].id,
                        prior[j].inputs[k],
                    );
                assert(prior[j] == scope[j]);
            } else {
                assert(c[m] == b[m - a.len()]);
                let k = choose|k: int|
                    #![trigger scope[last].inputs[k]]
                    0 <= k < scope[last].inputs.len() && mismatch_with_source(
                        nodes,
                        b[m - a.len()],
                        scope[last].id,
                        scope[last].inputs[k],
                    );
            }
        }
        assert forall|j: int, k: int|
            0 <= j < scope.len() && 0 <= k < scope[j].inputs.len() && (#[trigger] mismatch_of(
                nodes,
                scope[j].id,
                scope[j].inputs[k],
            )) is Some implies c.contains(mismatch_of(nodes, scope[j].id, scope[j].inputs[k])->0) by {
            let v = mismatch_of(nodes, scope[j].id, scope[j].inputs[k])->0;
            if j < last {
                assert(prior[j] == scope[j]);
                assert(mismatch_of(nodes, prior[j].id, prior[j].inputs[k]) is Some);
                let m = choose|m: int| 0 <= m < a.len() && a[m] == v;
                assert(c[m] == a[m]);
            } else {
                assert(mismatch_of(nodes, scope[last].id, scope[last].inputs[k]) is Some);
                let m = choose|m: int| 0 <= m < b.len() && b[m] == v;
                assert(c[a.len() + m] == b[m]);
            }
        }
    }
}

proof fn lemma_compatibility_report_at(g: GraphView, m: int)
    requires
        0 <= m < compatibility_violations(g.nodes).len(),
    ensures
        is_reported_mismatch(g.nodes, compatibility_violations(g.nodes)[m]),
{
    let nodes = g.nodes;
    let c = compatibility_violations(nodes);
    lemma_compatibility_members(nodes, nodes);
    let (j, k) = choose|j: int, k: int|
        #![trigger nodes[j].inputs[k]]
        0 <= j < nodes.len() && 0 <= k < nodes[j].inputs.len() && mismatch_with_source(
            nodes,
            c[m],
            nodes[j].id,
            nodes[j].inputs[k],
        );
    let input = nodes[j].inputs[k];
    assert(mismatch_with_source(nodes, c[m], nodes[j].id, input));
    let (i, q) = choose|i: int, q: int|
        #![trigger nodes[i].outputs[q]]
        0 <= i < nodes.len() && 0 <= q < nodes[i].outputs.len() && nodes[i].id == input.source_workspace
            && is_first_named(nodes[i].outputs, input.source_output, q) && !types_match(
            nodes[i].outputs[q].field_type,
            input.field_type,
        ) && c[m] == (ViolationView::TypeMismatch {
            from_workspace: nodes[i].id,
            output: nodes[i].outputs[q].name,
            output_type: nodes[i].outputs[q].field_type,
            to_workspace: nodes[j].id,
            input: input.name,
            input_type: input.field_type,
        });
    assert(reports_mismatch(g.nodes, compatibility_violations(g.nodes)[m], j, k, i, q));
}

/// `v` is the type mismatch of input `k` of workspace `j` with the output it reads.
pub open spec fn is_mismatch_of_input(nodes: Seq<WorkspaceNodeView>, v: ViolationView, j: int, k: int) -> bool {
    exists|i: int, q: int| #[trigger] reports_mismatch(nodes, v, j, k, i, q)
}

/// `pos` gives, report by report, the workspace and the input of it that the
/// report is about: `reports[m]` is the type mismatch of input `pos[m].1` of
/// workspace `pos[m].0`, and the positions strictly increase, so each input is
/// reported at most once and the reports follow the order of the workspaces and of
/// their inputs.
pub open spec fn mismatch_reports_at(
    nodes: Seq<WorkspaceNodeView>,
    reports: Seq<ViolationView>,
    pos: Seq<(int, int)>,
) -> bool {
    &&& pos.len() == reports.len()
    &&& forall|m: int| 0 <= m < pos.len() ==> is_mismatch_of_input(nodes, reports[m], (#[trigger] pos[m]).0, pos[m].1)
    &&& forall|m1: int, m2: int| 0 <= m1 < m2 < pos.len() ==> position_before(#[trigger] pos[m1], #[trigger] pos[m2])
}

proof fn lemma_mismatched_inputs_order(nodes: Seq<WorkspaceNodeView>, workspace: Seq<char>, inputs: Seq<InputPortView>) -> (ks: Seq<int>)
    ensures
        ks.len() == mismatched_inputs(nodes, workspace, inputs).len(),
        forall|m: int|
            0 <= m < ks.len() ==> 0 <= #[trigger] ks[m] < inputs.len() && mismatch_of(nodes, workspace, inputs[ks[m]])
                == Some(mismatched_inputs(nodes, workspace, inputs)[m]),
        forall|m1: int, m2: int| 0 <= m1 < m2 < ks.len() ==> #[trigger] ks[m1] < #[trigger] ks[m2],
    decreases inputs.len(),
{
    if inputs.len() == 0 {
        seq![]
    } else {
        let prior = inputs.drop_last();
        let last = inputs.len() - 1;
        let ks0 = lemma_mismatched_inputs_order(nodes, workspace, prior);
        let a = mismatched_inputs(nodes, workspace, prior);
        let d = mismatched_inputs(nodes, workspace, inputs);
        assert(inputs[last] == inputs.last());
        assert forall|m: int| 0 <= m < ks0.len() implies d[m] == a[m] && prior[ks0[m]] == inputs[ks0[m]] by {}
        if mismatch_of(nodes, workspace, inputs.last()) is Some {
            let ks = ks0.push(last);
            assert forall|m: int| 0 <= m < ks.len() implies 0 <= #[trigger] ks[m] < inputs.len() && mismatch_of(
                nodes,
                workspace,
                inputs[ks[m]],
            ) == Some(d[m]) by {
                if m < ks0.len() {
                    assert(ks[m] == ks0[m]);
                }
            }
            assert forall|m1: int, m2: int| 0 <= m1 < m2 < ks.len() implies #[trigger] ks[m1] < #[trigger] ks[m2] by {
                if m2 < ks0.len() {
                    assert(ks[m1] == ks0[m1] && ks[m2] == ks0[m2]);
                } else {
                    assert(ks[m1] == ks0[m1]);
                }
            }
            ks
        } else {
            assert(d == a);
            ks0
        }
    }
}

proof fn lemma_compatibility_order(nodes: Seq<WorkspaceNodeView>, scope: Seq<WorkspaceNodeView>) -> (ps: Seq<(int, int)>)
    ensures
        ps.len() == compatibility_violations_of(nodes, scope).len(),
        forall|m: int|
            0 <= m < ps.len() ==> 0 <= (#[trigger] ps[m]).0 < scope.len() && 0 <= ps[m].1 < scope[ps[m].0].inputs.len()
                && mismatch_of(nodes, scope[ps[m].0].id, scope[ps[m].0].inputs[ps[m].1]) == Some(
                compatibility_violations_of(nodes, scope)[m],
            ),
        forall|m1: int, m2: int| 0 <= m1 < m2 < ps.len() ==> position_before(#[trigger] ps[m1], #[trigger] ps[m2]),
    decreases scope.len(),
{
    if scope.len() == 0 {
        seq![]
    } else {
        let prior = scope.drop_last();
        let last = scope.len() - 1;
        let ps0 = lemma_compatibility_order(nodes, prior);
        assert(scope[last] == scope.last());
        let ks = lemma_mismatched_inputs_order(nodes, scope[last].id, scope[last].inputs);
        let tail = ks.map_values(|k: int| (last, k));
        let ps = ps0 + tail;
        let a = compatibility_violations_of(nodes, prior);
        let b = mismatched_inputs(nodes, scope[last].id, scope[last].inputs);
        let c = compatibility_violations_of(nodes, scope);
        assert(c == a + b);
        assert forall|m: int| 0 <= m < ps.len() implies 0 <= (#[trigger] ps[m]).0 < scope.len() && 0 <= ps[m].1
            < scope[ps[m].0].inputs.len() && mismatch_of(nodes, scope[ps[m].0].id, scope[ps[m].0].inputs[ps[m].1])
            == Some(c[m]) by {
            if m < ps0.len() {
                assert(ps[m] == ps0[m]);
                assert(c[m] == a[m]);
                assert(prior[ps0[m].0] == scope[ps0[m].0]);
            } else {
                assert(ps[m] == tail[m - ps0.len()]);
                assert(tail[m - ps0.len()] == (last, ks[m - ps0.len()]));
                assert(c[m] == b[m - a.len()]);
            }
        }
        assert forall|m1: int, m2: int| 0 <= m1 < m2 < ps.len() implies position_before(
            #[trigger] ps[m1],
            #[trigger] ps[m2],
        ) by {
            if m2 < ps0.len() {
                assert(ps[m1] == ps0[m1] && ps[m2] == ps0[m2]);
            } else if m1 < ps0.len() {
                assert(ps[m1] == ps0[m1]);
                assert(ps[m2] == tail[m2 - ps0.len()]);
            } else {
                assert(ps[m1] == tail[m1 - ps0.len()] && ps[m2] == tail[m2 - ps0.len()]);
                assert(ks[m1 - ps0.len()] < ks[m2 - ps0.len()]);
            }
        }
        ps
    }
}

proof fn lemma_mismatch_of_input(nodes: Seq<WorkspaceNodeView>, v: ViolationView, j: int, k: int)
    requires
        0 <= j < nodes.len(),
        0 <= k < nodes[j].inputs.len(),
        mismatch_of(nodes, nodes[j].id, nodes[j].inputs[k]) == Some(v),
    ensures
        is_mismatch_of_input(nodes, v, j, k),
{
    let input = nodes[j].inputs[k];
    lemma_mismatch_of_source(nodes, nodes[j].id, input);
    let (i, q) = choose|i: int, q: int|
        #![trigger nodes[i].outputs[q]]
        0 <= i < nodes.len() && 0 <= q < nodes[i].outputs.len() && nodes[i].id == input.source_workspace
            && is_first_named(nodes[i].outputs, input.source_output, q) && !types_match(
            nodes[i].outputs[q].field_type,
            input.field_type,
        ) && v == (ViolationView::TypeMismatch {
            from_workspace: nodes[i].id,
            output: nodes[i].outputs[q].name,
            output_type: nodes[i].outputs[q].field_type,
            to_workspace: nodes[j].id,
            input: input.name,
            input_type: input.field_type,
        });
    assert(reports_mismatch(nodes, v, j, k, i, q));
}

/// What `verify_compatibility` reports: each violation is the `TypeMismatch`
/// between an input and the output it reads, with `from_workspace` the workspace
/// whose output is read (the input's source workspace) and `to_workspace` the
/// workspace that declares the input, whatever the ports are named; and every input
/// whose type does not match that of its providing output (the first output of that
/// name in its source workspace) is reported; and the reports come once per input,
/// in the order of the workspaces and of their inputs.
pub proof fn lemma_compatibility_reports(g: GraphView)
    requires
        g.well_ordered(),
    ensures
        forall|m: int|
            0 <= m < compatibility_violations(g.nodes).len() ==> is_reported_mismatch(
                g.nodes,
                #[trigger] compatibility_violations(g.nodes)[m],
            ),
        forall|j: int, k: int, i: int, q: int|
            0 <= j < g.nodes.len() && 0 <= k < g.nodes[j].inputs.len() && 0 <= i < g.nodes.len()
                && g.nodes[i].id == g.nodes[j].inputs[k].source_workspace && is_first_named(
                g.nodes[i].outputs,
                g.nodes[j].inputs[k].source_output,
                q,
            ) && !types_match(g.nodes[i].outputs[q].field_type, g.nodes[j].inputs[k].field_type)
                ==> compatibility_violations(g.nodes).contains(
                ViolationView::TypeMismatch {
                    from_workspace: g.nodes[i].id,
                    output: (#[trigger] g.nodes[i].outputs[q]).name,
                    output_type: g.nodes[i].outputs[q].field_type,
                    to_workspace: g.nodes[j].id,
                    input: (#[trigger] g.nodes[j].inputs[k]).name,
                    input_type: g.nodes[j].inputs[k].field_type,
                },
            ),
        exists|pos: Seq<(int, int)>| #[trigger] mismatch_reports_at(g.nodes, compatibility_violations(g.nodes), pos),
{
    let nodes = g.nodes;
    let c = compatibility_violations(nodes);
    let pos = lemma_compatibility_order(nodes, nodes);
    assert forall|m: int| 0 <= m < pos.len() implies is_mismatch_of_input(nodes, c[m], (#[trigger] pos[m]).0, pos[m].1) by {
        lemma_mismatch_of_input(nodes, c[m], pos[m].0, pos[m].1);
    }
    assert(mismatch_reports_at(nodes, c, pos));
    lemma_compatibility_members(nodes, nodes);
    assert forall|m: int| 0 <= m < compatibility_violations(g.nodes).len() implies is_reported_mismatch(
        g.nodes,
        #[trigger] compatibility_violations(g.nodes)[m],
    ) by {
        lemma_compatibility_report_at(g, m);
    }
    assert forall|j: int, k: int, i: int, q: int|
        0 <= j < nodes.len() && 0 <= k < nodes[j].inputs.len() && 0 <= i < nodes.len()
            && nodes[i].id == nodes[j].inputs[k].source_workspace && is_first_named(
            nodes[i].outputs,
            nodes[j].inputs[k].source_output,
            q,
        ) && !types_match(nodes[i].outputs[q].field_type, nodes[j].inputs[k].field_type) implies c.contains(
        ViolationView::TypeMismatch {
            from_workspace: nodes[i].id,
            output: (#[trigger] nodes[i].outputs[q]).name,
            output_type: nodes[i].outputs[q].field_type,
            to_workspace: nodes[j].id,
            input: (#[trigger] nodes[j].inputs[k]).name,
            input_type: nodes[j].inputs[k].field_type,
        },
    ) by {
        let input = nodes[j].inputs[k];
        lemma_position_sorted(nodes, i);
        assert(node_with_id(nodes, input.source_workspace) == Some(nodes[i]));
        let outs = nodes[i].outputs;
        assert(exists|u: int| is_first_named(outs, input.source_output, u));
        let u = choose|u: int| is_first_named(outs, input.source_output, u);
        lemma_first_named_unique(outs, input.source_output, q, u);
        assert(first_output_named(outs, input.source_output) == Some(outs[q]));
        assert(mismatch_of(nodes, nodes[j].id, input) is Some);
    }
}

/// `v` names, for some workspace of `nodes`, an output name that two of its outputs
/// share: `v` is `DuplicateOutput` with that workspace's identity and the name of
/// the later of the two.
pub open spec fn is_reported_duplicate(nodes: Seq<WorkspaceNodeView>, v: ViolationView) -> bool {
    exists|j: int, a: int, b: int|
        #![trigger nodes[j].outputs[a], nodes[j].outputs[b]]
        0 <= j < nodes.len() && 0 <= a < b < nodes[j].outputs.len() && nodes[j].outputs[a].name
            == nodes[j].outputs[b].name && v == (ViolationView::DuplicateOutput {
            workspace: nodes[j].id,
            output: nodes[j].outputs[b].name,
        })
}

/// `v` is `DuplicateOutput` for `workspace` with the name of output `b` of
/// `outputs`, which an earlier output has.
spec fn duplicate_among(outputs: Seq<OutputPortView>, workspace: Seq<char>, v: ViolationView) -> bool {
    exists|a: int, b: int|
        #![trigger outputs[a], outputs[b]]
        0 <= a < b < outputs.len() && outputs[a].name == outputs[b].name && v == (ViolationView::DuplicateOutput {
            workspace,
            output: outputs[b].name,
        })
}

proof fn lemma_duplicate_outputs_members(workspace: Seq<char>, outputs: Seq<OutputPortView>)
    ensures
        forall|m: int|
            0 <= m < duplicate_outputs(workspace, outputs).len() ==> duplicate_among(
                outputs,
                workspace,
                #[trigger] duplicate_outputs(workspace, outputs)[m],
            ),
        forall|a: int, b: int|
            0 <= a < b < outputs.len() && (#[trigger] outputs[a]).name == (#[trigger] outputs[b]).name
                ==> duplicate_outputs(workspace, outputs).contains(
                ViolationView::DuplicateOutput { workspace, output: outputs[b].name },
            ),
    decreases outputs.len(),
{
    if outputs.len() > 0 {
        let prior = outputs.drop_last();
        let last = outputs.len() - 1;
        lemma_duplicate_outputs_members(workspace, prior);
        assert(outputs[last] == outputs.last());
        let d = duplicate_outputs(workspace, outputs);
        let p = duplicate_outputs(workspace, prior);
        assert forall|m: int| 0 <= m < d.len() implies duplicate_among(outputs, workspace, #[trigger] d[m]) by {
            if m < p.len() {
                assert(d[m] == p[m]);
                assert(duplicate_among(prior, workspace, p[m]));
                let (a, b) = choose|a: int, b: int|
                    #![trigger prior[a], prior[b]]
                    0 <= a < b < prior.len() && prior[a].name == prior[b].name && p[m] == (
                    ViolationView::DuplicateOutput { workspace, output: prior[b].name });
                assert(prior[a] == outputs[a] && prior[b] == outputs[b]);
            } else {
                assert(has_output_named(prior, outputs[last].name));
                let a = choose|a: int| 0 <= a < prior.len() && prior[a].name == outputs[last].name;
                assert(prior[a] == outputs[a]);
                assert(d[m] == (ViolationView::DuplicateOutput { workspace, output: outputs[last].name }));
            }
        }
        assert forall|a: int, b: int|
            0 <= a < b < outputs.len() && (#[trigger] outputs[a]).name == (#[trigger] outputs[b]).name implies d.contains(
            ViolationView::DuplicateOutput { workspace, output: outputs[b].name },
        ) by {
            assert(prior[a] == outputs[a]);
            if b < last {
                assert(prior[b] == outputs[b]);
                let v = ViolationView::DuplicateOutput { workspace, output: prior[b].name };
                assert(p.contains(v));
                let m = choose|m: int| 0 <= m < p.len() && p[m] == v;
                assert(d[m] == p[m]);
            } else {
                assert(has_output_named(prior, outputs[last].name));
                assert(d[d.len() - 1] == (ViolationView::DuplicateOutput { workspace, output: outputs[last].name }));
            }
        }
    }
}

proof fn lemma_uniqueness_members(nodes: Seq<WorkspaceNodeView>)
    ensures
        forall|m: int|
            0 <= m < uniqueness_violations(nodes).len() ==> is_reported_duplicate(
                nodes,
                #[trigger] uniqueness_violations(nodes)[m],
            ),
        forall|j: int, a: int, b: int|
            0 <= j < nodes.len() && 0 <= a < b < nodes[j].outputs.len() && (#[trigger] nodes[j].outputs[a]).name
                == (#[trigger] nodes[j].outputs[b]).name ==> uniqueness_violations(nodes).contains(
                ViolationView::DuplicateOutput { workspace: nodes[j].id, output: nodes[j].outputs[b].name },
            ),
    decreases nodes.len(),
{
    if nodes.len() > 0 {
        let prior = nodes.drop_last();
        let last = nodes.len() - 1;
        lemma_uniqueness_members(prior);
        assert(nodes[last] == nodes.last());
        let outs = nodes[last].outputs;
        lemma_duplicate_outputs_members(nodes[last].id, outs);
        let p = uniqueness_violations(prior);
        let e = duplicate_outputs(nodes[last].id, outs);
        let u = uniqueness_violations(nodes);
        assert(u == p + e);
        assert forall|m: int| 0 <= m < u.len() implies is_reported_duplicate(nodes, #[trigger] u[m]) by {
            if m < p.len() {
                assert(u[m] == p[m]);
                assert(is_reported_duplicate(prior, p[m]));
                let (j, a, b) = choose|j: int, a: int, b: int|
                    #![trigger prior[j].outputs[a], prior[j].outputs[b]]
                    0 <= j < prior.len() && 0 <= a < b < prior[j].outputs.len() && prior[j].outputs[a].name
                        == prior[j].outputs[b].name && p[m] == (ViolationView::DuplicateOutput {
                        workspace: prior[j].id,
                        output: prior[j].outputs[b].name,
                    });
                assert(prior[j] == nodes[j]);
                assert(nodes[j].outputs[a] == prior[j].outputs[a]);
            } else {
                assert(u[m] == e[m - p.len()]);
                assert(duplicate_among(outs, nodes[last].id, e[m - p.len()]));
                let (a, b) = choose|a: int, b: int|
                    #![trigger outs[a], outs[b]]
                    0 <= a < b < outs.len() && outs[a].name == outs[b].name && e[m - p.len()] == (
                    ViolationView::DuplicateOutput { workspace: nodes[last].id, output: outs[b].name });
                assert(nodes[last].outputs[a] == outs[a]);
            }
        }
        assert forall|j: int, a: int, b: int|
            0 <= j < nodes.len() && 0 <= a < b < nodes[j].outputs.len() && (#[trigger] nodes[j].outputs[a]).name
                == (#[trigger] nodes[j].outputs[b]).name implies u.contains(
            ViolationView::DuplicateOutput { workspace: nodes[j].id, output: nodes[j].outputs[b].name },
        ) by {
            let v = ViolationView::DuplicateOutput { workspace: nodes[j].id, output: nodes[j].outputs[b].name };
            if j < last {
                assert(prior[j] == nodes[j]);
                assert(prior[j].outputs[a].name == prior[j].outputs[b].name);
                assert(p.contains(v));
                let m = choose|m: int| 0 <= m < p.len() && p[m] == v;
                assert(u[m] == p[m]);
            } else {
                assert(outs[a].name == outs[b].name);
                assert(e.contains(v));
                let m = choose|m: int| 0 <= m < e.len() && e[m] == v;
                assert(u[p.len() + m] == e[m]);
            }
        }
    }
}

/// An output before output `b` of `outputs` has its name.
pub open spec fn named_earlier(outputs: Seq<OutputPortView>, b: int) -> bool {
    exists|a: int| 0 <= a < b && #[trigger] outputs[a].name == outputs[b].name
}

/// `pos` gives, report by report, the workspace and the output of it that the
/// report is about: `reports[m]` is the `DuplicateOutput` of output `pos[m].1` of
/// workspace `pos[m].0`, whose name an earlier output of that workspace has, and
/// the positions strictly increase, so each output is reported at most once and
/// the reports follow the order of the workspaces and of their outputs.
pub open spec fn duplicate_reports_at(
    nodes: Seq<WorkspaceNodeView>,
    reports: Seq<ViolationView>,
    pos: Seq<(int, int)>,
) -> bool {
    &&& pos.len() == reports.len()
    &&& forall|m: int|
        0 <= m < pos.len() ==> 0 <= (#[trigger] pos[m]).0 < nodes.len() && 0 <= pos[m].1 < nodes[pos[m].0].outputs.len()
            && named_earlier(nodes[pos[m].0].outputs, pos[m].1) && reports[m] == (ViolationView::DuplicateOutput {
            workspace: nodes[pos[m].0].id,
            output: nodes[pos[m].0].outputs[pos[m].1].name,
        })
    &&& forall|m1: int, m2: int| 0 <= m1 < m2 < pos.len() ==> position_before(#[trigger] pos[m1], #[trigger] pos[m2])
}

proof fn lemma_duplicate_outputs_order(workspace: Seq<char>, outputs: Seq<OutputPortView>) -> (bs: Seq<int>)
    ensures
        bs.len() == duplicate_outputs(workspace, outputs).len(),
        forall|m: int|
            0 <= m < bs.len() ==> 0 <= #[trigger] bs[m] < outputs.len() && named_earlier(outputs, bs[m])
                && duplicate_outputs(workspace, outputs)[m] == (ViolationView::DuplicateOutput {
                workspace,
                output: outputs[bs[m]].name,
            }),
        forall|m1: int, m2: int| 0 <= m1 < m2 < bs.len() ==> #[trigger] bs[m1] < #[trigger] bs[m2],
    decreases outputs.len(),
{
    if outputs.len() == 0 {
        seq![]
    } else {
        let prior = outputs.drop_last();
        let last = outputs.len() - 1;
        let bs0 = lemma_duplicate_outputs_order(workspace, prior);
        let p = duplicate_outputs(workspace, prior);
        let d = duplicate_outputs(workspace, outputs);
        assert(outputs[last] == outputs.last());
        assert forall|m: int| 0 <= m < bs0.len() implies d[m] == p[m] && prior[bs0[m]] == outputs[bs0[m]] && named_earlier(
            outputs,
            bs0[m],
        ) by {
            assert(named_earlier(prior, bs0[m]));
            let a = choose|a: int| 0 <= a < bs0[m] && #[trigger] prior[a].name == prior[bs0[m]].name;
            assert(prior[a] == outputs[a]);
        }
        if has_output_named(prior, outputs.last().name) {
            let bs = bs0.push(last);
            let a = choose|a: int| 0 <= a < prior.len() && prior[a].name == outputs.last().name;
            assert(prior[a] == outputs[a]);
            assert(named_earlier(outputs, last));
            assert forall|m: int| 0 <= m < bs.len() implies 0 <= #[trigger] bs[m] < outputs.len() && named_earlier(
                outputs,
                bs[m],
            ) && d[m] == (ViolationView::DuplicateOutput { workspace, output: outputs[bs[m]].name }) by {
                if m < bs0.len() {
                    assert(bs[m] == bs0[m]);
                }
            }
            assert forall|m1: int, m2: int| 0 <= m1 < m2 < bs.len() implies #[trigger] bs[m1] < #[trigger] bs[m2] by {
                if m2 < bs0.len() {
                    assert(bs[m1] == bs0[m1] && bs[m2] == bs0[m2]);
                } else {
                    assert(bs[m1] == bs0[m1]);
                }
            }
            bs
        } else {
            bs0
        }
    }
}

proof fn lemma_uniqueness_order(nodes: Seq<WorkspaceNodeView>) -> (ps: Seq<(int, int)>)
    ensures
        duplicate_reports_at(nodes, uniqueness_violations(nodes), ps),
    decreases nodes.len(),
{
    if nodes.len() == 0 {
        seq![]
    } else {
        let prior = nodes.drop_last();
        let last = nodes.len() - 1;
        let ps0 = lemma_uniqueness_order(prior);
        assert(nodes[last] == nodes.last());
        let bs = lemma_duplicate_outputs_order(nodes[last].id, nodes[last].outputs);
        let tail = bs.map_values(|b: int| (last, b));
        let ps = ps0 + tail;
        let p = uniqueness_violations(prior);
        let e = duplicate_outputs(nodes[last].id, nodes[last].outputs);
        let u = uniqueness_violations(nodes);
        assert(u == p + e);
        assert forall|m: int| 0 <= m < ps.len() implies 0 <= (#[trigger] ps[m]).0 < nodes.len() && 0 <= ps[m].1
            < nodes[ps[m].0].outputs.len() && named_earlier(nodes[ps[m].0].outputs, ps[m].1) && u[m] == (
        ViolationView::DuplicateOutput {
            workspace: nodes[ps[m].0].id,
            output: nodes[ps[m].0].outputs[ps[m].1].name,
        }) by {
            if m < ps0.len() {
                assert(ps[m] == ps0[m]);
                assert(u[m] == p[m]);
                assert(prior[ps0[m].0] == nodes[ps0[m].0]);
            } else {
                assert(ps[m] == tail[m - ps0.len()]);
                assert(tail[m - ps0.len()] == (last, bs[m - ps0.len()]));
                assert(u[m] == e[m - p.len()]);
            }
        }
        assert forall|m1: int, m2: int| 0 <= m1 < m2 < ps.len() implies position_before(
            #[trigger] ps[m1],
            #[trigger] ps[m2],
        ) by {
            if m2 < ps0.len() {
                assert(ps[m1] == ps0[m1] && ps[m2] == ps0[m2]);
            } else if m1 < ps0.len() {
                assert(ps[m1] == ps0[m1]);
                assert(ps[m2] == tail[m2 - ps0.len()]);
            } else {
                assert(ps[m1] == tail[m1 - ps0.len()] && ps[m2] == tail[m2 - ps0.len()]);
                assert(bs[m1 - ps0.len()] < bs[m2 - ps0.len()]);
            }
        }
        ps
    }
}

/// What `verify_uniqueness` reports: each violation is `DuplicateOutput` with a
/// workspace of the graph and an output name that at least two of that workspace's
/// outputs have; every output whose name an earlier output of its workspace has is
/// reported; and the reports come once per such output, in the order of the
/// workspaces and of their outputs.
pub proof fn lemma_uniqueness_reports(g: GraphView)
    ensures
        forall|m: int|
            0 <= m < uniqueness_violations(g.nodes).len() ==> is_reported_duplicate(
                g.nodes,
                #[trigger] uniqueness_violations(g.nodes)[m],
            ),
        forall|j: int, a: int, b: int|
            0 <= j < g.nodes.len() && 0 <= a < b < g.nodes[j].outputs.len() && (#[trigger] g.nodes[j].outputs[a]).name
                == (#[trigger] g.nodes[j].outputs[b]).name ==> uniqueness_violations(g.nodes).contains(
                ViolationView::DuplicateOutput { workspace: g.nodes[j].id, output: g.nodes[j].outputs[b].name },
            ),
        exists|pos: Seq<(int, int)>| #[trigger] duplicate_reports_at(g.nodes, uniqueness_violations(g.nodes), pos),
{
    let pos = lemma_uniqueness_order(g.nodes);
    lemma_uniqueness_members(g.nodes);
}

/// What `verify_ordering` reports: nothing when the dependency graph is acyclic;
/// otherwise exactly one `CyclicDependency`, in which every identity listed is that
/// of a blocked workspace (on a dependency cycle or depending on one), every
/// workspace is listed if and only if it is blocked, and the list is in strictly
/// increasing identity order (each listed once).
pub proof fn lemma_ordering_reports(g: GraphView)
    requires
        g.well_ordered(),
    ensures
        ordering_violations(g.nodes).len() == 0 <==> acyclic(g.nodes),
        ordering_violations(g.nodes).len() <= 1,
        forall|m: int|
            0 <= m < ordering_violations(g.nodes).len() ==> (#[trigger] ordering_violations(g.nodes)[m]) is CyclicDependency,
        forall|m: int, t: int|
            0 <= m < ordering_violations(g.nodes).len() && 0 <= t < ordering_violations(g.nodes)[m]->workspaces.len()
                ==> is_blocked_id(g.nodes, #[trigger] ordering_violations(g.nodes)[m]->workspaces[t]),
        forall|m: int, j: int|
            0 <= m < ordering_violations(g.nodes).len() && 0 <= j < g.nodes.len() ==> (
            (#[trigger] ordering_violations(g.nodes)[m])->workspaces.contains(#[trigger] g.nodes[j].id) <==> blocked(
                g.nodes,
                j,
            )),
        forall|m: int|
            0 <= m < ordering_violations(g.nodes).len() ==> strictly_sorted(
                (#[trigger] ordering_violations(g.nodes)[m])->workspaces,
            ),
{
    lemma_blocked_ids_members(g.nodes);
}

} // verus!
