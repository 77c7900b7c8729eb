//! Core types: workspaces, ports, edges, and the graph.
use vstd::prelude::*;
use iac_forge::ir::IacType;
use crate::text::{strictly_sorted, text_lt, text_less, lemma_text_lt_transitive, lemma_text_lt_total, lemma_text_lt_irreflexive};

verus! {

/// The port type vocabulary of `iac_forge`, carried through unchanged.
#[verifier::external_type_specification]
#[verifier::external_body]
pub struct ExIacType(IacType);

/// What `==` on two `iac_forge::ir::IacType` values answers (its derived `PartialEq`).
pub uninterp spec fn iac_types_match(a: IacType, b: IacType) -> bool;

/// Compares two port types with the derived `PartialEq` of `iac_forge::ir::IacType`.
/// Claimed: the answer is `iac_types_match` of the two values, and a value compares
/// equal to itself (the derived `Eq` is reflexive; the only floats inside are
/// `serde_json` numbers, which exclude NaN). Not claimed: that different values
/// compare unequal (default values inside an `Object` type are `serde_json` values,
/// whose numbers compare `0.0` equal to `-0.0`).
#[verifier::external_body]
pub(crate) fn field_types_equal(a: &IacType, b: &IacType) -> (r: bool)
    ensures
        r == iac_types_match(*a, *b),
        *a == *b ==> r,
{
    a == b
}

/// Whether two port types match, as `==` on `IacType` answers: a value always
/// matches itself, and values that differ match when the derived `==` calls them
/// equal.
pub open spec fn types_match(a: IacType, b: IacType) -> bool {
    a == b || iac_types_match(a, b)
}

/// Every port type matches itself.
pub proof fn lemma_types_match_reflexive(t: IacType)
    ensures
        types_match(t, t),
{
}

/// Copies a port type with the derived `Clone` of `iac_forge::ir::IacType`.
/// Claimed: the copy is the same value (the derive clones field by field).
#[verifier::external_body]
pub(crate) fn clone_field_type(t: &IacType) -> (r: IacType)
    ensures
        r == *t,
{
    t.clone()
}

/// What `IacType::List(Box::new(inner))` is.
pub uninterp spec fn iac_list(inner: IacType) -> IacType;

/// Builds `iac_forge::ir::IacType::List(Box::new(inner))`.
/// Claimed: the result is `iac_list(inner)`, a function of `inner` alone.
#[verifier::external_body]
pub(crate) fn list_type(inner: IacType) -> (t: IacType)
    ensures
        t == iac_list(inner),
{
    IacType::List(Box::new(inner))
}

/// The port type is a list of some port type.
pub open spec fn is_list_type(t: IacType) -> bool {
    exists|inner: IacType| t == #[trigger] iac_list(inner)
}

/// Builds `iac_forge::ir::IacType::String`.
/// Claimed: the value is no list type (`String` and `List` are different variants
/// of the enum). Which value it is beyond that is not stated: the type is opaque
/// here.
#[verifier::external_body]
pub(crate) fn string_type() -> (t: IacType)
    ensures
        !is_list_type(t),
{
    IacType::String
}

/// Content-addressable workspace identity.
#[derive(Debug, PartialEq, Eq, PartialOrd, Ord, Hash)]
pub struct WorkspaceId(pub String);

impl View for WorkspaceId {
    type V = Seq<char>;

    open spec fn view(&self) -> Seq<char> {
        self.0@
    }
}

impl Clone for WorkspaceId {
    fn clone(&self) -> (r: Self)
        ensures
            r == *self,
    {
        WorkspaceId(self.0.clone())
    }
}

impl WorkspaceId {
    /// Whether two identities name the same workspace.
    pub fn same(&self, other: &WorkspaceId) -> (r: bool)
        ensures
            r == (self@ == other@),
    {
        self.0 == other.0
    }
}

/// What an output port is, as values.
pub ghost struct OutputPortView {
    pub name: Seq<char>,
    pub field_type: IacType,
    pub source_resource: Seq<char>,
}

/// What an input port is, as values.
pub ghost struct InputPortView {
    pub name: Seq<char>,
    pub field_type: IacType,
    pub source_workspace: Seq<char>,
    pub source_output: Seq<char>,
}

/// What a workspace node is, as values.
pub ghost struct WorkspaceNodeView {
    pub id: Seq<char>,
    pub name: Seq<char>,
    pub state_key: Seq<char>,
    pub provider: Seq<char>,
    pub outputs: Seq<OutputPortView>,
    pub inputs: Seq<InputPortView>,
}

/// What an edge is, as values.
pub ghost struct WorkspaceEdgeView {
    pub from: Seq<char>,
    pub to: Seq<char>,
    pub output_name: Seq<char>,
    pub input_name: Seq<char>,
    pub field_type: IacType,
}

/// A typed output port -- what a workspace produces.
#[derive(Debug, PartialEq, Eq)]
pub struct OutputPort {
    pub name: String,
    pub field_type: IacType,
    /// Resource path producing this output (e.g., `aws_route53_zone.zone.zone_id`).
    pub source_resource: String,
}

impl View for OutputPort {
    type V = OutputPortView;

    open spec fn view(&self) -> OutputPortView {
        OutputPortView {
            name: self.name@,
            field_type: self.field_type,
            source_resource: self.source_resource@,
        }
    }
}

impl Clone for OutputPort {
    fn clone(&self) -> (r: Self)
        ensures
            r == *self,
    {
        OutputPort {
            name: self.name.clone(),
            field_type: clone_field_type(&self.field_type),
            source_resource: self.source_resource.clone(),
        }
    }
}

/// A typed input port -- what a workspace consumes.
#[derive(Debug, PartialEq, Eq)]
pub struct InputPort {
    pub name: String,
    pub field_type: IacType,
    pub source_workspace: WorkspaceId,
    pub source_output: String,
}

impl View for InputPort {
    type V = InputPortView;

    open spec fn view(&self) -> InputPortView {
        InputPortView {
            name: self.name@,
            field_type: self.field_type,
            source_workspace: self.source_workspace@,
            source_output: self.source_output@,
        }
    }
}

impl Clone for InputPort {
    fn clone(&self) -> (r: Self)
        ensures
            r == *self,
    {
        InputPort {
            name: self.name.clone(),
            field_type: clone_field_type(&self.field_type),
            source_workspace: self.source_workspace.clone(),
            source_output: self.source_output.clone(),
        }
    }
}

/// Metadata about a workspace.
#[derive(Debug, PartialEq, Eq)]
pub struct WorkspaceNode {
    pub id: WorkspaceId,
    pub name: String,
    /// S3 state file key.
    pub state_key: String,
    /// Cloud provider (e.g., `aws`).
    pub provider: String,
    pub outputs: Vec<OutputPort>,
    pub inputs: Vec<InputPort>,
}

impl View for WorkspaceNode {
    type V = WorkspaceNodeView;

    open spec fn view(&self) -> WorkspaceNodeView {
        WorkspaceNodeView {
            id: self.id@,
            name: self.name@,
            state_key: self.state_key@,
            provider: self.provider@,
            outputs: self.outputs@.map_values(|o: OutputPort| o@),
            inputs: self.inputs@.map_values(|i: InputPort| i@),
        }
    }
}

impl Clone for WorkspaceNode {
    fn clone(&self) -> (r: Self)
        ensures
            r@ == self@,
    {
        let r = WorkspaceNode {
            id: self.id.clone(),
            name: self.name.clone(),
            state_key: self.state_key.clone(),
            provider: self.provider.clone(),
            outputs: self.outputs.clone(),
            inputs: self.inputs.clone(),
        };
        assert(r.outputs@.map_values(|o: OutputPort| o@) =~= self.outputs@.map_values(|o: OutputPort| o@));
        assert(r.inputs@.map_values(|i: InputPort| i@) =~= self.inputs@.map_values(|i: InputPort| i@));
        r
    }
}

/// A typed edge between workspaces.
#[derive(Debug, PartialEq, Eq)]
pub struct WorkspaceEdge {
    pub from: WorkspaceId,
    pub to: WorkspaceId,
    pub output_name: String,
    pub input_name: String,
    pub field_type: IacType,
}

impl View for WorkspaceEdge {
    type V = WorkspaceEdgeView;

    open spec fn view(&self) -> WorkspaceEdgeView {
        WorkspaceEdgeView {
            from: self.from@,
            to: self.to@,
            output_name: self.output_name@,
            input_name: self.input_name@,
            field_type: self.field_type,
        }
    }
}

impl Clone for WorkspaceEdge {
    fn clone(&self) -> (r: Self)
        ensures
            r == *self,
    {
        WorkspaceEdge {
            from: self.from.clone(),
            to: self.to.clone(),
            output_name: self.output_name.clone(),
            input_name: self.input_name.clone(),
            field_type: clone_field_type(&self.field_type),
        }
    }
}


/// The identities of a sequence of nodes, in order.
pub open spec fn node_ids(nodes: Seq<WorkspaceNodeView>) -> Seq<Seq<char>> {
    nodes.map_values(|n: WorkspaceNodeView| n.id)
}

/// Inserting `n` into nodes kept in increasing identity order: it replaces the node
/// with its identity, or goes in front of the first node with a larger identity.
pub open spec fn sorted_insert(nodes: Seq<WorkspaceNodeView>, n: WorkspaceNodeView) -> Seq<WorkspaceNodeView>
    decreases nodes.len(),
{
    if nodes.len() == 0 {
        seq![n]
    } else if nodes[0].id == n.id {
        seq![n] + nodes.drop_first()
    } else if text_lt(n.id, nodes[0].id) {
        seq![n] + nodes
    } else {
        seq![nodes[0]] + sorted_insert(nodes.drop_first(), n)
    }
}

/// The position of the node with identity `id`, if there is one.
pub open spec fn position_of(nodes: Seq<WorkspaceNodeView>, id: Seq<char>) -> Option<int> {
    if exists|i: int| 0 <= i < nodes.len() && nodes[i].id == id {
        Some(choose|i: int| 0 <= i < nodes.len() && nodes[i].id == id)
    } else {
        None
    }
}

/// The node of `nodes` with identity `id`, if there is one.
pub open spec fn node_with_id(nodes: Seq<WorkspaceNodeView>, id: Seq<char>) -> Option<WorkspaceNodeView> {
    match position_of(nodes, id) {
        Some(i) => Some(nodes[i]),
        None => None,
    }
}

/// How many of the leading nodes have an identity below `id`.
spec fn insertion_point(nodes: Seq<WorkspaceNodeView>, id: Seq<char>) -> int
    decreases nodes.len(),
{
    if nodes.len() > 0 && text_lt(nodes[0].id, id) {
        1 + insertion_point(nodes.drop_first(), id)
    } else {
        0
    }
}

proof fn lemma_insertion_point(nodes: Seq<WorkspaceNodeView>, id: Seq<char>)
    ensures
        0 <= insertion_point(nodes, id) <= nodes.len(),
        forall|k: int| 0 <= k < insertion_point(nodes, id) ==> text_lt(#[trigger] nodes[k].id, id),
        insertion_point(nodes, id) < nodes.len() ==> !text_lt(nodes[insertion_point(nodes, id)].id, id),
    decreases nodes.len(),
{
    if nodes.len() > 0 && text_lt(nodes[0].id, id) {
        let rest = nodes.drop_first();
        lemma_insertion_point(rest, id);
        assert forall|k: int| 0 <= k < insertion_point(nodes, id) implies text_lt(#[trigger] nodes[k].id, id) by {
            if k > 0 {
                assert(nodes[k] == rest[k - 1]);
            }
        }
    }
}

/// In nodes kept in strictly increasing identity order, a node is found at its own
/// position.
pub proof fn lemma_position_sorted(nodes: Seq<WorkspaceNodeView>, i: int)
    requires
        strictly_sorted(node_ids(nodes)),
        0 <= i < nodes.len(),
    ensures
        position_of(nodes, nodes[i].id) == Some(i),
{
    let c = choose|c: int| 0 <= c < nodes.len() && nodes[c].id == nodes[i].id;
    if c != i {
        let (a, b) = if c < i { (c, i) } else { (i, c) };
        assert(text_lt(node_ids(nodes)[a], node_ids(nodes)[b]));
        lemma_text_lt_irreflexive(nodes[i].id);
    }
}

/// Writing then reading: once `n` is inserted into nodes kept in strictly increasing
/// identity order, they stay so; `n` is found under its identity; every other
/// identity finds what it found before; and the count grows by one exactly when the
/// identity was new.
pub proof fn lemma_insert_then_get(nodes: Seq<WorkspaceNodeView>, n: WorkspaceNodeView)
    requires
        strictly_sorted(node_ids(nodes)),
    ensures
        strictly_sorted(node_ids(sorted_insert(nodes, n))),
        node_with_id(sorted_insert(nodes, n), n.id) == Some(n),
        forall|id: Seq<char>| id != n.id ==> #[trigger] node_with_id(sorted_insert(nodes, n), id) == node_with_id(nodes, id),
        position_of(nodes, n.id) is Some ==> sorted_insert(nodes, n).len() == nodes.len(),
        position_of(nodes, n.id) is None ==> sorted_insert(nodes, n).len() == nodes.len() + 1,
{
    let p = insertion_point(nodes, n.id);
    lemma_insertion_point(nodes, n.id);
    lemma_sorted_insert_split(nodes, n, p);
    let r = sorted_insert(nodes, n);
    lemma_text_lt_irreflexive(n.id);
    if p < nodes.len() && nodes[p].id == n.id {
        assert(node_ids(r) =~= node_ids(nodes));
        lemma_position_sorted(r, p);
        lemma_position_sorted(nodes, p);
        assert forall|id: Seq<char>| id != n.id implies #[trigger] node_with_id(r, id) == node_with_id(nodes, id) by {
            if exists|i: int| 0 <= i < nodes.len() && nodes[i].id == id {
                let i = choose|i: int| 0 <= i < nodes.len() && nodes[i].id == id;
                lemma_position_sorted(nodes, i);
                assert(r[i] == nodes[i]);
                lemma_position_sorted(r, i);
            } else {
                assert forall|j: int| 0 <= j < r.len() implies r[j].id != id by {
                    if j != p {
                        assert(r[j] == nodes[j]);
                    }
                }
            }
        }
    } else {
        assert(position_of(nodes, n.id) is None) by {
            if exists|c: int| 0 <= c < nodes.len() && nodes[c].id == n.id {
                let c = choose|c: int| 0 <= c < nodes.len() && nodes[c].id == n.id;
                if c > p {
                    assert(text_lt(node_ids(nodes)[p], node_ids(nodes)[c]));
                    lemma_text_lt_total(n.id, nodes[p].id);
                    lemma_text_lt_transitive(n.id, nodes[p].id, n.id);
                }
            }
        }
        assert forall|i: int, j: int| 0 <= i < j < node_ids(r).len() implies text_lt(
            #[trigger] node_ids(r)[i],
            #[trigger] node_ids(r)[j],
        ) by {
            if p < nodes.len() {
                lemma_text_lt_total(n.id, nodes[p].id);
            }
            if i < p && j == p {
            } else if i == p && j > p {
                if j - 1 > p {
                    assert(text_lt(node_ids(nodes)[p], node_ids(nodes)[j - 1]));
                    lemma_text_lt_transitive(n.id, nodes[p].id, nodes[j - 1].id);
                }
            } else if i < p && j > p {
                assert(text_lt(node_ids(nodes)[i], node_ids(nodes)[j - 1]));
            } else if i > p {
                assert(text_lt(node_ids(nodes)[i - 1], node_ids(nodes)[j - 1]));
            } else {
                assert(text_lt(node_ids(nodes)[i], node_ids(nodes)[j]));
            }
        }
        lemma_position_sorted(r, p);
        assert forall|id: Seq<char>| id != n.id implies #[trigger] node_with_id(r, id) == node_with_id(nodes, id) by {
            if exists|i: int| 0 <= i < nodes.len() && nodes[i].id == id {
                let i = choose|i: int| 0 <= i < nodes.len() && nodes[i].id == id;
                lemma_position_sorted(nodes, i);
                let k = if i < p { i } else { i + 1 };
                assert(r[k] == nodes[i]);
                lemma_position_sorted(r, k);
            } else {
                assert forall|j: int| 0 <= j < r.len() implies r[j].id != id by {
                    if j < p {
                        assert(r[j] == nodes[j]);
                    } else if j > p {
                        assert(r[j] == nodes[j - 1]);
                    }
                }
            }
        }
    }
}

/// Workspaces keyed by identity, kept in increasing identity order.
#[derive(Debug)]
pub struct WorkspaceMap {
    entries: Vec<WorkspaceNode>,
}

impl View for WorkspaceMap {
    type V = Seq<WorkspaceNodeView>;

    closed spec fn view(&self) -> Seq<WorkspaceNodeView> {
        self.entries@.map_values(|n: WorkspaceNode| n@)
    }
}

proof fn lemma_sorted_insert_split(nodes: Seq<WorkspaceNodeView>, n: WorkspaceNodeView, p: int)
    requires
        strictly_sorted(node_ids(nodes)),
        0 <= p <= nodes.len(),
        forall|k: int| 0 <= k < p ==> text_lt(#[trigger] nodes[k].id, n.id),
        p < nodes.len() ==> !text_lt(nodes[p].id, n.id),
    ensures
        p < nodes.len() && nodes[p].id == n.id ==> sorted_insert(nodes, n) == nodes.update(p, n),
        !(p < nodes.len() && nodes[p].id == n.id) ==> sorted_insert(nodes, n) == nodes.insert(p, n),
    decreases p,
{
    if p == 0 {
        if nodes.len() > 0 && nodes[0].id != n.id {
            lemma_text_lt_total(nodes[0].id, n.id);
            assert(text_lt(n.id, nodes[0].id));
        }
        if nodes.len() > 0 {
            assert(seq![n] + nodes.drop_first() =~= nodes.update(0, n));
        }
        assert(seq![n] + nodes =~= nodes.insert(0, n));
    } else {
        let rest = nodes.drop_first();
        assert(node_ids(rest) =~= node_ids(nodes).drop_first());
        assert(nodes[0].id == node_ids(nodes)[0]);
        assert(text_lt(nodes[0].id, n.id));
        lemma_text_lt_irreflexive(n.id);
        if text_lt(n.id, nodes[0].id) {
            lemma_text_lt_transitive(n.id, nodes[0].id, n.id);
        }
        assert forall|k: int| 0 <= k < p - 1 implies text_lt(#[trigger] rest[k].id, n.id) by {
            assert(rest[k] == nodes[k + 1]);
        }
        assert forall|i: int, j: int| 0 <= i < j < node_ids(rest).len() implies text_lt(
            #[trigger] node_ids(rest)[i],
            #[trigger] node_ids(rest)[j],
        ) by {
            assert(node_ids(rest)[i] == node_ids(nodes)[i + 1]);
            assert(node_ids(rest)[j] == node_ids(nodes)[j + 1]);
        }
        lemma_sorted_insert_split(rest, n, p - 1);
        if p < nodes.len() && nodes[p].id == n.id {
            assert(seq![nodes[0]] + rest.update(p - 1, n) =~= nodes.update(p, n));
        } else {
            assert(seq![nodes[0]] + rest.insert(p - 1, n) =~= nodes.insert(p, n));
        }
    }
}

impl Clone for WorkspaceMap {
    fn clone(&self) -> (r: Self)
        ensures
            r@ == self@,
    {
        proof {
            use_type_invariant(self);
        }
        let entries = self.entries.clone();
        assert(entries@.map_values(|n: WorkspaceNode| n@) =~= self@) by {
            assert forall|k: int| 0 <= k < entries@.len() implies entries@[k]@ == self.entries@[k]@ by {
                assert(cloned::<WorkspaceNode>(self.entries@[k], entries@[k]));
            }
        }
        assert(entries@.map_values(|n: WorkspaceNode| n.id@) =~= self.entries@.map_values(|n: WorkspaceNode| n.id@)) by {
            assert forall|k: int| 0 <= k < entries@.len() implies entries@[k].id@ == self.entries@[k].id@ by {
                assert(cloned::<WorkspaceNode>(self.entries@[k], entries@[k]));
            }
        }
        WorkspaceMap { entries }
    }
}

impl WorkspaceMap {
    #[verifier::type_invariant]
    spec fn ordered(self) -> bool {
        strictly_sorted(self.entries@.map_values(|n: WorkspaceNode| n.id@))
    }

    /// The identities of the workspaces, in increasing order.
    pub open spec fn ids(self) -> Seq<Seq<char>> {
        node_ids(self@)
    }

    proof fn lemma_ids(self)
        ensures
            self.ids() =~= self.entries@.map_values(|n: WorkspaceNode| n.id@),
    {
    }

    /// The workspaces, handed out in increasing identity order.
    pub(crate) fn into_nodes(self) -> (r: Vec<WorkspaceNode>)
        ensures
            r@.map_values(|n: WorkspaceNode| n@) == self@,
            strictly_sorted(node_ids(self@)),
    {
        proof {
            use_type_invariant(&self);
            self.lemma_ids();
        }
        self.entries
    }

    /// A map holding `entries`, which are in strictly increasing identity order.
    pub(crate) fn from_sorted(entries: Vec<WorkspaceNode>) -> (m: WorkspaceMap)
        requires
            strictly_sorted(node_ids(entries@.map_values(|n: WorkspaceNode| n@))),
        ensures
            m@ == entries@.map_values(|n: WorkspaceNode| n@),
    {
        assert(entries@.map_values(|n: WorkspaceNode| n.id@) =~= node_ids(entries@.map_values(|n: WorkspaceNode| n@)));
        WorkspaceMap { entries }
    }

    /// An empty map.
    pub fn new() -> (m: WorkspaceMap)
        ensures
            m@ == Seq::<WorkspaceNodeView>::empty(),
    {
        let m = WorkspaceMap { entries: Vec::new() };
        assert(m@ =~= Seq::<WorkspaceNodeView>::empty());
        m
    }

    /// The number of workspaces.
    pub fn len(&self) -> (r: usize)
        ensures
            r == self@.len(),
    {
        self.entries.len()
    }

    /// Whether the map holds no workspace.
    pub fn is_empty(&self) -> (r: bool)
        ensures
            r == (self@.len() == 0),
    {
        self.entries.len() == 0
    }

    /// The workspaces in increasing identity order.
    pub fn values(&self) -> (r: &Vec<WorkspaceNode>)
        ensures
            r@.map_values(|n: WorkspaceNode| n@) == self@,
            strictly_sorted(self.ids()),
    {
        proof {
            use_type_invariant(self);
            self.lemma_ids();
        }
        &self.entries
    }

    /// The position of the workspace with identity `id`, if there is one.
    pub fn index_of(&self, id: &WorkspaceId) -> (r: Option<usize>)
        ensures
            r matches Some(i) ==> position_of(self@, id@) == Some(i as int) && i < self@.len() && self@[i as int].id == id@,
            r is None ==> position_of(self@, id@) is None && !self.ids().contains(id@),
    {
        proof {
            use_type_invariant(self);
            self.lemma_ids();
        }
        let mut i: usize = 0;
        while i < self.entries.len()
            invariant
                i <= self.entries@.len(),
                strictly_sorted(self.ids()),
                self.ids() =~= self.entries@.map_values(|n: WorkspaceNode| n.id@),
                forall|k: int| 0 <= k < i ==> self@[k].id != id@,
            decreases self.entries@.len() - i,
        {
            if self.entries[i].id.same(id) {
                proof {
                    self.lemma_view_index(i as int);
                    lemma_position_sorted(self@, i as int);
                }
                return Some(i);
            }
            i = i + 1;
        }
        proof {
            if self.ids().contains(id@) {
                let k = choose|k: int| 0 <= k < self.ids().len() && self.ids()[k] == id@;
                assert(self@[k].id == id@);
            }
        }
        None
    }

    /// Whether a workspace with identity `id` is present.
    pub fn contains_key(&self, id: &WorkspaceId) -> (r: bool)
        ensures
            r == self.ids().contains(id@),
    {
        match self.index_of(id) {
            Some(i) => {
                assert(self.ids()[i as int] == id@);
                true
            },
            None => false,
        }
    }

    /// The workspace with identity `id`, if there is one.
    pub fn get(&self, id: &WorkspaceId) -> (r: Option<&WorkspaceNode>)
        ensures
            r matches Some(n) ==> position_of(self@, id@) matches Some(i) && n@ == self@[i],
            r is None <==> position_of(self@, id@) is None,
    {
        match self.index_of(id) {
            Some(i) => {
                proof {
                    self.lemma_view_index(i as int);
                }
                Some(&self.entries[i])
            },
            None => None,
        }
    }

    proof fn lemma_view_index(self, i: int)
        requires
            0 <= i < self.entries@.len(),
        ensures
            self@[i] == self.entries@[i]@,
    {
    }

    /// The identities of the workspaces, in increasing order.
    pub fn keys(&self) -> (r: Vec<WorkspaceId>)
        ensures
            r@.map_values(|k: WorkspaceId| k@) == self.ids(),
    {
        let mut r: Vec<WorkspaceId> = Vec::new();
        let mut i: usize = 0;
        while i < self.entries.len()
            invariant
                i <= self.entries@.len(),
                r@.len() == i,
                forall|k: int| 0 <= k < i ==> #[trigger] r@[k]@ == self@[k].id,
            decreases self.entries@.len() - i,
        {
            r.push(self.entries[i].id.clone());
            i = i + 1;
        }
        assert(r@.map_values(|k: WorkspaceId| k@) =~= self.ids());
        r
    }

    /// Adds `node` under its own identity, replacing the workspace that had it;
    /// gives back the replaced workspace.
    pub fn insert(&mut self, node: WorkspaceNode) -> (r: Option<WorkspaceNode>)
        ensures
            final(self)@ == sorted_insert(old(self)@, node@),
            r matches Some(n) ==> position_of(old(self)@, node@.id) matches Some(i) && n@ == old(self)@[i],
            r is None <==> position_of(old(self)@, node@.id) is None,
    {
        proof {
            use_type_invariant(&*self);
            self.lemma_ids();
        }
        let ghost old_view = self@;
        let mut p: usize = 0;
        while p < self.entries.len() && text_less(self.entries[p].id.0.as_str(), node.id.0.as_str())
            invariant
                p <= self.entries@.len(),
                self@ == old_view,
                strictly_sorted(node_ids(old_view)),
                forall|k: int| 0 <= k < p ==> text_lt(#[trigger] old_view[k].id, node@.id),
            decreases self.entries@.len() - p,
        {
            p = p + 1;
        }
        proof {
            lemma_sorted_insert_split(old_view, node@, p as int);
        }
        let ghost new_ids = sorted_insert(old_view, node@);
        if p < self.entries.len() && self.entries[p].id.same(&node.id) {
            proof {
                self.lemma_view_index(p as int);
                lemma_position_sorted(old_view, p as int);
            }
            let mut entries: Vec<WorkspaceNode> = Vec::new();
            std::mem::swap(&mut entries, &mut self.entries);
            let old_node = entries.remove(p);
            entries.insert(p, node);
            assert(entries@.map_values(|n: WorkspaceNode| n@) =~= old_view.update(p as int, node@));
            assert(entries@.map_values(|n: WorkspaceNode| n.id@) =~= node_ids(old_view)) by {
                assert forall|k: int| 0 <= k < entries@.len() implies entries@[k].id@ == node_ids(old_view)[k] by {
                    assert(entries@.map_values(|n: WorkspaceNode| n@)[k] == entries@[k]@);
                }
            }
            self.entries = entries;
            assert(self@ =~= old_view.update(p as int, node@));
            Some(old_node)
        } else {
            proof {
                lemma_insert_then_get(old_view, node@);
            }
            let mut entries: Vec<WorkspaceNode> = Vec::new();
            std::mem::swap(&mut entries, &mut self.entries);
            entries.insert(p, node);
            assert(entries@.map_values(|n: WorkspaceNode| n@) =~= old_view.insert(p as int, node@));
            assert(entries@.map_values(|n: WorkspaceNode| n.id@) =~= node_ids(new_ids)) by {
                assert forall|k: int| 0 <= k < entries@.len() implies entries@[k].id@ == node_ids(new_ids)[k] by {
                    assert(entries@.map_values(|n: WorkspaceNode| n@)[k] == entries@[k]@);
                }
            }
            self.entries = entries;
            assert(self@ =~= old_view.insert(p as int, node@));
            None
        }
    }
}

/// What a graph is, as values.
pub ghost struct GraphView {
    pub nodes: Seq<WorkspaceNodeView>,
    pub edges: Seq<WorkspaceEdgeView>,
}

impl GraphView {
    /// The workspaces are held in strictly increasing identity order.
    pub open spec fn well_ordered(self) -> bool {
        strictly_sorted(node_ids(self.nodes))
    }
}

/// The complete workspace dependency graph.
#[derive(Debug)]
pub struct WorkspaceGraph {
    pub nodes: WorkspaceMap,
    pub edges: Vec<WorkspaceEdge>,
}

impl View for WorkspaceGraph {
    type V = GraphView;

    open spec fn view(&self) -> GraphView {
        GraphView {
            nodes: self.nodes@,
            edges: self.edges@.map_values(|e: WorkspaceEdge| e@),
        }
    }
}

impl Clone for WorkspaceGraph {
    fn clone(&self) -> (r: Self)
        ensures
            r@ == self@,
    {
        let edges = self.edges.clone();
        assert(edges@.map_values(|e: WorkspaceEdge| e@) =~= self.edges@.map_values(|e: WorkspaceEdge| e@)) by {
            assert forall|k: int| 0 <= k < edges@.len() implies edges@[k] == self.edges@[k] by {
                assert(cloned::<WorkspaceEdge>(self.edges@[k], edges@[k]));
            }
        }
        WorkspaceGraph { nodes: self.nodes.clone(), edges }
    }
}

impl Default for WorkspaceGraph {
    fn default() -> (g: Self)
        ensures
            g@.nodes == Seq::<WorkspaceNodeView>::empty(),
            g@.edges == Seq::<WorkspaceEdgeView>::empty(),
    {
        let g = WorkspaceGraph { nodes: WorkspaceMap::new(), edges: Vec::new() };
        assert(g@.edges =~= Seq::<WorkspaceEdgeView>::empty());
        g
    }
}

} // verus!
