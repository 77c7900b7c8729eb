//! Impact analysis and deployment ordering.
use vstd::prelude::*;
use crate::dependency::{
    acyclic, blocked, blocked_ids, dependency_lists, depends, depends_on_member, holds, is_deployment_order,
    kahn_ids, lemma_deployment_order_means_acyclic, lemma_distinct_below, lemma_ids_distinct, listed,
    self_supporting, topological_positions, untaken_ids,
};
use crate::types::{
    GraphView, WorkspaceGraph, WorkspaceId, WorkspaceNode, WorkspaceNodeView, lemma_position_sorted, node_ids,
    position_of,
};
use crate::verify::{GraphViolation, ViolationView};

verus! {

/// The identities of a list of workspaces.
pub open spec fn ids_view(ids: Seq<WorkspaceId>) -> Seq<Seq<char>> {
    ids.map_values(|w: WorkspaceId| w@)
}

/// Compute a valid deployment order via topological sort.
///
/// Returns workspaces ordered so that every workspace appears **after** all of
/// its dependencies. Returns an error if the graph contains a cycle.
pub fn deployment_order(graph: &WorkspaceGraph) -> (r: Result<Vec<WorkspaceId>, GraphViolation>)
    ensures
        r is Ok <==> acyclic(graph@.nodes),
        r is Ok <==> (exists|o: Seq<Seq<char>>| is_deployment_order(graph@.nodes, o)),
        r matches Ok(order) ==> is_deployment_order(graph@.nodes, ids_view(order@)),
        r matches Ok(order) ==> ids_view(order@) == kahn_ids(graph@.nodes),
        r matches Err(v) ==> v@ == (ViolationView::CyclicDependency { workspaces: blocked_ids(graph@.nodes) }),
{
    let ghost all = graph@.nodes;
    let order = topological_positions(graph);
    let nodes = graph.nodes.values();
    if order.len() == nodes.len() {
        let mut ids: Vec<WorkspaceId> = Vec::new();
        let mut k: usize = 0;
        while k < order.len()
            invariant
                all == graph@.nodes,
                nodes@.map_values(|n: WorkspaceNode| n@) == all,
                forall|m: int| 0 <= m < order@.len() ==> (#[trigger] order@[m] as int) < all.len(),
                k <= order@.len(),
                ids@.len() == k,
                forall|m: int| 0 <= m < k ==> #[trigger] ids@[m]@ == all[order@[m] as int].id,
            decreases order@.len() - k,
        {
            assert(nodes@[order@[k as int] as int]@ == all[order@[k as int] as int]);
            ids.push(nodes[order[k]].id.clone());
            k = k + 1;
        }
        proof {
            let o = ids_view(ids@);
            assert forall|m: int| 0 <= m < o.len() implies node_ids(all).contains(#[trigger] o[m]) by {
                assert(node_ids(all)[order@[m] as int] == o[m]);
            }
            assert forall|a: int, b: int| 0 <= a < b < o.len() implies o[a] != o[b] by {
                if o[a] == o[b] {
                    lemma_ids_distinct(all, order@[a] as int, order@[b] as int);
                }
            }
            assert forall|k1: int, k2: int|
                0 <= k1 < o.len() && 0 <= k2 < o.len() && #[trigger] crate::dependency::depends_on_id(
                    all,
                    o[k1],
                    o[k2],
                ) implies k1 < k2 by {
                let (i, j) = choose|i: int, j: int| all[i].id == o[k1] && all[j].id == o[k2] && #[trigger] depends(all, i, j);
                lemma_ids_distinct(all, i, order@[k1] as int);
                lemma_ids_distinct(all, j, order@[k2] as int);
            }
            assert(is_deployment_order(all, o));
            assert(o =~= kahn_ids(all));
        }
        Ok(ids)
    } else {
        proof {
            if exists|o: Seq<Seq<char>>| is_deployment_order(all, o) {
                let o = choose|o: Seq<Seq<char>>| is_deployment_order(all, o);
                lemma_deployment_order_means_acyclic(all, o);
            }
        }
        let members = untaken_ids(graph, &order);
        Err(GraphViolation::CyclicDependency { workspaces: members })
    }
}

/// `p` is a chain of dependencies from workspace `p[0]` to workspace `p.last()`:
/// each step reads from the one before it.
pub open spec fn is_dependency_path(nodes: Seq<WorkspaceNodeView>, p: Seq<int>) -> bool {
    &&& p.len() >= 2
    &&& forall|t: int| 0 <= t < p.len() ==> 0 <= #[trigger] p[t] < nodes.len()
    &&& forall|t: int| 0 <= t < p.len() - 1 ==> #[trigger] depends(nodes, p[t], p[t + 1])
}

/// Workspace `b` depends, directly or transitively, on workspace `a`.
pub open spec fn reaches(nodes: Seq<WorkspaceNodeView>, a: int, b: int) -> bool {
    exists|p: Seq<int>| is_dependency_path(nodes, p) && p[0] == a && p.last() == b
}

/// Workspace `j` must re-converge when the workspace with identity `changed` does:
/// it depends on it, directly or transitively, and is not that workspace itself.
pub open spec fn is_affected(nodes: Seq<WorkspaceNodeView>, changed: Seq<char>, j: int) -> bool {
    match position_of(nodes, changed) {
        Some(s) => j != s && reaches(nodes, s, j),
        None => false,
    }
}

proof fn lemma_path_extend(nodes: Seq<WorkspaceNodeView>, a: int, c: int, j: int)
    requires
        reaches(nodes, a, c),
        depends(nodes, c, j),
    ensures
        reaches(nodes, a, j),
{
    let p = choose|p: Seq<int>| is_dependency_path(nodes, p) && p[0] == a && p.last() == c;
    let q = p.push(j);
    assert forall|t: int| 0 <= t < q.len() - 1 implies #[trigger] depends(nodes, q[t], q[t + 1]) by {
        if t < p.len() - 1 {
            assert(q[t] == p[t] && q[t + 1] == p[t + 1]);
        } else {
            assert(q[t] == c && q[t + 1] == j);
        }
    }
    assert forall|t: int| 0 <= t < q.len() implies 0 <= #[trigger] q[t] < nodes.len() by {
        if t < p.len() {
            assert(q[t] == p[t]);
        }
    }
    assert(is_dependency_path(nodes, q));
    assert(q[0] == a && q.last() == j);
}

/// Along a dependency path from `s`, every workspace after `s` is marked, when the
/// marks hold everything `s` feeds and are closed under feeding.
proof fn lemma_path_marked(nodes: Seq<WorkspaceNodeView>, p: Seq<int>, marked: Set<int>, t: int)
    requires
        is_dependency_path(nodes, p),
        1 <= t < p.len(),
        forall|j: int| #[trigger] depends(nodes, p[0], j) ==> marked.contains(j),
        forall|c: int, j: int| marked.contains(c) && #[trigger] depends(nodes, c, j) ==> marked.contains(j),
    ensures
        marked.contains(p[t]),
    decreases t,
{
    let u = t - 1;
    assert(depends(nodes, p[u], p[u + 1]));
    if t > 1 {
        lemma_path_marked(nodes, p, marked, t - 1);
    }
}

/// `id` is the identity of a workspace that a change to `changed` affects.
pub open spec fn is_affected_id(nodes: Seq<WorkspaceNodeView>, changed: Seq<char>, id: Seq<char>) -> bool {
    exists|j: int| 0 <= j < nodes.len() && nodes[j].id == id && is_affected(nodes, changed, j)
}

/// The positions below `t`, in position order, of the workspaces that read from
/// workspace `c` and are not in `queue`.
pub open spec fn newly_reached(nodes: Seq<WorkspaceNodeView>, queue: Seq<usize>, c: int, t: int) -> Seq<usize>
    decreases t,
{
    if t <= 0 {
        seq![]
    } else {
        newly_reached(nodes, queue, c, t - 1) + if !queue.contains((t - 1) as usize) && depends(nodes, c, t - 1) {
            seq![(t - 1) as usize]
        } else {
            seq![]
        }
    }
}

/// Breadth-first search over dependents from a queue whose first `head` entries
/// have been expanded: the next entry is expanded, and the workspaces reading from
/// it that are not yet queued join the queue in position order.
pub open spec fn search_from(nodes: Seq<WorkspaceNodeView>, queue: Seq<usize>, head: int) -> Seq<usize>
    decreases nodes.len() - head,
{
    if 0 <= head < queue.len() && head < nodes.len() {
        search_from(nodes, queue + newly_reached(nodes, queue, queue[head] as int, nodes.len() as int), head + 1)
    } else {
        queue
    }
}

/// The positions of the workspaces that depend, directly or transitively, on
/// workspace `s`, in the order a breadth-first search from `s` discovers them: first
/// those reading from `s`, then level by level, each level in position order.
pub open spec fn discovery_order(nodes: Seq<WorkspaceNodeView>, s: int) -> Seq<usize> {
    search_from(nodes, newly_reached(nodes, Seq::<usize>::empty(), s, nodes.len() as int), 0)
}

/// The entries of `q` other than `s`, in order.
pub open spec fn without(q: Seq<usize>, s: int) -> Seq<usize>
    decreases q.len(),
{
    if q.len() == 0 {
        seq![]
    } else {
        without(q.drop_last(), s) + if q.last() as int != s {
            seq![q.last()]
        } else {
            seq![]
        }
    }
}

/// The identities of the workspaces that a change to `changed` affects, in the
/// order a breadth-first search from it discovers them; `changed` itself is left out.
pub open spec fn affected_ids(nodes: Seq<WorkspaceNodeView>, changed: Seq<char>) -> Seq<Seq<char>> {
    match position_of(nodes, changed) {
        Some(s) => without(discovery_order(nodes, s), s).map_values(|p: usize| nodes[p as int].id),
        None => seq![],
    }
}

proof fn lemma_newly_reached_below(nodes: Seq<WorkspaceNodeView>, queue: Seq<usize>, c: int, t: int)
    requires
        t <= usize::MAX + 1,
    ensures
        forall|k: int|
            0 <= k < newly_reached(nodes, queue, c, t).len() ==> (#[trigger] newly_reached(nodes, queue, c, t)[k] as int) < t,
    decreases t,
{
    if t > 0 {
        lemma_newly_reached_below(nodes, queue, c, t - 1);
        let prior = newly_reached(nodes, queue, c, t - 1);
        let all = newly_reached(nodes, queue, c, t);
        assert forall|k: int| 0 <= k < all.len() implies (#[trigger] all[k] as int) < t by {
            if k < prior.len() {
                assert(all[k] == prior[k]);
            }
        }
    }
}

/// Compute the transitive closure of workspaces affected by a change to `changed`.
///
/// Returns every workspace that directly or transitively depends on the
/// changed workspace, in the order a breadth-first search over dependents
/// discovers them. The changed workspace itself is **not** included.
pub fn affected_workspaces(graph: &WorkspaceGraph, changed: &WorkspaceId) -> (r: Vec<WorkspaceId>)
    ensures
        forall|k: int| 0 <= k < r@.len() ==> is_affected_id(graph@.nodes, changed@, #[trigger] r@[k]@),
        forall|j: int|
            0 <= j < graph@.nodes.len() && #[trigger] is_affected(graph@.nodes, changed@, j) ==> ids_view(
                r@,
            ).contains(graph@.nodes[j].id),
        ids_view(r@) == affected_ids(graph@.nodes, changed@),
{
    let ghost all = graph@.nodes;
    let nodes = graph.nodes.values();
    let n = nodes.len();
    let mut r: Vec<WorkspaceId> = Vec::new();
    let s = match graph.nodes.index_of(changed) {
        Some(s) => s,
        None => {
            assert(ids_view(r@) =~= Seq::<Seq<char>>::empty());
            return r;
        },
    };
    let preds = dependency_lists(graph);
    let mut visited: Vec<bool> = Vec::new();
    let mut queue: Vec<usize> = Vec::new();
    let mut j: usize = 0;
    while j < n
        invariant
            all == graph@.nodes,
            n == all.len(),
            (s as int) < n,
            preds@.len() == n,
            forall|i: int, x: int| #[trigger] listed(preds@, i, x) <==> depends(all, i, x),
            j <= n,
            visited@.len() == j,
            queue@.no_duplicates(),
            forall|k: int| 0 <= k < queue@.len() ==> (#[trigger] queue@[k] as int) < j,
            forall|x: int| 0 <= x < j ==> (#[trigger] visited@[x] <==> queue@.contains(x as usize)),
            forall|x: int| 0 <= x < j ==> (#[trigger] visited@[x] <==> depends(all, s as int, x)),
            forall|k: int| 0 <= k < queue@.len() ==> depends(all, s as int, #[trigger] queue@[k] as int),
            queue@ == newly_reached(all, Seq::<usize>::empty(), s as int, j as int),
        decreases n - j,
    {
        let feeds = holds(&preds[j], s);
        assert(feeds == listed(preds@, s as int, j as int));
        assert(!Seq::<usize>::empty().contains(j));
        let ghost q0 = queue@;
        if feeds {
            queue.push(j);
        }
        visited.push(feeds);
        proof {
            assert forall|x: int| 0 <= x <= j implies (#[trigger] visited@[x] <==> queue@.contains(x as usize)) by {
                if x < j {
                    if q0.contains(x as usize) {
                        let q = choose|q: int| 0 <= q < q0.len() && q0[q] == x as usize;
                        assert(queue@[q] == x as usize);
                    }
                    if queue@.contains(x as usize) {
                        let q = choose|q: int| 0 <= q < queue@.len() && queue@[q] == x as usize;
                        if q < q0.len() {
                            assert(q0[q] == x as usize);
                        }
                    }
                } else if feeds {
                    assert(queue@[q0.len() as int] == j);
                } else if queue@.contains(x as usize) {
                    let q = choose|q: int| 0 <= q < queue@.len() && queue@[q] == x as usize;
                    assert(q0[q] == x as usize);
                }
            }
            assert forall|a: int, b: int| 0 <= a < b < queue@.len() implies queue@[a] != queue@[b] by {
                if b == q0.len() {
                    assert(queue@[a] == q0[a]);
                }
            }
            assert forall|k: int| 0 <= k < queue@.len() implies depends(all, s as int, #[trigger] queue@[k] as int) by {
                if k < q0.len() {
                    assert(queue@[k] == q0[k]);
                }
            }
        }
        j = j + 1;
    }
    proof {
        assert forall|k: int| 0 <= k < queue@.len() implies reaches(all, s as int, #[trigger] queue@[k] as int) by {
            let p = seq![s as int, queue@[k] as int];
            assert(depends(all, p[0int], p[0int + 1]));
            assert forall|t: int| 0 <= t < p.len() - 1 implies #[trigger] depends(all, p[t], p[t + 1]) by {
                assert(t == 0);
            }
            assert(is_dependency_path(all, p));
            assert(p[0] == s as int && p.last() == queue@[k] as int);
        }
    }
    let mut head: usize = 0;
    while head < queue.len()
        invariant
            all == graph@.nodes,
            n == all.len(),
            (s as int) < n,
            preds@.len() == n,
            forall|i: int, x: int| #[trigger] listed(preds@, i, x) <==> depends(all, i, x),
            visited@.len() == n,
            head <= queue@.len(),
            queue@.no_duplicates(),
            forall|k: int| 0 <= k < queue@.len() ==> (#[trigger] queue@[k] as int) < n,
            forall|x: int| 0 <= x < n ==> (#[trigger] visited@[x] <==> queue@.contains(x as usize)),
            forall|x: int| 0 <= x < n && depends(all, s as int, x) ==> #[trigger] visited@[x],
            forall|k: int| 0 <= k < queue@.len() ==> reaches(all, s as int, #[trigger] queue@[k] as int),
            forall|m: int, x: int|
                0 <= m < head && 0 <= x < n && #[trigger] depends(all, queue@[m] as int, x) ==> visited@[x],
            search_from(all, queue@, head as int) == discovery_order(all, s as int),
        decreases n - head,
    {
        proof {
            let ints = queue@.map_values(|v: usize| v as int);
            assert forall|a: int, b: int| 0 <= a < b < ints.len() implies ints[a] != ints[b] by {
                assert(queue@[a] != queue@[b]);
            }
            lemma_distinct_below(ints, n as nat);
        }
        let c = queue[head];
        let ghost q = queue@;
        proof {
            assert(search_from(all, q, head as int) == search_from(
                all,
                q + newly_reached(all, q, c as int, n as int),
                head + 1,
            ));
            assert(q + newly_reached(all, q, c as int, 0) =~= q);
        }
        let mut t: usize = 0;
        while t < n
            invariant
                all == graph@.nodes,
                n == all.len(),
                (s as int) < n,
                preds@.len() == n,
                forall|i: int, x: int| #[trigger] listed(preds@, i, x) <==> depends(all, i, x),
                visited@.len() == n,
                head < queue@.len(),
                queue@[head as int] == c,
                t <= n,
                queue@.no_duplicates(),
                forall|k: int| 0 <= k < queue@.len() ==> (#[trigger] queue@[k] as int) < n,
                forall|x: int| 0 <= x < n ==> (#[trigger] visited@[x] <==> queue@.contains(x as usize)),
                forall|x: int| 0 <= x < n && depends(all, s as int, x) ==> #[trigger] visited@[x],
                forall|k: int| 0 <= k < queue@.len() ==> reaches(all, s as int, #[trigger] queue@[k] as int),
                forall|m: int, x: int|
                    0 <= m < head && 0 <= x < n && #[trigger] depends(all, queue@[m] as int, x) ==> visited@[x],
                forall|x: int| 0 <= x < t && depends(all, c as int, x) ==> #[trigger] visited@[x],
                head < q.len(),
                q[head as int] == c,
                queue@ == q + newly_reached(all, q, c as int, t as int),
                search_from(all, q + newly_reached(all, q, c as int, n as int), head + 1) == discovery_order(
                    all,
                    s as int,
                ),
            decreases n - t,
        {
            let take = !visited[t] && holds(&preds[t], c);
            proof {
                lemma_newly_reached_below(all, q, c as int, t as int);
                let nr = newly_reached(all, q, c as int, t as int);
                assert(queue@.contains(t) <==> q.contains(t)) by {
                    if queue@.contains(t) {
                        let m = choose|m: int| 0 <= m < queue@.len() && queue@[m] == t;
                        if m >= q.len() {
                            assert(nr[m - q.len()] == t);
                        } else {
                            assert(q[m] == t);
                        }
                    }
                    if q.contains(t) {
                        let m = choose|m: int| 0 <= m < q.len() && q[m] == t;
                        assert(queue@[m] == t);
                    }
                }
                assert(visited@[t as int] <==> queue@.contains(t));
                assert((c as int) < n);
                assert(listed(preds@, c as int, t as int) <==> preds@[t as int]@.contains(c));
                assert(listed(preds@, c as int, t as int) <==> depends(all, c as int, t as int));
                assert(take == (!q.contains(t) && depends(all, c as int, t as int)));
                assert(newly_reached(all, q, c as int, t + 1) == nr + if take {
                    seq![t]
                } else {
                    seq![]
                });
            }
            if take {
                let ghost before = queue@;
                assert(listed(preds@, c as int, t as int));
                queue.push(t);
                visited.set(t, true);
                proof {
                    assert(!before.contains(t));
                    lemma_path_extend(all, s as int, c as int, t as int);
                    assert forall|a: int, b: int| 0 <= a < b < queue@.len() implies queue@[a] != queue@[b] by {
                        if b == queue@.len() - 1 {
                            assert(before[a] == queue@[a]);
                        }
                    }
                    assert forall|x: int| 0 <= x < n implies (#[trigger] visited@[x] <==> queue@.contains(x as usize)) by {
                        if x != t && queue@.contains(x as usize) {
                            let q = choose|q: int| 0 <= q < queue@.len() && queue@[q] == x as usize;
                            assert(before[q] == x as usize);
                        }
                        if x != t && before.contains(x as usize) {
                            let q = choose|q: int| 0 <= q < before.len() && before[q] == x as usize;
                            assert(queue@[q] == x as usize);
                        }
                        if x == t {
                            assert(queue@[queue@.len() - 1] == t);
                        }
                    }
                    assert forall|k: int| 0 <= k < queue@.len() implies reaches(all, s as int, #[trigger] queue@[k] as int) by {
                        if k < before.len() {
                            assert(queue@[k] == before[k]);
                        }
                    }
                    assert forall|m: int, x: int|
                        0 <= m < head && 0 <= x < n && #[trigger] depends(all, queue@[m] as int, x) implies visited@[x] by {
                        assert(queue@[m] == before[m]);
                    }
                }
            } else {
                proof {
                    if depends(all, c as int, t as int) {
                        assert(listed(preds@, c as int, t as int));
                    }
                }
            }
            t = t + 1;
        }
        head = head + 1;
    }
    // Hand out the discovered workspaces other than `s`, in discovery order.
    let ghost marked = Set::new(|x: int| 0 <= x < n && visited@[x]);
    proof {
        assert forall|x: int| 0 <= x < n && visited@[x] implies reaches(all, s as int, x) by {
            assert(queue@.contains(x as usize));
            let q = choose|q: int| 0 <= q < queue@.len() && queue@[q] == x as usize;
            assert(reaches(all, s as int, queue@[q] as int));
        }
        assert forall|x: int| 0 <= x < n && reaches(all, s as int, x) implies visited@[x] by {
            let p = choose|p: Seq<int>| is_dependency_path(all, p) && p[0] == s as int && p.last() == x;
            assert forall|c: int, y: int| marked.contains(c) && #[trigger] depends(all, c, y) implies marked.contains(y) by {
                assert(queue@.contains(c as usize));
                let q = choose|q: int| 0 <= q < queue@.len() && queue@[q] == c as usize;
                assert(depends(all, queue@[q] as int, y));
            }
            assert forall|y: int| #[trigger] depends(all, p[0], y) implies marked.contains(y) by {
                assert(depends(all, s as int, y));
            }
            lemma_path_marked(all, p, marked, p.len() - 1);
        }
    }
    let mut k: usize = 0;
    while k < queue.len()
        invariant
            all == graph@.nodes,
            nodes@.map_values(|nd: WorkspaceNode| nd@) == all,
            n == all.len(),
            (s as int) < n,
            forall|m: int| 0 <= m < queue@.len() ==> (#[trigger] queue@[m] as int) < n,
            k <= queue@.len(),
            ids_view(r@) == without(queue@.take(k as int), s as int).map_values(|p: usize| all[p as int].id),
            position_of(all, changed@) == Some(s as int),
            visited@.len() == n,
            forall|y: int| 0 <= y < n ==> (#[trigger] visited@[y] <==> reaches(all, s as int, y)),
            forall|x: int| 0 <= x < n ==> (#[trigger] visited@[x] <==> queue@.contains(x as usize)),
            forall|m: int| 0 <= m < r@.len() ==> is_affected_id(all, changed@, #[trigger] r@[m]@),
        decreases queue@.len() - k,
    {
        let p = queue[k];
        let ghost before = r@;
        if p != s {
            assert(nodes@[p as int]@ == all[p as int]);
            r.push(nodes[p].id.clone());
            proof {
                assert(queue@.contains(p));
                assert(visited@[p as int]);
                assert(is_affected(all, changed@, p as int));
                assert forall|m: int| 0 <= m < r@.len() implies is_affected_id(all, changed@, #[trigger] r@[m]@) by {
                    if m < before.len() {
                        assert(r@[m] == before[m]);
                    } else {
                        assert(all[p as int].id == r@[m]@);
                    }
                }
            }
        }
        proof {
            let t = queue@.take(k + 1);
            let f = |x: usize| all[x as int].id;
            assert(t.drop_last() =~= queue@.take(k as int));
            assert(t.last() == p);
            let prior = without(queue@.take(k as int), s as int);
            assert(without(t, s as int) == prior + if p as int != s as int {
                seq![p]
            } else {
                seq![]
            });
            if p != s {
                assert(ids_view(r@) =~= ids_view(before).push(all[p as int].id));
                assert((prior + seq![p]).map_values(f) =~= prior.map_values(f).push(f(p)));
            } else {
                assert(prior + Seq::<usize>::empty() =~= prior);
            }
            assert(ids_view(r@) =~= without(t, s as int).map_values(f));
        }
        k = k + 1;
    }
    proof {
        assert(all == graph@.nodes);
        assert(queue@.take(queue@.len() as int) =~= queue@);
        let w = without(queue@, s as int);
        lemma_without_contains(queue@, s as int);
        assert forall|j: int|
            0 <= j < all.len() && #[trigger] is_affected(all, changed@, j) implies ids_view(r@).contains(all[j].id) by {
            assert(visited@[j]);
            assert(queue@.contains(j as usize));
            assert(w.contains(j as usize));
            let m = choose|m: int| 0 <= m < w.len() && w[m] == j as usize;
            assert(ids_view(r@)[m] == all[j].id);
        }
    }
    r
}

/// An entry other than `s` is kept by `without` exactly when it is in the sequence.
proof fn lemma_without_contains(q: Seq<usize>, s: int)
    ensures
        forall|x: usize| #[trigger] without(q, s).contains(x) <==> q.contains(x) && x as int != s,
    decreases q.len(),
{
    if q.len() > 0 {
        let prior = q.drop_last();
        lemma_without_contains(prior, s);
        let w = without(q, s);
        let wp = without(prior, s);
        assert(w == wp + if q.last() as int != s {
            seq![q.last()]
        } else {
            seq![]
        });
        assert forall|x: usize| #[trigger] w.contains(x) <==> q.contains(x) && x as int != s by {
            if w.contains(x) {
                let m = choose|m: int| 0 <= m < w.len() && w[m] == x;
                if m < wp.len() {
                    assert(wp[m] == x);
                    assert(wp.contains(x));
                    assert(prior.contains(x));
                    let i = choose|i: int| 0 <= i < prior.len() && prior[i] == x;
                    assert(q[i] == x);
                } else {
                    assert(q[q.len() - 1] == x);
                }
            }
            if q.contains(x) && x as int != s {
                let i = choose|i: int| 0 <= i < q.len() && q[i] == x;
                if i < q.len() - 1 {
                    assert(prior[i] == x);
                    assert(prior.contains(x));
                    assert(wp.contains(x));
                    let m = choose|m: int| 0 <= m < wp.len() && wp[m] == x;
                    assert(w[m] == x);
                } else {
                    assert(w[w.len() - 1] == x);
                }
            }
        }
    }
}

/// The changed workspace itself is never among the affected ones.
pub proof fn lemma_changed_not_affected(g: GraphView, changed: Seq<char>, j: int)
    requires
        g.well_ordered(),
        0 <= j < g.nodes.len(),
        g.nodes[j].id == changed,
    ensures
        !is_affected(g.nodes, changed, j),
{
    let s = choose|i: int| 0 <= i < g.nodes.len() && g.nodes[i].id == changed;
    assert(position_of(g.nodes, changed) == Some(s));
    if s != j {
        lemma_ids_distinct(g.nodes, s, j);
    }
}

/// Impact is transitive: every workspace other than the changed one that reads
/// from an affected workspace, or from the changed workspace itself, is affected.
pub proof fn lemma_affected_closed(g: GraphView, changed: Seq<char>, b: int, c: int)
    requires
        0 <= b < g.nodes.len(),
        g.nodes[b].id == changed || is_affected(g.nodes, changed, b),
        depends(g.nodes, b, c),
        g.nodes[c].id != changed,
    ensures
        is_affected(g.nodes, changed, c),
{
    assert(exists|i: int| 0 <= i < g.nodes.len() && g.nodes[i].id == changed);
    let s = choose|i: int| 0 <= i < g.nodes.len() && g.nodes[i].id == changed;
    assert(position_of(g.nodes, changed) == Some(s));
    assert(c != s);
    if is_affected(g.nodes, changed, b) {
        lemma_path_extend(g.nodes, s, b, c);
    } else {
        let p = seq![s, c];
        if b != s {
            assert(g.nodes[b].id == g.nodes[s].id);
        }
        assert(depends(g.nodes, p[0], p[1]));
        assert(is_dependency_path(g.nodes, p));
        assert(p[0] == s && p.last() == c);
    }
}

/// Whatever depends on `p[0]` through a dependency path from `a` also depends on `a`.
proof fn lemma_reaches_along(nodes: Seq<WorkspaceNodeView>, a: int, p: Seq<int>, t: int)
    requires
        is_dependency_path(nodes, p),
        reaches(nodes, a, p[0]),
        0 <= t < p.len(),
    ensures
        reaches(nodes, a, p[t]),
    decreases t,
{
    if t > 0 {
        lemma_reaches_along(nodes, a, p, t - 1);
        assert(depends(nodes, p[t - 1], p[(t - 1) + 1]));
        lemma_path_extend(nodes, a, p[t - 1], p[t]);
    }
}

/// Two workspaces that depend on each other, directly or not, lie on a cycle.
proof fn lemma_mutual_reach_blocked(nodes: Seq<WorkspaceNodeView>, a: int, b: int)
    requires
        reaches(nodes, a, b),
        reaches(nodes, b, a),
    ensures
        blocked(nodes, a),
{
    let p1 = choose|p: Seq<int>| is_dependency_path(nodes, p) && p[0] == a && p.last() == b;
    let p2 = choose|p: Seq<int>| is_dependency_path(nodes, p) && p[0] == b && p.last() == a;
    let set = Set::new(|v: int| p1.contains(v) || p2.contains(v));
    assert forall|w: int| #[trigger] set.contains(w) implies 0 <= w < nodes.len() && depends_on_member(nodes, set, w) by {
        reveal(depends_on_member);
        if p1.contains(w) {
            let t = choose|t: int| 0 <= t < p1.len() && p1[t] == w;
            if t > 0 {
                assert(depends(nodes, p1[t - 1], p1[(t - 1) + 1]));
                assert(set.contains(p1[t - 1]));
            } else {
                let u = p2.len() - 2;
                assert(depends(nodes, p2[u], p2[u + 1]));
                assert(set.contains(p2[u]));
            }
        } else {
            let t = choose|t: int| 0 <= t < p2.len() && p2[t] == w;
            if t > 0 {
                assert(depends(nodes, p2[t - 1], p2[(t - 1) + 1]));
                assert(set.contains(p2[t - 1]));
            } else {
                let u = p1.len() - 2;
                assert(depends(nodes, p1[u], p1[u + 1]));
                assert(set.contains(p1[u]));
            }
        }
    }
    assert(set.contains(p1[0]));
    assert(self_supporting(nodes, set));
}

/// Impact composes: in a graph without cycles, whatever a change to an affected
/// workspace affects is affected by the original change too.
pub proof fn lemma_affected_of_affected(g: GraphView, changed: Seq<char>, w: int, d: int)
    requires
        g.well_ordered(),
        acyclic(g.nodes),
        0 <= w < g.nodes.len(),
        is_affected(g.nodes, changed, w),
        is_affected(g.nodes, g.nodes[w].id, d),
    ensures
        is_affected(g.nodes, changed, d),
{
    let nodes = g.nodes;
    let s = position_of(nodes, changed)->0;
    lemma_position_sorted(nodes, w);
    let p = choose|p: Seq<int>| is_dependency_path(nodes, p) && p[0] == w && p.last() == d;
    lemma_reaches_along(nodes, s, p, p.len() - 1);
    if d == s {
        lemma_mutual_reach_blocked(nodes, s, w);
        assert(!blocked(nodes, s));
    }
}

} // verus!
