//! The dependency relation between workspaces, and the topological sort that
//! deployment ordering and cycle detection share.
use vstd::prelude::*;
use crate::text::{strictly_sorted, lemma_text_lt_irreflexive, text_lt};
use crate::types::{WorkspaceGraph, WorkspaceNode, WorkspaceNodeView, InputPort, node_ids};

verus! {

/// Workspace `j` reads an output of workspace `i` (positions in `nodes`): one of
/// `j`'s inputs names `i` as its source workspace.
pub open spec fn depends(nodes: Seq<WorkspaceNodeView>, i: int, j: int) -> bool {
    &&& 0 <= i < nodes.len()
    &&& 0 <= j < nodes.len()
    &&& exists|k: int|
        0 <= k < nodes[j].inputs.len() && #[trigger] nodes[j].inputs[k].source_workspace == nodes[i].id
}

/// Workspace `w` depends on some member of `s`.
#[verifier::opaque]
pub open spec fn depends_on_member(nodes: Seq<WorkspaceNodeView>, s: Set<int>, w: int) -> bool {
    exists|p: int| s.contains(p) && depends(nodes, p, w)
}

/// Every member of `s` is a workspace that depends on some member of `s`:
/// no member of `s` can ever be deployed after all of its dependencies.
pub open spec fn self_supporting(nodes: Seq<WorkspaceNodeView>, s: Set<int>) -> bool {
    forall|w: int| #[trigger] s.contains(w) ==> 0 <= w < nodes.len() && depends_on_member(nodes, s, w)
}

/// Workspace `j` lies on a dependency cycle or depends, directly or not, on one.
pub open spec fn blocked(nodes: Seq<WorkspaceNodeView>, j: int) -> bool {
    exists|s: Set<int>| self_supporting(nodes, s) && s.contains(j)
}

/// The workspace with identity `a` is a dependency of the workspace with identity `b`.
pub open spec fn depends_on_id(nodes: Seq<WorkspaceNodeView>, a: Seq<char>, b: Seq<char>) -> bool {
    exists|i: int, j: int| nodes[i].id == a && nodes[j].id == b && #[trigger] depends(nodes, i, j)
}

/// `order` lists every workspace exactly once, each after all of its dependencies.
pub open spec fn is_deployment_order(nodes: Seq<WorkspaceNodeView>, order: Seq<Seq<char>>) -> bool {
    &&& order.len() == nodes.len()
    &&& order.no_duplicates()
    &&& forall|k: int| 0 <= k < order.len() ==> node_ids(nodes).contains(#[trigger] order[k])
    &&& forall|k1: int, k2: int|
        0 <= k1 < order.len() && 0 <= k2 < order.len() && #[trigger] depends_on_id(
            nodes,
            order[k1],
            order[k2],
        ) ==> k1 < k2
}

/// A distinct sequence of numbers in `[0, n)` has at most `n` members, and it has
/// exactly `n` just when it holds every number in `[0, n)`.
pub proof fn lemma_distinct_below(s: Seq<int>, n: nat)
    requires
        s.no_duplicates(),
        forall|k: int| 0 <= k < s.len() ==> 0 <= #[trigger] s[k] < n,
    ensures
        s.len() <= n,
        s.len() == n ==> forall|j: int| 0 <= j < n ==> #[trigger] s.contains(j),
        (forall|j: int| 0 <= j < n ==> #[trigger] s.contains(j)) ==> s.len() == n,
    decreases n,
{
    if n == 0 {
        if s.len() > 0 {
            assert(0 <= s[0] < n);
        }
    } else {
        let top = n - 1;
        if s.contains(top) {
            let p = choose|p: int| 0 <= p < s.len() && s[p] == top;
            let t = s.remove(p);
            s.remove_ensures(p);
            assert forall|a: int, b: int| 0 <= a < b < t.len() implies t[a] != t[b] by {
                let a2 = if a < p { a } else { a + 1 };
                let b2 = if b < p { b } else { b + 1 };
                assert(s[a2] != s[b2]);
            }
            assert forall|k: int| 0 <= k < t.len() implies 0 <= #[trigger] t[k] < n - 1 by {
                let k2 = if k < p { k } else { k + 1 };
                assert(s[k2] != s[p]);
                assert(0 <= s[k2] < n);
            }
            lemma_distinct_below(t, (n - 1) as nat);
            if forall|j: int| 0 <= j < n ==> #[trigger] s.contains(j) {
                assert forall|j: int| 0 <= j < n - 1 implies #[trigger] t.contains(j) by {
                    assert(s.contains(j));
                    let q = choose|q: int| 0 <= q < s.len() && s[q] == j;
                    assert(q != p);
                    if q < p {
                        assert(t[q] == j);
                    } else {
                        assert(t[q - 1] == j);
                    }
                }
            }
            if s.len() == n {
                assert forall|j: int| 0 <= j < n implies #[trigger] s.contains(j) by {
                    if j < n - 1 {
                        assert(t.contains(j));
                        let q = choose|q: int| 0 <= q < t.len() && t[q] == j;
                        if q < p {
                            assert(s[q] == j);
                        } else {
                            assert(s[q + 1] == j);
                        }
                    } else {
                        assert(s[p] == j);
                    }
                }
            }
        } else {
            assert forall|k: int| 0 <= k < s.len() implies 0 <= #[trigger] s[k] < n - 1 by {
                if s[k] == n - 1 {
                    assert(s.contains(top));
                }
            }
            lemma_distinct_below(s, (n - 1) as nat);
            assert(!s.contains(top));
        }
    }
}

/// The same, for a sequence of machine positions.
proof fn lemma_distinct_positions(s: Seq<usize>, n: nat)
    requires
        s.no_duplicates(),
        n <= usize::MAX,
        forall|k: int| 0 <= k < s.len() ==> (#[trigger] s[k] as int) < n,
    ensures
        s.len() <= n,
        s.len() == n ==> forall|j: int| 0 <= j < n ==> #[trigger] s.contains(j as usize),
        (forall|j: int| 0 <= j < n ==> #[trigger] s.contains(j as usize)) ==> s.len() == n,
{
    let t = s.map_values(|x: usize| x as int);
    assert forall|a: int, b: int| 0 <= a < b < t.len() implies t[a] != t[b] by {
        assert(s[a] != s[b]);
    }
    lemma_distinct_below(t, n);
    if s.len() == n {
        assert forall|j: int| 0 <= j < n implies #[trigger] s.contains(j as usize) by {
            assert(t.contains(j));
            let q = choose|q: int| 0 <= q < t.len() && t[q] == j;
            assert(s[q] == j as usize);
        }
    }
    if forall|j: int| 0 <= j < n ==> #[trigger] s.contains(j as usize) {
        assert forall|j: int| 0 <= j < n implies #[trigger] t.contains(j) by {
            assert(s.contains(j as usize));
            let q = choose|q: int| 0 <= q < s.len() && s[q] == j as usize;
            assert(t[q] == j);
        }
    }
}

/// `j` has `i` among its listed dependencies.
pub open spec fn listed(preds: Seq<Vec<usize>>, i: int, j: int) -> bool {
    &&& 0 <= i < preds.len()
    &&& 0 <= j < preds.len()
    &&& preds[j]@.contains(i as usize)
}

/// Whether `v` holds `x`.
pub(crate) fn holds(v: &Vec<usize>, x: usize) -> (r: bool)
    ensures
        r == v@.contains(x),
{
    let mut k: usize = 0;
    while k < v.len()
        invariant
            k <= v@.len(),
            forall|m: int| 0 <= m < k ==> v@[m] != x,
        decreases v@.len() - k,
    {
        if v[k] == x {
            return true;
        }
        k = k + 1;
    }
    false
}

/// Whether every member of `v` is marked in `flags`.
fn all_marked(v: &Vec<usize>, flags: &Vec<bool>) -> (r: bool)
    requires
        forall|m: int| 0 <= m < v@.len() ==> (#[trigger] v@[m] as int) < flags@.len(),
    ensures
        r == forall|m: int| 0 <= m < v@.len() ==> flags@[#[trigger] v@[m] as int],
{
    let mut k: usize = 0;
    while k < v.len()
        invariant
            k <= v@.len(),
            forall|m: int| 0 <= m < v@.len() ==> (#[trigger] v@[m] as int) < flags@.len(),
            forall|m: int| 0 <= m < k ==> flags@[#[trigger] v@[m] as int],
        decreases v@.len() - k,
    {
        if !flags[v[k]] {
            return false;
        }
        k = k + 1;
    }
    true
}

/// Workspace `x` is released when `c` is taken, the last of the first `taken`
/// entries of `queue`: it is not queued yet, it depends on `c`, and everything it
/// depends on has been taken.
pub open spec fn ready(dep: spec_fn(int, int) -> bool, queue: Seq<usize>, taken: int, c: usize, x: int) -> bool {
    &&& !queue.contains(x as usize)
    &&& dep(c as int, x)
    &&& forall|i: int| #[trigger] dep(i, x) ==> queue.take(taken).contains(i as usize)
}

/// The workspaces below `t`, in position order, released when `c` is taken.
pub open spec fn released(dep: spec_fn(int, int) -> bool, queue: Seq<usize>, taken: int, c: usize, t: int) -> Seq<usize>
    decreases t,
{
    if t <= 0 {
        seq![]
    } else {
        released(dep, queue, taken, c, t - 1) + if ready(dep, queue, taken, c, t - 1) {
            seq![(t - 1) as usize]
        } else {
            seq![]
        }
    }
}

/// The workspaces below `t` that depend on none, in position order.
pub open spec fn roots(dep: spec_fn(int, int) -> bool, t: int) -> Seq<usize>
    decreases t,
{
    if t <= 0 {
        seq![]
    } else {
        roots(dep, t - 1) + if forall|i: int| !#[trigger] dep(i, t - 1) {
            seq![(t - 1) as usize]
        } else {
            seq![]
        }
    }
}

/// Kahn's algorithm over `n` workspaces, from a queue whose first `head` entries
/// are taken: the next entry is taken, and the workspaces it releases join the
/// queue in position order, until every queued workspace is taken.
pub open spec fn kahn_from(dep: spec_fn(int, int) -> bool, n: int, queue: Seq<usize>, head: int) -> Seq<usize>
    decreases n - head,
{
    if 0 <= head < queue.len() && head < n {
        kahn_from(dep, n, queue + released(dep, queue, head + 1, queue[head], n), head + 1)
    } else {
        queue
    }
}

/// The order in which Kahn's algorithm takes `n` workspaces: those that depend on
/// none first, in position order, then each as its last dependency is taken.
pub open spec fn kahn_order(dep: spec_fn(int, int) -> bool, n: int) -> Seq<usize> {
    kahn_from(dep, n, roots(dep, n), 0)
}

/// The positions of the workspaces in the order Kahn's algorithm takes them, ties
/// broken by position (that is, by identity).
pub open spec fn kahn_positions(nodes: Seq<WorkspaceNodeView>) -> Seq<usize> {
    kahn_order(|i: int, j: int| depends(nodes, i, j), nodes.len() as int)
}

/// The identities of the workspaces in the order Kahn's algorithm takes them.
pub open spec fn kahn_ids(nodes: Seq<WorkspaceNodeView>) -> Seq<Seq<char>> {
    kahn_positions(nodes).map_values(|p: usize| nodes[p as int].id)
}

proof fn lemma_released_below(dep: spec_fn(int, int) -> bool, queue: Seq<usize>, taken: int, c: usize, t: int)
    requires
        t <= usize::MAX + 1,
    ensures
        forall|k: int|
            0 <= k < released(dep, queue, taken, c, t).len() ==> (#[trigger] released(dep, queue, taken, c, t)[k] as int)
                < t,
    decreases t,
{
    if t > 0 {
        lemma_released_below(dep, queue, taken, c, t - 1);
        let prior = released(dep, queue, taken, c, t - 1);
        let all = released(dep, queue, taken, c, t);
        assert forall|k: int| 0 <= k < all.len() implies (#[trigger] all[k] as int) < t by {
            if k < prior.len() {
                assert(all[k] == prior[k]);
            } else {
                assert(all[k] == (t - 1) as usize);
            }
        }
    }
}

/// Kahn's algorithm over listed dependencies: starting from the workspaces with
/// none, a workspace is appended once all of its dependencies have been taken,
/// scanning the candidates in position order after each workspace taken.
fn kahn(preds: &Vec<Vec<usize>>) -> (order: Vec<usize>)
    requires
        forall|j: int, m: int|
            0 <= j < preds@.len() && 0 <= m < preds@[j]@.len() ==> (#[trigger] preds@[j]@[m] as int)
                < preds@.len(),
    ensures
        order@.no_duplicates(),
        forall|k: int| 0 <= k < order@.len() ==> (#[trigger] order@[k] as int) < preds@.len(),
        forall|k: int, i: int|
            0 <= k < order@.len() && #[trigger] listed(preds@, i, order@[k] as int)
                ==> exists|m: int| 0 <= m < k && order@[m] == i,
        forall|j: int|
            0 <= j < preds@.len() && !#[trigger] order@.contains(j as usize) ==> exists|i: int|
                listed(preds@, i, j) && !order@.contains(i as usize),
        order@ == kahn_order(|i: int, j: int| listed(preds@, i, j), preds@.len() as int),
{
    let n = preds.len();
    let ghost ps = preds@;
    let ghost rel = |i: int, j: int| listed(ps, i, j);
    let mut queue: Vec<usize> = Vec::new();
    let mut queued: Vec<bool> = Vec::new();
    let mut done: Vec<bool> = Vec::new();
    let mut j: usize = 0;
    while j < n
        invariant
            n == preds@.len(),
            ps == preds@,
            j <= n,
            queued@.len() == j,
            done@.len() == j,
            queue@.no_duplicates(),
            forall|k: int| 0 <= k < queue@.len() ==> (#[trigger] queue@[k] as int) < j,
            forall|x: int| 0 <= x < j ==> (#[trigger] queued@[x] <==> queue@.contains(x as usize)),
            forall|x: int| 0 <= x < j ==> !#[trigger] done@[x],
            forall|k: int| 0 <= k < queue@.len() ==> ps[#[trigger] queue@[k] as int]@.len() == 0,
            forall|x: int| 0 <= x < j && !queue@.contains(x as usize) ==> #[trigger] ps[x]@.len() > 0,
            forall|a: int, m: int|
                0 <= a < ps.len() && 0 <= m < ps[a]@.len() ==> (#[trigger] ps[a]@[m] as int) < n,
            rel == (|i: int, j: int| listed(ps, i, j)),
            queue@ == roots(rel, j as int),
        decreases n - j,
    {
        let no_deps = preds[j].len() == 0;
        let ghost q0 = queue@;
        proof {
            assert(no_deps == forall|i: int| !#[trigger] rel(i, j as int)) by {
                if !no_deps {
                    assert(rel(ps[j as int]@[0] as int, j as int));
                }
            }
        }
        if no_deps {
            queue.push(j);
        }
        queued.push(no_deps);
        done.push(false);
        proof {
            assert(queue@ == if no_deps { q0.push(j) } else { q0 });
            assert forall|x: int| 0 <= x <= j implies (#[trigger] queued@[x] <==> queue@.contains(x as usize)) by {
                if x < j {
                    if q0.contains(x as usize) {
                        let q = choose|q: int| 0 <= q < q0.len() && q0[q] == x as usize;
                        assert(queue@[q] == x as usize);
                    }
                    if queue@.contains(x as usize) {
                        let q = choose|q: int| 0 <= q < queue@.len() && queue@[q] == x as usize;
                        if q < q0.len() {
                            assert(q0[q] == x as usize);
                        }
                    }
                } else {
                    if no_deps {
                        assert(queue@[q0.len() as int] == j);
                    } else {
                        if queue@.contains(x as usize) {
                            let q = choose|q: int| 0 <= q < queue@.len() && queue@[q] == x as usize;
                            assert(q0[q] == x as usize);
                        }
                    }
                }
            }
            assert forall|x: int| 0 <= x <= j && !queue@.contains(x as usize) implies #[trigger] ps[x]@.len() > 0 by {
                if x < j {
                    if q0.contains(x as usize) {
                        let q = choose|q: int| 0 <= q < q0.len() && q0[q] == x as usize;
                        assert(queue@[q] == x as usize);
                    }
                } else if no_deps {
                    assert(queue@[q0.len() as int] == j);
                }
            }
            assert forall|k: int| 0 <= k < queue@.len() implies ps[#[trigger] queue@[k] as int]@.len() == 0 by {
                if k < q0.len() {
                    assert(queue@[k] == q0[k]);
                }
            }
            assert forall|a: int, b: int| 0 <= a < b < queue@.len() implies queue@[a] != queue@[b] by {
                if b == q0.len() {
                    assert(queue@[a] == q0[a]);
                }
            }
        }
        j = j + 1;
    }
    proof {
        assert forall|x: int| 0 <= x < n && !#[trigger] queued@[x] implies exists|i: int| listed(ps, i, x) && !done@[i] by {
            assert(ps[x]@.len() > 0);
            assert(listed(ps, ps[x]@[0] as int, x));
        }
    }
    let mut head: usize = 0;
    while head < queue.len()
        invariant
            n == preds@.len(),
            ps == preds@,
            forall|a: int, m: int|
                0 <= a < ps.len() && 0 <= m < ps[a]@.len() ==> (#[trigger] ps[a]@[m] as int) < n,
            queued@.len() == n,
            done@.len() == n,
            head <= queue@.len(),
            queue@.no_duplicates(),
            forall|k: int| 0 <= k < queue@.len() ==> (#[trigger] queue@[k] as int) < n,
            forall|x: int| 0 <= x < n ==> (#[trigger] queued@[x] <==> queue@.contains(x as usize)),
            forall|x: int|
                0 <= x < n ==> (#[trigger] done@[x] <==> exists|m: int|
                    0 <= m < head && queue@[m] == x as usize),
            forall|k: int, i: int|
                0 <= k < queue@.len() && #[trigger] listed(ps, i, queue@[k] as int) ==> exists|m: int|
                    0 <= m < k && queue@[m] == i,
            forall|x: int|
                0 <= x < n && !#[trigger] queued@[x] ==> exists|i: int| listed(ps, i, x) && !done@[i],
            rel == (|i: int, j: int| listed(ps, i, j)),
            kahn_from(rel, n as int, queue@, head as int) == kahn_order(rel, n as int),
        decreases n - head,
    {
        proof {
            lemma_distinct_positions(queue@, n as nat);
        }
        let c = queue[head];
        head = head + 1;
        done.set(c, true);
        let ghost done_before = done@;
        let ghost q = queue@;
        proof {
            assert(kahn_from(rel, n as int, q, head - 1) == kahn_from(
                rel,
                n as int,
                q + released(rel, q, head as int, c, n as int),
                head as int,
            ));
            assert(q + released(rel, q, head as int, c, 0) =~= q);
        }
        let mut t: usize = 0;
        while t < n
            invariant
                n == preds@.len(),
                ps == preds@,
                forall|a: int, m: int|
                    0 <= a < ps.len() && 0 <= m < ps[a]@.len() ==> (#[trigger] ps[a]@[m] as int) < n,
                0 < head <= queue@.len(),
                (c as int) < n,
                queue@[head - 1] == c,
                t <= n,
                queued@.len() == n,
                done@.len() == n,
                done@ == done_before,
                queue@.no_duplicates(),
                forall|k: int| 0 <= k < queue@.len() ==> (#[trigger] queue@[k] as int) < n,
                forall|x: int| 0 <= x < n ==> (#[trigger] queued@[x] <==> queue@.contains(x as usize)),
                forall|x: int|
                    0 <= x < n ==> (#[trigger] done@[x] <==> exists|m: int|
                        0 <= m < head && queue@[m] == x as usize),
                forall|k: int, i: int|
                    0 <= k < queue@.len() && #[trigger] listed(ps, i, queue@[k] as int) ==> exists|m: int|
                        0 <= m < k && queue@[m] == i,
                forall|x: int|
                    0 <= x < n && !#[trigger] queued@[x] ==> exists|i: int|
                        listed(ps, i, x) && (!done@[i] || (i == c && x >= t)),
                rel == (|i: int, j: int| listed(ps, i, j)),
                head <= q.len(),
                q.len() <= n,
                queue@ == q + released(rel, q, head as int, c, t as int),
                kahn_from(rel, n as int, q, head - 1) == kahn_from(
                    rel,
                    n as int,
                    q + released(rel, q, head as int, c, n as int),
                    head as int,
                ),
                kahn_from(rel, n as int, q, head - 1) == kahn_order(rel, n as int),
            decreases n - t,
        {
            let take = !queued[t] && holds(&preds[t], c) && all_marked(&preds[t], &done);
            proof {
                lemma_released_below(rel, q, head as int, c, t as int);
                let r = released(rel, q, head as int, c, t as int);
                assert(queue@.contains(t) <==> q.contains(t)) by {
                    if queue@.contains(t) {
                        let m = choose|m: int| 0 <= m < queue@.len() && queue@[m] == t;
                        if m >= q.len() {
                            assert(r[m - q.len()] == t);
                        } else {
                            assert(q[m] == t);
                        }
                    }
                    if q.contains(t) {
                        let m = choose|m: int| 0 <= m < q.len() && q[m] == t;
                        assert(queue@[m] == t);
                    }
                }
                assert forall|x: int| 0 <= x < n implies (done@[x] <==> q.take(head as int).contains(x as usize)) by {
                    if done@[x] {
                        let m = choose|m: int| 0 <= m < head && queue@[m] == x as usize;
                        assert(q.take(head as int)[m] == x as usize);
                    }
                    if q.take(head as int).contains(x as usize) {
                        let m = choose|m: int| 0 <= m < head && q.take(head as int)[m] == x as usize;
                        assert(queue@[m] == x as usize);
                    }
                }
                assert(take == ready(rel, q, head as int, c, t as int)) by {
                    if take {
                        assert forall|i: int| #[trigger] rel(i, t as int) implies q.take(head as int).contains(i as usize) by {
                            let m = choose|m: int| 0 <= m < ps[t as int]@.len() && ps[t as int]@[m] == i as usize;
                            assert(done@[ps[t as int]@[m] as int]);
                        }
                    }
                    if ready(rel, q, head as int, c, t as int) {
                        assert(rel(c as int, t as int));
                        assert forall|m: int| 0 <= m < ps[t as int]@.len() implies done@[#[trigger] ps[t as int]@[m] as int] by {
                            assert(rel(ps[t as int]@[m] as int, t as int));
                        }
                    }
                }
                assert(released(rel, q, head as int, c, t + 1) == r + if take {
                    seq![t]
                } else {
                    seq![]
                });
            }
            if take {
                let ghost before = queue@;
                queue.push(t);
                queued.set(t, true);
                proof {
                    assert(!before.contains(t));
                    assert forall|a: int, b: int| 0 <= a < b < queue@.len() implies queue@[a] != queue@[b] by {
                        if b == queue@.len() - 1 {
                            assert(before[a] == queue@[a]);
                        }
                    }
                    assert forall|x: int| 0 <= x < n implies (#[trigger] queued@[x] <==> queue@.contains(x as usize)) by {
                        if x != t && queue@.contains(x as usize) {
                            let q = choose|q: int| 0 <= q < queue@.len() && queue@[q] == x as usize;
                            assert(before[q] == x as usize);
                        }
                        if x != t && before.contains(x as usize) {
                            let q = choose|q: int| 0 <= q < before.len() && before[q] == x as usize;
                            assert(queue@[q] == x as usize);
                        }
                        if x == t {
                            assert(queue@[queue@.len() - 1] == t);
                        }
                    }
                    assert forall|x: int|
                        0 <= x < n implies (#[trigger] done@[x] <==> exists|m: int|
                            0 <= m < head && queue@[m] == x as usize) by {
                        if done@[x] {
                            let m = choose|m: int| 0 <= m < head && before[m] == x as usize;
                            assert(queue@[m] == x as usize);
                        }
                        if exists|m: int| 0 <= m < head && queue@[m] == x as usize {
                            let m = choose|m: int| 0 <= m < head && queue@[m] == x as usize;
                            assert(before[m] == x as usize);
                        }
                    }
                    assert forall|k: int, i: int|
                        0 <= k < queue@.len() && #[trigger] listed(ps, i, queue@[k] as int) implies exists|m: int|
                            0 <= m < k && queue@[m] == i by {
                        if k == queue@.len() - 1 {
                            let mi = choose|mi: int| 0 <= mi < ps[t as int]@.len() && ps[t as int]@[mi] == i as usize;
                            assert(done@[ps[t as int]@[mi] as int]);
                            let m = choose|m: int| 0 <= m < head && queue@[m] == i as usize;
                            assert(queue@[m] == i);
                        } else {
                            assert(queue@[k] == before[k]);
                            assert(listed(ps, i, before[k] as int));
                            let m = choose|m: int| 0 <= m < k && before[m] == i;
                            assert(queue@[m] == i);
                        }
                    }
                }
            } else {
                proof {
                    if !queued@[t as int] {
                        if !ps[t as int]@.contains(c) {
                            let i = choose|i: int| listed(ps, i, t as int) && (!done@[i] || (i == c && t >= t));
                            assert(i != c);
                        } else {
                            let mi = choose|mi: int| 0 <= mi < ps[t as int]@.len() && !done@[ps[t as int]@[mi] as int];
                            assert(listed(ps, ps[t as int]@[mi] as int, t as int));
                        }
                    }
                }
            }
            t = t + 1;
        }
    }
    proof {
        assert forall|j: int|
            0 <= j < preds@.len() && !#[trigger] queue@.contains(j as usize) implies exists|i: int|
                listed(ps, i, j) && !queue@.contains(i as usize) by {
            assert(!queued@[j]);
            let i = choose|i: int| listed(ps, i, j) && !done@[i];
            if queue@.contains(i as usize) {
                let q = choose|q: int| 0 <= q < queue@.len() && queue@[q] == i as usize;
                assert(done@[i]);
            }
        }
    }
    queue
}

/// Identities in strictly increasing order name distinct positions.
pub proof fn lemma_ids_distinct(nodes: Seq<WorkspaceNodeView>, a: int, b: int)
    requires
        strictly_sorted(node_ids(nodes)),
        0 <= a < nodes.len(),
        0 <= b < nodes.len(),
        nodes[a].id == nodes[b].id,
    ensures
        a == b,
{
    if a != b {
        let (x, y) = if a < b { (a, b) } else { (b, a) };
        assert(text_lt(node_ids(nodes)[x], node_ids(nodes)[y]));
        lemma_text_lt_irreflexive(nodes[a].id);
    }
}

/// The positions of the workspaces that `node` (at position `j`) reads from.
fn sources_of(graph: &WorkspaceGraph, node: &WorkspaceNode, Ghost(j): Ghost<int>) -> (ps: Vec<usize>)
    requires
        0 <= j < graph@.nodes.len(),
        graph@.nodes.len() <= usize::MAX,
        node@ == graph@.nodes[j],
        strictly_sorted(node_ids(graph@.nodes)),
    ensures
        forall|m: int| 0 <= m < ps@.len() ==> (#[trigger] ps@[m] as int) < graph@.nodes.len(),
        forall|i: int|
            0 <= i < graph@.nodes.len() ==> (#[trigger] ps@.contains(i as usize) <==> depends(
                graph@.nodes,
                i,
                j,
            )),
{
    let ghost all = graph@.nodes;
    let ghost ins = node@.inputs;
    let mut ps: Vec<usize> = Vec::new();
    let mut k: usize = 0;
    while k < node.inputs.len()
        invariant
            all == graph@.nodes,
            0 <= j < all.len(),
            all.len() <= usize::MAX,
            node@ == all[j],
            ins == node.inputs@.map_values(|x: InputPort| x@),
            strictly_sorted(node_ids(all)),
            k <= node.inputs@.len(),
            forall|m: int| 0 <= m < ps@.len() ==> (#[trigger] ps@[m] as int) < all.len(),
            forall|i: int|
                0 <= i < all.len() ==> (#[trigger] ps@.contains(i as usize) <==> exists|q: int|
                    0 <= q < k && #[trigger] ins[q].source_workspace == all[i].id),
        decreases node.inputs@.len() - k,
    {
        let input = &node.inputs[k];
        assert(input@ == ins[k as int]);
        let ghost before = ps@;
        match graph.nodes.index_of(&input.source_workspace) {
            Some(i) => {
                if !holds(&ps, i) {
                    ps.push(i);
                }
                proof {
                    assert forall|x: int|
                        0 <= x < all.len() implies (#[trigger] ps@.contains(x as usize) <==> exists|q: int|
                            0 <= q < k + 1 && #[trigger] ins[q].source_workspace == all[x].id) by {
                        if x == i {
                            assert(ins[k as int].source_workspace == all[x].id);
                            if ps@ != before {
                                assert(ps@[before.len() as int] == i);
                            }
                        } else {
                            if ps@.contains(x as usize) && ps@ != before {
                                let m = choose|m: int| 0 <= m < ps@.len() && ps@[m] == x as usize;
                                if m < before.len() {
                                    assert(before[m] == x as usize);
                                }
                            }
                            if before.contains(x as usize) {
                                let m = choose|m: int| 0 <= m < before.len() && before[m] == x as usize;
                                assert(ps@[m] == x as usize);
                            }
                            if exists|q: int| 0 <= q < k + 1 && #[trigger] ins[q].source_workspace == all[x].id {
                                let q = choose|q: int| 0 <= q < k + 1 && #[trigger] ins[q].source_workspace == all[x].id;
                                if q == k {
                                    lemma_ids_distinct(all, i as int, x);
                                }
                            }
                        }
                    }
                }
            },
            None => {
                proof {
                    assert forall|x: int|
                        0 <= x < all.len() implies (#[trigger] ps@.contains(x as usize) <==> exists|q: int|
                            0 <= q < k + 1 && #[trigger] ins[q].source_workspace == all[x].id) by {
                        if exists|q: int| 0 <= q < k + 1 && #[trigger] ins[q].source_workspace == all[x].id {
                            let q = choose|q: int| 0 <= q < k + 1 && #[trigger] ins[q].source_workspace == all[x].id;
                            if q == k {
                                assert(node_ids(all)[x] == all[x].id);
                                assert(node_ids(all).contains(all[x].id));
                            }
                        }
                    }
                }
            },
        }
        k = k + 1;
    }
    proof {
        assert forall|i: int| 0 <= i < all.len() implies (#[trigger] ps@.contains(i as usize) <==> depends(all, i, j)) by {
            if depends(all, i, j) {
                let q = choose|q: int|
                    0 <= q < all[j].inputs.len() && #[trigger] all[j].inputs[q].source_workspace == all[i].id;
                assert(ins[q].source_workspace == all[i].id);
            }
            if ps@.contains(i as usize) {
                let q = choose|q: int| 0 <= q < k && #[trigger] ins[q].source_workspace == all[i].id;
                assert(all[j].inputs[q].source_workspace == all[i].id);
            }
        }
    }
    ps
}

/// For each workspace, in order, the positions of the workspaces it reads from.
pub(crate) fn dependency_lists(graph: &WorkspaceGraph) -> (preds: Vec<Vec<usize>>)
    ensures
        preds@.len() == graph@.nodes.len(),
        forall|j: int, m: int|
            0 <= j < preds@.len() && 0 <= m < preds@[j]@.len() ==> (#[trigger] preds@[j]@[m] as int)
                < preds@.len(),
        forall|i: int, j: int| #[trigger] listed(preds@, i, j) <==> depends(graph@.nodes, i, j),
{
    let nodes = graph.nodes.values();
    let ghost all = graph@.nodes;
    let _ = nodes.len();
    let mut preds: Vec<Vec<usize>> = Vec::new();
    let mut j: usize = 0;
    while j < nodes.len()
        invariant
            all == graph@.nodes,
            nodes@.map_values(|n: WorkspaceNode| n@) == all,
            all.len() <= usize::MAX,
            strictly_sorted(node_ids(all)),
            j <= nodes@.len(),
            preds@.len() == j,
            forall|a: int, m: int|
                0 <= a < j && 0 <= m < preds@[a]@.len() ==> (#[trigger] preds@[a]@[m] as int) < all.len(),
            forall|i: int, a: int|
                0 <= a < j && 0 <= i < all.len() ==> (#[trigger] preds@[a]@.contains(i as usize) <==> depends(all, i, a)),
        decreases nodes@.len() - j,
    {
        assert(nodes@[j as int]@ == all[j as int]);
        let ps = sources_of(graph, &nodes[j], Ghost(j as int));
        preds.push(ps);
        j = j + 1;
    }
    proof {
        assert forall|i: int, a: int| #[trigger] listed(preds@, i, a) <==> depends(all, i, a) by {
            if depends(all, i, a) {
                assert(preds@[a]@.contains(i as usize));
            }
        }
    }
    preds
}

/// No workspace taken by a topological order lies in a self-supporting set.
proof fn lemma_taken_not_blocked(nodes: Seq<WorkspaceNodeView>, order: Seq<usize>, s: Set<int>, k: int)
    requires
        self_supporting(nodes, s),
        0 <= k < order.len(),
        forall|m: int| 0 <= m < order.len() ==> (#[trigger] order[m] as int) < nodes.len(),
        forall|m: int, i: int|
            0 <= m < order.len() && #[trigger] depends(nodes, i, order[m] as int) ==> exists|q: int|
                0 <= q < m && order[q] == i,
    ensures
        !s.contains(order[k] as int),
    decreases k,
{
    if s.contains(order[k] as int) {
        assert(depends_on_member(nodes, s, order[k] as int));
        reveal(depends_on_member);
        let p = choose|p: int| s.contains(p) && depends(nodes, p, order[k] as int);
        let q = choose|q: int| 0 <= q < k && order[q] == p;
        lemma_taken_not_blocked(nodes, order, s, q);
    }
}

/// Kahn's topological sort of the workspaces, as positions: it takes exactly the
/// workspaces that are not blocked, each after all of its dependencies.
pub(crate) fn topological_positions(graph: &WorkspaceGraph) -> (order: Vec<usize>)
    ensures
        order@.no_duplicates(),
        forall|k: int| 0 <= k < order@.len() ==> (#[trigger] order@[k] as int) < graph@.nodes.len(),
        forall|k1: int, k2: int|
            0 <= k1 < order@.len() && 0 <= k2 < order@.len() && #[trigger] depends(
                graph@.nodes,
                order@[k1] as int,
                order@[k2] as int,
            ) ==> k1 < k2,
        forall|j: int|
            0 <= j < graph@.nodes.len() ==> (#[trigger] order@.contains(j as usize) <==> !blocked(
                graph@.nodes,
                j,
            )),
        order@.len() == graph@.nodes.len() <==> forall|j: int|
            0 <= j < graph@.nodes.len() ==> !#[trigger] blocked(graph@.nodes, j),
        strictly_sorted(node_ids(graph@.nodes)),
        order@ == kahn_positions(graph@.nodes),
{
    let ghost all = graph@.nodes;
    let _ = graph.nodes.values();
    let _ = graph.nodes.len();
    let preds = dependency_lists(graph);
    let order = kahn(&preds);
    proof {
        let n = all.len();
        assert((|i: int, j: int| listed(preds@, i, j)) =~= (|i: int, j: int| depends(all, i, j)));
        assert forall|m: int, i: int|
            0 <= m < order@.len() && #[trigger] depends(all, i, order@[m] as int) implies exists|q: int|
                0 <= q < m && order@[q] == i by {
            assert(listed(preds@, i, order@[m] as int));
        }
        assert forall|k1: int, k2: int|
            0 <= k1 < order@.len() && 0 <= k2 < order@.len() && #[trigger] depends(
                all,
                order@[k1] as int,
                order@[k2] as int,
            ) implies k1 < k2 by {
            let q = choose|q: int| 0 <= q < k2 && order@[q] == order@[k1] as int;
            assert(order@[q] == order@[k1]);
        }
        let rest = Set::new(|x: int| 0 <= x < n && !order@.contains(x as usize));
        assert(self_supporting(all, rest)) by {
            assert forall|w: int| #[trigger] rest.contains(w) implies 0 <= w < n && depends_on_member(all, rest, w) by {
                let i = choose|i: int| listed(preds@, i, w) && !order@.contains(i as usize);
                assert(rest.contains(i));
                reveal(depends_on_member);
            }
        }
        assert forall|j: int| 0 <= j < n implies (#[trigger] order@.contains(j as usize) <==> !blocked(all, j)) by {
            if order@.contains(j as usize) {
                if blocked(all, j) {
                    let s = choose|s: Set<int>| self_supporting(all, s) && s.contains(j);
                    let k = choose|k: int| 0 <= k < order@.len() && order@[k] == j as usize;
                    lemma_taken_not_blocked(all, order@, s, k);
                }
            } else {
                assert(rest.contains(j));
            }
        }
        lemma_distinct_positions(order@, n as nat);
        if order@.len() == n {
            assert forall|j: int| 0 <= j < n implies !#[trigger] blocked(all, j) by {
                assert(order@.contains(j as usize));
            }
        }
        if forall|j: int| 0 <= j < n ==> !#[trigger] blocked(all, j) {
            assert forall|j: int| 0 <= j < n implies #[trigger] order@.contains(j as usize) by {
                assert(!blocked(all, j));
            }
        }
    }
    order
}

/// The identities of the blocked workspaces among the first `k`, in order.
pub open spec fn blocked_ids_upto(nodes: Seq<WorkspaceNodeView>, k: int) -> Seq<Seq<char>>
    decreases k,
{
    if k <= 0 {
        seq![]
    } else {
        blocked_ids_upto(nodes, k - 1) + if blocked(nodes, k - 1) {
            seq![nodes[k - 1].id]
        } else {
            seq![]
        }
    }
}

/// The identities of the blocked workspaces, in increasing order.
pub open spec fn blocked_ids(nodes: Seq<WorkspaceNodeView>) -> Seq<Seq<char>> {
    blocked_ids_upto(nodes, nodes.len() as int)
}

/// Nothing is blocked: the dependency graph has no cycle.
pub open spec fn acyclic(nodes: Seq<WorkspaceNodeView>) -> bool {
    forall|j: int| 0 <= j < nodes.len() ==> !#[trigger] blocked(nodes, j)
}

/// The identities of the workspaces that `order` does not take, in position order.
pub(crate) fn untaken_ids(graph: &WorkspaceGraph, order: &Vec<usize>) -> (r: Vec<String>)
    requires
        forall|j: int|
            0 <= j < graph@.nodes.len() ==> (#[trigger] order@.contains(j as usize) <==> !blocked(
                graph@.nodes,
                j,
            )),
    ensures
        r@.map_values(|s: String| s@) == blocked_ids(graph@.nodes),
{
    let nodes = graph.nodes.values();
    let ghost all = graph@.nodes;
    let mut r: Vec<String> = Vec::new();
    let mut j: usize = 0;
    while j < nodes.len()
        invariant
            all == graph@.nodes,
            nodes@.map_values(|n: WorkspaceNode| n@) == all,
            j <= nodes@.len(),
            forall|x: int|
                0 <= x < all.len() ==> (#[trigger] order@.contains(x as usize) <==> !blocked(all, x)),
            r@.map_values(|s: String| s@) == blocked_ids_upto(all, j as int),
        decreases nodes@.len() - j,
    {
        let ghost before = r@;
        assert(nodes@[j as int]@ == all[j as int]);
        let taken = holds(order, j);
        assert(order@.contains((j as int) as usize) <==> !blocked(all, j as int));
        assert(taken == !blocked(all, j as int));
        if !taken {
            let id = nodes[j].id.0.clone();
            assert(id@ == all[j as int].id);
            r.push(id);
            assert(r@.map_values(|s: String| s@) =~= before.map_values(|s: String| s@) + seq![all[j as int].id]);
        }
        assert(blocked_ids_upto(all, j + 1) == blocked_ids_upto(all, j as int) + if blocked(all, j as int) {
            seq![all[j as int].id]
        } else {
            seq![]
        });
        assert(r@.map_values(|s: String| s@) =~= blocked_ids_upto(all, j + 1));
        j = j + 1;
    }
    r
}

/// If a deployment order exists, no workspace is blocked.
pub proof fn lemma_deployment_order_means_acyclic(nodes: Seq<WorkspaceNodeView>, order: Seq<Seq<char>>)
    requires
        strictly_sorted(node_ids(nodes)),
        is_deployment_order(nodes, order),
    ensures
        acyclic(nodes),
{
    assert forall|j: int| 0 <= j < nodes.len() implies !#[trigger] blocked(nodes, j) by {
        if blocked(nodes, j) {
            let s = choose|s: Set<int>| self_supporting(nodes, s) && s.contains(j);
            assert(node_ids(nodes)[j] == nodes[j].id);
            lemma_covered(nodes, order, nodes[j].id);
            let k = choose|k: int| 0 <= k < order.len() && order[k] == nodes[j].id;
            lemma_order_avoids(nodes, order, s, k, j);
        }
    }
}

/// Every identity of a workspace appears in a deployment order.
proof fn lemma_covered(nodes: Seq<WorkspaceNodeView>, order: Seq<Seq<char>>, id: Seq<char>)
    requires
        strictly_sorted(node_ids(nodes)),
        is_deployment_order(nodes, order),
        node_ids(nodes).contains(id),
    ensures
        order.contains(id),
{
    let n = nodes.len();
    // The positions in `nodes` of the members of `order` are distinct and as many
    // as the workspaces, so they are all of them.
    assert forall|k: int| 0 <= k < order.len() implies exists|i: int| 0 <= i < n && nodes[i].id == #[trigger] order[k] by {
        assert(node_ids(nodes).contains(order[k]));
        let i = choose|i: int| 0 <= i < node_ids(nodes).len() && node_ids(nodes)[i] == order[k];
        assert(nodes[i].id == order[k]);
    }
    let pos = Seq::new(order.len(), |k: int| choose|i: int| 0 <= i < n && nodes[i].id == order[k]);
    assert forall|k: int| 0 <= k < pos.len() implies 0 <= #[trigger] pos[k] < n && nodes[pos[k]].id == order[k] by {
        assert(exists|i: int| 0 <= i < n && nodes[i].id == order[k]);
    }
    assert forall|a: int, b: int| 0 <= a < b < pos.len() implies pos[a] != pos[b] by {
        assert(nodes[pos[a]].id == order[a]);
        assert(nodes[pos[b]].id == order[b]);
    }
    lemma_distinct_below(pos, n as nat);
    let i = choose|i: int| 0 <= i < node_ids(nodes).len() && node_ids(nodes)[i] == id;
    assert(pos.contains(i));
    let k = choose|k: int| 0 <= k < pos.len() && pos[k] == i;
    assert(nodes[pos[k]].id == order[k]);
}

/// The workspace at position `k` of a deployment order, found at position `j`,
/// lies in no self-supporting set.
proof fn lemma_order_avoids(nodes: Seq<WorkspaceNodeView>, order: Seq<Seq<char>>, s: Set<int>, k: int, j: int)
    requires
        strictly_sorted(node_ids(nodes)),
        is_deployment_order(nodes, order),
        self_supporting(nodes, s),
        0 <= k < order.len(),
        0 <= j < nodes.len(),
        nodes[j].id == order[k],
    ensures
        !s.contains(j),
    decreases k,
{
    if s.contains(j) {
        assert(depends_on_member(nodes, s, j));
        reveal(depends_on_member);
        let p = choose|p: int| s.contains(p) && depends(nodes, p, j);
        assert(node_ids(nodes)[p] == nodes[p].id);
        lemma_covered(nodes, order, nodes[p].id);
        let k2 = choose|k2: int| 0 <= k2 < order.len() && order[k2] == nodes[p].id;
        assert(depends_on_id(nodes, order[k2], order[k]));
        lemma_order_avoids(nodes, order, s, k2, p);
    }
}

/// A graph whose workspaces can be ranked so that every dependency goes from a
/// lower rank to a higher one has no cycle.
pub proof fn lemma_ranked_acyclic(nodes: Seq<WorkspaceNodeView>, rank: spec_fn(int) -> nat)
    requires
        forall|i: int, j: int| #[trigger] depends(nodes, i, j) ==> rank(i) < rank(j),
    ensures
        acyclic(nodes),
{
    assert forall|j: int| 0 <= j < nodes.len() implies !#[trigger] blocked(nodes, j) by {
        if blocked(nodes, j) {
            let s = choose|s: Set<int>| self_supporting(nodes, s) && s.contains(j);
            lemma_ranked_outside(nodes, rank, s, rank(j) as int);
        }
    }
}

/// No workspace of rank at most `r` belongs to a self-supporting set.
proof fn lemma_ranked_outside(nodes: Seq<WorkspaceNodeView>, rank: spec_fn(int) -> nat, s: Set<int>, r: int)
    requires
        forall|i: int, j: int| #[trigger] depends(nodes, i, j) ==> rank(i) < rank(j),
        self_supporting(nodes, s),
    ensures
        forall|w: int| rank(w) <= r ==> !#[trigger] s.contains(w),
    decreases r,
{
    if r >= 0 {
        if r > 0 {
            lemma_ranked_outside(nodes, rank, s, r - 1);
        }
        assert forall|w: int| rank(w) <= r implies !#[trigger] s.contains(w) by {
            if s.contains(w) {
                assert(depends_on_member(nodes, s, w));
                reveal(depends_on_member);
                let q = choose|q: int| s.contains(q) && depends(nodes, q, w);
                assert(rank(q) < rank(w));
            }
        }
    }
}


/// Some workspace of `nodes` with identity `id` is blocked: it lies on a dependency
/// cycle or depends, directly or not, on one.
pub open spec fn is_blocked_id(nodes: Seq<WorkspaceNodeView>, id: Seq<char>) -> bool {
    exists|j: int| #![trigger nodes[j]] 0 <= j < nodes.len() && nodes[j].id == id && blocked(nodes, j)
}

proof fn lemma_blocked_ids_upto_members(nodes: Seq<WorkspaceNodeView>, k: int)
    requires
        0 <= k <= nodes.len(),
    ensures
        forall|t: int|
            0 <= t < blocked_ids_upto(nodes, k).len() ==> is_blocked_id(nodes, #[trigger] blocked_ids_upto(nodes, k)[t]),
        forall|j: int| 0 <= j < k && #[trigger] blocked(nodes, j) ==> blocked_ids_upto(nodes, k).contains(nodes[j].id),
    decreases k,
{
    if k > 0 {
        lemma_blocked_ids_upto_members(nodes, k - 1);
        let p = blocked_ids_upto(nodes, k - 1);
        let b = blocked_ids_upto(nodes, k);
        assert forall|t: int| 0 <= t < b.len() implies is_blocked_id(nodes, #[trigger] b[t]) by {
            if t < p.len() {
                assert(b[t] == p[t]);
            } else {
                assert(b[t] == nodes[k - 1].id);
                assert(nodes[k - 1].id == nodes[k - 1].id && blocked(nodes, k - 1));
            }
        }
        assert forall|j: int| 0 <= j < k && #[trigger] blocked(nodes, j) implies b.contains(nodes[j].id) by {
            if j < k - 1 {
                let t = choose|t: int| 0 <= t < p.len() && p[t] == nodes[j].id;
                assert(b[t] == p[t]);
            } else {
                assert(b[b.len() - 1] == nodes[j].id);
            }
        }
    }
}

proof fn lemma_blocked_ids_upto_sorted(nodes: Seq<WorkspaceNodeView>, k: int)
    requires
        strictly_sorted(node_ids(nodes)),
        0 <= k <= nodes.len(),
    ensures
        strictly_sorted(blocked_ids_upto(nodes, k)),
        forall|t: int|
            0 <= t < blocked_ids_upto(nodes, k).len() ==> exists|x: int|
                #![trigger nodes[x]]
                0 <= x < k && nodes[x].id == #[trigger] blocked_ids_upto(nodes, k)[t],
    decreases k,
{
    if k > 0 {
        lemma_blocked_ids_upto_sorted(nodes, k - 1);
        let p = blocked_ids_upto(nodes, k - 1);
        let b = blocked_ids_upto(nodes, k);
        assert forall|t: int| 0 <= t < b.len() implies exists|x: int|
            #![trigger nodes[x]]
            0 <= x < k && nodes[x].id == #[trigger] b[t] by {
            if t < p.len() {
                assert(b[t] == p[t]);
                let x = choose|x: int| #![trigger nodes[x]] 0 <= x < k - 1 && nodes[x].id == p[t];
            } else {
                assert(b[t] == nodes[k - 1].id);
                assert(nodes[k - 1] == nodes[k - 1]);
            }
        }
        assert forall|t: int, u: int| 0 <= t < u < b.len() implies text_lt(#[trigger] b[t], #[trigger] b[u]) by {
            if u < p.len() {
                assert(b[t] == p[t] && b[u] == p[u]);
            } else {
                assert(b[u] == nodes[k - 1].id);
                assert(b[t] == p[t]);
                let x = choose|x: int| #![trigger nodes[x]] 0 <= x < k - 1 && nodes[x].id == p[t];
                assert(node_ids(nodes)[x] == nodes[x].id);
                assert(node_ids(nodes)[k - 1] == nodes[k - 1].id);
            }
        }
    }
}

/// The workspaces named in the `CyclicDependency` that `verify_ordering` and
/// `deployment_order` report are exactly the blocked ones: every identity listed is
/// that of a workspace on a dependency cycle or depending on one, and a workspace is
/// listed if and only if it is blocked, so a workspace that only feeds a cycle is
/// never listed; they are listed once each, in increasing identity order.
pub proof fn lemma_blocked_ids_members(nodes: Seq<WorkspaceNodeView>)
    requires
        strictly_sorted(node_ids(nodes)),
    ensures
        forall|t: int| 0 <= t < blocked_ids(nodes).len() ==> is_blocked_id(nodes, #[trigger] blocked_ids(nodes)[t]),
        forall|j: int| 0 <= j < nodes.len() ==> (blocked_ids(nodes).contains(#[trigger] nodes[j].id) <==> blocked(nodes, j)),
        strictly_sorted(blocked_ids(nodes)),
{
    let b = blocked_ids(nodes);
    lemma_blocked_ids_upto_sorted(nodes, nodes.len() as int);
    lemma_blocked_ids_upto_members(nodes, nodes.len() as int);
    assert forall|j: int| 0 <= j < nodes.len() implies (b.contains(#[trigger] nodes[j].id) <==> blocked(nodes, j)) by {
        if b.contains(nodes[j].id) && !blocked(nodes, j) {
            let t = choose|t: int| 0 <= t < b.len() && b[t] == nodes[j].id;
            assert(is_blocked_id(nodes, b[t]));
            let x = choose|x: int| #![trigger nodes[x]] 0 <= x < nodes.len() && nodes[x].id == b[t] && blocked(nodes, x);
            lemma_ids_distinct(nodes, x, j);
        }
    }
}

} // verus!
