use vstd::prelude::*;

use crate::model::{
    arcs_well_formed, has_arc, is_walk, lemma_walk_push, no_cheaper, reaches, reversed, walk_weight,
    Edge,
};

verus! {

/// A frontier entry: `position` was reached at `cost`.
#[derive(Clone, Copy, Debug)]
pub(crate) struct State {
    pub(crate) cost: i32,
    pub(crate) position: i32,
}

/// Arc `e`, taken from a node at cost `c`, cannot improve the recorded distances.
pub(crate) open spec fn relaxed(dist: Map<i32, i32>, c: int, e: Edge) -> bool {
    c + e.weight >= i32::MAX || (dist.contains_key(e.node_b_id) && dist[e.node_b_id] <= c
        + e.weight)
}

/// `u` has its final distance, and every arc leaving it has been relaxed.
pub(crate) open spec fn settled_ok(
    adj: Map<i32, Seq<Edge>>,
    s: i32,
    dist: Map<i32, i32>,
    u: i32,
) -> bool {
    &&& dist.contains_key(u)
    &&& no_cheaper(adj, s, u, dist[u] as int)
    &&& adj.contains_key(u) ==> forall|i: int|
        0 <= i < adj[u].len() ==> relaxed(dist, dist[u] as int, #[trigger] adj[u][i])
}

/// What holds of the search state apart from the settled nodes' arcs.
pub(crate) open spec fn search_core(
    adj: Map<i32, Seq<Edge>>,
    s: i32,
    t: i32,
    dist: Map<i32, i32>,
    frontier: Seq<State>,
    settled: Set<i32>,
) -> bool {
    &&& dist.contains_key(s) && dist[s] == 0
    &&& forall|v: i32| #[trigger]
        dist.contains_key(v) ==> 0 <= dist[v] < i32::MAX && reaches(adj, s, v, dist[v] as int) && (
        v == s || adj.contains_key(v))
    &&& forall|i: int|
        0 <= i < frontier.len() ==> dist.contains_key((#[trigger] frontier[i]).position)
            && dist[frontier[i].position] <= frontier[i].cost
    &&& forall|v: i32| #[trigger]
        dist.contains_key(v) && !settled.contains(v) ==> frontier.contains(
            (State { cost: dist[v], position: v }),
        )
    &&& !settled.contains(t)
}

/// The invariant of the search loop.
pub(crate) open spec fn search_inv(
    adj: Map<i32, Seq<Edge>>,
    s: i32,
    t: i32,
    dist: Map<i32, i32>,
    frontier: Seq<State>,
    settled: Set<i32>,
) -> bool {
    &&& search_core(adj, s, t, dist, frontier, settled)
    &&& forall|u: i32| #[trigger] settled.contains(u) ==> settled_ok(adj, s, dist, u)
}

/// Every walk from the source either costs at least `i32::MAX`, ends at a settled
/// node whose distance it does not beat, or passes an unsettled node with a
/// recorded distance no greater than the walk's weight.
pub(crate) proof fn lemma_frontier_cut(
    adj: Map<i32, Seq<Edge>>,
    s: i32,
    t: i32,
    dist: Map<i32, i32>,
    frontier: Seq<State>,
    settled: Set<i32>,
    z: i32,
    p: Seq<Edge>,
)
    requires
        arcs_well_formed(adj),
        search_inv(adj, s, t, dist, frontier, settled),
        is_walk(adj, s, z, p),
    ensures
        walk_weight(p) >= i32::MAX || (settled.contains(z) && dist[z] <= walk_weight(p)) || exists|
            y: i32,
        |
            #![trigger dist.contains_key(y)]
            dist.contains_key(y) && !settled.contains(y) && dist[y] <= walk_weight(p),
    decreases p.len(),
{
    if p.len() == 0 {
        if !settled.contains(s) {
            assert(dist.contains_key(s) && !settled.contains(s) && dist[s] <= walk_weight(p));
        }
    } else {
        let e = p.last();
        let x = e.node_a_id;
        let q = p.drop_last();
        lemma_frontier_cut(adj, s, t, dist, frontier, settled, x, q);
        let i = choose|i: int| 0 <= i < adj[x].len() && adj[x][i] == e;
        assert(adj[x][i].weight >= 0);
        if walk_weight(q) >= i32::MAX {
        } else if exists|y: i32|
            #![trigger dist.contains_key(y)]
            dist.contains_key(y) && !settled.contains(y) && dist[y] <= walk_weight(q) {
            let y = choose|y: i32|
                #![trigger dist.contains_key(y)]
                dist.contains_key(y) && !settled.contains(y) && dist[y] <= walk_weight(q);
            assert(dist.contains_key(y) && !settled.contains(y) && dist[y] <= walk_weight(p));
        } else {
            assert(settled_ok(adj, s, dist, x));
            assert(relaxed(dist, dist[x] as int, adj[x][i]));
            if dist[x] + e.weight < i32::MAX && !settled.contains(z) {
                assert(dist.contains_key(z) && !settled.contains(z) && dist[z] <= walk_weight(p));
            }
        }
    }
}

/// An unsettled node reached at a cost no greater than any frontier entry has no
/// cheaper walk.
pub(crate) proof fn lemma_min_is_optimal(
    adj: Map<i32, Seq<Edge>>,
    s: i32,
    t: i32,
    dist: Map<i32, i32>,
    frontier: Seq<State>,
    settled: Set<i32>,
    u: i32,
    c: int,
)
    requires
        arcs_well_formed(adj),
        search_inv(adj, s, t, dist, frontier, settled),
        !settled.contains(u),
        c <= i32::MAX,
        forall|k: int| 0 <= k < frontier.len() ==> c <= #[trigger] frontier[k].cost,
    ensures
        no_cheaper(adj, s, u, c),
{
    assert forall|p: Seq<Edge>| #[trigger] is_walk(adj, s, u, p) implies c <= walk_weight(p) by {
        lemma_frontier_cut(adj, s, t, dist, frontier, settled, u, p);
        if walk_weight(p) < i32::MAX {
            let y = choose|y: i32|
                #![trigger dist.contains_key(y)]
                dist.contains_key(y) && !settled.contains(y) && dist[y] <= walk_weight(p);
            let entry = State { cost: dist[y], position: y };
            assert(frontier.contains(entry));
            let k = choose|k: int| 0 <= k < frontier.len() && frontier[k] == entry;
            assert(c <= frontier[k].cost);
        }
    }
}

/// Lowering the recorded distance of `v` keeps every arc relaxed.
pub(crate) proof fn lemma_settled_after_improve(
    adj: Map<i32, Seq<Edge>>,
    s: i32,
    dist: Map<i32, i32>,
    x: i32,
    v: i32,
    d: i32,
)
    requires
        settled_ok(adj, s, dist, x),
        x != v,
        dist.contains_key(v) ==> d <= dist[v],
    ensures
        settled_ok(adj, s, dist.insert(v, d), x),
{
    let dist2 = dist.insert(v, d);
    if adj.contains_key(x) {
        assert forall|i: int| 0 <= i < adj[x].len() implies relaxed(
            dist2,
            dist2[x] as int,
            #[trigger] adj[x][i],
        ) by {
            assert(relaxed(dist, dist[x] as int, adj[x][i]));
        }
    }
}

/// Recording `cand` for the target of the `j`-th arc of `u`, where it improves on
/// the recorded distance, and pushing it to the frontier, keeps the search state.
pub(crate) proof fn lemma_relax_step(
    adj: Map<i32, Seq<Edge>>,
    s: i32,
    t: i32,
    dist: Map<i32, i32>,
    frontier: Seq<State>,
    settled: Set<i32>,
    u: i32,
    c: i32,
    j: int,
    cand: i32,
)
    requires
        arcs_well_formed(adj),
        adj.contains_key(u),
        0 <= j < adj[u].len(),
        settled.contains(u),
        dist.contains_key(u),
        dist[u] == c,
        no_cheaper(adj, s, u, c as int),
        search_core(adj, s, t, dist, frontier, settled),
        forall|x: i32| #[trigger] settled.contains(x) && x != u ==> settled_ok(adj, s, dist, x),
        forall|i: int| 0 <= i < j ==> relaxed(dist, c as int, #[trigger] adj[u][i]),
        cand == c + adj[u][j].weight,
        !dist.contains_key(adj[u][j].node_b_id) || cand < dist[adj[u][j].node_b_id],
        cand < i32::MAX,
    ensures
        ({
            let v = adj[u][j].node_b_id;
            let dist2 = dist.insert(v, cand);
            let frontier2 = frontier.push(State { cost: cand, position: v });
            &&& !settled.contains(v)
            &&& v != u
            &&& search_core(adj, s, t, dist2, frontier2, settled)
            &&& forall|x: i32| #[trigger]
                settled.contains(x) && x != u ==> settled_ok(adj, s, dist2, x)
            &&& forall|i: int| 0 <= i <= j ==> relaxed(dist2, c as int, #[trigger] adj[u][i])
        }),
{
    let e = adj[u][j];
    let v = e.node_b_id;
    let dist2 = dist.insert(v, cand);
    let entry = State { cost: cand, position: v };
    let frontier2 = frontier.push(entry);
    assert(e.node_a_id == u && e.weight >= 0);
    assert(adj[u].contains(e));
    assert(has_arc(adj, e));
    assert(has_arc(adj, reversed(e)));
    let p = choose|p: Seq<Edge>| #[trigger] is_walk(adj, s, u, p) && walk_weight(p) == c as int;
    lemma_walk_push(adj, s, p, e);
    assert(reaches(adj, s, v, cand as int));
    if settled.contains(v) {
        if v != u {
            assert(settled_ok(adj, s, dist, v));
        }
        assert(dist[v] <= cand);
    }
    assert forall|w: i32| #[trigger]
        dist2.contains_key(w) && !settled.contains(w) implies frontier2.contains(
        (State { cost: dist2[w], position: w }),
    ) by {
        if w == v {
            assert(frontier2[frontier.len() as int] == entry);
        } else {
            let x = State { cost: dist[w], position: w };
            assert(frontier.contains(x));
            let k = choose|k: int| 0 <= k < frontier.len() && frontier[k] == x;
            assert(frontier2[k] == x);
        }
    }
    assert forall|i: int| 0 <= i < frontier2.len() implies dist2.contains_key(
        (#[trigger] frontier2[i]).position,
    ) && dist2[frontier2[i].position] <= frontier2[i].cost by {
        if i < frontier.len() {
            assert(frontier2[i] == frontier[i]);
        }
    }
    assert forall|x: i32| #[trigger] settled.contains(x) && x != u implies settled_ok(
        adj,
        s,
        dist2,
        x,
    ) by {
        lemma_settled_after_improve(adj, s, dist, x, v, cand);
    }
    assert forall|i: int| 0 <= i <= j implies relaxed(dist2, c as int, #[trigger] adj[u][i]) by {
        if i < j {
            assert(relaxed(dist, c as int, adj[u][i]));
        }
    }
}

/// Removes and returns an entry of least cost.
pub(crate) fn pop_min(frontier: &mut Vec<State>) -> (r: State)
    requires
        old(frontier).len() > 0,
    ensures
        final(frontier)@.len() == old(frontier)@.len() - 1,
        old(frontier)@.contains(r),
        forall|k: int| 0 <= k < old(frontier)@.len() ==> r.cost <= #[trigger] old(frontier)@[k].cost,
        forall|k: int|
            0 <= k < final(frontier)@.len() ==> old(frontier)@.contains(#[trigger] final(frontier)@[k]),
        forall|x: State| #[trigger] old(frontier)@.contains(x) && x != r ==> final(frontier)@.contains(x),
{
    let mut best: usize = 0;
    let mut k: usize = 1;
    while k < frontier.len()
        invariant
            0 <= best < frontier.len(),
            1 <= k <= frontier.len(),
            forall|m: int| 0 <= m < k ==> frontier@[best as int].cost <= #[trigger] frontier@[m].cost,
        decreases frontier.len() - k,
    {
        if frontier[k].cost < frontier[best].cost {
            best = k;
        }
        k = k + 1;
    }
    let ghost before = frontier@;
    let r = frontier.remove(best);
    proof {
        let b = best as int;
        before.remove_ensures(b);
        assert(before[b] == r);
        assert forall|m: int| 0 <= m < frontier@.len() implies before.contains(
            #[trigger] frontier@[m],
        ) by {
            if m < b {
                assert(before[m] == frontier@[m]);
            } else {
                assert(before[m + 1] == frontier@[m]);
            }
        }
        assert forall|x: State| #[trigger] before.contains(x) && x != r implies frontier@.contains(
            x,
        ) by {
            let m = choose|m: int| 0 <= m < before.len() && before[m] == x;
            if m < b {
                assert(frontier@[m] == x);
            } else {
                assert(frontier@[m - 1] == x);
            }
        }
    }
    r
}

} // verus!
