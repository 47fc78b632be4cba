use vstd::prelude::*;

verus! {

/// A node of the graph: an identifier and planar coordinates.
#[derive(Clone, Copy, Debug)]
pub struct Node {
    pub id: i32,
    pub x: i32,
    pub y: i32,
}

/// A weighted connection between two node identifiers.
///
/// Inside a graph it is stored as a directed arc from `node_a_id` to `node_b_id`.
#[derive(Clone, Copy, Debug)]
pub struct Edge {
    pub node_a_id: i32,
    pub node_b_id: i32,
    pub weight: i32,
}

/// The same connection, traversed in the other direction.
pub open spec fn reversed(e: Edge) -> Edge {
    Edge { node_a_id: e.node_b_id, node_b_id: e.node_a_id, weight: e.weight }
}

/// The arcs leaving `u` (empty for an identifier without an adjacency entry).
pub open spec fn arcs_from(adj: Map<i32, Seq<Edge>>, u: i32) -> Seq<Edge> {
    if adj.contains_key(u) {
        adj[u]
    } else {
        Seq::empty()
    }
}

/// The adjacency mapping after appending arc `e` to the list of its source.
pub open spec fn add_arc(adj: Map<i32, Seq<Edge>>, e: Edge) -> Map<i32, Seq<Edge>> {
    adj.insert(e.node_a_id, arcs_from(adj, e.node_a_id).push(e))
}

/// `e` is stored in the adjacency list of its source.
pub open spec fn has_arc(adj: Map<i32, Seq<Edge>>, e: Edge) -> bool {
    adj.contains_key(e.node_a_id) && adj[e.node_a_id].contains(e)
}

/// Every arc lies in the list of its own source and has a non-negative weight;
/// every arc has its reverse; finitely many lists.
pub open spec fn arcs_well_formed(adj: Map<i32, Seq<Edge>>) -> bool {
    &&& adj.dom().finite()
    &&& forall|u: i32, i: int|
        adj.contains_key(u) && 0 <= i < adj[u].len() ==> (#[trigger] adj[u][i]).node_a_id == u
            && adj[u][i].weight >= 0
    &&& forall|e: Edge| #[trigger] has_arc(adj, e) ==> has_arc(adj, reversed(e))
}

/// `p` is a sequence of stored arcs, each starting where the previous one ends,
/// leading from `s` to `t`. The empty walk leads from a node to itself.
pub open spec fn is_walk(adj: Map<i32, Seq<Edge>>, s: i32, t: i32, p: Seq<Edge>) -> bool
    decreases p.len(),
{
    if p.len() == 0 {
        s == t
    } else {
        &&& has_arc(adj, p.last())
        &&& p.last().node_b_id == t
        &&& is_walk(adj, s, p.last().node_a_id, p.drop_last())
    }
}

/// The total weight of the arcs of a walk.
pub open spec fn walk_weight(p: Seq<Edge>) -> int
    decreases p.len(),
{
    if p.len() == 0 {
        0
    } else {
        walk_weight(p.drop_last()) + p.last().weight
    }
}

/// Some walk from `s` to `t` weighs exactly `c`.
pub open spec fn reaches(adj: Map<i32, Seq<Edge>>, s: i32, t: i32, c: int) -> bool {
    exists|p: Seq<Edge>| #[trigger] is_walk(adj, s, t, p) && walk_weight(p) == c
}

/// No walk from `s` to `t` weighs less than `c`.
pub open spec fn no_cheaper(adj: Map<i32, Seq<Edge>>, s: i32, t: i32, c: int) -> bool {
    forall|p: Seq<Edge>| #[trigger] is_walk(adj, s, t, p) ==> c <= walk_weight(p)
}

/// The value that a shortest-path query from `s` to `t` answers: the least
/// weight of a walk, or `i32::MAX` where no walk weighs less than that
/// (in particular where `t` cannot be reached at all).
pub open spec fn is_shortest_cost(adj: Map<i32, Seq<Edge>>, s: i32, t: i32, r: int) -> bool {
    &&& 0 <= r <= i32::MAX
    &&& r < i32::MAX ==> reaches(adj, s, t, r)
    &&& no_cheaper(adj, s, t, r)
}

/// After appending `e`, the stored arcs are the earlier ones and `e`.
pub proof fn lemma_add_arc_has_arc(adj: Map<i32, Seq<Edge>>, e: Edge, f: Edge)
    ensures
        has_arc(add_arc(adj, e), f) <==> (has_arc(adj, f) || f == e),
{
    let l = arcs_from(adj, e.node_a_id);
    if has_arc(adj, f) && f.node_a_id == e.node_a_id {
        let i = choose|i: int| 0 <= i < l.len() && l[i] == f;
        assert(l.push(e)[i] == f);
    }
    if has_arc(add_arc(adj, e), f) && f.node_a_id == e.node_a_id && f != e {
        let i = choose|i: int| 0 <= i < l.len() + 1 && l.push(e)[i] == f;
        assert(l[i] == f);
    }
    if f == e {
        assert(l.push(e)[l.len() as int] == e);
    }
}

/// Appending an arc that starts at the end of a walk gives a longer walk.
pub proof fn lemma_walk_push(adj: Map<i32, Seq<Edge>>, s: i32, p: Seq<Edge>, e: Edge)
    requires
        is_walk(adj, s, e.node_a_id, p),
        has_arc(adj, e),
    ensures
        is_walk(adj, s, e.node_b_id, p.push(e)),
        walk_weight(p.push(e)) == walk_weight(p) + e.weight,
{
    assert(p.push(e).drop_last() =~= p);
}

/// Two walks that meet concatenate into one, whose weight is the sum.
pub proof fn lemma_walk_concat(
    adj: Map<i32, Seq<Edge>>,
    a: i32,
    b: i32,
    c: i32,
    p: Seq<Edge>,
    q: Seq<Edge>,
)
    requires
        is_walk(adj, a, b, p),
        is_walk(adj, b, c, q),
    ensures
        is_walk(adj, a, c, p + q),
        walk_weight(p + q) == walk_weight(p) + walk_weight(q),
    decreases q.len(),
{
    if q.len() == 0 {
        assert(p + q =~= p);
    } else {
        let e = q.last();
        lemma_walk_concat(adj, a, b, e.node_a_id, p, q.drop_last());
        assert((p + q).drop_last() =~= p + q.drop_last());
        assert((p + q).last() == e);
    }
}

/// Putting an arc in front of a walk that starts where the arc ends gives a walk.
pub proof fn lemma_walk_prepend(adj: Map<i32, Seq<Edge>>, t: i32, e: Edge, q: Seq<Edge>)
    requires
        has_arc(adj, e),
        is_walk(adj, e.node_b_id, t, q),
    ensures
        is_walk(adj, e.node_a_id, t, seq![e] + q),
        walk_weight(seq![e] + q) == e.weight + walk_weight(q),
{
    let empty = Seq::<Edge>::empty();
    let one = seq![e];
    assert(is_walk(adj, e.node_a_id, e.node_a_id, empty));
    lemma_walk_push(adj, e.node_a_id, empty, e);
    assert(empty.push(e) =~= one);
    assert(walk_weight(empty) == 0);
    lemma_walk_concat(adj, e.node_a_id, e.node_b_id, t, one, q);
}

/// The walk that takes the arcs of `p` backwards, in reverse order.
pub open spec fn reverse_walk(p: Seq<Edge>) -> Seq<Edge>
    decreases p.len(),
{
    if p.len() == 0 {
        Seq::empty()
    } else {
        seq![reversed(p.last())] + reverse_walk(p.drop_last())
    }
}

/// Over arcs that all have their reverse, a walk can be taken backwards at the same weight.
pub proof fn lemma_walk_reverse(adj: Map<i32, Seq<Edge>>, s: i32, t: i32, p: Seq<Edge>)
    requires
        arcs_well_formed(adj),
        is_walk(adj, s, t, p),
    ensures
        is_walk(adj, t, s, reverse_walk(p)),
        walk_weight(reverse_walk(p)) == walk_weight(p),
    decreases p.len(),
{
    if p.len() > 0 {
        let e = p.last();
        lemma_walk_reverse(adj, s, e.node_a_id, p.drop_last());
        assert(has_arc(adj, reversed(e)));
        lemma_walk_prepend(adj, s, reversed(e), reverse_walk(p.drop_last()));
    }
}

/// A query from a node to itself answers zero.
pub proof fn lemma_shortest_to_self_is_zero(adj: Map<i32, Seq<Edge>>, n: i32, r: int)
    requires
        is_shortest_cost(adj, n, n, r),
    ensures
        r == 0,
{
    let empty = Seq::<Edge>::empty();
    assert(is_walk(adj, n, n, empty));
}

/// In a graph whose arcs all have their reverse, the query from `s` to `t`
/// and the query from `t` to `s` answer the same.
pub proof fn lemma_shortest_cost_symmetric(
    adj: Map<i32, Seq<Edge>>,
    s: i32,
    t: i32,
    r1: int,
    r2: int,
)
    requires
        arcs_well_formed(adj),
        is_shortest_cost(adj, s, t, r1),
        is_shortest_cost(adj, t, s, r2),
    ensures
        r1 == r2,
{
    if r1 < i32::MAX {
        let p = choose|p: Seq<Edge>| is_walk(adj, s, t, p) && walk_weight(p) == r1;
        lemma_walk_reverse(adj, s, t, p);
        assert(r2 <= r1);
    }
    if r2 < i32::MAX {
        let q = choose|q: Seq<Edge>| is_walk(adj, t, s, q) && walk_weight(q) == r2;
        lemma_walk_reverse(adj, t, s, q);
        assert(r1 <= r2);
    }
}

/// Going from `a` to `c` never costs more than going through `b`.
pub proof fn lemma_shortest_cost_triangle(
    adj: Map<i32, Seq<Edge>>,
    a: i32,
    b: i32,
    c: i32,
    r_ac: int,
    r_ab: int,
    r_bc: int,
)
    requires
        is_shortest_cost(adj, a, c, r_ac),
        is_shortest_cost(adj, a, b, r_ab),
        is_shortest_cost(adj, b, c, r_bc),
    ensures
        r_ac <= r_ab + r_bc,
{
    if r_ab < i32::MAX && r_bc < i32::MAX {
        let p = choose|p: Seq<Edge>| is_walk(adj, a, b, p) && walk_weight(p) == r_ab;
        let q = choose|q: Seq<Edge>| is_walk(adj, b, c, q) && walk_weight(q) == r_bc;
        lemma_walk_concat(adj, a, b, c, p, q);
        assert(is_walk(adj, a, c, p + q));
    }
}

/// A stored arc bounds the query between its endpoints by its weight.
pub proof fn lemma_arc_bounds_shortest_cost(adj: Map<i32, Seq<Edge>>, e: Edge, r: int)
    requires
        has_arc(adj, e),
        is_shortest_cost(adj, e.node_a_id, e.node_b_id, r),
    ensures
        r <= e.weight,
{
    let empty = Seq::<Edge>::empty();
    assert(is_walk(adj, e.node_a_id, e.node_a_id, empty));
    lemma_walk_push(adj, e.node_a_id, empty, e);
    assert(walk_weight(empty) == 0);
}

} // verus!
