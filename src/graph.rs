use std::collections::HashMap;
use vstd::prelude::*;

use crate::model::{
    add_arc, arcs_from, arcs_well_formed, has_arc, is_shortest_cost, is_walk, lemma_add_arc_has_arc,
    lemma_walk_push, no_cheaper, reaches, reversed, walk_weight, Edge, Node,
};
use crate::search::{
    lemma_min_is_optimal, lemma_relax_step, pop_min, relaxed, search_core, search_inv,
    settled_ok, State,
};

verus! {

broadcast use vstd::std_specs::hash::group_hash_axioms;

/// Nodes keyed by identifier, and for each identifier the list of arcs that leave it.
#[derive(Debug)]
pub struct Graph {
    nodes: HashMap<i32, Node>,
    edges: HashMap<i32, Vec<Edge>>,
}

impl Graph {
    /// The node records, keyed by identifier.
    pub closed spec fn node_map(&self) -> Map<i32, Node> {
        self.nodes@
    }

    /// The adjacency mapping: for each identifier, its outgoing arcs in insertion order.
    pub closed spec fn arcs(&self) -> Map<i32, Seq<Edge>> {
        self.edges@.map_values(|v: Vec<Edge>| v@)
    }

    /// Every arc sits in the list of its source, weighs at least zero, and has its reverse.
    pub open spec fn wf(&self) -> bool {
        arcs_well_formed(self.arcs())
    }

    /// An empty graph.
    pub fn new() -> (g: Graph)
        ensures
            g.wf(),
            g.node_map() == Map::<i32, Node>::empty(),
            g.arcs() == Map::<i32, Seq<Edge>>::empty(),
    {
        let g = Graph { nodes: HashMap::new(), edges: HashMap::new() };
        assert(g.arcs() =~= Map::<i32, Seq<Edge>>::empty());
        g
    }

    /// Inserts the node under its identifier, replacing any earlier record.
    pub fn add_node(&mut self, node: Node)
        requires
            old(self).wf(),
        ensures
            final(self).wf(),
            final(self).node_map() == old(self).node_map().insert(node.id, node),
            final(self).arcs() == old(self).arcs(),
    {
        self.nodes.insert(node.id, node);
    }

    /// The record stored under `id`, if any.
    pub fn node(&self, id: i32) -> (r: Option<Node>)
        ensures
            r == (if self.node_map().contains_key(id) {
                Some(self.node_map()[id])
            } else {
                None::<Node>
            }),
    {
        match self.nodes.get(&id) {
            Some(n) => Some(*n),
            None => None,
        }
    }

    /// The arcs that leave `id`, in insertion order.
    pub fn arcs_of(&self, id: i32) -> (r: Vec<Edge>)
        ensures
            r@ == arcs_from(self.arcs(), id),
    {
        match self.edges.get(&id) {
            Some(v) => v.clone(),
            None => Vec::new(),
        }
    }

    /// Appends `e` to the adjacency list of its source.
    fn push_arc(&mut self, e: Edge)
        ensures
            final(self).nodes@ == old(self).nodes@,
            final(self).arcs() == add_arc(old(self).arcs(), e),
    {
        let ghost before = self.arcs();
        let mut list = match self.edges.remove(&e.node_a_id) {
            Some(v) => v,
            None => Vec::new(),
        };
        assert(list@ == arcs_from(before, e.node_a_id));
        list.push(e);
        self.edges.insert(e.node_a_id, list);
        assert(self.arcs() =~= add_arc(before, e));
    }

    /// Adds an undirected edge: the arc `a -> b` to the list of `a`, and the arc
    /// `b -> a` with the same weight to the list of `b`.
    pub fn add_edge(&mut self, edge: Edge)
        requires
            old(self).wf(),
            edge.weight >= 0,
        ensures
            final(self).wf(),
            final(self).node_map() == old(self).node_map(),
            final(self).arcs() == add_arc(add_arc(old(self).arcs(), edge), reversed(edge)),
            has_arc(final(self).arcs(), edge),
            has_arc(final(self).arcs(), reversed(edge)),
            reaches(final(self).arcs(), edge.node_a_id, edge.node_b_id, edge.weight as int),
            reaches(final(self).arcs(), edge.node_b_id, edge.node_a_id, edge.weight as int),
    {
        let ghost adj0 = self.arcs();
        self.push_arc(edge);
        let reverse_edge = Edge {
            node_a_id: edge.node_b_id,
            node_b_id: edge.node_a_id,
            weight: edge.weight,
        };
        self.push_arc(reverse_edge);
        proof {
            let adj1 = add_arc(adj0, edge);
            let adj2 = self.arcs();
            assert(reverse_edge == reversed(edge));
            assert forall|f: Edge| #[trigger] has_arc(adj2, f) <==> (has_arc(adj0, f) || f == edge
                || f == reverse_edge) by {
                lemma_add_arc_has_arc(adj0, edge, f);
                lemma_add_arc_has_arc(adj1, reverse_edge, f);
            }
            assert forall|f: Edge| #[trigger] has_arc(adj2, f) implies has_arc(
                adj2,
                reversed(f),
            ) by {
                assert(has_arc(adj2, reversed(f)) <==> (has_arc(adj0, reversed(f)) || reversed(f)
                    == edge || reversed(f) == reverse_edge));
                if has_arc(adj0, f) {
                    assert(has_arc(adj0, reversed(f)));
                }
            }
            assert forall|u: i32, i: int| adj2.contains_key(u) && 0 <= i < adj2[u].len() implies (
            #[trigger] adj2[u][i]).node_a_id == u && adj2[u][i].weight >= 0 by {
                if u == reverse_edge.node_a_id && i == adj2[u].len() - 1 {
                } else if u == edge.node_a_id && i == adj1[u].len() - 1 {
                } else {
                    assert(adj2[u][i] == adj0[u][i]);
                }
            }
            let empty = Seq::<Edge>::empty();
            assert(walk_weight(empty) == 0);
            assert(is_walk(adj2, edge.node_a_id, edge.node_a_id, empty));
            lemma_walk_push(adj2, edge.node_a_id, empty, edge);
            assert(is_walk(adj2, edge.node_b_id, edge.node_b_id, empty));
            lemma_walk_push(adj2, edge.node_b_id, empty, reverse_edge);
        }
    }

    /// The least total weight of a walk from `from_node_id` to `to_node_id`, or
    /// `i32::MAX` where the target cannot be reached at less than that cost.
    pub fn shortest_path(&self, from_node_id: i32, to_node_id: i32) -> (r: i32)
        requires
            self.wf(),
        ensures
            is_shortest_cost(self.arcs(), from_node_id, to_node_id, r as int),
            (forall|p: Seq<Edge>| !is_walk(self.arcs(), from_node_id, to_node_id, p)) ==> r
                == i32::MAX,
    {
        let ghost adj = self.arcs();
        let ghost s = from_node_id;
        let ghost t = to_node_id;
        let mut distances: HashMap<i32, i32> = HashMap::new();
        // Candidates in no particular order; the cheapest is taken out each round.
        let mut frontier: Vec<State> = Vec::new();
        distances.insert(from_node_id, 0);
        frontier.push(State { cost: 0, position: from_node_id });
        let ghost mut settled: Set<i32> = Set::empty();
        let ghost mut remaining: Set<i32> = adj.dom().insert(from_node_id);
        proof {
            let empty = Seq::<Edge>::empty();
            assert(is_walk(adj, s, s, empty));
            assert(walk_weight(empty) == 0);
            assert(frontier@[0] == State { cost: 0, position: s });
        }
        while frontier.len() > 0
            invariant
                self.wf(),
                adj == self.arcs(),
                s == from_node_id,
                t == to_node_id,
                search_inv(adj, s, t, distances@, frontier@, settled),
                remaining.finite(),
                forall|v: i32|
                    (v == s || adj.contains_key(v)) && !settled.contains(v) ==> #[trigger] remaining.contains(v),
            decreases remaining.len(), frontier@.len(),
        {
            let ghost dist0 = distances@;
            let ghost f0 = frontier@;
            let st = pop_min(&mut frontier);
            let position = st.position;
            let cost = st.cost;
            let ghost f1 = frontier@;
            proof {
                let k = choose|k: int| 0 <= k < f0.len() && f0[k] == st;
                assert(dist0.contains_key(position) && dist0[position] <= cost);
                if !settled.contains(position) {
                    let entry = State { cost: dist0[position], position };
                    assert(f0.contains(entry));
                    let m = choose|m: int| 0 <= m < f0.len() && f0[m] == entry;
                    assert(cost <= f0[m].cost);
                }
                assert forall|i: int| 0 <= i < f1.len() implies dist0.contains_key(
                    (#[trigger] f1[i]).position,
                ) && dist0[f1[i].position] <= f1[i].cost by {
                    let m = choose|m: int| 0 <= m < f0.len() && f0[m] == f1[i];
                }
            }
            if position == to_node_id {
                proof {
                    lemma_min_is_optimal(adj, s, t, dist0, f0, settled, t, cost as int);
                }
                return cost;
            }
            // An entry left behind by a later improvement is skipped.
            if let Some(current_cost) = distances.get(&position) {
                if cost > *current_cost {
                    continue;
                }
            }
            let ghost fresh = !settled.contains(position);
            proof {
                assert(dist0[position] == cost);
                if fresh {
                    lemma_min_is_optimal(adj, s, t, dist0, f0, settled, position, cost as int);
                    assert(remaining.contains(position));
                    remaining = remaining.remove(position);
                }
                settled = settled.insert(position);
            }
            if let Some(edges) = self.edges.get(&position) {
                assert(edges@ == adj[position]);
                let mut j: usize = 0;
                while j < edges.len()
                    invariant
                        self.wf(),
                        adj == self.arcs(),
                        s == from_node_id,
                        t == to_node_id,
                        adj.contains_key(position),
                        edges@ == adj[position],
                        0 <= j <= edges@.len(),
                        settled.contains(position),
                        position != t,
                        distances@.contains_key(position),
                        distances@[position] == cost,
                        no_cheaper(adj, s, position, cost as int),
                        search_core(adj, s, t, distances@, frontier@, settled),
                        forall|x: i32| #[trigger]
                            settled.contains(x) && x != position ==> settled_ok(
                                adj,
                                s,
                                distances@,
                                x,
                            ),
                        forall|i: int|
                            0 <= i < j ==> relaxed(distances@, cost as int, #[trigger] edges@[i]),
                        !fresh ==> distances@ == dist0 && frontier@ == f1,
                        !fresh ==> forall|i: int|
                            0 <= i < edges@.len() ==> relaxed(dist0, cost as int, #[trigger] edges@[i]),
                        remaining.finite(),
                        forall|v: i32|
                            (v == s || adj.contains_key(v)) && !settled.contains(v)
                                ==> #[trigger] remaining.contains(v),
                    decreases edges.len() - j,
                {
                    let e = edges[j];
                    // A cost of `i32::MAX` or more is never recorded: such a target
                    // answers `i32::MAX` anyway, and nothing past it can cost less.
                    let cand: i64 = cost as i64 + e.weight as i64;
                    if cand < i32::MAX as i64 {
                        let next = e.node_b_id;
                        let shorter = match distances.get(&next) {
                            Some(d) => cand < *d as i64,
                            None => true,
                        };
                        if shorter {
                            let ghost d = distances@;
                            let ghost fr = frontier@;
                            proof {
                                lemma_relax_step(
                                    adj,
                                    s,
                                    t,
                                    d,
                                    fr,
                                    settled,
                                    position,
                                    cost,
                                    j as int,
                                    cand as i32,
                                );
                                assert(!fresh ==> relaxed(dist0, cost as int, edges@[j as int]));
                            }
                            distances.insert(next, cand as i32);
                            frontier.push(State { cost: cand as i32, position: next });
                        }
                    }
                    j = j + 1;
                }
            }
            proof {
                assert(settled_ok(adj, s, distances@, position));
            }
        }
        proof {
            lemma_min_is_optimal(adj, s, t, distances@, frontier@, settled, t, i32::MAX as int);
        }
        i32::MAX
    }
}

} // verus!
