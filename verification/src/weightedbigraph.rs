//! The weighted indexed bipartite graph: the same dense-index structure as
//! `bigraph`, with a weight (a bid, or a scaled probability) on every edge
//! and on every adjacency entry.

use crate::bigraph::first_index_of;
use crate::bigraph::firsts;
use crate::bigraph::index_of_key;
use crate::bigraph::keys_reflect_eq;
use crate::bigraph::lemma_adj_of_absent;
use crate::bigraph::lemma_first_index_of_new;
use crate::bigraph::lemma_first_index_push_stable;
use crate::bigraph::lemma_firsts_contains;
use crate::bigraph::lemma_firsts_len_is_distinct_count;
use crate::bigraph::lemma_firsts_no_dup;
use crate::bigraph::lemma_firsts_push;
use vstd::pervasive::VecAdditionalExecFns;
use vstd::prelude::*;
use vstd::string::StringExecFns;

verus! {

/// The left keys of a weighted edge list, in edge order.
pub open spec fn wlefts<Key, Weight>(edges: Seq<((Key, Key), Weight)>) -> Seq<Key> {
    edges.map_values(|e: ((Key, Key), Weight)| e.0.0)
}

/// The right keys of a weighted edge list, in edge order.
pub open spec fn wrights<Key, Weight>(edges: Seq<((Key, Key), Weight)>) -> Seq<Key> {
    edges.map_values(|e: ((Key, Key), Weight)| e.0.1)
}

/// No two entries of the weighted edge list join the same key pair: a
/// repeated (left, right) pair is a duplicate edge whatever its weight.
pub open spec fn wedges_distinct<Key, Weight>(edges: Seq<((Key, Key), Weight)>) -> bool {
    forall|a: int, b: int| 0 <= a < b < edges.len() ==> (#[trigger] edges[a]).0 != (
    #[trigger] edges[b]).0
}

/// Runtime test of the weighted `from_edges` precondition: true exactly
/// when no two entries join the same key pair.
pub fn wedges_are_distinct<Key: PartialEq + Copy, Weight: Copy>(
    edges: &Vec<((Key, Key), Weight)>,
) -> (r: bool)
    requires
        keys_reflect_eq::<Key>(),
    ensures
        r == wedges_distinct(edges@),
{
    let mut a: usize = 0;
    while a < edges.len()
        invariant
            keys_reflect_eq::<Key>(),
            a <= edges@.len(),
            forall|x: int, y: int|
                0 <= x < y < edges@.len() && x < a ==> (#[trigger] edges@[x]).0 != (
                #[trigger] edges@[y]).0,
        decreases edges@.len() - a,
    {
        let mut b: usize = a + 1;
        while b < edges.len()
            invariant
                keys_reflect_eq::<Key>(),
                a < b <= edges@.len() || (b == a + 1 && b >= edges@.len()),
                forall|y: int| a < y < b ==> edges@[a as int].0 != (#[trigger] edges@[y]).0,
            decreases edges@.len() - b,
        {
            if edges[a].0.0 == edges[b].0.0 && edges[a].0.1 == edges[b].0.1 {
                return false;
            }
            b += 1;
        }
        a += 1;
    }
    true
}

/// The weighted neighbor row of left index `i`: a (right index, weight)
/// entry for every pair whose left index is `i`, in pair order.
pub open spec fn wadj_of<Weight>(
    pairs: Seq<((usize, usize), Weight)>,
    i: int,
) -> Seq<(usize, Weight)>
    decreases pairs.len(),
{
    if pairs.len() == 0 {
        Seq::empty()
    } else {
        let prior = wadj_of(pairs.drop_last(), i);
        if pairs.last().0.0 == i {
            prior.push((pairs.last().0.1, pairs.last().1))
        } else {
            prior
        }
    }
}

/// The weighted neighbor row of right index `j`.
pub open spec fn co_wadj_of<Weight>(
    pairs: Seq<((usize, usize), Weight)>,
    j: int,
) -> Seq<(usize, Weight)>
    decreases pairs.len(),
{
    if pairs.len() == 0 {
        Seq::empty()
    } else {
        let prior = co_wadj_of(pairs.drop_last(), j);
        if pairs.last().0.1 == j {
            prior.push((pairs.last().0.0, pairs.last().1))
        } else {
            prior
        }
    }
}

/// How both weighted neighbor rows grow under one appended pair.
pub proof fn lemma_wadj_of_push<Weight>(
    pairs: Seq<((usize, usize), Weight)>,
    p: ((usize, usize), Weight),
    i: int,
)
    ensures
        wadj_of(pairs.push(p), i) == if p.0.0 == i {
            wadj_of(pairs, i).push((p.0.1, p.1))
        } else {
            wadj_of(pairs, i)
        },
        co_wadj_of(pairs.push(p), i) == if p.0.1 == i {
            co_wadj_of(pairs, i).push((p.0.0, p.1))
        } else {
            co_wadj_of(pairs, i)
        },
{
    assert(pairs.push(p).drop_last() =~= pairs);
    assert(pairs.push(p).last() == p);
}

/// An index that appears on the left of no pair has an empty weighted
/// neighbor row, and likewise on the right.
pub proof fn lemma_wadj_of_absent<Weight>(pairs: Seq<((usize, usize), Weight)>, i: int)
    ensures
        (forall|k: int| 0 <= k < pairs.len() ==> (#[trigger] pairs[k]).0.0 != i) ==> wadj_of(
            pairs,
            i,
        ) == Seq::<(usize, Weight)>::empty(),
        (forall|k: int| 0 <= k < pairs.len() ==> (#[trigger] pairs[k]).0.1 != i) ==> co_wadj_of(
            pairs,
            i,
        ) == Seq::<(usize, Weight)>::empty(),
    decreases pairs.len(),
{
    if pairs.len() > 0 {
        lemma_wadj_of_absent(pairs.drop_last(), i);
        assert(forall|k: int|
            0 <= k < pairs.drop_last().len() ==> pairs.drop_last()[k] == pairs[k]);
        assert(pairs.last() == pairs[pairs.len() - 1]);
    }
}

/// Every entry of a weighted neighbor row comes from a pair of the list.
pub proof fn lemma_wadj_of_entries<Weight>(pairs: Seq<((usize, usize), Weight)>, i: int)
    ensures
        forall|p: int|
            0 <= p < wadj_of(pairs, i).len() ==> pairs.contains(
                ((i as usize, (#[trigger] wadj_of(pairs, i)[p]).0), wadj_of(pairs, i)[p].1),
            ) && i == i as usize,
        forall|p: int|
            0 <= p < co_wadj_of(pairs, i).len() ==> pairs.contains(
                (((#[trigger] co_wadj_of(pairs, i)[p]).0, i as usize), co_wadj_of(pairs, i)[p].1),
            ) && i == i as usize,
    decreases pairs.len(),
{
    if pairs.len() > 0 {
        lemma_wadj_of_entries(pairs.drop_last(), i);
        assert forall|x: ((usize, usize), Weight)|
            pairs.drop_last().contains(x) implies pairs.contains(x) by {
            let w = choose|k: int|
                0 <= k < pairs.drop_last().len() && pairs.drop_last()[k] == x;
            assert(pairs[w] == x);
        }
        assert(pairs.last() == pairs[pairs.len() - 1]);
        if pairs.last().0.0 == i {
            assert(pairs.contains(((i as usize, pairs.last().0.1), pairs.last().1)));
        }
        if pairs.last().0.1 == i {
            assert(pairs.contains(((pairs.last().0.0, i as usize), pairs.last().1)));
        }
    }
}

/// The per-row view of a vector of weighted rows.
pub open spec fn wrows_view<Weight>(rows: Seq<Vec<(usize, Weight)>>) -> Seq<Seq<(usize, Weight)>> {
    Seq::new(rows.len(), |i: int| rows[i]@)
}

/// Pair `k` of `pairs` indexes edge `k`'s keys at their first occurrence
/// in the node lists, and carries the edge's weight.
pub open spec fn wpair_pinned<Key, Weight>(
    pairs: Seq<((usize, usize), Weight)>,
    edges: Seq<((Key, Key), Weight)>,
    us: Seq<Key>,
    vs: Seq<Key>,
    k: int,
) -> bool {
    &&& pairs[k].0.0 as int == first_index_of(us, edges[k].0.0)
    &&& pairs[k].0.1 as int == first_index_of(vs, edges[k].0.1)
    &&& pairs[k].1 == edges[k].1
}

/// What `WBigraph::from_edges` guarantees of its result.
pub open spec fn wbuilt_from<Key, Weight>(
    g: WBigraph<Key, Weight>,
    edges: Seq<((Key, Key), Weight)>,
) -> bool {
    &&& g.wf()
    &&& g.nodes_edges@ == edges
    &&& g.u_nodes@ == firsts(wlefts(edges))
    &&& g.v_nodes@ == firsts(wrights(edges))
    &&& g.edge_pairs().len() == edges.len()
    &&& forall|k: int|
        0 <= k < edges.len() ==> #[trigger] wpair_pinned(
            g.edge_pairs(),
            edges,
            g.u_nodes@,
            g.v_nodes@,
            k,
        )
}

/// Building the same weighted graph from the same edge list twice yields
/// identical index assignments: the graph is a function of its edge list.
pub proof fn lemma_wfrom_edges_deterministic<Key, Weight>(
    g1: WBigraph<Key, Weight>,
    g2: WBigraph<Key, Weight>,
    edges: Seq<((Key, Key), Weight)>,
)
    requires
        wbuilt_from(g1, edges),
        wbuilt_from(g2, edges),
    ensures
        g1.u_nodes@ == g2.u_nodes@,
        g1.v_nodes@ == g2.v_nodes@,
        g1.nodes_edges@ == g2.nodes_edges@,
        g1.edge_pairs() == g2.edge_pairs(),
        g1.u_adj() == g2.u_adj(),
        g1.v_adj() == g2.v_adj(),
{
    assert(g1.edge_pairs() =~= g2.edge_pairs()) by {
        assert forall|k: int|
            0 <= k < edges.len() implies #[trigger] g1.edge_pairs()[k] == g2.edge_pairs()[k] by {
            assert(wpair_pinned(g1.edge_pairs(), edges, g1.u_nodes@, g1.v_nodes@, k));
            assert(wpair_pinned(g2.edge_pairs(), edges, g2.u_nodes@, g2.v_nodes@, k));
        }
    }
    assert(g1.u_adj() =~= g2.u_adj()) by {
        assert forall|i: int|
            0 <= i < g1.u_adj().len() implies #[trigger] g1.u_adj()[i] == g2.u_adj()[i] by {
            assert(g1.u_adj()[i] == wadj_of(g1.edge_pairs(), i));
            assert(g2.u_adj()[i] == wadj_of(g2.edge_pairs(), i));
        }
    }
    assert(g1.v_adj() =~= g2.v_adj()) by {
        assert forall|j: int|
            0 <= j < g1.v_adj().len() implies #[trigger] g1.v_adj()[j] == co_wadj_of(
            g1.edge_pairs(),
            j,
        ) && g1.v_adj()[j] == g2.v_adj()[j] by {
            assert(g1.v_adj()[j] == co_wadj_of(g1.edge_pairs(), j));
            assert(g2.v_adj()[j] == co_wadj_of(g2.edge_pairs(), j));
        }
    }
}

/// Every adjacency entry of a well-formed weighted graph indexes a node
/// of the other side.
pub proof fn lemma_wwf_adjacency_bounds<Key, Weight>(g: WBigraph<Key, Weight>)
    requires
        g.wf(),
    ensures
        forall|i: int, q: int|
            0 <= i < g.u_nodes@.len() && 0 <= q < g.u_adj()[i].len() ==> ((
            #[trigger] g.u_adj()[i][q]).0 as int) < g.v_nodes@.len(),
        forall|j: int, q: int|
            0 <= j < g.v_nodes@.len() && 0 <= q < g.v_adj()[j].len() ==> ((
            #[trigger] g.v_adj()[j][q]).0 as int) < g.u_nodes@.len(),
{
    assert forall|i: int, q: int|
        0 <= i < g.u_nodes@.len() && 0 <= q < g.u_adj()[i].len() implies ((
    #[trigger] g.u_adj()[i][q]).0 as int) < g.v_nodes@.len() by {
        assert(g.u_adj()[i] == wadj_of(g.edge_pairs(), i));
        lemma_wadj_of_entries(g.edge_pairs(), i);
        let x = wadj_of(g.edge_pairs(), i)[q];
        assert(g.edge_pairs().contains(((i as usize, x.0), x.1)));
        let k = choose|k: int|
            0 <= k < g.edge_pairs().len() && g.edge_pairs()[k] == ((i as usize, x.0), x.1);
        assert(g.edge_ok(k));
    }
    assert forall|j: int, q: int|
        0 <= j < g.v_nodes@.len() && 0 <= q < g.v_adj()[j].len() implies ((
    #[trigger] g.v_adj()[j][q]).0 as int) < g.u_nodes@.len() by {
        assert(g.v_adj()[j] == co_wadj_of(g.edge_pairs(), j));
        lemma_wadj_of_entries(g.edge_pairs(), j);
        let x = co_wadj_of(g.edge_pairs(), j)[q];
        assert(g.edge_pairs().contains(((x.0, j as usize), x.1)));
        let k = choose|k: int|
            0 <= k < g.edge_pairs().len() && g.edge_pairs()[k] == ((x.0, j as usize), x.1);
        assert(g.edge_ok(k));
    }
}

/// A bipartite graph with a weight on every edge.
#[derive(Debug, PartialEq)]
pub struct WBigraph<Key, Weight> {
    pub v_nodes: Vec<Key>,
    pub u_nodes: Vec<Key>,
    pub nodes_edges: Vec<((Key, Key), Weight)>,
    pub nodes_edges_use_index: Vec<((usize, usize), Weight)>,
    pub v_adjacency_list: Vec<Vec<(usize, Weight)>>,
    pub u_adjacency_list: Vec<Vec<(usize, Weight)>>,
}

impl<Key, Weight> WBigraph<Key, Weight> {
    /// The edges as ((left index, right index), weight) triples, in
    /// insertion order.
    pub open spec fn edge_pairs(self) -> Seq<((usize, usize), Weight)> {
        self.nodes_edges_use_index@
    }

    /// The left-side weighted adjacency rows.
    pub open spec fn u_adj(self) -> Seq<Seq<(usize, Weight)>> {
        wrows_view(self.u_adjacency_list@)
    }

    /// The right-side weighted adjacency rows.
    pub open spec fn v_adj(self) -> Seq<Seq<(usize, Weight)>> {
        wrows_view(self.v_adjacency_list@)
    }

    /// Edge `k` joins nodes that exist, and the key edge list agrees with
    /// the index pair list.
    pub open spec fn edge_ok(self, k: int) -> bool {
        let p = self.edge_pairs()[k];
        &&& (p.0.0 as int) < self.u_nodes@.len()
        &&& (p.0.1 as int) < self.v_nodes@.len()
        &&& self.nodes_edges@[k] == (
            (self.u_nodes@[p.0.0 as int], self.v_nodes@[p.0.1 as int]),
            p.1,
        )
    }

    /// The internal invariant, exactly as for the unweighted graph.
    pub open spec fn wf(self) -> bool {
        &&& self.u_nodes@.no_duplicates()
        &&& self.v_nodes@.no_duplicates()
        &&& self.u_adj().len() == self.u_nodes@.len()
        &&& self.v_adj().len() == self.v_nodes@.len()
        &&& self.edge_pairs().len() == self.nodes_edges@.len()
        &&& forall|k: int| 0 <= k < self.edge_pairs().len() ==> #[trigger] self.edge_ok(k)
        &&& forall|i: int|
            0 <= i < self.u_nodes@.len() ==> #[trigger] self.u_adj()[i] == wadj_of(
                self.edge_pairs(),
                i,
            )
        &&& forall|j: int|
            0 <= j < self.v_nodes@.len() ==> #[trigger] self.v_adj()[j] == co_wadj_of(
                self.edge_pairs(),
                j,
            )
    }
}

impl<Key: PartialEq + Copy, Weight: Copy> WBigraph<Key, Weight> {
    /// The empty weighted graph.
    pub fn new() -> (r: WBigraph<Key, Weight>)
        ensures
            r.wf(),
            r.u_nodes@ == Seq::<Key>::empty(),
            r.v_nodes@ == Seq::<Key>::empty(),
            r.nodes_edges@ == Seq::<((Key, Key), Weight)>::empty(),
            r.edge_pairs() == Seq::<((usize, usize), Weight)>::empty(),
    {
        let r = WBigraph {
            v_nodes: Vec::new(),
            u_nodes: Vec::new(),
            nodes_edges: Vec::new(),
            nodes_edges_use_index: Vec::new(),
            v_adjacency_list: Vec::new(),
            u_adjacency_list: Vec::new(),
        };
        proof {
            assert(r.u_nodes@ =~= Seq::<Key>::empty());
            assert(r.v_nodes@ =~= Seq::<Key>::empty());
            assert(r.nodes_edges@ =~= Seq::<((Key, Key), Weight)>::empty());
            assert(r.edge_pairs() =~= Seq::<((usize, usize), Weight)>::empty());
            assert(r.u_adj() =~= Seq::<Seq<(usize, Weight)>>::empty());
            assert(r.v_adj() =~= Seq::<Seq<(usize, Weight)>>::empty());
        }
        r
    }

    /// Builds a weighted graph from a list of ((left key, right key),
    /// weight) tuples; duplicate entries are a precondition violation.
    pub fn from_edges(edges: &Vec<((Key, Key), Weight)>) -> (r: Self)
        requires
            keys_reflect_eq::<Key>(),
            wedges_distinct(edges@),
        ensures
            wbuilt_from(r, edges@),
            r.u_nodes@.len() == wlefts(edges@).to_set().len(),
            r.v_nodes@.len() == wrights(edges@).to_set().len(),
    {
        let mut graph = Self::new();
        let mut t: usize = 0;
        proof {
            assert(edges@.subrange(0, 0) =~= Seq::<((Key, Key), Weight)>::empty());
            assert(wlefts(edges@.subrange(0, 0)) =~= Seq::<Key>::empty());
            assert(wrights(edges@.subrange(0, 0)) =~= Seq::<Key>::empty());
        }
        while t < edges.len()
            invariant
                keys_reflect_eq::<Key>(),
                t <= edges@.len(),
                graph.wf(),
                graph.nodes_edges@ == edges@.subrange(0, t as int),
                graph.u_nodes@ == firsts(wlefts(edges@.subrange(0, t as int))),
                graph.v_nodes@ == firsts(wrights(edges@.subrange(0, t as int))),
                graph.edge_pairs().len() == t,
                forall|k: int|
                    0 <= k < t ==> #[trigger] wpair_pinned(
                        graph.edge_pairs(),
                        edges@,
                        graph.u_nodes@,
                        graph.v_nodes@,
                        k,
                    ),
            decreases edges@.len() - t,
        {
            let ghost pre = graph;
            let ghost prefix = edges@.subrange(0, t as int);
            let ghost prefix1 = edges@.subrange(0, t + 1);
            let edge = edges[t];
            let u = edge.0.0;
            let v = edge.0.1;
            let w = edge.1;
            proof {
                assert(prefix1 =~= prefix.push(edge));
                assert(wlefts(prefix1) =~= wlefts(prefix).push(u));
                assert(wrights(prefix1) =~= wrights(prefix).push(v));
                lemma_firsts_push(wlefts(prefix), u);
                lemma_firsts_push(wrights(prefix), v);
                lemma_firsts_contains(wlefts(prefix), u);
                lemma_firsts_contains(wrights(prefix), v);
            }
            let v_found = index_of_key(&graph.v_nodes, v);
            let v_index: usize;
            match v_found {
                Some(i) => {
                    v_index = i;
                },
                None => {
                    v_index = graph.v_nodes.len();
                    graph.v_nodes.push(v);
                    graph.v_adjacency_list.push(Vec::new());
                    proof {
                        lemma_first_index_of_new(pre.v_nodes@, v);
                    }
                },
            }
            let u_found = index_of_key(&graph.u_nodes, u);
            let u_index: usize;
            match u_found {
                Some(i) => {
                    u_index = i;
                },
                None => {
                    u_index = graph.u_nodes.len();
                    graph.u_nodes.push(u);
                    graph.u_adjacency_list.push(Vec::new());
                    proof {
                        lemma_first_index_of_new(pre.u_nodes@, u);
                    }
                },
            }
            let ghost mid = graph;
            proof {
                assert(mid.u_nodes@ == firsts(wlefts(prefix1)));
                assert(mid.v_nodes@ == firsts(wrights(prefix1)));
                assert(u_index as int == first_index_of(mid.u_nodes@, u));
                assert(v_index as int == first_index_of(mid.v_nodes@, v));
                assert((u_index as int) < mid.u_nodes@.len() && mid.u_nodes@[u_index as int] == u);
                assert((v_index as int) < mid.v_nodes@.len() && mid.v_nodes@[v_index as int] == v);
                assert(mid.u_nodes@.no_duplicates()) by {
                    lemma_firsts_no_dup(wlefts(prefix1));
                }
                assert(mid.v_nodes@.no_duplicates()) by {
                    lemma_firsts_no_dup(wrights(prefix1));
                }
                assert(mid.u_adj().len() == mid.u_nodes@.len() && mid.v_adj().len()
                    == mid.v_nodes@.len()) by {
                    assert(mid.u_adj() =~= if pre.u_nodes@.contains(u) {
                        pre.u_adj()
                    } else {
                        pre.u_adj().push(Seq::<(usize, Weight)>::empty())
                    });
                    assert(mid.v_adj() =~= if pre.v_nodes@.contains(v) {
                        pre.v_adj()
                    } else {
                        pre.v_adj().push(Seq::<(usize, Weight)>::empty())
                    });
                }
                assert forall|i: int|
                    0 <= i < mid.u_nodes@.len() implies #[trigger] mid.u_adj()[i] == wadj_of(
                    mid.edge_pairs(),
                    i,
                ) by {
                    assert(mid.u_adj() =~= if pre.u_nodes@.contains(u) {
                        pre.u_adj()
                    } else {
                        pre.u_adj().push(Seq::<(usize, Weight)>::empty())
                    });
                    if i >= pre.u_nodes@.len() {
                        assert forall|k: int|
                            0 <= k < mid.edge_pairs().len() implies (
                        #[trigger] mid.edge_pairs()[k]).0.0 != i by {
                            assert(pre.edge_ok(k));
                        }
                        lemma_wadj_of_absent(mid.edge_pairs(), i);
                    }
                }
                assert forall|j: int|
                    0 <= j < mid.v_nodes@.len() implies #[trigger] mid.v_adj()[j] == co_wadj_of(
                    mid.edge_pairs(),
                    j,
                ) by {
                    assert(mid.v_adj() =~= if pre.v_nodes@.contains(v) {
                        pre.v_adj()
                    } else {
                        pre.v_adj().push(Seq::<(usize, Weight)>::empty())
                    });
                    if j >= pre.v_nodes@.len() {
                        assert forall|k: int|
                            0 <= k < mid.edge_pairs().len() implies (
                        #[trigger] mid.edge_pairs()[k]).0.1 != j by {
                            assert(pre.edge_ok(k));
                        }
                        lemma_wadj_of_absent(mid.edge_pairs(), j);
                    }
                }
            }
            graph.nodes_edges.push(edge);
            graph.nodes_edges_use_index.push(((u_index, v_index), w));
            let mut urow: Vec<(usize, Weight)> = Vec::new();
            graph.u_adjacency_list.set_and_swap(u_index, &mut urow);
            urow.push((v_index, w));
            graph.u_adjacency_list.set(u_index, urow);
            let mut vrow: Vec<(usize, Weight)> = Vec::new();
            graph.v_adjacency_list.set_and_swap(v_index, &mut vrow);
            vrow.push((u_index, w));
            graph.v_adjacency_list.set(v_index, vrow);
            proof {
                let pairs1 = graph.edge_pairs();
                let p = ((u_index, v_index), w);
                assert(pairs1 =~= mid.edge_pairs().push(p));
                assert(graph.u_adj() =~= mid.u_adj().update(
                    u_index as int,
                    mid.u_adj()[u_index as int].push((v_index, w)),
                ));
                assert(graph.v_adj() =~= mid.v_adj().update(
                    v_index as int,
                    mid.v_adj()[v_index as int].push((u_index, w)),
                ));
                assert forall|k: int| 0 <= k < pairs1.len() implies #[trigger] graph.edge_ok(
                    k,
                ) by {
                    if k < mid.edge_pairs().len() {
                        assert(pre.edge_ok(k));
                        let q = pre.edge_pairs()[k];
                        assert(mid.u_nodes@[q.0.0 as int] == pre.u_nodes@[q.0.0 as int]);
                        assert(mid.v_nodes@[q.0.1 as int] == pre.v_nodes@[q.0.1 as int]);
                        assert(graph.nodes_edges@[k] == pre.nodes_edges@[k]);
                        assert(pairs1[k] == q);
                    }
                }
                assert forall|i: int|
                    0 <= i < graph.u_nodes@.len() implies #[trigger] graph.u_adj()[i] == wadj_of(
                    pairs1,
                    i,
                ) by {
                    lemma_wadj_of_push(mid.edge_pairs(), p, i);
                }
                assert forall|j: int|
                    0 <= j < graph.v_nodes@.len() implies #[trigger] graph.v_adj()[j] == co_wadj_of(
                    pairs1,
                    j,
                ) by {
                    lemma_wadj_of_push(mid.edge_pairs(), p, j);
                }
                assert(graph.nodes_edges@ =~= prefix1);
                assert forall|k: int| 0 <= k < t + 1 implies #[trigger] wpair_pinned(
                    pairs1,
                    edges@,
                    graph.u_nodes@,
                    graph.v_nodes@,
                    k,
                ) by {
                    if k < t {
                        assert(wpair_pinned(
                            pre.edge_pairs(),
                            edges@,
                            pre.u_nodes@,
                            pre.v_nodes@,
                            k,
                        ));
                        assert(pre.edge_ok(k));
                        assert(pairs1[k] == pre.edge_pairs()[k]);
                        assert(pre.u_nodes@[pre.edge_pairs()[k].0.0 as int] == edges@[k].0.0);
                        assert(pre.u_nodes@.contains(edges@[k].0.0));
                        assert(pre.v_nodes@.contains(edges@[k].0.1));
                        if !pre.u_nodes@.contains(u) {
                            lemma_first_index_push_stable(pre.u_nodes@, u, edges@[k].0.0);
                        }
                        if !pre.v_nodes@.contains(v) {
                            lemma_first_index_push_stable(pre.v_nodes@, v, edges@[k].0.1);
                        }
                    }
                }
            }
            t += 1;
        }
        proof {
            assert(edges@.subrange(0, edges@.len() as int) =~= edges@);
            lemma_firsts_len_is_distinct_count(wlefts(edges@));
            lemma_firsts_len_is_distinct_count(wrights(edges@));
        }
        graph
    }

    /// Adds an isolated left node; refuses a key already on that side.
    pub fn insert_u(&mut self, key: Key) -> (r: Result<(), String>)
        requires
            keys_reflect_eq::<Key>(),
            old(self).wf(),
        ensures
            final(self).wf(),
            match r {
                Ok(()) => {
                    &&& !old(self).u_nodes@.contains(key)
                    &&& final(self).u_nodes@ == old(self).u_nodes@.push(key)
                    &&& final(self).v_nodes@ == old(self).v_nodes@
                    &&& final(self).nodes_edges@ == old(self).nodes_edges@
                    &&& final(self).edge_pairs() == old(self).edge_pairs()
                    &&& final(self).v_adj() == old(self).v_adj()
                    &&& final(self).u_adj() == old(self).u_adj().push(
                        Seq::<(usize, Weight)>::empty(),
                    )
                },
                Err(m) => {
                    &&& old(self).u_nodes@.contains(key)
                    &&& *final(self) == *old(self)
                    &&& m@ == "The u nodes already have this key"@
                },
            },
    {
        if index_of_key(&self.u_nodes, key).is_some() {
            Err(String::from_str("The u nodes already have this key"))
        } else {
            let ghost prior = *self;
            self.u_nodes.push(key);
            self.u_adjacency_list.push(Vec::new());
            proof {
                assert(self.u_adj() =~= prior.u_adj().push(Seq::<(usize, Weight)>::empty()));
                assert forall|i: int|
                    0 <= i < self.u_nodes@.len() implies #[trigger] self.u_adj()[i] == wadj_of(
                    self.edge_pairs(),
                    i,
                ) by {
                    if i == self.u_nodes@.len() - 1 {
                        assert forall|k: int|
                            0 <= k < self.edge_pairs().len() implies (
                        #[trigger] self.edge_pairs()[k]).0.0 != i by {
                            assert(prior.edge_ok(k));
                        }
                        lemma_wadj_of_absent(self.edge_pairs(), i);
                    }
                }
                assert forall|k: int|
                    0 <= k < self.edge_pairs().len() implies #[trigger] self.edge_ok(k) by {
                    assert(prior.edge_ok(k));
                }
            }
            Ok(())
        }
    }

    /// Adds an isolated right node; refuses a key already on that side.
    pub fn insert_v(&mut self, key: Key) -> (r: Result<(), String>)
        requires
            keys_reflect_eq::<Key>(),
            old(self).wf(),
        ensures
            final(self).wf(),
            match r {
                Ok(()) => {
                    &&& !old(self).v_nodes@.contains(key)
                    &&& final(self).v_nodes@ == old(self).v_nodes@.push(key)
                    &&& final(self).u_nodes@ == old(self).u_nodes@
                    &&& final(self).nodes_edges@ == old(self).nodes_edges@
                    &&& final(self).edge_pairs() == old(self).edge_pairs()
                    &&& final(self).u_adj() == old(self).u_adj()
                    &&& final(self).v_adj() == old(self).v_adj().push(
                        Seq::<(usize, Weight)>::empty(),
                    )
                },
                Err(m) => {
                    &&& old(self).v_nodes@.contains(key)
                    &&& *final(self) == *old(self)
                    &&& m@ == "The v nodes already have this key"@
                },
            },
    {
        if index_of_key(&self.v_nodes, key).is_some() {
            Err(String::from_str("The v nodes already have this key"))
        } else {
            let ghost prior = *self;
            self.v_nodes.push(key);
            self.v_adjacency_list.push(Vec::new());
            proof {
                assert(self.v_adj() =~= prior.v_adj().push(Seq::<(usize, Weight)>::empty()));
                assert forall|j: int|
                    0 <= j < self.v_nodes@.len() implies #[trigger] self.v_adj()[j] == co_wadj_of(
                    self.edge_pairs(),
                    j,
                ) by {
                    if j == self.v_nodes@.len() - 1 {
                        assert forall|k: int|
                            0 <= k < self.edge_pairs().len() implies (
                        #[trigger] self.edge_pairs()[k]).0.1 != j by {
                            assert(prior.edge_ok(k));
                        }
                        lemma_wadj_of_absent(self.edge_pairs(), j);
                    }
                }
                assert forall|k: int|
                    0 <= k < self.edge_pairs().len() implies #[trigger] self.edge_ok(k) by {
                    assert(prior.edge_ok(k));
                }
            }
            Ok(())
        }
    }
}

} // verus!
