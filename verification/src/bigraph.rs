//! The indexed bipartite graph: two disjoint node sets with dense integer
//! indices, an edge list, and both adjacency lists.

use vstd::pervasive::VecAdditionalExecFns;
use vstd::prelude::*;
use vstd::std_specs::cmp::PartialEqSpec;
use vstd::string::StringExecFns;

verus! {

/// The node keys of a graph may be of any copyable type whose `==` agrees
/// with logical equality; every integer type qualifies.
pub open spec fn keys_reflect_eq<Key: PartialEq>() -> bool {
    &&& Key::obeys_eq_spec()
    &&& forall|a: Key, b: Key| #[trigger] a.eq_spec(&b) <==> a == b
}

/// The index of the first occurrence of `key` in `s` (meaningful only when
/// `s` contains `key`).
pub open spec fn first_index_of<Key>(s: Seq<Key>, key: Key) -> int
    decreases s.len(),
{
    if s.len() == 0 {
        0
    } else if s.first() == key {
        0
    } else {
        1 + first_index_of(s.drop_first(), key)
    }
}

/// Scans `nodes` for `key`; returns the first index holding it.
pub fn index_of_key<Key: PartialEq + Copy>(nodes: &Vec<Key>, key: Key) -> (r: Option<usize>)
    requires
        keys_reflect_eq::<Key>(),
    ensures
        match r {
            Some(i) => i < nodes@.len() && nodes@[i as int] == key && i == first_index_of(
                nodes@,
                key,
            ),
            None => !nodes@.contains(key),
        },
{
    let mut t: usize = 0;
    while t < nodes.len()
        invariant
            keys_reflect_eq::<Key>(),
            t <= nodes@.len(),
            forall|j: int| 0 <= j < t ==> nodes@[j] != key,
            first_index_of(nodes@, key) >= t || t == 0,
        decreases nodes@.len() - t,
    {
        if nodes[t] == key {
            proof {
                lemma_first_index_found(nodes@, key, t as int);
            }
            return Some(t);
        }
        t += 1;
        proof {
            if t <= nodes@.len() {
                lemma_first_index_lower_bound(nodes@, key, t as int);
            }
        }
    }
    proof {
        if nodes@.contains(key) {
            let w = choose|j: int| 0 <= j < nodes@.len() && nodes@[j] == key;
            assert(nodes@[w] != key);
        }
    }
    None
}

/// If every entry before `i` differs from `key` and `s[i] == key`, then `i`
/// is the first index of `key`.
proof fn lemma_first_index_found<Key>(s: Seq<Key>, key: Key, i: int)
    requires
        0 <= i < s.len(),
        s[i] == key,
        forall|j: int| 0 <= j < i ==> s[j] != key,
    ensures
        first_index_of(s, key) == i,
    decreases s.len(),
{
    if i > 0 {
        lemma_first_index_found(s.drop_first(), key, i - 1);
    }
}

/// If every entry before `t` differs from `key`, the first index of `key`
/// is at least `t`.
proof fn lemma_first_index_lower_bound<Key>(s: Seq<Key>, key: Key, t: int)
    requires
        0 <= t <= s.len(),
        forall|j: int| 0 <= j < t ==> s[j] != key,
    ensures
        first_index_of(s, key) >= t,
    decreases t,
{
    if t > 0 {
        assert(s.first() == s[0]);
        assert(forall|j: int| 0 <= j < t - 1 ==> s.drop_first()[j] == s[j + 1]);
        lemma_first_index_lower_bound(s.drop_first(), key, t - 1);
    } else {
        lemma_first_index_nonneg(s, key);
    }
}

/// The first index of any key is non-negative.
proof fn lemma_first_index_nonneg<Key>(s: Seq<Key>, key: Key)
    ensures
        first_index_of(s, key) >= 0,
    decreases s.len(),
{
    if s.len() > 0 && s.first() != key {
        lemma_first_index_nonneg(s.drop_first(), key);
    }
}

/// Appending an element does not change the first index of a key that is
/// already present.
pub proof fn lemma_first_index_push_stable<Key>(s: Seq<Key>, x: Key, key: Key)
    requires
        s.contains(key),
    ensures
        first_index_of(s.push(x), key) == first_index_of(s, key),
    decreases s.len(),
{
    if s.first() == key {
        assert(s.push(x).first() == key);
    } else {
        assert(s.push(x).drop_first() =~= s.drop_first().push(x));
        assert(s.drop_first().contains(key)) by {
            let w = choose|j: int| 0 <= j < s.len() && s[j] == key;
            assert(s.drop_first()[w - 1] == key);
        }
        lemma_first_index_push_stable(s.drop_first(), x, key);
    }
}

/// A key pushed onto a sequence that lacks it gets first index `s.len()`.
pub proof fn lemma_first_index_of_new<Key>(s: Seq<Key>, key: Key)
    requires
        !s.contains(key),
    ensures
        first_index_of(s.push(key), key) == s.len(),
    decreases s.len(),
{
    if s.len() == 0 {
        assert(s.push(key).first() == key);
    } else {
        assert(s.first() != key);
        assert(s.push(key).first() == s.first());
        assert(s.push(key).drop_first() =~= s.drop_first().push(key));
        assert(!s.drop_first().contains(key)) by {
            if s.drop_first().contains(key) {
                let w = choose|j: int|
                    0 <= j < s.drop_first().len() && s.drop_first()[j] == key;
                assert(s[w + 1] == key);
            }
        }
        lemma_first_index_of_new(s.drop_first(), key);
    }
}

/// The left keys of an edge list, in edge order.
pub open spec fn lefts<Key>(edges: Seq<(Key, Key)>) -> Seq<Key> {
    edges.map_values(|e: (Key, Key)| e.0)
}

/// The right keys of an edge list, in edge order.
pub open spec fn rights<Key>(edges: Seq<(Key, Key)>) -> Seq<Key> {
    edges.map_values(|e: (Key, Key)| e.1)
}

/// The distinct keys of `s` in order of first appearance.
pub open spec fn firsts<Key>(s: Seq<Key>) -> Seq<Key>
    decreases s.len(),
{
    if s.len() == 0 {
        Seq::empty()
    } else {
        let prior = firsts(s.drop_last());
        if prior.contains(s.last()) {
            prior
        } else {
            prior.push(s.last())
        }
    }
}

/// No two edges of the list are equal.
pub open spec fn edges_distinct<Key>(edges: Seq<(Key, Key)>) -> bool {
    forall|a: int, b: int| 0 <= a < b < edges.len() ==> edges[a] != edges[b]
}

/// How `firsts` grows under one appended key.
pub proof fn lemma_firsts_push<Key>(s: Seq<Key>, x: Key)
    ensures
        firsts(s.push(x)) == if firsts(s).contains(x) {
            firsts(s)
        } else {
            firsts(s).push(x)
        },
{
    assert(s.push(x).drop_last() =~= s);
    assert(s.push(x).last() == x);
}

/// `firsts` keeps exactly the keys of the original sequence.
pub proof fn lemma_firsts_contains<Key>(s: Seq<Key>, x: Key)
    ensures
        firsts(s).contains(x) <==> s.contains(x),
    decreases s.len(),
{
    if s.len() > 0 {
        lemma_firsts_contains(s.drop_last(), x);
        assert(s.contains(x) <==> (s.drop_last().contains(x) || s.last() == x)) by {
            if s.contains(x) {
                let w = choose|j: int| 0 <= j < s.len() && s[j] == x;
                if w < s.len() - 1 {
                    assert(s.drop_last()[w] == x);
                }
            }
            if s.drop_last().contains(x) {
                let w = choose|j: int|
                    0 <= j < s.drop_last().len() && s.drop_last()[j] == x;
                assert(s[w] == x);
            }
        }
        let prior = firsts(s.drop_last());
        if !prior.contains(s.last()) {
            assert(forall|j: int|
                0 <= j < prior.len() ==> prior.push(s.last())[j] == prior[j]);
            assert(prior.push(s.last()).last() == s.last());
            if prior.push(s.last()).contains(x) {
                let w = choose|j: int|
                    0 <= j < prior.push(s.last()).len() && prior.push(s.last())[j] == x;
                assert(w == prior.len() || prior[w] == x);
            }
        }
    }
}

/// `firsts` never repeats a key.
pub proof fn lemma_firsts_no_dup<Key>(s: Seq<Key>)
    ensures
        firsts(s).no_duplicates(),
    decreases s.len(),
{
    if s.len() > 0 {
        lemma_firsts_no_dup(s.drop_last());
    }
}

/// The length of `firsts(s)` is the number of distinct keys of `s`.
pub proof fn lemma_firsts_len_is_distinct_count<Key>(s: Seq<Key>)
    ensures
        firsts(s).len() == s.to_set().len(),
{
    assert(firsts(s).to_set() =~= s.to_set()) by {
        assert forall|x: Key| firsts(s).to_set().contains(x) <==> s.to_set().contains(
            x,
        ) by {
            lemma_firsts_contains(s, x);
        }
    }
    lemma_firsts_no_dup(s);
    firsts(s).unique_seq_to_set();
}

/// The neighbor row of left index `i`: the right index of every pair whose
/// left index is `i`, in pair order.
pub open spec fn adj_of(pairs: Seq<(usize, usize)>, i: int) -> Seq<usize>
    decreases pairs.len(),
{
    if pairs.len() == 0 {
        Seq::empty()
    } else {
        let prior = adj_of(pairs.drop_last(), i);
        if pairs.last().0 == i {
            prior.push(pairs.last().1)
        } else {
            prior
        }
    }
}

/// The neighbor row of right index `j`: the left index of every pair whose
/// right index is `j`, in pair order.
pub open spec fn co_adj_of(pairs: Seq<(usize, usize)>, j: int) -> Seq<usize>
    decreases pairs.len(),
{
    if pairs.len() == 0 {
        Seq::empty()
    } else {
        let prior = co_adj_of(pairs.drop_last(), j);
        if pairs.last().1 == j {
            prior.push(pairs.last().0)
        } else {
            prior
        }
    }
}

/// How both neighbor rows grow under one appended pair.
pub proof fn lemma_adj_of_push(pairs: Seq<(usize, usize)>, p: (usize, usize), i: int)
    ensures
        adj_of(pairs.push(p), i) == if p.0 == i {
            adj_of(pairs, i).push(p.1)
        } else {
            adj_of(pairs, i)
        },
        co_adj_of(pairs.push(p), i) == if p.1 == i {
            co_adj_of(pairs, i).push(p.0)
        } else {
            co_adj_of(pairs, i)
        },
{
    assert(pairs.push(p).drop_last() =~= pairs);
    assert(pairs.push(p).last() == p);
}

/// An index that appears on the left of no pair has an empty neighbor row,
/// and likewise on the right.
pub proof fn lemma_adj_of_absent(pairs: Seq<(usize, usize)>, i: int)
    ensures
        (forall|k: int| 0 <= k < pairs.len() ==> (#[trigger] pairs[k]).0 != i)
            ==> adj_of(pairs, i) == Seq::<usize>::empty(),
        (forall|k: int| 0 <= k < pairs.len() ==> (#[trigger] pairs[k]).1 != i)
            ==> co_adj_of(pairs, i) == Seq::<usize>::empty(),
    decreases pairs.len(),
{
    if pairs.len() > 0 {
        lemma_adj_of_absent(pairs.drop_last(), i);
        assert(forall|k: int|
            0 <= k < pairs.drop_last().len() ==> pairs.drop_last()[k] == pairs[k]);
        assert(pairs.last() == pairs[pairs.len() - 1]);
    }
}

/// Every pair of the list appears in its left index's neighbor row.
pub proof fn lemma_adj_of_complete(pairs: Seq<(usize, usize)>, i: int, j: usize)
    requires
        pairs.contains((i as usize, j)),
        i == i as usize as int,
    ensures
        adj_of(pairs, i).contains(j),
    decreases pairs.len(),
{
    let w = choose|k: int| 0 <= k < pairs.len() && pairs[k] == (i as usize, j);
    if w == pairs.len() - 1 {
        assert(pairs.last() == (i as usize, j));
        assert(adj_of(pairs, i).last() == j);
    } else {
        assert(pairs.drop_last()[w] == (i as usize, j));
        lemma_adj_of_complete(pairs.drop_last(), i, j);
        let prior = adj_of(pairs.drop_last(), i);
        let q = choose|q: int| 0 <= q < prior.len() && prior[q] == j;
        assert(adj_of(pairs, i)[q] == j);
    }
}

/// Every entry of a neighbor row comes from a pair of the list.
pub proof fn lemma_adj_of_entries(pairs: Seq<(usize, usize)>, i: int)
    ensures
        forall|p: int|
            0 <= p < adj_of(pairs, i).len() ==> pairs.contains(
                (i as usize, #[trigger] adj_of(pairs, i)[p]),
            ) && i == i as usize,
        forall|p: int|
            0 <= p < co_adj_of(pairs, i).len() ==> pairs.contains(
                (#[trigger] co_adj_of(pairs, i)[p], i as usize),
            ) && i == i as usize,
    decreases pairs.len(),
{
    if pairs.len() > 0 {
        lemma_adj_of_entries(pairs.drop_last(), i);
        assert forall|x: (usize, usize)| pairs.drop_last().contains(x) implies pairs.contains(
            x,
        ) by {
            let w = choose|k: int|
                0 <= k < pairs.drop_last().len() && pairs.drop_last()[k] == x;
            assert(pairs[w] == x);
        }
        if pairs.last().0 == i {
            assert(pairs.contains((i as usize, pairs.last().1))) by {
                assert(pairs[pairs.len() - 1] == (i as usize, pairs.last().1));
            }
        }
        if pairs.last().1 == i {
            assert(pairs.contains((pairs.last().0, i as usize))) by {
                assert(pairs[pairs.len() - 1] == (pairs.last().0, i as usize));
            }
        }
    }
}

/// Pair `k` of `pairs` indexes edge `k`'s keys at their first occurrence
/// in the node lists `us` and `vs`.
pub open spec fn pair_pinned<Key>(
    pairs: Seq<(usize, usize)>,
    edges: Seq<(Key, Key)>,
    us: Seq<Key>,
    vs: Seq<Key>,
    k: int,
) -> bool {
    &&& pairs[k].0 as int == first_index_of(us, edges[k].0)
    &&& pairs[k].1 as int == first_index_of(vs, edges[k].1)
}

/// What `from_edges` guarantees of its result: a well-formed graph whose
/// node lists, edge list and index pairs are all functions of the edge
/// list alone.
pub open spec fn built_from<Key>(g: Bigraph<Key>, edges: Seq<(Key, Key)>) -> bool {
    &&& g.wf()
    &&& g.nodes_edges@ == edges
    &&& g.u_nodes@ == firsts(lefts(edges))
    &&& g.v_nodes@ == firsts(rights(edges))
    &&& g.edge_pairs().len() == edges.len()
    &&& forall|k: int|
        0 <= k < edges.len() ==> #[trigger] pair_pinned(g.edge_pairs(), edges, g.u_nodes@, g.v_nodes@, k)
}

/// The per-row view of a vector of rows.
pub open spec fn rows_view(rows: Seq<Vec<usize>>) -> Seq<Seq<usize>> {
    Seq::new(rows.len(), |i: int| rows[i]@)
}

/// Runtime test of the `from_edges` precondition: true exactly when no two
/// edges of the list are equal.
pub fn edges_are_distinct<Key: PartialEq + Copy>(edges: &Vec<(Key, Key)>) -> (r: bool)
    requires
        keys_reflect_eq::<Key>(),
    ensures
        r == edges_distinct(edges@),
{
    let mut a: usize = 0;
    while a < edges.len()
        invariant
            keys_reflect_eq::<Key>(),
            a <= edges@.len(),
            forall|x: int, y: int| 0 <= x < y < edges@.len() && x < a ==> edges@[x] != edges@[y],
        decreases edges@.len() - a,
    {
        let mut b: usize = a + 1;
        while b < edges.len()
            invariant
                keys_reflect_eq::<Key>(),
                a < b <= edges@.len() || (b == a + 1 && b >= edges@.len()),
                forall|y: int| a < y < b ==> edges@[a as int] != edges@[y],
            decreases edges@.len() - b,
        {
            if edges[a].0 == edges[b].0 && edges[a].1 == edges[b].1 {
                return false;
            }
            b += 1;
        }
        a += 1;
    }
    true
}

/// Building the same graph from the same edge list twice yields identical
/// index assignments: node lists, index pairs and both adjacency lists of
/// two graphs built from one edge list coincide.
pub proof fn lemma_from_edges_deterministic<Key>(
    g1: Bigraph<Key>,
    g2: Bigraph<Key>,
    edges: Seq<(Key, Key)>,
)
    requires
        built_from(g1, edges),
        built_from(g2, edges),
    ensures
        g1.u_nodes@ == g2.u_nodes@,
        g1.v_nodes@ == g2.v_nodes@,
        g1.nodes_edges@ == g2.nodes_edges@,
        g1.edge_pairs() == g2.edge_pairs(),
        g1.u_adj() == g2.u_adj(),
        g1.v_adj() == g2.v_adj(),
{
    assert(g1.edge_pairs() =~= g2.edge_pairs()) by {
        assert forall|k: int|
            0 <= k < edges.len() implies #[trigger] g1.edge_pairs()[k] == g2.edge_pairs()[k] by {
            assert(pair_pinned(g1.edge_pairs(), edges, g1.u_nodes@, g1.v_nodes@, k));
            assert(pair_pinned(g2.edge_pairs(), edges, g2.u_nodes@, g2.v_nodes@, k));
        }
    }
    assert(g1.u_adj() =~= g2.u_adj()) by {
        assert forall|i: int|
            0 <= i < g1.u_adj().len() implies #[trigger] g1.u_adj()[i] == g2.u_adj()[i] by {
            assert(g1.u_adj()[i] == adj_of(g1.edge_pairs(), i));
            assert(g2.u_adj()[i] == adj_of(g2.edge_pairs(), i));
        }
    }
    assert(g1.v_adj() =~= g2.v_adj()) by {
        assert forall|j: int|
            0 <= j < g1.v_adj().len() implies #[trigger] g1.v_adj()[j] == g2.v_adj()[j] by {
            assert(g1.v_adj()[j] == co_adj_of(g1.edge_pairs(), j));
            assert(g2.v_adj()[j] == co_adj_of(g2.edge_pairs(), j));
        }
    }
}

/// A bipartite graph over two disjoint key universes.  `u` is the left
/// (offline) side and `v` the right (online) side; each key receives a
/// dense index on first insertion, stable for the graph's lifetime.
#[derive(Debug, PartialEq)]
pub struct Bigraph<Key> {
    pub v_nodes: Vec<Key>,
    pub u_nodes: Vec<Key>,
    pub nodes_edges: Vec<(Key, Key)>,
    pub nodes_edges_use_index: Vec<(usize, usize)>,
    pub v_adjacency_list: Vec<Vec<usize>>,
    pub u_adjacency_list: Vec<Vec<usize>>,
}

impl<Key> Bigraph<Key> {
    /// The edges as (left index, right index) pairs, in insertion order.
    pub open spec fn edge_pairs(self) -> Seq<(usize, usize)> {
        self.nodes_edges_use_index@
    }

    /// The left-side adjacency rows.
    pub open spec fn u_adj(self) -> Seq<Seq<usize>> {
        rows_view(self.u_adjacency_list@)
    }

    /// The right-side adjacency rows.
    pub open spec fn v_adj(self) -> Seq<Seq<usize>> {
        rows_view(self.v_adjacency_list@)
    }

    /// Edge `k` joins nodes that exist, and the key edge list agrees with
    /// the index pair list.
    pub open spec fn edge_ok(self, k: int) -> bool {
        let p = self.edge_pairs()[k];
        &&& (p.0 as int) < self.u_nodes@.len()
        &&& (p.1 as int) < self.v_nodes@.len()
        &&& self.nodes_edges@[k] == (self.u_nodes@[p.0 as int], self.v_nodes@[p.1 as int])
    }

    /// The internal invariant: indices are dense and in range, node lists
    /// hold no duplicate keys, and both adjacency lists mirror the edge
    /// pair list exactly.
    pub open spec fn wf(self) -> bool {
        &&& self.u_nodes@.no_duplicates()
        &&& self.v_nodes@.no_duplicates()
        &&& self.u_adj().len() == self.u_nodes@.len()
        &&& self.v_adj().len() == self.v_nodes@.len()
        &&& self.edge_pairs().len() == self.nodes_edges@.len()
        &&& forall|k: int| 0 <= k < self.edge_pairs().len() ==> #[trigger] self.edge_ok(k)
        &&& forall|i: int|
            0 <= i < self.u_nodes@.len() ==> #[trigger] self.u_adj()[i] == adj_of(
                self.edge_pairs(),
                i,
            )
        &&& forall|j: int|
            0 <= j < self.v_nodes@.len() ==> #[trigger] self.v_adj()[j] == co_adj_of(
                self.edge_pairs(),
                j,
            )
    }
}

impl<Key: PartialEq + Copy> Bigraph<Key> {
    /// The empty graph.
    pub fn new() -> (r: Bigraph<Key>)
        ensures
            r.wf(),
            r.u_nodes@ == Seq::<Key>::empty(),
            r.v_nodes@ == Seq::<Key>::empty(),
            r.nodes_edges@ == Seq::<(Key, Key)>::empty(),
            r.edge_pairs() == Seq::<(usize, usize)>::empty(),
    {
        let r = Bigraph {
            v_nodes: Vec::new(),
            u_nodes: Vec::new(),
            nodes_edges: Vec::new(),
            nodes_edges_use_index: Vec::new(),
            v_adjacency_list: Vec::new(),
            u_adjacency_list: Vec::new(),
        };
        proof {
            assert(r.u_nodes@ =~= Seq::<Key>::empty());
            assert(r.v_nodes@ =~= Seq::<Key>::empty());
            assert(r.nodes_edges@ =~= Seq::<(Key, Key)>::empty());
            assert(r.edge_pairs() =~= Seq::<(usize, usize)>::empty());
            assert(r.u_adj() =~= Seq::<Seq<usize>>::empty());
            assert(r.v_adj() =~= Seq::<Seq<usize>>::empty());
        }
        r
    }

    /// Builds a graph from an edge list of (left key, right key) tuples.
    ///
    /// Duplicate edges are a precondition violation, as the construction
    /// would otherwise duplicate adjacency entries; `edges_are_distinct`
    /// tests the condition at run time.  The result is pinned completely:
    /// node lists are the keys in order of first appearance, and every
    /// index pair is the first index of its edge's keys.
    pub fn from_edges(edges: &Vec<(Key, Key)>) -> (r: Self)
        requires
            keys_reflect_eq::<Key>(),
            edges_distinct(edges@),
        ensures
            built_from(r, edges@),
            r.u_nodes@.len() == lefts(edges@).to_set().len(),
            r.v_nodes@.len() == rights(edges@).to_set().len(),
    {
        let mut graph = Self::new();
        let mut t: usize = 0;
        proof {
            assert(edges@.subrange(0, 0) =~= Seq::<(Key, Key)>::empty());
            assert(lefts(edges@.subrange(0, 0)) =~= Seq::<Key>::empty());
            assert(rights(edges@.subrange(0, 0)) =~= Seq::<Key>::empty());
        }
        while t < edges.len()
            invariant
                keys_reflect_eq::<Key>(),
                t <= edges@.len(),
                graph.wf(),
                graph.nodes_edges@ == edges@.subrange(0, t as int),
                graph.u_nodes@ == firsts(lefts(edges@.subrange(0, t as int))),
                graph.v_nodes@ == firsts(rights(edges@.subrange(0, t as int))),
                graph.edge_pairs().len() == t,
                forall|k: int|
                    0 <= k < t ==> #[trigger] pair_pinned(
                        graph.edge_pairs(),
                        edges@,
                        graph.u_nodes@,
                        graph.v_nodes@,
                        k,
                    ),
            decreases edges@.len() - t,
        {
            let ghost pre = graph;
            let ghost prefix = edges@.subrange(0, t as int);
            let ghost prefix1 = edges@.subrange(0, t + 1);
            let edge = edges[t];
            let u = edge.0;
            let v = edge.1;
            proof {
                assert(prefix1 =~= prefix.push(edge));
                assert(lefts(prefix1) =~= lefts(prefix).push(u));
                assert(rights(prefix1) =~= rights(prefix).push(v));
                lemma_firsts_push(lefts(prefix), u);
                lemma_firsts_push(rights(prefix), v);
                lemma_firsts_contains(lefts(prefix), u);
                lemma_firsts_contains(rights(prefix), v);
            }
            // Index the right key, creating its node on first sight.
            let v_found = index_of_key(&graph.v_nodes, v);
            let v_index: usize;
            match v_found {
                Some(i) => {
                    v_index = i;
                },
                None => {
                    v_index = graph.v_nodes.len();
                    graph.v_nodes.push(v);
                    graph.v_adjacency_list.push(Vec::new());
                    proof {
                        lemma_first_index_of_new(pre.v_nodes@, v);
                    }
                },
            }
            // Index the left key in the same way.
            let u_found = index_of_key(&graph.u_nodes, u);
            let u_index: usize;
            match u_found {
                Some(i) => {
                    u_index = i;
                },
                None => {
                    u_index = graph.u_nodes.len();
                    graph.u_nodes.push(u);
                    graph.u_adjacency_list.push(Vec::new());
                    proof {
                        lemma_first_index_of_new(pre.u_nodes@, u);
                    }
                },
            }
            let ghost mid = graph;
            proof {
                // The node lists now model the extended prefix, and the new
                // indices are the first indices of the edge's keys.
                assert(mid.u_nodes@ == firsts(lefts(prefix1)));
                assert(mid.v_nodes@ == firsts(rights(prefix1)));
                assert(u_index as int == first_index_of(mid.u_nodes@, u));
                assert(v_index as int == first_index_of(mid.v_nodes@, v));
                assert((u_index as int) < mid.u_nodes@.len() && mid.u_nodes@[u_index as int] == u);
                assert((v_index as int) < mid.v_nodes@.len() && mid.v_nodes@[v_index as int] == v);
                assert(mid.u_nodes@.no_duplicates()) by {
                    lemma_firsts_no_dup(lefts(prefix1));
                }
                assert(mid.v_nodes@.no_duplicates()) by {
                    lemma_firsts_no_dup(rights(prefix1));
                }
                // The freshly pushed adjacency rows are empty, as the pair
                // list mentions neither new index yet.
                assert(mid.u_adj().len() == mid.u_nodes@.len() && mid.v_adj().len()
                    == mid.v_nodes@.len()) by {
                    assert(mid.u_adj() =~= if pre.u_nodes@.contains(u) {
                        pre.u_adj()
                    } else {
                        pre.u_adj().push(Seq::<usize>::empty())
                    });
                    assert(mid.v_adj() =~= if pre.v_nodes@.contains(v) {
                        pre.v_adj()
                    } else {
                        pre.v_adj().push(Seq::<usize>::empty())
                    });
                }
                assert forall|i: int|
                    0 <= i < mid.u_nodes@.len() implies #[trigger] mid.u_adj()[i] == adj_of(
                    mid.edge_pairs(),
                    i,
                ) by {
                    assert(mid.u_adj() =~= if pre.u_nodes@.contains(u) {
                        pre.u_adj()
                    } else {
                        pre.u_adj().push(Seq::<usize>::empty())
                    });
                    if i >= pre.u_nodes@.len() {
                        assert forall|k: int|
                            0 <= k < mid.edge_pairs().len() implies (
                        #[trigger] mid.edge_pairs()[k]).0 != i by {
                            assert(pre.edge_ok(k));
                        }
                        lemma_adj_of_absent(mid.edge_pairs(), i);
                    }
                }
                assert forall|j: int|
                    0 <= j < mid.v_nodes@.len() implies #[trigger] mid.v_adj()[j] == co_adj_of(
                    mid.edge_pairs(),
                    j,
                ) by {
                    assert(mid.v_adj() =~= if pre.v_nodes@.contains(v) {
                        pre.v_adj()
                    } else {
                        pre.v_adj().push(Seq::<usize>::empty())
                    });
                    if j >= pre.v_nodes@.len() {
                        assert forall|k: int|
                            0 <= k < mid.edge_pairs().len() implies (
                        #[trigger] mid.edge_pairs()[k]).1 != j by {
                            assert(pre.edge_ok(k));
                        }
                        lemma_adj_of_absent(mid.edge_pairs(), j);
                    }
                }
            }
            // Record the edge and its index pair, and cross-reference both
            // adjacency rows.
            graph.nodes_edges.push(edge);
            graph.nodes_edges_use_index.push((u_index, v_index));
            let mut urow: Vec<usize> = Vec::new();
            graph.u_adjacency_list.set_and_swap(u_index, &mut urow);
            urow.push(v_index);
            graph.u_adjacency_list.set(u_index, urow);
            let mut vrow: Vec<usize> = Vec::new();
            graph.v_adjacency_list.set_and_swap(v_index, &mut vrow);
            vrow.push(u_index);
            graph.v_adjacency_list.set(v_index, vrow);
            proof {
                let pairs1 = graph.edge_pairs();
                let p = (u_index, v_index);
                assert(pairs1 =~= mid.edge_pairs().push(p));
                assert(graph.u_adj() =~= mid.u_adj().update(
                    u_index as int,
                    mid.u_adj()[u_index as int].push(v_index),
                ));
                assert(graph.v_adj() =~= mid.v_adj().update(
                    v_index as int,
                    mid.v_adj()[v_index as int].push(u_index),
                ));
                // Every old edge keeps its endpoints and its pinning; the
                // new edge has both by construction.
                assert forall|k: int| 0 <= k < pairs1.len() implies #[trigger] graph.edge_ok(
                    k,
                ) by {
                    if k < mid.edge_pairs().len() {
                        assert(pre.edge_ok(k));
                        let q = pre.edge_pairs()[k];
                        assert(mid.u_nodes@[q.0 as int] == pre.u_nodes@[q.0 as int]);
                        assert(mid.v_nodes@[q.1 as int] == pre.v_nodes@[q.1 as int]);
                        assert(graph.nodes_edges@[k] == pre.nodes_edges@[k]);
                        assert(pairs1[k] == q);
                    }
                }
                assert forall|i: int|
                    0 <= i < graph.u_nodes@.len() implies #[trigger] graph.u_adj()[i] == adj_of(
                    pairs1,
                    i,
                ) by {
                    lemma_adj_of_push(mid.edge_pairs(), p, i);
                }
                assert forall|j: int|
                    0 <= j < graph.v_nodes@.len() implies #[trigger] graph.v_adj()[j] == co_adj_of(
                    pairs1,
                    j,
                ) by {
                    lemma_adj_of_push(mid.edge_pairs(), p, j);
                }
                assert(graph.nodes_edges@ =~= prefix1);
                // Old pinnings survive the extension of the node lists.
                assert forall|k: int| 0 <= k < t + 1 implies #[trigger] pair_pinned(
                    pairs1,
                    edges@,
                    graph.u_nodes@,
                    graph.v_nodes@,
                    k,
                ) by {
                    if k < t {
                        assert(pair_pinned(pre.edge_pairs(), edges@, pre.u_nodes@, pre.v_nodes@, k));
                        assert(pre.edge_ok(k));
                        assert(pairs1[k] == pre.edge_pairs()[k]);
                        assert(pre.u_nodes@[pre.edge_pairs()[k].0 as int] == edges@[k].0);
                        assert(pre.u_nodes@.contains(edges@[k].0));
                        assert(pre.v_nodes@.contains(edges@[k].1));
                        if !pre.u_nodes@.contains(u) {
                            lemma_first_index_push_stable(pre.u_nodes@, u, edges@[k].0);
                        }
                        if !pre.v_nodes@.contains(v) {
                            lemma_first_index_push_stable(pre.v_nodes@, v, edges@[k].1);
                        }
                    }
                }
            }
            t += 1;
        }
        proof {
            assert(edges@.subrange(0, edges@.len() as int) =~= edges@);
            lemma_firsts_len_is_distinct_count(lefts(edges@));
            lemma_firsts_len_is_distinct_count(rights(edges@));
        }
        graph
    }

    /// Adds an isolated left node; refuses a key already on that side.
    pub fn insert_u(&mut self, key: Key) -> (r: Result<(), String>)
        requires
            keys_reflect_eq::<Key>(),
            old(self).wf(),
        ensures
            final(self).wf(),
            match r {
                Ok(()) => {
                    &&& !old(self).u_nodes@.contains(key)
                    &&& final(self).u_nodes@ == old(self).u_nodes@.push(key)
                    &&& final(self).v_nodes@ == old(self).v_nodes@
                    &&& final(self).nodes_edges@ == old(self).nodes_edges@
                    &&& final(self).edge_pairs() == old(self).edge_pairs()
                    &&& final(self).v_adj() == old(self).v_adj()
                    &&& final(self).u_adj() == old(self).u_adj().push(Seq::<usize>::empty())
                },
                Err(m) => {
                    &&& old(self).u_nodes@.contains(key)
                    &&& *final(self) == *old(self)
                    &&& m@ == "The u nodes already have this key"@
                },
            },
    {
        if index_of_key(&self.u_nodes, key).is_some() {
            Err(String::from_str("The u nodes already have this key"))
        } else {
            let ghost prior = *self;
            self.u_nodes.push(key);
            self.u_adjacency_list.push(Vec::new());
            proof {
                assert(self.u_adj() =~= prior.u_adj().push(Seq::<usize>::empty()));
                assert forall|i: int|
                    0 <= i < self.u_nodes@.len() implies #[trigger] self.u_adj()[i] == adj_of(
                    self.edge_pairs(),
                    i,
                ) by {
                    if i == self.u_nodes@.len() - 1 {
                        assert forall|k: int|
                            0 <= k < self.edge_pairs().len() implies (
                        #[trigger] self.edge_pairs()[k]).0 != i by {
                            assert(prior.edge_ok(k));
                        }
                        lemma_adj_of_absent(self.edge_pairs(), i);
                    }
                }
                assert forall|k: int|
                    0 <= k < self.edge_pairs().len() implies #[trigger] self.edge_ok(k) by {
                    assert(prior.edge_ok(k));
                }
            }
            Ok(())
        }
    }

    /// Adds an isolated right node; refuses a key already on that side.
    pub fn insert_v(&mut self, key: Key) -> (r: Result<(), String>)
        requires
            keys_reflect_eq::<Key>(),
            old(self).wf(),
        ensures
            final(self).wf(),
            match r {
                Ok(()) => {
                    &&& !old(self).v_nodes@.contains(key)
                    &&& final(self).v_nodes@ == old(self).v_nodes@.push(key)
                    &&& final(self).u_nodes@ == old(self).u_nodes@
                    &&& final(self).nodes_edges@ == old(self).nodes_edges@
                    &&& final(self).edge_pairs() == old(self).edge_pairs()
                    &&& final(self).u_adj() == old(self).u_adj()
                    &&& final(self).v_adj() == old(self).v_adj().push(Seq::<usize>::empty())
                },
                Err(m) => {
                    &&& old(self).v_nodes@.contains(key)
                    &&& *final(self) == *old(self)
                    &&& m@ == "The v nodes already have this key"@
                },
            },
    {
        if index_of_key(&self.v_nodes, key).is_some() {
            Err(String::from_str("The v nodes already have this key"))
        } else {
            let ghost prior = *self;
            self.v_nodes.push(key);
            self.v_adjacency_list.push(Vec::new());
            proof {
                assert(self.v_adj() =~= prior.v_adj().push(Seq::<usize>::empty()));
                assert forall|j: int|
                    0 <= j < self.v_nodes@.len() implies #[trigger] self.v_adj()[j] == co_adj_of(
                    self.edge_pairs(),
                    j,
                ) by {
                    if j == self.v_nodes@.len() - 1 {
                        assert forall|k: int|
                            0 <= k < self.edge_pairs().len() implies (
                        #[trigger] self.edge_pairs()[k]).1 != j by {
                            assert(prior.edge_ok(k));
                        }
                        lemma_adj_of_absent(self.edge_pairs(), j);
                    }
                }
                assert forall|k: int|
                    0 <= k < self.edge_pairs().len() implies #[trigger] self.edge_ok(k) by {
                    assert(prior.edge_ok(k));
                }
            }
            Ok(())
        }
    }
}

} // verus!
