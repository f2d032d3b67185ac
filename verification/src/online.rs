//! The adversarial online view of an unweighted graph, the capability
//! interface for unweighted online strategies, and the Random and Ranking
//! strategies.

use crate::bigraph::Bigraph;
use crate::matching::hopcroft_karp_matching;
use crate::matching::is_matching;
use crate::matching::lemma_wf_adjacency_bounds;
use crate::randomness::RandomSource;
use crate::util::count_unavailable;
use crate::util::get_available_offline_nodes_in_onlineadj;
use crate::util::lemma_available_filter_entries;
use crate::util::lemma_count_unavailable_all_true;
use crate::util::lemma_count_unavailable_bounded;
use crate::util::lemma_count_unavailable_mark;
use crate::util::lemma_count_unavailable_strict;
use vstd::prelude::*;

verus! {

/// The capability every unweighted online strategy implements.  The view
/// drives it one arrival at a time; the contract says that a dispatch
/// claims at most one available neighbor, never revives an offline node,
/// and that the reported output is exactly the number of matches made.
pub trait Algorithm: Sized {
    /// How many offline nodes the strategy serves.
    spec fn offline_len(&self) -> nat;

    /// How many arrivals have been matched so far.
    spec fn matched(&self) -> nat;

    /// Whether offline node `i` is still available.
    spec fn available(&self, i: int) -> bool;

    /// The strategy's internal invariant.
    spec fn wf(&self) -> bool;

    fn init(offline_size: usize, rng: &mut RandomSource) -> (s: Self)
        ensures
            s.wf(),
            s.offline_len() == offline_size as nat,
            s.matched() == 0,
            forall|i: int| 0 <= i < s.offline_len() ==> s.available(i),
    ;

    fn dispatch(&mut self, online_adjacent: &Vec<usize>, rng: &mut RandomSource) -> (r: Option<
        usize,
    >)
        requires
            old(self).wf(),
            forall|k: int|
                0 <= k < online_adjacent@.len() ==> ((#[trigger] online_adjacent@[k]) as nat)
                    < old(self).offline_len(),
        ensures
            final(self).wf(),
            final(self).offline_len() == old(self).offline_len(),
            final(self).matched() == old(self).matched() + (if r is Some {
                1nat
            } else {
                0nat
            }),
            final(self).matched() <= final(self).offline_len(),
            forall|i: int|
                0 <= i < old(self).offline_len() && !old(self).available(i)
                    ==> !final(self).available(i),
            match r {
                Some(j) => {
                    &&& (j as nat) < old(self).offline_len()
                    &&& online_adjacent@.contains(j)
                    &&& old(self).available(j as int)
                    &&& !final(self).available(j as int)
                    &&& forall|i: int|
                        0 <= i < old(self).offline_len() && i != j as int ==> final(self).available(
                            i,
                        ) == old(self).available(i)
                },
                None => {
                    &&& forall|k: int|
                        0 <= k < online_adjacent@.len() ==> !old(self).available(
                            (#[trigger] online_adjacent@[k]) as int,
                        )
                    &&& forall|i: int|
                        0 <= i < old(self).offline_len() ==> final(self).available(i) == old(
                            self,
                        ).available(i)
                },
            },
    ;

    fn alg_output(self) -> (r: usize)
        requires
            self.wf(),
        ensures
            r == self.matched(),
    ;
}

/// A graph whose online side is revealed to a strategy one node at a
/// time, in first-seen order.
pub struct OnlineAdversarialBigraph<Key> {
    pub bigraph: Bigraph<Key>,
}

impl<Key> Bigraph<Key> {
    /// Wraps the graph for online simulation.
    pub fn into_online(self) -> (r: OnlineAdversarialBigraph<Key>)
        ensures
            r.bigraph == self,
    {
        OnlineAdversarialBigraph { bigraph: self }
    }
}

/// A restartable cursor over the online side's adjacency rows.
pub struct OnlineAdversarialBigraphIter<'a> {
    pub online_adjacency_list: &'a Vec<Vec<usize>>,
    pub online_index: usize,
}

impl<'a> OnlineAdversarialBigraphIter<'a> {
    /// The next arrival's adjacency row, or `None` after the last one.
    pub fn next(&mut self) -> (r: Option<&'a Vec<usize>>)
        requires
            old(self).online_index <= old(self).online_adjacency_list@.len(),
        ensures
            final(self).online_adjacency_list == old(self).online_adjacency_list,
            match r {
                Some(row) => {
                    &&& (old(self).online_index as int) < old(self).online_adjacency_list@.len()
                    &&& row@ == old(self).online_adjacency_list@[old(self).online_index as int]@
                    &&& final(self).online_index == old(self).online_index + 1
                },
                None => {
                    &&& old(self).online_index == old(self).online_adjacency_list@.len()
                    &&& final(self).online_index == old(self).online_index
                },
            },
    {
        if self.online_index == self.online_adjacency_list.len() {
            None
        } else {
            let t = Some(&self.online_adjacency_list[self.online_index]);
            self.online_index += 1;
            t
        }
    }
}

impl<Key> OnlineAdversarialBigraph<Key> {
    /// A fresh arrival sequence over the online adjacency rows.
    pub fn iter<'a>(&'a self) -> (it: OnlineAdversarialBigraphIter<'a>)
        ensures
            it.online_adjacency_list@ == self.bigraph.v_adjacency_list@,
            it.online_index == 0,
    {
        OnlineAdversarialBigraphIter {
            online_adjacency_list: &self.bigraph.v_adjacency_list,
            online_index: 0,
        }
    }

    /// The offline optimum: the size of a maximum matching of the
    /// underlying graph, computed by the solver.  The contract says
    /// exactly that: the result is the size of some matching, and no
    /// matching of the graph is larger.
    #[allow(non_snake_case)]
    pub fn OPT(&self) -> (r: usize)
        requires
            self.bigraph.wf(),
        ensures
            r <= self.bigraph.u_nodes@.len(),
            r <= self.bigraph.v_nodes@.len(),
            exists|m: Seq<(usize, usize)>| is_matching(self.bigraph, m) && m.len() == r,
            forall|m: Seq<(usize, usize)>| is_matching(self.bigraph, m) ==> m.len() <= r,
    {
        let matching = hopcroft_karp_matching(&self.bigraph);
        proof {
            assert(is_matching(self.bigraph, matching@) && matching@.len() == matching@.len());
        }
        matching.len()
    }

    /// Runs one strategy through every arrival and returns its realized
    /// match count, which never exceeds either side of the graph.  A run
    /// over a graph whose first arrival has a neighbor matches at least
    /// once: the first dispatch meets only available nodes and the
    /// capability contract obliges it to take one.
    #[allow(non_snake_case)]
    pub fn ALG<Alg: Algorithm>(&self, rng: &mut RandomSource) -> (r: usize)
        requires
            self.bigraph.wf(),
        ensures
            r <= self.bigraph.u_nodes@.len(),
            r <= self.bigraph.v_nodes@.len(),
            self.bigraph.v_adj().len() > 0 && self.bigraph.v_adj()[0].len() > 0 ==> r >= 1,
    {
        proof {
            lemma_wf_adjacency_bounds(self.bigraph);
        }
        let offline_size = self.bigraph.u_nodes.len();
        let mut alg = Alg::init(offline_size, rng);
        let rounds = self.bigraph.v_adjacency_list.len();
        let mut i: usize = 0;
        while i < rounds
            invariant
                self.bigraph.wf(),
                rounds == self.bigraph.v_adj().len(),
                i <= rounds,
                alg.wf(),
                alg.offline_len() == self.bigraph.u_nodes@.len(),
                alg.matched() <= i,
                alg.matched() <= alg.offline_len(),
                i == 0 ==> forall|t: int| 0 <= t < alg.offline_len() ==> alg.available(t),
                i >= 1 && self.bigraph.v_adj()[0].len() > 0 ==> alg.matched() >= 1,
            decreases rounds - i,
        {
            proof {
                lemma_wf_adjacency_bounds(self.bigraph);
                assert(self.bigraph.v_adj()[i as int] == self.bigraph.v_adjacency_list@[i as int]@);
            }
            let row = &self.bigraph.v_adjacency_list[i];
            let ghost pre = alg;
            let ghost at_start = i == 0;
            let _alg_choose = alg.dispatch(row, rng);
            proof {
                if at_start && row@.len() > 0 && _alg_choose is None {
                    assert(!pre.available(row@[0] as int));
                }
            }
            i += 1;
        }
        alg.alg_output()
    }
}

/// The ranks `0, 1, ..., n - 1` before shuffling.
pub open spec fn identity_ranks(n: nat) -> Seq<usize> {
    Seq::new(n, |i: int| i as usize)
}

/// Uniform random choice among the available neighbors of each arrival.
pub struct Random {
    pub offline_nodes_available: Vec<bool>,
    pub alg: usize,
}

impl Algorithm for Random {
    open spec fn offline_len(&self) -> nat {
        self.offline_nodes_available@.len()
    }

    open spec fn matched(&self) -> nat {
        self.alg as nat
    }

    open spec fn available(&self, i: int) -> bool {
        self.offline_nodes_available@[i]
    }

    open spec fn wf(&self) -> bool {
        self.alg as nat == count_unavailable(self.offline_nodes_available@)
    }

    fn init(offline_size: usize, rng: &mut RandomSource) -> (s: Self)
        ensures
            s.wf(),
            s.offline_len() == offline_size as nat,
            s.matched() == 0,
    {
        let mut vec: Vec<bool> = Vec::new();
        let mut i: usize = 0;
        while i < offline_size
            invariant
                i <= offline_size,
                vec@.len() == i,
                forall|k: int| 0 <= k < i ==> vec@[k],
            decreases offline_size - i,
        {
            vec.push(true);
            i += 1;
        }
        proof {
            lemma_count_unavailable_all_true(vec@);
        }
        Random { offline_nodes_available: vec, alg: 0 }
    }

    fn dispatch(&mut self, online_adjacent: &Vec<usize>, rng: &mut RandomSource) -> (r: Option<
        usize,
    >) {
        let available_offline_nodes = get_available_offline_nodes_in_onlineadj(
            &self.offline_nodes_available,
            online_adjacent,
        );
        if available_offline_nodes.len() == 0 {
            proof {
                lemma_count_unavailable_bounded(self.offline_nodes_available@);
                crate::util::lemma_available_filter_empty(
                    online_adjacent@,
                    self.offline_nodes_available@,
                );
            }
            None
        } else {
            let index = rng.next_below(available_offline_nodes.len());
            let node = available_offline_nodes[index];
            let avail_len = self.offline_nodes_available.len();
            proof {
                lemma_available_filter_entries(online_adjacent@, self.offline_nodes_available@);
                assert(online_adjacent@.contains(node));
                assert(self.offline_nodes_available@[node as int]);
                lemma_count_unavailable_strict(self.offline_nodes_available@, node as int);
                lemma_count_unavailable_mark(self.offline_nodes_available@, node as int);
            }
            self.alg = self.alg + 1;
            self.offline_nodes_available.set(node, false);
            proof {
                lemma_count_unavailable_bounded(self.offline_nodes_available@);
            }
            Some(node)
        }
    }

    fn alg_output(self) -> (r: usize) {
        self.alg
    }
}

/// Finds the entry of `candidates` whose rank is smallest, taking the
/// first such entry in stored order.
pub(crate) fn select_min_rank(candidates: &Vec<usize>, ranks: &Vec<usize>) -> (r: usize)
    requires
        candidates@.len() >= 1,
        forall|k: int|
            0 <= k < candidates@.len() ==> ((#[trigger] candidates@[k]) as int) < ranks@.len(),
    ensures
        (r as int) < candidates@.len(),
        forall|k: int|
            0 <= k < candidates@.len() ==> ranks@[candidates@[r as int] as int] <= ranks@[(
            #[trigger] candidates@[k]) as int],
        forall|k: int|
            0 <= k < r ==> ranks@[candidates@[r as int] as int] < ranks@[(
            #[trigger] candidates@[k]) as int],
{
    let mut best: usize = 0;
    let mut k: usize = 1;
    while k < candidates.len()
        invariant
            candidates@.len() >= 1,
            forall|k2: int|
                0 <= k2 < candidates@.len() ==> ((#[trigger] candidates@[k2]) as int)
                    < ranks@.len(),
            (best as int) < k,
            k <= candidates@.len(),
            forall|k2: int|
                0 <= k2 < k ==> ranks@[candidates@[best as int] as int] <= ranks@[(
                #[trigger] candidates@[k2]) as int],
            forall|k2: int|
                0 <= k2 < best ==> ranks@[candidates@[best as int] as int] < ranks@[(
                #[trigger] candidates@[k2]) as int],
        decreases candidates@.len() - k,
    {
        if ranks[candidates[k]] < ranks[candidates[best]] {
            best = k;
        }
        k += 1;
    }
    best
}

/// Ranking: a random permutation is drawn once, and each arrival is
/// matched to its available neighbor of smallest rank.
pub struct Ranking {
    pub offline_nodes_available: Vec<bool>,
    pub offline_nodes_rank: Vec<usize>,
    pub alg: usize,
}

impl Algorithm for Ranking {
    open spec fn offline_len(&self) -> nat {
        self.offline_nodes_available@.len()
    }

    open spec fn matched(&self) -> nat {
        self.alg as nat
    }

    open spec fn available(&self, i: int) -> bool {
        self.offline_nodes_available@[i]
    }

    open spec fn wf(&self) -> bool {
        &&& self.alg as nat == count_unavailable(self.offline_nodes_available@)
        &&& self.offline_nodes_rank@.len() == self.offline_nodes_available@.len()
        &&& self.offline_nodes_rank@.to_multiset() == identity_ranks(
            self.offline_nodes_available@.len(),
        ).to_multiset()
    }

    fn init(offline_size: usize, rng: &mut RandomSource) -> (s: Self)
        ensures
            s.wf(),
            s.offline_len() == offline_size as nat,
            s.matched() == 0,
    {
        let mut off_available: Vec<bool> = Vec::new();
        let mut rank: Vec<usize> = Vec::new();
        let mut i: usize = 0;
        while i < offline_size
            invariant
                i <= offline_size,
                off_available@.len() == i,
                rank@.len() == i,
                forall|k: int| 0 <= k < i ==> off_available@[k],
                forall|k: int| 0 <= k < i ==> (#[trigger] rank@[k]) as int == k,
            decreases offline_size - i,
        {
            off_available.push(true);
            rank.push(i);
            i += 1;
        }
        proof {
            assert(rank@ =~= identity_ranks(offline_size as nat));
        }
        rng.shuffle(&mut rank);
        proof {
            lemma_count_unavailable_all_true(off_available@);
            assert(rank@.len() == offline_size as nat) by {
                rank@.to_multiset_ensures();
            }
        }
        Ranking { offline_nodes_available: off_available, offline_nodes_rank: rank, alg: 0 }
    }

    fn dispatch(&mut self, online_adjacent: &Vec<usize>, rng: &mut RandomSource) -> (r: Option<
        usize,
    >)
        ensures
            final(self).offline_nodes_rank@ == old(self).offline_nodes_rank@,
            match r {
                Some(j) => forall|k: int|
                    0 <= k < online_adjacent@.len() && old(self).available(
                        (#[trigger] online_adjacent@[k]) as int,
                    ) ==> old(self).offline_nodes_rank@[j as int] <= old(self).offline_nodes_rank@[
                        online_adjacent@[k] as int
                    ],
                None => true,
            },
    {
        let available_offline_nodes = get_available_offline_nodes_in_onlineadj(
            &self.offline_nodes_available,
            online_adjacent,
        );
        if available_offline_nodes.len() == 0 {
            proof {
                lemma_count_unavailable_bounded(self.offline_nodes_available@);
                crate::util::lemma_available_filter_empty(
                    online_adjacent@,
                    self.offline_nodes_available@,
                );
            }
            None
        } else {
            proof {
                lemma_available_filter_entries(online_adjacent@, self.offline_nodes_available@);
            }
            let choice = select_min_rank(&available_offline_nodes, &self.offline_nodes_rank);
            let node = available_offline_nodes[choice];
            let avail_len = self.offline_nodes_available.len();
            proof {
                assert(online_adjacent@.contains(node));
                assert(self.offline_nodes_available@[node as int]);
                crate::util::lemma_available_filter_complete(
                    online_adjacent@,
                    self.offline_nodes_available@,
                );
                assert forall|k: int|
                    0 <= k < online_adjacent@.len() && self.offline_nodes_available@[(
                #[trigger] online_adjacent@[k]) as int] implies self.offline_nodes_rank@[
                    node as int
                ] <= self.offline_nodes_rank@[online_adjacent@[k] as int] by {
                    let e = online_adjacent@[k];
                    assert(available_offline_nodes@.contains(e));
                    let p = choose|p: int|
                        0 <= p < available_offline_nodes@.len() && available_offline_nodes@[p]
                            == e;
                    assert(self.offline_nodes_rank@[available_offline_nodes@[choice as int] as int]
                        <= self.offline_nodes_rank@[available_offline_nodes@[p] as int]);
                }
                lemma_count_unavailable_strict(self.offline_nodes_available@, node as int);
                lemma_count_unavailable_mark(self.offline_nodes_available@, node as int);
            }
            self.alg = self.alg + 1;
            self.offline_nodes_available.set(node, false);
            proof {
                lemma_count_unavailable_bounded(self.offline_nodes_available@);
            }
            Some(node)
        }
    }

    fn alg_output(self) -> (r: usize) {
        self.alg
    }
}

/// The blown-up two-by-two instance: each side has `2 * n` nodes, a
/// perfect matching joins equal indices, and a complete bipartite block
/// joins the first half of the online side to the second half of the
/// offline side.  Random's expected ratio on it approaches one half as
/// `n` grows.  The instance shape is exported: node lists in index
/// order, the edge count, the diagonal prefix and the block bounds.
pub fn random_worst_case(n: usize) -> (r: OnlineAdversarialBigraph<usize>)
    requires
        n <= usize::MAX / 2,
    ensures
        r.bigraph.wf(),
        r.bigraph.u_nodes@ == crate::adwords::index_keys(2 * (n as int)),
        r.bigraph.v_nodes@ == crate::adwords::index_keys(2 * (n as int)),
        r.bigraph.nodes_edges@.len() == 2 * (n as int) + (n as int) * (n as int),
        forall|k: int|
            0 <= k < 2 * n ==> #[trigger] r.bigraph.nodes_edges@[k] == (k as usize, k as usize),
        forall|k: int|
            2 * n <= k < r.bigraph.nodes_edges@.len() ==> n <= ((
            #[trigger] r.bigraph.nodes_edges@[k]).0 as int) < 2 * n && ((
            r.bigraph.nodes_edges@[k]).1 as int) < n,
{
    let mut edges: Vec<(usize, usize)> = Vec::new();
    let mut i: usize = 0;
    proof {
        assert(crate::bigraph::lefts(edges@) =~= Seq::<usize>::empty());
        assert(crate::bigraph::rights(edges@) =~= Seq::<usize>::empty());
        assert(crate::bigraph::firsts(crate::bigraph::lefts(edges@))
            =~= crate::adwords::index_keys(0));
        assert(crate::bigraph::firsts(crate::bigraph::rights(edges@))
            =~= crate::adwords::index_keys(0));
    }
    while i < 2 * n
        invariant
            n <= usize::MAX / 2,
            i <= 2 * n,
            edges@.len() == i,
            crate::bigraph::firsts(crate::bigraph::lefts(edges@)) == crate::adwords::index_keys(
                i as int,
            ),
            crate::bigraph::firsts(crate::bigraph::rights(edges@)) == crate::adwords::index_keys(
                i as int,
            ),
            forall|k: int| 0 <= k < i ==> #[trigger] edges@[k] == (k as usize, k as usize),
        decreases 2 * n - i,
    {
        let ghost lefts_pre = crate::bigraph::lefts(edges@);
        let ghost rights_pre = crate::bigraph::rights(edges@);
        edges.push((i, i));
        proof {
            assert(edges@[edges@.len() - 1] == (i, i));
            assert(crate::bigraph::lefts(edges@) =~= lefts_pre.push(i));
            assert(crate::bigraph::rights(edges@) =~= rights_pre.push(i));
            crate::bigraph::lemma_firsts_push(lefts_pre, i);
            crate::bigraph::lemma_firsts_push(rights_pre, i);
            crate::adwords::lemma_index_keys_grow(i);
        }
        i += 1;
    }
    let mut v: usize = 0;
    while v < n
        invariant
            n <= usize::MAX / 2,
            v <= n,
            crate::bigraph::firsts(crate::bigraph::lefts(edges@)) == crate::adwords::index_keys(
                2 * (n as int),
            ),
            crate::bigraph::firsts(crate::bigraph::rights(edges@)) == crate::adwords::index_keys(
                2 * (n as int),
            ),
            edges@.len() == 2 * (n as int) + (v as int) * (n as int),
            forall|k: int| 0 <= k < 2 * n ==> #[trigger] edges@[k] == (k as usize, k as usize),
            forall|k: int|
                2 * n <= k < edges@.len() ==> n <= ((#[trigger] edges@[k]).0 as int) < 2 * n && (
                edges@[k].1 as int) < v && edges@[k].0 != edges@[k].1,
            forall|a: int, b: int| 0 <= a < b < edges@.len() ==> edges@[a] != edges@[b],
        decreases n - v,
    {
        let mut u: usize = n;
        while u < 2 * n
            invariant
                n <= usize::MAX / 2,
                v < n,
                n <= u <= 2 * n,
                crate::bigraph::firsts(crate::bigraph::lefts(edges@))
                    == crate::adwords::index_keys(2 * (n as int)),
                crate::bigraph::firsts(crate::bigraph::rights(edges@))
                    == crate::adwords::index_keys(2 * (n as int)),
                edges@.len() == 2 * (n as int) + (v as int) * (n as int) + ((u as int) - (
                n as int)),
                forall|k: int| 0 <= k < 2 * n ==> #[trigger] edges@[k] == (k as usize, k as usize),
                forall|k: int|
                    2 * n <= k < edges@.len() ==> n <= ((#[trigger] edges@[k]).0 as int) < 2 * n
                        && ((edges@[k].1 as int) < v || (edges@[k].1 as int == v && (edges@[
                        k
                    ].0 as int) < u)) && edges@[k].0 != edges@[k].1,
                forall|a: int, b: int| 0 <= a < b < edges@.len() ==> edges@[a] != edges@[b],
            decreases 2 * n - u,
        {
            let ghost lefts_pre = crate::bigraph::lefts(edges@);
            let ghost rights_pre = crate::bigraph::rights(edges@);
            edges.push((u, v));
            proof {
                let newk = edges@.len() - 1;
                assert(edges@[newk] == (u, v));
                assert(crate::bigraph::lefts(edges@) =~= lefts_pre.push(u));
                assert(crate::bigraph::rights(edges@) =~= rights_pre.push(v));
                crate::bigraph::lemma_firsts_push(lefts_pre, u);
                crate::bigraph::lemma_firsts_push(rights_pre, v);
                crate::adwords::lemma_index_keys_has(((2 * (n as int)) as usize), u);
                crate::adwords::lemma_index_keys_has(((2 * (n as int)) as usize), v);
                assert forall|a: int, b: int|
                    0 <= a < b < edges@.len() implies edges@[a] != edges@[b] by {
                    if b == newk {
                        if a < 2 * n {
                            assert(edges@[a] == (a as usize, a as usize));
                        }
                    }
                }
            }
            u += 1;
        }
        proof {
            assert(2 * (n as int) + (v as int) * (n as int) + (n as int) == 2 * (n as int) + ((
            v as int) + 1) * (n as int)) by (nonlinear_arith);
        }
        v += 1;
    }
    Bigraph::from_edges(&edges).into_online()
}

/// Builds the staircase edge list: online node `v` joined to every
/// offline node `u` with `u >= v`.  The whole shape is exported: keys
/// appear in index order on both sides, the count is the triangular sum,
/// and membership is pinned.
pub(crate) fn staircase_edges(n: usize) -> (r: Vec<(usize, usize)>)
    ensures
        crate::bigraph::edges_distinct(r@),
        crate::bigraph::firsts(crate::bigraph::lefts(r@)) == crate::adwords::index_keys(n as int),
        crate::bigraph::firsts(crate::bigraph::rights(r@)) == crate::adwords::index_keys(n as int),
        2 * r@.len() == (n as int) * ((n as int) + 1),
        forall|k: int|
            0 <= k < r@.len() ==> ((#[trigger] r@[k]).1 as int) <= ((r@[k]).0 as int) && ((
            r@[k]).0 as int) < n,
{
    let mut edges: Vec<(usize, usize)> = Vec::new();
    let mut v: usize = 0;
    proof {
        assert(crate::bigraph::lefts(edges@) =~= Seq::<usize>::empty());
        assert(crate::bigraph::rights(edges@) =~= Seq::<usize>::empty());
        assert(crate::bigraph::firsts(crate::bigraph::lefts(edges@))
            =~= crate::adwords::index_keys(0));
        assert(crate::bigraph::firsts(crate::bigraph::rights(edges@))
            =~= crate::adwords::index_keys(0));
    }
    while v < n
        invariant
            v <= n,
            crate::bigraph::firsts(crate::bigraph::lefts(edges@)) == (if v == 0 {
                crate::adwords::index_keys(0)
            } else {
                crate::adwords::index_keys(n as int)
            }),
            crate::bigraph::firsts(crate::bigraph::rights(edges@)) == crate::adwords::index_keys(
                v as int,
            ),
            2 * edges@.len() == (v as int) * (2 * (n as int) - (v as int) + 1),
            forall|k: int|
                0 <= k < edges@.len() ==> ((#[trigger] edges@[k]).1 as int) < v && ((edges@[
                    k
                ].1 as int) <= (edges@[k].0 as int)) && ((edges@[k].0 as int) < n),
            forall|a: int, b: int| 0 <= a < b < edges@.len() ==> edges@[a] != edges@[b],
        decreases n - v,
    {
        let mut u: usize = v;
        while u < n
            invariant
                v < n,
                v <= u <= n,
                crate::bigraph::firsts(crate::bigraph::lefts(edges@)) == (if v == 0 {
                    crate::adwords::index_keys(u as int)
                } else {
                    crate::adwords::index_keys(n as int)
                }),
                crate::bigraph::firsts(crate::bigraph::rights(edges@)) == (if u == v {
                    crate::adwords::index_keys(v as int)
                } else {
                    crate::adwords::index_keys(v as int + 1)
                }),
                2 * edges@.len() == (v as int) * (2 * (n as int) - (v as int) + 1) + 2 * ((
                u as int) - (v as int)),
                forall|k: int|
                    0 <= k < edges@.len() ==> (((#[trigger] edges@[k]).1 as int) < v || ((edges@[
                        k
                    ].1 as int) == v && (edges@[k].0 as int) < u)) && ((edges@[k].1 as int) <= (
                    edges@[k].0 as int)) && ((edges@[k].0 as int) < n),
                forall|a: int, b: int| 0 <= a < b < edges@.len() ==> edges@[a] != edges@[b],
            decreases n - u,
        {
            let ghost lefts_pre = crate::bigraph::lefts(edges@);
            let ghost rights_pre = crate::bigraph::rights(edges@);
            edges.push((u, v));
            proof {
                let newk = edges@.len() - 1;
                assert(edges@[newk] == (u, v));
                assert(crate::bigraph::lefts(edges@) =~= lefts_pre.push(u));
                assert(crate::bigraph::rights(edges@) =~= rights_pre.push(v));
                crate::bigraph::lemma_firsts_push(lefts_pre, u);
                crate::bigraph::lemma_firsts_push(rights_pre, v);
                if v == 0 {
                    crate::adwords::lemma_index_keys_grow(u);
                } else {
                    crate::adwords::lemma_index_keys_has(n, u);
                }
                if u == v {
                    crate::adwords::lemma_index_keys_grow(v);
                } else {
                    crate::adwords::lemma_index_keys_has(((v as int) + 1) as usize, v);
                }
            }
            u += 1;
        }
        proof {
            assert((v as int) * (2 * (n as int) - (v as int) + 1) + 2 * ((n as int) - (v as int))
                == ((v as int) + 1) * (2 * (n as int) - ((v as int) + 1) + 1)) by (nonlinear_arith);
        }
        v += 1;
    }
    edges
}

/// The staircase instance: online node `v` is joined to every offline
/// node `u` with `u >= v`.  Every strategy's expected ratio on it is at
/// most `1 - 1/e` in the limit, and Ranking attains it.  The instance
/// shape is exported: `n` nodes on each side in index order and the
/// triangular edge count.
pub fn ranking_worst_case(n: usize) -> (r: OnlineAdversarialBigraph<usize>)
    ensures
        r.bigraph.wf(),
        r.bigraph.u_nodes@ == crate::adwords::index_keys(n as int),
        r.bigraph.v_nodes@ == crate::adwords::index_keys(n as int),
        2 * r.bigraph.nodes_edges@.len() == (n as int) * ((n as int) + 1),
        forall|k: int|
            0 <= k < r.bigraph.nodes_edges@.len() ==> ((
            #[trigger] r.bigraph.nodes_edges@[k]).1 as int) <= ((
            r.bigraph.nodes_edges@[k]).0 as int) && ((r.bigraph.nodes_edges@[k]).0 as int) < n,
{
    let edges = staircase_edges(n);
    Bigraph::from_edges(&edges).into_online()
}

} // verus!