//! Stochastic rewards: every edge carries a success probability, a
//! proposed match succeeds only with that probability, and an offline
//! node is consumed only by a successful match.
//!
//! Probabilities are scaled integers: an edge weight `p` stands for the
//! probability `p / PROB_DENOM`, so that all bookkeeping stays exact.
//! The two-phase protocol is explicit: `dispatch` proposes a neighbor,
//! `query_success` resolves the proposal with a Bernoulli draw, and the
//! trait contract ties the two calls together through the pending
//! proposal.

use crate::bigraph::edges_distinct;
use crate::randomness::RandomSource;
use crate::util::count_unavailable;
use crate::util::get_available_offline_nodes_in_weighted_onlineadj;
use crate::util::lemma_available_wfilter_entries;
use crate::util::lemma_count_unavailable_bounded;
use crate::util::lemma_count_unavailable_mark;
use crate::util::lemma_count_unavailable_strict;
use crate::weightedbigraph::lemma_wwf_adjacency_bounds;
use crate::weightedbigraph::WBigraph;
use vstd::prelude::*;

verus! {

/// A success probability, scaled: `p` stands for `p / PROB_DENOM`.
pub type Prob = u64;

/// The denominator of every scaled probability.
pub const PROB_DENOM: u64 = 1000000;

/// A weighted graph read as a stochastic-reward instance: each edge
/// weight is a scaled probability.
#[derive(Debug)]
pub struct StochasticReward<Key> {
    pub weighted_bigraph: WBigraph<Key, Prob>,
}

/// Runtime test of the probability precondition: true exactly when every
/// edge weight is a scaled probability, at most `PROB_DENOM`.
pub fn probs_in_range<Key>(graph: &WBigraph<Key, Prob>) -> (r: bool)
    ensures
        r == forall|k: int|
            0 <= k < graph.nodes_edges@.len() ==> (#[trigger] graph.nodes_edges@[k]).1
                <= PROB_DENOM,
{
    let mut k: usize = 0;
    while k < graph.nodes_edges.len()
        invariant
            k <= graph.nodes_edges@.len(),
            forall|k2: int|
                0 <= k2 < k ==> (#[trigger] graph.nodes_edges@[k2]).1 <= PROB_DENOM,
        decreases graph.nodes_edges@.len() - k,
    {
        if graph.nodes_edges[k].1 > PROB_DENOM {
            return false;
        }
        k += 1;
    }
    true
}

impl<Key> WBigraph<Key, Prob> {
    /// Reads the weighted graph as a stochastic-reward instance.  An
    /// edge weight above `PROB_DENOM` is a precondition violation;
    /// `probs_in_range` tests the condition at run time.
    pub fn into_stochastic_reward(self) -> (r: StochasticReward<Key>)
        requires
            forall|k: int|
                0 <= k < self.nodes_edges@.len() ==> (#[trigger] self.nodes_edges@[k]).1
                    <= PROB_DENOM,
        ensures
            r.weighted_bigraph == self,
    {
        StochasticReward { weighted_bigraph: self }
    }
}

/// The capability of an adaptive stochastic strategy.  `dispatch`
/// proposes at most one available neighbor and records it as pending;
/// `query_success` resolves the pending proposal, consuming the offline
/// node only on success.  The contract forces strict alternation.
pub trait AdaptiveAlgorithm: Sized {
    /// How many offline nodes the strategy serves.
    spec fn offline_len(&self) -> nat;

    /// How many offline nodes successful matches have consumed.
    spec fn committed(&self) -> nat;

    /// Whether offline node `i` is still available.
    spec fn available(&self, i: int) -> bool;

    /// The proposal awaiting resolution, if any.
    spec fn pending(&self) -> Option<(usize, Prob)>;

    /// The strategy's internal invariant.
    spec fn wf(&self) -> bool;

    fn init(lenth: usize, rng: &mut RandomSource) -> (s: Self)
        ensures
            s.wf(),
            s.offline_len() == lenth as nat,
            s.committed() == 0,
            s.pending() is None,
            forall|i: int| 0 <= i < s.offline_len() ==> s.available(i),
    ;

    fn dispatch(&mut self, online_adjacent: &Vec<(usize, Prob)>, rng: &mut RandomSource) -> (r:
        Option<(usize, Prob)>)
        requires
            old(self).wf(),
            old(self).pending() is None,
            forall|k: int|
                0 <= k < online_adjacent@.len() ==> ((#[trigger] online_adjacent@[k]).0 as nat)
                    < old(self).offline_len(),
        ensures
            final(self).wf(),
            final(self).offline_len() == old(self).offline_len(),
            final(self).committed() == old(self).committed(),
            final(self).pending() == r,
            forall|i: int|
                0 <= i < old(self).offline_len() ==> final(self).available(i) == old(self).available(
                    i,
                ),
            match r {
                Some(choice) => {
                    &&& (choice.0 as nat) < old(self).offline_len()
                    &&& online_adjacent@.contains(choice)
                    &&& old(self).available(choice.0 as int)
                },
                None => forall|k: int|
                    0 <= k < online_adjacent@.len() ==> !old(self).available(
                        ((#[trigger] online_adjacent@[k]).0) as int,
                    ),
            },
    ;

    fn query_success(&mut self, offline_node: Option<(usize, Prob)>, rng: &mut RandomSource) -> (r:
        Option<bool>)
        requires
            old(self).wf(),
            old(self).pending() == offline_node,
        ensures
            final(self).wf(),
            final(self).offline_len() == old(self).offline_len(),
            final(self).pending() is None,
            final(self).committed() == old(self).committed() + (if r == Some(true) {
                1nat
            } else {
                0nat
            }),
            final(self).committed() <= final(self).offline_len(),
            r is Some <==> offline_node is Some,
            offline_node matches Some(choice) && choice.1 >= PROB_DENOM ==> r == Some(true),
            offline_node matches Some(choice) && choice.1 == 0 ==> r == Some(false),
            match r {
                Some(true) => offline_node matches Some(choice) ==> !final(self).available(
                    choice.0 as int,
                ) && forall|i: int|
                    0 <= i < old(self).offline_len() && i != choice.0 as int
                        ==> final(self).available(i) == old(self).available(i),
                _ => forall|i: int|
                    0 <= i < old(self).offline_len() ==> final(self).available(i) == old(self).available(
                        i,
                    ),
            },
    ;

    fn alg_output(self) -> (r: usize)
        requires
            self.wf(),
        ensures
            r == self.committed(),
    ;
}

/// The capability of a non-adaptive stochastic strategy: it proposes a
/// neighbor for each arrival without learning whether earlier proposals
/// succeeded.  Implementations are supplied by users of the crate.
pub trait NoneAdaptiveAlgorithm: Sized {
    /// How many offline nodes the strategy serves.
    spec fn offline_len(&self) -> nat;

    fn init(lenth: usize, rng: &mut RandomSource) -> (s: Self)
        ensures
            s.offline_len() == lenth as nat,
    ;

    fn dispatch(&mut self, online_adjacent: &Vec<(usize, Prob)>, rng: &mut RandomSource) -> (r:
        Option<(usize, Prob)>)
        requires
            forall|k: int|
                0 <= k < online_adjacent@.len() ==> ((#[trigger] online_adjacent@[k]).0 as nat)
                    < old(self).offline_len(),
        ensures
            final(self).offline_len() == old(self).offline_len(),
            match r {
                Some(choice) => (choice.0 as nat) < old(self).offline_len()
                    && online_adjacent@.contains(choice),
                None => true,
            },
    ;
}

/// A restartable cursor over the probability-weighted adjacency rows.
pub struct StochasticRewardIter<'a> {
    pub online_adjacency_list: &'a Vec<Vec<(usize, Prob)>>,
    pub online_index: usize,
}

impl<'a> StochasticRewardIter<'a> {
    /// The next arrival's weighted adjacency row, or `None` after the
    /// last one.
    pub fn next(&mut self) -> (r: Option<&'a Vec<(usize, Prob)>>)
        requires
            old(self).online_index <= old(self).online_adjacency_list@.len(),
        ensures
            final(self).online_adjacency_list == old(self).online_adjacency_list,
            match r {
                Some(row) => {
                    &&& (old(self).online_index as int) < old(self).online_adjacency_list@.len()
                    &&& row@ == old(self).online_adjacency_list@[old(self).online_index as int]@
                    &&& final(self).online_index == old(self).online_index + 1
                },
                None => {
                    &&& old(self).online_index == old(self).online_adjacency_list@.len()
                    &&& final(self).online_index == old(self).online_index
                },
            },
    {
        if self.online_index == self.online_adjacency_list.len() {
            None
        } else {
            let t = Some(&self.online_adjacency_list[self.online_index]);
            self.online_index += 1;
            t
        }
    }
}

impl<Key> StochasticReward<Key> {
    /// A fresh arrival sequence over the weighted online adjacency rows.
    pub fn iter<'a>(&'a self) -> (it: StochasticRewardIter<'a>)
        ensures
            it.online_adjacency_list@ == self.weighted_bigraph.v_adjacency_list@,
            it.online_index == 0,
    {
        StochasticRewardIter {
            online_adjacency_list: &self.weighted_bigraph.v_adjacency_list,
            online_index: 0,
        }
    }

    /// A placeholder offline bound: the count of offline nodes.  The
    /// stochastic optimum is not computed here.
    #[allow(non_snake_case)]
    pub fn OPT(&self) -> (r: usize)
        ensures
            r == self.weighted_bigraph.u_nodes@.len(),
    {
        self.weighted_bigraph.u_nodes.len()
    }

    /// Drives one adaptive strategy through every arrival, resolving
    /// each proposal before the next, and returns its realized match
    /// count, which never exceeds either side of the graph.
    pub fn adaptive_alg_once<Alg: AdaptiveAlgorithm>(&self, rng: &mut RandomSource) -> (r: usize)
        requires
            self.weighted_bigraph.wf(),
        ensures
            r <= self.weighted_bigraph.u_nodes@.len(),
            r <= self.weighted_bigraph.v_nodes@.len(),
            self.weighted_bigraph.v_adj().len() > 0 && self.weighted_bigraph.v_adj()[0].len() > 0
                && (forall|k: int|
                0 <= k < self.weighted_bigraph.v_adj()[0].len() ==> (
                #[trigger] self.weighted_bigraph.v_adj()[0][k]).1 >= PROB_DENOM) ==> r >= 1,
    {
        proof {
            lemma_wwf_adjacency_bounds(self.weighted_bigraph);
        }
        let mut alg = Alg::init(self.weighted_bigraph.u_nodes.len(), rng);
        let rounds = self.weighted_bigraph.v_adjacency_list.len();
        let mut i: usize = 0;
        while i < rounds
            invariant
                self.weighted_bigraph.wf(),
                rounds == self.weighted_bigraph.v_adj().len(),
                i <= rounds,
                alg.wf(),
                alg.pending() is None,
                alg.offline_len() == self.weighted_bigraph.u_nodes@.len(),
                alg.committed() <= i,
                alg.committed() <= alg.offline_len(),
                i == 0 ==> forall|t: int| 0 <= t < alg.offline_len() ==> alg.available(t),
                i >= 1 && self.weighted_bigraph.v_adj()[0].len() > 0 && (forall|k: int|
                    0 <= k < self.weighted_bigraph.v_adj()[0].len() ==> (
                    #[trigger] self.weighted_bigraph.v_adj()[0][k]).1 >= PROB_DENOM)
                    ==> alg.committed() >= 1,
            decreases rounds - i,
        {
            proof {
                lemma_wwf_adjacency_bounds(self.weighted_bigraph);
                assert(self.weighted_bigraph.v_adj()[i as int]
                    == self.weighted_bigraph.v_adjacency_list@[i as int]@);
            }
            let row = &self.weighted_bigraph.v_adjacency_list[i];
            proof {
                assert forall|k: int|
                    0 <= k < row@.len() implies ((#[trigger] row@[k]).0 as nat)
                    < alg.offline_len() by {
                    assert(row@[k] == self.weighted_bigraph.v_adj()[i as int][k]);
                }
            }
            let ghost pre = alg;
            let ghost at_start = i == 0;
            let alg_choose = alg.dispatch(row, rng);
            let ghost mid = alg;
            let outcome = alg.query_success(alg_choose, rng);
            proof {
                if at_start && row@.len() > 0 && (forall|k: int|
                    0 <= k < row@.len() ==> (#[trigger] row@[k]).1 >= PROB_DENOM) {
                    if alg_choose is None {
                        assert(!pre.available(row@[0].0 as int));
                    } else {
                        let choice = alg_choose->0;
                        assert(row@.contains(choice));
                        let w = choose|k: int| 0 <= k < row@.len() && row@[k] == choice;
                        assert(row@[w].1 >= PROB_DENOM);
                        assert(outcome == Some(true));
                    }
                }
            }
            i += 1;
        }
        alg.alg_output()
    }

    /// Runs `precision` independent adaptive trials and returns the sum
    /// of their match counts; the average is the sum over `precision`.
    pub fn adaptive_alg_total<Alg: AdaptiveAlgorithm>(
        &self,
        precision: usize,
        rng: &mut RandomSource,
    ) -> (r: u128)
        requires
            self.weighted_bigraph.wf(),
        ensures
            r <= (precision as int) * (self.weighted_bigraph.u_nodes@.len() as int),
            self.weighted_bigraph.v_adj().len() > 0 && self.weighted_bigraph.v_adj()[0].len() > 0
                && (forall|k: int|
                0 <= k < self.weighted_bigraph.v_adj()[0].len() ==> (
                #[trigger] self.weighted_bigraph.v_adj()[0][k]).1 >= PROB_DENOM) ==> r
                >= precision,
    {
        let mut alg_sum: u128 = 0;
        let mut t: usize = 0;
        let nu_exec = self.weighted_bigraph.u_nodes.len();
        while t < precision
            invariant
                self.weighted_bigraph.wf(),
                t <= precision,
                nu_exec == self.weighted_bigraph.u_nodes@.len(),
                alg_sum <= (t as int) * (self.weighted_bigraph.u_nodes@.len() as int),
                self.weighted_bigraph.v_adj().len() > 0 && self.weighted_bigraph.v_adj()[0].len()
                    > 0 && (forall|k: int|
                    0 <= k < self.weighted_bigraph.v_adj()[0].len() ==> (
                    #[trigger] self.weighted_bigraph.v_adj()[0][k]).1 >= PROB_DENOM) ==> alg_sum
                    >= t as int,
            decreases precision - t,
        {
            let trial = self.adaptive_alg_once::<Alg>(rng);
            proof {
                let nu = self.weighted_bigraph.u_nodes@.len() as int;
                assert(alg_sum + trial <= ((t + 1) as int) * nu && ((t + 1) as int) * nu
                    < u128::MAX) by (nonlinear_arith)
                    requires
                        alg_sum <= (t as int) * nu,
                        0 <= trial <= nu,
                        0 <= nu <= usize::MAX,
                        t < precision <= usize::MAX,
                        usize::MAX <= u64::MAX,
                ;
            }
            alg_sum = alg_sum + trial as u128;
            t += 1;
        }
        alg_sum
    }
}

/// Finds the entry of `candidates` whose offline node's rank is
/// smallest, taking the first such entry in stored order.
fn select_min_rank_weighted(candidates: &Vec<(usize, Prob)>, ranks: &Vec<usize>) -> (r: usize)
    requires
        candidates@.len() >= 1,
        forall|k: int|
            0 <= k < candidates@.len() ==> ((#[trigger] candidates@[k]).0 as int) < ranks@.len(),
    ensures
        (r as int) < candidates@.len(),
        forall|k: int|
            0 <= k < candidates@.len() ==> ranks@[candidates@[r as int].0 as int] <= ranks@[(
            #[trigger] candidates@[k]).0 as int],
        forall|k: int|
            0 <= k < r ==> ranks@[candidates@[r as int].0 as int] < ranks@[(
            #[trigger] candidates@[k]).0 as int],
{
    let mut best: usize = 0;
    let mut k: usize = 1;
    while k < candidates.len()
        invariant
            candidates@.len() >= 1,
            forall|k2: int|
                0 <= k2 < candidates@.len() ==> ((#[trigger] candidates@[k2]).0 as int)
                    < ranks@.len(),
            (best as int) < k,
            k <= candidates@.len(),
            forall|k2: int|
                0 <= k2 < k ==> ranks@[candidates@[best as int].0 as int] <= ranks@[(
                #[trigger] candidates@[k2]).0 as int],
            forall|k2: int|
                0 <= k2 < best ==> ranks@[candidates@[best as int].0 as int] < ranks@[(
                #[trigger] candidates@[k2]).0 as int],
        decreases candidates@.len() - k,
    {
        if ranks[candidates[k].0] < ranks[candidates[best].0] {
            best = k;
        }
        k += 1;
    }
    best
}

/// Adaptive Ranking: a random permutation is drawn once; each arrival's
/// proposal is the available probability-bearing neighbor of smallest
/// rank, and a success consumes the node.
#[derive(Debug)]
pub struct Ranking {
    pub offline_nodes_available: Vec<bool>,
    pub offline_nodes_rank: Vec<usize>,
    pub proposal: Option<(usize, Prob)>,
}

impl AdaptiveAlgorithm for Ranking {
    open spec fn offline_len(&self) -> nat {
        self.offline_nodes_available@.len()
    }

    open spec fn committed(&self) -> nat {
        count_unavailable(self.offline_nodes_available@)
    }

    open spec fn available(&self, i: int) -> bool {
        self.offline_nodes_available@[i]
    }

    open spec fn pending(&self) -> Option<(usize, Prob)> {
        self.proposal
    }

    open spec fn wf(&self) -> bool {
        &&& self.offline_nodes_rank@.len() == self.offline_nodes_available@.len()
        &&& self.offline_nodes_rank@.to_multiset() == crate::online::identity_ranks(
            self.offline_nodes_available@.len(),
        ).to_multiset()
        &&& match self.proposal {
            Some(choice) => (choice.0 as int) < self.offline_nodes_available@.len()
                && self.offline_nodes_available@[choice.0 as int],
            None => true,
        }
    }

    fn init(lenth: usize, rng: &mut RandomSource) -> (s: Self)
        ensures
            s.wf(),
            s.offline_len() == lenth as nat,
            s.committed() == 0,
            s.pending() is None,
    {
        let mut off_available: Vec<bool> = Vec::new();
        let mut rank: Vec<usize> = Vec::new();
        let mut i: usize = 0;
        while i < lenth
            invariant
                i <= lenth,
                off_available@.len() == i,
                rank@.len() == i,
                forall|k: int| 0 <= k < i ==> off_available@[k],
                forall|k: int| 0 <= k < i ==> (#[trigger] rank@[k]) as int == k,
            decreases lenth - i,
        {
            off_available.push(true);
            rank.push(i);
            i += 1;
        }
        proof {
            assert(rank@ =~= crate::online::identity_ranks(lenth as nat));
        }
        rng.shuffle(&mut rank);
        proof {
            crate::util::lemma_count_unavailable_all_true(off_available@);
            assert(rank@.len() == lenth as nat) by {
                rank@.to_multiset_ensures();
            }
        }
        Ranking { offline_nodes_available: off_available, offline_nodes_rank: rank, proposal: None }
    }

    fn dispatch(&mut self, online_adjacent: &Vec<(usize, Prob)>, rng: &mut RandomSource) -> (r:
        Option<(usize, Prob)>)
        ensures
            final(self).offline_nodes_rank@ == old(self).offline_nodes_rank@,
            final(self).offline_nodes_available@ == old(self).offline_nodes_available@,
            match r {
                Some(choice) => forall|k: int|
                    0 <= k < online_adjacent@.len() && old(self).available(
                        (#[trigger] online_adjacent@[k]).0 as int,
                    ) ==> old(self).offline_nodes_rank@[choice.0 as int] <= old(
                        self,
                    ).offline_nodes_rank@[online_adjacent@[k].0 as int],
                None => true,
            },
    {
        let available_offline_nodes = get_available_offline_nodes_in_weighted_onlineadj(
            &self.offline_nodes_available,
            online_adjacent,
        );
        if available_offline_nodes.len() == 0 {
            proof {
                crate::util::lemma_available_wfilter_empty(
                    online_adjacent@,
                    self.offline_nodes_available@,
                );
            }
            self.proposal = None;
            None
        } else {
            proof {
                lemma_available_wfilter_entries(online_adjacent@, self.offline_nodes_available@);
            }
            let choice = select_min_rank_weighted(
                &available_offline_nodes,
                &self.offline_nodes_rank,
            );
            let node = available_offline_nodes[choice];
            proof {
                assert(online_adjacent@.contains(node));
                assert(self.offline_nodes_available@[node.0 as int]);
                crate::util::lemma_available_wfilter_complete(
                    online_adjacent@,
                    self.offline_nodes_available@,
                );
                assert forall|k: int|
                    0 <= k < online_adjacent@.len() && self.offline_nodes_available@[(
                #[trigger] online_adjacent@[k]).0 as int] implies self.offline_nodes_rank@[
                    node.0 as int
                ] <= self.offline_nodes_rank@[online_adjacent@[k].0 as int] by {
                    let e = online_adjacent@[k];
                    assert(available_offline_nodes@.contains(e));
                    let p = choose|p: int|
                        0 <= p < available_offline_nodes@.len() && available_offline_nodes@[p]
                            == e;
                    assert(self.offline_nodes_rank@[available_offline_nodes@[choice as int].0
                        as int] <= self.offline_nodes_rank@[available_offline_nodes@[p].0 as int]);
                }
            }
            self.proposal = Some(node);
            Some(node)
        }
    }

    fn query_success(&mut self, offline_node: Option<(usize, Prob)>, rng: &mut RandomSource) -> (r:
        Option<bool>)
        ensures
            final(self).offline_nodes_rank@ == old(self).offline_nodes_rank@,
    {
        proof {
            lemma_count_unavailable_bounded(self.offline_nodes_available@);
        }
        match offline_node {
            Some(adj_info) => {
                // A Bernoulli draw with the scaled probability: a uniform
                // value below the denominator succeeds when it falls
                // under the numerator.
                let draw = rng.next_below(1000000);
                let result = (draw as u64) < adj_info.1;
                if result {
                    proof {
                        lemma_count_unavailable_strict(
                            self.offline_nodes_available@,
                            adj_info.0 as int,
                        );
                        lemma_count_unavailable_mark(
                            self.offline_nodes_available@,
                            adj_info.0 as int,
                        );
                    }
                    self.offline_nodes_available.set(adj_info.0, false);
                    proof {
                        lemma_count_unavailable_bounded(self.offline_nodes_available@);
                    }
                }
                self.proposal = None;
                Some(result)
            },
            None => {
                self.proposal = None;
                None
            },
        }
    }

    fn alg_output(self) -> (r: usize) {
        let n = self.offline_nodes_available.len();
        let mut count: usize = 0;
        let mut i: usize = 0;
        proof {
            assert(self.offline_nodes_available@.subrange(0, 0) =~= Seq::<bool>::empty());
        }
        while i < n
            invariant
                n == self.offline_nodes_available@.len(),
                i <= n,
                count == count_unavailable(self.offline_nodes_available@.subrange(0, i as int)),
                count <= i,
            decreases n - i,
        {
            proof {
                let prefix = self.offline_nodes_available@.subrange(0, i as int);
                let prefix1 = self.offline_nodes_available@.subrange(0, i + 1);
                assert(prefix1.drop_last() =~= prefix);
                assert(prefix1.last() == self.offline_nodes_available@[i as int]);
            }
            if !self.offline_nodes_available[i] {
                count = count + 1;
            }
            i += 1;
        }
        proof {
            assert(self.offline_nodes_available@.subrange(0, n as int)
                =~= self.offline_nodes_available@);
        }
        count
    }
}

/// The simplest stochastic instance: one offline node, `m` online
/// nodes, each joined to it with probability `1 / m`.  The shape is
/// exported: the node lists, the edge count and every edge's endpoints
/// and scaled probability.
pub fn simplist(m: usize) -> (r: StochasticReward<usize>)
    requires
        1 <= m,
    ensures
        r.weighted_bigraph.wf(),
        r.weighted_bigraph.u_nodes@ == crate::adwords::index_keys(1),
        r.weighted_bigraph.v_nodes@ == crate::adwords::index_keys(m as int),
        r.weighted_bigraph.nodes_edges@.len() == m,
        forall|k: int|
            0 <= k < r.weighted_bigraph.nodes_edges@.len() ==> (
            #[trigger] r.weighted_bigraph.nodes_edges@[k]).1 == PROB_DENOM / (m as u64) && ((
            r.weighted_bigraph.nodes_edges@[k]).0.0 as int) == 0 && ((
            r.weighted_bigraph.nodes_edges@[k]).0.1 as int) < m,
{
    let p: u64 = PROB_DENOM / (m as u64);
    let edges = crate::adwords::block_growth_edges(1, m, p);
    let wbigraph = WBigraph::from_edges(&edges);
    proof {
        lemma_scaled_prob_in_range(m);
        assert forall|k: int|
            0 <= k < wbigraph.nodes_edges@.len() implies (#[trigger] wbigraph.nodes_edges@[k]).1
            <= PROB_DENOM by {
            assert(wbigraph.nodes_edges@[k] == edges@[k]);
        }
    }
    wbigraph.into_stochastic_reward()
}

/// The block-growth instance: offline node `u` is joined to the first
/// `(u + 1) * m` online nodes, each edge with probability `1 / m`.  The
/// shape is exported as for `thick_triangle_case`.
pub fn gk(k: usize, m: usize) -> (r: StochasticReward<usize>)
    requires
        1 <= k,
        1 <= m,
        (k as int) * (m as int) <= usize::MAX,
    ensures
        r.weighted_bigraph.wf(),
        r.weighted_bigraph.u_nodes@ == crate::adwords::index_keys(k as int),
        r.weighted_bigraph.v_nodes@ == crate::adwords::index_keys((k as int) * (m as int)),
        2 * r.weighted_bigraph.nodes_edges@.len() == (m as int) * (k as int) * ((k as int) + 1),
        forall|q: int|
            0 <= q < r.weighted_bigraph.nodes_edges@.len() ==> (
            #[trigger] r.weighted_bigraph.nodes_edges@[q]).1 == PROB_DENOM / (m as u64) && ((
            r.weighted_bigraph.nodes_edges@[q]).0.0 as int) < k && ((
            r.weighted_bigraph.nodes_edges@[q]).0.1 as int) < (((
            r.weighted_bigraph.nodes_edges@[q]).0.0 as int) + 1) * (m as int),
{
    let p: u64 = PROB_DENOM / (m as u64);
    let edges = crate::adwords::block_growth_edges(k, m, p);
    let wbigraph = WBigraph::from_edges(&edges);
    proof {
        lemma_scaled_prob_in_range(m);
        assert forall|q: int|
            0 <= q < wbigraph.nodes_edges@.len() implies (#[trigger] wbigraph.nodes_edges@[q]).1
            <= PROB_DENOM by {
            assert(wbigraph.nodes_edges@[q] == edges@[q]);
        }
    }
    wbigraph.into_stochastic_reward()
}

/// The uniform scaled probability `1 / m` never exceeds the denominator.
proof fn lemma_scaled_prob_in_range(m: usize)
    requires
        1 <= m,
    ensures
        PROB_DENOM / (m as u64) <= PROB_DENOM,
{
    assert(PROB_DENOM / (m as u64) <= PROB_DENOM) by (nonlinear_arith)
        requires
            1 <= m,
    ;
}

/// Attaches the probability `1 / m` to every edge of a plain edge list:
/// the result is exactly the weighted graph built from the list with
/// every weight set to the scaled `1 / m`.
pub fn from_nonweight_edges(edges: &Vec<(usize, usize)>, m: usize) -> (r: WBigraph<usize, Prob>)
    requires
        1 <= m,
        edges_distinct(edges@),
    ensures
        crate::weightedbigraph::wbuilt_from(
            r,
            edges@.map_values(|e: (usize, usize)| (e, PROB_DENOM / (m as u64))),
        ),
        r.wf(),
        forall|k: int|
            0 <= k < r.nodes_edges@.len() ==> (#[trigger] r.nodes_edges@[k]).1 <= PROB_DENOM,
{
    let p: u64 = PROB_DENOM / (m as u64);
    let mut wedges: Vec<((usize, usize), u64)> = Vec::new();
    let mut t: usize = 0;
    while t < edges.len()
        invariant
            edges_distinct(edges@),
            t <= edges@.len(),
            wedges@.len() == t,
            forall|k: int| 0 <= k < t ==> #[trigger] wedges@[k] == (edges@[k], p),
        decreases edges@.len() - t,
    {
        wedges.push((edges[t], p));
        t += 1;
    }
    proof {
        assert forall|a: int, b: int|
            0 <= a < b < wedges@.len() implies (#[trigger] wedges@[a]).0 != (
        #[trigger] wedges@[b]).0 by {
            assert(wedges@[a] == (edges@[a], p));
            assert(wedges@[b] == (edges@[b], p));
            assert(edges@[a] != edges@[b]);
        }
    }
    let graph = WBigraph::from_edges(&wedges);
    proof {
        lemma_scaled_prob_in_range(m);
        assert(wedges@ =~= edges@.map_values(|e: (usize, usize)| (e, PROB_DENOM / (m as u64))));
        assert forall|k: int|
            0 <= k < graph.nodes_edges@.len() implies (#[trigger] graph.nodes_edges@[k]).1
            <= PROB_DENOM by {
            assert(graph.nodes_edges@[k] == wedges@[k]);
        }
    }
    graph
}

} // verus!
