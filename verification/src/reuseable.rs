//! Reusable-capacity dispatch: offline nodes are not consumed for good,
//! but become available again a fixed number of arrivals after a match.
//! Availability is a remaining-duration counter, decremented on every
//! dispatch; zero means available.

use crate::bigraph::Bigraph;
use crate::matching::lemma_wf_adjacency_bounds;
use crate::online::select_min_rank;
use crate::randomness::RandomSource;
use vstd::prelude::*;

verus! {

/// One arrival's worth of cooling: an occupied node moves one step
/// closer to serving again.
pub open spec fn ticked(c: usize) -> usize {
    if c > 0 {
        (c - 1) as usize
    } else {
        0
    }
}

/// The capability of a strategy over reusable offline nodes.  Unlike the
/// consumable case, a match does not bound the total by the offline node
/// count: every node can serve again once its duration has run out.
/// Availability is a remaining-duration counter per offline node: zero
/// means eligible; a match resets the chosen node's counter to the
/// configured duration; every counter then ticks down by one.
pub trait Algorithm: Sized {
    /// How many offline nodes the strategy serves.
    spec fn offline_len(&self) -> nat;

    /// How many arrivals have been matched so far.
    spec fn matched(&self) -> nat;

    /// The remaining occupancy of each offline node; zero means the node
    /// is eligible.
    spec fn counters(&self) -> Seq<usize>;

    /// The configured occupancy duration.
    spec fn reuse_duration(&self) -> usize;

    /// The strategy's internal invariant.
    spec fn wf(&self) -> bool;

    fn init(offline_size: usize, duration: usize, rng: &mut RandomSource) -> (s: Self)
        ensures
            s.wf(),
            s.offline_len() == offline_size as nat,
            s.matched() == 0,
            s.reuse_duration() == duration,
            s.counters().len() == s.offline_len(),
            forall|i: int| 0 <= i < s.counters().len() ==> #[trigger] s.counters()[i] == 0,
    ;

    fn dispatch(&mut self, online_adjacent: &Vec<usize>, rng: &mut RandomSource) -> (r: Option<
        usize,
    >)
        requires
            old(self).wf(),
            old(self).matched() < usize::MAX,
            forall|k: int|
                0 <= k < online_adjacent@.len() ==> ((#[trigger] online_adjacent@[k]) as nat)
                    < old(self).offline_len(),
        ensures
            final(self).wf(),
            final(self).offline_len() == old(self).offline_len(),
            final(self).reuse_duration() == old(self).reuse_duration(),
            final(self).counters().len() == old(self).counters().len(),
            old(self).counters().len() == old(self).offline_len(),
            final(self).matched() == old(self).matched() + (if r is Some {
                1nat
            } else {
                0nat
            }),
            match r {
                Some(j) => {
                    &&& (j as nat) < old(self).offline_len()
                    &&& online_adjacent@.contains(j)
                    &&& old(self).counters()[j as int] == 0
                    &&& final(self).counters()[j as int] == ticked(old(self).reuse_duration())
                    &&& forall|i: int|
                        0 <= i < old(self).counters().len() && i != j as int
                            ==> #[trigger] final(self).counters()[i] == ticked(
                            old(self).counters()[i],
                        )
                },
                None => {
                    &&& forall|k: int|
                        0 <= k < online_adjacent@.len() ==> old(self).counters()[(
                        #[trigger] online_adjacent@[k]) as int] != 0
                    &&& forall|i: int|
                        0 <= i < old(self).counters().len() ==> #[trigger] final(self).counters()[i]
                            == ticked(old(self).counters()[i])
                },
            },
    ;

    fn alg_output(self) -> (r: usize)
        requires
            self.wf(),
        ensures
            r == self.matched(),
    ;
}

/// A graph whose online side is revealed one node at a time, where a
/// matched offline node is occupied for `duration` arrivals and then
/// serves again.
pub struct OnlineAdversarialBigraph<Key> {
    pub bigraph: Bigraph<Key>,
    pub duration: usize,
}

impl<Key> Bigraph<Key> {
    /// Wraps the graph for online simulation with reusable offline
    /// nodes of the given duration.
    pub fn into_reuseable_online(self, duration: usize) -> (r: OnlineAdversarialBigraph<Key>)
        ensures
            r.bigraph == self,
            r.duration == duration,
    {
        OnlineAdversarialBigraph { bigraph: self, duration }
    }
}

/// A restartable cursor over the online side's adjacency rows.
pub struct OnlineAdversarialBigraphIter<'a> {
    pub online_adjacency_list: &'a Vec<Vec<usize>>,
    pub online_index: usize,
}

impl<'a> OnlineAdversarialBigraphIter<'a> {
    /// The next arrival's adjacency row, or `None` after the last one.
    pub fn next(&mut self) -> (r: Option<&'a Vec<usize>>)
        requires
            old(self).online_index <= old(self).online_adjacency_list@.len(),
        ensures
            final(self).online_adjacency_list == old(self).online_adjacency_list,
            match r {
                Some(row) => {
                    &&& (old(self).online_index as int) < old(self).online_adjacency_list@.len()
                    &&& row@ == old(self).online_adjacency_list@[old(self).online_index as int]@
                    &&& final(self).online_index == old(self).online_index + 1
                },
                None => {
                    &&& old(self).online_index == old(self).online_adjacency_list@.len()
                    &&& final(self).online_index == old(self).online_index
                },
            },
    {
        if self.online_index == self.online_adjacency_list.len() {
            None
        } else {
            let t = Some(&self.online_adjacency_list[self.online_index]);
            self.online_index += 1;
            t
        }
    }
}

impl<Key> OnlineAdversarialBigraph<Key> {
    /// A fresh arrival sequence over the online adjacency rows.
    pub fn iter<'a>(&'a self) -> (it: OnlineAdversarialBigraphIter<'a>)
        ensures
            it.online_adjacency_list@ == self.bigraph.v_adjacency_list@,
            it.online_index == 0,
    {
        OnlineAdversarialBigraphIter {
            online_adjacency_list: &self.bigraph.v_adjacency_list,
            online_index: 0,
        }
    }

    /// A placeholder offline bound: the count of online nodes.  With a
    /// duration shorter than the arrival count the true optimum can be
    /// larger; it is not computed here.
    #[allow(non_snake_case)]
    pub fn OPT(&self) -> (r: usize)
        ensures
            r == self.bigraph.v_nodes@.len(),
    {
        self.bigraph.v_nodes.len()
    }

    /// Runs one reusable-capacity strategy through every arrival and
    /// returns its realized match count, which never exceeds the number
    /// of arrivals.  A run over a graph whose first arrival has a
    /// neighbor matches at least once: every counter starts at zero, so
    /// the capability contract obliges the first dispatch to take one.
    #[allow(non_snake_case)]
    pub fn ALG<Alg: Algorithm>(&self, rng: &mut RandomSource) -> (r: usize)
        requires
            self.bigraph.wf(),
        ensures
            r <= self.bigraph.v_nodes@.len(),
            self.bigraph.v_adj().len() > 0 && self.bigraph.v_adj()[0].len() > 0 ==> r >= 1,
    {
        proof {
            lemma_wf_adjacency_bounds(self.bigraph);
        }
        let offline_size = self.bigraph.u_nodes.len();
        let mut alg = Alg::init(offline_size, self.duration, rng);
        let rounds = self.bigraph.v_adjacency_list.len();
        let mut i: usize = 0;
        while i < rounds
            invariant
                self.bigraph.wf(),
                rounds == self.bigraph.v_adj().len(),
                rounds <= usize::MAX,
                i <= rounds,
                alg.wf(),
                alg.offline_len() == self.bigraph.u_nodes@.len(),
                alg.matched() <= i,
                i == 0 ==> alg.counters().len() == alg.offline_len() && forall|t: int|
                    0 <= t < alg.counters().len() ==> #[trigger] alg.counters()[t] == 0,
                i >= 1 && self.bigraph.v_adj()[0].len() > 0 ==> alg.matched() >= 1,
            decreases rounds - i,
        {
            proof {
                lemma_wf_adjacency_bounds(self.bigraph);
                assert(self.bigraph.v_adj()[i as int] == self.bigraph.v_adjacency_list@[i as int]@);
            }
            let row = &self.bigraph.v_adjacency_list[i];
            let ghost pre = alg;
            let ghost at_start = i == 0;
            let _alg_choose = alg.dispatch(row, rng);
            proof {
                if at_start && row@.len() > 0 && _alg_choose is None {
                    assert(pre.counters()[row@[0] as int] != 0);
                }
            }
            i += 1;
        }
        alg.alg_output()
    }
}

/// Ranking over reusable offline nodes: a random permutation is drawn
/// once; each arrival takes the available neighbor of smallest rank,
/// which is then occupied for `duration` arrivals.
pub struct Ranking {
    pub offline_nodes_available: Vec<usize>,
    pub offline_nodes_rank: Vec<usize>,
    pub alg: usize,
    pub duration: usize,
}

impl Algorithm for Ranking {
    open spec fn offline_len(&self) -> nat {
        self.offline_nodes_available@.len()
    }

    open spec fn matched(&self) -> nat {
        self.alg as nat
    }

    open spec fn counters(&self) -> Seq<usize> {
        self.offline_nodes_available@
    }

    open spec fn reuse_duration(&self) -> usize {
        self.duration
    }

    open spec fn wf(&self) -> bool {
        &&& self.offline_nodes_rank@.len() == self.offline_nodes_available@.len()
        &&& self.offline_nodes_rank@.to_multiset() == crate::online::identity_ranks(
            self.offline_nodes_available@.len(),
        ).to_multiset()
    }

    fn init(offline_size: usize, duration: usize, rng: &mut RandomSource) -> (s: Self) {
        let mut vec: Vec<usize> = Vec::new();
        let mut offline_nodes_rank: Vec<usize> = Vec::new();
        let mut i: usize = 0;
        while i < offline_size
            invariant
                i <= offline_size,
                vec@.len() == i,
                offline_nodes_rank@.len() == i,
                forall|k: int| 0 <= k < i ==> #[trigger] vec@[k] == 0,
                forall|k: int| 0 <= k < i ==> (#[trigger] offline_nodes_rank@[k]) as int == k,
            decreases offline_size - i,
        {
            vec.push(0);
            offline_nodes_rank.push(i);
            i += 1;
        }
        proof {
            assert(offline_nodes_rank@ =~= crate::online::identity_ranks(offline_size as nat));
        }
        rng.shuffle(&mut offline_nodes_rank);
        proof {
            assert(offline_nodes_rank@.len() == offline_size as nat) by {
                offline_nodes_rank@.to_multiset_ensures();
            }
        }
        Ranking { offline_nodes_available: vec, offline_nodes_rank, alg: 0, duration }
    }

    fn dispatch(&mut self, online_adjacent: &Vec<usize>, rng: &mut RandomSource) -> (r: Option<
        usize,
    >)
        ensures
            final(self).offline_nodes_rank@ == old(self).offline_nodes_rank@,
            final(self).duration == old(self).duration,
            match r {
                Some(j) => forall|k: int|
                    0 <= k < online_adjacent@.len() && old(self).offline_nodes_available@[(
                    #[trigger] online_adjacent@[k]) as int] == 0 ==> old(self).offline_nodes_rank@[
                        j as int
                    ] <= old(self).offline_nodes_rank@[online_adjacent@[k] as int],
                None => true,
            },
    {
        let ghost entry = *self;
        let mut available_nodes: Vec<usize> = Vec::new();
        let mut t: usize = 0;
        while t < online_adjacent.len()
            invariant
                t <= online_adjacent@.len(),
                forall|k: int|
                    0 <= k < online_adjacent@.len() ==> ((#[trigger] online_adjacent@[k]) as nat)
                        < self.offline_nodes_available@.len(),
                forall|k: int|
                    0 <= k < available_nodes@.len() ==> online_adjacent@.contains(
                        #[trigger] available_nodes@[k],
                    ) && ((available_nodes@[k]) as nat) < self.offline_nodes_available@.len()
                        && self.offline_nodes_available@[available_nodes@[k] as int] == 0,
                available_nodes@.len() == 0 ==> forall|k: int|
                    0 <= k < t ==> self.offline_nodes_available@[(
                    #[trigger] online_adjacent@[k]) as int] != 0,
                forall|k: int|
                    0 <= k < t && self.offline_nodes_available@[(
                    #[trigger] online_adjacent@[k]) as int] == 0 ==> available_nodes@.contains(
                        online_adjacent@[k],
                    ),
            decreases online_adjacent@.len() - t,
        {
            let ghost prior_nodes = available_nodes@;
            let offline_node = online_adjacent[t];
            if self.offline_nodes_available[offline_node] == 0 {
                available_nodes.push(offline_node);
                proof {
                    assert(online_adjacent@.contains(online_adjacent@[t as int]));
                    assert forall|k: int|
                        0 <= k < t + 1 && self.offline_nodes_available@[(
                    #[trigger] online_adjacent@[k]) as int] == 0 implies available_nodes@.contains(
                        online_adjacent@[k],
                    ) by {
                        if k == t as int {
                            assert(available_nodes@.last() == offline_node);
                        } else {
                            let p = choose|p: int|
                                0 <= p < prior_nodes.len() && prior_nodes[p] == online_adjacent@[k];
                            assert(available_nodes@[p] == online_adjacent@[k]);
                        }
                    }
                }
            }
            t += 1;
        }
        let ans: Option<usize>;
        if available_nodes.len() == 0 {
            ans = None;
        } else {
            let choice = select_min_rank(&available_nodes, &self.offline_nodes_rank);
            let node = available_nodes[choice];
            proof {
                assert forall|k: int|
                    0 <= k < online_adjacent@.len() && self.offline_nodes_available@[(
                #[trigger] online_adjacent@[k]) as int] == 0 implies self.offline_nodes_rank@[
                    node as int
                ] <= self.offline_nodes_rank@[online_adjacent@[k] as int] by {
                    let e = online_adjacent@[k];
                    assert(available_nodes@.contains(e));
                    let p = choose|p: int|
                        0 <= p < available_nodes@.len() && available_nodes@[p] == e;
                    assert(self.offline_nodes_rank@[available_nodes@[choice as int] as int]
                        <= self.offline_nodes_rank@[available_nodes@[p] as int]);
                }
            }
            self.alg = self.alg + 1;
            self.offline_nodes_available.set(node, self.duration);
            ans = Some(node);
        }
        // Every occupied node moves one arrival closer to serving again;
        // a freshly matched node starts cooling immediately.
        let ghost mid = self.offline_nodes_available@;
        let ghost alg_now = self.alg;
        let n = self.offline_nodes_available.len();
        let mut i: usize = 0;
        while i < n
            invariant
                i <= n,
                n == self.offline_nodes_available@.len(),
                mid.len() == n,
                self.offline_nodes_rank@ == entry.offline_nodes_rank@,
                self.offline_nodes_rank@.len() == n,
                self.duration == entry.duration,
                self.alg == alg_now,
                forall|i2: int|
                    0 <= i2 < i ==> #[trigger] self.offline_nodes_available@[i2] == ticked(
                        mid[i2],
                    ),
                forall|i2: int|
                    i <= i2 < n ==> #[trigger] self.offline_nodes_available@[i2] == mid[i2],
            decreases n - i,
        {
            let c = self.offline_nodes_available[i];
            if c != 0 {
                self.offline_nodes_available.set(i, c - 1);
            }
            i += 1;
        }
        ans
    }

    fn alg_output(self) -> (r: usize) {
        self.alg
    }
}

/// The staircase instance with reusable offline nodes: online node `v`
/// is joined to every offline node `u` with `u >= v`, and a match
/// occupies its node for `d` arrivals.  The instance shape is exported
/// as for the consumable staircase.
pub fn z_graph_with_duration(n: usize, d: usize) -> (r: OnlineAdversarialBigraph<usize>)
    ensures
        r.bigraph.wf(),
        r.duration == d,
        r.bigraph.u_nodes@ == crate::adwords::index_keys(n as int),
        r.bigraph.v_nodes@ == crate::adwords::index_keys(n as int),
        2 * r.bigraph.nodes_edges@.len() == (n as int) * ((n as int) + 1),
        forall|k: int|
            0 <= k < r.bigraph.nodes_edges@.len() ==> ((
            #[trigger] r.bigraph.nodes_edges@[k]).1 as int) <= ((
            r.bigraph.nodes_edges@[k]).0 as int) && ((r.bigraph.nodes_edges@[k]).0 as int) < n,
{
    let edges = crate::online::staircase_edges(n);
    Bigraph::from_edges(&edges).into_reuseable_online(d)
}

} // verus!