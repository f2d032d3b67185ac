//! Budgeted dispatch: the adversarial online view of a weighted graph,
//! the capability interface for budgeted strategies, and the greedy
//! strategy, which always takes the largest bid among the available
//! offline nodes.

use crate::randomness::RandomSource;
use crate::util::available_wfilter;
use crate::util::get_available_offline_nodes_in_weighted_onlineadj;
use crate::util::lemma_available_wfilter_entries;
use crate::weightedbigraph::lemma_wwf_adjacency_bounds;
use crate::weightedbigraph::WBigraph;
use vstd::prelude::*;

verus! {

/// The sum of a sequence of loads or budgets, as an unbounded integer.
pub open spec fn sum_of(s: Seq<u64>) -> int
    decreases s.len(),
{
    if s.len() == 0 {
        0
    } else {
        sum_of(s.drop_last()) + s.last()
    }
}

/// A sum of 64-bit values is bounded by the count times the largest value.
pub proof fn lemma_sum_of_bound(s: Seq<u64>)
    ensures
        0 <= sum_of(s) <= s.len() * 0xffff_ffff_ffff_ffff,
    decreases s.len(),
{
    if s.len() > 0 {
        lemma_sum_of_bound(s.drop_last());
        assert((s.len() - 1) * 0xffff_ffff_ffff_ffff + 0xffff_ffff_ffff_ffff == s.len()
            * 0xffff_ffff_ffff_ffff) by (nonlinear_arith);
    }
}

/// Every entry is at most the whole sum.
pub proof fn lemma_sum_of_entry_le(s: Seq<u64>, j: int)
    requires
        0 <= j < s.len(),
    ensures
        s[j] <= sum_of(s),
    decreases s.len(),
{
    lemma_sum_of_bound(s.drop_last());
    if j == s.len() - 1 {
        assert(s.last() == s[j]);
    } else {
        assert(s.drop_last()[j] == s[j]);
        lemma_sum_of_entry_le(s.drop_last(), j);
    }
}

/// A pointwise bound on the entries gives a bound on the sums.
pub proof fn lemma_sum_of_pointwise_le(a: Seq<u64>, b: Seq<u64>)
    requires
        a.len() == b.len(),
        forall|i: int| 0 <= i < a.len() ==> a[i] <= b[i],
    ensures
        sum_of(a) <= sum_of(b),
    decreases a.len(),
{
    if a.len() > 0 {
        assert(forall|i: int| 0 <= i < a.len() - 1 ==> a.drop_last()[i] == a[i]);
        assert(forall|i: int| 0 <= i < b.len() - 1 ==> b.drop_last()[i] == b[i]);
        lemma_sum_of_pointwise_le(a.drop_last(), b.drop_last());
        assert(a.last() == a[a.len() - 1] && b.last() == b[b.len() - 1]);
    }
}

/// The capability every budgeted online strategy implements: each offline
/// node absorbs load up to its budget, a dispatch adds load to at most
/// one offline node, and the output is the total realized load.
pub trait OnlineAlgorithm: Sized {
    /// The per-node budgets the strategy was initialized with.
    spec fn budgets(&self) -> Seq<u64>;

    /// The load each offline node has absorbed so far.
    spec fn loads(&self) -> Seq<u64>;

    /// Whether offline node `i` still accepts bids.
    spec fn available(&self, i: int) -> bool;

    /// The strategy's internal invariant; it includes that no load
    /// exceeds its budget.
    spec fn wf(&self) -> bool;

    proof fn wf_implies_loads_bounded(&self)
        requires
            self.wf(),
        ensures
            self.loads().len() == self.budgets().len(),
            forall|i: int| 0 <= i < self.loads().len() ==> #[trigger] self.loads()[i]
                <= self.budgets()[i],
    ;

    fn init(offline_info: Vec<u64>, rng: &mut RandomSource) -> (s: Self)
        ensures
            s.wf(),
            s.budgets() == offline_info@,
            s.loads().len() == offline_info@.len(),
            forall|i: int| 0 <= i < s.loads().len() ==> #[trigger] s.loads()[i] == 0,
            forall|i: int| 0 <= i < s.budgets().len() ==> s.available(i),
    ;

    fn dispatch(&mut self, online_adjacent: &Vec<(usize, u64)>, rng: &mut RandomSource) -> (r:
        Option<usize>)
        requires
            old(self).wf(),
            forall|k: int|
                0 <= k < online_adjacent@.len() ==> ((#[trigger] online_adjacent@[k]).0 as int)
                    < old(self).budgets().len(),
        ensures
            final(self).wf(),
            final(self).budgets() == old(self).budgets(),
            final(self).loads().len() == old(self).loads().len(),
            forall|j: int|
                0 <= j < old(self).budgets().len() && !old(self).available(j)
                    ==> !final(self).available(j),
            match r {
                Some(i) => {
                    &&& (i as int) < old(self).budgets().len()
                    &&& old(self).available(i as int)
                    &&& forall|j: int|
                        0 <= j < old(self).loads().len() && j != i as int
                            ==> #[trigger] final(self).loads()[j] == old(self).loads()[j]
                    &&& forall|j: int|
                        0 <= j < old(self).budgets().len() && j != i as int ==> final(self).available(
                            j,
                        ) == old(self).available(j)
                    &&& (final(self).available(i as int) <==> final(self).loads()[i as int]
                        < final(self).budgets()[i as int])
                    &&& exists|k: int|
                        {
                            &&& 0 <= k < online_adjacent@.len()
                            &&& (#[trigger] online_adjacent@[k]).0 == i
                            &&& final(self).loads()[i as int] == (if old(self).loads()[i as int]
                                + online_adjacent@[k].1 >= old(self).budgets()[i as int] {
                                old(self).budgets()[i as int]
                            } else {
                                (old(self).loads()[i as int] + online_adjacent@[k].1) as u64
                            })
                        }
                },
                None => {
                    &&& final(self).loads() == old(self).loads()
                    &&& forall|k: int|
                        0 <= k < online_adjacent@.len() ==> !old(self).available(
                            ((#[trigger] online_adjacent@[k]).0) as int,
                        )
                    &&& forall|j: int|
                        0 <= j < old(self).budgets().len() ==> final(self).available(j) == old(
                            self,
                        ).available(j)
                },
            },
    ;

    fn alg_output(self) -> (r: u128)
        requires
            self.wf(),
        ensures
            r == sum_of(self.loads()),
    ;
}

/// A weighted graph whose online side is revealed one node at a time,
/// together with the budget of every offline node.
pub struct OnlineAdversarialWBigraph<Key, Weight> {
    pub online_budget: Vec<Weight>,
    pub weighted_bigraph: WBigraph<Key, Weight>,
}

impl<Key, Weight> WBigraph<Key, Weight> {
    /// Wraps the graph for budgeted online simulation.  A budget vector
    /// whose length differs from the offline node count is a
    /// precondition violation.
    pub fn into_online(self, budget: Vec<Weight>) -> (r: OnlineAdversarialWBigraph<Key, Weight>)
        requires
            budget@.len() == self.u_nodes@.len(),
        ensures
            r.weighted_bigraph == self,
            r.online_budget == budget,
    {
        OnlineAdversarialWBigraph { online_budget: budget, weighted_bigraph: self }
    }
}

/// A restartable cursor over the weighted online adjacency rows.
pub struct OnlineAdversarialWBigraphIter<'a, Weight> {
    pub online_adjacency_list: &'a Vec<Vec<(usize, Weight)>>,
    pub online_index: usize,
}

impl<'a, Weight> OnlineAdversarialWBigraphIter<'a, Weight> {
    /// The next arrival's weighted adjacency row, or `None` after the
    /// last one.
    pub fn next(&mut self) -> (r: Option<&'a Vec<(usize, Weight)>>)
        requires
            old(self).online_index <= old(self).online_adjacency_list@.len(),
        ensures
            final(self).online_adjacency_list == old(self).online_adjacency_list,
            match r {
                Some(row) => {
                    &&& (old(self).online_index as int) < old(self).online_adjacency_list@.len()
                    &&& row@ == old(self).online_adjacency_list@[old(self).online_index as int]@
                    &&& final(self).online_index == old(self).online_index + 1
                },
                None => {
                    &&& old(self).online_index == old(self).online_adjacency_list@.len()
                    &&& final(self).online_index == old(self).online_index
                },
            },
    {
        if self.online_index == self.online_adjacency_list.len() {
            None
        } else {
            let t = Some(&self.online_adjacency_list[self.online_index]);
            self.online_index += 1;
            t
        }
    }
}

impl<Key, Weight: Clone> OnlineAdversarialWBigraph<Key, Weight> {
    /// A fresh arrival sequence over the weighted online adjacency rows.
    pub fn iter<'a>(&'a self) -> (it: OnlineAdversarialWBigraphIter<'a, Weight>)
        ensures
            it.online_adjacency_list@ == self.weighted_bigraph.v_adjacency_list@,
            it.online_index == 0,
    {
        OnlineAdversarialWBigraphIter {
            online_adjacency_list: &self.weighted_bigraph.v_adjacency_list,
            online_index: 0,
        }
    }
}

impl<Key> OnlineAdversarialWBigraph<Key, u64> {
    /// The offline bound on realized load: the total budget.  No
    /// dispatch strategy can absorb more — `ALG` ensures its result is
    /// at most this sum.
    #[allow(non_snake_case)]
    pub fn OPT(&self) -> (r: u128)
        ensures
            r == sum_of(self.online_budget@),
    {
        total_of(&self.online_budget)
    }

    /// Runs one budgeted strategy through every arrival and returns its
    /// realized load, which never exceeds the total budget.  A run whose
    /// first arrival offers only positive bids to positively budgeted
    /// nodes realizes at least one unit: the first dispatch meets only
    /// available nodes, and the capability contract obliges it to absorb
    /// one of the bids.
    #[allow(non_snake_case)]
    pub fn ALG<Alg: OnlineAlgorithm>(&self, rng: &mut RandomSource) -> (r: u128)
        requires
            self.weighted_bigraph.wf(),
            self.online_budget@.len() == self.weighted_bigraph.u_nodes@.len(),
        ensures
            r <= sum_of(self.online_budget@),
            self.weighted_bigraph.v_adj().len() > 0 && self.weighted_bigraph.v_adj()[0].len() > 0
                && (forall|k: int|
                0 <= k < self.weighted_bigraph.v_adj()[0].len() ==> (
                #[trigger] self.weighted_bigraph.v_adj()[0][k]).1 >= 1 && self.online_budget@[(
                self.weighted_bigraph.v_adj()[0][k]).0 as int] >= 1) ==> r >= 1,
    {
        proof {
            lemma_wwf_adjacency_bounds(self.weighted_bigraph);
        }
        let budgets = clone_budgets(&self.online_budget);
        let mut alg = Alg::init(budgets, rng);
        let rounds = self.weighted_bigraph.v_adjacency_list.len();
        let mut i: usize = 0;
        while i < rounds
            invariant
                self.weighted_bigraph.wf(),
                rounds == self.weighted_bigraph.v_adj().len(),
                i <= rounds,
                alg.wf(),
                alg.budgets() == self.online_budget@,
                self.online_budget@.len() == self.weighted_bigraph.u_nodes@.len(),
                alg.loads().len() == self.online_budget@.len(),
                i == 0 ==> forall|t: int| 0 <= t < alg.budgets().len() ==> alg.available(t),
                i == 0 ==> forall|t: int| 0 <= t < alg.loads().len() ==> #[trigger] alg.loads()[t]
                    == 0,
                i >= 1 && self.weighted_bigraph.v_adj()[0].len() > 0 && (forall|k: int|
                    0 <= k < self.weighted_bigraph.v_adj()[0].len() ==> (
                    #[trigger] self.weighted_bigraph.v_adj()[0][k]).1 >= 1 && self.online_budget@[(
                    self.weighted_bigraph.v_adj()[0][k]).0 as int] >= 1) ==> exists|j: int|
                    0 <= j < alg.loads().len() && #[trigger] alg.loads()[j] >= 1,
            decreases rounds - i,
        {
            proof {
                lemma_wwf_adjacency_bounds(self.weighted_bigraph);
                assert(self.weighted_bigraph.v_adj()[i as int]
                    == self.weighted_bigraph.v_adjacency_list@[i as int]@);
            }
            let row = &self.weighted_bigraph.v_adjacency_list[i];
            proof {
                assert forall|k: int|
                    0 <= k < row@.len() implies ((#[trigger] row@[k]).0 as int) < alg.budgets().len() by {
                    assert(row@[k] == self.weighted_bigraph.v_adj()[i as int][k]);
                }
            }
            let ghost pre = alg;
            let ghost at_start = i == 0;
            let _alg_choose = alg.dispatch(row, rng);
            proof {
                pre.wf_implies_loads_bounded();
                if at_start && row@.len() > 0 && (forall|k: int|
                    0 <= k < row@.len() ==> (#[trigger] row@[k]).1 >= 1 && self.online_budget@[(
                    row@[k]).0 as int] >= 1) {
                    if _alg_choose is None {
                        assert(!pre.available(row@[0].0 as int));
                    } else {
                        let i0 = _alg_choose->0;
                        let w = choose|k: int|
                            {
                                &&& 0 <= k < row@.len()
                                &&& (#[trigger] row@[k]).0 == i0
                                &&& alg.loads()[i0 as int] == (if pre.loads()[i0 as int] + row@[
                                    k
                                ].1 >= pre.budgets()[i0 as int] {
                                    pre.budgets()[i0 as int]
                                } else {
                                    (pre.loads()[i0 as int] + row@[k].1) as u64
                                })
                            };
                        assert(row@[w].1 >= 1 && self.online_budget@[row@[w].0 as int] >= 1);
                        assert(alg.loads()[i0 as int] >= 1);
                    }
                } else if !at_start && self.weighted_bigraph.v_adj()[0].len() > 0 && (forall|
                    k: int,
                |
                    0 <= k < self.weighted_bigraph.v_adj()[0].len() ==> (
                    #[trigger] self.weighted_bigraph.v_adj()[0][k]).1 >= 1 && self.online_budget@[(
                    self.weighted_bigraph.v_adj()[0][k]).0 as int] >= 1) {
                    let j = choose|j: int|
                        0 <= j < pre.loads().len() && #[trigger] pre.loads()[j] >= 1;
                    if _alg_choose is Some && _alg_choose->0 as int == j {
                        let i0 = _alg_choose->0;
                        let w = choose|k: int|
                            {
                                &&& 0 <= k < row@.len()
                                &&& (#[trigger] row@[k]).0 == i0
                                &&& alg.loads()[i0 as int] == (if pre.loads()[i0 as int] + row@[
                                    k
                                ].1 >= pre.budgets()[i0 as int] {
                                    pre.budgets()[i0 as int]
                                } else {
                                    (pre.loads()[i0 as int] + row@[k].1) as u64
                                })
                            };
                        assert(pre.loads()[j] <= pre.budgets()[j]);
                        assert(alg.loads()[j] >= 1);
                    } else {
                        assert(alg.loads()[j] == pre.loads()[j]);
                    }
                }
            }
            i += 1;
        }
        proof {
            alg.wf_implies_loads_bounded();
            lemma_sum_of_pointwise_le(alg.loads(), self.online_budget@);
            if self.weighted_bigraph.v_adj().len() > 0 && self.weighted_bigraph.v_adj()[0].len()
                > 0 && (forall|k: int|
                0 <= k < self.weighted_bigraph.v_adj()[0].len() ==> (
                #[trigger] self.weighted_bigraph.v_adj()[0][k]).1 >= 1 && self.online_budget@[(
                self.weighted_bigraph.v_adj()[0][k]).0 as int] >= 1) {
                let j = choose|j: int| 0 <= j < alg.loads().len() && #[trigger] alg.loads()[j] >= 1;
                lemma_sum_of_entry_le(alg.loads(), j);
            }
        }
        alg.alg_output()
    }
}

/// Sums a load or budget vector exactly, without overflow.
fn total_of(xs: &Vec<u64>) -> (r: u128)
    ensures
        r == sum_of(xs@),
{
    let l = xs.len();
    let mut ans: u128 = 0;
    let mut i: usize = 0;
    proof {
        assert(xs@.subrange(0, 0) =~= Seq::<u64>::empty());
    }
    while i < l
        invariant
            l == xs@.len(),
            i <= l,
            ans == sum_of(xs@.subrange(0, i as int)),
        decreases l - i,
    {
        proof {
            let prefix = xs@.subrange(0, i as int);
            let prefix1 = xs@.subrange(0, i + 1);
            assert(prefix1.drop_last() =~= prefix);
            assert(prefix1.last() == xs@[i as int]);
            lemma_sum_of_bound(prefix);
            assert(ans + xs@[i as int] <= u128::MAX) by (nonlinear_arith)
                requires
                    ans <= (i as int) * 0xffff_ffff_ffff_ffff,
                    xs@[i as int] <= 0xffff_ffff_ffff_ffff,
                    i < l,
                    l <= usize::MAX,
            ;
        }
        ans = ans + xs[i] as u128;
        i += 1;
    }
    proof {
        assert(xs@.subrange(0, l as int) =~= xs@);
    }
    ans
}

/// Copies a budget vector so that the strategy owns its own.
fn clone_budgets(budget: &Vec<u64>) -> (r: Vec<u64>)
    ensures
        r@ == budget@,
{
    let mut r: Vec<u64> = Vec::new();
    let mut i: usize = 0;
    while i < budget.len()
        invariant
            i <= budget@.len(),
            r@ == budget@.subrange(0, i as int),
        decreases budget@.len() - i,
    {
        proof {
            assert(budget@.subrange(0, i + 1) =~= budget@.subrange(0, i as int).push(
                budget@[i as int],
            ));
        }
        r.push(budget[i]);
        i += 1;
    }
    proof {
        assert(budget@.subrange(0, budget@.len() as int) =~= budget@);
    }
    r
}

/// Finds the entry of `candidates` whose bid is largest, taking the
/// first maximal entry in stored order.
fn select_max_bid(candidates: &Vec<(usize, u64)>) -> (r: usize)
    requires
        candidates@.len() >= 1,
    ensures
        (r as int) < candidates@.len(),
        forall|k: int|
            0 <= k < candidates@.len() ==> (#[trigger] candidates@[k]).1 <= candidates@[
                r as int
            ].1,
        forall|k: int| 0 <= k < r ==> (#[trigger] candidates@[k]).1 < candidates@[r as int].1,
{
    let mut best: usize = 0;
    let mut k: usize = 1;
    while k < candidates.len()
        invariant
            candidates@.len() >= 1,
            (best as int) < k,
            k <= candidates@.len(),
            forall|k2: int|
                0 <= k2 < k ==> (#[trigger] candidates@[k2]).1 <= candidates@[best as int].1,
            forall|k2: int|
                0 <= k2 < best ==> (#[trigger] candidates@[k2]).1 < candidates@[best as int].1,
        decreases candidates@.len() - k,
    {
        if candidates[k].1 > candidates[best].1 {
            best = k;
        }
        k += 1;
    }
    best
}

/// Greedy budgeted dispatch: each arrival is assigned to the available
/// offline node with the largest bid; the node's load grows by the bid,
/// clamped to its budget, and a full node is deactivated.
#[derive(Debug)]
pub struct Greddy {
    pub offline_nodes_budgets: Vec<u64>,
    pub offline_nodes_available: Vec<bool>,
    pub offline_nodes_loads: Vec<u64>,
}

impl OnlineAlgorithm for Greddy {
    open spec fn budgets(&self) -> Seq<u64> {
        self.offline_nodes_budgets@
    }

    open spec fn loads(&self) -> Seq<u64> {
        self.offline_nodes_loads@
    }

    open spec fn available(&self, i: int) -> bool {
        self.offline_nodes_available@[i]
    }

    open spec fn wf(&self) -> bool {
        &&& self.offline_nodes_loads@.len() == self.offline_nodes_budgets@.len()
        &&& self.offline_nodes_available@.len() == self.offline_nodes_budgets@.len()
        &&& forall|i: int|
            0 <= i < self.offline_nodes_loads@.len() ==> #[trigger] self.offline_nodes_loads@[i]
                <= self.offline_nodes_budgets@[i]
        &&& forall|i: int|
            0 <= i < self.offline_nodes_loads@.len() && !self.offline_nodes_available@[i]
                ==> #[trigger] self.offline_nodes_loads@[i] == self.offline_nodes_budgets@[i]
    }

    proof fn wf_implies_loads_bounded(&self) {
    }

    fn init(offline_info: Vec<u64>, rng: &mut RandomSource) -> (s: Self)
        ensures
            s.wf(),
            s.budgets() == offline_info@,
            s.loads().len() == offline_info@.len(),
            forall|i: int| 0 <= i < s.loads().len() ==> #[trigger] s.loads()[i] == 0,
    {
        let l = offline_info.len();
        let mut offline_nodes_loads: Vec<u64> = Vec::new();
        let mut offline_nodes_available: Vec<bool> = Vec::new();
        let mut i: usize = 0;
        while i < l
            invariant
                i <= l,
                offline_nodes_loads@.len() == i,
                offline_nodes_available@.len() == i,
                forall|k: int| 0 <= k < i ==> #[trigger] offline_nodes_loads@[k] == 0,
                forall|k: int| 0 <= k < i ==> #[trigger] offline_nodes_available@[k],
            decreases l - i,
        {
            offline_nodes_loads.push(0);
            offline_nodes_available.push(true);
            i += 1;
        }
        Greddy { offline_nodes_budgets: offline_info, offline_nodes_available, offline_nodes_loads }
    }

    fn dispatch(&mut self, online_adjacent: &Vec<(usize, u64)>, rng: &mut RandomSource) -> (r:
        Option<usize>)
        ensures
            match r {
                Some(i) => {
                    &&& exists|k: int|
                        {
                            &&& 0 <= k < online_adjacent@.len()
                            &&& (#[trigger] online_adjacent@[k]).0 == i
                            &&& forall|k2: int|
                                0 <= k2 < online_adjacent@.len() && old(self).available(
                                    (#[trigger] online_adjacent@[k2]).0 as int,
                                ) ==> online_adjacent@[k2].1 <= online_adjacent@[k].1
                        }
                    &&& exists|c: int|
                        {
                            &&& 0 <= c < available_wfilter(
                                online_adjacent@,
                                old(self).offline_nodes_available@,
                            ).len()
                            &&& (#[trigger] available_wfilter(
                                online_adjacent@,
                                old(self).offline_nodes_available@,
                            )[c]).0 == i
                            &&& forall|k2: int|
                                0 <= k2 < available_wfilter(
                                    online_adjacent@,
                                    old(self).offline_nodes_available@,
                                ).len() ==> (#[trigger] available_wfilter(
                                    online_adjacent@,
                                    old(self).offline_nodes_available@,
                                )[k2]).1 <= available_wfilter(
                                    online_adjacent@,
                                    old(self).offline_nodes_available@,
                                )[c].1
                            &&& forall|k2: int|
                                0 <= k2 < c ==> (#[trigger] available_wfilter(
                                    online_adjacent@,
                                    old(self).offline_nodes_available@,
                                )[k2]).1 < available_wfilter(
                                    online_adjacent@,
                                    old(self).offline_nodes_available@,
                                )[c].1
                        }
                },
                None => true,
            },
    {
        let available_offline_nodes = get_available_offline_nodes_in_weighted_onlineadj(
            &self.offline_nodes_available,
            online_adjacent,
        );
        if available_offline_nodes.len() == 0 {
            proof {
                crate::util::lemma_available_wfilter_empty(
                    online_adjacent@,
                    self.offline_nodes_available@,
                );
            }
            None
        } else {
            proof {
                lemma_available_wfilter_entries(online_adjacent@, self.offline_nodes_available@);
            }
            let choice = select_max_bid(&available_offline_nodes);
            let node = available_offline_nodes[choice];
            let i = node.0;
            let bid = node.1;
            proof {
                assert(online_adjacent@.contains(node));
                let k = choose|k: int|
                    0 <= k < online_adjacent@.len() && online_adjacent@[k] == node;
                assert(online_adjacent@[k].0 == i && online_adjacent@[k].1 == bid);
                crate::util::lemma_available_wfilter_complete(
                    online_adjacent@,
                    self.offline_nodes_available@,
                );
                assert forall|k2: int|
                    0 <= k2 < online_adjacent@.len() && self.offline_nodes_available@[(
                #[trigger] online_adjacent@[k2]).0 as int] implies online_adjacent@[k2].1
                    <= bid by {
                    let e = online_adjacent@[k2];
                    assert(available_offline_nodes@.contains(e));
                    let p = choose|p: int|
                        0 <= p < available_offline_nodes@.len() && available_offline_nodes@[p]
                            == e;
                    assert(available_offline_nodes@[p].1 <= available_offline_nodes@[
                        choice as int
                    ].1);
                }
            }
            let budget = self.offline_nodes_budgets[i];
            let load = self.offline_nodes_loads[i];
            let grown: u128 = load as u128 + bid as u128;
            if grown >= budget as u128 {
                self.offline_nodes_loads.set(i, budget);
                self.offline_nodes_available.set(i, false);
            } else {
                self.offline_nodes_loads.set(i, grown as u64);
            }
            Some(i)
        }
    }

    fn alg_output(self) -> (r: u128) {
        total_of(&self.offline_nodes_loads)
    }
}

/// The offline keys `0, 1, ..., n - 1` in order.
pub open spec fn index_keys(n: int) -> Seq<usize> {
    Seq::new(n as nat, |i: int| i as usize)
}

/// Every value below the bound is an ordered key.
pub proof fn lemma_index_keys_has(c: usize, x: usize)
    requires
        x < c,
    ensures
        index_keys(c as int).contains(x),
{
    assert(index_keys(c as int)[x as int] == x);
}

/// The ordered keys grow by their own count, which they never already
/// hold.
pub proof fn lemma_index_keys_grow(c: usize)
    requires
        c < usize::MAX,
    ensures
        !index_keys(c as int).contains(c),
        index_keys(c as int).push(c) == index_keys(c as int + 1),
{
    assert(!index_keys(c as int).contains(c)) by {
        if index_keys(c as int).contains(c) {
            let w = choose|i: int| 0 <= i < c && index_keys(c as int)[i] == c;
            assert(index_keys(c as int)[w] == w as usize);
        }
    }
    assert(index_keys(c as int).push(c) =~= index_keys(c as int + 1));
}

/// Builds the block-growth edge list: offline node `u` joined, at weight
/// `w`, to the first `(u + 1) * m` online nodes.  The whole shape is
/// exported: keys appear in index order on both sides, the count is the
/// triangular sum, and membership is pinned.
pub(crate) fn block_growth_edges(n: usize, m: usize, w: u64) -> (r: Vec<((usize, usize), u64)>)
    requires
        m >= 1,
        (n as int) * (m as int) <= usize::MAX,
    ensures
        crate::weightedbigraph::wedges_distinct(r@),
        crate::bigraph::firsts(crate::weightedbigraph::wlefts(r@)) == index_keys(n as int),
        crate::bigraph::firsts(crate::weightedbigraph::wrights(r@)) == index_keys(
            (n as int) * (m as int),
        ),
        2 * r@.len() == (m as int) * (n as int) * ((n as int) + 1),
        forall|k: int|
            0 <= k < r@.len() ==> (#[trigger] r@[k]).1 == w && ((r@[k]).0.0 as int) < n && ((
            r@[k]).0.1 as int) < (((r@[k]).0.0 as int) + 1) * (m as int),
{
    let mut edges: Vec<((usize, usize), u64)> = Vec::new();
    let mut u: usize = 0;
    proof {
        assert(crate::weightedbigraph::wlefts(edges@) =~= Seq::<usize>::empty());
        assert(crate::weightedbigraph::wrights(edges@) =~= Seq::<usize>::empty());
        assert(crate::bigraph::firsts(crate::weightedbigraph::wlefts(edges@)) =~= index_keys(0));
        assert(crate::bigraph::firsts(crate::weightedbigraph::wrights(edges@)) =~= index_keys(0));
    }
    while u < n
        invariant
            m >= 1,
            (n as int) * (m as int) <= usize::MAX,
            u <= n,
            crate::bigraph::firsts(crate::weightedbigraph::wlefts(edges@)) == index_keys(u as int),
            crate::bigraph::firsts(crate::weightedbigraph::wrights(edges@)) == index_keys(
                (u as int) * (m as int),
            ),
            2 * edges@.len() == (m as int) * (u as int) * ((u as int) + 1),
            forall|k: int|
                0 <= k < edges@.len() ==> (#[trigger] edges@[k]).1 == w && ((edges@[k]).0.0 as int)
                    < u && ((edges@[k]).0.1 as int) < (((edges@[k]).0.0 as int) + 1) * (m as int),
            forall|a: int, b: int|
                0 <= a < b < edges@.len() ==> (#[trigger] edges@[a]).0 != (#[trigger] edges@[b]).0,
        decreases n - u,
    {
        proof {
            assert((u + 1) * (m as int) <= (n as int) * (m as int) && 1 <= (u + 1) * (m as int)
                && (u as int) * (m as int) < (u + 1) * (m as int)) by (nonlinear_arith)
                requires
                    u < n,
                    m >= 1,
            ;
        }
        let limit: usize = (u + 1) * m;
        let mut v: usize = 0;
        while v < limit
            invariant
                m >= 1,
                u < n,
                v <= limit,
                limit == (u + 1) * (m as int),
                (n as int) * (m as int) <= usize::MAX,
                limit <= (n as int) * (m as int),
                (u as int) * (m as int) < limit,
                crate::bigraph::firsts(crate::weightedbigraph::wlefts(edges@)) == (if v == 0 {
                    index_keys(u as int)
                } else {
                    index_keys(u as int + 1)
                }),
                crate::bigraph::firsts(crate::weightedbigraph::wrights(edges@)) == (if (v as int)
                    <= (u as int) * (m as int) {
                    index_keys((u as int) * (m as int))
                } else {
                    index_keys(v as int)
                }),
                2 * edges@.len() == (m as int) * (u as int) * ((u as int) + 1) + 2 * (v as int),
                forall|k: int|
                    0 <= k < edges@.len() ==> (#[trigger] edges@[k]).1 == w && (((edges@[
                        k
                    ]).0.0 as int) < u || ((edges@[k]).0.0 as int) == u && ((edges@[k]).0.1 as int)
                        < v) && ((edges@[k]).0.1 as int) < (((edges@[k]).0.0 as int) + 1) * (
                    m as int),
                forall|a: int, b: int|
                0 <= a < b < edges@.len() ==> (#[trigger] edges@[a]).0 != (#[trigger] edges@[b]).0,
            decreases limit - v,
        {
            let ghost lefts_pre = crate::weightedbigraph::wlefts(edges@);
            let ghost rights_pre = crate::weightedbigraph::wrights(edges@);
            edges.push(((u, v), w));
            proof {
                let newk = edges@.len() - 1;
                assert(edges@[newk] == ((u, v), w));
                assert(crate::weightedbigraph::wlefts(edges@) =~= lefts_pre.push(u));
                assert(crate::weightedbigraph::wrights(edges@) =~= rights_pre.push(v));
                crate::bigraph::lemma_firsts_push(lefts_pre, u);
                crate::bigraph::lemma_firsts_push(rights_pre, v);
                if v == 0 {
                    lemma_index_keys_grow(u);
                } else {
                    lemma_index_keys_has(((u as int) + 1) as usize, u);
                }
                if (v as int) < (u as int) * (m as int) {
                    lemma_index_keys_has(((u as int) * (m as int)) as usize, v);
                } else {
                    lemma_index_keys_grow(v);
                    if (v as int) == (u as int) * (m as int) {
                        assert(crate::bigraph::firsts(rights_pre) == index_keys(v as int));
                    }
                }
            }
            v += 1;
        }
        proof {
            assert((m as int) * (u as int) * ((u as int) + 1) + 2 * ((u + 1) * (m as int)) == (
            m as int) * ((u as int) + 1) * ((u as int) + 2)) by (nonlinear_arith);
        }
        u += 1;
    }
    edges
}

/// The thick triangle instance: offline node `u` has an edge of weight 1
/// to the first `(u + 1) * m` online nodes, and every offline budget is
/// `m`.  The instance shape is exported: `n` offline nodes and
/// `n * m` online nodes in index order, `m * n * (n + 1) / 2` unit
/// weight edges, and the budget vector `[m; n]`.
pub fn thick_triangle_case(m: usize, n: usize) -> (r: OnlineAdversarialWBigraph<usize, u64>)
    requires
        m >= 1,
        (n as int) * (m as int) <= usize::MAX,
    ensures
        r.weighted_bigraph.wf(),
        r.online_budget@.len() == r.weighted_bigraph.u_nodes@.len(),
        r.weighted_bigraph.u_nodes@ == index_keys(n as int),
        r.weighted_bigraph.v_nodes@ == index_keys((n as int) * (m as int)),
        2 * r.weighted_bigraph.nodes_edges@.len() == (m as int) * (n as int) * ((n as int) + 1),
        forall|k: int|
            0 <= k < r.weighted_bigraph.nodes_edges@.len() ==> (
            #[trigger] r.weighted_bigraph.nodes_edges@[k]).1 == 1 && ((
            r.weighted_bigraph.nodes_edges@[k]).0.0 as int) < n && ((
            r.weighted_bigraph.nodes_edges@[k]).0.1 as int) < (((
            r.weighted_bigraph.nodes_edges@[k]).0.0 as int) + 1) * (m as int),
        r.online_budget@ == Seq::new(n as nat, |i: int| m as u64),
{
    let edges = block_growth_edges(n, m, 1);
    let mut budgets: Vec<u64> = Vec::new();
    let mut i: usize = 0;
    while i < n
        invariant
            i <= n,
            budgets@.len() == i,
            forall|k: int| 0 <= k < i ==> #[trigger] budgets@[k] == m as u64,
        decreases n - i,
    {
        budgets.push(m as u64);
        i += 1;
    }
    let graph = WBigraph::from_edges(&edges);
    proof {
        assert(graph.u_nodes@.len() == index_keys(n as int).len());
        assert(budgets@ =~= Seq::new(n as nat, |i: int| m as u64));
    }
    graph.into_online(budgets)
}

/// The classic instance on which greedy realizes only about half the
/// optimum: one offline node is offered `n` bids worth 99 hundredths,
/// the other `2 * n` bids worth a full unit, and both budgets are `n`
/// units.  Bids are held in hundredths so that the instance stays in
/// integers.
pub fn greedy_worst_case(n: usize) -> (r: OnlineAdversarialWBigraph<usize, u64>)
    requires
        1 <= n,
        n <= usize::MAX / 2,
        100 * (n as int) <= u64::MAX,
    ensures
        r.weighted_bigraph.wf(),
        r.online_budget@.len() == r.weighted_bigraph.u_nodes@.len(),
        r.online_budget@.len() == 2,
        r.online_budget@[0] == 100 * (n as u64),
        r.online_budget@[1] == 100 * (n as u64),
        sum_of(r.online_budget@) == 200 * (n as int),
        r.weighted_bigraph.u_nodes@ == seq![0usize, 1usize],
        r.weighted_bigraph.v_nodes@ == index_keys(2 * (n as int)),
        r.weighted_bigraph.nodes_edges@.len() == 3 * (n as int),
        forall|k: int|
            0 <= k < n ==> #[trigger] r.weighted_bigraph.nodes_edges@[k] == (
                (0usize, k as usize),
                99u64,
            ),
        forall|k: int|
            n <= k < 3 * n ==> #[trigger] r.weighted_bigraph.nodes_edges@[k] == (
                (1usize, (k - n) as usize),
                100u64,
            ),
{
    let mut edges: Vec<((usize, usize), u64)> = Vec::new();
    let mut v: usize = 0;
    proof {
        assert(crate::weightedbigraph::wrights(edges@) =~= Seq::<usize>::empty());
        assert(crate::bigraph::firsts(crate::weightedbigraph::wrights(edges@)) =~= index_keys(0));
    }
    while v < n
        invariant
            v <= n,
            edges@.len() == v,
            forall|k: int| 0 <= k < v ==> #[trigger] edges@[k] == ((0usize, k as usize), 99u64),
            crate::bigraph::firsts(crate::weightedbigraph::wrights(edges@)) == index_keys(v as int),
        decreases n - v,
    {
        let ghost rights_pre = crate::weightedbigraph::wrights(edges@);
        edges.push(((0, v), 99));
        proof {
            assert(edges@[edges@.len() - 1] == ((0usize, v), 99u64));
            assert(crate::weightedbigraph::wrights(edges@) =~= rights_pre.push(v));
            crate::bigraph::lemma_firsts_push(rights_pre, v);
            lemma_index_keys_grow(v);
        }
        v += 1;
    }
    proof {
        lemma_two_block_firsts(edges@, n as int, 0);
    }
    let mut i: usize = 0;
    while i < 2 * n
        invariant
            1 <= n,
            n <= usize::MAX / 2,
            i <= 2 * n,
            edges@.len() == n + i,
            forall|k: int| 0 <= k < n ==> #[trigger] edges@[k] == ((0usize, k as usize), 99u64),
            forall|k: int|
                n <= k < n + i ==> #[trigger] edges@[k] == ((1usize, (k - n) as usize), 100u64),
            crate::bigraph::firsts(crate::weightedbigraph::wrights(edges@)) == (if (i as int) <= (
            n as int) {
                index_keys(n as int)
            } else {
                index_keys(i as int)
            }),
        decreases 2 * n - i,
    {
        let ghost rights_pre = crate::weightedbigraph::wrights(edges@);
        edges.push(((1, i), 100));
        proof {
            assert(edges@[edges@.len() - 1] == ((1usize, i), 100u64));
            assert(crate::weightedbigraph::wrights(edges@) =~= rights_pre.push(i));
            crate::bigraph::lemma_firsts_push(rights_pre, i);
            if i < n {
                lemma_index_keys_has(n, i);
            } else {
                lemma_index_keys_grow(i);
            }
        }
        i += 1;
    }
    proof {
        lemma_two_block_firsts(edges@, n as int, 2 * n as int);
        assert forall|a: int, b: int|
            0 <= a < b < edges@.len() implies (#[trigger] edges@[a]).0 != (#[trigger] edges@[b]).0 by {
            if b < n {
                assert(edges@[a] == ((0usize, a as usize), 99u64));
                assert(edges@[b] == ((0usize, b as usize), 99u64));
            } else if a < n {
                assert(edges@[a] == ((0usize, a as usize), 99u64));
                assert(edges@[b] == ((1usize, (b - n) as usize), 100u64));
            } else {
                assert(edges@[a] == ((1usize, (a - n) as usize), 100u64));
                assert(edges@[b] == ((1usize, (b - n) as usize), 100u64));
            }
        }
    }
    let graph = WBigraph::from_edges(&edges);
    let mut budgets: Vec<u64> = Vec::new();
    budgets.push(100 * (n as u64));
    budgets.push(100 * (n as u64));
    proof {
        let b = budgets@;
        assert(b.drop_last().drop_last() =~= Seq::<u64>::empty());
        assert(b.len() == 2 && b.last() == b[1] && b.drop_last().last() == b[0]);
        assert(sum_of(Seq::<u64>::empty()) == 0);
        assert(sum_of(b.drop_last()) == b[0]);
        assert(sum_of(b) == b[0] + b[1]);
        assert(sum_of(b) == 200 * (n as int));
    }
    graph.into_online(budgets)
}

/// The left keys of the two-block edge list of `greedy_worst_case` hold
/// exactly the offline keys 0 and 1 (only 0 while the second block is
/// empty).
proof fn lemma_two_block_firsts(edges: Seq<((usize, usize), u64)>, n: int, i: int)
    requires
        1 <= n,
        0 <= i,
        edges.len() == n + i,
        forall|k: int| 0 <= k < n ==> #[trigger] edges[k] == ((0usize, k as usize), 99u64),
        forall|k: int|
            n <= k < n + i ==> #[trigger] edges[k] == ((1usize, (k - n) as usize), 100u64),
    ensures
        i == 0 ==> crate::bigraph::firsts(crate::weightedbigraph::wlefts(edges)) == seq![0usize],
        i >= 1 ==> crate::bigraph::firsts(crate::weightedbigraph::wlefts(edges)) == seq![
            0usize,
            1usize,
        ],
    decreases n + i,
{
    let lefts_all = crate::weightedbigraph::wlefts(edges);
    if i == 0 {
        if n == 1 {
            assert(lefts_all.len() == 1 && lefts_all[0] == edges[0].0.0);
            assert(lefts_all =~= seq![0usize]);
            assert(crate::bigraph::firsts(lefts_all) =~= seq![0usize]) by {
                assert(lefts_all.drop_last() =~= Seq::<usize>::empty());
                assert(crate::bigraph::firsts(Seq::<usize>::empty())
                    == Seq::<usize>::empty());
                assert(lefts_all.last() == 0usize);
                assert(!Seq::<usize>::empty().contains(0usize));
                assert(Seq::<usize>::empty().push(0usize) =~= seq![0usize]);
            }
        } else {
            let prior = edges.drop_last();
            assert(forall|k: int|
                0 <= k < n - 1 ==> #[trigger] prior[k] == ((0usize, k as usize), 99u64));
            lemma_two_block_firsts(prior, n - 1, 0);
            assert(crate::weightedbigraph::wlefts(prior) =~= lefts_all.drop_last());
            assert(lefts_all.last() == 0usize) by {
                assert(edges[edges.len() - 1] == ((0usize, (n - 1) as usize), 99u64));
            }
            assert(seq![0usize].contains(0usize)) by {
                assert(seq![0usize][0] == 0usize);
            }
        }
    } else {
        let prior = edges.drop_last();
        assert(forall|k: int|
            0 <= k < n ==> #[trigger] prior[k] == ((0usize, k as usize), 99u64));
        assert(forall|k: int|
            n <= k < n + i - 1 ==> #[trigger] prior[k] == ((1usize, (k - n) as usize), 100u64));
        lemma_two_block_firsts(prior, n, i - 1);
        assert(crate::weightedbigraph::wlefts(prior) =~= lefts_all.drop_last());
        assert(lefts_all.last() == 1usize) by {
            assert(edges[edges.len() - 1] == ((1usize, (i - 1) as usize), 100u64));
        }
        if i == 1 {
            assert(!seq![0usize].contains(1usize)) by {
                if seq![0usize].contains(1usize) {
                    let w = choose|k: int| 0 <= k < 1 && seq![0usize][k] == 1usize;
                }
            }
            assert(seq![0usize].push(1usize) =~= seq![0usize, 1usize]);
        } else {
            assert(seq![0usize, 1usize].contains(1usize)) by {
                assert(seq![0usize, 1usize][1] == 1usize);
            }
        }
    }
}

} // verus!
