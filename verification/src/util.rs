//! Shared strategy helpers: filtering an arrival's adjacency list down to
//! the offline nodes that are still available.

use vstd::prelude::*;

verus! {

/// The entries of `adj` whose offline node is marked available.
pub open spec fn available_filter(adj: Seq<usize>, avail: Seq<bool>) -> Seq<usize>
    decreases adj.len(),
{
    if adj.len() == 0 {
        Seq::empty()
    } else {
        let prior = available_filter(adj.drop_last(), avail);
        if avail[adj.last() as int] {
            prior.push(adj.last())
        } else {
            prior
        }
    }
}

/// Every kept entry appears in the adjacency list and is available.
pub proof fn lemma_available_filter_entries(adj: Seq<usize>, avail: Seq<bool>)
    ensures
        forall|p: int|
            0 <= p < available_filter(adj, avail).len() ==> adj.contains(
                #[trigger] available_filter(adj, avail)[p],
            ) && avail[available_filter(adj, avail)[p] as int],
    decreases adj.len(),
{
    if adj.len() > 0 {
        lemma_available_filter_entries(adj.drop_last(), avail);
        assert forall|x: usize| adj.drop_last().contains(x) implies adj.contains(x) by {
            let w = choose|k: int| 0 <= k < adj.drop_last().len() && adj.drop_last()[k] == x;
            assert(adj[w] == x);
        }
        assert(adj.last() == adj[adj.len() - 1]);
        let f = available_filter(adj, avail);
        let prior = available_filter(adj.drop_last(), avail);
        assert forall|p: int| 0 <= p < f.len() implies adj.contains(#[trigger] f[p]) && avail[
            f[p] as int
        ] by {
            if p < prior.len() {
                assert(f[p] == prior[p]);
            } else {
                assert(f[p] == adj.last());
            }
        }
    }
}

/// Every available listed node is kept by the filter.
pub proof fn lemma_available_filter_complete(adj: Seq<usize>, avail: Seq<bool>)
    ensures
        forall|k: int|
            0 <= k < adj.len() && avail[(#[trigger] adj[k]) as int] ==> available_filter(
                adj,
                avail,
            ).contains(adj[k]),
    decreases adj.len(),
{
    if adj.len() > 0 {
        lemma_available_filter_complete(adj.drop_last(), avail);
        let f = available_filter(adj, avail);
        let prior = available_filter(adj.drop_last(), avail);
        assert forall|k: int|
            0 <= k < adj.len() && avail[(#[trigger] adj[k]) as int] implies f.contains(
            adj[k],
        ) by {
            if k == adj.len() - 1 {
                assert(adj.last() == adj[k]);
                assert(f.last() == adj[k]);
            } else {
                assert(adj.drop_last()[k] == adj[k]);
                assert(prior.contains(adj[k]));
                let p = choose|p: int| 0 <= p < prior.len() && prior[p] == adj[k];
                assert(f[p] == adj[k]);
            }
        }
    }
}

/// An empty filter result means no listed neighbor is available.
pub proof fn lemma_available_filter_empty(adj: Seq<usize>, avail: Seq<bool>)
    requires
        available_filter(adj, avail).len() == 0,
    ensures
        forall|k: int| 0 <= k < adj.len() ==> !avail[(#[trigger] adj[k]) as int],
    decreases adj.len(),
{
    if adj.len() > 0 {
        lemma_available_filter_empty(adj.drop_last(), avail);
        assert(forall|k: int| 0 <= k < adj.len() - 1 ==> adj.drop_last()[k] == adj[k]);
        assert(adj.last() == adj[adj.len() - 1]);
    }
}

/// Keeps the offline nodes of `online_adjacent` whose availability flag is
/// still set, in adjacency order.
pub fn get_available_offline_nodes_in_onlineadj(
    offline_nodes_available: &Vec<bool>,
    online_adjacent: &Vec<usize>,
) -> (r: Vec<usize>)
    requires
        forall|k: int|
            0 <= k < online_adjacent@.len() ==> (#[trigger] online_adjacent@[k] as int)
                < offline_nodes_available@.len(),
    ensures
        r@ == available_filter(online_adjacent@, offline_nodes_available@),
{
    let mut r: Vec<usize> = Vec::new();
    let mut t: usize = 0;
    proof {
        assert(online_adjacent@.subrange(0, 0) =~= Seq::<usize>::empty());
    }
    while t < online_adjacent.len()
        invariant
            t <= online_adjacent@.len(),
            forall|k: int|
                0 <= k < online_adjacent@.len() ==> (#[trigger] online_adjacent@[k] as int)
                    < offline_nodes_available@.len(),
            r@ == available_filter(
                online_adjacent@.subrange(0, t as int),
                offline_nodes_available@,
            ),
        decreases online_adjacent@.len() - t,
    {
        proof {
            assert(online_adjacent@.subrange(0, t + 1).drop_last() =~= online_adjacent@.subrange(
                0,
                t as int,
            ));
            assert(online_adjacent@.subrange(0, t + 1).last() == online_adjacent@[t as int]);
        }
        let offline_node = online_adjacent[t];
        if offline_nodes_available[offline_node] {
            r.push(offline_node);
        }
        t += 1;
    }
    proof {
        assert(online_adjacent@.subrange(0, online_adjacent@.len() as int) =~= online_adjacent@);
    }
    r
}

/// The weighted entries of `adj` whose offline node is marked available.
pub open spec fn available_wfilter<Weight>(
    adj: Seq<(usize, Weight)>,
    avail: Seq<bool>,
) -> Seq<(usize, Weight)>
    decreases adj.len(),
{
    if adj.len() == 0 {
        Seq::empty()
    } else {
        let prior = available_wfilter(adj.drop_last(), avail);
        if avail[adj.last().0 as int] {
            prior.push(adj.last())
        } else {
            prior
        }
    }
}

/// Every kept weighted entry appears in the adjacency list and names an
/// available offline node.
pub proof fn lemma_available_wfilter_entries<Weight>(adj: Seq<(usize, Weight)>, avail: Seq<bool>)
    ensures
        forall|p: int|
            0 <= p < available_wfilter(adj, avail).len() ==> adj.contains(
                #[trigger] available_wfilter(adj, avail)[p],
            ) && avail[available_wfilter(adj, avail)[p].0 as int],
    decreases adj.len(),
{
    if adj.len() > 0 {
        lemma_available_wfilter_entries(adj.drop_last(), avail);
        assert forall|x: (usize, Weight)| adj.drop_last().contains(x) implies adj.contains(x) by {
            let w = choose|k: int| 0 <= k < adj.drop_last().len() && adj.drop_last()[k] == x;
            assert(adj[w] == x);
        }
        assert(adj.last() == adj[adj.len() - 1]);
        let f = available_wfilter(adj, avail);
        let prior = available_wfilter(adj.drop_last(), avail);
        assert forall|p: int| 0 <= p < f.len() implies adj.contains(#[trigger] f[p]) && avail[
            f[p].0 as int
        ] by {
            if p < prior.len() {
                assert(f[p] == prior[p]);
            } else {
                assert(f[p] == adj.last());
            }
        }
    }
}

/// Every available listed entry is kept by the weighted filter.
pub proof fn lemma_available_wfilter_complete<Weight>(adj: Seq<(usize, Weight)>, avail: Seq<bool>)
    ensures
        forall|k: int|
            0 <= k < adj.len() && avail[(#[trigger] adj[k]).0 as int] ==> available_wfilter(
                adj,
                avail,
            ).contains(adj[k]),
    decreases adj.len(),
{
    if adj.len() > 0 {
        lemma_available_wfilter_complete(adj.drop_last(), avail);
        let f = available_wfilter(adj, avail);
        let prior = available_wfilter(adj.drop_last(), avail);
        assert forall|k: int|
            0 <= k < adj.len() && avail[(#[trigger] adj[k]).0 as int] implies f.contains(
            adj[k],
        ) by {
            if k == adj.len() - 1 {
                assert(adj.last() == adj[k]);
                assert(f.last() == adj[k]);
            } else {
                assert(adj.drop_last()[k] == adj[k]);
                assert(prior.contains(adj[k]));
                let p = choose|p: int| 0 <= p < prior.len() && prior[p] == adj[k];
                assert(f[p] == adj[k]);
            }
        }
    }
}

/// An empty weighted filter result means no listed neighbor is available.
pub proof fn lemma_available_wfilter_empty<Weight>(adj: Seq<(usize, Weight)>, avail: Seq<bool>)
    requires
        available_wfilter(adj, avail).len() == 0,
    ensures
        forall|k: int| 0 <= k < adj.len() ==> !avail[(#[trigger] adj[k]).0 as int],
    decreases adj.len(),
{
    if adj.len() > 0 {
        lemma_available_wfilter_empty(adj.drop_last(), avail);
        assert(forall|k: int| 0 <= k < adj.len() - 1 ==> adj.drop_last()[k] == adj[k]);
        assert(adj.last() == adj[adj.len() - 1]);
    }
}

/// Keeps the (offline node, weight) entries of `online_adjacent` whose
/// availability flag is still set, in adjacency order.
pub fn get_available_offline_nodes_in_weighted_onlineadj<Weight: Copy>(
    offline_nodes_available: &Vec<bool>,
    online_adjacent: &Vec<(usize, Weight)>,
) -> (r: Vec<(usize, Weight)>)
    requires
        forall|k: int|
            0 <= k < online_adjacent@.len() ==> ((#[trigger] online_adjacent@[k]).0 as int)
                < offline_nodes_available@.len(),
    ensures
        r@ == available_wfilter(online_adjacent@, offline_nodes_available@),
{
    let mut r: Vec<(usize, Weight)> = Vec::new();
    let mut t: usize = 0;
    proof {
        assert(online_adjacent@.subrange(0, 0) =~= Seq::<(usize, Weight)>::empty());
    }
    while t < online_adjacent.len()
        invariant
            t <= online_adjacent@.len(),
            forall|k: int|
                0 <= k < online_adjacent@.len() ==> ((#[trigger] online_adjacent@[k]).0 as int)
                    < offline_nodes_available@.len(),
            r@ == available_wfilter(
                online_adjacent@.subrange(0, t as int),
                offline_nodes_available@,
            ),
        decreases online_adjacent@.len() - t,
    {
        proof {
            assert(online_adjacent@.subrange(0, t + 1).drop_last() =~= online_adjacent@.subrange(
                0,
                t as int,
            ));
            assert(online_adjacent@.subrange(0, t + 1).last() == online_adjacent@[t as int]);
        }
        let entry = online_adjacent[t];
        if offline_nodes_available[entry.0] {
            r.push(entry);
        }
        t += 1;
    }
    proof {
        assert(online_adjacent@.subrange(0, online_adjacent@.len() as int) =~= online_adjacent@);
    }
    r
}

/// How many offline nodes have been marked unavailable.
pub open spec fn count_unavailable(avail: Seq<bool>) -> nat
    decreases avail.len(),
{
    if avail.len() == 0 {
        0
    } else {
        count_unavailable(avail.drop_last()) + (if avail.last() {
            0nat
        } else {
            1nat
        })
    }
}

/// At most every node is unavailable.
pub proof fn lemma_count_unavailable_bounded(avail: Seq<bool>)
    ensures
        count_unavailable(avail) <= avail.len(),
    decreases avail.len(),
{
    if avail.len() > 0 {
        lemma_count_unavailable_bounded(avail.drop_last());
    }
}

/// While some node is available, fewer than all are unavailable.
pub proof fn lemma_count_unavailable_strict(avail: Seq<bool>, i: int)
    requires
        0 <= i < avail.len(),
        avail[i],
    ensures
        count_unavailable(avail) < avail.len(),
    decreases avail.len(),
{
    if i == avail.len() - 1 {
        assert(avail.last() == avail[i]);
        lemma_count_unavailable_bounded(avail.drop_last());
    } else {
        assert(avail.drop_last()[i] == avail[i]);
        lemma_count_unavailable_strict(avail.drop_last(), i);
    }
}

/// An all-available array has no unavailable node.
pub proof fn lemma_count_unavailable_all_true(avail: Seq<bool>)
    requires
        forall|k: int| 0 <= k < avail.len() ==> avail[k],
    ensures
        count_unavailable(avail) == 0,
    decreases avail.len(),
{
    if avail.len() > 0 {
        assert(forall|k: int| 0 <= k < avail.len() - 1 ==> avail.drop_last()[k] == avail[k]);
        lemma_count_unavailable_all_true(avail.drop_last());
        assert(avail.last() == avail[avail.len() - 1]);
    }
}

/// How many flags of `s` are set.
pub open spec fn count_marked(s: Seq<bool>) -> nat
    decreases s.len(),
{
    if s.len() == 0 {
        0
    } else {
        count_marked(s.drop_last()) + (if s.last() {
            1nat
        } else {
            0nat
        })
    }
}

/// At most every flag is set.
pub proof fn lemma_count_marked_bounded(s: Seq<bool>)
    ensures
        count_marked(s) <= s.len(),
    decreases s.len(),
{
    if s.len() > 0 {
        lemma_count_marked_bounded(s.drop_last());
    }
}

/// An all-clear array has no set flag.
pub proof fn lemma_count_marked_all_clear(s: Seq<bool>)
    requires
        forall|k: int| 0 <= k < s.len() ==> !s[k],
    ensures
        count_marked(s) == 0,
    decreases s.len(),
{
    if s.len() > 0 {
        assert(forall|k: int| 0 <= k < s.len() - 1 ==> s.drop_last()[k] == s[k]);
        lemma_count_marked_all_clear(s.drop_last());
        assert(s.last() == s[s.len() - 1]);
    }
}

/// Setting one clear flag raises the count by one.
pub proof fn lemma_count_marked_set(s: Seq<bool>, i: int)
    requires
        0 <= i < s.len(),
        !s[i],
    ensures
        count_marked(s.update(i, true)) == count_marked(s) + 1,
    decreases s.len(),
{
    let s2 = s.update(i, true);
    if i == s.len() - 1 {
        assert(s2.drop_last() =~= s.drop_last());
        assert(s2.last());
        assert(s.last() == s[i]);
    } else {
        assert(s2.drop_last() =~= s.drop_last().update(i, true));
        assert(s2.last() == s.last());
        assert(s.drop_last()[i] == s[i]);
        lemma_count_marked_set(s.drop_last(), i);
    }
}

/// Marking one available node unavailable raises the count by one.
pub proof fn lemma_count_unavailable_mark(avail: Seq<bool>, i: int)
    requires
        0 <= i < avail.len(),
        avail[i],
    ensures
        count_unavailable(avail.update(i, false)) == count_unavailable(avail) + 1,
    decreases avail.len(),
{
    let a2 = avail.update(i, false);
    if i == avail.len() - 1 {
        assert(a2.drop_last() =~= avail.drop_last());
        assert(a2.last() == false);
        assert(avail.last() == avail[i]);
    } else {
        assert(a2.drop_last() =~= avail.drop_last().update(i, false));
        assert(a2.last() == avail.last());
        assert(avail.drop_last()[i] == avail[i]);
        lemma_count_unavailable_mark(avail.drop_last(), i);
    }
}

} // verus!
