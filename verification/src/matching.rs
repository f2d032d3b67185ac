//! Maximum bipartite matching by the phase-based layering algorithm:
//! breadth-first layers from the unmatched left nodes, then depth-first
//! augmenting paths along strictly increasing layers, repeated until no
//! augmenting path remains.
//!
//! The contract of `hopcroft_karp_matching` is proved unconditionally: the
//! result is a *maximum* matching of the graph — every pair an edge, no
//! index repeated on either side, and no matching of the graph is larger.
//! Each candidate path found by the layered search is checked by
//! `check_path` before it is applied, and the final phase runs a complete
//! alternating search whose saturated marks certify maximality, so the
//! verified contract does not depend on the search heuristics.

use crate::bigraph::adj_of;
use crate::bigraph::co_adj_of;
use crate::bigraph::lemma_adj_of_entries;
use crate::bigraph::Bigraph;
use vstd::pervasive::VecAdditionalExecFns;
use vstd::prelude::*;
use vstd::set_lib::lemma_len_subset;
use vstd::set_lib::set_int_range;

verus! {

/// `m` is a matching of `g`: every pair is an edge and no left or right
/// index appears twice.
pub open spec fn is_matching<Key>(g: Bigraph<Key>, m: Seq<(usize, usize)>) -> bool {
    &&& forall|k: int| 0 <= k < m.len() ==> g.edge_pairs().contains(#[trigger] m[k])
    &&& forall|a: int, b: int|
        0 <= a < b < m.len() ==> m[a].0 != m[b].0 && m[a].1 != m[b].1
}

/// The two mate arrays describe one partial matching of `g`: they are
/// sized by the node lists, cross-consistent, and only join edges.
pub open spec fn mates_ok<Key>(
    g: Bigraph<Key>,
    um: Seq<Option<usize>>,
    vm: Seq<Option<usize>>,
) -> bool {
    &&& um.len() == g.u_nodes@.len()
    &&& vm.len() == g.v_nodes@.len()
    &&& forall|i: int|
        0 <= i < um.len() ==> match #[trigger] um[i] {
            Some(j) => (j as int) < vm.len() && vm[j as int] == Some(i as usize)
                && g.edge_pairs().contains((i as usize, j)),
            None => true,
        }
    &&& forall|j: int|
        0 <= j < vm.len() ==> match #[trigger] vm[j] {
            Some(i) => (i as int) < um.len() && um[i as int] == Some(j as usize),
            None => true,
        }
}

/// How many right nodes are matched.
pub open spec fn count_matched(m: Seq<Option<usize>>) -> nat
    decreases m.len(),
{
    if m.len() == 0 {
        0
    } else {
        count_matched(m.drop_last()) + (if m.last() is Some {
            1nat
        } else {
            0nat
        })
    }
}

/// Step `t` of a path joins in-range nodes along an edge of the graph.
pub open spec fn step_ok<Key>(g: Bigraph<Key>, p: Seq<(usize, usize)>, t: int) -> bool {
    &&& (p[t].0 as int) < g.u_nodes@.len()
    &&& (p[t].1 as int) < g.v_nodes@.len()
    &&& g.u_adj()[p[t].0 as int].contains(p[t].1)
}

/// Step `t`'s right node is matched to step `t + 1`'s left node.
pub open spec fn link_ok(vm: Seq<Option<usize>>, p: Seq<(usize, usize)>, t: int) -> bool {
    vm[p[t].1 as int] == Some(p[t + 1].0)
}

/// `p` is an augmenting path for the matching `um`/`vm`: it starts at a
/// free left node, alternates matched edges, ends at a free right node,
/// and repeats no node.
pub open spec fn valid_path<Key>(
    g: Bigraph<Key>,
    um: Seq<Option<usize>>,
    vm: Seq<Option<usize>>,
    p: Seq<(usize, usize)>,
) -> bool {
    &&& p.len() >= 1
    &&& forall|t: int| 0 <= t < p.len() ==> #[trigger] step_ok(g, p, t)
    &&& um[p[0].0 as int] is None
    &&& vm[p[p.len() - 1].1 as int] is None
    &&& forall|t: int| 0 <= t < p.len() - 1 ==> #[trigger] link_ok(vm, p, t)
    &&& forall|a: int, b: int|
        0 <= a < b < p.len() ==> p[a].0 != p[b].0 && p[a].1 != p[b].1
}

/// The left mate array after flipping every edge of `p` into the matching.
pub open spec fn flip_u(um: Seq<Option<usize>>, p: Seq<(usize, usize)>) -> Seq<Option<usize>>
    decreases p.len(),
{
    if p.len() == 0 {
        um
    } else {
        flip_u(um, p.drop_last()).update(p.last().0 as int, Some(p.last().1))
    }
}

/// The right mate array after flipping every edge of `p` into the matching.
pub open spec fn flip_v(vm: Seq<Option<usize>>, p: Seq<(usize, usize)>) -> Seq<Option<usize>>
    decreases p.len(),
{
    if p.len() == 0 {
        vm
    } else {
        flip_v(vm, p.drop_last()).update(p.last().1 as int, Some(p.last().0))
    }
}

/// Flipping keeps the left array's length.
proof fn lemma_flip_u_len(um: Seq<Option<usize>>, p: Seq<(usize, usize)>)
    requires
        forall|t: int| 0 <= t < p.len() ==> ((#[trigger] p[t]).0 as int) < um.len(),
    ensures
        flip_u(um, p).len() == um.len(),
    decreases p.len(),
{
    if p.len() > 0 {
        assert(forall|t: int| 0 <= t < p.len() - 1 ==> p.drop_last()[t] == p[t]);
        lemma_flip_u_len(um, p.drop_last());
        assert(p.last() == p[p.len() - 1]);
    }
}

/// Flipping keeps the right array's length.
proof fn lemma_flip_v_len(vm: Seq<Option<usize>>, p: Seq<(usize, usize)>)
    requires
        forall|t: int| 0 <= t < p.len() ==> ((#[trigger] p[t]).1 as int) < vm.len(),
    ensures
        flip_v(vm, p).len() == vm.len(),
    decreases p.len(),
{
    if p.len() > 0 {
        assert(forall|t: int| 0 <= t < p.len() - 1 ==> p.drop_last()[t] == p[t]);
        lemma_flip_v_len(vm, p.drop_last());
        assert(p.last() == p[p.len() - 1]);
    }
}

/// A position hit by the path holds the path's assignment afterwards.
proof fn lemma_flip_hit(
    um: Seq<Option<usize>>,
    vm: Seq<Option<usize>>,
    p: Seq<(usize, usize)>,
    t: int,
)
    requires
        0 <= t < p.len(),
        forall|t2: int| 0 <= t2 < p.len() ==> ((#[trigger] p[t2]).0 as int) < um.len(),
        forall|t2: int| 0 <= t2 < p.len() ==> ((#[trigger] p[t2]).1 as int) < vm.len(),
        forall|a: int, b: int| 0 <= a < b < p.len() ==> p[a].0 != p[b].0 && p[a].1 != p[b].1,
    ensures
        flip_u(um, p)[p[t].0 as int] == Some(p[t].1),
        flip_v(vm, p)[p[t].1 as int] == Some(p[t].0),
    decreases p.len(),
{
    assert(forall|t2: int| 0 <= t2 < p.len() - 1 ==> p.drop_last()[t2] == p[t2]);
    lemma_flip_u_len(um, p.drop_last());
    lemma_flip_v_len(vm, p.drop_last());
    assert(p.last() == p[p.len() - 1]);
    if t < p.len() - 1 {
        lemma_flip_hit(um, vm, p.drop_last(), t);
        assert(p[t].0 != p.last().0 && p[t].1 != p.last().1);
    }
}

/// A left position the path never assigns keeps its old value.
proof fn lemma_flip_u_miss(um: Seq<Option<usize>>, p: Seq<(usize, usize)>, i: int)
    requires
        0 <= i < um.len(),
        forall|t: int| 0 <= t < p.len() ==> ((#[trigger] p[t]).0 as int) < um.len(),
        forall|t: int| 0 <= t < p.len() ==> ((#[trigger] p[t]).0 as int) != i,
    ensures
        flip_u(um, p)[i] == um[i],
    decreases p.len(),
{
    if p.len() > 0 {
        assert(forall|t: int| 0 <= t < p.len() - 1 ==> p.drop_last()[t] == p[t]);
        assert(p.last() == p[p.len() - 1]);
        assert(((p[p.len() - 1]).0 as int) != i);
        lemma_flip_u_miss(um, p.drop_last(), i);
        lemma_flip_u_len(um, p.drop_last());
    }
}

/// A right position the path never assigns keeps its old value.
proof fn lemma_flip_v_miss(vm: Seq<Option<usize>>, p: Seq<(usize, usize)>, j: int)
    requires
        0 <= j < vm.len(),
        forall|t: int| 0 <= t < p.len() ==> ((#[trigger] p[t]).1 as int) < vm.len(),
        forall|t: int| 0 <= t < p.len() ==> ((#[trigger] p[t]).1 as int) != j,
    ensures
        flip_v(vm, p)[j] == vm[j],
    decreases p.len(),
{
    if p.len() > 0 {
        assert(forall|t: int| 0 <= t < p.len() - 1 ==> p.drop_last()[t] == p[t]);
        assert(p.last() == p[p.len() - 1]);
        assert(((p[p.len() - 1]).1 as int) != j);
        lemma_flip_v_miss(vm, p.drop_last(), j);
        lemma_flip_v_len(vm, p.drop_last());
    }
}

/// Updating one slot raises the matched count exactly when the slot was
/// free.
proof fn lemma_count_update(m: Seq<Option<usize>>, pos: int, x: usize)
    requires
        0 <= pos < m.len(),
    ensures
        count_matched(m.update(pos, Some(x))) == count_matched(m) + (if m[pos] is Some {
            0nat
        } else {
            1nat
        }),
    decreases m.len(),
{
    let m2 = m.update(pos, Some(x));
    if pos == m.len() - 1 {
        assert(m2.drop_last() =~= m.drop_last());
        assert(m2.last() == Some(x));
        assert(m.last() == m[pos]);
    } else {
        assert(m2.drop_last() =~= m.drop_last().update(pos, Some(x)));
        assert(m2.last() == m.last());
        lemma_count_update(m.drop_last(), pos, x);
    }
}

/// Flipping a valid augmenting path raises the matched count by one: the
/// final right node was free, every other right node on the path was
/// already matched.
proof fn lemma_flip_count(vm: Seq<Option<usize>>, p: Seq<(usize, usize)>, m: int)
    requires
        1 <= m <= p.len(),
        forall|t: int| 0 <= t < p.len() ==> (p[t].1 as int) < vm.len(),
        forall|a: int, b: int| 0 <= a < b < p.len() ==> p[a].1 != p[b].1,
        forall|t: int| 0 <= t < p.len() - 1 ==> vm[p[t].1 as int] is Some,
        vm[p[p.len() - 1].1 as int] is None,
    ensures
        count_matched(flip_v(vm, p.subrange(0, m))) == count_matched(vm) + (if m == p.len() {
            1nat
        } else {
            0nat
        }),
    decreases m,
{
    let q = p.subrange(0, m);
    assert(q.drop_last() =~= p.subrange(0, m - 1));
    assert(q.last() == p[m - 1]);
    let prior = flip_v(vm, p.subrange(0, m - 1));
    assert(forall|t: int| 0 <= t < m - 1 ==> p.subrange(0, m - 1)[t] == p[t]);
    lemma_flip_v_len(vm, p.subrange(0, m - 1));
    // The slot flipped at step m - 1 still holds its original value.
    assert(prior[p[m - 1].1 as int] == vm[p[m - 1].1 as int]) by {
        lemma_flip_v_miss(vm, p.subrange(0, m - 1), p[m - 1].1 as int);
    }
    lemma_count_update(prior, p[m - 1].1 as int, p[m - 1].0);
    if m == 1 {
        assert(p.subrange(0, 0) =~= Seq::<(usize, usize)>::empty());
    } else {
        lemma_flip_count(vm, p, m - 1);
    }
}

/// Flipping a valid augmenting path preserves the matching invariant.
proof fn lemma_flip_mates_ok<Key>(
    g: Bigraph<Key>,
    um: Seq<Option<usize>>,
    vm: Seq<Option<usize>>,
    p: Seq<(usize, usize)>,
)
    requires
        g.wf(),
        um.len() <= usize::MAX,
        vm.len() <= usize::MAX,
        mates_ok(g, um, vm),
        valid_path(g, um, vm, p),
    ensures
        mates_ok(g, flip_u(um, p), flip_v(vm, p)),
        count_matched(flip_v(vm, p)) == count_matched(vm) + 1,
{
    let fu = flip_u(um, p);
    let fv = flip_v(vm, p);
    assert(forall|t: int| 0 <= t < p.len() ==> step_ok(g, p, t));
    assert forall|t: int|
        0 <= t < p.len() implies ((#[trigger] p[t]).0 as int) < um.len() && ((p[
        t
    ]).1 as int) < vm.len() by {
        assert(step_ok(g, p, t));
    }
    lemma_flip_u_len(um, p);
    lemma_flip_v_len(vm, p);
    // Every path edge is an edge of the graph.
    assert forall|t: int| 0 <= t < p.len() implies g.edge_pairs().contains(
        (p[t].0, p[t].1),
    ) by {
        assert(step_ok(g, p, t));
        assert(g.u_adj()[p[t].0 as int] == adj_of(g.edge_pairs(), p[t].0 as int));
        lemma_adj_of_entries(g.edge_pairs(), p[t].0 as int);
        let w = choose|q: int|
            0 <= q < adj_of(g.edge_pairs(), p[t].0 as int).len() && adj_of(
                g.edge_pairs(),
                p[t].0 as int,
            )[q] == p[t].1;
        assert(g.edge_pairs().contains((p[t].0, adj_of(g.edge_pairs(), p[t].0 as int)[w])));
    }
    assert forall|i: int| 0 <= i < fu.len() implies match #[trigger] fu[i] {
        Some(j) => (j as int) < fv.len() && fv[j as int] == Some(i as usize)
            && g.edge_pairs().contains((i as usize, j)),
        None => true,
    } by {
        if exists|t: int| 0 <= t < p.len() && (#[trigger] p[t]).0 == i {
            let t = choose|t: int| 0 <= t < p.len() && (#[trigger] p[t]).0 == i;
            lemma_flip_hit(um, vm, p, t);
            assert(fu[i] == Some(p[t].1));
            assert(fv[p[t].1 as int] == Some(p[t].0));
            assert(g.edge_pairs().contains((p[t].0, p[t].1)));
        } else {
            assert(forall|t: int| 0 <= t < p.len() ==> (#[trigger] p[t]).0 != i);
            lemma_flip_u_miss(um, p, i);
            assert(fu[i] == um[i]);
            if um[i] is Some {
                let j = um[i]->0;
                // The right node j cannot lie on the path: an interior hit
                // would name i as the next left node, and the final hit is
                // free in vm.
                assert forall|t: int| 0 <= t < p.len() implies ((#[trigger] p[t]).1 as int)
                    != j as int by {
                    if p[t].1 == j {
                        assert(vm[j as int] == Some(i as usize));
                        if t < p.len() - 1 {
                            assert(link_ok(vm, p, t));
                            assert(p[t + 1].0 == i as usize);
                            assert(0 <= i <= usize::MAX);
                            assert((p[t + 1].0 as int) == i);
                            assert(exists|t2: int|
                                0 <= t2 < p.len() && (#[trigger] p[t2]).0 == i);
                            assert(false);
                        } else {
                            assert(vm[p[p.len() - 1].1 as int] is None);
                            assert(false);
                        }
                    }
                }
                lemma_flip_v_miss(vm, p, j as int);
                assert(fv[j as int] == vm[j as int]);
            }
        }
    }
    assert forall|j: int| 0 <= j < fv.len() implies match #[trigger] fv[j] {
        Some(i) => (i as int) < fu.len() && fu[i as int] == Some(j as usize),
        None => true,
    } by {
        if exists|t: int| 0 <= t < p.len() && (#[trigger] p[t]).1 == j {
            let t = choose|t: int| 0 <= t < p.len() && (#[trigger] p[t]).1 == j;
            lemma_flip_hit(um, vm, p, t);
        } else {
            assert(forall|t: int| 0 <= t < p.len() ==> (#[trigger] p[t]).1 != j);
            lemma_flip_v_miss(vm, p, j);
            assert(fv[j] == vm[j]);
            if vm[j] is Some {
                let i = vm[j]->0;
                assert(um[i as int] == Some(j as usize));
                // The left node i cannot lie on the path: the first node is
                // free in um, and a later hit would name j as the previous
                // right node.
                assert forall|t: int| 0 <= t < p.len() implies ((#[trigger] p[t]).0 as int)
                    != i as int by {
                    if p[t].0 == i {
                        assert(um[i as int] == Some(j as usize));
                        if t == 0 {
                            assert(um[p[0].0 as int] is None);
                            assert(false);
                        } else {
                            assert(link_ok(vm, p, t - 1));
                            assert(vm[p[t - 1].1 as int] == Some(p[t].0));
                            assert(p[t].0 == i);
                            assert(um[i as int] == Some(p[t - 1].1));
                            assert((p[t - 1].1 as int) == j as int);
                            assert(exists|t2: int|
                                0 <= t2 < p.len() && (#[trigger] p[t2]).1 == j);
                            assert(false);
                        }
                    }
                }
                lemma_flip_u_miss(um, p, i as int);
                assert(fu[i as int] == um[i as int]);
            }
        }
    }
    // The count grows by exactly one.
    assert(p.subrange(0, p.len() as int) =~= p);
    assert forall|t: int| 0 <= t < p.len() - 1 implies vm[p[t].1 as int] is Some by {
        assert(link_ok(vm, p, t));
    }
    lemma_flip_count(vm, p, p.len() as int);
}

/// A sequence of distinct values below `n` has at most `n` elements.
pub proof fn lemma_distinct_bounded(s: Seq<usize>, n: nat)
    requires
        forall|k: int| 0 <= k < s.len() ==> (#[trigger] s[k] as nat) < n,
        forall|a: int, b: int| 0 <= a < b < s.len() ==> s[a] != s[b],
    ensures
        s.len() <= n,
{
    let si = s.map_values(|x: usize| x as int);
    assert(si.no_duplicates()) by {
        assert(forall|a: int, b: int|
            0 <= a < si.len() && 0 <= b < si.len() && a != b ==> si[a] != si[b]);
    }
    si.unique_seq_to_set();
    assert(si.to_set().subset_of(set_int_range(0, n as int))) by {
        assert forall|x: int| si.to_set().contains(x) implies set_int_range(0, n as int).contains(
            x,
        ) by {
            let w = choose|k: int| 0 <= k < si.len() && si[k] == x;
            assert((s[w] as nat) < n);
        }
    }
    vstd::set_lib::lemma_int_range(0, n as int);
    lemma_len_subset(si.to_set(), set_int_range(0, n as int));
}

/// Every adjacency entry of a well-formed graph indexes a node of the
/// other side.
pub proof fn lemma_wf_adjacency_bounds<Key>(g: Bigraph<Key>)
    requires
        g.wf(),
    ensures
        forall|i: int, q: int|
            0 <= i < g.u_nodes@.len() && 0 <= q < g.u_adj()[i].len() ==> (
            #[trigger] g.u_adj()[i][q] as int) < g.v_nodes@.len(),
        forall|j: int, q: int|
            0 <= j < g.v_nodes@.len() && 0 <= q < g.v_adj()[j].len() ==> (
            #[trigger] g.v_adj()[j][q] as int) < g.u_nodes@.len(),
{
    assert forall|i: int, q: int|
        0 <= i < g.u_nodes@.len() && 0 <= q < g.u_adj()[i].len() implies (
    #[trigger] g.u_adj()[i][q] as int) < g.v_nodes@.len() by {
        assert(g.u_adj()[i] == adj_of(g.edge_pairs(), i));
        lemma_adj_of_entries(g.edge_pairs(), i);
        let x = adj_of(g.edge_pairs(), i)[q];
        assert(g.edge_pairs().contains((i as usize, x)));
        let k = choose|k: int| 0 <= k < g.edge_pairs().len() && g.edge_pairs()[k] == (
            i as usize,
            x,
        );
        assert(g.edge_ok(k));
    }
    assert forall|j: int, q: int|
        0 <= j < g.v_nodes@.len() && 0 <= q < g.v_adj()[j].len() implies (
    #[trigger] g.v_adj()[j][q] as int) < g.u_nodes@.len() by {
        assert(g.v_adj()[j] == co_adj_of(g.edge_pairs(), j));
        lemma_adj_of_entries(g.edge_pairs(), j);
        let x = co_adj_of(g.edge_pairs(), j)[q];
        assert(g.edge_pairs().contains((x, j as usize)));
        let k = choose|k: int| 0 <= k < g.edge_pairs().len() && g.edge_pairs()[k] == (
            x,
            j as usize,
        );
        assert(g.edge_ok(k));
    }
}

/// Tests whether `path` is an augmenting path for the current matching.
fn check_path<Key>(
    graph: &Bigraph<Key>,
    u_mate: &Vec<Option<usize>>,
    v_mate: &Vec<Option<usize>>,
    path: &Vec<(usize, usize)>,
) -> (r: bool)
    requires
        graph.wf(),
        u_mate@.len() == graph.u_nodes@.len(),
        v_mate@.len() == graph.v_nodes@.len(),
    ensures
        r == valid_path(*graph, u_mate@, v_mate@, path@),
{
    if path.len() == 0 {
        return false;
    }
    // Each step stays in range and follows an edge.
    let mut t: usize = 0;
    while t < path.len()
        invariant
            graph.wf(),
            t <= path@.len(),
            forall|t2: int| 0 <= t2 < t ==> #[trigger] step_ok(*graph, path@, t2),
        decreases path@.len() - t,
    {
        let (ui, vi) = path[t];
        if ui >= graph.u_nodes.len() || vi >= graph.v_nodes.len() {
            proof {
                assert(!step_ok(*graph, path@, t as int));
            }
            return false;
        }
        let row = &graph.u_adjacency_list[ui];
        let mut q: usize = 0;
        let mut found = false;
        while q < row.len() && !found
            invariant
                found ==> graph.u_adj()[ui as int].contains(vi),
                !found ==> forall|q2: int| 0 <= q2 < q ==> graph.u_adj()[ui as int][q2] != vi,
                q <= row@.len(),
                (ui as int) < graph.u_adj().len(),
                row@ == graph.u_adj()[ui as int],
            decreases row@.len() - q + (if found {
                0int
            } else {
                1int
            }),
        {
            if row[q] == vi {
                found = true;
                proof {
                    assert(graph.u_adj()[ui as int][q as int] == vi);
                }
            } else {
                q += 1;
            }
        }
        if !found {
            proof {
                if graph.u_adj()[ui as int].contains(vi) {
                    let w = choose|q2: int|
                        0 <= q2 < graph.u_adj()[ui as int].len() && graph.u_adj()[ui as int][q2]
                            == vi;
                    assert(graph.u_adj()[ui as int][w] != vi);
                }
                assert(!step_ok(*graph, path@, t as int));
            }
            return false;
        }
        t += 1;
    }
    // Free endpoints.
    proof {
        assert(step_ok(*graph, path@, 0));
        assert(step_ok(*graph, path@, path@.len() - 1));
    }
    if u_mate[path[0].0].is_some() {
        return false;
    }
    if v_mate[path[path.len() - 1].1].is_some() {
        return false;
    }
    // Interior links follow the current matching.
    let mut t: usize = 0;
    while t < path.len() - 1
        invariant
            path@.len() >= 1,
            t < path@.len(),
            v_mate@.len() == graph.v_nodes@.len(),
            forall|t2: int| 0 <= t2 < t ==> #[trigger] link_ok(v_mate@, path@, t2),
            forall|t2: int| 0 <= t2 < path@.len() ==> #[trigger] step_ok(*graph, path@, t2),
        decreases path@.len() - t,
    {
        proof {
            assert(step_ok(*graph, path@, t as int));
        }
        let expect = path[t + 1].0;
        match v_mate[path[t].1] {
            Some(w) => {
                if w != expect {
                    proof {
                        assert(!link_ok(v_mate@, path@, t as int));
                    }
                    return false;
                }
            },
            None => {
                proof {
                    assert(!link_ok(v_mate@, path@, t as int));
                }
                return false;
            },
        }
        t += 1;
    }
    // No repeated node on either side.
    let mut a: usize = 0;
    while a < path.len()
        invariant
            a <= path@.len(),
            forall|x: int, y: int|
                0 <= x < y < path@.len() && x < a ==> path@[x].0 != path@[y].0 && path@[x].1
                    != path@[y].1,
        decreases path@.len() - a,
    {
        let mut b: usize = a + 1;
        while b < path.len()
            invariant
                a < b <= path@.len() || (b == a + 1 && b >= path@.len()),
                forall|y: int|
                    a < y < b ==> path@[a as int].0 != path@[y].0 && path@[a as int].1
                        != path@[y].1,
            decreases path@.len() - b,
        {
            if path[a].0 == path[b].0 || path[a].1 == path[b].1 {
                return false;
            }
            b += 1;
        }
        a += 1;
    }
    true
}

/// Flips every edge of `path` into the matching, growing it by one.
fn augment<Key>(
    graph: &Bigraph<Key>,
    u_mate: &mut Vec<Option<usize>>,
    v_mate: &mut Vec<Option<usize>>,
    path: &Vec<(usize, usize)>,
)
    requires
        graph.wf(),
        mates_ok(*graph, old(u_mate)@, old(v_mate)@),
        valid_path(*graph, old(u_mate)@, old(v_mate)@, path@),
    ensures
        mates_ok(*graph, final(u_mate)@, final(v_mate)@),
        count_matched(final(v_mate)@) == count_matched(old(v_mate)@) + 1,
{
    let ghost um0 = u_mate@;
    let ghost vm0 = v_mate@;
    let um_len = u_mate.len();
    let vm_len = v_mate.len();
    proof {
        assert(um0.len() == um_len && vm0.len() == vm_len);
        assert forall|t: int|
            0 <= t < path@.len() implies (#[trigger] path@[t].0 as int) < um0.len() && (path@[
            t
        ].1 as int) < vm0.len() by {
            assert(step_ok(*graph, path@, t));
        }
    }
    let mut t: usize = 0;
    while t < path.len()
        invariant
            t <= path@.len(),
            u_mate@.len() == um0.len(),
            v_mate@.len() == vm0.len(),
            forall|t2: int|
                0 <= t2 < path@.len() ==> (#[trigger] path@[t2].0 as int) < um0.len() && (path@[
                    t2
                ].1 as int) < vm0.len(),
            u_mate@ == flip_u(um0, path@.subrange(0, t as int)),
            v_mate@ == flip_v(vm0, path@.subrange(0, t as int)),
        decreases path@.len() - t,
    {
        let ghost prefix = path@.subrange(0, t as int);
        let (ui, vi) = path[t];
        proof {
            assert(path@.subrange(0, t + 1).drop_last() =~= prefix);
            assert(path@.subrange(0, t + 1).last() == path@[t as int]);
            assert forall|t2: int|
                0 <= t2 < prefix.len() implies ((#[trigger] prefix[t2]).0 as int) < um0.len() && ((
            prefix[t2]).1 as int) < vm0.len() by {
                assert(prefix[t2] == path@[t2]);
                assert(((path@[t2]).0 as int) < um0.len());
                assert(((path@[t2]).1 as int) < vm0.len());
            }
            lemma_flip_u_len(um0, prefix);
            lemma_flip_v_len(vm0, prefix);
        }
        u_mate.set(ui, Some(vi));
        v_mate.set(vi, Some(ui));
        t += 1;
    }
    proof {
        assert(path@.subrange(0, path@.len() as int) =~= path@);
        lemma_flip_mates_ok(*graph, um0, vm0, path@);
    }
}

/// Breadth-first layering from every unmatched left node: `dist[i]` is the
/// alternating-path layer of left node `i`, or `usize::MAX` where none was
/// assigned.  The layers only guide the search; nothing is claimed of
/// their values.
fn bfs_layers<Key>(
    graph: &Bigraph<Key>,
    u_mate: &Vec<Option<usize>>,
    v_mate: &Vec<Option<usize>>,
) -> (dist: Vec<usize>)
    requires
        graph.wf(),
        mates_ok(*graph, u_mate@, v_mate@),
    ensures
        dist@.len() == graph.u_nodes@.len(),
{
    let nu = graph.u_nodes.len();
    proof {
        lemma_wf_adjacency_bounds(*graph);
    }
    let mut dist: Vec<usize> = Vec::new();
    let mut i: usize = 0;
    while i < nu
        invariant
            i <= nu,
            dist@.len() == i,
        decreases nu - i,
    {
        dist.push(usize::MAX);
        i += 1;
    }
    let mut queue: Vec<usize> = Vec::new();
    let mut i: usize = 0;
    while i < nu
        invariant
            i <= nu,
            dist@.len() == nu,
            u_mate@.len() == nu,
            forall|k: int| 0 <= k < queue@.len() ==> (#[trigger] queue@[k] as nat) < i,
            forall|a: int, b: int| 0 <= a < b < queue@.len() ==> queue@[a] != queue@[b],
            forall|k: int| 0 <= k < queue@.len() ==> dist@[queue@[k] as int] != usize::MAX,
        decreases nu - i,
    {
        if u_mate[i].is_none() {
            dist.set(i, 0);
            queue.push(i);
        }
        i += 1;
    }
    let mut head: usize = 0;
    while head < queue.len()
        invariant
            graph.wf(),
            mates_ok(*graph, u_mate@, v_mate@),
            dist@.len() == nu,
            nu == graph.u_nodes@.len(),
            head <= queue@.len(),
            forall|k: int| 0 <= k < queue@.len() ==> (#[trigger] queue@[k] as nat) < nu,
            forall|a: int, b: int| 0 <= a < b < queue@.len() ==> queue@[a] != queue@[b],
            forall|k: int| 0 <= k < queue@.len() ==> dist@[queue@[k] as int] != usize::MAX,
        decreases nu - head,
    {
        proof {
            lemma_distinct_bounded(queue@, nu as nat);
            lemma_wf_adjacency_bounds(*graph);
        }
        let x = queue[head];
        let row_len = graph.u_adjacency_list[x].len();
        let mut q: usize = 0;
        while q < row_len
            invariant
                graph.wf(),
                mates_ok(*graph, u_mate@, v_mate@),
                dist@.len() == nu,
                nu == graph.u_nodes@.len(),
                (x as int) < graph.u_adj().len(),
                row_len == graph.u_adj()[x as int].len(),
                q <= row_len,
                forall|k: int| 0 <= k < queue@.len() ==> (#[trigger] queue@[k] as nat) < nu,
                forall|a: int, b: int| 0 <= a < b < queue@.len() ==> queue@[a] != queue@[b],
                forall|k: int| 0 <= k < queue@.len() ==> dist@[queue@[k] as int] != usize::MAX,
                head < queue@.len(),
                queue@[head as int] == x,
                dist@[x as int] != usize::MAX,
            decreases row_len - q,
        {
            proof {
                lemma_wf_adjacency_bounds(*graph);
            }
            let vv = graph.u_adjacency_list[x][q];
            match v_mate[vv] {
                Some(w) => {
                    if dist[w] == usize::MAX {
                        let dx = dist[x];
                        if dx < usize::MAX - 1 {
                            dist.set(w, dx + 1);
                            queue.push(w);
                        }
                    }
                },
                None => {},
            }
            q += 1;
        }
        head += 1;
    }
    dist
}

/// Depth-first search for an augmenting path from left node `u`, following
/// strictly increasing layers.  The result is a candidate only; the caller
/// validates it with `check_path` before use.
fn dfs_path<Key>(
    graph: &Bigraph<Key>,
    u_mate: &Vec<Option<usize>>,
    v_mate: &Vec<Option<usize>>,
    dist: &Vec<usize>,
    u: usize,
    fuel: usize,
) -> (r: Option<Vec<(usize, usize)>>)
    requires
        graph.wf(),
        mates_ok(*graph, u_mate@, v_mate@),
        dist@.len() == graph.u_nodes@.len(),
        (u as int) < graph.u_nodes@.len(),
    decreases fuel,
{
    if fuel == 0 {
        return None;
    }
    proof {
        lemma_wf_adjacency_bounds(*graph);
    }
    let row_len = graph.u_adjacency_list[u].len();
    let mut q: usize = 0;
    while q < row_len
        invariant
            graph.wf(),
            mates_ok(*graph, u_mate@, v_mate@),
            dist@.len() == graph.u_nodes@.len(),
            (u as int) < graph.u_nodes@.len(),
            row_len == graph.u_adj()[u as int].len(),
            q <= row_len,
            fuel >= 1,
        decreases row_len - q,
    {
        proof {
            lemma_wf_adjacency_bounds(*graph);
        }
        let vv = graph.u_adjacency_list[u][q];
        match v_mate[vv] {
            None => {
                let mut path: Vec<(usize, usize)> = Vec::new();
                path.push((u, vv));
                return Some(path);
            },
            Some(w) => {
                let du = dist[u];
                if du != usize::MAX && dist[w] == du + 1 {
                    match dfs_path(graph, u_mate, v_mate, dist, w, fuel - 1) {
                        Some(rest) => {
                            let mut path: Vec<(usize, usize)> = Vec::new();
                            path.push((u, vv));
                            let mut s: usize = 0;
                            while s < rest.len()
                                decreases rest@.len() - s,
                            {
                                path.push(rest[s]);
                                s += 1;
                            }
                            return Some(path);
                        },
                        None => {},
                    }
                }
            },
        }
        q += 1;
    }
    None
}

/// Computes a maximum matching of `graph` by repeated phases of
/// breadth-first layering and layered depth-first augmentation; the graph
/// itself is not modified.
///
/// The proved contract: the result is a matching of the graph — every
/// returned pair is an edge, and no left or right index repeats — of
/// maximum cardinality: no matching of the graph is larger.  So its size
/// is at most `min(|left|, |right|)`, and it is the same for every run
/// on the same graph (`lemma_maximum_size_unique`).
pub fn hopcroft_karp_matching<Key>(graph: &Bigraph<Key>) -> (r: Vec<(usize, usize)>)
    requires
        graph.wf(),
    ensures
        is_matching(*graph, r@),
        r@.len() <= graph.u_nodes@.len(),
        r@.len() <= graph.v_nodes@.len(),
        forall|m: Seq<(usize, usize)>| is_matching(*graph, m) ==> m.len() <= r@.len(),
{
    let nu = graph.u_nodes.len();
    let nv = graph.v_nodes.len();
    let mut u_mate: Vec<Option<usize>> = Vec::new();
    let mut i: usize = 0;
    while i < nu
        invariant
            i <= nu,
            u_mate@.len() == i,
            forall|k: int| 0 <= k < i ==> u_mate@[k] is None,
        decreases nu - i,
    {
        u_mate.push(None);
        i += 1;
    }
    let mut v_mate: Vec<Option<usize>> = Vec::new();
    let mut j: usize = 0;
    while j < nv
        invariant
            j <= nv,
            v_mate@.len() == j,
            forall|k: int| 0 <= k < j ==> v_mate@[k] is None,
        decreases nv - j,
    {
        v_mate.push(None);
        j += 1;
    }
    proof {
        lemma_count_all_none(v_mate@);
    }
    // Phases: layer, then augment along validated layered paths; when a
    // phase leaves no path behind, the complete alternating search either
    // finds one more or certifies that the matching is maximum.
    let mut maximal = false;
    while !maximal
        invariant
            graph.wf(),
            nu == graph.u_nodes@.len(),
            nv == graph.v_nodes@.len(),
            mates_ok(*graph, u_mate@, v_mate@),
            count_matched(v_mate@) <= nv,
            maximal ==> forall|m: Seq<(usize, usize)>|
                is_matching(*graph, m) ==> m.len() <= count_matched(v_mate@),
        decreases (nv - count_matched(v_mate@)), (if maximal {
            0int
        } else {
            1int
        }),
    {
        let ghost phase_count = count_matched(v_mate@);
        let dist = bfs_layers(graph, &u_mate, &v_mate);
        let mut i: usize = 0;
        while i < nu
            invariant
                graph.wf(),
                nu == graph.u_nodes@.len(),
                nv == graph.v_nodes@.len(),
                mates_ok(*graph, u_mate@, v_mate@),
                dist@.len() == nu,
                i <= nu,
                count_matched(v_mate@) >= phase_count,
                count_matched(v_mate@) <= nv,
            decreases nu - i,
        {
            if u_mate[i].is_none() {
                match dfs_path(graph, &u_mate, &v_mate, &dist, i, nu) {
                    Some(path) => {
                        if check_path(graph, &u_mate, &v_mate, &path) {
                            augment(graph, &mut u_mate, &mut v_mate, &path);
                            proof {
                                lemma_count_bounded(v_mate@);
                            }
                        }
                    },
                    None => {},
                }
            }
            i += 1;
        }
        // The complete search settles the phase.
        let (st, free_v) = saturate(graph, &u_mate, &v_mate);
        match free_v {
            Some(v0) => {
                let path = extract_path(graph, &u_mate, &v_mate, &st, v0);
                augment(graph, &mut u_mate, &mut v_mate, &path);
                proof {
                    lemma_count_bounded(v_mate@);
                }
            },
            None => {
                proof {
                    lemma_marks_give_maximality(*graph, u_mate@, v_mate@, st);
                }
                maximal = true;
            },
        }
    }
    // Read the matching off the right mate array, so that its length is
    // the matched count.
    let mut matching: Vec<(usize, usize)> = Vec::new();
    let mut j: usize = 0;
    proof {
        assert(v_mate@.subrange(0, 0) =~= Seq::<Option<usize>>::empty());
    }
    while j < nv
        invariant
            graph.wf(),
            nu == graph.u_nodes@.len(),
            nv == v_mate@.len(),
            mates_ok(*graph, u_mate@, v_mate@),
            j <= nv,
            matching@.len() == count_matched(v_mate@.subrange(0, j as int)),
            forall|k: int|
                0 <= k < matching@.len() ==> ((#[trigger] matching@[k]).1 as int) < j && v_mate@[
                    matching@[k].1 as int
                ] == Some(matching@[k].0),
            forall|a: int, b: int| 0 <= a < b < matching@.len() ==> matching@[a].1 != matching@[b].1,
            maximal ==> forall|m: Seq<(usize, usize)>|
                is_matching(*graph, m) ==> m.len() <= count_matched(v_mate@),
            maximal,
        decreases nv - j,
    {
        proof {
            let prefix = v_mate@.subrange(0, j as int);
            let prefix1 = v_mate@.subrange(0, j + 1);
            assert(prefix1.drop_last() =~= prefix);
            assert(prefix1.last() == v_mate@[j as int]);
        }
        match v_mate[j] {
            Some(u) => {
                matching.push((u, j));
            },
            None => {},
        }
        j += 1;
    }
    proof {
        assert(v_mate@.subrange(0, nv as int) =~= v_mate@);
        assert(matching@.len() == count_matched(v_mate@));
        assert forall|k: int| 0 <= k < matching@.len() implies graph.edge_pairs().contains(
            #[trigger] matching@[k],
        ) by {
            let jj = matching@[k].1 as int;
            assert(v_mate@[jj] == Some(matching@[k].0));
            assert(u_mate@[matching@[k].0 as int] == Some(matching@[k].1));
        }
        assert forall|a: int, b: int| 0 <= a < b < matching@.len() implies matching@[a].0
            != matching@[b].0 && matching@[a].1 != matching@[b].1 by {
            if matching@[a].0 == matching@[b].0 {
                let ja = matching@[a].1 as int;
                let jb = matching@[b].1 as int;
                assert(v_mate@[ja] == Some(matching@[a].0));
                assert(v_mate@[jb] == Some(matching@[b].0));
                let ii = matching@[a].0 as int;
                assert(u_mate@[ii] == Some(matching@[a].1));
                assert(u_mate@[ii] == Some(matching@[b].1));
            }
        }
        let lefts_seq = matching@.map_values(|pr: (usize, usize)| pr.0);
        let rights_seq = matching@.map_values(|pr: (usize, usize)| pr.1);
        assert forall|k: int| 0 <= k < lefts_seq.len() implies ((#[trigger] lefts_seq[k]) as nat)
            < graph.u_nodes@.len() by {
            let jj = matching@[k].1 as int;
            assert(v_mate@[jj] == Some(matching@[k].0));
        }
        lemma_distinct_bounded(lefts_seq, graph.u_nodes@.len() as nat);
        lemma_distinct_bounded(rights_seq, graph.v_nodes@.len() as nat);
    }
    matching
}


/// The state of one alternating search: which nodes have been reached by
/// alternating paths from the free left nodes, through which neighbor or
/// mate each was first reached, and when.  The discovery times make the
/// parent structure well-founded, so a reached free right node yields a
/// genuine augmenting path.
struct SearchState {
    zl: Vec<bool>,
    zr: Vec<bool>,
    vparent: Vec<usize>,
    lvia: Vec<usize>,
    tl: Vec<u128>,
    tr: Vec<u128>,
}

/// A reached right node was reached from a reached left neighbor that was
/// discovered earlier.
spec fn vmark_ok<Key>(g: Bigraph<Key>, st: SearchState, v: int) -> bool {
    let u = st.vparent@[v] as int;
    &&& 0 <= u < st.zl@.len()
    &&& st.zl@[u]
    &&& g.u_adj()[u].contains(v as usize)
    &&& st.tl@[u] < st.tr@[v]
}

/// A reached left node is free, or was reached through its mate, which
/// was discovered earlier.
spec fn lmark_ok(
    um: Seq<Option<usize>>,
    vm: Seq<Option<usize>>,
    st: SearchState,
    u: int,
) -> bool {
    match um[u] {
        None => true,
        Some(_) => {
            let v = st.lvia@[u] as int;
            &&& 0 <= v < st.zr@.len()
            &&& st.zr@[v]
            &&& vm[v] == Some(u as usize)
            &&& st.tr@[v] < st.tl@[u]
        },
    }
}

/// The search state is well-formed over the graph and the mate arrays.
spec fn marks_wf<Key>(
    g: Bigraph<Key>,
    um: Seq<Option<usize>>,
    vm: Seq<Option<usize>>,
    st: SearchState,
) -> bool {
    &&& st.zl@.len() == g.u_nodes@.len()
    &&& st.zr@.len() == g.v_nodes@.len()
    &&& st.vparent@.len() == g.v_nodes@.len()
    &&& st.lvia@.len() == g.u_nodes@.len()
    &&& st.tl@.len() == g.u_nodes@.len()
    &&& st.tr@.len() == g.v_nodes@.len()
    &&& um.len() == g.u_nodes@.len()
    &&& vm.len() == g.v_nodes@.len()
    &&& forall|v: int| 0 <= v < st.zr@.len() && #[trigger] st.zr@[v] ==> vmark_ok(g, st, v)
    &&& forall|u: int| 0 <= u < st.zl@.len() && #[trigger] st.zl@[u] ==> lmark_ok(um, vm, st, u)
}

/// Alternating breadth-first search from every free left node.  It stops
/// early when it reaches a free right node (an augmenting path exists and
/// the recorded parents describe it); otherwise the marks are saturated
/// and certify, through `lemma_marks_give_maximality`, that the current
/// matching is maximum.
fn saturate<Key>(
    graph: &Bigraph<Key>,
    u_mate: &Vec<Option<usize>>,
    v_mate: &Vec<Option<usize>>,
) -> (r: (SearchState, Option<usize>))
    requires
        graph.wf(),
        mates_ok(*graph, u_mate@, v_mate@),
    ensures
        marks_wf(*graph, u_mate@, v_mate@, r.0),
        forall|u: int| 0 <= u < u_mate@.len() && u_mate@[u] is None ==> r.0.zl@[u],
        forall|v: int|
            0 <= v < v_mate@.len() && #[trigger] r.0.zr@[v] ==> match v_mate@[v] {
                Some(w) => (w as int) < u_mate@.len() && r.0.zl@[w as int],
                None => true,
            },
        match r.1 {
            Some(v0) => (v0 as int) < v_mate@.len() && r.0.zr@[v0 as int] && v_mate@[v0 as int]
                is None,
            None => {
                &&& forall|u: int, q: int|
                    0 <= u < u_mate@.len() && r.0.zl@[u] && 0 <= q < graph.u_adj()[u].len()
                        ==> r.0.zr@[(#[trigger] graph.u_adj()[u][q]) as int]
                &&& forall|v: int|
                    0 <= v < v_mate@.len() && #[trigger] r.0.zr@[v] ==> v_mate@[v] is Some
            },
        },
{
    let nu = graph.u_nodes.len();
    let nv = graph.v_nodes.len();
    proof {
        lemma_wf_adjacency_bounds(*graph);
    }
    let mut st = SearchState {
        zl: Vec::new(),
        zr: Vec::new(),
        vparent: Vec::new(),
        lvia: Vec::new(),
        tl: Vec::new(),
        tr: Vec::new(),
    };
    let mut i: usize = 0;
    while i < nu
        invariant
            i <= nu,
            st.zl@.len() == i,
            st.lvia@.len() == i,
            st.tl@.len() == i,
            st.zr@.len() == 0,
            st.vparent@.len() == 0,
            st.tr@.len() == 0,
            forall|k: int| 0 <= k < i ==> !(#[trigger] st.zl@[k]),
        decreases nu - i,
    {
        st.zl.push(false);
        st.lvia.push(0);
        st.tl.push(0);
        i += 1;
    }
    let mut j: usize = 0;
    while j < nv
        invariant
            j <= nv,
            st.zl@.len() == nu,
            st.lvia@.len() == nu,
            st.tl@.len() == nu,
            st.zr@.len() == j,
            st.vparent@.len() == j,
            st.tr@.len() == j,
            forall|k: int| 0 <= k < nu ==> !(#[trigger] st.zl@[k]),
            forall|k: int| 0 <= k < j ==> !(#[trigger] st.zr@[k]),
        decreases nv - j,
    {
        st.zr.push(false);
        st.vparent.push(0);
        st.tr.push(0);
        j += 1;
    }
    // Seed: every free left node is reached at once.
    proof {
        crate::util::lemma_count_marked_all_clear(st.zl@);
        crate::util::lemma_count_marked_all_clear(st.zr@);
    }
    let mut ctr: u128 = 0;
    let mut queue: Vec<usize> = Vec::new();
    let mut i: usize = 0;
    while i < nu
        invariant
            graph.wf(),
            mates_ok(*graph, u_mate@, v_mate@),
            nu == graph.u_nodes@.len(),
            nv == graph.v_nodes@.len(),
            i <= nu,
            marks_wf(*graph, u_mate@, v_mate@, st),
            forall|u: int| 0 <= u < i && u_mate@[u] is None ==> st.zl@[u],
            forall|v: int| 0 <= v < nv ==> !(#[trigger] st.zr@[v]),
            forall|k: int| 0 <= k < queue@.len() ==> ((#[trigger] queue@[k]) as int) < nu,
            forall|k: int| 0 <= k < queue@.len() ==> st.zl@[(#[trigger] queue@[k]) as int],
            forall|a: int, b: int| 0 <= a < b < queue@.len() ==> queue@[a] != queue@[b],
            forall|u: int| 0 <= u < nu && #[trigger] st.zl@[u] ==> queue@.contains(u as usize),
            forall|u: int| 0 <= u < nu && #[trigger] st.zl@[u] ==> st.tl@[u] < ctr,
            ctr as int == crate::util::count_marked(st.zl@),
        decreases nu - i,
    {
        if u_mate[i].is_none() && !st.zl[i] {
            proof {
                crate::util::lemma_count_marked_set(st.zl@, i as int);
                crate::util::lemma_count_marked_bounded(st.zl@);
            }
            let ghost old_queue = queue@;
            st.zl.set(i, true);
            st.tl.set(i, ctr);
            ctr = ctr + 1;
            queue.push(i);
            proof {
                assert forall|u: int|
                    0 <= u < nu && #[trigger] st.zl@[u] implies queue@.contains(u as usize) by {
                    if u == i as int {
                        assert(queue@[queue@.len() - 1] == i);
                    } else {
                        let w = choose|k: int| 0 <= k < old_queue.len() && old_queue[k] == u;
                        assert(queue@[w] == u as usize);
                    }
                }
            }
        }
        i += 1;
    }
    // Propagate: each reached left node reaches its neighbors, and each
    // matched reached right node reaches its mate.
    proof {
        crate::util::lemma_count_marked_all_clear(st.zr@);
    }
    let mut head: usize = 0;
    while head < queue.len()
        invariant
            graph.wf(),
            mates_ok(*graph, u_mate@, v_mate@),
            nu == graph.u_nodes@.len(),
            nv == graph.v_nodes@.len(),
            head <= queue@.len(),
            marks_wf(*graph, u_mate@, v_mate@, st),
            forall|u: int| 0 <= u < nu && u_mate@[u] is None ==> st.zl@[u],
            forall|v: int|
                0 <= v < nv && #[trigger] st.zr@[v] ==> v_mate@[v] is Some && (v_mate@[v]->0 as int)
                    < nu && st.zl@[v_mate@[v]->0 as int],
            forall|k: int| 0 <= k < queue@.len() ==> ((#[trigger] queue@[k]) as int) < nu,
            forall|k: int| 0 <= k < queue@.len() ==> st.zl@[(#[trigger] queue@[k]) as int],
            forall|a: int, b: int| 0 <= a < b < queue@.len() ==> queue@[a] != queue@[b],
            forall|u: int| 0 <= u < nu && #[trigger] st.zl@[u] ==> queue@.contains(u as usize),
            forall|u: int| 0 <= u < nu && #[trigger] st.zl@[u] ==> st.tl@[u] < ctr,
            forall|v: int| 0 <= v < nv && #[trigger] st.zr@[v] ==> st.tr@[v] < ctr,
            ctr as int == crate::util::count_marked(st.zl@) + crate::util::count_marked(st.zr@),
            forall|k: int, q: int|
                0 <= k < head && 0 <= q < graph.u_adj()[queue@[k] as int].len() ==> st.zr@[(
                #[trigger] graph.u_adj()[queue@[k] as int][q]) as int],
        decreases nu - head,
    {
        proof {
            lemma_distinct_bounded(queue@, nu as nat);
            lemma_wf_adjacency_bounds(*graph);
        }
        let x = queue[head];
        let row_len = graph.u_adjacency_list[x].len();
        let mut q: usize = 0;
        while q < row_len
            invariant
                graph.wf(),
                mates_ok(*graph, u_mate@, v_mate@),
                nu == graph.u_nodes@.len(),
                nv == graph.v_nodes@.len(),
                head < queue@.len(),
                queue@[head as int] == x,
                (x as int) < nu,
                row_len == graph.u_adj()[x as int].len(),
                q <= row_len,
                marks_wf(*graph, u_mate@, v_mate@, st),
                forall|u: int| 0 <= u < nu && u_mate@[u] is None ==> st.zl@[u],
                forall|v: int|
                    0 <= v < nv && #[trigger] st.zr@[v] ==> v_mate@[v] is Some && (v_mate@[v]->0
                        as int) < nu && st.zl@[v_mate@[v]->0 as int],
                forall|k: int| 0 <= k < queue@.len() ==> ((#[trigger] queue@[k]) as int) < nu,
                forall|k: int| 0 <= k < queue@.len() ==> st.zl@[(#[trigger] queue@[k]) as int],
                forall|a: int, b: int| 0 <= a < b < queue@.len() ==> queue@[a] != queue@[b],
                forall|u: int| 0 <= u < nu && #[trigger] st.zl@[u] ==> queue@.contains(u as usize),
                forall|u: int| 0 <= u < nu && #[trigger] st.zl@[u] ==> st.tl@[u] < ctr,
                forall|v: int| 0 <= v < nv && #[trigger] st.zr@[v] ==> st.tr@[v] < ctr,
                ctr as int == crate::util::count_marked(st.zl@) + crate::util::count_marked(
                    st.zr@,
                ),
                forall|k: int, q2: int|
                    0 <= k < head && 0 <= q2 < graph.u_adj()[queue@[k] as int].len() ==> st.zr@[(
                    #[trigger] graph.u_adj()[queue@[k] as int][q2]) as int],
                forall|q2: int|
                    0 <= q2 < q ==> st.zr@[(#[trigger] graph.u_adj()[x as int][q2]) as int],
            decreases row_len - q,
        {
            proof {
                lemma_wf_adjacency_bounds(*graph);
                assert(graph.u_adj()[x as int][q as int] == graph.u_adjacency_list@[x as int]@[
                    q as int
                ]);
            }
            let vv = graph.u_adjacency_list[x][q];
            if !st.zr[vv] {
                proof {
                    crate::util::lemma_count_marked_set(st.zr@, vv as int);
                    crate::util::lemma_count_marked_bounded(st.zr@);
                    crate::util::lemma_count_marked_bounded(st.zl@);
                    assert(graph.u_adj()[x as int].contains(graph.u_adj()[x as int][q as int]));
                }
                st.zr.set(vv, true);
                st.vparent.set(vv, x);
                st.tr.set(vv, ctr);
                ctr = ctr + 1;
                proof {
                    assert(vmark_ok(*graph, st, vv as int));
                }
                match v_mate[vv] {
                    None => {
                        return (st, Some(vv));
                    },
                    Some(w) => {
                        if !st.zl[w] {
                            proof {
                                crate::util::lemma_count_marked_set(st.zl@, w as int);
                                crate::util::lemma_count_marked_bounded(st.zl@);
                                crate::util::lemma_count_marked_bounded(st.zr@);
                            }
                            let ghost old_queue = queue@;
                            st.zl.set(w, true);
                            st.lvia.set(w, vv);
                            st.tl.set(w, ctr);
                            ctr = ctr + 1;
                            queue.push(w);
                            proof {
                                assert(lmark_ok(u_mate@, v_mate@, st, w as int));
                                assert forall|u: int|
                                    0 <= u < nu && #[trigger] st.zl@[u] implies queue@.contains(
                                    u as usize,
                                ) by {
                                    if u == w as int {
                                        assert(queue@[queue@.len() - 1] == w);
                                    } else {
                                        let w2 = choose|k: int|
                                            0 <= k < old_queue.len() && old_queue[k] == u;
                                        assert(queue@[w2] == u as usize);
                                    }
                                }
                            }
                        }
                    },
                }
            }
            q += 1;
        }
        head += 1;
    }
    (st, None)
}

/// Walks the recorded parents back from a reached free right node and
/// returns the augmenting path they describe.
fn extract_path<Key>(
    graph: &Bigraph<Key>,
    u_mate: &Vec<Option<usize>>,
    v_mate: &Vec<Option<usize>>,
    st: &SearchState,
    v0: usize,
) -> (r: Vec<(usize, usize)>)
    requires
        graph.wf(),
        mates_ok(*graph, u_mate@, v_mate@),
        marks_wf(*graph, u_mate@, v_mate@, *st),
        (v0 as int) < v_mate@.len(),
        st.zr@[v0 as int],
        v_mate@[v0 as int] is None,
    ensures
        valid_path(*graph, u_mate@, v_mate@, r@),
{
    let nu = graph.u_nodes.len();
    let nv = graph.v_nodes.len();
    // Walk back: rev holds the path from its free right end to its free
    // left start.
    let mut rev: Vec<(usize, usize)> = Vec::new();
    let mut v_cur: usize = v0;
    loop
        invariant_except_break
            rev@.len() == 0 ==> v_cur == v0 && v_mate@[v0 as int] is None,
            rev@.len() > 0 ==> v_mate@[v_cur as int] == Some(rev@.last().0),
            rev@.len() > 0 ==> st.tr@[v_cur as int] < st.tl@[rev@.last().0 as int],
            rev@.len() > 0 ==> st.tr@[v_cur as int] < st.tr@[rev@.last().1 as int],
        invariant
            graph.wf(),
            mates_ok(*graph, u_mate@, v_mate@),
            marks_wf(*graph, u_mate@, v_mate@, *st),
            nu == graph.u_nodes@.len(),
            nv == graph.v_nodes@.len(),
            (v_cur as int) < nv,
            st.zr@[v_cur as int],
            forall|t: int|
                0 <= t < rev@.len() ==> ((#[trigger] rev@[t]).0 as int) < nu && ((rev@[t]).1 as int)
                    < nv && graph.u_adj()[rev@[t].0 as int].contains(rev@[t].1),
            rev@.len() > 0 ==> v_mate@[rev@[0].1 as int] is None,
            forall|t: int| 1 <= t < rev@.len() ==> v_mate@[(#[trigger] rev@[t]).1 as int] == Some(
                rev@[t - 1].0,
            ),
            forall|t: int|
                0 <= t < rev@.len() ==> st.zl@[(#[trigger] rev@[t]).0 as int] && st.zr@[rev@[
                    t
                ].1 as int],
            forall|a: int, b: int|
                0 <= a < b < rev@.len() ==> st.tl@[(#[trigger] rev@[a]).0 as int] > st.tl@[(
                #[trigger] rev@[b]).0 as int] && st.tr@[rev@[a].1 as int] > st.tr@[rev@[b].1 as int],
            forall|t: int|
                0 <= t < rev@.len() ==> st.tr@[(#[trigger] rev@[t]).1 as int] > st.tl@[rev@[
                    t
                ].0 as int],
        ensures
            rev@.len() >= 1,
            u_mate@[rev@.last().0 as int] is None,
            rev@.len() > 0 ==> v_mate@[rev@[0].1 as int] is None,
            forall|t: int|
                0 <= t < rev@.len() ==> ((#[trigger] rev@[t]).0 as int) < nu && ((rev@[t]).1 as int)
                    < nv && graph.u_adj()[rev@[t].0 as int].contains(rev@[t].1),
            forall|t: int| 1 <= t < rev@.len() ==> v_mate@[(#[trigger] rev@[t]).1 as int] == Some(
                rev@[t - 1].0,
            ),
            forall|a: int, b: int|
                0 <= a < b < rev@.len() ==> st.tl@[(#[trigger] rev@[a]).0 as int] > st.tl@[(
                #[trigger] rev@[b]).0 as int] && st.tr@[rev@[a].1 as int] > st.tr@[rev@[b].1 as int],
        decreases st.tr@[v_cur as int],
    {
        proof {
            assert(vmark_ok(*graph, *st, v_cur as int));
        }
        let u = st.vparent[v_cur];
        let ghost prev_rev = rev@;
        rev.push((u, v_cur));
        proof {
            assert(rev@.last() == (u, v_cur));
            assert(forall|t: int| 0 <= t < prev_rev.len() ==> rev@[t] == prev_rev[t]);
            assert(lmark_ok(u_mate@, v_mate@, *st, u as int));
            let l2 = rev@.len() as int;
            assert forall|a: int, b: int|
                0 <= a < b < l2 implies st.tl@[(#[trigger] rev@[a]).0 as int] > st.tl@[(
            #[trigger] rev@[b]).0 as int] && st.tr@[rev@[a].1 as int] > st.tr@[rev@[
                b
            ].1 as int] by {
                if b == l2 - 1 {
                    assert(rev@[a] == prev_rev[a]);
                    if a < prev_rev.len() - 1 {
                        assert(st.tl@[prev_rev[a].0 as int] > st.tl@[prev_rev[prev_rev.len()
                            - 1].0 as int]);
                        assert(st.tr@[prev_rev[a].1 as int] > st.tr@[prev_rev[prev_rev.len()
                            - 1].1 as int]);
                    }
                    assert(st.tl@[prev_rev[prev_rev.len() - 1].0 as int] > st.tr@[v_cur as int]);
                    assert(st.tr@[v_cur as int] > st.tl@[u as int]);
                }
            }
        }
        if u_mate[u].is_none() {
            break;
        }
        v_cur = st.lvia[u];
    }
    // Reverse into arrival order: free left start to free right end.
    let total = rev.len();
    let mut path: Vec<(usize, usize)> = Vec::new();
    let mut s2: usize = 0;
    while s2 < total
        invariant
            total == rev@.len(),
            s2 <= total,
            path@.len() == s2,
            forall|t: int| 0 <= t < s2 ==> #[trigger] path@[t] == rev@[total - 1 - t],
        decreases total - s2,
    {
        path.push(rev[total - 1 - s2]);
        s2 += 1;
    }
    proof {
        let p = path@;
        let rv = rev@;
        let l = rv.len() as int;
        assert forall|t: int| 0 <= t < p.len() implies #[trigger] step_ok(*graph, p, t) by {
            assert(p[t] == rv[l - 1 - t]);
        }
        assert(p[0] == rv[l - 1]);
        assert(u_mate@[p[0].0 as int] is None);
        assert(p[p.len() - 1] == rv[0]);
        assert(v_mate@[p[p.len() - 1].1 as int] is None);
        assert forall|t: int| 0 <= t < p.len() - 1 implies #[trigger] link_ok(v_mate@, p, t) by {
            assert(p[t] == rv[l - 1 - t]);
            assert(p[t + 1] == rv[l - 2 - t]);
            assert(v_mate@[rv[l - 1 - t - 1 + 1].1 as int] == Some(rv[l - 1 - t - 1].0));
        }
        assert forall|a: int, b: int| 0 <= a < b < p.len() implies p[a].0 != p[b].0 && p[a].1
            != p[b].1 by {
            assert(p[a] == rv[l - 1 - a]);
            assert(p[b] == rv[l - 1 - b]);
            assert(st.tl@[rv[l - 1 - b].0 as int] > st.tl@[rv[l - 1 - a].0 as int]);
            assert(st.tr@[rv[l - 1 - b].1 as int] > st.tr@[rv[l - 1 - a].1 as int]);
        }
    }
    path
}

/// A list of distinct right positions, each matched, is no longer than
/// the matched count.
proof fn lemma_charges_bound(vm: Seq<Option<usize>>, cs: Seq<usize>)
    requires
        forall|k: int| 0 <= k < cs.len() ==> ((#[trigger] cs[k]) as int) < vm.len() && vm[cs[
            k
        ] as int] is Some,
        forall|a: int, b: int| 0 <= a < b < cs.len() ==> cs[a] != cs[b],
    ensures
        cs.len() <= count_matched(vm),
    decreases cs.len(),
{
    if cs.len() > 0 {
        let j = cs.last() as int;
        let vm2 = vm.update(j, None);
        lemma_count_update_clear(vm, j);
        assert(cs.last() == cs[cs.len() - 1]);
        assert(forall|k: int| 0 <= k < cs.len() - 1 ==> cs.drop_last()[k] == cs[k]);
        assert forall|k: int|
            0 <= k < cs.drop_last().len() implies ((#[trigger] cs.drop_last()[k]) as int)
            < vm2.len() && vm2[cs.drop_last()[k] as int] is Some by {
            assert(cs[k] != cs[cs.len() - 1]);
        }
        lemma_charges_bound(vm2, cs.drop_last());
    }
}

/// Clearing one slot lowers the matched count exactly when it was matched.
proof fn lemma_count_update_clear(m: Seq<Option<usize>>, pos: int)
    requires
        0 <= pos < m.len(),
    ensures
        count_matched(m.update(pos, None)) == count_matched(m) - (if m[pos] is Some {
            1int
        } else {
            0int
        }),
    decreases m.len(),
{
    let m2 = m.update(pos, None);
    if pos == m.len() - 1 {
        assert(m2.drop_last() =~= m.drop_last());
        assert(m2.last() is None);
        assert(m.last() == m[pos]);
    } else {
        assert(m2.drop_last() =~= m.drop_last().update(pos, None));
        assert(m2.last() == m.last());
        lemma_count_update_clear(m.drop_last(), pos);
    }
}

/// The right position each matching pair is charged to: its own right
/// node where the left node was not reached, else the mate of its left
/// node.
spec fn charge_of(
    um: Seq<Option<usize>>,
    zl: Seq<bool>,
    m: Seq<(usize, usize)>,
    k: int,
) -> usize {
    if !zl[m[k].0 as int] {
        um[m[k].0 as int]->0
    } else {
        m[k].1
    }
}

/// The saturated marks certify maximality: the unreached left nodes
/// together with the reached right nodes cover every edge and are all
/// matched, pairwise differently, so no matching is larger than the
/// current one.
proof fn lemma_marks_give_maximality<Key>(
    g: Bigraph<Key>,
    um: Seq<Option<usize>>,
    vm: Seq<Option<usize>>,
    st: SearchState,
)
    requires
        g.wf(),
        mates_ok(g, um, vm),
        marks_wf(g, um, vm, st),
        forall|u: int| 0 <= u < um.len() && um[u] is None ==> st.zl@[u],
        forall|v: int|
            0 <= v < vm.len() && #[trigger] st.zr@[v] ==> match vm[v] {
                Some(w) => (w as int) < um.len() && st.zl@[w as int],
                None => true,
            },
        forall|u: int, q: int|
            0 <= u < um.len() && st.zl@[u] && 0 <= q < g.u_adj()[u].len() ==> st.zr@[(
            #[trigger] g.u_adj()[u][q]) as int],
        forall|v: int| 0 <= v < vm.len() && #[trigger] st.zr@[v] ==> vm[v] is Some,
    ensures
        forall|m: Seq<(usize, usize)>| is_matching(g, m) ==> m.len() <= count_matched(vm),
{
    assert forall|m: Seq<(usize, usize)>| is_matching(g, m) implies m.len() <= count_matched(
        vm,
    ) by {
        let cs = Seq::new(m.len(), |k: int| charge_of(um, st.zl@, m, k));
        assert forall|k: int|
            0 <= k < cs.len() implies ((#[trigger] cs[k]) as int) < vm.len() && vm[cs[k] as int]
            is Some by {
            lemma_charge_valid(g, um, vm, st, m, k);
        }
        assert forall|a: int, b: int| 0 <= a < b < cs.len() implies cs[a] != cs[b] by {
            lemma_charge_valid(g, um, vm, st, m, a);
            lemma_charge_valid(g, um, vm, st, m, b);
            if cs[a] == cs[b] {
                let ua = m[a].0 as int;
                let ub = m[b].0 as int;
                if !st.zl@[ua] && !st.zl@[ub] {
                    assert(vm[um[ua]->0 as int] == Some(m[a].0));
                    assert(vm[um[ub]->0 as int] == Some(m[b].0));
                    assert(m[a].0 == m[b].0);
                } else if !st.zl@[ua] && st.zl@[ub] {
                    // The charge is both the mate of an unreached left node
                    // and a reached right node, which forces the left node
                    // to be reached.
                    let j = um[ua]->0 as int;
                    assert(st.zr@[j]);
                    assert(vm[j] == Some(m[a].0));
                    assert(st.zl@[ua]);
                } else if st.zl@[ua] && !st.zl@[ub] {
                    let j = um[ub]->0 as int;
                    assert(st.zr@[j]);
                    assert(vm[j] == Some(m[b].0));
                    assert(st.zl@[ub]);
                } else {
                    assert(m[a].1 == m[b].1);
                }
            }
        }
        lemma_charges_bound(vm, cs);
    }
}

/// Each charged position indexes a matched right node.
proof fn lemma_charge_valid<Key>(
    g: Bigraph<Key>,
    um: Seq<Option<usize>>,
    vm: Seq<Option<usize>>,
    st: SearchState,
    m: Seq<(usize, usize)>,
    k: int,
)
    requires
        g.wf(),
        mates_ok(g, um, vm),
        marks_wf(g, um, vm, st),
        is_matching(g, m),
        0 <= k < m.len(),
        forall|u: int| 0 <= u < um.len() && um[u] is None ==> st.zl@[u],
        forall|u: int, q: int|
            0 <= u < um.len() && st.zl@[u] && 0 <= q < g.u_adj()[u].len() ==> st.zr@[(
            #[trigger] g.u_adj()[u][q]) as int],
        forall|v: int| 0 <= v < vm.len() && #[trigger] st.zr@[v] ==> vm[v] is Some,
    ensures
        (charge_of(um, st.zl@, m, k) as int) < vm.len(),
        vm[charge_of(um, st.zl@, m, k) as int] is Some,
        !st.zl@[m[k].0 as int] ==> um[m[k].0 as int] is Some && charge_of(um, st.zl@, m, k)
            == um[m[k].0 as int]->0 && vm[um[m[k].0 as int]->0 as int] == Some(m[k].0),
        st.zl@[m[k].0 as int] ==> charge_of(um, st.zl@, m, k) == m[k].1 && st.zr@[m[k].1 as int],
{
    let (u, v) = m[k];
    assert(g.edge_pairs().contains(m[k]));
    let w = choose|w: int| 0 <= w < g.edge_pairs().len() && g.edge_pairs()[w] == m[k];
    assert(g.edge_ok(w));
    if !st.zl@[u as int] {
        assert(um[u as int] is Some);
        let j = um[u as int]->0;
        assert(vm[j as int] == Some(u));
    } else {
        // The edge (u, v) puts v in u's neighbor row, so v is reached.
        assert(g.u_adj()[u as int] == adj_of(g.edge_pairs(), u as int));
        crate::bigraph::lemma_adj_of_complete(g.edge_pairs(), u as int, v);
        let q = choose|q: int|
            0 <= q < g.u_adj()[u as int].len() && g.u_adj()[u as int][q] == v;
        assert(st.zr@[(g.u_adj()[u as int][q]) as int]);
    }
}

/// Two maximum matchings of one graph have the same size: the maximum
/// matching size is a function of the graph alone.
pub proof fn lemma_maximum_size_unique<Key>(
    g: Bigraph<Key>,
    m1: Seq<(usize, usize)>,
    m2: Seq<(usize, usize)>,
)
    requires
        is_matching(g, m1),
        is_matching(g, m2),
        forall|m: Seq<(usize, usize)>| is_matching(g, m) ==> m.len() <= m1.len(),
        forall|m: Seq<(usize, usize)>| is_matching(g, m) ==> m.len() <= m2.len(),
    ensures
        m1.len() == m2.len(),
{
    assert(m1.len() <= m2.len());
    assert(m2.len() <= m1.len());
}

/// A mate array of `None`s has no matches.
proof fn lemma_count_all_none(m: Seq<Option<usize>>)
    requires
        forall|k: int| 0 <= k < m.len() ==> m[k] is None,
    ensures
        count_matched(m) == 0,
    decreases m.len(),
{
    if m.len() > 0 {
        assert(forall|k: int| 0 <= k < m.len() - 1 ==> m.drop_last()[k] == m[k]);
        lemma_count_all_none(m.drop_last());
        assert(m.last() == m[m.len() - 1]);
    }
}

/// The matched count never exceeds the array length.
proof fn lemma_count_bounded(m: Seq<Option<usize>>)
    ensures
        count_matched(m) <= m.len(),
    decreases m.len(),
{
    if m.len() > 0 {
        lemma_count_bounded(m.drop_last());
    }
}

} // verus!
