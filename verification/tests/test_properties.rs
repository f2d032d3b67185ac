use onlinematching::adwords::{greedy_worst_case, Greddy};
use onlinematching::bigraph::{edges_are_distinct, Bigraph};
use onlinematching::matching::hopcroft_karp_matching;
use onlinematching::online::{random_worst_case, ranking_worst_case, Random, Ranking};
use onlinematching::randomness::RandomSource;
use onlinematching::weightedbigraph::wedges_are_distinct;
use onlinematching::stochastic::{from_nonweight_edges, probs_in_range, simplist};

#[test]
fn node_lists_count_distinct_keys() {
    // Four edges over three left keys and two right keys.
    let g = Bigraph::from_edges(&vec![(10, 1), (20, 1), (30, 2), (10, 2)]);
    assert_eq!(g.u_nodes, vec![10, 20, 30]);
    assert_eq!(g.v_nodes, vec![1, 2]);
    // Every adjacency index is within bounds on its side.
    for row in g.v_adjacency_list.iter() {
        for &u in row.iter() {
            assert!(u < g.u_nodes.len());
        }
    }
    for row in g.u_adjacency_list.iter() {
        for &v in row.iter() {
            assert!(v < g.v_nodes.len());
        }
    }
}

#[test]
fn duplicate_edges_are_refused_and_unique_edges_kept() {
    // A duplicate edge fails the construction precondition.
    let dup = vec![(1, 1), (2, 2), (1, 1)];
    assert!(!edges_are_distinct(&dup));
    // An all-unique list passes it and keeps the exact edge count.
    let unique = vec![(1, 1), (2, 2), (1, 2), (2, 1)];
    assert!(edges_are_distinct(&unique));
    let g = Bigraph::from_edges(&unique);
    assert_eq!(g.nodes_edges.len(), 4);
    assert_eq!(g.nodes_edges, unique);
}

#[test]
fn maximum_matching_is_a_matching_of_bounded_size() {
    let g = Bigraph::from_edges(&vec![(0, 0), (0, 1), (1, 0), (2, 0), (2, 1)]);
    let m = hopcroft_karp_matching(&g);
    assert!(m.len() <= g.u_nodes.len());
    assert!(m.len() <= g.v_nodes.len());
    for a in 0..m.len() {
        for b in (a + 1)..m.len() {
            assert_ne!(m[a].0, m[b].0);
            assert_ne!(m[a].1, m[b].1);
        }
    }
    // The size is deterministic across repeated runs on the same graph.
    let m2 = hopcroft_karp_matching(&g);
    assert_eq!(m.len(), m2.len());
}

#[test]
fn example_graph_has_maximum_matching_three() {
    let edges = vec![
        ("a", "1"),
        ("a", "2"),
        ("b", "1"),
        ("b", "3"),
        ("c", "2"),
        ("c", "3"),
        ("d", "3"),
    ];
    let g = Bigraph::from_edges(&edges);
    assert_eq!(g.u_nodes.len(), 4);
    assert_eq!(g.v_nodes.len(), 3);
    let m = hopcroft_karp_matching(&g);
    assert_eq!(m.len(), 3);
}

#[test]
fn greedy_on_the_two_node_instance_realizes_half_the_optimum() {
    let n: usize = 1000;
    let g = greedy_worst_case(n);
    let mut rng = RandomSource::from_seed(23);
    let alg = g.ALG::<Greddy>(&mut rng);
    // Bids are in hundredths: the realized load is at most 2 n units and
    // strictly below the optimum of about 1.99 n units.
    assert!(alg <= 200 * n as u128);
    assert!(alg < 199 * n as u128);
    // Greedy fills exactly one budget of n units here.
    assert_eq!(alg, 100 * n as u128);
}

#[test]
fn greedy_fills_every_thick_triangle_budget() {
    let g = onlinematching::adwords::thick_triangle_case(4, 3);
    let mut rng = RandomSource::from_seed(41);
    // Unit bids fill all three budgets of four completely.
    assert_eq!(g.ALG::<Greddy>(&mut rng), 12);
}

#[test]
fn random_on_blown_up_instance_approaches_one_half() {
    let n = 50;
    let graph = random_worst_case(n);
    let opt = graph.OPT();
    assert_eq!(opt, 2 * n);
    let mut rng = RandomSource::from_seed(29);
    let trials = 10000;
    let mut total: u64 = 0;
    for _ in 0..trials {
        total += graph.ALG::<Random>(&mut rng) as u64;
    }
    let ratio = total as f64 / (trials as f64 * opt as f64);
    println!("random blown-up ratio = {:?}", ratio);
    assert!(ratio > 0.45);
    assert!(ratio < 0.75);
}

#[test]
fn ranking_on_staircase_approaches_one_minus_inverse_e() {
    let n = 100;
    let graph = ranking_worst_case(n);
    let opt = graph.OPT();
    assert_eq!(opt, n);
    let mut rng = RandomSource::from_seed(31);
    let trials = 2000;
    let mut total: u64 = 0;
    for _ in 0..trials {
        let alg = graph.ALG::<Ranking>(&mut rng);
        // The match count never exceeds either side.
        assert!(alg <= graph.bigraph.u_nodes.len());
        assert!(alg <= graph.bigraph.v_nodes.len());
        total += alg as u64;
    }
    let ratio = total as f64 / (trials as f64 * opt as f64);
    println!("ranking staircase ratio = {:?}", ratio);
    assert!(ratio > 0.60);
    assert!(ratio < 0.67);
}

#[test]
fn building_twice_from_one_list_gives_identical_graphs() {
    let edges = vec![(5, 50), (6, 50), (5, 60), (7, 70), (6, 60)];
    let g1 = Bigraph::from_edges(&edges);
    let g2 = Bigraph::from_edges(&edges);
    assert_eq!(g1, g2);
    assert_eq!(g1.u_nodes, g2.u_nodes);
    assert_eq!(g1.v_nodes, g2.v_nodes);
}

#[test]
fn insert_reports_duplicate_keys_per_side() {
    let mut g = Bigraph::from_edges(&vec![(1, 10)]);
    assert_eq!(
        g.insert_u(1),
        Err(String::from("The u nodes already have this key"))
    );
    assert_eq!(
        g.insert_v(10),
        Err(String::from("The v nodes already have this key"))
    );
    assert_eq!(g.insert_u(2), Ok(()));
    assert_eq!(g.insert_v(20), Ok(()));
    // A key may appear on both sides: the universes are disjoint.
    assert_eq!(g.insert_u(10), Ok(()));
    assert_eq!(g.u_nodes, vec![1, 2, 10]);
    assert_eq!(g.v_nodes, vec![10, 20]);
}

#[test]
fn probability_range_guard_detects_out_of_range_weights() {
    let ok = simplist(4);
    assert!(probs_in_range(&ok.weighted_bigraph));
    let too_big =
        onlinematching::weightedbigraph::WBigraph::from_edges(&vec![((0usize, 0usize), 2000000u64)]);
    assert!(!probs_in_range(&too_big));
}

#[test]
fn weighted_duplicate_key_pairs_are_refused_whatever_the_weight() {
    // The same key pair twice is a duplicate even with different weights.
    let dup = vec![(("a", "x"), 1), (("b", "x"), 2), (("a", "x"), 3)];
    assert!(!wedges_are_distinct(&dup));
    let unique = vec![(("a", "x"), 1), (("b", "x"), 1), (("a", "y"), 1)];
    assert!(wedges_are_distinct(&unique));
    let g = onlinematching::weightedbigraph::WBigraph::from_edges(&unique);
    assert_eq!(g.nodes_edges.len(), 3);
}

#[test]
fn instance_builders_have_their_stated_shapes() {
    // Thick triangle with m = 4, n = 3: 3 offline and 12 online nodes in
    // index order, 24 unit-weight edges, budgets [4; 3].
    let t = onlinematching::adwords::thick_triangle_case(4, 3);
    assert_eq!(t.weighted_bigraph.u_nodes, vec![0, 1, 2]);
    assert_eq!(t.weighted_bigraph.v_nodes, (0..12).collect::<Vec<usize>>());
    assert_eq!(t.weighted_bigraph.nodes_edges.len(), 24);
    assert_eq!(t.online_budget, vec![4, 4, 4]);
    // Staircase with n = 4: 4 nodes per side, 10 edges.
    let st = ranking_worst_case(4);
    assert_eq!(st.bigraph.u_nodes, vec![0, 1, 2, 3]);
    assert_eq!(st.bigraph.v_nodes, vec![0, 1, 2, 3]);
    assert_eq!(st.bigraph.nodes_edges.len(), 10);
    // Blown-up two-by-two with n = 2: 4 nodes per side, diagonal prefix
    // then the complete block, 8 edges in all.
    let bl = random_worst_case(2);
    assert_eq!(bl.bigraph.u_nodes, vec![0, 1, 2, 3]);
    assert_eq!(bl.bigraph.v_nodes, vec![0, 1, 2, 3]);
    assert_eq!(bl.bigraph.nodes_edges.len(), 8);
    assert_eq!(bl.bigraph.nodes_edges[0], (0, 0));
    // The two-block greedy instance with n = 2: bids in hundredths.
    let gw = greedy_worst_case(2);
    assert_eq!(gw.weighted_bigraph.u_nodes, vec![0, 1]);
    assert_eq!(gw.weighted_bigraph.v_nodes, vec![0, 1, 2, 3]);
    assert_eq!(gw.weighted_bigraph.nodes_edges.len(), 6);
    assert_eq!(gw.weighted_bigraph.nodes_edges[0], ((0, 0), 99));
    assert_eq!(gw.weighted_bigraph.nodes_edges[5], ((1, 3), 100));
    // The simplest stochastic instance with m = 4: one offline node and
    // four quarter-probability edges.
    let sp = simplist(4);
    assert_eq!(sp.weighted_bigraph.u_nodes, vec![0]);
    assert_eq!(sp.weighted_bigraph.nodes_edges.len(), 4);
    assert_eq!(sp.weighted_bigraph.nodes_edges[2], ((0, 2), 250000));
}

#[test]
fn arrival_sequence_is_ordered_and_restartable() {
    let g = Bigraph::from_edges(&vec![(0, 10), (1, 10), (1, 20)]);
    let view = g.into_online();
    let mut it = view.iter();
    let first = it.next().expect("two online nodes");
    assert_eq!(first, &vec![0, 1]);
    let second = it.next().expect("two online nodes");
    assert_eq!(second, &vec![1]);
    assert!(it.next().is_none());
    // A fresh cursor starts over.
    let mut again = view.iter();
    assert_eq!(again.next().expect("restarted"), &vec![0, 1]);
}

#[test]
fn certain_and_impossible_rewards_resolve_exactly() {
    let edges = vec![(0usize, 0usize)];
    // Probability 1: every trial matches the single offline node.
    let sure = from_nonweight_edges(&edges, 1).into_stochastic_reward();
    let mut rng = RandomSource::from_seed(37);
    let total = sure.adaptive_alg_total::<onlinematching::stochastic::Ranking>(100, &mut rng);
    assert_eq!(total, 100);
    // Probability 0 (the scaled numerator rounds to zero): no trial matches.
    let never = from_nonweight_edges(&edges, 2000000).into_stochastic_reward();
    let total = never.adaptive_alg_total::<onlinematching::stochastic::Ranking>(100, &mut rng);
    assert_eq!(total, 0);
}

#[test]
fn random_source_draws_stay_below_their_bound() {
    let mut rng = RandomSource::from_seed(1);
    for _ in 0..1000 {
        assert!(rng.next_below(7) < 7);
    }
    assert_eq!(rng.next_below(1), 0);
}

#[test]
fn shuffle_keeps_exactly_the_same_elements() {
    let mut rng = RandomSource::from_seed(2);
    let mut v: Vec<usize> = (0..20).collect();
    rng.shuffle(&mut v);
    let mut sorted = v.clone();
    sorted.sort();
    let expected: Vec<usize> = (0..20).collect();
    assert_eq!(sorted, expected);
}

#[test]
fn seeded_sources_are_reproducible() {
    let mut a = RandomSource::from_seed(99);
    let mut b = RandomSource::from_seed(99);
    for _ in 0..100 {
        assert_eq!(a.next_below(1000), b.next_below(1000));
    }
}
