use onlinematching::randomness::RandomSource;
use onlinematching::stochastic::{from_nonweight_edges, gk, Ranking};

#[test]
fn test_ranking_g2() {
    let t = 100000;
    let m = 100;
    let sr = gk(2, m);
    let mut rng = RandomSource::from_seed(17);
    let opt = sr.OPT() as f64;
    let alg = sr.adaptive_alg_total::<Ranking>(t, &mut rng) as f64 / t as f64;
    let ratio = alg / opt;
    println!("opt = {:?}, alg = {:?}, ratio = {:?}", opt, alg, ratio);
}

#[test]
fn test_balance_for_not_symmetry() {
    let t = 100000;
    let m = 200;
    let edges: Vec<(usize, usize)> = vec![
        (0, 0),
        (0, 1),
        (1, 1),
        (0, 2),
        (1, 2),
        (2, 2),
    ];
    let g = from_nonweight_edges(&edges, m);
    let sr = g.into_stochastic_reward();
    let mut rng = RandomSource::from_seed(19);
    let opt = sr.OPT() as f64;
    let alg = sr.adaptive_alg_total::<Ranking>(t, &mut rng) as f64 / t as f64;
    let ratio = alg / opt;
    println!("opt = {:?}, alg = {:?}, ratio = {:?}", opt, alg, ratio);
}
