use onlinematching::bigraph::Bigraph;
use onlinematching::online::Random;
use onlinematching::online::Ranking;
use onlinematching::online::{random_worst_case, ranking_worst_case};
use onlinematching::randomness::RandomSource;
use onlinematching::reuseable::z_graph_with_duration;

#[test]
fn bigraph_random_alg_test() {
    let graph = random_worst_case(200);
    let mut rng = RandomSource::from_seed(7);
    let opt = graph.OPT() as f64;
    let alg = graph.ALG::<Random>(&mut rng) as f64;
    let ratio = alg / opt;
    println!("the ratio is {:?}", ratio);
    println!("alg: {:?}, opt: {:?}", alg, opt);
}

#[test]
fn bigraph_ranking_alg_test() {
    let graph = ranking_worst_case(200);
    let mut rng = RandomSource::from_seed(11);
    let opt = graph.OPT() as f64;
    let alg = graph.ALG::<Ranking>(&mut rng) as f64;
    let ratio = alg / opt;
    println!("the ratio is {:?}", ratio);
    println!("alg: {:?}, opt: {:?}", alg, opt);
}

#[test]
fn reuseableresource_ranking_alg_test() {
    let _graph = z_graph_with_duration(200, 200);
    let edges = vec![
        (1, 1),
        (2, 2),
        (3, 3),
        (1, 4),
        (2, 5),
        (3, 6),
        (1, 2),
        (1, 3),
        (2, 3),
    ];
    let graph = Bigraph::from_edges(&edges);
    let duration = 2;
    let graph = graph.into_reuseable_online(duration);
    let mut rng = RandomSource::from_seed(13);
    let mut opt = 0.;
    let mut alg = 0.;
    for _ in 0..10000 {
        opt += graph.OPT() as f64;
        alg += graph.ALG::<onlinematching::reuseable::Ranking>(&mut rng) as f64;
    }
    let ratio = alg / opt;
    println!("the ratio is {:?}", ratio);
    println!("alg: {:?}, opt: {:?}", alg, opt);
}
