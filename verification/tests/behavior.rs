use evosim::fixed::SCALE;
use evosim::genetics::EvolveError;
use evosim::genetics::Individual;
use evosim::genetics::MutationParams;
use evosim::genetics::Statistics;
use evosim::network::LayerTopology;
use evosim::network::Network;
use evosim::network::NetworkError;
use evosim::network::Neuron;
use evosim::rng::Prng;
use evosim::sim::Simulation;
use evosim::trig::PI_FX;
use evosim::trig::TAU_FX;
use evosim::trig::cosine;
use evosim::trig::sine;
use evosim::world::Position;
use evosim::world::isqrt;
use evosim::world::wrap_into;

fn topology(sizes: &[usize]) -> Vec<LayerTopology> {
    sizes.iter().map(|&neurons| LayerTopology { neurons }).collect()
}

fn params() -> MutationParams {
    MutationParams { chance: 10000, coefficient: 300000 }
}

#[test]
fn propagate() {
    let neuron = Neuron { bias: 500000, weights: vec![-300000, 800000] };

    // Saturated by the rectified-linear floor.
    assert_eq!(neuron.propagate(&vec![-10000000, -10000000]), 0);

    // (-0.3 * 0.5) + (0.8 * 1.0) + 0.5 = 1.15, exactly.
    assert_eq!(neuron.propagate(&vec![500000, 1000000]), 1150000);
}

#[test]
fn random() {
    let mut rng = Prng::new(2024);
    let neuron = Neuron::random(&mut rng, 4);

    assert_eq!(neuron.bias, -985238);
    assert_eq!(neuron.weights, vec![322441, 883704, 864654, -548763]);
}

#[test]
fn neuron_output_never_negative() {
    let mut rng = Prng::new(11);
    for _ in 0..20 {
        let net = Network::random(&mut rng, &topology(&[4, 3, 2]));
        let out = net.propagate(vec![250000, -500000, 750000, -1000000]).unwrap();
        for v in out {
            assert!(v >= 0);
        }
    }
}

#[test]
fn chromosome_round_trip() {
    let mut rng = Prng::new(42);
    let topo = topology(&[3, 5, 2]);
    let net = Network::random(&mut rng, &topo);
    let genes = net.weights();
    assert_eq!(genes.len(), (3 + 1) * 5 + (5 + 1) * 2);

    let rebuilt = Network::from_weights(&topo, &genes).unwrap();
    let input = vec![100000, -200000, 300000];
    assert_eq!(net.propagate(input.clone()).unwrap(), rebuilt.propagate(input).unwrap());
    assert_eq!(rebuilt.weights(), genes);
}

#[test]
fn from_weights_rejects_short_and_long() {
    let topo = topology(&[2, 2, 1]);
    // Needs (2 + 1) * 2 + (2 + 1) * 1 = 9 genes.
    let short: Vec<i64> = vec![1; 8];
    let exact: Vec<i64> = vec![1; 9];
    let long: Vec<i64> = vec![1; 10];
    assert_eq!(Network::from_weights(&topo, &short), Err(NetworkError::InsufficientWeights));
    assert!(Network::from_weights(&topo, &exact).is_ok());
    assert_eq!(Network::from_weights(&topo, &long), Err(NetworkError::ExcessWeights));
}

#[test]
fn propagate_rejects_wrong_width() {
    let mut rng = Prng::new(3);
    let net = Network::random(&mut rng, &topology(&[3, 2]));
    assert_eq!(net.propagate(vec![0, 0]), Err(NetworkError::ShapeMismatch));
    assert!(net.propagate(vec![0, 0, 0]).is_ok());
}

#[test]
fn statistics_bounds() {
    let stats = Statistics::new(&vec![0, 1, 2, 3]);
    assert_eq!(stats.min_fitness, 0);
    assert_eq!(stats.max_fitness, 3);
    // The mean 1.5, in millionths.
    assert_eq!(stats.avg_fitness, 1500000);
}

#[test]
fn evolve_preserves_population_size() {
    let mut rng = Prng::new(9);
    let pop: Vec<Individual> = (0..7u32)
        .map(|f| Individual { fitness: f, genes: vec![f as i64 * 1000; 5] })
        .collect();
    let (children, stats) = evosim::genetics::evolve(&mut rng, &pop, &params()).unwrap();
    assert_eq!(children.len(), pop.len());
    assert_eq!(stats.min_fitness, 0);
    assert_eq!(stats.max_fitness, 6);
    for child in &children {
        assert_eq!(child.fitness, 0);
        assert_eq!(child.genes.len(), 5);
    }
}

#[test]
fn evolve_rejects_empty_population() {
    let mut rng = Prng::new(1);
    let pop: Vec<Individual> = Vec::new();
    assert_eq!(evosim::genetics::evolve(&mut rng, &pop, &params()), Err(EvolveError::EmptyPopulation));
}

#[test]
fn selection_handles_zero_total_fitness() {
    let mut rng = Prng::new(5);
    let fits: Vec<u32> = vec![0, 0, 0, 0];
    for _ in 0..10 {
        let i = evosim::genetics::select(&mut rng, &fits);
        assert!(i < fits.len());
    }
}

#[test]
fn selection_skips_zero_fitness_when_total_positive() {
    let mut rng = Prng::new(6);
    let fits: Vec<u32> = vec![0, 2, 0, 5];
    for _ in 0..20 {
        let i = evosim::genetics::select(&mut rng, &fits);
        assert!(i == 1 || i == 3);
    }
}

#[test]
fn crossover_of_identical_parents_is_identity() {
    let mut rng = Prng::new(8);
    let a: Vec<i64> = vec![5, -7, 11, 13];
    let child = evosim::genetics::crossover(&mut rng, &a, &a);
    assert_eq!(child, a);
}

#[test]
fn mutation_with_zero_chance_changes_nothing() {
    let mut rng = Prng::new(10);
    let mut genes: Vec<i64> = vec![1, 2, 3, 4, 5];
    let frozen = MutationParams { chance: 0, coefficient: 300000 };
    evosim::genetics::mutate(&mut rng, &mut genes, &frozen);
    assert_eq!(genes, vec![1, 2, 3, 4, 5]);
}

#[test]
fn positions_stay_on_the_torus() {
    let mut rng = Prng::new(77);
    let mut sim = Simulation::random(&mut rng);
    for _ in 0..5 {
        sim.step(&mut rng);
        for animal in &sim.world().animals {
            assert!(0 <= animal.position.x && animal.position.x < SCALE);
            assert!(0 <= animal.position.y && animal.position.y < SCALE);
        }
        for food in &sim.world().foods {
            assert!(0 <= food.position.x && food.position.x < SCALE);
            assert!(0 <= food.position.y && food.position.y < SCALE);
        }
    }
}

#[test]
fn identical_seeds_give_identical_worlds() {
    let mut rng_a = Prng::new(123);
    let mut rng_b = Prng::new(123);
    let mut sim_a = Simulation::random(&mut rng_a);
    let mut sim_b = Simulation::random(&mut rng_b);
    assert_eq!(sim_a.world(), sim_b.world());
    for _ in 0..3 {
        let ra = sim_a.step(&mut rng_a);
        let rb = sim_b.step(&mut rng_b);
        assert_eq!(ra.is_some(), rb.is_some());
        assert_eq!(sim_a.world(), sim_b.world());
    }
}

#[test]
fn simulation_keeps_its_cast() {
    let mut rng = Prng::new(2024);
    let mut sim = Simulation::random(&mut rng);
    assert_eq!(sim.world().animals.len(), 40);
    assert_eq!(sim.world().foods.len(), 60);
    sim.step(&mut rng);
    assert_eq!(sim.world().animals.len(), 40);
    assert_eq!(sim.world().foods.len(), 60);
}

#[test]
fn trig_stays_within_one_unit() {
    assert_eq!(sine(0), 0);
    assert_eq!(sine(PI_FX), 0);
    let mut x: i64 = 0;
    while x < TAU_FX {
        assert!(-SCALE <= sine(x) && sine(x) <= SCALE);
        assert!(-SCALE <= cosine(x) && cosine(x) <= SCALE);
        x += 100000;
    }
    // A quarter turn in, sine is at its crest.
    assert!(sine(PI_FX / 2) > 999000);
}

#[test]
fn distance_is_euclidean() {
    let a = Position { x: 0, y: 0 };
    let b = Position { x: 30000, y: 40000 };
    assert_eq!(a.distance(&b), 50000);
    assert_eq!(isqrt(100), 10);
    assert_eq!(isqrt(99), 9);
}

#[test]
fn coordinates_wrap_both_ways() {
    assert_eq!(wrap_into(900000, 200000, SCALE), 100000);
    assert_eq!(wrap_into(100000, -200000, SCALE), 900000);
    assert_eq!(wrap_into(500000, 250000, SCALE), 750000);
}

#[test]
fn random_source_is_reproducible() {
    let mut a = Prng::new(99);
    let mut b = Prng::new(99);
    for _ in 0..50 {
        assert_eq!(a.next_below(1000), b.next_below(1000));
    }
}
