use pea_genetic::genetic::{calculate_fitness, crossover, elitist_fill, evolve, generate_initial_population, generate_random_path, genetic_tsp, mutate_population, next_generation, position_of_least};
use pea_genetic::graph::{is_square_matrix, Graph, MatrixGraph};
use pea_genetic::params::{CrossoverType, GAParameters, MutationType};
use pea_genetic::selection::{generate_crossover_pairs, pairs_from_ranking, rank};
use pea_genetic::tour::{is_valid_tour, sequence_vector};
use rand::rngs::StdRng;
use rand::SeedableRng;

fn four_nodes() -> MatrixGraph {
    let mut graph = MatrixGraph::new(4);
    graph.set_adj_matrix(vec![
        vec![0, 10, 15, 20],
        vec![10, 0, 35, 25],
        vec![15, 35, 0, 30],
        vec![20, 25, 30, 0],
    ]);
    graph
}

fn params(population_size: usize, max_generations: usize, crossover_per_million: u32, mutation_per_million: u32, crossover_type: CrossoverType, mutation_type: MutationType) -> GAParameters {
    GAParameters { population_size, mutation_per_million, crossover_per_million, max_generations, mutation_type, crossover_type }
}

#[test]
fn new_graph_has_zero_weights() {
    let graph = MatrixGraph::new(3);
    assert_eq!(graph.size(), 3);
    for i in 0..3 {
        for j in 0..3 {
            assert_eq!(graph.get_weight(i, j), 0);
        }
    }
}

#[test]
fn set_adj_matrix_takes_a_square_matrix_only() {
    let mut graph = MatrixGraph::new(2);
    graph.set_adj_matrix(vec![vec![0, 7], vec![9, 0]]);
    assert_eq!(graph.get_weight(0, 1), 7);
    assert_eq!(graph.get_weight(1, 0), 9);
    graph.set_adj_matrix(vec![vec![0, 1, 2], vec![3, 0, 4], vec![5, 6, 0]]);
    assert_eq!(graph.size(), 2);
    assert_eq!(graph.get_weight(0, 1), 7);
    graph.set_adj_matrix(vec![vec![0, 1], vec![3]]);
    assert_eq!(graph.get_weight(1, 0), 9);
    assert!(is_square_matrix(&vec![vec![1, 2], vec![3, 4]], 2));
    assert!(!is_square_matrix(&vec![vec![1, 2], vec![3]], 2));
    assert!(!is_square_matrix(&vec![vec![1, 2], vec![3, 4]], 3));
}

#[test]
fn four_node_tour_costs_eighty() {
    let graph = four_nodes();
    assert_eq!(graph.calculate_path_length(&vec![0, 1, 3, 2]), 80);
    assert_eq!(graph.calculate_path_length(&vec![0, 1, 2, 3]), 10 + 35 + 30 + 20);
    assert_eq!(graph.calculate_path_length(&vec![0, 1, 3, 2]), 80);
}

#[test]
fn asymmetric_weights_follow_the_direction() {
    let mut graph = MatrixGraph::new(3);
    graph.set_adj_matrix(vec![vec![0, 1, 100], vec![100, 0, 2], vec![4, 100, 0]]);
    assert_eq!(graph.calculate_path_length(&vec![0, 1, 2]), 7);
    assert_eq!(graph.calculate_path_length(&vec![2, 1, 0]), 300);
}

#[test]
fn negative_and_extreme_weights_do_not_overflow() {
    let mut graph = MatrixGraph::new(2);
    graph.set_adj_matrix(vec![vec![0, isize::MAX], vec![isize::MAX, 0]]);
    assert_eq!(graph.calculate_path_length(&vec![0, 1]), 2 * (isize::MAX as i128));
    graph.set_adj_matrix(vec![vec![0, -5], vec![isize::MIN, 0]]);
    assert_eq!(graph.calculate_path_length(&vec![0, 1]), (isize::MIN as i128) - 5);
}

#[test]
fn single_node_graph_has_fitness_zero() {
    let graph = MatrixGraph::new(1);
    assert_eq!(graph.calculate_path_length(&vec![0]), 0);
    let mut rng = StdRng::seed_from_u64(11);
    for crossover_type in [CrossoverType::PMX, CrossoverType::OX, CrossoverType::CX] {
        for mutation_type in [MutationType::TwoOptSwap, MutationType::FourOptSwap, MutationType::Reversion, MutationType::Insertion, MutationType::Scramble] {
            let p = params(3, 4, 1_000_000, 1_000_000, crossover_type, mutation_type);
            let outcome = genetic_tsp(&graph, &p, &mut rng);
            assert_eq!(outcome.best_tour, vec![0]);
            assert_eq!(outcome.best_fitness, 0);
            assert_eq!(outcome.population, vec![vec![0], vec![0], vec![0]]);
        }
    }
}

#[test]
fn fitness_is_not_negative_for_non_negative_weights() {
    let graph = four_nodes();
    let mut rng = StdRng::seed_from_u64(5);
    let population = generate_initial_population(&graph, 25, &mut rng);
    let fitness = calculate_fitness(&graph, &population);
    assert_eq!(fitness.len(), 25);
    for (i, f) in fitness.iter().enumerate() {
        assert!(*f >= 0);
        assert_eq!(*f, graph.calculate_path_length(&population[i]));
    }
}

#[test]
fn random_paths_are_tours_and_not_all_the_identity() {
    let mut shuffled = 0;
    for seed in 0..20u64 {
        let mut rng = StdRng::seed_from_u64(seed);
        let path = generate_random_path(8, &mut rng);
        assert!(is_valid_tour(&path, 8));
        if path != sequence_vector(8) {
            shuffled += 1;
        }
    }
    assert!(shuffled > 0);
}

#[test]
fn initial_population_holds_tours() {
    let graph = four_nodes();
    let mut rng = StdRng::seed_from_u64(1);
    let population = generate_initial_population(&graph, 6, &mut rng);
    assert_eq!(population.len(), 6);
    for tour in &population {
        assert!(is_valid_tour(tour, 4));
    }
    assert_eq!(generate_initial_population(&graph, 0, &mut rng).len(), 0);
}

#[test]
fn rank_sorts_stably_by_fitness() {
    assert_eq!(rank(&vec![5, 3, 5, 1]), vec![3, 1, 0, 2]);
    assert_eq!(rank(&vec![2, 2, 2]), vec![0, 1, 2]);
    assert_eq!(rank(&vec![]), Vec::<usize>::new());
    assert_eq!(rank(&vec![9, -1, 4, -1, 0]), vec![1, 3, 4, 2, 0]);
}

#[test]
fn pairs_run_through_the_ranking_best_first() {
    let order = vec![3, 1, 0, 2];
    assert_eq!(pairs_from_ranking(&order, 5), vec![(3, 1), (3, 0), (3, 2), (1, 3), (1, 0)]);
    assert_eq!(pairs_from_ranking(&order, 0), vec![]);
    assert_eq!(pairs_from_ranking(&order, 100).len(), 12);
    assert_eq!(pairs_from_ranking(&order, 100)[11], (2, 0));
    assert_eq!(pairs_from_ranking(&vec![0], 3), vec![]);
}

#[test]
fn crossover_pairs_favour_the_fittest() {
    assert_eq!(generate_crossover_pairs(&vec![5, 3, 5, 1], 4), vec![(3, 1), (3, 0), (3, 2), (1, 3)]);
    assert_eq!(generate_crossover_pairs(&vec![7, 7], 5), vec![(0, 1), (1, 0)]);
    assert_eq!(generate_crossover_pairs(&vec![7], 5), vec![]);
}

#[test]
fn pair_count_is_the_share_rounded_down() {
    let p = params(10, 1, 800_000, 0, CrossoverType::OX, MutationType::FourOptSwap);
    assert_eq!(p.crossover_pair_count(), 8);
    let p = params(3, 1, 500_000, 0, CrossoverType::OX, MutationType::FourOptSwap);
    assert_eq!(p.crossover_pair_count(), 1);
    let p = params(7, 1, 1_000_000, 0, CrossoverType::OX, MutationType::FourOptSwap);
    assert_eq!(p.crossover_pair_count(), 7);
    let p = params(7, 1, 0, 0, CrossoverType::OX, MutationType::FourOptSwap);
    assert_eq!(p.crossover_pair_count(), 0);
    let p = params(usize::MAX, 1, 1_000_000, 0, CrossoverType::OX, MutationType::FourOptSwap);
    assert_eq!(p.crossover_pair_count(), usize::MAX);
}

#[test]
fn parameters_are_checked() {
    assert!(params(2, 1, 0, 0, CrossoverType::PMX, MutationType::Scramble).is_valid());
    assert!(!params(1, 1, 0, 0, CrossoverType::PMX, MutationType::Scramble).is_valid());
    assert!(!params(0, 1, 0, 0, CrossoverType::PMX, MutationType::Scramble).is_valid());
    assert!(!params(2, 0, 0, 0, CrossoverType::PMX, MutationType::Scramble).is_valid());
    assert!(!params(2, 1, 1_000_001, 0, CrossoverType::PMX, MutationType::Scramble).is_valid());
    assert!(!params(2, 1, 0, 1_000_001, CrossoverType::PMX, MutationType::Scramble).is_valid());
}

#[test]
fn position_of_least_is_the_first_minimum() {
    assert_eq!(position_of_least(&vec![4, 2, 9, 2]), 1);
    assert_eq!(position_of_least(&vec![4]), 0);
    assert_eq!(position_of_least(&vec![-3, -3]), 0);
}

#[test]
fn crossover_breeds_one_child_per_pair() {
    let mut rng = StdRng::seed_from_u64(9);
    let population = vec![vec![0, 1, 2, 3], vec![3, 2, 1, 0], vec![1, 3, 0, 2]];
    let pairs = vec![(0, 1), (2, 0), (1, 2), (0, 2)];
    for crossover_type in [CrossoverType::PMX, CrossoverType::OX, CrossoverType::CX] {
        let p = params(3, 1, 1_000_000, 0, crossover_type, MutationType::FourOptSwap);
        let children = crossover(&population, &pairs, &p, &mut rng);
        assert_eq!(children.len(), 4);
        for child in &children {
            assert!(is_valid_tour(child, 4));
        }
    }
    let p = params(3, 1, 1_000_000, 0, CrossoverType::CX, MutationType::FourOptSwap);
    let children = crossover(&population, &vec![(0, 1)], &p, &mut rng);
    assert_eq!(children, vec![vec![0, 2, 1, 3]]);
}

#[test]
fn elitist_fill_keeps_the_best_by_rank() {
    let population = vec![vec![0, 1, 2], vec![1, 2, 0], vec![2, 1, 0], vec![0, 2, 1]];
    let children = vec![vec![2, 0, 1]];
    let order = vec![3, 1, 0, 2];
    assert_eq!(
        elitist_fill(&population, &children, &order),
        vec![vec![2, 0, 1], vec![0, 2, 1], vec![1, 2, 0], vec![0, 1, 2]]
    );
    assert_eq!(elitist_fill(&population, &vec![], &order), vec![vec![0, 2, 1], vec![1, 2, 0], vec![0, 1, 2], vec![2, 1, 0]]);
}

#[test]
fn mutation_probability_zero_and_one_are_certain() {
    let mut rng = StdRng::seed_from_u64(17);
    let population: Vec<Vec<usize>> = (0..10).map(|_| sequence_vector(20)).collect();
    let never = params(10, 1, 0, 0, CrossoverType::OX, MutationType::Reversion);
    assert_eq!(mutate_population(&population, &never, &mut rng), population);
    let always = params(10, 1, 0, 1_000_000, CrossoverType::OX, MutationType::Reversion);
    let mutated = mutate_population(&population, &always, &mut rng);
    assert_eq!(mutated.len(), 10);
    for (i, tour) in mutated.iter().enumerate() {
        assert!(is_valid_tour(tour, 20));
        assert_ne!(tour, &population[i]);
    }
}

#[test]
fn next_generation_without_crossover_or_mutation_is_the_ranking() {
    let graph = four_nodes();
    let mut rng = StdRng::seed_from_u64(2);
    let population = vec![vec![0, 1, 2, 3], vec![0, 1, 3, 2], vec![0, 2, 1, 3], vec![1, 0, 2, 3]];
    let fitness = calculate_fitness(&graph, &population);
    assert_eq!(fitness, vec![95, 80, 95, 80]);
    let p = params(4, 1, 0, 0, CrossoverType::OX, MutationType::FourOptSwap);
    let next = next_generation(&population, &fitness, &p, &mut rng);
    assert_eq!(next, vec![vec![0, 1, 3, 2], vec![1, 0, 2, 3], vec![0, 1, 2, 3], vec![0, 2, 1, 3]]);
    let p = params(4, 1, 500_000, 0, CrossoverType::CX, MutationType::FourOptSwap);
    let next = next_generation(&population, &fitness, &p, &mut rng);
    assert_eq!(next, vec![vec![0, 1, 2, 3], vec![0, 1, 3, 2], vec![0, 1, 3, 2], vec![1, 0, 2, 3]]);
}

#[test]
fn one_generation_of_order_crossover_on_four_nodes() {
    let graph = four_nodes();
    let p = params(4, 1, 1_000_000, 0, CrossoverType::OX, MutationType::FourOptSwap);
    for seed in 0..25u64 {
        let mut rng = StdRng::seed_from_u64(seed);
        let population = generate_initial_population(&graph, 4, &mut rng);
        let least = *calculate_fitness(&graph, &population).iter().min().unwrap();
        let outcome = evolve(&graph, population, &p, &mut rng);
        assert_eq!(outcome.population.len(), 4);
        for tour in &outcome.population {
            assert!(is_valid_tour(tour, 4));
        }
        assert_eq!(outcome.history.len(), 1);
        assert_eq!(outcome.history[0].generation, 0);
        assert_eq!(outcome.history[0].best_fitness, least);
        assert_eq!(outcome.history[0].all_time_best, least);
        assert_eq!(outcome.best_fitness, least);
        assert_eq!(graph.calculate_path_length(&outcome.best_tour), least);
    }
}

#[test]
fn running_best_never_rises() {
    let graph = four_nodes();
    for seed in 0..10u64 {
        for crossover_type in [CrossoverType::PMX, CrossoverType::OX, CrossoverType::CX] {
            let mut rng = StdRng::seed_from_u64(seed);
            let p = params(6, 12, 500_000, 300_000, crossover_type, MutationType::Insertion);
            let outcome = genetic_tsp(&graph, &p, &mut rng);
            assert_eq!(outcome.history.len(), 12);
            for g in 0..12 {
                assert_eq!(outcome.history[g].generation, g);
                assert!(outcome.history[g].all_time_best <= outcome.history[g].best_fitness);
                if g > 0 {
                    assert!(outcome.history[g].all_time_best <= outcome.history[g - 1].all_time_best);
                }
            }
            assert!(is_valid_tour(&outcome.best_tour, 4));
            assert_eq!(outcome.best_fitness, outcome.history[11].all_time_best);
            assert_eq!(graph.calculate_path_length(&outcome.best_tour), outcome.best_fitness);
            assert!(outcome.best_fitness >= 80);
            for tour in &outcome.population {
                assert!(is_valid_tour(tour, 4));
            }
        }
    }
}

#[test]
fn a_seeded_run_repeats_itself() {
    let graph = four_nodes();
    let p = params(8, 5, 750_000, 250_000, CrossoverType::PMX, MutationType::TwoOptSwap);
    let first = genetic_tsp(&graph, &p, &mut StdRng::seed_from_u64(42));
    let second = genetic_tsp(&graph, &p, &mut StdRng::seed_from_u64(42));
    assert_eq!(first.best_tour, second.best_tour);
    assert_eq!(first.population, second.population);
    assert_eq!(first.best_fitness, second.best_fitness);
}

#[test]
fn mutation_probability_one_half_mutates_some() {
    let mut rng = StdRng::seed_from_u64(23);
    let population: Vec<Vec<usize>> = (0..200).map(|_| sequence_vector(20)).collect();
    let half = params(200, 1, 0, 500_000, CrossoverType::OX, MutationType::Reversion);
    let result = mutate_population(&population, &half, &mut rng);
    let changed = (0..200).filter(|&i| result[i] != population[i]).count();
    assert!(changed > 0);
    assert!(changed < 200);
    for tour in &result {
        assert!(is_valid_tour(tour, 20));
    }
}

#[test]
fn fitness_is_the_same_when_computed_twice() {
    let graph = four_nodes();
    let mut rng = StdRng::seed_from_u64(4);
    let population = generate_initial_population(&graph, 10, &mut rng);
    assert_eq!(calculate_fitness(&graph, &population), calculate_fitness(&graph, &population));
    let tour = vec![2, 0, 1, 3];
    let by_hand = graph.get_weight(2, 0) as i128 + graph.get_weight(0, 1) as i128 + graph.get_weight(1, 3) as i128 + graph.get_weight(3, 2) as i128;
    assert_eq!(graph.calculate_path_length(&tour), by_hand);
    assert_eq!(by_hand, 15 + 10 + 25 + 30);
}

#[test]
fn fitness_is_computed_for_paths_that_are_no_tours() {
    let graph = four_nodes();
    let population = vec![vec![0, 0], vec![1, 2, 1], vec![3]];
    assert_eq!(calculate_fitness(&graph, &population), vec![0, 70, 0]);
    assert_eq!(calculate_fitness(&graph, &vec![]), Vec::<i128>::new());
    assert_eq!(calculate_fitness(&MatrixGraph::new(0), &vec![]), Vec::<i128>::new());
}
