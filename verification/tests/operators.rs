use pea_genetic::crossover::{cycle_crossover, one_point_crossover, one_point_crossover_at, order_crossover, order_crossover_at, positions_of};
use pea_genetic::mutation::{insertion_mutate, mutate_in_place, relocate_at, reverse_at, reversion_mutate, scramble_mutate, segment_size, swap_at, swap_mutate, two_opt_swap_mutate};
use pea_genetic::params::{CrossoverType, GAParameters, MutationType};
use pea_genetic::tour::{is_valid_tour, sequence_vector, unset_flags};
use rand::rngs::StdRng;
use rand::SeedableRng;

fn params_with(mutation_type: MutationType) -> GAParameters {
    GAParameters {
        population_size: 4,
        mutation_per_million: 500_000,
        crossover_per_million: 500_000,
        max_generations: 1,
        mutation_type,
        crossover_type: CrossoverType::OX,
    }
}

#[test]
fn sequence_vector_counts_from_zero() {
    assert_eq!(sequence_vector(0), Vec::<usize>::new());
    assert_eq!(sequence_vector(5), vec![0, 1, 2, 3, 4]);
}

#[test]
fn valid_tours_are_recognised() {
    assert!(is_valid_tour(&vec![0], 1));
    assert!(is_valid_tour(&vec![2, 0, 3, 1], 4));
    assert!(is_valid_tour(&vec![], 0));
}

#[test]
fn invalid_tours_are_rejected() {
    assert!(!is_valid_tour(&vec![0, 1, 1, 3], 4));
    assert!(!is_valid_tour(&vec![0, 1, 2, 4], 4));
    assert!(!is_valid_tour(&vec![0, 1, 2], 4));
    assert!(!is_valid_tour(&vec![0, 1, 2, 3, 0], 4));
}

#[test]
fn segment_size_is_a_tenth_and_at_least_one() {
    assert_eq!(segment_size(1), 1);
    assert_eq!(segment_size(9), 1);
    assert_eq!(segment_size(10), 1);
    assert_eq!(segment_size(19), 1);
    assert_eq!(segment_size(25), 2);
    assert_eq!(segment_size(100), 10);
}

#[test]
fn swap_at_exchanges_two_entries() {
    let mut path = vec![0, 1, 2, 3, 4];
    swap_at(&mut path, 1, 3);
    assert_eq!(path, vec![0, 3, 2, 1, 4]);
    swap_at(&mut path, 2, 2);
    assert_eq!(path, vec![0, 3, 2, 1, 4]);
}

#[test]
fn reverse_at_reverses_the_stretch() {
    let mut path = vec![0, 1, 2, 3, 4, 5];
    reverse_at(&mut path, 1, 5);
    assert_eq!(path, vec![0, 4, 3, 2, 1, 5]);
    reverse_at(&mut path, 3, 3);
    assert_eq!(path, vec![0, 4, 3, 2, 1, 5]);
    reverse_at(&mut path, 0, 6);
    assert_eq!(path, vec![5, 1, 2, 3, 4, 0]);
}

#[test]
fn relocate_at_moves_the_stretch() {
    let mut path = vec![0, 1, 2, 3, 4, 5];
    relocate_at(&mut path, 1, 2, 3);
    assert_eq!(path, vec![0, 3, 4, 1, 2, 5]);
    let mut path = vec![0, 1, 2, 3, 4, 5];
    relocate_at(&mut path, 4, 2, 0);
    assert_eq!(path, vec![4, 5, 0, 1, 2, 3]);
    let mut path = vec![0, 1, 2, 3, 4, 5];
    relocate_at(&mut path, 0, 2, 4);
    assert_eq!(path, vec![2, 3, 4, 5, 0, 1]);
    let mut path = vec![0, 1, 2, 3, 4, 5];
    relocate_at(&mut path, 2, 3, 2);
    assert_eq!(path, vec![0, 1, 2, 3, 4, 5]);
}

#[test]
fn every_mutation_keeps_a_tour_a_tour() {
    for seed in 0..20u64 {
        let mut rng = StdRng::seed_from_u64(seed);
        for n in [1usize, 2, 3, 10, 37] {
            let mut path = sequence_vector(n);
            swap_mutate(&mut path, &mut rng);
            assert!(is_valid_tour(&path, n));
            two_opt_swap_mutate(&mut path, &mut rng);
            assert!(is_valid_tour(&path, n));
            reversion_mutate(&mut path, &mut rng);
            assert!(is_valid_tour(&path, n));
            insertion_mutate(&mut path, &mut rng);
            assert!(is_valid_tour(&path, n));
            scramble_mutate(&mut path, &mut rng);
            assert!(is_valid_tour(&path, n));
        }
    }
}

#[test]
fn mutations_leave_a_single_node_alone() {
    let mut rng = StdRng::seed_from_u64(3);
    for kind in [MutationType::TwoOptSwap, MutationType::FourOptSwap, MutationType::Reversion, MutationType::Insertion, MutationType::Scramble] {
        let mut path = vec![0usize];
        mutate_in_place(&mut path, &params_with(kind), &mut rng);
        assert_eq!(path, vec![0]);
    }
}

#[test]
fn reversion_reverses_exactly_one_stretch() {
    for seed in 0..20u64 {
        let mut rng = StdRng::seed_from_u64(seed);
        let before = sequence_vector(30);
        let mut path = before.clone();
        reversion_mutate(&mut path, &mut rng);
        let changed: Vec<usize> = (0..30).filter(|&i| path[i] != before[i]).collect();
        assert_eq!(changed.len(), 2);
        assert_eq!(changed[1], changed[0] + 2);
        assert_eq!(path[changed[0]], before[changed[1]]);
        assert_eq!(path[changed[0] + 1], before[changed[0] + 1]);
    }
}

#[test]
fn swap_changes_at_most_two_places() {
    for seed in 0..20u64 {
        let mut rng = StdRng::seed_from_u64(seed);
        let before = sequence_vector(12);
        let mut path = before.clone();
        swap_mutate(&mut path, &mut rng);
        let changed = (0..12).filter(|&i| path[i] != before[i]).count();
        assert!(changed == 0 || changed == 2);
    }
}

#[test]
fn random_positions_vary_with_the_seed() {
    let mut seen = std::collections::BTreeSet::new();
    for seed in 0..40u64 {
        let mut rng = StdRng::seed_from_u64(seed);
        let mut path = sequence_vector(50);
        reversion_mutate(&mut path, &mut rng);
        let first = (0..50).find(|&i| path[i] != i).unwrap();
        assert!(first + 5 <= 50);
        seen.insert(first);
    }
    assert!(seen.len() > 1);
}

#[test]
fn one_point_crossover_at_fills_from_the_second_parent() {
    let first = vec![0, 1, 2, 3, 4];
    let second = vec![4, 3, 2, 1, 0];
    assert_eq!(one_point_crossover_at(&first, &second, 2), vec![0, 1, 4, 3, 2]);
    assert_eq!(one_point_crossover_at(&first, &second, 0), vec![4, 3, 2, 1, 0]);
    assert_eq!(one_point_crossover_at(&first, &second, 5), vec![0, 1, 2, 3, 4]);
    assert_eq!(one_point_crossover_at(&vec![2, 0, 3, 1], &vec![1, 2, 3, 0], 1), vec![2, 1, 3, 0]);
}

#[test]
fn order_crossover_at_keeps_the_stretch_in_place() {
    let first = vec![0, 1, 2, 3, 4];
    let second = vec![4, 3, 2, 1, 0];
    assert_eq!(order_crossover_at(&first, &second, 1, 3), vec![4, 1, 2, 3, 0]);
    assert_eq!(order_crossover_at(&first, &second, 2, 2), vec![4, 3, 2, 1, 0]);
    assert_eq!(order_crossover_at(&first, &second, 0, 5), vec![0, 1, 2, 3, 4]);
    assert_eq!(order_crossover_at(&first, &second, 3, 5), vec![2, 1, 0, 3, 4]);
}

#[test]
fn positions_of_inverts_a_tour() {
    assert_eq!(positions_of(&vec![2, 0, 3, 1]), vec![1, 3, 0, 2]);
}

#[test]
fn cycle_crossover_takes_cycles_in_turn() {
    let first = vec![0, 1, 2, 3, 4];
    let second = vec![1, 0, 3, 4, 2];
    assert_eq!(cycle_crossover(&first, &second), vec![0, 1, 3, 4, 2]);
    let first = vec![0, 1, 2, 3, 4, 5];
    let second = vec![1, 0, 3, 2, 5, 4];
    assert_eq!(cycle_crossover(&first, &second), vec![0, 1, 3, 2, 4, 5]);
    let first = vec![3, 0, 1, 2];
    let second = vec![3, 2, 1, 0];
    assert_eq!(cycle_crossover(&first, &second), vec![3, 2, 1, 0]);
    assert_eq!(cycle_crossover(&first, &first), first);
    assert_eq!(cycle_crossover(&vec![0], &vec![0]), vec![0]);
}

#[test]
fn every_crossover_of_two_tours_is_a_tour() {
    for seed in 0..30u64 {
        let mut rng = StdRng::seed_from_u64(seed);
        for n in [1usize, 2, 5, 16] {
            let mut first = sequence_vector(n);
            let mut second = sequence_vector(n);
            scramble_mutate(&mut first, &mut rng);
            insertion_mutate(&mut second, &mut rng);
            two_opt_swap_mutate(&mut second, &mut rng);
            assert!(is_valid_tour(&one_point_crossover(&first, &second, &mut rng), n));
            assert!(is_valid_tour(&order_crossover(&first, &second, &mut rng), n));
            assert!(is_valid_tour(&cycle_crossover(&first, &second), n));
        }
    }
}

#[test]
fn one_point_crossover_starts_with_the_first_parent() {
    for seed in 0..20u64 {
        let mut rng = StdRng::seed_from_u64(seed);
        let first = vec![5, 4, 3, 2, 1, 0];
        let second = vec![0, 1, 2, 3, 4, 5];
        let child = one_point_crossover(&first, &second, &mut rng);
        assert_eq!(child[0], 5);
        let cut = (0..6).find(|&i| child[i] != first[i]).unwrap_or(6);
        assert!(cut >= 1);
        assert_eq!(child, one_point_crossover_at(&first, &second, cut));
    }
}

#[test]
fn unset_flags_are_all_false() {
    assert_eq!(unset_flags(0), Vec::<bool>::new());
    assert_eq!(unset_flags(3), vec![false, false, false]);
}
