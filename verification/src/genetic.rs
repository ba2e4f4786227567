//! The search: generations of tours, each bred from the one before by
//! selection, crossover, elitist fill and mutation.

use crate::crossover::{copy_of, cycle_crossover, is_cycle_child, lemma_cycle_child_is_tour, lemma_one_point_child_is_tour, lemma_order_child_is_tour, one_point_child, one_point_crossover, order_child, order_crossover};
use crate::graph::{tour_cost, Graph, MatrixGraph};
use crate::mutation::{lemma_mutated_is_tour, mutate_in_place, mutated};
use crate::params::{pair_count, CrossoverType, GAParameters, MILLION};
use crate::random::{random_ratio, shuffle};
use crate::selection::{is_ranking, lemma_pair_at, lemma_ranking_is_tour, pair_at, pairs_from_ranking, rank};
use crate::tour::{identity, in_range, is_tour, lemma_identity_is_tour, lemma_reordered_tour, sequence_vector};
use rand::rngs::StdRng;
use vstd::prelude::*;

verus! {

/// The tours of a population, each as a sequence.
pub open spec fn tours_of(population: Seq<Vec<usize>>) -> Seq<Seq<usize>> {
    Seq::new(population.len(), |i: int| population[i]@)
}

/// Every member of the population is a tour over `n` nodes.
pub open spec fn all_tours(population: Seq<Seq<usize>>, n: nat) -> bool {
    forall|i: int| 0 <= i < population.len() ==> is_tour(#[trigger] population[i], n)
}

/// The lengths of the tours of a population.
pub open spec fn costs_of(weights: Seq<Seq<isize>>, population: Seq<Seq<usize>>) -> Seq<int> {
    Seq::new(population.len(), |i: int| tour_cost(weights, population[i]))
}

/// `least` is the smallest of `values`.
pub open spec fn is_least(least: int, values: Seq<int>) -> bool {
    &&& exists|i: int| 0 <= i < values.len() && #[trigger] values[i] == least
    &&& forall|i: int| 0 <= i < values.len() ==> least <= #[trigger] values[i]
}

/// `child` is a possible outcome of the crossover `kind` on the parents
/// `first` and `second`.
pub open spec fn crossed(first: Seq<usize>, second: Seq<usize>, child: Seq<usize>, kind: CrossoverType) -> bool {
    let n = first.len();
    match kind {
        CrossoverType::PMX => exists|cut: int|
            (if n == 1 {
                cut == 1
            } else {
                1 <= cut <= n - 1
            }) && child == #[trigger] one_point_child(first, second, cut),
        CrossoverType::OX => exists|low: int, high: int|
            0 <= low <= high <= n - 1 && child == #[trigger] order_child(first, second, low, high),
        CrossoverType::CX => is_cycle_child(first, second, child),
    }
}

/// Every possible outcome of a crossover of two tours is a tour.
pub proof fn lemma_crossed_is_tour(first: Seq<usize>, second: Seq<usize>, child: Seq<usize>, kind: CrossoverType, n: nat)
    requires
        1 <= n <= usize::MAX,
        is_tour(first, n),
        is_tour(second, n),
        crossed(first, second, child, kind),
    ensures
        is_tour(child, n),
{
    match kind {
        CrossoverType::PMX => {
            let cut = choose|cut: int|
                (if n == 1 {
                    cut == 1
                } else {
                    1 <= cut <= n - 1
                }) && child == #[trigger] one_point_child(first, second, cut);
            lemma_one_point_child_is_tour(first, second, cut, n);
        },
        CrossoverType::OX => {
            let (low, high) = choose|low: int, high: int|
                0 <= low <= high <= n - 1 && child == #[trigger] order_child(first, second, low, high);
            lemma_order_child_is_tour(first, second, low, high, n);
        },
        CrossoverType::CX => {
            lemma_cycle_child_is_tour(first, second, child, n);
        },
    }
}

/// `after` is what the run's mutation step may leave of `before`: `before`
/// itself, unless the run always mutates, or a possible outcome of the run's
/// mutation on it, unless the run never mutates.
pub open spec fn survived(before: Seq<usize>, after: Seq<usize>, params: GAParameters) -> bool {
    ||| (params.mutation_per_million < MILLION && after == before)
    ||| (params.mutation_per_million > 0 && mutated(before, after, params.mutation_type))
}

/// `next` is a possible successor of the generation `population` with the
/// given fitness values: with `order` the ranking of the generation, `bred`
/// holds one child for each of the first breeding pairs and then the best of
/// the generation itself, by rank; `next` holds the members of `bred`, each
/// as it is or mutated.
pub open spec fn is_successor(
    population: Seq<Seq<usize>>,
    fitness: Seq<i128>,
    order: Seq<usize>,
    bred: Seq<Seq<usize>>,
    next: Seq<Seq<usize>>,
    params: GAParameters,
) -> bool {
    let size = population.len();
    let children = pair_count(size, params.crossover_per_million as nat);
    &&& is_ranking(fitness, order)
    &&& bred.len() == size
    &&& next.len() == size
    &&& forall|k: int|
        0 <= k < children ==> crossed(
            population[pair_at(order, k).0 as int],
            population[pair_at(order, k).1 as int],
            #[trigger] bred[k],
            params.crossover_type,
        )
    &&& forall|i: int| children <= i < size ==> #[trigger] bred[i] == population[order[i - children] as int]
    &&& forall|i: int| 0 <= i < size ==> survived(bred[i], #[trigger] next[i], params)
}

/// What a run reports of one generation.
#[derive(Clone, Copy, Debug)]
pub struct GenerationRecord {
    /// The number of the generation, from zero.
    pub generation: usize,
    /// The smallest tour length in this generation.
    pub best_fitness: i128,
    /// The smallest tour length in this generation and all before it.
    pub all_time_best: i128,
}

/// The result of a run.
#[derive(Debug)]
pub struct SearchOutcome {
    /// The shortest tour that any generation held.
    pub best_tour: Vec<usize>,
    /// Its length.
    pub best_fitness: i128,
    /// One record for each generation, in order.
    pub history: Vec<GenerationRecord>,
    /// The population that the last generation left behind.
    pub population: Vec<Vec<usize>>,
}

/// Record `g` has the number `g`, and its running best is the smaller of the
/// running best before it and the generation's own best.
pub open spec fn record_follows(records: Seq<GenerationRecord>, g: int) -> bool {
    &&& records[g].generation == g
    &&& records[g].all_time_best == if g == 0 || records[g].best_fitness < records[g - 1].all_time_best {
        records[g].best_fitness
    } else {
        records[g - 1].all_time_best
    }
}

/// The records are numbered from zero, and each running best is the smaller
/// of the running best before it and the generation's own best.
pub open spec fn is_history(records: Seq<GenerationRecord>) -> bool {
    forall|g: int| 0 <= g < records.len() ==> #[trigger] record_follows(records, g)
}

/// The lengths of the tours of a population, as the search holds them.
pub open spec fn fitness_of(weights: Seq<Seq<isize>>, population: Seq<Seq<usize>>) -> Seq<i128> {
    Seq::new(population.len(), |i: int| tour_cost(weights, population[i]) as i128)
}

/// `after` is a possible successor of the generation `before`.
pub open spec fn follows(weights: Seq<Seq<isize>>, before: Seq<Seq<usize>>, after: Seq<Seq<usize>>, params: GAParameters) -> bool {
    exists|order: Seq<usize>, bred: Seq<Seq<usize>>| #[trigger]
        is_successor(before, fitness_of(weights, before), order, bred, after, params)
}

/// Record `g` reports the shortest tour of generation `g`, and generation
/// `g + 1` is a possible successor of generation `g`.
pub open spec fn is_step(
    weights: Seq<Seq<isize>>,
    generations: Seq<Seq<Seq<usize>>>,
    records: Seq<GenerationRecord>,
    params: GAParameters,
    g: int,
) -> bool {
    &&& is_least(records[g].best_fitness as int, costs_of(weights, generations[g]))
    &&& follows(weights, generations[g], generations[g + 1], params)
}

/// `generations` are the populations of a run, the last of them the one
/// that the run left behind, and `records` is what the run reported of each
/// but the last.
pub open spec fn is_run(
    weights: Seq<Seq<isize>>,
    generations: Seq<Seq<Seq<usize>>>,
    records: Seq<GenerationRecord>,
    params: GAParameters,
) -> bool {
    &&& generations.len() == records.len() + 1
    &&& is_history(records)
    &&& forall|g: int| 0 <= g < records.len() ==> #[trigger] is_step(weights, generations, records, params, g)
}

/// `tour` is a member of one of the generations that the run evaluated.
pub open spec fn was_held(generations: Seq<Seq<Seq<usize>>>, tour: Seq<usize>) -> bool {
    exists|g: int, i: int| 0 <= g < generations.len() - 1 && 0 <= i < generations[g].len() && #[trigger] generations[g][i] == tour
}

/// `outcome` is a possible outcome of a run that starts with the population
/// `first` and goes through `generations`.
pub open spec fn is_outcome(
    weights: Seq<Seq<isize>>,
    first: Seq<Seq<usize>>,
    outcome: SearchOutcome,
    generations: Seq<Seq<Seq<usize>>>,
    params: GAParameters,
) -> bool {
    &&& is_run(weights, generations, outcome.history@, params)
    &&& generations[0] == first
    &&& generations[generations.len() - 1] == tours_of(outcome.population@)
    &&& was_held(generations, outcome.best_tour@)
}

/// Every possible successor of a generation of tours is a generation of
/// tours.
pub proof fn lemma_successor_holds_tours(
    population: Seq<Seq<usize>>,
    fitness: Seq<i128>,
    order: Seq<usize>,
    bred: Seq<Seq<usize>>,
    next: Seq<Seq<usize>>,
    params: GAParameters,
    n: nat,
)
    requires
        1 <= n <= usize::MAX,
        params.valid(),
        population.len() == params.population_size,
        fitness.len() == population.len(),
        all_tours(population, n),
        is_successor(population, fitness, order, bred, next, params),
    ensures
        next.len() == population.len(),
        all_tours(next, n),
{
    let size = population.len() as int;
    let share = params.crossover_per_million as int;
    let children = pair_count(size as nat, share as nat) as int;
    assert(size * share <= size * 1_000_000) by (nonlinear_arith)
        requires
            0 <= share <= 1_000_000,
            size >= 0,
    ;
    assert(size <= size * (size - 1)) by (nonlinear_arith)
        requires
            size >= 2,
    ;
    assert(children <= size);
    lemma_ranking_is_tour(fitness, order);
    assert forall|i: int| 0 <= i < size implies is_tour(#[trigger] bred[i], n) by {
        if i < children {
            lemma_pair_at(order, i);
            let one = population[pair_at(order, i).0 as int];
            let other = population[pair_at(order, i).1 as int];
            assert(is_tour(one, n) && is_tour(other, n));
            lemma_crossed_is_tour(one, other, bred[i], params.crossover_type, n);
        } else {
            assert(order[i - children] < size);
            assert(is_tour(population[order[i - children] as int], n));
        }
    }
    assert forall|i: int| 0 <= i < next.len() implies is_tour(#[trigger] next[i], n) by {
        assert(survived(bred[i], next[i], params));
        if next[i] != bred[i] {
            lemma_mutated_is_tour(bred[i], next[i], params.mutation_type, n);
        }
    }
}

/// Every generation of a run that starts with tours holds tours only.
pub proof fn lemma_run_holds_tours(
    weights: Seq<Seq<isize>>,
    generations: Seq<Seq<Seq<usize>>>,
    records: Seq<GenerationRecord>,
    params: GAParameters,
    n: nat,
    g: int,
)
    requires
        1 <= n <= usize::MAX,
        params.valid(),
        is_run(weights, generations, records, params),
        generations[0].len() == params.population_size,
        all_tours(generations[0], n),
        0 <= g < generations.len(),
    ensures
        generations[g].len() == params.population_size,
        all_tours(generations[g], n),
    decreases g,
{
    if g > 0 {
        lemma_run_holds_tours(weights, generations, records, params, n, g - 1);
        assert(is_step(weights, generations, records, params, g - 1));
        let before = generations[g - 1];
        let (order, bred) = choose|order: Seq<usize>, bred: Seq<Seq<usize>>| #[trigger]
            is_successor(before, fitness_of(weights, before), order, bred, generations[g], params);
        lemma_successor_holds_tours(before, fitness_of(weights, before), order, bred, generations[g], params, n);
    }
}

/// The running best never rises from one generation to a later one, and is
/// never above the best of its own generation.
pub proof fn lemma_history_never_rises(records: Seq<GenerationRecord>, earlier: int, later: int)
    requires
        is_history(records),
        0 <= earlier <= later < records.len(),
    ensures
        records[later].all_time_best <= records[earlier].all_time_best,
        records[later].all_time_best <= records[later].best_fitness,
    decreases later - earlier,
{
    assert(record_follows(records, later));
    if earlier < later {
        lemma_history_never_rises(records, earlier, later - 1);
    }
}

/// A uniformly random tour over `graph_size` nodes: a shuffle of the
/// identity ordering.
pub fn generate_random_path(graph_size: usize, rng: &mut StdRng) -> (path: Vec<usize>)
    ensures
        is_tour(path@, graph_size as nat),
{
    let mut path = sequence_vector(graph_size);
    shuffle(rng, &mut path);
    proof {
        lemma_identity_is_tour(graph_size as nat);
        lemma_reordered_tour(identity(graph_size as nat), path@, graph_size as nat);
    }
    path
}

/// The first generation: `population_size` random tours over the nodes of
/// the graph, drawn independently.
pub fn generate_initial_population(graph: &MatrixGraph, population_size: usize, rng: &mut StdRng) -> (population: Vec<Vec<usize>>)
    requires
        graph.well_formed(),
    ensures
        population@.len() == population_size,
        all_tours(tours_of(population@), graph.node_count()),
{
    let n = graph.size();
    let mut population: Vec<Vec<usize>> = Vec::with_capacity(population_size);
    let mut i: usize = 0;
    while i < population_size
        invariant
            i <= population_size,
            population@.len() == i,
            n == graph.node_count(),
            all_tours(tours_of(population@), n as nat),
        decreases population_size - i,
    {
        let ghost before = population@;
        let path = generate_random_path(n, rng);
        population.push(path);
        i += 1;
        proof {
            assert forall|k: int| 0 <= k < population@.len() implies is_tour(#[trigger] tours_of(population@)[k], n as nat) by {
                if k < before.len() {
                    assert(tours_of(population@)[k] == tours_of(before)[k]);
                }
            }
        }
    }
    population
}

/// Every member of the population is a path of at least one node, over
/// the nodes `0..n`.
pub open spec fn all_paths(population: Seq<Seq<usize>>, n: nat) -> bool {
    forall|i: int| 0 <= i < population.len() ==> (#[trigger] population[i]).len() >= 1 && in_range(population[i], n)
}

/// The length of every member of the population, as a closed tour.
pub fn calculate_fitness(graph: &MatrixGraph, population: &Vec<Vec<usize>>) -> (fitness: Vec<i128>)
    requires
        graph.well_formed(),
        all_paths(tours_of(population@), graph.node_count()),
    ensures
        fitness@.len() == population@.len(),
        forall|i: int| 0 <= i < population@.len() ==> #[trigger] fitness@[i] == tour_cost(graph.weights(), population@[i]@),
{
    let mut fitness: Vec<i128> = Vec::with_capacity(population.len());
    let mut i: usize = 0;
    while i < population.len()
        invariant
            i <= population@.len(),
            graph.well_formed(),
            all_paths(tours_of(population@), graph.node_count()),
            fitness@.len() == i,
            forall|k: int| 0 <= k < i ==> #[trigger] fitness@[k] == tour_cost(graph.weights(), population@[k]@),
        decreases population@.len() - i,
    {
        assert(tours_of(population@)[i as int].len() >= 1 && in_range(tours_of(population@)[i as int], graph.node_count()));
        fitness.push(graph.calculate_path_length(&population[i]));
        i += 1;
    }
    fitness
}

/// The position of the smallest value; of several, the first.
pub fn position_of_least(values: &Vec<i128>) -> (at: usize)
    requires
        values@.len() >= 1,
    ensures
        at < values@.len(),
        forall|i: int| 0 <= i < values@.len() ==> values@[at as int] <= #[trigger] values@[i],
        forall|i: int| 0 <= i < at ==> values@[at as int] < #[trigger] values@[i],
{
    let mut at: usize = 0;
    let mut i: usize = 1;
    while i < values.len()
        invariant
            1 <= i <= values@.len(),
            at < i,
            forall|k: int| 0 <= k < i ==> values@[at as int] <= #[trigger] values@[k],
            forall|k: int| 0 <= k < at ==> values@[at as int] < #[trigger] values@[k],
        decreases values@.len() - i,
    {
        if values[i] < values[at] {
            at = i;
        }
        i += 1;
    }
    at
}

/// One child for each breeding pair, by the crossover that the run is
/// configured with.
pub fn crossover(population: &Vec<Vec<usize>>, pairs: &Vec<(usize, usize)>, params: &GAParameters, rng: &mut StdRng) -> (children: Vec<Vec<usize>>)
    requires
        population@.len() >= 1,
        population@[0]@.len() >= 1,
        all_tours(tours_of(population@), population@[0]@.len()),
        forall|k: int| 0 <= k < pairs@.len() ==> (#[trigger] pairs@[k]).0 < population@.len() && pairs@[k].1 < population@.len(),
    ensures
        children@.len() == pairs@.len(),
        all_tours(tours_of(children@), population@[0]@.len()),
        forall|k: int|
            0 <= k < pairs@.len() ==> crossed(
                population@[pairs@[k].0 as int]@,
                population@[pairs@[k].1 as int]@,
                #[trigger] children@[k]@,
                params.crossover_type,
            ),
{
    let ghost n = population@[0]@.len();
    let mut children: Vec<Vec<usize>> = Vec::with_capacity(pairs.len());
    let mut i: usize = 0;
    while i < pairs.len()
        invariant
            i <= pairs@.len(),
            n >= 1,
            n == population@[0]@.len(),
            all_tours(tours_of(population@), n),
            forall|k: int| 0 <= k < pairs@.len() ==> (#[trigger] pairs@[k]).0 < population@.len() && pairs@[k].1 < population@.len(),
            children@.len() == i,
            forall|k: int| 0 <= k < i ==> is_tour(#[trigger] children@[k]@, n),
            forall|k: int|
                0 <= k < i ==> crossed(
                    population@[pairs@[k].0 as int]@,
                    population@[pairs@[k].1 as int]@,
                    #[trigger] children@[k]@,
                    params.crossover_type,
                ),
        decreases pairs@.len() - i,
    {
        let pair = pairs[i];
        let parent1 = &population[pair.0];
        let parent2 = &population[pair.1];
        proof {
            assert(is_tour(tours_of(population@)[pair.0 as int], n));
            assert(is_tour(tours_of(population@)[pair.1 as int], n));
        }
        let child = match params.crossover_type {
            CrossoverType::PMX => one_point_crossover(parent1, parent2, rng),
            CrossoverType::OX => order_crossover(parent1, parent2, rng),
            CrossoverType::CX => cycle_crossover(parent1, parent2),
        };
        children.push(child);
        i += 1;
    }
    proof {
        assert forall|k: int| 0 <= k < children@.len() implies is_tour(#[trigger] tours_of(children@)[k], n) by {
            assert(is_tour(children@[k]@, n));
        }
    }
    children
}

/// The next population before mutation: the children, and after them the
/// best of the current population by rank, until the population is full.
pub fn elitist_fill(population: &Vec<Vec<usize>>, children: &Vec<Vec<usize>>, order: &Vec<usize>) -> (filled: Vec<Vec<usize>>)
    requires
        children@.len() <= population@.len(),
        order@.len() == population@.len(),
        forall|i: int| 0 <= i < order@.len() ==> (#[trigger] order@[i]) < population@.len(),
    ensures
        filled@.len() == population@.len(),
        forall|k: int| 0 <= k < children@.len() ==> (#[trigger] filled@[k])@ == children@[k]@,
        forall|i: int| children@.len() <= i < population@.len() ==> (#[trigger] filled@[i])@ == population@[order@[i - children@.len()] as int]@,
{
    let size = population.len();
    let bred = children.len();
    let mut filled: Vec<Vec<usize>> = Vec::with_capacity(size);
    let mut k: usize = 0;
    while k < bred
        invariant
            k <= bred,
            bred == children@.len(),
            filled@.len() == k,
            forall|j: int| 0 <= j < k ==> (#[trigger] filled@[j])@ == children@[j]@,
        decreases bred - k,
    {
        filled.push(copy_of(&children[k]));
        k += 1;
    }
    let mut i: usize = 0;
    while i < size - bred
        invariant
            i <= size - bred,
            bred == children@.len(),
            bred <= size,
            size == population@.len(),
            order@.len() == size,
            forall|j: int| 0 <= j < order@.len() ==> (#[trigger] order@[j]) < population@.len(),
            filled@.len() == bred + i,
            forall|j: int| 0 <= j < bred ==> (#[trigger] filled@[j])@ == children@[j]@,
            forall|j: int| bred <= j < bred + i ==> (#[trigger] filled@[j])@ == population@[order@[j - bred] as int]@,
        decreases size - bred - i,
    {
        filled.push(copy_of(&population[order[i]]));
        i += 1;
    }
    filled
}

/// Mutates each member of the population with the run's mutation
/// probability, by the run's mutation, each member independently.
pub fn mutate_population(population: &Vec<Vec<usize>>, params: &GAParameters, rng: &mut StdRng) -> (result: Vec<Vec<usize>>)
    requires
        params.mutation_per_million <= MILLION,
        forall|i: int| 0 <= i < population@.len() ==> (#[trigger] population@[i])@.len() >= 1,
    ensures
        result@.len() == population@.len(),
        forall|i: int| 0 <= i < population@.len() ==> survived(population@[i]@, (#[trigger] result@[i])@, *params),
        forall|i: int| 0 <= i < population@.len() && is_tour(population@[i]@, population@[i]@.len()) ==> is_tour((#[trigger] result@[i])@, population@[i]@.len()),
{
    let mut result: Vec<Vec<usize>> = Vec::with_capacity(population.len());
    let mut i: usize = 0;
    while i < population.len()
        invariant
            i <= population@.len(),
            params.mutation_per_million <= MILLION,
            forall|k: int| 0 <= k < population@.len() ==> (#[trigger] population@[k])@.len() >= 1,
            result@.len() == i,
            forall|k: int| 0 <= k < i ==> survived(population@[k]@, (#[trigger] result@[k])@, *params),
            forall|k: int| 0 <= k < i && is_tour(population@[k]@, population@[k]@.len()) ==> is_tour((#[trigger] result@[k])@, population@[k]@.len()),
        decreases population@.len() - i,
    {
        let mut path = copy_of(&population[i]);
        assert(population@[i as int]@.len() >= 1);
        if random_ratio(rng, params.mutation_per_million, MILLION) {
            mutate_in_place(&mut path, params, rng);
        }
        result.push(path);
        i += 1;
    }
    result
}

/// The generation that follows `population`, whose tours have the lengths
/// `fitness`: the children of the first breeding pairs of its ranking, then
/// its own best by rank, each of them mutated with the run's mutation
/// probability.
pub fn next_generation(population: &Vec<Vec<usize>>, fitness: &Vec<i128>, params: &GAParameters, rng: &mut StdRng) -> (next: Vec<Vec<usize>>)
    requires
        params.valid(),
        population@.len() == params.population_size,
        fitness@.len() == population@.len(),
        population@[0]@.len() >= 1,
        all_tours(tours_of(population@), population@[0]@.len()),
    ensures
        next@.len() == population@.len(),
        all_tours(tours_of(next@), population@[0]@.len()),
        exists|order: Seq<usize>, bred: Seq<Seq<usize>>| #[trigger]
            is_successor(tours_of(population@), fitness@, order, bred, tours_of(next@), *params),
{
    let ghost n = population@[0]@.len();
    let size = population.len();
    let order = rank(fitness);
    let count = params.crossover_pair_count();
    proof {
        assert(size <= size * (size - 1)) by (nonlinear_arith)
            requires
                size >= 2,
        ;
    }
    let pairs = pairs_from_ranking(&order, count);
    proof {
        assert forall|k: int| 0 <= k < pairs@.len() implies (#[trigger] pairs@[k]).0 < size && pairs@[k].1 < size by {
            lemma_pair_at(order@, k);
        }
    }
    let children = crossover(population, &pairs, params, rng);
    let bred = elitist_fill(population, &children, &order);
    proof {
        assert forall|i: int| 0 <= i < size implies is_tour((#[trigger] bred@[i])@, n) by {
            if i < count {
                assert(is_tour(tours_of(children@)[i], n));
            } else {
                assert(is_tour(tours_of(population@)[order@[i - count] as int], n));
            }
        }
    }
    let next = mutate_population(&bred, params, rng);
    proof {
        let pop = tours_of(population@);
        let mid = tours_of(bred@);
        let out = tours_of(next@);
        assert forall|i: int| 0 <= i < out.len() implies is_tour(#[trigger] out[i], n) by {
            assert(is_tour(bred@[i]@, n));
            assert(is_tour(next@[i]@, n));
        }
        assert forall|k: int| 0 <= k < count implies crossed(
            pop[pair_at(order@, k).0 as int],
            pop[pair_at(order@, k).1 as int],
            #[trigger] mid[k],
            params.crossover_type,
        ) by {
            assert(pairs@[k] == pair_at(order@, k));
            assert(bred@[k]@ == children@[k]@);
        }
        assert forall|i: int| count <= i < size implies #[trigger] mid[i] == pop[order@[i - count] as int] by {
            assert(bred@[i]@ == population@[order@[i - count] as int]@);
        }
        assert forall|i: int| 0 <= i < size implies survived(mid[i], #[trigger] out[i], *params) by {
            assert(survived(bred@[i]@, next@[i]@, *params));
        }
        assert(is_successor(pop, fitness@, order@, mid, out, *params));
    }
    next
}

/// Runs the configured number of generations from the given first
/// generation. Each generation is evaluated and recorded, and then replaced
/// by its successor. The outcome names the shortest tour that any evaluated
/// generation held, and the population that the last generation left behind.
pub fn evolve(graph: &MatrixGraph, population: Vec<Vec<usize>>, params: &GAParameters, rng: &mut StdRng) -> (outcome: SearchOutcome)
    requires
        graph.well_formed(),
        graph.node_count() >= 1,
        params.valid(),
        population@.len() == params.population_size,
        all_tours(tours_of(population@), graph.node_count()),
    ensures
        outcome.history@.len() == params.max_generations,
        exists|generations: Seq<Seq<Seq<usize>>>| #[trigger]
            is_outcome(graph.weights(), tours_of(population@), outcome, generations, *params),
        is_least(outcome.history@[0].best_fitness as int, costs_of(graph.weights(), tours_of(population@))),
        forall|g: int, h: int| 0 <= g <= h < outcome.history@.len() ==> (#[trigger] outcome.history@[h]).all_time_best <= (#[trigger] outcome.history@[g]).all_time_best,
        is_tour(outcome.best_tour@, graph.node_count()),
        outcome.best_fitness == tour_cost(graph.weights(), outcome.best_tour@),
        outcome.best_fitness == outcome.history@[params.max_generations - 1].all_time_best,
        outcome.population@.len() == params.population_size,
        all_tours(tours_of(outcome.population@), graph.node_count()),
{
    let ghost n = graph.node_count();
    let ghost w = graph.weights();
    let ghost first = population@;
    let mut population = population;
    let mut history: Vec<GenerationRecord> = Vec::with_capacity(params.max_generations);
    assert(is_tour(tours_of(population@)[0], n));
    let mut best_tour = copy_of(&population[0]);
    let mut best_fitness: i128 = graph.calculate_path_length(&best_tour);
    let mut generation: usize = 0;
    let ghost mut generations: Seq<Seq<Seq<usize>>> = seq![tours_of(population@)];
    let ghost mut best_g: int = 0;
    let ghost mut best_i: int = 0;
    while generation < params.max_generations
        invariant
            generation <= params.max_generations,
            graph.well_formed(),
            n == graph.node_count(),
            w == graph.weights(),
            n >= 1,
            params.valid(),
            population@.len() == params.population_size,
            all_tours(tours_of(population@), n),
            history@.len() == generation,
            is_history(history@),
            generations.len() == generation + 1,
            generations[0] == tours_of(first),
            generations[generation as int] == tours_of(population@),
            forall|g: int| 0 <= g < generation ==> #[trigger] is_step(w, generations, history@, *params, g),
            generation > 0 ==> 0 <= best_g < generation && 0 <= best_i < generations[best_g].len() && generations[best_g][best_i] == best_tour@,
            is_tour(best_tour@, n),
            best_fitness == tour_cost(w, best_tour@),
            generation > 0 ==> best_fitness == history@[generation - 1].all_time_best,
        decreases params.max_generations - generation,
    {
        let ghost current = tours_of(population@);
        assert(all_paths(current, n)) by {
            assert forall|i: int| 0 <= i < current.len() implies (#[trigger] current[i]).len() >= 1 && in_range(current[i], n) by {
                assert(is_tour(current[i], n));
            }
        }
        let fitness = calculate_fitness(graph, &population);
        let at = position_of_least(&fitness);
        let generation_best = fitness[at];
        if generation == 0 || generation_best < best_fitness {
            assert(is_tour(tours_of(population@)[at as int], n));
            best_tour = copy_of(&population[at]);
            best_fitness = generation_best;
            proof {
                best_g = generation as int;
                best_i = at as int;
            }
        }
        let ghost before = history@;
        history.push(GenerationRecord { generation, best_fitness: generation_best, all_time_best: best_fitness });
        proof {
            assert forall|g: int| 0 <= g < history@.len() implies #[trigger] record_follows(history@, g) by {
                if g < before.len() {
                    assert(record_follows(before, g));
                    assert(history@[g] == before[g]);
                    if g > 0 {
                        assert(history@[g - 1] == before[g - 1]);
                    }
                }
            }
            let costs = costs_of(w, current);
            assert(costs[at as int] == generation_best);
            assert forall|i: int| 0 <= i < costs.len() implies generation_best <= #[trigger] costs[i] by {
                assert(fitness@[i] == costs[i]);
            }
            assert(is_least(generation_best as int, costs));
            assert(fitness@ =~= fitness_of(w, current)) by {
                assert forall|i: int| 0 <= i < fitness@.len() implies fitness@[i] == fitness_of(w, current)[i] by {
                    assert(fitness@[i] == tour_cost(w, population@[i]@));
                }
            }
        }
        assert(is_tour(tours_of(population@)[0], n));
        population = next_generation(&population, &fitness, params, rng);
        proof {
            let earlier = generations;
            generations = generations.push(tours_of(population@));
            assert(follows(w, current, tours_of(population@), *params));
            assert forall|g: int| 0 <= g < generation + 1 implies #[trigger] is_step(w, generations, history@, *params, g) by {
                if g < generation {
                    assert(is_step(w, earlier, before, *params, g));
                    assert(generations[g] == earlier[g]);
                    assert(generations[g + 1] == earlier[g + 1]);
                    assert(history@[g] == before[g]);
                } else {
                    assert(generations[g] == current);
                }
            }
            assert(generations[best_g] == earlier[best_g]);
        }
        generation += 1;
    }
    let outcome = SearchOutcome { best_tour, best_fitness, history, population };
    proof {
        assert forall|g: int, h: int| 0 <= g <= h < outcome.history@.len() implies (#[trigger] outcome.history@[h]).all_time_best <= (#[trigger] outcome.history@[g]).all_time_best by {
            lemma_history_never_rises(outcome.history@, g, h);
        }
        assert(is_step(w, generations, outcome.history@, *params, 0));
        assert(generations[best_g][best_i] == outcome.best_tour@);
        assert(was_held(generations, outcome.best_tour@));
        assert(is_outcome(w, tours_of(first), outcome, generations, *params));
    }
    outcome
}

/// Searches for a short closed tour through all nodes of the graph: a random
/// first generation, and from it the configured number of generations. The
/// outcome names the shortest tour that any evaluated generation held.
pub fn genetic_tsp(graph: &MatrixGraph, params: &GAParameters, rng: &mut StdRng) -> (outcome: SearchOutcome)
    requires
        graph.well_formed(),
        graph.node_count() >= 1,
        params.valid(),
    ensures
        outcome.history@.len() == params.max_generations,
        exists|generations: Seq<Seq<Seq<usize>>>| #[trigger]
            is_outcome(graph.weights(), generations[0], outcome, generations, *params) && generations[0].len()
                == params.population_size && all_tours(generations[0], graph.node_count()),
        forall|g: int, h: int| 0 <= g <= h < outcome.history@.len() ==> (#[trigger] outcome.history@[h]).all_time_best <= (#[trigger] outcome.history@[g]).all_time_best,
        is_tour(outcome.best_tour@, graph.node_count()),
        outcome.best_fitness == tour_cost(graph.weights(), outcome.best_tour@),
        outcome.best_fitness == outcome.history@[params.max_generations - 1].all_time_best,
        outcome.population@.len() == params.population_size,
        all_tours(tours_of(outcome.population@), graph.node_count()),
{
    let population = generate_initial_population(graph, params.population_size, rng);
    let ghost first = tours_of(population@);
    let outcome = evolve(graph, population, params, rng);
    proof {
        let generations = choose|generations: Seq<Seq<Seq<usize>>>| #[trigger]
            is_outcome(graph.weights(), first, outcome, generations, *params);
        assert(is_outcome(graph.weights(), generations[0], outcome, generations, *params));
    }
    outcome
}

} // verus!
