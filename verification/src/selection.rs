//! Selection: the ranking of a generation by fitness, and the breeding pairs
//! taken from it.

use crate::tour::{in_range, is_tour, lemma_tour_visits_all};
use vstd::prelude::*;

verus! {

/// In a ranking by `fitness`, individual `a` stands before individual `b`:
/// it is fitter, or as fit and earlier in the population.
pub open spec fn ranks_before(fitness: Seq<i128>, a: usize, b: usize) -> bool {
    fitness[a as int] < fitness[b as int] || (fitness[a as int] == fitness[b as int] && a < b)
}

/// `order` lists the first `count` individuals, each once, best first.
pub open spec fn is_ranking_of(fitness: Seq<i128>, order: Seq<usize>, count: nat) -> bool {
    &&& order.len() == count
    &&& in_range(order, count)
    &&& forall|i: int, j: int|
        0 <= i < j < count ==> ranks_before(fitness, #[trigger] order[i], #[trigger] order[j])
}

/// `order` is the ranking of the population by `fitness`: the stable
/// ascending sort of its indices.
pub open spec fn is_ranking(fitness: Seq<i128>, order: Seq<usize>) -> bool {
    is_ranking_of(fitness, order, fitness.len())
}

/// A ranking lists every individual exactly once.
pub proof fn lemma_ranking_is_tour(fitness: Seq<i128>, order: Seq<usize>)
    requires
        is_ranking(fitness, order),
    ensures
        is_tour(order, fitness.len()),
{
    assert forall|i: int, j: int| 0 <= i < order.len() && 0 <= j < order.len() && i != j implies order[i] != order[j] by {
        if i < j {
            assert(ranks_before(fitness, order[i], order[j]));
        } else {
            assert(ranks_before(fitness, order[j], order[i]));
        }
    }
}

/// A population has one ranking only.
pub proof fn lemma_ranking_is_unique(fitness: Seq<i128>, one: Seq<usize>, other: Seq<usize>)
    requires
        fitness.len() <= usize::MAX,
        is_ranking(fitness, one),
        is_ranking(fitness, other),
    ensures
        one == other,
{
    lemma_agree_upto(fitness, one, other, fitness.len() as int);
    assert(one =~= other);
}

/// Two rankings of a population agree in their first `upto` places.
pub proof fn lemma_agree_upto(fitness: Seq<i128>, one: Seq<usize>, other: Seq<usize>, upto: int)
    requires
        fitness.len() <= usize::MAX,
        is_ranking(fitness, one),
        is_ranking(fitness, other),
        0 <= upto <= fitness.len(),
    ensures
        forall|i: int| 0 <= i < upto ==> one[i] == other[i],
    decreases upto,
{
    if upto > 0 {
        lemma_agree_upto(fitness, one, other, upto - 1);
        let i = upto - 1;
        lemma_ranking_is_tour(fitness, one);
        lemma_ranking_is_tour(fitness, other);
        lemma_tour_visits_all(one, fitness.len());
        lemma_tour_visits_all(other, fitness.len());
        if one[i] != other[i] {
            assert(other.contains(one[i]));
            let m = choose|m: int| 0 <= m < other.len() && other[m] == one[i];
            assert(one.contains(other[i]));
            let k = choose|k: int| 0 <= k < one.len() && one[k] == other[i];
            if m < i {
                assert(one[m] == other[m]);
            } else if k < i {
                assert(other[k] == one[k]);
            } else {
                assert(ranks_before(fitness, other[i], other[m]));
                assert(ranks_before(fitness, one[i], one[k]));
            }
        }
    }
}

/// The number of ordered pairs of two different individuals among `n`.
pub open spec fn pair_limit(n: nat) -> nat {
    if n < 2 {
        0
    } else {
        (n * (n - 1)) as nat
    }
}

/// The `k`-th breeding pair of a ranking: the pairs run through the first
/// parent from best to worst and, for each, through the second parent from
/// best to worst, leaving out the first parent itself.
pub open spec fn pair_at(order: Seq<usize>, k: int) -> (usize, usize) {
    let others = order.len() - 1;
    let i = k / others;
    let r = k % others;
    (order[i], order[if r < i { r } else { r + 1 }])
}

/// `pairs` are the first `count` breeding pairs of the ranking `order`, or
/// all of them where there are fewer.
pub open spec fn is_selection(order: Seq<usize>, pairs: Seq<(usize, usize)>, count: nat) -> bool {
    &&& pairs.len() == if count <= pair_limit(order.len()) {
        count
    } else {
        pair_limit(order.len())
    }
    &&& forall|k: int| 0 <= k < pairs.len() ==> #[trigger] pairs[k] == pair_at(order, k)
}

/// The ranking of a population by fitness, best first; of two individuals of
/// equal fitness the one that stands earlier in the population comes first.
pub fn rank(fitness: &Vec<i128>) -> (order: Vec<usize>)
    ensures
        is_ranking(fitness@, order@),
        is_tour(order@, fitness@.len()),
{
    let n = fitness.len();
    let mut order: Vec<usize> = Vec::with_capacity(n);
    let mut next: usize = 0;
    while next < n
        invariant
            next <= n,
            n == fitness@.len(),
            is_ranking_of(fitness@, order@, next as nat),
        decreases n - next,
    {
        let mut at: usize = next;
        while at > 0 && fitness[order[at - 1]] > fitness[next]
            invariant
                at <= next < n,
                n == fitness@.len(),
                is_ranking_of(fitness@, order@, next as nat),
                forall|k: int| at <= k < next ==> fitness@[next as int] < fitness@[(#[trigger] order@[k]) as int],
            decreases at,
        {
            at -= 1;
        }
        let ghost before = order@;
        order.insert(at, next);
        proof {
            let after = order@;
            assert forall|i: int, j: int| 0 <= i < j < next + 1 implies ranks_before(
                fitness@,
                #[trigger] after[i],
                #[trigger] after[j],
            ) by {
                if j < at {
                    assert(after[i] == before[i] && after[j] == before[j]);
                } else if j == at {
                    assert(after[i] == before[i]);
                    if at > 0 {
                        assert(ranks_before(fitness@, before[i], before[at - 1]) || i == at - 1);
                    }
                } else if i < at {
                    assert(after[i] == before[i] && after[j] == before[j - 1]);
                } else if i == at {
                    assert(after[j] == before[j - 1]);
                } else {
                    assert(after[i] == before[i - 1] && after[j] == before[j - 1]);
                }
            }
            assert forall|i: int| 0 <= i < after.len() implies (#[trigger] after[i]) < next + 1 by {
                if i < at {
                    assert(after[i] == before[i]);
                } else if i > at {
                    assert(after[i] == before[i - 1]);
                }
            }
        }
        next += 1;
    }
    proof {
        lemma_ranking_is_tour(fitness@, order@);
    }
    order
}

/// The first `count` breeding pairs of a ranking, or all of them where there
/// are fewer.
pub fn pairs_from_ranking(order: &Vec<usize>, count: usize) -> (pairs: Vec<(usize, usize)>)
    ensures
        is_selection(order@, pairs@, count as nat),
{
    let n = order.len();
    let mut pairs: Vec<(usize, usize)> = Vec::new();
    if n < 2 {
        return pairs;
    }
    let mut i: usize = 0;
    while i < n
        invariant
            i <= n,
            n >= 2,
            n == order@.len(),
            pairs@.len() <= count,
            pairs@.len() == i * (n - 1),
            forall|k: int| 0 <= k < pairs@.len() ==> #[trigger] pairs@[k] == pair_at(order@, k),
        decreases n - i,
    {
        let mut j: usize = 0;
        while j < n
            invariant
                i < n,
                j <= n,
                n >= 2,
                n == order@.len(),
                pairs@.len() <= count,
                pairs@.len() == i * (n - 1) + j - (if j > i { 1int } else { 0int }),
                forall|k: int| 0 <= k < pairs@.len() ==> #[trigger] pairs@[k] == pair_at(order@, k),
            decreases n - j,
        {
            if pairs.len() == count {
                proof {
                    assert(i * (n - 1) <= (n - 1) * (n - 1)) by (nonlinear_arith)
                        requires
                            0 <= i <= n - 1,
                            n >= 2,
                    ;
                    assert(n * (n - 1) == (n - 1) * (n - 1) + (n - 1)) by (nonlinear_arith);
                }
                return pairs;
            }
            if i != j {
                proof {
                    let k = pairs@.len() as int;
                    let r = if j > i { j - 1 } else { j as int };
                    assert(k == i * (n - 1) + r);
                    vstd::arithmetic::div_mod::lemma_fundamental_div_mod_converse(k, n - 1, i as int, r);
                }
                pairs.push((order[i], order[j]));
            }
            j += 1;
        }
        assert((i + 1) * (n - 1) == i * (n - 1) + (n - 1)) by (nonlinear_arith);
        i += 1;
    }
    pairs
}

/// The breeding pairs of a generation: the population is ranked by fitness,
/// and the pairs are taken from the ranking, best first. The fittest
/// individual is part of more pairs than any other, and the least fit may be
/// part of none.
pub fn generate_crossover_pairs(fitness: &Vec<i128>, crossover_pair_count: usize) -> (pairs: Vec<(usize, usize)>)
    ensures
        exists|order: Seq<usize>| is_ranking(fitness@, order) && #[trigger] is_selection(order, pairs@, crossover_pair_count as nat),
        pairs@.len() <= crossover_pair_count,
        crossover_pair_count <= pair_limit(fitness@.len()) ==> pairs@.len() == crossover_pair_count,
        forall|k: int| 0 <= k < pairs@.len() ==> (#[trigger] pairs@[k]).0 < fitness@.len() && pairs@[k].1 < fitness@.len() && pairs@[k].0 != pairs@[k].1,
{
    let parents = rank(fitness);
    let pairs = pairs_from_ranking(&parents, crossover_pair_count);
    proof {
        assert forall|k: int| 0 <= k < pairs@.len() implies (#[trigger] pairs@[k]).0 < fitness@.len()
            && pairs@[k].1 < fitness@.len() && pairs@[k].0 != pairs@[k].1 by {
            lemma_pair_at(parents@, k);
        }
    }
    pairs
}

/// The two parents of a breeding pair are two different entries of the
/// ranking.
pub proof fn lemma_pair_at(order: Seq<usize>, k: int)
    requires
        is_tour(order, order.len()),
        0 <= k < pair_limit(order.len()),
    ensures
        pair_at(order, k).0 < order.len(),
        pair_at(order, k).1 < order.len(),
        pair_at(order, k).0 != pair_at(order, k).1,
{
    let n = order.len() as int;
    let i = k / (n - 1);
    let r = k % (n - 1);
    vstd::arithmetic::div_mod::lemma_fundamental_div_mod(k, n - 1);
    vstd::arithmetic::div_mod::lemma_mod_bound(k, n - 1);
    assert(0 <= r < n - 1);
    assert(k == (n - 1) * i + r);
    assert(0 <= i < n) by (nonlinear_arith)
        requires
            k == (n - 1) * i + r,
            0 <= r < n - 1,
            0 <= k < n * (n - 1),
            n >= 2,
    ;
    let j = if r < i { r } else { r + 1 };
    assert(order[i] < n);
    assert(order[j] < n);
    assert(i != j);
}

} // verus!
