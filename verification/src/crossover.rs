//! Recombination: operators that build one child tour from two parent tours.

use crate::random::random_in_range;
use crate::tour::{below, in_range, is_tour, lemma_below_len, lemma_distinct_bounded, lemma_tour_visits_all, unset_flags};
use rand::rngs::StdRng;
use vstd::prelude::*;

verus! {

/// The test "`taken` does not hold this identifier".
pub open spec fn not_in(taken: Seq<usize>) -> spec_fn(usize) -> bool {
    |v: usize| !taken.contains(v)
}

/// The entries of `donor`, in `donor`'s order, that `taken` does not hold.
pub open spec fn remaining(donor: Seq<usize>, taken: Seq<usize>) -> Seq<usize> {
    donor.filter(not_in(taken))
}

/// The child of the single-cut fill: the first `cut` entries of `first`, then
/// what `second` still has to offer, in `second`'s order.
pub open spec fn one_point_child(first: Seq<usize>, second: Seq<usize>, cut: int) -> Seq<usize> {
    first.subrange(0, cut) + remaining(second, first.subrange(0, cut))
}

/// The child of the order crossover: `first`'s entries at the positions
/// `low..high`, and around them, left to right, what `second` still has to
/// offer, in `second`'s order.
pub open spec fn order_child(first: Seq<usize>, second: Seq<usize>, low: int, high: int) -> Seq<
    usize,
> {
    let kept = remaining(second, first.subrange(low, high));
    kept.subrange(0, low) + first.subrange(low, high) + kept.subrange(low, kept.len() as int)
}

/// Filtering keeps entries distinct.
pub proof fn lemma_filter_distinct(s: Seq<usize>, keep: spec_fn(usize) -> bool)
    requires
        s.no_duplicates(),
    ensures
        s.filter(keep).no_duplicates(),
    decreases s.len(),
{
    reveal(Seq::filter);
    if s.len() > 0 {
        let front = s.drop_last();
        lemma_filter_distinct(front, keep);
        if keep(s.last()) {
            let kept = front.filter(keep);
            if kept.contains(s.last()) {
                front.lemma_filter_contains_rev(keep, s.last());
                let j = choose|j: int| 0 <= j < front.len() && front[j] == s.last();
                assert(s[j] == s[s.len() - 1]);
            }
            assert(!kept.contains(s.last()));
            assert forall|a: int, b: int|
                0 <= a < kept.len() + 1 && 0 <= b < kept.len() + 1 && a != b implies kept.push(
                s.last(),
            )[a] != kept.push(s.last())[b] by {
                if a < kept.len() && b < kept.len() {
                } else if a < kept.len() {
                    assert(kept.contains(kept[a]));
                } else {
                    assert(kept.contains(kept[b]));
                }
            }
        }
    }
}

/// Distinct identifiers, followed by what a tour still has to offer, make a
/// tour.
pub proof fn lemma_fill_is_tour(taken: Seq<usize>, donor: Seq<usize>, n: nat)
    requires
        n <= usize::MAX,
        is_tour(donor, n),
        in_range(taken, n),
        taken.no_duplicates(),
    ensures
        is_tour(taken + remaining(donor, taken), n),
        remaining(donor, taken).len() == n - taken.len(),
{
    let keep = not_in(taken);
    let kept = remaining(donor, taken);
    let whole = taken + kept;
    lemma_filter_distinct(donor, keep);
    assert forall|i: int| 0 <= i < kept.len() implies (#[trigger] kept[i]) < n && !taken.contains(
        kept[i],
    ) by {
        donor.lemma_filter_pred(keep, i);
        assert(kept.contains(kept[i]));
        donor.lemma_filter_contains_rev(keep, kept[i]);
        let j = choose|j: int| 0 <= j < donor.len() && donor[j] == kept[i];
        assert(donor[j] < n);
    }
    assert(in_range(whole, n));
    assert forall|a: int, b: int| 0 <= a < whole.len() && 0 <= b < whole.len() && a != b implies whole[a] != whole[b] by {
        if a < taken.len() && b < taken.len() {
        } else if a >= taken.len() && b >= taken.len() {
            assert(kept[a - taken.len()] != kept[b - taken.len()]);
        } else if a < taken.len() {
            assert(taken.contains(taken[a]));
            assert(!taken.contains(kept[b - taken.len()]));
        } else {
            assert(taken.contains(taken[b]));
            assert(!taken.contains(kept[a - taken.len()]));
        }
    }
    lemma_distinct_bounded(whole, n);
    lemma_tour_visits_all(donor, n);
    lemma_below_len(n);
    whole.unique_seq_to_set();
    assert(below(n).subset_of(whole.to_set())) by {
        assert forall|v: usize| below(n).contains(v) implies whole.to_set().contains(v) by {
            assert(donor.contains(v));
            if taken.contains(v) {
                let j = choose|j: int| 0 <= j < taken.len() && taken[j] == v;
                assert(whole[j] == v);
            } else {
                let j = choose|j: int| 0 <= j < donor.len() && donor[j] == v;
                donor.lemma_filter_contains(keep, j);
                let k = choose|k: int| 0 <= k < kept.len() && kept[k] == v;
                assert(whole[taken.len() + k] == v);
            }
        }
    }
    vstd::seq_lib::seq_to_set_is_finite(whole);
    vstd::set_lib::lemma_len_subset(below(n), whole.to_set());
}

/// The single-cut fill of two tours is a tour.
pub proof fn lemma_one_point_child_is_tour(first: Seq<usize>, second: Seq<usize>, cut: int, n: nat)
    requires
        n <= usize::MAX,
        is_tour(first, n),
        is_tour(second, n),
        0 <= cut <= n,
    ensures
        is_tour(one_point_child(first, second, cut), n),
{
    lemma_fill_is_tour(first.subrange(0, cut), second, n);
}

/// The order crossover of two tours is a tour.
pub proof fn lemma_order_child_is_tour(first: Seq<usize>, second: Seq<usize>, low: int, high: int, n: nat)
    requires
        n <= usize::MAX,
        is_tour(first, n),
        is_tour(second, n),
        0 <= low <= high <= n,
    ensures
        is_tour(order_child(first, second, low, high), n),
        remaining(second, first.subrange(low, high)).len() == n - (high - low),
{
    let taken = first.subrange(low, high);
    let kept = remaining(second, taken);
    lemma_fill_is_tour(taken, second, n);
    let whole = taken + kept;
    let child = order_child(first, second, low, high);
    let width = high - low;
    assert forall|k: int| 0 <= k < n implies #[trigger] child[k] == whole[origin(k, low, high)] by {}
    assert forall|k: int| 0 <= k < n implies (#[trigger] child[k]) < n by {
        assert(child[k] == whole[origin(k, low, high)]);
    }
    assert forall|a: int, b: int| 0 <= a < n && 0 <= b < n && a != b implies child[a] != child[b] by {
        assert(child[a] == whole[origin(a, low, high)]);
        assert(child[b] == whole[origin(b, low, high)]);
    }
}

/// Where position `k` of an order-crossover child comes from, as a position
/// in the copied segment followed by the kept entries.
pub open spec fn origin(k: int, low: int, high: int) -> int {
    if k < low {
        (high - low) + k
    } else if k < high {
        k - low
    } else {
        k
    }
}

/// For each identifier below `n`, whether `path` holds it at one of the
/// positions `low..high`.
fn segment_flags(path: &Vec<usize>, low: usize, high: usize, n: usize) -> (flags: Vec<bool>)
    requires
        low <= high <= path@.len(),
        in_range(path@, n as nat),
    ensures
        flags@.len() == n,
        forall|v: int| 0 <= v < n ==> (#[trigger] flags@[v] <==> path@.subrange(low as int, high as int).contains(v as usize)),
{
    let mut flags = unset_flags(n);
    assert(path@.subrange(low as int, low as int) =~= Seq::<usize>::empty());
    let mut i: usize = low;
    while i < high
        invariant
            low <= i <= high <= path@.len(),
            in_range(path@, n as nat),
            flags@.len() == n,
            forall|v: int| 0 <= v < n ==> (#[trigger] flags@[v] <==> path@.subrange(low as int, i as int).contains(v as usize)),
        decreases high - i,
    {
        let v = path[i];
        let ghost before = path@.subrange(low as int, i as int);
        let ghost after = path@.subrange(low as int, i + 1);
        flags.set(v, true);
        proof {
            assert(after =~= before.push(v));
            assert forall|w: int| 0 <= w < n implies (#[trigger] flags@[w] <==> after.contains(w as usize)) by {
                if w == v {
                    assert(after[i - low] == v);
                } else if before.contains(w as usize) {
                    let j = choose|j: int| 0 <= j < before.len() && before[j] == w as usize;
                    assert(after[j] == w as usize);
                } else if after.contains(w as usize) {
                    let j = choose|j: int| 0 <= j < after.len() && after[j] == w as usize;
                    assert(before[j] == w as usize);
                }
            }
        }
        i += 1;
    }
    flags
}

/// What `donor` still has to offer beside the positions `low..high` of
/// `path`, in `donor`'s order.
fn remaining_of(donor: &Vec<usize>, path: &Vec<usize>, low: usize, high: usize) -> (kept: Vec<usize>)
    requires
        low <= high <= path@.len(),
        in_range(path@, donor@.len()),
        in_range(donor@, donor@.len()),
    ensures
        kept@ == remaining(donor@, path@.subrange(low as int, high as int)),
{
    let n = donor.len();
    let flags = segment_flags(path, low, high, n);
    let ghost taken = path@.subrange(low as int, high as int);
    let mut kept: Vec<usize> = Vec::with_capacity(n);
    let mut j: usize = 0;
    assert(donor@.subrange(0, 0) =~= Seq::<usize>::empty());
    while j < n
        invariant
            j <= n,
            n == donor@.len(),
            in_range(donor@, n as nat),
            flags@.len() == n,
            taken == path@.subrange(low as int, high as int),
            forall|v: int| 0 <= v < n ==> (#[trigger] flags@[v] <==> taken.contains(v as usize)),
            kept@ == remaining(donor@.subrange(0, j as int), taken),
        decreases n - j,
    {
        let v = donor[j];
        proof {
            assert(donor@.subrange(0, j + 1) =~= donor@.subrange(0, j as int).push(v));
            donor@.subrange(0, j as int).lemma_filter_push(v, not_in(taken));
            assert(flags@[v as int] <==> taken.contains(v));
        }
        if !flags[v] {
            kept.push(v);
        }
        j += 1;
    }
    assert(donor@.subrange(0, n as int) =~= donor@);
    kept
}

/// Single-cut fill at a given cut: the child starts with the first `cut`
/// entries of `first` and goes on with the entries of `second` that are still
/// missing, in `second`'s order.
pub fn one_point_crossover_at(first: &Vec<usize>, second: &Vec<usize>, cut: usize) -> (child: Vec<usize>)
    requires
        is_tour(first@, first@.len()),
        is_tour(second@, first@.len()),
        cut <= first@.len(),
    ensures
        child@ == one_point_child(first@, second@, cut as int),
        is_tour(child@, first@.len()),
{
    let n = first.len();
    let kept = remaining_of(second, first, 0, cut);
    let mut child: Vec<usize> = Vec::with_capacity(n);
    let mut i: usize = 0;
    while i < cut
        invariant
            i <= cut <= first@.len(),
            child@ == first@.subrange(0, i as int),
        decreases cut - i,
    {
        child.push(first[i]);
        i += 1;
        assert(child@ =~= first@.subrange(0, i as int));
    }
    let mut j: usize = 0;
    while j < kept.len()
        invariant
            j <= kept@.len(),
            child@ == first@.subrange(0, cut as int) + kept@.subrange(0, j as int),
        decreases kept@.len() - j,
    {
        child.push(kept[j]);
        j += 1;
        assert(child@ =~= first@.subrange(0, cut as int) + kept@.subrange(0, j as int));
    }
    proof {
        assert(kept@.subrange(0, kept@.len() as int) =~= kept@);
        lemma_one_point_child_is_tour(first@, second@, cut as int, n as nat);
    }
    child
}

/// Order crossover at given cut points: the child has `first`'s entries at
/// the positions `low..high`; the other positions are filled from left to
/// right with the entries of `second` that are still missing, in `second`'s
/// order.
pub fn order_crossover_at(first: &Vec<usize>, second: &Vec<usize>, low: usize, high: usize) -> (child: Vec<usize>)
    requires
        is_tour(first@, first@.len()),
        is_tour(second@, first@.len()),
        low <= high <= first@.len(),
    ensures
        child@ == order_child(first@, second@, low as int, high as int),
        is_tour(child@, first@.len()),
{
    let n = first.len();
    let kept = remaining_of(second, first, low, high);
    let width = high - low;
    proof {
        lemma_order_child_is_tour(first@, second@, low as int, high as int, n as nat);
    }
    let ghost target = order_child(first@, second@, low as int, high as int);
    let mut child: Vec<usize> = Vec::with_capacity(n);
    let mut k: usize = 0;
    while k < n
        invariant
            k <= n,
            n == first@.len(),
            low <= high <= n,
            width == high - low,
            kept@.len() == n - width,
            kept@ == remaining(second@, first@.subrange(low as int, high as int)),
            target == order_child(first@, second@, low as int, high as int),
            child@ == target.subrange(0, k as int),
        decreases n - k,
    {
        let v = if k < low {
            kept[k]
        } else if k < high {
            first[k]
        } else {
            kept[k - width]
        };
        child.push(v);
        k += 1;
        assert(child@ =~= target.subrange(0, k as int));
    }
    assert(target.subrange(0, n as int) =~= target);
    child
}

/// Single-cut fill ("PMX" in the operator selection) with a random cut. The
/// cut is drawn from `1..=n - 1`; two tours over a single node have that node
/// for a child.
pub fn one_point_crossover(first: &Vec<usize>, second: &Vec<usize>, rng: &mut StdRng) -> (child: Vec<usize>)
    requires
        first@.len() >= 1,
        is_tour(first@, first@.len()),
        is_tour(second@, first@.len()),
    ensures
        is_tour(child@, first@.len()),
        exists|cut: int|
            (if first@.len() == 1 { cut == 1 } else { 1 <= cut <= first@.len() - 1 })
            && child@ == #[trigger] one_point_child(first@, second@, cut),
{
    let n = first.len();
    let cut = if n < 2 { n } else { random_in_range(rng, 1, n) };
    one_point_crossover_at(first, second, cut)
}

/// Order crossover with two random cut points, each drawn from `0..=n - 1`
/// and then put in order.
pub fn order_crossover(first: &Vec<usize>, second: &Vec<usize>, rng: &mut StdRng) -> (child: Vec<usize>)
    requires
        first@.len() >= 1,
        is_tour(first@, first@.len()),
        is_tour(second@, first@.len()),
    ensures
        is_tour(child@, first@.len()),
        exists|low: int, high: int|
            0 <= low <= high <= first@.len() - 1
            && child@ == #[trigger] order_child(first@, second@, low, high),
{
    let n = first.len();
    let a = random_in_range(rng, 0, n);
    let b = random_in_range(rng, 0, n);
    let (low, high) = if a > b { (b, a) } else { (a, b) };
    order_crossover_at(first, second, low, high)
}

/// A copy of `path`.
pub fn copy_of(path: &Vec<usize>) -> (copy: Vec<usize>)
    ensures
        copy@ == path@,
{
    let mut copy: Vec<usize> = Vec::with_capacity(path.len());
    let mut i: usize = 0;
    while i < path.len()
        invariant
            i <= path@.len(),
            copy@ == path@.subrange(0, i as int),
        decreases path@.len() - i,
    {
        copy.push(path[i]);
        i += 1;
        assert(copy@ =~= path@.subrange(0, i as int));
    }
    assert(path@.subrange(0, path@.len() as int) =~= path@);
    copy
}

/// For each node, the position at which `tour` visits it.
pub fn positions_of(tour: &Vec<usize>) -> (places: Vec<usize>)
    requires
        is_tour(tour@, tour@.len()),
    ensures
        places@.len() == tour@.len(),
        forall|j: int| 0 <= j < tour@.len() ==> places@[(#[trigger] tour@[j]) as int] == j,
        forall|v: int| 0 <= v < tour@.len() ==> (#[trigger] places@[v]) < tour@.len() && tour@[places@[v] as int] == v,
{
    let n = tour.len();
    let mut places: Vec<usize> = Vec::with_capacity(n);
    let mut k: usize = 0;
    while k < n
        invariant
            k <= n,
            places@.len() == k,
        decreases n - k,
    {
        places.push(0);
        k += 1;
    }
    let mut j: usize = 0;
    while j < n
        invariant
            j <= n,
            n == tour@.len(),
            is_tour(tour@, n as nat),
            places@.len() == n,
            forall|k: int| 0 <= k < j ==> places@[(#[trigger] tour@[k]) as int] == k,
        decreases n - j,
    {
        places.set(tour[j], j);
        j += 1;
    }
    proof {
        lemma_tour_visits_all(tour@, n as nat);
        assert forall|v: int| 0 <= v < n implies (#[trigger] places@[v]) < n && tour@[places@[v] as int] == v by {
            assert(tour@.contains(v as usize));
            let k = choose|k: int| 0 <= k < tour@.len() && tour@[k] == v as usize;
            assert(places@[tour@[k] as int] == k);
        }
    }
    places
}

/// How many of the flags are not set.
pub open spec fn count_unset(flags: Seq<bool>) -> nat
    decreases flags.len(),
{
    if flags.len() == 0 {
        0
    } else {
        count_unset(flags.drop_last()) + if flags.last() {
            0nat
        } else {
            1nat
        }
    }
}

/// Setting a flag that was not set leaves one fewer unset.
pub proof fn lemma_set_flag(flags: Seq<bool>, i: int)
    requires
        0 <= i < flags.len(),
        !flags[i],
    ensures
        count_unset(flags.update(i, true)) + 1 == count_unset(flags),
    decreases flags.len(),
{
    if i == flags.len() - 1 {
        assert(flags.update(i, true).drop_last() =~= flags.drop_last());
    } else {
        lemma_set_flag(flags.drop_last(), i);
        assert(flags.update(i, true).drop_last() =~= flags.drop_last().update(i, true));
    }
}

/// The position that follows `i` in its cycle: the one at which `second`
/// holds the entry that `first` holds at `i`.
pub open spec fn successor(first: Seq<usize>, second: Seq<usize>, i: int) -> int {
    choose|j: int| 0 <= j < second.len() && second[j] == first[i]
}

/// The position that is reached from `i` in the given number of steps.
pub open spec fn walk(first: Seq<usize>, second: Seq<usize>, i: int, steps: nat) -> int
    decreases steps,
{
    if steps == 0 {
        i
    } else {
        successor(first, second, walk(first, second, i, (steps - 1) as nat))
    }
}

/// Position `j` lies in the cycle of position `i`.
pub open spec fn reaches(first: Seq<usize>, second: Seq<usize>, i: int, j: int) -> bool {
    exists|steps: nat| #[trigger] walk(first, second, i, steps) == j
}

/// Position `s` is the first of its cycle.
pub open spec fn is_leader(first: Seq<usize>, second: Seq<usize>, s: int) -> bool {
    forall|j: int| 0 <= j < s ==> !#[trigger] reaches(first, second, j, s)
}

/// The number of cycles that begin before position `s`.
pub open spec fn leaders_before(first: Seq<usize>, second: Seq<usize>, s: int) -> nat
    decreases s,
{
    if s <= 0 {
        0
    } else {
        leaders_before(first, second, s - 1) + if is_leader(first, second, s - 1) {
            1nat
        } else {
            0nat
        }
    }
}

/// `owner` says for each position whether the child takes it from `first`:
/// the positions of one cycle go together, and the cycles, in the order in
/// which they begin, are taken from `first` and from `second` in turn,
/// `first` first.
pub open spec fn is_cycle_choice(first: Seq<usize>, second: Seq<usize>, owner: Seq<bool>) -> bool {
    &&& owner.len() == first.len()
    &&& forall|i: int|
        0 <= i < first.len() ==> owner[#[trigger] successor(first, second, i)] == owner[i]
    &&& forall|s: int|
        0 <= s < first.len() && #[trigger] is_leader(first, second, s) ==> owner[s] == (
        leaders_before(first, second, s) % 2 == 0)
}

/// The sequence that takes each position from `first` or from `second`, as
/// `owner` says.
pub open spec fn blend(first: Seq<usize>, second: Seq<usize>, owner: Seq<bool>) -> Seq<usize> {
    Seq::new(
        first.len(),
        |i: int|
            if owner[i] {
                first[i]
            } else {
                second[i]
            },
    )
}

/// `child` is the cycle crossover of `first` and `second`.
pub open spec fn is_cycle_child(first: Seq<usize>, second: Seq<usize>, child: Seq<usize>) -> bool {
    exists|owner: Seq<bool>| #[trigger]
        is_cycle_choice(first, second, owner) && child == blend(first, second, owner)
}

/// The cycle crossover of two tours is a tour.
pub proof fn lemma_cycle_child_is_tour(first: Seq<usize>, second: Seq<usize>, child: Seq<usize>, n: nat)
    requires
        n <= usize::MAX,
        is_tour(first, n),
        is_tour(second, n),
        is_cycle_child(first, second, child),
    ensures
        is_tour(child, n),
{
    let owner = choose|owner: Seq<bool>| #[trigger]
        is_cycle_choice(first, second, owner) && child == blend(first, second, owner);
    lemma_tour_visits_all(second, n);
    assert forall|i: int, j: int| 0 <= i < n && 0 <= j < n && first[i] == second[j] implies owner[i] == owner[j] by {
        let next = successor(first, second, i);
        assert(second[next] == second[j]);
        assert(owner[successor(first, second, i)] == owner[i]);
    }
    assert forall|i: int| 0 <= i < n implies (#[trigger] child[i]) < n by {
        assert(first[i] < n && second[i] < n);
    }
    assert forall|i: int, j: int| 0 <= i < n && 0 <= j < n && i != j implies child[i] != child[j] by {
        assert(first[i] != first[j] && second[i] != second[j]);
    }
}

/// Every marked position but `open` has its successor marked, for the same
/// parent.
pub open spec fn closed_forward(marked: Seq<bool>, owner: Seq<bool>, succ: Seq<int>, open: int) -> bool {
    forall|i: int| 0 <= i < marked.len() && #[trigger] marked[i] && i != open ==> marked[succ[i]] && owner[succ[i]] == owner[i]
}

/// Every marked position but `start` has its predecessor marked, and that is
/// not `open`.
pub open spec fn closed_backward(marked: Seq<bool>, pred: Seq<int>, start: int, open: int) -> bool {
    forall|j: int| 0 <= j < marked.len() && #[trigger] marked[j] && j != start ==> marked[pred[j]] && pred[j] != open
}

/// Every marked position of `child` holds what its parent holds there.
pub open spec fn filled(marked: Seq<bool>, owner: Seq<bool>, child: Seq<usize>, first: Seq<usize>, second: Seq<usize>) -> bool {
    forall|i: int| 0 <= i < marked.len() && #[trigger] marked[i] ==> child[i] == if owner[i] { first[i] } else { second[i] }
}

/// Every marked position lies in the cycle of a position before `bound`.
pub open spec fn rooted(marked: Seq<bool>, root: Seq<int>, first: Seq<usize>, second: Seq<usize>, bound: int) -> bool {
    forall|i: int| 0 <= i < marked.len() && #[trigger] marked[i] ==> 0 <= root[i] < bound && reaches(first, second, root[i], i)
}

/// The cycles that begin before `bound` are taken from the two parents in
/// turn.
pub open spec fn in_turn(owner: Seq<bool>, first: Seq<usize>, second: Seq<usize>, bound: int) -> bool {
    forall|s: int| 0 <= s < bound && #[trigger] is_leader(first, second, s) ==> owner[s] == (leaders_before(first, second, s) % 2 == 0)
}

/// `succ` holds the successor of every position.
pub open spec fn is_successors(succ: Seq<int>, first: Seq<usize>, second: Seq<usize>) -> bool {
    &&& succ.len() == first.len()
    &&& forall|i: int| 0 <= i < succ.len() ==> 0 <= #[trigger] succ[i] < succ.len() && succ[i] == successor(first, second, i)
}

/// Where the marked positions have their successors marked, every position
/// of the cycle of a marked position is marked.
pub proof fn lemma_cycle_is_marked(marked: Seq<bool>, owner: Seq<bool>, succ: Seq<int>, first: Seq<usize>, second: Seq<usize>, j: int, steps: nat)
    requires
        marked.len() == first.len(),
        is_successors(succ, first, second),
        closed_forward(marked, owner, succ, -1),
        0 <= j < marked.len(),
        marked[j],
    ensures
        0 <= walk(first, second, j, steps) < marked.len(),
        marked[walk(first, second, j, steps)],
    decreases steps,
{
    if steps > 0 {
        lemma_cycle_is_marked(marked, owner, succ, first, second, j, (steps - 1) as nat);
        let before = walk(first, second, j, (steps - 1) as nat);
        assert(marked[before]);
        assert(succ[before] == successor(first, second, before));
    }
}

/// Cycle crossover. The positions fall into cycles: each position is
/// followed by the one at which `second` holds what `first` holds here. The
/// cycles are found from left to right; the child takes the positions of the
/// first cycle from `first`, those of the next from `second`, and so on in
/// turn.
pub fn cycle_crossover(first: &Vec<usize>, second: &Vec<usize>) -> (child: Vec<usize>)
    requires
        is_tour(first@, first@.len()),
        is_tour(second@, first@.len()),
    ensures
        is_tour(child@, first@.len()),
        is_cycle_child(first@, second@, child@),
{
    let n = first.len();
    let places = positions_of(second);
    let mut child = copy_of(first);
    let mut marked = unset_flags(n);
    let ghost a = first@;
    let ghost b = second@;
    let ghost succ = Seq::new(n as nat, |i: int| places@[first@[i] as int] as int);
    let ghost pred = Seq::new(n as nat, |j: int| choose|i: int| 0 <= i < first@.len() && first@[i] == second@[j]);
    let ghost mut owner = Seq::new(n as nat, |i: int| true);
    let ghost mut root = Seq::new(n as nat, |i: int| 0int);
    proof {
        lemma_tour_visits_all(a, n as nat);
        assert forall|j: int| 0 <= j < n implies 0 <= #[trigger] pred[j] < n && a[pred[j]] == b[j] && succ[pred[j]] == j by {
            assert(a.contains(b[j]));
        }
        assert forall|i: int| 0 <= i < n implies 0 <= #[trigger] succ[i] < n && b[succ[i]] == a[i] && pred[succ[i]] == i && succ[i] == successor(a, b, i) by {
            let v = a[i];
            assert(places@[v as int] < n);
            let j = succ[i];
            assert(a[pred[j]] == b[j]);
            let other = successor(a, b, i);
            assert(b[other] == b[j]);
        }
    }
    let mut from_first = true;
    let mut start: usize = 0;
    while start < n
        invariant
            start <= n,
            n == a.len(),
            a == first@,
            b == second@,
            is_tour(a, n as nat),
            is_tour(b, n as nat),
            places@.len() == n,
            pred.len() == n,
            owner.len() == n,
            root.len() == n,
            marked@.len() == n,
            child@.len() == n,
            is_successors(succ, a, b),
            forall|i: int| 0 <= i < n ==> (#[trigger] succ[i]) == places@[first@[i] as int],
            forall|i: int| 0 <= i < n ==> b[#[trigger] succ[i]] == a[i] && pred[succ[i]] == i,
            forall|j: int| 0 <= j < n ==> 0 <= #[trigger] pred[j] < n && a[pred[j]] == b[j] && succ[pred[j]] == j,
            closed_forward(marked@, owner, succ, -1),
            closed_backward(marked@, pred, -1, -1),
            filled(marked@, owner, child@, a, b),
            rooted(marked@, root, a, b, start as int),
            in_turn(owner, a, b, start as int),
            from_first == (leaders_before(a, b, start as int) % 2 == 0),
            forall|i: int| 0 <= i < start ==> #[trigger] marked@[i],
        decreases n - start,
    {
        if !marked[start] {
            proof {
                assert forall|j: int| 0 <= j < start implies !#[trigger] reaches(a, b, j, start as int) by {
                    if reaches(a, b, j, start as int) {
                        let steps = choose|steps: nat| #[trigger] walk(a, b, j, steps) == start as int;
                        assert(marked@[j]);
                        lemma_cycle_is_marked(marked@, owner, succ, a, b, j, steps);
                    }
                }
                assert(is_leader(a, b, start as int));
            }
            let mut cur: usize = start;
            let ghost mut open: int = -1;
            let ghost mut steps: nat = 0;
            while !marked[cur]
                invariant
                    start < n,
                    cur < n,
                    n == a.len(),
                    a == first@,
                    b == second@,
                    is_tour(a, n as nat),
                    is_tour(b, n as nat),
                    places@.len() == n,
                    pred.len() == n,
                    owner.len() == n,
                    root.len() == n,
                    marked@.len() == n,
                    child@.len() == n,
                    is_successors(succ, a, b),
                    forall|i: int| 0 <= i < n ==> (#[trigger] succ[i]) == places@[first@[i] as int],
                    forall|i: int| 0 <= i < n ==> b[#[trigger] succ[i]] == a[i] && pred[succ[i]] == i,
                    forall|j: int| 0 <= j < n ==> 0 <= #[trigger] pred[j] < n && a[pred[j]] == b[j] && succ[pred[j]] == j,
                    closed_forward(marked@, owner, succ, open),
                    closed_backward(marked@, pred, start as int, open),
                    filled(marked@, owner, child@, a, b),
                    rooted(marked@, root, a, b, start + 1),
                    in_turn(owner, a, b, start as int),
                    forall|i: int| 0 <= i < start ==> #[trigger] marked@[i],
                    -1 <= open < n,
                    walk(a, b, start as int, steps) == cur,
                    open == -1 ==> cur == start && !marked@[start as int],
                    open >= 0 ==> cur == succ[open] && marked@[open] && owner[open] == from_first && marked@[start as int] && owner[start as int] == from_first,
                decreases count_unset(marked@),
            {
                let ghost marked_before = marked@;
                let ghost owner_before = owner;
                let ghost root_before = root;
                proof {
                    lemma_set_flag(marked@, cur as int);
                }
                marked.set(cur, true);
                if !from_first {
                    child.set(cur, second[cur]);
                } else {
                    child.set(cur, first[cur]);
                }
                proof {
                    owner = owner.update(cur as int, from_first);
                    root = root.update(cur as int, start as int);
                    let c = cur as int;
                    assert forall|i: int| 0 <= i < n && #[trigger] marked@[i] && i != c implies marked@[succ[i]] && owner[succ[i]] == owner[i] by {
                        assert(marked_before[i]);
                        if i == open {
                        } else {
                            assert(marked_before[succ[i]]);
                        }
                    }
                    assert forall|j: int| 0 <= j < n && #[trigger] marked@[j] && j != start implies marked@[pred[j]] && pred[j] != c by {
                        if j == c {
                            assert(open >= 0);
                        } else {
                            assert(marked_before[j]);
                            assert(marked_before[pred[j]]);
                        }
                    }
                    assert forall|i: int| 0 <= i < n && #[trigger] marked@[i] implies child@[i] == if owner[i] { a[i] } else { b[i] } by {
                        if i != c {
                            assert(marked_before[i]);
                        }
                    }
                    assert forall|i: int| 0 <= i < start implies #[trigger] marked@[i] by {
                        assert(marked_before[i]);
                    }
                    assert forall|i: int| 0 <= i < n && #[trigger] marked@[i] implies 0 <= root[i] < start + 1 && reaches(a, b, root[i], i) by {
                        if i != c {
                            assert(marked_before[i]);
                            assert(root[i] == root_before[i]);
                        } else {
                            assert(walk(a, b, start as int, steps) == c);
                        }
                    }
                    assert forall|s: int| 0 <= s < start && #[trigger] is_leader(a, b, s) implies owner[s] == (leaders_before(a, b, s) % 2 == 0) by {
                        assert(marked_before[s]);
                        assert(owner[s] == owner_before[s]);
                    }
                    assert(succ[c] == places@[first@[c] as int]);
                    assert(succ[c] == successor(a, b, c));
                    open = c;
                    steps = steps + 1;
                }
                cur = places[first[cur]];
            }
            proof {
                assert(open >= 0);
                if cur != start {
                    assert(marked@[cur as int]);
                    assert(pred[cur as int] != open);
                }
                assert(cur == start);
                assert forall|i: int| 0 <= i < n && #[trigger] marked@[i] implies marked@[succ[i]] && owner[succ[i]] == owner[i] by {}
                assert forall|j: int| 0 <= j < n && #[trigger] marked@[j] implies marked@[pred[j]] by {
                    if j == start {
                        assert(pred[succ[open]] == open);
                    }
                }
            }
            from_first = !from_first;
        } else {
            proof {
                assert(reaches(a, b, root[start as int], start as int));
                assert(!is_leader(a, b, start as int));
            }
        }
        start += 1;
    }
    proof {
        let c = child@;
        assert forall|i: int| 0 <= i < n implies (#[trigger] c[i]) < n by {
            assert(marked@[i]);
        }
        assert forall|i: int, j: int| 0 <= i < n && 0 <= j < n && i != j implies c[i] != c[j] by {
            assert(marked@[i] && marked@[j]);
            assert(marked@[succ[i]] && marked@[succ[j]]);
            if owner[i] && !owner[j] {
                if a[i] == b[j] {
                    assert(b[succ[i]] == b[j]);
                }
            } else if !owner[i] && owner[j] {
                if a[j] == b[i] {
                    assert(b[succ[j]] == b[i]);
                }
            }
        }
        assert forall|i: int| 0 <= i < n implies owner[#[trigger] successor(a, b, i)] == owner[i] by {
            assert(marked@[i]);
            assert(succ[i] == successor(a, b, i));
        }
        assert(is_cycle_choice(a, b, owner));
        assert(c =~= blend(a, b, owner)) by {
            assert forall|i: int| 0 <= i < n implies c[i] == blend(a, b, owner)[i] by {
                assert(marked@[i]);
            }
        }
    }
    child
}

} // verus!
