//! Mutation: operators that perturb one tour in place.

use crate::params::{GAParameters, MutationType};
use crate::random::random_in_range;
use crate::tour::{in_range, is_tour};
use rand::rngs::StdRng;
use vstd::prelude::*;

verus! {

/// The length of the stretch that a mutation works on: a tenth of the tour,
/// rounded down, and at least one.
pub open spec fn segment_len(n: nat) -> nat {
    if n / 10 == 0 {
        1
    } else {
        n / 10
    }
}

/// `s` with the entries at `i` and `j` exchanged.
pub open spec fn swapped(s: Seq<usize>, i: int, j: int) -> Seq<usize> {
    s.update(i, s[j]).update(j, s[i])
}

/// `s` with the entries at the positions `low..high` in reverse order.
pub open spec fn reversed(s: Seq<usize>, low: int, high: int) -> Seq<usize> {
    Seq::new(
        s.len(),
        |k: int|
            if low <= k < high {
                s[low + high - 1 - k]
            } else {
                s[k]
            },
    )
}

/// `s` without the `width` entries from `start` on.
pub open spec fn without_segment(s: Seq<usize>, start: int, width: int) -> Seq<usize> {
    s.subrange(0, start) + s.subrange(start + width, s.len() as int)
}

/// `s` after the `width` entries from `start` on were cut out and put back,
/// in their order, before position `at` of what was left.
pub open spec fn relocated(s: Seq<usize>, start: int, width: int, at: int) -> Seq<usize> {
    let rest = without_segment(s, start, width);
    rest.subrange(0, at) + s.subrange(start, start + width) + rest.subrange(at, rest.len() as int)
}

/// `b` comes from `a` by `count` exchanges of two entries.
pub open spec fn swapped_times(a: Seq<usize>, b: Seq<usize>, count: nat) -> bool
    decreases count,
{
    if count == 0 {
        a == b
    } else {
        exists|mid: Seq<usize>, i: int, j: int|
            swapped_times(a, mid, (count - 1) as nat) && 0 <= i < mid.len() && 0 <= j < mid.len()
                && b == #[trigger] swapped(mid, i, j)
    }
}

/// Exchanging two entries of a tour gives a tour.
pub proof fn lemma_swapped_is_tour(s: Seq<usize>, i: int, j: int, n: nat)
    requires
        is_tour(s, n),
        0 <= i < n,
        0 <= j < n,
    ensures
        is_tour(swapped(s, i, j), n),
{
    let t = swapped(s, i, j);
    assert forall|k: int| 0 <= k < n implies #[trigger] t[k] == s[swap_origin(k, i, j)] by {}
    assert forall|k: int| 0 <= k < n implies (#[trigger] t[k]) < n by {
        assert(t[k] == s[swap_origin(k, i, j)]);
    }
    assert forall|a: int, b: int| 0 <= a < n && 0 <= b < n && a != b implies t[a] != t[b] by {
        assert(t[a] == s[swap_origin(a, i, j)]);
        assert(t[b] == s[swap_origin(b, i, j)]);
    }
}

/// Where position `k` comes from after the exchange of `i` and `j`.
pub open spec fn swap_origin(k: int, i: int, j: int) -> int {
    if k == j {
        i
    } else if k == i {
        j
    } else {
        k
    }
}

/// Any number of exchanges of a tour gives a tour.
pub proof fn lemma_swapped_times_is_tour(a: Seq<usize>, b: Seq<usize>, count: nat, n: nat)
    requires
        is_tour(a, n),
        swapped_times(a, b, count),
    ensures
        is_tour(b, n),
    decreases count,
{
    if count > 0 {
        let (mid, i, j) = choose|mid: Seq<usize>, i: int, j: int|
            swapped_times(a, mid, (count - 1) as nat) && 0 <= i < mid.len() && 0 <= j < mid.len()
                && b == #[trigger] swapped(mid, i, j);
        lemma_swapped_times_is_tour(a, mid, (count - 1) as nat, n);
        lemma_swapped_is_tour(mid, i, j, n);
    }
}

/// Reversing a stretch of a tour gives a tour.
pub proof fn lemma_reversed_is_tour(s: Seq<usize>, low: int, high: int, n: nat)
    requires
        is_tour(s, n),
        0 <= low <= high <= n,
    ensures
        is_tour(reversed(s, low, high), n),
{
    let t = reversed(s, low, high);
    assert forall|k: int| 0 <= k < n implies (#[trigger] t[k]) < n by {
        if low <= k < high {
            assert(t[k] == s[low + high - 1 - k]);
        } else {
            assert(t[k] == s[k]);
        }
    }
    assert forall|a: int, b: int| 0 <= a < n && 0 <= b < n && a != b implies t[a] != t[b] by {
        assert(t[a] == s[reverse_origin(a, low, high)]);
        assert(t[b] == s[reverse_origin(b, low, high)]);
    }
}

/// Where position `k` comes from after the reversal of `low..high`.
pub open spec fn reverse_origin(k: int, low: int, high: int) -> int {
    if low <= k < high {
        low + high - 1 - k
    } else {
        k
    }
}

/// Where position `k` comes from after the `width` entries from `start` on
/// were moved before position `at` of the rest.
pub open spec fn relocate_origin(k: int, start: int, width: int, at: int) -> int {
    if at <= k < at + width {
        start + (k - at)
    } else {
        let r = if k < at { k } else { k - width };
        if r < start {
            r
        } else {
            r + width
        }
    }
}

/// Each entry of a relocated sequence is the entry at its origin.
pub proof fn lemma_relocated_index(s: Seq<usize>, start: int, width: int, at: int, k: int)
    requires
        0 <= start,
        0 <= width,
        start + width <= s.len(),
        0 <= at <= s.len() - width,
        0 <= k < s.len(),
    ensures
        relocated(s, start, width, at).len() == s.len(),
        0 <= relocate_origin(k, start, width, at) < s.len(),
        relocated(s, start, width, at)[k] == s[relocate_origin(k, start, width, at)],
{
    let rest = without_segment(s, start, width);
    assert(rest.len() == s.len() - width);
}

/// Moving a stretch of a tour elsewhere gives a tour.
pub proof fn lemma_relocated_is_tour(s: Seq<usize>, start: int, width: int, at: int, n: nat)
    requires
        is_tour(s, n),
        0 <= start,
        0 <= width,
        start + width <= n,
        0 <= at <= n - width,
    ensures
        is_tour(relocated(s, start, width, at), n),
{
    let t = relocated(s, start, width, at);
    assert(t.len() == n) by {
        assert(without_segment(s, start, width).len() == n - width);
    }
    assert forall|k: int| 0 <= k < n implies (#[trigger] t[k]) < n by {
        lemma_relocated_index(s, start, width, at, k);
    }
    assert forall|a: int, b: int| 0 <= a < n && 0 <= b < n && a != b implies t[a] != t[b] by {
        lemma_relocated_index(s, start, width, at, a);
        lemma_relocated_index(s, start, width, at, b);
    }
}

/// The length of the stretch that a mutation of a tour of length `n` works
/// on.
pub fn segment_size(n: usize) -> (width: usize)
    ensures
        width == segment_len(n as nat),
        n >= 1 ==> 1 <= width <= n,
{
    if n / 10 == 0 {
        1
    } else {
        n / 10
    }
}

/// Exchanges the entries at `i` and `j`.
pub fn swap_at(path: &mut Vec<usize>, i: usize, j: usize)
    requires
        i < old(path)@.len(),
        j < old(path)@.len(),
    ensures
        final(path)@ == swapped(old(path)@, i as int, j as int),
        is_tour(old(path)@, old(path)@.len()) ==> is_tour(final(path)@, old(path)@.len()),
{
    let ghost before = path@;
    let a = path[i];
    let b = path[j];
    path.set(i, b);
    path.set(j, a);
    proof {
        if is_tour(before, before.len()) {
            lemma_swapped_is_tour(before, i as int, j as int, before.len());
        }
    }
}

/// Reverses the entries at the positions `low..high`.
pub fn reverse_at(path: &mut Vec<usize>, low: usize, high: usize)
    requires
        low <= high <= old(path)@.len(),
    ensures
        final(path)@ == reversed(old(path)@, low as int, high as int),
        is_tour(old(path)@, old(path)@.len()) ==> is_tour(final(path)@, old(path)@.len()),
{
    let n = path.len();
    let ghost target = reversed(path@, low as int, high as int);
    let mut tmp: Vec<usize> = Vec::with_capacity(n);
    let mut k: usize = 0;
    while k < n
        invariant
            k <= n,
            n == path@.len(),
            low <= high <= n,
            target == reversed(path@, low as int, high as int),
            tmp@ == target.subrange(0, k as int),
        decreases n - k,
    {
        let v = if low <= k && k < high {
            path[low + (high - 1 - k)]
        } else {
            path[k]
        };
        tmp.push(v);
        k += 1;
        assert(tmp@ =~= target.subrange(0, k as int));
    }
    proof {
        assert(target.subrange(0, n as int) =~= target);
        if is_tour(path@, n as nat) {
            lemma_reversed_is_tour(path@, low as int, high as int, n as nat);
        }
    }
    *path = tmp;
}

/// Cuts the `width` entries from `start` on out and puts them back, in their
/// order, before position `at` of what was left.
pub fn relocate_at(path: &mut Vec<usize>, start: usize, width: usize, at: usize)
    requires
        start + width <= old(path)@.len(),
        at <= old(path)@.len() - width,
    ensures
        final(path)@ == relocated(old(path)@, start as int, width as int, at as int),
        is_tour(old(path)@, old(path)@.len()) ==> is_tour(final(path)@, old(path)@.len()),
{
    let n = path.len();
    let ghost target = relocated(path@, start as int, width as int, at as int);
    let mut tmp: Vec<usize> = Vec::with_capacity(n);
    let mut k: usize = 0;
    while k < n
        invariant
            k <= n,
            n == path@.len(),
            start + width <= n,
            at <= n - width,
            target == relocated(path@, start as int, width as int, at as int),
            target.len() == n,
            tmp@ == target.subrange(0, k as int),
        decreases n - k,
    {
        proof {
            lemma_relocated_index(path@, start as int, width as int, at as int, k as int);
        }
        let v = if at <= k && k - at < width {
            path[start + (k - at)]
        } else {
            let r = if k < at { k } else { k - width };
            if r < start {
                path[r]
            } else {
                path[r + width]
            }
        };
        tmp.push(v);
        k += 1;
        assert(tmp@ =~= target.subrange(0, k as int));
    }
    proof {
        assert(target.subrange(0, n as int) =~= target);
        if is_tour(path@, n as nat) {
            lemma_relocated_is_tour(path@, start as int, width as int, at as int, n as nat);
        }
    }
    *path = tmp;
}

/// Swap: exchanges the entries at two random positions, which may coincide.
pub fn swap_mutate(path: &mut Vec<usize>, rng: &mut StdRng)
    requires
        old(path)@.len() >= 1,
    ensures
        exists|i: int, j: int|
            0 <= i < old(path)@.len() && 0 <= j < old(path)@.len() && final(path)@
                == #[trigger] swapped(old(path)@, i, j),
        is_tour(old(path)@, old(path)@.len()) ==> is_tour(final(path)@, old(path)@.len()),
{
    let n = path.len();
    let i = random_in_range(rng, 0, n);
    let j = random_in_range(rng, 0, n);
    swap_at(path, i, j);
}

/// Segment reversal: reverses the entries at `low..high`, where `low` is
/// drawn from `0..=n - width` and `high` from `low..n`, for the stretch
/// length `width` of the tour.
pub fn two_opt_swap_mutate(path: &mut Vec<usize>, rng: &mut StdRng)
    requires
        old(path)@.len() >= 1,
    ensures
        exists|low: int, high: int|
            0 <= low <= old(path)@.len() - segment_len(old(path)@.len()) && low <= high < old(
                path,
            )@.len() && final(path)@ == #[trigger] reversed(old(path)@, low, high),
        is_tour(old(path)@, old(path)@.len()) ==> is_tour(final(path)@, old(path)@.len()),
{
    let n = path.len();
    let width = segment_size(n);
    let low = random_in_range(rng, 0, n - width + 1);
    let high = random_in_range(rng, low, n);
    reverse_at(path, low, high);
}

/// Fixed-length reversal: reverses a stretch of the tour's stretch length
/// that starts at a random position at which it fits.
pub fn reversion_mutate(path: &mut Vec<usize>, rng: &mut StdRng)
    requires
        old(path)@.len() >= 1,
    ensures
        exists|low: int|
            0 <= low <= old(path)@.len() - segment_len(old(path)@.len()) && final(path)@
                == #[trigger] reversed(old(path)@, low, low + segment_len(old(path)@.len())),
        is_tour(old(path)@, old(path)@.len()) ==> is_tour(final(path)@, old(path)@.len()),
{
    let n = path.len();
    let width = segment_size(n);
    let low = random_in_range(rng, 0, n - width + 1);
    reverse_at(path, low, low + width);
}

/// Insertion: cuts a stretch of the tour's stretch length out at a random
/// start and puts it back at a random position of what was left.
pub fn insertion_mutate(path: &mut Vec<usize>, rng: &mut StdRng)
    requires
        old(path)@.len() >= 1,
    ensures
        exists|start: int, at: int|
            0 <= start <= old(path)@.len() - segment_len(old(path)@.len()) && 0 <= at <= old(
                path,
            )@.len() - segment_len(old(path)@.len()) && final(path)@ == #[trigger] relocated(
                old(path)@,
                start,
                segment_len(old(path)@.len()) as int,
                at,
            ),
        is_tour(old(path)@, old(path)@.len()) ==> is_tour(final(path)@, old(path)@.len()),
{
    let n = path.len();
    let width = segment_size(n);
    let start = random_in_range(rng, 0, n - width + 1);
    let at = random_in_range(rng, 0, n - width + 1);
    relocate_at(path, start, width, at);
}

/// Scramble: as many random exchanges in a row as the tour's stretch length.
pub fn scramble_mutate(path: &mut Vec<usize>, rng: &mut StdRng)
    requires
        old(path)@.len() >= 1,
    ensures
        swapped_times(old(path)@, final(path)@, segment_len(old(path)@.len())),
        final(path)@.len() == old(path)@.len(),
        is_tour(old(path)@, old(path)@.len()) ==> is_tour(final(path)@, old(path)@.len()),
{
    let n = path.len();
    let swap_count = segment_size(n);
    let ghost before = path@;
    let mut done: usize = 0;
    while done < swap_count
        invariant
            done <= swap_count,
            path@.len() == n,
            n >= 1,
            swapped_times(before, path@, done as nat),
        decreases swap_count - done,
    {
        let ghost mid = path@;
        swap_mutate(path, rng);
        done += 1;
        proof {
            let (i, j) = choose|i: int, j: int|
                0 <= i < mid.len() && 0 <= j < mid.len() && path@ == #[trigger] swapped(mid, i, j);
            assert(swapped_times(before, mid, (done - 1) as nat));
            assert(path@ == swapped(mid, i, j));
        }
    }
    proof {
        if is_tour(before, n as nat) {
            lemma_swapped_times_is_tour(before, path@, swap_count as nat, n as nat);
        }
    }
}

/// Applies the mutation that the run is configured with.
pub fn mutate_in_place(path: &mut Vec<usize>, params: &GAParameters, rng: &mut StdRng)
    requires
        old(path)@.len() >= 1,
    ensures
        mutated(old(path)@, final(path)@, params.mutation_type),
        final(path)@.len() == old(path)@.len(),
        is_tour(old(path)@, old(path)@.len()) ==> is_tour(final(path)@, old(path)@.len()),
{
    match params.mutation_type {
        MutationType::FourOptSwap => swap_mutate(path, rng),
        MutationType::TwoOptSwap => two_opt_swap_mutate(path, rng),
        MutationType::Reversion => reversion_mutate(path, rng),
        MutationType::Insertion => insertion_mutate(path, rng),
        MutationType::Scramble => scramble_mutate(path, rng),
    }
}

/// `b` is a possible outcome of the mutation `kind` on `a`.
pub open spec fn mutated(a: Seq<usize>, b: Seq<usize>, kind: MutationType) -> bool {
    let n = a.len();
    let width = segment_len(n);
    match kind {
        MutationType::FourOptSwap => exists|i: int, j: int|
            0 <= i < n && 0 <= j < n && b == #[trigger] swapped(a, i, j),
        MutationType::TwoOptSwap => exists|low: int, high: int|
            0 <= low <= n - width && low <= high < n && b == #[trigger] reversed(a, low, high),
        MutationType::Reversion => exists|low: int|
            0 <= low <= n - width && b == #[trigger] reversed(a, low, low + width),
        MutationType::Insertion => exists|start: int, at: int|
            0 <= start <= n - width && 0 <= at <= n - width && b == #[trigger] relocated(
                a,
                start,
                width as int,
                at,
            ),
        MutationType::Scramble => swapped_times(a, b, width),
    }
}

/// Every possible outcome of a mutation of a tour is a tour.
pub proof fn lemma_mutated_is_tour(a: Seq<usize>, b: Seq<usize>, kind: MutationType, n: nat)
    requires
        n >= 1,
        is_tour(a, n),
        mutated(a, b, kind),
    ensures
        is_tour(b, n),
{
    let width = segment_len(n);
    assert(1 <= width <= n);
    match kind {
        MutationType::FourOptSwap => {
            let (i, j) = choose|i: int, j: int| 0 <= i < n && 0 <= j < n && b == #[trigger] swapped(a, i, j);
            lemma_swapped_is_tour(a, i, j, n);
        },
        MutationType::TwoOptSwap => {
            let (low, high) = choose|low: int, high: int|
                0 <= low <= n - width && low <= high < n && b == #[trigger] reversed(a, low, high);
            lemma_reversed_is_tour(a, low, high, n);
        },
        MutationType::Reversion => {
            let low = choose|low: int| 0 <= low <= n - width && b == #[trigger] reversed(a, low, low + width);
            lemma_reversed_is_tour(a, low, low + width, n);
        },
        MutationType::Insertion => {
            let (start, at) = choose|start: int, at: int|
                0 <= start <= n - width && 0 <= at <= n - width && b == #[trigger] relocated(a, start, width as int, at);
            lemma_relocated_is_tour(a, start, width as int, at, n);
        },
        MutationType::Scramble => {
            lemma_swapped_times_is_tour(a, b, width, n);
        },
    }
}

} // verus!
