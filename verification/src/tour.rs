//! Tours: orderings of the node identifiers `0..n` in which every identifier
//! occurs exactly once.

use vstd::prelude::*;

verus! {

/// Every entry of `s` is an identifier below `n`.
pub open spec fn in_range(s: Seq<usize>, n: nat) -> bool {
    forall|i: int| 0 <= i < s.len() ==> (#[trigger] s[i]) < n
}

/// `s` visits each of the nodes `0..n` exactly once.
pub open spec fn is_tour(s: Seq<usize>, n: nat) -> bool {
    &&& s.len() == n
    &&& in_range(s, n)
    &&& s.no_duplicates()
}

/// The identity ordering `0, 1, .., n - 1`.
pub open spec fn identity(n: nat) -> Seq<usize> {
    Seq::new(n, |i: int| i as usize)
}

/// The identifiers below `n`, as a set.
pub open spec fn below(n: nat) -> Set<usize> {
    Set::new(|v: usize| v < n)
}

/// There are exactly `n` identifiers below `n`.
pub proof fn lemma_below_len(n: nat)
    requires
        n <= usize::MAX,
    ensures
        below(n).finite(),
        below(n).len() == n,
    decreases n,
{
    if n == 0 {
        assert(below(n) =~= Set::<usize>::empty());
    } else {
        lemma_below_len((n - 1) as nat);
        assert(below(n) =~= below((n - 1) as nat).insert((n - 1) as usize));
    }
}

/// The entries of a sequence of identifiers below `n` are among the
/// identifiers below `n`.
pub proof fn lemma_entries_below(s: Seq<usize>, n: nat)
    requires
        in_range(s, n),
    ensures
        s.to_set().subset_of(below(n)),
{
    assert forall|v: usize| s.to_set().contains(v) implies below(n).contains(v) by {
        let i = choose|i: int| 0 <= i < s.len() && s[i] == v;
        assert(s[i] < n);
    }
}

/// Distinct identifiers below `n` are at most `n` many.
pub proof fn lemma_distinct_bounded(s: Seq<usize>, n: nat)
    requires
        n <= usize::MAX,
        in_range(s, n),
        s.no_duplicates(),
    ensures
        s.len() <= n,
{
    lemma_below_len(n);
    s.unique_seq_to_set();
    lemma_entries_below(s, n);
    vstd::set_lib::lemma_len_subset(s.to_set(), below(n));
}

/// A tour over `n` nodes visits every node.
pub proof fn lemma_tour_visits_all(s: Seq<usize>, n: nat)
    requires
        n <= usize::MAX,
        is_tour(s, n),
    ensures
        forall|v: usize| v < n ==> s.contains(v),
{
    lemma_below_len(n);
    s.unique_seq_to_set();
    lemma_entries_below(s, n);
    vstd::set_lib::lemma_subset_equality(s.to_set(), below(n));
    assert forall|v: usize| v < n implies s.contains(v) by {
        assert(below(n).contains(v));
        assert(s.to_set().contains(v));
    }
}

/// Any reordering of a tour is a tour.
pub proof fn lemma_reordered_tour(s: Seq<usize>, t: Seq<usize>, n: nat)
    requires
        is_tour(s, n),
        t.to_multiset() == s.to_multiset(),
    ensures
        is_tour(t, n),
{
    broadcast use vstd::seq_lib::to_multiset_len, vstd::seq_lib::to_multiset_contains;
    assert(t.len() == t.to_multiset().len());
    assert(s.len() == s.to_multiset().len());
    s.lemma_multiset_has_no_duplicates();
    t.lemma_multiset_has_no_duplicates_conv();
    assert forall|i: int| 0 <= i < t.len() implies (#[trigger] t[i]) < n by {
        assert(t.contains(t[i]));
        assert(t.to_multiset().count(t[i]) > 0);
        assert(s.contains(t[i]));
    }
}

/// The identity ordering is a tour.
pub proof fn lemma_identity_is_tour(n: nat)
    requires
        n <= usize::MAX,
    ensures
        is_tour(identity(n), n),
{
}

/// The identity ordering of the given length.
pub fn sequence_vector(size: usize) -> (v: Vec<usize>)
    ensures
        v@ == identity(size as nat),
{
    let mut v: Vec<usize> = Vec::with_capacity(size);
    let mut i: usize = 0;
    while i < size
        invariant
            i <= size,
            v@ == identity(i as nat),
        decreases size - i,
    {
        v.push(i);
        i += 1;
        assert(v@ =~= identity(i as nat));
    }
    v
}

/// `n` flags, none of them set.
pub fn unset_flags(n: usize) -> (flags: Vec<bool>)
    ensures
        flags@.len() == n,
        forall|v: int| 0 <= v < n ==> !(#[trigger] flags@[v]),
{
    let mut flags: Vec<bool> = Vec::with_capacity(n);
    let mut k: usize = 0;
    while k < n
        invariant
            k <= n,
            flags@.len() == k,
            forall|v: int| 0 <= v < k ==> !(#[trigger] flags@[v]),
        decreases n - k,
    {
        flags.push(false);
        k += 1;
    }
    flags
}

/// Decides whether `path` is a tour over `n` nodes.
pub fn is_valid_tour(path: &Vec<usize>, n: usize) -> (ok: bool)
    ensures
        ok == is_tour(path@, n as nat),
{
    if path.len() != n {
        return false;
    }
    let mut seen = unset_flags(n);
    assert(path@.subrange(0, 0) =~= Seq::<usize>::empty());
    let mut i: usize = 0;
    while i < n
        invariant
            i <= n,
            path@.len() == n,
            seen@.len() == n,
            in_range(path@.subrange(0, i as int), n as nat),
            path@.subrange(0, i as int).no_duplicates(),
            forall|v: int| 0 <= v < n ==> (#[trigger] seen@[v] <==> path@.subrange(0, i as int).contains(v as usize)),
        decreases n - i,
    {
        let v = path[i];
        let ghost prefix = path@.subrange(0, i as int);
        let ghost next = path@.subrange(0, i + 1);
        if v >= n {
            assert(!in_range(path@, n as nat));
            return false;
        }
        if seen[v] {
            proof {
                let j = choose|j: int| 0 <= j < prefix.len() && prefix[j] == v;
                assert(path@[j] == path@[i as int] && j != i);
            }
            return false;
        }
        seen.set(v, true);
        proof {
            assert(next =~= prefix.push(v));
            assert forall|w: int| 0 <= w < n implies (#[trigger] seen@[w] <==> next.contains(
                w as usize,
            )) by {
                if w == v {
                    assert(next[i as int] == v);
                } else if prefix.contains(w as usize) {
                    let j = choose|j: int| 0 <= j < prefix.len() && prefix[j] == w as usize;
                    assert(next[j] == w as usize);
                } else if next.contains(w as usize) {
                    let j = choose|j: int| 0 <= j < next.len() && next[j] == w as usize;
                    assert(prefix[j] == w as usize);
                }
            }
            assert forall|a: int, b: int| 0 <= a < next.len() && 0 <= b < next.len() && a != b implies next[a] != next[b] by {
                if a < i && b < i {
                    assert(prefix[a] != prefix[b]);
                } else if a < i {
                    assert(prefix[a] == next[a]);
                    assert(prefix.contains(next[a]));
                } else if b < i {
                    assert(prefix[b] == next[b]);
                    assert(prefix.contains(next[b]));
                }
            }
        }
        i += 1;
    }
    assert(path@.subrange(0, n as int) =~= path@);
    true
}

} // verus!
