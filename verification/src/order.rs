//! Sorting tick counts and picking their median.
use vstd::prelude::*;

verus! {

/// The usual order of `u64` values.
pub open spec fn u64_leq() -> spec_fn(u64, u64) -> bool {
    |a: u64, b: u64| a <= b
}

/// `s` rearranged in ascending order.
pub open spec fn sorted_values(s: Seq<u64>) -> Seq<u64> {
    s.sort_by(u64_leq())
}

/// The upper median of `s`: the value at index `len / 2` once `s` is sorted (the middle value
/// for an odd count, the higher of the two middle values for an even count).
pub open spec fn upper_median(s: Seq<u64>) -> u64
    recommends
        s.len() > 0,
{
    sorted_values(s)[s.len() as int / 2]
}

/// The order of `u64` values is total.
pub proof fn lemma_u64_leq_total()
    ensures
        vstd::relations::total_ordering(u64_leq()),
{
}

/// A sorted rearrangement of `s` is the one that [`sorted_values`] gives.
pub proof fn lemma_sorted_rearrangement(s: Seq<u64>, t: Seq<u64>)
    requires
        t.to_multiset() == s.to_multiset(),
        vstd::relations::sorted_by(t, u64_leq()),
    ensures
        t == sorted_values(s),
        t.len() == s.len(),
{
    lemma_u64_leq_total();
    s.lemma_sort_by_ensures(u64_leq());
    vstd::seq_lib::lemma_sorted_unique(t, sorted_values(s), u64_leq());
    broadcast use vstd::seq_lib::group_to_multiset_ensures;

    assert(t.len() == t.to_multiset().len());
    assert(s.len() == s.to_multiset().len());
}

/// Law: the sorted values are ascending, and they are the values of `s`, each as often
/// as in `s`.
pub proof fn lemma_sorted_values(s: Seq<u64>)
    ensures
        sorted_values(s).to_multiset() == s.to_multiset(),
        sorted_values(s).len() == s.len(),
        forall|i: int, j: int|
            0 <= i <= j < s.len() ==> sorted_values(s)[i] <= sorted_values(s)[j],
{
    lemma_u64_leq_total();
    s.lemma_sort_by_ensures(u64_leq());
    broadcast use vstd::seq_lib::group_to_multiset_ensures;

    let t = sorted_values(s);
    assert(t.len() == t.to_multiset().len());
    assert(s.len() == s.to_multiset().len());
    assert forall|i: int, j: int| 0 <= i <= j < s.len() implies t[i] <= t[j] by {
        if i < j {
            assert(u64_leq()(t[i], t[j]));
        }
    }
}

/// Law: the upper median of a non-empty `s` is one of its values; in sorted order the
/// values up to index `len / 2` are no larger than it and those from there on no smaller,
/// so at most `len / 2` values lie below it and at most `(len - 1) / 2` above it.
pub proof fn lemma_upper_median(s: Seq<u64>)
    requires
        s.len() > 0,
    ensures
        s.contains(upper_median(s)),
        forall|i: int| 0 <= i <= s.len() / 2 ==> sorted_values(s)[i] <= upper_median(s),
        forall|i: int| s.len() / 2 <= i < s.len() ==> upper_median(s) <= sorted_values(s)[i],
{
    lemma_sorted_values(s);
    let t = sorted_values(s);
    broadcast use vstd::seq_lib::group_to_multiset_ensures;

    assert(t.contains(t[s.len() as int / 2]));
    assert(t.to_multiset().count(t[s.len() as int / 2]) > 0);
}

proof fn lemma_swap_keeps_multiset(s: Seq<u64>, i: int, j: int)
    requires
        0 <= i < s.len(),
        0 <= j < s.len(),
    ensures
        s.update(i, s[j]).update(j, s[i]).to_multiset() == s.to_multiset(),
{
    broadcast use vstd::seq_lib::group_to_multiset_ensures;
    broadcast use vstd::multiset::group_multiset_axioms;

    let s1 = s.update(i, s[j]);
    let s2 = s1.update(j, s[i]);
    assert(s1.to_multiset() =~= s.to_multiset().insert(s[j]).remove(s[i]));
    assert(s2.to_multiset() =~= s1.to_multiset().insert(s[i]).remove(s1[j]));
    if i == j {
        assert(s2 =~= s);
    } else {
        assert(s1[j] == s[j]);
        assert(s2.to_multiset() =~= s.to_multiset());
    }
}

/// Sorts `values` in ascending order.
pub fn sort_values(values: &mut Vec<u64>)
    ensures
        final(values)@ == sorted_values(old(values)@),
{
    let ghost initial = values@;
    let n = values.len();
    let ghost leq = u64_leq();
    for i in 0..n
        invariant
            values.len() == n,
            values@.to_multiset() == initial.to_multiset(),
            leq == u64_leq(),
            forall|a: int, b: int| 0 <= a < b < i ==> values@[a] <= values@[b],
    {
        let mut j = i;
        while j > 0 && values[j - 1] > values[j]
            invariant
                values.len() == n,
                0 <= j <= i < n,
                values@.to_multiset() == initial.to_multiset(),
                forall|a: int, b: int|
                    0 <= a < b <= i && a != j && b != j ==> values@[a] <= values@[b],
                forall|b: int| j < b <= i ==> values@[j as int] < values@[b],
            decreases j,
        {
            let left = values[j - 1];
            let right = values[j];
            proof {
                lemma_swap_keeps_multiset(values@, (j - 1) as int, j as int);
            }
            values.set(j - 1, right);
            values.set(j, left);
            j = j - 1;
        }
    }
    proof {
        assert(vstd::relations::sorted_by(values@, u64_leq()));
        lemma_sorted_rearrangement(initial, values@);
    }
}

/// The upper median of `samples`: the value at index `len / 2` of the sorted samples.
pub fn upper_median_of(samples: Vec<u64>) -> (median: u64)
    requires
        samples.len() > 0,
    ensures
        median == upper_median(samples@),
{
    let mut sorted = samples;
    sort_values(&mut sorted);
    proof {
        lemma_sorted_values(samples@);
    }
    let mid = sorted.len() / 2;
    sorted[mid]
}

} // verus!
