//! The randomized selection/sort engine.
//!
//! A quicksort with Lomuto-style partitioning and a uniformly random pivot
//! reorders a mutable vector in place into non-decreasing order. The median
//! runs it on a private working copy, so a caller's sample is never reordered.

use vstd::prelude::*;
use vstd::relations::{sorted_by, total_ordering};
use vstd::seq_lib::group_to_multiset_ensures;
use vstd::seq_lib::lemma_sorted_unique;
use vstd::multiset::group_multiset_axioms;
use vstd::multiset::Multiset;

verus! {

/// The order the engine sorts by: ordinary `<=` on the sample values.
pub open spec fn value_order() -> spec_fn(i64, i64) -> bool {
    |x: i64, y: i64| x <= y
}

/// A sequence is sorted when it is non-decreasing at every pair of positions.
pub open spec fn sorted(s: Seq<i64>) -> bool {
    forall|i: int, j: int| 0 <= i < j < s.len() ==> s[i] <= s[j]
}

/// The sorted rearrangement of a sequence.
pub open spec fn sort_spec(s: Seq<i64>) -> Seq<i64> {
    s.sort_by(value_order())
}

/// `<=` on `i64` is a total order.
pub proof fn lemma_value_order_total()
    ensures
        total_ordering(value_order()),
{
}

/// The sorted rearrangement is sorted, keeps the multiset of elements,
/// and keeps the length.
pub proof fn lemma_sort_spec_ensures(s: Seq<i64>)
    ensures
        sorted(sort_spec(s)),
        sort_spec(s).to_multiset() == s.to_multiset(),
        sort_spec(s).len() == s.len(),
{
    broadcast use group_to_multiset_ensures;

    lemma_value_order_total();
    s.lemma_sort_by_ensures(value_order());
    assert forall|i: int, j: int|
        0 <= i < j < sort_spec(s).len() implies sort_spec(s)[i] <= sort_spec(s)[j] by {
        let leq = value_order();
        assert(sorted_by(sort_spec(s), leq));
        assert(leq(sort_spec(s)[i], sort_spec(s)[j]));
    }
    assert(s.len() == s.to_multiset().len());
    assert(sort_spec(s).len() == sort_spec(s).to_multiset().len());
}

/// Sorting is idempotent: sorting the sorted rearrangement changes nothing.
pub proof fn lemma_sort_idempotent(s: Seq<i64>)
    ensures
        sort_spec(sort_spec(s)) == sort_spec(s),
{
    lemma_value_order_total();
    lemma_sort_spec_ensures(s);
    lemma_sort_spec_ensures(sort_spec(s));
    lemma_sorted_as_sorted_by(sort_spec(s));
    lemma_sorted_as_sorted_by(sort_spec(sort_spec(s)));
    lemma_sorted_unique(sort_spec(sort_spec(s)), sort_spec(s), value_order());
}

/// A sequence already sorted is its own sorted rearrangement.
pub proof fn lemma_sort_spec_of_sorted(s: Seq<i64>)
    requires
        sorted(s),
    ensures
        sort_spec(s) == s,
{
    lemma_value_order_total();
    lemma_sort_spec_ensures(s);
    lemma_sorted_as_sorted_by(s);
    lemma_sorted_as_sorted_by(sort_spec(s));
    lemma_sorted_unique(sort_spec(s), s, value_order());
}

proof fn lemma_sorted_as_sorted_by(s: Seq<i64>)
    requires
        sorted(s),
    ensures
        sorted_by(s, value_order()),
{
    let leq = value_order();
    assert forall|i: int, j: int| 0 <= i < j < s.len() implies #[trigger] leq(s[i], s[j]) by {
        assert(s[i] <= s[j]);
    }
}

/// Exchanging two positions of a sequence keeps its multiset of elements.
proof fn lemma_swap_multiset(s: Seq<i64>, a: int, b: int)
    requires
        0 <= a < s.len(),
        0 <= b < s.len(),
    ensures
        s.update(a, s[b]).update(b, s[a]).to_multiset() == s.to_multiset(),
{
    broadcast use group_to_multiset_ensures;
    broadcast use group_multiset_axioms;

    if a == b {
        assert(s.update(a, s[b]).update(b, s[a]) =~= s);
    } else {
        let s1 = s.update(a, s[b]);
        assert(s1[b] == s[b]);
        assert(s.contains(s[a]));
        assert(s1.contains(s[b]));
        assert(s1.update(b, s[a]).to_multiset() =~= s.to_multiset());
    }
}

/// Exchanging two positions inside a window keeps the window's multiset and
/// leaves everything outside the window unchanged.
proof fn lemma_swap_in_range(s: Seq<i64>, lo: int, hi: int, a: int, b: int)
    requires
        0 <= lo <= a < hi <= s.len(),
        lo <= b < hi,
    ensures
        s.update(a, s[b]).update(b, s[a]).subrange(lo, hi).to_multiset() == s.subrange(
            lo,
            hi,
        ).to_multiset(),
        forall|k: int|
            0 <= k < s.len() && !(lo <= k < hi) ==> s.update(a, s[b]).update(b, s[a])[k] == s[k],
{
    let t = s.subrange(lo, hi);
    assert(s.update(a, s[b]).update(b, s[a]).subrange(lo, hi) =~= t.update(a - lo, t[b - lo]).update(
        b - lo,
        t[a - lo],
    ));
    lemma_swap_multiset(t, a - lo, b - lo);
}

/// If two sequences hold the same multiset of elements, every element of the
/// one occurs in the other.
proof fn lemma_multiset_contains_transfer(s: Seq<i64>, t: Seq<i64>)
    requires
        s.to_multiset() == t.to_multiset(),
    ensures
        forall|x: i64| t.contains(x) ==> s.contains(x),
{
    broadcast use group_to_multiset_ensures;

    assert forall|x: i64| t.contains(x) implies s.contains(x) by {
        assert(t.to_multiset().count(x) > 0);
        assert(s.to_multiset().count(x) > 0);
    }
}

/// The multiset of a concatenation is the sum of the parts' multisets.
proof fn lemma_to_multiset_add(s1: Seq<i64>, s2: Seq<i64>)
    ensures
        (s1 + s2).to_multiset() == s1.to_multiset().add(s2.to_multiset()),
    decreases s2.len(),
{
    broadcast use group_to_multiset_ensures;
    broadcast use group_multiset_axioms;

    if s2.len() == 0 {
        assert(s1 + s2 =~= s1);
        assert(s2.to_multiset() =~= Multiset::<i64>::empty());
        assert((s1 + s2).to_multiset() =~= s1.to_multiset().add(s2.to_multiset()));
    } else {
        let t = s2.drop_last();
        lemma_to_multiset_add(s1, t);
        assert(s1 + s2 =~= (s1 + t).push(s2.last()));
        assert(s2 =~= t.push(s2.last()));
        assert((s1 + s2).to_multiset() =~= s1.to_multiset().add(s2.to_multiset()));
    }
}

/// Exchange the values at two positions.
fn swap_values(v: &mut Vec<i64>, a: usize, b: usize)
    requires
        a < old(v).len(),
        b < old(v).len(),
    ensures
        final(v)@ == old(v)@.update(a as int, old(v)@[b as int]).update(
            b as int,
            old(v)@[a as int],
        ),
        final(v)@.len() == old(v)@.len(),
{
    let x: i64 = v[a];
    let y: i64 = v[b];
    v.set(a, y);
    v.set(b, x);
}

/// Relies on rand::random: one machine word drawn from the thread's
/// generator; nothing is assumed of its value.
pub assume_specification<T>[ rand::random::<T> ]() -> (r: T)
    where rand::distr::StandardUniform: rand::distr::Distribution<T>;

/// Draw a uniformly random position of the window `[lo, hi)` and exchange
/// its value with the one at `lo`, so that the pivot the partition reads at
/// `lo` is a random element of the window.
fn select_pivot(v: &mut Vec<i64>, lo: usize, hi: usize)
    requires
        lo < hi <= old(v).len(),
    ensures
        final(v)@.len() == old(v)@.len(),
        final(v)@.subrange(lo as int, hi as int).to_multiset() == old(v)@.subrange(
            lo as int,
            hi as int,
        ).to_multiset(),
        forall|k: int|
            0 <= k < old(v)@.len() && !(lo <= k < hi) ==> final(v)@[k] == old(v)@[k],
{
    let r: u64 = rand::random::<u64>();
    let offset: u64 = r % ((hi - lo) as u64);
    let idx: usize = lo + offset as usize;
    swap_values(v, lo, idx);
    proof {
        lemma_swap_in_range(old(v)@, lo as int, hi as int, lo as int, idx as int);
    }
}

/// Lomuto partition of the window `[lo, hi)` around a random pivot.
///
/// On return the pivot stands at the returned position `p`, everything left
/// of it in the window is strictly below it, everything right of it is at
/// least it, and the window holds the same multiset of elements as before.
fn partition(v: &mut Vec<i64>, lo: usize, hi: usize) -> (p: usize)
    requires
        lo < hi <= old(v).len(),
    ensures
        lo <= p < hi,
        final(v)@.len() == old(v)@.len(),
        final(v)@.subrange(lo as int, hi as int).to_multiset() == old(v)@.subrange(
            lo as int,
            hi as int,
        ).to_multiset(),
        forall|k: int| lo <= k < p ==> final(v)@[k] < final(v)@[p as int],
        forall|k: int| p < k < hi ==> final(v)@[k] >= final(v)@[p as int],
        forall|k: int|
            0 <= k < old(v)@.len() && !(lo <= k < hi) ==> final(v)@[k] == old(v)@[k],
{
    select_pivot(v, lo, hi);
    let pivot: i64 = v[lo];
    let mut j: usize = lo;
    let mut i: usize = lo + 1;
    while i < hi
        invariant
            lo <= j < i <= hi <= v.len(),
            v.len() == old(v).len(),
            v@[lo as int] == pivot,
            forall|k: int| lo < k <= j ==> v@[k] < pivot,
            forall|k: int| j < k < i ==> v@[k] >= pivot,
            v@.subrange(lo as int, hi as int).to_multiset() == old(v)@.subrange(
                lo as int,
                hi as int,
            ).to_multiset(),
            forall|k: int| 0 <= k < v@.len() && !(lo <= k < hi) ==> v@[k] == old(v)@[k],
        decreases hi - i,
    {
        if v[i] < pivot {
            j += 1;
            let ghost before = v@;
            swap_values(v, i, j);
            proof {
                lemma_swap_in_range(before, lo as int, hi as int, i as int, j as int);
            }
        }
        i += 1;
    }
    let ghost before_final = v@;
    swap_values(v, lo, j);
    proof {
        lemma_swap_in_range(before_final, lo as int, hi as int, lo as int, j as int);
    }
    j
}

/// Sort the window `[lo, hi)` in place: afterwards it is non-decreasing and
/// holds the same multiset of elements, and nothing outside it has moved.
fn qsort_range(v: &mut Vec<i64>, lo: usize, hi: usize)
    requires
        lo <= hi <= old(v).len(),
    ensures
        final(v)@.len() == old(v)@.len(),
        final(v)@.subrange(lo as int, hi as int).to_multiset() == old(v)@.subrange(
            lo as int,
            hi as int,
        ).to_multiset(),
        sorted(final(v)@.subrange(lo as int, hi as int)),
        forall|k: int|
            0 <= k < old(v)@.len() && !(lo <= k < hi) ==> final(v)@[k] == old(v)@[k],
    decreases hi - lo,
{
    if hi - lo <= 1 {
        return ;
    }
    let ghost s0 = v@;
    let p: usize = partition(v, lo, hi);
    let ghost s1 = v@;
    qsort_range(v, lo, p);
    let ghost s2 = v@;
    qsort_range(v, p + 1, hi);
    let ghost s3 = v@;
    proof {
        broadcast use group_to_multiset_ensures;
        broadcast use group_multiset_axioms;

        let loi: int = lo as int;
        let hii: int = hi as int;
        let pi: int = p as int;
        let piv: i64 = s1[pi];
        // the pivot and the right window did not move during the first
        // recursion; the left and the pivot did not move during the second
        assert(s2.subrange(pi, hii) =~= s1.subrange(pi, hii));
        assert(s3.subrange(loi, pi) =~= s2.subrange(loi, pi));
        assert(s3[pi] == piv);
        // each side keeps its multiset across the recursions
        assert(s2.subrange(pi + 1, hii) =~= s1.subrange(pi + 1, hii));
        assert(s3.subrange(loi, pi).to_multiset() == s1.subrange(loi, pi).to_multiset());
        assert(s3.subrange(pi + 1, hii).to_multiset() == s1.subrange(pi + 1, hii).to_multiset());
        // so each side still holds only values on its side of the pivot
        lemma_multiset_contains_transfer(s1.subrange(loi, pi), s3.subrange(loi, pi));
        lemma_multiset_contains_transfer(s1.subrange(pi + 1, hii), s3.subrange(pi + 1, hii));
        assert forall|k: int| loi <= k < pi implies s3[k] < piv by {
            let part = s3.subrange(loi, pi);
            assert(part[k - loi] == s3[k]);
            assert(part.contains(s3[k]));
            assert(s1.subrange(loi, pi).contains(s3[k]));
        }
        assert forall|k: int| pi < k < hii implies s3[k] >= piv by {
            let part = s3.subrange(pi + 1, hii);
            assert(part[k - pi - 1] == s3[k]);
            assert(part.contains(s3[k]));
            assert(s1.subrange(pi + 1, hii).contains(s3[k]));
        }
        // the window is sorted: within each sorted side, and across the pivot
        assert forall|a: int, b: int|
            loi <= a < b < hii implies s3[a] <= s3[b] by {
            let left = s3.subrange(loi, pi);
            let right = s3.subrange(pi + 1, hii);
            if b < pi {
                assert(left[a - loi] == s3[a] && left[b - loi] == s3[b]);
                assert(sorted(left));
            } else if a > pi {
                assert(right[a - pi - 1] == s3[a] && right[b - pi - 1] == s3[b]);
                assert(sorted(right));
            }
        }
        assert(sorted(s3.subrange(loi, hii))) by {
            let w = s3.subrange(loi, hii);
            assert forall|a: int, b: int| 0 <= a < b < w.len() implies w[a] <= w[b] by {
                assert(w[a] == s3[loi + a] && w[b] == s3[loi + b]);
            }
        }
        // the whole window keeps its multiset: piece it together around the pivot
        lemma_window_multiset(s1, loi, pi, hii);
        lemma_window_multiset(s3, loi, pi, hii);
        assert(s3.subrange(pi, pi + 1) =~= seq![piv]);
        assert(s1.subrange(pi, pi + 1) =~= seq![piv]);
        assert(s3.subrange(loi, hii).to_multiset() == s1.subrange(loi, hii).to_multiset());
    }
}

/// A window's multiset is the sum of the left part, the middle element and
/// the right part.
proof fn lemma_window_multiset(s: Seq<i64>, lo: int, p: int, hi: int)
    requires
        0 <= lo <= p < hi <= s.len(),
    ensures
        s.subrange(lo, hi).to_multiset() == s.subrange(lo, p).to_multiset().add(
            s.subrange(p, p + 1).to_multiset(),
        ).add(s.subrange(p + 1, hi).to_multiset()),
{
    assert(s.subrange(lo, hi) =~= s.subrange(lo, p) + s.subrange(p, p + 1) + s.subrange(
        p + 1,
        hi,
    ));
    lemma_to_multiset_add(s.subrange(lo, p), s.subrange(p, p + 1));
    lemma_to_multiset_add(s.subrange(lo, p) + s.subrange(p, p + 1), s.subrange(p + 1, hi));
}

/// Reorder the vector in place into non-decreasing order.
///
/// The result is exactly the sorted rearrangement of the input: it is
/// non-decreasing and holds the same multiset of elements.
pub fn quicksort(v: &mut Vec<i64>)
    ensures
        final(v)@ == sort_spec(old(v)@),
        sorted(final(v)@),
        final(v)@.to_multiset() == old(v)@.to_multiset(),
{
    let len: usize = v.len();
    qsort_range(v, 0, len);
    proof {
        assert(v@.subrange(0, len as int) =~= v@);
        assert(old(v)@.subrange(0, len as int) =~= old(v)@);
        lemma_sort_spec_ensures(old(v)@);
        lemma_value_order_total();
        lemma_sorted_as_sorted_by(v@);
        lemma_sorted_as_sorted_by(sort_spec(old(v)@));
        lemma_sorted_unique(v@, sort_spec(old(v)@), value_order());
    }
}

} // verus!
