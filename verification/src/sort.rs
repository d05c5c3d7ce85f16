//! Two comparison sorts over vectors of signed 32-bit integers: bubble
//! sort with adjacent swaps, and quicksort with Lomuto partitioning.
//!
//! Both return a sequence that holds the same multiset of elements as
//! the input, arranged in non-decreasing order. Since a sorted sequence
//! is determined by its multiset alone, the two sorts agree on every
//! input; `lemma_sorted_permutations_equal` states that law.

use vstd::multiset::group_multiset_axioms;
use vstd::prelude::*;
use vstd::relations::sorted_by;
use vstd::relations::total_ordering;
use vstd::seq_lib::group_to_multiset_ensures;
use vstd::seq_lib::lemma_multiset_commutative;
use vstd::seq_lib::lemma_sorted_unique;

verus! {

/// A sequence is in non-decreasing order.
pub open spec fn sorted(s: Seq<i32>) -> bool {
    forall|i: int, j: int| 0 <= i < j < s.len() ==> s[i] <= s[j]
}

/// Swaps the elements at positions `i` and `j`, keeping the multiset of
/// elements unchanged.
fn swap_elems(arr: &mut Vec<i32>, i: usize, j: usize)
    requires
        i < old(arr).len(),
        j < old(arr).len(),
    ensures
        final(arr)@ == old(arr)@.update(i as int, old(arr)@[j as int]).update(
            j as int,
            old(arr)@[i as int],
        ),
        final(arr)@.to_multiset() == old(arr)@.to_multiset(),
        final(arr)@.len() == old(arr)@.len(),
{
    let vi = arr[i];
    let vj = arr[j];
    arr.set(i, vj);
    arr.set(j, vi);
    proof {
        broadcast use group_to_multiset_ensures;
        broadcast use group_multiset_axioms;

        let s = old(arr)@;
        let s1 = s.update(i as int, vj);
        let s2 = s1.update(j as int, vi);
        assert(s1.to_multiset() == s.to_multiset().insert(vj).remove(s[i as int]));
        assert(s2.to_multiset() == s1.to_multiset().insert(vi).remove(s1[j as int]));
        assert(s.contains(s[i as int]));
        assert(s.contains(s[j as int]));
        assert(s2.to_multiset() =~= s.to_multiset());
    }
}

/// Swapping two positions inside `[lo, hi)` leaves the multiset of that
/// subrange unchanged.
proof fn lemma_swap_keeps_subrange_multiset(s: Seq<i32>, lo: int, hi: int, i: int, j: int)
    requires
        0 <= lo <= i < hi <= s.len(),
        lo <= j < hi,
    ensures
        s.update(i, s[j]).update(j, s[i]).subrange(lo, hi).to_multiset() == s.subrange(
            lo,
            hi,
        ).to_multiset(),
{
    broadcast use group_to_multiset_ensures;
    broadcast use group_multiset_axioms;

    let sub = s.subrange(lo, hi);
    let t = s.update(i, s[j]).update(j, s[i]);
    assert(t.subrange(lo, hi) =~= sub.update(i - lo, sub[j - lo]).update(j - lo, sub[i - lo]));
    let s1 = sub.update(i - lo, sub[j - lo]);
    let s2 = s1.update(j - lo, sub[i - lo]);
    assert(s1.to_multiset() == sub.to_multiset().insert(sub[j - lo]).remove(sub[i - lo]));
    assert(s2.to_multiset() == s1.to_multiset().insert(sub[i - lo]).remove(s1[j - lo]));
    assert(sub.contains(sub[i - lo]));
    assert(sub.contains(sub[j - lo]));
    assert(s2.to_multiset() =~= sub.to_multiset());
}

/// Classic adjacent-swap bubble sort; each outer pass settles one more
/// element at the tail, and the inner pass skips the settled tail.
pub fn bubble_sort(arr: Vec<i32>) -> (r: Vec<i32>)
    ensures
        sorted(r@),
        r@.to_multiset() == arr@.to_multiset(),
        r@.len() == arr@.len(),
{
    let mut v = arr;
    let len = v.len();
    let ghost orig = v@;
    for i in 0..len
        invariant
            v.len() == len,
            v@.to_multiset() == orig.to_multiset(),
            forall|k1: int, k2: int|
                0 <= k1 <= k2 < len && len - i <= k2 ==> v@[k1] <= v@[k2],
    {
        for j in 0..len - 1 - i
            invariant
                i < len,
                v.len() == len,
                v@.to_multiset() == orig.to_multiset(),
                forall|k1: int, k2: int|
                    0 <= k1 <= k2 < len && len - i <= k2 ==> v@[k1] <= v@[k2],
                forall|k: int| 0 <= k < j ==> v@[k] <= v@[j as int],
        {
            if v[j] > v[j + 1] {
                swap_elems(&mut v, j, j + 1);
            }
        }
    }
    v
}

/// Lomuto partition over `arr[low..=high]`: the last element is the
/// pivot; a single forward scan moves elements at most the pivot into
/// the growing low side, and a final swap places the pivot between the
/// two sides. Returns the pivot's final position.
fn partition(arr: &mut Vec<i32>, low: usize, high: usize) -> (pi: usize)
    requires
        low <= high < old(arr).len(),
    ensures
        low <= pi <= high,
        final(arr).len() == old(arr).len(),
        forall|k: int|
            0 <= k < old(arr).len() && !(low <= k <= high) ==> final(arr)@[k] == old(arr)@[k],
        final(arr)@.subrange(low as int, high as int + 1).to_multiset() == old(arr)@.subrange(
            low as int,
            high as int + 1,
        ).to_multiset(),
        forall|k: int| low <= k < pi ==> final(arr)@[k] <= final(arr)@[pi as int],
        forall|k: int| pi < k <= high ==> final(arr)@[k] > final(arr)@[pi as int],
{
    let ghost len = arr.len() as int;
    let ghost orig = arr@;
    let pivot = arr[high];
    let mut i = low;
    let mut j = low;
    while j < high
        invariant
            low <= i <= j <= high < arr.len(),
            arr.len() == len,
            arr@[high as int] == pivot,
            forall|k: int| 0 <= k < len && !(low <= k <= high) ==> arr@[k] == orig[k],
            arr@.subrange(low as int, high as int + 1).to_multiset() == orig.subrange(
                low as int,
                high as int + 1,
            ).to_multiset(),
            forall|k: int| low <= k < i ==> arr@[k] <= pivot,
            forall|k: int| i <= k < j ==> arr@[k] > pivot,
        decreases high - j,
    {
        if arr[j] <= pivot {
            proof {
                lemma_swap_keeps_subrange_multiset(
                    arr@,
                    low as int,
                    high as int + 1,
                    i as int,
                    j as int,
                );
            }
            swap_elems(arr, i, j);
            i = i + 1;
        }
        j = j + 1;
    }
    proof {
        lemma_swap_keeps_subrange_multiset(
            arr@,
            low as int,
            high as int + 1,
            i as int,
            high as int,
        );
    }
    swap_elems(arr, i, high);
    i
}

/// Every element of a sequence satisfies a bound whenever every element
/// of a sequence with the same multiset does.
proof fn lemma_same_multiset_same_bounds(a: Seq<i32>, b: Seq<i32>, p: spec_fn(i32) -> bool)
    requires
        a.to_multiset() == b.to_multiset(),
        forall|k: int| 0 <= k < a.len() ==> p(a[k]),
    ensures
        forall|k: int| 0 <= k < b.len() ==> p(b[k]),
{
    broadcast use group_to_multiset_ensures;
    broadcast use group_multiset_axioms;

    assert forall|k: int| 0 <= k < b.len() implies p(b[k]) by {
        assert(b.contains(b[k]));
        assert(b.to_multiset().count(b[k]) > 0);
        assert(a.contains(b[k]));
        let ka = choose|ka: int| 0 <= ka < a.len() && a[ka] == b[k];
        assert(p(a[ka]));
    }
}

/// Recursive quicksort over `arr[low..=high]`: partition, then sort the
/// two sides of the pivot. Positions outside `[low, high]` are untouched.
fn quick_sort_helper(arr: &mut Vec<i32>, low: usize, high: usize)
    requires
        low <= high < old(arr).len(),
    ensures
        final(arr).len() == old(arr).len(),
        forall|k: int|
            0 <= k < old(arr).len() && !(low <= k <= high) ==> final(arr)@[k] == old(arr)@[k],
        final(arr)@.subrange(low as int, high as int + 1).to_multiset() == old(arr)@.subrange(
            low as int,
            high as int + 1,
        ).to_multiset(),
        sorted(final(arr)@.subrange(low as int, high as int + 1)),
    decreases high - low,
{
    if low < high {
        let ghost s0 = arr@;
        let pi = partition(arr, low, high);
        let ghost s1 = arr@;
        let ghost pivot = arr@[pi as int];
        if pi > low {
            quick_sort_helper(arr, low, pi - 1);
        }
        let ghost s2 = arr@;
        if pi < high {
            quick_sort_helper(arr, pi + 1, high);
        }
        let ghost s3 = arr@;
        proof {
            broadcast use group_to_multiset_ensures;
            broadcast use group_multiset_axioms;

            lemma_quick_sort_stitch(s0, s1, s2, s3, low as int, pi as int, high as int, pivot);
        }
    }
}

/// Splitting `s[lo, hi)` at `mid` splits its multiset.
proof fn lemma_subrange_multiset_split(s: Seq<i32>, lo: int, mid: int, hi: int)
    requires
        0 <= lo <= mid <= hi <= s.len(),
    ensures
        s.subrange(lo, hi).to_multiset() == s.subrange(lo, mid).to_multiset().add(
            s.subrange(mid, hi).to_multiset(),
        ),
{
    assert(s.subrange(lo, hi) =~= s.subrange(lo, mid) + s.subrange(mid, hi));
    lemma_multiset_commutative(s.subrange(lo, mid), s.subrange(mid, hi));
}

/// Stitches the two recursive quicksort calls together: after the left
/// and right sides of the pivot are sorted in place, the whole range is
/// a sorted permutation of what partition left there.
proof fn lemma_quick_sort_stitch(
    s0: Seq<i32>,
    s1: Seq<i32>,
    s2: Seq<i32>,
    s3: Seq<i32>,
    low: int,
    pi: int,
    high: int,
    pivot: i32,
)
    requires
        0 <= low <= pi <= high < s0.len(),
        low < high,
        s1.len() == s0.len(),
        s2.len() == s1.len(),
        s3.len() == s2.len(),
        pivot == s1[pi],
        // what partition established
        s1.subrange(low, high + 1).to_multiset() == s0.subrange(low, high + 1).to_multiset(),
        forall|k: int| 0 <= k < s0.len() && !(low <= k <= high) ==> s1[k] == s0[k],
        forall|k: int| low <= k < pi ==> s1[k] <= pivot,
        forall|k: int| pi < k <= high ==> s1[k] > pivot,
        // what sorting the left side established
        pi > low ==> s2.subrange(low, pi).to_multiset() == s1.subrange(low, pi).to_multiset(),
        pi > low ==> sorted(s2.subrange(low, pi)),
        pi > low ==> forall|k: int| 0 <= k < s1.len() && !(low <= k <= pi - 1) ==> s2[k] == s1[k],
        pi == low ==> s2 == s1,
        // what sorting the right side established
        pi < high ==> s3.subrange(pi + 1, high + 1).to_multiset() == s2.subrange(
            pi + 1,
            high + 1,
        ).to_multiset(),
        pi < high ==> sorted(s3.subrange(pi + 1, high + 1)),
        pi < high ==> forall|k: int|
            0 <= k < s2.len() && !(pi + 1 <= k <= high) ==> s3[k] == s2[k],
        pi == high ==> s3 == s2,
    ensures
        forall|k: int| 0 <= k < s0.len() && !(low <= k <= high) ==> s3[k] == s0[k],
        s3.subrange(low, high + 1).to_multiset() == s0.subrange(low, high + 1).to_multiset(),
        sorted(s3.subrange(low, high + 1)),
{
    broadcast use group_to_multiset_ensures;
    broadcast use group_multiset_axioms;

    // The left and right subranges pass unchanged through the pass that
    // did not sort them, and the pivot position is never touched again.
    assert(s2.subrange(low, pi).to_multiset() == s1.subrange(low, pi).to_multiset()) by {
        if pi == low {
            assert(s2.subrange(low, pi) =~= s1.subrange(low, pi));
        }
    }
    assert(sorted(s2.subrange(low, pi)));
    assert(s3.subrange(low, pi) =~= s2.subrange(low, pi));
    assert(s3[pi] == pivot);
    assert(s3.subrange(pi + 1, high + 1).to_multiset() == s1.subrange(
        pi + 1,
        high + 1,
    ).to_multiset()) by {
        assert(s2.subrange(pi + 1, high + 1) =~= s1.subrange(pi + 1, high + 1));
        if pi == high {
            assert(s3.subrange(pi + 1, high + 1) =~= s2.subrange(pi + 1, high + 1));
        }
    }
    assert(sorted(s3.subrange(pi + 1, high + 1)));
    // Bounds against the pivot survive permutation of each side.
    lemma_same_multiset_same_bounds(
        s1.subrange(low, pi),
        s3.subrange(low, pi),
        |x: i32| x <= pivot,
    );
    lemma_same_multiset_same_bounds(
        s1.subrange(pi + 1, high + 1),
        s3.subrange(pi + 1, high + 1),
        |x: i32| x > pivot,
    );
    // The whole range is sorted.
    assert forall|k1: int, k2: int|
        low <= k1 < k2 <= high implies s3[k1] <= s3[k2] by {
        let left = s3.subrange(low, pi);
        let right = s3.subrange(pi + 1, high + 1);
        if k1 < pi {
            assert(s3[k1] == left[k1 - low]);
            assert(left[k1 - low] <= pivot);
        }
        if k2 > pi {
            assert(s3[k2] == right[k2 - pi - 1]);
            assert(right[k2 - pi - 1] > pivot);
        }
        if k1 < pi && k2 < pi {
            assert(s3[k1] == left[k1 - low] && s3[k2] == left[k2 - low]);
        }
        if k1 > pi && k2 > pi {
            assert(s3[k1] == right[k1 - pi - 1] && s3[k2] == right[k2 - pi - 1]);
        }
    }
    assert(sorted(s3.subrange(low, high + 1))) by {
        assert forall|a: int, b: int|
            0 <= a < b < high + 1 - low implies #[trigger] s3.subrange(low, high + 1)[a]
            <= #[trigger] s3.subrange(low, high + 1)[b] by {
            assert(s3.subrange(low, high + 1)[a] == s3[low + a]);
            assert(s3.subrange(low, high + 1)[b] == s3[low + b]);
        }
    }
    // The whole range is a permutation of what partition produced.
    lemma_subrange_multiset_split(s3, low, pi, high + 1);
    lemma_subrange_multiset_split(s3, pi, pi + 1, high + 1);
    lemma_subrange_multiset_split(s1, low, pi, high + 1);
    lemma_subrange_multiset_split(s1, pi, pi + 1, high + 1);
    assert(s3.subrange(pi, pi + 1) =~= seq![pivot]);
    assert(s1.subrange(pi, pi + 1) =~= seq![pivot]);
}

/// Quicksort: sorts the whole vector with `quick_sort_helper` over the
/// full index range.
pub fn quick_sort(arr: Vec<i32>) -> (r: Vec<i32>)
    ensures
        sorted(r@),
        r@.to_multiset() == arr@.to_multiset(),
        r@.len() == arr@.len(),
{
    let mut v = arr;
    let len = v.len();
    if len > 0 {
        let ghost orig = v@;
        quick_sort_helper(&mut v, 0, len - 1);
        proof {
            assert(v@.subrange(0, len as int) =~= v@);
            assert(orig.subrange(0, len as int) =~= orig);
        }
    }
    v
}

/// Any two sorted sequences holding the same multiset of elements are
/// equal; in particular `bubble_sort` and `quick_sort`, both of which
/// return a sorted permutation of their input, return the same sequence
/// on every input.
pub proof fn lemma_sorted_permutations_equal(a: Seq<i32>, b: Seq<i32>)
    requires
        sorted(a),
        sorted(b),
        a.to_multiset() == b.to_multiset(),
    ensures
        a == b,
{
    let leq = |x: i32, y: i32| x <= y;
    assert(total_ordering(leq));
    assert(sorted_by(a, leq));
    assert(sorted_by(b, leq));
    lemma_sorted_unique(a, b, leq);
    assert(a =~= b);
}

} // verus!
