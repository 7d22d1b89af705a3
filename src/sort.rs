//! In-place ascending sort by repeated adjacent-swap passes.
use vstd::prelude::*;
use vstd::relations::{sorted_by, total_ordering};
use vstd::seq_lib::lemma_sorted_unique;

verus! {

broadcast use vstd::seq_lib::group_to_multiset_ensures;

/// Every element is at most every element after it.
pub open spec fn is_sorted(s: Seq<i32>) -> bool {
    forall|i: int, j: int| 0 <= i < j < s.len() ==> s[i] <= s[j]
}

/// `r` holds the elements of `s` in ascending order.
pub open spec fn is_sorting_of(r: Seq<i32>, s: Seq<i32>) -> bool {
    &&& is_sorted(r)
    &&& r.to_multiset() == s.to_multiset()
}

/// The order `<=` on `i32`, as a relation.
pub open spec fn leq_i32(a: i32, b: i32) -> bool {
    a <= b
}

/// Sorts `v` ascending in place.
///
/// A pass walks a cursor from the front to the back and swaps each adjacent
/// pair whose left element is strictly greater. Passes repeat until one of
/// them swaps nothing.
pub fn vec_sort(v: &mut Vec<i32>)
    ensures
        is_sorting_of(final(v)@, old(v)@),
        forall|i: int| 0 <= i < final(v)@.len() - 1 ==> #[trigger] final(v)@[i] <= final(v)@[i + 1],
{
    let n: usize = v.len();
    let ghost orig = v@;
    // Passes completed so far; after `done` passes the last `done` slots hold
    // the largest elements, in order.
    let ghost mut done: int = 0;
    let mut sorted: bool = false;
    while !sorted
        invariant
            v@.len() == n,
            v@.to_multiset() == orig.to_multiset(),
            0 <= done <= n,
            forall|i: int, j: int| 0 <= i < j < n && j >= n - done ==> v@[i] <= v@[j],
            sorted ==> is_sorted(v@),
        decreases n - done + (if sorted { 0int } else { 1int }),
    {
        let mut index: usize = 0;
        let mut swapped: bool = false;
        let ghost start = v@;
        while index + 1 < n
            invariant
                v@.len() == n,
                v@.to_multiset() == orig.to_multiset(),
                0 <= done <= n,
                n == 0 ==> index == 0,
                n > 0 ==> index < n,
                forall|i: int, j: int| 0 <= i < j < n && j >= n - done ==> v@[i] <= v@[j],
                n > 0 ==> forall|j: int| 0 <= j <= index ==> v@[j] <= v@[index as int],
                n > 0 && index + 1 >= n - done ==> forall|j: int|
                    0 <= j < n - done - 1 ==> #[trigger] v@[j] <= v@[n - done - 1],
                !swapped ==> forall|i: int, j: int| 0 <= i < j <= index ==> v@[i] <= v@[j],
                swapped ==> done + 2 <= n,
            decreases n - index,
        {
            let a = v[index];
            let b = v[index + 1];
            if a > b {
                v.set(index, b);
                v.set(index + 1, a);
                swapped = true;
            }
            index = index + 1;
        }
        if !swapped {
            sorted = true;
        } else {
            proof {
                done = done + 1;
            }
        }
    }
}

/// Two ascending sequences that hold the same elements are equal: the result
/// of sorting depends on the input's elements alone.
pub proof fn lemma_sorted_unique_i32(a: Seq<i32>, b: Seq<i32>)
    requires
        is_sorted(a),
        is_sorted(b),
        a.to_multiset() == b.to_multiset(),
    ensures
        a == b,
{
    let leq = |x: i32, y: i32| leq_i32(x, y);
    assert(total_ordering(leq));
    assert(sorted_by(a, leq));
    assert(sorted_by(b, leq));
    lemma_sorted_unique(a, b, leq);
}

/// Sorting is idempotent: sorting an already sorted result gives it back.
pub proof fn lemma_sort_idempotent(s: Seq<i32>, r: Seq<i32>, r2: Seq<i32>)
    requires
        is_sorting_of(r, s),
        is_sorting_of(r2, r),
    ensures
        r2 == r,
{
    lemma_sorted_unique_i32(r2, r);
}

} // verus!
