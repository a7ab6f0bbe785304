//! Sorting algorithms, and the test for sortedness.
use vstd::prelude::*;
use vstd::seq_lib::lemma_multiset_commutative;
use crate::arrangement::antisymmetric_on;
use crate::arrangement::class_of;
use crate::arrangement::exchanged;
use crate::arrangement::lemma_exchange_neighbours_stable;
use crate::arrangement::lemma_exchange_permutes;
use crate::arrangement::lemma_exchanged_at;
use crate::arrangement::lemma_permutation_contains;
use crate::arrangement::lemma_permutation_is_stable;
use crate::arrangement::permutation;
use crate::arrangement::sorts;
use crate::arrangement::stable;
use crate::merging::after_round;
use crate::merging::lemma_merge_sorted_is_sorted;
use crate::merging::lemma_merge_sorted_keeps_sorted;
use crate::merging::lemma_merge_sorted_len;
use crate::merging::lemma_merge_sorted_permutes;
use crate::merging::lemma_merged_len;
use crate::merging::lemma_merged_step;
use crate::merging::lemma_round_in_place;
use crate::merging::merge_sorted;
use crate::merging::merged;
use crate::order::compare;
use crate::order::Comparison;
use crate::order::eqv;
use crate::order::in_order_at;
use crate::order::lawful;
use crate::order::le;
use crate::order::lemma_flip;
use crate::order::lemma_operators_agree;
use crate::order::lemma_reflexive;
use crate::order::lemma_sorted_by_neighbours;
use crate::order::lemma_transitive;
use crate::order::lt;
use crate::order::neighbours_in_order;
use crate::order::operators_agree;
use crate::order::sorted;

verus! {

/// Checks if a slice is sorted: whether no element is greater than its right
/// neighbour.
pub fn test<T: Ord>(slice: &[T]) -> (r: bool)
    requires
        lawful::<T>(),
    ensures
        r == sorted(slice@),
        r == neighbours_in_order(slice@),
{
    proof {
        lemma_operators_agree::<T>();
        lemma_sorted_by_neighbours(slice@);
    }
    if slice.len() < 2 {
        return true;
    }
    let mut i: usize = 1;
    while i < slice.len()
        invariant
            1 <= i <= slice.len(),
            lawful::<T>(),
            forall|k: int| 0 <= k && k + 1 < i ==> #[trigger] in_order_at(slice@, k),
        decreases slice.len() - i,
    {
        proof {
            lemma_operators_agree::<T>();
            lemma_flip(slice@[i - 1], slice@[i as int]);
        }
        if slice[i - 1] > slice[i] {
            assert(!in_order_at(slice@, i - 1));
            return false;
        }
        assert(in_order_at(slice@, i - 1));
        i += 1;
    }
    true
}

/// Alias for [`test()`].
pub fn is_sorted<T: Ord>(slice: &[T]) -> (r: bool)
    requires
        lawful::<T>(),
    ensures
        r == sorted(slice@),
        r == neighbours_in_order(slice@),
{
    test(slice)
}

/// `<[T]>::swap`, which exchanges the elements at `a` and `b`. It panics where
/// an index is out of bounds, so both must be in bounds; with `a == b` the
/// slice is left as it is.
pub assume_specification<E>[ <[E]>::swap ](slice: &mut [E], a: usize, b: usize)
    requires
        a < old(slice)@.len(),
        b < old(slice)@.len(),
    ensures
        final(slice)@ == exchanged(old(slice)@, a as int, b as int),
;

/// Every element of `s` from position `n` on is in its final place: none
/// before it is greater.
pub open spec fn settled_from<T: Ord>(s: Seq<T>, n: int) -> bool {
    forall|a: int, b: int|
        #![trigger s[a], s[b]]
        0 <= a < b < s.len() && n <= b ==> le(s[a], s[b])
}

/// An implementation of bubble sort.
///
/// Checks for every element if the next element is greater than this and swaps
/// them if so. Then repeats the process until the list is sorted.
pub fn bubble<T: Ord>(slice: &mut [T])
    requires
        lawful::<T>(),
    ensures
        sorts(old(slice)@, final(slice)@),
        stable(old(slice)@, final(slice)@),
{
    let ghost start = slice@;
    let mut n = slice.len();
    while n > 1
        invariant
            lawful::<T>(),
            n <= slice@.len(),
            slice@.len() == start.len(),
            permutation(slice@, start),
            stable(start, slice@),
            sorted(start) ==> slice@ == start,
            settled_from(slice@, n as int),
        decreases n,
    {
        let mut newn: usize = 0;

        proof {
            lemma_reflexive(slice@[0]);
        }
        let mut i: usize = 1;
        while i < n
            invariant
                lawful::<T>(),
                1 <= i <= n <= slice@.len(),
                newn < i,
                slice@.len() == start.len(),
                permutation(slice@, start),
                stable(start, slice@),
                sorted(start) ==> slice@ == start,
                settled_from(slice@, n as int),
                forall|k: int| 0 <= k < i ==> le(#[trigger] slice@[k], slice@[i - 1]),
                forall|a: int, b: int|
                    #![trigger slice@[a], slice@[b]]
                    0 <= a < b < i && newn <= b ==> le(slice@[a], slice@[b]),
            decreases n - i,
        {
            let ghost before = slice@;
            proof {
                lemma_operators_agree::<T>();
                lemma_flip(before[i - 1], before[i as int]);
                lemma_flip(before[i as int], before[i as int]);
            }
            if slice[i - 1] > slice[i] {
                slice.swap(i - 1, i);
                newn = i;
                proof {
                    lemma_exchanged_at(before, i - 1, i as int);
                    lemma_exchange_permutes(before, i - 1, i as int);
                    lemma_exchange_neighbours_stable(before, i as int);
                    assert(stable(start, slice@)) by {
                        assert forall|k: T| #[trigger]
                            slice@.filter(class_of(k)) == start.filter(class_of(k)) by {
                            assert(before.filter(class_of(k)) == start.filter(class_of(k)));
                        }
                    }
                    if sorted(start) {
                        assert(le(before[i - 1], before[i as int]));
                    }
                    assert(settled_from(slice@, n as int)) by {
                        assert forall|a: int, b: int|
                            0 <= a < b < slice@.len() && n <= b implies le(
                            slice@[a],
                            slice@[b],
                        ) by {
                            if a == i - 1 {
                                assert(le(before[i as int], before[b]));
                            } else if a == i {
                                assert(le(before[i - 1], before[b]));
                            } else {
                                assert(le(before[a], before[b]));
                            }
                        }
                    }
                    assert forall|k: int| 0 <= k < i + 1 implies le(
                        #[trigger] slice@[k],
                        slice@[i as int],
                    ) by {
                        if k < i - 1 {
                            assert(le(before[k], before[i - 1]));
                        }
                    }
                }
            } else {
                proof {
                    assert forall|k: int| 0 <= k < i + 1 implies le(
                        #[trigger] slice@[k],
                        slice@[i as int],
                    ) by {
                        if k < i {
                            assert(le(before[k], before[i - 1]));
                            lemma_transitive(before[k], before[i - 1], before[i as int]);
                        }
                    }
                }
            }
            i += 1;
        }

        proof {
            assert(settled_from(slice@, newn as int)) by {
                assert forall|a: int, b: int|
                    0 <= a < b < slice@.len() && newn <= b implies le(slice@[a], slice@[b]) by {
                    if b >= n {
                        assert(le(slice@[a], slice@[b]));
                    }
                }
            }
        }
        n = newn;
    }
}

/// The element at `p` parts `s`: nothing before it is greater, nothing after
/// it is smaller.
pub open spec fn partitioned<T: Ord>(s: Seq<T>, p: int) -> bool {
    &&& forall|k: int| 0 <= k < p ==> le(#[trigger] s[k], s[p])
    &&& forall|k: int| p < k < s.len() ==> le(s[p], #[trigger] s[k])
}

/// Once both cursors have met on an element equal to the pivot, exchanging
/// that element with the pivot parts the sequence at the meeting point.
proof fn lemma_pivot_home<T: Ord>(s: Seq<T>, meet: int, pivot: int)
    requires
        lawful::<T>(),
        0 <= meet < s.len(),
        0 <= pivot < s.len(),
        eqv(s[meet], s[pivot]),
        forall|k: int| 0 <= k < meet ==> le(#[trigger] s[k], s[pivot]),
        forall|k: int| meet < k < s.len() ==> le(s[pivot], #[trigger] s[k]),
    ensures
        permutation(exchanged(s, meet, pivot), s),
        exchanged(s, meet, pivot)[meet] == s[pivot],
        partitioned(exchanged(s, meet, pivot), meet),
        meet == pivot ==> exchanged(s, meet, pivot) == s,
{
    let key = s[pivot];
    let after = exchanged(s, meet, pivot);
    lemma_exchanged_at(s, meet, pivot);
    lemma_exchange_permutes(s, meet, pivot);
    lemma_flip(s[meet], key);
    assert forall|k: int| 0 <= k < meet implies le(#[trigger] after[k], after[meet]) by {
        if k != pivot {
            assert(le(s[k], key));
        }
    }
    assert forall|k: int| meet < k < after.len() implies le(after[meet], #[trigger] after[k]) by {
        if k != pivot {
            assert(le(key, s[k]));
        }
    }
}

/// Part of quick sort algorithm.
///
/// Sets the pivot, places smaller elements before it and greater after it.
/// Returns the final position of the pivot.
///
/// This function is used in [`quick`] sort.
pub fn quick_partition<T: Ord>(slice: &mut [T]) -> (p: usize)
    requires
        lawful::<T>(),
        old(slice)@.len() > 0,
    ensures
        final(slice)@.len() == old(slice)@.len(),
        p < final(slice)@.len(),
        permutation(final(slice)@, old(slice)@),
        final(slice)@[p as int] == old(slice)@.last(),
        partitioned(final(slice)@, p as int),
        sorted(old(slice)@) ==> final(slice)@ == old(slice)@ && p == old(slice)@.len() - 1,
{
    // 'the pivot' is the last element of the slice
    let n = slice.len();
    let mut lo: usize = 0;
    let mut hi: usize = n - 1;
    let mut pivot: usize = n - 1;

    let ghost start = slice@;
    let ghost key = slice@[n - 1];
    // an element equal to the pivot that the two cursors cannot pass
    let ghost mut guard: int = n - 1;
    // whether the last round exchanged two elements
    let ghost mut moved = false;
    proof {
        lemma_reflexive(key);
        lemma_operators_agree::<T>();
    }

    let mut equal = false;
    loop
        invariant_except_break
            equal ==> lo < guard && le(slice@[lo as int], key),
            moved ==> lo < hi && (lt(slice@[lo as int], key) || lt(key, slice@[hi as int])),
        invariant
            operators_agree::<T>(),
            lawful::<T>(),
            n == slice@.len(),
            lo <= guard <= hi < n,
            pivot < n,
            slice@[pivot as int] == key,
            key == start.last(),
            permutation(slice@, start),
            eqv(slice@[guard], key),
            forall|k: int| 0 <= k < lo ==> le(#[trigger] slice@[k], key),
            forall|k: int| hi < k < n ==> le(key, #[trigger] slice@[k]),
            sorted(start) ==> slice@ == start && pivot == n - 1 && hi == n - 1,
        ensures
            n == slice@.len(),
            lo == hi < n,
            pivot < n,
            slice@[pivot as int] == key,
            permutation(slice@, start),
            eqv(slice@[lo as int], key),
            forall|k: int| 0 <= k < lo ==> le(#[trigger] slice@[k], key),
            forall|k: int| hi < k < n ==> le(key, #[trigger] slice@[k]),
            sorted(start) ==> slice@ == start && pivot == n - 1 && hi == n - 1,
        decreases hi - lo + (if equal || moved { 0int } else { 1int }),
    {
        let ghost due = equal || moved;
        let ghost lo0 = lo;
        let ghost hi0 = hi;
        // always increments the counter if they're equal
        if equal {
            lo += 1;
            equal = false;
        }

        // search for an element greater or equal to the pivot
        let ghost lo1 = lo;
        while slice[lo] < slice[pivot]
            invariant
                operators_agree::<T>(),
                lawful::<T>(),
                n == slice@.len(),
                lo1 <= lo <= guard < n,
                pivot < n,
                slice@[pivot as int] == key,
                eqv(slice@[guard], key),
                forall|k: int| 0 <= k < lo ==> le(#[trigger] slice@[k], key),
            ensures
                lo1 <= lo <= guard,
                !lt(slice@[lo as int], key),
                forall|k: int| 0 <= k < lo ==> le(#[trigger] slice@[k], key),
            decreases guard - lo,
        {
            proof {
                lemma_flip(slice@[lo as int], key);
                lemma_flip(slice@[guard], key);
            }
            lo += 1;
        }

        // search for an element smaller or equal to the pivot
        while hi > 0 && slice[hi] > slice[pivot]
            invariant
                operators_agree::<T>(),
                lawful::<T>(),
                n == slice@.len(),
                0 <= guard <= hi <= hi0 < n,
                pivot < n,
                slice@[pivot as int] == key,
                eqv(slice@[guard], key),
                forall|k: int| hi < k < n ==> le(key, #[trigger] slice@[k]),
                sorted(start) ==> slice@ == start && pivot == n - 1 && hi == n - 1,
            ensures
                guard <= hi <= hi0,
                hi == 0 || le(slice@[hi as int], key),
                forall|k: int| hi < k < n ==> le(key, #[trigger] slice@[k]),
                sorted(start) ==> slice@ == start && pivot == n - 1 && hi == n - 1,
            decreases hi,
        {
            proof {
                lemma_flip(slice@[hi as int], key);
                lemma_flip(slice@[guard], key);
                lemma_flip(key, slice@[hi as int]);
                lemma_reflexive(key);
            }
            hi -= 1;
        }
        proof {
            lemma_flip(slice@[hi as int], key);
            lemma_flip(key, slice@[hi as int]);
        }

        assert(due ==> hi - lo < hi0 - lo0);
        let ghost x = slice@[lo as int];
        let ghost y = slice@[hi as int];
        proof {
            lemma_flip(x, key);
            lemma_flip(y, key);
            lemma_flip(x, y);
            lemma_flip(key, x);
            lemma_flip(key, y);
        }
        if lo >= hi {
            // the cursors have met: the slice is parted
            break;
        } else if slice[lo] == slice[hi] {
            equal = true;
            proof {
                // both are equal to the pivot, since neither is on its wrong side
                lemma_transitive(key, x, y);
                lemma_transitive(x, y, key);
                guard = hi as int;
                moved = false;
            }
        } else {
            if lo == pivot {
                pivot = hi;
            } else if hi == pivot {
                pivot = lo;
            }

            let ghost before = slice@;
            slice.swap(lo, hi);
            proof {
                lemma_exchanged_at(before, lo as int, hi as int);
                lemma_exchange_permutes(before, lo as int, hi as int);
                if guard == lo {
                    guard = hi as int;
                } else if guard == hi {
                    guard = lo as int;
                }
                moved = true;
                if !lt(y, key) && !lt(key, x) {
                    lemma_transitive(x, key, y);
                    lemma_transitive(y, key, x);
                }
                if sorted(start) {
                    assert(le(before[lo as int], before[hi as int]));
                    lemma_transitive(key, x, y);
                    lemma_transitive(x, y, key);
                }
            }
        }
    }

    let ghost before = slice@;
    slice.swap(lo, pivot);
    proof {
        lemma_pivot_home(before, lo as int, pivot as int);
    }
    lo
}

/// Two parts sorted on their own, with an element between them that parted
/// them before, make a sorted whole that rearranges what was there.
proof fn lemma_sorted_around<T: Ord>(parted: Seq<T>, p: int, front: Seq<T>, back: Seq<T>)
    requires
        lawful::<T>(),
        0 <= p < parted.len(),
        partitioned(parted, p),
        sorted(front),
        sorted(back),
        permutation(front, parted.take(p)),
        permutation(back, parted.skip(p + 1)),
    ensures
        sorted(front + seq![parted[p]] + back),
        permutation(front + seq![parted[p]] + back, parted),
{
    broadcast use vstd::multiset::group_multiset_axioms;

    let x = parted[p];
    let whole = front + seq![x] + back;
    let before = parted.take(p);
    let after = parted.skip(p + 1);
    lemma_permutation_contains(front, before);
    lemma_permutation_contains(back, after);
    assert forall|a: int| 0 <= a < front.len() implies le(#[trigger] front[a], x) by {
        assert(front.contains(front[a]));
        let k = choose|k: int| 0 <= k < before.len() && before[k] == front[a];
        assert(le(parted[k], x));
    }
    assert forall|b: int| 0 <= b < back.len() implies le(x, #[trigger] back[b]) by {
        assert(back.contains(back[b]));
        let k = choose|k: int| 0 <= k < after.len() && after[k] == back[b];
        assert(le(x, parted[k + p + 1]));
    }
    assert forall|a: int, b: int| 0 <= a < b < whole.len() implies le(whole[a], whole[b]) by {
        if b < p {
            assert(le(front[a], front[b]));
        } else if b == p {
            assert(le(front[a], x));
        } else if a < p {
            assert(le(front[a], x));
            assert(le(x, back[b - p - 1]));
            lemma_transitive(front[a], x, back[b - p - 1]);
        } else if a == p {
            assert(le(x, back[b - p - 1]));
        } else {
            assert(le(back[a - p - 1], back[b - p - 1]));
        }
    }
    assert(parted == parted.take(p) + seq![x] + parted.skip(p + 1));
    lemma_multiset_commutative(front + seq![x], back);
    lemma_multiset_commutative(front, seq![x]);
    lemma_multiset_commutative(parted.take(p) + seq![x], parted.skip(p + 1));
    lemma_multiset_commutative(parted.take(p), seq![x]);
}

/// An implementation of quick sort.
///
/// Partitions the slice into two parts by [`quick_partition`], and invokes
/// itself until the list is sorted.
pub fn quick<T: Ord>(slice: &mut [T])
    requires
        lawful::<T>(),
    ensures
        sorts(old(slice)@, final(slice)@),
    decreases old(slice)@.len(),
{
    if slice.len() > 1 {
        let partition = quick_partition(slice);
        let ghost parted = slice@;
        let (front, rest) = slice.split_at_mut(partition);
        quick(front);
        let (_, back) = rest.split_at_mut(1);
        quick(back);
        proof {
            let p = partition as int;
            let tail = parted.skip(p);
            assert(tail.take(1) == seq![parted[p]]);
            assert(tail.skip(1) == parted.skip(p + 1));
            assert(parted.subrange(0, p) == parted.take(p));
            lemma_sorted_around(parted, p, front@, back@);
            assert(slice@ == front@ + seq![parted[p]] + back@);
            if sorted(old(slice)@) {
                assert(sorted(parted.take(p))) by {
                    assert forall|a: int, b: int| 0 <= a < b < p implies le(
                        parted.take(p)[a],
                        parted.take(p)[b],
                    ) by {
                        assert(le(parted[a], parted[b]));
                    }
                }
                lemma_permutation_contains(back@, parted.skip(p + 1));
                assert(back@ == parted.skip(p + 1));
                assert(slice@ == parted);
            }
        }
    }
}

/// Cloning an element of `T` yields that same element.
pub open spec fn faithful_clone<T: Clone>() -> bool {
    forall|a: T, b: T| #[trigger] call_ensures(T::clone, (&a,), b) ==> a == b
}

/// An implementation of top-down (recursive) merge sort that uses only half
/// of the space.
///
/// Copies the first half of the slice, sorts the copy and the second half, and
/// merges the two into the slice.
pub fn merge<T: Ord + Clone>(slice: &mut [T])
    requires
        lawful::<T>(),
        faithful_clone::<T>(),
    ensures
        final(slice)@ == merge_sorted(old(slice)@),
        final(slice)@.len() == old(slice)@.len(),
        sorted(final(slice)@),
        antisymmetric_on(old(slice)@) ==> sorts(old(slice)@, final(slice)@),
        antisymmetric_on(old(slice)@) ==> stable(old(slice)@, final(slice)@),
    decreases old(slice)@.len(),
{
    proof {
        lemma_merge_sorted_len(old(slice)@);
        lemma_merge_sorted_is_sorted(old(slice)@);
        if antisymmetric_on(old(slice)@) {
            lemma_merge_sorted_permutes(old(slice)@);
            lemma_permutation_is_stable(old(slice)@, merge_sorted(old(slice)@));
            if sorted(old(slice)@) {
                lemma_merge_sorted_keeps_sorted(old(slice)@);
            }
        }
    }
    let n = slice.len();
    if n > 1 {
        let mid = n / 2;

        // copy first part to a new vector
        let mut left: Vec<T> = Vec::new();
        left.extend_from_slice(&slice[0..mid]);
        assert(left@ == old(slice)@.take(mid as int));

        merge(left.as_mut_slice());
        let (_, back) = slice.split_at_mut(mid);
        merge(back);

        let ghost l = merge_sorted(old(slice)@.take(mid as int));
        let ghost r = merge_sorted(old(slice)@.skip(mid as int));
        proof {
            lemma_merge_sorted_len(old(slice)@.take(mid as int));
            lemma_merge_sorted_len(old(slice)@.skip(mid as int));
            lemma_merged_len(l, r);
            assert(slice@.skip(mid as int) == r);
            assert(l.skip(0) == l);
            assert(r.skip(0) == r);
            assert(slice@.take(0) + merged(l, r) == merged(l, r));
        }

        // merge the two parts
        let mut i: usize = 0;
        let mut j: usize = 0;
        loop
            invariant
                lawful::<T>(),
                faithful_clone::<T>(),
                n == slice@.len(),
                mid == l.len(),
                n - mid == r.len(),
                left@ == l,
                i <= mid,
                j <= n - mid,
                slice@.skip(mid + j) == r.skip(j as int),
                merged(l, r) == slice@.take(i + j) + merged(l.skip(i as int), r.skip(j as int)),
            ensures
                slice@ == merged(l, r),
            decreases (mid - i) + (n - mid - j),
        {
            let midj = mid + j;

            if i == mid {
                // the slice is sorted, as the first part has been merged
                proof {
                    lemma_merged_step(l, r, i as int, j as int);
                    assert(slice@ == slice@.take(i + j) + slice@.skip(mid + j));
                }
                break;
            } else if midj == n {
                // only the second half has been merged, so clone the
                // remaining elements into the tail
                proof {
                    lemma_merged_step(l, r, i as int, j as int);
                }
                let mut k: usize = i;
                while k < mid
                    invariant
                        faithful_clone::<T>(),
                        n == slice@.len(),
                        mid == l.len(),
                        left@ == l,
                        j == n - mid,
                        i <= k <= mid,
                        slice@.take(k + j) == slice@.take(i + j) + l.subrange(i as int, k as int),
                        merged(l, r) == slice@.take(i + j) + l.skip(i as int),
                    decreases mid - k,
                {
                    let ghost before = slice@;
                    slice[k + j] = left[k].clone();
                    assert(slice@.take(k + j + 1) == before.take(k + j).push(l[k as int]));
                    assert(slice@.take(i + j) == before.take(i + j));
                    assert(l.subrange(i as int, k + 1) == l.subrange(i as int, k as int).push(l[k as int]));
                    k += 1;
                }
                assert(slice@.take(n as int) == slice@);
                assert(l.subrange(i as int, mid as int) == l.skip(i as int));
                break;
            }

            let ij = i + j;
            let ghost before = slice@;
            let ghost i0 = i as int;
            let ghost j0 = j as int;
            proof {
                lemma_round_in_place(before, l, r, i0, j0);
                assert(before[midj as int] == before.skip(mid + j)[0]);
            }

            match compare(&left[i], &slice[midj]) {
                Comparison::Less => {
                    slice[ij] = left[i].clone();
                    i += 1;
                },
                Comparison::Equal => {
                    // insert the two elements one by one, since they are equal
                    let e = left[i].clone();

                    slice[ij] = e.clone();
                    slice[ij + 1] = e;

                    i += 1;
                    j += 1;
                },
                Comparison::Greater => {
                    slice[i + j] = slice[midj].clone();
                    j += 1;
                },
            }
            assert(slice@ == after_round(before, l, r, i0, j0));
        }
    }
}

} // verus!
