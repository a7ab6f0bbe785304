//! What merge sort computes, as a function on sequences.
use vstd::prelude::*;
use vstd::seq_lib::lemma_multiset_commutative;
use crate::arrangement::antisymmetric_on;
use crate::arrangement::lemma_permutation_antisymmetric;
use crate::arrangement::lemma_permutation_contains;
use crate::arrangement::lemma_sorted_unique;
use crate::arrangement::permutation;
use crate::order::eqv;
use crate::order::lawful;
use crate::order::le;
use crate::order::lemma_flip;
use crate::order::lemma_transitive;
use crate::order::lt;
use crate::order::sorted;

verus! {

/// Two sorted runs merged into one: the smaller head goes first; where the
/// heads compare equal, the left head is written twice and both runs advance.
pub open spec fn merged<T: Ord>(l: Seq<T>, r: Seq<T>) -> Seq<T>
    decreases l.len() + r.len(),
{
    if l.len() == 0 {
        r
    } else if r.len() == 0 {
        l
    } else if lt(l[0], r[0]) {
        seq![l[0]] + merged(l.skip(1), r)
    } else if eqv(l[0], r[0]) {
        seq![l[0], l[0]] + merged(l.skip(1), r.skip(1))
    } else {
        seq![r[0]] + merged(l, r.skip(1))
    }
}

/// The result of merge sort: both halves sorted by merge sort, then merged.
/// The left half is the shorter one where the length is odd.
pub open spec fn merge_sorted<T: Ord>(s: Seq<T>) -> Seq<T>
    decreases s.len(),
{
    if s.len() <= 1 {
        s
    } else {
        let mid = (s.len() / 2) as int;
        merged(merge_sorted(s.take(mid)), merge_sorted(s.skip(mid)))
    }
}

/// Merging neither adds nor drops a position.
pub proof fn lemma_merged_len<T: Ord>(l: Seq<T>, r: Seq<T>)
    ensures
        merged(l, r).len() == l.len() + r.len(),
    decreases l.len() + r.len(),
{
    if l.len() == 0 || r.len() == 0 {
    } else if lt(l[0], r[0]) {
        lemma_merged_len(l.skip(1), r);
    } else if eqv(l[0], r[0]) {
        lemma_merged_len(l.skip(1), r.skip(1));
    } else {
        lemma_merged_len(l, r.skip(1));
    }
}

/// Merge sort keeps the length.
pub proof fn lemma_merge_sorted_len<T: Ord>(s: Seq<T>)
    ensures
        merge_sorted(s).len() == s.len(),
    decreases s.len(),
{
    if s.len() > 1 {
        let mid = (s.len() / 2) as int;
        lemma_merge_sorted_len(s.take(mid));
        lemma_merge_sorted_len(s.skip(mid));
        lemma_merged_len(merge_sorted(s.take(mid)), merge_sorted(s.skip(mid)));
    }
}

/// One step of merging, seen from positions `i` and `j` of the two runs.
pub proof fn lemma_merged_step<T: Ord>(l: Seq<T>, r: Seq<T>, i: int, j: int)
    requires
        0 <= i <= l.len(),
        0 <= j <= r.len(),
    ensures
        i == l.len() ==> merged(l.skip(i), r.skip(j)) == r.skip(j),
        i < l.len() && j == r.len() ==> merged(l.skip(i), r.skip(j)) == l.skip(i),
        i < l.len() && j < r.len() ==> merged(l.skip(i), r.skip(j)) == if lt(l[i], r[j]) {
            seq![l[i]] + merged(l.skip(i + 1), r.skip(j))
        } else if eqv(l[i], r[j]) {
            seq![l[i], l[i]] + merged(l.skip(i + 1), r.skip(j + 1))
        } else {
            seq![r[j]] + merged(l.skip(i), r.skip(j + 1))
        },
{
    if i < l.len() {
        assert(l.skip(i).skip(1) == l.skip(i + 1));
    }
    if j < r.len() {
        assert(r.skip(j).skip(1) == r.skip(j + 1));
    }
}

/// The buffer after one round of merging in place, seen from positions `i`
/// and `j` of the two runs: the round writes to position `i + j`, and to the
/// next one too where the heads compare equal.
pub open spec fn after_round<T: Ord>(buffer: Seq<T>, l: Seq<T>, r: Seq<T>, i: int, j: int) -> Seq<T> {
    if lt(l[i], r[j]) {
        buffer.update(i + j, l[i])
    } else if eqv(l[i], r[j]) {
        buffer.update(i + j, l[i]).update(i + j + 1, l[i])
    } else {
        buffer.update(i + j, r[j])
    }
}

/// One round of merging in place extends the merged front of the buffer and
/// leaves the rest of the right run, which the buffer holds at its end, as it
/// was.
pub proof fn lemma_round_in_place<T: Ord>(buffer: Seq<T>, l: Seq<T>, r: Seq<T>, i: int, j: int)
    requires
        0 <= i < l.len(),
        0 <= j < r.len(),
        buffer.len() == l.len() + r.len(),
        buffer.skip(l.len() + j) == r.skip(j),
        merged(l, r) == buffer.take(i + j) + merged(l.skip(i), r.skip(j)),
    ensures
        ({
            let after = after_round(buffer, l, r, i, j);
            let i2 = if lt(l[i], r[j]) || eqv(l[i], r[j]) { i + 1 } else { i };
            let j2 = if lt(l[i], r[j]) { j } else { j + 1 };
            &&& after.len() == buffer.len()
            &&& after.skip(l.len() + j2) == r.skip(j2)
            &&& merged(l, r) == after.take(i2 + j2) + merged(l.skip(i2), r.skip(j2))
        }),
{
    lemma_merged_step(l, r, i, j);
    let after = after_round(buffer, l, r, i, j);
    let front = buffer.take(i + j);
    if lt(l[i], r[j]) {
        assert(after.take(i + j + 1) == front + seq![l[i]]);
        assert(after.skip(l.len() + j) == buffer.skip(l.len() + j));
        assert(front + (seq![l[i]] + merged(l.skip(i + 1), r.skip(j))) == (front + seq![l[i]])
            + merged(l.skip(i + 1), r.skip(j)));
    } else if eqv(l[i], r[j]) {
        assert(after.take(i + j + 2) == front + seq![l[i], l[i]]);
        assert(after.skip(l.len() + j + 1) == buffer.skip(l.len() + j).skip(1));
        assert(r.skip(j + 1) == r.skip(j).skip(1));
        assert(front + (seq![l[i], l[i]] + merged(l.skip(i + 1), r.skip(j + 1))) == (front
            + seq![l[i], l[i]]) + merged(l.skip(i + 1), r.skip(j + 1)));
    } else {
        assert(after.take(i + j + 1) == front + seq![r[j]]);
        assert(after.skip(l.len() + j + 1) == buffer.skip(l.len() + j).skip(1));
        assert(r.skip(j + 1) == r.skip(j).skip(1));
        assert(front + (seq![r[j]] + merged(l.skip(i), r.skip(j + 1))) == (front + seq![r[j]])
            + merged(l.skip(i), r.skip(j + 1)));
    }
}

/// No element of `s` is smaller than `b`.
pub open spec fn bounded_below<T: Ord>(b: T, s: Seq<T>) -> bool {
    forall|i: int| 0 <= i < s.len() ==> le(b, #[trigger] s[i])
}

/// An element of the left run and one of the right run that compare equal are
/// identical.
pub open spec fn agree_when_equal<T: Ord>(l: Seq<T>, r: Seq<T>) -> bool {
    forall|i: int, j: int|
        #![trigger l[i], r[j]]
        0 <= i < l.len() && 0 <= j < r.len() && eqv(l[i], r[j]) ==> l[i] == r[j]
}

/// What bounds both runs from below bounds their merge.
pub proof fn lemma_merged_bounded<T: Ord>(b: T, l: Seq<T>, r: Seq<T>)
    requires
        bounded_below(b, l),
        bounded_below(b, r),
    ensures
        bounded_below(b, merged(l, r)),
    decreases l.len() + r.len(),
{
    let m = merged(l, r);
    if l.len() == 0 || r.len() == 0 {
    } else if lt(l[0], r[0]) {
        let rest = merged(l.skip(1), r);
        assert(bounded_below(b, l.skip(1))) by {
            assert forall|i: int| 0 <= i < l.skip(1).len() implies le(b, #[trigger] l.skip(1)[i]) by {
                assert(l.skip(1)[i] == l[i + 1]);
            }
        }
        lemma_merged_bounded(b, l.skip(1), r);
        assert forall|i: int| 0 <= i < m.len() implies le(b, #[trigger] m[i]) by {
            if i == 0 {
                assert(m[0] == l[0]);
            } else {
                assert(m[i] == rest[i - 1]);
            }
        }
    } else if eqv(l[0], r[0]) {
        let rest = merged(l.skip(1), r.skip(1));
        assert(bounded_below(b, l.skip(1))) by {
            assert forall|i: int| 0 <= i < l.skip(1).len() implies le(b, #[trigger] l.skip(1)[i]) by {
                assert(l.skip(1)[i] == l[i + 1]);
            }
        }
        assert(bounded_below(b, r.skip(1))) by {
            assert forall|i: int| 0 <= i < r.skip(1).len() implies le(b, #[trigger] r.skip(1)[i]) by {
                assert(r.skip(1)[i] == r[i + 1]);
            }
        }
        lemma_merged_bounded(b, l.skip(1), r.skip(1));
        assert forall|i: int| 0 <= i < m.len() implies le(b, #[trigger] m[i]) by {
            if i < 2 {
                assert(m[i] == l[0]);
            } else {
                assert(m[i] == rest[i - 2]);
            }
        }
    } else {
        let rest = merged(l, r.skip(1));
        assert(bounded_below(b, r.skip(1))) by {
            assert forall|i: int| 0 <= i < r.skip(1).len() implies le(b, #[trigger] r.skip(1)[i]) by {
                assert(r.skip(1)[i] == r[i + 1]);
            }
        }
        lemma_merged_bounded(b, l, r.skip(1));
        assert forall|i: int| 0 <= i < m.len() implies le(b, #[trigger] m[i]) by {
            if i == 0 {
                assert(m[0] == r[0]);
            } else {
                assert(m[i] == rest[i - 1]);
            }
        }
    }
}

/// The head of a sorted run, or anything not above it, bounds the run.
proof fn lemma_head_bounds<T: Ord>(b: T, s: Seq<T>)
    requires
        lawful::<T>(),
        sorted(s),
        s.len() > 0,
        le(b, s[0]),
    ensures
        bounded_below(b, s),
        bounded_below(b, s.skip(1)),
        sorted(s.skip(1)),
{
    assert forall|i: int| 0 <= i < s.len() implies le(b, #[trigger] s[i]) by {
        if i > 0 {
            assert(le(s[0], s[i]));
            lemma_transitive(b, s[0], s[i]);
        }
    }
    assert forall|i: int| 0 <= i < s.skip(1).len() implies le(b, #[trigger] s.skip(1)[i]) by {
        assert(s.skip(1)[i] == s[i + 1]);
    }
    assert forall|i: int, j: int| 0 <= i < j < s.skip(1).len() implies le(
        s.skip(1)[i],
        s.skip(1)[j],
    ) by {
        assert(le(s[i + 1], s[j + 1]));
    }
}

/// A sequence that starts with one or two copies of a lower bound of its
/// sorted remainder is sorted.
proof fn lemma_sorted_after_heads<T: Ord>(heads: Seq<T>, b: T, rest: Seq<T>)
    requires
        lawful::<T>(),
        sorted(rest),
        bounded_below(b, rest),
        forall|i: int| 0 <= i < heads.len() ==> heads[i] == b,
    ensures
        sorted(heads + rest),
{
    let s = heads + rest;
    assert forall|i: int, j: int| 0 <= i < j < s.len() implies le(s[i], s[j]) by {
        if j < heads.len() {
            lemma_flip(b, b);
        } else if i < heads.len() {
            assert(s[j] == rest[j - heads.len()]);
        } else {
            assert(le(rest[i - heads.len()], rest[j - heads.len()]));
        }
    }
}

/// Merging two sorted runs gives a sorted sequence.
pub proof fn lemma_merged_sorted<T: Ord>(l: Seq<T>, r: Seq<T>)
    requires
        lawful::<T>(),
        sorted(l),
        sorted(r),
    ensures
        sorted(merged(l, r)),
    decreases l.len() + r.len(),
{
    if l.len() == 0 || r.len() == 0 {
    } else if lt(l[0], r[0]) {
        lemma_flip(l[0], l[0]);
        lemma_head_bounds(l[0], l);
        lemma_head_bounds(l[0], r);
        lemma_merged_sorted(l.skip(1), r);
        lemma_merged_bounded(l[0], l.skip(1), r);
        lemma_sorted_after_heads(seq![l[0]], l[0], merged(l.skip(1), r));
    } else if eqv(l[0], r[0]) {
        lemma_flip(l[0], l[0]);
        lemma_head_bounds(l[0], l);
        lemma_head_bounds(l[0], r);
        lemma_merged_sorted(l.skip(1), r.skip(1));
        lemma_merged_bounded(l[0], l.skip(1), r.skip(1));
        lemma_sorted_after_heads(seq![l[0], l[0]], l[0], merged(l.skip(1), r.skip(1)));
    } else {
        lemma_flip(r[0], r[0]);
        lemma_flip(l[0], r[0]);
        lemma_head_bounds(r[0], l);
        lemma_head_bounds(r[0], r);
        lemma_merged_sorted(l, r.skip(1));
        lemma_merged_bounded(r[0], l, r.skip(1));
        lemma_sorted_after_heads(seq![r[0]], r[0], merged(l, r.skip(1)));
    }
}

/// Merging rearranges the two runs, provided that elements of different runs
/// that compare equal are identical.
pub proof fn lemma_merged_permutes<T: Ord>(l: Seq<T>, r: Seq<T>)
    requires
        agree_when_equal(l, r),
    ensures
        permutation(merged(l, r), l + r),
    decreases l.len() + r.len(),
{
    broadcast use vstd::multiset::group_multiset_axioms;

    if l.len() == 0 {
        assert(l + r == r);
    } else if r.len() == 0 {
        assert(l + r == l);
    } else {
        let l1 = l.skip(1);
        let r1 = r.skip(1);
        assert(l == seq![l[0]] + l1);
        assert(r == seq![r[0]] + r1);
        lemma_multiset_commutative(l, r);
        lemma_multiset_commutative(seq![l[0]], l1);
        lemma_multiset_commutative(seq![r[0]], r1);
        if lt(l[0], r[0]) {
            assert(agree_when_equal(l1, r)) by {
                assert forall|i: int, j: int|
                    0 <= i < l1.len() && 0 <= j < r.len() && eqv(l1[i], r[j]) implies l1[i]
                    == r[j] by {
                    assert(l1[i] == l[i + 1]);
                }
            }
            lemma_merged_permutes(l1, r);
            lemma_multiset_commutative(seq![l[0]], merged(l1, r));
            lemma_multiset_commutative(l1, r);
            assert(merged(l, r).to_multiset() =~= (l + r).to_multiset());
        } else if eqv(l[0], r[0]) {
            assert(l[0] == r[0]);
            assert(agree_when_equal(l1, r1)) by {
                assert forall|i: int, j: int|
                    0 <= i < l1.len() && 0 <= j < r1.len() && eqv(l1[i], r1[j]) implies l1[i]
                    == r1[j] by {
                    assert(l1[i] == l[i + 1]);
                    assert(r1[j] == r[j + 1]);
                }
            }
            lemma_merged_permutes(l1, r1);
            assert(seq![l[0], l[0]] == seq![l[0]] + seq![r[0]]);
            lemma_multiset_commutative(seq![l[0]], seq![r[0]]);
            lemma_multiset_commutative(seq![l[0], l[0]], merged(l1, r1));
            lemma_multiset_commutative(l1, r1);
            assert(merged(l, r).to_multiset() =~= (l + r).to_multiset());
        } else {
            assert(agree_when_equal(l, r1)) by {
                assert forall|i: int, j: int|
                    0 <= i < l.len() && 0 <= j < r1.len() && eqv(l[i], r1[j]) implies l[i]
                    == r1[j] by {
                    assert(r1[j] == r[j + 1]);
                }
            }
            lemma_merged_permutes(l, r1);
            lemma_multiset_commutative(seq![r[0]], merged(l, r1));
            lemma_multiset_commutative(l, r1);
            assert(merged(l, r).to_multiset() =~= (l + r).to_multiset());
        }
    }
}

/// Merge sort gives a sorted sequence.
pub proof fn lemma_merge_sorted_is_sorted<T: Ord>(s: Seq<T>)
    requires
        lawful::<T>(),
    ensures
        sorted(merge_sorted(s)),
    decreases s.len(),
{
    if s.len() > 1 {
        let mid = (s.len() / 2) as int;
        lemma_merge_sorted_is_sorted(s.take(mid));
        lemma_merge_sorted_is_sorted(s.skip(mid));
        lemma_merged_sorted(merge_sorted(s.take(mid)), merge_sorted(s.skip(mid)));
    }
}

/// Merge sort rearranges a sequence whose elements the order tells apart.
pub proof fn lemma_merge_sorted_permutes<T: Ord>(s: Seq<T>)
    requires
        antisymmetric_on(s),
    ensures
        permutation(merge_sorted(s), s),
    decreases s.len(),
{
    if s.len() > 1 {
        let mid = (s.len() / 2) as int;
        let a = s.take(mid);
        let b = s.skip(mid);
        let a1 = merge_sorted(a);
        let b1 = merge_sorted(b);
        assert(antisymmetric_on(a)) by {
            assert forall|i: int, j: int|
                0 <= i < a.len() && 0 <= j < a.len() && eqv(a[i], a[j]) implies a[i] == a[j] by {
                assert(eqv(s[i], s[j]));
            }
        }
        assert(antisymmetric_on(b)) by {
            assert forall|i: int, j: int|
                0 <= i < b.len() && 0 <= j < b.len() && eqv(b[i], b[j]) implies b[i] == b[j] by {
                assert(eqv(s[i + mid], s[j + mid]));
            }
        }
        lemma_merge_sorted_permutes(a);
        lemma_merge_sorted_permutes(b);
        lemma_permutation_contains(a1, a);
        lemma_permutation_contains(b1, b);
        assert(agree_when_equal(a1, b1)) by {
            assert forall|i: int, j: int|
                0 <= i < a1.len() && 0 <= j < b1.len() && eqv(a1[i], b1[j]) implies a1[i]
                == b1[j] by {
                assert(a1.contains(a1[i]));
                assert(b1.contains(b1[j]));
                let x = choose|x: int| 0 <= x < a.len() && a[x] == a1[i];
                let y = choose|y: int| 0 <= y < b.len() && b[y] == b1[j];
                assert(eqv(s[x], s[y + mid]));
            }
        }
        lemma_merged_permutes(a1, b1);
        lemma_multiset_commutative(a1, b1);
        lemma_multiset_commutative(a, b);
        assert(s == a + b);
    }
}

/// Merge sort leaves a sorted sequence as it is, if the order tells its
/// elements apart.
pub proof fn lemma_merge_sorted_keeps_sorted<T: Ord>(s: Seq<T>)
    requires
        lawful::<T>(),
        antisymmetric_on(s),
        sorted(s),
    ensures
        merge_sorted(s) == s,
{
    lemma_merge_sorted_is_sorted(s);
    lemma_merge_sorted_permutes(s);
    lemma_sorted_unique(s, merge_sorted(s));
}

/// Merge sort is idempotent on every sequence whose elements the order tells
/// apart: sorting the result again changes nothing.
pub proof fn lemma_merge_sorted_idempotent<T: Ord>(s: Seq<T>)
    requires
        lawful::<T>(),
        antisymmetric_on(s),
    ensures
        merge_sorted(merge_sorted(s)) == merge_sorted(s),
{
    lemma_merge_sorted_is_sorted(s);
    lemma_merge_sorted_permutes(s);
    lemma_permutation_antisymmetric(merge_sorted(s), s);
    lemma_merge_sorted_keeps_sorted(merge_sorted(s));
}

} // verus!
