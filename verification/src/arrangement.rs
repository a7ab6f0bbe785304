//! Sequences as rearrangements of one another.
use vstd::prelude::*;
use vstd::seq_lib::to_multiset_build;
use vstd::seq_lib::to_multiset_contains;
use vstd::seq_lib::to_multiset_len;
use vstd::seq_lib::to_multiset_update;
use crate::order::eqv;
use crate::order::lawful;
use crate::order::le;
use crate::order::lemma_flip;
use crate::order::lemma_transitive;
use crate::order::sorted;

verus! {

/// `a` holds the same elements as `b`, each as often as `b` does.
pub open spec fn permutation<T>(a: Seq<T>, b: Seq<T>) -> bool {
    a.to_multiset() == b.to_multiset()
}

/// `s` with the elements at `i` and `j` exchanged.
pub open spec fn exchanged<T>(s: Seq<T>, i: int, j: int) -> Seq<T> {
    s.update(i, s[j]).update(j, s[i])
}

/// `after` is `before` sorted: a sorted rearrangement of it, and `before`
/// itself where that is sorted already.
pub open spec fn sorts<T: Ord>(before: Seq<T>, after: Seq<T>) -> bool {
    &&& after.len() == before.len()
    &&& sorted(after)
    &&& permutation(after, before)
    &&& sorted(before) ==> after == before
}

/// Elements of `s` that compare equal are identical: on `s` the order tells
/// any two different elements apart.
pub open spec fn antisymmetric_on<T: Ord>(s: Seq<T>) -> bool {
    forall|i: int, j: int|
        #![trigger s[i], s[j]]
        0 <= i < s.len() && 0 <= j < s.len() && eqv(s[i], s[j]) ==> s[i] == s[j]
}

/// The elements that compare equal to `k`.
pub open spec fn class_of<T: Ord>(k: T) -> spec_fn(T) -> bool {
    |x: T| eqv(x, k)
}

/// `b` keeps elements that compare equal in the order in which `a` has them:
/// for every `k`, the elements equal to `k` form the same sequence in both.
pub open spec fn stable<T: Ord>(a: Seq<T>, b: Seq<T>) -> bool {
    forall|k: T| #[trigger] b.filter(class_of(k)) == a.filter(class_of(k))
}

/// Exchanging two neighbours that do not both pass a filter does not change
/// what the filter lets through.
pub proof fn lemma_exchange_neighbours_filter<T>(s: Seq<T>, i: int, pred: spec_fn(T) -> bool)
    requires
        0 < i < s.len(),
        !(pred(s[i - 1]) && pred(s[i])),
    ensures
        exchanged(s, i - 1, i).filter(pred) == s.filter(pred),
{
    let front = s.take(i - 1);
    let back = s.skip(i + 1);
    let pair = seq![s[i - 1], s[i]];
    let riap = seq![s[i], s[i - 1]];
    assert(s == front + pair + back);
    assert(exchanged(s, i - 1, i) == front + riap + back);
    Seq::filter_distributes_over_add(front + pair, back, pred);
    Seq::filter_distributes_over_add(front + riap, back, pred);
    Seq::filter_distributes_over_add(front, pair, pred);
    Seq::filter_distributes_over_add(front, riap, pred);
    assert(pair.filter(pred) == riap.filter(pred)) by {
        reveal_with_fuel(Seq::filter, 3);
        assert(pair.drop_last() == seq![s[i - 1]]);
        assert(riap.drop_last() == seq![s[i]]);
        assert(seq![s[i - 1]].drop_last() == Seq::<T>::empty());
        assert(seq![s[i]].drop_last() == Seq::<T>::empty());
    }
}

/// Exchanging two neighbours that do not compare equal keeps the order among
/// elements that do.
pub proof fn lemma_exchange_neighbours_stable<T: Ord>(s: Seq<T>, i: int)
    requires
        lawful::<T>(),
        0 < i < s.len(),
        !eqv(s[i - 1], s[i]),
    ensures
        stable(s, exchanged(s, i - 1, i)),
{
    assert forall|k: T| #[trigger]
        exchanged(s, i - 1, i).filter(class_of(k)) == s.filter(class_of(k)) by {
        if eqv(s[i - 1], k) && eqv(s[i], k) {
            lemma_flip(s[i], k);
            lemma_transitive(s[i - 1], k, s[i]);
        }
        lemma_exchange_neighbours_filter(s, i, class_of(k));
    }
}

/// What an exchange leaves at each position.
pub proof fn lemma_exchanged_at<T>(s: Seq<T>, i: int, j: int)
    requires
        0 <= i < s.len(),
        0 <= j < s.len(),
    ensures
        exchanged(s, i, j).len() == s.len(),
        exchanged(s, i, j)[i] == s[j],
        exchanged(s, i, j)[j] == s[i],
        forall|k: int|
            0 <= k < s.len() && k != i && k != j ==> #[trigger] exchanged(s, i, j)[k] == s[k],
        i == j ==> exchanged(s, i, j) == s,
{
    let once = s.update(i, s[j]);
    let twice = once.update(j, s[i]);
    assert(once.len() == s.len());
    assert(once[i] == s[j]);
    assert(twice[j] == s[i]);
    if i != j {
        assert(twice[i] == once[i]);
    }
    assert forall|k: int| 0 <= k < s.len() && k != i && k != j implies #[trigger] exchanged(
        s,
        i,
        j,
    )[k] == s[k] by {
        assert(once[k] == s[k]);
        assert(twice[k] == once[k]);
    }
    if i == j {
        assert(twice =~= s);
    }
}

/// Exchanging two elements rearranges a sequence.
pub proof fn lemma_exchange_permutes<T>(s: Seq<T>, i: int, j: int)
    requires
        0 <= i < s.len(),
        0 <= j < s.len(),
    ensures
        permutation(exchanged(s, i, j), s),
        exchanged(s, i, j).len() == s.len(),
{
    broadcast use vstd::multiset::group_multiset_axioms;

    let once = s.update(i, s[j]);
    to_multiset_update(s, i, s[j]);
    to_multiset_update(once, j, s[i]);
    s.to_multiset_ensures();
    assert(s.contains(s[i]));
    assert(s.contains(s[j]));
    assert(exchanged(s, i, j).to_multiset() =~= s.to_multiset());
}

/// A rearrangement holds exactly the elements of the sequence it rearranges.
pub proof fn lemma_permutation_contains<T>(a: Seq<T>, b: Seq<T>)
    requires
        permutation(a, b),
    ensures
        a.len() == b.len(),
        forall|x: T| a.contains(x) <==> b.contains(x),
{
    to_multiset_len(a);
    to_multiset_len(b);
    assert forall|x: T| a.contains(x) <==> b.contains(x) by {
        to_multiset_contains(a, x);
        to_multiset_contains(b, x);
    }
}

/// Where the order tells the elements of a sequence apart, it does so in
/// every rearrangement of it.
pub proof fn lemma_permutation_antisymmetric<T: Ord>(a: Seq<T>, b: Seq<T>)
    requires
        permutation(a, b),
        antisymmetric_on(b),
    ensures
        antisymmetric_on(a),
{
    lemma_permutation_contains(a, b);
    assert forall|i: int, j: int|
        0 <= i < a.len() && 0 <= j < a.len() && eqv(a[i], a[j]) implies a[i] == a[j] by {
        assert(a.contains(a[i]));
        assert(a.contains(a[j]));
        let x = choose|x: int| 0 <= x < b.len() && b[x] == a[i];
        let y = choose|y: int| 0 <= y < b.len() && b[y] == a[j];
        assert(eqv(b[x], b[y]));
    }
}

/// A sequence has at most one sorted rearrangement, if the order tells its
/// elements apart.
pub proof fn lemma_sorted_unique<T: Ord>(a: Seq<T>, b: Seq<T>)
    requires
        lawful::<T>(),
        sorted(a),
        sorted(b),
        permutation(a, b),
        antisymmetric_on(a),
    ensures
        a == b,
    decreases a.len(),
{
    broadcast use vstd::multiset::group_multiset_axioms;

    lemma_permutation_contains(a, b);
    if a.len() > 0 {
        let x = a.last();
        let y = b.last();
        assert(a.contains(x));
        assert(b.contains(y));
        // each last element occurs in the other sequence, below its last
        let i = choose|i: int| 0 <= i < a.len() && a[i] == y;
        let j = choose|j: int| 0 <= j < b.len() && b[j] == x;
        assert(le(a[i], x)) by {
            if i == a.len() - 1 {
                lemma_flip(x, x);
            }
        }
        assert(le(b[j], y)) by {
            if j == b.len() - 1 {
                lemma_flip(y, y);
            }
        }
        lemma_flip(x, y);
        assert(eqv(a[a.len() - 1], a[i]));
        assert(x == y);

        let a0 = a.drop_last();
        let b0 = b.drop_last();
        assert(a == a0.push(x));
        assert(b == b0.push(y));
        to_multiset_build(a0, x);
        to_multiset_build(b0, y);
        assert(a0.to_multiset() =~= a.to_multiset().remove(x));
        assert(b0.to_multiset() =~= b.to_multiset().remove(y));
        assert(sorted(a0)) by {
            assert forall|p: int, q: int| 0 <= p < q < a0.len() implies le(a0[p], a0[q]) by {
                assert(le(a[p], a[q]));
            }
        }
        assert(sorted(b0)) by {
            assert forall|p: int, q: int| 0 <= p < q < b0.len() implies le(b0[p], b0[q]) by {
                assert(le(b[p], b[q]));
            }
        }
        assert(antisymmetric_on(a0)) by {
            assert forall|p: int, q: int|
                0 <= p < a0.len() && 0 <= q < a0.len() && eqv(a0[p], a0[q]) implies a0[p]
                == a0[q] by {
                assert(eqv(a[p], a[q]));
            }
        }
        lemma_sorted_unique(a0, b0);
    }
}

/// Two sorted sequences of one length that have the elements of every class
/// in the same order are one and the same.
pub proof fn lemma_stable_sorted_unique<T: Ord>(a: Seq<T>, b: Seq<T>)
    requires
        lawful::<T>(),
        sorted(a),
        sorted(b),
        a.len() == b.len(),
        stable(a, b),
    ensures
        a == b,
    decreases a.len(),
{
    reveal(Seq::filter);
    if a.len() > 0 {
        let x = a.last();
        let y = b.last();
        let a0 = a.drop_last();
        let b0 = b.drop_last();
        lemma_flip(x, x);
        lemma_flip(y, y);
        lemma_flip(x, y);
        // the class of each last element is not empty in the other sequence,
        // so it has an element there, which is not above the last one
        assert(a.filter(class_of(x)) == a0.filter(class_of(x)).push(x));
        assert(b.filter(class_of(y)) == b0.filter(class_of(y)).push(y));
        assert(b.filter(class_of(x)) == a.filter(class_of(x)));
        assert(b.filter(class_of(y)) == a.filter(class_of(y)));
        assert(le(x, y)) by {
            let held = b.filter(class_of(x));
            assert(held.len() > 0);
            b.lemma_filter_pred(class_of(x), 0);
            b.lemma_filter_contains_rev(class_of(x), held[0]);
            assert(b.contains(held[0]));
            let i = choose|i: int| 0 <= i < b.len() && b[i] == held[0];
            if i < b.len() - 1 {
                assert(le(b[i], b[b.len() - 1]));
            }
            lemma_flip(held[0], x);
            lemma_transitive(x, held[0], y);
        }
        assert(le(y, x)) by {
            let held = a.filter(class_of(y));
            assert(held.len() > 0);
            a.lemma_filter_pred(class_of(y), 0);
            a.lemma_filter_contains_rev(class_of(y), held[0]);
            assert(a.contains(held[0]));
            let i = choose|i: int| 0 <= i < a.len() && a[i] == held[0];
            if i < a.len() - 1 {
                assert(le(a[i], a[a.len() - 1]));
            }
            lemma_flip(held[0], y);
            lemma_transitive(y, held[0], x);
        }
        // both are the last of their class, which is one sequence
        assert(b.filter(class_of(x)) == b0.filter(class_of(x)).push(y));
        assert(x == y) by {
            let held = a.filter(class_of(x));
            assert(held.last() == x);
            assert(held.last() == y);
        }
        assert(sorted(a0)) by {
            assert forall|p: int, q: int| 0 <= p < q < a0.len() implies le(a0[p], a0[q]) by {
                assert(le(a[p], a[q]));
            }
        }
        assert(sorted(b0)) by {
            assert forall|p: int, q: int| 0 <= p < q < b0.len() implies le(b0[p], b0[q]) by {
                assert(le(b[p], b[q]));
            }
        }
        assert(stable(a0, b0)) by {
            assert forall|k: T| #[trigger] b0.filter(class_of(k)) == a0.filter(class_of(k)) by {
                assert(b.filter(class_of(k)) == a.filter(class_of(k)));
                if eqv(x, k) {
                    assert(a.filter(class_of(k)) == a0.filter(class_of(k)).push(x));
                    assert(b.filter(class_of(k)) == b0.filter(class_of(k)).push(x));
                    assert(a0.filter(class_of(k)) == a.filter(class_of(k)).drop_last());
                    assert(b0.filter(class_of(k)) == b.filter(class_of(k)).drop_last());
                } else {
                    assert(a.filter(class_of(k)) == a0.filter(class_of(k)));
                    assert(b.filter(class_of(k)) == b0.filter(class_of(k)));
                }
            }
        }
        lemma_stable_sorted_unique(a0, b0);
        assert(a == a0.push(x));
        assert(b == b0.push(y));
    }
}

/// A sequence has one stable sorted rearrangement only: two ways of sorting
/// it that both keep elements that compare equal in their order agree.
pub proof fn lemma_stable_sorts_agree<T: Ord>(s: Seq<T>, a: Seq<T>, b: Seq<T>)
    requires
        lawful::<T>(),
        sorts(s, a),
        stable(s, a),
        sorts(s, b),
        stable(s, b),
    ensures
        a == b,
{
    assert(stable(a, b)) by {
        assert forall|k: T| #[trigger] b.filter(class_of(k)) == a.filter(class_of(k)) by {
            assert(a.filter(class_of(k)) == s.filter(class_of(k)));
            assert(b.filter(class_of(k)) == s.filter(class_of(k)));
        }
    }
    lemma_stable_sorted_unique(a, b);
}

/// Sorting is idempotent: sorting what has been sorted changes nothing.
pub proof fn lemma_sorting_again_changes_nothing<T: Ord>(s: Seq<T>, once: Seq<T>, twice: Seq<T>)
    requires
        sorts(s, once),
        sorts(once, twice),
    ensures
        twice == once,
{
}

/// Two ways of sorting a sequence agree on it, if the order tells its
/// elements apart.
pub proof fn lemma_sorts_agree<T: Ord>(s: Seq<T>, a: Seq<T>, b: Seq<T>)
    requires
        lawful::<T>(),
        antisymmetric_on(s),
        sorts(s, a),
        sorts(s, b),
    ensures
        a == b,
{
    lemma_permutation_antisymmetric(a, s);
    lemma_sorted_unique(a, b);
}

/// Where everything that passes a filter is one and the same element, the
/// filter lets through as many copies of it as the sequence holds.
pub proof fn lemma_filter_of_one_element<T>(s: Seq<T>, pred: spec_fn(T) -> bool, c: T)
    requires
        pred(c),
        forall|i: int| 0 <= i < s.len() && pred(#[trigger] s[i]) ==> s[i] == c,
    ensures
        s.filter(pred).len() == s.to_multiset().count(c),
        forall|i: int| 0 <= i < s.filter(pred).len() ==> #[trigger] s.filter(pred)[i] == c,
    decreases s.len(),
{
    broadcast use vstd::multiset::group_multiset_axioms;

    reveal(Seq::filter);
    if s.len() == 0 {
        to_multiset_len(s);
        assert(s.to_multiset() =~= vstd::multiset::Multiset::<T>::empty());
    } else {
        let front = s.drop_last();
        assert forall|i: int| 0 <= i < front.len() && pred(#[trigger] front[i]) implies front[i]
            == c by {
            assert(front[i] == s[i]);
        }
        lemma_filter_of_one_element(front, pred, c);
        assert(s == front.push(s.last()));
        to_multiset_build(front, s.last());
    }
}

/// A rearrangement of a sequence whose elements the order tells apart keeps
/// elements that compare equal in their order: they are identical.
pub proof fn lemma_permutation_is_stable<T: Ord>(a: Seq<T>, b: Seq<T>)
    requires
        lawful::<T>(),
        permutation(b, a),
        antisymmetric_on(a),
    ensures
        stable(a, b),
{
    lemma_permutation_antisymmetric(b, a);
    assert forall|k: T| #[trigger] b.filter(class_of(k)) == a.filter(class_of(k)) by {
        let pred = class_of(k);
        lemma_flip(k, k);
        let c = if exists|i: int| 0 <= i < a.len() && pred(a[i]) {
            let i = choose|i: int| 0 <= i < a.len() && pred(a[i]);
            a[i]
        } else {
            k
        };
        lemma_flip(c, k);
        lemma_permutation_contains(b, a);
        assert forall|i: int| 0 <= i < a.len() && pred(#[trigger] a[i]) implies a[i] == c by {
            let j = choose|j: int| 0 <= j < a.len() && pred(a[j]);
            lemma_transitive(a[i], k, a[j]);
            assert(eqv(a[i], a[j]));
        }
        assert forall|i: int| 0 <= i < b.len() && pred(#[trigger] b[i]) implies b[i] == c by {
            assert(b.contains(b[i]));
            let x = choose|x: int| 0 <= x < a.len() && a[x] == b[i];
            assert(pred(a[x]));
        }
        lemma_filter_of_one_element(a, pred, c);
        lemma_filter_of_one_element(b, pred, c);
        assert(b.filter(pred) =~= a.filter(pred));
    }
}

} // verus!
