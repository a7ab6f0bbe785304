//! The ordering of the elements, as the algorithms see it.
//!
//! The algorithms compare elements through `Ord` and `PartialEq`. Their
//! contracts speak of three relations on the element type, [`lt`], [`eqv`] and
//! [`le`], and hold for every element type whose comparisons are [`lawful`]:
//! a total order in which `==`, `<` and `cmp` agree with each other.
//! Elements that compare equal need not be identical.
use vstd::prelude::*;
use core::cmp::Ordering;
use vstd::std_specs::cmp::OrdSpec;
use vstd::std_specs::cmp::PartialEqSpec;
use vstd::std_specs::cmp::PartialOrdSpec;

verus! {

/// The outcome of comparing a first element with a second one.
#[derive(Clone, Copy, Debug, PartialEq, Eq)]
pub enum Comparison {
    /// The first is strictly smaller.
    Less,
    /// Neither is smaller than the other.
    Equal,
    /// The first is strictly greater.
    Greater,
}

/// `a == b` as `PartialEq` answers it.
pub open spec fn same<T: PartialEq>(a: T, b: T) -> bool {
    a.eq_spec(&b)
}

/// The operator `==` of `T` is deterministic: it answers as [`same`] says.
pub open spec fn decides_equality<T: PartialEq>() -> bool {
    T::obeys_eq_spec()
}

/// The comparisons of `T` are deterministic, agree with each other and form a
/// total order.
pub open spec fn lawful<T: Ord>() -> bool {
    vstd::laws_cmp::obeys_cmp::<T>()
}

/// `a` is strictly smaller than `b`.
pub open spec fn lt<T: Ord>(a: T, b: T) -> bool {
    a.cmp_spec(&b) == Ordering::Less
}

/// `a` and `b` compare equal.
pub open spec fn eqv<T: Ord>(a: T, b: T) -> bool {
    a.cmp_spec(&b) == Ordering::Equal
}

/// `a` is not greater than `b`.
pub open spec fn le<T: Ord>(a: T, b: T) -> bool {
    a.cmp_spec(&b) != Ordering::Greater
}

/// What [`compare`] answers for `a` and `b`.
pub open spec fn comparison<T: Ord>(a: T, b: T) -> Comparison {
    if lt(a, b) {
        Comparison::Less
    } else if eqv(a, b) {
        Comparison::Equal
    } else {
        Comparison::Greater
    }
}

/// The operators `==`, `<`, `>` and the method `cmp` of `T` all answer as
/// [`lt`], [`eqv`] and [`le`] say.
pub open spec fn operators_agree<T: Ord>() -> bool {
    &&& T::obeys_eq_spec()
    &&& T::obeys_partial_cmp_spec()
    &&& T::obeys_cmp_spec()
    &&& decides_equality::<T>()
    &&& forall|a: T, b: T| #[trigger] a.eq_spec(&b) <==> eqv(a, b)
    &&& forall|a: T, b: T| #[trigger] same(a, b) <==> eqv(a, b)
    &&& forall|a: T, b: T| #[trigger] a.partial_cmp_spec(&b) == Some(a.cmp_spec(&b))
}

/// The operators of a lawful type agree with the order.
pub proof fn lemma_operators_agree<T: Ord>()
    requires
        lawful::<T>(),
    ensures
        operators_agree::<T>(),
{
    reveal(vstd::laws_cmp::obeys_cmp_partial_ord);
    reveal(vstd::laws_cmp::obeys_cmp_ord);
}

/// Swapping the arguments mirrors the outcome: `a < b` is `b > a`, and
/// comparing equal is symmetric.
pub proof fn lemma_flip<T: Ord>(a: T, b: T)
    requires
        lawful::<T>(),
    ensures
        lt(a, b) <==> !le(b, a),
        eqv(a, b) <==> eqv(b, a),
        le(a, b) <==> !lt(b, a),
        le(a, b) || le(b, a),
        eqv(a, b) <==> le(a, b) && le(b, a),
{
    lemma_operators_agree::<T>();
    reveal(vstd::laws_cmp::obeys_partial_cmp_spec_properties);
    reveal(vstd::laws_eq::obeys_eq_spec_properties);
    assert(a.partial_cmp_spec(&b) == Some(a.cmp_spec(&b)));
    assert(b.partial_cmp_spec(&a) == Some(b.cmp_spec(&a)));
    assert(a.eq_spec(&b) <==> b.eq_spec(&a));
}

/// Every element compares equal to itself.
pub proof fn lemma_reflexive<T: Ord>(a: T)
    requires
        lawful::<T>(),
    ensures
        eqv(a, a),
        le(a, a),
        !lt(a, a),
{
    lemma_flip(a, a);
}

/// The order is transitive, and a chain with one strict link is strict.
pub proof fn lemma_transitive<T: Ord>(a: T, b: T, c: T)
    requires
        lawful::<T>(),
        le(a, b),
        le(b, c),
    ensures
        le(a, c),
        lt(a, b) || lt(b, c) ==> lt(a, c),
        eqv(a, b) && eqv(b, c) ==> eqv(a, c),
{
    lemma_operators_agree::<T>();
    lemma_flip(a, b);
    lemma_flip(b, c);
    lemma_flip(a, c);
    lemma_flip(c, b);
    lemma_flip(b, a);
    reveal(vstd::laws_cmp::obeys_partial_cmp_spec_properties);
    reveal(vstd::laws_eq::obeys_eq_spec_properties);
    assert(a.partial_cmp_spec(&b) == Some(a.cmp_spec(&b)));
    assert(b.partial_cmp_spec(&c) == Some(b.cmp_spec(&c)));
    assert(a.partial_cmp_spec(&c) == Some(a.cmp_spec(&c)));
    assert(c.partial_cmp_spec(&a) == Some(c.cmp_spec(&a)));
    assert(c.partial_cmp_spec(&b) == Some(c.cmp_spec(&b)));
    assert(b.partial_cmp_spec(&a) == Some(b.cmp_spec(&a)));
    if eqv(a, b) && eqv(b, c) {
        assert(a.eq_spec(&b) && b.eq_spec(&c));
        assert(a.eq_spec(&c));
    } else if lt(a, b) && lt(b, c) {
        assert(lt(a, c));
    } else if lt(a, b) {
        // b and c compare equal: were c not above a, b would not be either
        assert(b.eq_spec(&c));
        if eqv(a, c) {
            assert(a.eq_spec(&c) && c.eq_spec(&b));
            assert(a.eq_spec(&b));
        } else if lt(c, a) {
            assert(c.partial_cmp_spec(&a) == Some(Ordering::Less));
            assert(a.partial_cmp_spec(&b) == Some(Ordering::Less));
            assert(c.partial_cmp_spec(&b) == Some(Ordering::Less));
        }
    } else {
        // a and b compare equal, b is strictly below c
        assert(a.eq_spec(&b));
        if eqv(a, c) {
            assert(b.eq_spec(&a) && a.eq_spec(&c));
            assert(b.eq_spec(&c));
        } else if lt(c, a) {
            assert(b.partial_cmp_spec(&c) == Some(Ordering::Less));
            assert(c.partial_cmp_spec(&a) == Some(Ordering::Less));
            assert(b.partial_cmp_spec(&a) == Some(Ordering::Less));
        }
    }
}

/// Every element of `s` is followed only by elements that are not smaller.
pub open spec fn sorted<T: Ord>(s: Seq<T>) -> bool {
    forall|i: int, j: int| #![trigger s[i], s[j]] 0 <= i < j < s.len() ==> le(s[i], s[j])
}

/// The element at `i` is not greater than its right neighbour.
pub open spec fn in_order_at<T: Ord>(s: Seq<T>, i: int) -> bool {
    le(s[i], s[i + 1])
}

/// Every two neighbours in `s` are in order.
pub open spec fn neighbours_in_order<T: Ord>(s: Seq<T>) -> bool {
    forall|i: int| 0 <= i && i + 1 < s.len() ==> #[trigger] in_order_at(s, i)
}

/// A sequence is sorted as soon as every two neighbours are in order.
pub proof fn lemma_sorted_by_neighbours<T: Ord>(s: Seq<T>)
    requires
        lawful::<T>(),
    ensures
        sorted(s) <==> neighbours_in_order(s),
{
    if sorted(s) {
        assert forall|i: int| 0 <= i && i + 1 < s.len() implies #[trigger] in_order_at(s, i) by {
            assert(le(s[i], s[i + 1]));
        }
    }
    if neighbours_in_order(s) {
        assert forall|i: int, j: int| 0 <= i < j < s.len() implies le(s[i], s[j]) by {
            lemma_climb(s, i, j);
        }
    }
}

/// Where neighbours are in order, so are elements any distance apart.
proof fn lemma_climb<T: Ord>(s: Seq<T>, i: int, j: int)
    requires
        lawful::<T>(),
        neighbours_in_order(s),
        0 <= i <= j < s.len(),
    ensures
        le(s[i], s[j]),
    decreases j - i,
{
    if i == j {
        lemma_reflexive(s[i]);
    } else {
        lemma_climb(s, i, j - 1);
        assert(in_order_at(s, j - 1));
        lemma_transitive(s[i], s[j - 1], s[j]);
    }
}

/// Compares `a` with `b` by one call of `Ord::cmp`.
pub fn compare<T: Ord>(a: &T, b: &T) -> (r: Comparison)
    requires
        lawful::<T>(),
    ensures
        r == comparison(*a, *b),
{
    proof {
        lemma_operators_agree::<T>();
    }
    match a.cmp(b) {
        Ordering::Less => Comparison::Less,
        Ordering::Equal => Comparison::Equal,
        Ordering::Greater => Comparison::Greater,
    }
}

} // verus!
