//! Implementations of searching algorithms.
use vstd::prelude::*;
use crate::order::compare;
use crate::order::Comparison;
use crate::order::decides_equality;
use crate::order::eqv;
use crate::order::lawful;
use crate::order::le;
use crate::order::lemma_flip;
use crate::order::lemma_operators_agree;
use crate::order::lemma_reflexive;
use crate::order::lemma_transitive;
use crate::order::lt;
use crate::order::same;
use crate::order::sorted;

verus! {

/// `r` is the position of the first element of `s` in `from..to` that equals
/// `v`, or `None` where there is no such element.
pub open spec fn is_first_in<T: PartialEq>(
    s: Seq<T>,
    v: T,
    from: int,
    to: int,
    r: Option<usize>,
) -> bool {
    match r {
        Some(i) => {
            &&& from <= i < to
            &&& same(v, s[i as int])
            &&& forall|k: int| from <= k < i ==> !same(v, #[trigger] s[k])
        },
        None => forall|k: int| from <= k < to ==> !same(v, #[trigger] s[k]),
    }
}

/// The first element that equals `v` is in one place only.
pub proof fn lemma_first_is_unique<T: PartialEq>(
    s: Seq<T>,
    v: T,
    from: int,
    to: int,
    a: Option<usize>,
    b: Option<usize>,
)
    requires
        is_first_in(s, v, from, to, a),
        is_first_in(s, v, from, to, b),
    ensures
        a == b,
{
}

/// An implementation of linear search.
///
/// Looks for the value in the slice by iterating over it. Returns the position
/// of its first equal element, or [`None`] if not found.
pub fn linear<T: PartialEq>(slice: &[T], value: &T) -> (r: Option<usize>)
    requires
        decides_equality::<T>(),
    ensures
        is_first_in(slice@, *value, 0, slice@.len() as int, r),
        r is Some <==> present(slice@, *value),
{
    let mut i: usize = 0;
    while i < slice.len()
        invariant
            decides_equality::<T>(),
            i <= slice.len(),
            forall|k: int| 0 <= k < i ==> !same(*value, #[trigger] slice@[k]),
        decreases slice.len() - i,
    {
        if *value == slice[i] {
            return Some(i);
        }
        i += 1;
    }
    None
}

/// The position that `r` holds, as a mathematical integer.
pub open spec fn position(r: Option<usize>) -> Option<int> {
    match r {
        Some(i) => Some(i as int),
        None => None,
    }
}

/// `r`, where it is a position, is that of an element of `s` that compares
/// equal to `v`.
pub open spec fn hit<T: Ord>(s: Seq<T>, v: T, r: Option<usize>) -> bool {
    r matches Some(i) ==> i < s.len() && eqv(v, s[i as int])
}

/// Some element of `s` equals `v`.
pub open spec fn present<T: PartialEq>(s: Seq<T>, v: T) -> bool {
    exists|k: int| 0 <= k < s.len() && same(v, #[trigger] s[k])
}

/// The position that halving the sequence arrives at: the middle element
/// where it equals `v`, else what the half before it gives where `v` is
/// smaller, and what the half after it gives where `v` is greater.
pub open spec fn bisect<T: Ord>(s: Seq<T>, v: T) -> Option<int>
    decreases s.len(),
{
    if s.len() == 0 {
        None
    } else {
        let mid = (s.len() / 2) as int;
        if lt(v, s[mid]) {
            bisect(s.take(mid), v)
        } else if eqv(v, s[mid]) {
            Some(mid)
        } else {
            match bisect(s.skip(mid + 1), v) {
                Some(x) => Some(x + mid + 1),
                None => None,
            }
        }
    }
}

/// Halving arrives only at an element that equals `v`.
pub proof fn lemma_bisect_sound<T: Ord>(s: Seq<T>, v: T)
    ensures
        bisect(s, v) matches Some(i) ==> 0 <= i < s.len() && eqv(v, s[i]),
    decreases s.len(),
{
    if s.len() > 0 {
        let mid = (s.len() / 2) as int;
        if lt(v, s[mid]) {
            lemma_bisect_sound(s.take(mid), v);
        } else if !eqv(v, s[mid]) {
            lemma_bisect_sound(s.skip(mid + 1), v);
        }
    }
}

/// In a sorted sequence halving arrives at an element exactly if one equals
/// `v`.
pub proof fn lemma_bisect_complete<T: Ord>(s: Seq<T>, v: T)
    requires
        lawful::<T>(),
        sorted(s),
    ensures
        bisect(s, v) is Some <==> present(s, v),
    decreases s.len(),
{
    lemma_operators_agree::<T>();
    lemma_bisect_sound(s, v);
    if s.len() > 0 {
        let mid = (s.len() / 2) as int;
        lemma_flip(v, s[mid]);
        if lt(v, s[mid]) {
            let half = s.take(mid);
            lemma_bisect_complete(half, v);
            if present(s, v) {
                let k = choose|k: int| 0 <= k < s.len() && same(v, #[trigger] s[k]);
                if k >= mid {
                    if k > mid {
                        assert(le(s[mid], s[k]));
                    }
                    lemma_flip(s[k], v);
                    lemma_transitive(v, s[mid], s[k]);
                }
                assert(same(v, half[k]));
            }
            if present(half, v) {
                let k = choose|k: int| 0 <= k < half.len() && same(v, #[trigger] half[k]);
                assert(same(v, s[k]));
            }
        } else if !eqv(v, s[mid]) {
            let half = s.skip(mid + 1);
            lemma_bisect_complete(half, v);
            if present(s, v) {
                let k = choose|k: int| 0 <= k < s.len() && same(v, #[trigger] s[k]);
                if k <= mid {
                    if k < mid {
                        assert(le(s[k], s[mid]));
                    }
                    lemma_flip(s[k], v);
                    lemma_transitive(s[k], s[mid], v);
                }
                assert(same(v, half[k - mid - 1]));
            }
            if present(half, v) {
                let k = choose|k: int| 0 <= k < half.len() && same(v, #[trigger] half[k]);
                assert(same(v, s[k + mid + 1]));
            }
        } else {
            assert(same(v, s[mid]));
        }
    }
}

/// An implementation of binary search.
///
/// Recursively searches for the value in a sorted slice. It does the following:
/// * computes the center of the slice (size / 2),
/// * compares it with the value,
/// * if it's smaller, invokes itself with the first part of the slice,
/// * if they are equal, returns the center,
/// * if it's greater, invokes itself with the second part of the slice and
///     adds the current center and 1.
/// * if didn't find the value, returns [`None`].
///
/// **Note**: the returned value is the position of the first found element,
/// that may not be the position of the first element in the whole slice. Use
/// [`binary_first`] instead.
pub fn binary<T: Ord>(slice: &[T], value: &T) -> (r: Option<usize>)
    requires
        lawful::<T>(),
    ensures
        position(r) == bisect(slice@, *value),
        hit(slice@, *value, r),
        sorted(slice@) ==> (r is Some <==> present(slice@, *value)),
    decreases slice@.len(),
{
    proof {
        lemma_bisect_sound(slice@, *value);
        if sorted(slice@) {
            lemma_bisect_complete(slice@, *value);
        }
    }
    if slice.len() == 0 {
        return None;
    }
    let mid = slice.len() / 2;
    proof {
        assert(slice@.subrange(0, mid as int) == slice@.take(mid as int));
        assert(slice@.subrange(mid + 1, slice@.len() as int) == slice@.skip(mid + 1));
        assert(mid == 0 ==> bisect(slice@.take(mid as int), *value) is None);
        assert(mid == slice@.len() - 1 ==> bisect(slice@.skip(mid + 1), *value) is None);
    }
    match compare(value, &slice[mid]) {
        Comparison::Less if mid > 0 => binary(&slice[0..mid], value),
        Comparison::Equal => Some(mid),
        Comparison::Greater if mid < slice.len() - 1 => {
            match binary(&slice[(mid + 1)..slice.len()], value) {
                Some(x) => Some(x + mid + 1),
                None => None,
            }
        },
        _ => None,
    }
}

/// `q` is where the run of elements not smaller than `v` that ends before `p`
/// starts: no element in `q..p` is smaller than `v`, and the one before `q`,
/// if there is one, is.
pub open spec fn is_run_start<T: Ord>(s: Seq<T>, v: T, q: int, p: int) -> bool {
    &&& 0 <= q <= p
    &&& forall|k: int| q <= k < p ==> !lt(#[trigger] s[k], v)
    &&& q > 0 ==> lt(s[q - 1], v)
}

/// In a sorted sequence the run of elements not smaller than `v` that leads
/// up to an element equal to `v` starts at the first element equal to `v`.
pub proof fn lemma_run_start_is_first<T: Ord>(s: Seq<T>, v: T, q: usize, p: int)
    requires
        lawful::<T>(),
        sorted(s),
        0 <= p < s.len(),
        eqv(v, s[p]),
        is_run_start(s, v, q as int, p),
    ensures
        is_first_in(s, v, 0, s.len() as int, Some(q)),
{
    lemma_operators_agree::<T>();
    lemma_flip(v, s[p]);
    if q < p {
        assert(le(s[q as int], s[p]));
        assert(!lt(s[q as int], v));
        lemma_flip(s[q as int], v);
        lemma_flip(s[q as int], s[p]);
        lemma_transitive(s[q as int], s[p], v);
    }
    assert forall|k: int| 0 <= k < q implies !same(v, #[trigger] s[k]) by {
        if k < q - 1 {
            assert(le(s[k], s[q - 1]));
        } else {
            lemma_flip(s[k], s[k]);
        }
        lemma_transitive(s[k], s[q - 1], v);
        lemma_flip(s[k], v);
    }
}

/// An implementation of binary search that finds the very first position of
/// the element.
///
/// Invokes [`binary`] search and iterates over the elements backward in
/// the slice before the found element. Returns the position of the last
/// (first in the slice) equal element.
pub fn binary_first<T: Ord>(slice: &[T], value: &T) -> (r: Option<usize>)
    requires
        lawful::<T>(),
    ensures
        match bisect(slice@, *value) {
            Some(p) => r matches Some(q) && is_run_start(slice@, *value, q as int, p),
            None => r is None,
        },
        sorted(slice@) ==> is_first_in(slice@, *value, 0, slice@.len() as int, r),
{
    proof {
        lemma_operators_agree::<T>();
    }
    let pos = binary(slice, value);
    match pos {
        Some(pos) => {
            let mut i: usize = pos;
            while i > 0
                invariant
                    lawful::<T>(),
                    i <= pos < slice@.len(),
                    bisect(slice@, *value) == Some(pos as int),
                    eqv(*value, slice@[pos as int]),
                    forall|k: int| i <= k < pos ==> !lt(#[trigger] slice@[k], *value),
                decreases i,
            {
                proof {
                    lemma_operators_agree::<T>();
                }
                if slice[i - 1] < *value {
                    proof {
                        if sorted(slice@) {
                            lemma_run_start_is_first(slice@, *value, i, pos as int);
                        }
                    }
                    return Some(i);
                }
                i -= 1;
            }
            proof {
                if sorted(slice@) {
                    lemma_run_start_is_first(slice@, *value, 0, pos as int);
                }
            }
            Some(0)
        },
        None => {
            assert(sorted(slice@) ==> !present(slice@, *value));
            None
        },
    }
}

/// Counting jumps from `from`: the first jump of `jumps` that does not land on
/// an element smaller than `v`, or `jumps` where they all do. Jump `i` lands
/// on position `i * step`.
pub open spec fn first_landing<T: Ord>(s: Seq<T>, v: T, step: int, from: int, jumps: int) -> int
    decreases jumps - from,
{
    if from < jumps && lt(s[from * step], v) {
        first_landing(s, v, step, from + 1, jumps)
    } else {
        from
    }
}

/// What a jump search with jumps of `step`, at least 2, answers: `r`.
///
/// The search makes `s.len() / step` jumps. Where one lands on an element
/// equal to `v`, that position is the answer. Else the block between the last
/// jump that landed below `v` and the next jump, or the end of the sequence
/// after the last jump, is searched from left to right.
pub open spec fn jump_outcome<T: Ord>(s: Seq<T>, v: T, step: int, r: Option<usize>) -> bool {
    let jumps = s.len() as int / step;
    let j = first_landing(s, v, step, 0, jumps);
    if j < jumps {
        if eqv(v, s[j * step]) {
            r matches Some(i) && i == j * step
        } else if j == 0 {
            r is None
        } else {
            is_first_in(s, v, (j - 1) * step + 1, j * step, r)
        }
    } else if jumps == 0 {
        is_first_in(s, v, 1, s.len() as int, r)
    } else {
        is_first_in(s, v, (jumps - 1) * step + 1, s.len() as int, r)
    }
}

/// What [`jump_step`] answers for each `step`.
pub open spec fn jump_step_outcome<T: Ord>(s: Seq<T>, v: T, step: int, r: Option<usize>) -> bool {
    if step == 1 {
        is_first_in(s, v, 0, s.len() as int, r)
    } else if step == 0 {
        is_first_in(s, v, 0, if s.len() == 0 { 0 } else { 1 }, r)
    } else {
        jump_outcome(s, v, step, r)
    }
}

/// Jump `i` of `jumps` lands inside a sequence of length `len`, a whole step
/// before its end.
proof fn lemma_jump_lands(len: int, step: int, i: int)
    requires
        step > 0,
        0 <= len,
        0 <= i < len / step,
    ensures
        0 <= i * step,
        i * step + step <= len,
        (i + 1) * step == i * step + step,
        i == 0 ==> i * step == 0,
{
    assert((len / step) * step <= len) by (nonlinear_arith)
        requires
            step > 0,
            0 <= len,
    ;
    assert((i + 1) * step <= (len / step) * step) by (nonlinear_arith)
        requires
            step > 0,
            0 <= i < len / step,
    ;
    assert((i + 1) * step == i * step + step) by (nonlinear_arith);
    assert(0 <= i * step) by (nonlinear_arith)
        requires
            step > 0,
            0 <= i,
    ;
}

/// An implementation of jump search with custom `step`.
///
/// Jumps over a sorted slice by fixed steps, until it finds the largest
/// element, smaller than the value. Then invokes [linear] search from this
/// element to the next step.
///
/// It's usually slower than `binary` search, except when the value is expected
/// to be at the beginning of the slice.
///
/// See also [`jump`] function.
pub fn jump_step<T: Ord>(slice: &[T], value: &T, step: usize) -> (r: Option<usize>)
    requires
        lawful::<T>(),
    ensures
        jump_step_outcome(slice@, *value, step as int, r),
        hit(slice@, *value, r),
        sorted(slice@) && 1 <= step <= slice@.len() ==> (r is Some <==> present(slice@, *value)),
{
    proof {
        lemma_operators_agree::<T>();
        lemma_jump_step_answers(slice@, *value, step as int);
    }
    if step == 1 {
        return linear(slice, value);
    } else if step == 0 {
        // it would be stuck on the first element
        if slice.len() > 0 && slice[0] == *value {
            proof {
                lemma_flip(slice@[0], *value);
            }
            return Some(0);
        } else {
            proof {
                if slice.len() > 0 {
                    lemma_flip(slice@[0], *value);
                }
            }
            return None;
        }
    }
    if slice.len() == 0 {
        return None;
    }
    let jumps = slice.len() / step;
    let mut pos: usize = 0;

    // if found larger than the value
    let mut found = false;

    let mut i: usize = 0;
    while i < jumps
        invariant_except_break
            !found,
            i > 0 ==> pos == (i - 1) * step,
        invariant
            lawful::<T>(),
            answers_well(slice@, *value, step as int),
            step >= 2,
            jumps == slice@.len() as int / step as int,
            i <= jumps,
            i == 0 ==> pos == 0,
            first_landing(slice@, *value, step as int, 0, jumps as int) == first_landing(
                slice@,
                *value,
                step as int,
                i as int,
                jumps as int,
            ),
        ensures
            found ==> 0 < i < jumps && pos == (i - 1) * step && first_landing(
                slice@,
                *value,
                step as int,
                0,
                jumps as int,
            ) == i && !eqv(*value, slice@[i * step]),
            !found ==> i == jumps && (i > 0 ==> pos == (i - 1) * step) && first_landing(
                slice@,
                *value,
                step as int,
                0,
                jumps as int,
            ) == jumps,
        decreases jumps - i,
    {
        proof {
            assert(slice@.len() == slice.len());
            lemma_jump_lands(slice@.len() as int, step as int, i as int);
        }
        let at = i * step;
        proof {
            lemma_flip(*value, slice@[at as int]);
        }
        match compare(value, &slice[at]) {
            Comparison::Less => {
                if i == 0 {
                    // smaller than every element
                    assert(jump_step_outcome(slice@, *value, step as int, None));
                    return None;
                }
                found = true;
                break;
            },
            Comparison::Equal => {
                assert(jump_step_outcome(slice@, *value, step as int, Some(at)));
                return Some(at);
            },
            Comparison::Greater => {
                pos = at;
            },
        }
        i += 1;
    }

    proof {
        if jumps > 0 {
            lemma_jump_lands(slice@.len() as int, step as int, jumps - 1);
        }
        if found {
            lemma_jump_lands(slice@.len() as int, step as int, i as int);
            lemma_jump_lands(slice@.len() as int, step as int, i - 1);
        }
    }
    let mut end = pos + step;
    if !found {
        // if did not found, then check the rest of the slice, since the loop
        // may not have done it; plus pos + step could be higher than len - 1
        end = slice.len()
    }

    // no need to check the element on pos
    let ghost block = slice@.subrange(pos + 1, end as int);
    match linear(&slice[(pos + 1)..end], value) {
        Some(x) => {
            assert(block[x as int] == slice@[x + pos + 1]);
            assert forall|k: int| pos + 1 <= k < x + pos + 1 implies !same(
                *value,
                #[trigger] slice@[k],
            ) by {
                assert(block[k - pos - 1] == slice@[k]);
            }
            assert(jump_step_outcome(slice@, *value, step as int, Some((x + pos + 1) as usize)));
            Some(x + pos + 1)
        },
        None => {
            assert forall|k: int| pos + 1 <= k < end implies !same(*value, #[trigger] slice@[k]) by {
                assert(block[k - pos - 1] == slice@[k]);
            }
            assert(jump_step_outcome(slice@, *value, step as int, None));
            None
        },
    }
}

/// Jump `i` lands on an element smaller than `v`.
pub open spec fn lands_below<T: Ord>(s: Seq<T>, v: T, step: int, i: int) -> bool {
    lt(s[i * step], v)
}

/// The first landing is the first jump not to land below `v`.
pub proof fn lemma_first_landing<T: Ord>(s: Seq<T>, v: T, step: int, from: int, jumps: int)
    requires
        from <= jumps,
    ensures
        from <= first_landing(s, v, step, from, jumps) <= jumps,
        forall|i: int|
            from <= i < first_landing(s, v, step, from, jumps) ==> #[trigger] lands_below(
                s,
                v,
                step,
                i,
            ),
        first_landing(s, v, step, from, jumps) < jumps ==> !lands_below(
            s,
            v,
            step,
            first_landing(s, v, step, from, jumps),
        ),
    decreases jumps - from,
{
    if from < jumps && lt(s[from * step], v) {
        lemma_first_landing(s, v, step, from + 1, jumps);
        assert(lands_below(s, v, step, from));
    }
}

/// A jump search answers only with the position of an element equal to `v`.
pub proof fn lemma_jump_sound<T: Ord>(s: Seq<T>, v: T, step: int, r: Option<usize>)
    requires
        lawful::<T>(),
        step >= 2,
        jump_outcome(s, v, step, r),
    ensures
        hit(s, v, r),
{
    lemma_operators_agree::<T>();
    let len = s.len() as int;
    let jumps = len / step;
    let j = first_landing(s, v, step, 0, jumps);
    lemma_first_landing(s, v, step, 0, jumps);
    if j < jumps {
        lemma_jump_lands(len, step, j);
    }
}

/// In a sorted sequence a jump search whose first jump fits in the sequence
/// finds an element exactly if one equals `v`.
pub proof fn lemma_jump_complete<T: Ord>(s: Seq<T>, v: T, step: int, r: Option<usize>)
    requires
        lawful::<T>(),
        sorted(s),
        2 <= step <= s.len(),
        jump_outcome(s, v, step, r),
    ensures
        r is Some <==> present(s, v),
{
    lemma_operators_agree::<T>();
    lemma_jump_sound(s, v, step, r);
    let len = s.len() as int;
    let jumps = len / step;
    assert(jumps >= 1) by (nonlinear_arith)
        requires
            jumps == len / step,
            2 <= step <= len,
    ;
    let j = first_landing(s, v, step, 0, jumps);
    lemma_first_landing(s, v, step, 0, jumps);
    if r is Some {
        assert(same(v, s[r.unwrap() as int]));
    }
    // the block that may hold `v`: after `low`, before `high`
    let low = if j == 0 { -1 } else { (j - 1) * step };
    let high = if j < jumps { j * step } else { len };
    if j > 0 {
        lemma_jump_lands(len, step, j - 1);
        assert(lands_below(s, v, step, j - 1));
    }
    if j < jumps {
        lemma_jump_lands(len, step, j);
        assert(!lands_below(s, v, step, j));
        lemma_flip(s[j * step], v);
    }
    assert forall|k: int| 0 <= k <= low implies !same(v, #[trigger] s[k]) by {
        if k < low {
            assert(le(s[k], s[low]));
        } else {
            lemma_reflexive(s[k]);
        }
        lemma_transitive(s[k], s[low], v);
        lemma_flip(s[k], v);
    }
    if j < jumps && !eqv(v, s[high]) {
        assert forall|k: int| high <= k < len implies !same(v, #[trigger] s[k]) by {
            if k > high {
                assert(le(s[high], s[k]));
            } else {
                lemma_reflexive(s[k]);
            }
            lemma_transitive(v, s[high], s[k]);
            lemma_flip(v, s[k]);
        }
        if present(s, v) {
            let k = choose|k: int| 0 <= k < s.len() && same(v, #[trigger] s[k]);
            assert(low < k < high);
        }
    } else if j == jumps {
        if present(s, v) {
            let k = choose|k: int| 0 <= k < s.len() && same(v, #[trigger] s[k]);
            assert(low < k < high);
        }
    }
}

/// Whatever a jump search with this step answers is the position of an
/// element equal to `v`; and where the sequence is sorted and the step is
/// neither 0 nor greater than its length, the search finds an element exactly
/// if one equals `v`.
pub open spec fn answers_well<T: Ord>(s: Seq<T>, v: T, step: int) -> bool {
    forall|r: Option<usize>| #[trigger]
        jump_step_outcome(s, v, step, r) ==> {
            &&& hit(s, v, r)
            &&& sorted(s) && 1 <= step <= s.len() ==> (r is Some <==> present(s, v))
        }
}

/// Every jump search answers well.
pub proof fn lemma_jump_step_answers<T: Ord>(s: Seq<T>, v: T, step: int)
    requires
        lawful::<T>(),
        step >= 0,
    ensures
        answers_well(s, v, step),
{
    lemma_operators_agree::<T>();
    assert forall|r: Option<usize>| #[trigger] jump_step_outcome(s, v, step, r) implies {
        &&& hit(s, v, r)
        &&& sorted(s) && 1 <= step <= s.len() ==> (r is Some <==> present(s, v))
    } by {
        if step >= 2 {
            lemma_jump_sound(s, v, step, r);
            if sorted(s) && step <= s.len() {
                lemma_jump_complete(s, v, step, r);
            }
        } else if r is Some {
            assert(same(v, s[r.unwrap() as int]));
        }
    }
}

/// `r` is the integer square root of `n`, rounded down.
pub open spec fn is_floor_sqrt(n: int, r: int) -> bool {
    0 <= r && r * r <= n < (r + 1) * (r + 1)
}

/// The integer square root of `n`, rounded down.
pub fn floor_sqrt(n: usize) -> (r: usize)
    ensures
        is_floor_sqrt(n as int, r as int),
{
    let mut lo: usize = 0;
    let mut hi: usize = n;
    assert(n < (n + 1) * (n + 1)) by (nonlinear_arith);
    while lo < hi
        invariant
            lo <= hi <= n,
            lo * lo <= n,
            n < (hi + 1) * (hi + 1),
        decreases hi - lo,
    {
        let mid = hi - (hi - lo) / 2;
        assert((mid <= n / mid) <==> (mid * mid <= n)) by (nonlinear_arith)
            requires
                mid > 0,
        ;
        if mid <= n / mid {
            lo = mid;
        } else {
            hi = mid - 1;
        }
    }
    lo
}

/// What [`jump`] answers: what a jump search answers whose step is the
/// integer square root of the length.
pub open spec fn jump_sqrt_outcome<T: Ord>(s: Seq<T>, v: T, r: Option<usize>) -> bool {
    forall|step: int| #[trigger]
        is_floor_sqrt(s.len() as int, step) ==> jump_step_outcome(s, v, step, r)
}

/// The integer square root is unique, it is 0 only for 0 and 1 below 4, and
/// never greater than the number itself.
pub proof fn lemma_floor_sqrt(n: int, r: int, q: int)
    requires
        is_floor_sqrt(n, r),
    ensures
        is_floor_sqrt(n, q) ==> q == r,
        r == 0 <==> n == 0,
        r == 1 <==> 1 <= n < 4,
        r <= n,
{
    if is_floor_sqrt(n, q) {
        assert(q == r) by (nonlinear_arith)
            requires
                0 <= r && r * r <= n < (r + 1) * (r + 1),
                0 <= q && q * q <= n < (q + 1) * (q + 1),
        ;
    }
    assert(r <= n) by (nonlinear_arith)
        requires
            0 <= r && r * r <= n,
    ;
    assert((r == 0 <==> n == 0) && (r == 1 <==> 1 <= n < 4)) by (nonlinear_arith)
        requires
            0 <= r && r * r <= n < (r + 1) * (r + 1),
    ;
}

/// An implementation of jump search with optimal `step`.
///
/// Invokes [`jump_step`] search with square root of the length of the slice.
pub fn jump<T: Ord>(slice: &[T], value: &T) -> (r: Option<usize>)
    requires
        lawful::<T>(),
    ensures
        jump_sqrt_outcome(slice@, *value, r),
        hit(slice@, *value, r),
        sorted(slice@) ==> (r is Some <==> present(slice@, *value)),
{
    let step = floor_sqrt(slice.len());
    let r = jump_step(slice, value, step);
    proof {
        assert forall|other: int| #[trigger]
            is_floor_sqrt(slice@.len() as int, other) implies jump_step_outcome(
            slice@,
            *value,
            other,
            r,
        ) by {
            lemma_floor_sqrt(slice@.len() as int, step as int, other);
        }
        lemma_floor_sqrt(slice@.len() as int, step as int, 0);
    }
    r
}

} // verus!
