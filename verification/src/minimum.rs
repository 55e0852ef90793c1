use vstd::prelude::*;

use crate::error::QueryError;
use crate::order::{le, lesser_of, total_order};

verus! {

/// The least element of `s[l..r)` as a scan from the left finds it: among
/// elements of which none comes before the other, the one met first.
pub open spec fn range_min<T: Ord>(s: Seq<T>, l: int, r: int) -> T
    decreases r - l,
{
    if r - l <= 1 {
        s[l]
    } else {
        lesser_of(range_min(s, l, r - 1), s[r - 1])
    }
}

/// The answer to the exact query for `[l, r)` over `s`: the minimum of the
/// range, unless the range is empty or, if it is not, runs past the end of
/// `s`.
pub open spec fn smallest_in<T: Ord>(s: Seq<T>, l: int, r: int) -> Result<T, QueryError> {
    if l >= r {
        Err(QueryError::EmptyRange)
    } else if r > s.len() {
        Err(QueryError::OutOfBounds)
    } else {
        Ok(range_min(s, l, r))
    }
}

/// The answer to the query with a default for `[l, r)` over `s`: `default`
/// where the range is empty or begins past the end of `s`, else the minimum
/// of the part of the range that lies in `s`.
pub open spec fn smallest_or<T: Ord>(s: Seq<T>, l: int, r: int, default: T) -> T {
    if l >= r || l >= s.len() {
        default
    } else if r <= s.len() {
        range_min(s, l, r)
    } else {
        range_min(s, l, s.len() as int)
    }
}

/// `i` is the first position in `[l, r)` whose element no element of the
/// range comes before.
pub open spec fn first_min_at<T: Ord>(s: Seq<T>, l: int, r: int, i: int) -> bool {
    &&& l <= i < r
    &&& forall|j: int| l <= j < r ==> le(s[i], #[trigger] s[j])
    &&& forall|j: int| l <= j < i ==> !le(#[trigger] s[j], s[i])
}

/// A range has at most one first minimum.
pub proof fn lemma_first_min_unique<T: Ord>(s: Seq<T>, l: int, r: int, i: int, j: int)
    requires
        first_min_at(s, l, r, i),
        first_min_at(s, l, r, j),
    ensures
        i == j,
{
    if i < j {
        assert(le(s[i], s[j]));
    } else if j < i {
        assert(le(s[j], s[i]));
    }
}

/// The scan of a non-empty range ends on the element at the range's first
/// minimum; the position is returned.
pub proof fn lemma_range_min_position<T: Ord>(s: Seq<T>, l: int, r: int) -> (i: int)
    requires
        total_order::<T>(),
        l < r,
    ensures
        first_min_at(s, l, r, i),
        s[i] == range_min(s, l, r),
    decreases r - l,
{
    if r - l <= 1 {
        assert(le(s[l], s[l]));
        l
    } else {
        let p = lemma_range_min_position(s, l, r - 1);
        let last = s[r - 1];
        if le(s[p], last) {
            p
        } else {
            assert(le(last, s[p]));
            assert forall|j: int| l <= j < r implies le(last, #[trigger] s[j]) by {
                if j < r - 1 {
                    assert(le(s[p], s[j]));
                }
            }
            assert forall|j: int| l <= j < r - 1 implies !le(#[trigger] s[j], last) by {
                assert(le(s[p], s[j]));
            }
            r - 1
        }
    }
}

/// Two ranges that overlap or touch hold, between their two minima, the
/// minimum of the range that they cover together.
pub proof fn lemma_range_min_cover<T: Ord>(s: Seq<T>, l: int, l2: int, r1: int, r: int)
    requires
        total_order::<T>(),
        l <= l2 <= r1 <= r,
        l < r1,
        l2 < r,
    ensures
        range_min(s, l, r) == lesser_of(range_min(s, l, r1), range_min(s, l2, r)),
{
    let i1 = lemma_range_min_position(s, l, r1);
    let i2 = lemma_range_min_position(s, l2, r);
    let i = lemma_range_min_position(s, l, r);
    let a = s[i1];
    let b = s[i2];
    if le(a, b) {
        assert forall|j: int| l <= j < r implies le(a, #[trigger] s[j]) by {
            if j >= r1 {
                assert(le(b, s[j]));
            }
        }
        assert(first_min_at(s, l, r, i1));
        lemma_first_min_unique(s, l, r, i, i1);
    } else {
        assert(le(b, a));
        assert forall|j: int| l <= j < r implies le(b, #[trigger] s[j]) by {
            if j < l2 {
                assert(le(a, s[j]));
            }
        }
        assert forall|j: int| l <= j < i2 implies !le(#[trigger] s[j], b) by {
            if j < l2 {
                assert(le(a, s[j]));
            }
        }
        assert(first_min_at(s, l, r, i2));
        lemma_first_min_unique(s, l, r, i, i2);
    }
}

/// The minimum of a non-empty range is one of its elements, and no element
/// of the range comes before it.
pub proof fn lemma_range_min_is_least<T: Ord>(s: Seq<T>, l: int, r: int)
    requires
        total_order::<T>(),
        l < r,
    ensures
        exists|i: int| l <= i < r && s[i] == range_min(s, l, r),
        forall|j: int| l <= j < r ==> le(range_min(s, l, r), #[trigger] s[j]),
{
    let i = lemma_range_min_position(s, l, r);
}

/// The minimum of a range of one element is that element, and it is what
/// the exact query answers for such a range within the sequence.
pub proof fn lemma_range_min_single<T: Ord>(s: Seq<T>, l: int)
    ensures
        range_min(s, l, l + 1) == s[l],
        0 <= l < s.len() ==> smallest_in(s, l, l + 1) == Ok::<T, QueryError>(s[l]),
{
}

/// The query with a default answers the default, whatever the right bound,
/// where the range is empty or begins at or past the end of the sequence.
pub proof fn lemma_default_on_degenerate_range<T: Ord>(s: Seq<T>, l: int, r: int, default: T)
    requires
        l >= r || l >= s.len(),
    ensures
        smallest_or(s, l, r, default) == default,
{
}

/// On a non-empty range within the sequence the query with a default
/// answers what the exact query answers, whatever the default.
pub proof fn lemma_default_agrees_with_exact<T: Ord>(s: Seq<T>, l: int, r: int, default: T)
    requires
        0 <= l < r <= s.len(),
    ensures
        smallest_in(s, l, r) == Ok::<T, QueryError>(smallest_or(s, l, r, default)),
{
}

/// The exact query for the whole of a non-empty sequence answers an element
/// of the sequence that no element comes before.
pub proof fn lemma_range_min_whole<T: Ord>(s: Seq<T>)
    requires
        total_order::<T>(),
        s.len() > 0,
    ensures
        smallest_in(s, 0, s.len() as int) == Ok::<T, QueryError>(range_min(s, 0, s.len() as int)),
        s.contains(range_min(s, 0, s.len() as int)),
        forall|j: int| 0 <= j < s.len() ==> le(range_min(s, 0, s.len() as int), #[trigger] s[j]),
{
    let i = lemma_range_min_position(s, 0, s.len() as int);
}

} // verus!
