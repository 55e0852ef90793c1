use std::cmp::Ordering;
use vstd::prelude::*;
use vstd::std_specs::cmp::OrdSpec;

verus! {

/// `a` does not come after `b` in the order of `T`.
pub open spec fn le<T: Ord>(a: T, b: T) -> bool {
    a.cmp_spec(&b) != Ordering::Greater
}

/// The order of `T` is total and transitive, and comparing two values at run
/// time gives what the order says.
pub open spec fn total_order<T: Ord>() -> bool {
    &&& T::obeys_cmp_spec()
    &&& forall|a: T, b: T| #[trigger] le(a, b) || le(b, a)
    &&& forall|a: T, b: T, c: T| #[trigger] le(a, b) && #[trigger] le(b, c) ==> le(a, c)
}

/// A clone of a value of `T` is equal to the value.
pub open spec fn exact_clone<T: Clone>() -> bool {
    forall|a: T, b: T| #[trigger] cloned(a, b) ==> a == b
}

/// What the contracts of the table ask of its element type.
pub open spec fn lawful<T: Ord + Clone>() -> bool {
    total_order::<T>() && exact_clone::<T>()
}

/// The lesser of two values; the first of them where neither comes before the
/// other.
pub open spec fn lesser_of<T: Ord>(a: T, b: T) -> T {
    if le(a, b) {
        a
    } else {
        b
    }
}

/// The lesser of two values, the first on a tie.
pub fn lesser<'a, T: Ord>(a: &'a T, b: &'a T) -> (m: &'a T)
    ensures
        *m == *a || *m == *b,
        T::obeys_cmp_spec() ==> *m == lesser_of(*a, *b),
{
    match a.cmp(b) {
        Ordering::Greater => b,
        _ => a,
    }
}

} // verus!
