//! The order that sorting goes by: `<=` of `Ord`, read as a relation on values.

use vstd::prelude::*;
use vstd::std_specs::cmp::PartialOrdIs;
use vstd::std_specs::cmp::PartialOrdSpec;

verus! {

/// The comparison operators of `T` answer as `partial_cmp_spec` says.
///
/// Where this is not known of a type, a comparison may answer anything, and
/// only what holds of every answer is promised.
pub open spec fn comparable<T: Ord>() -> bool {
    T::obeys_partial_cmp_spec()
}

/// `a` is less than or equal to `b`.
pub open spec fn le<T: Ord>(a: T, b: T) -> bool {
    a.is_le(&b)
}

/// `le` relates any two values of `T` one way or the other, and is transitive.
pub open spec fn total_order<T: Ord>() -> bool {
    &&& forall|a: T, b: T| #[trigger] le(a, b) || le(b, a)
    &&& forall|a: T, b: T, c: T| #[trigger] le(a, b) && #[trigger] le(b, c) ==> le(a, c)
}

/// No element of `s` is followed, anywhere later, by one it is not `le` to.
pub open spec fn sorted<T: Ord>(s: Seq<T>) -> bool {
    forall|i: int, j: int| #![trigger s[i], s[j]] 0 <= i < j < s.len() ==> le(s[i], s[j])
}

} // verus!
