//! The comparisons of an element type, as the contracts of the heap and of the segment
//! tree speak of them.

use core::cmp::Ordering;
use vstd::prelude::*;
use vstd::std_specs::cmp::{OrdSpec, PartialOrdSpec};

verus! {

/// `x` is at most `y`.
pub open spec fn le<T: PartialOrd>(x: T, y: T) -> bool {
    x.partial_cmp_spec(&y) == Some(Ordering::Less) || x.partial_cmp_spec(&y) == Some(Ordering::Equal)
}

/// `x` is less than `y`.
pub open spec fn lt<T: PartialOrd>(x: T, y: T) -> bool {
    x.partial_cmp_spec(&y) == Some(Ordering::Less)
}

/// `x` is greater than `y`.
pub open spec fn gt<T: PartialOrd>(x: T, y: T) -> bool {
    x.partial_cmp_spec(&y) == Some(Ordering::Greater)
}

/// `Ord::cmp`, `Ord::min` and `Ord::max` of `T` compute what its comparison specifies.
pub open spec fn compares_as_specified<T: Ord>() -> bool {
    T::obeys_cmp_spec()
}

/// The smaller of two values, and the first where they compare equal.
pub open spec fn lesser_of<T: Ord>(x: T, y: T) -> T {
    match y.cmp_spec(&x) {
        Ordering::Less => y,
        _ => x,
    }
}

/// The greater of two values, and the second where they compare equal.
pub open spec fn greater_of<T: Ord>(x: T, y: T) -> T {
    match y.cmp_spec(&x) {
        Ordering::Less => x,
        _ => y,
    }
}

/// The operators `<` and `>` of `T` compute what its comparison specifies, and that
/// comparison is a total preorder: any two values compare, "at most" is transitive, and
/// "less" and "greater" are its strict forms.
pub open spec fn is_total_order<T: PartialOrd>() -> bool {
    &&& T::obeys_partial_cmp_spec()
    &&& forall|x: T, y: T| #[trigger] le(x, y) || le(y, x)
    &&& forall|x: T, y: T| #[trigger] lt(x, y) <==> !le(y, x)
    &&& forall|x: T, y: T| #[trigger] gt(x, y) <==> !le(x, y)
    &&& forall|x: T, y: T, z: T| #[trigger] le(x, y) && #[trigger] le(y, z) ==> le(x, z)
}

} // verus!
