//! Types that have a smallest and a largest value.

use vstd::prelude::*;

verus! {

/// Numbers which have upper and lower bounds.
pub trait Bounded: Sized {
    /// The smallest value of the type.
    spec fn lowest() -> Self;

    /// The largest value of the type.
    spec fn highest() -> Self;

    /// Returns the smallest finite number this type can represent.
    fn min_value() -> (least: Self)
        ensures
            least == Self::lowest(),
    ;

    /// Returns the largest finite number this type can represent.
    fn max_value() -> (most: Self)
        ensures
            most == Self::highest(),
    ;
}

impl Bounded for i8 {
    open spec fn lowest() -> i8 {
        i8::MIN
    }

    open spec fn highest() -> i8 {
        i8::MAX
    }

    fn min_value() -> i8 {
        i8::MIN
    }

    fn max_value() -> i8 {
        i8::MAX
    }
}

impl Bounded for i16 {
    open spec fn lowest() -> i16 {
        i16::MIN
    }

    open spec fn highest() -> i16 {
        i16::MAX
    }

    fn min_value() -> i16 {
        i16::MIN
    }

    fn max_value() -> i16 {
        i16::MAX
    }
}

impl Bounded for i32 {
    open spec fn lowest() -> i32 {
        i32::MIN
    }

    open spec fn highest() -> i32 {
        i32::MAX
    }

    fn min_value() -> i32 {
        i32::MIN
    }

    fn max_value() -> i32 {
        i32::MAX
    }
}

impl Bounded for i64 {
    open spec fn lowest() -> i64 {
        i64::MIN
    }

    open spec fn highest() -> i64 {
        i64::MAX
    }

    fn min_value() -> i64 {
        i64::MIN
    }

    fn max_value() -> i64 {
        i64::MAX
    }
}

impl Bounded for i128 {
    open spec fn lowest() -> i128 {
        i128::MIN
    }

    open spec fn highest() -> i128 {
        i128::MAX
    }

    fn min_value() -> i128 {
        i128::MIN
    }

    fn max_value() -> i128 {
        i128::MAX
    }
}

impl Bounded for isize {
    open spec fn lowest() -> isize {
        isize::MIN
    }

    open spec fn highest() -> isize {
        isize::MAX
    }

    fn min_value() -> isize {
        isize::MIN
    }

    fn max_value() -> isize {
        isize::MAX
    }
}

impl Bounded for u8 {
    open spec fn lowest() -> u8 {
        u8::MIN
    }

    open spec fn highest() -> u8 {
        u8::MAX
    }

    fn min_value() -> u8 {
        u8::MIN
    }

    fn max_value() -> u8 {
        u8::MAX
    }
}

impl Bounded for u16 {
    open spec fn lowest() -> u16 {
        u16::MIN
    }

    open spec fn highest() -> u16 {
        u16::MAX
    }

    fn min_value() -> u16 {
        u16::MIN
    }

    fn max_value() -> u16 {
        u16::MAX
    }
}

impl Bounded for u32 {
    open spec fn lowest() -> u32 {
        u32::MIN
    }

    open spec fn highest() -> u32 {
        u32::MAX
    }

    fn min_value() -> u32 {
        u32::MIN
    }

    fn max_value() -> u32 {
        u32::MAX
    }
}

impl Bounded for u64 {
    open spec fn lowest() -> u64 {
        u64::MIN
    }

    open spec fn highest() -> u64 {
        u64::MAX
    }

    fn min_value() -> u64 {
        u64::MIN
    }

    fn max_value() -> u64 {
        u64::MAX
    }
}

impl Bounded for u128 {
    open spec fn lowest() -> u128 {
        u128::MIN
    }

    open spec fn highest() -> u128 {
        u128::MAX
    }

    fn min_value() -> u128 {
        u128::MIN
    }

    fn max_value() -> u128 {
        u128::MAX
    }
}

impl Bounded for usize {
    open spec fn lowest() -> usize {
        usize::MIN
    }

    open spec fn highest() -> usize {
        usize::MAX
    }

    fn min_value() -> usize {
        usize::MIN
    }

    fn max_value() -> usize {
        usize::MAX
    }
}

} // verus!
