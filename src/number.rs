use vstd::prelude::*;

verus! {

/// A numeric type with additive and multiplicative identities.
pub trait Number: Sized {
    spec fn spec_zero() -> Self;

    spec fn spec_one() -> Self;

    fn zero() -> (r: Self)
        ensures
            r == Self::spec_zero(),
    ;

    fn one() -> (r: Self)
        ensures
            r == Self::spec_one(),
    ;
}

impl Number for i64 {
    open spec fn spec_zero() -> i64 {
        0
    }

    open spec fn spec_one() -> i64 {
        1
    }

    fn zero() -> (r: i64) {
        0
    }

    fn one() -> (r: i64) {
        1
    }
}

} // verus!
