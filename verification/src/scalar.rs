//! The numbers that tensors are computed with on the host.
use vstd::prelude::*;

verus! {

/// A number type: what element values are converted to when they are read
/// from or written to a backend, and what the host-side kernels compute with.
///
/// The arithmetic need not obey any law; each operation is a function of its
/// arguments.
pub trait Scalar: Copy {
    /// The number 0.
    spec fn zero_val() -> Self;

    /// The number 1.
    spec fn one_val() -> Self;

    /// The sum.
    spec fn plus(self, rhs: Self) -> Self;

    /// The difference.
    spec fn minus(self, rhs: Self) -> Self;

    /// The product.
    spec fn times(self, rhs: Self) -> Self;

    /// The quotient.
    spec fn over(self, rhs: Self) -> Self;

    /// Whether this number is smaller.
    spec fn below(self, rhs: Self) -> bool;

    /// Whether the numbers are equal.
    spec fn same(self, rhs: Self) -> bool;

    /// The number nearest to a count.
    spec fn of_count(n: usize) -> Self;

    /// The count nearest to a number, rounded towards 0.
    spec fn as_count(self) -> usize;

    /// A number below all others.
    spec fn bottom() -> Self;

    /// A number above all others.
    spec fn top() -> Self;

    fn zero() -> (r: Self)
        ensures
            r == Self::zero_val(),
    ;

    fn one() -> (r: Self)
        ensures
            r == Self::one_val(),
    ;

    fn add(self, rhs: Self) -> (r: Self)
        ensures
            r == self.plus(rhs),
    ;

    fn sub(self, rhs: Self) -> (r: Self)
        ensures
            r == self.minus(rhs),
    ;

    fn mul(self, rhs: Self) -> (r: Self)
        ensures
            r == self.times(rhs),
    ;

    fn div(self, rhs: Self) -> (r: Self)
        ensures
            r == self.over(rhs),
    ;

    fn lt(self, rhs: Self) -> (r: bool)
        ensures
            r == self.below(rhs),
    ;

    fn eq(self, rhs: Self) -> (r: bool)
        ensures
            r == self.same(rhs),
    ;

    fn from_usize(n: usize) -> (r: Self)
        ensures
            r == Self::of_count(n),
    ;

    fn to_usize(self) -> (r: usize)
        ensures
            r == self.as_count(),
    ;

    fn lowest() -> (r: Self)
        ensures
            r == Self::bottom(),
    ;

    fn highest() -> (r: Self)
        ensures
            r == Self::top(),
    ;
}

/// A number type with the functions that activations need.
pub trait Real: Scalar {
    /// The square root.
    fn sqrt(self) -> Self;

    /// The hyperbolic tangent.
    fn tanh(self) -> Self;

    /// The number 2 / pi.
    fn two_over_pi() -> Self;

    /// The number as text, as the element of a tensor.
    fn to_text(self) -> String;

    /// The number as text in the record of an operation. It is the same text
    /// unless a number type says otherwise.
    fn to_record_text(self) -> (r: String)
        default_ensures
            call_ensures(Self::to_text, (self,), r),
    {
        self.to_text()
    }
}

/// The number 2.
pub open spec fn two_val<S: Scalar>() -> S {
    S::one_val().plus(S::one_val())
}

/// The number -1.
pub open spec fn minus_one_val<S: Scalar>() -> S {
    S::zero_val().minus(S::one_val())
}

pub(crate) fn two<S: Scalar>() -> (r: S)
    ensures
        r == two_val::<S>(),
{
    S::one().add(S::one())
}

pub(crate) fn minus_one<S: Scalar>() -> (r: S)
    ensures
        r == minus_one_val::<S>(),
{
    S::zero().sub(S::one())
}

/// `<` is the order of some ranking of the numbers: nothing is below itself,
/// and neither `<` nor the lack of it has gaps.
pub open spec fn orders<S: Scalar>() -> bool {
    &&& forall|a: S| !#[trigger] a.below(a)
    &&& forall|a: S, b: S, c: S| #[trigger]
        a.below(b) && #[trigger] b.below(c) ==> a.below(c)
    &&& forall|a: S, b: S, c: S|
        !#[trigger] a.below(b) && !#[trigger] b.below(c) ==> !a.below(c)
}

/// Whole numbers: sums, differences and products wrap around, a quotient is
/// rounded towards 0, and is 0 where it does not exist.
impl Scalar for i64 {
    open spec fn zero_val() -> i64 {
        0
    }

    open spec fn one_val() -> i64 {
        1
    }

    open spec fn plus(self, rhs: i64) -> i64 {
        self.wrapping_add(rhs)
    }

    open spec fn minus(self, rhs: i64) -> i64 {
        self.wrapping_sub(rhs)
    }

    open spec fn times(self, rhs: i64) -> i64 {
        self.wrapping_mul(rhs)
    }

    open spec fn over(self, rhs: i64) -> i64 {
        match self.checked_div(rhs) {
            Some(q) => q,
            None => 0,
        }
    }

    open spec fn below(self, rhs: i64) -> bool {
        self < rhs
    }

    open spec fn same(self, rhs: i64) -> bool {
        self == rhs
    }

    open spec fn of_count(n: usize) -> i64 {
        if n <= i64::MAX {
            n as i64
        } else {
            i64::MAX
        }
    }

    open spec fn as_count(self) -> usize {
        if self < 0 {
            0
        } else if self > usize::MAX {
            usize::MAX
        } else {
            self as usize
        }
    }

    open spec fn bottom() -> i64 {
        i64::MIN
    }

    open spec fn top() -> i64 {
        i64::MAX
    }

    fn zero() -> i64 {
        0
    }

    fn one() -> i64 {
        1
    }

    fn add(self, rhs: i64) -> i64 {
        self.wrapping_add(rhs)
    }

    fn sub(self, rhs: i64) -> i64 {
        self.wrapping_sub(rhs)
    }

    fn mul(self, rhs: i64) -> i64 {
        self.wrapping_mul(rhs)
    }

    fn div(self, rhs: i64) -> i64 {
        match self.checked_div(rhs) {
            Some(q) => q,
            None => 0,
        }
    }

    fn lt(self, rhs: i64) -> bool {
        self < rhs
    }

    fn eq(self, rhs: i64) -> bool {
        self == rhs
    }

    fn from_usize(n: usize) -> i64 {
        if n as u64 <= i64::MAX as u64 {
            n as i64
        } else {
            i64::MAX
        }
    }

    fn to_usize(self) -> usize {
        if self < 0 {
            0
        } else if self as u64 > usize::MAX as u64 {
            usize::MAX
        } else {
            self as usize
        }
    }

    fn lowest() -> i64 {
        i64::MIN
    }

    fn highest() -> i64 {
        i64::MAX
    }
}

/// No number is below the lowest one or above the highest one.
pub open spec fn bounded<S: Scalar>() -> bool {
    &&& forall|a: S| !#[trigger] a.below(S::bottom())
    &&& forall|a: S| !#[trigger] S::top().below(a)
}

/// Whole numbers are ordered, with a lowest and a highest one.
pub proof fn law_integers_ordered()
    ensures
        orders::<i64>(),
        bounded::<i64>(),
{
}

} // verus!
