//! The number type that rewards, values and probabilities are measured in.
//!
//! The engine never looks inside a number: it only combines numbers through
//! the operations below. No operation promises anything about its result, so
//! the contracts of this crate describe results by the calls that produced
//! them: `is_plus(a, b, r)` reads "`r` is what `a.plus(b)` returned".

use vstd::prelude::*;

verus! {

/// Arithmetic, comparison and random draws over one number type.
///
/// An implementation for binary floating point takes `plus`, `minus`, `times`
/// and `over` as the four IEEE operations, `exceeds`, `at_most` and `equals`
/// as `>`, `<=` and `==`, and so on.
pub trait Scalar: Copy + Sized {
    /// The number zero.
    fn zero() -> Self;

    /// The number one.
    fn one() -> Self;

    /// A number below every other number.
    fn neg_infinity() -> Self;

    /// The number nearest to the count `n`.
    fn from_usize(n: usize) -> Self;

    /// `self + other`.
    fn plus(self, other: Self) -> Self;

    /// `self - other`.
    fn minus(self, other: Self) -> Self;

    /// `self * other`.
    fn times(self, other: Self) -> Self;

    /// `self / other`.
    fn over(self, other: Self) -> Self;

    /// `-self`.
    fn negated(self) -> Self;

    /// The square root of `self`.
    fn sqrt(self) -> Self;

    /// The natural logarithm of `self`.
    fn ln(self) -> Self;

    /// The absolute value of `self`.
    fn abs(self) -> Self;

    /// `self > other`.
    fn exceeds(self, other: Self) -> bool;

    /// `self <= other`.
    fn at_most(self, other: Self) -> bool;

    /// `self == other`.
    fn equals(self, other: Self) -> bool;

    /// A random number drawn uniformly from the unit interval.
    fn random_unit() -> Self;

    /// A random position in `weights`, drawn with probability proportional to
    /// the weight at that position, or `None` where the weights do not form a
    /// distribution (no weight, a negative weight, or a total of zero).
    fn weighted_index(weights: &Vec<Self>) -> Option<usize>;
}

/// `r` is a result of `S::zero()`.
pub open spec fn is_zero<S: Scalar>(r: S) -> bool {
    call_ensures(S::zero, (), r)
}

/// `r` is a result of `S::one()`.
pub open spec fn is_one<S: Scalar>(r: S) -> bool {
    call_ensures(S::one, (), r)
}

/// `r` is a result of `S::neg_infinity()`.
pub open spec fn is_neg_infinity<S: Scalar>(r: S) -> bool {
    call_ensures(S::neg_infinity, (), r)
}

/// `r` is a result of `S::from_usize(n)`.
pub open spec fn is_count<S: Scalar>(n: usize, r: S) -> bool {
    call_ensures(S::from_usize, (n,), r)
}

/// `r` is a result of `a.plus(b)`.
pub open spec fn is_plus<S: Scalar>(a: S, b: S, r: S) -> bool {
    call_ensures(S::plus, (a, b), r)
}

/// `r` is a result of `a.minus(b)`.
pub open spec fn is_minus<S: Scalar>(a: S, b: S, r: S) -> bool {
    call_ensures(S::minus, (a, b), r)
}

/// `r` is a result of `a.times(b)`.
pub open spec fn is_times<S: Scalar>(a: S, b: S, r: S) -> bool {
    call_ensures(S::times, (a, b), r)
}

/// `r` is a result of `a.over(b)`.
pub open spec fn is_over<S: Scalar>(a: S, b: S, r: S) -> bool {
    call_ensures(S::over, (a, b), r)
}

/// `r` is a result of `a.negated()`.
pub open spec fn is_negated<S: Scalar>(a: S, r: S) -> bool {
    call_ensures(S::negated, (a,), r)
}

/// `r` is a result of `a.sqrt()`.
pub open spec fn is_sqrt<S: Scalar>(a: S, r: S) -> bool {
    call_ensures(S::sqrt, (a,), r)
}

/// `r` is a result of `a.ln()`.
pub open spec fn is_ln<S: Scalar>(a: S, r: S) -> bool {
    call_ensures(S::ln, (a,), r)
}

/// `r` is a result of `a.abs()`.
pub open spec fn is_abs<S: Scalar>(a: S, r: S) -> bool {
    call_ensures(S::abs, (a,), r)
}

/// `a.exceeds(b)` may answer `r`.
pub open spec fn is_exceeds<S: Scalar>(a: S, b: S, r: bool) -> bool {
    call_ensures(S::exceeds, (a, b), r)
}

/// `a.at_most(b)` may answer `r`.
pub open spec fn is_at_most<S: Scalar>(a: S, b: S, r: bool) -> bool {
    call_ensures(S::at_most, (a, b), r)
}

/// `a.equals(b)` may answer `r`.
pub open spec fn is_equals<S: Scalar>(a: S, b: S, r: bool) -> bool {
    call_ensures(S::equals, (a, b), r)
}

/// `r` is a result of `S::random_unit()`.
pub open spec fn is_random_unit<S: Scalar>(r: S) -> bool {
    call_ensures(S::random_unit, (), r)
}

/// `S::weighted_index(weights)` may answer `r`.
pub open spec fn is_weighted_index<S: Scalar>(weights: Vec<S>, r: Option<usize>) -> bool {
    call_ensures(S::weighted_index, (&weights,), r)
}

/// `partial[k]` is the sum of the first `k` numbers of `xs`, added up from
/// zero in their order.
pub open spec fn is_running_sum<S: Scalar>(xs: Seq<S>, partial: Seq<S>) -> bool {
    &&& partial.len() == xs.len() + 1
    &&& is_zero(partial[0])
    &&& forall|k: int| 0 <= k < xs.len() ==> is_plus(partial[k], #[trigger] xs[k], partial[k + 1])
}

/// `total` is the sum of `xs`, added up from zero in their order.
pub open spec fn is_sum<S: Scalar>(xs: Seq<S>, total: S) -> bool {
    exists|partial: Seq<S>| #[trigger] is_running_sum(xs, partial) && total == partial.last()
}

/// The sum of `xs`, added up from zero in their order.
pub fn sum<S: Scalar>(xs: &Vec<S>) -> (total: S)
    ensures
        is_sum(xs@, total),
{
    let mut total = S::zero();
    let ghost mut partial: Seq<S> = seq![total];
    let mut k: usize = 0;
    while k < xs.len()
        invariant
            k <= xs.len(),
            partial.len() == k + 1,
            is_zero(partial[0]),
            partial[k as int] == total,
            forall|j: int| 0 <= j < k ==> is_plus(partial[j], #[trigger] xs[j], partial[j + 1]),
        decreases xs.len() - k,
    {
        total = total.plus(xs[k]);
        proof {
            partial = partial.push(total);
        }
        k += 1;
    }
    proof {
        assert(is_running_sum(xs@, partial));
    }
    total
}

} // verus!
