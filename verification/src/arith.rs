//! The arithmetic that the numeric stages are built on. The library moves
//! numbers about by their bit patterns and leaves every calculation to an
//! implementation of [`Arithmetic`], which its caller supplies.

use vstd::prelude::*;

verus! {

/// The operations of binary64 arithmetic, on bit patterns. The library
/// promises nothing of their results: what it computes through them is
/// stated by which operations it applied, to what, and in which order.
pub trait Arithmetic {
    /// `a + b`.
    fn sum(&self, a: u64, b: u64) -> u64;

    /// `a - b`.
    fn difference(&self, a: u64, b: u64) -> u64;

    /// `a * b`.
    fn product(&self, a: u64, b: u64) -> u64;

    /// `a / b`.
    fn quotient(&self, a: u64, b: u64) -> u64;

    /// The square root of `a`.
    fn square_root(&self, a: u64) -> u64;

    /// The number nearest to the count `n`.
    fn from_count(&self, n: usize) -> u64;
}

/// `r` is what `arith` gave, or could give, for `a + b`.
pub open spec fn is_sum<A: Arithmetic>(arith: &A, a: u64, b: u64, r: u64) -> bool {
    call_ensures(A::sum, (arith, a, b), r)
}

/// `r` is what `arith` gave, or could give, for `a - b`.
pub open spec fn is_difference<A: Arithmetic>(arith: &A, a: u64, b: u64, r: u64) -> bool {
    call_ensures(A::difference, (arith, a, b), r)
}

/// `r` is what `arith` gave, or could give, for `a * b`.
pub open spec fn is_product<A: Arithmetic>(arith: &A, a: u64, b: u64, r: u64) -> bool {
    call_ensures(A::product, (arith, a, b), r)
}

/// `r` is what `arith` gave, or could give, for `a / b`.
pub open spec fn is_quotient<A: Arithmetic>(arith: &A, a: u64, b: u64, r: u64) -> bool {
    call_ensures(A::quotient, (arith, a, b), r)
}

/// `r` is what `arith` gave, or could give, for the square root of `a`.
pub open spec fn is_square_root<A: Arithmetic>(arith: &A, a: u64, r: u64) -> bool {
    call_ensures(A::square_root, (arith, a), r)
}

/// `r` is what `arith` gave, or could give, for the count `n`.
pub open spec fn is_count<A: Arithmetic>(arith: &A, n: usize, r: u64) -> bool {
    call_ensures(A::from_count, (arith, n), r)
}

/// Each operation of `arith` has one result only for given operands.
pub open spec fn is_function<A: Arithmetic>(arith: &A) -> bool {
    &&& forall|a: u64, b: u64, r: u64, s: u64| #[trigger]
        is_sum(arith, a, b, r) && #[trigger] is_sum(arith, a, b, s) ==> r == s
    &&& forall|a: u64, b: u64, r: u64, s: u64| #[trigger]
        is_difference(arith, a, b, r) && #[trigger] is_difference(arith, a, b, s) ==> r == s
    &&& forall|a: u64, b: u64, r: u64, s: u64| #[trigger]
        is_product(arith, a, b, r) && #[trigger] is_product(arith, a, b, s) ==> r == s
    &&& forall|a: u64, b: u64, r: u64, s: u64| #[trigger]
        is_quotient(arith, a, b, r) && #[trigger] is_quotient(arith, a, b, s) ==> r == s
    &&& forall|a: u64, r: u64, s: u64| #[trigger]
        is_square_root(arith, a, r) && #[trigger] is_square_root(arith, a, s) ==> r == s
    &&& forall|n: usize, r: u64, s: u64| #[trigger]
        is_count(arith, n, r) && #[trigger] is_count(arith, n, s) ==> r == s
}

} // verus!
