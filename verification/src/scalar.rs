//! The numbers the kernels compute with.
//!
//! Every kernel of this crate is generic over a [`Scalar`]: a copyable number
//! with the arithmetic of a rounded real type (in practice an IEEE-754 single).
//! Nothing is assumed of the operations. A contract that speaks of a sum or a
//! product says that the value stored is *a result of* the operation on the
//! named operands, through the predicates below, each of which is the
//! postcondition of the trait method it is named after.
use vstd::prelude::*;

verus! {

/// A number type with the operations the kernels need.
///
/// The methods carry no contract: an implementation may round, saturate, or
/// produce not-a-number values as it sees fit. The kernels only fix which
/// operation is applied to which operands, and in which order.
pub trait Scalar: Copy {
    /// The number nearest to the integer `n`.
    fn from_usize(n: usize) -> Self;

    /// The circle constant.
    fn pi() -> Self;

    /// A value below every number, the start of a running maximum.
    fn neg_infinity() -> Self;

    /// The sum `self + rhs`.
    fn add(self, rhs: Self) -> Self;

    /// The difference `self - rhs`.
    fn sub(self, rhs: Self) -> Self;

    /// The product `self * rhs`.
    fn mul(self, rhs: Self) -> Self;

    /// The quotient `self / rhs`.
    fn div(self, rhs: Self) -> Self;

    /// The number with the opposite sign.
    fn neg(self) -> Self;

    /// The square root.
    fn sqrt(self) -> Self;

    /// The exponential.
    fn exp(self) -> Self;

    /// The natural logarithm.
    fn ln(self) -> Self;

    /// The hyperbolic tangent.
    fn tanh(self) -> Self;

    /// The hyperbolic cosine.
    fn cosh(self) -> Self;

    /// Whether `self` is strictly greater than `rhs`.
    fn gt(self, rhs: Self) -> bool;

    /// Whether `self` compares equal to `rhs`.
    fn same(self, rhs: Self) -> bool;
}

/// `r` is a result of `Scalar::from_usize(n)`.
#[verifier::inline]
pub open spec fn is_num<S: Scalar>(n: usize, r: S) -> bool {
    call_ensures(S::from_usize, (n,), r)
}

/// `r` is a result of `Scalar::pi()`.
#[verifier::inline]
pub open spec fn is_pi<S: Scalar>(r: S) -> bool {
    call_ensures(S::pi, (), r)
}

/// `r` is a result of `Scalar::neg_infinity()`.
#[verifier::inline]
pub open spec fn is_neg_infinity<S: Scalar>(r: S) -> bool {
    call_ensures(S::neg_infinity, (), r)
}

/// `r` is a result of `a + b`.
#[verifier::inline]
pub open spec fn is_add<S: Scalar>(a: S, b: S, r: S) -> bool {
    call_ensures(S::add, (a, b), r)
}

/// `r` is a result of `a - b`.
#[verifier::inline]
pub open spec fn is_sub<S: Scalar>(a: S, b: S, r: S) -> bool {
    call_ensures(S::sub, (a, b), r)
}

/// `r` is a result of `a * b`.
#[verifier::inline]
pub open spec fn is_mul<S: Scalar>(a: S, b: S, r: S) -> bool {
    call_ensures(S::mul, (a, b), r)
}

/// `r` is a result of `a / b`.
#[verifier::inline]
pub open spec fn is_div<S: Scalar>(a: S, b: S, r: S) -> bool {
    call_ensures(S::div, (a, b), r)
}

/// `r` is a result of `-a`.
#[verifier::inline]
pub open spec fn is_neg<S: Scalar>(a: S, r: S) -> bool {
    call_ensures(S::neg, (a,), r)
}

/// `r` is a result of the square root of `a`.
#[verifier::inline]
pub open spec fn is_sqrt<S: Scalar>(a: S, r: S) -> bool {
    call_ensures(S::sqrt, (a,), r)
}

/// `r` is a result of the exponential of `a`.
#[verifier::inline]
pub open spec fn is_exp<S: Scalar>(a: S, r: S) -> bool {
    call_ensures(S::exp, (a,), r)
}

/// `r` is a result of the natural logarithm of `a`.
#[verifier::inline]
pub open spec fn is_ln<S: Scalar>(a: S, r: S) -> bool {
    call_ensures(S::ln, (a,), r)
}

/// `r` is a result of the hyperbolic tangent of `a`.
#[verifier::inline]
pub open spec fn is_tanh<S: Scalar>(a: S, r: S) -> bool {
    call_ensures(S::tanh, (a,), r)
}

/// `r` is a result of the hyperbolic cosine of `a`.
#[verifier::inline]
pub open spec fn is_cosh<S: Scalar>(a: S, r: S) -> bool {
    call_ensures(S::cosh, (a,), r)
}

/// `r` is an answer of `a > b`.
#[verifier::inline]
pub open spec fn is_gt<S: Scalar>(a: S, b: S, r: bool) -> bool {
    call_ensures(S::gt, (a, b), r)
}

/// `r` is an answer of `a == b`.
#[verifier::inline]
pub open spec fn is_same<S: Scalar>(a: S, b: S, r: bool) -> bool {
    call_ensures(S::same, (a, b), r)
}

/// `r` is a result of dividing the number for `num` by the number for `den`.
pub open spec fn is_ratio<S: Scalar>(num: usize, den: usize, r: S) -> bool {
    exists|a: S, b: S| is_num(num, a) && is_num(den, b) && is_div(a, b, r)
}

/// The constant `num / den`, rounded once by the division.
pub fn ratio<S: Scalar>(num: usize, den: usize) -> (r: S)
    ensures
        is_ratio(num, den, r),
{
    let a = S::from_usize(num);
    let b = S::from_usize(den);
    a.div(b)
}

/// Every operation of `S` is a function: it has at most one result for given
/// operands. This holds of an arithmetic that is free of hidden state.
pub open spec fn functional<S: Scalar>() -> bool {
    &&& forall|n: usize, r1: S, r2: S| is_num(n, r1) && is_num(n, r2) ==> r1 == r2
    &&& forall|r1: S, r2: S| is_pi(r1) && is_pi(r2) ==> r1 == r2
    &&& forall|r1: S, r2: S| is_neg_infinity(r1) && is_neg_infinity(r2) ==> r1 == r2
    &&& forall|a: S, b: S, r1: S, r2: S| is_add(a, b, r1) && is_add(a, b, r2) ==> r1 == r2
    &&& forall|a: S, b: S, r1: S, r2: S| is_sub(a, b, r1) && is_sub(a, b, r2) ==> r1 == r2
    &&& forall|a: S, b: S, r1: S, r2: S| is_mul(a, b, r1) && is_mul(a, b, r2) ==> r1 == r2
    &&& forall|a: S, b: S, r1: S, r2: S| is_div(a, b, r1) && is_div(a, b, r2) ==> r1 == r2
    &&& forall|a: S, r1: S, r2: S| is_neg(a, r1) && is_neg(a, r2) ==> r1 == r2
    &&& forall|a: S, r1: S, r2: S| is_sqrt(a, r1) && is_sqrt(a, r2) ==> r1 == r2
    &&& forall|a: S, r1: S, r2: S| is_exp(a, r1) && is_exp(a, r2) ==> r1 == r2
    &&& forall|a: S, r1: S, r2: S| is_ln(a, r1) && is_ln(a, r2) ==> r1 == r2
    &&& forall|a: S, r1: S, r2: S| is_tanh(a, r1) && is_tanh(a, r2) ==> r1 == r2
    &&& forall|a: S, r1: S, r2: S| is_cosh(a, r1) && is_cosh(a, r2) ==> r1 == r2
    &&& forall|a: S, b: S, r1: bool, r2: bool| is_gt(a, b, r1) && is_gt(a, b, r2) ==> r1 == r2
    &&& forall|a: S, b: S, r1: bool, r2: bool| is_same(a, b, r1) && is_same(a, b, r2) ==> r1 == r2
}

/// With an arithmetic that is a function, a ratio of two integers is one
/// number.
pub proof fn lemma_ratio_unique<S: Scalar>(num: usize, den: usize, r1: S, r2: S)
    requires
        functional::<S>(),
        is_ratio(num, den, r1),
        is_ratio(num, den, r2),
    ensures
        r1 == r2,
{
}

/// The additions of `S` are exact: every operation is a function, every two
/// numbers have a sum, a sum of three numbers does not depend on where the
/// brackets stand, and some number changes nothing when it is added.
///
/// This holds of integers and fractions. It does not hold of an arithmetic that
/// rounds: there `(a + b) + c` and `a + (b + c)` may differ.
pub open spec fn exact_sums<S: Scalar>() -> bool {
    &&& functional::<S>()
    &&& forall|a: S, b: S| #[trigger] has_sum(a, b)
    &&& forall|a: S, b: S, c: S, ab: S, bc: S, r1: S, r2: S|
        #![trigger is_add(a, b, ab), is_add(ab, c, r1), is_add(b, c, bc), is_add(a, bc, r2)]
        is_add(a, b, ab) && is_add(ab, c, r1) && is_add(b, c, bc) && is_add(a, bc, r2) ==> r1
            == r2
    &&& exists|z: S| neutral(z)
}

/// `a + b` has a result.
pub open spec fn has_sum<S: Scalar>(a: S, b: S) -> bool {
    exists|r: S| is_add(a, b, r)
}

/// Adding `z` to a number gives the number.
pub open spec fn neutral<S: Scalar>(z: S) -> bool {
    forall|a: S| #[trigger] is_add(a, z, a)
}

/// With exact additions, a number that grew by `delta` and then by `step` grew
/// by `delta + step`.
pub proof fn lemma_add_then_add<S: Scalar>(old: S, delta: S, mid: S, step: S, new: S) -> (sum: S)
    requires
        exact_sums::<S>(),
        is_add(old, delta, mid),
        is_add(mid, step, new),
    ensures
        is_add(delta, step, sum),
        is_add(old, sum, new),
{
    assert(has_sum(delta, step));
    let sum = choose|r: S| is_add(delta, step, r);
    assert(has_sum(old, sum));
    let q = choose|r: S| is_add(old, sum, r);
    assert(is_add(old, delta, mid) && is_add(mid, step, new) && is_add(delta, step, sum) && is_add(
        old,
        sum,
        q,
    ));
    sum
}

/// `mid` is `old` plus some number, and `new` is `old` plus twice that number.
pub open spec fn grew_twice<S: Scalar>(old: S, mid: S, new: S) -> bool {
    exists|delta: S, double: S|
        is_add(old, delta, mid) && #[trigger] is_add(delta, delta, double) && is_add(
            old,
            double,
            new,
        )
}

/// Accumulating twice doubles what is added: with exact additions, a number
/// that grew by `delta` twice grew by `delta + delta`.
pub proof fn lemma_added_twice<S: Scalar>(old: S, delta: S, mid: S, new: S)
    requires
        exact_sums::<S>(),
        is_add(old, delta, mid),
        is_add(mid, delta, new),
    ensures
        grew_twice(old, mid, new),
{
    let double = lemma_add_then_add(old, delta, mid, delta, new);
    assert(is_add(delta, delta, double));
}

} // verus!
