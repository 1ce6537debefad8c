//! The numbers the model computes with, and what it means for a number to be the
//! outcome of an operation.
//!
//! Every algorithm of this crate is generic over a [`Scalar`]. Nothing is assumed of
//! an implementation: the methods carry no contract, so a scalar may round, overflow
//! to infinity or hold a not-a-number. What a contract of this crate says of a result
//! is therefore always *which* operations produced it, on which operands and in which
//! order: `is_sum(a, b, r)` reads "`r` is a value that `a.add(b)` may return".
use vstd::prelude::*;

verus! {

/// A number type with the operations that training and sampling need.
pub trait Scalar: Copy + Send + Sync {
    /// The number zero.
    fn zero() -> Self;

    /// The number one.
    fn one() -> Self;

    /// The circle constant, the ratio of a circumference to its radius.
    fn tau() -> Self;

    /// A number below every other one.
    fn neg_infinity() -> Self;

    /// The whole number `n`.
    fn from_u64(n: u64) -> Self;

    /// The number `num / den`, rounded once.
    fn ratio(num: u32, den: u32) -> Self;

    /// The number `1 - (num / den)^n`, rounded as the type sees fit.
    fn one_minus_pow(num: u32, den: u32, n: u32) -> Self;

    fn add(self, other: Self) -> Self;

    fn sub(self, other: Self) -> Self;

    fn mul(self, other: Self) -> Self;

    fn div(self, other: Self) -> Self;

    fn neg(self) -> Self;

    /// The larger of the two numbers.
    fn max(self, other: Self) -> Self;

    fn sqrt(self) -> Self;

    fn exp(self) -> Self;

    /// The natural logarithm.
    fn ln(self) -> Self;

    fn cos(self) -> Self;

    fn powf(self, exponent: Self) -> Self;

    /// Whether the number is above zero.
    fn is_positive(self) -> bool;

    /// Whether the number is zero or below.
    fn is_nonpositive(self) -> bool;
}

/// A scalar that converts to another number type, rounding where that one is narrower.
pub trait Cast<To: Scalar>: Scalar {
    fn cast(self) -> To;
}

#[verifier::inline]
pub open spec fn is_zero<S: Scalar>(r: S) -> bool {
    call_ensures(S::zero, (), r)
}

#[verifier::inline]
pub open spec fn is_one<S: Scalar>(r: S) -> bool {
    call_ensures(S::one, (), r)
}

#[verifier::inline]
pub open spec fn is_tau<S: Scalar>(r: S) -> bool {
    call_ensures(S::tau, (), r)
}

#[verifier::inline]
pub open spec fn is_neg_infinity<S: Scalar>(r: S) -> bool {
    call_ensures(S::neg_infinity, (), r)
}

#[verifier::inline]
pub open spec fn is_num<S: Scalar>(n: u64, r: S) -> bool {
    call_ensures(S::from_u64, (n,), r)
}

#[verifier::inline]
pub open spec fn is_ratio<S: Scalar>(num: u32, den: u32, r: S) -> bool {
    call_ensures(S::ratio, (num, den), r)
}

#[verifier::inline]
pub open spec fn is_one_minus_pow<S: Scalar>(num: u32, den: u32, n: u32, r: S) -> bool {
    call_ensures(S::one_minus_pow, (num, den, n), r)
}

#[verifier::inline]
pub open spec fn is_sum<S: Scalar>(a: S, b: S, r: S) -> bool {
    call_ensures(S::add, (a, b), r)
}

#[verifier::inline]
pub open spec fn is_diff<S: Scalar>(a: S, b: S, r: S) -> bool {
    call_ensures(S::sub, (a, b), r)
}

#[verifier::inline]
pub open spec fn is_prod<S: Scalar>(a: S, b: S, r: S) -> bool {
    call_ensures(S::mul, (a, b), r)
}

#[verifier::inline]
pub open spec fn is_quot<S: Scalar>(a: S, b: S, r: S) -> bool {
    call_ensures(S::div, (a, b), r)
}

#[verifier::inline]
pub open spec fn is_neg<S: Scalar>(a: S, r: S) -> bool {
    call_ensures(S::neg, (a,), r)
}

#[verifier::inline]
pub open spec fn is_max<S: Scalar>(a: S, b: S, r: S) -> bool {
    call_ensures(S::max, (a, b), r)
}

#[verifier::inline]
pub open spec fn is_sqrt<S: Scalar>(a: S, r: S) -> bool {
    call_ensures(S::sqrt, (a,), r)
}

#[verifier::inline]
pub open spec fn is_exp<S: Scalar>(a: S, r: S) -> bool {
    call_ensures(S::exp, (a,), r)
}

#[verifier::inline]
pub open spec fn is_ln<S: Scalar>(a: S, r: S) -> bool {
    call_ensures(S::ln, (a,), r)
}

#[verifier::inline]
pub open spec fn is_cos<S: Scalar>(a: S, r: S) -> bool {
    call_ensures(S::cos, (a,), r)
}

#[verifier::inline]
pub open spec fn is_pow<S: Scalar>(a: S, exponent: S, r: S) -> bool {
    call_ensures(S::powf, (a, exponent), r)
}

/// `b` is an answer that `a.is_positive()` may give.
#[verifier::inline]
pub open spec fn tests_positive<S: Scalar>(a: S, b: bool) -> bool {
    call_ensures(S::is_positive, (a,), b)
}

/// `b` is an answer that `a.is_nonpositive()` may give.
#[verifier::inline]
pub open spec fn tests_nonpositive<S: Scalar>(a: S, b: bool) -> bool {
    call_ensures(S::is_nonpositive, (a,), b)
}

#[verifier::inline]
pub open spec fn is_cast<S: Cast<T>, T: Scalar>(a: S, r: T) -> bool {
    call_ensures(<S as Cast<T>>::cast, (a,), r)
}

/// `r` is what `value` becomes in a place that holds `before`: added to it where `accum` is
/// set, in its stead otherwise.
pub open spec fn lands<S: Scalar>(accum: bool, before: S, value: S, r: S) -> bool {
    if accum {
        is_sum(before, value, r)
    } else {
        r == value
    }
}

/// `r` is `start + t0 + t1 + ... + t(n-1)`, added one term at a time from the left,
/// where `term(i, t)` says that `t` may stand as term `i`.
pub open spec fn is_running_sum<S: Scalar>(
    start: S,
    term: spec_fn(int, S) -> bool,
    n: nat,
    r: S,
) -> bool
    decreases n,
{
    if n == 0 {
        r == start
    } else {
        exists|before: S, t: S|
            #![trigger is_sum(before, t, r)]
            is_running_sum(start, term, (n - 1) as nat, before) && term(n - 1, t) && is_sum(
                before,
                t,
                r,
            )
    }
}

/// One more term on a running sum.
pub proof fn lemma_running_sum_step<S: Scalar>(
    start: S,
    term: spec_fn(int, S) -> bool,
    n: nat,
    before: S,
    t: S,
    r: S,
)
    requires
        is_running_sum(start, term, n, before),
        term(n as int, t),
        is_sum(before, t, r),
    ensures
        is_running_sum(start, term, n + 1, r),
{
}

/// A running sum depends only on which terms may stand.
pub proof fn lemma_running_sum_congruent<S: Scalar>(
    start: S,
    term: spec_fn(int, S) -> bool,
    other: spec_fn(int, S) -> bool,
    n: nat,
    r: S,
)
    requires
        is_running_sum(start, term, n, r),
        forall|i: int, t: S| 0 <= i < n && #[trigger] term(i, t) ==> other(i, t),
    ensures
        is_running_sum(start, other, n, r),
    decreases n,
{
    if n > 0 {
        let (before, t) = choose|before: S, t: S|
            #![trigger is_sum(before, t, r)]
            is_running_sum(start, term, (n - 1) as nat, before) && term(n - 1, t) && is_sum(
                before,
                t,
                r,
            );
        lemma_running_sum_congruent(start, term, other, (n - 1) as nat, before);
        assert(other(n - 1, t));
        assert(is_sum(before, t, r));
    }
}

/// Whether every operation has one outcome: the same operands always give the same number.
pub open spec fn deterministic<S: Scalar>() -> bool {
    &&& forall|r: S, q: S| #[trigger] is_zero(r) && #[trigger] is_zero(q) ==> r == q
    &&& forall|r: S, q: S| #[trigger] is_one(r) && #[trigger] is_one(q) ==> r == q
    &&& forall|r: S, q: S| #[trigger] is_tau(r) && #[trigger] is_tau(q) ==> r == q
    &&& forall|r: S, q: S|
        #[trigger] is_neg_infinity(r) && #[trigger] is_neg_infinity(q) ==> r == q
    &&& forall|n: u64, r: S, q: S| #[trigger] is_num(n, r) && #[trigger] is_num(n, q) ==> r == q
    &&& forall|n: u32, d: u32, r: S, q: S|
        #[trigger] is_ratio(n, d, r) && #[trigger] is_ratio(n, d, q) ==> r == q
    &&& forall|n: u32, d: u32, k: u32, r: S, q: S|
        #[trigger] is_one_minus_pow(n, d, k, r) && #[trigger] is_one_minus_pow(n, d, k, q) ==> r
            == q
    &&& forall|a: S, b: S, r: S, q: S|
        #[trigger] is_sum(a, b, r) && #[trigger] is_sum(a, b, q) ==> r == q
    &&& forall|a: S, b: S, r: S, q: S|
        #[trigger] is_diff(a, b, r) && #[trigger] is_diff(a, b, q) ==> r == q
    &&& forall|a: S, b: S, r: S, q: S|
        #[trigger] is_prod(a, b, r) && #[trigger] is_prod(a, b, q) ==> r == q
    &&& forall|a: S, b: S, r: S, q: S|
        #[trigger] is_quot(a, b, r) && #[trigger] is_quot(a, b, q) ==> r == q
    &&& forall|a: S, b: S, r: S, q: S|
        #[trigger] is_max(a, b, r) && #[trigger] is_max(a, b, q) ==> r == q
    &&& forall|a: S, b: S, r: S, q: S|
        #[trigger] is_pow(a, b, r) && #[trigger] is_pow(a, b, q) ==> r == q
    &&& forall|a: S, r: S, q: S| #[trigger] is_neg(a, r) && #[trigger] is_neg(a, q) ==> r == q
    &&& forall|a: S, r: S, q: S| #[trigger] is_sqrt(a, r) && #[trigger] is_sqrt(a, q) ==> r == q
    &&& forall|a: S, r: S, q: S| #[trigger] is_exp(a, r) && #[trigger] is_exp(a, q) ==> r == q
    &&& forall|a: S, r: S, q: S| #[trigger] is_ln(a, r) && #[trigger] is_ln(a, q) ==> r == q
    &&& forall|a: S, r: S, q: S| #[trigger] is_cos(a, r) && #[trigger] is_cos(a, q) ==> r == q
    &&& forall|a: S, r: bool, q: bool|
        #[trigger] tests_positive(a, r) && #[trigger] tests_positive(a, q) ==> r == q
    &&& forall|a: S, r: bool, q: bool|
        #[trigger] tests_nonpositive(a, r) && #[trigger] tests_nonpositive(a, q) ==> r == q
}

/// A running sum has one outcome, where its terms have.
pub proof fn lemma_running_sum_unique<S: Scalar>(
    start: S,
    term: spec_fn(int, S) -> bool,
    other: spec_fn(int, S) -> bool,
    n: nat,
    r: S,
    q: S,
)
    requires
        deterministic::<S>(),
        is_running_sum(start, term, n, r),
        is_running_sum(start, other, n, q),
        forall|i: int, t: S, u: S|
            0 <= i < n && #[trigger] term(i, t) && #[trigger] other(i, u) ==> t == u,
    ensures
        r == q,
    decreases n,
{
    if n > 0 {
        let (b1, t1) = choose|before: S, t: S|
            #![trigger is_sum(before, t, r)]
            is_running_sum(start, term, (n - 1) as nat, before) && term(n - 1, t) && is_sum(
                before,
                t,
                r,
            );
        let (b2, t2) = choose|before: S, t: S|
            #![trigger is_sum(before, t, q)]
            is_running_sum(start, other, (n - 1) as nat, before) && other(n - 1, t) && is_sum(
                before,
                t,
                q,
            );
        lemma_running_sum_unique(start, term, other, (n - 1) as nat, b1, b2);
        assert(is_sum(b1, t1, r) && is_sum(b1, t1, q));
    }
}

} // verus!
