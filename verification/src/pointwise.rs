//! Operations that work number by number.
use vstd::prelude::*;

use crate::scalar::{is_max, is_sum, is_zero, tests_nonpositive, Scalar};

verus! {

/// `r` is the larger of `x` and zero.
pub open spec fn is_relu<S: Scalar>(x: S, r: S) -> bool {
    exists|zero: S| is_zero(zero) && #[trigger] is_max(x, zero, r)
}

/// `after` is `before` where `x` is positive, and zero where it is not.
pub open spec fn is_relu_grad<S: Scalar>(x: S, before: S, after: S) -> bool {
    ||| tests_nonpositive(x, true) && is_zero(after)
    ||| tests_nonpositive(x, false) && after == before
}

/// `y` is `x` with the negative numbers cut off.
pub open spec fn is_relu_fwd<S: Scalar>(y: Seq<S>, x: Seq<S>) -> bool {
    forall|i: int| 0 <= i < y.len() ==> is_relu(x[i], #[trigger] y[i])
}

/// `after` is `before` with a zero wherever the number of `x` is not positive.
pub open spec fn is_relu_bwd<S: Scalar>(before: Seq<S>, after: Seq<S>, x: Seq<S>) -> bool {
    &&& after.len() == before.len()
    &&& forall|i: int|
        0 <= i < after.len() ==> is_relu_grad(x[i], before[i], #[trigger] after[i])
}

/// `y` is `a + b`.
pub open spec fn is_add<S: Scalar>(y: Seq<S>, a: Seq<S>, b: Seq<S>) -> bool {
    forall|i: int| 0 <= i < y.len() ==> is_sum(a[i], b[i], #[trigger] y[i])
}

/// `after` is `before + x`.
pub open spec fn is_add_inplace<S: Scalar>(before: Seq<S>, after: Seq<S>, x: Seq<S>) -> bool {
    &&& after.len() == before.len()
    &&& is_add(after, before, x)
}

/// Cuts off the negative numbers of `x`.
pub fn relu_fwd<S: Scalar>(y: &mut [S], x: &[S])
    requires
        old(y)@.len() <= x@.len(),
    ensures
        final(y)@.len() == old(y)@.len(),
        is_relu_fwd(final(y)@, x@),
{
    let n: usize = y.len();
    for i in 0..n
        invariant
            n == y@.len(),
            n <= x@.len(),
            forall|k: int| 0 <= k < i ==> is_relu(x@[k], #[trigger] y@[k]),
    {
        let zero: S = S::zero();
        y[i] = x[i].max(zero);
        assert(is_relu(x@[i as int], y@[i as int]));
    }
}

/// Puts a zero into `d` wherever the number of `x` is not positive.
pub fn relu_bwd_inplace<S: Scalar>(d: &mut [S], x: &[S])
    requires
        old(d)@.len() <= x@.len(),
    ensures
        is_relu_bwd(old(d)@, final(d)@, x@),
{
    let n: usize = d.len();
    let ghost before = d@;
    for i in 0..n
        invariant
            n == d@.len() == before.len(),
            n <= x@.len(),
            forall|k: int| 0 <= k < i ==> is_relu_grad(x@[k], before[k], #[trigger] d@[k]),
            forall|k: int| i <= k < n ==> d@[k] == before[k],
    {
        if x[i].is_nonpositive() {
            d[i] = S::zero();
        }
    }
}

/// `y = a + b`.
pub fn add_fwd<S: Scalar>(y: &mut [S], a: &[S], b: &[S])
    requires
        old(y)@.len() <= a@.len(),
        old(y)@.len() <= b@.len(),
    ensures
        final(y)@.len() == old(y)@.len(),
        is_add(final(y)@, a@, b@),
{
    let n: usize = y.len();
    for i in 0..n
        invariant
            n == y@.len(),
            n <= a@.len(),
            n <= b@.len(),
            forall|k: int| 0 <= k < i ==> is_sum(a@[k], b@[k], #[trigger] y@[k]),
    {
        y[i] = a[i].add(b[i]);
    }
}

/// `y += x`.
pub fn add_inplace<S: Scalar>(y: &mut [S], x: &[S])
    requires
        old(y)@.len() <= x@.len(),
    ensures
        is_add_inplace(old(y)@, final(y)@, x@),
{
    let n: usize = y.len();
    let ghost before = y@;
    for i in 0..n
        invariant
            n == y@.len() == before.len(),
            n <= x@.len(),
            forall|k: int| 0 <= k < i ==> is_sum(before[k], x@[k], #[trigger] y@[k]),
            forall|k: int| i <= k < n ==> y@[k] == before[k],
    {
        y[i] = y[i].add(x[i]);
    }
}

} // verus!
