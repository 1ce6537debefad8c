//! Reductions: dot products, maxima and the softmax.
use vstd::prelude::*;

use crate::scalar::{
    is_diff, is_exp, is_max, is_neg_infinity, is_prod, is_quot, is_running_sum, is_zero,
    lemma_running_sum_step, Scalar,
};

verus! {

/// The products `x[xo + p * xs] * y[yo + p * ys]`, as the terms of a sum.
pub open spec fn dot_term<S: Scalar>(
    x: Seq<S>,
    xo: int,
    xs: int,
    y: Seq<S>,
    yo: int,
    ys: int,
) -> spec_fn(int, S) -> bool {
    |p: int, t: S| is_prod(x[xo + p * xs], y[yo + p * ys], t)
}

/// `r` is the dot product of `n` numbers of `x`, taken from `xo` on in steps of `xs`, with
/// `n` numbers of `y`, taken from `yo` on in steps of `ys`: the products are added up in
/// this order, from zero.
pub open spec fn is_dot<S: Scalar>(
    x: Seq<S>,
    xo: int,
    xs: int,
    y: Seq<S>,
    yo: int,
    ys: int,
    n: nat,
    r: S,
) -> bool {
    exists|zero: S|
        is_zero(zero) && #[trigger] is_running_sum(zero, dot_term(x, xo, xs, y, yo, ys), n, r)
}

/// The strided dot product of `x` and `y`.
pub fn dot<S: Scalar>(
    x: &[S],
    xo: usize,
    xs: usize,
    y: &[S],
    yo: usize,
    ys: usize,
    n: usize,
) -> (r: S)
    requires
        n > 0 ==> xo + (n - 1) * xs < x@.len(),
        n > 0 ==> yo + (n - 1) * ys < y@.len(),
    ensures
        is_dot(x@, xo as int, xs as int, y@, yo as int, ys as int, n as nat, r),
{
    let zero: S = S::zero();
    let mut acc: S = zero;
    let ghost term = dot_term(x@, xo as int, xs as int, y@, yo as int, ys as int);
    let x_len: usize = x.len();
    let y_len: usize = y.len();
    for p in 0..n
        invariant
            term == dot_term(x@, xo as int, xs as int, y@, yo as int, ys as int),
            x_len == x@.len(),
            y_len == y@.len(),
            n > 0 ==> xo + (n - 1) * xs < x@.len(),
            n > 0 ==> yo + (n - 1) * ys < y@.len(),
            is_running_sum(zero, term, p as nat, acc),
    {
        assert(0 <= p * xs <= (n - 1) * xs && 0 <= p * ys <= (n - 1) * ys) by (nonlinear_arith)
            requires
                0 <= p <= n - 1,
                xs >= 0,
                ys >= 0,
        ;
        let t: S = x[xo + p * xs].mul(y[yo + p * ys]);
        let ghost before = acc;
        acc = acc.add(t);
        proof {
            lemma_running_sum_step(zero, term, p as nat, before, t, acc);
        }
    }
    acc
}

/// `r` is the largest of `start` and the first `n` of `xs`, compared from the left.
pub open spec fn is_running_max<S: Scalar>(start: S, xs: Seq<S>, n: nat, r: S) -> bool
    decreases n,
{
    if n == 0 {
        r == start
    } else {
        exists|before: S, x: S|
            #![trigger is_max(before, x, r)]
            is_running_max(start, xs, (n - 1) as nat, before) && x == xs[n - 1] && is_max(
                before,
                x,
                r,
            )
    }
}

/// `r` is the largest of `xs`, starting from negative infinity.
pub open spec fn is_max_of<S: Scalar>(xs: Seq<S>, r: S) -> bool {
    exists|start: S|
        is_neg_infinity(start) && #[trigger] is_running_max(start, xs, xs.len(), r)
}

/// The largest of the first `n` numbers of `xs`.
pub fn max_of<S: Scalar>(xs: &[S], n: usize) -> (r: S)
    requires
        n <= xs@.len(),
    ensures
        is_max_of(xs@.take(n as int), r),
{
    let start: S = S::neg_infinity();
    let mut best: S = start;
    let ghost prefix = xs@.take(n as int);
    for i in 0..n
        invariant
            n <= xs@.len(),
            prefix == xs@.take(n as int),
            is_running_max(start, prefix, i as nat, best),
    {
        let ghost before = best;
        best = best.max(xs[i]);
        assert(is_max(before, prefix[i as int], best));
    }
    assert(prefix.len() == n);
    best
}

/// `e` is `exp(x - shift)`.
pub open spec fn is_shifted_exp<S: Scalar>(x: S, shift: S, e: S) -> bool {
    exists|diff: S| #[trigger] is_diff(x, shift, diff) && is_exp(diff, e)
}

/// The numbers of a sequence, as the terms of a sum.
pub open spec fn item_term<S: Scalar>(xs: Seq<S>) -> spec_fn(int, S) -> bool {
    |i: int, t: S| t == xs[i]
}

/// `r` is the sum of `xs`, added up from the left, from zero.
pub open spec fn is_total<S: Scalar>(xs: Seq<S>, r: S) -> bool {
    exists|zero: S|
        is_zero(zero) && #[trigger] is_running_sum(zero, item_term(xs), xs.len(), r)
}

/// The sum of the first `n` numbers of `xs`.
pub fn total<S: Scalar>(xs: &[S], n: usize) -> (r: S)
    requires
        n <= xs@.len(),
    ensures
        is_total(xs@.take(n as int), r),
{
    let zero: S = S::zero();
    let mut acc: S = zero;
    let ghost term = item_term(xs@.take(n as int));
    for i in 0..n
        invariant
            n <= xs@.len(),
            term == item_term(xs@.take(n as int)),
            is_running_sum(zero, term, i as nat, acc),
    {
        let ghost before = acc;
        acc = acc.add(xs[i]);
        proof {
            lemma_running_sum_step(zero, term, i as nat, before, xs@[i as int], acc);
        }
    }
    assert(xs@.take(n as int).len() == n);
    acc
}

/// `p` is the softmax of `s`: `exp(s - max)`, divided by the sum of these.
pub open spec fn is_softmax<S: Scalar>(s: Seq<S>, p: Seq<S>) -> bool {
    exists|shift: S, e: Seq<S>, sum: S| #[trigger] is_softmax_by(s, p, shift, e, sum)
}

/// [`is_softmax`], with the maximum, the exponentials and their sum.
pub open spec fn is_softmax_by<S: Scalar>(
    s: Seq<S>,
    p: Seq<S>,
    shift: S,
    e: Seq<S>,
    sum: S,
) -> bool {
    &&& is_max_of(s, shift)
    &&& e.len() == s.len()
    &&& forall|i: int| 0 <= i < s.len() ==> is_shifted_exp(s[i], shift, #[trigger] e[i])
    &&& is_total(e, sum)
    &&& p.len() == s.len()
    &&& forall|i: int| 0 <= i < s.len() ==> is_quot(e[i], sum, #[trigger] p[i])
}

/// Replaces the first `n` numbers of `xs` by their softmax.
pub fn softmax_in_place<S: Scalar>(xs: &mut [S], n: usize)
    requires
        n <= old(xs)@.len(),
    ensures
        final(xs)@.len() == old(xs)@.len(),
        is_softmax(old(xs)@.take(n as int), final(xs)@.take(n as int)),
        final(xs)@.skip(n as int) == old(xs)@.skip(n as int),
{
    let ghost before = xs@;
    let ghost s = xs@.take(n as int);
    let shift: S = max_of(xs, n);
    for i in 0..n
        invariant
            n <= xs@.len() == before.len(),
            s == before.take(n as int),
            forall|k: int| 0 <= k < i ==> is_shifted_exp(s[k], shift, #[trigger] xs@[k]),
            forall|k: int| i <= k < xs@.len() ==> xs@[k] == before[k],
    {
        let diff: S = xs[i].sub(shift);
        xs[i] = diff.exp();
        assert(is_shifted_exp(s[i as int], shift, xs@[i as int]));
    }
    let ghost e = xs@.take(n as int);
    let sum: S = total(xs, n);
    for i in 0..n
        invariant
            n <= xs@.len() == before.len(),
            e.len() == n,
            forall|k: int| 0 <= k < i ==> is_quot(e[k], sum, #[trigger] xs@[k]),
            forall|k: int| i <= k < n ==> xs@[k] == e[k],
            forall|k: int| n <= k < xs@.len() ==> xs@[k] == before[k],
    {
        xs[i] = xs[i].div(sum);
    }
    proof {
        assert(xs@.skip(n as int) =~= before.skip(n as int));
        assert(is_softmax_by(s, xs@.take(n as int), shift, e, sum));
    }
}

} // verus!
