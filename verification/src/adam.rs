//! The Adam optimizer: one step for one parameter.
use vstd::prelude::*;

use crate::scalar::{
    is_diff, is_num, is_one, is_one_minus_pow, is_prod, is_quot, is_ratio, is_sqrt, is_sum, Scalar,
};

verus! {

/// The decay of the first moment, over [`BETA_DEN`].
pub const BETA1: u32 = 85;

/// The decay of the second moment, over [`BETA_DEN`].
pub const BETA2: u32 = 99;

pub const BETA_DEN: u32 = 100;

/// What keeps the step finite where the second moment is zero, as one over this number.
pub const ADAM_EPS_DEN: u32 = 100_000_000;

/// `fresh` is one minus the decay `num / BETA_DEN`, which is `beta`.
pub open spec fn is_decay<S: Scalar>(num: u32, beta: S, fresh: S) -> bool {
    exists|one: S|
        is_ratio(num, BETA_DEN, beta) && is_one(one) && #[trigger] is_diff(one, beta, fresh)
}

/// `r` is `beta * m + (1 - beta) * g`.
pub open spec fn is_first_moment<S: Scalar>(m: S, g: S, r: S) -> bool {
    exists|beta: S, fresh: S, kept: S, added: S|
        #![trigger is_prod(beta, m, kept), is_prod(fresh, g, added)]
        is_decay(BETA1, beta, fresh) && is_prod(beta, m, kept) && is_prod(fresh, g, added)
            && is_sum(kept, added, r)
}

/// `r` is `beta * v + (1 - beta) * g * g`.
pub open spec fn is_second_moment<S: Scalar>(v: S, g: S, r: S) -> bool {
    exists|beta: S, fresh: S, kept: S, scaled: S, added: S|
        #![trigger is_prod(beta, v, kept), is_prod(fresh, g, scaled), is_prod(scaled, g, added)]
        is_decay(BETA2, beta, fresh) && is_prod(beta, v, kept) && is_prod(fresh, g, scaled)
            && is_prod(scaled, g, added) && is_sum(kept, added, r)
}

/// `r` is the moment `x` with the bias of the first steps taken out: divided by
/// `1 - beta^(step + 1)`.
pub open spec fn is_unbiased<S: Scalar>(num: u32, step: nat, x: S, r: S) -> bool {
    exists|bias: S|
        is_one_minus_pow(num, BETA_DEN, (step + 1) as u32, bias) && #[trigger] is_quot(x, bias, r)
}

/// `r` is `p - lr * mh / (sqrt(vh) + eps)`.
pub open spec fn is_descent<S: Scalar>(p: S, lr: S, mh: S, vh: S, r: S) -> bool {
    exists|top: S, root: S, eps: S, bottom: S, delta: S|
        #![trigger is_prod(lr, mh, top), is_sum(root, eps, bottom), is_quot(top, bottom, delta)]
        is_prod(lr, mh, top) && is_sqrt(vh, root) && is_ratio(1, ADAM_EPS_DEN, eps) && is_sum(
            root,
            eps,
            bottom,
        ) && is_quot(top, bottom, delta) && is_diff(p, delta, r)
}

/// A parameter with its two moments.
pub struct Moments<S> {
    pub p: S,
    pub m: S,
    pub v: S,
}

/// `after` is what step `step` at the rate `lr` makes of `before`, given the gradient `g`.
pub open spec fn is_adam<S: Scalar>(
    step: nat,
    lr: S,
    g: S,
    before: Moments<S>,
    after: Moments<S>,
) -> bool {
    &&& is_first_moment(before.m, g, after.m)
    &&& is_second_moment(before.v, g, after.v)
    &&& exists|mh: S, vh: S|
        is_unbiased(BETA1, step, after.m, mh) && is_unbiased(BETA2, step, after.v, vh)
            && #[trigger] is_descent(before.p, lr, mh, vh, after.p)
}

/// `r` is the learning rate `base` at step `step` of `num_steps`: it falls to zero along a
/// line.
pub open spec fn is_decayed_rate<S: Scalar>(base: S, step: nat, num_steps: nat, r: S) -> bool {
    exists|now: S, end: S, part: S, one: S, left: S|
        #![trigger is_quot(now, end, part), is_diff(one, part, left)]
        is_num(step as u64, now) && is_num(num_steps as u64, end) && is_quot(now, end, part)
            && is_one(one) && is_diff(one, part, left) && is_prod(base, left, r)
}

/// The learning rate at step `step` of `num_steps`.
pub fn decayed_rate<S: Scalar>(base: S, step: usize, num_steps: usize) -> (r: S)
    ensures
        is_decayed_rate(base, step as nat, num_steps as nat, r),
{
    let now: S = S::from_u64(step as u64);
    let end: S = S::from_u64(num_steps as u64);
    let part: S = now.div(end);
    let one: S = S::one();
    let left: S = one.sub(part);
    base.mul(left)
}

/// What the gradient `g` makes of a parameter and its moments at step `step`.
pub fn adam_step<S: Scalar>(step: usize, lr: S, g: S, before: Moments<S>) -> (after: Moments<S>)
    requires
        step < i32::MAX,
    ensures
        is_adam(step as nat, lr, g, before, after),
{
    let m: S = first_moment(before.m, g);
    let v: S = second_moment(before.v, g);
    let n: u32 = step as u32 + 1;
    let bias1: S = S::one_minus_pow(BETA1, BETA_DEN, n);
    let mh: S = m.div(bias1);
    let bias2: S = S::one_minus_pow(BETA2, BETA_DEN, n);
    let vh: S = v.div(bias2);
    let p: S = descend(before.p, lr, mh, vh);
    assert(is_unbiased(BETA1, step as nat, m, mh));
    assert(is_unbiased(BETA2, step as nat, v, vh));
    let after: Moments<S> = Moments { p, m, v };
    assert(is_descent(before.p, lr, mh, vh, after.p));
    after
}

fn decay<S: Scalar>(num: u32) -> (pair: (S, S))
    ensures
        is_decay(num, pair.0, pair.1),
{
    let beta: S = S::ratio(num, BETA_DEN);
    let one: S = S::one();
    let fresh: S = one.sub(beta);
    (beta, fresh)
}

fn first_moment<S: Scalar>(m: S, g: S) -> (r: S)
    ensures
        is_first_moment(m, g, r),
{
    let (beta, fresh): (S, S) = decay(BETA1);
    let kept: S = beta.mul(m);
    let added: S = fresh.mul(g);
    kept.add(added)
}

fn second_moment<S: Scalar>(v: S, g: S) -> (r: S)
    ensures
        is_second_moment(v, g, r),
{
    let (beta, fresh): (S, S) = decay(BETA2);
    let kept: S = beta.mul(v);
    let scaled: S = fresh.mul(g);
    let added: S = scaled.mul(g);
    kept.add(added)
}

fn descend<S: Scalar>(p: S, lr: S, mh: S, vh: S) -> (r: S)
    ensures
        is_descent(p, lr, mh, vh, r),
{
    let top: S = lr.mul(mh);
    let root: S = vh.sqrt();
    let eps: S = S::ratio(1, ADAM_EPS_DEN);
    let bottom: S = root.add(eps);
    let delta: S = top.div(bottom);
    p.sub(delta)
}

} // verus!
