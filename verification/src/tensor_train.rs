//! Parameters and optimizer of the model in terms of whole tensors.
use vstd::prelude::*;

use crate::adam::{Moments, ADAM_EPS_DEN, BETA1, BETA2, BETA_DEN};
use crate::layout::{layer_len, layer_start, lemma_layers_fit, param_count, Cfg, Layout};
use crate::scalar::{is_diff, is_one, is_one_minus_pow, is_ratio, Scalar};
use crate::tensor::{
    is_divide, is_minus, is_multiply, is_number, is_plus, is_ratio_number, is_root, tensor_count,
    Tensor, P_LAYER0, PARAMS_PER_LAYER,
};

verus! {

/// A matrix in the flat parameter buffer.
#[derive(Clone, Copy)]
pub struct MatrixAt {
    pub start: usize,
    pub rows: usize,
    pub cols: usize,
}

/// Where matrix `i` starts, and how many rows and columns it has.
pub open spec fn matrix_at(cfg: Cfg, vocab: int, i: int) -> (int, int, int) {
    let c = cfg.n_embd as int;
    let square = c * c;
    if i == 0 {
        (0, vocab, c)
    } else if i == 1 {
        (vocab * c, cfg.block_size as int, c)
    } else if i == 2 {
        (vocab * c + cfg.block_size * c, vocab, c)
    } else {
        let start = layer_start(cfg, vocab, (i - P_LAYER0) / (PARAMS_PER_LAYER as int));
        let k = (i - P_LAYER0) % (PARAMS_PER_LAYER as int);
        if k == 0 {
            (start, c, c)
        } else if k == 1 {
            (start + square, c, c)
        } else if k == 2 {
            (start + 2 * square, c, c)
        } else if k == 3 {
            (start + 3 * square, c, c)
        } else if k == 4 {
            (start + 4 * square, 4 * c, c)
        } else {
            (start + 8 * square, c, 4 * c)
        }
    }
}

impl MatrixAt {
    /// Whether this is matrix `i`.
    pub open spec fn stands(&self, cfg: Cfg, vocab: int, i: int) -> bool {
        (self.start as int, self.rows as int, self.cols as int) == matrix_at(cfg, vocab, i)
    }
}

/// The matrices fill the flat parameter buffer in their order, without gaps.
pub proof fn law_matrices_are_gapless(cfg: Cfg, vocab: int, i: int)
    requires
        0 <= i < tensor_count(cfg),
        vocab >= 0,
    ensures
        matrix_at(cfg, vocab, 0).0 == 0,
        i + 1 < tensor_count(cfg) ==> matrix_at(cfg, vocab, i + 1).0 == matrix_at(cfg, vocab, i).0
            + matrix_at(cfg, vocab, i).1 * matrix_at(cfg, vocab, i).2,
        i + 1 == tensor_count(cfg) ==> param_count(cfg, vocab) == matrix_at(cfg, vocab, i).0
            + matrix_at(cfg, vocab, i).1 * matrix_at(cfg, vocab, i).2,
{
    let c = cfg.n_embd as int;
    assert((4 * c) * c == 4 * (c * c) && c * (4 * c) == 4 * (c * c)) by (nonlinear_arith);
    assert(0 * layer_len(cfg) == 0);
    if i >= P_LAYER0 {
        let li = (i - P_LAYER0) / (PARAMS_PER_LAYER as int);
        let k = (i - P_LAYER0) % (PARAMS_PER_LAYER as int);
        lemma_layers_fit(cfg, vocab, li);
        if k == 5 {
            assert((i + 1 - P_LAYER0) / (PARAMS_PER_LAYER as int) == li + 1);
            assert((i + 1 - P_LAYER0) % (PARAMS_PER_LAYER as int) == 0);
        } else {
            assert((i + 1 - P_LAYER0) / (PARAMS_PER_LAYER as int) == li);
            assert((i + 1 - P_LAYER0) % (PARAMS_PER_LAYER as int) == k + 1);
        }
    }
}

/// The matrices of a model of shape `cfg`, in their order.
pub fn matrices(cfg: &Cfg, vocab: usize) -> (list: Vec<MatrixAt>)
    requires
        param_count(*cfg, vocab as int) <= usize::MAX,
        4 * cfg.n_embd <= usize::MAX,
        tensor_count(*cfg) <= usize::MAX,
    ensures
        list@.len() == tensor_count(*cfg),
        forall|i: int|
            0 <= i < list@.len() ==> (#[trigger] list@[i]).stands(*cfg, vocab as int, i),
{
    let l: Layout = Layout::new(cfg, vocab);
    let c: usize = cfg.n_embd;
    let c4: usize = 4 * c;
    let mut list: Vec<MatrixAt> = Vec::new();
    list.push(MatrixAt { start: l.wte, rows: vocab, cols: c });
    list.push(MatrixAt { start: l.wpe, rows: cfg.block_size, cols: c });
    list.push(MatrixAt { start: l.lm_head, rows: vocab, cols: c });
    for li in 0..cfg.n_layer
        invariant
            l.stands(*cfg, vocab as int),
            c == cfg.n_embd,
            c4 == 4 * c,
            list@.len() == P_LAYER0 + li * PARAMS_PER_LAYER,
            forall|i: int|
                0 <= i < list@.len() ==> (#[trigger] list@[i]).stands(*cfg, vocab as int, i),
    {
        let lo = l.layers[li];
        let ghost at = list@.len() as int;
        proof {
            assert(lo.stands(*cfg, vocab as int, li as int));
            assert((at + 0 - P_LAYER0) / (PARAMS_PER_LAYER as int) == li && (at + 0 - P_LAYER0) % (
            PARAMS_PER_LAYER as int) == 0);
            assert((at + 1 - P_LAYER0) / (PARAMS_PER_LAYER as int) == li && (at + 1 - P_LAYER0) % (
            PARAMS_PER_LAYER as int) == 1);
            assert((at + 2 - P_LAYER0) / (PARAMS_PER_LAYER as int) == li && (at + 2 - P_LAYER0) % (
            PARAMS_PER_LAYER as int) == 2);
            assert((at + 3 - P_LAYER0) / (PARAMS_PER_LAYER as int) == li && (at + 3 - P_LAYER0) % (
            PARAMS_PER_LAYER as int) == 3);
            assert((at + 4 - P_LAYER0) / (PARAMS_PER_LAYER as int) == li && (at + 4 - P_LAYER0) % (
            PARAMS_PER_LAYER as int) == 4);
            assert((at + 5 - P_LAYER0) / (PARAMS_PER_LAYER as int) == li && (at + 5 - P_LAYER0) % (
            PARAMS_PER_LAYER as int) == 5);
        }
        list.push(MatrixAt { start: lo.wq, rows: c, cols: c });
        list.push(MatrixAt { start: lo.wk, rows: c, cols: c });
        list.push(MatrixAt { start: lo.wv, rows: c, cols: c });
        list.push(MatrixAt { start: lo.wo, rows: c, cols: c });
        list.push(MatrixAt { start: lo.fc1, rows: c4, cols: c });
        list.push(MatrixAt { start: lo.fc2, rows: c, cols: c4 });
        assert(list@[at].stands(*cfg, vocab as int, at));
        assert(list@[at + 1].stands(*cfg, vocab as int, at + 1));
        assert(list@[at + 2].stands(*cfg, vocab as int, at + 2));
        assert(list@[at + 3].stands(*cfg, vocab as int, at + 3));
        assert(list@[at + 4].stands(*cfg, vocab as int, at + 4));
        assert(list@[at + 5].stands(*cfg, vocab as int, at + 5));
    }
    list
}

/// `r` is the number `1 - num / BETA_DEN`.
pub open spec fn is_fresh_number<S: Scalar, T: Tensor<S>>(num: u32, r: T) -> bool {
    exists|one: S, beta: S, fresh: S|
        #![trigger is_diff(one, beta, fresh), is_number::<S, T>(fresh, r)]
        is_one(one) && is_ratio(num, BETA_DEN, beta) && is_diff(one, beta, fresh) && is_number::<
            S,
            T,
        >(fresh, r)
}

/// `r` is the number `1 - (num / BETA_DEN)^(step + 1)`.
pub open spec fn is_bias_number<S: Scalar, T: Tensor<S>>(num: u32, step: nat, r: T) -> bool {
    exists|bias: S|
        is_one_minus_pow(num, BETA_DEN, (step + 1) as u32, bias) && #[trigger] is_number::<S, T>(
            bias,
            r,
        )
}

/// `r` is `x * beta + g * (1 - beta)`.
pub open spec fn is_tensor_moment<S: Scalar, T: Tensor<S>>(num: u32, x: T, g: T, r: T) -> bool {
    exists|beta: T, fresh: T, kept: T, added: T|
        #![trigger is_multiply::<S, T>(x, beta, kept), is_multiply::<S, T>(g, fresh, added)]
        is_ratio_number::<S, T>(num, BETA_DEN, beta) && is_fresh_number::<S, T>(num, fresh)
            && is_multiply::<S, T>(x, beta, kept) && is_multiply::<S, T>(g, fresh, added)
            && is_plus::<S, T>(kept, added, r)
}

/// `r` is `x` with the bias of the first steps taken out.
pub open spec fn is_tensor_unbiased<S: Scalar, T: Tensor<S>>(
    num: u32,
    step: nat,
    x: T,
    r: T,
) -> bool {
    exists|bias: T| #[trigger]
        is_divide::<S, T>(x, bias, r) && is_bias_number::<S, T>(num, step, bias)
}

/// `r` is `p - mh * lr / (sqrt(vh) + eps)`.
pub open spec fn is_tensor_descent<S: Scalar, T: Tensor<S>>(
    p: T,
    lr: S,
    mh: T,
    vh: T,
    r: T,
) -> bool {
    exists|rate: T, top: T, root: T, eps: T, bottom: T, delta: T|
        #![trigger is_multiply::<S, T>(mh, rate, top), is_plus::<S, T>(root, eps, bottom), is_divide::<S, T>(top, bottom, delta)]
        is_number::<S, T>(lr, rate) && is_multiply::<S, T>(mh, rate, top) && is_root::<S, T>(
            vh,
            root,
        ) && is_ratio_number::<S, T>(1, ADAM_EPS_DEN, eps) && is_plus::<S, T>(root, eps, bottom)
            && is_divide::<S, T>(top, bottom, delta) && is_minus::<S, T>(p, delta, r)
}

/// `after` is what step `step` at the rate `lr` makes of a parameter tensor and its moments,
/// given the gradient `g`.
pub open spec fn is_tensor_adam<S: Scalar, T: Tensor<S>>(
    step: nat,
    lr: S,
    g: T,
    before: Moments<T>,
    after: Moments<T>,
) -> bool {
    &&& is_tensor_moment::<S, T>(BETA1, before.m, g, after.m)
    &&& exists|square: T| #[trigger]
        is_multiply::<S, T>(g, g, square) && is_tensor_moment::<S, T>(
            BETA2,
            before.v,
            square,
            after.v,
        )
    &&& exists|mh: T, vh: T|
        is_tensor_unbiased::<S, T>(BETA1, step, after.m, mh) && is_tensor_unbiased::<S, T>(
            BETA2,
            step,
            after.v,
            vh,
        ) && #[trigger] is_tensor_descent::<S, T>(before.p, lr, mh, vh, after.p)
}

/// A moment after a gradient.
fn moment<S: Scalar, T: Tensor<S>>(num: u32, x: &T, g: &T) -> (r: T)
    ensures
        is_tensor_moment::<S, T>(num, *x, *g, r),
{
    let decay: S = S::ratio(num, BETA_DEN);
    let beta: T = T::number(decay);
    let one: S = S::one();
    let part: S = S::ratio(num, BETA_DEN);
    let rest: S = one.sub(part);
    let fresh: T = T::number(rest);
    let kept: T = x.multiply(&beta);
    let added: T = g.multiply(&fresh);
    assert(is_ratio_number::<S, T>(num, BETA_DEN, beta));
    assert(is_fresh_number::<S, T>(num, fresh));
    kept.plus(&added)
}

/// A moment with the bias of the first steps taken out.
fn unbiased<S: Scalar, T: Tensor<S>>(num: u32, step: usize, x: &T) -> (r: T)
    requires
        step < i32::MAX,
    ensures
        is_tensor_unbiased::<S, T>(num, step as nat, *x, r),
{
    let n: u32 = step as u32 + 1;
    let b: S = S::one_minus_pow(num, BETA_DEN, n);
    let bias: T = T::number(b);
    assert(is_bias_number::<S, T>(num, step as nat, bias));
    x.divide(&bias)
}

/// A step along the first moment, shortened by the root of the second.
fn descend<S: Scalar, T: Tensor<S>>(p: &T, lr: S, mh: &T, vh: &T) -> (r: T)
    ensures
        is_tensor_descent::<S, T>(*p, lr, *mh, *vh, r),
{
    let rate: T = T::number(lr);
    let top: T = mh.multiply(&rate);
    let root: T = vh.root();
    let e: S = S::ratio(1, ADAM_EPS_DEN);
    let eps: T = T::number(e);
    let bottom: T = root.plus(&eps);
    let delta: T = top.divide(&bottom);
    assert(is_ratio_number::<S, T>(1, ADAM_EPS_DEN, eps));
    p.minus(&delta)
}

/// What the gradient `g` makes of a parameter tensor and its moments at step `step`.
pub fn tensor_adam<S: Scalar, T: Tensor<S>>(step: usize, lr: S, g: &T, before: &Moments<T>) -> (after:
    Moments<T>)
    requires
        step < i32::MAX,
    ensures
        is_tensor_adam::<S, T>(step as nat, lr, *g, *before, after),
{
    let m: T = moment(BETA1, &before.m, g);
    let square: T = g.multiply(g);
    let v: T = moment(BETA2, &before.v, &square);
    let mh: T = unbiased(BETA1, step, &m);
    let vh: T = unbiased(BETA2, step, &v);
    let p: T = descend(&before.p, lr, &mh, &vh);
    let after: Moments<T> = Moments { p, m, v };
    assert(is_multiply::<S, T>(*g, *g, square) && is_tensor_moment::<S, T>(
        BETA2,
        before.v,
        square,
        after.v,
    ));
    assert(is_tensor_descent::<S, T>(before.p, lr, mh, vh, after.p));
    after
}

/// One step of the optimizer over all parameter tensors.
pub fn tensor_adam_all<S: Scalar, T: Tensor<S>>(
    step: usize,
    lr: S,
    grads: &[T],
    before: &[Moments<T>],
) -> (after: Vec<Moments<T>>)
    requires
        step < i32::MAX,
        grads@.len() == before@.len(),
    ensures
        after@.len() == before@.len(),
        forall|i: int|
            0 <= i < after@.len() ==> is_tensor_adam::<S, T>(
                step as nat,
                lr,
                grads@[i],
                before@[i],
                #[trigger] after@[i],
            ),
{
    let mut after: Vec<Moments<T>> = Vec::new();
    for i in 0..before.len()
        invariant
            step < i32::MAX,
            grads@.len() == before@.len(),
            after@.len() == i,
            forall|k: int|
                0 <= k < i ==> is_tensor_adam::<S, T>(
                    step as nat,
                    lr,
                    grads@[k],
                    before@[k],
                    #[trigger] after@[k],
                ),
    {
        let next: Moments<T> = tensor_adam(step, lr, &grads[i], &before[i]);
        after.push(next);
    }
    after
}

} // verus!
