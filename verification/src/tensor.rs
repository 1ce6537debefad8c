//! The model in terms of whole tensors, for a framework that brings its own arithmetic and
//! differentiates by itself.
//!
//! As with scalars, nothing is assumed of a [`Tensor`]: its methods carry no contract. What
//! is stated of a result is which operations produced it, on which operands and in which
//! order: `is_matmul(a, b, r)` reads "`r` is a tensor that `a.matmul(&b)` may return".
use vstd::prelude::*;

use crate::layout::Cfg;
use crate::scalar::{is_neg, is_num, is_ratio, is_sqrt, Scalar};

verus! {

/// A tensor of a framework, with the operations that the model needs.
pub trait Tensor<S: Scalar>: Sized {
    /// The tensor that holds one number.
    fn number(x: S) -> Self;

    /// The square matrix of `n` rows that tells the places up to the diagonal.
    fn up_to_diagonal(n: i32) -> Self;

    /// The length of an axis.
    fn dim(&self, axis: usize) -> i32;

    fn multiply(&self, other: &Self) -> Self;

    fn plus(&self, other: &Self) -> Self;

    fn minus(&self, other: &Self) -> Self;

    fn divide(&self, other: &Self) -> Self;

    /// The matrix product over the last two axes.
    fn matmul(&self, other: &Self) -> Self;

    /// The transposed matrix.
    fn transposed(&self) -> Self;

    /// The axes in another order.
    fn permute(&self, first: i32, second: i32, third: i32, fourth: i32) -> Self;

    /// The same numbers as three axes.
    fn shape3(&self, first: i32, second: i32, third: i32) -> Self;

    /// The same numbers as four axes.
    fn shape4(&self, first: i32, second: i32, third: i32, fourth: i32) -> Self;

    /// The rows of a matrix that `ids` names.
    fn rows_at(&self, ids: &Self) -> Self;

    /// The first rows of a matrix.
    fn first_rows(&self, n: i32) -> Self;

    /// Along the last axis, the entry that `ids` names.
    fn entries_at(&self, ids: &Self) -> Self;

    /// This one where `mask` is set, the other elsewhere.
    fn where_set(&self, mask: &Self, other: &Self) -> Self;

    /// The mean along the last axis, which stays as an axis of one.
    fn mean_last(&self) -> Self;

    /// The softmax along the last axis.
    fn softmax_last(&self) -> Self;

    /// The logarithm of the sum of the exponentials along the last axis, which stays as an
    /// axis of one.
    fn logsumexp_last(&self) -> Self;

    /// The sum of all entries.
    fn sum_all(&self) -> Self;

    /// One over the root of every entry.
    fn rsqrt(&self) -> Self;

    /// The root of every entry.
    fn root(&self) -> Self;

    /// Every entry, or zero where it is below.
    fn relu(&self) -> Self;
}

#[verifier::inline]
pub open spec fn is_number<S: Scalar, T: Tensor<S>>(x: S, r: T) -> bool {
    call_ensures(<T as Tensor<S>>::number, (x,), r)
}

#[verifier::inline]
pub open spec fn is_triangle<S: Scalar, T: Tensor<S>>(n: i32, r: T) -> bool {
    call_ensures(<T as Tensor<S>>::up_to_diagonal, (n,), r)
}

#[verifier::inline]
pub open spec fn is_dim<S: Scalar, T: Tensor<S>>(a: T, axis: usize, r: i32) -> bool {
    call_ensures(<T as Tensor<S>>::dim, (&a, axis), r)
}

#[verifier::inline]
pub open spec fn is_multiply<S: Scalar, T: Tensor<S>>(a: T, b: T, r: T) -> bool {
    call_ensures(<T as Tensor<S>>::multiply, (&a, &b), r)
}

#[verifier::inline]
pub open spec fn is_plus<S: Scalar, T: Tensor<S>>(a: T, b: T, r: T) -> bool {
    call_ensures(<T as Tensor<S>>::plus, (&a, &b), r)
}

#[verifier::inline]
pub open spec fn is_minus<S: Scalar, T: Tensor<S>>(a: T, b: T, r: T) -> bool {
    call_ensures(<T as Tensor<S>>::minus, (&a, &b), r)
}

#[verifier::inline]
pub open spec fn is_divide<S: Scalar, T: Tensor<S>>(a: T, b: T, r: T) -> bool {
    call_ensures(<T as Tensor<S>>::divide, (&a, &b), r)
}

#[verifier::inline]
pub open spec fn is_matmul<S: Scalar, T: Tensor<S>>(a: T, b: T, r: T) -> bool {
    call_ensures(<T as Tensor<S>>::matmul, (&a, &b), r)
}

#[verifier::inline]
pub open spec fn is_transposed<S: Scalar, T: Tensor<S>>(a: T, r: T) -> bool {
    call_ensures(<T as Tensor<S>>::transposed, (&a,), r)
}

#[verifier::inline]
pub open spec fn is_permuted<S: Scalar, T: Tensor<S>>(
    a: T,
    i: i32,
    j: i32,
    k: i32,
    l: i32,
    r: T,
) -> bool {
    call_ensures(<T as Tensor<S>>::permute, (&a, i, j, k, l), r)
}

#[verifier::inline]
pub open spec fn is_shaped3<S: Scalar, T: Tensor<S>>(
    a: T,
    i: i32,
    j: i32,
    k: i32,
    r: T,
) -> bool {
    call_ensures(<T as Tensor<S>>::shape3, (&a, i, j, k), r)
}

#[verifier::inline]
pub open spec fn is_shaped4<S: Scalar, T: Tensor<S>>(
    a: T,
    i: i32,
    j: i32,
    k: i32,
    l: i32,
    r: T,
) -> bool {
    call_ensures(<T as Tensor<S>>::shape4, (&a, i, j, k, l), r)
}

#[verifier::inline]
pub open spec fn is_rows_at<S: Scalar, T: Tensor<S>>(a: T, ids: T, r: T) -> bool {
    call_ensures(<T as Tensor<S>>::rows_at, (&a, &ids), r)
}

#[verifier::inline]
pub open spec fn is_first_rows<S: Scalar, T: Tensor<S>>(a: T, n: i32, r: T) -> bool {
    call_ensures(<T as Tensor<S>>::first_rows, (&a, n), r)
}

#[verifier::inline]
pub open spec fn is_entries_at<S: Scalar, T: Tensor<S>>(a: T, ids: T, r: T) -> bool {
    call_ensures(<T as Tensor<S>>::entries_at, (&a, &ids), r)
}

#[verifier::inline]
pub open spec fn is_where<S: Scalar, T: Tensor<S>>(a: T, mask: T, other: T, r: T) -> bool {
    call_ensures(<T as Tensor<S>>::where_set, (&a, &mask, &other), r)
}

#[verifier::inline]
pub open spec fn is_mean_last<S: Scalar, T: Tensor<S>>(a: T, r: T) -> bool {
    call_ensures(<T as Tensor<S>>::mean_last, (&a,), r)
}

#[verifier::inline]
pub open spec fn is_softmax_last<S: Scalar, T: Tensor<S>>(a: T, r: T) -> bool {
    call_ensures(<T as Tensor<S>>::softmax_last, (&a,), r)
}

#[verifier::inline]
pub open spec fn is_logsumexp_last<S: Scalar, T: Tensor<S>>(a: T, r: T) -> bool {
    call_ensures(<T as Tensor<S>>::logsumexp_last, (&a,), r)
}

#[verifier::inline]
pub open spec fn is_sum_all<S: Scalar, T: Tensor<S>>(a: T, r: T) -> bool {
    call_ensures(<T as Tensor<S>>::sum_all, (&a,), r)
}

#[verifier::inline]
pub open spec fn is_rsqrt<S: Scalar, T: Tensor<S>>(a: T, r: T) -> bool {
    call_ensures(<T as Tensor<S>>::rsqrt, (&a,), r)
}

#[verifier::inline]
pub open spec fn is_root<S: Scalar, T: Tensor<S>>(a: T, r: T) -> bool {
    call_ensures(<T as Tensor<S>>::root, (&a,), r)
}

#[verifier::inline]
pub open spec fn is_tensor_relu<S: Scalar, T: Tensor<S>>(a: T, r: T) -> bool {
    call_ensures(<T as Tensor<S>>::relu, (&a,), r)
}

/// `r` is the number `num / den`.
pub open spec fn is_ratio_number<S: Scalar, T: Tensor<S>>(num: u32, den: u32, r: T) -> bool {
    exists|x: S| is_ratio(num, den, x) && #[trigger] is_number(x, r)
}

/// `r` is the root of the number `n`.
pub open spec fn is_root_number<S: Scalar, T: Tensor<S>>(n: u64, r: T) -> bool {
    exists|x: S, root: S|
        is_num(n, x) && #[trigger] is_sqrt(x, root) && #[trigger] is_number(root, r)
}

/// How far below every score a masked one lies.
pub const FLOOR: u64 = 1_000_000_000;

/// `r` is the number that masked scores are given.
pub open spec fn is_floor_number<S: Scalar, T: Tensor<S>>(r: T) -> bool {
    exists|x: S, floor: S|
        is_num(FLOOR, x) && #[trigger] is_neg(x, floor) && #[trigger] is_number(floor, r)
}

/// `r` is `x / sqrt(mean(x^2) + eps)`, along the last axis.
pub open spec fn is_tensor_norm<S: Scalar, T: Tensor<S>>(x: T, r: T) -> bool {
    exists|square: T, ms: T, eps: T, padded: T, inv: T|
        #![trigger is_mean_last::<S, T>(square, ms), is_plus::<S, T>(ms, eps, padded), is_rsqrt::<S, T>(padded, inv)]
        is_multiply::<S, T>(x, x, square) && is_mean_last::<S, T>(square, ms) && is_ratio_number::<
            S,
            T,
        >(1, 100_000, eps) && is_plus::<S, T>(ms, eps, padded) && is_rsqrt::<S, T>(padded, inv)
            && is_multiply::<S, T>(x, inv, r)
}

/// The tensor form of the normalization of rows.
pub fn rmsnorm<S: Scalar, T: Tensor<S>>(x: &T) -> (r: T)
    ensures
        is_tensor_norm::<S, T>(*x, r),
{
    let square: T = x.multiply(x);
    let ms: T = square.mean_last();
    let e: S = S::ratio(1, 100_000);
    let eps: T = T::number(e);
    let padded: T = ms.plus(&eps);
    let inv: T = padded.rsqrt();
    assert(is_ratio_number::<S, T>(1, 100_000, eps));
    x.multiply(&inv)
}

/// `r` is `x @ w^T`.
pub open spec fn is_tensor_linear<S: Scalar, T: Tensor<S>>(x: T, w: T, r: T) -> bool {
    exists|wt: T| #[trigger]
        is_transposed::<S, T>(w, wt) && #[trigger] is_matmul::<S, T>(x, wt, r)
}

/// `x @ w^T`.
pub fn linear<S: Scalar, T: Tensor<S>>(x: &T, w: &T) -> (r: T)
    ensures
        is_tensor_linear::<S, T>(*x, *w, r),
{
    let wt: T = w.transposed();
    x.matmul(&wt)
}

/// `r` is `a`, of shape (B, T, C), split into heads: (B, H, T, D).
pub open spec fn is_split<S: Scalar, T: Tensor<S>>(
    a: T,
    b: i32,
    t: i32,
    heads: i32,
    d: i32,
    r: T,
) -> bool {
    exists|split: T| #[trigger]
        is_shaped4::<S, T>(a, b, t, heads, d, split) && is_permuted::<S, T>(split, 0, 2, 1, 3, r)
}

fn split_heads<S: Scalar, T: Tensor<S>>(a: &T, b: i32, t: i32, heads: i32, d: i32) -> (r: T)
    ensures
        is_split::<S, T>(*a, b, t, heads, d, r),
{
    let split: T = a.shape4(b, t, heads, d);
    split.permute(0, 2, 1, 3)
}

/// The tensors that one layer goes through.
pub struct TensorLayer<T> {
    pub xn: T,
    pub ql: T,
    pub kl: T,
    pub vl: T,
    pub q: T,
    pub k: T,
    pub v: T,
    pub kt: T,
    pub products: T,
    pub size: T,
    pub scores: T,
    pub causal: T,
    pub floor: T,
    pub masked: T,
    pub att: T,
    pub mixed: T,
    pub turned: T,
    pub joined: T,
    pub proj: T,
    pub mid: T,
    pub xn2: T,
    pub hpre: T,
    pub h: T,
    pub mlp: T,
    pub out: T,
}

/// The numbers of parameter tensors: token embeddings, position embeddings, output head, and
/// then those of the layers.
pub const P_WTE: usize = 0;

pub const P_WPE: usize = 1;

pub const P_LM_HEAD: usize = 2;

pub const P_LAYER0: usize = 3;

pub const PARAMS_PER_LAYER: usize = 6;

/// How many parameter tensors there are.
pub open spec fn tensor_count(cfg: Cfg) -> int {
    P_LAYER0 + cfg.n_layer * PARAMS_PER_LAYER
}

/// The attention of a layer: every position attends to those up to itself.
pub open spec fn is_tensor_attention<S: Scalar, T: Tensor<S>>(
    params: Seq<T>,
    at: int,
    cfg: Cfg,
    b: i32,
    t: i32,
    x: T,
    l: TensorLayer<T>,
) -> bool {
    let (heads, d) = (cfg.n_head as i32, (cfg.n_embd as int / cfg.n_head as int) as i32);
    &&& is_tensor_norm::<S, T>(x, l.xn)
    &&& is_tensor_linear::<S, T>(l.xn, params[at], l.ql)
    &&& is_tensor_linear::<S, T>(l.xn, params[at + 1], l.kl)
    &&& is_tensor_linear::<S, T>(l.xn, params[at + 2], l.vl)
    &&& is_split::<S, T>(l.ql, b, t, heads, d, l.q)
    &&& is_split::<S, T>(l.kl, b, t, heads, d, l.k)
    &&& is_split::<S, T>(l.vl, b, t, heads, d, l.v)
    &&& is_permuted::<S, T>(l.k, 0, 1, 3, 2, l.kt)
    &&& is_matmul::<S, T>(l.q, l.kt, l.products)
    &&& is_root_number::<S, T>(d as u64, l.size)
    &&& is_divide::<S, T>(l.products, l.size, l.scores)
    &&& is_triangle::<S, T>(t, l.causal)
    &&& is_floor_number::<S, T>(l.floor)
    &&& is_where::<S, T>(l.scores, l.causal, l.floor, l.masked)
    &&& is_softmax_last::<S, T>(l.masked, l.att)
    &&& is_matmul::<S, T>(l.att, l.v, l.mixed)
    &&& is_permuted::<S, T>(l.mixed, 0, 2, 1, 3, l.turned)
    &&& is_shaped3::<S, T>(l.turned, b, t, cfg.n_embd as i32, l.joined)
    &&& is_tensor_linear::<S, T>(l.joined, params[at + 3], l.proj)
    &&& is_plus::<S, T>(x, l.proj, l.mid)
}

/// The perceptron of a layer.
pub open spec fn is_tensor_mlp<S: Scalar, T: Tensor<S>>(
    params: Seq<T>,
    at: int,
    l: TensorLayer<T>,
) -> bool {
    &&& is_tensor_norm::<S, T>(l.mid, l.xn2)
    &&& is_tensor_linear::<S, T>(l.xn2, params[at + 4], l.hpre)
    &&& is_tensor_relu::<S, T>(l.hpre, l.h)
    &&& is_tensor_linear::<S, T>(l.h, params[at + 5], l.mlp)
    &&& is_plus::<S, T>(l.mid, l.mlp, l.out)
}

/// Layer `li`, with the tensors in between.
pub open spec fn is_tensor_layer_by<S: Scalar, T: Tensor<S>>(
    params: Seq<T>,
    li: int,
    cfg: Cfg,
    b: i32,
    t: i32,
    x: T,
    l: TensorLayer<T>,
) -> bool {
    let at = P_LAYER0 + li * PARAMS_PER_LAYER;
    is_tensor_attention::<S, T>(params, at, cfg, b, t, x, l) && is_tensor_mlp::<S, T>(params, at, l)
}

/// `out` is what layer `li` makes of `x`.
#[verifier::opaque]
pub open spec fn is_tensor_layer<S: Scalar, T: Tensor<S>>(
    params: Seq<T>,
    li: int,
    cfg: Cfg,
    b: i32,
    t: i32,
    x: T,
    out: T,
) -> bool {
    exists|l: TensorLayer<T>| #[trigger]
        is_tensor_layer_by::<S, T>(params, li, cfg, b, t, x, l) && l.out == out
}

/// `xs` are the inputs of the layers, and behind them the output of the last one.
pub open spec fn are_tensor_layers<S: Scalar, T: Tensor<S>>(
    params: Seq<T>,
    cfg: Cfg,
    b: i32,
    t: i32,
    xs: Seq<T>,
) -> bool {
    forall|li: int|
        0 <= li < xs.len() - 1 ==> is_tensor_layer::<S, T>(
            params,
            li,
            cfg,
            b,
            t,
            #[trigger] xs[li],
            xs[li + 1],
        )
}

/// `x` is the normalized sum of the embeddings of tokens and positions.
pub open spec fn is_tensor_embed<S: Scalar, T: Tensor<S>>(
    params: Seq<T>,
    ids: T,
    t: i32,
    x: T,
) -> bool {
    exists|tok: T, pos: T, sum: T|
        #![trigger is_plus::<S, T>(tok, pos, sum)]
        is_rows_at::<S, T>(params[P_WTE as int], ids, tok) && is_first_rows::<S, T>(
            params[P_WPE as int],
            t,
            pos,
        ) && is_plus::<S, T>(tok, pos, sum) && is_tensor_norm::<S, T>(sum, x)
}

/// `logits` are what the network gives for the tokens `ids`, with the inputs of the layers.
pub open spec fn is_tensor_gpt_by<S: Scalar, T: Tensor<S>>(
    params: Seq<T>,
    cfg: Cfg,
    ids: T,
    logits: T,
    b: i32,
    t: i32,
    xs: Seq<T>,
) -> bool {
    &&& is_dim::<S, T>(ids, 0, b)
    &&& is_dim::<S, T>(ids, 1, t)
    &&& xs.len() == cfg.n_layer + 1
    &&& is_tensor_embed::<S, T>(params, ids, t, xs[0])
    &&& are_tensor_layers::<S, T>(params, cfg, b, t, xs)
    &&& is_tensor_linear::<S, T>(xs[cfg.n_layer as int], params[P_LM_HEAD as int], logits)
}

/// `logits` are what the network gives for the tokens `ids`, of shape (B, T).
pub open spec fn is_tensor_gpt<S: Scalar, T: Tensor<S>>(
    params: Seq<T>,
    cfg: Cfg,
    ids: T,
    logits: T,
) -> bool {
    exists|b: i32, t: i32, xs: Seq<T>| #[trigger]
        is_tensor_gpt_by::<S, T>(params, cfg, ids, logits, b, t, xs)
}

/// The attention of a layer, up to the residual connection; then its perceptron.
fn layer<S: Scalar, T: Tensor<S>>(
    params: &[T],
    li: usize,
    cfg: &Cfg,
    b: i32,
    t: i32,
    x: &T,
) -> (out: T)
    requires
        params@.len() == tensor_count(*cfg),
        li < cfg.n_layer,
        0 < cfg.n_head <= i32::MAX,
        cfg.n_embd <= i32::MAX,
    ensures
        is_tensor_layer::<S, T>(params@, li as int, *cfg, b, t, *x, out),
{
    let count: usize = params.len();
    assert(count == tensor_count(*cfg));
    let at: usize = P_LAYER0 + li * PARAMS_PER_LAYER;
    let c: i32 = cfg.n_embd as i32;
    let heads: i32 = cfg.n_head as i32;
    let size: usize = cfg.n_embd / cfg.n_head;
    proof {
        vstd::arithmetic::div_mod::lemma_div_is_ordered_by_denominator(
            cfg.n_embd as int,
            1,
            cfg.n_head as int,
        );
    }
    let d: i32 = size as i32;

    let xn: T = rmsnorm(x);
    let ql: T = linear(&xn, &params[at]);
    let q: T = split_heads(&ql, b, t, heads, d);
    let kl: T = linear(&xn, &params[at + 1]);
    let k: T = split_heads(&kl, b, t, heads, d);
    let vl: T = linear(&xn, &params[at + 2]);
    let v: T = split_heads(&vl, b, t, heads, d);
    let kt: T = k.permute(0, 1, 3, 2);
    let products: T = q.matmul(&kt);
    let width: S = S::from_u64(d as u64);
    let root: S = width.sqrt();
    let scale: T = T::number(root);
    let scores: T = products.divide(&scale);
    let causal: T = T::up_to_diagonal(t);
    let far: S = S::from_u64(FLOOR);
    let below: S = far.neg();
    let floor: T = T::number(below);
    let masked: T = scores.where_set(&causal, &floor);
    let att: T = masked.softmax_last();
    let mixed: T = att.matmul(&v);
    let turned: T = mixed.permute(0, 2, 1, 3);
    let joined: T = turned.shape3(b, t, c);
    let proj: T = linear(&joined, &params[at + 3]);
    let mid: T = x.plus(&proj);

    let xn2: T = rmsnorm(&mid);
    let hpre: T = linear(&xn2, &params[at + 4]);
    let h: T = hpre.relu();
    let mlp: T = linear(&h, &params[at + 5]);
    let out: T = mid.plus(&mlp);
    proof {
        assert(is_root_number::<S, T>(d as u64, scale));
        assert(is_floor_number::<S, T>(floor));
        let l = TensorLayer {
            xn,
            ql,
            kl,
            vl,
            q,
            k,
            v,
            kt,
            products,
            size: scale,
            scores,
            causal,
            floor,
            masked,
            att,
            mixed,
            turned,
            joined,
            proj,
            mid,
            xn2,
            hpre,
            h,
            mlp,
            out,
        };
        assert(is_tensor_attention::<S, T>(params@, at as int, *cfg, b, t, *x, l));
        assert(is_tensor_layer_by::<S, T>(params@, li as int, *cfg, b, t, *x, l));
        reveal(is_tensor_layer);
    }
    out
}

/// Runs the network on a whole batch of sequences at once: from token ids of shape (B, T) to
/// logits of shape (B, T, V). A mask keeps every position from attending to later ones.
pub fn gpt<S: Scalar, T: Tensor<S>>(params: &[T], cfg: &Cfg, ids: &T) -> (logits: T)
    requires
        params@.len() == tensor_count(*cfg),
        0 < cfg.n_head <= i32::MAX,
        cfg.n_embd <= i32::MAX,
    ensures
        is_tensor_gpt::<S, T>(params@, *cfg, *ids, logits),
{
    let b: i32 = ids.dim(0);
    let t: i32 = ids.dim(1);
    let tok: T = params[P_WTE].rows_at(ids);
    let pos: T = params[P_WPE].first_rows(t);
    let sum: T = tok.plus(&pos);
    let mut x: T = rmsnorm(&sum);
    assert(is_tensor_embed::<S, T>(params@, *ids, t, x));
    let ghost mut xs: Seq<T> = seq![x];
    for li in 0..cfg.n_layer
        invariant
            params@.len() == tensor_count(*cfg),
            0 < cfg.n_head <= i32::MAX,
            cfg.n_embd <= i32::MAX,
            xs.len() == li + 1,
            xs[li as int] == x,
            is_tensor_embed::<S, T>(params@, *ids, t, xs[0]),
            are_tensor_layers::<S, T>(params@, *cfg, b, t, xs),
    {
        let out: T = layer(params, li, cfg, b, t, &x);
        proof {
            let longer = xs.push(out);
            assert forall|k: int| 0 <= k < longer.len() - 1 implies is_tensor_layer::<S, T>(
                params@,
                k,
                *cfg,
                b,
                t,
                #[trigger] longer[k],
                longer[k + 1],
            ) by {
                if k < li {
                    assert(longer[k] == xs[k] && longer[k + 1] == xs[k + 1]);
                }
            }
            xs = longer;
        }
        x = out;
    }
    let logits: T = linear(&x, &params[P_LM_HEAD]);
    assert(is_tensor_gpt_by::<S, T>(params@, *cfg, *ids, logits, b, t, xs));
    logits
}

/// `loss` is the mean over the `valid` positions that `mask` tells of
/// `logsumexp(logits) - logits[target]`.
pub open spec fn is_tensor_loss<S: Scalar, T: Tensor<S>>(
    logits: T,
    b: i32,
    t: i32,
    targets: T,
    mask: T,
    valid: S,
    loss: T,
) -> bool {
    exists|lse: T, names: T, picked: T, gap: T, kept: T, sum: T, count: T|
        #![trigger is_minus::<S, T>(lse, picked, gap), is_multiply::<S, T>(gap, mask, kept), is_divide::<S, T>(sum, count, loss), is_entries_at::<S, T>(logits, names, picked)]
        is_logsumexp_last::<S, T>(logits, lse) && is_shaped3::<S, T>(targets, b, t, 1, names)
            && is_entries_at::<S, T>(logits, names, picked) && is_minus::<S, T>(lse, picked, gap)
            && is_multiply::<S, T>(gap, mask, kept) && is_sum_all::<S, T>(kept, sum)
            && is_number::<S, T>(valid, count) && is_divide::<S, T>(sum, count, loss)
}

/// `loss` is the loss of the network on a batch.
pub open spec fn is_tensor_batch_loss<S: Scalar, T: Tensor<S>>(
    params: Seq<T>,
    cfg: Cfg,
    ids: T,
    targets: T,
    mask: T,
    valid: S,
    loss: T,
) -> bool {
    exists|logits: T, b: i32, t: i32|
        #![trigger is_tensor_gpt::<S, T>(params, cfg, ids, logits), is_dim::<S, T>(ids, 0, b), is_dim::<S, T>(ids, 1, t)]
        is_tensor_gpt::<S, T>(params, cfg, ids, logits) && is_dim::<S, T>(ids, 0, b) && is_dim::<
            S,
            T,
        >(ids, 1, t) && is_tensor_loss::<S, T>(logits, b, t, targets, mask, valid, loss)
}

/// The cross-entropy of a batch, averaged over the positions that are no padding.
pub fn loss_fn<S: Scalar, T: Tensor<S>>(
    params: &[T],
    cfg: &Cfg,
    ids: &T,
    targets: &T,
    mask: &T,
    valid: S,
) -> (loss: T)
    requires
        params@.len() == tensor_count(*cfg),
        0 < cfg.n_head <= i32::MAX,
        cfg.n_embd <= i32::MAX,
    ensures
        is_tensor_batch_loss::<S, T>(params@, *cfg, *ids, *targets, *mask, valid, loss),
{
    let logits: T = gpt(params, cfg, ids);
    let lse: T = logits.logsumexp_last();
    let b: i32 = ids.dim(0);
    let t: i32 = ids.dim(1);
    let names: T = targets.shape3(b, t, 1);
    let picked: T = logits.entries_at(&names);
    let gap: T = lse.minus(&picked);
    let kept: T = gap.multiply(mask);
    let sum: T = kept.sum_all();
    let count: T = T::number(valid);
    let loss: T = sum.divide(&count);
    assert(is_entries_at::<S, T>(logits, names, picked));
    assert(is_tensor_loss::<S, T>(logits, b, t, *targets, *mask, valid, loss));
    loss
}

} // verus!
