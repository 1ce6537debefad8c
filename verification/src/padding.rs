//! Padding gets no gradient: the masked loss gives it zeros, and they stay zeros through
//! every step of the backward pass.
use vstd::prelude::*;

use crate::attention::{
    causal_row, is_attn_mix, is_attn_mix_bwd_dp, is_attn_scores_bwd, is_attn_softmax_bwd,
    is_causal_sum, is_scaled_sum, is_score_scale, is_softmax_grad, mix_bwd_dp_row,
    scaled_causal_row, softmax_bwd_row, softmax_bwd_row_by, Heads, Side,
};
use crate::embed::{embed_bwd_wte_row, is_gathered, places, row_term, visits};
use crate::gradient::{flow_sized, is_backward, is_layer_bwd, Flow, LayerFlow};
use crate::index::{lemma_row_inside, lemma_unpair, lemma_whole_rows};
use crate::loss::{ce_bwd_row, is_ce_bwd};
use crate::matmul::{is_landed_dot, is_linear_bwd, is_matmul_nn, linear_bwd_row, matmul_nn_row};
use crate::motion_attention::{
    lemma_head_row, lemma_places, lemma_step_down, lemma_weight_places, lemma_weight_row,
};
use crate::network::{LayerValues, LayerWeights, Values, Weights};
use crate::norm::{is_norm_bwd, is_norm_grad, rmsnorm_bwd_row, rmsnorm_bwd_row_by};
use crate::pointwise::{is_add_inplace, is_relu_bwd, is_relu_grad};
use crate::reduce::{dot_term, is_dot};
use crate::rows::row_of;
use crate::scalar::{
    is_diff, is_num, is_prod, is_quot, is_running_sum, is_sum, is_zero, lands, Scalar,
};
use crate::shape::Shape;

verus! {

/// Whether the numbers that `null` tells behave like zero: zero is one of them, sums,
/// differences and quotients of such numbers are such numbers, and so is a product with
/// one of them as a factor.
pub open spec fn absorbing<S: Scalar>(null: spec_fn(S) -> bool) -> bool {
    &&& forall|r: S| #[trigger] is_zero(r) ==> null(r)
    &&& forall|a: S, b: S, r: S| #[trigger] is_sum(a, b, r) && null(a) && null(b) ==> null(r)
    &&& forall|a: S, b: S, r: S| #[trigger] is_diff(a, b, r) && null(a) && null(b) ==> null(r)
    &&& forall|a: S, b: S, r: S| #[trigger] is_prod(a, b, r) && (null(a) || null(b)) ==> null(r)
    &&& forall|a: S, b: S, r: S| #[trigger] is_quot(a, b, r) && null(a) ==> null(r)
}

/// Whether row `r` is padding at the end of its document, which has `t_len` rows: neither
/// it nor a row behind it has a target.
pub open spec fn is_padding(targets: Seq<i32>, t_len: int, r: int) -> bool {
    forall|q: int| r <= q < (r / t_len + 1) * t_len ==> #[trigger] targets[q] < 0
}

/// All numbers of the sequence are null.
pub open spec fn all_null<S>(null: spec_fn(S) -> bool, x: Seq<S>) -> bool {
    forall|j: int| 0 <= j < x.len() ==> null(#[trigger] x[j])
}

/// The rows of padding, of `c` numbers each, are null.
pub open spec fn padding_null<S>(
    null: spec_fn(S) -> bool,
    targets: Seq<i32>,
    t_len: int,
    x: Seq<S>,
    m: nat,
    c: nat,
) -> bool {
    forall|r: int|
        0 <= r < m && is_padding(targets, t_len, r) ==> all_null(null, #[trigger] row_of(x, c, r))
}

/// The same for attention weights.
pub open spec fn weights_null<S>(
    null: spec_fn(S) -> bool,
    targets: Seq<i32>,
    hs: Heads,
    x: Seq<S>,
) -> bool {
    forall|b: int, h: int, t: int|
        0 <= b < hs.b_n && 0 <= h < hs.h_n && 0 <= t < hs.t_len && is_padding(
            targets,
            hs.t_len as int,
            hs.position(b, t),
        ) ==> all_null(null, #[trigger] row_of(x, hs.t_len as nat, hs.weight_row(b, h, t)))
}

/// A running sum of null terms is null.
proof fn lemma_running_sum_null<S: Scalar>(
    null: spec_fn(S) -> bool,
    start: S,
    term: spec_fn(int, S) -> bool,
    n: nat,
    r: S,
)
    requires
        absorbing(null),
        null(start),
        is_running_sum(start, term, n, r),
        forall|i: int, t: S| 0 <= i < n && #[trigger] term(i, t) ==> null(t),
    ensures
        null(r),
    decreases n,
{
    if n > 0 {
        let (acc, t) = choose|acc: S, t: S|
            is_running_sum(start, term, (n - 1) as nat, acc) && term(n - 1, t) && #[trigger] is_sum(
                acc,
                t,
                r,
            );
        lemma_running_sum_null(null, start, term, (n - 1) as nat, acc);
    }
}

/// A dot product in which one factor of every term is null.
proof fn lemma_dot_null<S: Scalar>(
    null: spec_fn(S) -> bool,
    x: Seq<S>,
    xo: int,
    xs: int,
    y: Seq<S>,
    yo: int,
    ys: int,
    n: nat,
    r: S,
)
    requires
        absorbing(null),
        is_dot(x, xo, xs, y, yo, ys, n, r),
        forall|p: int|
            #![trigger x[xo + p * xs]]
            #![trigger y[yo + p * ys]]
            0 <= p < n ==> null(x[xo + p * xs]) || null(y[yo + p * ys]),
    ensures
        null(r),
{
    let term = dot_term(x, xo, xs, y, yo, ys);
    let zero = choose|zero: S| is_zero(zero) && #[trigger] is_running_sum(zero, term, n, r);
    assert forall|p: int, t: S| 0 <= p < n && #[trigger] term(p, t) implies null(t) by {
        assert(null(x[xo + p * xs]) || null(y[yo + p * ys]));
        assert(is_prod(x[xo + p * xs], y[yo + p * ys], t));
    }
    lemma_running_sum_null(null, zero, term, n, r);
}

/// A dot product with a null row.
proof fn lemma_row_dot_null<S: Scalar>(
    null: spec_fn(S) -> bool,
    x: Seq<S>,
    row: int,
    y: Seq<S>,
    yo: int,
    ys: int,
    m: nat,
    k: nat,
    r: S,
)
    requires
        absorbing(null),
        0 <= row < m,
        x.len() == m * k,
        is_dot(x, row * k, 1, y, yo, ys, k, r),
        all_null(null, row_of(x, k, row)),
    ensures
        null(r),
{
    lemma_row_inside(row, m as int, k as int);
    assert forall|p: int| 0 <= p < k implies null(#[trigger] x[row * k + p * 1]) || null(
        y[yo + p * ys],
    ) by {
        assert(row_of(x, k, row)[p] == x[row * k + p * 1]);
    }
    lemma_dot_null(null, x, row * k, 1, y, yo, ys, k, r);
}

/// The gradient of the logits of padding.
proof fn lemma_ce_null<S: Scalar>(
    null: spec_fn(S) -> bool,
    d: Seq<S>,
    probs: Seq<S>,
    targets: Seq<i32>,
    t_len: int,
    m: nat,
    vocab: nat,
    valid: nat,
)
    requires
        absorbing(null),
        vocab > 0,
        t_len > 0,
        d.len() == m * vocab,
        is_ce_bwd(d, probs, targets, vocab, valid),
    ensures
        padding_null(null, targets, t_len, d, m, vocab),
{
    lemma_whole_rows(m as int, vocab as int);
    assert forall|r: int| 0 <= r < m && is_padding(targets, t_len, r) implies all_null(
        null,
        #[trigger] row_of(d, vocab, r),
    ) by {
        let row = row_of(d, vocab, r);
        lemma_row_inside(r, m as int, vocab as int);
        vstd::arithmetic::div_mod::lemma_fundamental_div_mod(r, t_len);
        vstd::arithmetic::div_mod::lemma_mod_bound(r, t_len);
        assert((r / t_len + 1) * t_len > r) by (nonlinear_arith)
            requires
                r == t_len * (r / t_len) + r % t_len,
                r % t_len < t_len,
        ;
        assert(targets[r] < 0);
        assert(ce_bwd_row(probs, targets, valid, r, row));
        assert forall|j: int| 0 <= j < row.len() implies null(#[trigger] row[j]) by {
            assert(is_zero(row[j]));
        }
    }
}

/// Through a product with a matrix.
proof fn lemma_linear_null<S: Scalar>(
    null: spec_fn(S) -> bool,
    targets: Seq<i32>,
    t_len: int,
    dx: Seq<S>,
    dy: Seq<S>,
    w: Seq<S>,
    m: nat,
    n: nat,
    k: nat,
)
    requires
        absorbing(null),
        n > 0,
        dx.len() == m * n,
        dy.len() == m * k,
        is_linear_bwd(dx, dy, w, n, k),
        padding_null(null, targets, t_len, dy, m, k),
    ensures
        padding_null(null, targets, t_len, dx, m, n),
{
    lemma_whole_rows(m as int, n as int);
    assert forall|r: int| 0 <= r < m && is_padding(targets, t_len, r) implies all_null(
        null,
        #[trigger] row_of(dx, n, r),
    ) by {
        let row = row_of(dx, n, r);
        lemma_row_inside(r, m as int, n as int);
        assert(linear_bwd_row(dy, w, k, r, row));
        assert(all_null(null, row_of(dy, k, r)));
        assert forall|j: int| 0 <= j < row.len() implies null(#[trigger] row[j]) by {
            assert(is_dot(dy, r * k, 1, w, j, n as int, k, row[j]));
            lemma_row_dot_null(null, dy, r, w, j, n as int, m, k, row[j]);
        }
    }
}

/// Through a product that is added to what is there.
proof fn lemma_added_null<S: Scalar>(
    null: spec_fn(S) -> bool,
    targets: Seq<i32>,
    t_len: int,
    before: Seq<S>,
    dx: Seq<S>,
    dy: Seq<S>,
    w: Seq<S>,
    m: nat,
    n: nat,
    k: nat,
)
    requires
        absorbing(null),
        n > 0,
        before.len() == m * n,
        dy.len() == m * k,
        is_matmul_nn(before, dx, dy, w, n, k, true),
        padding_null(null, targets, t_len, before, m, n),
        padding_null(null, targets, t_len, dy, m, k),
    ensures
        padding_null(null, targets, t_len, dx, m, n),
{
    lemma_whole_rows(m as int, n as int);
    assert forall|r: int| 0 <= r < m && is_padding(targets, t_len, r) implies all_null(
        null,
        #[trigger] row_of(dx, n, r),
    ) by {
        let (row, was) = (row_of(dx, n, r), row_of(before, n, r));
        lemma_row_inside(r, m as int, n as int);
        assert(matmul_nn_row(dy, w, k, true, r, was, row));
        assert(all_null(null, row_of(dy, k, r)));
        assert forall|j: int| 0 <= j < row.len() implies null(#[trigger] row[j]) by {
            assert(is_landed_dot(dy, r * k, 1, w, j, n as int, k, true, was[j], row[j]));
            let acc = choose|acc: S| #[trigger]
                is_dot(dy, r * k, 1, w, j, n as int, k, acc) && lands(true, was[j], acc, row[j]);
            lemma_row_dot_null(null, dy, r, w, j, n as int, m, k, acc);
            assert(null(was[j]));
        }
    }
}

/// Through the cut-off.
proof fn lemma_relu_null<S: Scalar>(
    null: spec_fn(S) -> bool,
    targets: Seq<i32>,
    t_len: int,
    before: Seq<S>,
    after: Seq<S>,
    x: Seq<S>,
    m: nat,
    n: nat,
)
    requires
        absorbing(null),
        before.len() == m * n,
        is_relu_bwd(before, after, x),
        padding_null(null, targets, t_len, before, m, n),
    ensures
        padding_null(null, targets, t_len, after, m, n),
{
    assert forall|r: int| 0 <= r < m && is_padding(targets, t_len, r) implies all_null(
        null,
        #[trigger] row_of(after, n, r),
    ) by {
        let (row, was) = (row_of(after, n, r), row_of(before, n, r));
        lemma_row_inside(r, m as int, n as int);
        assert forall|j: int| 0 <= j < row.len() implies null(#[trigger] row[j]) by {
            let i = r * n + j;
            assert(null(was[j]) && was[j] == before[i]);
            assert(is_relu_grad(x[i], before[i], after[i]));
        }
    }
}

/// Through a residual connection.
proof fn lemma_residual_null<S: Scalar>(
    null: spec_fn(S) -> bool,
    targets: Seq<i32>,
    t_len: int,
    before: Seq<S>,
    after: Seq<S>,
    x: Seq<S>,
    m: nat,
    n: nat,
)
    requires
        absorbing(null),
        before.len() == m * n,
        x.len() == m * n,
        is_add_inplace(before, after, x),
        padding_null(null, targets, t_len, before, m, n),
        padding_null(null, targets, t_len, x, m, n),
    ensures
        padding_null(null, targets, t_len, after, m, n),
{
    assert forall|r: int| 0 <= r < m && is_padding(targets, t_len, r) implies all_null(
        null,
        #[trigger] row_of(after, n, r),
    ) by {
        let (row, was, other) = (row_of(after, n, r), row_of(before, n, r), row_of(x, n, r));
        lemma_row_inside(r, m as int, n as int);
        assert forall|j: int| 0 <= j < row.len() implies null(#[trigger] row[j]) by {
            let i = r * n + j;
            assert(null(was[j]) && was[j] == before[i]);
            assert(null(other[j]) && other[j] == x[i]);
            assert(is_sum(before[i], x[i], after[i]));
        }
    }
}

/// Through the normalization.
proof fn lemma_norm_null<S: Scalar>(
    null: spec_fn(S) -> bool,
    targets: Seq<i32>,
    t_len: int,
    dx: Seq<S>,
    x: Seq<S>,
    rinv: Seq<S>,
    dy: Seq<S>,
    m: nat,
    c: nat,
)
    requires
        absorbing(null),
        c > 0,
        dx.len() == m * c,
        dy.len() == m * c,
        is_norm_bwd(dx, x, rinv, dy, c),
        padding_null(null, targets, t_len, dy, m, c),
    ensures
        padding_null(null, targets, t_len, dx, m, c),
{
    lemma_whole_rows(m as int, c as int);
    assert forall|t: int| 0 <= t < m && is_padding(targets, t_len, t) implies all_null(
        null,
        #[trigger] row_of(dx, c, t),
    ) by {
        let (row, dyr) = (row_of(dx, c, t), row_of(dy, c, t));
        lemma_row_inside(t, m as int, c as int);
        assert(all_null(null, dyr));
        assert(rmsnorm_bwd_row(x, rinv, dy, false, t, row, row));
        let (dot, k) = choose|dot: S, k: S| #[trigger]
            rmsnorm_bwd_row_by(x, rinv, dy, false, t, row, row, dot, k);
        lemma_row_dot_null(null, dy, t, x, t * c, 1, m, c, dot);
        let r = rinv[t];
        let (r2, r3, top, count) = choose|r2: S, r3: S, top: S, count: S|
            #![trigger is_prod(r2, r, r3), is_quot(top, count, k)]
            is_prod(r, r, r2) && is_prod(r2, r, r3) && is_prod(r3, dot, top) && is_num(
                c as u64,
                count,
            ) && is_quot(top, count, k);
        assert(null(top) && null(k));
        assert forall|j: int| 0 <= j < row.len() implies null(#[trigger] row[j]) by {
            let (g, z) = (dy[t * c + j], x[t * c + j]);
            assert(dyr[j] == g && null(g));
            assert(is_norm_grad(r, g, k, z, false, row[j], row[j]));
            let (direct, pulled, out) = choose|direct: S, pulled: S, out: S|
                #![trigger is_diff(direct, pulled, out)]
                is_prod(r, g, direct) && is_prod(k, z, pulled) && is_diff(direct, pulled, out)
                    && lands(false, row[j], out, row[j]);
            assert(null(direct) && null(pulled));
        }
    }
}

/// To the attention weights.
proof fn lemma_dp_null<S: Scalar>(
    null: spec_fn(S) -> bool,
    targets: Seq<i32>,
    hs: Heads,
    dp: Seq<S>,
    dy: Seq<S>,
    v: Seq<S>,
)
    requires
        absorbing(null),
        hs.d > 0,
        dp.len() == hs.weight_rows() * hs.t_len,
        dy.len() == hs.positions() * hs.width(),
        is_attn_mix_bwd_dp(hs, dp, dy, v),
        padding_null(
            null,
            targets,
            hs.t_len as int,
            dy,
            hs.positions() as nat,
            hs.width() as nat,
        ),
    ensures
        weights_null(null, targets, hs, dp),
{
    let n = hs.t_len as nat;
    assert forall|b: int, h: int, t: int|
        0 <= b < hs.b_n && 0 <= h < hs.h_n && 0 <= t < hs.t_len && is_padding(
            targets,
            hs.t_len as int,
            hs.position(b, t),
        ) implies all_null(null, #[trigger] row_of(dp, n, hs.weight_row(b, h, t))) by {
        let i = hs.weight_row(b, h, t);
        let row = row_of(dp, n, i);
        lemma_weight_places(hs, b, h, t);
        lemma_weight_row(hs, dp, b, h, t);
        lemma_places(hs, b, h, t, 0);
        assert(mix_bwd_dp_row(hs, dy, v, i, row));
        let own = row_of(dy, hs.width() as nat, hs.position(b, t));
        assert(all_null(null, own));
        assert forall|u: int| 0 <= u < row.len() implies null(#[trigger] row[u]) by {
            if u <= t {
                let (st, su) = (hs.head_start(b, t, h), hs.head_start(b, u, h));
                assert(is_dot(dy, st, 1, v, su, 1, hs.d as nat, row[u]));
                assert forall|p: int| 0 <= p < hs.d implies null(#[trigger] dy[st + p * 1])
                    || null(v[su + p * 1]) by {
                    lemma_head_row(hs, dy, b, h, t, p);
                    lemma_places(hs, b, h, t, p);
                    assert(own[h * hs.d + p] == dy[st + p * 1]);
                }
                lemma_dot_null(null, dy, st, 1, v, su, 1, hs.d as nat, row[u]);
            } else {
                assert(is_zero(row[u]));
            }
        }
    }
}

/// From the attention weights to the scores.
proof fn lemma_ds_null<S: Scalar>(
    null: spec_fn(S) -> bool,
    targets: Seq<i32>,
    hs: Heads,
    ds: Seq<S>,
    att: Seq<S>,
    dp: Seq<S>,
)
    requires
        absorbing(null),
        ds.len() == hs.weight_rows() * hs.t_len,
        dp.len() == hs.weight_rows() * hs.t_len,
        is_attn_softmax_bwd(ds, att, dp, hs.t_len as nat),
        weights_null(null, targets, hs, dp),
    ensures
        weights_null(null, targets, hs, ds),
{
    let n = hs.t_len as nat;
    assert forall|b: int, h: int, t: int|
        0 <= b < hs.b_n && 0 <= h < hs.h_n && 0 <= t < hs.t_len && is_padding(
            targets,
            hs.t_len as int,
            hs.position(b, t),
        ) implies all_null(null, #[trigger] row_of(ds, n, hs.weight_row(b, h, t))) by {
        let i = hs.weight_row(b, h, t);
        let (row, given) = (row_of(ds, n, i), row_of(dp, n, i));
        lemma_weight_places(hs, b, h, t);
        lemma_weight_row(hs, ds, b, h, t);
        lemma_weight_row(hs, dp, b, h, t);
        assert(all_null(null, given));
        assert(softmax_bwd_row(att, dp, i, row));
        let along = choose|along: S| #[trigger] softmax_bwd_row_by(att, dp, i, row, along);
        let base = i * n;
        assert forall|p: int| 0 <= p < t + 1 implies null(#[trigger] dp[base + p * 1]) || null(
            att[base + p * 1],
        ) by {
            assert(given[p] == dp[base + p * 1]);
        }
        lemma_dot_null(null, dp, base, 1, att, base, 1, (t + 1) as nat, along);
        assert forall|u: int| 0 <= u < row.len() implies null(#[trigger] row[u]) by {
            if u <= t {
                let (w, g) = (att[base + u], dp[base + u]);
                assert(given[u] == dp[base + u]);
                assert(null(given[u]));
                assert(is_softmax_grad(w, g, along, row[u]));
                let diff = choose|diff: S| #[trigger]
                    is_diff(g, along, diff) && is_prod(w, diff, row[u]);
                assert(null(diff));
            } else {
                assert(is_zero(row[u]));
            }
        }
    }
}

/// The rows behind padding in the same document are padding.
proof fn lemma_padding_goes_on(hs: Heads, targets: Seq<i32>, b: int, t: int, p: int)
    requires
        0 <= b < hs.b_n,
        0 <= t,
        0 <= p,
        t + p < hs.t_len,
        is_padding(targets, hs.t_len as int, hs.position(b, t)),
    ensures
        is_padding(targets, hs.t_len as int, hs.position(b, t + p)),
{
    crate::index::lemma_pair(b, hs.b_n as int, t, hs.t_len as int);
    crate::index::lemma_pair(b, hs.b_n as int, t + p, hs.t_len as int);
    assert forall|q: int| hs.position(b, t + p) <= q < (b + 1) * hs.t_len implies
        #[trigger] targets[q] < 0 by {}
}

/// A sum over one side, at padding, where the weights are null there.
proof fn lemma_weighted_null<S: Scalar>(
    null: spec_fn(S) -> bool,
    targets: Seq<i32>,
    hs: Heads,
    side: Side,
    w: Seq<S>,
    x: Seq<S>,
    r: int,
    col: int,
    acc: S,
)
    requires
        absorbing(null),
        hs.t_len > 0,
        hs.d > 0,
        w.len() == hs.weight_rows() * hs.t_len,
        0 <= r < hs.positions(),
        0 <= col < hs.width(),
        is_padding(targets, hs.t_len as int, r),
        weights_null(null, targets, hs, w),
        is_causal_sum(hs, side, w, x, r, col, acc),
    ensures
        null(acc),
{
    let n = hs.t_len as int;
    lemma_unpair(r, hs.b_n as int, n);
    lemma_unpair(col, hs.h_n as int, hs.d as int);
    let (b, t, h) = (r / n, r % n, col / hs.d as int);
    assert(hs.position(b, t) == r);
    let base = hs.weight_row(b, h, t) * n;
    match side {
        Side::Past => {
            let own = row_of(w, n as nat, hs.weight_row(b, h, t));
            lemma_weight_row(hs, w, b, h, t);
            assert(all_null(null, own));
            assert forall|p: int| 0 <= p < t + 1 implies null(#[trigger] w[base + p * 1]) || null(
                x[hs.entry(b, 0, col) + p * hs.width()],
            ) by {
                assert(own[p] == w[base + p * 1]);
            }
            lemma_dot_null(
                null,
                w,
                base,
                1,
                x,
                hs.entry(b, 0, col),
                hs.width(),
                (t + 1) as nat,
                acc,
            );
        },
        Side::Future => {
            assert forall|p: int| 0 <= p < n - t implies null(#[trigger] w[base + t + p * n])
                || null(x[hs.entry(b, t, col) + p * hs.width()]) by {
                lemma_padding_goes_on(hs, targets, b, t, p);
                lemma_weight_row(hs, w, b, h, t + p);
                lemma_step_down(hs.weight_row(b, h, t), p, n);
                let later = row_of(w, n as nat, hs.weight_row(b, h, t + p));
                assert(all_null(null, later));
                assert(later[t] == w[base + t + p * n]);
            }
            lemma_dot_null(
                null,
                w,
                base + t,
                n,
                x,
                hs.entry(b, t, col),
                hs.width(),
                (n - t) as nat,
                acc,
            );
        },
    }
}

/// To the queries, over the past, or to the keys, over the future.
proof fn lemma_scores_null<S: Scalar>(
    null: spec_fn(S) -> bool,
    targets: Seq<i32>,
    hs: Heads,
    side: Side,
    out: Seq<S>,
    ds: Seq<S>,
    x: Seq<S>,
    m: nat,
    c: nat,
)
    requires
        absorbing(null),
        hs.t_len > 0,
        hs.d > 0,
        c > 0,
        c == hs.width(),
        m == hs.positions(),
        out.len() == m * c,
        ds.len() == hs.weight_rows() * hs.t_len,
        is_attn_scores_bwd(hs, side, out, ds, x),
        weights_null(null, targets, hs, ds),
    ensures
        padding_null(null, targets, hs.t_len as int, out, m, c),
{
    lemma_whole_rows(m as int, c as int);
    assert forall|r: int| 0 <= r < m && is_padding(targets, hs.t_len as int, r) implies all_null(
        null,
        #[trigger] row_of(out, c, r),
    ) by {
        let row = row_of(out, c, r);
        lemma_row_inside(r, m as int, c as int);
        assert(scaled_causal_row(hs, side, ds, x, r, row));
        let scale = choose|scale: S| #[trigger]
            is_score_scale(hs.d as nat, scale) && (forall|col: int|
                0 <= col < row.len() ==> is_scaled_sum(
                    hs,
                    side,
                    ds,
                    x,
                    r,
                    col,
                    scale,
                    #[trigger] row[col],
                ));
        assert forall|col: int| 0 <= col < row.len() implies null(#[trigger] row[col]) by {
            assert(is_scaled_sum(hs, side, ds, x, r, col, scale, row[col]));
            let acc = choose|acc: S| #[trigger]
                is_causal_sum(hs, side, ds, x, r, col, acc) && is_prod(acc, scale, row[col]);
            lemma_weighted_null(null, targets, hs, side, ds, x, r, col, acc);
        }
    }
}

/// To the values.
proof fn lemma_dv_null<S: Scalar>(
    null: spec_fn(S) -> bool,
    targets: Seq<i32>,
    hs: Heads,
    dv: Seq<S>,
    att: Seq<S>,
    dy: Seq<S>,
    m: nat,
    c: nat,
)
    requires
        absorbing(null),
        hs.t_len > 0,
        hs.d > 0,
        c > 0,
        c == hs.width(),
        m == hs.positions(),
        dv.len() == m * c,
        dy.len() == m * c,
        is_attn_mix(hs, Side::Future, dv, att, dy),
        padding_null(null, targets, hs.t_len as int, dy, m, c),
    ensures
        padding_null(null, targets, hs.t_len as int, dv, m, c),
{
    let n = hs.t_len as int;
    lemma_whole_rows(m as int, c as int);
    assert forall|r: int| 0 <= r < m && is_padding(targets, n, r) implies all_null(
        null,
        #[trigger] row_of(dv, c, r),
    ) by {
        let row = row_of(dv, c, r);
        lemma_row_inside(r, m as int, c as int);
        assert(causal_row(hs, Side::Future, att, dy, r, row));
        lemma_unpair(r, hs.b_n as int, n);
        let (b, t) = (r / n, r % n);
        assert forall|col: int| 0 <= col < row.len() implies null(#[trigger] row[col]) by {
            assert(is_causal_sum(hs, Side::Future, att, dy, r, col, row[col]));
            let h = col / hs.d as int;
            let base = hs.weight_row(b, h, t) * n;
            let start = hs.entry(b, t, col);
            assert forall|p: int| 0 <= p < n - t implies null(att[base + t + p * n]) || null(
                #[trigger] dy[start + p * hs.width()],
            ) by {
                lemma_padding_goes_on(hs, targets, b, t, p);
                crate::index::lemma_pair(b, hs.b_n as int, t + p, n);
                lemma_step_down(hs.position(b, t), p, hs.width());
                lemma_row_inside(hs.position(b, t + p), m as int, c as int);
                let later = row_of(dy, c, hs.position(b, t + p));
                assert(all_null(null, later));
                assert(later[col] == dy[start + p * hs.width()]);
            }
            lemma_dot_null(
                null,
                att,
                base + t,
                n,
                dy,
                start,
                hs.width(),
                (n - t) as nat,
                row[col],
            );
        }
    }
}

/// Every gradient that flows through a layer, but those of the attention weights, is null
/// at padding.
pub open spec fn flow_null<S>(
    null: spec_fn(S) -> bool,
    s: Shape,
    targets: Seq<i32>,
    f: LayerFlow<S>,
) -> bool {
    let (m, c, t) = (s.rows as nat, s.c() as nat, s.t_len as int);
    let c4 = (4 * s.c()) as nat;
    &&& padding_null(null, targets, t, f.d_out, m, c)
    &&& padding_null(null, targets, t, f.d_act, m, c4)
    &&& padding_null(null, targets, t, f.d_h, m, c4)
    &&& padding_null(null, targets, t, f.d_xn2, m, c)
    &&& padding_null(null, targets, t, f.d_mid, m, c)
    &&& padding_null(null, targets, t, f.d_atty, m, c)
    &&& weights_null(null, targets, s.heads_spec(), f.d_att)
    &&& weights_null(null, targets, s.heads_spec(), f.d_scores)
    &&& padding_null(null, targets, t, f.d_v, m, c)
    &&& padding_null(null, targets, t, f.d_q, m, c)
    &&& padding_null(null, targets, t, f.d_k, m, c)
    &&& padding_null(null, targets, t, f.d_xn, m, c)
    &&& padding_null(null, targets, t, f.d_in, m, c)
}

/// Through a layer.
proof fn lemma_layer_null<S: Scalar>(
    null: spec_fn(S) -> bool,
    s: Shape,
    targets: Seq<i32>,
    w: LayerWeights<S>,
    a: LayerValues<S>,
    f: LayerFlow<S>,
    before: LayerWeights<S>,
    after: LayerWeights<S>,
)
    requires
        absorbing(null),
        s.ok(),
        is_layer_bwd(s, w, a, f, before, after),
        padding_null(null, targets, s.t_len as int, f.d_out, s.rows as nat, s.c() as nat),
    ensures
        flow_null(null, s, targets, f),
{
    reveal(is_layer_bwd);
    let (m, c, t) = (s.rows as nat, s.c() as nat, s.t_len as int);
    let c4 = (4 * s.c()) as nat;
    let hs = s.heads_spec();
    s.lemma_numbers();
    assert(s.rc() == m * c && s.rc4() == m * c4);
    lemma_linear_null(null, targets, t, f.d_act, f.d_out, w.fc2, m, c4, c);
    lemma_relu_null(null, targets, t, f.d_act, f.d_h, a.hpre, m, c4);
    lemma_linear_null(null, targets, t, f.d_xn2, f.d_h, w.fc1, m, c, c4);
    lemma_norm_null(null, targets, t, f.d_norm2, a.x_mid, a.r2, f.d_xn2, m, c);
    lemma_residual_null(null, targets, t, f.d_norm2, f.d_mid, f.d_out, m, c);
    lemma_linear_null(null, targets, t, f.d_atty, f.d_mid, w.wo, m, c, c);
    lemma_dp_null(null, targets, hs, f.d_att, f.d_atty, a.v);
    lemma_dv_null(null, targets, hs, f.d_v, a.att, f.d_atty, m, c);
    lemma_ds_null(null, targets, hs, f.d_scores, a.att, f.d_att);
    lemma_scores_null(null, targets, hs, Side::Past, f.d_q, f.d_scores, a.k, m, c);
    lemma_scores_null(null, targets, hs, Side::Future, f.d_k, f.d_scores, a.q, m, c);
    lemma_linear_null(null, targets, t, f.d_xq, f.d_q, w.wq, m, c, c);
    lemma_added_null(null, targets, t, f.d_xq, f.d_xqk, f.d_k, w.wk, m, c, c);
    lemma_added_null(null, targets, t, f.d_xqk, f.d_xn, f.d_v, w.wv, m, c, c);
    lemma_norm_null(null, targets, t, f.d_norm1, a.xin, a.r1, f.d_xn, m, c);
    lemma_residual_null(null, targets, t, f.d_norm1, f.d_in, f.d_mid, m, c);
}

/// Through the layers from `li` on.
proof fn lemma_layers_null<S: Scalar>(
    null: spec_fn(S) -> bool,
    s: Shape,
    w: Weights<S>,
    tokens: Seq<i32>,
    targets: Seq<i32>,
    valid: nat,
    a: Values<S>,
    probs: Seq<S>,
    f: Flow<S>,
    before: Weights<S>,
    after: Weights<S>,
    li: int,
)
    requires
        absorbing(null),
        s.ok(),
        is_backward(s, w, tokens, targets, valid, a, probs, f, before, after),
        padding_null(
            null,
            targets,
            s.t_len as int,
            f.layers[s.cfg.n_layer - 1].d_out,
            s.rows as nat,
            s.c() as nat,
        ),
        0 <= li < s.cfg.n_layer,
    ensures
        flow_null(null, s, targets, f.layers[li]),
    decreases s.cfg.n_layer - li,
{
    if li < s.cfg.n_layer - 1 {
        lemma_layers_null(
            null,
            s,
            w,
            tokens,
            targets,
            valid,
            a,
            probs,
            f,
            before,
            after,
            li + 1,
        );
        assert(f.layers[li].d_out == f.layers[li + 1].d_in);
    }
    assert(is_layer_bwd(
        s,
        w.layers[li],
        a.layers[li],
        f.layers[li],
        before.layers[li],
        after.layers[li],
    ));
    lemma_layer_null(
        null,
        s,
        targets,
        w.layers[li],
        a.layers[li],
        f.layers[li],
        before.layers[li],
        after.layers[li],
    );
}

/// The gradient of the last layer's output has its size.
proof fn lemma_last_sized<S: Scalar>(
    s: Shape,
    w: LayerWeights<S>,
    a: LayerValues<S>,
    f: LayerFlow<S>,
    before: LayerWeights<S>,
    after: LayerWeights<S>,
)
    requires
        is_layer_bwd(s, w, a, f, before, after),
    ensures
        flow_sized(s, f),
{
    reveal(is_layer_bwd);
}

/// Padding needs no special treatment behind the loss: the gradients that the masked loss
/// gives to the padding at the end of a document are zero, and they stay zero through every
/// step of the backward pass, down to the embeddings.
pub proof fn law_padding_gets_no_gradient<S: Scalar>(
    null: spec_fn(S) -> bool,
    s: Shape,
    w: Weights<S>,
    tokens: Seq<i32>,
    targets: Seq<i32>,
    valid: nat,
    a: Values<S>,
    probs: Seq<S>,
    f: Flow<S>,
    before: Weights<S>,
    after: Weights<S>,
)
    requires
        absorbing(null),
        s.ok(),
        is_backward(s, w, tokens, targets, valid, a, probs, f, before, after),
    ensures
        padding_null(
            null,
            targets,
            s.t_len as int,
            f.d_logits,
            s.rows as nat,
            s.vocab as nat,
        ),
        forall|li: int|
            0 <= li < s.cfg.n_layer ==> flow_null(null, s, targets, #[trigger] f.layers[li]),
        padding_null(null, targets, s.t_len as int, f.d_x0, s.rows as nat, s.c() as nat),
{
    let (m, c, v, t) = (s.rows as nat, s.c() as nat, s.vocab as nat, s.t_len as int);
    let last = s.cfg.n_layer - 1;
    s.lemma_numbers();
    assert(s.rc() == m * c && s.rv() == m * v);
    lemma_ce_null(null, f.d_logits, probs, targets, t, m, v, valid);
    assert forall|li: int| 0 <= li < s.cfg.n_layer implies flow_sized(
        s,
        #[trigger] f.layers[li],
    ) by {
        lemma_last_sized(
            s,
            w.layers[li],
            a.layers[li],
            f.layers[li],
            before.layers[li],
            after.layers[li],
        );
    }
    assert(flow_sized(s, f.layers[last]) && flow_sized(s, f.layers[0]));
    lemma_linear_null(null, targets, t, f.layers[last].d_out, f.d_logits, w.lm_head, m, c, v);
    assert forall|li: int| 0 <= li < s.cfg.n_layer implies flow_null(
        null,
        s,
        targets,
        #[trigger] f.layers[li],
    ) by {
        lemma_layers_null(
            null,
            s,
            w,
            tokens,
            targets,
            valid,
            a,
            probs,
            f,
            before,
            after,
            li,
        );
    }
    assert(flow_null(null, s, targets, f.layers[0]));
    lemma_norm_null(null, targets, t, f.d_x0, a.x0, a.r0, f.layers[0].d_in, m, c);
}

/// The rows in which a token stands hold that token.
proof fn lemma_places_hold(tokens: Seq<i32>, token: int, n: nat)
    ensures
        forall|i: int|
            0 <= i < places(tokens, token, n).len() ==> 0 <= #[trigger] places(tokens, token, n)[i]
                < n && tokens[places(tokens, token, n)[i]] == token,
    decreases n,
{
    if n > 0 {
        lemma_places_hold(tokens, token, (n - 1) as nat);
        let (at, before) = (places(tokens, token, n), places(tokens, token, (n - 1) as nat));
        assert forall|i: int| 0 <= i < at.len() implies 0 <= #[trigger] at[i] < n && tokens[at[i]]
            == token by {
            if i < before.len() {
                assert(at[i] == before[i]);
            }
        }
    }
}

/// The rows of a position are those of the documents at that position.
pub proof fn lemma_visits_hold(t: int, t_len: int, n: nat)
    ensures
        forall|i: int|
            0 <= i < visits(t, t_len, n).len() ==> 0 <= #[trigger] visits(t, t_len, n)[i] < n
                && visits(t, t_len, n)[i] % t_len == t,
    decreases n,
{
    if n > 0 {
        lemma_visits_hold(t, t_len, (n - 1) as nat);
        let (at, before) = (visits(t, t_len, n), visits(t, t_len, (n - 1) as nat));
        assert forall|i: int| 0 <= i < at.len() implies 0 <= #[trigger] at[i] < n && at[i] % t_len
            == t by {
            if i < before.len() {
                assert(at[i] == before[i]);
            }
        }
    }
}

/// What is gathered from rows of padding alone.
proof fn lemma_gathered_null<S: Scalar>(
    null: spec_fn(S) -> bool,
    targets: Seq<i32>,
    t_len: int,
    dx: Seq<S>,
    m: nat,
    c: nat,
    at: Seq<int>,
    j: int,
    before: S,
    after: S,
)
    requires
        absorbing(null),
        dx.len() == m * c,
        0 <= j < c,
        padding_null(null, targets, t_len, dx, m, c),
        forall|i: int|
            0 <= i < at.len() ==> 0 <= #[trigger] at[i] < m && is_padding(targets, t_len, at[i]),
        is_gathered(dx, c as int, at, j, before, after),
        null(before),
    ensures
        null(after),
{
    let term = row_term(dx, c as int, at, j);
    let (zero, acc) = choose|zero: S, acc: S|
        is_zero(zero) && #[trigger] is_running_sum(zero, term, at.len(), acc) && is_sum(
            before,
            acc,
            after,
        );
    assert forall|i: int, t: S| 0 <= i < at.len() && #[trigger] term(i, t) implies null(t) by {
        let r = at[i];
        lemma_row_inside(r, m as int, c as int);
        assert(all_null(null, row_of(dx, c, r)));
        assert(row_of(dx, c, r)[j] == dx[r * c + j]);
    }
    lemma_running_sum_null(null, zero, term, at.len(), acc);
}

/// Padding leaves no trace in the gradients of the embeddings. Where they start out as zero,
/// they stay zero for a token that stands at no position but padding, for a position that is
/// padding in every document, and for the positions beyond the run.
pub proof fn law_padding_reaches_no_embedding<S: Scalar>(
    null: spec_fn(S) -> bool,
    s: Shape,
    w: Weights<S>,
    tokens: Seq<i32>,
    targets: Seq<i32>,
    valid: nat,
    a: Values<S>,
    probs: Seq<S>,
    f: Flow<S>,
    before: Weights<S>,
    after: Weights<S>,
)
    requires
        absorbing(null),
        s.ok(),
        tokens.len() == s.rows,
        before.wte.len() == s.vocab * s.c(),
        before.wpe.len() == s.cfg.block_size * s.c(),
        all_null(null, before.wte),
        all_null(null, before.wpe),
        is_backward(s, w, tokens, targets, valid, a, probs, f, before, after),
    ensures
        forall|v: int|
            0 <= v < s.vocab && (forall|r: int|
                0 <= r < s.rows && #[trigger] tokens[r] == v ==> is_padding(
                    targets,
                    s.t_len as int,
                    r,
                )) ==> all_null(null, #[trigger] row_of(after.wte, s.c() as nat, v)),
        forall|t: int|
            0 <= t < s.cfg.block_size && (t < s.t_len ==> (forall|b: int|
                0 <= b < s.heads_spec().b_n ==> is_padding(
                    targets,
                    s.t_len as int,
                    #[trigger] s.heads_spec().position(b, t),
                ))) ==> all_null(null, #[trigger] row_of(after.wpe, s.c() as nat, t)),
{
    let (m, c, n) = (s.rows as nat, s.c() as nat, s.t_len as int);
    let hs = s.heads_spec();
    s.lemma_numbers();
    assert(s.rc() == m * c);
    law_padding_gets_no_gradient(null, s, w, tokens, targets, valid, a, probs, f, before, after);
    lemma_whole_rows(s.vocab as int, c as int);
    assert forall|v: int|
        0 <= v < s.vocab && (forall|r: int|
            0 <= r < s.rows && #[trigger] tokens[r] == v ==> is_padding(
                targets,
                n,
                r,
            )) implies all_null(null, #[trigger] row_of(after.wte, c, v)) by {
        lemma_row_inside(v, s.vocab as int, c as int);
        let (rb, ra) = (row_of(before.wte, c, v), row_of(after.wte, c, v));
        assert(embed_bwd_wte_row(f.d_x0, tokens, v, rb, ra));
        let at = places(tokens, v, tokens.len());
        lemma_places_hold(tokens, v, tokens.len());
        assert forall|j: int| 0 <= j < ra.len() implies null(#[trigger] ra[j]) by {
            assert(is_gathered(f.d_x0, c as int, at, j, rb[j], ra[j]));
            assert(rb[j] == before.wte[v * c + j]);
            lemma_gathered_null(null, targets, n, f.d_x0, m, c, at, j, rb[j], ra[j]);
        }
    }
    assert forall|t: int|
        0 <= t < s.cfg.block_size && (t < s.t_len ==> (forall|b: int|
            0 <= b < hs.b_n ==> is_padding(
                targets,
                n,
                #[trigger] hs.position(b, t),
            ))) implies all_null(null, #[trigger] row_of(after.wpe, c, t)) by {
        lemma_row_inside(t, s.cfg.block_size as int, c as int);
        let ra = row_of(after.wpe, c, t);
        assert forall|j: int| 0 <= j < ra.len() implies null(#[trigger] ra[j]) by {
            let i = t * c + j;
            assert(ra[j] == after.wpe[i]);
            assert(null(before.wpe[i]));
            crate::index::lemma_pair(t, s.cfg.block_size as int, j, c as int);
            if t < n {
                crate::index::lemma_pair(t, n, j, c as int);
                let at = visits(t, n, m);
                lemma_visits_hold(t, n, m);
                assert forall|k: int| 0 <= k < at.len() implies 0 <= #[trigger] at[k] < m
                    && is_padding(targets, n, at[k]) by {
                    lemma_unpair(at[k], hs.b_n as int, n);
                    assert(hs.position(at[k] / n, t) == at[k]);
                }
                assert(is_gathered(f.d_x0, c as int, at, j, before.wpe[i], after.wpe[i]));
                lemma_gathered_null(
                    null,
                    targets,
                    n,
                    f.d_x0,
                    m,
                    c,
                    at,
                    j,
                    before.wpe[i],
                    after.wpe[i],
                );
            } else {
                assert(i >= n * c) by (nonlinear_arith)
                    requires
                        i == t * c + j,
                        t >= n,
                        j >= 0,
                        c >= 0,
                ;
                assert(after.wpe[i] == before.wpe[i]);
            }
        }
    }
}

} // verus!
