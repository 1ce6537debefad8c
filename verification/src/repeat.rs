//! Where operations have one outcome, the backward passes have: computed twice from the same
//! numbers, gradients are the same.
use vstd::prelude::*;

use crate::adam::{
    is_adam, is_decay, is_decayed_rate, is_descent, is_first_moment, is_second_moment, is_unbiased,
    Moments, ADAM_EPS_DEN, BETA1, BETA2, BETA_DEN,
};
use crate::agree::{lemma_dot_agrees, lemma_scale_agrees};
use crate::attention::{
    causal_row, is_attn_mix, is_attn_mix_bwd_dp, is_attn_scores_bwd, is_attn_softmax_bwd,
    is_causal_sum, is_scaled_sum, is_score_scale, is_softmax_grad, mix_bwd_dp_row,
    scaled_causal_row, softmax_bwd_row, softmax_bwd_row_by, Heads, Side,
};
use crate::embed::{
    embed_bwd_wte_row, is_embed_bwd_wpe, is_embed_bwd_wte, is_gathered, places, row_term, visits,
};
use crate::index::{lemma_row_inside, lemma_unpair, lemma_whole_rows};
use crate::loss::{ce_bwd_row, is_ce_bwd, is_ce_grad};
use crate::matmul::{
    is_landed_dot, is_linear_bwd, is_matmul_nn, is_matmul_tn, linear_bwd_row, matmul_nn_row,
    matmul_tn_row,
};
use crate::norm::{is_norm_bwd, is_norm_grad, is_pull, rmsnorm_bwd_row, rmsnorm_bwd_row_by};
use crate::pointwise::{is_add_inplace, is_relu_bwd, is_relu_grad};
use crate::reduce::is_dot;
use crate::rows::row_of;
use crate::scalar::{
    deterministic, is_diff, is_num, is_one, is_one_minus_pow, is_prod, is_quot, is_ratio,
    is_running_sum, is_sqrt, is_sum, is_zero, lands, lemma_running_sum_unique, Scalar,
};

verus! {

/// Buffers of `m` whole rows whose rows are the same are the same.
pub proof fn lemma_same_rows<S>(x: Seq<S>, y: Seq<S>, m: nat, n: nat)
    requires
        n > 0,
        x.len() == m * n,
        y.len() == m * n,
        forall|r: int| 0 <= r < m ==> #[trigger] row_of(x, n, r) == row_of(y, n, r),
    ensures
        x == y,
{
    assert forall|i: int| 0 <= i < x.len() implies x[i] == y[i] by {
        lemma_unpair(i, m as int, n as int);
        let (r, j) = (i / n as int, i % n as int);
        lemma_row_inside(r, m as int, n as int);
        assert(row_of(x, n, r)[j] == row_of(y, n, r)[j]);
    }
    assert(x =~= y);
}

/// A dot product, twice.
proof fn lemma_dot_repeats<S: Scalar>(
    x: Seq<S>,
    xo: int,
    xs: int,
    y: Seq<S>,
    yo: int,
    ys: int,
    n: nat,
    r: S,
    q: S,
)
    requires
        deterministic::<S>(),
        is_dot(x, xo, xs, y, yo, ys, n, r),
        is_dot(x, xo, xs, y, yo, ys, n, q),
    ensures
        r == q,
{
    lemma_dot_agrees(x, x, xo, xs, y, y, yo, ys, n, r, q);
}

/// A dot product that lands, twice.
proof fn lemma_landed_repeats<S: Scalar>(
    x: Seq<S>,
    xo: int,
    xs: int,
    y: Seq<S>,
    yo: int,
    ys: int,
    n: nat,
    accum: bool,
    before: S,
    r: S,
    q: S,
)
    requires
        deterministic::<S>(),
        is_landed_dot(x, xo, xs, y, yo, ys, n, accum, before, r),
        is_landed_dot(x, xo, xs, y, yo, ys, n, accum, before, q),
    ensures
        r == q,
{
    let a1 = choose|acc: S| #[trigger]
        is_dot(x, xo, xs, y, yo, ys, n, acc) && lands(accum, before, acc, r);
    let a2 = choose|acc: S| #[trigger]
        is_dot(x, xo, xs, y, yo, ys, n, acc) && lands(accum, before, acc, q);
    lemma_dot_repeats(x, xo, xs, y, yo, ys, n, a1, a2);
}

/// `dy @ w`, twice.
pub proof fn lemma_linear_bwd_repeats<S: Scalar>(
    a: Seq<S>,
    b: Seq<S>,
    dy: Seq<S>,
    w: Seq<S>,
    m: nat,
    n: nat,
    k: nat,
)
    requires
        deterministic::<S>(),
        n > 0,
        a.len() == m * n,
        b.len() == m * n,
        is_linear_bwd(a, dy, w, n, k),
        is_linear_bwd(b, dy, w, n, k),
    ensures
        a == b,
{
    lemma_whole_rows(m as int, n as int);
    assert forall|r: int| 0 <= r < m implies #[trigger] row_of(a, n, r) == row_of(b, n, r) by {
        lemma_row_inside(r, m as int, n as int);
        let (x, y) = (row_of(a, n, r), row_of(b, n, r));
        assert(linear_bwd_row(dy, w, k, r, x) && linear_bwd_row(dy, w, k, r, y));
        assert forall|j: int| 0 <= j < n implies x[j] == y[j] by {
            assert(is_dot(dy, r * k, 1, w, j, n as int, k, x[j]));
            assert(is_dot(dy, r * k, 1, w, j, n as int, k, y[j]));
            lemma_dot_repeats(dy, r * k, 1, w, j, n as int, k, x[j], y[j]);
        }
        assert(x =~= y);
    }
    lemma_same_rows(a, b, m, n);
}

/// `before + dy @ w`, twice.
pub proof fn lemma_matmul_nn_repeats<S: Scalar>(
    before: Seq<S>,
    a: Seq<S>,
    b: Seq<S>,
    dy: Seq<S>,
    w: Seq<S>,
    m: nat,
    n: nat,
    k: nat,
)
    requires
        deterministic::<S>(),
        n > 0,
        before.len() == m * n,
        is_matmul_nn(before, a, dy, w, n, k, true),
        is_matmul_nn(before, b, dy, w, n, k, true),
    ensures
        a == b,
{
    lemma_whole_rows(m as int, n as int);
    assert forall|r: int| 0 <= r < m implies #[trigger] row_of(a, n, r) == row_of(b, n, r) by {
        lemma_row_inside(r, m as int, n as int);
        let (x, y, z) = (row_of(a, n, r), row_of(b, n, r), row_of(before, n, r));
        assert(matmul_nn_row(dy, w, k, true, r, z, x) && matmul_nn_row(dy, w, k, true, r, z, y));
        assert forall|j: int| 0 <= j < n implies x[j] == y[j] by {
            assert(is_landed_dot(dy, r * k, 1, w, j, n as int, k, true, z[j], x[j]));
            assert(is_landed_dot(dy, r * k, 1, w, j, n as int, k, true, z[j], y[j]));
            lemma_landed_repeats(dy, r * k, 1, w, j, n as int, k, true, z[j], x[j], y[j]);
        }
        assert(x =~= y);
    }
    lemma_same_rows(a, b, m, n);
}

/// `before + dy^T @ x`, twice.
pub proof fn lemma_matmul_tn_repeats<S: Scalar>(
    before: Seq<S>,
    a: Seq<S>,
    b: Seq<S>,
    dy: Seq<S>,
    x: Seq<S>,
    m: nat,
    n: nat,
    k: nat,
)
    requires
        deterministic::<S>(),
        n > 0,
        before.len() == m * n,
        is_matmul_tn(before, a, dy, x, m, n, k),
        is_matmul_tn(before, b, dy, x, m, n, k),
    ensures
        a == b,
{
    lemma_whole_rows(m as int, n as int);
    assert forall|r: int| 0 <= r < m implies #[trigger] row_of(a, n, r) == row_of(b, n, r) by {
        lemma_row_inside(r, m as int, n as int);
        let (p, q, z) = (row_of(a, n, r), row_of(b, n, r), row_of(before, n, r));
        assert(matmul_tn_row(dy, x, m, k, r, z, p) && matmul_tn_row(dy, x, m, k, r, z, q));
        assert forall|j: int| 0 <= j < n implies p[j] == q[j] by {
            assert(is_landed_dot(dy, r, m as int, x, j, n as int, k, true, z[j], p[j]));
            assert(is_landed_dot(dy, r, m as int, x, j, n as int, k, true, z[j], q[j]));
            lemma_landed_repeats(dy, r, m as int, x, j, n as int, k, true, z[j], p[j], q[j]);
        }
        assert(p =~= q);
    }
    lemma_same_rows(a, b, m, n);
}

/// The backward pass of the cut-off, twice.
pub proof fn lemma_relu_bwd_repeats<S: Scalar>(before: Seq<S>, a: Seq<S>, b: Seq<S>, x: Seq<S>)
    requires
        deterministic::<S>(),
        is_relu_bwd(before, a, x),
        is_relu_bwd(before, b, x),
    ensures
        a == b,
{
    assert forall|i: int| 0 <= i < a.len() implies a[i] == b[i] by {
        assert(is_relu_grad(x[i], before[i], a[i]) && is_relu_grad(x[i], before[i], b[i]));
    }
    assert(a =~= b);
}

/// An addition in place, twice.
pub proof fn lemma_add_repeats<S: Scalar>(before: Seq<S>, a: Seq<S>, b: Seq<S>, x: Seq<S>)
    requires
        deterministic::<S>(),
        is_add_inplace(before, a, x),
        is_add_inplace(before, b, x),
    ensures
        a == b,
{
    assert forall|i: int| 0 <= i < a.len() implies a[i] == b[i] by {
        assert(is_sum(before[i], x[i], a[i]) && is_sum(before[i], x[i], b[i]));
    }
    assert(a =~= b);
}

/// The pull of a row, twice.
pub proof fn lemma_pull_repeats<S: Scalar>(r: S, dot: S, c: nat, k: S, l: S)
    requires
        deterministic::<S>(),
        is_pull(r, dot, c, k),
        is_pull(r, dot, c, l),
    ensures
        k == l,
{
    let (a2, a3, at, ac) = choose|r2: S, r3: S, top: S, count: S|
        #![trigger is_prod(r2, r, r3), is_quot(top, count, k)]
        is_prod(r, r, r2) && is_prod(r2, r, r3) && is_prod(r3, dot, top) && is_num(
            c as u64,
            count,
        ) && is_quot(top, count, k);
    let (b2, b3, bt, bc) = choose|r2: S, r3: S, top: S, count: S|
        #![trigger is_prod(r2, r, r3), is_quot(top, count, l)]
        is_prod(r, r, r2) && is_prod(r2, r, r3) && is_prod(r3, dot, top) && is_num(
            c as u64,
            count,
        ) && is_quot(top, count, l);
    assert(a2 == b2 && ac == bc);
    assert(is_prod(a2, r, a3) && is_prod(a2, r, b3));
    assert(is_prod(a3, dot, at) && is_prod(a3, dot, bt));
    assert(is_quot(at, ac, k) && is_quot(at, ac, l));
}

/// The backward pass of the normalization, twice.
pub proof fn lemma_norm_bwd_repeats<S: Scalar>(
    a: Seq<S>,
    b: Seq<S>,
    x: Seq<S>,
    rinv: Seq<S>,
    dy: Seq<S>,
    m: nat,
    c: nat,
)
    requires
        deterministic::<S>(),
        c > 0,
        a.len() == m * c,
        b.len() == m * c,
        is_norm_bwd(a, x, rinv, dy, c),
        is_norm_bwd(b, x, rinv, dy, c),
    ensures
        a == b,
{
    lemma_whole_rows(m as int, c as int);
    assert forall|t: int| 0 <= t < m implies #[trigger] row_of(a, c, t) == row_of(b, c, t) by {
        lemma_row_inside(t, m as int, c as int);
        let (p, q) = (row_of(a, c, t), row_of(b, c, t));
        assert(rmsnorm_bwd_row(x, rinv, dy, false, t, p, p));
        assert(rmsnorm_bwd_row(x, rinv, dy, false, t, q, q));
        let (d1, k1) = choose|dot: S, k: S| #[trigger]
            rmsnorm_bwd_row_by(x, rinv, dy, false, t, p, p, dot, k);
        let (d2, k2) = choose|dot: S, k: S| #[trigger]
            rmsnorm_bwd_row_by(x, rinv, dy, false, t, q, q, dot, k);
        lemma_dot_repeats(dy, t * c, 1, x, t * c, 1, c, d1, d2);
        lemma_pull_repeats(rinv[t], d1, c, k1, k2);
        assert forall|j: int| 0 <= j < c implies p[j] == q[j] by {
            let (r, g, z) = (rinv[t], dy[t * c + j], x[t * c + j]);
            assert(is_norm_grad(r, g, k1, z, false, p[j], p[j]));
            assert(is_norm_grad(r, g, k1, z, false, q[j], q[j]));
            let (a1, a2, a3) = choose|direct: S, pulled: S, out: S|
                #![trigger is_diff(direct, pulled, out)]
                is_prod(r, g, direct) && is_prod(k1, z, pulled) && is_diff(direct, pulled, out)
                    && lands(false, p[j], out, p[j]);
            let (b1, b2, b3) = choose|direct: S, pulled: S, out: S|
                #![trigger is_diff(direct, pulled, out)]
                is_prod(r, g, direct) && is_prod(k1, z, pulled) && is_diff(direct, pulled, out)
                    && lands(false, q[j], out, q[j]);
            assert(a1 == b1 && a2 == b2);
            assert(is_diff(a1, a2, a3) && is_diff(a1, a2, b3));
        }
        assert(p =~= q);
    }
    lemma_same_rows(a, b, m, c);
}

/// The gradient of the logits, twice; the probabilities of padding do not matter.
pub proof fn lemma_ce_bwd_repeats<S: Scalar>(
    a: Seq<S>,
    b: Seq<S>,
    probs: Seq<S>,
    others: Seq<S>,
    targets: Seq<i32>,
    m: nat,
    vocab: nat,
    valid: nat,
)
    requires
        deterministic::<S>(),
        vocab > 0,
        a.len() == m * vocab,
        b.len() == m * vocab,
        probs.len() == m * vocab,
        others.len() == m * vocab,
        is_ce_bwd(a, probs, targets, vocab, valid),
        is_ce_bwd(b, others, targets, vocab, valid),
        forall|r: int|
            0 <= r < m && targets[r] >= 0 ==> #[trigger] row_of(probs, vocab, r) == row_of(
                others,
                vocab,
                r,
            ),
    ensures
        a == b,
{
    lemma_whole_rows(m as int, vocab as int);
    assert forall|t: int| 0 <= t < m implies #[trigger] row_of(a, vocab, t) == row_of(
        b,
        vocab,
        t,
    ) by {
        lemma_row_inside(t, m as int, vocab as int);
        let (x, y) = (row_of(a, vocab, t), row_of(b, vocab, t));
        assert(ce_bwd_row(probs, targets, valid, t, x));
        assert(ce_bwd_row(others, targets, valid, t, y));
        assert forall|j: int| 0 <= j < vocab implies x[j] == y[j] by {
            if targets[t] < 0 {
                assert(is_zero(x[j]) && is_zero(y[j]));
            } else {
                assert(row_of(probs, vocab, t)[j] == row_of(others, vocab, t)[j]);
                let p = probs[t * vocab + j];
                let hit = j == targets[t];
                assert(is_ce_grad(p, hit, valid, x[j]) && is_ce_grad(p, hit, valid, y[j]));
                let (o1, d1, c1) = choose|one: S, diff: S, count: S|
                    #![trigger is_diff(p, one, diff), is_quot(diff, count, x[j])]
                    (if hit {
                        is_one(one)
                    } else {
                        is_zero(one)
                    }) && is_diff(p, one, diff) && is_num(valid as u64, count) && is_quot(
                        diff,
                        count,
                        x[j],
                    );
                let (o2, d2, c2) = choose|one: S, diff: S, count: S|
                    #![trigger is_diff(p, one, diff), is_quot(diff, count, y[j])]
                    (if hit {
                        is_one(one)
                    } else {
                        is_zero(one)
                    }) && is_diff(p, one, diff) && is_num(valid as u64, count) && is_quot(
                        diff,
                        count,
                        y[j],
                    );
                assert(o1 == o2 && c1 == c2);
                assert(is_diff(p, o1, d1) && is_diff(p, o1, d2));
                assert(is_quot(d1, c1, x[j]) && is_quot(d1, c1, y[j]));
            }
        }
        assert(x =~= y);
    }
    lemma_same_rows(a, b, m, vocab);
}

/// A sum over the past or the future, twice.
proof fn lemma_causal_sum_repeats<S: Scalar>(
    hs: Heads,
    side: Side,
    w: Seq<S>,
    x: Seq<S>,
    r: int,
    col: int,
    a: S,
    b: S,
)
    requires
        deterministic::<S>(),
        is_causal_sum(hs, side, w, x, r, col, a),
        is_causal_sum(hs, side, w, x, r, col, b),
    ensures
        a == b,
{
    let (d, t, h) = (r / hs.t_len as int, r % hs.t_len as int, col / hs.d as int);
    let row = hs.weight_row(d, h, t) * hs.t_len;
    match side {
        Side::Past => lemma_dot_repeats(
            w,
            row,
            1,
            x,
            hs.entry(d, 0, col),
            hs.width(),
            (t + 1) as nat,
            a,
            b,
        ),
        Side::Future => lemma_dot_repeats(
            w,
            row + t,
            hs.t_len as int,
            x,
            hs.entry(d, t, col),
            hs.width(),
            (hs.t_len - t) as nat,
            a,
            b,
        ),
    }
}

/// Sums over one side, twice.
pub proof fn lemma_mix_repeats<S: Scalar>(
    hs: Heads,
    side: Side,
    a: Seq<S>,
    b: Seq<S>,
    w: Seq<S>,
    x: Seq<S>,
    m: nat,
    c: nat,
)
    requires
        deterministic::<S>(),
        c > 0,
        hs.width() == c,
        a.len() == m * c,
        b.len() == m * c,
        is_attn_mix(hs, side, a, w, x),
        is_attn_mix(hs, side, b, w, x),
    ensures
        a == b,
{
    lemma_whole_rows(m as int, c as int);
    assert forall|r: int| 0 <= r < m implies #[trigger] row_of(a, c, r) == row_of(b, c, r) by {
        lemma_row_inside(r, m as int, c as int);
        let (p, q) = (row_of(a, c, r), row_of(b, c, r));
        assert(causal_row(hs, side, w, x, r, p) && causal_row(hs, side, w, x, r, q));
        assert forall|col: int| 0 <= col < c implies p[col] == q[col] by {
            assert(is_causal_sum(hs, side, w, x, r, col, p[col]));
            assert(is_causal_sum(hs, side, w, x, r, col, q[col]));
            lemma_causal_sum_repeats(hs, side, w, x, r, col, p[col], q[col]);
        }
        assert(p =~= q);
    }
    lemma_same_rows(a, b, m, c);
}

/// The gradient of queries or keys, twice.
pub proof fn lemma_scores_bwd_repeats<S: Scalar>(
    hs: Heads,
    side: Side,
    a: Seq<S>,
    b: Seq<S>,
    ds: Seq<S>,
    x: Seq<S>,
    m: nat,
    c: nat,
)
    requires
        deterministic::<S>(),
        c > 0,
        hs.width() == c,
        a.len() == m * c,
        b.len() == m * c,
        is_attn_scores_bwd(hs, side, a, ds, x),
        is_attn_scores_bwd(hs, side, b, ds, x),
    ensures
        a == b,
{
    lemma_whole_rows(m as int, c as int);
    assert forall|r: int| 0 <= r < m implies #[trigger] row_of(a, c, r) == row_of(b, c, r) by {
        lemma_row_inside(r, m as int, c as int);
        let (p, q) = (row_of(a, c, r), row_of(b, c, r));
        assert(scaled_causal_row(hs, side, ds, x, r, p));
        assert(scaled_causal_row(hs, side, ds, x, r, q));
        let s1 = choose|scale: S| #[trigger]
            is_score_scale(hs.d as nat, scale) && (forall|col: int|
                0 <= col < p.len() ==> is_scaled_sum(
                    hs,
                    side,
                    ds,
                    x,
                    r,
                    col,
                    scale,
                    #[trigger] p[col],
                ));
        let s2 = choose|scale: S| #[trigger]
            is_score_scale(hs.d as nat, scale) && (forall|col: int|
                0 <= col < q.len() ==> is_scaled_sum(
                    hs,
                    side,
                    ds,
                    x,
                    r,
                    col,
                    scale,
                    #[trigger] q[col],
                ));
        lemma_scale_agrees(hs.d as nat, s1, s2);
        assert forall|col: int| 0 <= col < c implies p[col] == q[col] by {
            assert(is_scaled_sum(hs, side, ds, x, r, col, s1, p[col]));
            assert(is_scaled_sum(hs, side, ds, x, r, col, s2, q[col]));
            let a1 = choose|acc: S| #[trigger]
                is_causal_sum(hs, side, ds, x, r, col, acc) && is_prod(acc, s1, p[col]);
            let a2 = choose|acc: S| #[trigger]
                is_causal_sum(hs, side, ds, x, r, col, acc) && is_prod(acc, s2, q[col]);
            lemma_causal_sum_repeats(hs, side, ds, x, r, col, a1, a2);
            assert(is_prod(a1, s1, p[col]) && is_prod(a1, s1, q[col]));
        }
        assert(p =~= q);
    }
    lemma_same_rows(a, b, m, c);
}

/// The gradient of the attention weights, twice.
pub proof fn lemma_mix_bwd_dp_repeats<S: Scalar>(
    hs: Heads,
    a: Seq<S>,
    b: Seq<S>,
    dy: Seq<S>,
    v: Seq<S>,
    m: nat,
)
    requires
        deterministic::<S>(),
        hs.t_len > 0,
        a.len() == m * hs.t_len,
        b.len() == m * hs.t_len,
        is_attn_mix_bwd_dp(hs, a, dy, v),
        is_attn_mix_bwd_dp(hs, b, dy, v),
    ensures
        a == b,
{
    let n = hs.t_len as nat;
    lemma_whole_rows(m as int, n as int);
    assert forall|i: int| 0 <= i < m implies #[trigger] row_of(a, n, i) == row_of(b, n, i) by {
        lemma_row_inside(i, m as int, n as int);
        let (p, q) = (row_of(a, n, i), row_of(b, n, i));
        assert(mix_bwd_dp_row(hs, dy, v, i, p) && mix_bwd_dp_row(hs, dy, v, i, q));
        let (d, h, t) = (hs.doc_of(i), hs.head_of(i), i % hs.t_len as int);
        assert forall|u: int| 0 <= u < n implies p[u] == q[u] by {
            if u <= t {
                let (st, su) = (hs.head_start(d, t, h), hs.head_start(d, u, h));
                assert(is_dot(dy, st, 1, v, su, 1, hs.d as nat, p[u]));
                assert(is_dot(dy, st, 1, v, su, 1, hs.d as nat, q[u]));
                lemma_dot_repeats(dy, st, 1, v, su, 1, hs.d as nat, p[u], q[u]);
            } else {
                assert(is_zero(p[u]) && is_zero(q[u]));
            }
        }
        assert(p =~= q);
    }
    lemma_same_rows(a, b, m, n);
}

/// The gradient of the scores, twice.
pub proof fn lemma_softmax_bwd_repeats<S: Scalar>(
    a: Seq<S>,
    b: Seq<S>,
    att: Seq<S>,
    dp: Seq<S>,
    m: nat,
    t_len: nat,
)
    requires
        deterministic::<S>(),
        t_len > 0,
        a.len() == m * t_len,
        b.len() == m * t_len,
        is_attn_softmax_bwd(a, att, dp, t_len),
        is_attn_softmax_bwd(b, att, dp, t_len),
    ensures
        a == b,
{
    lemma_whole_rows(m as int, t_len as int);
    assert forall|i: int| 0 <= i < m implies #[trigger] row_of(a, t_len, i) == row_of(
        b,
        t_len,
        i,
    ) by {
        lemma_row_inside(i, m as int, t_len as int);
        let (p, q) = (row_of(a, t_len, i), row_of(b, t_len, i));
        assert(softmax_bwd_row(att, dp, i, p) && softmax_bwd_row(att, dp, i, q));
        let l1 = choose|along: S| #[trigger] softmax_bwd_row_by(att, dp, i, p, along);
        let l2 = choose|along: S| #[trigger] softmax_bwd_row_by(att, dp, i, q, along);
        let (base, t) = (i * t_len, i % t_len as int);
        lemma_dot_repeats(dp, base, 1, att, base, 1, (t + 1) as nat, l1, l2);
        assert forall|u: int| 0 <= u < t_len implies p[u] == q[u] by {
            if u <= t {
                let (w, g) = (att[base + u], dp[base + u]);
                assert(is_softmax_grad(w, g, l1, p[u]) && is_softmax_grad(w, g, l2, q[u]));
                let d1 = choose|diff: S| #[trigger] is_diff(g, l1, diff) && is_prod(w, diff, p[u]);
                let d2 = choose|diff: S| #[trigger] is_diff(g, l2, diff) && is_prod(w, diff, q[u]);
                assert(d1 == d2);
                assert(is_prod(w, d1, p[u]) && is_prod(w, d1, q[u]));
            } else {
                assert(is_zero(p[u]) && is_zero(q[u]));
            }
        }
        assert(p =~= q);
    }
    lemma_same_rows(a, b, m, t_len);
}

/// A gathered number, twice.
proof fn lemma_gathered_repeats<S: Scalar>(
    dx: Seq<S>,
    c: int,
    at: Seq<int>,
    j: int,
    before: S,
    a: S,
    b: S,
)
    requires
        deterministic::<S>(),
        is_gathered(dx, c, at, j, before, a),
        is_gathered(dx, c, at, j, before, b),
    ensures
        a == b,
{
    let (z1, s1) = choose|zero: S, acc: S|
        is_zero(zero) && #[trigger] is_running_sum(zero, row_term(dx, c, at, j), at.len(), acc)
            && is_sum(before, acc, a);
    let (z2, s2) = choose|zero: S, acc: S|
        is_zero(zero) && #[trigger] is_running_sum(zero, row_term(dx, c, at, j), at.len(), acc)
            && is_sum(before, acc, b);
    assert(z1 == z2);
    lemma_running_sum_unique(z1, row_term(dx, c, at, j), row_term(dx, c, at, j), at.len(), s1, s2);
    assert(is_sum(before, s1, a) && is_sum(before, s1, b));
}

/// The gradient of the token embeddings, twice.
pub proof fn lemma_wte_repeats<S: Scalar>(
    before: Seq<S>,
    a: Seq<S>,
    b: Seq<S>,
    dx: Seq<S>,
    tokens: Seq<i32>,
    m: nat,
    c: nat,
)
    requires
        deterministic::<S>(),
        c > 0,
        before.len() == m * c,
        is_embed_bwd_wte(before, a, dx, tokens, c),
        is_embed_bwd_wte(before, b, dx, tokens, c),
    ensures
        a == b,
{
    lemma_whole_rows(m as int, c as int);
    assert forall|v: int| 0 <= v < m implies #[trigger] row_of(a, c, v) == row_of(b, c, v) by {
        lemma_row_inside(v, m as int, c as int);
        let (p, q, z) = (row_of(a, c, v), row_of(b, c, v), row_of(before, c, v));
        assert(embed_bwd_wte_row(dx, tokens, v, z, p) && embed_bwd_wte_row(dx, tokens, v, z, q));
        let at = places(tokens, v, tokens.len());
        assert forall|j: int| 0 <= j < c implies p[j] == q[j] by {
            assert(is_gathered(dx, c as int, at, j, z[j], p[j]));
            assert(is_gathered(dx, c as int, at, j, z[j], q[j]));
            lemma_gathered_repeats(dx, c as int, at, j, z[j], p[j], q[j]);
        }
        assert(p =~= q);
    }
    lemma_same_rows(a, b, m, c);
}

/// The gradient of the position embeddings, twice.
pub proof fn lemma_wpe_repeats<S: Scalar>(
    before: Seq<S>,
    a: Seq<S>,
    b: Seq<S>,
    dx: Seq<S>,
    rows: nat,
    t_len: nat,
    c: nat,
)
    requires
        deterministic::<S>(),
        is_embed_bwd_wpe(before, a, dx, rows, t_len, c),
        is_embed_bwd_wpe(before, b, dx, rows, t_len, c),
    ensures
        a == b,
{
    assert forall|i: int| 0 <= i < before.len() implies a[i] == b[i] by {
        if i < t_len * c {
            let at = visits(i / c as int, t_len as int, rows);
            let j = i % c as int;
            assert(is_gathered(dx, c as int, at, j, before[i], a[i]));
            assert(is_gathered(dx, c as int, at, j, before[i], b[i]));
            lemma_gathered_repeats(dx, c as int, at, j, before[i], a[i], b[i]);
        } else {
            assert(a[i] == before[i] && b[i] == before[i]);
        }
    }
    assert(a =~= b);
}

/// One minus a decay, twice.
proof fn lemma_decay_repeats<S: Scalar>(num: u32, beta: S, fresh: S, other: S, again: S)
    requires
        deterministic::<S>(),
        is_decay(num, beta, fresh),
        is_decay(num, other, again),
    ensures
        beta == other,
        fresh == again,
{
    let o1 = choose|one: S|
        is_ratio(num, BETA_DEN, beta) && is_one(one) && #[trigger] is_diff(one, beta, fresh);
    let o2 = choose|one: S|
        is_ratio(num, BETA_DEN, other) && is_one(one) && #[trigger] is_diff(one, other, again);
    assert(o1 == o2);
    assert(is_ratio(num, BETA_DEN, beta) && is_ratio(num, BETA_DEN, other));
    assert(is_diff(o1, beta, fresh) && is_diff(o1, beta, again));
}

/// The moments of a step, twice.
proof fn lemma_moments_repeat<S: Scalar>(m: S, v: S, g: S, m1: S, m2: S, v1: S, v2: S)
    requires
        deterministic::<S>(),
        is_first_moment(m, g, m1),
        is_first_moment(m, g, m2),
        is_second_moment(v, g, v1),
        is_second_moment(v, g, v2),
    ensures
        m1 == m2,
        v1 == v2,
{
    let (b1, f1, k1, a1) = choose|beta: S, fresh: S, kept: S, added: S|
        #![trigger is_prod(beta, m, kept), is_prod(fresh, g, added)]
        is_decay(BETA1, beta, fresh) && is_prod(beta, m, kept) && is_prod(fresh, g, added)
            && is_sum(kept, added, m1);
    let (b2, f2, k2, a2) = choose|beta: S, fresh: S, kept: S, added: S|
        #![trigger is_prod(beta, m, kept), is_prod(fresh, g, added)]
        is_decay(BETA1, beta, fresh) && is_prod(beta, m, kept) && is_prod(fresh, g, added)
            && is_sum(kept, added, m2);
    lemma_decay_repeats(BETA1, b1, f1, b2, f2);
    assert(k1 == k2 && a1 == a2);
    assert(is_sum(k1, a1, m1) && is_sum(k1, a1, m2));
    let (c1, e1, p1, s1, d1) = choose|beta: S, fresh: S, kept: S, scaled: S, added: S|
        #![trigger is_prod(beta, v, kept), is_prod(fresh, g, scaled), is_prod(scaled, g, added)]
        is_decay(BETA2, beta, fresh) && is_prod(beta, v, kept) && is_prod(fresh, g, scaled)
            && is_prod(scaled, g, added) && is_sum(kept, added, v1);
    let (c2, e2, p2, s2, d2) = choose|beta: S, fresh: S, kept: S, scaled: S, added: S|
        #![trigger is_prod(beta, v, kept), is_prod(fresh, g, scaled), is_prod(scaled, g, added)]
        is_decay(BETA2, beta, fresh) && is_prod(beta, v, kept) && is_prod(fresh, g, scaled)
            && is_prod(scaled, g, added) && is_sum(kept, added, v2);
    lemma_decay_repeats(BETA2, c1, e1, c2, e2);
    assert(p1 == p2 && s1 == s2);
    assert(is_prod(s1, g, d1) && is_prod(s1, g, d2));
    assert(is_sum(p1, d1, v1) && is_sum(p1, d1, v2));
}

/// A moment without bias, twice.
proof fn lemma_unbiased_repeats<S: Scalar>(num: u32, step: nat, x: S, r: S, q: S)
    requires
        deterministic::<S>(),
        is_unbiased(num, step, x, r),
        is_unbiased(num, step, x, q),
    ensures
        r == q,
{
    let b1 = choose|bias: S|
        is_one_minus_pow(num, BETA_DEN, (step + 1) as u32, bias) && #[trigger] is_quot(x, bias, r);
    let b2 = choose|bias: S|
        is_one_minus_pow(num, BETA_DEN, (step + 1) as u32, bias) && #[trigger] is_quot(x, bias, q);
    assert(b1 == b2);
    assert(is_quot(x, b1, r) && is_quot(x, b1, q));
}

/// A descent, twice.
proof fn lemma_descent_repeats<S: Scalar>(p: S, lr: S, mh: S, vh: S, r: S, q: S)
    requires
        deterministic::<S>(),
        is_descent(p, lr, mh, vh, r),
        is_descent(p, lr, mh, vh, q),
    ensures
        r == q,
{
    let (t1, r1, e1, b1, d1) = choose|top: S, root: S, eps: S, bottom: S, delta: S|
        #![trigger is_prod(lr, mh, top), is_sum(root, eps, bottom), is_quot(top, bottom, delta)]
        is_prod(lr, mh, top) && is_sqrt(vh, root) && is_ratio(1, ADAM_EPS_DEN, eps) && is_sum(
            root,
            eps,
            bottom,
        ) && is_quot(top, bottom, delta) && is_diff(p, delta, r);
    let (t2, r2, e2, b2, d2) = choose|top: S, root: S, eps: S, bottom: S, delta: S|
        #![trigger is_prod(lr, mh, top), is_sum(root, eps, bottom), is_quot(top, bottom, delta)]
        is_prod(lr, mh, top) && is_sqrt(vh, root) && is_ratio(1, ADAM_EPS_DEN, eps) && is_sum(
            root,
            eps,
            bottom,
        ) && is_quot(top, bottom, delta) && is_diff(p, delta, q);
    assert(t1 == t2 && e1 == e2);
    assert(is_sqrt(vh, r1) && is_sqrt(vh, r2));
    assert(is_sum(r1, e1, b1) && is_sum(r1, e1, b2));
    assert(is_quot(t1, b1, d1) && is_quot(t1, b1, d2));
    assert(is_diff(p, d1, r) && is_diff(p, d1, q));
}

/// A step of the optimizer has one outcome, where the operations have.
pub proof fn law_adam_is_deterministic<S: Scalar>(
    step: nat,
    lr: S,
    g: S,
    before: Moments<S>,
    after: Moments<S>,
    again: Moments<S>,
)
    requires
        deterministic::<S>(),
        is_adam(step, lr, g, before, after),
        is_adam(step, lr, g, before, again),
    ensures
        after == again,
{
    lemma_moments_repeat(before.m, before.v, g, after.m, again.m, after.v, again.v);
    let (m1, v1) = choose|mh: S, vh: S|
        is_unbiased(BETA1, step, after.m, mh) && is_unbiased(BETA2, step, after.v, vh)
            && #[trigger] is_descent(before.p, lr, mh, vh, after.p);
    let (m2, v2) = choose|mh: S, vh: S|
        is_unbiased(BETA1, step, again.m, mh) && is_unbiased(BETA2, step, again.v, vh)
            && #[trigger] is_descent(before.p, lr, mh, vh, again.p);
    lemma_unbiased_repeats(BETA1, step, after.m, m1, m2);
    lemma_unbiased_repeats(BETA2, step, after.v, v1, v2);
    lemma_descent_repeats(before.p, lr, m1, v1, after.p, again.p);
}

/// The learning rate of a step, twice.
pub proof fn lemma_rate_repeats<S: Scalar>(base: S, step: nat, num_steps: nat, r: S, q: S)
    requires
        deterministic::<S>(),
        is_decayed_rate(base, step, num_steps, r),
        is_decayed_rate(base, step, num_steps, q),
    ensures
        r == q,
{
    let (n1, e1, p1, o1, l1) = choose|now: S, end: S, part: S, one: S, left: S|
        #![trigger is_quot(now, end, part), is_diff(one, part, left)]
        is_num(step as u64, now) && is_num(num_steps as u64, end) && is_quot(now, end, part)
            && is_one(one) && is_diff(one, part, left) && is_prod(base, left, r);
    let (n2, e2, p2, o2, l2) = choose|now: S, end: S, part: S, one: S, left: S|
        #![trigger is_quot(now, end, part), is_diff(one, part, left)]
        is_num(step as u64, now) && is_num(num_steps as u64, end) && is_quot(now, end, part)
            && is_one(one) && is_diff(one, part, left) && is_prod(base, left, q);
    assert(n1 == n2 && e1 == e2 && o1 == o2);
    assert(is_quot(n1, e1, p1) && is_quot(n1, e1, p2));
    assert(is_diff(o1, p1, l1) && is_diff(o1, p1, l2));
    assert(is_prod(base, l1, r) && is_prod(base, l1, q));
}

} // verus!
