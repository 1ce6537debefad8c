//! First-order motion of causal multi-head attention, and that its backward pass is its
//! adjoint.
use vstd::prelude::*;

use crate::attention::{
    causal_row, is_attn_mix, is_attn_mix_bwd_dp, is_attn_scores_bwd, is_attn_softmax,
    is_attn_softmax_bwd, is_causal_sum, is_scaled_sum, is_score_scale, is_softmax_grad,
    mix_bwd_dp_row, scaled_causal_row, softmax_bwd_row, softmax_bwd_row_by, softmax_row, Heads,
    Side,
};
use crate::exact::{
    exact, lemma_cancel, lemma_quotient, lemma_rows_add, lemma_rows_same, lemma_total_rows,
    lemma_total_same, lemma_total_swap, row_terms, total_by_rows, total_of, column_terms,
};
use crate::index::{lemma_pair, lemma_row_inside, lemma_whole_rows};
use crate::motion::{lemma_dot_exact, nums, pairing};
use crate::motion_blocks::{
    causal, cross, future, lemma_mix_block, lemma_scores_block, lemma_softmax_block, past,
    score_moved, times, weight_moved,
};
use crate::reduce::is_dot;
use crate::rows::row_of;
use crate::scalar::{is_num, is_one, is_prod, is_quot, is_sqrt, is_zero, Scalar};

verus! {

/// The numbers of head `h` of document `b`, by position.
pub open spec fn head_nums<S>(
    val: spec_fn(S) -> real,
    x: Seq<S>,
    hs: Heads,
    b: int,
    h: int,
) -> spec_fn(int, int) -> real {
    |t: int, j: int| val(x[hs.head_start(b, t, h) + j])
}

/// Their motion.
pub open spec fn head_moves(m: Seq<real>, hs: Heads, b: int, h: int) -> spec_fn(int, int) -> real {
    |t: int, j: int| m[hs.head_start(b, t, h) + j]
}

/// The attention weights of head `h` of document `b`.
pub open spec fn weight_nums<S>(
    val: spec_fn(S) -> real,
    w: Seq<S>,
    hs: Heads,
    b: int,
    h: int,
) -> spec_fn(int, int) -> real {
    |t: int, u: int| val(w[hs.weight_row(b, h, t) * hs.t_len + u])
}

/// Their motion.
pub open spec fn weight_moves(m: Seq<real>, hs: Heads, b: int, h: int) -> spec_fn(
    int,
    int,
) -> real {
    |t: int, u: int| m[hs.weight_row(b, h, t) * hs.t_len + u]
}

/// Whether `scale` is one over the root of `d`.
pub open spec fn is_score_factor(d: nat, scale: real) -> bool {
    scale > 0 as real && scale * scale * d as real == 1 as real
}

/// How the scores of head `h` of document `b` move.
pub open spec fn scores_move<S>(
    val: spec_fn(S) -> real,
    hs: Heads,
    scale: real,
    q: Seq<S>,
    mq: Seq<real>,
    k: Seq<S>,
    mk: Seq<real>,
    b: int,
    h: int,
) -> spec_fn(int, int) -> real {
    |t: int, u: int|
        score_moved(
            scale,
            head_nums(val, q, hs, b, h),
            head_moves(mq, hs, b, h),
            head_nums(val, k, hs, b, h),
            head_moves(mk, hs, b, h),
            hs.d as nat,
            t,
            u,
        )
}

/// How the attention weights move, as the softmax of the scores.
pub open spec fn moves_weights<S>(
    val: spec_fn(S) -> real,
    hs: Heads,
    scale: real,
    att: Seq<S>,
    matt: Seq<real>,
    q: Seq<S>,
    mq: Seq<real>,
    k: Seq<S>,
    mk: Seq<real>,
) -> bool {
    forall|b: int, h: int, t: int, u: int|
        0 <= b < hs.b_n && 0 <= h < hs.h_n && 0 <= t < hs.t_len && 0 <= u < hs.t_len
            ==> #[trigger] weight_moves(matt, hs, b, h)(t, u) == weight_moved(
            weight_nums(val, att, hs, b, h),
            scores_move(val, hs, scale, q, mq, k, mk, b, h),
            t,
            u,
        )
}

/// How the mixed values move, by the product rule.
pub open spec fn moves_mix<S>(
    val: spec_fn(S) -> real,
    hs: Heads,
    my: Seq<real>,
    att: Seq<S>,
    matt: Seq<real>,
    v: Seq<S>,
    mv: Seq<real>,
) -> bool {
    forall|b: int, h: int, t: int, j: int|
        0 <= b < hs.b_n && 0 <= h < hs.h_n && 0 <= t < hs.t_len && 0 <= j < hs.d
            ==> #[trigger] head_moves(my, hs, b, h)(t, j) == past(
            weight_nums(val, att, hs, b, h),
            head_moves(mv, hs, b, h),
            t,
            j,
        ) + past(weight_moves(matt, hs, b, h), head_nums(val, v, hs, b, h), t, j)
}

/// The gradient of head `h` of document `b` paired with its motion.
pub open spec fn paired_head<S>(
    val: spec_fn(S) -> real,
    hs: Heads,
    g: Seq<S>,
    m: Seq<real>,
) -> spec_fn(int, int) -> real {
    |b: int, h: int|
        total_by_rows(
            times(head_nums(val, g, hs, b, h), head_moves(m, hs, b, h)),
            hs.t_len as nat,
            hs.d as nat,
        )
}

/// A sum over the numbers of one row, head by head.
proof fn lemma_row_heads(f: spec_fn(int) -> real, start: int, h_n: nat, d: nat)
    ensures
        total_of(|col: int| f(start + col), h_n * d) == total_by_rows(
            |h: int, j: int| f(start + h * d + j),
            h_n,
            d,
        ),
{
    let flat = |col: int| f(start + col);
    let split = |h: int, j: int| f(start + h * d + j);
    assert forall|h: int, j: int| 0 <= h < h_n && 0 <= j < d implies #[trigger] split(h, j)
        == flat(h * d + j) by {
        assert(start + h * d + j == start + (h * d + j));
    }
    lemma_total_rows(flat, split, h_n, d);
}

/// A sum over all numbers, head by head.
proof fn lemma_total_heads(f: spec_fn(int) -> real, hs: Heads)
    ensures
        total_of(f, (hs.positions() * hs.width()) as nat) == total_by_rows(
            |b: int, h: int|
                total_by_rows(
                    |t: int, j: int| f(hs.head_start(b, t, h) + j),
                    hs.t_len as nat,
                    hs.d as nat,
                ),
            hs.b_n as nat,
            hs.h_n as nat,
        ),
{
    let (b_n, h_n, t_len, d) = (hs.b_n as nat, hs.h_n as nat, hs.t_len as nat, hs.d as nat);
    let (p, w) = ((b_n * t_len) as nat, (h_n * d) as nat);
    let cells = |r: int, col: int| f(r * w + col);
    assert(hs.positions() * hs.width() == p * w);
    lemma_total_rows(f, cells, p, w);
    let by_row = |r: int| total_of(row_terms(cells, r), w);
    let by_pos = |b: int, t: int| by_row(b * t_len + t);
    lemma_total_rows(by_row, by_pos, b_n, t_len);
    let target = |b: int, h: int|
        total_by_rows(|t: int, j: int| f(hs.head_start(b, t, h) + j), t_len, d);
    let (left, right) = (
        |b: int| total_of(row_terms(by_pos, b), t_len),
        |b: int| total_of(row_terms(target, b), h_n),
    );
    assert forall|b: int| 0 <= b < b_n implies #[trigger] left(b) == right(b) by {
        // position t and head h of this document
        let part = |t: int, h: int| total_of(|j: int| f(hs.head_start(b, t, h) + j), d);
        lemma_total_swap(part, t_len, h_n);
        let rows = |t: int| total_of(row_terms(part, t), h_n);
        assert forall|t: int| 0 <= t < t_len implies #[trigger] row_terms(by_pos, b)(t) == rows(
            t,
        ) by {
            let r = b * t_len + t;
            lemma_total_same(row_terms(cells, r), |col: int| f(r * w + col), w);
            lemma_row_heads(f, r * w, h_n, d);
            let split = |h: int, j: int| f(r * w + h * d + j);
            let by_head = |h: int| total_of(row_terms(split, h), d);
            assert forall|h: int| 0 <= h < h_n implies #[trigger] by_head(h) == row_terms(part, t)(
                h,
            ) by {
                lemma_total_same(
                    row_terms(split, h),
                    |j: int| f(hs.head_start(b, t, h) + j),
                    d,
                );
            }
            lemma_total_same(by_head, row_terms(part, t), h_n);
        }
        lemma_total_same(row_terms(by_pos, b), rows, t_len);
        let columns = |h: int| total_of(column_terms(part, h), t_len);
        assert forall|h: int| 0 <= h < h_n implies #[trigger] columns(h) == row_terms(target, b)(
            h,
        ) by {
            let block = |t: int, j: int| f(hs.head_start(b, t, h) + j);
            let by_t = |t: int| total_of(row_terms(block, t), d);
            assert forall|t: int| 0 <= t < t_len implies #[trigger] column_terms(part, h)(t)
                == by_t(t) by {
                lemma_total_same(
                    row_terms(block, t),
                    |j: int| f(hs.head_start(b, t, h) + j),
                    d,
                );
            }
            lemma_total_same(column_terms(part, h), by_t, t_len);
        }
        lemma_total_same(columns, row_terms(target, b), h_n);
    }
    lemma_total_same(left, right, b_n);
}

/// A pairing is the sum of those of all heads of all documents.
proof fn lemma_pairing_heads<S>(val: spec_fn(S) -> real, hs: Heads, g: Seq<S>, m: Seq<real>)
    ensures
        pairing(val, g, m, (hs.positions() * hs.width()) as nat) == total_by_rows(
            paired_head(val, hs, g, m),
            hs.b_n as nat,
            hs.h_n as nat,
        ),
{
    let f = |i: int| nums(val, g)(i) * (|k: int| m[k])(i);
    lemma_total_heads(f, hs);
    let target = |b: int, h: int|
        total_by_rows(
            |t: int, j: int| f(hs.head_start(b, t, h) + j),
            hs.t_len as nat,
            hs.d as nat,
        );
    let own = paired_head(val, hs, g, m);
    assert forall|b: int, h: int| 0 <= b < hs.b_n && 0 <= h < hs.h_n implies #[trigger] target(b, h)
        == own(b, h) by {
        lemma_rows_same(
            |t: int, j: int| f(hs.head_start(b, t, h) + j),
            times(head_nums(val, g, hs, b, h), head_moves(m, hs, b, h)),
            hs.t_len as nat,
            hs.d as nat,
        );
    }
    lemma_rows_same(target, own, hs.b_n as nat, hs.h_n as nat);
}

/// Where the numbers of position `t` of head `h` of document `b` stand.
pub proof fn lemma_places(hs: Heads, b: int, h: int, t: int, j: int)
    requires
        0 <= b < hs.b_n,
        0 <= h < hs.h_n,
        0 <= t < hs.t_len,
        0 <= j < hs.d,
    ensures
        0 <= hs.position(b, t) < hs.positions(),
        hs.position(b, t) / hs.t_len as int == b,
        hs.position(b, t) % hs.t_len as int == t,
        0 <= h * hs.d + j < hs.width(),
        (h * hs.d + j) / hs.d as int == h,
        hs.position(b, t) * hs.width() + (h * hs.d + j) == hs.head_start(b, t, h) + j,
        hs.width() > 0,
{
    lemma_pair(b, hs.b_n as int, t, hs.t_len as int);
    lemma_pair(h, hs.h_n as int, j, hs.d as int);
}

/// Where the weights of position `t` of head `h` of document `b` stand.
pub proof fn lemma_weight_places(hs: Heads, b: int, h: int, t: int)
    requires
        0 <= b < hs.b_n,
        0 <= h < hs.h_n,
        0 <= t < hs.t_len,
    ensures
        0 <= hs.weight_row(b, h, t) < hs.weight_rows(),
        hs.weight_row(b, h, t) % hs.t_len as int == t,
        hs.doc_of(hs.weight_row(b, h, t)) == b,
        hs.head_of(hs.weight_row(b, h, t)) == h,
{
    lemma_pair(b, hs.b_n as int, h, hs.h_n as int);
    lemma_pair(b * hs.h_n + h, hs.b_n * hs.h_n, t, hs.t_len as int);
}

/// A row of weights.
pub proof fn lemma_weight_row<S>(hs: Heads, w: Seq<S>, b: int, h: int, t: int)
    requires
        0 <= b < hs.b_n,
        0 <= h < hs.h_n,
        0 <= t < hs.t_len,
        w.len() == hs.weight_rows() * hs.t_len,
    ensures
        0 <= hs.weight_row(b, h, t) < w.len() / hs.t_len as nat,
        row_of(w, hs.t_len as nat, hs.weight_row(b, h, t)).len() == hs.t_len,
        forall|u: int|
            0 <= u < hs.t_len ==> #[trigger] row_of(
                w,
                hs.t_len as nat,
                hs.weight_row(b, h, t),
            )[u] == w[hs.weight_row(b, h, t) * hs.t_len + u],
{
    lemma_weight_places(hs, b, h, t);
    lemma_whole_rows(hs.weight_rows(), hs.t_len as int);
    lemma_row_inside(hs.weight_row(b, h, t), hs.weight_rows(), hs.t_len as int);
}

/// A row of queries, keys or values.
pub proof fn lemma_head_row<S>(hs: Heads, x: Seq<S>, b: int, h: int, t: int, j: int)
    requires
        0 <= b < hs.b_n,
        0 <= h < hs.h_n,
        0 <= t < hs.t_len,
        0 <= j < hs.d,
        x.len() == hs.positions() * hs.width(),
    ensures
        0 <= hs.position(b, t) < x.len() / hs.width() as nat,
        row_of(x, hs.width() as nat, hs.position(b, t)).len() == hs.width(),
        row_of(x, hs.width() as nat, hs.position(b, t))[h * hs.d + j] == x[hs.head_start(b, t, h)
            + j],
{
    lemma_places(hs, b, h, t, j);
    lemma_whole_rows(hs.positions(), hs.width());
    lemma_row_inside(hs.position(b, t), hs.positions(), hs.width());
}

/// The attention weights are zero above the diagonal.
proof fn lemma_weights_causal<S: Scalar>(
    val: spec_fn(S) -> real,
    hs: Heads,
    att: Seq<S>,
    q: Seq<S>,
    k: Seq<S>,
    b: int,
    h: int,
)
    requires
        exact(val),
        0 <= b < hs.b_n,
        0 <= h < hs.h_n,
        att.len() == hs.weight_rows() * hs.t_len,
        is_attn_softmax(hs, att, q, k),
    ensures
        causal(weight_nums(val, att, hs, b, h), hs.t_len as nat),
{
    assert forall|t: int, u: int| 0 <= t < u < hs.t_len implies #[trigger] weight_nums(
        val,
        att,
        hs,
        b,
        h,
    )(t, u) == 0 as real by {
        lemma_weight_row(hs, att, b, h, t);
        lemma_weight_places(hs, b, h, t);
        let i = hs.weight_row(b, h, t);
        let row = row_of(att, hs.t_len as nat, i);
        assert(softmax_row(hs, q, k, i, row));
        assert(is_zero(row[u]));
    }
}

/// The gradient of the weights.
pub proof fn lemma_dp_exact<S: Scalar>(
    val: spec_fn(S) -> real,
    hs: Heads,
    dp: Seq<S>,
    dy: Seq<S>,
    v: Seq<S>,
    b: int,
    h: int,
)
    requires
        exact(val),
        0 <= b < hs.b_n,
        0 <= h < hs.h_n,
        dp.len() == hs.weight_rows() * hs.t_len,
        is_attn_mix_bwd_dp(hs, dp, dy, v),
    ensures
        causal(weight_nums(val, dp, hs, b, h), hs.t_len as nat),
        forall|t: int, u: int|
            0 <= u <= t < hs.t_len ==> #[trigger] weight_nums(val, dp, hs, b, h)(t, u) == cross(
                head_nums(val, dy, hs, b, h),
                head_nums(val, v, hs, b, h),
                hs.d as nat,
                t,
                u,
            ),
{
    assert forall|t: int, u: int| 0 <= t < hs.t_len && 0 <= u < hs.t_len implies #[trigger]
        weight_nums(val, dp, hs, b, h)(t, u) == if u <= t {
        cross(head_nums(val, dy, hs, b, h), head_nums(val, v, hs, b, h), hs.d as nat, t, u)
    } else {
        0 as real
    } by {
        lemma_weight_row(hs, dp, b, h, t);
        lemma_weight_places(hs, b, h, t);
        let i = hs.weight_row(b, h, t);
        let row = row_of(dp, hs.t_len as nat, i);
        assert(mix_bwd_dp_row(hs, dy, v, i, row));
        let (st, su) = (hs.head_start(b, t, h), hs.head_start(b, u, h));
        if u <= t {
            assert(is_dot(dy, st, 1, v, su, 1, hs.d as nat, row[u]));
            lemma_dot_exact(val, dy, st, 1, v, su, 1, hs.d as nat, row[u]);
            lemma_total_same(
                |p: int| val(dy[st + p * 1]) * val(v[su + p * 1]),
                |j: int| head_nums(val, dy, hs, b, h)(t, j) * head_nums(val, v, hs, b, h)(u, j),
                hs.d as nat,
            );
        } else {
            assert(is_zero(row[u]));
        }
    }
}

/// A sum over the past of position `t`.
proof fn lemma_past_exact<S: Scalar>(
    val: spec_fn(S) -> real,
    hs: Heads,
    w: Seq<S>,
    x: Seq<S>,
    b: int,
    h: int,
    t: int,
    j: int,
    acc: S,
)
    requires
        exact(val),
        0 <= b < hs.b_n,
        0 <= h < hs.h_n,
        0 <= t < hs.t_len,
        0 <= j < hs.d,
        is_causal_sum(hs, Side::Past, w, x, hs.position(b, t), h * hs.d + j, acc),
    ensures
        val(acc) == past(
            weight_nums(val, w, hs, b, h),
            head_nums(val, x, hs, b, h),
            t,
            j,
        ),
{
    lemma_places(hs, b, h, t, j);
    let col = h * hs.d + j;
    let (row, start, width) = (
        hs.weight_row(b, h, t) * hs.t_len,
        hs.entry(b, 0, col),
        hs.width(),
    );
    let n = (t + 1) as nat;
    assert(is_dot(w, row, 1, x, start, width, n, acc));
    lemma_dot_exact(val, w, row, 1, x, start, width, n, acc);
    let f = |p: int| val(w[row + p * 1]) * val(x[start + p * width]);
    let g = |u: int| weight_nums(val, w, hs, b, h)(t, u) * head_nums(val, x, hs, b, h)(u, j);
    assert forall|u: int| 0 <= u < n implies #[trigger] f(u) == g(u) by {
        lemma_step_down(b * hs.t_len, u, width);
    }
    lemma_total_same(f, g, n);
}

/// One row further down.
pub proof fn lemma_step_down(a: int, i: int, w: int)
    ensures
        a * w + i * w == (a + i) * w,
{
    assert(a * w + i * w == (a + i) * w) by (nonlinear_arith);
}

/// A sum over the future of position `u`.
proof fn lemma_future_exact<S: Scalar>(
    val: spec_fn(S) -> real,
    hs: Heads,
    w: Seq<S>,
    x: Seq<S>,
    b: int,
    h: int,
    u: int,
    j: int,
    acc: S,
)
    requires
        exact(val),
        0 <= b < hs.b_n,
        0 <= h < hs.h_n,
        0 <= u < hs.t_len,
        0 <= j < hs.d,
        is_causal_sum(hs, Side::Future, w, x, hs.position(b, u), h * hs.d + j, acc),
    ensures
        val(acc) == future(
            weight_nums(val, w, hs, b, h),
            head_nums(val, x, hs, b, h),
            hs.t_len as nat,
            u,
            j,
        ),
{
    lemma_places(hs, b, h, u, j);
    let col = h * hs.d + j;
    let t_len = hs.t_len as int;
    let (row, start, width) = (
        hs.weight_row(b, h, u) * t_len + u,
        hs.entry(b, u, col),
        hs.width(),
    );
    let n = (t_len - u) as nat;
    assert(is_dot(w, row, t_len, x, start, width, n, acc));
    lemma_dot_exact(val, w, row, t_len, x, start, width, n, acc);
    let f = |p: int| val(w[row + p * t_len]) * val(x[start + p * width]);
    let g = |i: int|
        weight_nums(val, w, hs, b, h)(u + i, u) * head_nums(val, x, hs, b, h)(u + i, j);
    assert forall|i: int| 0 <= i < n implies #[trigger] f(i) == g(i) by {
        lemma_step_down(hs.position(b, u), i, width);
        lemma_step_down(hs.weight_row(b, h, u), i, t_len);
    }
    lemma_total_same(f, g, n);
}

/// The gradient of the values.
pub proof fn lemma_dv_exact<S: Scalar>(
    val: spec_fn(S) -> real,
    hs: Heads,
    dv: Seq<S>,
    att: Seq<S>,
    dy: Seq<S>,
    b: int,
    h: int,
)
    requires
        exact(val),
        0 <= b < hs.b_n,
        0 <= h < hs.h_n,
        dv.len() == hs.positions() * hs.width(),
        is_attn_mix(hs, Side::Future, dv, att, dy),
    ensures
        forall|u: int, j: int|
            0 <= u < hs.t_len && 0 <= j < hs.d ==> #[trigger] head_nums(val, dv, hs, b, h)(u, j)
                == future(
                weight_nums(val, att, hs, b, h),
                head_nums(val, dy, hs, b, h),
                hs.t_len as nat,
                u,
                j,
            ),
{
    assert forall|u: int, j: int| 0 <= u < hs.t_len && 0 <= j < hs.d implies #[trigger] head_nums(
        val,
        dv,
        hs,
        b,
        h,
    )(u, j) == future(
        weight_nums(val, att, hs, b, h),
        head_nums(val, dy, hs, b, h),
        hs.t_len as nat,
        u,
        j,
    ) by {
        lemma_head_row(hs, dv, b, h, u, j);
        lemma_places(hs, b, h, u, j);
        let r = hs.position(b, u);
        let row = row_of(dv, hs.width() as nat, r);
        assert(causal_row(hs, Side::Future, att, dy, r, row));
        let col = h * hs.d + j;
        assert(is_causal_sum(hs, Side::Future, att, dy, r, col, row[col]));
        lemma_future_exact(val, hs, att, dy, b, h, u, j, row[col]);
    }
}

/// The gradient of the scores.
pub proof fn lemma_ds_exact<S: Scalar>(
    val: spec_fn(S) -> real,
    hs: Heads,
    ds: Seq<S>,
    att: Seq<S>,
    dp: Seq<S>,
    b: int,
    h: int,
)
    requires
        exact(val),
        0 <= b < hs.b_n,
        0 <= h < hs.h_n,
        ds.len() == hs.weight_rows() * hs.t_len,
        is_attn_softmax_bwd(ds, att, dp, hs.t_len as nat),
    ensures
        causal(weight_nums(val, ds, hs, b, h), hs.t_len as nat),
        forall|t: int, u: int|
            0 <= t < hs.t_len && 0 <= u < hs.t_len ==> #[trigger] weight_nums(val, ds, hs, b, h)(
                t,
                u,
            ) == weight_moved(
                weight_nums(val, att, hs, b, h),
                weight_nums(val, dp, hs, b, h),
                t,
                u,
            ),
{
    assert forall|t: int, u: int| 0 <= t < hs.t_len && 0 <= u < hs.t_len implies #[trigger]
        weight_nums(val, ds, hs, b, h)(t, u) == weight_moved(
        weight_nums(val, att, hs, b, h),
        weight_nums(val, dp, hs, b, h),
        t,
        u,
    ) by {
        lemma_weight_row(hs, ds, b, h, t);
        lemma_weight_places(hs, b, h, t);
        let i = hs.weight_row(b, h, t);
        let row = row_of(ds, hs.t_len as nat, i);
        let base = i * hs.t_len;
        let n = (t + 1) as nat;
        assert(softmax_bwd_row(att, dp, i, row));
        let along = choose|along: S| #[trigger] softmax_bwd_row_by(att, dp, i, row, along);
        assert(is_dot(dp, base, 1, att, base, 1, n, along));
        lemma_dot_exact(val, dp, base, 1, att, base, 1, n, along);
        let f = |p: int| val(dp[base + p * 1]) * val(att[base + p * 1]);
        let g = |v: int|
            weight_nums(val, att, hs, b, h)(t, v) * weight_nums(val, dp, hs, b, h)(t, v);
        assert forall|v: int| 0 <= v < n implies #[trigger] f(v) == g(v) by {
            let (x, y) = (val(dp[base + v]), val(att[base + v]));
            assert(x * y == y * x) by (nonlinear_arith);
        }
        lemma_total_same(f, g, n);
        if u <= t {
            assert(is_softmax_grad(att[base + u], dp[base + u], along, row[u]));
        } else {
            assert(is_zero(row[u]));
        }
    }
}

/// The scale of the scores, in exact arithmetic.
pub proof fn lemma_scale_exact<S: Scalar>(val: spec_fn(S) -> real, d: nat, scale: S)
    requires
        exact(val),
        0 < d <= u64::MAX,
        is_score_scale(d, scale),
    ensures
        is_score_factor(d, val(scale)),
{
    let (size, root, one) = choose|size: S, root: S, one: S|
        #![trigger is_sqrt(size, root), is_quot(one, root, scale)]
        is_num(d as u64, size) && is_sqrt(size, root) && is_one(one) && is_quot(one, root, scale);
    let (n, s, f) = (d as real, val(root), val(scale));
    assert(val(size) == n);
    assert(s * s == n && s >= 0 as real);
    assert(s > 0 as real) by (nonlinear_arith)
        requires
            s * s == n,
            s >= 0 as real,
            n > 0 as real,
    ;
    lemma_quotient(1 as real, s);
    assert(f > 0 as real) by (nonlinear_arith)
        requires
            f * s == 1 as real,
            s > 0 as real,
    ;
    assert(f * f * n == 1 as real) by (nonlinear_arith)
        requires
            f * s == 1 as real,
            s * s == n,
    ;
}

/// There is one such scale.
pub proof fn lemma_scale_unique(d: nat, a: real, b: real)
    requires
        d > 0,
        is_score_factor(d, a),
        is_score_factor(d, b),
    ensures
        a == b,
{
    let n = d as real;
    lemma_cancel(a * a, b * b, n);
    assert(a == b) by (nonlinear_arith)
        requires
            a * a == b * b,
            a > 0 as real,
            b > 0 as real,
    ;
}

/// The sum over the past or the future of position `t`.
pub open spec fn one_sided(
    side: Side,
    w: spec_fn(int, int) -> real,
    x: spec_fn(int, int) -> real,
    t_len: nat,
    t: int,
    j: int,
) -> real {
    match side {
        Side::Past => past(w, x, t, j),
        Side::Future => future(w, x, t_len, t, j),
    }
}

/// The gradients of the queries and of the keys.
pub proof fn lemma_dqk_exact<S: Scalar>(
    val: spec_fn(S) -> real,
    hs: Heads,
    scale: real,
    out: Seq<S>,
    ds: Seq<S>,
    x: Seq<S>,
    side: Side,
    b: int,
    h: int,
)
    requires
        exact(val),
        0 <= b < hs.b_n,
        0 <= h < hs.h_n,
        hs.d > 0,
        is_score_factor(hs.d as nat, scale),
        out.len() == hs.positions() * hs.width(),
        is_attn_scores_bwd(hs, side, out, ds, x),
    ensures
        forall|t: int, j: int|
            0 <= t < hs.t_len && 0 <= j < hs.d ==> #[trigger] head_nums(val, out, hs, b, h)(t, j)
                == one_sided(
                side,
                weight_nums(val, ds, hs, b, h),
                head_nums(val, x, hs, b, h),
                hs.t_len as nat,
                t,
                j,
            ) * scale,
{
    assert forall|t: int, j: int| 0 <= t < hs.t_len && 0 <= j < hs.d implies #[trigger] head_nums(
        val,
        out,
        hs,
        b,
        h,
    )(t, j) == one_sided(
        side,
        weight_nums(val, ds, hs, b, h),
        head_nums(val, x, hs, b, h),
        hs.t_len as nat,
        t,
        j,
    ) * scale by {
        lemma_head_row(hs, out, b, h, t, j);
        lemma_places(hs, b, h, t, j);
        let r = hs.position(b, t);
        let row = row_of(out, hs.width() as nat, r);
        let col = h * hs.d + j;
        assert(scaled_causal_row(hs, side, ds, x, r, row));
        let factor = choose|factor: S| #[trigger]
            is_score_scale(hs.d as nat, factor) && (forall|col: int|
                0 <= col < row.len() ==> is_scaled_sum(
                    hs,
                    side,
                    ds,
                    x,
                    r,
                    col,
                    factor,
                    #[trigger] row[col],
                ));
        lemma_scale_exact(val, hs.d as nat, factor);
        lemma_scale_unique(hs.d as nat, val(factor), scale);
        assert(is_scaled_sum(hs, side, ds, x, r, col, factor, row[col]));
        let acc = choose|acc: S| #[trigger]
            is_causal_sum(hs, side, ds, x, r, col, acc) && is_prod(acc, factor, row[col]);
        match side {
            Side::Past => lemma_past_exact(val, hs, ds, x, b, h, t, j, acc),
            Side::Future => lemma_future_exact(val, hs, ds, x, b, h, t, j, acc),
        }
    }
}

/// One head of one document.
proof fn lemma_attention_block<S: Scalar>(
    val: spec_fn(S) -> real,
    hs: Heads,
    scale: real,
    dy: Seq<S>,
    my: Seq<real>,
    att: Seq<S>,
    matt: Seq<real>,
    q: Seq<S>,
    mq: Seq<real>,
    k: Seq<S>,
    mk: Seq<real>,
    v: Seq<S>,
    mv: Seq<real>,
    dp: Seq<S>,
    ds: Seq<S>,
    dq: Seq<S>,
    dk: Seq<S>,
    dv: Seq<S>,
    b: int,
    h: int,
)
    requires
        exact(val),
        hs.d > 0,
        is_score_factor(hs.d as nat, scale),
        att.len() == hs.weight_rows() * hs.t_len,
        dp.len() == hs.weight_rows() * hs.t_len,
        ds.len() == hs.weight_rows() * hs.t_len,
        dq.len() == hs.positions() * hs.width(),
        dk.len() == hs.positions() * hs.width(),
        dv.len() == hs.positions() * hs.width(),
        is_attn_softmax(hs, att, q, k),
        is_attn_mix_bwd_dp(hs, dp, dy, v),
        is_attn_mix(hs, Side::Future, dv, att, dy),
        is_attn_softmax_bwd(ds, att, dp, hs.t_len as nat),
        is_attn_scores_bwd(hs, Side::Past, dq, ds, k),
        is_attn_scores_bwd(hs, Side::Future, dk, ds, q),
        moves_weights(val, hs, scale, att, matt, q, mq, k, mk),
        moves_mix(val, hs, my, att, matt, v, mv),
        0 <= b < hs.b_n,
        0 <= h < hs.h_n,
    ensures
        paired_head(val, hs, dy, my)(b, h) == paired_head(val, hs, dq, mq)(b, h) + paired_head(
            val,
            hs,
            dk,
            mk,
        )(b, h) + paired_head(val, hs, dv, mv)(b, h),
{
    let (t_len, d) = (hs.t_len as nat, hs.d as nat);
    lemma_weights_causal(val, hs, att, q, k, b, h);
    lemma_dp_exact(val, hs, dp, dy, v, b, h);
    lemma_dv_exact(val, hs, dv, att, dy, b, h);
    lemma_ds_exact(val, hs, ds, att, dp, b, h);
    lemma_dqk_exact(val, hs, scale, dq, ds, k, Side::Past, b, h);
    lemma_dqk_exact(val, hs, scale, dk, ds, q, Side::Future, b, h);
    let (att_n, att_m) = (weight_nums(val, att, hs, b, h), weight_moves(matt, hs, b, h));
    let (dp_n, ds_n) = (weight_nums(val, dp, hs, b, h), weight_nums(val, ds, hs, b, h));
    let ms = scores_move(val, hs, scale, q, mq, k, mk, b, h);
    lemma_mix_block(
        head_nums(val, dy, hs, b, h),
        head_moves(my, hs, b, h),
        att_n,
        att_m,
        head_nums(val, v, hs, b, h),
        head_moves(mv, hs, b, h),
        dp_n,
        head_nums(val, dv, hs, b, h),
        t_len,
        d,
    );
    lemma_softmax_block(dp_n, att_m, att_n, ms, ds_n, t_len);
    lemma_scores_block(
        ds_n,
        ms,
        scale,
        head_nums(val, q, hs, b, h),
        head_moves(mq, hs, b, h),
        head_nums(val, k, hs, b, h),
        head_moves(mk, hs, b, h),
        head_nums(val, dq, hs, b, h),
        head_nums(val, dk, hs, b, h),
        t_len,
        d,
    );
}

/// The backward pass of attention is its adjoint: for any motion of queries, keys and
/// values, the gradient of the mixed values paired with their motion equals the gradients of
/// queries, keys and values paired with theirs.
pub proof fn law_attention_adjoint<S: Scalar>(
    val: spec_fn(S) -> real,
    hs: Heads,
    scale: real,
    dy: Seq<S>,
    my: Seq<real>,
    att: Seq<S>,
    matt: Seq<real>,
    q: Seq<S>,
    mq: Seq<real>,
    k: Seq<S>,
    mk: Seq<real>,
    v: Seq<S>,
    mv: Seq<real>,
    dp: Seq<S>,
    ds: Seq<S>,
    dq: Seq<S>,
    dk: Seq<S>,
    dv: Seq<S>,
)
    requires
        exact(val),
        hs.d > 0,
        is_score_factor(hs.d as nat, scale),
        att.len() == hs.weight_rows() * hs.t_len,
        dp.len() == hs.weight_rows() * hs.t_len,
        ds.len() == hs.weight_rows() * hs.t_len,
        dq.len() == hs.positions() * hs.width(),
        dk.len() == hs.positions() * hs.width(),
        dv.len() == hs.positions() * hs.width(),
        is_attn_softmax(hs, att, q, k),
        is_attn_mix_bwd_dp(hs, dp, dy, v),
        is_attn_mix(hs, Side::Future, dv, att, dy),
        is_attn_softmax_bwd(ds, att, dp, hs.t_len as nat),
        is_attn_scores_bwd(hs, Side::Past, dq, ds, k),
        is_attn_scores_bwd(hs, Side::Future, dk, ds, q),
        moves_weights(val, hs, scale, att, matt, q, mq, k, mk),
        moves_mix(val, hs, my, att, matt, v, mv),
    ensures
        pairing(val, dy, my, (hs.positions() * hs.width()) as nat) == pairing(
            val,
            dq,
            mq,
            (hs.positions() * hs.width()) as nat,
        ) + pairing(val, dk, mk, (hs.positions() * hs.width()) as nat) + pairing(
            val,
            dv,
            mv,
            (hs.positions() * hs.width()) as nat,
        ),
{
    let (b_n, h_n) = (hs.b_n as nat, hs.h_n as nat);
    lemma_pairing_heads(val, hs, dy, my);
    lemma_pairing_heads(val, hs, dq, mq);
    lemma_pairing_heads(val, hs, dk, mk);
    lemma_pairing_heads(val, hs, dv, mv);
    let (py, pq) = (paired_head(val, hs, dy, my), paired_head(val, hs, dq, mq));
    let (pk, pv) = (paired_head(val, hs, dk, mk), paired_head(val, hs, dv, mv));
    let pqk = |b: int, h: int| pq(b, h) + pk(b, h);
    assert forall|b: int, h: int| 0 <= b < b_n && 0 <= h < h_n implies #[trigger] py(b, h) == pqk(
        b,
        h,
    ) + pv(b, h) by {
        lemma_attention_block(
            val,
            hs,
            scale,
            dy,
            my,
            att,
            matt,
            q,
            mq,
            k,
            mk,
            v,
            mv,
            dp,
            ds,
            dq,
            dk,
            dv,
            b,
            h,
        );
    }
    lemma_rows_add(pqk, pv, py, b_n, h_n);
    lemma_rows_add(pq, pk, pqk, b_n, h_n);
}

} // verus!
