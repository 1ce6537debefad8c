//! Two runs that agree in the rows that count, and whose gradients are zero in the others: the
//! backward pass keeps it so, and the gradients of the parameters are the same.
use vstd::prelude::*;

use crate::agree::{
    dot_pair, entry, lemma_scale_agrees, looks_back, nums_agree, rows_agree, seen_weights,
};
use crate::attention::{
    causal_row, is_attn_mix, is_attn_mix_bwd_dp, is_attn_scores_bwd, is_attn_softmax_bwd,
    is_causal_sum, is_scaled_sum, is_score_scale, is_softmax_grad, mix_bwd_dp_row,
    scaled_causal_row, softmax_bwd_row, softmax_bwd_row_by, Heads, Side,
};
use crate::embed::{
    embed_bwd_wte_row, is_embed_bwd_wpe, is_embed_bwd_wte, is_gathered, places, row_term, visits,
};
use crate::index::{lemma_pair, lemma_row_inside, lemma_unpair, lemma_whole_rows};
use crate::matmul::{
    is_landed_dot, is_linear_bwd, is_matmul_nn, is_matmul_tn, linear_bwd_row, matmul_nn_row,
    matmul_tn_row,
};
use crate::motion_attention::{lemma_places, lemma_step_down, lemma_weight_places};
use crate::norm::{is_norm_bwd, is_norm_grad, rmsnorm_bwd_row, rmsnorm_bwd_row_by};
use crate::padding::{absorbing, lemma_visits_hold};
use crate::pointwise::{is_add_inplace, is_relu_bwd, is_relu_grad};
use crate::reduce::{dot_term, is_dot};
use crate::repeat::{lemma_pull_repeats, lemma_same_rows};
use crate::rows::row_of;
use crate::scalar::{
    deterministic, is_diff, is_prod, is_running_sum, is_sum, is_zero, lands,
    lemma_running_sum_congruent, Scalar,
};

verus! {

/// Whether adding one of the numbers that `null` tells changes nothing: not of a number that
/// `plain` tells, which zero is, and which every sum is that starts from such a number.
pub open spec fn steady<S: Scalar>(
    null: spec_fn(S) -> bool,
    plain: spec_fn(S) -> bool,
) -> bool {
    &&& forall|r: S| #[trigger] is_zero(r) ==> plain(r)
    &&& forall|a: S, b: S, r: S| #[trigger] is_sum(a, b, r) && plain(a) ==> plain(r)
    &&& forall|a: S, b: S, r: S| #[trigger] is_sum(a, b, r) && plain(a) && null(b) ==> r == a
}

/// What two runs have: operations have one outcome, and zeros count for nothing.
pub open spec fn settled<S: Scalar>(
    null: spec_fn(S) -> bool,
    plain: spec_fn(S) -> bool,
) -> bool {
    deterministic::<S>() && absorbing(null) && steady(null, plain)
}

/// Whether the rows that are not `live` are null.
pub open spec fn rows_void<S>(
    null: spec_fn(S) -> bool,
    x: Seq<S>,
    m: nat,
    n: nat,
    live: spec_fn(int) -> bool,
) -> bool {
    forall|r: int, j: int|
        0 <= r < m && !live(r) && 0 <= j < n ==> null(#[trigger] entry(x, n, r, j))
}

/// Sums whose terms are the same, or null, are the same.
proof fn lemma_sums_match<S: Scalar>(
    null: spec_fn(S) -> bool,
    plain: spec_fn(S) -> bool,
    start: S,
    f: spec_fn(int, S) -> bool,
    g: spec_fn(int, S) -> bool,
    n: nat,
    r: S,
    q: S,
)
    requires
        settled(null, plain),
        plain(start),
        is_running_sum(start, f, n, r),
        is_running_sum(start, g, n, q),
        forall|i: int, t: S, u: S|
            0 <= i < n && #[trigger] f(i, t) && #[trigger] g(i, u) ==> t == u || (null(t)
                && null(u)),
    ensures
        r == q,
        plain(r),
    decreases n,
{
    if n > 0 {
        let (b1, t1) = choose|before: S, t: S|
            #![trigger is_sum(before, t, r)]
            is_running_sum(start, f, (n - 1) as nat, before) && f(n - 1, t) && is_sum(
                before,
                t,
                r,
            );
        let (b2, t2) = choose|before: S, t: S|
            #![trigger is_sum(before, t, q)]
            is_running_sum(start, g, (n - 1) as nat, before) && g(n - 1, t) && is_sum(
                before,
                t,
                q,
            );
        lemma_sums_match(null, plain, start, f, g, (n - 1) as nat, b1, b2);
        assert(f(n - 1, t1) && g(n - 1, t2));
        if t1 == t2 {
            assert(is_sum(b1, t1, r) && is_sum(b1, t1, q));
        } else {
            assert(is_sum(b1, t1, r) && is_sum(b1, t2, q));
        }
    }
}

/// Whether a product of two numbers is null because one of them is.
pub open spec fn pair_void<S>(null: spec_fn(S) -> bool, p: (S, S)) -> bool {
    null(p.0) || null(p.1)
}

/// Dot products of pairs that are the same, or null.
proof fn lemma_dots_match<S: Scalar>(
    null: spec_fn(S) -> bool,
    plain: spec_fn(S) -> bool,
    x1: Seq<S>,
    x2: Seq<S>,
    xo: int,
    xs: int,
    y1: Seq<S>,
    y2: Seq<S>,
    yo: int,
    ys: int,
    n: nat,
    r1: S,
    r2: S,
)
    requires
        settled(null, plain),
        is_dot(x1, xo, xs, y1, yo, ys, n, r1),
        is_dot(x2, xo, xs, y2, yo, ys, n, r2),
        forall|p: int|
            0 <= p < n ==> (#[trigger] dot_pair(x1, xo, xs, y1, yo, ys, p)) == dot_pair(
                x2,
                xo,
                xs,
                y2,
                yo,
                ys,
                p,
            ) || (pair_void(null, dot_pair(x1, xo, xs, y1, yo, ys, p)) && pair_void(
                null,
                dot_pair(x2, xo, xs, y2, yo, ys, p),
            )),
    ensures
        r1 == r2,
{
    let (f, g) = (dot_term(x1, xo, xs, y1, yo, ys), dot_term(x2, xo, xs, y2, yo, ys));
    let z1 = choose|zero: S| is_zero(zero) && #[trigger] is_running_sum(zero, f, n, r1);
    let z2 = choose|zero: S| is_zero(zero) && #[trigger] is_running_sum(zero, g, n, r2);
    assert(z1 == z2);
    assert forall|i: int, t: S, u: S|
        0 <= i < n && #[trigger] f(i, t) && #[trigger] g(i, u) implies t == u || (null(t) && null(
        u,
    )) by {
        let (a, b) = (
            dot_pair(x1, xo, xs, y1, yo, ys, i),
            dot_pair(x2, xo, xs, y2, yo, ys, i),
        );
        assert(is_prod(a.0, a.1, t) && is_prod(b.0, b.1, u));
    }
    lemma_sums_match(null, plain, z1, f, g, n, r1, r2);
}

/// A dot product along the same row of two buffers that agree in it.
proof fn lemma_row_dots<S: Scalar>(
    null: spec_fn(S) -> bool,
    plain: spec_fn(S) -> bool,
    x1: Seq<S>,
    x2: Seq<S>,
    y: Seq<S>,
    yo: int,
    ys: int,
    m: nat,
    k: nat,
    live: spec_fn(int) -> bool,
    r: int,
    a: S,
    b: S,
)
    requires
        settled(null, plain),
        0 <= r < m,
        live(r),
        rows_agree(x1, x2, m, k, live),
        is_dot(x1, r * k, 1, y, yo, ys, k, a),
        is_dot(x2, r * k, 1, y, yo, ys, k, b),
    ensures
        a == b,
{
    assert forall|p: int| 0 <= p < k implies (#[trigger] dot_pair(x1, r * k, 1, y, yo, ys, p))
        == dot_pair(x2, r * k, 1, y, yo, ys, p) by {
        assert(entry(x1, k, r, p) == entry(x2, k, r, p));
    }
    lemma_dots_match(null, plain, x1, x2, r * k, 1, y, y, yo, ys, k, a, b);
}

/// Through a product with a matrix.
pub proof fn lemma_live_linear<S: Scalar>(
    null: spec_fn(S) -> bool,
    plain: spec_fn(S) -> bool,
    a: Seq<S>,
    b: Seq<S>,
    x: Seq<S>,
    y: Seq<S>,
    w: Seq<S>,
    m: nat,
    n: nat,
    k: nat,
    live: spec_fn(int) -> bool,
)
    requires
        settled(null, plain),
        n > 0,
        a.len() == m * n,
        b.len() == m * n,
        is_linear_bwd(a, x, w, n, k),
        is_linear_bwd(b, y, w, n, k),
        rows_agree(x, y, m, k, live),
    ensures
        rows_agree(a, b, m, n, live),
{
    lemma_whole_rows(m as int, n as int);
    assert forall|r: int, j: int| 0 <= r < m && live(r) && 0 <= j < n implies #[trigger] entry(
        a,
        n,
        r,
        j,
    ) == entry(b, n, r, j) by {
        lemma_row_inside(r, m as int, n as int);
        let (p, q) = (row_of(a, n, r), row_of(b, n, r));
        assert(linear_bwd_row(x, w, k, r, p) && linear_bwd_row(y, w, k, r, q));
        assert(is_dot(x, r * k, 1, w, j, n as int, k, p[j]));
        assert(is_dot(y, r * k, 1, w, j, n as int, k, q[j]));
        lemma_row_dots(null, plain, x, y, w, j, n as int, m, k, live, r, p[j], q[j]);
    }
}

/// Through a product that is added to what is there.
pub proof fn lemma_live_added<S: Scalar>(
    null: spec_fn(S) -> bool,
    plain: spec_fn(S) -> bool,
    a0: Seq<S>,
    b0: Seq<S>,
    a: Seq<S>,
    b: Seq<S>,
    x: Seq<S>,
    y: Seq<S>,
    w: Seq<S>,
    m: nat,
    n: nat,
    k: nat,
    live: spec_fn(int) -> bool,
)
    requires
        settled(null, plain),
        n > 0,
        a0.len() == m * n,
        b0.len() == m * n,
        is_matmul_nn(a0, a, x, w, n, k, true),
        is_matmul_nn(b0, b, y, w, n, k, true),
        rows_agree(a0, b0, m, n, live),
        rows_agree(x, y, m, k, live),
    ensures
        rows_agree(a, b, m, n, live),
{
    lemma_whole_rows(m as int, n as int);
    assert forall|r: int, j: int| 0 <= r < m && live(r) && 0 <= j < n implies #[trigger] entry(
        a,
        n,
        r,
        j,
    ) == entry(b, n, r, j) by {
        lemma_row_inside(r, m as int, n as int);
        let (p, q) = (row_of(a, n, r), row_of(b, n, r));
        let (p0, q0) = (row_of(a0, n, r), row_of(b0, n, r));
        assert(matmul_nn_row(x, w, k, true, r, p0, p) && matmul_nn_row(y, w, k, true, r, q0, q));
        assert(is_landed_dot(x, r * k, 1, w, j, n as int, k, true, p0[j], p[j]));
        assert(is_landed_dot(y, r * k, 1, w, j, n as int, k, true, q0[j], q[j]));
        let s = choose|acc: S| #[trigger]
            is_dot(x, r * k, 1, w, j, n as int, k, acc) && lands(true, p0[j], acc, p[j]);
        let t = choose|acc: S| #[trigger]
            is_dot(y, r * k, 1, w, j, n as int, k, acc) && lands(true, q0[j], acc, q[j]);
        lemma_row_dots(null, plain, x, y, w, j, n as int, m, k, live, r, s, t);
        assert(entry(a0, n, r, j) == entry(b0, n, r, j));
        assert(is_sum(p0[j], s, p[j]) && is_sum(p0[j], s, q[j]));
    }
}

/// Through the cut-off.
pub proof fn lemma_live_relu<S: Scalar>(
    a0: Seq<S>,
    b0: Seq<S>,
    a: Seq<S>,
    b: Seq<S>,
    x: Seq<S>,
    y: Seq<S>,
    m: nat,
    n: nat,
    live: spec_fn(int) -> bool,
)
    requires
        deterministic::<S>(),
        a0.len() == m * n,
        b0.len() == m * n,
        is_relu_bwd(a0, a, x),
        is_relu_bwd(b0, b, y),
        rows_agree(a0, b0, m, n, live),
        rows_agree(x, y, m, n, live),
    ensures
        rows_agree(a, b, m, n, live),
{
    assert forall|r: int, j: int| 0 <= r < m && live(r) && 0 <= j < n implies #[trigger] entry(
        a,
        n,
        r,
        j,
    ) == entry(b, n, r, j) by {
        lemma_pair(r, m as int, j, n as int);
        let i = r * n + j;
        assert(entry(a0, n, r, j) == entry(b0, n, r, j));
        assert(entry(x, n, r, j) == entry(y, n, r, j));
        assert(is_relu_grad(x[i], a0[i], a[i]) && is_relu_grad(y[i], b0[i], b[i]));
    }
}

/// Through an addition in place.
pub proof fn lemma_live_residual<S: Scalar>(
    a0: Seq<S>,
    b0: Seq<S>,
    a: Seq<S>,
    b: Seq<S>,
    x: Seq<S>,
    y: Seq<S>,
    m: nat,
    n: nat,
    live: spec_fn(int) -> bool,
)
    requires
        deterministic::<S>(),
        a0.len() == m * n,
        b0.len() == m * n,
        is_add_inplace(a0, a, x),
        is_add_inplace(b0, b, y),
        rows_agree(a0, b0, m, n, live),
        rows_agree(x, y, m, n, live),
    ensures
        rows_agree(a, b, m, n, live),
{
    assert forall|r: int, j: int| 0 <= r < m && live(r) && 0 <= j < n implies #[trigger] entry(
        a,
        n,
        r,
        j,
    ) == entry(b, n, r, j) by {
        lemma_pair(r, m as int, j, n as int);
        let i = r * n + j;
        assert(entry(a0, n, r, j) == entry(b0, n, r, j));
        assert(entry(x, n, r, j) == entry(y, n, r, j));
        assert(is_sum(a0[i], x[i], a[i]) && is_sum(b0[i], y[i], b[i]));
    }
}

/// Through the normalization.
pub proof fn lemma_live_norm<S: Scalar>(
    null: spec_fn(S) -> bool,
    plain: spec_fn(S) -> bool,
    a: Seq<S>,
    b: Seq<S>,
    x: Seq<S>,
    y: Seq<S>,
    rx: Seq<S>,
    ry: Seq<S>,
    dx: Seq<S>,
    dy: Seq<S>,
    m: nat,
    c: nat,
    live: spec_fn(int) -> bool,
)
    requires
        settled(null, plain),
        c > 0,
        a.len() == m * c,
        b.len() == m * c,
        is_norm_bwd(a, x, rx, dx, c),
        is_norm_bwd(b, y, ry, dy, c),
        rows_agree(x, y, m, c, live),
        nums_agree(rx, ry, m, live),
        rows_agree(dx, dy, m, c, live),
    ensures
        rows_agree(a, b, m, c, live),
{
    lemma_whole_rows(m as int, c as int);
    assert forall|t: int, j: int| 0 <= t < m && live(t) && 0 <= j < c implies #[trigger] entry(
        a,
        c,
        t,
        j,
    ) == entry(b, c, t, j) by {
        lemma_row_inside(t, m as int, c as int);
        let (p, q) = (row_of(a, c, t), row_of(b, c, t));
        assert(rmsnorm_bwd_row(x, rx, dx, false, t, p, p));
        assert(rmsnorm_bwd_row(y, ry, dy, false, t, q, q));
        let (d1, k1) = choose|dot: S, k: S| #[trigger]
            rmsnorm_bwd_row_by(x, rx, dx, false, t, p, p, dot, k);
        let (d2, k2) = choose|dot: S, k: S| #[trigger]
            rmsnorm_bwd_row_by(y, ry, dy, false, t, q, q, dot, k);
        assert forall|i: int| 0 <= i < c implies (#[trigger] dot_pair(
            dx,
            t * c,
            1,
            x,
            t * c,
            1,
            i,
        )) == dot_pair(dy, t * c, 1, y, t * c, 1, i) by {
            assert(entry(dx, c, t, i) == entry(dy, c, t, i));
            assert(entry(x, c, t, i) == entry(y, c, t, i));
        }
        lemma_dots_match(null, plain, dx, dy, t * c, 1, x, y, t * c, 1, c, d1, d2);
        assert(rx[t] == ry[t]);
        lemma_pull_repeats(rx[t], d1, c, k1, k2);
        let (r, g, z) = (rx[t], dx[t * c + j], x[t * c + j]);
        assert(entry(dx, c, t, j) == entry(dy, c, t, j));
        assert(entry(x, c, t, j) == entry(y, c, t, j));
        assert(is_norm_grad(r, g, k1, z, false, p[j], p[j]));
        assert(is_norm_grad(r, g, k1, z, false, q[j], q[j]));
        let (a1, a2, a3) = choose|direct: S, pulled: S, out: S|
            #![trigger is_diff(direct, pulled, out)]
            is_prod(r, g, direct) && is_prod(k1, z, pulled) && is_diff(direct, pulled, out)
                && lands(false, p[j], out, p[j]);
        let (b1, b2, b3) = choose|direct: S, pulled: S, out: S|
            #![trigger is_diff(direct, pulled, out)]
            is_prod(r, g, direct) && is_prod(k1, z, pulled) && is_diff(direct, pulled, out)
                && lands(false, q[j], out, q[j]);
        assert(a1 == b1 && a2 == b2);
        assert(is_diff(a1, a2, a3) && is_diff(a1, a2, b3));
    }
}

/// The gradient of a matrix: rows that are not live add nothing.
pub proof fn lemma_live_matrix<S: Scalar>(
    null: spec_fn(S) -> bool,
    plain: spec_fn(S) -> bool,
    before: Seq<S>,
    a: Seq<S>,
    b: Seq<S>,
    dx: Seq<S>,
    dy: Seq<S>,
    x: Seq<S>,
    y: Seq<S>,
    m: nat,
    n: nat,
    k: nat,
    live: spec_fn(int) -> bool,
)
    requires
        settled(null, plain),
        n > 0,
        before.len() == m * n,
        is_matmul_tn(before, a, dx, x, m, n, k),
        is_matmul_tn(before, b, dy, y, m, n, k),
        rows_agree(dx, dy, k, m, live),
        rows_agree(x, y, k, n, live),
        rows_void(null, dx, k, m, live),
        rows_void(null, dy, k, m, live),
    ensures
        a == b,
{
    lemma_whole_rows(m as int, n as int);
    assert forall|r: int| 0 <= r < m implies #[trigger] row_of(a, n, r) == row_of(b, n, r) by {
        lemma_row_inside(r, m as int, n as int);
        let (p, q, z) = (row_of(a, n, r), row_of(b, n, r), row_of(before, n, r));
        assert(matmul_tn_row(dx, x, m, k, r, z, p) && matmul_tn_row(dy, y, m, k, r, z, q));
        assert forall|j: int| 0 <= j < n implies p[j] == q[j] by {
            let (mi, ni) = (m as int, n as int);
            assert(is_landed_dot(dx, r, mi, x, j, ni, k, true, z[j], p[j]));
            assert(is_landed_dot(dy, r, mi, y, j, ni, k, true, z[j], q[j]));
            let s = choose|acc: S| #[trigger]
                is_dot(dx, r, mi, x, j, ni, k, acc) && lands(true, z[j], acc, p[j]);
            let t = choose|acc: S| #[trigger]
                is_dot(dy, r, mi, y, j, ni, k, acc) && lands(true, z[j], acc, q[j]);
            assert forall|i: int| 0 <= i < k implies (#[trigger] dot_pair(
                dx,
                r,
                mi,
                x,
                j,
                ni,
                i,
            )) == dot_pair(dy, r, mi, y, j, ni, i) || (pair_void(
                null,
                dot_pair(dx, r, mi, x, j, ni, i),
            ) && pair_void(null, dot_pair(dy, r, mi, y, j, ni, i))) by {
                assert(r + i * mi == i * m + r && j + i * ni == i * n + j);
                if live(i) {
                    assert(entry(dx, m, i, r) == entry(dy, m, i, r));
                    assert(entry(x, n, i, j) == entry(y, n, i, j));
                } else {
                    assert(null(entry(dx, m, i, r)) && null(entry(dy, m, i, r)));
                }
            }
            lemma_dots_match(null, plain, dx, dy, r, mi, x, y, j, ni, k, s, t);
            assert(is_sum(z[j], s, p[j]) && is_sum(z[j], s, q[j]));
        }
        assert(p =~= q);
    }
    lemma_same_rows(a, b, m, n);
}

/// Whether the rows of attention weights that are not live are null.
pub open spec fn weights_void<S>(
    null: spec_fn(S) -> bool,
    hs: Heads,
    x: Seq<S>,
    live: spec_fn(int) -> bool,
) -> bool {
    rows_void(null, x, hs.weight_rows() as nat, hs.t_len as nat, seen_weights(hs, live))
}

/// Whether attention weights agree in the live rows.
pub open spec fn weights_agree<S>(
    hs: Heads,
    x: Seq<S>,
    y: Seq<S>,
    live: spec_fn(int) -> bool,
) -> bool {
    rows_agree(x, y, hs.weight_rows() as nat, hs.t_len as nat, seen_weights(hs, live))
}

/// The gradient of the attention weights.
pub proof fn lemma_live_dp<S: Scalar>(
    null: spec_fn(S) -> bool,
    plain: spec_fn(S) -> bool,
    hs: Heads,
    a: Seq<S>,
    b: Seq<S>,
    dx: Seq<S>,
    dy: Seq<S>,
    v: Seq<S>,
    w: Seq<S>,
    live: spec_fn(int) -> bool,
)
    requires
        settled(null, plain),
        hs.t_len > 0,
        hs.h_n > 0,
        a.len() == hs.weight_rows() * hs.t_len,
        b.len() == hs.weight_rows() * hs.t_len,
        is_attn_mix_bwd_dp(hs, a, dx, v),
        is_attn_mix_bwd_dp(hs, b, dy, w),
        rows_agree(dx, dy, hs.positions() as nat, hs.width() as nat, live),
        rows_agree(v, w, hs.positions() as nat, hs.width() as nat, live),
        looks_back(hs, live),
    ensures
        weights_agree(hs, a, b, live),
{
    let (m, n, c) = (hs.weight_rows() as nat, hs.t_len as nat, hs.width() as nat);
    assert(0 <= hs.weight_rows()) by (nonlinear_arith)
        requires
            hs.weight_rows() == hs.b_n * hs.h_n * hs.t_len,
    ;
    lemma_whole_rows(m as int, n as int);
    assert forall|i: int, u: int|
        0 <= i < m && seen_weights(hs, live)(i) && 0 <= u < n implies #[trigger] entry(a, n, i, u)
        == entry(b, n, i, u) by {
        lemma_row_inside(i, m as int, n as int);
        lemma_unpair(i, hs.b_n * hs.h_n, hs.t_len as int);
        lemma_unpair(i / hs.t_len as int, hs.b_n as int, hs.h_n as int);
        let (p, q) = (row_of(a, n, i), row_of(b, n, i));
        assert(mix_bwd_dp_row(hs, dx, v, i, p) && mix_bwd_dp_row(hs, dy, w, i, q));
        let (d, h, t) = (hs.doc_of(i), hs.head_of(i), i % hs.t_len as int);
        if u <= t {
            let (st, su, size) = (hs.head_start(d, t, h), hs.head_start(d, u, h), hs.d as nat);
            assert(is_dot(dx, st, 1, v, su, 1, size, p[u]));
            assert(is_dot(dy, st, 1, w, su, 1, size, q[u]));
            assert(live(hs.position(d, t)) && live(hs.position(d, u)));
            assert forall|j: int| 0 <= j < size implies (#[trigger] dot_pair(
                dx,
                st,
                1,
                v,
                su,
                1,
                j,
            )) == dot_pair(dy, st, 1, w, su, 1, j) by {
                lemma_places(hs, d, h, t, j);
                lemma_places(hs, d, h, u, j);
                let col = h * hs.d + j;
                assert(entry(dx, c, hs.position(d, t), col) == entry(
                    dy,
                    c,
                    hs.position(d, t),
                    col,
                ));
                assert(entry(v, c, hs.position(d, u), col) == entry(w, c, hs.position(d, u), col));
            }
            lemma_dots_match(null, plain, dx, dy, st, 1, v, w, su, 1, size, p[u], q[u]);
        } else {
            assert(is_zero(p[u]) && is_zero(q[u]));
        }
    }
}

/// The gradient of the scores.
pub proof fn lemma_live_ds<S: Scalar>(
    null: spec_fn(S) -> bool,
    plain: spec_fn(S) -> bool,
    hs: Heads,
    a: Seq<S>,
    b: Seq<S>,
    att: Seq<S>,
    btt: Seq<S>,
    dp: Seq<S>,
    dq: Seq<S>,
    live: spec_fn(int) -> bool,
)
    requires
        settled(null, plain),
        hs.t_len > 0,
        a.len() == hs.weight_rows() * hs.t_len,
        b.len() == hs.weight_rows() * hs.t_len,
        is_attn_softmax_bwd(a, att, dp, hs.t_len as nat),
        is_attn_softmax_bwd(b, btt, dq, hs.t_len as nat),
        weights_agree(hs, att, btt, live),
        weights_agree(hs, dp, dq, live),
    ensures
        weights_agree(hs, a, b, live),
{
    let (m, n) = (hs.weight_rows() as nat, hs.t_len as nat);
    assert(0 <= hs.weight_rows()) by (nonlinear_arith)
        requires
            hs.weight_rows() == hs.b_n * hs.h_n * hs.t_len,
    ;
    lemma_whole_rows(m as int, n as int);
    assert forall|i: int, u: int|
        0 <= i < m && seen_weights(hs, live)(i) && 0 <= u < n implies #[trigger] entry(a, n, i, u)
        == entry(b, n, i, u) by {
        lemma_row_inside(i, m as int, n as int);
        let (p, q) = (row_of(a, n, i), row_of(b, n, i));
        assert(softmax_bwd_row(att, dp, i, p) && softmax_bwd_row(btt, dq, i, q));
        let l1 = choose|along: S| #[trigger] softmax_bwd_row_by(att, dp, i, p, along);
        let l2 = choose|along: S| #[trigger] softmax_bwd_row_by(btt, dq, i, q, along);
        let (base, t) = (i * n, i % n as int);
        vstd::arithmetic::div_mod::lemma_mod_bound(i, n as int);
        assert forall|j: int| 0 <= j < t + 1 implies (#[trigger] dot_pair(
            dp,
            base,
            1,
            att,
            base,
            1,
            j,
        )) == dot_pair(dq, base, 1, btt, base, 1, j) by {
            assert(entry(dp, n, i, j) == entry(dq, n, i, j));
            assert(entry(att, n, i, j) == entry(btt, n, i, j));
        }
        lemma_dots_match(
            null,
            plain,
            dp,
            dq,
            base,
            1,
            att,
            btt,
            base,
            1,
            (t + 1) as nat,
            l1,
            l2,
        );
        if u <= t {
            assert(entry(dp, n, i, u) == entry(dq, n, i, u));
            assert(entry(att, n, i, u) == entry(btt, n, i, u));
            let (w, g) = (att[base + u], dp[base + u]);
            assert(is_softmax_grad(w, g, l1, p[u]) && is_softmax_grad(w, g, l2, q[u]));
            let d1 = choose|diff: S| #[trigger] is_diff(g, l1, diff) && is_prod(w, diff, p[u]);
            let d2 = choose|diff: S| #[trigger] is_diff(g, l2, diff) && is_prod(w, diff, q[u]);
            assert(d1 == d2);
            assert(is_prod(w, d1, p[u]) && is_prod(w, d1, q[u]));
        } else {
            assert(is_zero(p[u]) && is_zero(q[u]));
        }
    }
}

/// A sum over one side at a live position: over the past all rows are live, over the future
/// those that are not add nothing.
proof fn lemma_live_sum<S: Scalar>(
    null: spec_fn(S) -> bool,
    plain: spec_fn(S) -> bool,
    hs: Heads,
    side: Side,
    w: Seq<S>,
    z: Seq<S>,
    x: Seq<S>,
    y: Seq<S>,
    live: spec_fn(int) -> bool,
    r: int,
    col: int,
    a: S,
    b: S,
)
    requires
        settled(null, plain),
        hs.t_len > 0,
        hs.h_n > 0,
        hs.d > 0,
        0 <= r < hs.positions(),
        live(r),
        0 <= col < hs.width(),
        is_causal_sum(hs, side, w, x, r, col, a),
        is_causal_sum(hs, side, z, y, r, col, b),
        weights_agree(hs, w, z, live),
        rows_agree(x, y, hs.positions() as nat, hs.width() as nat, live),
        looks_back(hs, live),
        side == Side::Future ==> (weights_void(null, hs, w, live) && weights_void(
            null,
            hs,
            z,
            live,
        )) || (rows_void(null, x, hs.positions() as nat, hs.width() as nat, live) && rows_void(
            null,
            y,
            hs.positions() as nat,
            hs.width() as nat,
            live,
        )),
    ensures
        a == b,
{
    let (n, c) = (hs.t_len as int, hs.width());
    lemma_unpair(r, hs.b_n as int, n);
    lemma_unpair(col, hs.h_n as int, hs.d as int);
    let (d, t, h) = (r / n, r % n, col / hs.d as int);
    assert(hs.position(d, t) == r);
    let i = hs.weight_row(d, h, t);
    let row = i * hs.t_len;
    let tn = hs.t_len as nat;
    lemma_weight_places(hs, d, h, t);
    match side {
        Side::Past => {
            let start = hs.entry(d, 0, col);
            assert forall|u: int| 0 <= u < t + 1 implies (#[trigger] dot_pair(
                w,
                row,
                1,
                x,
                start,
                c,
                u,
            )) == dot_pair(z, row, 1, y, start, c, u) by {
                assert(seen_weights(hs, live)(i));
                assert(entry(w, tn, i, u) == entry(z, tn, i, u));
                lemma_pair(d, hs.b_n as int, u, n);
                assert(live(hs.position(d, t)) && live(hs.position(d, u)));
                lemma_step_down(hs.position(d, 0), u, c);
                assert(start + u * c == hs.position(d, u) * c + col);
                assert(entry(x, c as nat, hs.position(d, u), col) == entry(
                    y,
                    c as nat,
                    hs.position(d, u),
                    col,
                ));
            }
            lemma_dots_match(null, plain, w, z, row, 1, x, y, start, c, (t + 1) as nat, a, b);
        },
        Side::Future => {
            let start = hs.entry(d, t, col);
            let m = (n - t) as nat;
            assert forall|p: int| 0 <= p < m implies (#[trigger] dot_pair(
                w,
                row + t,
                n,
                x,
                start,
                c,
                p,
            )) == dot_pair(z, row + t, n, y, start, c, p) || (pair_void(
                null,
                dot_pair(w, row + t, n, x, start, c, p),
            ) && pair_void(null, dot_pair(z, row + t, n, y, start, c, p))) by {
                let k = hs.weight_row(d, h, t + p);
                lemma_weight_places(hs, d, h, t + p);
                lemma_pair(d, hs.b_n as int, t + p, n);
                assert(k == i + p);
                lemma_step_down(i, p, n);
                assert(row + t + p * n == k * n + t);
                lemma_step_down(hs.position(d, t), p, c);
                let pos = hs.position(d, t + p);
                assert(pos == hs.position(d, t) + p);
                assert(start + p * c == pos * c + col);
                if live(pos) {
                    assert(seen_weights(hs, live)(k));
                    assert(entry(w, tn, k, t) == entry(z, tn, k, t));
                    assert(entry(x, c as nat, pos, col) == entry(y, c as nat, pos, col));
                } else {
                    assert(!seen_weights(hs, live)(k));
                    if weights_void(null, hs, w, live) && weights_void(null, hs, z, live) {
                        assert(null(entry(w, tn, k, t)) && null(entry(z, tn, k, t)));
                    } else {
                        assert(null(entry(x, c as nat, pos, col)) && null(
                            entry(y, c as nat, pos, col),
                        ));
                    }
                }
            }
            lemma_dots_match(null, plain, w, z, row + t, n, x, y, start, c, m, a, b);
        },
    }
}

/// The gradient of the values.
pub proof fn lemma_live_dv<S: Scalar>(
    null: spec_fn(S) -> bool,
    plain: spec_fn(S) -> bool,
    hs: Heads,
    a: Seq<S>,
    b: Seq<S>,
    w: Seq<S>,
    z: Seq<S>,
    x: Seq<S>,
    y: Seq<S>,
    m: nat,
    c: nat,
    live: spec_fn(int) -> bool,
)
    requires
        settled(null, plain),
        hs.t_len > 0,
        hs.h_n > 0,
        hs.d > 0,
        m == hs.positions(),
        c == hs.width(),
        c > 0,
        a.len() == m * c,
        b.len() == m * c,
        is_attn_mix(hs, Side::Future, a, w, x),
        is_attn_mix(hs, Side::Future, b, z, y),
        weights_agree(hs, w, z, live),
        rows_agree(x, y, m, c, live),
        rows_void(null, x, m, c, live),
        rows_void(null, y, m, c, live),
        looks_back(hs, live),
    ensures
        rows_agree(a, b, m, c, live),
{
    lemma_whole_rows(m as int, c as int);
    assert forall|r: int, col: int| 0 <= r < m && live(r) && 0 <= col < c implies #[trigger] entry(
        a,
        c,
        r,
        col,
    ) == entry(b, c, r, col) by {
        lemma_row_inside(r, m as int, c as int);
        let (p, q) = (row_of(a, c, r), row_of(b, c, r));
        assert(causal_row(hs, Side::Future, w, x, r, p));
        assert(causal_row(hs, Side::Future, z, y, r, q));
        assert(is_causal_sum(hs, Side::Future, w, x, r, col, p[col]));
        assert(is_causal_sum(hs, Side::Future, z, y, r, col, q[col]));
        lemma_live_sum(
            null,
            plain,
            hs,
            Side::Future,
            w,
            z,
            x,
            y,
            live,
            r,
            col,
            p[col],
            q[col],
        );
    }
}

/// The gradient of queries or keys.
pub proof fn lemma_live_scores<S: Scalar>(
    null: spec_fn(S) -> bool,
    plain: spec_fn(S) -> bool,
    hs: Heads,
    side: Side,
    a: Seq<S>,
    b: Seq<S>,
    w: Seq<S>,
    z: Seq<S>,
    x: Seq<S>,
    y: Seq<S>,
    m: nat,
    c: nat,
    live: spec_fn(int) -> bool,
)
    requires
        settled(null, plain),
        hs.t_len > 0,
        hs.h_n > 0,
        hs.d > 0,
        m == hs.positions(),
        c == hs.width(),
        c > 0,
        a.len() == m * c,
        b.len() == m * c,
        is_attn_scores_bwd(hs, side, a, w, x),
        is_attn_scores_bwd(hs, side, b, z, y),
        weights_agree(hs, w, z, live),
        rows_agree(x, y, m, c, live),
        weights_void(null, hs, w, live),
        weights_void(null, hs, z, live),
        looks_back(hs, live),
    ensures
        rows_agree(a, b, m, c, live),
{
    lemma_whole_rows(m as int, c as int);
    assert forall|r: int, col: int| 0 <= r < m && live(r) && 0 <= col < c implies #[trigger] entry(
        a,
        c,
        r,
        col,
    ) == entry(b, c, r, col) by {
        lemma_row_inside(r, m as int, c as int);
        let (p, q) = (row_of(a, c, r), row_of(b, c, r));
        assert(scaled_causal_row(hs, side, w, x, r, p));
        assert(scaled_causal_row(hs, side, z, y, r, q));
        let s1 = choose|scale: S| #[trigger]
            is_score_scale(hs.d as nat, scale) && (forall|k: int|
                0 <= k < p.len() ==> is_scaled_sum(
                    hs,
                    side,
                    w,
                    x,
                    r,
                    k,
                    scale,
                    #[trigger] p[k],
                ));
        let s2 = choose|scale: S| #[trigger]
            is_score_scale(hs.d as nat, scale) && (forall|k: int|
                0 <= k < q.len() ==> is_scaled_sum(
                    hs,
                    side,
                    z,
                    y,
                    r,
                    k,
                    scale,
                    #[trigger] q[k],
                ));
        lemma_scale_agrees(hs.d as nat, s1, s2);
        assert(is_scaled_sum(hs, side, w, x, r, col, s1, p[col]));
        assert(is_scaled_sum(hs, side, z, y, r, col, s2, q[col]));
        let a1 = choose|acc: S| #[trigger]
            is_causal_sum(hs, side, w, x, r, col, acc) && is_prod(acc, s1, p[col]);
        let a2 = choose|acc: S| #[trigger]
            is_causal_sum(hs, side, z, y, r, col, acc) && is_prod(acc, s2, q[col]);
        lemma_live_sum(null, plain, hs, side, w, z, x, y, live, r, col, a1, a2);
        assert(is_prod(a1, s1, p[col]) && is_prod(a1, s1, q[col]));
    }
}

/// Rows gathered by token: those that are not live add nothing, whatever token they hold.
proof fn lemma_places_match<S: Scalar>(
    null: spec_fn(S) -> bool,
    plain: spec_fn(S) -> bool,
    dx: Seq<S>,
    dy: Seq<S>,
    tokens: Seq<i32>,
    others: Seq<i32>,
    token: int,
    m: nat,
    c: nat,
    live: spec_fn(int) -> bool,
    j: int,
    zero: S,
    n: nat,
    a: S,
    b: S,
)
    requires
        settled(null, plain),
        plain(zero),
        0 <= j < c,
        n <= m,
        rows_agree(dx, dy, m, c, live),
        rows_void(null, dx, m, c, live),
        rows_void(null, dy, m, c, live),
        forall|r: int| 0 <= r < m && live(r) ==> #[trigger] tokens[r] == others[r],
        is_running_sum(
            zero,
            row_term(dx, c as int, places(tokens, token, n), j),
            places(tokens, token, n).len(),
            a,
        ),
        is_running_sum(
            zero,
            row_term(dy, c as int, places(others, token, n), j),
            places(others, token, n).len(),
            b,
        ),
    ensures
        a == b,
        plain(a),
    decreases n,
{
    if n > 0 {
        let r = n - 1;
        let a0 = lemma_last_place(dx, tokens, token, c, j, zero, n, a);
        let b0 = lemma_last_place(dy, others, token, c, j, zero, n, b);
        lemma_places_match(
            null,
            plain,
            dx,
            dy,
            tokens,
            others,
            token,
            m,
            c,
            live,
            j,
            zero,
            (n - 1) as nat,
            a0,
            b0,
        );
        if live(r) {
            assert(tokens[r] == others[r]);
            assert(entry(dx, c, r, j) == entry(dy, c, r, j));
            if tokens[r] == token {
                assert(is_sum(a0, entry(dx, c, r, j), a) && is_sum(a0, entry(dx, c, r, j), b));
            }
        } else {
            assert(null(entry(dx, c, r, j)) && null(entry(dy, c, r, j)));
            if tokens[r] == token {
                assert(is_sum(a0, entry(dx, c, r, j), a));
            }
            if others[r] == token {
                assert(is_sum(b0, entry(dy, c, r, j), b));
            }
        }
    }
}

/// The sum over the places before the last row, and what the last row adds.
proof fn lemma_last_place<S: Scalar>(
    dx: Seq<S>,
    tokens: Seq<i32>,
    token: int,
    c: nat,
    j: int,
    zero: S,
    n: nat,
    a: S,
) -> (before: S)
    requires
        n > 0,
        is_running_sum(
            zero,
            row_term(dx, c as int, places(tokens, token, n), j),
            places(tokens, token, n).len(),
            a,
        ),
    ensures
        is_running_sum(
            zero,
            row_term(dx, c as int, places(tokens, token, (n - 1) as nat), j),
            places(tokens, token, (n - 1) as nat).len(),
            before,
        ),
        tokens[n - 1] == token ==> is_sum(before, entry(dx, c, n - 1, j), a),
        tokens[n - 1] != token ==> before == a,
{
    let (at, early) = (places(tokens, token, n), places(tokens, token, (n - 1) as nat));
    if tokens[n - 1] == token {
        let f = row_term(dx, c as int, at, j);
        let (b, t) = choose|before: S, t: S|
            #![trigger is_sum(before, t, a)]
            is_running_sum(zero, f, (at.len() - 1) as nat, before) && f(at.len() - 1, t) && is_sum(
                before,
                t,
                a,
            );
        let g = row_term(dx, c as int, early, j);
        assert forall|i: int, u: S| 0 <= i < early.len() && #[trigger] f(i, u) implies g(i, u) by {
            assert(at[i] == early[i]);
        }
        lemma_running_sum_congruent(zero, f, g, early.len(), b);
        b
    } else {
        a
    }
}

/// The gradient of the token embeddings.
pub proof fn lemma_live_wte<S: Scalar>(
    null: spec_fn(S) -> bool,
    plain: spec_fn(S) -> bool,
    before: Seq<S>,
    a: Seq<S>,
    b: Seq<S>,
    dx: Seq<S>,
    dy: Seq<S>,
    tokens: Seq<i32>,
    others: Seq<i32>,
    rows: nat,
    m: nat,
    c: nat,
    live: spec_fn(int) -> bool,
)
    requires
        settled(null, plain),
        c > 0,
        before.len() == m * c,
        tokens.len() == rows,
        others.len() == rows,
        is_embed_bwd_wte(before, a, dx, tokens, c),
        is_embed_bwd_wte(before, b, dy, others, c),
        rows_agree(dx, dy, rows, c, live),
        rows_void(null, dx, rows, c, live),
        rows_void(null, dy, rows, c, live),
        forall|r: int| 0 <= r < rows && live(r) ==> #[trigger] tokens[r] == others[r],
    ensures
        a == b,
{
    lemma_whole_rows(m as int, c as int);
    assert forall|v: int| 0 <= v < m implies #[trigger] row_of(a, c, v) == row_of(b, c, v) by {
        lemma_row_inside(v, m as int, c as int);
        let (p, q, z) = (row_of(a, c, v), row_of(b, c, v), row_of(before, c, v));
        assert(embed_bwd_wte_row(dx, tokens, v, z, p) && embed_bwd_wte_row(dy, others, v, z, q));
        let (at, bt) = (places(tokens, v, rows), places(others, v, rows));
        assert forall|j: int| 0 <= j < c implies p[j] == q[j] by {
            assert(is_gathered(dx, c as int, at, j, z[j], p[j]));
            assert(is_gathered(dy, c as int, bt, j, z[j], q[j]));
            let (z1, s1) = choose|zero: S, acc: S|
                is_zero(zero) && #[trigger] is_running_sum(
                    zero,
                    row_term(dx, c as int, at, j),
                    at.len(),
                    acc,
                ) && is_sum(z[j], acc, p[j]);
            let (z2, s2) = choose|zero: S, acc: S|
                is_zero(zero) && #[trigger] is_running_sum(
                    zero,
                    row_term(dy, c as int, bt, j),
                    bt.len(),
                    acc,
                ) && is_sum(z[j], acc, q[j]);
            assert(z1 == z2);
            lemma_places_match(
                null,
                plain,
                dx,
                dy,
                tokens,
                others,
                v,
                rows,
                c,
                live,
                j,
                z1,
                rows,
                s1,
                s2,
            );
            assert(is_sum(z[j], s1, p[j]) && is_sum(z[j], s1, q[j]));
        }
        assert(p =~= q);
    }
    lemma_same_rows(a, b, m, c);
}

/// The gradient of the position embeddings.
pub proof fn lemma_live_wpe<S: Scalar>(
    null: spec_fn(S) -> bool,
    plain: spec_fn(S) -> bool,
    before: Seq<S>,
    a: Seq<S>,
    b: Seq<S>,
    dx: Seq<S>,
    dy: Seq<S>,
    rows: nat,
    t_len: nat,
    c: nat,
    live: spec_fn(int) -> bool,
)
    requires
        settled(null, plain),
        c > 0,
        is_embed_bwd_wpe(before, a, dx, rows, t_len, c),
        is_embed_bwd_wpe(before, b, dy, rows, t_len, c),
        rows_agree(dx, dy, rows, c, live),
        rows_void(null, dx, rows, c, live),
        rows_void(null, dy, rows, c, live),
    ensures
        a == b,
{
    assert forall|i: int| 0 <= i < before.len() implies a[i] == b[i] by {
        if i < t_len * c {
            let at = visits(i / c as int, t_len as int, rows);
            let j = i % c as int;
            vstd::arithmetic::div_mod::lemma_mod_bound(i, c as int);
            assert(is_gathered(dx, c as int, at, j, before[i], a[i]));
            assert(is_gathered(dy, c as int, at, j, before[i], b[i]));
            let (f, g) = (row_term(dx, c as int, at, j), row_term(dy, c as int, at, j));
            let (z1, s1) = choose|zero: S, acc: S|
                is_zero(zero) && #[trigger] is_running_sum(zero, f, at.len(), acc) && is_sum(
                    before[i],
                    acc,
                    a[i],
                );
            let (z2, s2) = choose|zero: S, acc: S|
                is_zero(zero) && #[trigger] is_running_sum(zero, g, at.len(), acc) && is_sum(
                    before[i],
                    acc,
                    b[i],
                );
            assert(z1 == z2);
            lemma_visits_hold(i / c as int, t_len as int, rows);
            assert forall|k: int, t: S, u: S|
                0 <= k < at.len() && #[trigger] f(k, t) && #[trigger] g(k, u) implies t == u || (
            null(t) && null(u)) by {
                let r = at[k];
                assert(0 <= r < rows);
                if live(r) {
                    assert(entry(dx, c, r, j) == entry(dy, c, r, j));
                } else {
                    assert(null(entry(dx, c, r, j)) && null(entry(dy, c, r, j)));
                }
            }
            lemma_sums_match(null, plain, z1, f, g, at.len(), s1, s2);
            assert(is_sum(before[i], s1, a[i]) && is_sum(before[i], s1, b[i]));
        } else {
            assert(a[i] == before[i] && b[i] == before[i]);
        }
    }
    assert(a =~= b);
}

} // verus!
