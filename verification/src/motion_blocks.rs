//! First-order motion of one attention head over one document, as matrices of numbers, and
//! that its backward pass is its adjoint.
use vstd::prelude::*;

use crate::exact::{
    applied, applied_back, column_terms, lemma_rows_add, lemma_rows_same, lemma_total_add,
    lemma_total_head, lemma_total_same, lemma_total_scale, lemma_total_swap, lemma_total_tail,
    lemma_transpose, row_terms, total_by_rows, total_of,
};

verus! {

/// The products of two matrices, number by number.
pub open spec fn times(
    a: spec_fn(int, int) -> real,
    b: spec_fn(int, int) -> real,
) -> spec_fn(int, int) -> real {
    |i: int, j: int| a(i, j) * b(i, j)
}

/// The sum over the past of row `t`: `sum_u w[t, u] * x[u, j]` for `u <= t`.
pub open spec fn past(
    w: spec_fn(int, int) -> real,
    x: spec_fn(int, int) -> real,
    t: int,
    j: int,
) -> real {
    total_of(|u: int| w(t, u) * x(u, j), (t + 1) as nat)
}

/// The sum over the future of row `u`: `sum_t w[t, u] * x[t, j]` for `t >= u`.
pub open spec fn future(
    w: spec_fn(int, int) -> real,
    x: spec_fn(int, int) -> real,
    t_len: nat,
    u: int,
    j: int,
) -> real {
    total_of(|i: int| w(u + i, u) * x(u + i, j), (t_len - u) as nat)
}

/// The product of row `t` of `a` and row `u` of `b`.
pub open spec fn cross(
    a: spec_fn(int, int) -> real,
    b: spec_fn(int, int) -> real,
    d: nat,
    t: int,
    u: int,
) -> real {
    total_of(|j: int| a(t, j) * b(u, j), d)
}

/// Whether the matrix is zero above the diagonal.
pub open spec fn causal(w: spec_fn(int, int) -> real, t_len: nat) -> bool {
    forall|t: int, u: int| 0 <= t < u < t_len ==> #[trigger] w(t, u) == 0 as real
}

/// A sum over the past is one over all positions, where the weights are causal.
proof fn lemma_past_full(
    w: spec_fn(int, int) -> real,
    x: spec_fn(int, int) -> real,
    t_len: nat,
    t: int,
    j: int,
)
    requires
        causal(w, t_len),
        0 <= t < t_len,
    ensures
        past(w, x, t, j) == total_of(|u: int| w(t, u) * x(u, j), t_len),
{
    let f = |u: int| w(t, u) * x(u, j);
    assert forall|u: int| t + 1 <= u < t_len implies #[trigger] f(u) == 0 as real by {
        assert(w(t, u) == 0 as real);
        let b = x(u, j);
        assert((0 as real) * b == 0 as real) by (nonlinear_arith);
    }
    lemma_total_tail(f, (t + 1) as nat, t_len);
}

/// A sum over the future is one over all positions, where the weights are causal.
proof fn lemma_future_full(
    w: spec_fn(int, int) -> real,
    x: spec_fn(int, int) -> real,
    t_len: nat,
    u: int,
    j: int,
)
    requires
        causal(w, t_len),
        0 <= u < t_len,
    ensures
        future(w, x, t_len, u, j) == total_of(|t: int| w(t, u) * x(t, j), t_len),
{
    let f = |t: int| w(t, u) * x(t, j);
    assert forall|t: int| 0 <= t < u implies #[trigger] f(t) == 0 as real by {
        assert(w(t, u) == 0 as real);
        let b = x(t, j);
        assert((0 as real) * b == 0 as real) by (nonlinear_arith);
    }
    lemma_total_head(f, |i: int| w(u + i, u) * x(u + i, j), u as nat, t_len);
}

/// The mix of values, moved by the values: its adjoint sums over the future.
proof fn lemma_mix_values(
    dy: spec_fn(int, int) -> real,
    att: spec_fn(int, int) -> real,
    mv: spec_fn(int, int) -> real,
    t_len: nat,
    d: nat,
)
    requires
        causal(att, t_len),
    ensures
        total_by_rows(times(dy, |t: int, j: int| past(att, mv, t, j)), t_len, d) == total_by_rows(
            times(|u: int, j: int| future(att, dy, t_len, u, j), mv),
            t_len,
            d,
        ),
{
    let left = times(dy, |t: int, j: int| past(att, mv, t, j));
    let right = times(|u: int, j: int| future(att, dy, t_len, u, j), mv);
    lemma_total_swap(left, t_len, d);
    lemma_total_swap(right, t_len, d);
    let (cl, cr) = (
        |j: int| total_of(column_terms(left, j), t_len),
        |j: int| total_of(column_terms(right, j), t_len),
    );
    assert forall|j: int| 0 <= j < d implies #[trigger] cl(j) == cr(j) by {
        let a = |t: int| dy(t, j);
        let b = |u: int| mv(u, j);
        lemma_transpose(a, att, b, t_len, t_len);
        let fa = |t: int| a(t) * applied(att, b, t_len)(t);
        assert forall|t: int| 0 <= t < t_len implies #[trigger] column_terms(left, j)(t) == fa(
            t,
        ) by {
            lemma_past_full(att, mv, t_len, t, j);
            lemma_total_same(|u: int| att(t, u) * mv(u, j), |u: int| att(t, u) * b(u), t_len);
        }
        lemma_total_same(column_terms(left, j), fa, t_len);
        let fb = |u: int| applied_back(att, a, t_len)(u) * b(u);
        assert forall|u: int| 0 <= u < t_len implies #[trigger] column_terms(right, j)(u) == fb(
            u,
        ) by {
            lemma_future_full(att, dy, t_len, u, j);
            lemma_total_same(|t: int| att(t, u) * dy(t, j), |t: int| att(t, u) * a(t), t_len);
        }
        lemma_total_same(column_terms(right, j), fb, t_len);
    }
    lemma_total_same(cl, cr, d);
}

/// The mix of values, moved by the weights: its adjoint multiplies rows.
proof fn lemma_mix_weights(
    dy: spec_fn(int, int) -> real,
    matt: spec_fn(int, int) -> real,
    v: spec_fn(int, int) -> real,
    dp: spec_fn(int, int) -> real,
    t_len: nat,
    d: nat,
)
    requires
        causal(dp, t_len),
        forall|t: int, u: int|
            0 <= u <= t < t_len ==> #[trigger] dp(t, u) == cross(dy, v, d, t, u),
    ensures
        total_by_rows(times(dy, |t: int, j: int| past(matt, v, t, j)), t_len, d) == total_by_rows(
            times(dp, matt),
            t_len,
            t_len,
        ),
{
    let left = times(dy, |t: int, j: int| past(matt, v, t, j));
    let right = times(dp, matt);
    let (rl, rr) = (
        |t: int| total_of(row_terms(left, t), d),
        |t: int| total_of(row_terms(right, t), t_len),
    );
    assert forall|t: int| 0 <= t < t_len implies #[trigger] rl(t) == rr(t) by {
        let a = |j: int| dy(t, j);
        let f = |j: int, u: int| v(u, j);
        let b = |u: int| matt(t, u);
        let n = (t + 1) as nat;
        lemma_transpose(a, f, b, d, n);
        let fa = |j: int| a(j) * applied(f, b, n)(j);
        assert forall|j: int| 0 <= j < d implies #[trigger] row_terms(left, t)(j) == fa(j) by {
            let (g, h) = (|u: int| matt(t, u) * v(u, j), |u: int| f(j, u) * b(u));
            assert forall|u: int| 0 <= u < n implies #[trigger] g(u) == h(u) by {
                let (x, y) = (matt(t, u), v(u, j));
                assert(x * y == y * x) by (nonlinear_arith);
            }
            lemma_total_same(g, h, n);
        }
        lemma_total_same(row_terms(left, t), fa, d);
        let fb = |u: int| applied_back(f, a, d)(u) * b(u);
        assert forall|u: int| 0 <= u < n implies #[trigger] row_terms(right, t)(u) == fb(u) by {
            let (g, h) = (|j: int| dy(t, j) * v(u, j), |j: int| f(j, u) * a(j));
            assert forall|j: int| 0 <= j < d implies #[trigger] g(j) == h(j) by {
                let (x, y) = (dy(t, j), v(u, j));
                assert(x * y == y * x) by (nonlinear_arith);
            }
            lemma_total_same(g, h, d);
            assert(dp(t, u) == cross(dy, v, d, t, u));
        }
        lemma_total_same(row_terms(right, t), fb, n);
        assert forall|u: int| n <= u < t_len implies #[trigger] row_terms(right, t)(u)
            == 0 as real by {
            assert(dp(t, u) == 0 as real);
            let x = matt(t, u);
            assert((0 as real) * x == 0 as real) by (nonlinear_arith);
        }
        lemma_total_tail(row_terms(right, t), n, t_len);
    }
    lemma_total_same(rl, rr, t_len);
}

/// The backward pass of the mix of values is its adjoint.
pub proof fn lemma_mix_block(
    dy: spec_fn(int, int) -> real,
    my: spec_fn(int, int) -> real,
    att: spec_fn(int, int) -> real,
    matt: spec_fn(int, int) -> real,
    v: spec_fn(int, int) -> real,
    mv: spec_fn(int, int) -> real,
    dp: spec_fn(int, int) -> real,
    dv: spec_fn(int, int) -> real,
    t_len: nat,
    d: nat,
)
    requires
        causal(att, t_len),
        causal(dp, t_len),
        forall|t: int, j: int|
            0 <= t < t_len && 0 <= j < d ==> #[trigger] my(t, j) == past(att, mv, t, j) + past(
                matt,
                v,
                t,
                j,
            ),
        forall|t: int, u: int|
            0 <= u <= t < t_len ==> #[trigger] dp(t, u) == cross(dy, v, d, t, u),
        forall|u: int, j: int|
            0 <= u < t_len && 0 <= j < d ==> #[trigger] dv(u, j) == future(att, dy, t_len, u, j),
    ensures
        total_by_rows(times(dy, my), t_len, d) == total_by_rows(times(dp, matt), t_len, t_len)
            + total_by_rows(times(dv, mv), t_len, d),
{
    let by_values = times(dy, |t: int, j: int| past(att, mv, t, j));
    let by_weights = times(dy, |t: int, j: int| past(matt, v, t, j));
    assert forall|t: int, j: int| 0 <= t < t_len && 0 <= j < d implies #[trigger] times(dy, my)(
        t,
        j,
    ) == by_values(t, j) + by_weights(t, j) by {
        let (x, y, z) = (dy(t, j), past(att, mv, t, j), past(matt, v, t, j));
        assert(my(t, j) == y + z);
        assert(x * (y + z) == x * y + x * z) by (nonlinear_arith);
    }
    lemma_rows_add(by_values, by_weights, times(dy, my), t_len, d);
    lemma_mix_values(dy, att, mv, t_len, d);
    lemma_mix_weights(dy, matt, v, dp, t_len, d);
    let full = times(|u: int, j: int| future(att, dy, t_len, u, j), mv);
    assert forall|u: int, j: int| 0 <= u < t_len && 0 <= j < d implies #[trigger] full(u, j)
        == times(dv, mv)(u, j) by {
        assert(dv(u, j) == future(att, dy, t_len, u, j));
    }
    lemma_rows_same(full, times(dv, mv), t_len, d);
}

/// How the score of key `u` for query `t` moves, by the product rule for
/// `scale * sum_j q[t, j] * k[u, j]`.
pub open spec fn score_moved(
    scale: real,
    q: spec_fn(int, int) -> real,
    mq: spec_fn(int, int) -> real,
    k: spec_fn(int, int) -> real,
    mk: spec_fn(int, int) -> real,
    d: nat,
    t: int,
    u: int,
) -> real {
    scale * (cross(mq, k, d, t, u) + cross(q, mk, d, t, u))
}

/// The scores, moved by the queries: the adjoint sums over the past.
proof fn lemma_scores_queries(
    ds: spec_fn(int, int) -> real,
    mq: spec_fn(int, int) -> real,
    k: spec_fn(int, int) -> real,
    t_len: nat,
    d: nat,
)
    requires
        causal(ds, t_len),
    ensures
        total_by_rows(times(ds, |t: int, u: int| cross(mq, k, d, t, u)), t_len, t_len)
            == total_by_rows(times(|t: int, j: int| past(ds, k, t, j), mq), t_len, d),
{
    let left = times(ds, |t: int, u: int| cross(mq, k, d, t, u));
    let right = times(|t: int, j: int| past(ds, k, t, j), mq);
    let (rl, rr) = (
        |t: int| total_of(row_terms(left, t), t_len),
        |t: int| total_of(row_terms(right, t), d),
    );
    assert forall|t: int| 0 <= t < t_len implies #[trigger] rl(t) == rr(t) by {
        let a = |u: int| ds(t, u);
        let b = |j: int| mq(t, j);
        lemma_transpose(a, k, b, t_len, d);
        let fa = |u: int| a(u) * applied(k, b, d)(u);
        assert forall|u: int| 0 <= u < t_len implies #[trigger] row_terms(left, t)(u) == fa(u) by {
            let (g, h) = (|j: int| mq(t, j) * k(u, j), |j: int| k(u, j) * b(j));
            assert forall|j: int| 0 <= j < d implies #[trigger] g(j) == h(j) by {
                let (x, y) = (mq(t, j), k(u, j));
                assert(x * y == y * x) by (nonlinear_arith);
            }
            lemma_total_same(g, h, d);
        }
        lemma_total_same(row_terms(left, t), fa, t_len);
        let fb = |j: int| applied_back(k, a, t_len)(j) * b(j);
        assert forall|j: int| 0 <= j < d implies #[trigger] row_terms(right, t)(j) == fb(j) by {
            lemma_past_full(ds, k, t_len, t, j);
            let (g, h) = (|u: int| ds(t, u) * k(u, j), |u: int| k(u, j) * a(u));
            assert forall|u: int| 0 <= u < t_len implies #[trigger] g(u) == h(u) by {
                let (x, y) = (ds(t, u), k(u, j));
                assert(x * y == y * x) by (nonlinear_arith);
            }
            lemma_total_same(g, h, t_len);
        }
        lemma_total_same(row_terms(right, t), fb, d);
    }
    lemma_total_same(rl, rr, t_len);
}

/// The scores, moved by the keys: the adjoint sums over the future.
proof fn lemma_scores_keys(
    ds: spec_fn(int, int) -> real,
    q: spec_fn(int, int) -> real,
    mk: spec_fn(int, int) -> real,
    t_len: nat,
    d: nat,
)
    requires
        causal(ds, t_len),
    ensures
        total_by_rows(times(ds, |t: int, u: int| cross(q, mk, d, t, u)), t_len, t_len)
            == total_by_rows(times(|u: int, j: int| future(ds, q, t_len, u, j), mk), t_len, d),
{
    let left = times(ds, |t: int, u: int| cross(q, mk, d, t, u));
    let right = times(|u: int, j: int| future(ds, q, t_len, u, j), mk);
    lemma_total_swap(left, t_len, t_len);
    let (cl, rr) = (
        |u: int| total_of(column_terms(left, u), t_len),
        |u: int| total_of(row_terms(right, u), d),
    );
    assert forall|u: int| 0 <= u < t_len implies #[trigger] cl(u) == rr(u) by {
        let a = |t: int| ds(t, u);
        let b = |j: int| mk(u, j);
        lemma_transpose(a, q, b, t_len, d);
        let fa = |t: int| a(t) * applied(q, b, d)(t);
        assert forall|t: int| 0 <= t < t_len implies #[trigger] column_terms(left, u)(t) == fa(
            t,
        ) by {
            lemma_total_same(|j: int| q(t, j) * mk(u, j), |j: int| q(t, j) * b(j), d);
        }
        lemma_total_same(column_terms(left, u), fa, t_len);
        let fb = |j: int| applied_back(q, a, t_len)(j) * b(j);
        assert forall|j: int| 0 <= j < d implies #[trigger] row_terms(right, u)(j) == fb(j) by {
            lemma_future_full(ds, q, t_len, u, j);
            let (g, h) = (|t: int| ds(t, u) * q(t, j), |t: int| q(t, j) * a(t));
            assert forall|t: int| 0 <= t < t_len implies #[trigger] g(t) == h(t) by {
                let (x, y) = (ds(t, u), q(t, j));
                assert(x * y == y * x) by (nonlinear_arith);
            }
            lemma_total_same(g, h, t_len);
        }
        lemma_total_same(row_terms(right, u), fb, d);
    }
    lemma_total_same(cl, rr, t_len);
}

/// A common factor of a double sum.
proof fn lemma_rows_scale(
    c: real,
    f: spec_fn(int, int) -> real,
    h: spec_fn(int, int) -> real,
    m: nat,
    n: nat,
)
    requires
        forall|i: int, j: int| 0 <= i < m && 0 <= j < n ==> #[trigger] h(i, j) == c * f(i, j),
    ensures
        total_by_rows(h, m, n) == c * total_by_rows(f, m, n),
{
    let (a, b) = (|i: int| total_of(row_terms(f, i), n), |i: int| total_of(row_terms(h, i), n));
    assert forall|i: int| 0 <= i < m implies #[trigger] b(i) == c * a(i) by {
        assert forall|j: int| 0 <= j < n implies #[trigger] row_terms(h, i)(j) == c * row_terms(
            f,
            i,
        )(j) by {
            assert(h(i, j) == c * f(i, j));
        }
        lemma_total_scale(c, row_terms(f, i), row_terms(h, i), n);
    }
    lemma_total_scale(c, a, b, m);
}

/// The backward pass of the scores is their adjoint.
pub proof fn lemma_scores_block(
    ds: spec_fn(int, int) -> real,
    ms: spec_fn(int, int) -> real,
    scale: real,
    q: spec_fn(int, int) -> real,
    mq: spec_fn(int, int) -> real,
    k: spec_fn(int, int) -> real,
    mk: spec_fn(int, int) -> real,
    dq: spec_fn(int, int) -> real,
    dk: spec_fn(int, int) -> real,
    t_len: nat,
    d: nat,
)
    requires
        causal(ds, t_len),
        forall|t: int, u: int|
            0 <= t < t_len && 0 <= u < t_len ==> #[trigger] ms(t, u) == score_moved(
                scale,
                q,
                mq,
                k,
                mk,
                d,
                t,
                u,
            ),
        forall|t: int, j: int|
            0 <= t < t_len && 0 <= j < d ==> #[trigger] dq(t, j) == past(ds, k, t, j) * scale,
        forall|u: int, j: int|
            0 <= u < t_len && 0 <= j < d ==> #[trigger] dk(u, j) == future(ds, q, t_len, u, j)
                * scale,
    ensures
        total_by_rows(times(ds, ms), t_len, t_len) == total_by_rows(times(dq, mq), t_len, d)
            + total_by_rows(times(dk, mk), t_len, d),
{
    let by_q = times(ds, |t: int, u: int| cross(mq, k, d, t, u));
    let by_k = times(ds, |t: int, u: int| cross(q, mk, d, t, u));
    let (sq, sk) = (|t: int, u: int| scale * by_q(t, u), |t: int, u: int| scale * by_k(t, u));
    assert forall|t: int, u: int| 0 <= t < t_len && 0 <= u < t_len implies #[trigger] times(ds, ms)(
        t,
        u,
    ) == sq(t, u) + sk(t, u) by {
        let (x, y, z) = (ds(t, u), cross(mq, k, d, t, u), cross(q, mk, d, t, u));
        assert(ms(t, u) == scale * (y + z));
        assert(x * (scale * (y + z)) == scale * (x * y) + scale * (x * z)) by (nonlinear_arith);
    }
    lemma_rows_add(sq, sk, times(ds, ms), t_len, t_len);
    lemma_rows_scale(scale, by_q, sq, t_len, t_len);
    lemma_rows_scale(scale, by_k, sk, t_len, t_len);
    lemma_scores_queries(ds, mq, k, t_len, d);
    lemma_scores_keys(ds, q, mk, t_len, d);
    let back_q = times(|t: int, j: int| past(ds, k, t, j), mq);
    let back_k = times(|u: int, j: int| future(ds, q, t_len, u, j), mk);
    assert forall|t: int, j: int| 0 <= t < t_len && 0 <= j < d implies #[trigger] times(dq, mq)(
        t,
        j,
    ) == scale * back_q(t, j) by {
        let (x, y) = (past(ds, k, t, j), mq(t, j));
        assert(dq(t, j) == x * scale);
        assert(x * scale * y == scale * (x * y)) by (nonlinear_arith);
    }
    lemma_rows_scale(scale, back_q, times(dq, mq), t_len, d);
    assert forall|u: int, j: int| 0 <= u < t_len && 0 <= j < d implies #[trigger] times(dk, mk)(
        u,
        j,
    ) == scale * back_k(u, j) by {
        let (x, y) = (future(ds, q, t_len, u, j), mk(u, j));
        assert(dk(u, j) == x * scale);
        assert(x * scale * y == scale * (x * y)) by (nonlinear_arith);
    }
    lemma_rows_scale(scale, back_k, times(dk, mk), t_len, d);
}

/// How the weight of `u` in row `t` moves: `p_u * (s'_u - sum_v p_v s'_v)` for the scores
/// `s` of the row, and not at all above the diagonal.
pub open spec fn weight_moved(
    att: spec_fn(int, int) -> real,
    ms: spec_fn(int, int) -> real,
    t: int,
    u: int,
) -> real {
    if u <= t {
        att(t, u) * (ms(t, u) - total_of(|v: int| att(t, v) * ms(t, v), (t + 1) as nat))
    } else {
        0 as real
    }
}

/// The backward pass of the softmax is its adjoint.
pub proof fn lemma_softmax_block(
    dp: spec_fn(int, int) -> real,
    matt: spec_fn(int, int) -> real,
    att: spec_fn(int, int) -> real,
    ms: spec_fn(int, int) -> real,
    ds: spec_fn(int, int) -> real,
    t_len: nat,
)
    requires
        forall|t: int, u: int|
            0 <= t < t_len && 0 <= u < t_len ==> #[trigger] matt(t, u) == weight_moved(
                att,
                ms,
                t,
                u,
            ),
        forall|t: int, u: int|
            0 <= t < t_len && 0 <= u < t_len ==> #[trigger] ds(t, u) == weight_moved(att, dp, t, u),
    ensures
        total_by_rows(times(dp, matt), t_len, t_len) == total_by_rows(times(ds, ms), t_len, t_len),
{
    let (left, right) = (times(dp, matt), times(ds, ms));
    let (rl, rr) = (
        |t: int| total_of(row_terms(left, t), t_len),
        |t: int| total_of(row_terms(right, t), t_len),
    );
    assert forall|t: int| 0 <= t < t_len implies #[trigger] rl(t) == rr(t) by {
        let n = (t + 1) as nat;
        let (along, down) = (|v: int| att(t, v) * ms(t, v), |v: int| att(t, v) * dp(t, v));
        let (a, b) = (total_of(along, n), total_of(down, n));
        let core = |u: int| att(t, u) * dp(t, u) * ms(t, u);
        let (minus_down, minus_along) = (|u: int| (-a) * down(u), |u: int| (-b) * along(u));
        assert forall|u: int| 0 <= u < n implies #[trigger] row_terms(left, t)(u) == core(u)
            + minus_down(u) by {
            let (p, x, y) = (att(t, u), dp(t, u), ms(t, u));
            assert(matt(t, u) == p * (y - a));
            assert(x * (p * (y - a)) == p * x * y + (-a) * (p * x)) by (nonlinear_arith);
        }
        lemma_total_add(core, minus_down, row_terms(left, t), n);
        lemma_total_scale(-a, down, minus_down, n);
        assert forall|u: int| 0 <= u < n implies #[trigger] row_terms(right, t)(u) == core(u)
            + minus_along(u) by {
            let (p, x, y) = (att(t, u), dp(t, u), ms(t, u));
            assert(ds(t, u) == p * (x - b));
            assert(p * (x - b) * y == p * x * y + (-b) * (p * y)) by (nonlinear_arith);
        }
        lemma_total_add(core, minus_along, row_terms(right, t), n);
        lemma_total_scale(-b, along, minus_along, n);
        assert((-a) * b == (-b) * a) by (nonlinear_arith);
        assert forall|u: int| n <= u < t_len implies #[trigger] row_terms(left, t)(u)
            == 0 as real by {
            assert(matt(t, u) == 0 as real);
            let x = dp(t, u);
            assert(x * (0 as real) == 0 as real) by (nonlinear_arith);
        }
        lemma_total_tail(row_terms(left, t), n, t_len);
        assert forall|u: int| n <= u < t_len implies #[trigger] row_terms(right, t)(u)
            == 0 as real by {
            assert(ds(t, u) == 0 as real);
            let x = ms(t, u);
            assert((0 as real) * x == 0 as real) by (nonlinear_arith);
        }
        lemma_total_tail(row_terms(right, t), n, t_len);
    }
    lemma_total_same(rl, rr, t_len);
}

} // verus!
