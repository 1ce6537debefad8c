//! What a backward pass adds to the gradients, in exact arithmetic. It depends on the rows
//! that are live, that is on those that the loss looks at and on what they look back to:
//! through the other rows only zeros flow.
use vstd::prelude::*;

use crate::agree::{entry, looks_back, rows_agree, seen_weights};
use crate::attention::{
    is_attn_mix, is_attn_mix_bwd_dp, is_attn_scores_bwd, is_attn_softmax_bwd, Heads, Side,
};
use crate::exact::{
    applied_back, exact, inner, lemma_cancel, lemma_inner_same, lemma_quotient, lemma_total_same,
    lemma_total_zero, total_of,
};
use crate::index::{lemma_pair, lemma_row_inside, lemma_unpair, lemma_whole_rows};
use crate::loss::{ce_bwd_row, is_ce_bwd, is_ce_grad};
use crate::matmul::{is_linear_bwd, is_matmul_nn};
use crate::motion::{lemma_linear_bwd_entry, lemma_matmul_nn_entry, matrix_nums, row_nums};
use crate::motion_attention::{
    head_nums, is_score_factor, lemma_dp_exact, lemma_dqk_exact, lemma_ds_exact, lemma_dv_exact,
    lemma_places, lemma_weight_places, one_sided, weight_nums,
};
use crate::motion_blocks::{cross, future, past, weight_moved};
use crate::motion_norm::lemma_norm_bwd_exact;
use crate::norm::is_norm_bwd;
use crate::pointwise::{is_add_inplace, is_relu_bwd, is_relu_grad};
use crate::rows::row_of;
use crate::scalar::{is_diff, is_num, is_one, is_quot, is_sum, is_zero, Scalar};

verus! {

/// Two gradients of `m` rows of `n` numbers are the same numbers, and zero in the rows that
/// are not live.
pub open spec fn flows_alike<S>(
    val: spec_fn(S) -> real,
    live: spec_fn(int) -> bool,
    x: Seq<S>,
    y: Seq<S>,
    m: nat,
    n: nat,
) -> bool {
    forall|r: int, j: int|
        0 <= r < m && 0 <= j < n ==> val(#[trigger] entry(x, n, r, j)) == val(entry(y, n, r, j))
            && (!live(r) ==> val(entry(x, n, r, j)) == 0 as real)
}

/// The same for gradients of attention weights.
pub open spec fn weights_alike<S>(
    val: spec_fn(S) -> real,
    live: spec_fn(int) -> bool,
    hs: Heads,
    x: Seq<S>,
    y: Seq<S>,
) -> bool {
    forall|b: int, h: int, t: int, u: int|
        0 <= b < hs.b_n && 0 <= h < hs.h_n && 0 <= t < hs.t_len && 0 <= u < hs.t_len
            ==> #[trigger] weight_nums(val, x, hs, b, h)(t, u) == weight_nums(val, y, hs, b, h)(t, u)
            && (!live(hs.position(b, t)) ==> weight_nums(val, x, hs, b, h)(t, u) == 0 as real)
}

/// A sum of products in which one factor is zero.
proof fn lemma_zero_products(a: spec_fn(int) -> real, b: spec_fn(int) -> real, n: nat)
    requires
        forall|i: int|
            #![trigger a(i)]
            #![trigger b(i)]
            0 <= i < n ==> a(i) == 0 as real || b(i) == 0 as real,
    ensures
        total_of(|i: int| a(i) * b(i), n) == 0 as real,
{
    let f = |i: int| a(i) * b(i);
    assert forall|i: int| 0 <= i < n implies #[trigger] f(i) == 0 as real by {
        let (x, y) = (a(i), b(i));
        assert(x == 0 as real || y == 0 as real);
        assert(x * y == 0 as real) by (nonlinear_arith)
            requires
                x == 0 as real || y == 0 as real,
        ;
    }
    lemma_total_zero(f, n);
}

/// Sums of products that are the same, term by term: a factor of both terms is zero, or both
/// factors are the same.
proof fn lemma_same_products(
    a: spec_fn(int) -> real,
    b: spec_fn(int) -> real,
    c: spec_fn(int) -> real,
    d: spec_fn(int) -> real,
    n: nat,
)
    requires
        forall|i: int|
            #![trigger a(i)]
            #![trigger c(i)]
            0 <= i < n ==> a(i) == c(i) && (b(i) == d(i) || a(i) == 0 as real),
    ensures
        total_of(|i: int| a(i) * b(i), n) == total_of(|i: int| c(i) * d(i), n),
{
    let (f, g) = (|i: int| a(i) * b(i), |i: int| c(i) * d(i));
    assert forall|i: int| 0 <= i < n implies #[trigger] f(i) == g(i) by {
        let (x, y, z) = (a(i), b(i), d(i));
        assert(x == c(i));
        if y != z {
            assert(x * y == 0 as real && x * z == 0 as real) by (nonlinear_arith)
                requires
                    x == 0 as real,
            ;
        }
    }
    lemma_total_same(f, g, n);
}

/// The gradient of the logits.
pub proof fn lemma_ce_alike<S: Scalar>(
    val: spec_fn(S) -> real,
    live: spec_fn(int) -> bool,
    d: Seq<S>,
    e: Seq<S>,
    probs: Seq<S>,
    others: Seq<S>,
    targets: Seq<i32>,
    m: nat,
    vocab: nat,
    valid: nat,
)
    requires
        exact(val),
        vocab > 0,
        valid <= u64::MAX,
        d.len() == m * vocab,
        e.len() == m * vocab,
        probs.len() == m * vocab,
        others.len() == m * vocab,
        is_ce_bwd(d, probs, targets, vocab, valid),
        is_ce_bwd(e, others, targets, vocab, valid),
        forall|r: int| 0 <= r < m && #[trigger] targets[r] >= 0 ==> live(r) && valid > 0,
        forall|r: int|
            0 <= r < m && targets[r] >= 0 ==> #[trigger] row_of(probs, vocab, r) == row_of(
                others,
                vocab,
                r,
            ),
    ensures
        flows_alike(val, live, d, e, m, vocab),
{
    lemma_whole_rows(m as int, vocab as int);
    assert forall|r: int, j: int| 0 <= r < m && 0 <= j < vocab implies val(
        #[trigger] entry(d, vocab, r, j),
    ) == val(entry(e, vocab, r, j)) && (!live(r) ==> val(entry(d, vocab, r, j))
        == 0 as real) by {
        lemma_row_inside(r, m as int, vocab as int);
        let (a, b) = (row_of(d, vocab, r), row_of(e, vocab, r));
        assert(ce_bwd_row(probs, targets, valid, r, a));
        assert(ce_bwd_row(others, targets, valid, r, b));
        if targets[r] < 0 {
            assert(is_zero(a[j]) && is_zero(b[j]));
        } else {
            let hit = j == targets[r];
            let (p, q) = (probs[r * vocab + j], others[r * vocab + j]);
            assert(row_of(probs, vocab, r)[j] == p && row_of(others, vocab, r)[j] == q);
            lemma_ce_grad_exact(val, p, hit, valid, a[j]);
            lemma_ce_grad_exact(val, p, hit, valid, b[j]);
            lemma_cancel(val(a[j]), val(b[j]), valid as real);
        }
    }
}

/// One number of the gradient of the logits.
proof fn lemma_ce_grad_exact<S: Scalar>(
    val: spec_fn(S) -> real,
    p: S,
    hit: bool,
    valid: nat,
    r: S,
)
    requires
        exact(val),
        0 < valid <= u64::MAX,
        is_ce_grad(p, hit, valid, r),
    ensures
        val(r) * valid as real == val(p) - if hit {
            1 as real
        } else {
            0 as real
        },
{
    let (one, diff, count) = choose|one: S, diff: S, count: S|
        #![trigger is_diff(p, one, diff), is_quot(diff, count, r)]
        (if hit {
            is_one(one)
        } else {
            is_zero(one)
        }) && is_diff(p, one, diff) && is_num(valid as u64, count) && is_quot(diff, count, r);
    lemma_quotient(val(diff), valid as real);
}

/// Through a product with a matrix.
pub proof fn lemma_linear_alike<S: Scalar>(
    val: spec_fn(S) -> real,
    live: spec_fn(int) -> bool,
    dx: Seq<S>,
    ex: Seq<S>,
    dy: Seq<S>,
    ey: Seq<S>,
    w: Seq<S>,
    m: nat,
    n: nat,
    k: nat,
)
    requires
        exact(val),
        k > 0,
        dx.len() == m * k,
        ex.len() == m * k,
        is_linear_bwd(dx, dy, w, k, n),
        is_linear_bwd(ex, ey, w, k, n),
        flows_alike(val, live, dy, ey, m, n),
    ensures
        flows_alike(val, live, dx, ex, m, k),
{
    assert forall|r: int, p: int| 0 <= r < m && 0 <= p < k implies val(
        #[trigger] entry(dx, k, r, p),
    ) == val(entry(ex, k, r, p)) && (!live(r) ==> val(entry(dx, k, r, p)) == 0 as real) by {
        lemma_linear_bwd_entry(val, dx, dy, w, m, n, k, r, p);
        lemma_linear_bwd_entry(val, ex, ey, w, m, n, k, r, p);
        lemma_row_alike(val, live, dy, ey, w, m, n, k, r, p);
    }
}

/// The product of a row with a column of a matrix.
proof fn lemma_row_alike<S: Scalar>(
    val: spec_fn(S) -> real,
    live: spec_fn(int) -> bool,
    dy: Seq<S>,
    ey: Seq<S>,
    w: Seq<S>,
    m: nat,
    n: nat,
    k: nat,
    r: int,
    p: int,
)
    requires
        flows_alike(val, live, dy, ey, m, n),
        0 <= r < m,
        0 <= p < k,
    ensures
        applied_back(matrix_nums(val, w, k), row_nums(val, dy, n, r), n)(p) == applied_back(
            matrix_nums(val, w, k),
            row_nums(val, ey, n, r),
            n,
        )(p),
        !live(r) ==> applied_back(matrix_nums(val, w, k), row_nums(val, dy, n, r), n)(p)
            == 0 as real,
{
    let mw = matrix_nums(val, w, k);
    let (a, b) = (row_nums(val, dy, n, r), row_nums(val, ey, n, r));
    let (f, g) = (|i: int| mw(i, p) * a(i), |i: int| mw(i, p) * b(i));
    assert forall|i: int| 0 <= i < n implies #[trigger] f(i) == g(i) && (!live(r) ==> f(i)
        == 0 as real) by {
        assert(val(entry(dy, n, r, i)) == val(entry(ey, n, r, i)));
        if !live(r) {
            let x = mw(i, p);
            assert(x * (0 as real) == 0 as real) by (nonlinear_arith);
        }
    }
    lemma_total_same(f, g, n);
    if !live(r) {
        lemma_total_zero(f, n);
    }
}

/// Through a product that is added to what is there.
pub proof fn lemma_added_alike<S: Scalar>(
    val: spec_fn(S) -> real,
    live: spec_fn(int) -> bool,
    before: Seq<S>,
    other: Seq<S>,
    dx: Seq<S>,
    ex: Seq<S>,
    dy: Seq<S>,
    ey: Seq<S>,
    w: Seq<S>,
    m: nat,
    n: nat,
    k: nat,
)
    requires
        exact(val),
        k > 0,
        dx.len() == m * k,
        ex.len() == m * k,
        is_matmul_nn(before, dx, dy, w, k, n, true),
        is_matmul_nn(other, ex, ey, w, k, n, true),
        flows_alike(val, live, before, other, m, k),
        flows_alike(val, live, dy, ey, m, n),
    ensures
        flows_alike(val, live, dx, ex, m, k),
{
    assert forall|r: int, p: int| 0 <= r < m && 0 <= p < k implies val(
        #[trigger] entry(dx, k, r, p),
    ) == val(entry(ex, k, r, p)) && (!live(r) ==> val(entry(dx, k, r, p)) == 0 as real) by {
        lemma_matmul_nn_entry(val, before, dx, dy, w, m, n, k, r, p);
        lemma_matmul_nn_entry(val, other, ex, ey, w, m, n, k, r, p);
        lemma_row_alike(val, live, dy, ey, w, m, n, k, r, p);
        assert(val(entry(before, k, r, p)) == val(entry(other, k, r, p)));
    }
}

/// Through the cut-off.
pub proof fn lemma_relu_alike<S: Scalar>(
    val: spec_fn(S) -> real,
    live: spec_fn(int) -> bool,
    before: Seq<S>,
    other: Seq<S>,
    after: Seq<S>,
    again: Seq<S>,
    x: Seq<S>,
    y: Seq<S>,
    m: nat,
    n: nat,
)
    requires
        exact(val),
        before.len() == m * n,
        other.len() == m * n,
        is_relu_bwd(before, after, x),
        is_relu_bwd(other, again, y),
        rows_agree(x, y, m, n, live),
        flows_alike(val, live, before, other, m, n),
    ensures
        flows_alike(val, live, after, again, m, n),
{
    assert forall|r: int, j: int| 0 <= r < m && 0 <= j < n implies val(
        #[trigger] entry(after, n, r, j),
    ) == val(entry(again, n, r, j)) && (!live(r) ==> val(entry(after, n, r, j)) == 0 as real) by {
        lemma_pair(r, m as int, j, n as int);
        let i = r * n + j;
        assert(val(entry(before, n, r, j)) == val(entry(other, n, r, j)));
        assert(is_relu_grad(x[i], before[i], after[i]));
        assert(is_relu_grad(y[i], other[i], again[i]));
        if live(r) {
            assert(entry(x, n, r, j) == entry(y, n, r, j));
        }
    }
}

/// Through a residual connection.
pub proof fn lemma_add_alike<S: Scalar>(
    val: spec_fn(S) -> real,
    live: spec_fn(int) -> bool,
    before: Seq<S>,
    other: Seq<S>,
    after: Seq<S>,
    again: Seq<S>,
    x: Seq<S>,
    y: Seq<S>,
    m: nat,
    n: nat,
)
    requires
        exact(val),
        before.len() == m * n,
        other.len() == m * n,
        is_add_inplace(before, after, x),
        is_add_inplace(other, again, y),
        flows_alike(val, live, before, other, m, n),
        flows_alike(val, live, x, y, m, n),
    ensures
        flows_alike(val, live, after, again, m, n),
{
    assert forall|r: int, j: int| 0 <= r < m && 0 <= j < n implies val(
        #[trigger] entry(after, n, r, j),
    ) == val(entry(again, n, r, j)) && (!live(r) ==> val(entry(after, n, r, j)) == 0 as real) by {
        lemma_pair(r, m as int, j, n as int);
        let i = r * n + j;
        assert(val(entry(before, n, r, j)) == val(entry(other, n, r, j)));
        assert(val(entry(x, n, r, j)) == val(entry(y, n, r, j)));
        assert(is_sum(before[i], x[i], after[i]));
        assert(is_sum(other[i], y[i], again[i]));
    }
}

/// Through the normalization.
pub proof fn lemma_norm_alike<S: Scalar>(
    val: spec_fn(S) -> real,
    live: spec_fn(int) -> bool,
    dx: Seq<S>,
    ex: Seq<S>,
    x: Seq<S>,
    y: Seq<S>,
    rx: Seq<S>,
    ry: Seq<S>,
    dy: Seq<S>,
    ey: Seq<S>,
    m: nat,
    c: nat,
)
    requires
        exact(val),
        0 < c <= u64::MAX,
        dx.len() == m * c,
        ex.len() == m * c,
        is_norm_bwd(dx, x, rx, dy, c),
        is_norm_bwd(ex, y, ry, ey, c),
        rows_agree(x, y, m, c, live),
        forall|r: int| 0 <= r < m && live(r) ==> #[trigger] rx[r] == ry[r],
        flows_alike(val, live, dy, ey, m, c),
    ensures
        flows_alike(val, live, dx, ex, m, c),
{
    assert forall|t: int, j: int| 0 <= t < m && 0 <= j < c implies val(
        #[trigger] entry(dx, c, t, j),
    ) == val(entry(ex, c, t, j)) && (!live(t) ==> val(entry(dx, c, t, j)) == 0 as real) by {
        let k = lemma_norm_bwd_exact(val, dx, x, rx, dy, m, c, t);
        let l = lemma_norm_bwd_exact(val, ex, y, ry, ey, m, c, t);
        let (a, b) = (row_nums(val, dy, c, t), row_nums(val, ey, c, t));
        let (f, g) = (row_nums(val, x, c, t), row_nums(val, y, c, t));
        let n = c as real;
        assert(row_nums(val, dx, c, t)(j) == val(rx[t]) * a(j) - k * f(j));
        assert(row_nums(val, ex, c, t)(j) == val(ry[t]) * b(j) - l * g(j));
        assert forall|i: int| 0 <= i < c implies #[trigger] a(i) == b(i) by {
            assert(val(entry(dy, c, t, i)) == val(entry(ey, c, t, i)));
        }
        if live(t) {
            assert forall|i: int| 0 <= i < c implies #[trigger] f(i) == g(i) by {
                assert(entry(x, c, t, i) == entry(y, c, t, i));
            }
            lemma_inner_same(a, f, b, g, c);
            assert(rx[t] == ry[t]);
            lemma_cancel(k, l, n);
            assert(a(j) == b(j) && f(j) == g(j));
        } else {
            assert forall|i: int| 0 <= i < c implies #[trigger] a(i) == 0 as real && b(i)
                == 0 as real by {
                assert(val(entry(dy, c, t, i)) == val(entry(ey, c, t, i)));
            }
            assert forall|i: int| 0 <= i < c implies #[trigger] b(i) == 0 as real by {
                assert(a(i) == 0 as real);
            }
            lemma_zero_products(a, f, c);
            lemma_zero_products(b, g, c);
            lemma_nothing_pulled(val(rx[t]), inner(a, f, c), k, n, a(j), f(j));
            lemma_nothing_pulled(val(ry[t]), inner(b, g, c), l, n, b(j), g(j));
            assert(a(j) == 0 as real && b(j) == 0 as real);
        }
    }
}

/// A gradient of zero stays zero through the normalization.
proof fn lemma_nothing_pulled(r: real, along: real, k: real, n: real, a: real, x: real)
    requires
        n > 0 as real,
        along == 0 as real,
        a == 0 as real,
        k * n == r * r * r * along,
    ensures
        r * a - k * x == 0 as real,
{
    let cube = r * r * r;
    assert(cube * (0 as real) == 0 as real) by (nonlinear_arith);
    assert((0 as real) * n == 0 as real) by (nonlinear_arith);
    lemma_cancel(k, 0 as real, n);
    assert(r * (0 as real) == 0 as real && (0 as real) * x == 0 as real) by (nonlinear_arith);
}

/// The numbers of one head of gradients that are alike.
proof fn lemma_head_alike<S: Scalar>(
    val: spec_fn(S) -> real,
    live: spec_fn(int) -> bool,
    hs: Heads,
    x: Seq<S>,
    y: Seq<S>,
    b: int,
    h: int,
    t: int,
    j: int,
)
    requires
        flows_alike(val, live, x, y, hs.positions() as nat, hs.width() as nat),
        0 <= b < hs.b_n,
        0 <= h < hs.h_n,
        0 <= t < hs.t_len,
        0 <= j < hs.d,
    ensures
        head_nums(val, x, hs, b, h)(t, j) == head_nums(val, y, hs, b, h)(t, j),
        !live(hs.position(b, t)) ==> head_nums(val, x, hs, b, h)(t, j) == 0 as real,
{
    lemma_places(hs, b, h, t, j);
    let (r, col, c) = (hs.position(b, t), h * hs.d + j, hs.width() as nat);
    assert(val(entry(x, c, r, col)) == val(entry(y, c, r, col)));
}

/// The numbers of one head of activations that agree in the live rows.
proof fn lemma_head_agrees<S: Scalar>(
    val: spec_fn(S) -> real,
    live: spec_fn(int) -> bool,
    hs: Heads,
    x: Seq<S>,
    y: Seq<S>,
    b: int,
    h: int,
    t: int,
    j: int,
)
    requires
        rows_agree(x, y, hs.positions() as nat, hs.width() as nat, live),
        0 <= b < hs.b_n,
        0 <= h < hs.h_n,
        0 <= t < hs.t_len,
        0 <= j < hs.d,
        live(hs.position(b, t)),
    ensures
        head_nums(val, x, hs, b, h)(t, j) == head_nums(val, y, hs, b, h)(t, j),
{
    lemma_places(hs, b, h, t, j);
    let (r, col, c) = (hs.position(b, t), h * hs.d + j, hs.width() as nat);
    assert(entry(x, c, r, col) == entry(y, c, r, col));
}

/// Attention weights that agree in the live rows.
proof fn lemma_weight_agrees<S: Scalar>(
    val: spec_fn(S) -> real,
    live: spec_fn(int) -> bool,
    hs: Heads,
    x: Seq<S>,
    y: Seq<S>,
    b: int,
    h: int,
    t: int,
    u: int,
)
    requires
        rows_agree(x, y, hs.weight_rows() as nat, hs.t_len as nat, seen_weights(hs, live)),
        0 <= b < hs.b_n,
        0 <= h < hs.h_n,
        0 <= t < hs.t_len,
        0 <= u < hs.t_len,
        live(hs.position(b, t)),
    ensures
        weight_nums(val, x, hs, b, h)(t, u) == weight_nums(val, y, hs, b, h)(t, u),
{
    lemma_weight_places(hs, b, h, t);
    let (i, n) = (hs.weight_row(b, h, t), hs.t_len as nat);
    assert(seen_weights(hs, live)(i));
    assert(entry(x, n, i, u) == entry(y, n, i, u));
}

/// Gradients whose heads are alike are alike.
proof fn lemma_from_heads<S: Scalar>(
    val: spec_fn(S) -> real,
    live: spec_fn(int) -> bool,
    hs: Heads,
    x: Seq<S>,
    y: Seq<S>,
)
    requires
        hs.d > 0,
        hs.t_len > 0,
        forall|b: int, h: int, t: int, j: int|
            0 <= b < hs.b_n && 0 <= h < hs.h_n && 0 <= t < hs.t_len && 0 <= j < hs.d
                ==> #[trigger] head_nums(val, x, hs, b, h)(t, j) == head_nums(val, y, hs, b, h)(
                t,
                j,
            ) && (!live(hs.position(b, t)) ==> head_nums(val, x, hs, b, h)(t, j) == 0 as real),
    ensures
        flows_alike(val, live, x, y, hs.positions() as nat, hs.width() as nat),
{
    let c = hs.width() as nat;
    assert forall|r: int, col: int| 0 <= r < hs.positions() && 0 <= col < c implies val(
        #[trigger] entry(x, c, r, col),
    ) == val(entry(y, c, r, col)) && (!live(r) ==> val(entry(x, c, r, col)) == 0 as real) by {
        lemma_unpair(r, hs.b_n as int, hs.t_len as int);
        lemma_unpair(col, hs.h_n as int, hs.d as int);
        let (b, t) = (r / hs.t_len as int, r % hs.t_len as int);
        let (h, j) = (col / hs.d as int, col % hs.d as int);
        lemma_places(hs, b, h, t, j);
        assert(hs.position(b, t) == r);
        assert(head_nums(val, x, hs, b, h)(t, j) == val(entry(x, c, r, col)));
        assert(head_nums(val, y, hs, b, h)(t, j) == val(entry(y, c, r, col)));
    }
}

/// To the attention weights.
pub proof fn lemma_dp_alike<S: Scalar>(
    val: spec_fn(S) -> real,
    live: spec_fn(int) -> bool,
    hs: Heads,
    dp: Seq<S>,
    ep: Seq<S>,
    dy: Seq<S>,
    ey: Seq<S>,
    v: Seq<S>,
    w: Seq<S>,
)
    requires
        exact(val),
        dp.len() == hs.weight_rows() * hs.t_len,
        ep.len() == hs.weight_rows() * hs.t_len,
        is_attn_mix_bwd_dp(hs, dp, dy, v),
        is_attn_mix_bwd_dp(hs, ep, ey, w),
        looks_back(hs, live),
        rows_agree(v, w, hs.positions() as nat, hs.width() as nat, live),
        flows_alike(val, live, dy, ey, hs.positions() as nat, hs.width() as nat),
    ensures
        weights_alike(val, live, hs, dp, ep),
{
    assert forall|b: int, h: int, t: int, u: int|
        0 <= b < hs.b_n && 0 <= h < hs.h_n && 0 <= t < hs.t_len && 0 <= u
            < hs.t_len implies #[trigger] weight_nums(val, dp, hs, b, h)(t, u) == weight_nums(
        val,
        ep,
        hs,
        b,
        h,
    )(t, u) && (!live(hs.position(b, t)) ==> weight_nums(val, dp, hs, b, h)(t, u)
        == 0 as real) by {
        lemma_dp_exact(val, hs, dp, dy, v, b, h);
        lemma_dp_exact(val, hs, ep, ey, w, b, h);
        let (p, q) = (weight_nums(val, dp, hs, b, h), weight_nums(val, ep, hs, b, h));
        if u <= t {
            let (a, e) = (head_nums(val, dy, hs, b, h), head_nums(val, ey, hs, b, h));
            let (f, g) = (head_nums(val, v, hs, b, h), head_nums(val, w, hs, b, h));
            let d = hs.d as nat;
            assert(p(t, u) == cross(a, f, d, t, u) && q(t, u) == cross(e, g, d, t, u));
            let (a1, e1) = (|j: int| a(t, j), |j: int| e(t, j));
            let (f1, g1) = (|j: int| f(u, j), |j: int| g(u, j));
            assert forall|j: int| 0 <= j < d implies #[trigger] a1(j) == e1(j) && (f1(j) == g1(j)
                || a1(j) == 0 as real) by {
                lemma_head_alike(val, live, hs, dy, ey, b, h, t, j);
                if live(hs.position(b, t)) {
                    assert(live(hs.position(b, u)));
                    lemma_head_agrees(val, live, hs, v, w, b, h, u, j);
                }
            }
            assert forall|j: int| 0 <= j < d implies a1(j) == #[trigger] e1(j) && (f1(j) == g1(j)
                || a1(j) == 0 as real) by {
                assert(a1(j) == e1(j));
            }
            lemma_same_products(a1, f1, e1, g1, d);
            lemma_total_same(|j: int| a1(j) * f1(j), |j: int| a(t, j) * f(u, j), d);
            lemma_total_same(|j: int| e1(j) * g1(j), |j: int| e(t, j) * g(u, j), d);
            if !live(hs.position(b, t)) {
                assert forall|j: int| 0 <= j < d implies #[trigger] a1(j) == 0 as real by {
                    lemma_head_alike(val, live, hs, dy, ey, b, h, t, j);
                }
                assert forall|j: int| 0 <= j < d implies a1(j) == 0 as real || #[trigger] f1(j)
                    == 0 as real by {
                    assert(a1(j) == 0 as real);
                }
                lemma_zero_products(a1, f1, d);
            }
        }
    }
}

/// From the attention weights to the scores.
pub proof fn lemma_ds_alike<S: Scalar>(
    val: spec_fn(S) -> real,
    live: spec_fn(int) -> bool,
    hs: Heads,
    ds: Seq<S>,
    es: Seq<S>,
    att: Seq<S>,
    btt: Seq<S>,
    dp: Seq<S>,
    ep: Seq<S>,
)
    requires
        exact(val),
        ds.len() == hs.weight_rows() * hs.t_len,
        es.len() == hs.weight_rows() * hs.t_len,
        is_attn_softmax_bwd(ds, att, dp, hs.t_len as nat),
        is_attn_softmax_bwd(es, btt, ep, hs.t_len as nat),
        rows_agree(att, btt, hs.weight_rows() as nat, hs.t_len as nat, seen_weights(hs, live)),
        weights_alike(val, live, hs, dp, ep),
    ensures
        weights_alike(val, live, hs, ds, es),
{
    assert forall|b: int, h: int, t: int, u: int|
        0 <= b < hs.b_n && 0 <= h < hs.h_n && 0 <= t < hs.t_len && 0 <= u
            < hs.t_len implies #[trigger] weight_nums(val, ds, hs, b, h)(t, u) == weight_nums(
        val,
        es,
        hs,
        b,
        h,
    )(t, u) && (!live(hs.position(b, t)) ==> weight_nums(val, ds, hs, b, h)(t, u)
        == 0 as real) by {
        lemma_ds_exact(val, hs, ds, att, dp, b, h);
        lemma_ds_exact(val, hs, es, btt, ep, b, h);
        let (a, e) = (weight_nums(val, att, hs, b, h), weight_nums(val, btt, hs, b, h));
        let (p, q) = (weight_nums(val, dp, hs, b, h), weight_nums(val, ep, hs, b, h));
        let n = (t + 1) as nat;
        assert(weight_nums(val, ds, hs, b, h)(t, u) == weight_moved(a, p, t, u));
        assert(weight_nums(val, es, hs, b, h)(t, u) == weight_moved(e, q, t, u));
        let (p1, q1) = (|i: int| p(t, i), |i: int| q(t, i));
        let (a1, e1) = (|i: int| a(t, i), |i: int| e(t, i));
        let (f, g) = (|i: int| a(t, i) * p(t, i), |i: int| e(t, i) * q(t, i));
        if live(hs.position(b, t)) {
            assert forall|i: int| 0 <= i < n implies #[trigger] f(i) == g(i) by {
                lemma_weight_agrees(val, live, hs, att, btt, b, h, t, i);
                assert(p(t, i) == q(t, i));
            }
            lemma_total_same(f, g, n);
            lemma_weight_agrees(val, live, hs, att, btt, b, h, t, u);
            assert(p(t, u) == q(t, u));
        } else {
            assert forall|i: int| 0 <= i < n implies #[trigger] f(i) == 0 as real by {
                assert(p(t, i) == q(t, i));
                let x = a(t, i);
                assert(x * (0 as real) == 0 as real) by (nonlinear_arith);
            }
            assert forall|i: int| 0 <= i < n implies #[trigger] g(i) == 0 as real by {
                assert(p(t, i) == q(t, i));
                let x = e(t, i);
                assert(x * (0 as real) == 0 as real) by (nonlinear_arith);
            }
            lemma_total_zero(f, n);
            lemma_total_zero(g, n);
            assert(p(t, u) == q(t, u) && p(t, u) == 0 as real);
            let (x, y) = (a(t, u), e(t, u));
            assert(x * (0 as real) == 0 as real && y * (0 as real) == 0 as real)
                by (nonlinear_arith);
        }
    }
}

/// A sum over the future, where the gradient of a row is zero or its number the same.
proof fn lemma_future_alike(
    w: spec_fn(int, int) -> real,
    x: spec_fn(int, int) -> real,
    z: spec_fn(int, int) -> real,
    y: spec_fn(int, int) -> real,
    t_len: nat,
    u: int,
    j: int,
)
    requires
        0 <= u < t_len,
        forall|t: int| u <= t < t_len ==> #[trigger] w(t, u) * x(t, j) == z(t, u) * y(t, j),
    ensures
        future(w, x, t_len, u, j) == future(z, y, t_len, u, j),
{
    let f = |i: int| w(u + i, u) * x(u + i, j);
    let g = |i: int| z(u + i, u) * y(u + i, j);
    let n = (t_len - u) as nat;
    assert forall|i: int| 0 <= i < n implies #[trigger] f(i) == g(i) by {
        assert(w(u + i, u) * x(u + i, j) == z(u + i, u) * y(u + i, j));
    }
    lemma_total_same(f, g, n);
}

/// A sum over the future of nothing but zeros.
proof fn lemma_future_zero(
    w: spec_fn(int, int) -> real,
    x: spec_fn(int, int) -> real,
    t_len: nat,
    u: int,
    j: int,
)
    requires
        0 <= u < t_len,
        forall|t: int| u <= t < t_len ==> #[trigger] w(t, u) * x(t, j) == 0 as real,
    ensures
        future(w, x, t_len, u, j) == 0 as real,
{
    let f = |i: int| w(u + i, u) * x(u + i, j);
    let n = (t_len - u) as nat;
    assert forall|i: int| 0 <= i < n implies #[trigger] f(i) == 0 as real by {
        assert(w(u + i, u) * x(u + i, j) == 0 as real);
    }
    lemma_total_zero(f, n);
}

/// To the values.
pub proof fn lemma_dv_alike<S: Scalar>(
    val: spec_fn(S) -> real,
    live: spec_fn(int) -> bool,
    hs: Heads,
    dv: Seq<S>,
    ev: Seq<S>,
    att: Seq<S>,
    btt: Seq<S>,
    dy: Seq<S>,
    ey: Seq<S>,
)
    requires
        exact(val),
        hs.d > 0,
        hs.t_len > 0,
        dv.len() == hs.positions() * hs.width(),
        ev.len() == hs.positions() * hs.width(),
        is_attn_mix(hs, Side::Future, dv, att, dy),
        is_attn_mix(hs, Side::Future, ev, btt, ey),
        looks_back(hs, live),
        rows_agree(att, btt, hs.weight_rows() as nat, hs.t_len as nat, seen_weights(hs, live)),
        flows_alike(val, live, dy, ey, hs.positions() as nat, hs.width() as nat),
    ensures
        flows_alike(val, live, dv, ev, hs.positions() as nat, hs.width() as nat),
{
    let n = hs.t_len as nat;
    assert forall|b: int, h: int, u: int, j: int|
        0 <= b < hs.b_n && 0 <= h < hs.h_n && 0 <= u < hs.t_len && 0 <= j
            < hs.d implies #[trigger] head_nums(val, dv, hs, b, h)(u, j) == head_nums(
        val,
        ev,
        hs,
        b,
        h,
    )(u, j) && (!live(hs.position(b, u)) ==> head_nums(val, dv, hs, b, h)(u, j)
        == 0 as real) by {
        lemma_dv_exact(val, hs, dv, att, dy, b, h);
        lemma_dv_exact(val, hs, ev, btt, ey, b, h);
        let (w, z) = (weight_nums(val, att, hs, b, h), weight_nums(val, btt, hs, b, h));
        let (x, y) = (head_nums(val, dy, hs, b, h), head_nums(val, ey, hs, b, h));
        assert forall|t: int| u <= t < n implies #[trigger] w(t, u) * x(t, j) == z(t, u) * y(t, j)
            && (!live(hs.position(b, u)) ==> w(t, u) * x(t, j) == 0 as real) by {
            lemma_head_alike(val, live, hs, dy, ey, b, h, t, j);
            if live(hs.position(b, t)) {
                assert(live(hs.position(b, u)));
                lemma_weight_agrees(val, live, hs, att, btt, b, h, t, u);
            } else {
                let (p, q) = (w(t, u), z(t, u));
                assert(p * (0 as real) == 0 as real && q * (0 as real) == 0 as real)
                    by (nonlinear_arith);
            }
        }
        lemma_future_alike(w, x, z, y, n, u, j);
        if !live(hs.position(b, u)) {
            lemma_future_zero(w, x, n, u, j);
        }
        assert(head_nums(val, dv, hs, b, h)(u, j) == future(w, x, n, u, j));
        assert(head_nums(val, ev, hs, b, h)(u, j) == future(z, y, n, u, j));
    }
    lemma_from_heads(val, live, hs, dv, ev);
}

/// To the queries, over the past, or to the keys, over the future.
pub proof fn lemma_dqk_alike<S: Scalar>(
    val: spec_fn(S) -> real,
    live: spec_fn(int) -> bool,
    hs: Heads,
    scale: real,
    side: Side,
    dq: Seq<S>,
    eq: Seq<S>,
    ds: Seq<S>,
    es: Seq<S>,
    k: Seq<S>,
    l: Seq<S>,
)
    requires
        exact(val),
        hs.d > 0,
        hs.t_len > 0,
        is_score_factor(hs.d as nat, scale),
        dq.len() == hs.positions() * hs.width(),
        eq.len() == hs.positions() * hs.width(),
        is_attn_scores_bwd(hs, side, dq, ds, k),
        is_attn_scores_bwd(hs, side, eq, es, l),
        looks_back(hs, live),
        rows_agree(k, l, hs.positions() as nat, hs.width() as nat, live),
        weights_alike(val, live, hs, ds, es),
    ensures
        flows_alike(val, live, dq, eq, hs.positions() as nat, hs.width() as nat),
{
    let n = hs.t_len as nat;
    assert forall|b: int, h: int, t: int, j: int|
        0 <= b < hs.b_n && 0 <= h < hs.h_n && 0 <= t < hs.t_len && 0 <= j
            < hs.d implies #[trigger] head_nums(val, dq, hs, b, h)(t, j) == head_nums(
        val,
        eq,
        hs,
        b,
        h,
    )(t, j) && (!live(hs.position(b, t)) ==> head_nums(val, dq, hs, b, h)(t, j)
        == 0 as real) by {
        lemma_dqk_exact(val, hs, scale, dq, ds, k, side, b, h);
        lemma_dqk_exact(val, hs, scale, eq, es, l, side, b, h);
        let (w, z) = (weight_nums(val, ds, hs, b, h), weight_nums(val, es, hs, b, h));
        let (x, y) = (head_nums(val, k, hs, b, h), head_nums(val, l, hs, b, h));
        assert(head_nums(val, dq, hs, b, h)(t, j) == one_sided(side, w, x, n, t, j) * scale);
        assert(head_nums(val, eq, hs, b, h)(t, j) == one_sided(side, z, y, n, t, j) * scale);
        assert((0 as real) * scale == 0 as real) by (nonlinear_arith);
        match side {
            Side::Past => {
                let (f, g) = (|u: int| w(t, u) * x(u, j), |u: int| z(t, u) * y(u, j));
                assert forall|u: int| 0 <= u < t + 1 implies #[trigger] f(u) == g(u) && (!live(
                    hs.position(b, t),
                ) ==> f(u) == 0 as real) by {
                    assert(w(t, u) == z(t, u));
                    if live(hs.position(b, t)) {
                        assert(live(hs.position(b, u)));
                        lemma_head_agrees(val, live, hs, k, l, b, h, u, j);
                    } else {
                        let (p, q) = (x(u, j), y(u, j));
                        assert((0 as real) * p == 0 as real && (0 as real) * q == 0 as real)
                            by (nonlinear_arith);
                    }
                }
                lemma_total_same(f, g, (t + 1) as nat);
                if !live(hs.position(b, t)) {
                    lemma_total_zero(f, (t + 1) as nat);
                }
                assert(past(w, x, t, j) == past(z, y, t, j));
            },
            Side::Future => {
                assert forall|i: int| t <= i < n implies #[trigger] w(i, t) * x(i, j) == z(i, t)
                    * y(i, j) && (!live(hs.position(b, t)) ==> w(i, t) * x(i, j) == 0 as real) by {
                    assert(w(i, t) == z(i, t));
                    if live(hs.position(b, i)) {
                        assert(live(hs.position(b, t)));
                        lemma_head_agrees(val, live, hs, k, l, b, h, i, j);
                    } else {
                        let (p, q) = (x(i, j), y(i, j));
                        assert((0 as real) * p == 0 as real && (0 as real) * q == 0 as real)
                            by (nonlinear_arith);
                    }
                }
                lemma_future_alike(w, x, z, y, n, t, j);
                if !live(hs.position(b, t)) {
                    lemma_future_zero(w, x, n, t, j);
                }
            },
        }
    }
    lemma_from_heads(val, live, hs, dq, eq);
}

} // verus!
