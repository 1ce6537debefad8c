//! First-order motion of normalized rows, and that the backward pass of the normalization is
//! its adjoint.
use vstd::prelude::*;

use crate::exact::{
    exact, inner, lemma_inner_add, lemma_inner_flip, lemma_inner_scaled, lemma_quotient,
    lemma_total_same, total_of,
};
use crate::index::{lemma_row_inside, lemma_whole_rows};
use crate::motion::{lemma_dot_exact, lemma_pairing_rows, paired_row, pairing, row_moves, row_nums};
use crate::norm::{
    is_inv_rms, is_inv_root, is_norm_bwd, is_norm_grad, is_rmsnorm, rmsnorm_bwd_row,
    rmsnorm_bwd_row_by, EPS_DEN,
};
use crate::reduce::is_dot;
use crate::rows::row_of;
use crate::scalar::{is_num, is_one, is_prod, is_quot, is_ratio, is_sqrt, is_sum, Scalar};

verus! {

/// What is added to the mean square.
pub open spec fn eps_of() -> real {
    1u32 as real / EPS_DEN as real
}

/// The mean square of row `t` of `x`.
pub open spec fn mean_square<S>(val: spec_fn(S) -> real, x: Seq<S>, c: nat, t: int) -> real {
    inner(row_nums(val, x, c, t), row_nums(val, x, c, t), c) / c as real
}

/// How the mean square of row `t` moves.
pub open spec fn mean_square_moves<S>(
    val: spec_fn(S) -> real,
    x: Seq<S>,
    mx: Seq<real>,
    c: nat,
    t: int,
) -> real {
    2 as real * inner(row_nums(val, x, c, t), row_moves(mx, c, t), c) / c as real
}

/// The factor `r` of a row moves by `mr` such that `r * r * (mean square + eps)` stays one.
pub open spec fn moves_factor<S>(
    val: spec_fn(S) -> real,
    mr: real,
    r: real,
    x: Seq<S>,
    mx: Seq<real>,
    c: nat,
    t: int,
) -> bool {
    2 as real * r * mr * (mean_square(val, x, c, t) + eps_of()) + r * r * mean_square_moves(
        val,
        x,
        mx,
        c,
        t,
    ) == 0 as real
}

/// How the `m` rows `y` of the normalization of `x` move, and their factors `rinv`: by the
/// product rule for `y = x * r`.
pub open spec fn moves_norm<S>(
    val: spec_fn(S) -> real,
    my: Seq<real>,
    mr: Seq<real>,
    x: Seq<S>,
    rinv: Seq<S>,
    mx: Seq<real>,
    m: nat,
    c: nat,
) -> bool {
    &&& forall|t: int|
        0 <= t < m ==> moves_factor(val, #[trigger] mr[t], val(rinv[t]), x, mx, c, t)
    &&& forall|t: int, j: int|
        0 <= t < m && 0 <= j < c ==> #[trigger] row_moves(my, c, t)(j) == row_moves(mx, c, t)(j)
            * val(rinv[t]) + row_nums(val, x, c, t)(j) * mr[t]
}

/// A sum of squares is not negative.
pub proof fn lemma_square_nonnegative(a: spec_fn(int) -> real, n: nat)
    ensures
        inner(a, a, n) >= 0 as real,
    decreases n,
{
    let f = |i: int| a(i) * a(i);
    if n > 0 {
        lemma_square_nonnegative(a, (n - 1) as nat);
        let x = a(n - 1);
        assert(x * x >= 0 as real) by (nonlinear_arith);
        assert(total_of(f, n) == total_of(f, (n - 1) as nat) + f(n - 1));
    }
}

/// A dot product of row `t` of `x` with row `t` of `y`.
proof fn lemma_row_dot<S: Scalar>(
    val: spec_fn(S) -> real,
    x: Seq<S>,
    y: Seq<S>,
    c: nat,
    t: int,
    r: S,
)
    requires
        exact(val),
        is_dot(x, t * c, 1, y, t * c, 1, c, r),
    ensures
        val(r) == inner(row_nums(val, x, c, t), row_nums(val, y, c, t), c),
{
    lemma_dot_exact(val, x, t * c, 1, y, t * c, 1, c, r);
    lemma_total_same(
        |p: int| val(x[t * c + p * 1]) * val(y[t * c + p * 1]),
        |i: int| row_nums(val, x, c, t)(i) * row_nums(val, y, c, t)(i),
        c,
    );
}

/// The factor of a row is one over the root of the mean square plus eps.
pub proof fn lemma_factor_exact<S: Scalar>(
    val: spec_fn(S) -> real,
    x: Seq<S>,
    c: nat,
    t: int,
    r: S,
)
    requires
        exact(val),
        0 < c <= u64::MAX,
        is_inv_rms(x, c, t, r),
    ensures
        val(r) > 0 as real,
        val(r) * val(r) * (mean_square(val, x, c, t) + eps_of()) == 1 as real,
{
    let (squares, count, ms) = choose|squares: S, count: S, ms: S|
        #![trigger is_quot(squares, count, ms)]
        is_dot(x, t * c, 1, x, t * c, 1, c, squares) && is_num(c as u64, count) && is_quot(
            squares,
            count,
            ms,
        ) && is_inv_root(ms, r);
    lemma_row_dot(val, x, x, c, t, squares);
    let row = row_nums(val, x, c, t);
    lemma_square_nonnegative(row, c);
    let (top, n, q) = (inner(row, row, c), c as real, mean_square(val, x, c, t));
    lemma_quotient(top, n);
    assert(q >= 0 as real) by (nonlinear_arith)
        requires
            q * n == top,
            top >= 0 as real,
            n > 0 as real,
    ;
    let (eps, padded, root, one) = choose|eps: S, padded: S, root: S, one: S|
        #![trigger is_sum(ms, eps, padded), is_quot(one, root, r)]
        is_ratio(1, EPS_DEN, eps) && is_sum(ms, eps, padded) && is_sqrt(padded, root) && is_one(
            one,
        ) && is_quot(one, root, r);
    lemma_quotient(1u32 as real, EPS_DEN as real);
    let e = eps_of();
    assert(e > 0 as real) by (nonlinear_arith)
        requires
            e * (100_000 as real) == 1 as real,
    ;
    let (p, s, f) = (val(padded), val(root), val(r));
    assert(p == q + e);
    assert(s * s == p);
    assert(s > 0 as real) by (nonlinear_arith)
        requires
            s * s == p,
            s >= 0 as real,
            p > 0 as real,
    ;
    lemma_quotient(1 as real, s);
    assert(f > 0 as real) by (nonlinear_arith)
        requires
            f * s == 1 as real,
            s > 0 as real,
    ;
    assert(f * f * p == 1 as real) by (nonlinear_arith)
        requires
            f * s == 1 as real,
            s * s == p,
    ;
}

/// How the factor of a row moves: by `-r^3 / c` times the product of the row and its motion.
proof fn lemma_factor_moves<S: Scalar>(
    val: spec_fn(S) -> real,
    mr: real,
    r: real,
    x: Seq<S>,
    mx: Seq<real>,
    c: nat,
    t: int,
)
    requires
        c > 0,
        r * r * (mean_square(val, x, c, t) + eps_of()) == 1 as real,
        moves_factor(val, mr, r, x, mx, c, t),
    ensures
        mr * c as real == -(r * r * r * inner(row_nums(val, x, c, t), row_moves(mx, c, t), c)),
{
    let (n, along) = (c as real, inner(row_nums(val, x, c, t), row_moves(mx, c, t), c));
    let (q, mq) = (mean_square(val, x, c, t) + eps_of(), mean_square_moves(val, x, mx, c, t));
    lemma_quotient(2 as real * along, n);
    assert(2 as real * mr == -(r * r * r * mq)) by (nonlinear_arith)
        requires
            2 as real * r * mr * q + r * r * mq == 0 as real,
            r * r * q == 1 as real,
    ;
    assert(mr * n == -(r * r * r * along)) by (nonlinear_arith)
        requires
            2 as real * mr == -(r * r * r * mq),
            mq * n == 2 as real * along,
    ;
}

/// What the backward pass makes of row `t`.
pub proof fn lemma_norm_bwd_exact<S: Scalar>(
    val: spec_fn(S) -> real,
    dx: Seq<S>,
    x: Seq<S>,
    rinv: Seq<S>,
    dy: Seq<S>,
    m: nat,
    c: nat,
    t: int,
) -> (k: real)
    requires
        exact(val),
        0 < c <= u64::MAX,
        dx.len() == m * c,
        is_norm_bwd(dx, x, rinv, dy, c),
        0 <= t < m,
    ensures
        k * c as real == val(rinv[t]) * val(rinv[t]) * val(rinv[t]) * inner(
            row_nums(val, dy, c, t),
            row_nums(val, x, c, t),
            c,
        ),
        forall|j: int|
            0 <= j < c ==> #[trigger] row_nums(val, dx, c, t)(j) == val(rinv[t]) * row_nums(
                val,
                dy,
                c,
                t,
            )(j) - k * row_nums(val, x, c, t)(j),
{
    lemma_whole_rows(m as int, c as int);
    lemma_row_inside(t, m as int, c as int);
    let row = row_of(dx, c, t);
    assert(rmsnorm_bwd_row(x, rinv, dy, false, t, row, row));
    let (dot, pull) = choose|dot: S, k: S| #[trigger]
        rmsnorm_bwd_row_by(x, rinv, dy, false, t, row, row, dot, k);
    lemma_row_dot(val, dy, x, c, t, dot);
    let r = rinv[t];
    let (r2, r3, top, count) = choose|r2: S, r3: S, top: S, count: S|
        #![trigger is_prod(r2, r, r3), is_quot(top, count, pull)]
        is_prod(r, r, r2) && is_prod(r2, r, r3) && is_prod(r3, dot, top) && is_num(
            c as u64,
            count,
        ) && is_quot(top, count, pull);
    lemma_quotient(val(top), c as real);
    let k = val(pull);
    assert forall|j: int| 0 <= j < c implies #[trigger] row_nums(val, dx, c, t)(j) == val(r)
        * row_nums(val, dy, c, t)(j) - k * row_nums(val, x, c, t)(j) by {
        assert(is_norm_grad(r, dy[t * c + j], pull, x[t * c + j], false, row[j], row[j]));
    }
    k
}

/// The backward pass of the normalization is its adjoint, row by row.
proof fn lemma_norm_row<S: Scalar>(
    val: spec_fn(S) -> real,
    dx: Seq<S>,
    dy: Seq<S>,
    my: Seq<real>,
    mr: Seq<real>,
    x: Seq<S>,
    rinv: Seq<S>,
    mx: Seq<real>,
    m: nat,
    c: nat,
    t: int,
)
    requires
        exact(val),
        0 < c <= u64::MAX,
        dx.len() == m * c,
        is_inv_rms(x, c, t, rinv[t]),
        is_norm_bwd(dx, x, rinv, dy, c),
        moves_norm(val, my, mr, x, rinv, mx, m, c),
        0 <= t < m,
    ensures
        paired_row(val, dy, my, c)(t) == paired_row(val, dx, mx, c)(t),
{
    let (r, s, n) = (val(rinv[t]), mr[t], c as real);
    lemma_factor_exact(val, x, c, t, rinv[t]);
    assert(moves_factor(val, mr[t], r, x, mx, c, t));
    lemma_factor_moves(val, s, r, x, mx, c, t);
    let k = lemma_norm_bwd_exact(val, dx, x, rinv, dy, m, c, t);
    let (g, xs, vs) = (row_nums(val, dy, c, t), row_nums(val, x, c, t), row_moves(mx, c, t));
    let (gv, gx, xv) = (inner(g, vs, c), inner(g, xs, c), inner(xs, vs, c));
    // the output: its motion is that of the row, scaled, plus that of the factor
    let scaled = |j: int| r * vs(j);
    let along = |j: int| s * xs(j);
    let out = row_moves(my, c, t);
    assert forall|j: int| 0 <= j < c implies #[trigger] out(j) == scaled(j) + along(j) by {
        let (a, b) = (vs(j), xs(j));
        assert(a * r == r * a && b * s == s * b) by (nonlinear_arith);
    }
    lemma_inner_add(g, scaled, along, out, c);
    lemma_inner_scaled(g, r, vs, scaled, c);
    lemma_inner_scaled(g, s, xs, along, c);
    // the input: its gradient is that of the output, scaled, minus the pull
    let back = row_nums(val, dx, c, t);
    let direct = |j: int| r * g(j);
    let pull = |j: int| (-k) * xs(j);
    assert forall|j: int| 0 <= j < c implies #[trigger] back(j) == direct(j) + pull(j) by {
        let b = xs(j);
        assert((-k) * b == -(k * b)) by (nonlinear_arith);
    }
    lemma_inner_flip(back, vs, c);
    lemma_inner_add(vs, direct, pull, back, c);
    lemma_inner_scaled(vs, r, g, direct, c);
    lemma_inner_scaled(vs, -k, xs, pull, c);
    lemma_inner_flip(vs, g, c);
    lemma_inner_flip(vs, xs, c);
    assert(s * gx == (-k) * xv) by (nonlinear_arith)
        requires
            s * n == -(r * r * r * xv),
            k * n == r * r * r * gx,
            n > 0 as real,
    {
        let lhs = s * gx;
        let rhs = (-k) * xv;
        assert(lhs * n == -(r * r * r * xv) * gx);
        assert(rhs * n == -(r * r * r * gx) * xv);
        assert(lhs * n == rhs * n);
    }
}

/// The backward pass of the normalization is its adjoint: for any motion of the rows, the
/// gradient of the normalized rows paired with their motion equals the gradient of the rows
/// paired with theirs.
pub proof fn law_norm_adjoint<S: Scalar>(
    val: spec_fn(S) -> real,
    dx: Seq<S>,
    dy: Seq<S>,
    y: Seq<S>,
    my: Seq<real>,
    mr: Seq<real>,
    x: Seq<S>,
    rinv: Seq<S>,
    mx: Seq<real>,
    m: nat,
    c: nat,
)
    requires
        exact(val),
        0 < c <= u64::MAX,
        dx.len() == m * c,
        rinv.len() == m,
        is_rmsnorm(y, rinv, x, c),
        is_norm_bwd(dx, x, rinv, dy, c),
        moves_norm(val, my, mr, x, rinv, mx, m, c),
    ensures
        pairing(val, dy, my, m * c) == pairing(val, dx, mx, m * c),
{
    let (whole, own) = (paired_row(val, dy, my, c), paired_row(val, dx, mx, c));
    assert forall|t: int| 0 <= t < m implies #[trigger] whole(t) == own(t) by {
        assert(is_inv_rms(x, c, t, rinv[t]));
        lemma_norm_row(val, dx, dy, my, mr, x, rinv, mx, m, c, t);
    }
    lemma_total_same(whole, own, m);
    lemma_pairing_rows(val, dy, my, m, c);
    lemma_pairing_rows(val, dx, mx, m, c);
}

} // verus!
