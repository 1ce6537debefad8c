//! The tape and the batched network, operation by operation: in exact arithmetic, equal
//! numbers go in and equal numbers come out.
use vstd::prelude::*;

use crate::exact::{
    exact, inner, lemma_cancel, lemma_inner_flip, lemma_inner_same, lemma_quotient,
    lemma_total_same, lemma_total_scale, total_of,
};
use crate::graph::{
    is_add_nodes, is_dot_node, is_linear_nodes, is_minus_half, is_mul_nodes, is_relu_nodes,
    is_rmsnorm_nodes, is_rmsnorm_nodes_by, is_shifted_exp_node, is_softmax_nodes,
    is_softmax_nodes_by, is_sum_node,
};
use crate::index::{lemma_row_inside, lemma_whole_rows};
use crate::matmul::{is_linear, linear_row};
use crate::motion::{lemma_dot_exact, nums, row_nums};
use crate::motion_loss::{lemma_softmax_exact, lemma_total_positive};
use crate::motion_norm::{eps_of, lemma_factor_exact, lemma_square_nonnegative, mean_square};
use crate::network::is_residual;
use crate::norm::{is_inv_rms, is_rmsnorm, scaled_row, EPS_DEN};
use crate::pointwise::{is_add, is_relu, is_relu_fwd};
use crate::reduce::{is_dot, is_shifted_exp, is_softmax, is_softmax_by};
use crate::rows::row_of;
use crate::scalar::{
    is_diff, is_exp, is_ln, is_max, is_neg, is_num, is_pow, is_prod, is_quot, is_ratio, is_sum,
    is_zero, Scalar,
};
use crate::tape::{
    data_of, is_add_const, is_add_node, is_div_const, is_div_node, is_exp_node, is_mul_node,
    is_pow_node, is_relu_node, is_sub_const, Node, Value,
};

verus! {

/// Whether the other operations compute exactly too: exponentials and logarithms along the
/// curves `ex` and `lg`, the larger of two numbers, one over a root as a power, and the power
/// below it.
pub open spec fn exact_curves<S: Scalar>(
    val: spec_fn(S) -> real,
    ex: spec_fn(real) -> real,
    lg: spec_fn(real) -> real,
) -> bool {
    &&& exact(val)
    &&& forall|a: S, r: S| #[trigger] is_exp(a, r) ==> val(r) == ex(val(a))
    &&& forall|a: S, r: S| #[trigger] is_ln(a, r) ==> val(r) == lg(val(a))
    &&& forall|a: S, b: S, r: S| #[trigger]
        is_max(a, b, r) ==> val(r) == if val(a) >= val(b) {
            val(a)
        } else {
            val(b)
        }
    &&& forall|a: S, k: S, r: S| #[trigger]
        is_pow(a, k, r) && val(a) > 0 as real && 2 as real * val(k) == -(1 as real) ==> val(r)
            > 0 as real && val(r) * val(r) * val(a) == 1 as real
    &&& forall|a: S, k: S, l: S, r: S, w: S| #[trigger]
        is_pow(a, k, r) && #[trigger] is_pow(a, l, w) && val(a) > 0 as real && val(l) == val(k)
            - 1 as real ==> val(w) * val(a) == val(r)
}

/// Whether `ex` is an exponential: it is positive and turns sums into products.
pub open spec fn is_exponential(ex: spec_fn(real) -> real) -> bool {
    &&& forall|x: real| #[trigger] ex(x) > 0 as real
    &&& forall|x: real, y: real| #[trigger] ex(x + y) == ex(x) * ex(y)
}

/// The numbers that handles stand for.
pub open spec fn tape_nums<W>(
    p: spec_fn(W) -> real,
    nodes: Seq<Node<W>>,
    vs: Seq<Value>,
) -> spec_fn(int) -> real {
    |i: int| p(data_of(nodes, vs[i]))
}

/// The handles `vs` stand for the numbers in row `r` of `x`.
pub open spec fn same_row<W, S>(
    p: spec_fn(W) -> real,
    q: spec_fn(S) -> real,
    nodes: Seq<Node<W>>,
    vs: Seq<Value>,
    x: Seq<S>,
    c: nat,
    r: int,
) -> bool {
    &&& vs.len() == c
    &&& forall|j: int|
        0 <= j < c ==> #[trigger] tape_nums(p, nodes, vs)(j) == row_nums(q, x, c, r)(j)
}

/// The handles of a matrix stand for the numbers of `x`, row by row.
pub open spec fn same_matrix<W, S>(
    p: spec_fn(W) -> real,
    q: spec_fn(S) -> real,
    nodes: Seq<Node<W>>,
    m: Seq<Seq<Value>>,
    x: Seq<S>,
    nout: nat,
    nin: nat,
) -> bool {
    &&& m.len() == nout
    &&& forall|o: int| 0 <= o < nout ==> same_row(p, q, nodes, #[trigger] m[o], x, nin, o)
}

/// A sum on the tape.
pub proof fn lemma_sum_node_exact<W: Scalar>(
    p: spec_fn(W) -> real,
    nodes: Seq<Node<W>>,
    terms: Seq<Value>,
    r: Value,
)
    requires
        exact(p),
        is_sum_node(nodes, terms, r),
    ensures
        p(data_of(nodes, r)) == total_of(tape_nums(p, nodes, terms), terms.len()),
    decreases terms.len(),
{
    let f = tape_nums(p, nodes, terms);
    if terms.len() <= 1 {
        assert(total_of(f, 1) == total_of(f, 0) + f(0));
    } else {
        let (before, last) = choose|before: Value, last: Value|
            #![trigger is_add_node(nodes, before, last, r)]
            is_sum_node(nodes, terms.drop_last(), before) && last == terms.last() && is_add_node(
                nodes,
                before,
                last,
                r,
            );
        let less = terms.drop_last();
        lemma_sum_node_exact(p, nodes, less, before);
        lemma_total_same(tape_nums(p, nodes, less), f, less.len());
        assert(f(terms.len() - 1) == p(data_of(nodes, last)));
    }
}

/// A dot product on the tape.
pub proof fn lemma_dot_node_exact<W: Scalar>(
    p: spec_fn(W) -> real,
    nodes: Seq<Node<W>>,
    a: Seq<Value>,
    b: Seq<Value>,
    r: Value,
)
    requires
        exact(p),
        is_dot_node(nodes, a, b, r),
    ensures
        p(data_of(nodes, r)) == inner(tape_nums(p, nodes, a), tape_nums(p, nodes, b), a.len()),
{
    let ps = choose|ps: Seq<Value>| #[trigger]
        is_mul_nodes(nodes, a, b, ps) && is_sum_node(nodes, ps, r);
    lemma_sum_node_exact(p, nodes, ps, r);
    let (f, g) = (tape_nums(p, nodes, a), tape_nums(p, nodes, b));
    let prod = |i: int| f(i) * g(i);
    assert forall|i: int| 0 <= i < a.len() implies #[trigger] tape_nums(p, nodes, ps)(i) == prod(
        i,
    ) by {
        assert(is_mul_node(nodes, a[i], b[i], ps[i]));
    }
    lemma_total_same(tape_nums(p, nodes, ps), prod, a.len());
}

/// Products with a matrix.
pub proof fn lemma_twin_linear<W: Scalar, S: Scalar>(
    p: spec_fn(W) -> real,
    q: spec_fn(S) -> real,
    nodes: Seq<Node<W>>,
    xs: Seq<Value>,
    w: Seq<Seq<Value>>,
    ys: Seq<Value>,
    y: Seq<S>,
    x: Seq<S>,
    wm: Seq<S>,
    m: nat,
    n: nat,
    k: nat,
    r: int,
)
    requires
        exact(p),
        exact(q),
        n > 0,
        0 <= r < m,
        y.len() == m * n,
        same_row(p, q, nodes, xs, x, k, r),
        same_matrix(p, q, nodes, w, wm, n, k),
        is_linear_nodes(nodes, xs, w, ys),
        is_linear(y, x, wm, n, k),
    ensures
        same_row(p, q, nodes, ys, y, n, r),
{
    lemma_whole_rows(m as int, n as int);
    lemma_row_inside(r, m as int, n as int);
    let row = row_of(y, n, r);
    assert(linear_row(x, wm, k, r, row));
    assert forall|o: int| 0 <= o < n implies #[trigger] tape_nums(p, nodes, ys)(o) == row_nums(
        q,
        y,
        n,
        r,
    )(o) by {
        assert(is_dot_node(nodes, w[o], xs, ys[o]));
        assert(same_row(p, q, nodes, w[o], wm, k, o));
        lemma_dot_node_exact(p, nodes, w[o], xs, ys[o]);
        assert(is_dot(x, r * k, 1, wm, o * k, 1, k, row[o]));
        lemma_dot_exact(q, x, r * k, 1, wm, o * k, 1, k, row[o]);
        let (a, b) = (tape_nums(p, nodes, w[o]), tape_nums(p, nodes, xs));
        let (c, d) = (row_nums(q, wm, k, o), row_nums(q, x, k, r));
        lemma_inner_same(a, b, c, d, k);
        lemma_inner_flip(c, d, k);
        lemma_total_same(
            |i: int| q(x[r * k + i * 1]) * q(wm[o * k + i * 1]),
            |i: int| d(i) * c(i),
            k,
        );
    }
}

/// Sums of two rows.
pub proof fn lemma_twin_add<W: Scalar, S: Scalar>(
    p: spec_fn(W) -> real,
    q: spec_fn(S) -> real,
    nodes: Seq<Node<W>>,
    a: Seq<Value>,
    b: Seq<Value>,
    ss: Seq<Value>,
    y: Seq<S>,
    x: Seq<S>,
    z: Seq<S>,
    m: nat,
    c: nat,
    r: int,
)
    requires
        exact(p),
        exact(q),
        0 <= r < m,
        y.len() == m * c,
        same_row(p, q, nodes, a, z, c, r),
        same_row(p, q, nodes, b, x, c, r),
        is_add_nodes(nodes, a, b, ss),
        is_add(y, x, z),
    ensures
        same_row(p, q, nodes, ss, y, c, r),
{
    lemma_row_inside(r, m as int, c as int);
    assert forall|j: int| 0 <= j < c implies #[trigger] tape_nums(p, nodes, ss)(j) == row_nums(
        q,
        y,
        c,
        r,
    )(j) by {
        assert(is_add_node(nodes, a[j], b[j], ss[j]));
        assert(tape_nums(p, nodes, a)(j) == row_nums(q, z, c, r)(j));
        assert(tape_nums(p, nodes, b)(j) == row_nums(q, x, c, r)(j));
        assert(is_sum(x[r * c + j], z[r * c + j], y[r * c + j]));
    }
}

/// A product with a matrix, added to what went in.
pub proof fn lemma_twin_residual<W: Scalar, S: Scalar>(
    p: spec_fn(W) -> real,
    q: spec_fn(S) -> real,
    nodes: Seq<Node<W>>,
    xs: Seq<Value>,
    hs: Seq<Value>,
    w: Seq<Seq<Value>>,
    outs: Seq<Value>,
    ys: Seq<Value>,
    y: Seq<S>,
    x: Seq<S>,
    h: Seq<S>,
    wm: Seq<S>,
    m: nat,
    n: nat,
    k: nat,
    r: int,
)
    requires
        exact(p),
        exact(q),
        n > 0,
        0 <= r < m,
        y.len() == m * n,
        same_row(p, q, nodes, xs, x, n, r),
        same_row(p, q, nodes, hs, h, k, r),
        same_matrix(p, q, nodes, w, wm, n, k),
        is_linear_nodes(nodes, hs, w, outs),
        is_add_nodes(nodes, outs, xs, ys),
        is_residual(y, x, h, wm, n, k),
    ensures
        same_row(p, q, nodes, ys, y, n, r),
{
    let out = choose|out: Seq<S>|
        out.len() == y.len() && #[trigger] is_linear(out, h, wm, n, k) && is_add(y, x, out);
    lemma_twin_linear(p, q, nodes, hs, w, outs, out, h, wm, m, n, k, r);
    lemma_twin_add(p, q, nodes, outs, xs, ys, y, x, out, m, n, r);
}

/// The cut-off of a row.
pub proof fn lemma_twin_relu<W: Scalar, S: Scalar>(
    p: spec_fn(W) -> real,
    q: spec_fn(S) -> real,
    ex: spec_fn(real) -> real,
    lg: spec_fn(real) -> real,
    nodes: Seq<Node<W>>,
    xs: Seq<Value>,
    rs: Seq<Value>,
    y: Seq<S>,
    x: Seq<S>,
    m: nat,
    c: nat,
    r: int,
)
    requires
        exact_curves(p, ex, lg),
        exact_curves(q, ex, lg),
        0 <= r < m,
        y.len() == m * c,
        same_row(p, q, nodes, xs, x, c, r),
        is_relu_nodes(nodes, xs, rs),
        is_relu_fwd(y, x),
    ensures
        same_row(p, q, nodes, rs, y, c, r),
{
    lemma_row_inside(r, m as int, c as int);
    assert forall|j: int| 0 <= j < c implies #[trigger] tape_nums(p, nodes, rs)(j) == row_nums(
        q,
        y,
        c,
        r,
    )(j) by {
        let i = r * c + j;
        assert(is_relu_node(nodes, xs[j], rs[j]));
        assert(is_relu(x[i], y[i]));
        assert(tape_nums(p, nodes, xs)(j) == row_nums(q, x, c, r)(j));
        let z1 = choose|zero: W|
            is_zero(zero) && #[trigger] is_max(
                data_of(nodes, xs[j]),
                zero,
                data_of(nodes, rs[j]),
            );
        let z2 = choose|zero: S| is_zero(zero) && #[trigger] is_max(x[i], zero, y[i]);
        assert(p(z1) == 0 as real && q(z2) == 0 as real);
    }
}

/// The factor of a row on the tape: one over the root of the mean square plus eps.
pub proof fn lemma_scale_node_exact<W: Scalar>(
    p: spec_fn(W) -> real,
    ex: spec_fn(real) -> real,
    lg: spec_fn(real) -> real,
    nodes: Seq<Node<W>>,
    xs: Seq<Value>,
    ys: Seq<Value>,
    squares: Value,
    ms: Value,
    scale: Value,
)
    requires
        exact_curves(p, ex, lg),
        0 < xs.len() <= u64::MAX,
        is_rmsnorm_nodes_by(nodes, xs, ys, squares, ms, scale),
    ensures
        inner(tape_nums(p, nodes, xs), tape_nums(p, nodes, xs), xs.len()) / xs.len() as real
            + eps_of() > 0 as real,
        p(data_of(nodes, scale)) > 0 as real,
        p(data_of(nodes, scale)) * p(data_of(nodes, scale)) * (inner(
            tape_nums(p, nodes, xs),
            tape_nums(p, nodes, xs),
            xs.len(),
        ) / xs.len() as real + eps_of()) == 1 as real,
{
    let f = tape_nums(p, nodes, xs);
    let (top, n) = (inner(f, f, xs.len()), xs.len() as real);
    lemma_dot_node_exact(p, nodes, xs, xs, squares);
    lemma_square_nonnegative(f, xs.len());
    let count = choose|count: W|
        is_num(xs.len() as u64, count) && #[trigger] is_div_const(nodes, squares, count, ms);
    assert(p(count) == n);
    assert(is_quot(data_of(nodes, squares), count, data_of(nodes, ms)));
    let mean = p(data_of(nodes, ms));
    assert(mean == top / n);
    lemma_quotient(top, n);
    assert(mean >= 0 as real) by (nonlinear_arith)
        requires
            mean * n == top,
            top >= 0 as real,
            n > 0 as real,
    ;
    let (eps, padded, k) = choose|eps: W, padded: Value, k: W|
        #![trigger is_add_const(nodes, ms, eps, padded), is_pow_node(nodes, padded, k, scale)]
        is_ratio(1, EPS_DEN, eps) && is_add_const(nodes, ms, eps, padded) && is_minus_half(k)
            && is_pow_node(nodes, padded, k, scale);
    lemma_quotient(1u32 as real, EPS_DEN as real);
    let e = eps_of();
    assert(e > 0 as real) by (nonlinear_arith)
        requires
            e * (100_000 as real) == 1 as real,
    ;
    assert(p(eps) == e);
    assert(is_sum(data_of(nodes, ms), eps, data_of(nodes, padded)));
    let half = choose|half: W| is_ratio(1, 2, half) && #[trigger] is_neg(half, k);
    let h = p(half);
    lemma_quotient(1u32 as real, 2u32 as real);
    assert(h * (2 as real) == 1 as real);
    assert(2 as real * -h == -(1 as real)) by (nonlinear_arith)
        requires
            h * (2 as real) == 1 as real,
    ;
    assert(is_pow(data_of(nodes, padded), k, data_of(nodes, scale)));
}

/// There is one positive factor.
pub proof fn lemma_factor_unique(a: real, b: real, q: real)
    requires
        a > 0 as real,
        b > 0 as real,
        a * a * q == 1 as real,
        b * b * q == 1 as real,
    ensures
        a == b,
{
    assert(q != 0 as real) by (nonlinear_arith)
        requires
            a * a * q == 1 as real,
    ;
    lemma_cancel(a * a, b * b, q);
    assert(a == b) by (nonlinear_arith)
        requires
            a * a == b * b,
            a > 0 as real,
            b > 0 as real,
    ;
}

/// The normalization of a row.
pub proof fn lemma_twin_norm<W: Scalar, S: Scalar>(
    p: spec_fn(W) -> real,
    q: spec_fn(S) -> real,
    ex: spec_fn(real) -> real,
    lg: spec_fn(real) -> real,
    nodes: Seq<Node<W>>,
    xs: Seq<Value>,
    ys: Seq<Value>,
    y: Seq<S>,
    rinv: Seq<S>,
    x: Seq<S>,
    m: nat,
    c: nat,
    r: int,
)
    requires
        exact_curves(p, ex, lg),
        exact(q),
        0 < c <= u64::MAX,
        0 <= r < m,
        y.len() == m * c,
        rinv.len() == m,
        same_row(p, q, nodes, xs, x, c, r),
        is_rmsnorm_nodes(nodes, xs, ys),
        is_rmsnorm(y, rinv, x, c),
    ensures
        same_row(p, q, nodes, ys, y, c, r),
{
    lemma_whole_rows(m as int, c as int);
    lemma_row_inside(r, m as int, c as int);
    let (squares, ms, scale) = choose|squares: Value, ms: Value, scale: Value| #[trigger]
        is_rmsnorm_nodes_by(nodes, xs, ys, squares, ms, scale);
    lemma_scale_node_exact(p, ex, lg, nodes, xs, ys, squares, ms, scale);
    assert(is_inv_rms(x, c, r, rinv[r]));
    lemma_factor_exact(q, x, c, r, rinv[r]);
    let (f, g) = (tape_nums(p, nodes, xs), row_nums(q, x, c, r));
    lemma_inner_same(f, f, g, g, c);
    let (a, b) = (p(data_of(nodes, scale)), q(rinv[r]));
    lemma_factor_unique(a, b, mean_square(q, x, c, r) + eps_of());
    let row = row_of(y, c, r);
    assert(scaled_row(x, rinv, r, row));
    assert forall|j: int| 0 <= j < c implies #[trigger] tape_nums(p, nodes, ys)(j) == row_nums(
        q,
        y,
        c,
        r,
    )(j) by {
        assert(is_mul_node(nodes, xs[j], scale, ys[j]));
        assert(f(j) == g(j));
        assert(is_prod(x[r * c + j], rinv[r], row[j]));
    }
}

/// What the softmax of the numbers `x` gives number `i`, whatever was taken off for safety.
pub open spec fn is_share_of(
    ex: spec_fn(real) -> real,
    x: spec_fn(int) -> real,
    n: nat,
    i: int,
    y: real,
) -> bool {
    y * total_of(|j: int| ex(x(j)), n) == ex(x(i))
}

/// Taking a number off changes no share.
pub proof fn lemma_shift_cancels(
    ex: spec_fn(real) -> real,
    x: spec_fn(int) -> real,
    e: spec_fn(int) -> real,
    shift: real,
    n: nat,
    i: int,
    y: real,
)
    requires
        is_exponential(ex),
        0 <= i < n,
        forall|j: int| 0 <= j < n ==> #[trigger] e(j) == ex(x(j) - shift),
        y * total_of(e, n) == e(i),
    ensures
        is_share_of(ex, x, n, i, y),
{
    let g = ex(-shift);
    let own = |j: int| ex(x(j));
    assert forall|j: int| 0 <= j < n implies #[trigger] e(j) == g * own(j) by {
        let (a, b) = (x(j), -shift);
        assert(ex(a + b) == ex(a) * ex(b));
        assert(a + b == a - shift);
        let (u, v) = (ex(a), ex(b));
        assert(u * v == v * u) by (nonlinear_arith);
    }
    lemma_total_scale(g, own, e, n);
    let (t, o) = (total_of(own, n), own(i));
    assert(e(i) == g * o);
    assert((y * t) * g == y * (g * t)) by (nonlinear_arith);
    assert(o * g == g * o) by (nonlinear_arith);
    lemma_cancel(y * t, o, g);
}

/// Two shares of the same number are the same.
pub proof fn lemma_share_unique(
    ex: spec_fn(real) -> real,
    x: spec_fn(int) -> real,
    n: nat,
    i: int,
    y: real,
    z: real,
)
    requires
        is_exponential(ex),
        0 <= i < n,
        is_share_of(ex, x, n, i, y),
        is_share_of(ex, x, n, i, z),
    ensures
        y == z,
{
    let own = |j: int| ex(x(j));
    assert forall|j: int| 0 <= j < n implies #[trigger] own(j) > 0 as real by {}
    lemma_total_positive(own, n);
    lemma_cancel(y, z, total_of(own, n));
}

/// The softmax of rows on the tape gives shares.
pub proof fn lemma_softmax_nodes_shares<W: Scalar>(
    p: spec_fn(W) -> real,
    ex: spec_fn(real) -> real,
    lg: spec_fn(real) -> real,
    nodes: Seq<Node<W>>,
    xs: Seq<Value>,
    ps: Seq<Value>,
    i: int,
)
    requires
        exact_curves(p, ex, lg),
        is_exponential(ex),
        is_softmax_nodes(nodes, xs, ps),
        0 <= i < xs.len(),
    ensures
        is_share_of(
            ex,
            tape_nums(p, nodes, xs),
            xs.len(),
            i,
            p(data_of(nodes, ps[i])),
        ),
{
    let (shift, es, sum) = choose|shift: W, es: Seq<Value>, sum: Value| #[trigger]
        is_softmax_nodes_by(nodes, xs, ps, shift, es, sum);
    let (x, e) = (tape_nums(p, nodes, xs), tape_nums(p, nodes, es));
    let n = xs.len();
    lemma_sum_node_exact(p, nodes, es, sum);
    assert forall|j: int| 0 <= j < n implies #[trigger] e(j) == ex(x(j) - p(shift)) by {
        assert(is_shifted_exp_node(nodes, xs[j], shift, es[j]));
        let diff = choose|diff: Value| #[trigger]
            is_sub_const(nodes, xs[j], shift, diff) && is_exp_node(nodes, diff, es[j]);
        assert(is_diff(data_of(nodes, xs[j]), shift, data_of(nodes, diff)));
        assert(is_exp(data_of(nodes, diff), data_of(nodes, es[j])));
    }
    assert forall|j: int| 0 <= j < n implies #[trigger] e(j) > 0 as real by {}
    lemma_total_positive(e, n);
    assert(is_div_node(nodes, es[i], sum, ps[i]));
    lemma_quotient(e(i), total_of(e, n));
    lemma_shift_cancels(ex, x, e, p(shift), n, i, p(data_of(nodes, ps[i])));
}

/// The softmax of numbers in memory gives shares.
pub proof fn lemma_softmax_shares<S: Scalar>(
    q: spec_fn(S) -> real,
    ex: spec_fn(real) -> real,
    lg: spec_fn(real) -> real,
    s: Seq<S>,
    ps: Seq<S>,
    i: int,
)
    requires
        exact_curves(q, ex, lg),
        is_exponential(ex),
        is_softmax(s, ps),
        0 <= i < s.len(),
    ensures
        is_share_of(ex, nums(q, s), s.len(), i, q(ps[i])),
{
    let (shift, e, sum) = choose|shift: S, e: Seq<S>, sum: S| #[trigger]
        is_softmax_by(s, ps, shift, e, sum);
    lemma_softmax_exact(q, s, ps, shift, e, sum);
    let (x, es) = (nums(q, s), nums(q, e));
    assert forall|j: int| 0 <= j < s.len() implies #[trigger] es(j) == ex(x(j) - q(shift)) by {
        assert(is_shifted_exp(s[j], shift, e[j]));
        let diff = choose|diff: S| #[trigger] is_diff(s[j], shift, diff) && is_exp(diff, e[j]);
        assert(is_exp(diff, e[j]));
    }
    assert(nums(q, ps)(i) * q(sum) == es(i));
    lemma_shift_cancels(ex, x, es, q(shift), s.len(), i, q(ps[i]));
}

/// Shares depend only on the numbers.
pub proof fn lemma_share_same(
    ex: spec_fn(real) -> real,
    x: spec_fn(int) -> real,
    z: spec_fn(int) -> real,
    n: nat,
    i: int,
    y: real,
)
    requires
        0 <= i < n,
        forall|j: int| 0 <= j < n ==> #[trigger] x(j) == z(j),
        is_share_of(ex, x, n, i, y),
    ensures
        is_share_of(ex, z, n, i, y),
{
    assert(x(i) == z(i));
    lemma_total_same(|j: int| ex(x(j)), |j: int| ex(z(j)), n);
}

} // verus!
