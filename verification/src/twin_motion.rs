//! Motion on the tape and motion of the batched network, operation by operation: where the
//! operands move alike, the results do.
use vstd::prelude::*;

use crate::derivative::moves_residual;
use crate::exact::{
    exact, inner, lemma_cancel, lemma_inner_same, lemma_quotient, lemma_total_add, lemma_total_same,
    lemma_total_scale, total_of,
};
use crate::graph::{
    is_add_nodes, is_dot_node, is_linear_nodes, is_minus_half, is_mul_nodes, is_relu_nodes,
    is_rmsnorm_nodes, is_rmsnorm_nodes_by, is_shifted_exp_node, is_softmax_nodes,
    is_softmax_nodes_by, is_sum_node,
};
use crate::index::{lemma_pair, lemma_unpair};
use crate::motion::{
    matrix_nums, moved_by_input, moved_by_weights, moves_linear, moves_relu, row_moves, row_nums,
};
use crate::motion_loss::{lemma_total_positive, softmax_moved};
use crate::motion_norm::{
    eps_of, lemma_factor_exact, lemma_square_nonnegative, mean_square, moves_factor, moves_norm,
};
use crate::norm::{is_inv_rms, EPS_DEN};
use crate::scalar::{is_exp, is_neg, is_num, is_pow, is_quot, is_ratio, is_sum, Scalar};
use crate::tape::{
    data_of, is_add_const, is_add_node, is_div_const, is_div_node, is_exp_node, is_mul_node,
    is_pow_node, is_relu_node, is_sub_const, Node, Value,
};
use crate::tape_laws::{
    is_input, law_constant_rule, law_exponential_rule, law_power_rule, law_product_rule,
    law_quotient_rule, law_relu_rule, law_sum_rule, moved,
};
use crate::twin_parts::{
    exact_curves, lemma_dot_node_exact, lemma_factor_unique, lemma_scale_node_exact,
    lemma_sum_node_exact, same_row, tape_nums,
};

verus! {

/// Whether every node that has operands moves as they make it move.
pub open spec fn is_full_motion<W>(
    p: spec_fn(W) -> real,
    nodes: Seq<Node<W>>,
    mo: spec_fn(int) -> real,
) -> bool {
    forall|k: int|
        0 <= k < nodes.len() && !is_input(#[trigger] nodes[k]) ==> mo(k) == moved(p, nodes, mo, k)
}

/// How the numbers that handles stand for move.
pub open spec fn tape_moves(mo: spec_fn(int) -> real, vs: Seq<Value>) -> spec_fn(int) -> real {
    |i: int| mo(vs[i].idx as int)
}

/// The handles `vs` move as row `r` of the motion `mx` says.
pub open spec fn same_moves(
    mo: spec_fn(int) -> real,
    vs: Seq<Value>,
    mx: Seq<real>,
    c: nat,
    r: int,
) -> bool {
    &&& vs.len() == c
    &&& forall|j: int| 0 <= j < c ==> #[trigger] tape_moves(mo, vs)(j) == row_moves(mx, c, r)(j)
}

/// The motion of `m` rows of `c` numbers, collected from their handles.
pub open spec fn gathered(
    mo: spec_fn(int) -> real,
    f: spec_fn(int) -> Seq<Value>,
    m: nat,
    c: nat,
) -> Seq<real> {
    Seq::new(m * c, |i: int| mo(f(i / c as int)[i % c as int].idx as int))
}

/// The rows `f` of handles stand for the rows of `x`, and move as `mx` says.
pub open spec fn follows<W, S>(
    p: spec_fn(W) -> real,
    q: spec_fn(S) -> real,
    nodes: Seq<Node<W>>,
    mo: spec_fn(int) -> real,
    f: spec_fn(int) -> Seq<Value>,
    x: Seq<S>,
    mx: Seq<real>,
    m: nat,
    c: nat,
) -> bool {
    forall|r: int|
        0 <= r < m ==> same_row(p, q, nodes, #[trigger] f(r), x, c, r) && same_moves(
            mo,
            f(r),
            mx,
            c,
            r,
        )
}

/// The rows of a matrix of handles.
pub open spec fn rows_fn(w: Seq<Seq<Value>>) -> spec_fn(int) -> Seq<Value> {
    |o: int| w[o]
}

/// Collected motion is the motion of the handles.
pub proof fn lemma_gathered(
    mo: spec_fn(int) -> real,
    f: spec_fn(int) -> Seq<Value>,
    m: nat,
    c: nat,
    r: int,
)
    requires
        0 <= r < m,
        f(r).len() == c,
    ensures
        same_moves(mo, f(r), gathered(mo, f, m, c), c, r),
{
    assert forall|j: int| 0 <= j < c implies #[trigger] tape_moves(mo, f(r))(j) == row_moves(
        gathered(mo, f, m, c),
        c,
        r,
    )(j) by {
        lemma_pair(r, m as int, j, c as int);
    }
}

/// A sum on the tape moves by the sum of the motions.
pub proof fn lemma_sum_node_moves<W: Scalar>(
    p: spec_fn(W) -> real,
    nodes: Seq<Node<W>>,
    mo: spec_fn(int) -> real,
    terms: Seq<Value>,
    r: Value,
)
    requires
        exact(p),
        is_full_motion(p, nodes, mo),
        is_sum_node(nodes, terms, r),
    ensures
        mo(r.idx as int) == total_of(tape_moves(mo, terms), terms.len()),
    decreases terms.len(),
{
    let f = tape_moves(mo, terms);
    if terms.len() <= 1 {
        assert(total_of(f, 1) == total_of(f, 0) + f(0));
    } else {
        let (before, last) = choose|before: Value, last: Value|
            #![trigger is_add_node(nodes, before, last, r)]
            is_sum_node(nodes, terms.drop_last(), before) && last == terms.last() && is_add_node(
                nodes,
                before,
                last,
                r,
            );
        let less = terms.drop_last();
        lemma_sum_node_moves(p, nodes, mo, less, before);
        lemma_total_same(tape_moves(mo, less), f, less.len());
        law_sum_rule(p, nodes, mo, before, last, r);
        assert(!is_input(nodes[r.idx as int]));
        assert(f(terms.len() - 1) == mo(last.idx as int));
    }
}

/// The product rule for a dot product on the tape.
pub proof fn lemma_dot_node_moves<W: Scalar>(
    p: spec_fn(W) -> real,
    nodes: Seq<Node<W>>,
    mo: spec_fn(int) -> real,
    a: Seq<Value>,
    b: Seq<Value>,
    r: Value,
)
    requires
        exact(p),
        is_full_motion(p, nodes, mo),
        is_dot_node(nodes, a, b, r),
    ensures
        mo(r.idx as int) == inner(tape_nums(p, nodes, b), tape_moves(mo, a), a.len()) + inner(
            tape_nums(p, nodes, a),
            tape_moves(mo, b),
            a.len(),
        ),
{
    let ps = choose|ps: Seq<Value>| #[trigger]
        is_mul_nodes(nodes, a, b, ps) && is_sum_node(nodes, ps, r);
    lemma_sum_node_moves(p, nodes, mo, ps, r);
    let (f, g) = (tape_nums(p, nodes, a), tape_nums(p, nodes, b));
    let (mf, mg) = (tape_moves(mo, a), tape_moves(mo, b));
    let (x, y) = (|i: int| g(i) * mf(i), |i: int| f(i) * mg(i));
    assert forall|i: int| 0 <= i < a.len() implies #[trigger] tape_moves(mo, ps)(i) == x(i) + y(
        i,
    ) by {
        assert(is_mul_node(nodes, a[i], b[i], ps[i]));
        law_product_rule(p, nodes, mo, a[i], b[i], ps[i]);
        assert(!is_input(nodes[ps[i].idx as int]));
    }
    lemma_total_add(x, y, tape_moves(mo, ps), a.len());
}

/// How `y = x @ w^T` moves.
pub proof fn lemma_linear_moves<W: Scalar, S: Scalar>(
    p: spec_fn(W) -> real,
    q: spec_fn(S) -> real,
    nodes: Seq<Node<W>>,
    mo: spec_fn(int) -> real,
    fx: spec_fn(int) -> Seq<Value>,
    w: Seq<Seq<Value>>,
    fy: spec_fn(int) -> Seq<Value>,
    x: Seq<S>,
    mx: Seq<real>,
    wm: Seq<S>,
    mw: Seq<real>,
    m: nat,
    n: nat,
    k: nat,
)
    requires
        exact(p),
        is_full_motion(p, nodes, mo),
        w.len() == n,
        follows(p, q, nodes, mo, fx, x, mx, m, k),
        follows(p, q, nodes, mo, rows_fn(w), wm, mw, n, k),
        forall|r: int| 0 <= r < m ==> is_linear_nodes(nodes, fx(r), w, #[trigger] fy(r)),
    ensures
        moves_linear(q, gathered(mo, fy, m, n), x, mx, wm, mw, m, n, k),
{
    let my = gathered(mo, fy, m, n);
    assert forall|r: int, c: int, i: int|
        0 <= r < m && 0 <= c < n && i == r * n + c implies #[trigger] my[i] == #[trigger]
    moved_by_input(q, wm, mx, k, r, c) + moved_by_weights(q, x, mw, k, r, c) by {
        lemma_gathered(mo, fy, m, n, r);
        assert(tape_moves(mo, fy(r))(c) == row_moves(my, n, r)(c));
        let (xs, ws, y) = (fx(r), rows_fn(w)(c), fy(r)[c]);
        assert(is_dot_node(nodes, w[c], xs, fy(r)[c]));
        lemma_dot_node_moves(p, nodes, mo, ws, xs, y);
        assert(same_row(p, q, nodes, xs, x, k, r) && same_moves(mo, xs, mx, k, r));
        assert(same_row(p, q, nodes, ws, wm, k, c) && same_moves(mo, ws, mw, k, c));
        let (nx, nw) = (row_nums(q, x, k, r), row_nums(q, wm, k, c));
        let (dx, dw) = (row_moves(mx, k, r), row_moves(mw, k, c));
        lemma_inner_same(tape_nums(p, nodes, xs), tape_moves(mo, ws), nx, dw, k);
        lemma_inner_same(tape_nums(p, nodes, ws), tape_moves(mo, xs), nw, dx, k);
        lemma_total_same(
            |j: int| nw(j) * dx(j),
            |j: int| matrix_nums(q, wm, k)(c, j) * dx(j),
            k,
        );
        lemma_total_same(
            |j: int| nx(j) * dw(j),
            |j: int| matrix_nums(q, x, k)(r, j) * dw(j),
            k,
        );
    }
}

/// How `y = x + h @ w^T` moves.
pub proof fn lemma_residual_moves<W: Scalar, S: Scalar>(
    p: spec_fn(W) -> real,
    q: spec_fn(S) -> real,
    nodes: Seq<Node<W>>,
    mo: spec_fn(int) -> real,
    fx: spec_fn(int) -> Seq<Value>,
    fh: spec_fn(int) -> Seq<Value>,
    w: Seq<Seq<Value>>,
    fo: spec_fn(int) -> Seq<Value>,
    fy: spec_fn(int) -> Seq<Value>,
    h: Seq<S>,
    mh: Seq<real>,
    wm: Seq<S>,
    mw: Seq<real>,
    m: nat,
    n: nat,
    k: nat,
)
    requires
        exact(p),
        is_full_motion(p, nodes, mo),
        w.len() == n,
        n > 0,
        forall|r: int| 0 <= r < m ==> (#[trigger] fx(r)).len() == n,
        follows(p, q, nodes, mo, fh, h, mh, m, k),
        follows(p, q, nodes, mo, rows_fn(w), wm, mw, n, k),
        forall|r: int| 0 <= r < m ==> is_linear_nodes(nodes, fh(r), w, #[trigger] fo(r)),
        forall|r: int| 0 <= r < m ==> is_add_nodes(nodes, fo(r), fx(r), #[trigger] fy(r)),
    ensures
        moves_residual(
            q,
            gathered(mo, fy, m, n),
            gathered(mo, fx, m, n),
            h,
            mh,
            wm,
            mw,
            m,
            n,
            k,
        ),
{
    let (my, mx, out) = (
        gathered(mo, fy, m, n),
        gathered(mo, fx, m, n),
        gathered(mo, fo, m, n),
    );
    lemma_linear_moves(p, q, nodes, mo, fh, w, fo, h, mh, wm, mw, m, n, k);
    assert forall|i: int| 0 <= i < m * n implies #[trigger] my[i] == mx[i] + out[i] by {
        lemma_unpair(i, m as int, n as int);
        let (r, j) = (i / n as int, i % n as int);
        let (a, b, s) = (fo(r)[j], fx(r)[j], fy(r)[j]);
        assert(is_linear_nodes(nodes, fh(r), w, fo(r)));
        assert(is_add_nodes(nodes, fo(r), fx(r), fy(r)));
        assert(is_add_node(nodes, a, b, s));
        law_sum_rule(p, nodes, mo, a, b, s);
        assert(!is_input(nodes[s.idx as int]));
    }
}

/// How a cut-off moves.
pub proof fn lemma_relu_moves<W: Scalar, S: Scalar>(
    p: spec_fn(W) -> real,
    q: spec_fn(S) -> real,
    nodes: Seq<Node<W>>,
    mo: spec_fn(int) -> real,
    fx: spec_fn(int) -> Seq<Value>,
    fy: spec_fn(int) -> Seq<Value>,
    x: Seq<S>,
    mx: Seq<real>,
    m: nat,
    c: nat,
)
    requires
        exact(p),
        is_full_motion(p, nodes, mo),
        c > 0,
        follows(p, q, nodes, mo, fx, x, mx, m, c),
        forall|r: int| 0 <= r < m ==> is_relu_nodes(nodes, fx(r), #[trigger] fy(r)),
    ensures
        moves_relu(q, gathered(mo, fy, m, c), x, mx, m * c),
{
    let my = gathered(mo, fy, m, c);
    assert forall|i: int| 0 <= i < m * c implies #[trigger] my[i] == if q(x[i]) > 0 as real {
        mx[i]
    } else {
        0 as real
    } by {
        lemma_unpair(i, m as int, c as int);
        let (r, j) = (i / c as int, i % c as int);
        let (a, b) = (fx(r)[j], fy(r)[j]);
        assert(same_row(p, q, nodes, fx(r), x, c, r) && same_moves(mo, fx(r), mx, c, r));
        assert(tape_nums(p, nodes, fx(r))(j) == row_nums(q, x, c, r)(j));
        assert(tape_moves(mo, fx(r))(j) == row_moves(mx, c, r)(j));
        assert(is_relu_nodes(nodes, fx(r), fy(r)));
        assert(is_relu_node(nodes, a, b));
        law_relu_rule(p, nodes, mo, a, b);
        assert(!is_input(nodes[b.idx as int]));
    }
}

/// How one over a root moves, put without division.
proof fn lemma_power_moves(h: real, w: real, b: real, r: real, mm: real, mr: real)
    requires
        mr == h * w * mm,
        2 as real * h == -(1 as real),
        w * b == r,
    ensures
        2 as real * r * mr * b + r * r * mm == 0 as real,
{
    assert(2 as real * r * (h * w * mm) * b == (2 as real * h) * (r * (w * b) * mm))
        by (nonlinear_arith);
    let x = r * r * mm;
    assert((-(1 as real)) * x + x == 0 as real) by (nonlinear_arith);
}

/// How the factor of a row moves: twice the factor, times its motion, times the square it
/// divides, plus the square of the factor times the motion of the mean square, is zero.
pub proof fn lemma_scale_node_moves<W: Scalar>(
    p: spec_fn(W) -> real,
    ex: spec_fn(real) -> real,
    lg: spec_fn(real) -> real,
    nodes: Seq<Node<W>>,
    mo: spec_fn(int) -> real,
    xs: Seq<Value>,
    ys: Seq<Value>,
    squares: Value,
    ms: Value,
    scale: Value,
)
    requires
        exact_curves(p, ex, lg),
        is_full_motion(p, nodes, mo),
        0 < xs.len() <= u64::MAX,
        is_rmsnorm_nodes_by(nodes, xs, ys, squares, ms, scale),
    ensures
        ({
            let (f, mf) = (tape_nums(p, nodes, xs), tape_moves(mo, xs));
            let (r, mr) = (p(data_of(nodes, scale)), mo(scale.idx as int));
            2 as real * r * mr * (inner(f, f, xs.len()) / xs.len() as real + eps_of()) + r * r * (
            2 as real * inner(f, mf, xs.len()) / xs.len() as real) == 0 as real
        }),
{
    let (f, mf) = (tape_nums(p, nodes, xs), tape_moves(mo, xs));
    let n = xs.len() as real;
    lemma_dot_node_exact(p, nodes, xs, xs, squares);
    lemma_dot_node_moves(p, nodes, mo, xs, xs, squares);
    lemma_scale_node_exact(p, ex, lg, nodes, xs, ys, squares, ms, scale);
    lemma_square_nonnegative(f, xs.len());
    let count = choose|count: W|
        is_num(xs.len() as u64, count) && #[trigger] is_div_const(nodes, squares, count, ms);
    assert(p(count) == n);
    assert(is_quot(data_of(nodes, squares), count, data_of(nodes, ms)));
    let (top, mean) = (inner(f, f, xs.len()), p(data_of(nodes, ms)));
    assert(mean == top / n);
    law_constant_rule(p, nodes, mo, squares, count, ms);
    assert(!is_input(nodes[ms.idx as int]));
    let mm = mo(ms.idx as int);
    let both = inner(f, mf, xs.len());
    assert(mm == (both + both) / n);
    assert(2 as real * both == both + both) by (nonlinear_arith);
    let (eps, padded, k) = choose|eps: W, padded: Value, k: W|
        #![trigger is_add_const(nodes, ms, eps, padded), is_pow_node(nodes, padded, k, scale)]
        is_ratio(1, EPS_DEN, eps) && is_add_const(nodes, ms, eps, padded) && is_minus_half(k)
            && is_pow_node(nodes, padded, k, scale);
    assert(p(eps) == eps_of());
    law_constant_rule(p, nodes, mo, ms, eps, padded);
    assert(!is_input(nodes[padded.idx as int]));
    assert(is_sum(data_of(nodes, ms), eps, data_of(nodes, padded)));
    law_power_rule(p, nodes, mo, padded, k, scale);
    assert(!is_input(nodes[scale.idx as int]));
    let (less, power) = choose|less: W, power: W|
        p(less) == p(k) - 1 as real && #[trigger] is_pow(data_of(nodes, padded), less, power)
            && moved(p, nodes, mo, scale.idx as int) == p(k) * p(power) * mo(padded.idx as int);
    let half = choose|half: W| is_ratio(1, 2, half) && #[trigger] is_neg(half, k);
    lemma_quotient(1u32 as real, 2u32 as real);
    let (h, w, b) = (p(k), p(power), p(data_of(nodes, padded)));
    let (r, mr) = (p(data_of(nodes, scale)), mo(scale.idx as int));
    assert(b == mean + eps_of());
    let e = p(half);
    assert(e * (2 as real) == 1 as real);
    assert(2 as real * h == -(1 as real)) by (nonlinear_arith)
        requires
            h == -e,
            e * (2 as real) == 1 as real,
    ;
    assert(is_pow(data_of(nodes, padded), k, data_of(nodes, scale)));
    assert(w * b == r);
    assert(mr == h * w * mm);
    lemma_power_moves(h, w, b, r, mm, mr);
}

/// How the normalization of rows moves. `fr` are the factors of the rows.
pub proof fn lemma_norm_moves<W: Scalar, S: Scalar>(
    p: spec_fn(W) -> real,
    q: spec_fn(S) -> real,
    ex: spec_fn(real) -> real,
    lg: spec_fn(real) -> real,
    nodes: Seq<Node<W>>,
    mo: spec_fn(int) -> real,
    fx: spec_fn(int) -> Seq<Value>,
    fy: spec_fn(int) -> Seq<Value>,
    x: Seq<S>,
    rinv: Seq<S>,
    mx: Seq<real>,
    m: nat,
    c: nat,
)
    requires
        exact_curves(p, ex, lg),
        exact(q),
        is_full_motion(p, nodes, mo),
        0 < c <= u64::MAX,
        follows(p, q, nodes, mo, fx, x, mx, m, c),
        forall|r: int| 0 <= r < m ==> is_rmsnorm_nodes(nodes, fx(r), #[trigger] fy(r)),
        forall|r: int| 0 <= r < m ==> is_inv_rms(x, c, r, #[trigger] rinv[r]),
    ensures
        moves_norm(
            q,
            gathered(mo, fy, m, c),
            factor_moves(nodes, mo, fx, fy, m),
            x,
            rinv,
            mx,
            m,
            c,
        ),
{
    let (my, mr) = (gathered(mo, fy, m, c), factor_moves(nodes, mo, fx, fy, m));
    assert forall|t: int| 0 <= t < m implies moves_factor(
        q,
        #[trigger] mr[t],
        q(rinv[t]),
        x,
        mx,
        c,
        t,
    ) by {
        lemma_norm_row_moves(p, q, ex, lg, nodes, mo, fx, fy, x, rinv, mx, m, c, t);
    }
    assert forall|t: int, j: int| 0 <= t < m && 0 <= j < c implies #[trigger] row_moves(my, c, t)(j)
        == row_moves(mx, c, t)(j) * q(rinv[t]) + row_nums(q, x, c, t)(j) * mr[t] by {
        lemma_norm_row_moves(p, q, ex, lg, nodes, mo, fx, fy, x, rinv, mx, m, c, t);
    }
}

/// The factor by which a row was normalized.
pub open spec fn factor_of<W: Scalar>(
    nodes: Seq<Node<W>>,
    xs: Seq<Value>,
    ys: Seq<Value>,
) -> Value {
    let (squares, ms, scale) = choose|squares: Value, ms: Value, scale: Value| #[trigger]
        is_rmsnorm_nodes_by(nodes, xs, ys, squares, ms, scale);
    scale
}

/// The motion of the factors of the rows.
pub open spec fn factor_moves<W: Scalar>(
    nodes: Seq<Node<W>>,
    mo: spec_fn(int) -> real,
    fx: spec_fn(int) -> Seq<Value>,
    fy: spec_fn(int) -> Seq<Value>,
    m: nat,
) -> Seq<real> {
    Seq::new(m, |t: int| mo(factor_of(nodes, fx(t), fy(t)).idx as int))
}

/// How the normalization of row `t` moves.
proof fn lemma_norm_row_moves<W: Scalar, S: Scalar>(
    p: spec_fn(W) -> real,
    q: spec_fn(S) -> real,
    ex: spec_fn(real) -> real,
    lg: spec_fn(real) -> real,
    nodes: Seq<Node<W>>,
    mo: spec_fn(int) -> real,
    fx: spec_fn(int) -> Seq<Value>,
    fy: spec_fn(int) -> Seq<Value>,
    x: Seq<S>,
    rinv: Seq<S>,
    mx: Seq<real>,
    m: nat,
    c: nat,
    t: int,
)
    requires
        exact_curves(p, ex, lg),
        exact(q),
        is_full_motion(p, nodes, mo),
        0 < c <= u64::MAX,
        follows(p, q, nodes, mo, fx, x, mx, m, c),
        0 <= t < m,
        is_rmsnorm_nodes(nodes, fx(t), fy(t)),
        is_inv_rms(x, c, t, rinv[t]),
    ensures
        moves_factor(q, factor_moves(nodes, mo, fx, fy, m)[t], q(rinv[t]), x, mx, c, t),
        forall|j: int|
            0 <= j < c ==> #[trigger] row_moves(gathered(mo, fy, m, c), c, t)(j) == row_moves(
                mx,
                c,
                t,
            )(j) * q(rinv[t]) + row_nums(q, x, c, t)(j) * factor_moves(nodes, mo, fx, fy, m)[t],
{
    let (xs, ys) = (fx(t), fy(t));
    let (squares, ms, scale) = choose|squares: Value, ms: Value, scale: Value| #[trigger]
        is_rmsnorm_nodes_by(nodes, xs, ys, squares, ms, scale);
    assert(scale == factor_of(nodes, xs, ys));
    assert(same_row(p, q, nodes, xs, x, c, t) && same_moves(mo, xs, mx, c, t));
    lemma_scale_node_exact(p, ex, lg, nodes, xs, ys, squares, ms, scale);
    lemma_scale_node_moves(p, ex, lg, nodes, mo, xs, ys, squares, ms, scale);
    lemma_factor_exact(q, x, c, t, rinv[t]);
    let (f, mf) = (tape_nums(p, nodes, xs), tape_moves(mo, xs));
    let (g, mg) = (row_nums(q, x, c, t), row_moves(mx, c, t));
    lemma_inner_same(f, f, g, g, c);
    lemma_inner_same(f, mf, g, mg, c);
    let (a, b) = (p(data_of(nodes, scale)), q(rinv[t]));
    lemma_factor_unique(a, b, mean_square(q, x, c, t) + eps_of());
    let my = gathered(mo, fy, m, c);
    lemma_gathered(mo, fy, m, c, t);
    assert forall|j: int| 0 <= j < c implies #[trigger] row_moves(my, c, t)(j) == mg(j) * b + g(j)
        * mo(scale.idx as int) by {
        assert(tape_moves(mo, ys)(j) == row_moves(my, c, t)(j));
        assert(is_mul_node(nodes, xs[j], scale, ys[j]));
        law_product_rule(p, nodes, mo, xs[j], scale, ys[j]);
        assert(!is_input(nodes[ys[j].idx as int]));
        assert(f(j) == g(j) && mf(j) == mg(j));
        let (u, v) = (a, mf(j));
        assert(u * v == v * u) by (nonlinear_arith);
    }
}

/// The quotient rule for a share, simplified.
proof fn lemma_share_moves(
    a: real,
    b: real,
    d: real,
    s: real,
    mean: real,
    md: real,
    ms: real,
    r: real,
)
    requires
        s > 0 as real,
        d > 0 as real,
        a * s == d,
        md == d * b,
        ms == s * mean,
        r == (md * s - d * ms) / (s * s),
    ensures
        r == a * (b - mean),
        a > 0 as real,
{
    let square = s * s;
    assert(square > 0 as real) by (nonlinear_arith)
        requires
            square == s * s,
            s > 0 as real,
    ;
    assert(a > 0 as real) by (nonlinear_arith)
        requires
            a * s > 0 as real,
            s > 0 as real,
    ;
    lemma_quotient(md * s - d * ms, square);
    assert((a * s) * b * s - (a * s) * (s * mean) == (a * (b - mean)) * (s * s))
        by (nonlinear_arith);
    lemma_cancel(r, a * (b - mean), square);
}

/// How a softmax on the tape moves.
pub proof fn lemma_softmax_nodes_moves<W: Scalar>(
    p: spec_fn(W) -> real,
    nodes: Seq<Node<W>>,
    mo: spec_fn(int) -> real,
    xs: Seq<Value>,
    ps: Seq<Value>,
    i: int,
)
    requires
        exact(p),
        is_full_motion(p, nodes, mo),
        is_softmax_nodes(nodes, xs, ps),
        0 <= i < xs.len(),
    ensures
        mo(ps[i].idx as int) == softmax_moved(
            tape_nums(p, nodes, ps),
            tape_moves(mo, xs),
            xs.len(),
            i,
        ),
        p(data_of(nodes, ps[i])) > 0 as real,
{
    let n = xs.len();
    let (shift, es, sum) = choose|shift: W, es: Seq<Value>, sum: Value| #[trigger]
        is_softmax_nodes_by(nodes, xs, ps, shift, es, sum);
    let (e, me, mx) = (tape_nums(p, nodes, es), tape_moves(mo, es), tape_moves(mo, xs));
    let y = tape_nums(p, nodes, ps);
    lemma_sum_node_exact(p, nodes, es, sum);
    lemma_sum_node_moves(p, nodes, mo, es, sum);
    assert forall|j: int| 0 <= j < n implies #[trigger] e(j) > 0 as real && me(j) == e(j) * mx(
        j,
    ) by {
        assert(is_shifted_exp_node(nodes, xs[j], shift, es[j]));
        let diff = choose|diff: Value| #[trigger]
            is_sub_const(nodes, xs[j], shift, diff) && is_exp_node(nodes, diff, es[j]);
        assert(is_exp(data_of(nodes, diff), data_of(nodes, es[j])));
        law_constant_rule(p, nodes, mo, xs[j], shift, diff);
        assert(!is_input(nodes[diff.idx as int]));
        law_exponential_rule(p, nodes, mo, diff, es[j]);
        assert(!is_input(nodes[es[j].idx as int]));
    }
    lemma_total_positive(e, n);
    let (s, msum) = (p(data_of(nodes, sum)), mo(sum.idx as int));
    let own = |j: int| y(j) * mx(j);
    assert forall|j: int| 0 <= j < n implies #[trigger] me(j) == s * own(j) by {
        assert(is_div_node(nodes, es[j], sum, ps[j]));
        lemma_quotient(e(j), s);
        let (a, b, d) = (y(j), mx(j), e(j));
        assert(e(j) > 0 as real);
        assert((a * s) * b == s * (a * b)) by (nonlinear_arith);
        assert(a * s == d);
    }
    lemma_total_scale(s, own, me, n);
    let mean = inner(y, mx, n);
    assert(msum == s * mean);
    assert(is_div_node(nodes, es[i], sum, ps[i]));
    law_quotient_rule(p, nodes, mo, es[i], sum, ps[i]);
    assert(!is_input(nodes[ps[i].idx as int]));
    lemma_quotient(e(i), s);
    lemma_share_moves(y(i), mx(i), e(i), s, mean, me(i), msum, mo(ps[i].idx as int));
}

} // verus!
