//! The network as a function of real numbers: what the logits of a position are, given the
//! parameters and the tokens up to it. The batched network computes this function, in exact
//! arithmetic.
use vstd::prelude::*;

use crate::attention::{
    causal_row, is_attn_mix, is_attn_softmax, is_causal_sum, is_scaled_dot, is_score_scale,
    is_scores, softmax_row, Heads, Side,
};
use crate::descent::is_root_of;
use crate::embed::embed_row;
use crate::exact::{
    exact, lemma_cancel, lemma_quotient, lemma_total_same, lemma_total_scale, total_of,
};
use crate::index::{lemma_pair, lemma_row_inside, lemma_unpair, lemma_whole_rows};
use crate::matmul::{is_linear, linear_row};
use crate::motion::{lemma_dot_exact, matrix_nums, nums, row_nums};
use crate::motion_attention::{
    lemma_places, lemma_scale_exact, lemma_step_down, lemma_weight_places, lemma_weight_row,
};
use crate::motion_loss::lemma_total_positive;
use crate::motion_norm::{eps_of, lemma_factor_exact, mean_square};
use crate::network::{
    input_of, is_forward, is_layer, is_residual, LayerValues, LayerWeights, Values, Weights,
};
use crate::norm::{is_inv_rms, is_rmsnorm, scaled_row};
use crate::plan::run_tokens;
use crate::pointwise::{is_add, is_relu, is_relu_fwd};
use crate::reduce::{is_dot, is_softmax};
use crate::rows::row_of;
use crate::scalar::{is_max, is_prod, is_sum, is_zero, Scalar};
use crate::shape::Shape;
use crate::twin_parts::{exact_curves, is_exponential, lemma_softmax_shares};

verus! {

/// A vector times a matrix of `k` columns.
pub open spec fn times(
    w: spec_fn(int, int) -> real,
    x: spec_fn(int) -> real,
    k: nat,
) -> spec_fn(int) -> real {
    |i: int| total_of(|j: int| w(i, j) * x(j), k)
}

/// A vector of `c` numbers over the root of its mean square, which is kept from zero.
pub open spec fn unit_scale(
    rt: spec_fn(real) -> real,
    x: spec_fn(int) -> real,
    c: nat,
) -> spec_fn(int) -> real {
    |j: int| x(j) / rt(total_of(|i: int| x(i) * x(i), c) / c as real + 1 as real / 100_000 as real)
}

/// A vector with zeros in place of what is below zero.
pub open spec fn cut_off(x: spec_fn(int) -> real) -> spec_fn(int) -> real {
    |j: int|
        if x(j) > 0 as real {
            x(j)
        } else {
            0 as real
        }
}

/// Two vectors, one added to the other.
pub open spec fn plus(x: spec_fn(int) -> real, y: spec_fn(int) -> real) -> spec_fn(int) -> real {
    |j: int| x(j) + y(j)
}

/// How much a query and a key have in common in head `h`, which has `d` numbers.
pub open spec fn closeness(
    rt: spec_fn(real) -> real,
    d: nat,
    h: int,
    q: spec_fn(int) -> real,
    k: spec_fn(int) -> real,
) -> real {
    total_of(|e: int| q(h * d + e) * k(h * d + e), d) / rt(d as real)
}

/// What position `t` gathers from the values up to it: in every head their mean, in which the
/// closer keys weigh exponentially more.
pub open spec fn gather(
    ex: spec_fn(real) -> real,
    rt: spec_fn(real) -> real,
    d: nat,
    q: spec_fn(int) -> real,
    k: spec_fn(int) -> spec_fn(int) -> real,
    v: spec_fn(int) -> spec_fn(int) -> real,
    t: int,
) -> spec_fn(int) -> real {
    |col: int|
        total_of(
            |u: int| ex(closeness(rt, d, col / d as int, q, k(u))) * v(u)(col),
            (t + 1) as nat,
        ) / total_of(|u: int| ex(closeness(rt, d, col / d as int, q, k(u))), (t + 1) as nat)
}

/// The matrices of a layer, as numbers.
pub struct Block {
    pub q: spec_fn(int, int) -> real,
    pub k: spec_fn(int, int) -> real,
    pub v: spec_fn(int, int) -> real,
    pub o: spec_fn(int, int) -> real,
    pub up: spec_fn(int, int) -> real,
    pub down: spec_fn(int, int) -> real,
}

/// The matrices of the network, as numbers, with its sizes: the width of a position, the
/// numbers of a head, the layers.
pub struct Net {
    pub wte: spec_fn(int, int) -> real,
    pub wpe: spec_fn(int, int) -> real,
    pub head: spec_fn(int, int) -> real,
    pub blocks: spec_fn(int) -> Block,
    pub c: nat,
    pub d: nat,
    pub depth: nat,
}

/// Position `t` after attention: what went in, and what it gathers from the positions up to it.
pub open spec fn attended(
    ex: spec_fn(real) -> real,
    rt: spec_fn(real) -> real,
    b: Block,
    c: nat,
    d: nat,
    x: spec_fn(int) -> spec_fn(int) -> real,
    t: int,
) -> spec_fn(int) -> real {
    plus(
        x(t),
        times(
            b.o,
            gather(
                ex,
                rt,
                d,
                times(b.q, unit_scale(rt, x(t), c), c),
                |u: int| times(b.k, unit_scale(rt, x(u), c), c),
                |u: int| times(b.v, unit_scale(rt, x(u), c), c),
                t,
            ),
            c,
        ),
    )
}

/// Position `t` after the layer: what attention made of it, and what the perceptron adds.
pub open spec fn blocked(
    ex: spec_fn(real) -> real,
    rt: spec_fn(real) -> real,
    b: Block,
    c: nat,
    d: nat,
    x: spec_fn(int) -> spec_fn(int) -> real,
    t: int,
) -> spec_fn(int) -> real {
    let mid = attended(ex, rt, b, c, d, x, t);
    plus(mid, times(b.down, cut_off(times(b.up, unit_scale(rt, mid, c), c)), 4 * c))
}

/// What is known of every position after `l` layers.
pub open spec fn hidden(
    ex: spec_fn(real) -> real,
    rt: spec_fn(real) -> real,
    net: Net,
    tokens: spec_fn(int) -> int,
    l: nat,
) -> spec_fn(int) -> spec_fn(int) -> real
    decreases l,
{
    if l == 0 {
        |t: int|
            unit_scale(rt, |j: int| (net.wte)(tokens(t), j) + (net.wpe)(t, j), net.c)
    } else {
        |t: int|
            blocked(
                ex,
                rt,
                (net.blocks)(l - 1),
                net.c,
                net.d,
                hidden(ex, rt, net, tokens, (l - 1) as nat),
                t,
            )
    }
}

/// The logits behind position `t` of a document.
pub open spec fn logits(
    ex: spec_fn(real) -> real,
    rt: spec_fn(real) -> real,
    net: Net,
    tokens: spec_fn(int) -> int,
    t: int,
) -> spec_fn(int) -> real {
    times(net.head, hidden(ex, rt, net, tokens, net.depth)(t), net.c)
}

/// The matrices of a layer in memory, as numbers.
pub open spec fn block_of<S>(val: spec_fn(S) -> real, s: Shape, w: LayerWeights<S>) -> Block {
    let (c, c4) = (s.cfg.n_embd as nat, (4 * s.cfg.n_embd) as nat);
    Block {
        q: matrix_nums(val, w.wq, c),
        k: matrix_nums(val, w.wk, c),
        v: matrix_nums(val, w.wv, c),
        o: matrix_nums(val, w.wo, c),
        up: matrix_nums(val, w.fc1, c),
        down: matrix_nums(val, w.fc2, c4),
    }
}

/// The matrices in memory, as numbers.
pub open spec fn net_of<S>(val: spec_fn(S) -> real, s: Shape, w: Weights<S>) -> Net {
    let c = s.cfg.n_embd as nat;
    Net {
        wte: matrix_nums(val, w.wte, c),
        wpe: matrix_nums(val, w.wpe, c),
        head: matrix_nums(val, w.lm_head, c),
        blocks: |li: int| block_of(val, s, w.layers[li]),
        c,
        d: (s.cfg.n_embd as int / s.cfg.n_head as int) as nat,
        depth: s.cfg.n_layer as nat,
    }
}

/// Whether `rt` is the root of what is not below zero.
pub open spec fn is_root_function(rt: spec_fn(real) -> real) -> bool {
    forall|x: real| x >= 0 as real ==> is_root_of(x, #[trigger] rt(x))
}

/// Row `r` of `x`, which has rows of `n` numbers, is the vector `f`.
pub open spec fn reads<S>(
    val: spec_fn(S) -> real,
    x: Seq<S>,
    n: nat,
    r: int,
    f: spec_fn(int) -> real,
) -> bool {
    forall|j: int| 0 <= j < n ==> val(#[trigger] x[r * n + j]) == f(j)
}

/// A product with a matrix.
proof fn lemma_reads_linear<S: Scalar>(
    val: spec_fn(S) -> real,
    y: Seq<S>,
    x: Seq<S>,
    w: Seq<S>,
    m: nat,
    n: nat,
    k: nat,
    r: int,
    f: spec_fn(int) -> real,
)
    requires
        exact(val),
        n > 0,
        0 <= r < m,
        y.len() == m * n,
        is_linear(y, x, w, n, k),
        reads(val, x, k, r, f),
    ensures
        reads(val, y, n, r, times(matrix_nums(val, w, k), f, k)),
{
    lemma_whole_rows(m as int, n as int);
    lemma_row_inside(r, m as int, n as int);
    let row = row_of(y, n, r);
    assert(linear_row(x, w, k, r, row));
    assert forall|o: int| 0 <= o < n implies val(#[trigger] y[r * n + o]) == times(
        matrix_nums(val, w, k),
        f,
        k,
    )(o) by {
        assert(row[o] == y[r * n + o]);
        assert(is_dot(x, r * k, 1, w, o * k, 1, k, row[o]));
        lemma_dot_exact(val, x, r * k, 1, w, o * k, 1, k, row[o]);
        let mw = matrix_nums(val, w, k);
        let (g, h) = (
            |i: int| val(x[r * k + i * 1]) * val(w[o * k + i * 1]),
            |j: int| mw(o, j) * f(j),
        );
        assert forall|j: int| 0 <= j < k implies #[trigger] g(j) == h(j) by {
            assert(val(x[r * k + j]) == f(j));
            let (a, b) = (f(j), mw(o, j));
            assert(a * b == b * a) by (nonlinear_arith);
        }
        lemma_total_same(g, h, k);
    }
}

/// The normalization of a row.
proof fn lemma_reads_norm<S: Scalar>(
    val: spec_fn(S) -> real,
    rt: spec_fn(real) -> real,
    y: Seq<S>,
    rinv: Seq<S>,
    x: Seq<S>,
    m: nat,
    c: nat,
    r: int,
    f: spec_fn(int) -> real,
)
    requires
        exact(val),
        is_root_function(rt),
        0 < c <= u64::MAX,
        0 <= r < m,
        y.len() == m * c,
        rinv.len() == m,
        is_rmsnorm(y, rinv, x, c),
        reads(val, x, c, r, f),
    ensures
        reads(val, y, c, r, unit_scale(rt, f, c)),
{
    lemma_whole_rows(m as int, c as int);
    lemma_row_inside(r, m as int, c as int);
    assert(is_inv_rms(x, c, r, rinv[r]));
    lemma_factor_exact(val, x, c, r, rinv[r]);
    let g = row_nums(val, x, c, r);
    let (a, b) = (|i: int| f(i) * f(i), |i: int| g(i) * g(i));
    assert forall|i: int| 0 <= i < c implies #[trigger] a(i) == b(i) by {
        assert(val(x[r * c + i]) == f(i));
    }
    lemma_total_same(a, b, c);
    let square = total_of(a, c) / c as real + 1 as real / 100_000 as real;
    assert(square == mean_square(val, x, c, r) + eps_of());
    let (z, root) = (val(rinv[r]), rt(square));
    assert(square > 0 as real) by (nonlinear_arith)
        requires
            z * z * square == 1 as real,
    ;
    assert(is_root_of(square, root));
    assert(z * root == 1 as real) by (nonlinear_arith)
        requires
            z > 0 as real,
            root >= 0 as real,
            root * root == square,
            z * z * square == 1 as real,
    ;
    let row = row_of(y, c, r);
    assert(scaled_row(x, rinv, r, row));
    assert forall|j: int| 0 <= j < c implies val(#[trigger] y[r * c + j]) == unit_scale(
        rt,
        f,
        c,
    )(j) by {
        assert(row[j] == y[r * c + j]);
        assert(val(x[r * c + j]) == f(j));
        assert(is_prod(x[r * c + j], rinv[r], row[j]));
        let v = f(j);
        assert(root != 0 as real) by (nonlinear_arith)
            requires
                z * root == 1 as real,
        ;
        lemma_quotient(v, root);
        assert((v * z) * root == v) by (nonlinear_arith)
            requires
                z * root == 1 as real,
        ;
        lemma_cancel(v * z, v / root, root);
    }
}

/// The cut-off of a row.
proof fn lemma_reads_relu<S: Scalar>(
    val: spec_fn(S) -> real,
    ex: spec_fn(real) -> real,
    lg: spec_fn(real) -> real,
    y: Seq<S>,
    x: Seq<S>,
    m: nat,
    c: nat,
    r: int,
    f: spec_fn(int) -> real,
)
    requires
        exact_curves(val, ex, lg),
        0 <= r < m,
        y.len() == m * c,
        is_relu_fwd(y, x),
        reads(val, x, c, r, f),
    ensures
        reads(val, y, c, r, cut_off(f)),
{
    lemma_row_inside(r, m as int, c as int);
    assert forall|j: int| 0 <= j < c implies val(#[trigger] y[r * c + j]) == cut_off(f)(j) by {
        let i = r * c + j;
        assert(is_relu(x[i], y[i]));
        assert(val(x[r * c + j]) == f(j));
        let zero = choose|zero: S| is_zero(zero) && #[trigger] is_max(x[i], zero, y[i]);
        assert(val(zero) == 0 as real);
    }
}

/// A product with a matrix, added to what went in.
proof fn lemma_reads_residual<S: Scalar>(
    val: spec_fn(S) -> real,
    y: Seq<S>,
    x: Seq<S>,
    h: Seq<S>,
    w: Seq<S>,
    m: nat,
    n: nat,
    k: nat,
    r: int,
    f: spec_fn(int) -> real,
    g: spec_fn(int) -> real,
)
    requires
        exact(val),
        n > 0,
        0 <= r < m,
        y.len() == m * n,
        is_residual(y, x, h, w, n, k),
        reads(val, x, n, r, f),
        reads(val, h, k, r, g),
    ensures
        reads(val, y, n, r, plus(f, times(matrix_nums(val, w, k), g, k))),
{
    let out = choose|out: Seq<S>|
        out.len() == y.len() && #[trigger] is_linear(out, h, w, n, k) && is_add(y, x, out);
    lemma_reads_linear(val, out, h, w, m, n, k, r, g);
    lemma_row_inside(r, m as int, n as int);
    let p = times(matrix_nums(val, w, k), g, k);
    assert forall|j: int| 0 <= j < n implies val(#[trigger] y[r * n + j]) == plus(f, p)(j) by {
        assert(val(x[r * n + j]) == f(j));
        assert(val(out[r * n + j]) == p(j));
        assert(is_sum(x[r * n + j], out[r * n + j], y[r * n + j]));
    }
}

/// The scores of one head.
proof fn lemma_reads_score<S: Scalar>(
    val: spec_fn(S) -> real,
    rt: spec_fn(real) -> real,
    hs: Heads,
    b: int,
    h: int,
    t: int,
    u: int,
    qm: Seq<S>,
    km: Seq<S>,
    scale: S,
    r: S,
    q: spec_fn(int) -> real,
    k: spec_fn(int) -> real,
)
    requires
        exact(val),
        is_root_function(rt),
        hs.d > 0,
        0 <= b < hs.b_n,
        0 <= h < hs.h_n,
        0 <= u <= t < hs.t_len,
        reads(val, qm, hs.width() as nat, hs.position(b, t), q),
        reads(val, km, hs.width() as nat, hs.position(b, u), k),
        is_score_scale(hs.d as nat, scale),
        is_scaled_dot(
            qm,
            hs.head_start(b, t, h),
            1,
            km,
            hs.head_start(b, u, h),
            1,
            hs.d as nat,
            scale,
            r,
        ),
    ensures
        val(r) == closeness(rt, hs.d as nat, h, q, k),
{
    let d = hs.d as nat;
    let c = hs.width() as nat;
    let (st, su) = (hs.head_start(b, t, h), hs.head_start(b, u, h));
    let acc = choose|acc: S| #[trigger]
        is_dot(qm, st, 1, km, su, 1, d, acc) && is_prod(acc, scale, r);
    lemma_dot_exact(val, qm, st, 1, km, su, 1, d, acc);
    let (f, g) = (
        |i: int| val(qm[st + i * 1]) * val(km[su + i * 1]),
        |e: int| q(h * d + e) * k(h * d + e),
    );
    assert forall|i: int| 0 <= i < d implies #[trigger] f(i) == g(i) by {
        lemma_places(hs, b, h, t, i);
        lemma_places(hs, b, h, u, i);
        assert(val(qm[hs.position(b, t) * c + (h * hs.d + i)]) == q(h * hs.d + i));
        assert(val(km[hs.position(b, u) * c + (h * hs.d + i)]) == k(h * hs.d + i));
    }
    lemma_total_same(f, g, d);
    lemma_scale_exact(val, d, scale);
    let (n, root, z) = (d as real, rt(d as real), val(scale));
    assert(is_root_of(n, root));
    assert(z * root == 1 as real) by (nonlinear_arith)
        requires
            z > 0 as real,
            root >= 0 as real,
            root * root == n,
            z * z * n == 1 as real,
    ;
    let v = val(acc);
    assert(root != 0 as real) by (nonlinear_arith)
        requires
            z * root == 1 as real,
    ;
    lemma_quotient(v, root);
    assert((v * z) * root == v) by (nonlinear_arith)
        requires
            z * root == 1 as real,
    ;
    lemma_cancel(v * z, v / root, root);
}

/// The attention weights of one head: shares of exponentials of the scores.
proof fn lemma_reads_weights<S: Scalar>(
    val: spec_fn(S) -> real,
    ex: spec_fn(real) -> real,
    lg: spec_fn(real) -> real,
    rt: spec_fn(real) -> real,
    hs: Heads,
    b: int,
    h: int,
    t: int,
    qm: Seq<S>,
    km: Seq<S>,
    att: Seq<S>,
    q: spec_fn(int) -> real,
    k: spec_fn(int) -> spec_fn(int) -> real,
    u: int,
)
    requires
        exact_curves(val, ex, lg),
        is_exponential(ex),
        is_root_function(rt),
        hs.d > 0,
        0 <= b < hs.b_n,
        0 <= h < hs.h_n,
        0 <= u <= t < hs.t_len,
        att.len() == hs.weight_rows() * hs.t_len,
        is_attn_softmax(hs, att, qm, km),
        reads(val, qm, hs.width() as nat, hs.position(b, t), q),
        forall|v: int|
            0 <= v <= t ==> reads(val, km, hs.width() as nat, hs.position(b, v), #[trigger] k(v)),
    ensures
        val(att[hs.weight_row(b, h, t) * hs.t_len + u]) * total_of(
            |v: int| ex(closeness(rt, hs.d as nat, h, q, k(v))),
            (t + 1) as nat,
        ) == ex(closeness(rt, hs.d as nat, h, q, k(u))),
{
    let i = hs.weight_row(b, h, t);
    let n = hs.t_len as nat;
    let row = row_of(att, n, i);
    lemma_weight_places(hs, b, h, t);
    lemma_weight_row(hs, att, b, h, t);
    assert(softmax_row(hs, qm, km, i, row));
    let (scale, sc) = choose|scale: S, sc: Seq<S>|
        is_score_scale(hs.d as nat, scale) && #[trigger] is_scores(hs, qm, km, i, scale, sc)
            && is_softmax(sc, row.take(t + 1));
    lemma_softmax_shares(val, ex, lg, sc, row.take(t + 1), u);
    let z = nums(val, sc);
    let (f, g) = (|v: int| ex(z(v)), |v: int| ex(closeness(rt, hs.d as nat, h, q, k(v))));
    assert forall|v: int| 0 <= v < t + 1 implies #[trigger] f(v) == g(v) by {
        assert(is_scaled_dot(
            qm,
            hs.head_start(b, t, h),
            1,
            km,
            hs.head_start(b, v, h),
            1,
            hs.d as nat,
            scale,
            sc[v],
        ));
        assert(reads(val, km, hs.width() as nat, hs.position(b, v), k(v)));
        lemma_reads_score(val, rt, hs, b, h, t, v, qm, km, scale, sc[v], q, k(v));
    }
    lemma_total_same(f, g, (t + 1) as nat);
    assert(f(u) == g(u));
    assert(row.take(t + 1)[u] == att[i * hs.t_len + u]);
}

/// Attention at position `t` of document `b`.
proof fn lemma_reads_gather<S: Scalar>(
    val: spec_fn(S) -> real,
    ex: spec_fn(real) -> real,
    lg: spec_fn(real) -> real,
    rt: spec_fn(real) -> real,
    hs: Heads,
    b: int,
    t: int,
    qm: Seq<S>,
    km: Seq<S>,
    vm: Seq<S>,
    att: Seq<S>,
    y: Seq<S>,
    q: spec_fn(int) -> real,
    k: spec_fn(int) -> spec_fn(int) -> real,
    v: spec_fn(int) -> spec_fn(int) -> real,
)
    requires
        exact_curves(val, ex, lg),
        is_exponential(ex),
        is_root_function(rt),
        hs.d > 0,
        hs.h_n > 0,
        0 <= b < hs.b_n,
        0 <= t < hs.t_len,
        att.len() == hs.weight_rows() * hs.t_len,
        y.len() == hs.positions() * hs.width(),
        is_attn_softmax(hs, att, qm, km),
        is_attn_mix(hs, Side::Past, y, att, vm),
        reads(val, qm, hs.width() as nat, hs.position(b, t), q),
        forall|u: int|
            0 <= u <= t ==> reads(val, km, hs.width() as nat, hs.position(b, u), #[trigger] k(u)),
        forall|u: int|
            0 <= u <= t ==> reads(val, vm, hs.width() as nat, hs.position(b, u), #[trigger] v(u)),
    ensures
        reads(
            val,
            y,
            hs.width() as nat,
            hs.position(b, t),
            gather(ex, rt, hs.d as nat, q, k, v, t),
        ),
{
    let c = hs.width() as nat;
    let d = hs.d as nat;
    let r = hs.position(b, t);
    let n = (t + 1) as nat;
    lemma_places(hs, b, 0, t, 0);
    lemma_whole_rows(hs.positions(), hs.width());
    lemma_row_inside(r, hs.positions(), hs.width());
    let row = row_of(y, c, r);
    assert(causal_row(hs, Side::Past, att, vm, r, row));
    assert forall|col: int| 0 <= col < c implies val(#[trigger] y[r * c + col]) == gather(
        ex,
        rt,
        d,
        q,
        k,
        v,
        t,
    )(col) by {
        assert(row[col] == y[r * c + col]);
        lemma_unpair(col, hs.h_n as int, hs.d as int);
        let h = col / d as int;
        let base = hs.weight_row(b, h, t) * hs.t_len;
        let start = hs.entry(b, 0, col);
        assert(is_causal_sum(hs, Side::Past, att, vm, r, col, row[col]));
        lemma_dot_exact(val, att, base, 1, vm, start, c as int, n, row[col]);
        let own = |u: int| ex(closeness(rt, d, col / d as int, q, k(u)));
        let all = total_of(own, n);
        assert forall|u: int| 0 <= u < n implies #[trigger] own(u) > 0 as real by {}
        lemma_total_positive(own, n);
        let f = |u: int| val(att[base + u * 1]) * val(vm[start + u * c as int]);
        let g = |u: int| ex(closeness(rt, d, col / d as int, q, k(u))) * v(u)(col);
        let h2 = |u: int| all * f(u);
        assert forall|u: int| 0 <= u < n implies #[trigger] g(u) == h2(u) by {
            lemma_reads_weights(val, ex, lg, rt, hs, b, h, t, qm, km, att, q, k, u);
            lemma_step_down(hs.position(b, 0), u, c as int);
            assert(hs.position(b, u) == hs.position(b, 0) + u);
            assert(reads(val, vm, c, hs.position(b, u), v(u)));
            assert(val(vm[hs.position(b, u) * c + col]) == v(u)(col));
            let (a, e, z) = (val(att[base + u]), own(u), v(u)(col));
            assert(e * z == all * (a * z)) by (nonlinear_arith)
                requires
                    a * all == e,
            ;
        }
        lemma_total_same(g, h2, n);
        lemma_total_scale(all, f, h2, n);
        let x = total_of(f, n);
        lemma_quotient(all * x, all);
        assert(x * all == all * x) by (nonlinear_arith);
        lemma_cancel(x, (all * x) / all, all);
    }
}

/// A layer at position `t` of document `b`, behind positions that are as the function says.
proof fn lemma_reads_layer<S: Scalar>(
    val: spec_fn(S) -> real,
    ex: spec_fn(real) -> real,
    lg: spec_fn(real) -> real,
    rt: spec_fn(real) -> real,
    s: Shape,
    w: LayerWeights<S>,
    a: LayerValues<S>,
    x: spec_fn(int) -> spec_fn(int) -> real,
    b: int,
    t: int,
)
    requires
        exact_curves(val, ex, lg),
        is_exponential(ex),
        is_root_function(rt),
        s.ok(),
        is_layer(s, w, a),
        0 <= b < s.heads_spec().b_n,
        0 <= t < s.t_len,
        forall|u: int|
            0 <= u <= t ==> reads(val, a.xin, s.c() as nat, b * s.t_len + u, #[trigger] x(u)),
    ensures
        reads(
            val,
            a.x_out,
            s.c() as nat,
            b * s.t_len + t,
            blocked(
                ex,
                rt,
                block_of(val, s, w),
                s.c() as nat,
                (s.cfg.n_embd as int / s.cfg.n_head as int) as nat,
                x,
                t,
            ),
        ),
{
    let (m, c, c4) = (s.rows as nat, s.c() as nat, (4 * s.c()) as nat);
    let hs = s.heads_spec();
    let blk = block_of(val, s, w);
    s.lemma_numbers();
    assert(s.rc() == m * c && s.rc4() == m * c4);
    let q = |u: int| times(blk.q, unit_scale(rt, x(u), c), c);
    let k = |u: int| times(blk.k, unit_scale(rt, x(u), c), c);
    let v = |u: int| times(blk.v, unit_scale(rt, x(u), c), c);
    assert forall|u: int| 0 <= u <= t implies 0 <= #[trigger] hs.position(b, u) < m && reads(
        val,
        a.q,
        c,
        hs.position(b, u),
        q(u),
    ) && reads(val, a.k, c, hs.position(b, u), k(u)) && reads(
        val,
        a.v,
        c,
        hs.position(b, u),
        v(u),
    ) by {
        let r = hs.position(b, u);
        lemma_pair(b, hs.b_n as int, u, hs.t_len as int);
        assert(reads(val, a.xin, c, b * s.t_len + u, x(u)));
        lemma_reads_norm(val, rt, a.xn, a.r1, a.xin, m, c, r, x(u));
        let f = unit_scale(rt, x(u), c);
        lemma_reads_linear(val, a.q, a.xn, w.wq, m, c, c, r, f);
        lemma_reads_linear(val, a.k, a.xn, w.wk, m, c, c, r, f);
        lemma_reads_linear(val, a.v, a.xn, w.wv, m, c, c, r, f);
    }
    let r = hs.position(b, t);
    assert forall|u: int| 0 <= u <= t implies reads(
        val,
        a.k,
        c,
        hs.position(b, u),
        #[trigger] k(u),
    ) by {
        assert(0 <= hs.position(b, u));
    }
    assert forall|u: int| 0 <= u <= t implies reads(
        val,
        a.v,
        c,
        hs.position(b, u),
        #[trigger] v(u),
    ) by {
        assert(0 <= hs.position(b, u));
    }
    lemma_reads_gather(val, ex, lg, rt, hs, b, t, a.q, a.k, a.v, a.att, a.atty, q(t), k, v);
    let g = gather(ex, rt, hs.d as nat, q(t), k, v, t);
    assert(reads(val, a.xin, c, b * s.t_len + t, x(t)));
    lemma_reads_residual(val, a.x_mid, a.xin, a.atty, w.wo, m, c, c, r, x(t), g);
    let mid = attended(ex, rt, blk, c, hs.d as nat, x, t);
    assert(mid == plus(x(t), times(blk.o, g, c)));
    lemma_reads_norm(val, rt, a.xn2, a.r2, a.x_mid, m, c, r, mid);
    let n2 = unit_scale(rt, mid, c);
    lemma_reads_linear(val, a.hpre, a.xn2, w.fc1, m, c4, c, r, n2);
    let pre = times(blk.up, n2, c);
    lemma_reads_relu(val, ex, lg, a.h, a.hpre, m, c4, r, pre);
    lemma_reads_residual(val, a.x_out, a.x_mid, a.h, w.fc2, m, c, c4, r, mid, cut_off(pre));
}

/// What is known of position `t` of document `b` before the first layer.
proof fn lemma_reads_embedded<S: Scalar>(
    val: spec_fn(S) -> real,
    rt: spec_fn(real) -> real,
    s: Shape,
    w: Weights<S>,
    tokens: Seq<i32>,
    a: Values<S>,
    b: int,
    t: int,
)
    requires
        exact(val),
        is_root_function(rt),
        s.ok(),
        run_tokens(s, tokens),
        is_forward(s, w, tokens, a),
        0 <= b < s.heads_spec().b_n,
        0 <= t < s.t_len,
    ensures
        reads(
            val,
            a.x1,
            s.c() as nat,
            b * s.t_len + t,
            unit_scale(
                rt,
                |j: int|
                    matrix_nums(val, w.wte, s.c() as nat)(tokens[b * s.t_len + t] as int, j)
                        + matrix_nums(val, w.wpe, s.c() as nat)(t, j),
                s.c() as nat,
            ),
        ),
{
    let (m, c) = (s.rows as nat, s.c() as nat);
    let hs = s.heads_spec();
    let r = hs.position(b, t);
    s.lemma_numbers();
    assert(s.rc() == m * c);
    lemma_pair(b, hs.b_n as int, t, hs.t_len as int);
    lemma_whole_rows(m as int, c as int);
    lemma_row_inside(r, m as int, c as int);
    let row = row_of(a.x0, c, r);
    assert(embed_row(w.wte, w.wpe, tokens, s.t_len as nat, r, row));
    let f = |j: int|
        matrix_nums(val, w.wte, s.c() as nat)(tokens[b * s.t_len + t] as int, j) + matrix_nums(
            val,
            w.wpe,
            s.c() as nat,
        )(t, j);
    assert forall|j: int| 0 <= j < c implies val(#[trigger] a.x0[r * c + j]) == f(j) by {
        assert(row[j] == a.x0[r * c + j]);
        assert(is_sum(w.wte[tokens[r] * c + j], w.wpe[t * c + j], row[j]));
    }
    lemma_reads_norm(val, rt, a.x1, a.r0, a.x0, m, c, r, f);
}

/// What is known of position `t` of document `b` before layer `l`.
proof fn lemma_reads_hidden<S: Scalar>(
    val: spec_fn(S) -> real,
    ex: spec_fn(real) -> real,
    lg: spec_fn(real) -> real,
    rt: spec_fn(real) -> real,
    s: Shape,
    w: Weights<S>,
    tokens: Seq<i32>,
    a: Values<S>,
    b: int,
    t: int,
    l: nat,
)
    requires
        exact_curves(val, ex, lg),
        is_exponential(ex),
        is_root_function(rt),
        s.ok(),
        run_tokens(s, tokens),
        is_forward(s, w, tokens, a),
        0 <= b < s.heads_spec().b_n,
        0 <= t < s.t_len,
        l <= s.cfg.n_layer,
    ensures
        reads(
            val,
            input_of(a, l as int),
            s.c() as nat,
            b * s.t_len + t,
            hidden(ex, rt, net_of(val, s, w), |u: int| tokens[b * s.t_len + u] as int, l)(t),
        ),
    decreases l,
{
    let c = s.c() as nat;
    let net = net_of(val, s, w);
    let toks = |u: int| tokens[b * s.t_len + u] as int;
    if l == 0 {
        lemma_reads_embedded(val, rt, s, w, tokens, a, b, t);
        assert(input_of(a, 0) == a.x1);
        let e = |j: int|
            matrix_nums(val, w.wte, s.c() as nat)(tokens[b * s.t_len + t] as int, j) + matrix_nums(
                val,
                w.wpe,
                s.c() as nat,
            )(t, j);
        let f = |j: int| (net.wte)(toks(t), j) + (net.wpe)(t, j);
        assert(e =~= f);
        assert(hidden(ex, rt, net, toks, 0)(t) == unit_scale(rt, f, c));
    } else {
        let li = l - 1;
        let x = hidden(ex, rt, net, toks, li as nat);
        assert(is_layer(s, w.layers[li], a.layers[li]) && a.layers[li].xin == input_of(a, li));
        assert forall|u: int| 0 <= u <= t implies reads(
            val,
            a.layers[li].xin,
            c,
            b * s.t_len + u,
            #[trigger] x(u),
        ) by {
            lemma_reads_hidden(val, ex, lg, rt, s, w, tokens, a, b, u, li as nat);
        }
        lemma_reads_layer(val, ex, lg, rt, s, w.layers[li], a.layers[li], x, b, t);
        assert(input_of(a, l as int) == a.layers[li].x_out);
        assert((net.blocks)(li) == block_of(val, s, w.layers[li]));
        assert(hidden(ex, rt, net, toks, l)(t) == blocked(
            ex,
            rt,
            (net.blocks)(li),
            net.c,
            net.d,
            x,
            t,
        ));
    }
}

/// The batched network computes [`logits`]: the sum of the embeddings of token and position,
/// normalized; then in every layer what each head gathers from the positions so far, in which
/// closer keys weigh exponentially more, and a perceptron with a cut-off, each added to what
/// went in and each fed with normalized numbers; then a product with the output matrix.
pub proof fn law_the_network_computes_the_function<S: Scalar>(
    val: spec_fn(S) -> real,
    ex: spec_fn(real) -> real,
    lg: spec_fn(real) -> real,
    rt: spec_fn(real) -> real,
    s: Shape,
    w: Weights<S>,
    tokens: Seq<i32>,
    a: Values<S>,
    b: int,
    t: int,
    v: int,
)
    requires
        exact_curves(val, ex, lg),
        is_exponential(ex),
        is_root_function(rt),
        s.ok(),
        run_tokens(s, tokens),
        is_forward(s, w, tokens, a),
        0 <= b < s.rows as int / s.t_len as int,
        0 <= t < s.t_len,
        0 <= v < s.vocab,
    ensures
        val(a.logits[(b * s.t_len + t) * s.vocab + v]) == logits(
            ex,
            rt,
            net_of(val, s, w),
            |u: int| tokens[b * s.t_len + u] as int,
            t,
        )(v),
{
    let (m, c, n) = (s.rows as nat, s.c() as nat, s.vocab as nat);
    let hs = s.heads_spec();
    s.lemma_numbers();
    assert(s.rv() == m * n);
    let l = s.cfg.n_layer as nat;
    let toks = |u: int| tokens[b * s.t_len + u] as int;
    let net = net_of(val, s, w);
    lemma_reads_hidden(val, ex, lg, rt, s, w, tokens, a, b, t, l);
    lemma_pair(b, hs.b_n as int, t, hs.t_len as int);
    let (r, f) = (hs.position(b, t), hidden(ex, rt, net, toks, l)(t));
    lemma_reads_linear(val, a.logits, a.layers[l - 1].x_out, w.lm_head, m, n, c, r, f);
    assert(val(a.logits[r * n + v]) == times(net.head, f, c)(v));
}

} // verus!
