//! Motion through attention, on the tape and in the batched network.
use vstd::prelude::*;

use crate::attention::{is_attn_softmax, Heads};
use crate::exact::{exact, lemma_inner_flip, lemma_inner_same, lemma_quotient, lemma_total_same};
use crate::graph::is_dot_node;
use crate::index::{lemma_pair, lemma_row_inside};
use crate::motion::{row_moves, row_nums};
use crate::motion_attention::{
    head_moves, head_nums, is_score_factor, lemma_places, lemma_scale_unique, lemma_weight_places,
    moves_mix, moves_weights, scores_move, weight_moves, weight_nums,
};
use crate::motion_blocks::{cross, past, weight_moved};

use crate::scalar::{is_num, is_sqrt, Scalar};
use crate::tape::{is_div_const, Node, Value};
use crate::tape_gpt::{column, is_attention, is_head, is_head_by, is_score_node, part_of};
use crate::tape_laws::{is_input, law_constant_rule};
use crate::twin_motion::{
    follows, gathered, is_full_motion, lemma_dot_node_moves, lemma_gathered,
    lemma_softmax_nodes_moves, same_moves, tape_moves,
};
use crate::twin_network::lemma_twin_weights;
use crate::twin_parts::{exact_curves, is_exponential, same_row, tape_nums};

verus! {

/// The part of a row that belongs to head `h`: its numbers and their motion.
proof fn lemma_part<W: Scalar, S: Scalar>(
    p: spec_fn(W) -> real,
    q: spec_fn(S) -> real,
    nodes: Seq<Node<W>>,
    mo: spec_fn(int) -> real,
    hs: Heads,
    vs: Seq<Value>,
    x: Seq<S>,
    mx: Seq<real>,
    h: int,
    t: int,
)
    requires
        hs.d > 0,
        0 < hs.b_n,
        0 <= h < hs.h_n,
        0 <= t < hs.t_len,
        same_row(p, q, nodes, vs, x, hs.width() as nat, t),
        same_moves(mo, vs, mx, hs.width() as nat, t),
    ensures
        part_of(vs, h * hs.d, hs.d as int).len() == hs.d,
        forall|j: int|
            0 <= j < hs.d ==> #[trigger] tape_nums(
                p,
                nodes,
                part_of(vs, h * hs.d, hs.d as int),
            )(j) == head_nums(q, x, hs, 0, h)(t, j),
        forall|j: int|
            0 <= j < hs.d ==> #[trigger] tape_moves(
                mo,
                part_of(vs, h * hs.d, hs.d as int),
            )(j) == head_moves(mx, hs, 0, h)(t, j),
{
    let part = part_of(vs, h * hs.d, hs.d as int);
    let c = hs.width() as nat;
    assert(0 * hs.t_len == 0);
    lemma_row_inside(h, hs.h_n as int, hs.d as int);
    assert forall|j: int| 0 <= j < hs.d implies #[trigger] tape_nums(p, nodes, part)(j)
        == head_nums(q, x, hs, 0, h)(t, j) by {
        lemma_places(hs, 0, h, t, j);
        assert(part[j] == vs[h * hs.d + j]);
        assert(tape_nums(p, nodes, vs)(h * hs.d + j) == row_nums(q, x, c, t)(h * hs.d + j));
    }
    assert forall|j: int| 0 <= j < hs.d implies #[trigger] tape_moves(mo, part)(j) == head_moves(
        mx,
        hs,
        0,
        h,
    )(t, j) by {
        lemma_places(hs, 0, h, t, j);
        assert(part[j] == vs[h * hs.d + j]);
        assert(tape_moves(mo, vs)(h * hs.d + j) == row_moves(mx, c, t)(h * hs.d + j));
    }
}

/// How a score moves.
proof fn lemma_score_moves<W: Scalar, S: Scalar>(
    p: spec_fn(W) -> real,
    q: spec_fn(S) -> real,
    nodes: Seq<Node<W>>,
    mo: spec_fn(int) -> real,
    hs: Heads,
    scale: real,
    qs: Seq<Value>,
    ks: Seq<Value>,
    score: Value,
    qm: Seq<S>,
    mq: Seq<real>,
    km: Seq<S>,
    mk: Seq<real>,
    h: int,
    t: int,
    u: int,
)
    requires
        exact(p),
        is_full_motion(p, nodes, mo),
        hs.d > 0,
        0 < hs.b_n,
        0 <= h < hs.h_n,
        0 <= u <= t < hs.t_len,
        is_score_factor(hs.d as nat, scale),
        same_row(p, q, nodes, qs, qm, hs.width() as nat, t),
        same_moves(mo, qs, mq, hs.width() as nat, t),
        same_row(p, q, nodes, ks, km, hs.width() as nat, u),
        same_moves(mo, ks, mk, hs.width() as nat, u),
        is_score_node(
            nodes,
            part_of(qs, h * hs.d, hs.d as int),
            part_of(ks, h * hs.d, hs.d as int),
            hs.d as nat,
            score,
        ),
    ensures
        mo(score.idx as int) == scores_move(q, hs, scale, qm, mq, km, mk, 0, h)(t, u),
{
    let d = hs.d as nat;
    let (qh, kh) = (part_of(qs, h * hs.d, hs.d as int), part_of(ks, h * hs.d, hs.d as int));
    lemma_part(p, q, nodes, mo, hs, qs, qm, mq, h, t);
    lemma_part(p, q, nodes, mo, hs, ks, km, mk, h, u);
    let (product, size, root) = choose|product: Value, size: W, root: W|
        #![trigger is_dot_node(nodes, qh, kh, product), is_sqrt(size, root)]
        is_dot_node(nodes, qh, kh, product) && is_num(d as u64, size) && is_sqrt(size, root)
            && is_div_const(nodes, product, root, score);
    lemma_dot_node_moves(p, nodes, mo, qh, kh, product);
    let (hq, hk) = (head_nums(q, qm, hs, 0, h), head_nums(q, km, hs, 0, h));
    let (dq, dk) = (head_moves(mq, hs, 0, h), head_moves(mk, hs, 0, h));
    let (a, b) = (|j: int| hq(t, j), |j: int| hk(u, j));
    let (ma, mb) = (|j: int| dq(t, j), |j: int| dk(u, j));
    lemma_inner_same(tape_nums(p, nodes, kh), tape_moves(mo, qh), b, ma, d);
    lemma_inner_same(tape_nums(p, nodes, qh), tape_moves(mo, kh), a, mb, d);
    lemma_inner_flip(b, ma, d);
    lemma_total_same(|j: int| ma(j) * b(j), |j: int| dq(t, j) * hk(u, j), d);
    lemma_total_same(|j: int| a(j) * mb(j), |j: int| hq(t, j) * dk(u, j), d);
    let top = cross(dq, hk, d, t, u) + cross(hq, dk, d, t, u);
    assert(mo(product.idx as int) == top);
    let (s, n) = (p(root), d as real);
    assert(p(size) == n);
    assert(s * s == n && s >= 0 as real);
    assert(s > 0 as real) by (nonlinear_arith)
        requires
            s * s == n,
            s >= 0 as real,
            n > 0 as real,
    ;
    law_constant_rule(p, nodes, mo, product, root, score);
    assert(!is_input(nodes[score.idx as int]));
    lemma_quotient(top, s);
    lemma_quotient(1 as real, s);
    let one = 1 as real / s;
    assert(one > 0 as real) by (nonlinear_arith)
        requires
            one * s == 1 as real,
            s > 0 as real,
    ;
    assert(one * one * n == 1 as real) by (nonlinear_arith)
        requires
            one * s == 1 as real,
            s * s == n,
    ;
    lemma_scale_unique(d, one, scale);
    let out = mo(score.idx as int);
    assert(out * s == top);
    assert(out == one * top) by (nonlinear_arith)
        requires
            out * s == top,
            one * s == 1 as real,
    ;
}

/// The attention weights of a head.
pub open spec fn weights_in<W: Scalar>(
    nodes: Seq<Node<W>>,
    d: int,
    start: int,
    qs: Seq<Value>,
    keys: Seq<Seq<Value>>,
    values: Seq<Seq<Value>>,
    out: Seq<Value>,
) -> Seq<Value> {
    let (scores, weights) = choose|scores: Seq<Value>, weights: Seq<Value>| #[trigger]
        is_head_by(nodes, d, start, qs, keys, values, out, scores, weights);
    weights
}

/// The attention weights of head `h` at position `t`.
pub open spec fn weights_at<W: Scalar>(
    nodes: Seq<Node<W>>,
    hs: Heads,
    fq: spec_fn(int) -> Seq<Value>,
    fkeys: spec_fn(int) -> Seq<Seq<Value>>,
    fvalues: spec_fn(int) -> Seq<Seq<Value>>,
    fy: spec_fn(int) -> Seq<Value>,
    h: int,
    t: int,
) -> Seq<Value> {
    weights_in(
        nodes,
        hs.d as int,
        h * hs.d,
        fq(t),
        fkeys(t),
        fvalues(t),
        part_of(fy(t), h * hs.d, hs.d as int),
    )
}

/// The motion of all attention weights; those of the future do not move.
pub open spec fn weights_gathered<W: Scalar>(
    nodes: Seq<Node<W>>,
    mo: spec_fn(int) -> real,
    hs: Heads,
    fq: spec_fn(int) -> Seq<Value>,
    fkeys: spec_fn(int) -> Seq<Seq<Value>>,
    fvalues: spec_fn(int) -> Seq<Seq<Value>>,
    fy: spec_fn(int) -> Seq<Value>,
) -> Seq<real> {
    Seq::new(
        (hs.weight_rows() * hs.t_len) as nat,
        |i: int|
            {
                let (row, u) = (i / hs.t_len as int, i % hs.t_len as int);
                let (h, t) = (hs.head_of(row), row % hs.t_len as int);
                if u <= t {
                    mo(weights_at(nodes, hs, fq, fkeys, fvalues, fy, h, t)[u].idx as int)
                } else {
                    0 as real
                }
            },
    )
}

/// The rows `fx` up to row `t`.
pub open spec fn rows_until(fx: spec_fn(int) -> Seq<Value>, rows: Seq<Seq<Value>>, t: int) -> bool {
    &&& rows.len() == t + 1
    &&& forall|u: int| 0 <= u <= t ==> #[trigger] rows[u] == fx(u)
}

/// What is known of one document's attention on the tape.
pub open spec fn is_attended<W: Scalar, S: Scalar>(
    p: spec_fn(W) -> real,
    q: spec_fn(S) -> real,
    nodes: Seq<Node<W>>,
    mo: spec_fn(int) -> real,
    hs: Heads,
    fq: spec_fn(int) -> Seq<Value>,
    fk: spec_fn(int) -> Seq<Value>,
    fv: spec_fn(int) -> Seq<Value>,
    fkeys: spec_fn(int) -> Seq<Seq<Value>>,
    fvalues: spec_fn(int) -> Seq<Seq<Value>>,
    fy: spec_fn(int) -> Seq<Value>,
    qm: Seq<S>,
    mq: Seq<real>,
    km: Seq<S>,
    mk: Seq<real>,
    vm: Seq<S>,
    mv: Seq<real>,
    att: Seq<S>,
) -> bool {
    let (m, c) = (hs.t_len as nat, hs.width() as nat);
    &&& hs.b_n == 1
    &&& hs.d > 0
    &&& hs.h_n > 0
    &&& att.len() == hs.weight_rows() * hs.t_len
    &&& follows(p, q, nodes, mo, fq, qm, mq, m, c)
    &&& follows(p, q, nodes, mo, fk, km, mk, m, c)
    &&& follows(p, q, nodes, mo, fv, vm, mv, m, c)
    &&& forall|t: int| 0 <= t < m ==> rows_until(fk, #[trigger] fkeys(t), t)
    &&& forall|t: int| 0 <= t < m ==> rows_until(fv, #[trigger] fvalues(t), t)
    &&& forall|t: int|
        0 <= t < m ==> is_attention(
            nodes,
            hs.h_n as int,
            hs.d as int,
            fq(t),
            fkeys(t),
            fvalues(t),
            #[trigger] fy(t),
        )
    &&& is_attn_softmax(hs, att, qm, km)
}

/// The attention weights of head `h` at position `t`: their numbers and their motion.
proof fn lemma_head_weights<W: Scalar, S: Scalar>(
    p: spec_fn(W) -> real,
    q: spec_fn(S) -> real,
    ex: spec_fn(real) -> real,
    lg: spec_fn(real) -> real,
    nodes: Seq<Node<W>>,
    mo: spec_fn(int) -> real,
    hs: Heads,
    scale: real,
    fq: spec_fn(int) -> Seq<Value>,
    fk: spec_fn(int) -> Seq<Value>,
    fv: spec_fn(int) -> Seq<Value>,
    fkeys: spec_fn(int) -> Seq<Seq<Value>>,
    fvalues: spec_fn(int) -> Seq<Seq<Value>>,
    fy: spec_fn(int) -> Seq<Value>,
    qm: Seq<S>,
    mq: Seq<real>,
    km: Seq<S>,
    mk: Seq<real>,
    vm: Seq<S>,
    mv: Seq<real>,
    att: Seq<S>,
    h: int,
    t: int,
)
    requires
        exact_curves(p, ex, lg),
        exact_curves(q, ex, lg),
        is_exponential(ex),
        is_full_motion(p, nodes, mo),
        is_score_factor(hs.d as nat, scale),
        is_attended(
            p, q, nodes, mo, hs, fq, fk, fv, fkeys, fvalues, fy, qm, mq, km, mk, vm, mv, att,
        ),
        0 <= h < hs.h_n,
        0 <= t < hs.t_len,
    ensures
        ({
            let ws = weights_at(nodes, hs, fq, fkeys, fvalues, fy, h, t);
            let ms = scores_move(q, hs, scale, qm, mq, km, mk, 0, h);
            &&& ws.len() == t + 1
            &&& forall|u: int|
                0 <= u <= t ==> #[trigger] tape_nums(p, nodes, ws)(u) == weight_nums(
                    q,
                    att,
                    hs,
                    0,
                    h,
                )(t, u)
            &&& forall|u: int|
                0 <= u <= t ==> #[trigger] tape_moves(mo, ws)(u) == weight_moved(
                    weight_nums(q, att, hs, 0, h),
                    ms,
                    t,
                    u,
                )
            &&& forall|j: int|
                0 <= j < hs.d ==> is_dot_node(
                    nodes,
                    ws,
                    column(fvalues(t), h * hs.d + j),
                    #[trigger] part_of(fy(t), h * hs.d, hs.d as int)[j],
                )
        }),
{
    let c = hs.width() as nat;
    let part = part_of(fy(t), h * hs.d, hs.d as int);
    let (qs, keys, values) = (fq(t), fkeys(t), fvalues(t));
    assert(0 * hs.t_len == 0);
    assert(is_attention(nodes, hs.h_n as int, hs.d as int, qs, keys, values, fy(t)));
    assert(is_head(nodes, hs.d as int, h * hs.d, qs, keys, values, part));
    let (scores, ws) = choose|scores: Seq<Value>, weights: Seq<Value>| #[trigger]
        is_head_by(nodes, hs.d as int, h * hs.d, qs, keys, values, part, scores, weights);
    assert(ws == weights_at(nodes, hs, fq, fkeys, fvalues, fy, h, t));
    assert(same_row(p, q, nodes, fq(t), qm, c, t) && same_moves(mo, fq(t), mq, c, t));
    assert(rows_until(fk, fkeys(t), t));
    assert forall|u: int| 0 <= u <= t implies same_row(
        p,
        q,
        nodes,
        #[trigger] keys[u],
        km,
        c,
        hs.position(0, u),
    ) by {
        assert(keys[u] == fk(u));
    }
    lemma_twin_weights(
        p, q, ex, lg, nodes, hs, 0, h, t, qs, keys, scores, ws, qm, km, att,
    );
    let n = (t + 1) as nat;
    let ms = scores_move(q, hs, scale, qm, mq, km, mk, 0, h);
    let wn = weight_nums(q, att, hs, 0, h);
    assert forall|u: int| 0 <= u < n implies #[trigger] tape_moves(mo, scores)(u) == ms(t, u) by {
        assert(keys[u] == fk(u));
        assert(same_row(p, q, nodes, fk(u), km, c, u) && same_moves(mo, fk(u), mk, c, u));
        assert(is_score_node(
            nodes,
            part_of(qs, h * hs.d, hs.d as int),
            part_of(keys[u], h * hs.d, hs.d as int),
            hs.d as nat,
            scores[u],
        ));
        lemma_score_moves(
            p, q, nodes, mo, hs, scale, qs, keys[u], scores[u], qm, mq, km, mk, h, t, u,
        );
    }
    assert forall|u: int| 0 <= u <= t implies #[trigger] tape_nums(p, nodes, ws)(u) == wn(t, u) by {
    }
    assert forall|u: int| 0 <= u <= t implies #[trigger] tape_moves(mo, ws)(u) == weight_moved(
        wn,
        ms,
        t,
        u,
    ) by {
        lemma_softmax_nodes_moves(p, nodes, mo, scores, ws, u);
        let (a, b) = (|v: int| wn(t, v), |v: int| ms(t, v));
        lemma_inner_same(tape_nums(p, nodes, ws), tape_moves(mo, scores), a, b, n);
        lemma_total_same(|v: int| a(v) * b(v), |v: int| wn(t, v) * ms(t, v), n);
        assert(tape_nums(p, nodes, ws)(u) == wn(t, u));
        assert(tape_moves(mo, scores)(u) == ms(t, u));
    }
}

/// How the attention weights move.
pub proof fn lemma_weights_moves<W: Scalar, S: Scalar>(
    p: spec_fn(W) -> real,
    q: spec_fn(S) -> real,
    ex: spec_fn(real) -> real,
    lg: spec_fn(real) -> real,
    nodes: Seq<Node<W>>,
    mo: spec_fn(int) -> real,
    hs: Heads,
    scale: real,
    fq: spec_fn(int) -> Seq<Value>,
    fk: spec_fn(int) -> Seq<Value>,
    fv: spec_fn(int) -> Seq<Value>,
    fkeys: spec_fn(int) -> Seq<Seq<Value>>,
    fvalues: spec_fn(int) -> Seq<Seq<Value>>,
    fy: spec_fn(int) -> Seq<Value>,
    qm: Seq<S>,
    mq: Seq<real>,
    km: Seq<S>,
    mk: Seq<real>,
    vm: Seq<S>,
    mv: Seq<real>,
    att: Seq<S>,
)
    requires
        exact_curves(p, ex, lg),
        exact_curves(q, ex, lg),
        is_exponential(ex),
        is_full_motion(p, nodes, mo),
        is_score_factor(hs.d as nat, scale),
        is_attended(
            p, q, nodes, mo, hs, fq, fk, fv, fkeys, fvalues, fy, qm, mq, km, mk, vm, mv, att,
        ),
    ensures
        moves_weights(
            q,
            hs,
            scale,
            att,
            weights_gathered(nodes, mo, hs, fq, fkeys, fvalues, fy),
            qm,
            mq,
            km,
            mk,
        ),
{
    let matt = weights_gathered(nodes, mo, hs, fq, fkeys, fvalues, fy);
    assert forall|b: int, h: int, t: int, u: int|
        0 <= b < hs.b_n && 0 <= h < hs.h_n && 0 <= t < hs.t_len && 0 <= u
            < hs.t_len implies #[trigger] weight_moves(matt, hs, b, h)(t, u) == weight_moved(
        weight_nums(q, att, hs, b, h),
        scores_move(q, hs, scale, qm, mq, km, mk, b, h),
        t,
        u,
    ) by {
        assert(b == 0);
        lemma_gathered_weight(nodes, mo, hs, fq, fkeys, fvalues, fy, h, t, u);
        lemma_head_weights(
            p, q, ex, lg, nodes, mo, hs, scale, fq, fk, fv, fkeys, fvalues, fy, qm, mq, km, mk,
            vm, mv, att, h, t,
        );
        if u <= t {
            let ws = weights_at(nodes, hs, fq, fkeys, fvalues, fy, h, t);
            assert(tape_moves(mo, ws)(u) == mo(ws[u].idx as int));
        }
    }
}

/// The collected motion of one attention weight.
proof fn lemma_gathered_weight<W: Scalar>(
    nodes: Seq<Node<W>>,
    mo: spec_fn(int) -> real,
    hs: Heads,
    fq: spec_fn(int) -> Seq<Value>,
    fkeys: spec_fn(int) -> Seq<Seq<Value>>,
    fvalues: spec_fn(int) -> Seq<Seq<Value>>,
    fy: spec_fn(int) -> Seq<Value>,
    h: int,
    t: int,
    u: int,
)
    requires
        hs.b_n == 1,
        0 <= h < hs.h_n,
        0 <= t < hs.t_len,
        0 <= u < hs.t_len,
    ensures
        weight_moves(weights_gathered(nodes, mo, hs, fq, fkeys, fvalues, fy), hs, 0, h)(t, u)
            == if u <= t {
            mo(weights_at(nodes, hs, fq, fkeys, fvalues, fy, h, t)[u].idx as int)
        } else {
            0 as real
        },
{
    lemma_weight_places(hs, 0, h, t);
    let row = hs.weight_row(0, h, t);
    lemma_pair(row, hs.weight_rows(), u, hs.t_len as int);
}

/// How the weighted sums of the values move.
pub proof fn lemma_mix_moves<W: Scalar, S: Scalar>(
    p: spec_fn(W) -> real,
    q: spec_fn(S) -> real,
    ex: spec_fn(real) -> real,
    lg: spec_fn(real) -> real,
    nodes: Seq<Node<W>>,
    mo: spec_fn(int) -> real,
    hs: Heads,
    scale: real,
    fq: spec_fn(int) -> Seq<Value>,
    fk: spec_fn(int) -> Seq<Value>,
    fv: spec_fn(int) -> Seq<Value>,
    fkeys: spec_fn(int) -> Seq<Seq<Value>>,
    fvalues: spec_fn(int) -> Seq<Seq<Value>>,
    fy: spec_fn(int) -> Seq<Value>,
    qm: Seq<S>,
    mq: Seq<real>,
    km: Seq<S>,
    mk: Seq<real>,
    vm: Seq<S>,
    mv: Seq<real>,
    att: Seq<S>,
)
    requires
        exact_curves(p, ex, lg),
        exact_curves(q, ex, lg),
        is_exponential(ex),
        is_full_motion(p, nodes, mo),
        is_score_factor(hs.d as nat, scale),
        is_attended(
            p, q, nodes, mo, hs, fq, fk, fv, fkeys, fvalues, fy, qm, mq, km, mk, vm, mv, att,
        ),
    ensures
        moves_mix(
            q,
            hs,
            gathered(mo, fy, hs.t_len as nat, hs.width() as nat),
            att,
            weights_gathered(nodes, mo, hs, fq, fkeys, fvalues, fy),
            vm,
            mv,
        ),
{
    let c = hs.width() as nat;
    let my = gathered(mo, fy, hs.t_len as nat, c);
    let matt = weights_gathered(nodes, mo, hs, fq, fkeys, fvalues, fy);
    assert forall|b: int, h: int, t: int, j: int|
        0 <= b < hs.b_n && 0 <= h < hs.h_n && 0 <= t < hs.t_len && 0 <= j
            < hs.d implies #[trigger] head_moves(my, hs, b, h)(t, j) == past(
        weight_nums(q, att, hs, b, h),
        head_moves(mv, hs, b, h),
        t,
        j,
    ) + past(weight_moves(matt, hs, b, h), head_nums(q, vm, hs, b, h), t, j) by {
        assert(b == 0);
        lemma_mix_entry(
            p, q, ex, lg, nodes, mo, hs, scale, fq, fk, fv, fkeys, fvalues, fy, qm, mq, km, mk,
            vm, mv, att, h, t, j,
        );
    }
}

/// How number `j` of head `h` at position `t` moves.
proof fn lemma_mix_entry<W: Scalar, S: Scalar>(
    p: spec_fn(W) -> real,
    q: spec_fn(S) -> real,
    ex: spec_fn(real) -> real,
    lg: spec_fn(real) -> real,
    nodes: Seq<Node<W>>,
    mo: spec_fn(int) -> real,
    hs: Heads,
    scale: real,
    fq: spec_fn(int) -> Seq<Value>,
    fk: spec_fn(int) -> Seq<Value>,
    fv: spec_fn(int) -> Seq<Value>,
    fkeys: spec_fn(int) -> Seq<Seq<Value>>,
    fvalues: spec_fn(int) -> Seq<Seq<Value>>,
    fy: spec_fn(int) -> Seq<Value>,
    qm: Seq<S>,
    mq: Seq<real>,
    km: Seq<S>,
    mk: Seq<real>,
    vm: Seq<S>,
    mv: Seq<real>,
    att: Seq<S>,
    h: int,
    t: int,
    j: int,
)
    requires
        exact_curves(p, ex, lg),
        exact_curves(q, ex, lg),
        is_exponential(ex),
        is_full_motion(p, nodes, mo),
        is_score_factor(hs.d as nat, scale),
        is_attended(
            p, q, nodes, mo, hs, fq, fk, fv, fkeys, fvalues, fy, qm, mq, km, mk, vm, mv, att,
        ),
        0 <= h < hs.h_n,
        0 <= t < hs.t_len,
        0 <= j < hs.d,
    ensures
        head_moves(gathered(mo, fy, hs.t_len as nat, hs.width() as nat), hs, 0, h)(t, j) == past(
            weight_nums(q, att, hs, 0, h),
            head_moves(mv, hs, 0, h),
            t,
            j,
        ) + past(
            weight_moves(weights_gathered(nodes, mo, hs, fq, fkeys, fvalues, fy), hs, 0, h),
            head_nums(q, vm, hs, 0, h),
            t,
            j,
        ),
{
    let c = hs.width() as nat;
    let my = gathered(mo, fy, hs.t_len as nat, c);
    let matt = weights_gathered(nodes, mo, hs, fq, fkeys, fvalues, fy);
    let ws = weights_at(nodes, hs, fq, fkeys, fvalues, fy, h, t);
    let col = h * hs.d + j;
    let vs = column(fvalues(t), col);
    let n = (t + 1) as nat;
    assert(0 * hs.t_len == 0);
    lemma_head_weights(
        p, q, ex, lg, nodes, mo, hs, scale, fq, fk, fv, fkeys, fvalues, fy, qm, mq, km, mk, vm,
        mv, att, h, t,
    );
    lemma_places(hs, 0, h, t, j);
    lemma_row_inside(h, hs.h_n as int, hs.d as int);
    assert(is_attention(
        nodes,
        hs.h_n as int,
        hs.d as int,
        fq(t),
        fkeys(t),
        fvalues(t),
        fy(t),
    ));
    let part = part_of(fy(t), h * hs.d, hs.d as int);
    assert(part[j] == fy(t)[col]);
    lemma_gathered(mo, fy, hs.t_len as nat, c, t);
    assert(tape_moves(mo, fy(t))(col) == row_moves(my, c, t)(col));
    assert(is_dot_node(nodes, ws, vs, part[j]));
    lemma_dot_node_moves(p, nodes, mo, ws, vs, part[j]);
    assert(rows_until(fv, fvalues(t), t));
    let (wn, dw) = (weight_nums(q, att, hs, 0, h), weight_moves(matt, hs, 0, h));
    let (vn, dv) = (head_nums(q, vm, hs, 0, h), head_moves(mv, hs, 0, h));
    let (a, ma) = (|u: int| wn(t, u), |u: int| dw(t, u));
    let (b, mb) = (|u: int| vn(u, j), |u: int| dv(u, j));
    assert forall|u: int| 0 <= u < n implies #[trigger] tape_nums(p, nodes, ws)(u) == a(u) by {}
    assert forall|u: int| 0 <= u < n implies #[trigger] tape_moves(mo, ws)(u) == ma(u) by {
        lemma_gathered_weight(nodes, mo, hs, fq, fkeys, fvalues, fy, h, t, u);
    }
    assert forall|u: int| 0 <= u < n implies #[trigger] tape_nums(p, nodes, vs)(u) == b(u) by {
        assert(vs[u] == fvalues(t)[u][col] && fvalues(t)[u] == fv(u));
        assert(same_row(p, q, nodes, fv(u), vm, c, u));
        lemma_places(hs, 0, h, u, j);
        assert(tape_nums(p, nodes, fv(u))(col) == row_nums(q, vm, c, u)(col));
    }
    assert forall|u: int| 0 <= u < n implies #[trigger] tape_moves(mo, vs)(u) == mb(u) by {
        assert(vs[u] == fvalues(t)[u][col] && fvalues(t)[u] == fv(u));
        assert(same_row(p, q, nodes, fv(u), vm, c, u) && same_moves(mo, fv(u), mv, c, u));
        lemma_places(hs, 0, h, u, j);
        assert(tape_moves(mo, fv(u))(col) == row_moves(mv, c, u)(col));
    }
    lemma_inner_same(tape_nums(p, nodes, vs), tape_moves(mo, ws), b, ma, n);
    lemma_inner_same(tape_nums(p, nodes, ws), tape_moves(mo, vs), a, mb, n);
    lemma_inner_flip(b, ma, n);
    lemma_total_same(|u: int| ma(u) * b(u), |u: int| dw(t, u) * vn(u, j), n);
    lemma_total_same(|u: int| a(u) * mb(u), |u: int| wn(t, u) * dv(u, j), n);
}

} // verus!
