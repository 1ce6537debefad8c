//! The tape and the batched network compute the same: token by token with a cache on the one
//! side, a whole document at once on the other.
use vstd::prelude::*;

use crate::attention::{
    causal_row, is_attn_mix, is_attn_softmax, is_causal_sum, is_scaled_dot, is_score_scale,
    is_scores, softmax_row, Heads, Side,
};
use crate::bank::{read, Mem, Span};
use crate::embed::{embed_row, is_embed};
use crate::exact::{exact, lemma_inner_same, lemma_quotient, lemma_total_same, total_of};
use crate::graph::{is_dot_node, is_softmax_nodes, rows_of};
use crate::index::{lemma_pair, lemma_row_inside, lemma_unpair, lemma_whole_rows};
use crate::layout::{layer_start, lemma_layers_fit, lemma_sizes, param_count, Cfg};
use crate::loss::{ce_row, count_valid, is_ce, is_mean_loss};
use crate::motion::{lemma_dot_exact, nums, row_nums};
use crate::motion_attention::{
    lemma_places, lemma_scale_exact, lemma_scale_unique, lemma_step_down, lemma_weight_places,
    lemma_weight_row,
};
use crate::motion_loss::lemma_total_exact;
use crate::network::{
    input_of, is_forward, is_layer, layer_weights, weights_of, LayerValues, LayerWeights, Values,
    Weights,
};
use crate::reduce::{is_dot, is_softmax, is_total};
use crate::rows::row_of;
use crate::scalar::{is_ln, is_neg, is_num, is_one, is_prod, is_quot, is_sqrt, is_sum, Scalar};
use crate::shape::Shape;
use crate::tape::{data_of, is_add_node, is_div_const, is_log_node, is_neg_node, Node, Value};
use crate::tape_gpt::{
    column, is_attention, is_head, is_head_by, is_layer_trace, is_matrix, is_score_node, part_of,
    LayerTrace, StateDict,
};
use crate::tape_token::{
    are_layer_traces, is_token_trace, past_keys, past_values, trace_input, TokenTrace,
};
use crate::tape_train::{
    are_step_traces, is_document_loss, is_document_loss_by, is_step_trace, losses_of, toks_of,
    StepTrace,
};
use crate::twin_parts::{
    exact_curves, is_exponential, lemma_dot_node_exact, lemma_share_same, lemma_share_unique,
    lemma_softmax_nodes_shares, lemma_softmax_shares, lemma_sum_node_exact, lemma_twin_linear,
    lemma_twin_norm, lemma_twin_relu, lemma_twin_residual, same_matrix, same_row, tape_nums,
};

verus! {

/// The scores of one head.
proof fn lemma_twin_score<W: Scalar, S: Scalar>(
    p: spec_fn(W) -> real,
    q: spec_fn(S) -> real,
    nodes: Seq<Node<W>>,
    hs: Heads,
    b: int,
    h: int,
    t: int,
    u: int,
    qs: Seq<Value>,
    ks: Seq<Value>,
    score: Value,
    qm: Seq<S>,
    km: Seq<S>,
    scale: S,
    r: S,
)
    requires
        exact(p),
        exact(q),
        hs.d > 0,
        0 <= b < hs.b_n,
        0 <= h < hs.h_n,
        0 <= u <= t < hs.t_len,
        same_row(p, q, nodes, qs, qm, hs.width() as nat, hs.position(b, t)),
        same_row(p, q, nodes, ks, km, hs.width() as nat, hs.position(b, u)),
        is_score_node(
            nodes,
            part_of(qs, h * hs.d, hs.d as int),
            part_of(ks, h * hs.d, hs.d as int),
            hs.d as nat,
            score,
        ),
        is_score_scale(hs.d as nat, scale),
        is_scaled_dot(
            qm,
            hs.head_start(b, t, h),
            1,
            km,
            hs.head_start(b, u, h),
            1,
            hs.d as nat,
            scale,
            r,
        ),
    ensures
        p(data_of(nodes, score)) == q(r),
{
    let d = hs.d as nat;
    let c = hs.width() as nat;
    let (qh, kh) = (part_of(qs, h * hs.d, hs.d as int), part_of(ks, h * hs.d, hs.d as int));
    let (st, su) = (hs.head_start(b, t, h), hs.head_start(b, u, h));
    lemma_places(hs, b, h, t, 0);
    lemma_places(hs, b, h, t, d - 1);
    let (product, size, root) = choose|product: Value, size: W, root: W|
        #![trigger is_dot_node(nodes, qh, kh, product), is_sqrt(size, root)]
        is_dot_node(nodes, qh, kh, product) && is_num(d as u64, size) && is_sqrt(size, root)
            && is_div_const(nodes, product, root, score);
    lemma_dot_node_exact(p, nodes, qh, kh, product);
    let acc = choose|acc: S| #[trigger]
        is_dot(qm, st, 1, km, su, 1, d, acc) && is_prod(acc, scale, r);
    lemma_dot_exact(q, qm, st, 1, km, su, 1, d, acc);
    let (f, g) = (tape_nums(p, nodes, qh), tape_nums(p, nodes, kh));
    let (x, y) = (|i: int| q(qm[st + i * 1]), |i: int| q(km[su + i * 1]));
    assert forall|i: int| 0 <= i < d implies #[trigger] f(i) == x(i) by {
        lemma_places(hs, b, h, t, i);
        assert(qh[i] == qs[h * hs.d + i]);
        assert(tape_nums(p, nodes, qs)(h * hs.d + i) == row_nums(q, qm, c, hs.position(b, t))(
            h * hs.d + i,
        ));
    }
    assert forall|i: int| 0 <= i < d implies #[trigger] g(i) == y(i) by {
        lemma_places(hs, b, h, u, i);
        assert(kh[i] == ks[h * hs.d + i]);
        assert(tape_nums(p, nodes, ks)(h * hs.d + i) == row_nums(q, km, c, hs.position(b, u))(
            h * hs.d + i,
        ));
    }
    lemma_inner_same(f, g, x, y, d);
    lemma_total_same(
        |i: int| x(i) * y(i),
        |i: int| q(qm[st + i * 1]) * q(km[su + i * 1]),
        d,
    );
    let (top, s, n) = (p(data_of(nodes, product)), p(root), d as real);
    assert(top == q(acc));
    assert(p(size) == n);
    assert(s * s == n && s >= 0 as real);
    assert(s > 0 as real) by (nonlinear_arith)
        requires
            s * s == n,
            s >= 0 as real,
            n > 0 as real,
    ;
    lemma_quotient(top, s);
    lemma_quotient(1 as real, s);
    let one = 1 as real / s;
    assert(one > 0 as real) by (nonlinear_arith)
        requires
            one * s == 1 as real,
            s > 0 as real,
    ;
    assert(one * one * n == 1 as real) by (nonlinear_arith)
        requires
            one * s == 1 as real,
            s * s == n,
    ;
    lemma_scale_exact(q, d, scale);
    lemma_scale_unique(d, one, q(scale));
    let out = p(data_of(nodes, score));
    assert(is_quot(data_of(nodes, product), root, data_of(nodes, score)));
    assert(out * s == top);
    assert(out == top * one) by (nonlinear_arith)
        requires
            out * s == top,
            one * s == 1 as real,
    ;
}

/// The attention weights of one head.
pub proof fn lemma_twin_weights<W: Scalar, S: Scalar>(
    p: spec_fn(W) -> real,
    q: spec_fn(S) -> real,
    ex: spec_fn(real) -> real,
    lg: spec_fn(real) -> real,
    nodes: Seq<Node<W>>,
    hs: Heads,
    b: int,
    h: int,
    t: int,
    qs: Seq<Value>,
    keys: Seq<Seq<Value>>,
    scores: Seq<Value>,
    weights: Seq<Value>,
    qm: Seq<S>,
    km: Seq<S>,
    att: Seq<S>,
)
    requires
        exact_curves(p, ex, lg),
        exact_curves(q, ex, lg),
        is_exponential(ex),
        hs.d > 0,
        0 <= b < hs.b_n,
        0 <= h < hs.h_n,
        0 <= t < hs.t_len,
        keys.len() == t + 1,
        att.len() == hs.weight_rows() * hs.t_len,
        same_row(p, q, nodes, qs, qm, hs.width() as nat, hs.position(b, t)),
        forall|u: int|
            0 <= u <= t ==> same_row(
                p,
                q,
                nodes,
                #[trigger] keys[u],
                km,
                hs.width() as nat,
                hs.position(b, u),
            ),
        scores.len() == keys.len(),
        forall|u: int|
            0 <= u < keys.len() ==> is_score_node(
                nodes,
                part_of(qs, h * hs.d, hs.d as int),
                part_of(keys[u], h * hs.d, hs.d as int),
                hs.d as nat,
                #[trigger] scores[u],
            ),
        is_softmax_nodes(nodes, scores, weights),
        is_attn_softmax(hs, att, qm, km),
    ensures
        weights.len() == t + 1,
        forall|u: int|
            0 <= u <= t ==> #[trigger] tape_nums(p, nodes, weights)(u) == q(
                att[hs.weight_row(b, h, t) * hs.t_len + u],
            ),
{
    let i = hs.weight_row(b, h, t);
    let n = hs.t_len as nat;
    let row = row_of(att, n, i);
    lemma_weight_places(hs, b, h, t);
    lemma_weight_row(hs, att, b, h, t);
    assert(softmax_row(hs, qm, km, i, row));
    let (scale, sc) = choose|scale: S, sc: Seq<S>|
        is_score_scale(hs.d as nat, scale) && #[trigger] is_scores(hs, qm, km, i, scale, sc)
            && is_softmax(sc, row.take(t + 1));
    let (x, z) = (tape_nums(p, nodes, scores), nums(q, sc));
    assert forall|u: int| 0 <= u < t + 1 implies #[trigger] x(u) == z(u) by {
        assert(is_score_node(
            nodes,
            part_of(qs, h * hs.d, hs.d as int),
            part_of(keys[u], h * hs.d, hs.d as int),
            hs.d as nat,
            scores[u],
        ));
        assert(same_row(p, q, nodes, keys[u], km, hs.width() as nat, hs.position(b, u)));
        assert(is_scaled_dot(
            qm,
            hs.head_start(b, t, h),
            1,
            km,
            hs.head_start(b, u, h),
            1,
            hs.d as nat,
            scale,
            sc[u],
        ));
        lemma_twin_score(
            p,
            q,
            nodes,
            hs,
            b,
            h,
            t,
            u,
            qs,
            keys[u],
            scores[u],
            qm,
            km,
            scale,
            sc[u],
        );
    }
    assert forall|u: int| 0 <= u <= t implies #[trigger] tape_nums(p, nodes, weights)(u) == q(
        att[hs.weight_row(b, h, t) * hs.t_len + u],
    ) by {
        lemma_softmax_nodes_shares(p, ex, lg, nodes, scores, weights, u);
        lemma_softmax_shares(q, ex, lg, sc, row.take(t + 1), u);
        let (a, e) = (p(data_of(nodes, weights[u])), q(row.take(t + 1)[u]));
        lemma_share_same(ex, x, z, (t + 1) as nat, u, a);
        lemma_share_unique(ex, z, (t + 1) as nat, u, a, e);
        assert(row.take(t + 1)[u] == row[u]);
        assert(row[u] == att[i * hs.t_len + u]);
    }
}

/// Attention at position `t` of document `b`.
proof fn lemma_twin_attention<W: Scalar, S: Scalar>(
    p: spec_fn(W) -> real,
    q: spec_fn(S) -> real,
    ex: spec_fn(real) -> real,
    lg: spec_fn(real) -> real,
    nodes: Seq<Node<W>>,
    hs: Heads,
    b: int,
    t: int,
    qs: Seq<Value>,
    keys: Seq<Seq<Value>>,
    values: Seq<Seq<Value>>,
    outs: Seq<Value>,
    qm: Seq<S>,
    km: Seq<S>,
    vm: Seq<S>,
    att: Seq<S>,
    y: Seq<S>,
)
    requires
        exact_curves(p, ex, lg),
        exact_curves(q, ex, lg),
        is_exponential(ex),
        hs.d > 0,
        hs.h_n > 0,
        0 <= b < hs.b_n,
        0 <= t < hs.t_len,
        keys.len() == t + 1,
        values.len() == t + 1,
        att.len() == hs.weight_rows() * hs.t_len,
        y.len() == hs.positions() * hs.width(),
        same_row(p, q, nodes, qs, qm, hs.width() as nat, hs.position(b, t)),
        forall|u: int|
            0 <= u <= t ==> same_row(
                p,
                q,
                nodes,
                #[trigger] keys[u],
                km,
                hs.width() as nat,
                hs.position(b, u),
            ),
        forall|u: int|
            0 <= u <= t ==> same_row(
                p,
                q,
                nodes,
                #[trigger] values[u],
                vm,
                hs.width() as nat,
                hs.position(b, u),
            ),
        is_attention(nodes, hs.h_n as int, hs.d as int, qs, keys, values, outs),
        is_attn_softmax(hs, att, qm, km),
        is_attn_mix(hs, Side::Past, y, att, vm),
    ensures
        same_row(p, q, nodes, outs, y, hs.width() as nat, hs.position(b, t)),
{
    let c = hs.width() as nat;
    let r = hs.position(b, t);
    let n = hs.t_len as int;
    lemma_places(hs, b, 0, t, 0);
    lemma_whole_rows(hs.positions(), hs.width());
    lemma_row_inside(r, hs.positions(), hs.width());
    let row = row_of(y, c, r);
    assert(causal_row(hs, Side::Past, att, vm, r, row));
    assert forall|col: int| 0 <= col < c implies #[trigger] tape_nums(p, nodes, outs)(col)
        == row_nums(q, y, c, r)(col) by {
        lemma_unpair(col, hs.h_n as int, hs.d as int);
        let (h, j) = (col / hs.d as int, col % hs.d as int);
        lemma_row_inside(h, hs.h_n as int, hs.d as int);
        let part = part_of(outs, h * hs.d, hs.d as int);
        assert(is_head(nodes, hs.d as int, h * hs.d, qs, keys, values, part));
        let (scores, weights) = choose|scores: Seq<Value>, weights: Seq<Value>| #[trigger]
            is_head_by(nodes, hs.d as int, h * hs.d, qs, keys, values, part, scores, weights);
        lemma_twin_weights(
            p,
            q,
            ex,
            lg,
            nodes,
            hs,
            b,
            h,
            t,
            qs,
            keys,
            scores,
            weights,
            qm,
            km,
            att,
        );
        let vs = column(values, h * hs.d + j);
        assert(is_dot_node(nodes, weights, vs, part[j]));
        assert(part[j] == outs[col]);
        lemma_dot_node_exact(p, nodes, weights, vs, outs[col]);
        assert(is_causal_sum(hs, Side::Past, att, vm, r, col, row[col]));
        let base = hs.weight_row(b, h, t) * n;
        let start = hs.entry(b, 0, col);
        lemma_dot_exact(q, att, base, 1, vm, start, c as int, (t + 1) as nat, row[col]);
        let (f, g) = (tape_nums(p, nodes, weights), tape_nums(p, nodes, vs));
        let (x, z) = (|u: int| q(att[base + u * 1]), |u: int| q(vm[start + u * c as int]));
        assert forall|u: int| 0 <= u < t + 1 implies #[trigger] f(u) == x(u) by {
            assert(base + u * 1 == hs.weight_row(b, h, t) * hs.t_len + u);
        }
        assert forall|u: int| 0 <= u < t + 1 implies #[trigger] g(u) == z(u) by {
            lemma_step_down(hs.position(b, 0), u, c as int);
            assert(hs.position(b, u) == hs.position(b, 0) + u);
            assert(vs[u] == values[u][col]);
            assert(same_row(p, q, nodes, values[u], vm, c, hs.position(b, u)));
            assert(tape_nums(p, nodes, values[u])(col) == row_nums(q, vm, c, hs.position(b, u))(
                col,
            ));
        }
        lemma_inner_same(f, g, x, z, (t + 1) as nat);
        lemma_total_same(
            |u: int| x(u) * z(u),
            |u: int| q(att[base + u * 1]) * q(vm[start + u * c as int]),
            (t + 1) as nat,
        );
    }
}

/// The handles of a layer stand for the numbers of its matrices.
pub open spec fn same_layer<W, S>(
    p: spec_fn(W) -> real,
    q: spec_fn(S) -> real,
    nodes: Seq<Node<W>>,
    w: crate::tape_gpt::LayerWeights,
    wm: LayerWeights<S>,
    c: nat,
) -> bool {
    &&& same_matrix(p, q, nodes, rows_of(w.attn_wq@), wm.wq, c, c)
    &&& same_matrix(p, q, nodes, rows_of(w.attn_wk@), wm.wk, c, c)
    &&& same_matrix(p, q, nodes, rows_of(w.attn_wv@), wm.wv, c, c)
    &&& same_matrix(p, q, nodes, rows_of(w.attn_wo@), wm.wo, c, c)
    &&& same_matrix(p, q, nodes, rows_of(w.mlp_fc1@), wm.fc1, 4 * c, c)
    &&& same_matrix(p, q, nodes, rows_of(w.mlp_fc2@), wm.fc2, c, 4 * c)
}

/// The handles of all matrices stand for the numbers of `w`.
pub open spec fn same_weights<W, S>(
    p: spec_fn(W) -> real,
    q: spec_fn(S) -> real,
    nodes: Seq<Node<W>>,
    sd: StateDict,
    w: Weights<S>,
    cfg: Cfg,
    vocab: nat,
) -> bool {
    let c = cfg.n_embd as nat;
    &&& same_matrix(p, q, nodes, rows_of(sd.wte@), w.wte, vocab, c)
    &&& same_matrix(p, q, nodes, rows_of(sd.wpe@), w.wpe, cfg.block_size as nat, c)
    &&& same_matrix(p, q, nodes, rows_of(sd.lm_head@), w.lm_head, vocab, c)
    &&& forall|li: int|
        0 <= li < cfg.n_layer ==> same_layer(
            p,
            q,
            nodes,
            #[trigger] sd.layers@[li],
            w.layers[li],
            c,
        )
}

/// What goes through a layer for one token stands for row `t` of what goes through it for
/// the whole document.
#[verifier::opaque]
pub open spec fn same_trace<W, S>(
    p: spec_fn(W) -> real,
    q: spec_fn(S) -> real,
    nodes: Seq<Node<W>>,
    s: Shape,
    tr: LayerTrace,
    a: LayerValues<S>,
    t: int,
) -> bool {
    let (c, c4) = (s.c() as nat, (4 * s.c()) as nat);
    &&& same_row(p, q, nodes, tr.xin, a.xin, c, t)
    &&& same_row(p, q, nodes, tr.xn, a.xn, c, t)
    &&& same_row(p, q, nodes, tr.q, a.q, c, t)
    &&& same_row(p, q, nodes, tr.k, a.k, c, t)
    &&& same_row(p, q, nodes, tr.v, a.v, c, t)
    &&& same_row(p, q, nodes, tr.x_attn, a.atty, c, t)
    &&& same_row(p, q, nodes, tr.x_mid, a.x_mid, c, t)
    &&& same_row(p, q, nodes, tr.xn2, a.xn2, c, t)
    &&& same_row(p, q, nodes, tr.hpre, a.hpre, c4, t)
    &&& same_row(p, q, nodes, tr.h, a.h, c4, t)
    &&& same_row(p, q, nodes, tr.x_out, a.x_out, c, t)
}

/// A layer, at position `t`.
proof fn lemma_twin_layer<W: Scalar, S: Scalar>(
    p: spec_fn(W) -> real,
    q: spec_fn(S) -> real,
    ex: spec_fn(real) -> real,
    lg: spec_fn(real) -> real,
    nodes: Seq<Node<W>>,
    s: Shape,
    w: crate::tape_gpt::LayerWeights,
    wm: LayerWeights<S>,
    keys: Seq<Seq<Value>>,
    values: Seq<Seq<Value>>,
    tr: LayerTrace,
    a: LayerValues<S>,
    t: int,
)
    requires
        exact_curves(p, ex, lg),
        exact_curves(q, ex, lg),
        is_exponential(ex),
        s.ok(),
        s.rows == s.t_len,
        0 <= t < s.rows,
        same_layer(p, q, nodes, w, wm, s.c() as nat),
        is_layer_trace(nodes, s.cfg, w, keys, values, tr),
        is_layer(s, wm, a),
        keys.len() == t,
        values.len() == t,
        forall|u: int|
            0 <= u < t ==> same_row(p, q, nodes, #[trigger] keys[u], a.k, s.c() as nat, u),
        forall|u: int|
            0 <= u < t ==> same_row(p, q, nodes, #[trigger] values[u], a.v, s.c() as nat, u),
        same_row(p, q, nodes, tr.xin, a.xin, s.c() as nat, t),
    ensures
        same_trace(p, q, nodes, s, tr, a, t),
{
    reveal(is_layer_trace);
    reveal(same_trace);
    let (m, c, c4) = (s.rows as nat, s.c() as nat, (4 * s.c()) as nat);
    let hs = s.heads_spec();
    s.lemma_numbers();
    assert(s.rc() == m * c && s.rc4() == m * c4);
    lemma_twin_norm(p, q, ex, lg, nodes, tr.xin, tr.xn, a.xn, a.r1, a.xin, m, c, t);
    lemma_twin_linear(p, q, nodes, tr.xn, rows_of(w.attn_wq@), tr.q, a.q, a.xn, wm.wq, m, c, c, t);
    lemma_twin_linear(p, q, nodes, tr.xn, rows_of(w.attn_wk@), tr.k, a.k, a.xn, wm.wk, m, c, c, t);
    lemma_twin_linear(p, q, nodes, tr.xn, rows_of(w.attn_wv@), tr.v, a.v, a.xn, wm.wv, m, c, c, t);
    let (all_keys, all_values) = (keys.push(tr.k), values.push(tr.v));
    assert(hs.b_n == 1) by {
        lemma_whole_rows(1, s.t_len as int);
    }
    assert(0 * s.t_len == 0);
    assert forall|u: int| 0 <= u <= t implies same_row(
        p,
        q,
        nodes,
        #[trigger] all_keys[u],
        a.k,
        c,
        hs.position(0, u),
    ) by {
        if u < t {
            assert(all_keys[u] == keys[u]);
        }
    }
    assert forall|u: int| 0 <= u <= t implies same_row(
        p,
        q,
        nodes,
        #[trigger] all_values[u],
        a.v,
        c,
        hs.position(0, u),
    ) by {
        if u < t {
            assert(all_values[u] == values[u]);
        }
    }
    lemma_twin_attention(
        p,
        q,
        ex,
        lg,
        nodes,
        hs,
        0,
        t,
        tr.q,
        all_keys,
        all_values,
        tr.x_attn,
        a.q,
        a.k,
        a.v,
        a.att,
        a.atty,
    );
    lemma_twin_residual(
        p,
        q,
        nodes,
        tr.xin,
        tr.x_attn,
        rows_of(w.attn_wo@),
        tr.proj,
        tr.x_mid,
        a.x_mid,
        a.xin,
        a.atty,
        wm.wo,
        m,
        c,
        c,
        t,
    );
    lemma_twin_norm(p, q, ex, lg, nodes, tr.x_mid, tr.xn2, a.xn2, a.r2, a.x_mid, m, c, t);
    lemma_twin_linear(
        p,
        q,
        nodes,
        tr.xn2,
        rows_of(w.mlp_fc1@),
        tr.hpre,
        a.hpre,
        a.xn2,
        wm.fc1,
        m,
        c4,
        c,
        t,
    );
    lemma_twin_relu(p, q, ex, lg, nodes, tr.hpre, tr.h, a.h, a.hpre, m, c4, t);
    lemma_twin_residual(
        p,
        q,
        nodes,
        tr.x_mid,
        tr.h,
        rows_of(w.mlp_fc2@),
        tr.mlp,
        tr.x_out,
        a.x_out,
        a.x_mid,
        a.h,
        wm.fc2,
        m,
        c,
        c4,
        t,
    );
}

/// What goes through the network for one token stands for row `t` of what goes through it
/// for the whole document.
pub open spec fn same_token<W, S>(
    p: spec_fn(W) -> real,
    q: spec_fn(S) -> real,
    nodes: Seq<Node<W>>,
    s: Shape,
    tok: TokenTrace,
    a: Values<S>,
    t: int,
) -> bool {
    &&& same_row(p, q, nodes, tok.emb, a.x0, s.c() as nat, t)
    &&& same_row(p, q, nodes, tok.x1, a.x1, s.c() as nat, t)
    &&& forall|li: int|
        0 <= li < s.cfg.n_layer ==> same_trace(
            p,
            q,
            nodes,
            s,
            #[trigger] tok.layers[li],
            a.layers[li],
            t,
        )
    &&& same_row(p, q, nodes, tok.logits, a.logits, s.vocab as nat, t)
}

/// The layers up to `li`, at position `t`.
proof fn lemma_twin_layers<W: Scalar, S: Scalar>(
    p: spec_fn(W) -> real,
    q: spec_fn(S) -> real,
    ex: spec_fn(real) -> real,
    lg: spec_fn(real) -> real,
    nodes: Seq<Node<W>>,
    s: Shape,
    sd: StateDict,
    w: Weights<S>,
    tokens: Seq<i32>,
    toks: Seq<TokenTrace>,
    tok: TokenTrace,
    a: Values<S>,
    t: int,
    li: int,
)
    requires
        exact_curves(p, ex, lg),
        exact_curves(q, ex, lg),
        is_exponential(ex),
        s.ok(),
        s.rows == s.t_len,
        0 <= t < s.rows,
        same_weights(p, q, nodes, sd, w, s.cfg, s.vocab as nat),
        is_forward(s, w, tokens, a),
        tok.layers.len() == s.cfg.n_layer,
        are_layer_traces(
            nodes,
            s.cfg,
            sd,
            past_keys(s.cfg, toks, t),
            past_values(s.cfg, toks, t),
            tok.x1,
            tok.layers,
        ),
        forall|u: int|
            0 <= u < t ==> same_token(p, q, nodes, s, #[trigger] toks[u], a, u),
        same_row(p, q, nodes, tok.x1, a.x1, s.c() as nat, t),
        0 <= li < s.cfg.n_layer,
    ensures
        same_trace(p, q, nodes, s, tok.layers[li], a.layers[li], t),
    decreases li,
{
    reveal(same_trace);
    if li > 0 {
        lemma_twin_layers(
            p,
            q,
            ex,
            lg,
            nodes,
            s,
            sd,
            w,
            tokens,
            toks,
            tok,
            a,
            t,
            li - 1,
        );
    }
    let (keys, values) = (past_keys(s.cfg, toks, t)[li], past_values(s.cfg, toks, t)[li]);
    let c = s.c() as nat;
    assert forall|u: int| 0 <= u < t implies same_row(
        p,
        q,
        nodes,
        #[trigger] keys[u],
        a.layers[li].k,
        c,
        u,
    ) by {
        assert(same_token(p, q, nodes, s, toks[u], a, u));
        assert(same_trace(p, q, nodes, s, toks[u].layers[li], a.layers[li], u));
        assert(keys[u] == toks[u].layers[li].k);
    }
    assert forall|u: int| 0 <= u < t implies same_row(
        p,
        q,
        nodes,
        #[trigger] values[u],
        a.layers[li].v,
        c,
        u,
    ) by {
        assert(same_token(p, q, nodes, s, toks[u], a, u));
        assert(same_trace(p, q, nodes, s, toks[u].layers[li], a.layers[li], u));
        assert(values[u] == toks[u].layers[li].v);
    }
    assert(tok.layers[li].xin == trace_input(tok.x1, tok.layers, li));
    assert(a.layers[li].xin == input_of(a, li));
    assert(same_layer(p, q, nodes, sd.layers@[li], w.layers[li], c));
    lemma_twin_layer(
        p,
        q,
        ex,
        lg,
        nodes,
        s,
        sd.layers@[li],
        w.layers[li],
        keys,
        values,
        tok.layers[li],
        a.layers[li],
        t,
    );
}

/// The embedding of a token.
proof fn lemma_twin_embed<W: Scalar, S: Scalar>(
    p: spec_fn(W) -> real,
    q: spec_fn(S) -> real,
    nodes: Seq<Node<W>>,
    s: Shape,
    sd: StateDict,
    w: Weights<S>,
    tokens: Seq<i32>,
    emb: Seq<Value>,
    x0: Seq<S>,
    t: int,
)
    requires
        exact(p),
        exact(q),
        s.ok(),
        s.rows == s.t_len,
        0 <= t < s.rows,
        0 <= tokens[t] < s.vocab,
        same_weights(p, q, nodes, sd, w, s.cfg, s.vocab as nat),
        x0.len() == s.rc(),
        is_embed(x0, w.wte, w.wpe, tokens, s.t_len as nat, s.c() as nat),
        crate::graph::is_add_nodes(
            nodes,
            rows_of(sd.wte@)[tokens[t] as int],
            rows_of(sd.wpe@)[t],
            emb,
        ),
    ensures
        same_row(p, q, nodes, emb, x0, s.c() as nat, t),
{
    let (m, c) = (s.rows as nat, s.c() as nat);
    lemma_whole_rows(m as int, c as int);
    lemma_row_inside(t, m as int, c as int);
    vstd::arithmetic::div_mod::lemma_small_mod(t as nat, s.t_len as nat);
    let row = row_of(x0, c, t);
    assert(embed_row(w.wte, w.wpe, tokens, s.t_len as nat, t, row));
    let (tok, pos) = (rows_of(sd.wte@)[tokens[t] as int], rows_of(sd.wpe@)[t]);
    assert(same_row(p, q, nodes, tok, w.wte, c, tokens[t] as int));
    assert(same_row(p, q, nodes, pos, w.wpe, c, t));
    assert forall|j: int| 0 <= j < c implies #[trigger] tape_nums(p, nodes, emb)(j) == row_nums(
        q,
        x0,
        c,
        t,
    )(j) by {
        assert(is_add_node(nodes, tok[j], pos[j], emb[j]));
        assert(tape_nums(p, nodes, tok)(j) == row_nums(q, w.wte, c, tokens[t] as int)(j));
        assert(tape_nums(p, nodes, pos)(j) == row_nums(q, w.wpe, c, t)(j));
        assert(is_sum(w.wte[tokens[t] * c + j], w.wpe[t * c + j], row[j]));
    }
}

/// A token, at position `t`, behind tokens that agree.
pub proof fn lemma_twin_token<W: Scalar, S: Scalar>(
    p: spec_fn(W) -> real,
    q: spec_fn(S) -> real,
    ex: spec_fn(real) -> real,
    lg: spec_fn(real) -> real,
    nodes: Seq<Node<W>>,
    s: Shape,
    sd: StateDict,
    w: Weights<S>,
    tokens: Seq<i32>,
    toks: Seq<TokenTrace>,
    tok: TokenTrace,
    a: Values<S>,
    t: int,
)
    requires
        exact_curves(p, ex, lg),
        exact_curves(q, ex, lg),
        is_exponential(ex),
        s.ok(),
        s.rows == s.t_len,
        0 <= t < s.rows,
        0 <= tokens[t] < s.vocab,
        same_weights(p, q, nodes, sd, w, s.cfg, s.vocab as nat),
        is_forward(s, w, tokens, a),
        is_token_trace(
            nodes,
            s.cfg,
            sd,
            tokens[t] as int,
            t,
            past_keys(s.cfg, toks, t),
            past_values(s.cfg, toks, t),
            tok,
        ),
        forall|u: int|
            0 <= u < t ==> same_token(p, q, nodes, s, #[trigger] toks[u], a, u),
    ensures
        same_token(p, q, nodes, s, tok, a, t),
{
    reveal(is_token_trace);
    let (m, c, v) = (s.rows as nat, s.c() as nat, s.vocab as nat);
    s.lemma_numbers();
    assert(s.rc() == m * c && s.rv() == m * v);
    lemma_twin_embed(p, q, nodes, s, sd, w, tokens, tok.emb, a.x0, t);
    lemma_twin_norm(p, q, ex, lg, nodes, tok.emb, tok.x1, a.x1, a.r0, a.x0, m, c, t);
    assert forall|li: int| 0 <= li < s.cfg.n_layer implies same_trace(
        p,
        q,
        nodes,
        s,
        #[trigger] tok.layers[li],
        a.layers[li],
        t,
    ) by {
        lemma_twin_layers(p, q, ex, lg, nodes, s, sd, w, tokens, toks, tok, a, t, li);
    }
    let last = s.cfg.n_layer - 1;
    lemma_twin_layers(p, q, ex, lg, nodes, s, sd, w, tokens, toks, tok, a, t, last);
    reveal(same_trace);
    lemma_twin_linear(
        p,
        q,
        nodes,
        tok.layers[last].x_out,
        rows_of(sd.lm_head@),
        tok.logits,
        a.logits,
        a.layers[last].x_out,
        w.lm_head,
        m,
        v,
        c,
        t,
    );
}

/// All tokens of a document up to position `t`.
pub proof fn lemma_twin_tokens<W: Scalar, S: Scalar>(
    p: spec_fn(W) -> real,
    q: spec_fn(S) -> real,
    ex: spec_fn(real) -> real,
    lg: spec_fn(real) -> real,
    nodes: Seq<Node<W>>,
    s: Shape,
    sd: StateDict,
    w: Weights<S>,
    doc: Seq<usize>,
    tokens: Seq<i32>,
    steps: Seq<StepTrace>,
    a: Values<S>,
    t: int,
)
    requires
        exact_curves(p, ex, lg),
        exact_curves(q, ex, lg),
        is_exponential(ex),
        s.ok(),
        s.rows == s.t_len,
        0 <= t < s.rows,
        steps.len() == s.rows,
        forall|i: int|
            0 <= i < s.rows ==> #[trigger] tokens[i] == doc[i] && doc[i] < s.vocab,
        same_weights(p, q, nodes, sd, w, s.cfg, s.vocab as nat),
        is_forward(s, w, tokens, a),
        are_step_traces(nodes, s.cfg, sd, doc, steps),
    ensures
        same_token(p, q, nodes, s, steps[t].token, a, t),
    decreases t,
{
    let toks = toks_of(steps);
    assert forall|u: int| 0 <= u < t implies same_token(
        p,
        q,
        nodes,
        s,
        #[trigger] toks[u],
        a,
        u,
    ) by {
        lemma_twin_tokens(p, q, ex, lg, nodes, s, sd, w, doc, tokens, steps, a, u);
    }
    assert(is_step_trace(
        nodes,
        s.cfg,
        sd,
        doc,
        t,
        past_keys(s.cfg, toks, t),
        past_values(s.cfg, toks, t),
        steps[t],
    ));
    reveal(is_step_trace);
    assert(tokens[t] == doc[t]);
    lemma_twin_token(
        p,
        q,
        ex,
        lg,
        nodes,
        s,
        sd,
        w,
        tokens,
        toks,
        steps[t].token,
        a,
        t,
    );
}

/// The probabilities at position `t`.
pub proof fn lemma_twin_probs<W: Scalar, S: Scalar>(
    p: spec_fn(W) -> real,
    q: spec_fn(S) -> real,
    ex: spec_fn(real) -> real,
    lg: spec_fn(real) -> real,
    nodes: Seq<Node<W>>,
    xs: Seq<Value>,
    ps: Seq<Value>,
    losses: Seq<S>,
    before: Seq<S>,
    probs: Seq<S>,
    logits: Seq<S>,
    targets: Seq<i32>,
    m: nat,
    vocab: nat,
    t: int,
)
    requires
        exact_curves(p, ex, lg),
        exact_curves(q, ex, lg),
        is_exponential(ex),
        0 <= t < m,
        losses.len() == m,
        logits.len() == m * vocab,
        probs.len() == m * vocab,
        0 <= targets[t] < vocab,
        same_row(p, q, nodes, xs, logits, vocab, t),
        is_softmax_nodes(nodes, xs, ps),
        is_ce(losses, before, probs, logits, targets, vocab),
    ensures
        same_row(p, q, nodes, ps, probs, vocab, t),
{
    lemma_row_inside(t, m as int, vocab as int);
    let (row, out) = (row_of(logits, vocab, t), row_of(probs, vocab, t));
    assert(ce_row(losses[t], row_of(before, vocab, t), out, row, targets[t]));
    let (x, z) = (tape_nums(p, nodes, xs), nums(q, row));
    assert forall|j: int| 0 <= j < vocab implies #[trigger] x(j) == z(j) by {
        assert(x(j) == row_nums(q, logits, vocab, t)(j));
        assert(row[j] == logits[t * vocab + j]);
    }
    assert forall|j: int| 0 <= j < vocab implies #[trigger] tape_nums(p, nodes, ps)(j)
        == row_nums(q, probs, vocab, t)(j) by {
        lemma_softmax_nodes_shares(p, ex, lg, nodes, xs, ps, j);
        lemma_softmax_shares(q, ex, lg, row, out, j);
        let (y, o) = (p(data_of(nodes, ps[j])), q(out[j]));
        lemma_share_same(ex, x, z, vocab, j, y);
        lemma_share_unique(ex, z, vocab, j, y, o);
    }
}

/// The loss of position `t`.
proof fn lemma_twin_loss<W: Scalar, S: Scalar>(
    p: spec_fn(W) -> real,
    q: spec_fn(S) -> real,
    ex: spec_fn(real) -> real,
    lg: spec_fn(real) -> real,
    nodes: Seq<Node<W>>,
    step: StepTrace,
    target: int,
    losses: Seq<S>,
    before: Seq<S>,
    probs: Seq<S>,
    logits: Seq<S>,
    targets: Seq<i32>,
    m: nat,
    vocab: nat,
    t: int,
)
    requires
        exact_curves(p, ex, lg),
        exact_curves(q, ex, lg),
        is_exponential(ex),
        0 <= t < m,
        losses.len() == m,
        logits.len() == m * vocab,
        probs.len() == m * vocab,
        0 <= target < vocab,
        targets[t] == target,
        same_row(p, q, nodes, step.token.logits, logits, vocab, t),
        is_softmax_nodes(nodes, step.token.logits, step.probs),
        is_log_node(nodes, step.probs[target], step.log),
        is_neg_node(nodes, step.log, step.loss),
        is_ce(losses, before, probs, logits, targets, vocab),
    ensures
        p(data_of(nodes, step.loss)) == q(losses[t]),
{
    lemma_row_inside(t, m as int, vocab as int);
    let (row, out) = (row_of(logits, vocab, t), row_of(probs, vocab, t));
    assert(ce_row(losses[t], row_of(before, vocab, t), out, row, targets[t]));
    let (xs, ps) = (step.token.logits, step.probs);
    lemma_twin_probs(
        p,
        q,
        ex,
        lg,
        nodes,
        xs,
        ps,
        losses,
        before,
        probs,
        logits,
        targets,
        m,
        vocab,
        t,
    );
    assert(tape_nums(p, nodes, ps)(target) == row_nums(q, probs, vocab, t)(target));
    let log = choose|log: S| #[trigger] is_ln(out[target], log) && is_neg(log, losses[t]);
    assert(is_ln(data_of(nodes, ps[target]), data_of(nodes, step.log)));
    assert(is_neg(data_of(nodes, step.log), data_of(nodes, step.loss)));
}

/// Targets of which none is padding are all counted.
pub proof fn lemma_all_valid(targets: Seq<i32>, n: nat)
    requires
        forall|i: int| 0 <= i < n ==> #[trigger] targets[i] >= 0,
    ensures
        count_valid(targets, n) == n,
    decreases n,
{
    if n > 0 {
        lemma_all_valid(targets, (n - 1) as nat);
        assert(targets[n - 1] >= 0);
    }
}

/// The tape and the batched network agree: in exact arithmetic, with the same parameters, the
/// loss of a document on the tape is the loss of the same document as a batch of one. What is
/// computed per scalar with a cache of keys and values, and what is computed per layer with a
/// mask, is the same function.
pub proof fn law_tape_and_network_agree<W: Scalar, S: Scalar>(
    p: spec_fn(W) -> real,
    q: spec_fn(S) -> real,
    ex: spec_fn(real) -> real,
    lg: spec_fn(real) -> real,
    nodes: Seq<Node<W>>,
    s: Shape,
    sd: StateDict,
    w: Weights<S>,
    doc: Seq<usize>,
    loss: Value,
    tokens: Seq<i32>,
    targets: Seq<i32>,
    a: Values<S>,
    before: Seq<S>,
    probs: Seq<S>,
    losses: Seq<S>,
    mean: S,
)
    requires
        exact_curves(p, ex, lg),
        exact_curves(q, ex, lg),
        is_exponential(ex),
        s.ok(),
        s.rows == s.t_len,
        s.rows < doc.len(),
        forall|i: int| 0 <= i <= s.rows ==> #[trigger] doc[i] < s.vocab,
        tokens.len() == s.rows,
        targets.len() == s.rows,
        forall|i: int| 0 <= i < s.rows ==> #[trigger] tokens[i] == doc[i],
        forall|i: int| 0 <= i < s.rows ==> #[trigger] targets[i] == doc[i + 1],
        same_weights(p, q, nodes, sd, w, s.cfg, s.vocab as nat),
        is_document_loss(nodes, s.cfg, sd, doc, s.rows as nat, loss),
        is_forward(s, w, tokens, a),
        losses.len() == s.rows,
        probs.len() == s.rv(),
        is_ce(losses, before, probs, a.logits, targets, s.vocab as nat),
        is_mean_loss(losses, count_valid(targets, targets.len()), mean),
    ensures
        p(data_of(nodes, loss)) == q(mean),
{
    let (m, v) = (s.rows as nat, s.vocab as nat);
    s.lemma_numbers();
    assert(s.rv() == m * v);
    let (steps, total, share) = choose|steps: Seq<StepTrace>, total: Value, share: W| #[trigger]
        is_document_loss_by(nodes, s.cfg, sd, doc, m, loss, steps, total, share);
    let (f, g) = (tape_nums(p, nodes, losses_of(steps)), nums(q, losses));
    assert forall|t: int| 0 <= t < m implies #[trigger] f(t) == g(t) by {
        lemma_twin_tokens(p, q, ex, lg, nodes, s, sd, w, doc, tokens, steps, a, t);
        assert(is_step_trace(
            nodes,
            s.cfg,
            sd,
            doc,
            t,
            past_keys(s.cfg, toks_of(steps), t),
            past_values(s.cfg, toks_of(steps), t),
            steps[t],
        ));
        reveal(is_step_trace);
        assert(targets[t] == doc[t + 1]);
        lemma_twin_loss(
            p,
            q,
            ex,
            lg,
            nodes,
            steps[t],
            doc[t + 1] as int,
            losses,
            before,
            probs,
            a.logits,
            targets,
            m,
            v,
            t,
        );
    }
    lemma_sum_node_exact(p, nodes, losses_of(steps), total);
    lemma_total_same(f, g, m);
    assert forall|i: int| 0 <= i < m implies #[trigger] targets[i] >= 0 by {
        assert(targets[i] == doc[i + 1]);
    }
    lemma_all_valid(targets, m);
    let (sum, count) = choose|sum: S, count: S|
        is_total(losses, sum) && is_num(m as u64, count) && #[trigger] is_quot(sum, count, mean);
    lemma_total_exact(q, losses, sum);
    let (one, num) = choose|one: W, num: W|
        is_one(one) && is_num(m as u64, num) && #[trigger] is_quot(one, num, share);
    let (top, n) = (total_of(g, m), m as real);
    assert(p(num) == n && q(count) == n);
    lemma_quotient(1 as real, n);
    lemma_quotient(top, n);
    let (h, y) = (p(share), q(mean));
    assert(is_prod(data_of(nodes, total), share, data_of(nodes, loss)));
    assert(top * h == y) by (nonlinear_arith)
        requires
            h * n == 1 as real,
            y * n == top,
    ;
}

/// A matrix on the tape stands for the span of a flat buffer at the same place.
proof fn lemma_flat_matrix<W: Scalar, S: Scalar>(
    p: spec_fn(W) -> real,
    q: spec_fn(S) -> real,
    nodes: Seq<Node<W>>,
    m: Mem<S>,
    z: Span,
    rows: Seq<Seq<Value>>,
    nout: nat,
    nin: nat,
)
    requires
        is_matrix(rows, z.start as int, nout as int, nin as int),
        z.len == nout * nin,
        z.start + z.len <= m[z.buf as int].len(),
        forall|i: int|
            0 <= i < m[z.buf as int].len() ==> p(nodes[i].data) == q(
                #[trigger] m[z.buf as int][i],
            ),
    ensures
        same_matrix(p, q, nodes, rows, read(m, z), nout, nin),
{
    assert forall|o: int| 0 <= o < nout implies same_row(
        p,
        q,
        nodes,
        #[trigger] rows[o],
        read(m, z),
        nin,
        o,
    ) by {
        assert forall|j: int| 0 <= j < nin implies #[trigger] tape_nums(p, nodes, rows[o])(j)
            == row_nums(q, read(m, z), nin, o)(j) by {
            lemma_pair(o, nout as int, j, nin as int);
            let i = z.start + (o * nin + j);
            assert(rows[o][j].idx == z.start + o * nin + j);
            assert(read(m, z)[o * nin + j] == m[z.buf as int][i]);
        }
    }
}

/// A tape whose first nodes are the numbers of a flat parameter buffer holds the same
/// matrices.
pub proof fn law_flat_parameters_are_the_same_matrices<W: Scalar, S: Scalar>(
    p: spec_fn(W) -> real,
    q: spec_fn(S) -> real,
    nodes: Seq<Node<W>>,
    s: Shape,
    sd: StateDict,
    m: Mem<S>,
    buf: int,
)
    requires
        s.ok(),
        0 <= buf <= usize::MAX,
        m[buf].len() == param_count(s.cfg, s.vocab as int),
        sd.stands(0, s.cfg, s.vocab as int),
        forall|i: int|
            0 <= i < m[buf].len() ==> p(nodes[i].data) == q(#[trigger] m[buf][i]),
    ensures
        same_weights(p, q, nodes, sd, weights_of(s, m, buf), s.cfg, s.vocab as nat),
{
    let (cfg, v) = (s.cfg, s.vocab as int);
    let c = cfg.n_embd as nat;
    let square = c * c;
    let w = weights_of(s, m, buf);
    lemma_sizes(cfg, v);
    lemma_layers_fit(cfg, v, 0);
    assert(0 * crate::layout::layer_len(cfg) == 0);
    lemma_flat_matrix(p, q, nodes, m, s.wte(buf), rows_of(sd.wte@), v as nat, c);
    lemma_flat_matrix(
        p,
        q,
        nodes,
        m,
        s.wpe(buf),
        rows_of(sd.wpe@),
        cfg.block_size as nat,
        c,
    );
    lemma_flat_matrix(p, q, nodes, m, s.lm_head(buf), rows_of(sd.lm_head@), v as nat, c);
    assert((4 * c) * c == 4 * square && c * (4 * c) == 4 * square) by (nonlinear_arith)
        requires
            square == c * c,
    ;
    assert forall|li: int| 0 <= li < cfg.n_layer implies same_layer(
        p,
        q,
        nodes,
        #[trigger] sd.layers@[li],
        w.layers[li],
        c,
    ) by {
        let own = sd.layers@[li];
        lemma_layers_fit(cfg, v, li);
        lemma_layers_fit(cfg, v, li + 1);
        assert(own.stands(layer_start(cfg, v, li), c as int));
        assert(w.layers[li] == layer_weights(s, m, buf, li));
        assert(0 * square == 0 && 1 * square == square);
        lemma_flat_matrix(p, q, nodes, m, s.wq(buf, li), rows_of(own.attn_wq@), c, c);
        lemma_flat_matrix(p, q, nodes, m, s.wk(buf, li), rows_of(own.attn_wk@), c, c);
        lemma_flat_matrix(p, q, nodes, m, s.wv(buf, li), rows_of(own.attn_wv@), c, c);
        lemma_flat_matrix(p, q, nodes, m, s.wo(buf, li), rows_of(own.attn_wo@), c, c);
        lemma_flat_matrix(p, q, nodes, m, s.fc1(buf, li), rows_of(own.mlp_fc1@), 4 * c, c);
        lemma_flat_matrix(p, q, nodes, m, s.fc2(buf, li), rows_of(own.mlp_fc2@), c, 4 * c);
    }
}

} // verus!
