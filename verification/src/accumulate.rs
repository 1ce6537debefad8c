//! The backward pass adds to the gradients, and what it adds comes from the live rows alone.
use vstd::prelude::*;

use crate::agree::{entry, looks_back, nums_agree, rows_agree};
use crate::attention::{is_score_scale, is_scores, softmax_row, Side};
use crate::bank::{read, Mem, Span};
use crate::causality::{
    layers_agree, lemma_embeddings_agree, lemma_layers_agree, lemma_logits_agree,
    lemma_losses_agree,
};
use crate::derivative::{layer_weights_sized, weights_sized};
use crate::determinism::lemma_weights_sized;
use crate::embed::{
    embed_bwd_wte_row, is_embed_bwd_wpe, is_embed_bwd_wte, is_gathered, places, visits,
};
use crate::exact::{exact, lemma_total_same};
use crate::gradient::{flow_sized, is_backward, is_layer_bwd, Flow, LayerFlow};
use crate::increments::{
    flows_alike, lemma_add_alike, lemma_added_alike, lemma_ce_alike, lemma_dp_alike,
    lemma_dqk_alike, lemma_ds_alike, lemma_dv_alike, lemma_linear_alike, lemma_norm_alike,
    lemma_relu_alike,
};
use crate::index::{lemma_row_inside, lemma_unpair, lemma_whole_rows};
use crate::layout::{layer_len, layer_start, lemma_layers_fit, lemma_sizes, param_count};
use crate::loss::is_ce;
use crate::matmul::is_matmul_tn;
use crate::motion::{column_nums, lemma_matmul_tn_entry, matrix_nums};
use crate::motion_attention::{
    is_score_factor, lemma_scale_exact, lemma_weight_places, lemma_weight_row,
};
use crate::motion_embed::{
    gathered, lemma_gathered_exact, lemma_gathered_same, lemma_places_total, lemma_visits_total,
};
use crate::network::{
    is_forward, is_layer, layer_weights, weights_of, LayerValues, LayerWeights, Values, Weights,
};
use crate::plan::run_tokens;
use crate::reduce::is_softmax;
use crate::rows::row_of;
use crate::scalar::{deterministic, Scalar};
use crate::shape::Shape;

verus! {

/// From `before` to `after` the same was added as from `other` to `again`.
pub open spec fn same_increment<S>(
    val: spec_fn(S) -> real,
    before: Seq<S>,
    after: Seq<S>,
    other: Seq<S>,
    again: Seq<S>,
    n: nat,
) -> bool {
    forall|i: int|
        0 <= i < n ==> val(#[trigger] after[i]) - val(before[i]) == val(again[i]) - val(other[i])
}

/// The same for every matrix of a layer.
pub open spec fn same_layer_increment<S>(
    val: spec_fn(S) -> real,
    s: Shape,
    before: LayerWeights<S>,
    after: LayerWeights<S>,
    other: LayerWeights<S>,
    again: LayerWeights<S>,
) -> bool {
    let (c, c4) = (s.c() as nat, (4 * s.c()) as nat);
    &&& same_increment(val, before.wq, after.wq, other.wq, again.wq, c * c)
    &&& same_increment(val, before.wk, after.wk, other.wk, again.wk, c * c)
    &&& same_increment(val, before.wv, after.wv, other.wv, again.wv, c * c)
    &&& same_increment(val, before.wo, after.wo, other.wo, again.wo, c * c)
    &&& same_increment(val, before.fc1, after.fc1, other.fc1, again.fc1, c4 * c)
    &&& same_increment(val, before.fc2, after.fc2, other.fc2, again.fc2, c * c4)
}

/// The same for every matrix of the network.
pub open spec fn same_weights_increment<S>(
    val: spec_fn(S) -> real,
    s: Shape,
    before: Weights<S>,
    after: Weights<S>,
    other: Weights<S>,
    again: Weights<S>,
) -> bool {
    let (c, v, n) = (s.c() as nat, s.vocab as nat, s.cfg.block_size as nat);
    &&& same_increment(val, before.wte, after.wte, other.wte, again.wte, v * c)
    &&& same_increment(val, before.wpe, after.wpe, other.wpe, again.wpe, n * c)
    &&& same_increment(val, before.lm_head, after.lm_head, other.lm_head, again.lm_head, v * c)
    &&& forall|li: int|
        0 <= li < s.cfg.n_layer ==> same_layer_increment(
            val,
            s,
            before.layers[li],
            #[trigger] after.layers[li],
            other.layers[li],
            again.layers[li],
        )
}

/// The gradient of a matrix.
proof fn lemma_matrix_increment<S: Scalar>(
    val: spec_fn(S) -> real,
    live: spec_fn(int) -> bool,
    before: Seq<S>,
    after: Seq<S>,
    other: Seq<S>,
    again: Seq<S>,
    dy: Seq<S>,
    ey: Seq<S>,
    x: Seq<S>,
    y: Seq<S>,
    n: nat,
    k: nat,
    m: nat,
)
    requires
        exact(val),
        k > 0,
        before.len() == n * k,
        other.len() == n * k,
        is_matmul_tn(before, after, dy, x, n, k, m),
        is_matmul_tn(other, again, ey, y, n, k, m),
        flows_alike(val, live, dy, ey, m, n),
        rows_agree(x, y, m, k, live),
    ensures
        same_increment(val, before, after, other, again, n * k),
{
    assert forall|i: int| 0 <= i < n * k implies val(#[trigger] after[i]) - val(before[i]) == val(
        again[i],
    ) - val(other[i]) by {
        lemma_unpair(i, n as int, k as int);
        let (c, p) = (i / k as int, i % k as int);
        lemma_matmul_tn_entry(val, before, after, dy, x, m, n, k, c, p);
        lemma_matmul_tn_entry(val, other, again, ey, y, m, n, k, c, p);
        let (mx, my) = (matrix_nums(val, x, k), matrix_nums(val, y, k));
        let (a, b) = (column_nums(val, dy, n, c), column_nums(val, ey, n, c));
        let (f, g) = (|r: int| mx(r, p) * a(r), |r: int| my(r, p) * b(r));
        assert forall|r: int| 0 <= r < m implies #[trigger] f(r) == g(r) by {
            assert(val(entry(dy, n, r, c)) == val(entry(ey, n, r, c)));
            if live(r) {
                assert(entry(x, k, r, p) == entry(y, k, r, p));
            } else {
                let (u, v) = (mx(r, p), my(r, p));
                assert(u * (0 as real) == 0 as real && v * (0 as real) == 0 as real)
                    by (nonlinear_arith);
            }
        }
        lemma_total_same(f, g, m);
    }
}

/// The gradient of the token embeddings.
proof fn lemma_wte_increment<S: Scalar>(
    val: spec_fn(S) -> real,
    live: spec_fn(int) -> bool,
    before: Seq<S>,
    after: Seq<S>,
    other: Seq<S>,
    again: Seq<S>,
    dx: Seq<S>,
    ex: Seq<S>,
    tokens: Seq<i32>,
    others: Seq<i32>,
    vocab: nat,
    m: nat,
    c: nat,
)
    requires
        exact(val),
        c > 0,
        before.len() == vocab * c,
        other.len() == vocab * c,
        tokens.len() == m,
        others.len() == m,
        is_embed_bwd_wte(before, after, dx, tokens, c),
        is_embed_bwd_wte(other, again, ex, others, c),
        flows_alike(val, live, dx, ex, m, c),
        nums_agree(tokens, others, m, live),
    ensures
        same_increment(val, before, after, other, again, vocab * c),
{
    assert forall|i: int| 0 <= i < vocab * c implies val(#[trigger] after[i]) - val(before[i])
        == val(again[i]) - val(other[i]) by {
        lemma_unpair(i, vocab as int, c as int);
        let (v, j) = (i / c as int, i % c as int);
        lemma_wte_entry(val, before, after, dx, tokens, vocab, c, v, j);
        lemma_wte_entry(val, other, again, ex, others, vocab, c, v, j);
        let (slot, place) = (|r: int| tokens[r] as int, |r: int| others[r] as int);
        assert forall|r: int| 0 <= r < m implies (if #[trigger] slot(r) == v {
            val(dx[r * c + j])
        } else {
            0 as real
        }) == (if place(r) == v {
            val(ex[r * c + j])
        } else {
            0 as real
        }) by {
            assert(val(entry(dx, c, r, j)) == val(entry(ex, c, r, j)));
            if live(r) {
                assert(tokens[r] == others[r]);
            }
        }
        lemma_gathered_same(val, dx, ex, c, slot, place, m, v, j);
    }
}

/// One number of the gradient of the token embeddings.
proof fn lemma_wte_entry<S: Scalar>(
    val: spec_fn(S) -> real,
    before: Seq<S>,
    after: Seq<S>,
    dx: Seq<S>,
    tokens: Seq<i32>,
    vocab: nat,
    c: nat,
    v: int,
    j: int,
)
    requires
        exact(val),
        c > 0,
        before.len() == vocab * c,
        is_embed_bwd_wte(before, after, dx, tokens, c),
        0 <= v < vocab,
        0 <= j < c,
    ensures
        val(after[v * c + j]) == val(before[v * c + j]) + gathered(
            val,
            dx,
            c,
            |r: int| tokens[r] as int,
            tokens.len(),
            v,
            j,
        ),
{
    lemma_whole_rows(vocab as int, c as int);
    lemma_row_inside(v, vocab as int, c as int);
    let (rb, ra) = (row_of(before, c, v), row_of(after, c, v));
    assert(embed_bwd_wte_row(dx, tokens, v, rb, ra));
    let at = places(tokens, v, tokens.len());
    assert(is_gathered(dx, c as int, at, j, rb[j], ra[j]));
    lemma_gathered_exact(val, dx, c as int, at, j, rb[j], ra[j]);
    lemma_places_total(val, dx, c, tokens, v, j, tokens.len());
}

/// The gradient of the position embeddings.
proof fn lemma_wpe_increment<S: Scalar>(
    val: spec_fn(S) -> real,
    live: spec_fn(int) -> bool,
    before: Seq<S>,
    after: Seq<S>,
    other: Seq<S>,
    again: Seq<S>,
    dx: Seq<S>,
    ex: Seq<S>,
    t_len: nat,
    m: nat,
    c: nat,
    n: nat,
)
    requires
        exact(val),
        c > 0,
        before.len() == n,
        other.len() == n,
        is_embed_bwd_wpe(before, after, dx, m, t_len, c),
        is_embed_bwd_wpe(other, again, ex, m, t_len, c),
        flows_alike(val, live, dx, ex, m, c),
    ensures
        same_increment(val, before, after, other, again, n),
{
    assert forall|i: int| 0 <= i < n implies val(#[trigger] after[i]) - val(before[i]) == val(
        again[i],
    ) - val(other[i]) by {
        if i < t_len * c {
            lemma_unpair(i, t_len as int, c as int);
            let (t, j) = (i / c as int, i % c as int);
            let at = visits(t, t_len as int, m);
            assert(is_gathered(dx, c as int, at, j, before[i], after[i]));
            assert(is_gathered(ex, c as int, at, j, other[i], again[i]));
            lemma_gathered_exact(val, dx, c as int, at, j, before[i], after[i]);
            lemma_gathered_exact(val, ex, c as int, at, j, other[i], again[i]);
            lemma_visits_total(val, dx, c, t, t_len as int, j, m);
            lemma_visits_total(val, ex, c, t, t_len as int, j, m);
            let slot = |r: int| r % t_len as int;
            assert forall|r: int| 0 <= r < m implies (if #[trigger] slot(r) == t {
                val(dx[r * c + j])
            } else {
                0 as real
            }) == (if slot(r) == t {
                val(ex[r * c + j])
            } else {
                0 as real
            }) by {
                assert(val(entry(dx, c, r, j)) == val(entry(ex, c, r, j)));
            }
            lemma_gathered_same(val, dx, ex, c, slot, slot, m, t, j);
        } else {
            assert(after[i] == before[i] && again[i] == other[i]);
        }
    }
}

/// Two backward passes through a layer whose activations agree in the live rows.
proof fn lemma_layer_alike<S: Scalar>(
    val: spec_fn(S) -> real,
    live: spec_fn(int) -> bool,
    s: Shape,
    scale: real,
    w: LayerWeights<S>,
    a: LayerValues<S>,
    b: LayerValues<S>,
    f: LayerFlow<S>,
    g: LayerFlow<S>,
    before: LayerWeights<S>,
    after: LayerWeights<S>,
    other: LayerWeights<S>,
    again: LayerWeights<S>,
)
    requires
        exact(val),
        s.ok(),
        s.rows > 0 ==> is_score_factor(s.heads_spec().d as nat, scale),
        looks_back(s.heads_spec(), live),
        layers_agree(s, a, b, live),
        is_layer_bwd(s, w, a, f, before, after),
        is_layer_bwd(s, w, b, g, other, again),
        layer_weights_sized(s, before),
        layer_weights_sized(s, other),
        flows_alike(val, live, f.d_out, g.d_out, s.rows as nat, s.c() as nat),
    ensures
        flows_alike(val, live, f.d_in, g.d_in, s.rows as nat, s.c() as nat),
        same_layer_increment(val, s, before, after, other, again),
{
    reveal(is_layer_bwd);
    reveal(layers_agree);
    let (m, c, c4) = (s.rows as nat, s.c() as nat, (4 * s.c()) as nat);
    let hs = s.heads_spec();
    s.lemma_numbers();
    assert(s.rc() == m * c && s.rc4() == m * c4);
    lemma_linear_alike(val, live, f.d_act, g.d_act, f.d_out, g.d_out, w.fc2, m, c, c4);
    lemma_relu_alike(val, live, f.d_act, g.d_act, f.d_h, g.d_h, a.hpre, b.hpre, m, c4);
    lemma_linear_alike(val, live, f.d_xn2, g.d_xn2, f.d_h, g.d_h, w.fc1, m, c4, c);
    lemma_norm_alike(
        val, live, f.d_norm2, g.d_norm2, a.x_mid, b.x_mid, a.r2, b.r2, f.d_xn2, g.d_xn2, m, c,
    );
    lemma_add_alike(val, live, f.d_norm2, g.d_norm2, f.d_mid, g.d_mid, f.d_out, g.d_out, m, c);
    lemma_linear_alike(val, live, f.d_atty, g.d_atty, f.d_mid, g.d_mid, w.wo, m, c, c);
    lemma_dp_alike(val, live, hs, f.d_att, g.d_att, f.d_atty, g.d_atty, a.v, b.v);
    lemma_dv_alike(val, live, hs, f.d_v, g.d_v, a.att, b.att, f.d_atty, g.d_atty);
    lemma_ds_alike(val, live, hs, f.d_scores, g.d_scores, a.att, b.att, f.d_att, g.d_att);
    if m > 0 {
        lemma_dqk_alike(
            val, live, hs, scale, Side::Past, f.d_q, g.d_q, f.d_scores, g.d_scores, a.k, b.k,
        );
        lemma_dqk_alike(
            val, live, hs, scale, Side::Future, f.d_k, g.d_k, f.d_scores, g.d_scores, a.q, b.q,
        );
    }
    lemma_linear_alike(val, live, f.d_xq, g.d_xq, f.d_q, g.d_q, w.wq, m, c, c);
    lemma_added_alike(
        val, live, f.d_xq, g.d_xq, f.d_xqk, g.d_xqk, f.d_k, g.d_k, w.wk, m, c, c,
    );
    lemma_added_alike(
        val, live, f.d_xqk, g.d_xqk, f.d_xn, g.d_xn, f.d_v, g.d_v, w.wv, m, c, c,
    );
    lemma_norm_alike(
        val, live, f.d_norm1, g.d_norm1, a.xin, b.xin, a.r1, b.r1, f.d_xn, g.d_xn, m, c,
    );
    lemma_add_alike(val, live, f.d_norm1, g.d_norm1, f.d_in, g.d_in, f.d_mid, g.d_mid, m, c);
    lemma_matrix_increment(
        val, live, before.fc2, after.fc2, other.fc2, again.fc2, f.d_out, g.d_out, a.h, b.h, c, c4,
        m,
    );
    lemma_matrix_increment(
        val, live, before.fc1, after.fc1, other.fc1, again.fc1, f.d_h, g.d_h, a.xn2, b.xn2, c4, c,
        m,
    );
    lemma_matrix_increment(
        val, live, before.wo, after.wo, other.wo, again.wo, f.d_mid, g.d_mid, a.atty, b.atty, c, c,
        m,
    );
    lemma_matrix_increment(
        val, live, before.wq, after.wq, other.wq, again.wq, f.d_q, g.d_q, a.xn, b.xn, c, c, m,
    );
    lemma_matrix_increment(
        val, live, before.wk, after.wk, other.wk, again.wk, f.d_k, g.d_k, a.xn, b.xn, c, c, m,
    );
    lemma_matrix_increment(
        val, live, before.wv, after.wv, other.wv, again.wv, f.d_v, g.d_v, a.xn, b.xn, c, c, m,
    );
}

/// Two forward passes that agree in the live rows.
pub open spec fn networks_agree<S>(
    s: Shape,
    a: Values<S>,
    b: Values<S>,
    live: spec_fn(int) -> bool,
) -> bool {
    &&& rows_agree(a.x0, b.x0, s.rows as nat, s.c() as nat, live)
    &&& nums_agree(a.r0, b.r0, s.rows as nat, live)
    &&& forall|li: int|
        0 <= li < s.cfg.n_layer ==> layers_agree(
            s,
            #[trigger] a.layers[li],
            b.layers[li],
            live,
        )
}

/// Two backward passes through the layers from `li` on.
proof fn lemma_layers_alike<S: Scalar>(
    val: spec_fn(S) -> real,
    live: spec_fn(int) -> bool,
    s: Shape,
    scale: real,
    w: Weights<S>,
    tokens: Seq<i32>,
    others: Seq<i32>,
    targets: Seq<i32>,
    valid: nat,
    a: Values<S>,
    b: Values<S>,
    probs: Seq<S>,
    other_probs: Seq<S>,
    f: Flow<S>,
    g: Flow<S>,
    before: Weights<S>,
    after: Weights<S>,
    other: Weights<S>,
    again: Weights<S>,
    li: int,
)
    requires
        exact(val),
        s.ok(),
        s.rows > 0 ==> is_score_factor(s.heads_spec().d as nat, scale),
        looks_back(s.heads_spec(), live),
        networks_agree(s, a, b, live),
        is_backward(s, w, tokens, targets, valid, a, probs, f, before, after),
        is_backward(s, w, others, targets, valid, b, other_probs, g, other, again),
        weights_sized(s, before),
        weights_sized(s, other),
        flows_alike(
            val,
            live,
            f.layers[s.cfg.n_layer - 1].d_out,
            g.layers[s.cfg.n_layer - 1].d_out,
            s.rows as nat,
            s.c() as nat,
        ),
        0 <= li < s.cfg.n_layer,
    ensures
        flows_alike(
            val,
            live,
            f.layers[li].d_in,
            g.layers[li].d_in,
            s.rows as nat,
            s.c() as nat,
        ),
        same_layer_increment(
            val,
            s,
            before.layers[li],
            after.layers[li],
            other.layers[li],
            again.layers[li],
        ),
    decreases s.cfg.n_layer - li,
{
    if li < s.cfg.n_layer - 1 {
        lemma_layers_alike(
            val, live, s, scale, w, tokens, others, targets, valid, a, b, probs, other_probs, f, g,
            before, after, other, again, li + 1,
        );
        assert(f.layers[li].d_out == f.layers[li + 1].d_in);
        assert(g.layers[li].d_out == g.layers[li + 1].d_in);
    }
    assert(layers_agree(s, a.layers[li], b.layers[li], live));
    assert(layer_weights_sized(s, before.layers[li]));
    assert(layer_weights_sized(s, other.layers[li]));
    assert(is_layer_bwd(
        s,
        w.layers[li],
        a.layers[li],
        f.layers[li],
        before.layers[li],
        after.layers[li],
    ));
    assert(is_layer_bwd(
        s,
        w.layers[li],
        b.layers[li],
        g.layers[li],
        other.layers[li],
        again.layers[li],
    ));
    lemma_layer_alike(
        val,
        live,
        s,
        scale,
        w.layers[li],
        a.layers[li],
        b.layers[li],
        f.layers[li],
        g.layers[li],
        before.layers[li],
        after.layers[li],
        other.layers[li],
        again.layers[li],
    );
}

/// What comes out of a layer.
proof fn lemma_out_agrees<S: Scalar>(
    s: Shape,
    a: LayerValues<S>,
    b: LayerValues<S>,
    live: spec_fn(int) -> bool,
)
    requires
        layers_agree(s, a, b, live),
    ensures
        rows_agree(a.x_out, b.x_out, s.rows as nat, s.c() as nat, live),
{
    reveal(layers_agree);
}

/// The sizes of what flows through a layer.
pub proof fn lemma_flow_sized<S: Scalar>(
    s: Shape,
    w: LayerWeights<S>,
    a: LayerValues<S>,
    f: LayerFlow<S>,
    before: LayerWeights<S>,
    after: LayerWeights<S>,
)
    requires
        is_layer_bwd(s, w, a, f, before, after),
    ensures
        flow_sized(s, f),
{
    reveal(is_layer_bwd);
}

/// There is a factor of the scores.
pub proof fn lemma_some_scale<S: Scalar>(
    val: spec_fn(S) -> real,
    s: Shape,
    w: Weights<S>,
    tokens: Seq<i32>,
    a: Values<S>,
) -> (scale: real)
    requires
        exact(val),
        s.ok(),
        is_forward(s, w, tokens, a),
    ensures
        s.rows > 0 ==> is_score_factor(s.heads_spec().d as nat, scale),
{
    let hs = s.heads_spec();
    let own = a.layers[0];
    s.lemma_numbers();
    if s.rows > 0 {
        assert(hs.b_n > 0) by (nonlinear_arith)
            requires
                hs.b_n * hs.t_len == s.rows,
                s.rows > 0,
        ;
        assert(is_layer(s, w.layers[0], own));
        lemma_weight_places(hs, 0, 0, 0);
        lemma_weight_row(hs, own.att, 0, 0, 0);
        let i = hs.weight_row(0, 0, 0);
        let row = row_of(own.att, hs.t_len as nat, i);
        assert(softmax_row(hs, own.q, own.k, i, row));
        let (scale, sc) = choose|scale: S, sc: Seq<S>|
            is_score_scale(hs.d as nat, scale) && #[trigger] is_scores(
                hs,
                own.q,
                own.k,
                i,
                scale,
                sc,
            ) && is_softmax(sc, row.take(i % hs.t_len as int + 1));
        lemma_scale_exact(val, hs.d as nat, scale);
        val(scale)
    } else {
        0 as real
    }
}

/// A backward pass adds the same to the gradients as another one whose activations,
/// probabilities and tokens agree with it in the live rows.
pub proof fn lemma_backward_alike<S: Scalar>(
    val: spec_fn(S) -> real,
    live: spec_fn(int) -> bool,
    s: Shape,
    w: Weights<S>,
    tokens: Seq<i32>,
    others: Seq<i32>,
    targets: Seq<i32>,
    valid: nat,
    a: Values<S>,
    b: Values<S>,
    probs: Seq<S>,
    other_probs: Seq<S>,
    f: Flow<S>,
    g: Flow<S>,
    before: Weights<S>,
    after: Weights<S>,
    other: Weights<S>,
    again: Weights<S>,
)
    requires
        exact(val),
        s.ok(),
        looks_back(s.heads_spec(), live),
        tokens.len() == s.rows,
        others.len() == s.rows,
        nums_agree(tokens, others, s.rows as nat, live),
        valid <= s.rows,
        forall|r: int| 0 <= r < s.rows && #[trigger] targets[r] >= 0 ==> live(r) && valid > 0,
        is_forward(s, w, tokens, a),
        networks_agree(s, a, b, live),
        probs.len() == s.rv(),
        other_probs.len() == s.rv(),
        forall|r: int|
            0 <= r < s.rows && targets[r] >= 0 ==> #[trigger] row_of(probs, s.vocab as nat, r)
                == row_of(other_probs, s.vocab as nat, r),
        is_backward(s, w, tokens, targets, valid, a, probs, f, before, after),
        is_backward(s, w, others, targets, valid, b, other_probs, g, other, again),
        weights_sized(s, before),
        weights_sized(s, other),
    ensures
        same_weights_increment(val, s, before, after, other, again),
{
    let (m, c, v) = (s.rows as nat, s.c() as nat, s.vocab as nat);
    let n = s.cfg.n_layer as int;
    let last = n - 1;
    s.lemma_numbers();
    assert(s.rc() == m * c && s.rv() == m * v);
    let scale = lemma_some_scale(val, s, w, tokens, a);
    lemma_ce_alike(
        val, live, f.d_logits, g.d_logits, probs, other_probs, targets, m, v, valid,
    );
    assert forall|li: int| 0 <= li < n implies flow_sized(s, #[trigger] f.layers[li]) by {
        lemma_flow_sized(
            s,
            w.layers[li],
            a.layers[li],
            f.layers[li],
            before.layers[li],
            after.layers[li],
        );
    }
    assert forall|li: int| 0 <= li < n implies flow_sized(s, #[trigger] g.layers[li]) by {
        lemma_flow_sized(
            s,
            w.layers[li],
            b.layers[li],
            g.layers[li],
            other.layers[li],
            again.layers[li],
        );
    }
    assert(flow_sized(s, f.layers[last]) && flow_sized(s, g.layers[last]));
    assert(flow_sized(s, f.layers[0]) && flow_sized(s, g.layers[0]));
    assert(layers_agree(s, a.layers[last], b.layers[last], live));
    lemma_out_agrees(s, a.layers[last], b.layers[last], live);
    lemma_matrix_increment(
        val,
        live,
        before.lm_head,
        after.lm_head,
        other.lm_head,
        again.lm_head,
        f.d_logits,
        g.d_logits,
        a.layers[last].x_out,
        b.layers[last].x_out,
        v,
        c,
        m,
    );
    lemma_linear_alike(
        val,
        live,
        f.layers[last].d_out,
        g.layers[last].d_out,
        f.d_logits,
        g.d_logits,
        w.lm_head,
        m,
        v,
        c,
    );
    assert forall|li: int| 0 <= li < n implies same_layer_increment(
        val,
        s,
        before.layers[li],
        #[trigger] after.layers[li],
        other.layers[li],
        again.layers[li],
    ) by {
        lemma_layers_alike(
            val, live, s, scale, w, tokens, others, targets, valid, a, b, probs, other_probs, f, g,
            before, after, other, again, li,
        );
    }
    lemma_layers_alike(
        val, live, s, scale, w, tokens, others, targets, valid, a, b, probs, other_probs, f, g,
        before, after, other, again, 0,
    );
    lemma_norm_alike(
        val,
        live,
        f.d_x0,
        g.d_x0,
        a.x0,
        b.x0,
        a.r0,
        b.r0,
        f.layers[0].d_in,
        g.layers[0].d_in,
        m,
        c,
    );
    lemma_wte_increment(
        val,
        live,
        before.wte,
        after.wte,
        other.wte,
        again.wte,
        f.d_x0,
        g.d_x0,
        tokens,
        others,
        v,
        m,
        c,
    );
    lemma_wpe_increment(
        val,
        live,
        before.wpe,
        after.wpe,
        other.wpe,
        again.wpe,
        f.d_x0,
        g.d_x0,
        s.t_len as nat,
        m,
        c,
        s.cfg.block_size as nat * c,
    );
}

/// What was added to a span is what was added to its place in the buffer.
proof fn lemma_span_increment<S>(
    val: spec_fn(S) -> real,
    before: Mem<S>,
    after: Mem<S>,
    other: Mem<S>,
    again: Mem<S>,
    z: Span,
    i: int,
)
    requires
        same_increment(
            val,
            read(before, z),
            read(after, z),
            read(other, z),
            read(again, z),
            z.len as nat,
        ),
        z.start <= i < z.start + z.len,
        z.start + z.len <= before[z.buf as int].len(),
        z.start + z.len <= after[z.buf as int].len(),
        z.start + z.len <= other[z.buf as int].len(),
        z.start + z.len <= again[z.buf as int].len(),
    ensures
        val(after[z.buf as int][i]) - val(before[z.buf as int][i]) == val(again[z.buf as int][i])
            - val(other[z.buf as int][i]),
{
    let k = i - z.start;
    assert(k + z.start == i);
    assert(read(after, z)[k] == after[z.buf as int][k + z.start]);
    assert(read(before, z)[k] == before[z.buf as int][k + z.start]);
    assert(read(again, z)[k] == again[z.buf as int][k + z.start]);
    assert(read(other, z)[k] == other[z.buf as int][k + z.start]);
}

/// What was added to the matrices of a layer is what was added to its part of the buffer.
proof fn lemma_layer_increment<S>(
    val: spec_fn(S) -> real,
    s: Shape,
    before: Mem<S>,
    after: Mem<S>,
    other: Mem<S>,
    again: Mem<S>,
    buf: int,
    li: int,
    off: int,
)
    requires
        s.ok(),
        0 <= buf <= usize::MAX,
        before[buf].len() == param_count(s.cfg, s.vocab as int),
        after[buf].len() == param_count(s.cfg, s.vocab as int),
        other[buf].len() == param_count(s.cfg, s.vocab as int),
        again[buf].len() == param_count(s.cfg, s.vocab as int),
        0 <= li < s.cfg.n_layer,
        0 <= off < layer_len(s.cfg),
        same_layer_increment(
            val,
            s,
            layer_weights(s, before, buf, li),
            layer_weights(s, after, buf, li),
            layer_weights(s, other, buf, li),
            layer_weights(s, again, buf, li),
        ),
    ensures
        ({
            let i = layer_start(s.cfg, s.vocab as int, li) + off;
            val(after[buf][i]) - val(before[buf][i]) == val(again[buf][i]) - val(other[buf][i])
        }),
{
    let (cfg, v, c) = (s.cfg, s.vocab as int, s.c());
    let square = c * c;
    lemma_sizes(cfg, v);
    lemma_layers_fit(cfg, v, 0);
    lemma_layers_fit(cfg, v, li);
    lemma_layers_fit(cfg, v, li + 1);
    s.lemma_numbers();
    assert(0 * layer_len(cfg) == 0);
    assert(0 * square == 0 && 1 * square == square);
    let i = layer_start(cfg, v, li) + off;
    let z = if off < square {
        s.wq(buf, li)
    } else if off < 2 * square {
        s.wk(buf, li)
    } else if off < 3 * square {
        s.wv(buf, li)
    } else if off < 4 * square {
        s.wo(buf, li)
    } else if off < 8 * square {
        s.fc1(buf, li)
    } else {
        s.fc2(buf, li)
    };
    lemma_span_increment(val, before, after, other, again, z, i);
}

/// What was added to the matrices is what was added to the buffer that holds them.
proof fn lemma_flat_increment<S>(
    val: spec_fn(S) -> real,
    s: Shape,
    before: Mem<S>,
    after: Mem<S>,
    other: Mem<S>,
    again: Mem<S>,
    buf: int,
    i: int,
)
    requires
        s.ok(),
        0 <= buf <= usize::MAX,
        before[buf].len() == param_count(s.cfg, s.vocab as int),
        after[buf].len() == param_count(s.cfg, s.vocab as int),
        other[buf].len() == param_count(s.cfg, s.vocab as int),
        again[buf].len() == param_count(s.cfg, s.vocab as int),
        same_weights_increment(
            val,
            s,
            weights_of(s, before, buf),
            weights_of(s, after, buf),
            weights_of(s, other, buf),
            weights_of(s, again, buf),
        ),
        0 <= i < param_count(s.cfg, s.vocab as int),
    ensures
        val(after[buf][i]) - val(before[buf][i]) == val(again[buf][i]) - val(other[buf][i]),
{
    let (cfg, v, c) = (s.cfg, s.vocab as int, s.c());
    let len = layer_len(cfg);
    lemma_sizes(cfg, v);
    lemma_layers_fit(cfg, v, 0);
    assert(0 * len == 0);
    let base = layer_start(cfg, v, 0);
    if i < v * c {
        lemma_span_increment(val, before, after, other, again, s.wte(buf), i);
    } else if i < v * c + cfg.block_size * c {
        lemma_span_increment(val, before, after, other, again, s.wpe(buf), i);
    } else if i < base {
        lemma_span_increment(val, before, after, other, again, s.lm_head(buf), i);
    } else {
        assert(len > 0) by (nonlinear_arith)
            requires
                len == 12 * (c * c),
                c > 0,
        ;
        let li = (i - base) / len;
        vstd::arithmetic::div_mod::lemma_fundamental_div_mod(i - base, len);
        vstd::arithmetic::div_mod::lemma_mod_bound(i - base, len);
        let off = (i - base) % len;
        assert(li >= 0 && li < cfg.n_layer) by (nonlinear_arith)
            requires
                i - base == len * li + off,
                0 <= off < len,
                0 <= i - base < cfg.n_layer * len,
                len > 0,
        ;
        vstd::arithmetic::mul::lemma_mul_is_commutative(len, li);
        assert(layer_start(cfg, v, li) + off == i);
        let (wb, wa) = (weights_of(s, before, buf), weights_of(s, after, buf));
        let (wo, wg) = (weights_of(s, other, buf), weights_of(s, again, buf));
        assert(wa.layers[li] == layer_weights(s, after, buf, li));
        assert(same_layer_increment(
            val,
            s,
            wb.layers[li],
            wa.layers[li],
            wo.layers[li],
            wg.layers[li],
        ));
        lemma_layer_increment(val, s, before, after, other, again, buf, li, off);
    }
}

/// The count of targets that a backward pass divides by: it is no more than there are rows,
/// and not zero where a row has a target.
pub open spec fn counts_targets(s: Shape, targets: Seq<i32>, valid: nat) -> bool {
    &&& valid <= s.rows
    &&& forall|r: int| 0 <= r < s.rows && #[trigger] targets[r] >= 0 ==> valid > 0
}

/// The gradients in buffer `buf` of two banks, before and after a backward pass.
pub open spec fn has_gradients<S>(s: Shape, before: Mem<S>, after: Mem<S>, buf: int) -> bool {
    &&& 0 <= buf <= usize::MAX
    &&& before[buf].len() == param_count(s.cfg, s.vocab as int)
    &&& after[buf].len() == param_count(s.cfg, s.vocab as int)
}

/// The backward pass accumulates: it adds to the gradients what it would leave in their place
/// had they been zero, for every parameter. So a second pass with no optimizer step in
/// between doubles what the first one added.
pub proof fn law_backward_accumulates<S: Scalar>(
    val: spec_fn(S) -> real,
    s: Shape,
    w: Weights<S>,
    tokens: Seq<i32>,
    targets: Seq<i32>,
    valid: nat,
    a: Values<S>,
    probs: Seq<S>,
    f: Flow<S>,
    g: Flow<S>,
    before: Mem<S>,
    after: Mem<S>,
    zeros: Mem<S>,
    fresh: Mem<S>,
    buf: int,
)
    requires
        exact(val),
        s.ok(),
        run_tokens(s, tokens),
        counts_targets(s, targets, valid),
        is_forward(s, w, tokens, a),
        probs.len() == s.rv(),
        has_gradients(s, before, after, buf),
        has_gradients(s, zeros, fresh, buf),
        forall|i: int| 0 <= i < zeros[buf].len() ==> val(#[trigger] zeros[buf][i]) == 0 as real,
        is_backward(
            s,
            w,
            tokens,
            targets,
            valid,
            a,
            probs,
            f,
            weights_of(s, before, buf),
            weights_of(s, after, buf),
        ),
        is_backward(
            s,
            w,
            tokens,
            targets,
            valid,
            a,
            probs,
            g,
            weights_of(s, zeros, buf),
            weights_of(s, fresh, buf),
        ),
    ensures
        forall|i: int|
            0 <= i < after[buf].len() ==> val(#[trigger] after[buf][i]) == val(before[buf][i]) + val(
                fresh[buf][i],
            ),
{
    let live = |r: int| true;
    assert(networks_agree(s, a, a, live)) by {
        reveal(layers_agree);
    }
    lemma_weights_sized(s, before, buf);
    lemma_weights_sized(s, zeros, buf);
    lemma_backward_alike(
        val,
        live,
        s,
        w,
        tokens,
        tokens,
        targets,
        valid,
        a,
        a,
        probs,
        probs,
        f,
        g,
        weights_of(s, before, buf),
        weights_of(s, after, buf),
        weights_of(s, zeros, buf),
        weights_of(s, fresh, buf),
    );
    assert forall|i: int| 0 <= i < after[buf].len() implies val(#[trigger] after[buf][i]) == val(
        before[buf][i],
    ) + val(fresh[buf][i]) by {
        lemma_flat_increment(val, s, before, after, zeros, fresh, buf, i);
        assert(val(zeros[buf][i]) == 0 as real);
    }
}

/// Padding changes no gradient: where it stands behind the valid positions of each document,
/// two batches that agree in the valid positions leave the same gradient for every
/// parameter, whatever tokens fill the padding.
pub proof fn law_padding_changes_no_gradient<S: Scalar>(
    val: spec_fn(S) -> real,
    s: Shape,
    w: Weights<S>,
    tokens: Seq<i32>,
    others: Seq<i32>,
    targets: Seq<i32>,
    valid: nat,
    a: Values<S>,
    b: Values<S>,
    losses: Seq<S>,
    other_losses: Seq<S>,
    p0: Seq<S>,
    q0: Seq<S>,
    probs: Seq<S>,
    other_probs: Seq<S>,
    f: Flow<S>,
    g: Flow<S>,
    before: Mem<S>,
    after: Mem<S>,
    other: Mem<S>,
    again: Mem<S>,
    buf: int,
)
    requires
        exact(val),
        deterministic::<S>(),
        s.ok(),
        run_tokens(s, tokens),
        run_tokens(s, others),
        counts_targets(s, targets, valid),
        looks_back(s.heads_spec(), |r: int| targets[r] >= 0),
        forall|r: int| 0 <= r < s.rows && targets[r] >= 0 ==> #[trigger] tokens[r] == others[r],
        is_forward(s, w, tokens, a),
        is_forward(s, w, others, b),
        losses.len() == s.rows,
        other_losses.len() == s.rows,
        probs.len() == s.rv(),
        other_probs.len() == s.rv(),
        is_ce(losses, p0, probs, a.logits, targets, s.vocab as nat),
        is_ce(other_losses, q0, other_probs, b.logits, targets, s.vocab as nat),
        has_gradients(s, before, after, buf),
        has_gradients(s, other, again, buf),
        forall|i: int|
            0 <= i < before[buf].len() ==> val(#[trigger] before[buf][i]) == val(other[buf][i]),
        is_backward(
            s,
            w,
            tokens,
            targets,
            valid,
            a,
            probs,
            f,
            weights_of(s, before, buf),
            weights_of(s, after, buf),
        ),
        is_backward(
            s,
            w,
            others,
            targets,
            valid,
            b,
            other_probs,
            g,
            weights_of(s, other, buf),
            weights_of(s, again, buf),
        ),
    ensures
        forall|i: int|
            0 <= i < after[buf].len() ==> val(#[trigger] after[buf][i]) == val(again[buf][i]),
{
    let (m, v) = (s.rows as nat, s.vocab as nat);
    let live = |r: int| targets[r] >= 0;
    s.lemma_numbers();
    assert(s.rv() == m * v);
    assert(nums_agree(tokens, others, m, live));
    lemma_embeddings_agree(s, w, tokens, others, a, b, live);
    assert forall|li: int| 0 <= li < s.cfg.n_layer implies layers_agree(
        s,
        #[trigger] a.layers[li],
        b.layers[li],
        live,
    ) by {
        lemma_layers_agree(s, w, tokens, others, a, b, live, li);
    }
    lemma_logits_agree(s, w, tokens, others, a, b, live);
    assert forall|r: int| 0 <= r < m && targets[r] >= 0 implies #[trigger] row_of(a.logits, v, r)
        == row_of(b.logits, v, r) by {
        lemma_row_inside(r, m as int, v as int);
        assert(live(r));
        assert forall|j: int| 0 <= j < v implies row_of(a.logits, v, r)[j] == row_of(
            b.logits,
            v,
            r,
        )[j] by {
            assert(entry(a.logits, v, r, j) == entry(b.logits, v, r, j));
        }
        assert(row_of(a.logits, v, r) =~= row_of(b.logits, v, r));
    }
    lemma_losses_agree(
        losses,
        other_losses,
        p0,
        q0,
        probs,
        other_probs,
        a.logits,
        b.logits,
        targets,
        m,
        v,
    );
    lemma_weights_sized(s, before, buf);
    lemma_weights_sized(s, other, buf);
    lemma_backward_alike(
        val,
        live,
        s,
        w,
        tokens,
        others,
        targets,
        valid,
        a,
        b,
        probs,
        other_probs,
        f,
        g,
        weights_of(s, before, buf),
        weights_of(s, after, buf),
        weights_of(s, other, buf),
        weights_of(s, again, buf),
    );
    assert forall|i: int| 0 <= i < after[buf].len() implies val(#[trigger] after[buf][i]) == val(
        again[buf][i],
    ) by {
        lemma_flat_increment(val, s, before, after, other, again, buf, i);
        assert(val(before[buf][i]) == val(other[buf][i]));
    }
}

} // verus!
