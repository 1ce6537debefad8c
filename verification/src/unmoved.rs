//! Padding changes no bit of a gradient, where zeros count for nothing.
use vstd::prelude::*;

use crate::accumulate::{counts_targets, has_gradients, lemma_flow_sized, networks_agree};
use crate::agree::{entry, looks_back, nums_agree, rows_agree, seen_weights};
use crate::attention::{Heads, Side};
use crate::bank::Mem;
use crate::causality::{
    layers_agree, lemma_embeddings_agree, lemma_layers_agree, lemma_logits_agree,
    lemma_losses_agree,
};
use crate::derivative::{layer_weights_sized, weights_sized};
use crate::determinism::{law_matrices_fill_the_buffer, lemma_weights_sized};
use crate::gradient::{flow_sized, is_backward, is_layer_bwd, Flow, LayerFlow};
use crate::index::{lemma_pair, lemma_row_inside, lemma_unpair};
use crate::live::{
    lemma_live_added, lemma_live_dp, lemma_live_ds, lemma_live_dv, lemma_live_linear,
    lemma_live_matrix, lemma_live_norm, lemma_live_relu, lemma_live_residual, lemma_live_scores,
    lemma_live_wpe, lemma_live_wte, rows_void, settled, weights_void,
};
use crate::loss::is_ce;
use crate::network::{is_forward, weights_of, LayerValues, LayerWeights, Values, Weights};
use crate::padding::{
    absorbing, all_null, flow_null, is_padding, law_padding_gets_no_gradient, padding_null,
    weights_null,
};
use crate::plan::run_tokens;
use crate::repeat::lemma_ce_bwd_repeats;
use crate::rows::row_of;
use crate::scalar::Scalar;
use crate::shape::Shape;

verus! {

/// The rows that have a target.
pub open spec fn has_target(targets: Seq<i32>) -> spec_fn(int) -> bool {
    |r: int| targets[r] >= 0
}

/// Where no padding stands before a target, a row without a target is padding.
proof fn lemma_rest_is_padding(hs: Heads, targets: Seq<i32>, r: int)
    requires
        looks_back(hs, has_target(targets)),
        hs.t_len > 0,
        0 <= r < hs.positions(),
        targets[r] < 0,
    ensures
        is_padding(targets, hs.t_len as int, r),
{
    let n = hs.t_len as int;
    let live = has_target(targets);
    lemma_unpair(r, hs.b_n as int, n);
    let (d, u) = (r / n, r % n);
    assert(hs.position(d, u) == r);
    assert forall|q: int| r <= q < (r / n + 1) * n implies #[trigger] targets[q] < 0 by {
        let t = u + (q - r);
        assert((d + 1) * n == d * n + n) by (nonlinear_arith);
        assert(hs.position(d, t) == q);
        if targets[q] >= 0 {
            assert(live(hs.position(d, t)));
            assert(live(hs.position(d, u)));
        }
    }
}

/// Rows without a target are void.
proof fn lemma_rows_void<S>(
    null: spec_fn(S) -> bool,
    hs: Heads,
    targets: Seq<i32>,
    x: Seq<S>,
    m: nat,
    c: nat,
)
    requires
        looks_back(hs, has_target(targets)),
        hs.t_len > 0,
        m == hs.positions(),
        x.len() == m * c,
        padding_null(null, targets, hs.t_len as int, x, m, c),
    ensures
        rows_void(null, x, m, c, has_target(targets)),
{
    let live = has_target(targets);
    assert forall|r: int, j: int| 0 <= r < m && !live(r) && 0 <= j < c implies null(
        #[trigger] entry(x, c, r, j),
    ) by {
        lemma_rest_is_padding(hs, targets, r);
        lemma_row_inside(r, m as int, c as int);
        assert(all_null(null, row_of(x, c, r)));
        assert(null(row_of(x, c, r)[j]));
    }
}

/// The same for attention weights.
proof fn lemma_weights_void<S>(
    null: spec_fn(S) -> bool,
    hs: Heads,
    targets: Seq<i32>,
    x: Seq<S>,
)
    requires
        looks_back(hs, has_target(targets)),
        hs.t_len > 0,
        hs.h_n > 0,
        x.len() == hs.weight_rows() * hs.t_len,
        weights_null(null, targets, hs, x),
    ensures
        weights_void(null, hs, x, has_target(targets)),
{
    let live = has_target(targets);
    let (m, n) = (hs.weight_rows(), hs.t_len as nat);
    assert(0 <= m) by (nonlinear_arith)
        requires
            m == hs.b_n * hs.h_n * hs.t_len,
    ;
    assert forall|i: int, j: int|
        0 <= i < m && !seen_weights(hs, live)(i) && 0 <= j < n implies null(
        #[trigger] entry(x, n, i, j),
    ) by {
        lemma_unpair(i, hs.b_n * hs.h_n, n as int);
        lemma_unpair(i / n as int, hs.b_n as int, hs.h_n as int);
        let (d, h, t) = (hs.doc_of(i), hs.head_of(i), i % n as int);
        assert(hs.weight_row(d, h, t) == i);
        lemma_pair(d, hs.b_n as int, t, n as int);
        lemma_rest_is_padding(hs, targets, hs.position(d, t));
        lemma_row_inside(i, m, n as int);
        assert(all_null(null, row_of(x, n, hs.weight_row(d, h, t))));
        assert(null(row_of(x, n, i)[j]));
    }
}

/// What of the gradients that flow through a layer is void in rows without a target.
#[verifier::opaque]
pub open spec fn flow_void<S>(
    null: spec_fn(S) -> bool,
    s: Shape,
    f: LayerFlow<S>,
    live: spec_fn(int) -> bool,
) -> bool {
    let (m, c) = (s.rows as nat, s.c() as nat);
    let c4 = (4 * s.c()) as nat;
    &&& rows_void(null, f.d_out, m, c, live)
    &&& rows_void(null, f.d_h, m, c4, live)
    &&& rows_void(null, f.d_mid, m, c, live)
    &&& rows_void(null, f.d_atty, m, c, live)
    &&& weights_void(null, s.heads_spec(), f.d_scores, live)
    &&& rows_void(null, f.d_v, m, c, live)
    &&& rows_void(null, f.d_q, m, c, live)
    &&& rows_void(null, f.d_k, m, c, live)
}

/// From padding that gets no gradient.
proof fn lemma_flow_void<S>(
    null: spec_fn(S) -> bool,
    s: Shape,
    targets: Seq<i32>,
    f: LayerFlow<S>,
)
    requires
        s.ok(),
        looks_back(s.heads_spec(), has_target(targets)),
        flow_sized(s, f),
        flow_null(null, s, targets, f),
    ensures
        flow_void(null, s, f, has_target(targets)),
{
    reveal(flow_void);
    let (m, c) = (s.rows as nat, s.c() as nat);
    let c4 = (4 * s.c()) as nat;
    let hs = s.heads_spec();
    s.lemma_numbers();
    assert(s.rc() == m * c && s.rc4() == m * c4);
    lemma_rows_void(null, hs, targets, f.d_out, m, c);
    lemma_rows_void(null, hs, targets, f.d_h, m, c4);
    lemma_rows_void(null, hs, targets, f.d_mid, m, c);
    lemma_rows_void(null, hs, targets, f.d_atty, m, c);
    lemma_weights_void(null, hs, targets, f.d_scores);
    lemma_rows_void(null, hs, targets, f.d_v, m, c);
    lemma_rows_void(null, hs, targets, f.d_q, m, c);
    lemma_rows_void(null, hs, targets, f.d_k, m, c);
}

/// The backward pass of a layer in two runs.
#[verifier::spinoff_prover]
proof fn lemma_layer_unmoved<S: Scalar>(
    null: spec_fn(S) -> bool,
    plain: spec_fn(S) -> bool,
    live: spec_fn(int) -> bool,
    s: Shape,
    w: LayerWeights<S>,
    a: LayerValues<S>,
    b: LayerValues<S>,
    f: LayerFlow<S>,
    g: LayerFlow<S>,
    before: LayerWeights<S>,
    after: LayerWeights<S>,
    again: LayerWeights<S>,
)
    requires
        settled(null, plain),
        s.ok(),
        looks_back(s.heads_spec(), live),
        layers_agree(s, a, b, live),
        layer_weights_sized(s, before),
        is_layer_bwd(s, w, a, f, before, after),
        is_layer_bwd(s, w, b, g, before, again),
        flow_void(null, s, f, live),
        flow_void(null, s, g, live),
        rows_agree(f.d_out, g.d_out, s.rows as nat, s.c() as nat, live),
    ensures
        rows_agree(f.d_in, g.d_in, s.rows as nat, s.c() as nat, live),
        after == again,
{
    reveal(is_layer_bwd);
    reveal(layers_agree);
    reveal(flow_void);
    let (m, c) = (s.rows as nat, s.c() as nat);
    let c4 = (4 * s.c()) as nat;
    let hs = s.heads_spec();
    s.lemma_numbers();
    assert(s.rc() == m * c && s.rc4() == m * c4);
    lemma_live_linear(null, plain, f.d_act, g.d_act, f.d_out, g.d_out, w.fc2, m, c4, c, live);
    lemma_live_relu(f.d_act, g.d_act, f.d_h, g.d_h, a.hpre, b.hpre, m, c4, live);
    lemma_live_linear(null, plain, f.d_xn2, g.d_xn2, f.d_h, g.d_h, w.fc1, m, c, c4, live);
    lemma_live_norm(
        null, plain, f.d_norm2, g.d_norm2, a.x_mid, b.x_mid, a.r2, b.r2, f.d_xn2, g.d_xn2, m, c,
        live,
    );
    lemma_live_residual(f.d_norm2, g.d_norm2, f.d_mid, g.d_mid, f.d_out, g.d_out, m, c, live);
    lemma_live_linear(null, plain, f.d_atty, g.d_atty, f.d_mid, g.d_mid, w.wo, m, c, c, live);
    lemma_live_dp(null, plain, hs, f.d_att, g.d_att, f.d_atty, g.d_atty, a.v, b.v, live);
    lemma_live_dv(
        null, plain, hs, f.d_v, g.d_v, a.att, b.att, f.d_atty, g.d_atty, m, c, live,
    );
    lemma_live_ds(
        null, plain, hs, f.d_scores, g.d_scores, a.att, b.att, f.d_att, g.d_att, live,
    );
    lemma_live_scores(
        null, plain, hs, Side::Past, f.d_q, g.d_q, f.d_scores, g.d_scores, a.k, b.k, m, c, live,
    );
    lemma_live_scores(
        null, plain, hs, Side::Future, f.d_k, g.d_k, f.d_scores, g.d_scores, a.q, b.q, m, c, live,
    );
    lemma_live_linear(null, plain, f.d_xq, g.d_xq, f.d_q, g.d_q, w.wq, m, c, c, live);
    lemma_live_added(
        null, plain, f.d_xq, g.d_xq, f.d_xqk, g.d_xqk, f.d_k, g.d_k, w.wk, m, c, c, live,
    );
    lemma_live_added(
        null, plain, f.d_xqk, g.d_xqk, f.d_xn, g.d_xn, f.d_v, g.d_v, w.wv, m, c, c, live,
    );
    lemma_live_norm(
        null, plain, f.d_norm1, g.d_norm1, a.xin, b.xin, a.r1, b.r1, f.d_xn, g.d_xn, m, c, live,
    );
    lemma_live_residual(f.d_norm1, g.d_norm1, f.d_in, g.d_in, f.d_mid, g.d_mid, m, c, live);
    lemma_live_matrix(
        null, plain, before.fc2, after.fc2, again.fc2, f.d_out, g.d_out, a.h, b.h, c, c4, m, live,
    );
    lemma_live_matrix(
        null, plain, before.fc1, after.fc1, again.fc1, f.d_h, g.d_h, a.xn2, b.xn2, c4, c, m, live,
    );
    lemma_live_matrix(
        null, plain, before.wo, after.wo, again.wo, f.d_mid, g.d_mid, a.atty, b.atty, c, c, m,
        live,
    );
    lemma_live_matrix(
        null, plain, before.wq, after.wq, again.wq, f.d_q, g.d_q, a.xn, b.xn, c, c, m, live,
    );
    lemma_live_matrix(
        null, plain, before.wk, after.wk, again.wk, f.d_k, g.d_k, a.xn, b.xn, c, c, m, live,
    );
    lemma_live_matrix(
        null, plain, before.wv, after.wv, again.wv, f.d_v, g.d_v, a.xn, b.xn, c, c, m, live,
    );
}

/// The backward pass of the layers from `li` on.
proof fn lemma_layers_unmoved<S: Scalar>(
    null: spec_fn(S) -> bool,
    plain: spec_fn(S) -> bool,
    s: Shape,
    w: Weights<S>,
    tokens: Seq<i32>,
    others: Seq<i32>,
    targets: Seq<i32>,
    valid: nat,
    a: Values<S>,
    b: Values<S>,
    probs: Seq<S>,
    other_probs: Seq<S>,
    f: Flow<S>,
    g: Flow<S>,
    before: Weights<S>,
    after: Weights<S>,
    again: Weights<S>,
    li: int,
)
    requires
        settled(null, plain),
        s.ok(),
        looks_back(s.heads_spec(), has_target(targets)),
        networks_agree(s, a, b, has_target(targets)),
        weights_sized(s, before),
        is_backward(s, w, tokens, targets, valid, a, probs, f, before, after),
        is_backward(s, w, others, targets, valid, b, other_probs, g, before, again),
        forall|k: int|
            0 <= k < s.cfg.n_layer ==> flow_void(
                null,
                s,
                #[trigger] f.layers[k],
                has_target(targets),
            ),
        forall|k: int|
            0 <= k < s.cfg.n_layer ==> flow_void(
                null,
                s,
                #[trigger] g.layers[k],
                has_target(targets),
            ),
        rows_agree(
            f.layers[s.cfg.n_layer - 1].d_out,
            g.layers[s.cfg.n_layer - 1].d_out,
            s.rows as nat,
            s.c() as nat,
            has_target(targets),
        ),
        0 <= li < s.cfg.n_layer,
    ensures
        rows_agree(
            f.layers[li].d_in,
            g.layers[li].d_in,
            s.rows as nat,
            s.c() as nat,
            has_target(targets),
        ),
        after.layers[li] == again.layers[li],
    decreases s.cfg.n_layer - li,
{
    if li < s.cfg.n_layer - 1 {
        lemma_layers_unmoved(
            null, plain, s, w, tokens, others, targets, valid, a, b, probs, other_probs, f, g,
            before, after, again, li + 1,
        );
        assert(f.layers[li].d_out == f.layers[li + 1].d_in);
        assert(g.layers[li].d_out == g.layers[li + 1].d_in);
    }
    assert(layer_weights_sized(s, before.layers[li]));
    let (fl, gl) = (f.layers[li], g.layers[li]);
    assert(flow_void(null, s, fl, has_target(targets)));
    assert(flow_void(null, s, gl, has_target(targets)));
    assert(layers_agree(s, a.layers[li], b.layers[li], has_target(targets)));
    lemma_layer_unmoved(
        null,
        plain,
        has_target(targets),
        s,
        w.layers[li],
        a.layers[li],
        b.layers[li],
        fl,
        gl,
        before.layers[li],
        after.layers[li],
        again.layers[li],
    );
}

/// What padding gets, in all layers.
proof fn lemma_flows_void<S: Scalar>(
    null: spec_fn(S) -> bool,
    s: Shape,
    w: Weights<S>,
    tokens: Seq<i32>,
    targets: Seq<i32>,
    valid: nat,
    a: Values<S>,
    probs: Seq<S>,
    f: Flow<S>,
    before: Weights<S>,
    after: Weights<S>,
)
    requires
        absorbing(null),
        s.ok(),
        looks_back(s.heads_spec(), has_target(targets)),
        is_backward(s, w, tokens, targets, valid, a, probs, f, before, after),
    ensures
        rows_void(null, f.d_logits, s.rows as nat, s.vocab as nat, has_target(targets)),
        forall|k: int|
            0 <= k < s.cfg.n_layer ==> flow_sized(s, #[trigger] f.layers[k]) && flow_void(
                null,
                s,
                f.layers[k],
                has_target(targets),
            ),
        rows_void(null, f.d_x0, s.rows as nat, s.c() as nat, has_target(targets)),
{
    let (m, c, v) = (s.rows as nat, s.c() as nat, s.vocab as nat);
    let hs = s.heads_spec();
    s.lemma_numbers();
    assert(s.rc() == m * c && s.rv() == m * v);
    law_padding_gets_no_gradient(null, s, w, tokens, targets, valid, a, probs, f, before, after);
    lemma_rows_void(null, hs, targets, f.d_logits, m, v);
    lemma_rows_void(null, hs, targets, f.d_x0, m, c);
    assert forall|k: int| 0 <= k < s.cfg.n_layer implies flow_sized(s, #[trigger] f.layers[k])
        && flow_void(null, s, f.layers[k], has_target(targets)) by {
        lemma_flow_sized(
            s,
            w.layers[k],
            a.layers[k],
            f.layers[k],
            before.layers[k],
            after.layers[k],
        );
        lemma_flow_void(null, s, targets, f.layers[k]);
    }
}

/// The backward pass in two runs that agree in the rows that have a target.
proof fn lemma_backward_unmoved<S: Scalar>(
    null: spec_fn(S) -> bool,
    plain: spec_fn(S) -> bool,
    s: Shape,
    w: Weights<S>,
    tokens: Seq<i32>,
    others: Seq<i32>,
    targets: Seq<i32>,
    valid: nat,
    a: Values<S>,
    b: Values<S>,
    probs: Seq<S>,
    other_probs: Seq<S>,
    f: Flow<S>,
    g: Flow<S>,
    before: Weights<S>,
    after: Weights<S>,
    again: Weights<S>,
)
    requires
        settled(null, plain),
        s.ok(),
        looks_back(s.heads_spec(), has_target(targets)),
        networks_agree(s, a, b, has_target(targets)),
        tokens.len() == s.rows,
        others.len() == s.rows,
        nums_agree(tokens, others, s.rows as nat, has_target(targets)),
        weights_sized(s, before),
        probs.len() == s.rv(),
        other_probs.len() == s.rv(),
        forall|r: int|
            0 <= r < s.rows && targets[r] >= 0 ==> #[trigger] row_of(probs, s.vocab as nat, r)
                == row_of(other_probs, s.vocab as nat, r),
        is_backward(s, w, tokens, targets, valid, a, probs, f, before, after),
        is_backward(s, w, others, targets, valid, b, other_probs, g, before, again),
        after.layers.len() == s.cfg.n_layer,
        again.layers.len() == s.cfg.n_layer,
    ensures
        after == again,
{
    let (m, c, v) = (s.rows as nat, s.c() as nat, s.vocab as nat);
    let n = s.cfg.n_layer as int;
    let live = has_target(targets);
    let last = n - 1;
    s.lemma_numbers();
    assert(s.rc() == m * c && s.rv() == m * v);
    lemma_flows_void(null, s, w, tokens, targets, valid, a, probs, f, before, after);
    lemma_flows_void(null, s, w, others, targets, valid, b, other_probs, g, before, again);
    lemma_ce_bwd_repeats(f.d_logits, g.d_logits, probs, other_probs, targets, m, v, valid);
    assert(flow_sized(s, f.layers[last]) && flow_sized(s, g.layers[last]));
    assert(flow_sized(s, f.layers[0]) && flow_sized(s, g.layers[0]));
    let (x, y) = (a.layers[last].x_out, b.layers[last].x_out);
    assert(rows_agree(x, y, m, c, live)) by {
        assert(layers_agree(s, a.layers[last], b.layers[last], live));
        reveal(layers_agree);
    }
    lemma_live_matrix(
        null,
        plain,
        before.lm_head,
        after.lm_head,
        again.lm_head,
        f.d_logits,
        g.d_logits,
        x,
        y,
        v,
        c,
        m,
        live,
    );
    lemma_live_linear(
        null,
        plain,
        f.layers[last].d_out,
        g.layers[last].d_out,
        f.d_logits,
        g.d_logits,
        w.lm_head,
        m,
        c,
        v,
        live,
    );
    assert forall|li: int| 0 <= li < n implies after.layers[li] == again.layers[li] by {
        lemma_layers_unmoved(
            null, plain, s, w, tokens, others, targets, valid, a, b, probs, other_probs, f, g,
            before, after, again, li,
        );
    }
    assert(after.layers =~= again.layers);
    lemma_layers_unmoved(
        null, plain, s, w, tokens, others, targets, valid, a, b, probs, other_probs, f, g, before,
        after, again, 0,
    );
    lemma_live_norm(
        null,
        plain,
        f.d_x0,
        g.d_x0,
        a.x0,
        b.x0,
        a.r0,
        b.r0,
        f.layers[0].d_in,
        g.layers[0].d_in,
        m,
        c,
        live,
    );
    lemma_live_wte(
        null,
        plain,
        before.wte,
        after.wte,
        again.wte,
        f.d_x0,
        g.d_x0,
        tokens,
        others,
        m,
        v,
        c,
        live,
    );
    lemma_live_wpe(
        null,
        plain,
        before.wpe,
        after.wpe,
        again.wpe,
        f.d_x0,
        g.d_x0,
        m,
        s.t_len as nat,
        c,
        live,
    );
}

/// Padding changes no bit of a gradient, where operations have one outcome, products with
/// zero are zero and adding zero changes nothing: where padding stands behind the valid
/// positions of each document, two batches that agree in the valid positions leave the same
/// gradients, whatever tokens fill the padding.
pub proof fn law_padding_changes_no_bit<S: Scalar>(
    null: spec_fn(S) -> bool,
    plain: spec_fn(S) -> bool,
    s: Shape,
    w: Weights<S>,
    tokens: Seq<i32>,
    others: Seq<i32>,
    targets: Seq<i32>,
    valid: nat,
    a: Values<S>,
    b: Values<S>,
    losses: Seq<S>,
    other_losses: Seq<S>,
    p0: Seq<S>,
    q0: Seq<S>,
    probs: Seq<S>,
    other_probs: Seq<S>,
    f: Flow<S>,
    g: Flow<S>,
    before: Mem<S>,
    after: Mem<S>,
    other: Mem<S>,
    again: Mem<S>,
    buf: int,
)
    requires
        settled(null, plain),
        s.ok(),
        run_tokens(s, tokens),
        run_tokens(s, others),
        counts_targets(s, targets, valid),
        looks_back(s.heads_spec(), has_target(targets)),
        forall|r: int| 0 <= r < s.rows && targets[r] >= 0 ==> #[trigger] tokens[r] == others[r],
        is_forward(s, w, tokens, a),
        is_forward(s, w, others, b),
        losses.len() == s.rows,
        other_losses.len() == s.rows,
        probs.len() == s.rv(),
        other_probs.len() == s.rv(),
        is_ce(losses, p0, probs, a.logits, targets, s.vocab as nat),
        is_ce(other_losses, q0, other_probs, b.logits, targets, s.vocab as nat),
        has_gradients(s, before, after, buf),
        has_gradients(s, other, again, buf),
        before[buf] == other[buf],
        is_backward(
            s,
            w,
            tokens,
            targets,
            valid,
            a,
            probs,
            f,
            weights_of(s, before, buf),
            weights_of(s, after, buf),
        ),
        is_backward(
            s,
            w,
            others,
            targets,
            valid,
            b,
            other_probs,
            g,
            weights_of(s, other, buf),
            weights_of(s, again, buf),
        ),
    ensures
        after[buf] == again[buf],
{
    let (m, v) = (s.rows as nat, s.vocab as nat);
    let live = has_target(targets);
    s.lemma_numbers();
    assert(s.rv() == m * v);
    assert(nums_agree(tokens, others, m, live));
    lemma_embeddings_agree(s, w, tokens, others, a, b, live);
    assert forall|li: int| 0 <= li < s.cfg.n_layer implies layers_agree(
        s,
        #[trigger] a.layers[li],
        b.layers[li],
        live,
    ) by {
        lemma_layers_agree(s, w, tokens, others, a, b, live, li);
    }
    lemma_logits_agree(s, w, tokens, others, a, b, live);
    assert forall|r: int| 0 <= r < m && targets[r] >= 0 implies #[trigger] row_of(a.logits, v, r)
        == row_of(b.logits, v, r) by {
        lemma_row_inside(r, m as int, v as int);
        assert(live(r));
        assert forall|j: int| 0 <= j < v implies row_of(a.logits, v, r)[j] == row_of(
            b.logits,
            v,
            r,
        )[j] by {
            assert(entry(a.logits, v, r, j) == entry(b.logits, v, r, j));
        }
        assert(row_of(a.logits, v, r) =~= row_of(b.logits, v, r));
    }
    lemma_losses_agree(
        losses,
        other_losses,
        p0,
        q0,
        probs,
        other_probs,
        a.logits,
        b.logits,
        targets,
        m,
        v,
    );
    lemma_weights_sized(s, before, buf);
    assert(weights_of(s, before, buf).layers =~= weights_of(s, other, buf).layers);
    lemma_backward_unmoved(
        null,
        plain,
        s,
        w,
        tokens,
        others,
        targets,
        valid,
        a,
        b,
        probs,
        other_probs,
        f,
        g,
        weights_of(s, before, buf),
        weights_of(s, after, buf),
        weights_of(s, again, buf),
    );
    law_matrices_fill_the_buffer(s, after, again, buf);
}

} // verus!
