//! Training has one outcome, where the operations have: the same parameters, optimizer state
//! and batch give the same loss and the same new parameters, bit by bit.
use vstd::prelude::*;

use crate::adam::is_decayed_rate;
use crate::attention::Side;
use crate::bank::{read, Mem, Span};
use crate::batch::Batch;
use crate::causality::{law_forward_is_deterministic, lemma_losses_agree, lemma_mean_agrees};
use crate::derivative::{layer_weights_sized, weights_sized};
use crate::gradient::{
    flow_sized, is_attention_bwd, is_backward, is_layer_bwd, is_layer_grads, is_mlp_bwd, Flow,
    LayerFlow,
};
use crate::index::lemma_row_inside;
use crate::layout::{layer_len, layer_start, lemma_layers_fit, lemma_sizes, param_count};
use crate::model::{backpropagated, forwarded, is_train_step, measured, optimized, Model};
use crate::network::{
    layer_values, layer_weights, values_of, weights_of, LayerValues, LayerWeights, Values, Weights,
};
use crate::repeat::{
    law_adam_is_deterministic, lemma_add_repeats, lemma_ce_bwd_repeats, lemma_linear_bwd_repeats,
    lemma_matmul_nn_repeats, lemma_matmul_tn_repeats, lemma_mix_bwd_dp_repeats, lemma_mix_repeats,
    lemma_norm_bwd_repeats, lemma_rate_repeats, lemma_relu_bwd_repeats, lemma_scores_bwd_repeats,
    lemma_softmax_bwd_repeats, lemma_wpe_repeats, lemma_wte_repeats,
};
use crate::rows::row_of;
use crate::scalar::{deterministic, is_ratio, is_zero, Scalar};
use crate::shape::{
    bank_lens, buf_count, buf_len, Shape, ACTS, GRADS, LOGITS, LOSSES, PARAMS, PROBS, R0, SHARED,
    X0, X1,
};

verus! {

/// The backward pass of a perceptron, twice.
proof fn lemma_mlp_repeats<S: Scalar>(
    s: Shape,
    w: LayerWeights<S>,
    a: LayerValues<S>,
    f: LayerFlow<S>,
    g: LayerFlow<S>,
)
    requires
        deterministic::<S>(),
        s.ok(),
        flow_sized(s, f),
        flow_sized(s, g),
        is_mlp_bwd(s, w, a, f),
        is_mlp_bwd(s, w, a, g),
        f.d_out == g.d_out,
    ensures
        f.d_act == g.d_act,
        f.d_h == g.d_h,
        f.d_xn2 == g.d_xn2,
        f.d_norm2 == g.d_norm2,
        f.d_mid == g.d_mid,
{
    let (m, c, c4) = (s.rows as nat, s.c() as nat, (4 * s.c()) as nat);
    s.lemma_numbers();
    assert(s.rc() == m * c && s.rc4() == m * c4);
    lemma_linear_bwd_repeats(f.d_act, g.d_act, f.d_out, w.fc2, m, c4, c);
    lemma_relu_bwd_repeats(f.d_act, f.d_h, g.d_h, a.hpre);
    lemma_linear_bwd_repeats(f.d_xn2, g.d_xn2, f.d_h, w.fc1, m, c, c4);
    lemma_norm_bwd_repeats(f.d_norm2, g.d_norm2, a.x_mid, a.r2, f.d_xn2, m, c);
    lemma_add_repeats(f.d_norm2, f.d_mid, g.d_mid, f.d_out);
}

/// The backward pass of attention, twice.
proof fn lemma_attention_repeats<S: Scalar>(
    s: Shape,
    w: LayerWeights<S>,
    a: LayerValues<S>,
    f: LayerFlow<S>,
    g: LayerFlow<S>,
)
    requires
        deterministic::<S>(),
        s.ok(),
        flow_sized(s, f),
        flow_sized(s, g),
        is_attention_bwd(s, w, a, f),
        is_attention_bwd(s, w, a, g),
        f.d_mid == g.d_mid,
    ensures
        f.d_q == g.d_q,
        f.d_k == g.d_k,
        f.d_v == g.d_v,
        f.d_in == g.d_in,
{
    let (m, c) = (s.rows as nat, s.c() as nat);
    let hs = s.heads_spec();
    s.lemma_numbers();
    assert(s.rc() == m * c);
    let n = hs.weight_rows() as nat;
    assert(0 <= hs.weight_rows()) by (nonlinear_arith)
        requires
            hs.weight_rows() == hs.b_n * hs.h_n * hs.t_len,
    ;
    lemma_linear_bwd_repeats(f.d_atty, g.d_atty, f.d_mid, w.wo, m, c, c);
    lemma_mix_bwd_dp_repeats(hs, f.d_att, g.d_att, f.d_atty, a.v, n);
    lemma_mix_repeats(hs, Side::Future, f.d_v, g.d_v, a.att, f.d_atty, m, c);
    lemma_softmax_bwd_repeats(f.d_scores, g.d_scores, a.att, f.d_att, n, s.t_len as nat);
    lemma_scores_bwd_repeats(hs, Side::Past, f.d_q, g.d_q, f.d_scores, a.k, m, c);
    lemma_scores_bwd_repeats(hs, Side::Future, f.d_k, g.d_k, f.d_scores, a.q, m, c);
    lemma_linear_bwd_repeats(f.d_xq, g.d_xq, f.d_q, w.wq, m, c, c);
    lemma_matmul_nn_repeats(f.d_xq, f.d_xqk, g.d_xqk, f.d_k, w.wk, m, c, c);
    lemma_matmul_nn_repeats(f.d_xqk, f.d_xn, g.d_xn, f.d_v, w.wv, m, c, c);
    lemma_norm_bwd_repeats(f.d_norm1, g.d_norm1, a.xin, a.r1, f.d_xn, m, c);
    lemma_add_repeats(f.d_norm1, f.d_in, g.d_in, f.d_mid);
}

/// The gradients of the matrices of a layer, twice.
proof fn lemma_grads_repeat<S: Scalar>(
    s: Shape,
    a: LayerValues<S>,
    f: LayerFlow<S>,
    g: LayerFlow<S>,
    before: LayerWeights<S>,
    after: LayerWeights<S>,
    again: LayerWeights<S>,
)
    requires
        deterministic::<S>(),
        s.ok(),
        layer_weights_sized(s, before),
        is_layer_grads(s, a, f, before, after),
        is_layer_grads(s, a, g, before, again),
        f.d_out == g.d_out,
        f.d_h == g.d_h,
        f.d_mid == g.d_mid,
        f.d_q == g.d_q,
        f.d_k == g.d_k,
        f.d_v == g.d_v,
    ensures
        after == again,
{
    let (m, c, c4) = (s.rows as nat, s.c() as nat, (4 * s.c()) as nat);
    lemma_matmul_tn_repeats(before.fc2, after.fc2, again.fc2, f.d_out, a.h, c, c4, m);
    lemma_matmul_tn_repeats(before.fc1, after.fc1, again.fc1, f.d_h, a.xn2, c4, c, m);
    lemma_matmul_tn_repeats(before.wo, after.wo, again.wo, f.d_mid, a.atty, c, c, m);
    lemma_matmul_tn_repeats(before.wq, after.wq, again.wq, f.d_q, a.xn, c, c, m);
    lemma_matmul_tn_repeats(before.wk, after.wk, again.wk, f.d_k, a.xn, c, c, m);
    lemma_matmul_tn_repeats(before.wv, after.wv, again.wv, f.d_v, a.xn, c, c, m);
}

/// The backward pass of a layer, twice.
proof fn lemma_layer_repeats<S: Scalar>(
    s: Shape,
    w: LayerWeights<S>,
    a: LayerValues<S>,
    f: LayerFlow<S>,
    g: LayerFlow<S>,
    before: LayerWeights<S>,
    after: LayerWeights<S>,
    again: LayerWeights<S>,
)
    requires
        deterministic::<S>(),
        s.ok(),
        layer_weights_sized(s, before),
        is_layer_bwd(s, w, a, f, before, after),
        is_layer_bwd(s, w, a, g, before, again),
        f.d_out == g.d_out,
    ensures
        f.d_in == g.d_in,
        after == again,
{
    reveal(is_layer_bwd);
    lemma_mlp_repeats(s, w, a, f, g);
    lemma_attention_repeats(s, w, a, f, g);
    lemma_grads_repeat(s, a, f, g, before, after, again);
}

/// The backward pass of the layers from `li` on, twice.
proof fn lemma_layers_repeat<S: Scalar>(
    s: Shape,
    w: Weights<S>,
    tokens: Seq<i32>,
    targets: Seq<i32>,
    valid: nat,
    a: Values<S>,
    probs: Seq<S>,
    others: Seq<S>,
    f: Flow<S>,
    g: Flow<S>,
    before: Weights<S>,
    after: Weights<S>,
    again: Weights<S>,
    li: int,
)
    requires
        deterministic::<S>(),
        s.ok(),
        weights_sized(s, before),
        is_backward(s, w, tokens, targets, valid, a, probs, f, before, after),
        is_backward(s, w, tokens, targets, valid, a, others, g, before, again),
        f.layers[s.cfg.n_layer - 1].d_out == g.layers[s.cfg.n_layer - 1].d_out,
        0 <= li < s.cfg.n_layer,
    ensures
        f.layers[li].d_in == g.layers[li].d_in,
        after.layers[li] == again.layers[li],
    decreases s.cfg.n_layer - li,
{
    if li < s.cfg.n_layer - 1 {
        lemma_layers_repeat(
            s,
            w,
            tokens,
            targets,
            valid,
            a,
            probs,
            others,
            f,
            g,
            before,
            after,
            again,
            li + 1,
        );
        assert(f.layers[li].d_out == f.layers[li + 1].d_in);
        assert(g.layers[li].d_out == g.layers[li + 1].d_in);
    }
    assert(layer_weights_sized(s, before.layers[li]));
    assert(is_layer_bwd(
        s,
        w.layers[li],
        a.layers[li],
        f.layers[li],
        before.layers[li],
        after.layers[li],
    ));
    assert(is_layer_bwd(
        s,
        w.layers[li],
        a.layers[li],
        g.layers[li],
        before.layers[li],
        again.layers[li],
    ));
    lemma_layer_repeats(
        s,
        w.layers[li],
        a.layers[li],
        f.layers[li],
        g.layers[li],
        before.layers[li],
        after.layers[li],
        again.layers[li],
    );
}

/// The size of the gradient of the last layer's output.
proof fn lemma_flow_out_sized<S: Scalar>(
    s: Shape,
    w: LayerWeights<S>,
    a: LayerValues<S>,
    f: LayerFlow<S>,
    before: LayerWeights<S>,
    after: LayerWeights<S>,
)
    requires
        is_layer_bwd(s, w, a, f, before, after),
    ensures
        f.d_out.len() == s.rc(),
{
    reveal(is_layer_bwd);
}

/// The backward pass has one outcome, where the operations have: from the same activations,
/// and the same probabilities in all rows but padding, the gradients are the same.
pub proof fn law_backward_is_deterministic<S: Scalar>(
    s: Shape,
    w: Weights<S>,
    tokens: Seq<i32>,
    targets: Seq<i32>,
    valid: nat,
    a: Values<S>,
    probs: Seq<S>,
    others: Seq<S>,
    f: Flow<S>,
    g: Flow<S>,
    before: Weights<S>,
    after: Weights<S>,
    again: Weights<S>,
)
    requires
        deterministic::<S>(),
        s.ok(),
        weights_sized(s, before),
        probs.len() == s.rv(),
        others.len() == s.rv(),
        forall|r: int|
            0 <= r < s.rows && targets[r] >= 0 ==> #[trigger] row_of(probs, s.vocab as nat, r)
                == row_of(others, s.vocab as nat, r),
        is_backward(s, w, tokens, targets, valid, a, probs, f, before, after),
        is_backward(s, w, tokens, targets, valid, a, others, g, before, again),
        after.layers.len() == s.cfg.n_layer,
        again.layers.len() == s.cfg.n_layer,
    ensures
        after == again,
{
    let (m, c, v) = (s.rows as nat, s.c() as nat, s.vocab as nat);
    let n = s.cfg.n_layer as int;
    s.lemma_numbers();
    assert(s.rc() == m * c && s.rv() == m * v);
    lemma_ce_bwd_repeats(f.d_logits, g.d_logits, probs, others, targets, m, v, valid);
    let x_final = a.layers[n - 1].x_out;
    lemma_matmul_tn_repeats(
        before.lm_head,
        after.lm_head,
        again.lm_head,
        f.d_logits,
        x_final,
        v,
        c,
        m,
    );
    let (fl, gl) = (f.layers[n - 1], g.layers[n - 1]);
    assert(is_layer_bwd(
        s,
        w.layers[n - 1],
        a.layers[n - 1],
        fl,
        before.layers[n - 1],
        after.layers[n - 1],
    ));
    assert(is_layer_bwd(
        s,
        w.layers[n - 1],
        a.layers[n - 1],
        gl,
        before.layers[n - 1],
        again.layers[n - 1],
    ));
    lemma_flow_out_sized(
        s,
        w.layers[n - 1],
        a.layers[n - 1],
        fl,
        before.layers[n - 1],
        after.layers[n - 1],
    );
    lemma_flow_out_sized(
        s,
        w.layers[n - 1],
        a.layers[n - 1],
        gl,
        before.layers[n - 1],
        again.layers[n - 1],
    );
    lemma_linear_bwd_repeats(fl.d_out, gl.d_out, f.d_logits, w.lm_head, m, c, v);
    assert forall|li: int| 0 <= li < n implies after.layers[li] == again.layers[li] by {
        lemma_layers_repeat(
            s,
            w,
            tokens,
            targets,
            valid,
            a,
            probs,
            others,
            f,
            g,
            before,
            after,
            again,
            li,
        );
    }
    assert(after.layers =~= again.layers);
    lemma_layers_repeat(
        s,
        w,
        tokens,
        targets,
        valid,
        a,
        probs,
        others,
        f,
        g,
        before,
        after,
        again,
        0,
    );
    lemma_norm_bwd_repeats(f.d_x0, g.d_x0, a.x0, a.r0, f.layers[0].d_in, m, c);
    lemma_wte_repeats(before.wte, after.wte, again.wte, f.d_x0, tokens, v, c);
    lemma_wpe_repeats(before.wpe, after.wpe, again.wpe, f.d_x0, m, s.t_len as nat, c);
}

/// The matrices in a buffer of the right length have their sizes.
pub proof fn lemma_weights_sized<S>(s: Shape, m: Mem<S>, buf: int)
    requires
        s.ok(),
        0 <= buf <= usize::MAX,
        m[buf].len() == param_count(s.cfg, s.vocab as int),
    ensures
        weights_sized(s, weights_of(s, m, buf)),
{
    let (cfg, v, c) = (s.cfg, s.vocab as int, s.c());
    let w = weights_of(s, m, buf);
    lemma_sizes(cfg, v);
    lemma_layers_fit(cfg, v, 0);
    s.lemma_numbers();
    assert forall|li: int| 0 <= li < cfg.n_layer implies layer_weights_sized(
        s,
        #[trigger] w.layers[li],
    ) by {
        lemma_layers_fit(cfg, v, li);
        lemma_layers_fit(cfg, v, li + 1);
        assert(0 * (c * c) == 0 && 1 * (c * c) == c * c);
        assert(w.layers[li] == layer_weights(s, m, buf, li));
    }
}

/// The place of number `k` of a span.
proof fn lemma_read_entry<S>(m: Mem<S>, n: Mem<S>, z: Span, i: int)
    requires
        read(m, z) == read(n, z),
        z.start <= i < z.start + z.len,
        z.start + z.len <= m[z.buf as int].len(),
        z.start + z.len <= n[z.buf as int].len(),
    ensures
        m[z.buf as int][i] == n[z.buf as int][i],
{
    let k = i - z.start;
    assert(k + z.start == i);
    assert(read(m, z)[k] == m[z.buf as int][k + z.start]);
    assert(read(n, z)[k] == n[z.buf as int][k + z.start]);
}

/// The matrices fill the buffer without gaps: buffers with the same matrices are the same.
pub proof fn law_matrices_fill_the_buffer<S>(s: Shape, m: Mem<S>, n: Mem<S>, buf: int)
    requires
        s.ok(),
        0 <= buf <= usize::MAX,
        m[buf].len() == param_count(s.cfg, s.vocab as int),
        n[buf].len() == param_count(s.cfg, s.vocab as int),
        weights_of(s, m, buf) == weights_of(s, n, buf),
    ensures
        m[buf] == n[buf],
{
    let (cfg, v, c) = (s.cfg, s.vocab as int, s.c());
    let square = c * c;
    let len = layer_len(cfg);
    lemma_sizes(cfg, v);
    lemma_layers_fit(cfg, v, 0);
    assert(square > 0) by (nonlinear_arith)
        requires
            square == c * c,
            c > 0,
    ;
    let (wm, wn) = (weights_of(s, m, buf), weights_of(s, n, buf));
    assert forall|i: int| 0 <= i < m[buf].len() implies m[buf][i] == n[buf][i] by {
        let base = layer_start(cfg, v, 0);
        if i < v * c {
            lemma_read_entry(m, n, s.wte(buf), i);
        } else if i < v * c + cfg.block_size * c {
            lemma_read_entry(m, n, s.wpe(buf), i);
        } else if i < base {
            lemma_read_entry(m, n, s.lm_head(buf), i);
        } else {
            let li = (i - base) / len;
            vstd::arithmetic::div_mod::lemma_fundamental_div_mod(i - base, len);
            vstd::arithmetic::div_mod::lemma_mod_bound(i - base, len);
            let off = (i - base) % len;
            assert(li >= 0 && li < cfg.n_layer) by (nonlinear_arith)
                requires
                    i - base == len * li + off,
                    0 <= off < len,
                    0 <= i - base < cfg.n_layer * len,
                    len > 0,
            ;
            vstd::arithmetic::mul::lemma_mul_is_commutative(len, li);
            lemma_layers_fit(cfg, v, li);
            lemma_layers_fit(cfg, v, li + 1);
            let start = layer_start(cfg, v, li);
            assert(start + off == i);
            assert(wm.layers[li] == wn.layers[li]);
            assert(layer_weights(s, m, buf, li) == layer_weights(s, n, buf, li));
            if off < square {
                lemma_read_entry(m, n, s.wq(buf, li), i);
            } else if off < 2 * square {
                lemma_read_entry(m, n, s.wk(buf, li), i);
            } else if off < 3 * square {
                lemma_read_entry(m, n, s.wv(buf, li), i);
            } else if off < 4 * square {
                lemma_read_entry(m, n, s.wo(buf, li), i);
            } else if off < 8 * square {
                lemma_read_entry(m, n, s.fc1(buf, li), i);
            } else {
                lemma_read_entry(m, n, s.fc2(buf, li), i);
            }
        }
    }
    assert(m[buf] =~= n[buf]);
}

/// Whether two models are in the same state of training: the same shape, parameters,
/// gradients and moments.
pub open spec fn same_state<S: Scalar>(m: Model<S>, n: Model<S>) -> bool {
    &&& m.cfg == n.cfg
    &&& m.vocab == n.vocab
    &&& m.mem()[PARAMS as int] == n.mem()[PARAMS as int]
    &&& m.mem()[GRADS as int] == n.mem()[GRADS as int]
    &&& m.adam_m@ == n.adam_m@
    &&& m.adam_v@ == n.adam_v@
}

/// The buffers of a model have their lengths.
pub proof fn lemma_lens<S: Scalar>(m: Model<S>, b: int)
    requires
        m.wf(),
        0 <= b < buf_count(m.cfg),
    ensures
        m.mem()[b].len() == buf_len(m.cfg, m.vocab as int, b),
{
    let lens = bank_lens(m.cfg, m.vocab as int);
    assert(m.bank.lens()[b] == lens[b]);
    assert(lens.len() == m.mem().len());
    lemma_sizes(m.cfg, m.vocab as int);
    assert(buf_len(m.cfg, m.vocab as int, b) >= 0);
}

/// Weights and activations depend on nothing but their buffers.
proof fn lemma_same_values<S>(s: Shape, m: Mem<S>, n: Mem<S>)
    requires
        s.ok(),
        forall|b: int|
            0 <= b < buf_count(s.cfg) && b != LOSSES && b != PROBS ==> #[trigger] m[b] == n[b],
    ensures
        values_of(s, m) == values_of(s, n),
        weights_of(s, m, PARAMS as int) == weights_of(s, n, PARAMS as int),
        weights_of(s, m, GRADS as int) == weights_of(s, n, GRADS as int),
{
    let (p, g) = (PARAMS as int, GRADS as int);
    assert(m[p] == n[p] && m[g] == n[g]);
    assert(m[X0 as int] == n[X0 as int] && m[X1 as int] == n[X1 as int]);
    assert(m[R0 as int] == n[R0 as int] && m[LOGITS as int] == n[LOGITS as int]);
    assert forall|li: int| 0 <= li < s.cfg.n_layer implies layer_values(s, m, li) == layer_values(
        s,
        n,
        li,
    ) by {
        lemma_row_inside(li, s.cfg.n_layer as int, ACTS as int);
        crate::plan::lemma_layer_spans(s, li);
        let start = SHARED + li * ACTS;
        assert forall|k: int| 0 <= k < ACTS implies #[trigger] m[start + k] == n[start + k] by {}
        if li > 0 {
            lemma_row_inside(li - 1, s.cfg.n_layer as int, ACTS as int);
            assert(m[start - ACTS + 10] == n[start - ACTS + 10]);
        }
    }
    assert(values_of(s, m).layers =~= values_of(s, n).layers);
    assert(weights_of(s, m, p).layers =~= weights_of(s, n, p).layers);
    assert(weights_of(s, m, g).layers =~= weights_of(s, n, g).layers);
}

/// Forward pass and loss of two models in the same state.
proof fn lemma_losses_repeat<S: Scalar>(
    before: Model<S>,
    other: Model<S>,
    m1: Model<S>,
    n1: Model<S>,
    m2: Model<S>,
    n2: Model<S>,
    batch: Batch,
    mean: S,
    again: S,
)
    requires
        deterministic::<S>(),
        same_state(before, other),
        m1.ran(),
        n1.ran(),
        m2.ran(),
        n2.ran(),
        forwarded(before, m1, batch.tokens@, batch.t_len),
        forwarded(other, n1, batch.tokens@, batch.t_len),
        measured(m1, m2, batch.targets@, mean),
        measured(n1, n2, batch.targets@, again),
        batch.tokens@.len() == batch.targets@.len(),
    ensures
        mean == again,
        values_of(m1.shape(), m1.mem()) == values_of(m1.shape(), n1.mem()),
        m1.shape() == n1.shape(),
        forall|r: int|
            0 <= r < m1.rows && batch.targets@[r] >= 0 ==> #[trigger] row_of(
                m2.probs(),
                m1.vocab as nat,
                r,
            ) == row_of(n2.probs(), m1.vocab as nat, r),
{
    let s = m1.shape();
    s.lemma_numbers();
    assert(weights_of(s, before.mem(), PARAMS as int).layers =~= weights_of(
        s,
        other.mem(),
        PARAMS as int,
    ).layers);
    law_forward_is_deterministic(
        s,
        weights_of(s, before.mem(), PARAMS as int),
        batch.tokens@,
        values_of(s, m1.mem()),
        values_of(s, n1.mem()),
    );
    lemma_lens(m2, LOSSES as int);
    lemma_lens(n2, LOSSES as int);
    lemma_lens(m2, PROBS as int);
    lemma_lens(n2, PROBS as int);
    assert(m1.logits() == n1.logits()) by {
        assert(values_of(s, m1.mem()).logits == values_of(s, n1.mem()).logits);
    }
    lemma_losses_agree(
        m2.losses(),
        n2.losses(),
        m1.probs(),
        n1.probs(),
        m2.probs(),
        n2.probs(),
        m1.logits(),
        n1.logits(),
        batch.targets@,
        s.rows as nat,
        s.vocab as nat,
    );
    lemma_mean_agrees(m2.losses(), m2.valid as nat, mean, again);
}

/// The gradients of two models in the same state.
proof fn lemma_grads_of_models<S: Scalar>(
    before: Model<S>,
    other: Model<S>,
    m1: Model<S>,
    n1: Model<S>,
    m2: Model<S>,
    n2: Model<S>,
    m3: Model<S>,
    n3: Model<S>,
    batch: Batch,
    mean: S,
    again: S,
)
    requires
        deterministic::<S>(),
        same_state(before, other),
        m1.ran(),
        n1.ran(),
        m2.ran(),
        n2.ran(),
        m3.ran(),
        n3.ran(),
        forwarded(before, m1, batch.tokens@, batch.t_len),
        forwarded(other, n1, batch.tokens@, batch.t_len),
        measured(m1, m2, batch.targets@, mean),
        measured(n1, n2, batch.targets@, again),
        backpropagated(m2, m3),
        backpropagated(n2, n3),
        batch.tokens@.len() == batch.targets@.len(),
    ensures
        mean == again,
        same_state(m3, n3),
{
    let s = m1.shape();
    let (p, g) = (PARAMS as int, GRADS as int);
    s.lemma_numbers();
    lemma_losses_repeat(before, other, m1, n1, m2, n2, batch, mean, again);
    lemma_same_values(s, m2.mem(), m1.mem());
    lemma_same_values(s, n2.mem(), n1.mem());
    assert(m1.mem()[p] == before.mem()[p] && n1.mem()[p] == other.mem()[p]);
    assert(m1.mem()[g] == before.mem()[g] && n1.mem()[g] == other.mem()[g]);
    assert(m2.mem()[p] == m1.mem()[p] && n2.mem()[p] == n1.mem()[p]);
    assert(m2.mem()[g] == m1.mem()[g] && n2.mem()[g] == n1.mem()[g]);
    assert(m3.mem()[p] == m2.mem()[p] && n3.mem()[p] == n2.mem()[p]);
    lemma_lens(m2, PROBS as int);
    lemma_lens(n2, PROBS as int);
    lemma_lens(m2, g);
    lemma_lens(m3, g);
    lemma_lens(n3, g);
    lemma_weights_sized(s, m2.mem(), g);
    let (w, wg) = (weights_of(s, m2.mem(), p), weights_of(s, m2.mem(), g));
    assert(w.layers =~= weights_of(s, n2.mem(), p).layers);
    assert(wg.layers =~= weights_of(s, n2.mem(), g).layers);
    let f = choose|f: Flow<S>| #[trigger]
        is_backward(
            s,
            w,
            m2.ran_tokens(),
            m2.ran_targets(),
            m2.valid as nat,
            values_of(s, m2.mem()),
            m2.probs(),
            f,
            wg,
            weights_of(s, m3.mem(), g),
        );
    let h = choose|h: Flow<S>| #[trigger]
        is_backward(
            s,
            w,
            n2.ran_tokens(),
            n2.ran_targets(),
            n2.valid as nat,
            values_of(s, n2.mem()),
            n2.probs(),
            h,
            wg,
            weights_of(s, n3.mem(), g),
        );
    law_backward_is_deterministic(
        s,
        w,
        m2.ran_tokens(),
        m2.ran_targets(),
        m2.valid as nat,
        values_of(s, m2.mem()),
        m2.probs(),
        n2.probs(),
        f,
        h,
        wg,
        weights_of(s, m3.mem(), g),
        weights_of(s, n3.mem(), g),
    );
    law_matrices_fill_the_buffer(s, m3.mem(), n3.mem(), g);
}

/// Training is deterministic: two models in the same state of training, trained on the same
/// batch, have the same loss, bit by bit, and are in the same state again. How the rows are
/// divided among workers is not even mentioned.
pub proof fn law_training_is_deterministic<S: Scalar>(
    before: Model<S>,
    other: Model<S>,
    after: Model<S>,
    other_after: Model<S>,
    batch: Batch,
    step: nat,
    mean: S,
    again: S,
)
    requires
        deterministic::<S>(),
        after.wf(),
        other_after.wf(),
        same_state(before, other),
        batch.tokens@.len() == batch.targets@.len(),
        is_train_step(before, after, batch, step, mean),
        is_train_step(other, other_after, batch, step, again),
    ensures
        mean == again,
        same_state(after, other_after),
{
    let (m1, m2, m3, mb, ml) = choose|m1: Model<S>, m2: Model<S>, m3: Model<S>, base: S, lr: S|
        #![trigger forwarded(before, m1, batch.tokens@, batch.t_len), measured(m1, m2, batch.targets@, mean), backpropagated(m2, m3), optimized(m3, after, step, lr), is_decayed_rate(base, step, before.cfg.num_steps as nat, lr)]
        m1.ran() && m2.ran() && m3.ran() && forwarded(
            before,
            m1,
            batch.tokens@,
            batch.t_len,
        ) && measured(m1, m2, batch.targets@, mean) && backpropagated(m2, m3) && is_ratio(
            before.cfg.learning_rate.num,
            before.cfg.learning_rate.den,
            base,
        ) && is_decayed_rate(base, step, before.cfg.num_steps as nat, lr) && optimized(
            m3,
            after,
            step,
            lr,
        );
    let (n1, n2, n3, nb, nl) = choose|m1: Model<S>, m2: Model<S>, m3: Model<S>, base: S, lr: S|
        #![trigger forwarded(other, m1, batch.tokens@, batch.t_len), measured(m1, m2, batch.targets@, again), backpropagated(m2, m3), optimized(m3, other_after, step, lr), is_decayed_rate(base, step, other.cfg.num_steps as nat, lr)]
        m1.ran() && m2.ran() && m3.ran() && forwarded(
            other,
            m1,
            batch.tokens@,
            batch.t_len,
        ) && measured(m1, m2, batch.targets@, again) && backpropagated(m2, m3) && is_ratio(
            other.cfg.learning_rate.num,
            other.cfg.learning_rate.den,
            base,
        ) && is_decayed_rate(base, step, other.cfg.num_steps as nat, lr) && optimized(
            m3,
            other_after,
            step,
            lr,
        );
    lemma_grads_of_models(before, other, m1, n1, m2, n2, m3, n3, batch, mean, again);
    assert(mb == nb);
    lemma_rate_repeats(mb, step, before.cfg.num_steps as nat, ml, nl);
    lemma_optimized_repeats(m3, n3, after, other_after, step, ml);
}

/// A step of the optimizer on two models in the same state.
proof fn lemma_optimized_repeats<S: Scalar>(
    m: Model<S>,
    n: Model<S>,
    after: Model<S>,
    again: Model<S>,
    step: nat,
    lr: S,
)
    requires
        deterministic::<S>(),
        m.wf(),
        n.wf(),
        after.wf(),
        again.wf(),
        same_state(m, n),
        optimized(m, after, step, lr),
        optimized(n, again, step, lr),
    ensures
        same_state(after, again),
{
    let total = param_count(m.cfg, m.vocab as int);
    let (p, g) = (PARAMS as int, GRADS as int);
    lemma_lens(after, p);
    lemma_lens(again, p);
    lemma_lens(after, g);
    lemma_lens(again, g);
    assert forall|i: int| 0 <= i < total implies #[trigger] after.moments(i) == again.moments(
        i,
    ) by {
        assert(m.moments(i) == n.moments(i));
        law_adam_is_deterministic(
            step,
            lr,
            m.mem()[g][i],
            m.moments(i),
            after.moments(i),
            again.moments(i),
        );
    }
    assert forall|i: int| 0 <= i < total implies after.mem()[p][i] == again.mem()[p][i] by {
        assert(after.moments(i) == again.moments(i));
    }
    assert forall|i: int| 0 <= i < total implies after.adam_m@[i] == again.adam_m@[i] by {
        assert(after.moments(i) == again.moments(i));
    }
    assert forall|i: int| 0 <= i < total implies after.adam_v@[i] == again.adam_v@[i] by {
        assert(after.moments(i) == again.moments(i));
    }
    assert forall|i: int| 0 <= i < total implies after.mem()[g][i] == again.mem()[g][i] by {
        assert(is_zero(after.mem()[g][i]) && is_zero(again.mem()[g][i]));
    }
    assert(after.mem()[p] =~= again.mem()[p]);
    assert(after.mem()[g] =~= again.mem()[g]);
    assert(after.adam_m@ =~= again.adam_m@);
    assert(after.adam_v@ =~= again.adam_v@);
}

} // verus!
