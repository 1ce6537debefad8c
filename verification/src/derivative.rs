//! The backward pass of the model computes the derivative of the loss: whatever first-order
//! motion the weights make, the loss moves by the gradients paired with that motion.
use vstd::prelude::*;

use crate::exact::{exact, total_of};
use crate::gradient::{
    flow_sized, is_attention_bwd, is_backward, is_layer_bwd, is_layer_grads, is_mlp_bwd, Flow,
    LayerFlow,
};
use crate::loss::is_ce;
use crate::motion::{
    law_linear_adjoint, law_linear_adjoint_added, law_relu_adjoint, lemma_pairing_added,
    lemma_pairing_moves, moves_linear, moves_relu, pairing,
};
use crate::motion_attention::{is_score_factor, law_attention_adjoint, moves_mix, moves_weights};
use crate::motion_embed::{law_embed_adjoint, moves_embed};
use crate::motion_loss::{law_loss_adjoint, moves_mean_loss};
use crate::motion_norm::{law_norm_adjoint, moves_norm};
use crate::network::{input_of, is_forward, is_layer, LayerValues, LayerWeights, Values, Weights};
use crate::plan::run_tokens;
use crate::scalar::Scalar;
use crate::shape::Shape;

verus! {

/// How `y = x + a @ w^T` moves.
pub open spec fn moves_residual<S>(
    val: spec_fn(S) -> real,
    my: Seq<real>,
    mx: Seq<real>,
    a: Seq<S>,
    ma: Seq<real>,
    w: Seq<S>,
    mw: Seq<real>,
    m: nat,
    n: nat,
    k: nat,
) -> bool {
    exists|out: Seq<real>| #[trigger]
        moves_linear(val, out, a, ma, w, mw, m, n, k) && (forall|i: int|
            0 <= i < m * n ==> #[trigger] my[i] == mx[i] + out[i])
}

/// How the attention of a layer moves, up to `x_mid`.
pub open spec fn moves_attention<S>(
    val: spec_fn(S) -> real,
    s: Shape,
    scale: real,
    w: LayerWeights<S>,
    mw: LayerWeights<real>,
    a: LayerValues<S>,
    ma: LayerValues<real>,
) -> bool {
    let (rows, c) = (s.rows as nat, s.c() as nat);
    let hs = s.heads_spec();
    &&& moves_norm(val, ma.xn, ma.r1, a.xin, a.r1, ma.xin, rows, c)
    &&& moves_linear(val, ma.q, a.xn, ma.xn, w.wq, mw.wq, rows, c, c)
    &&& moves_linear(val, ma.k, a.xn, ma.xn, w.wk, mw.wk, rows, c, c)
    &&& moves_linear(val, ma.v, a.xn, ma.xn, w.wv, mw.wv, rows, c, c)
    &&& moves_weights(val, hs, scale, a.att, ma.att, a.q, ma.q, a.k, ma.k)
    &&& moves_mix(val, hs, ma.atty, a.att, ma.att, a.v, ma.v)
    &&& moves_residual(val, ma.x_mid, ma.xin, a.atty, ma.atty, w.wo, mw.wo, rows, c, c)
}

/// How the perceptron of a layer moves, from `x_mid` on.
pub open spec fn moves_mlp<S>(
    val: spec_fn(S) -> real,
    s: Shape,
    w: LayerWeights<S>,
    mw: LayerWeights<real>,
    a: LayerValues<S>,
    ma: LayerValues<real>,
) -> bool {
    let (rows, c, c4) = (s.rows as nat, s.c() as nat, (4 * s.c()) as nat);
    &&& moves_norm(val, ma.xn2, ma.r2, a.x_mid, a.r2, ma.x_mid, rows, c)
    &&& moves_linear(val, ma.hpre, a.xn2, ma.xn2, w.fc1, mw.fc1, rows, c4, c)
    &&& moves_relu(val, ma.h, a.hpre, ma.hpre, rows * c4)
    &&& moves_residual(val, ma.x_out, ma.x_mid, a.h, ma.h, w.fc2, mw.fc2, rows, c, c4)
}

/// How a layer moves, when its weights move by `mw`.
#[verifier::opaque]
pub open spec fn moves_layer<S>(
    val: spec_fn(S) -> real,
    s: Shape,
    scale: real,
    w: LayerWeights<S>,
    mw: LayerWeights<real>,
    a: LayerValues<S>,
    ma: LayerValues<real>,
) -> bool {
    &&& moves_attention(val, s, scale, w, mw, a, ma)
    &&& moves_mlp(val, s, w, mw, a, ma)
}

/// How the whole network moves, when its weights move by `mw`: each operation by its own
/// rule.
pub open spec fn moves_network<S>(
    val: spec_fn(S) -> real,
    s: Shape,
    scale: real,
    w: Weights<S>,
    mw: Weights<real>,
    tokens: Seq<i32>,
    a: Values<S>,
    ma: Values<real>,
) -> bool {
    let (rows, c, v) = (s.rows as nat, s.c() as nat, s.vocab as nat);
    let last = s.cfg.n_layer - 1;
    &&& moves_embed(ma.x0, mw.wte, mw.wpe, tokens, s.t_len as nat, rows, c)
    &&& moves_norm(val, ma.x1, ma.r0, a.x0, a.r0, ma.x0, rows, c)
    &&& forall|li: int|
        0 <= li < s.cfg.n_layer ==> moves_layer(
            val,
            s,
            scale,
            w.layers[li],
            mw.layers[li],
            a.layers[li],
            #[trigger] ma.layers[li],
        ) && ma.layers[li].xin == input_of(ma, li)
    &&& moves_linear(
        val,
        ma.logits,
        a.layers[last].x_out,
        ma.layers[last].x_out,
        w.lm_head,
        mw.lm_head,
        rows,
        v,
        c,
    )
}

/// The matrices of a layer have their sizes.
pub open spec fn layer_weights_sized<S>(s: Shape, w: LayerWeights<S>) -> bool {
    let (c, c4) = (s.c() as nat, (4 * s.c()) as nat);
    &&& w.wq.len() == c * c
    &&& w.wk.len() == c * c
    &&& w.wv.len() == c * c
    &&& w.wo.len() == c * c
    &&& w.fc1.len() == c4 * c
    &&& w.fc2.len() == c * c4
}

/// All matrices have their sizes.
pub open spec fn weights_sized<S>(s: Shape, w: Weights<S>) -> bool {
    let (c, v) = (s.c() as nat, s.vocab as nat);
    &&& w.wte.len() == v * c
    &&& w.wpe.len() == s.cfg.block_size as nat * c
    &&& w.lm_head.len() == v * c
    &&& forall|li: int|
        0 <= li < s.cfg.n_layer ==> layer_weights_sized(s, #[trigger] w.layers[li])
}

/// The gradients of the attention of a layer paired with the motion of its matrices.
pub open spec fn attention_pairing<S>(
    val: spec_fn(S) -> real,
    s: Shape,
    g: LayerWeights<S>,
    mw: LayerWeights<real>,
) -> real {
    let c = s.c() as nat;
    pairing(val, g.wq, mw.wq, c * c) + pairing(val, g.wk, mw.wk, c * c) + pairing(
        val,
        g.wv,
        mw.wv,
        c * c,
    ) + pairing(val, g.wo, mw.wo, c * c)
}

/// The gradients of the perceptron of a layer paired with the motion of its matrices.
pub open spec fn mlp_pairing<S>(
    val: spec_fn(S) -> real,
    s: Shape,
    g: LayerWeights<S>,
    mw: LayerWeights<real>,
) -> real {
    let (c, c4) = (s.c() as nat, (4 * s.c()) as nat);
    pairing(val, g.fc1, mw.fc1, c4 * c) + pairing(val, g.fc2, mw.fc2, c * c4)
}

/// The gradients of a layer paired with the motion of its matrices.
pub open spec fn layer_pairing<S>(
    val: spec_fn(S) -> real,
    s: Shape,
    g: LayerWeights<S>,
    mw: LayerWeights<real>,
) -> real {
    attention_pairing(val, s, g, mw) + mlp_pairing(val, s, g, mw)
}

/// All gradients paired with the motion of the weights.
pub open spec fn weights_pairing<S>(
    val: spec_fn(S) -> real,
    s: Shape,
    g: Weights<S>,
    mw: Weights<real>,
) -> real {
    let (c, v) = (s.c() as nat, s.vocab as nat);
    pairing(val, g.wte, mw.wte, v * c) + pairing(val, g.wpe, mw.wpe, s.cfg.block_size as nat * c)
        + pairing(val, g.lm_head, mw.lm_head, v * c) + total_of(
        |li: int| layer_pairing(val, s, g.layers[li], mw.layers[li]),
        s.cfg.n_layer as nat,
    )
}

/// The chain rule through a residual branch.
proof fn lemma_residual<S: Scalar>(
    val: spec_fn(S) -> real,
    dx: Seq<S>,
    dy: Seq<S>,
    before: Seq<S>,
    after: Seq<S>,
    my: Seq<real>,
    mx: Seq<real>,
    a: Seq<S>,
    ma: Seq<real>,
    w: Seq<S>,
    mw: Seq<real>,
    m: nat,
    n: nat,
    k: nat,
)
    requires
        exact(val),
        k > 0,
        dx.len() == m * k,
        before.len() == n * k,
        crate::matmul::is_linear_bwd(dx, dy, w, k, n),
        crate::matmul::is_matmul_tn(before, after, dy, a, n, k, m),
        moves_residual(val, my, mx, a, ma, w, mw, m, n, k),
    ensures
        pairing(val, dy, my, m * n) == pairing(val, dy, mx, m * n) + pairing(val, dx, ma, m * k)
            + pairing(val, after, mw, n * k) - pairing(val, before, mw, n * k),
{
    let out = choose|out: Seq<real>| #[trigger]
        moves_linear(val, out, a, ma, w, mw, m, n, k) && (forall|i: int|
            0 <= i < m * n ==> #[trigger] my[i] == mx[i] + out[i]);
    lemma_pairing_moves(val, dy, mx, out, my, m * n);
    law_linear_adjoint(val, dx, dy, before, after, out, a, ma, w, mw, m, n, k);
}

/// The chain rule through the perceptron of a layer.
proof fn lemma_mlp_derivative<S: Scalar>(
    val: spec_fn(S) -> real,
    s: Shape,
    w: LayerWeights<S>,
    mw: LayerWeights<real>,
    a: LayerValues<S>,
    ma: LayerValues<real>,
    f: LayerFlow<S>,
    before: LayerWeights<S>,
    after: LayerWeights<S>,
)
    requires
        exact(val),
        s.ok(),
        is_layer(s, w, a),
        flow_sized(s, f),
        is_mlp_bwd(s, w, a, f),
        is_layer_grads(s, a, f, before, after),
        layer_weights_sized(s, before),
        moves_mlp(val, s, w, mw, a, ma),
    ensures
        pairing(val, f.d_out, ma.x_out, s.rc() as nat) == pairing(
            val,
            f.d_mid,
            ma.x_mid,
            s.rc() as nat,
        ) + mlp_pairing(val, s, after, mw) - mlp_pairing(val, s, before, mw),
{
    let (rows, c, c4) = (s.rows as nat, s.c() as nat, (4 * s.c()) as nat);
    s.lemma_numbers();
    assert(s.rc() == rows * c && s.rc4() == rows * c4);
    lemma_residual(
        val,
        f.d_act,
        f.d_out,
        before.fc2,
        after.fc2,
        ma.x_out,
        ma.x_mid,
        a.h,
        ma.h,
        w.fc2,
        mw.fc2,
        rows,
        c,
        c4,
    );
    law_relu_adjoint(val, f.d_act, f.d_h, ma.h, a.hpre, ma.hpre, rows * c4);
    law_linear_adjoint(
        val,
        f.d_xn2,
        f.d_h,
        before.fc1,
        after.fc1,
        ma.hpre,
        a.xn2,
        ma.xn2,
        w.fc1,
        mw.fc1,
        rows,
        c4,
        c,
    );
    law_norm_adjoint(
        val,
        f.d_norm2,
        f.d_xn2,
        a.xn2,
        ma.xn2,
        ma.r2,
        a.x_mid,
        a.r2,
        ma.x_mid,
        rows,
        c,
    );
    lemma_pairing_added(val, f.d_norm2, f.d_mid, f.d_out, ma.x_mid, rows * c);
}

/// The chain rule through the attention of a layer.
proof fn lemma_attention_derivative<S: Scalar>(
    val: spec_fn(S) -> real,
    s: Shape,
    scale: real,
    w: LayerWeights<S>,
    mw: LayerWeights<real>,
    a: LayerValues<S>,
    ma: LayerValues<real>,
    f: LayerFlow<S>,
    before: LayerWeights<S>,
    after: LayerWeights<S>,
)
    requires
        exact(val),
        s.ok(),
        is_score_factor(s.heads_spec().d as nat, scale),
        is_layer(s, w, a),
        flow_sized(s, f),
        is_attention_bwd(s, w, a, f),
        is_layer_grads(s, a, f, before, after),
        layer_weights_sized(s, before),
        moves_attention(val, s, scale, w, mw, a, ma),
    ensures
        pairing(val, f.d_mid, ma.x_mid, s.rc() as nat) == pairing(
            val,
            f.d_in,
            ma.xin,
            s.rc() as nat,
        ) + attention_pairing(val, s, after, mw) - attention_pairing(val, s, before, mw),
{
    let (rows, c) = (s.rows as nat, s.c() as nat);
    let hs = s.heads_spec();
    s.lemma_numbers();
    assert(s.rc() == rows * c);
    assert(hs.positions() * hs.width() == rows * c);
    lemma_residual(
        val,
        f.d_atty,
        f.d_mid,
        before.wo,
        after.wo,
        ma.x_mid,
        ma.xin,
        a.atty,
        ma.atty,
        w.wo,
        mw.wo,
        rows,
        c,
        c,
    );
    law_attention_adjoint(
        val,
        hs,
        scale,
        f.d_atty,
        ma.atty,
        a.att,
        ma.att,
        a.q,
        ma.q,
        a.k,
        ma.k,
        a.v,
        ma.v,
        f.d_att,
        f.d_scores,
        f.d_q,
        f.d_k,
        f.d_v,
    );
    law_linear_adjoint(
        val,
        f.d_xq,
        f.d_q,
        before.wq,
        after.wq,
        ma.q,
        a.xn,
        ma.xn,
        w.wq,
        mw.wq,
        rows,
        c,
        c,
    );
    law_linear_adjoint_added(
        val,
        f.d_xq,
        f.d_xqk,
        f.d_k,
        before.wk,
        after.wk,
        ma.k,
        a.xn,
        ma.xn,
        w.wk,
        mw.wk,
        rows,
        c,
        c,
    );
    law_linear_adjoint_added(
        val,
        f.d_xqk,
        f.d_xn,
        f.d_v,
        before.wv,
        after.wv,
        ma.v,
        a.xn,
        ma.xn,
        w.wv,
        mw.wv,
        rows,
        c,
        c,
    );
    law_norm_adjoint(
        val,
        f.d_norm1,
        f.d_xn,
        a.xn,
        ma.xn,
        ma.r1,
        a.xin,
        a.r1,
        ma.xin,
        rows,
        c,
    );
    lemma_pairing_added(val, f.d_norm1, f.d_in, f.d_mid, ma.xin, rows * c);
}

/// The chain rule through a layer: the gradient of its output paired with the output's
/// motion equals that of its input paired with the input's motion plus what is added to the
/// gradients of its matrices, paired with theirs.
pub proof fn law_layer_derivative<S: Scalar>(
    val: spec_fn(S) -> real,
    s: Shape,
    scale: real,
    w: LayerWeights<S>,
    mw: LayerWeights<real>,
    a: LayerValues<S>,
    ma: LayerValues<real>,
    f: LayerFlow<S>,
    before: LayerWeights<S>,
    after: LayerWeights<S>,
)
    requires
        exact(val),
        s.ok(),
        is_score_factor(s.heads_spec().d as nat, scale),
        is_layer(s, w, a),
        is_layer_bwd(s, w, a, f, before, after),
        layer_weights_sized(s, before),
        moves_layer(val, s, scale, w, mw, a, ma),
    ensures
        pairing(val, f.d_out, ma.x_out, s.rc() as nat) == pairing(
            val,
            f.d_in,
            ma.xin,
            s.rc() as nat,
        ) + layer_pairing(val, s, after, mw) - layer_pairing(val, s, before, mw),
{
    reveal(is_layer_bwd);
    reveal(moves_layer);
    lemma_mlp_derivative(val, s, w, mw, a, ma, f, before, after);
    lemma_attention_derivative(val, s, scale, w, mw, a, ma, f, before, after);
}

/// The chain rule through the layers from `n` on, down from the last one.
proof fn lemma_layers_derivative<S: Scalar>(
    val: spec_fn(S) -> real,
    s: Shape,
    scale: real,
    w: Weights<S>,
    mw: Weights<real>,
    tokens: Seq<i32>,
    targets: Seq<i32>,
    valid: nat,
    a: Values<S>,
    ma: Values<real>,
    probs: Seq<S>,
    f: Flow<S>,
    before: Weights<S>,
    after: Weights<S>,
    n: nat,
)
    requires
        exact(val),
        s.ok(),
        is_score_factor(s.heads_spec().d as nat, scale),
        is_forward(s, w, tokens, a),
        is_backward(s, w, tokens, targets, valid, a, probs, f, before, after),
        weights_sized(s, before),
        moves_network(val, s, scale, w, mw, tokens, a, ma),
        0 < n <= s.cfg.n_layer,
    ensures
        pairing(val, f.layers[n - 1].d_out, ma.layers[n - 1].x_out, s.rc() as nat) == pairing(
            val,
            f.layers[0].d_in,
            ma.layers[0].xin,
            s.rc() as nat,
        ) + total_of(|li: int| layer_pairing(val, s, after.layers[li], mw.layers[li]), n)
            - total_of(|li: int| layer_pairing(val, s, before.layers[li], mw.layers[li]), n),
    decreases n,
{
    let last = n - 1;
    assert(is_layer(s, w.layers[last], a.layers[last]));
    assert(is_layer_bwd(
        s,
        w.layers[last],
        a.layers[last],
        f.layers[last],
        before.layers[last],
        after.layers[last],
    ));
    assert(layer_weights_sized(s, before.layers[last]));
    assert(moves_layer(
        val,
        s,
        scale,
        w.layers[last],
        mw.layers[last],
        a.layers[last],
        ma.layers[last],
    ));
    law_layer_derivative(
        val,
        s,
        scale,
        w.layers[last],
        mw.layers[last],
        a.layers[last],
        ma.layers[last],
        f.layers[last],
        before.layers[last],
        after.layers[last],
    );
    let (fa, fb) = (
        |li: int| layer_pairing(val, s, after.layers[li], mw.layers[li]),
        |li: int| layer_pairing(val, s, before.layers[li], mw.layers[li]),
    );
    assert(total_of(fa, n) == total_of(fa, (n - 1) as nat) + fa(last));
    assert(total_of(fb, n) == total_of(fb, (n - 1) as nat) + fb(last));
    if n > 1 {
        lemma_layers_derivative(
            val,
            s,
            scale,
            w,
            mw,
            tokens,
            targets,
            valid,
            a,
            ma,
            probs,
            f,
            before,
            after,
            (n - 1) as nat,
        );
        assert(f.layers[last - 1].d_out == f.layers[last - 1 + 1].d_in);
        assert(ma.layers[last].xin == ma.layers[last - 1].x_out);
    }
}

/// The backward pass computes the derivative of the mean loss, in exact arithmetic: for any
/// first-order motion of the weights, and the motion of activations, losses and mean that
/// follows from it by the rules of each operation, the mean loss moves by what the backward
/// pass adds to the gradients of the weights, paired with the motion of the weights.
pub proof fn law_backward_is_the_derivative_of_the_loss<S: Scalar>(
    val: spec_fn(S) -> real,
    s: Shape,
    scale: real,
    w: Weights<S>,
    mw: Weights<real>,
    tokens: Seq<i32>,
    targets: Seq<i32>,
    valid: nat,
    a: Values<S>,
    ma: Values<real>,
    losses: Seq<S>,
    probs_before: Seq<S>,
    probs: Seq<S>,
    mlosses: Seq<real>,
    mmean: real,
    f: Flow<S>,
    before: Weights<S>,
    after: Weights<S>,
)
    requires
        exact(val),
        s.ok(),
        run_tokens(s, tokens),
        forall|t: int| 0 <= t < s.rows ==> #[trigger] targets[t] < s.vocab,
        0 < valid <= s.rows,
        is_score_factor(s.heads_spec().d as nat, scale),
        is_forward(s, w, tokens, a),
        losses.len() == s.rows,
        probs_before.len() == s.rv(),
        is_ce(losses, probs_before, probs, a.logits, targets, s.vocab as nat),
        is_backward(s, w, tokens, targets, valid, a, probs, f, before, after),
        weights_sized(s, before),
        moves_network(val, s, scale, w, mw, tokens, a, ma),
        moves_mean_loss(
            val,
            mmean,
            mlosses,
            probs,
            ma.logits,
            targets,
            s.rows as nat,
            s.vocab as nat,
            valid,
        ),
    ensures
        mmean == weights_pairing(val, s, after, mw) - weights_pairing(val, s, before, mw),
{
    let (rows, c, v) = (s.rows as nat, s.c() as nat, s.vocab as nat);
    let n = s.cfg.n_layer as nat;
    let last = n - 1;
    s.lemma_numbers();
    assert(s.rc() == rows * c && s.rv() == rows * v);
    law_loss_adjoint(
        val,
        losses,
        probs_before,
        probs,
        a.logits,
        f.d_logits,
        targets,
        mmean,
        mlosses,
        ma.logits,
        rows,
        v,
        valid,
    );
    assert(f.layers[last].d_out.len() == s.rc()) by {
        reveal(is_layer_bwd);
        assert(is_layer_bwd(
            s,
            w.layers[last],
            a.layers[last],
            f.layers[last],
            before.layers[last],
            after.layers[last],
        ));
    }
    law_linear_adjoint(
        val,
        f.layers[last].d_out,
        f.d_logits,
        before.lm_head,
        after.lm_head,
        ma.logits,
        a.layers[last].x_out,
        ma.layers[last].x_out,
        w.lm_head,
        mw.lm_head,
        rows,
        v,
        c,
    );
    lemma_layers_derivative(
        val,
        s,
        scale,
        w,
        mw,
        tokens,
        targets,
        valid,
        a,
        ma,
        probs,
        f,
        before,
        after,
        n,
    );
    assert(ma.layers[0].xin == ma.x1);
    law_norm_adjoint(
        val,
        f.d_x0,
        f.layers[0].d_in,
        a.x1,
        ma.x1,
        ma.r0,
        a.x0,
        a.r0,
        ma.x0,
        rows,
        c,
    );
    law_embed_adjoint(
        val,
        f.d_x0,
        ma.x0,
        before.wte,
        after.wte,
        mw.wte,
        before.wpe,
        after.wpe,
        mw.wpe,
        tokens,
        s.t_len as nat,
        v,
        s.cfg.block_size as nat,
        c,
    );
}

} // verus!
