//! What the backward pass computes: the chain rule, unrolled through the network, and the
//! proof that the planned launches bring it about.
use vstd::prelude::*;

use crate::attention::{
    is_attn_mix, is_attn_mix_bwd_dp, is_attn_scores_bwd, is_attn_softmax_bwd, Side,
};
use crate::bank::{
    apart, effect, fits, inside, launched, lemma_read_apart, lens_of, overwrite, plan_fits, read,
    runs, Launch, Mem, Span,
};
use crate::embed::{is_embed_bwd_wpe, is_embed_bwd_wte};
use crate::layout::{layer_start, lemma_layers_fit, param_count};
use crate::loss::is_ce_bwd;
use crate::matmul::{is_linear_bwd, is_matmul_nn, is_matmul_tn, lemma_linear_bwd_overwrites};
use crate::network::{
    layer_values, layer_weights, lemma_run_step, lemma_runs_split, values_of, weights_of,
    LayerValues, LayerWeights, Values, Weights,
};
use crate::norm::{is_norm_bwd, lemma_norm_bwd_overwrites};
use crate::plan::{
    backward_plan, embed_backward_plan, head_backward_plan, layer_backward_plan,
    attention_backward_plan, layers_backward_plan, lemma_attention_backward_fits,
    lemma_layer_backward_fits, lemma_layer_spans, lemma_mlp_backward_fits, mlp_backward_plan,
    run_tokens,
};
use crate::pointwise::{is_add_inplace, is_relu_bwd};
use crate::scalar::Scalar;
use crate::shape::{
    bank_lens, buf_count, Shape, ACTS, D_ATT, D_ATTY, D_H, D_K, D_LOGITS, D_Q, D_SCORES, D_V, D_X,
    D_X0, D_X2, D_XIN, D_XN, D_XN2, GRADS, PARAMS, PROBS, R0, SHARED, X0, X1, X_OUT,
};

verus! {

/// The gradients that flow through one layer, from that of its output to that of its
/// input.
pub struct LayerFlow<S> {
    pub d_out: Seq<S>,
    pub d_act: Seq<S>,
    pub d_h: Seq<S>,
    pub d_xn2: Seq<S>,
    pub d_norm2: Seq<S>,
    pub d_mid: Seq<S>,
    pub d_atty: Seq<S>,
    pub d_att: Seq<S>,
    pub d_v: Seq<S>,
    pub d_scores: Seq<S>,
    pub d_q: Seq<S>,
    pub d_k: Seq<S>,
    pub d_xq: Seq<S>,
    pub d_xqk: Seq<S>,
    pub d_xn: Seq<S>,
    pub d_norm1: Seq<S>,
    pub d_in: Seq<S>,
}

/// The gradients of a layer have the sizes of the run.
pub open spec fn flow_sized<S>(s: Shape, f: LayerFlow<S>) -> bool {
    &&& f.d_out.len() == s.rc()
    &&& f.d_act.len() == s.rc4()
    &&& f.d_h.len() == s.rc4()
    &&& f.d_xn2.len() == s.rc()
    &&& f.d_norm2.len() == s.rc()
    &&& f.d_mid.len() == s.rc()
    &&& f.d_atty.len() == s.rc()
    &&& f.d_att.len() == s.att()
    &&& f.d_v.len() == s.rc()
    &&& f.d_scores.len() == s.att()
    &&& f.d_q.len() == s.rc()
    &&& f.d_k.len() == s.rc()
    &&& f.d_xq.len() == s.rc()
    &&& f.d_xqk.len() == s.rc()
    &&& f.d_xn.len() == s.rc()
    &&& f.d_norm1.len() == s.rc()
    &&& f.d_in.len() == s.rc()
}

/// The chain rule through the perceptron of a layer:
/// `x_out = x_mid + relu(rmsnorm(x_mid) @ fc1^T) @ fc2^T`.
pub open spec fn is_mlp_bwd<S: Scalar>(
    s: Shape,
    w: LayerWeights<S>,
    a: LayerValues<S>,
    f: LayerFlow<S>,
) -> bool {
    let c = s.c() as nat;
    let c4 = (4 * s.c()) as nat;
    &&& is_linear_bwd(f.d_act, f.d_out, w.fc2, c4, c)
    &&& is_relu_bwd(f.d_act, f.d_h, a.hpre)
    &&& is_linear_bwd(f.d_xn2, f.d_h, w.fc1, c, c4)
    &&& is_norm_bwd(f.d_norm2, a.x_mid, a.r2, f.d_xn2, c)
    &&& is_add_inplace(f.d_norm2, f.d_mid, f.d_out)
}

/// The chain rule through the attention of a layer:
/// `x_mid = x_in + (softmax(q @ k^T / sqrt(d)) @ v) @ wo^T`, where queries, keys and values
/// are products of `rmsnorm(x_in)`.
pub open spec fn is_attention_bwd<S: Scalar>(
    s: Shape,
    w: LayerWeights<S>,
    a: LayerValues<S>,
    f: LayerFlow<S>,
) -> bool {
    let c = s.c() as nat;
    let hs = s.heads_spec();
    &&& is_linear_bwd(f.d_atty, f.d_mid, w.wo, c, c)
    &&& is_attn_mix_bwd_dp(hs, f.d_att, f.d_atty, a.v)
    &&& is_attn_mix(hs, Side::Future, f.d_v, a.att, f.d_atty)
    &&& is_attn_softmax_bwd(f.d_scores, a.att, f.d_att, s.t_len as nat)
    &&& is_attn_scores_bwd(hs, Side::Past, f.d_q, f.d_scores, a.k)
    &&& is_attn_scores_bwd(hs, Side::Future, f.d_k, f.d_scores, a.q)
    &&& is_linear_bwd(f.d_xq, f.d_q, w.wq, c, c)
    &&& is_matmul_nn(f.d_xq, f.d_xqk, f.d_k, w.wk, c, c, true)
    &&& is_matmul_nn(f.d_xqk, f.d_xn, f.d_v, w.wv, c, c, true)
    &&& is_norm_bwd(f.d_norm1, a.xin, a.r1, f.d_xn, c)
    &&& is_add_inplace(f.d_norm1, f.d_in, f.d_mid)
}

/// The gradients of the matrices of a layer are added to what was there.
pub open spec fn is_layer_grads<S: Scalar>(
    s: Shape,
    a: LayerValues<S>,
    f: LayerFlow<S>,
    before: LayerWeights<S>,
    after: LayerWeights<S>,
) -> bool {
    let c = s.c() as nat;
    let c4 = (4 * s.c()) as nat;
    let rows = s.rows as nat;
    &&& is_matmul_tn(before.fc2, after.fc2, f.d_out, a.h, c, c4, rows)
    &&& is_matmul_tn(before.fc1, after.fc1, f.d_h, a.xn2, c4, c, rows)
    &&& is_matmul_tn(before.wo, after.wo, f.d_mid, a.atty, c, c, rows)
    &&& is_matmul_tn(before.wq, after.wq, f.d_q, a.xn, c, c, rows)
    &&& is_matmul_tn(before.wk, after.wk, f.d_k, a.xn, c, c, rows)
    &&& is_matmul_tn(before.wv, after.wv, f.d_v, a.xn, c, c, rows)
}

/// The chain rule through a layer.
#[verifier::opaque]
pub open spec fn is_layer_bwd<S: Scalar>(
    s: Shape,
    w: LayerWeights<S>,
    a: LayerValues<S>,
    f: LayerFlow<S>,
    before: LayerWeights<S>,
    after: LayerWeights<S>,
) -> bool {
    &&& flow_sized(s, f)
    &&& is_mlp_bwd(s, w, a, f)
    &&& is_attention_bwd(s, w, a, f)
    &&& is_layer_grads(s, a, f, before, after)
}

/// Whether the launch leaves the span `z` as it is.
pub open spec fn leaves(l: Launch, z: Span) -> bool {
    match l {
        Launch::EmbedFwd { x, .. } => apart(x, z),
        Launch::EmbedBwdWte { dwte, .. } => apart(dwte, z),
        Launch::EmbedBwdWpe { dwpe, .. } => apart(dwpe, z),
        Launch::RmsnormFwd { y, rinv, .. } => apart(y, z) && apart(rinv, z),
        Launch::RmsnormBwd { dx, .. } => apart(dx, z),
        Launch::MatmulNt { y, .. } => apart(y, z),
        Launch::MatmulNn { y, .. } => apart(y, z),
        Launch::MatmulTn { dw, .. } => apart(dw, z),
        Launch::AttnSoftmaxFwd { att, .. } => apart(att, z),
        Launch::AttnSoftmaxBwd { ds, .. } => apart(ds, z),
        Launch::AttnScoresBwdDq { dq, .. } => apart(dq, z),
        Launch::AttnScoresBwdDk { dk, .. } => apart(dk, z),
        Launch::AttnMixFwd { y, .. } => apart(y, z),
        Launch::AttnMixBwdDp { dp, .. } => apart(dp, z),
        Launch::AttnMixBwdDv { dv, .. } => apart(dv, z),
        Launch::ReluFwd { y, .. } => apart(y, z),
        Launch::ReluBwdInplace { d, .. } => apart(d, z),
        Launch::AddFwd { y, .. } => apart(y, z),
        Launch::AddInplace { y, .. } => apart(y, z),
        Launch::CeFwd { losses, probs, .. } => apart(losses, z) && apart(probs, z),
        Launch::CeBwd { dlogits, .. } => apart(dlogits, z),
        Launch::Swap { first, second } => z.buf != first && z.buf != second,
    }
}

/// A write elsewhere leaves a span as it is.
proof fn lemma_changed_apart<S>(before: Mem<S>, after: Mem<S>, y: Span, z: Span)
    requires
        inside(lens_of(before), y),
        inside(lens_of(before), z),
        lens_of(after) == lens_of(before),
        after == overwrite(before, y, read(after, y)),
        apart(y, z),
    ensures
        read(after, z) == read(before, z),
{
    assert(lens_of(after)[y.buf as int] == after[y.buf as int].len());
    assert(lens_of(before)[y.buf as int] == before[y.buf as int].len());
    lemma_read_apart(before, y, read(after, y), z);
}

/// A launch leaves as they are the spans that [`leaves`] says it leaves.
#[verifier::rlimit(60)]
#[verifier::spinoff_prover]
pub proof fn lemma_launch_leaves<S: Scalar>(
    l: Launch,
    tokens: Seq<i32>,
    targets: Seq<i32>,
    before: Mem<S>,
    after: Mem<S>,
    z: Span,
)
    requires
        fits(l, lens_of(before), tokens, targets),
        effect(l, tokens, targets, before, after),
        inside(lens_of(before), z),
        leaves(l, z),
    ensures
        read(after, z) == read(before, z),
{
    crate::network::lemma_launch_frame(l, tokens, targets, before, after);
    reveal(launched);
    reveal(fits);
    match l {
        Launch::EmbedFwd { x: y, .. }
        | Launch::EmbedBwdWte { dwte: y, .. }
        | Launch::EmbedBwdWpe { dwpe: y, .. }
        | Launch::RmsnormBwd { dx: y, .. }
        | Launch::MatmulNt { y, .. }
        | Launch::MatmulNn { y, .. }
        | Launch::MatmulTn { dw: y, .. }
        | Launch::AttnSoftmaxFwd { att: y, .. }
        | Launch::AttnSoftmaxBwd { ds: y, .. }
        | Launch::AttnScoresBwdDq { dq: y, .. }
        | Launch::AttnScoresBwdDk { dk: y, .. }
        | Launch::AttnMixFwd { y, .. }
        | Launch::AttnMixBwdDp { dp: y, .. }
        | Launch::AttnMixBwdDv { dv: y, .. }
        | Launch::ReluFwd { y, .. }
        | Launch::ReluBwdInplace { d: y, .. }
        | Launch::AddFwd { y, .. }
        | Launch::AddInplace { y, .. }
        | Launch::CeBwd { dlogits: y, .. } => {
            lemma_changed_apart(before, after, y, z);
        },
        Launch::RmsnormFwd { y, rinv, .. } => {
            lemma_two_changed_apart(before, after, rinv, y, z);
        },
        Launch::CeFwd { losses, probs, .. } => {
            lemma_two_changed_apart(before, after, probs, losses, z);
        },
        Launch::Swap { .. } => {},
    }
}

/// The same for two writes.
proof fn lemma_two_changed_apart<S>(before: Mem<S>, after: Mem<S>, x: Span, y: Span, z: Span)
    requires
        inside(lens_of(before), x),
        inside(lens_of(before), y),
        inside(lens_of(before), z),
        lens_of(after) == lens_of(before),
        after == overwrite(overwrite(before, x, read(after, x)), y, read(after, y)),
        x.buf != y.buf,
        apart(x, z),
        apart(y, z),
    ensures
        read(after, z) == read(before, z),
{
    assert(lens_of(after)[x.buf as int] == after[x.buf as int].len());
    assert(lens_of(before)[x.buf as int] == before[x.buf as int].len());
    assert(lens_of(after)[y.buf as int] == after[y.buf as int].len());
    assert(lens_of(before)[y.buf as int] == before[y.buf as int].len());
    let mid = overwrite(before, x, read(after, x));
    crate::bank::lemma_read_written(before, x, read(after, x));
    lemma_read_apart(before, x, read(after, x), z);
    lemma_read_apart(mid, y, read(after, y), z);
}

/// Launches `i` up to `j` leave the span `z` as it is.
pub open spec fn plan_leaves(plan: Seq<Launch>, i: int, j: int, z: Span) -> bool {
    forall|k: int| i <= k < j ==> leaves(#[trigger] plan[k], z)
}

/// A plan leaves as they are the spans that all its launches leave.
pub proof fn lemma_runs_leave<S: Scalar>(
    plan: Seq<Launch>,
    tokens: Seq<i32>,
    targets: Seq<i32>,
    tr: Seq<Mem<S>>,
    lens: Seq<nat>,
    i: int,
    j: int,
    z: Span,
)
    requires
        runs(plan, tokens, targets, tr),
        lens_of(tr[0]) == lens,
        plan_fits(plan, lens, tokens, targets),
        0 <= i <= j <= plan.len(),
        inside(lens, z),
        plan_leaves(plan, i, j, z),
    ensures
        read(tr[j], z) == read(tr[i], z),
    decreases j - i,
{
    if i < j {
        lemma_runs_leave(plan, tokens, targets, tr, lens, i, j - 1, z);
        lemma_run_step(plan, tokens, targets, tr, lens, j - 1);
        assert(fits(plan[j - 1], lens, tokens, targets));
        lemma_launch_leaves(plan[j - 1], tokens, targets, tr[j - 1], tr[j], z);
    }
}

/// The gradients that a run of the backward pass of a layer goes through.
pub open spec fn layer_flow<S>(s: Shape, mlp: Seq<Mem<S>>, attention: Seq<Mem<S>>) -> LayerFlow<
    S,
> {
    let rc = s.rc();
    LayerFlow {
        d_out: read(mlp[0], s.shared(D_X as int, rc)),
        d_act: read(mlp[2], s.shared(D_H as int, s.rc4())),
        d_h: read(mlp[3], s.shared(D_H as int, s.rc4())),
        d_xn2: read(mlp[5], s.shared(D_XN2 as int, rc)),
        d_norm2: read(mlp[6], s.shared(D_X2 as int, rc)),
        d_mid: read(mlp[7], s.shared(D_X2 as int, rc)),
        d_atty: read(attention[2], s.shared(D_ATTY as int, rc)),
        d_att: read(attention[3], s.shared(D_ATT as int, s.att())),
        d_v: read(attention[4], s.shared(D_V as int, rc)),
        d_scores: read(attention[5], s.shared(D_SCORES as int, s.att())),
        d_q: read(attention[6], s.shared(D_Q as int, rc)),
        d_k: read(attention[7], s.shared(D_K as int, rc)),
        d_xq: read(attention[11], s.shared(D_XN as int, rc)),
        d_xqk: read(attention[12], s.shared(D_XN as int, rc)),
        d_xn: read(attention[13], s.shared(D_XN as int, rc)),
        d_norm1: read(attention[14], s.shared(D_XIN as int, rc)),
        d_in: read(attention[15], s.shared(D_XIN as int, rc)),
    }
}

/// Whether the backward pass of the layers may write to buffer `b`.
pub open spec fn of_flow(b: int) -> bool {
    b == GRADS || D_X <= b <= D_XN
}

/// The backward pass of a perceptron follows the chain rule.
#[verifier::spinoff_prover]
proof fn lemma_mlp_flow<S: Scalar>(
    s: Shape,
    li: int,
    tokens: Seq<i32>,
    targets: Seq<i32>,
    tr: Seq<Mem<S>>,
    attention: Seq<Mem<S>>,
)
    requires
        s.ok(),
        0 <= li < s.cfg.n_layer,
        lens_of(tr[0]) == bank_lens(s.cfg, s.vocab as int),
        runs(mlp_backward_plan(s, li), tokens, targets, tr),
    ensures
        lens_of(tr[7]) == lens_of(tr[0]),
        is_mlp_bwd(
            s,
            layer_weights(s, tr[0], PARAMS as int, li),
            layer_values(s, tr[0], li),
            layer_flow(s, tr, attention),
        ),
        forall|b: int|
            0 <= b < buf_count(s.cfg) && !of_flow(b) ==> #[trigger] tr[7][b] == tr[0][b],
        layer_flow(s, tr, attention).d_out.len() == s.rc(),
        layer_flow(s, tr, attention).d_act.len() == s.rc4(),
        layer_flow(s, tr, attention).d_h.len() == s.rc4(),
        layer_flow(s, tr, attention).d_xn2.len() == s.rc(),
        layer_flow(s, tr, attention).d_norm2.len() == s.rc(),
        layer_flow(s, tr, attention).d_mid.len() == s.rc(),
        is_matmul_tn(
            read(tr[0], s.fc2(GRADS as int, li)),
            read(tr[1], s.fc2(GRADS as int, li)),
            layer_flow(s, tr, attention).d_out,
            layer_values(s, tr[0], li).h,
            s.c() as nat,
            (4 * s.c()) as nat,
            s.rows as nat,
        ),
        is_matmul_tn(
            read(tr[3], s.fc1(GRADS as int, li)),
            read(tr[4], s.fc1(GRADS as int, li)),
            layer_flow(s, tr, attention).d_h,
            layer_values(s, tr[0], li).xn2,
            (4 * s.c()) as nat,
            s.c() as nat,
            s.rows as nat,
        ),
{
    reveal(launched);
    reveal(fits);
    let plan = mlp_backward_plan(s, li);
    let lens = bank_lens(s.cfg, s.vocab as int);
    lemma_mlp_backward_fits(s, li, tokens, targets);
    s.lemma_numbers();
    s.lemma_weights(li);
    lemma_layer_spans(s, li);
    assert(buf_count(s.cfg) == lens.len());
    lemma_run_step(plan, tokens, targets, tr, lens, 0);
    lemma_run_step(plan, tokens, targets, tr, lens, 1);
    lemma_run_step(plan, tokens, targets, tr, lens, 2);
    lemma_run_step(plan, tokens, targets, tr, lens, 3);
    lemma_run_step(plan, tokens, targets, tr, lens, 4);
    lemma_run_step(plan, tokens, targets, tr, lens, 5);
    lemma_run_step(plan, tokens, targets, tr, lens, 6);
    let (c, c4) = (s.c() as nat, (4 * s.c()) as nat);
    let w = layer_weights(s, tr[0], PARAMS as int, li);
    let a = layer_values(s, tr[0], li);
    let f = layer_flow(s, tr, attention);
    let d_h = s.shared(D_H as int, s.rc4());
    lemma_linear_bwd_overwrites(read(tr[1], d_h), f.d_act, f.d_out, w.fc2, c4, c);
    assert(is_relu_bwd(f.d_act, f.d_h, a.hpre));
    let d_xn2 = s.shared(D_XN2 as int, s.rc());
    lemma_linear_bwd_overwrites(read(tr[4], d_xn2), f.d_xn2, f.d_h, w.fc1, c, c4);
    let d_x2 = s.shared(D_X2 as int, s.rc());
    lemma_norm_bwd_overwrites(read(tr[5], d_x2), f.d_norm2, a.x_mid, a.r2, f.d_xn2, c);
    assert(is_add_inplace(f.d_norm2, f.d_mid, f.d_out));
}

/// The backward pass of attention follows the chain rule.
#[verifier::rlimit(60)]
#[verifier::spinoff_prover]
proof fn lemma_attention_flow<S: Scalar>(
    s: Shape,
    li: int,
    tokens: Seq<i32>,
    targets: Seq<i32>,
    mlp: Seq<Mem<S>>,
    tr: Seq<Mem<S>>,
)
    requires
        s.ok(),
        0 <= li < s.cfg.n_layer,
        lens_of(tr[0]) == bank_lens(s.cfg, s.vocab as int),
        runs(attention_backward_plan(s, li), tokens, targets, tr),
        mlp[7] == tr[0],
    ensures
        lens_of(tr[16]) == lens_of(tr[0]),
        is_attention_bwd(
            s,
            layer_weights(s, tr[0], PARAMS as int, li),
            layer_values(s, tr[0], li),
            layer_flow(s, mlp, tr),
        ),
        forall|b: int|
            0 <= b < buf_count(s.cfg) && !of_flow(b) ==> #[trigger] tr[16][b] == tr[0][b],
        read(tr[16], s.shared(D_X as int, s.rc())) == layer_flow(s, mlp, tr).d_in,
        layer_flow(s, mlp, tr).d_mid.len() == s.rc(),
        layer_flow(s, mlp, tr).d_atty.len() == s.rc(),
        layer_flow(s, mlp, tr).d_att.len() == s.att(),
        layer_flow(s, mlp, tr).d_v.len() == s.rc(),
        layer_flow(s, mlp, tr).d_scores.len() == s.att(),
        layer_flow(s, mlp, tr).d_q.len() == s.rc(),
        layer_flow(s, mlp, tr).d_k.len() == s.rc(),
        layer_flow(s, mlp, tr).d_xq.len() == s.rc(),
        layer_flow(s, mlp, tr).d_xqk.len() == s.rc(),
        layer_flow(s, mlp, tr).d_xn.len() == s.rc(),
        layer_flow(s, mlp, tr).d_norm1.len() == s.rc(),
        layer_flow(s, mlp, tr).d_in.len() == s.rc(),
        is_matmul_tn(
            read(tr[0], s.wo(GRADS as int, li)),
            read(tr[1], s.wo(GRADS as int, li)),
            layer_flow(s, mlp, tr).d_mid,
            layer_values(s, tr[0], li).atty,
            s.c() as nat,
            s.c() as nat,
            s.rows as nat,
        ),
        is_matmul_tn(
            read(tr[7], s.wq(GRADS as int, li)),
            read(tr[8], s.wq(GRADS as int, li)),
            layer_flow(s, mlp, tr).d_q,
            layer_values(s, tr[0], li).xn,
            s.c() as nat,
            s.c() as nat,
            s.rows as nat,
        ),
        is_matmul_tn(
            read(tr[8], s.wk(GRADS as int, li)),
            read(tr[9], s.wk(GRADS as int, li)),
            layer_flow(s, mlp, tr).d_k,
            layer_values(s, tr[0], li).xn,
            s.c() as nat,
            s.c() as nat,
            s.rows as nat,
        ),
        is_matmul_tn(
            read(tr[9], s.wv(GRADS as int, li)),
            read(tr[10], s.wv(GRADS as int, li)),
            layer_flow(s, mlp, tr).d_v,
            layer_values(s, tr[0], li).xn,
            s.c() as nat,
            s.c() as nat,
            s.rows as nat,
        ),
{
    reveal(launched);
    reveal(fits);
    let plan = attention_backward_plan(s, li);
    let lens = bank_lens(s.cfg, s.vocab as int);
    lemma_attention_backward_fits(s, li, tokens, targets);
    s.lemma_numbers();
    s.lemma_weights(li);
    lemma_layer_spans(s, li);
    assert(buf_count(s.cfg) == lens.len());
    lemma_run_step(plan, tokens, targets, tr, lens, 0);
    lemma_run_step(plan, tokens, targets, tr, lens, 1);
    lemma_run_step(plan, tokens, targets, tr, lens, 2);
    lemma_run_step(plan, tokens, targets, tr, lens, 3);
    lemma_run_step(plan, tokens, targets, tr, lens, 4);
    lemma_run_step(plan, tokens, targets, tr, lens, 5);
    lemma_run_step(plan, tokens, targets, tr, lens, 6);
    lemma_run_step(plan, tokens, targets, tr, lens, 7);
    lemma_run_step(plan, tokens, targets, tr, lens, 8);
    lemma_run_step(plan, tokens, targets, tr, lens, 9);
    lemma_run_step(plan, tokens, targets, tr, lens, 10);
    lemma_run_step(plan, tokens, targets, tr, lens, 11);
    lemma_run_step(plan, tokens, targets, tr, lens, 12);
    lemma_run_step(plan, tokens, targets, tr, lens, 13);
    lemma_run_step(plan, tokens, targets, tr, lens, 14);
    lemma_run_step(plan, tokens, targets, tr, lens, 15);
    let c = s.c() as nat;
    let w = layer_weights(s, tr[0], PARAMS as int, li);
    let a = layer_values(s, tr[0], li);
    let f = layer_flow(s, mlp, tr);
    let d_atty = s.shared(D_ATTY as int, s.rc());
    lemma_linear_bwd_overwrites(read(tr[1], d_atty), f.d_atty, f.d_mid, w.wo, c, c);
    assert(is_attn_mix_bwd_dp(s.heads_spec(), f.d_att, f.d_atty, a.v));
    assert(is_attn_mix(s.heads_spec(), Side::Future, f.d_v, a.att, f.d_atty));
    assert(is_attn_softmax_bwd(f.d_scores, a.att, f.d_att, s.t_len as nat));
    assert(is_attn_scores_bwd(s.heads_spec(), Side::Past, f.d_q, f.d_scores, a.k));
    assert(is_attn_scores_bwd(s.heads_spec(), Side::Future, f.d_k, f.d_scores, a.q));
    let d_xn = s.shared(D_XN as int, s.rc());
    lemma_linear_bwd_overwrites(read(tr[10], d_xn), f.d_xq, f.d_q, w.wq, c, c);
    assert(is_matmul_nn(f.d_xq, f.d_xqk, f.d_k, w.wk, c, c, true));
    assert(is_matmul_nn(f.d_xqk, f.d_xn, f.d_v, w.wv, c, c, true));
    let d_xin = s.shared(D_XIN as int, s.rc());
    lemma_norm_bwd_overwrites(read(tr[13], d_xin), f.d_norm1, a.xin, a.r1, f.d_xn, c);
    assert(is_add_inplace(f.d_norm1, f.d_in, f.d_mid));
}

/// The part of the gradients that launch `k` of the backward pass of layer `li` writes to,
/// if any: an empty span otherwise.
pub open spec fn grad_target(s: Shape, li: int, k: int) -> Span {
    let g = GRADS as int;
    if k == 0 {
        s.fc2(g, li)
    } else if k == 3 {
        s.fc1(g, li)
    } else if k == 7 {
        s.wo(g, li)
    } else if k == 14 {
        s.wq(g, li)
    } else if k == 15 {
        s.wk(g, li)
    } else if k == 16 {
        s.wv(g, li)
    } else {
        Span { buf: PARAMS, start: 0, len: 0 }
    }
}

/// A launch of the backward pass of a layer leaves alone the gradients that stand apart
/// from its target.
proof fn lemma_layer_leaves(s: Shape, li: int, k: int, z: Span)
    requires
        s.ok(),
        0 <= li < s.cfg.n_layer,
        0 <= k < 23,
        z.buf == GRADS,
        apart(grad_target(s, li, k), z),
    ensures
        leaves(layer_backward_plan(s, li)[k], z),
{
    let first = mlp_backward_plan(s, li);
    let second = attention_backward_plan(s, li);
    if k < 7 {
        assert(layer_backward_plan(s, li)[k] == first[k]);
    } else {
        assert(layer_backward_plan(s, li)[k] == second[k - 7]);
    }
}

/// The backward pass of a layer keeps the gradients that stand apart from its targets, from
/// launch `i` up to launch `j`.
proof fn lemma_grads_kept<S: Scalar>(
    s: Shape,
    li: int,
    tokens: Seq<i32>,
    targets: Seq<i32>,
    tr: Seq<Mem<S>>,
    i: int,
    j: int,
    z: Span,
)
    requires
        s.ok(),
        0 <= li < s.cfg.n_layer,
        lens_of(tr[0]) == bank_lens(s.cfg, s.vocab as int),
        runs(layer_backward_plan(s, li), tokens, targets, tr),
        0 <= i <= j <= 23,
        z.buf == GRADS,
        inside(bank_lens(s.cfg, s.vocab as int), z),
        forall|k: int| i <= k < j ==> apart(#[trigger] grad_target(s, li, k), z),
    ensures
        read(tr[j], z) == read(tr[i], z),
{
    let plan = layer_backward_plan(s, li);
    lemma_layer_backward_fits(s, li, tokens, targets);
    assert forall|k: int| i <= k < j implies leaves(#[trigger] plan[k], z) by {
        assert(apart(grad_target(s, li, k), z));
        lemma_layer_leaves(s, li, k, z);
    }
    lemma_runs_leave(plan, tokens, targets, tr, bank_lens(s.cfg, s.vocab as int), i, j, z);
}

/// The backward pass of a layer follows the chain rule, adds its gradients to those of its
/// matrices, and changes nothing else but the buffers of the flow.
proof fn lemma_layer_backward<S: Scalar>(
    s: Shape,
    li: int,
    tokens: Seq<i32>,
    targets: Seq<i32>,
    tr: Seq<Mem<S>>,
)
    requires
        s.ok(),
        0 <= li < s.cfg.n_layer,
        lens_of(tr[0]) == bank_lens(s.cfg, s.vocab as int),
        runs(layer_backward_plan(s, li), tokens, targets, tr),
    ensures
        tr.len() == 24,
        lens_of(tr[23]) == lens_of(tr[0]),
        is_layer_bwd(
            s,
            layer_weights(s, tr[0], PARAMS as int, li),
            layer_values(s, tr[0], li),
            layer_flow(s, tr.take(8), tr.skip(7)),
            layer_weights(s, tr[0], GRADS as int, li),
            layer_weights(s, tr[23], GRADS as int, li),
        ),
        layer_flow(s, tr.take(8), tr.skip(7)).d_out == read(tr[0], s.shared(D_X as int, s.rc())),
        layer_flow(s, tr.take(8), tr.skip(7)).d_in == read(tr[23], s.shared(D_X as int, s.rc())),
        forall|b: int|
            0 <= b < buf_count(s.cfg) && !of_flow(b) ==> #[trigger] tr[23][b] == tr[0][b],
        forall|z: Span|
            z.buf == GRADS && inside(bank_lens(s.cfg, s.vocab as int), z) && apart(
                s.weight(GRADS as int, li, 0, 12),
                z,
            ) ==> #[trigger] read(tr[23], z) == read(tr[0], z),
{
    let first = mlp_backward_plan(s, li);
    let second = attention_backward_plan(s, li);
    let g = GRADS as int;
    lemma_runs_split(first, second, tokens, targets, tr);
    let (mlp, attention) = (tr.take(8), tr.skip(7));
    assert(first.len() == 7 && second.len() == 16);
    assert(attention[0] == mlp[7]);
    lemma_mlp_flow(s, li, tokens, targets, mlp, attention);
    lemma_attention_flow(s, li, tokens, targets, mlp, attention);
    s.lemma_weights(li);
    lemma_kept_for_layer(s, li, mlp[0], mlp[7]);
    reveal(is_layer_bwd);
    lemma_grads_kept(s, li, tokens, targets, tr, 1, 23, s.fc2(g, li));
    lemma_grads_kept(s, li, tokens, targets, tr, 0, 3, s.fc1(g, li));
    lemma_grads_kept(s, li, tokens, targets, tr, 4, 23, s.fc1(g, li));
    lemma_grads_kept(s, li, tokens, targets, tr, 0, 7, s.wo(g, li));
    lemma_grads_kept(s, li, tokens, targets, tr, 8, 23, s.wo(g, li));
    lemma_grads_kept(s, li, tokens, targets, tr, 0, 14, s.wq(g, li));
    lemma_grads_kept(s, li, tokens, targets, tr, 15, 23, s.wq(g, li));
    lemma_grads_kept(s, li, tokens, targets, tr, 0, 15, s.wk(g, li));
    lemma_grads_kept(s, li, tokens, targets, tr, 16, 23, s.wk(g, li));
    lemma_grads_kept(s, li, tokens, targets, tr, 0, 16, s.wv(g, li));
    lemma_grads_kept(s, li, tokens, targets, tr, 17, 23, s.wv(g, li));
    assert forall|z: Span|
        z.buf == GRADS && inside(bank_lens(s.cfg, s.vocab as int), z) && apart(
            s.weight(g, li, 0, 12),
            z,
        ) implies #[trigger] read(tr[23], z) == read(tr[0], z) by {
        lemma_grads_kept(s, li, tokens, targets, tr, 0, 23, z);
    }
}

/// What a layer reads in its backward pass is not changed by it.
proof fn lemma_kept_for_layer<S>(s: Shape, li: int, m1: Mem<S>, m2: Mem<S>)
    requires
        s.ok(),
        0 <= li < s.cfg.n_layer,
        forall|b: int|
            0 <= b < buf_count(s.cfg) && !of_flow(b) ==> #[trigger] m2[b] == m1[b],
    ensures
        layer_weights(s, m2, PARAMS as int, li) == layer_weights(s, m1, PARAMS as int, li),
        layer_values(s, m2, li) == layer_values(s, m1, li),
{
    assert(m2[PARAMS as int] == m1[PARAMS as int]);
    assert forall|k: int| 0 <= k < ACTS implies m2[SHARED + li * ACTS + k] == #[trigger] m1[SHARED
        + li * ACTS + k] by {
        assert(!of_flow(SHARED + li * ACTS + k));
    }
}

/// The gradients that a run of the backward pass of the last `n` layers goes through, the
/// last layer first.
pub open spec fn flows_of<S>(s: Shape, n: nat, tr: Seq<Mem<S>>) -> Seq<LayerFlow<S>>
    decreases n,
{
    if n == 0 {
        Seq::empty()
    } else {
        let before = 23 * (n - 1);
        let own = tr.skip(before);
        flows_of(s, (n - 1) as nat, tr.take(before + 1)).push(
            layer_flow(s, own.take(8), own.skip(7)),
        )
    }
}

/// The backward pass of a layer takes 23 launches.
pub proof fn lemma_backward_len(s: Shape, n: nat)
    ensures
        layers_backward_plan(s, n).len() == 23 * n,
    decreases n,
{
    if n > 0 {
        lemma_backward_len(s, (n - 1) as nat);
    }
}

/// The matrices of a layer stand in its part of the buffer.
proof fn lemma_layer_region(s: Shape, li: int)
    requires
        s.ok(),
        0 <= li < s.cfg.n_layer,
    ensures
        layer_start(s.cfg, s.vocab as int, li + 1) == layer_start(s.cfg, s.vocab as int, li) + 12
            * (s.cfg.n_embd * s.cfg.n_embd),
        layer_start(s.cfg, s.vocab as int, li + 1) <= param_count(s.cfg, s.vocab as int),
        0 <= layer_start(s.cfg, s.vocab as int, li),
        0 <= s.cfg.n_embd * s.cfg.n_embd,
{
    s.lemma_weights(li);
    lemma_layers_fit(s.cfg, s.vocab as int, li);
    lemma_layers_fit(s.cfg, s.vocab as int, li + 1);
}

/// Gradients of layers from `from` on are the same in two banks that agree from there on.
proof fn lemma_same_grads<S>(s: Shape, li: int, m1: Mem<S>, m2: Mem<S>)
    requires
        s.ok(),
        0 <= li < s.cfg.n_layer,
        forall|z: Span|
            z.buf == GRADS && layer_start(s.cfg, s.vocab as int, li) <= z.start && z.start + z.len
                <= layer_start(s.cfg, s.vocab as int, li + 1) ==> #[trigger] read(m2, z) == read(
                m1,
                z,
            ),
    ensures
        layer_weights(s, m2, GRADS as int, li) == layer_weights(s, m1, GRADS as int, li),
{
    lemma_layer_region(s, li);
    let g = GRADS as int;
    assert(read(m2, s.wq(g, li)) == read(m1, s.wq(g, li)));
    assert(read(m2, s.wk(g, li)) == read(m1, s.wk(g, li)));
    assert(read(m2, s.wv(g, li)) == read(m1, s.wv(g, li)));
    assert(read(m2, s.wo(g, li)) == read(m1, s.wo(g, li)));
    assert(read(m2, s.fc1(g, li)) == read(m1, s.fc1(g, li)));
    assert(read(m2, s.fc2(g, li)) == read(m1, s.fc2(g, li)));
}

/// The chain rule through the last `n` layers, the last one first.
#[verifier::opaque]
pub open spec fn is_layers_bwd<S: Scalar>(
    s: Shape,
    n: nat,
    m0: Mem<S>,
    m1: Mem<S>,
    flows: Seq<LayerFlow<S>>,
) -> bool {
    let d_x = s.shared(D_X as int, s.rc());
    &&& flows.len() == n
    &&& forall|i: int|
        0 <= i < n ==> is_layer_bwd(
            s,
            layer_weights(s, m0, PARAMS as int, s.cfg.n_layer - 1 - i),
            layer_values(s, m0, s.cfg.n_layer - 1 - i),
            #[trigger] flows[i],
            layer_weights(s, m0, GRADS as int, s.cfg.n_layer - 1 - i),
            layer_weights(s, m1, GRADS as int, s.cfg.n_layer - 1 - i),
        )
    &&& forall|i: int|
        0 <= i < n ==> (#[trigger] flows[i]).d_out == if i == 0 {
            read(m0, d_x)
        } else {
            flows[i - 1].d_in
        }
    &&& read(m1, d_x) == if n == 0 {
        read(m0, d_x)
    } else {
        flows[n - 1].d_in
    }
}

/// The backward pass of the last `n` layers follows the chain rule.
#[verifier::rlimit(60)]
#[verifier::spinoff_prover]
proof fn lemma_layers_backward<S: Scalar>(
    s: Shape,
    n: nat,
    tokens: Seq<i32>,
    targets: Seq<i32>,
    tr: Seq<Mem<S>>,
)
    requires
        s.ok(),
        n <= s.cfg.n_layer,
        lens_of(tr[0]) == bank_lens(s.cfg, s.vocab as int),
        runs(layers_backward_plan(s, n), tokens, targets, tr),
    ensures
        lens_of(tr.last()) == lens_of(tr[0]),
        is_layers_bwd(s, n, tr[0], tr.last(), flows_of(s, n, tr)),
        forall|b: int|
            0 <= b < buf_count(s.cfg) && !of_flow(b) ==> #[trigger] tr.last()[b] == tr[0][b],
        forall|z: Span|
            z.buf == GRADS && z.start + z.len <= layer_start(
                s.cfg,
                s.vocab as int,
                s.cfg.n_layer - n,
            ) ==> #[trigger] read(tr.last(), z) == read(tr[0], z),
    decreases n,
{
    lemma_backward_len(s, n);
    if n == 0 {
        reveal(is_layers_bwd);
    } else {
        let li = s.cfg.n_layer - n;
        let n1 = (n - 1) as nat;
        lemma_backward_len(s, n1);
        let before = layers_backward_plan(s, n1);
        lemma_runs_split(before, layer_backward_plan(s, li), tokens, targets, tr);
        let tr1 = tr.take(before.len() as int + 1);
        let tr2 = tr.skip(before.len() as int);
        lemma_layers_backward(s, n1, tokens, targets, tr1);
        assert(tr2[0] == tr1.last());
        lemma_backward_step(s, n, tokens, targets, tr, tr1, tr2);
    }
}

/// From the run of one more layer to what it computes.
#[verifier::rlimit(40)]
#[verifier::spinoff_prover]
proof fn lemma_backward_step<S: Scalar>(
    s: Shape,
    n: nat,
    tokens: Seq<i32>,
    targets: Seq<i32>,
    tr: Seq<Mem<S>>,
    tr1: Seq<Mem<S>>,
    tr2: Seq<Mem<S>>,
)
    requires
        s.ok(),
        0 < n <= s.cfg.n_layer,
        tr.len() == 23 * n + 1,
        tr1 == tr.take(23 * (n - 1) + 1),
        tr2 == tr.skip(23 * (n - 1)),
        lens_of(tr1.last()) == bank_lens(s.cfg, s.vocab as int),
        lens_of(tr[0]) == bank_lens(s.cfg, s.vocab as int),
        runs(layer_backward_plan(s, s.cfg.n_layer - n), tokens, targets, tr2),
        is_layers_bwd(s, (n - 1) as nat, tr1[0], tr1.last(), flows_of(s, (n - 1) as nat, tr1)),
        forall|b: int|
            0 <= b < buf_count(s.cfg) && !of_flow(b) ==> #[trigger] tr1.last()[b] == tr1[0][b],
        forall|z: Span|
            z.buf == GRADS && z.start + z.len <= layer_start(
                s.cfg,
                s.vocab as int,
                s.cfg.n_layer - (n - 1),
            ) ==> #[trigger] read(tr1.last(), z) == read(tr1[0], z),
    ensures
        lens_of(tr.last()) == lens_of(tr[0]),
        is_layers_bwd(s, n, tr[0], tr.last(), flows_of(s, n, tr)),
        forall|b: int|
            0 <= b < buf_count(s.cfg) && !of_flow(b) ==> #[trigger] tr.last()[b] == tr[0][b],
        forall|z: Span|
            z.buf == GRADS && z.start + z.len <= layer_start(
                s.cfg,
                s.vocab as int,
                s.cfg.n_layer - n,
            ) ==> #[trigger] read(tr.last(), z) == read(tr[0], z),
{
    let li = s.cfg.n_layer - n;
    let n1 = (n - 1) as nat;
    assert(tr2[0] == tr1.last());
    lemma_layer_backward(s, li, tokens, targets, tr2);
    let (m0, m1, m2) = (tr[0], tr1.last(), tr.last());
    assert(m0 == tr1[0]);
    assert(m2 == tr2[23]);
    let f = layer_flow(s, tr2.take(8), tr2.skip(7));
    assert(flows_of(s, n, tr) == flows_of(s, n1, tr1).push(f));
    lemma_one_more_layer(s, n, m0, m1, m2, flows_of(s, n1, tr1), f);
}

/// One more layer of the backward pass.
#[verifier::rlimit(40)]
#[verifier::spinoff_prover]
proof fn lemma_one_more_layer<S: Scalar>(
    s: Shape,
    n: nat,
    m0: Mem<S>,
    m1: Mem<S>,
    m2: Mem<S>,
    flows: Seq<LayerFlow<S>>,
    f: LayerFlow<S>,
)
    requires
        s.ok(),
        0 < n <= s.cfg.n_layer,
        is_layers_bwd(s, (n - 1) as nat, m0, m1, flows),
        is_layer_bwd(
            s,
            layer_weights(s, m1, PARAMS as int, s.cfg.n_layer - n),
            layer_values(s, m1, s.cfg.n_layer - n),
            f,
            layer_weights(s, m1, GRADS as int, s.cfg.n_layer - n),
            layer_weights(s, m2, GRADS as int, s.cfg.n_layer - n),
        ),
        f.d_out == read(m1, s.shared(D_X as int, s.rc())),
        f.d_in == read(m2, s.shared(D_X as int, s.rc())),
        forall|b: int|
            0 <= b < buf_count(s.cfg) && !of_flow(b) ==> #[trigger] m1[b] == m0[b],
        forall|b: int|
            0 <= b < buf_count(s.cfg) && !of_flow(b) ==> #[trigger] m2[b] == m1[b],
        forall|z: Span|
            z.buf == GRADS && z.start + z.len <= layer_start(
                s.cfg,
                s.vocab as int,
                s.cfg.n_layer - n + 1,
            ) ==> #[trigger] read(m1, z) == read(m0, z),
        forall|z: Span|
            z.buf == GRADS && inside(bank_lens(s.cfg, s.vocab as int), z) && apart(
                s.weight(GRADS as int, s.cfg.n_layer - n, 0, 12),
                z,
            ) ==> #[trigger] read(m2, z) == read(m1, z),
    ensures
        is_layers_bwd(s, n, m0, m2, flows.push(f)),
        forall|b: int|
            0 <= b < buf_count(s.cfg) && !of_flow(b) ==> #[trigger] m2[b] == m0[b],
        forall|z: Span|
            z.buf == GRADS && z.start + z.len <= layer_start(
                s.cfg,
                s.vocab as int,
                s.cfg.n_layer - n,
            ) ==> #[trigger] read(m2, z) == read(m0, z),
{
    reveal(is_layers_bwd);
    let li = s.cfg.n_layer - n;
    let n1 = (n - 1) as nat;
    let longer = flows.push(f);
    lemma_layer_region(s, li);
    assert forall|b: int| 0 <= b < buf_count(s.cfg) && !of_flow(b) implies #[trigger] m2[b]
        == m0[b] by {
        assert(m1[b] == m0[b]);
    }
    assert forall|z: Span|
        z.buf == GRADS && z.start + z.len <= layer_start(s.cfg, s.vocab as int, li) implies #[trigger]
        read(m2, z) == read(m0, z) by {
        assert(inside(bank_lens(s.cfg, s.vocab as int), z));
        assert(read(m1, z) == read(m0, z));
    }
    assert forall|i: int| 0 <= i < n implies is_layer_bwd(
        s,
        layer_weights(s, m0, PARAMS as int, s.cfg.n_layer - 1 - i),
        layer_values(s, m0, s.cfg.n_layer - 1 - i),
        #[trigger] longer[i],
        layer_weights(s, m0, GRADS as int, s.cfg.n_layer - 1 - i),
        layer_weights(s, m2, GRADS as int, s.cfg.n_layer - 1 - i),
    ) by {
        let lj = s.cfg.n_layer - 1 - i;
        lemma_layer_region(s, lj);
        if i < n1 {
            lemma_starts_grow(s, li + 1, lj);
            assert(longer[i] == flows[i]);
            assert forall|z: Span|
                z.buf == GRADS && layer_start(s.cfg, s.vocab as int, lj) <= z.start && z.start
                    + z.len <= layer_start(s.cfg, s.vocab as int, lj + 1) implies #[trigger] read(
                m2,
                z,
            ) == read(m1, z) by {
                assert(inside(bank_lens(s.cfg, s.vocab as int), z));
            }
            lemma_same_grads(s, lj, m1, m2);
        } else {
            lemma_kept_for_layer(s, li, m0, m1);
            lemma_same_grads(s, li, m0, m1);
        }
    }
    assert forall|i: int| 0 <= i < n implies (#[trigger] longer[i]).d_out == if i == 0 {
        read(m0, s.shared(D_X as int, s.rc()))
    } else {
        longer[i - 1].d_in
    } by {
        if i < n1 {
            assert(longer[i] == flows[i]);
        }
        if i > 0 {
            assert(longer[i - 1] == flows[i - 1]);
        }
    }
}

/// Later layers start later.
proof fn lemma_starts_grow(s: Shape, i: int, j: int)
    requires
        s.ok(),
        0 <= i <= j <= s.cfg.n_layer,
    ensures
        layer_start(s.cfg, s.vocab as int, i) <= layer_start(s.cfg, s.vocab as int, j),
    decreases j - i,
{
    if i < j {
        lemma_starts_grow(s, i, j - 1);
        lemma_layer_region(s, j - 1);
    }
}

/// The gradients that flow through the whole network.
pub struct Flow<S> {
    pub d_logits: Seq<S>,
    pub layers: Seq<LayerFlow<S>>,
    pub d_x0: Seq<S>,
}

/// The chain rule, from the loss back to every parameter. The gradients of the matrices
/// are added to `before`.
pub open spec fn is_backward<S: Scalar>(
    s: Shape,
    w: Weights<S>,
    tokens: Seq<i32>,
    targets: Seq<i32>,
    valid: nat,
    a: Values<S>,
    probs: Seq<S>,
    f: Flow<S>,
    before: Weights<S>,
    after: Weights<S>,
) -> bool {
    let n = s.cfg.n_layer;
    let c = s.c() as nat;
    let v = s.vocab as nat;
    let rows = s.rows as nat;
    &&& f.d_logits.len() == s.rv()
    &&& is_ce_bwd(f.d_logits, probs, targets, v, valid)
    &&& is_matmul_tn(
        before.lm_head,
        after.lm_head,
        f.d_logits,
        a.layers[n - 1].x_out,
        v,
        c,
        rows,
    )
    &&& f.layers.len() == n
    &&& is_linear_bwd(f.layers[n - 1].d_out, f.d_logits, w.lm_head, c, v)
    &&& forall|li: int|
        0 <= li < n ==> is_layer_bwd(
            s,
            w.layers[li],
            a.layers[li],
            #[trigger] f.layers[li],
            before.layers[li],
            after.layers[li],
        )
    &&& forall|li: int|
        0 <= li < n - 1 ==> (#[trigger] f.layers[li]).d_out == f.layers[li + 1].d_in
    &&& f.d_x0.len() == s.rc()
    &&& is_norm_bwd(f.d_x0, a.x0, a.r0, f.layers[0].d_in, c)
    &&& is_embed_bwd_wte(before.wte, after.wte, f.d_x0, tokens, c)
    &&& is_embed_bwd_wpe(before.wpe, after.wpe, f.d_x0, rows, s.t_len as nat, c)
}

/// What the backward pass of the loss and of the output head makes of the bank `m0`.
#[verifier::opaque]
spec fn head_done<S: Scalar>(
    s: Shape,
    valid: nat,
    targets: Seq<i32>,
    m0: Mem<S>,
    m1: Mem<S>,
) -> bool {
    let d_logits = read(m1, s.shared(D_LOGITS as int, s.rv()));
    &&& lens_of(m1) == lens_of(m0)
    &&& d_logits.len() == s.rv()
    &&& is_ce_bwd(
        d_logits,
        read(m0, s.shared(PROBS as int, s.rv())),
        targets,
        s.vocab as nat,
        valid,
    )
    &&& is_matmul_tn(
        read(m0, s.lm_head(GRADS as int)),
        read(m1, s.lm_head(GRADS as int)),
        d_logits,
        layer_values(s, m0, s.cfg.n_layer - 1).x_out,
        s.vocab as nat,
        s.c() as nat,
        s.rows as nat,
    )
    &&& is_linear_bwd(
        read(m1, s.shared(D_X as int, s.rc())),
        d_logits,
        read(m0, s.lm_head(PARAMS as int)),
        s.c() as nat,
        s.vocab as nat,
    )
    &&& forall|b: int|
        0 <= b < buf_count(s.cfg) && b != D_LOGITS && !of_flow(b) ==> #[trigger] m1[b] == m0[b]
    &&& forall|z: Span|
        z.buf == GRADS && inside(bank_lens(s.cfg, s.vocab as int), z) && apart(
            s.lm_head(GRADS as int),
            z,
        ) ==> #[trigger] read(m1, z) == read(m0, z)
}

/// What the backward pass of the embeddings makes of the bank `m0`.
#[verifier::opaque]
spec fn embed_done<S: Scalar>(s: Shape, tokens: Seq<i32>, m0: Mem<S>, m1: Mem<S>) -> bool {
    let d_x0 = read(m1, s.shared(D_X0 as int, s.rc()));
    &&& lens_of(m1) == lens_of(m0)
    &&& d_x0.len() == s.rc()
    &&& is_norm_bwd(
        d_x0,
        read(m0, s.shared(X0 as int, s.rc())),
        read(m0, s.shared(R0 as int, s.rows as int)),
        read(m0, s.shared(D_X as int, s.rc())),
        s.c() as nat,
    )
    &&& is_embed_bwd_wte(
        read(m0, s.wte(GRADS as int)),
        read(m1, s.wte(GRADS as int)),
        d_x0,
        tokens,
        s.c() as nat,
    )
    &&& is_embed_bwd_wpe(
        read(m0, s.wpe(GRADS as int)),
        read(m1, s.wpe(GRADS as int)),
        d_x0,
        s.rows as nat,
        s.t_len as nat,
        s.c() as nat,
    )
    &&& forall|b: int|
        0 <= b < buf_count(s.cfg) && b != D_X0 && b != GRADS ==> #[trigger] m1[b] == m0[b]
    &&& forall|z: Span|
        z.buf == GRADS && inside(bank_lens(s.cfg, s.vocab as int), z) && apart(
            s.wte(GRADS as int),
            z,
        ) && apart(s.wpe(GRADS as int), z) ==> #[trigger] read(m1, z) == read(m0, z)
}

/// What the backward pass of the layers makes of the bank `m0`.
#[verifier::opaque]
spec fn layers_done<S: Scalar>(
    s: Shape,
    m0: Mem<S>,
    m1: Mem<S>,
    flows: Seq<LayerFlow<S>>,
) -> bool {
    &&& lens_of(m1) == lens_of(m0)
    &&& is_layers_bwd(s, s.cfg.n_layer as nat, m0, m1, flows)
    &&& forall|b: int|
        0 <= b < buf_count(s.cfg) && !of_flow(b) ==> #[trigger] m1[b] == m0[b]
    &&& forall|z: Span|
        z.buf == GRADS && z.start + z.len <= layer_start(s.cfg, s.vocab as int, 0)
            ==> #[trigger] read(m1, z) == read(m0, z)
}

/// What the backward pass of the loss and of the output head does.
proof fn lemma_head_backward<S: Scalar>(
    s: Shape,
    valid: usize,
    tokens: Seq<i32>,
    targets: Seq<i32>,
    tr: Seq<Mem<S>>,
)
    requires
        s.ok(),
        lens_of(tr[0]) == bank_lens(s.cfg, s.vocab as int),
        runs(head_backward_plan(s, valid), tokens, targets, tr),
        plan_fits(
            head_backward_plan(s, valid),
            bank_lens(s.cfg, s.vocab as int),
            tokens,
            targets,
        ),
    ensures
        head_done(s, valid as nat, targets, tr[0], tr[3]),
{
    reveal(head_done);
    reveal(launched);
    reveal(fits);
    let plan = head_backward_plan(s, valid);
    let lens = bank_lens(s.cfg, s.vocab as int);
    s.lemma_numbers();
    s.lemma_weights(0);
    lemma_layer_spans(s, s.cfg.n_layer - 1);
    assert(buf_count(s.cfg) == lens.len());
    lemma_run_step(plan, tokens, targets, tr, lens, 0);
    lemma_run_step(plan, tokens, targets, tr, lens, 1);
    lemma_run_step(plan, tokens, targets, tr, lens, 2);
    let d_x = s.shared(D_X as int, s.rc());
    lemma_linear_bwd_overwrites(
        read(tr[2], d_x),
        read(tr[3], d_x),
        read(tr[3], s.shared(D_LOGITS as int, s.rv())),
        read(tr[0], s.lm_head(PARAMS as int)),
        s.c() as nat,
        s.vocab as nat,
    );
    assert forall|z: Span|
        z.buf == GRADS && inside(lens, z) && apart(s.lm_head(GRADS as int), z) implies #[trigger]
        read(tr[3], z) == read(tr[0], z) by {
        assert(plan_leaves(plan, 0, 3, z));
        lemma_runs_leave(plan, tokens, targets, tr, lens, 0, 3, z);
    }
}

/// What the backward pass of the embeddings does.
proof fn lemma_embed_backward<S: Scalar>(
    s: Shape,
    tokens: Seq<i32>,
    targets: Seq<i32>,
    tr: Seq<Mem<S>>,
)
    requires
        s.ok(),
        lens_of(tr[0]) == bank_lens(s.cfg, s.vocab as int),
        runs(embed_backward_plan(s), tokens, targets, tr),
        plan_fits(embed_backward_plan(s), bank_lens(s.cfg, s.vocab as int), tokens, targets),
    ensures
        embed_done(s, tokens, tr[0], tr[3]),
{
    reveal(embed_done);
    reveal(launched);
    reveal(fits);
    let plan = embed_backward_plan(s);
    let lens = bank_lens(s.cfg, s.vocab as int);
    let g = GRADS as int;
    s.lemma_numbers();
    s.lemma_weights(0);
    assert(buf_count(s.cfg) == lens.len());
    lemma_run_step(plan, tokens, targets, tr, lens, 0);
    lemma_run_step(plan, tokens, targets, tr, lens, 1);
    lemma_run_step(plan, tokens, targets, tr, lens, 2);
    let d_x0 = s.shared(D_X0 as int, s.rc());
    lemma_norm_bwd_overwrites(
        read(tr[0], d_x0),
        read(tr[3], d_x0),
        read(tr[0], s.shared(X0 as int, s.rc())),
        read(tr[0], s.shared(R0 as int, s.rows as int)),
        read(tr[0], s.shared(D_X as int, s.rc())),
        s.c() as nat,
    );
    assert(inside(lens, s.wte(g)) && inside(lens, s.wpe(g)));
    assert(plan_leaves(plan, 2, 3, s.wte(g)));
    lemma_runs_leave(plan, tokens, targets, tr, lens, 2, 3, s.wte(g));
    assert(plan_leaves(plan, 0, 2, s.wpe(g)));
    lemma_runs_leave(plan, tokens, targets, tr, lens, 0, 2, s.wpe(g));
    assert forall|z: Span|
        z.buf == GRADS && inside(lens, z) && apart(s.wte(g), z) && apart(s.wpe(g), z) implies #[trigger]
        read(tr[3], z) == read(tr[0], z) by {
        assert(plan_leaves(plan, 0, 3, z));
        lemma_runs_leave(plan, tokens, targets, tr, lens, 0, 3, z);
    }
}

/// What the backward pass of all layers does.
proof fn lemma_layers_part<S: Scalar>(
    s: Shape,
    tokens: Seq<i32>,
    targets: Seq<i32>,
    tr: Seq<Mem<S>>,
)
    requires
        s.ok(),
        lens_of(tr[0]) == bank_lens(s.cfg, s.vocab as int),
        runs(layers_backward_plan(s, s.cfg.n_layer as nat), tokens, targets, tr),
    ensures
        lens_of(tr.last()) == lens_of(tr[0]),
        layers_done(s, tr[0], tr.last(), flows_of(s, s.cfg.n_layer as nat, tr)),
{
    reveal(layers_done);
    reveal(is_layers_bwd);
    lemma_layers_backward(s, s.cfg.n_layer as nat, tokens, targets, tr);
}

/// The gradients that a run of the backward plan goes through.
pub open spec fn flow_of<S>(s: Shape, tr: Seq<Mem<S>>) -> Flow<S> {
    let n = s.cfg.n_layer;
    let flows = flows_of(s, n as nat, tr.subrange(3, tr.len() - 3));
    Flow {
        d_logits: read(tr.last(), s.shared(D_LOGITS as int, s.rv())),
        layers: Seq::new(n as nat, |li: int| flows[n - 1 - li]),
        d_x0: read(tr.last(), s.shared(D_X0 as int, s.rc())),
    }
}

/// Whether the backward pass may write to buffer `b`.
pub open spec fn of_backward(b: int) -> bool {
    b == GRADS || D_LOGITS <= b <= D_X0
}

/// What the three parts of the backward pass leave alone.
proof fn lemma_backward_frame<S: Scalar>(
    s: Shape,
    valid: nat,
    tokens: Seq<i32>,
    targets: Seq<i32>,
    m0: Mem<S>,
    m1: Mem<S>,
    m2: Mem<S>,
    m3: Mem<S>,
    flows: Seq<LayerFlow<S>>,
)
    requires
        s.ok(),
        lens_of(m0) == bank_lens(s.cfg, s.vocab as int),
        head_done(s, valid, targets, m0, m1),
        layers_done(s, m1, m2, flows),
        embed_done(s, tokens, m2, m3),
    ensures
        lens_of(m3) == lens_of(m0),
        forall|b: int|
            0 <= b < buf_count(s.cfg) && !of_backward(b) ==> #[trigger] m3[b] == m0[b],
        forall|b: int|
            0 <= b < buf_count(s.cfg) && !of_backward(b) ==> #[trigger] m2[b] == m0[b],
        forall|b: int|
            0 <= b < buf_count(s.cfg) && !of_backward(b) ==> #[trigger] m1[b] == m0[b],
        m3[D_LOGITS as int] == m1[D_LOGITS as int],
{
    reveal(head_done);
    reveal(layers_done);
    reveal(is_layers_bwd);
    reveal(embed_done);
    assert(m2[D_LOGITS as int] == m1[D_LOGITS as int]);
    assert forall|b: int| 0 <= b < buf_count(s.cfg) && !of_backward(b) implies #[trigger] m2[b]
        == m0[b] by {
        assert(m1[b] == m0[b]);
    }
    assert forall|b: int| 0 <= b < buf_count(s.cfg) && !of_backward(b) implies #[trigger] m3[b]
        == m0[b] by {
        assert(m2[b] == m0[b]);
    }
}

/// What the three parts make of the gradients that are not of a layer.
proof fn lemma_backward_ends<S: Scalar>(
    s: Shape,
    valid: nat,
    tokens: Seq<i32>,
    targets: Seq<i32>,
    m0: Mem<S>,
    m1: Mem<S>,
    m2: Mem<S>,
    m3: Mem<S>,
    flows: Seq<LayerFlow<S>>,
)
    requires
        s.ok(),
        lens_of(m0) == bank_lens(s.cfg, s.vocab as int),
        head_done(s, valid, targets, m0, m1),
        layers_done(s, m1, m2, flows),
        embed_done(s, tokens, m2, m3),
    ensures
        read(m3, s.lm_head(GRADS as int)) == read(m1, s.lm_head(GRADS as int)),
        read(m2, s.wte(GRADS as int)) == read(m0, s.wte(GRADS as int)),
        read(m2, s.wpe(GRADS as int)) == read(m0, s.wpe(GRADS as int)),
{
    reveal(head_done);
    reveal(layers_done);
    reveal(is_layers_bwd);
    reveal(embed_done);
    let g = GRADS as int;
    let lens = bank_lens(s.cfg, s.vocab as int);
    s.lemma_weights(0);
    let (head, wte, wpe) = (s.lm_head(g), s.wte(g), s.wpe(g));
    assert(inside(lens, head) && inside(lens, wte) && inside(lens, wpe));
    assert(read(m2, head) == read(m1, head));
    assert(read(m1, wte) == read(m0, wte));
    assert(read(m1, wpe) == read(m0, wpe));
}

/// What the three parts make of layer `li`.
proof fn lemma_backward_layer<S: Scalar>(
    s: Shape,
    valid: nat,
    tokens: Seq<i32>,
    targets: Seq<i32>,
    m0: Mem<S>,
    m1: Mem<S>,
    m2: Mem<S>,
    m3: Mem<S>,
    flows: Seq<LayerFlow<S>>,
    li: int,
)
    requires
        s.ok(),
        lens_of(m0) == bank_lens(s.cfg, s.vocab as int),
        head_done(s, valid, targets, m0, m1),
        layers_done(s, m1, m2, flows),
        embed_done(s, tokens, m2, m3),
        0 <= li < s.cfg.n_layer,
    ensures
        is_layer_bwd(
            s,
            layer_weights(s, m0, PARAMS as int, li),
            layer_values(s, m0, li),
            flows[s.cfg.n_layer - 1 - li],
            layer_weights(s, m0, GRADS as int, li),
            layer_weights(s, m3, GRADS as int, li),
        ),
{
    reveal(layers_done);
    reveal(is_layers_bwd);
    let g = GRADS as int;
    let i = s.cfg.n_layer - 1 - li;
    assert(is_layer_bwd(
        s,
        layer_weights(s, m1, PARAMS as int, li),
        layer_values(s, m1, li),
        flows[i],
        layer_weights(s, m1, g, li),
        layer_weights(s, m2, g, li),
    ));
    s.lemma_weights(0);
    lemma_kept_for_layer_outside(s, valid, tokens, targets, m0, m1, m2, m3, flows, li);
    assert(layer_weights(s, m1, g, li) == layer_weights(s, m0, g, li)) by {
        reveal(head_done);
        lemma_same_grads_apart(s, li, m0, m1, s.lm_head(g), s.lm_head(g));
    }
    assert(layer_weights(s, m3, g, li) == layer_weights(s, m2, g, li)) by {
        reveal(embed_done);
        lemma_same_grads_apart(s, li, m2, m3, s.wte(g), s.wpe(g));
    }
}

/// The first part changes nothing that the layers read but the gradient of the logits.
proof fn lemma_kept_for_layer_outside<S: Scalar>(
    s: Shape,
    valid: nat,
    tokens: Seq<i32>,
    targets: Seq<i32>,
    m0: Mem<S>,
    m1: Mem<S>,
    m2: Mem<S>,
    m3: Mem<S>,
    flows: Seq<LayerFlow<S>>,
    li: int,
)
    requires
        s.ok(),
        lens_of(m0) == bank_lens(s.cfg, s.vocab as int),
        head_done(s, valid, targets, m0, m1),
        layers_done(s, m1, m2, flows),
        embed_done(s, tokens, m2, m3),
        0 <= li < s.cfg.n_layer,
    ensures
        layer_weights(s, m1, PARAMS as int, li) == layer_weights(s, m0, PARAMS as int, li),
        layer_values(s, m1, li) == layer_values(s, m0, li),
{
    lemma_backward_frame(s, valid, tokens, targets, m0, m1, m2, m3, flows);
    assert(m1[PARAMS as int] == m0[PARAMS as int]);
    assert(m1[X1 as int] == m0[X1 as int]);
    assert forall|k: int| 0 <= k < ACTS implies m1[SHARED + li * ACTS + k] == #[trigger] m0[SHARED
        + li * ACTS + k] by {
        assert(!of_backward(SHARED + li * ACTS + k));
    }
    if li > 0 {
        let b = SHARED + (li - 1) * ACTS + X_OUT;
        assert(!of_backward(b));
        assert(m1[b] == m0[b]);
    }
}

/// The three parts make up the whole backward pass.
proof fn lemma_backward_whole<S: Scalar>(
    s: Shape,
    valid: nat,
    tokens: Seq<i32>,
    targets: Seq<i32>,
    m0: Mem<S>,
    m1: Mem<S>,
    m2: Mem<S>,
    m3: Mem<S>,
    flows: Seq<LayerFlow<S>>,
    f: Flow<S>,
)
    requires
        s.ok(),
        lens_of(m0) == bank_lens(s.cfg, s.vocab as int),
        head_done(s, valid, targets, m0, m1),
        layers_done(s, m1, m2, flows),
        embed_done(s, tokens, m2, m3),
        f.d_logits == read(m3, s.shared(D_LOGITS as int, s.rv())),
        f.layers == Seq::new(s.cfg.n_layer as nat, |li: int| flows[s.cfg.n_layer - 1 - li]),
        f.d_x0 == read(m3, s.shared(D_X0 as int, s.rc())),
    ensures
        is_backward(
            s,
            weights_of(s, m0, PARAMS as int),
            tokens,
            targets,
            valid,
            values_of(s, m0),
            read(m0, s.shared(PROBS as int, s.rv())),
            f,
            weights_of(s, m0, GRADS as int),
            weights_of(s, m3, GRADS as int),
        ),
        lens_of(m3) == lens_of(m0),
        forall|b: int|
            0 <= b < buf_count(s.cfg) && !of_backward(b) ==> #[trigger] m3[b] == m0[b],
{
    let n = s.cfg.n_layer;
    let (p, g) = (PARAMS as int, GRADS as int);
    let (w, a) = (weights_of(s, m0, p), values_of(s, m0));
    let (before, after) = (weights_of(s, m0, g), weights_of(s, m3, g));
    lemma_backward_frame(s, valid, tokens, targets, m0, m1, m2, m3, flows);
    lemma_backward_ends(s, valid, tokens, targets, m0, m1, m2, m3, flows);
    assert forall|li: int| 0 <= li < n implies is_layer_bwd(
        s,
        w.layers[li],
        a.layers[li],
        #[trigger] f.layers[li],
        before.layers[li],
        after.layers[li],
    ) by {
        lemma_backward_layer(s, valid, tokens, targets, m0, m1, m2, m3, flows, li);
    }
    let (v, c, rows) = (s.vocab as nat, s.c() as nat, s.rows as nat);
    assert(f.layers[n - 1] == flows[0]);
    assert(f.layers[0] == flows[n - 1]);
    assert(f.d_logits.len() == s.rv() && is_ce_bwd(
        f.d_logits,
        read(m0, s.shared(PROBS as int, s.rv())),
        targets,
        v,
        valid,
    ) && is_matmul_tn(
        before.lm_head,
        after.lm_head,
        f.d_logits,
        a.layers[n - 1].x_out,
        v,
        c,
        rows,
    ) && is_linear_bwd(f.layers[n - 1].d_out, f.d_logits, w.lm_head, c, v)) by {
        reveal(head_done);
        reveal(layers_done);
        reveal(is_layers_bwd);
    }
    assert(forall|li: int|
        0 <= li < n - 1 ==> (#[trigger] f.layers[li]).d_out == f.layers[li + 1].d_in) by {
        reveal(layers_done);
        reveal(is_layers_bwd);
        assert forall|li: int| 0 <= li < n - 1 implies (#[trigger] f.layers[li]).d_out
            == f.layers[li + 1].d_in by {
            assert(f.layers[li] == flows[n - 1 - li]);
            assert(f.layers[li + 1] == flows[n - 2 - li]);
        }
    }
    assert(f.d_x0.len() == s.rc() && is_norm_bwd(f.d_x0, a.x0, a.r0, f.layers[0].d_in, c)
        && is_embed_bwd_wte(before.wte, after.wte, f.d_x0, tokens, c) && is_embed_bwd_wpe(
        before.wpe,
        after.wpe,
        f.d_x0,
        rows,
        s.t_len as nat,
        c,
    )) by {
        reveal(layers_done);
        reveal(is_layers_bwd);
        reveal(embed_done);
        assert(m2[X0 as int] == m0[X0 as int] && m2[R0 as int] == m0[R0 as int]);
    }
}

/// Gradients of a layer that stand apart from what is written stay the same.
proof fn lemma_same_grads_apart<S>(s: Shape, li: int, m1: Mem<S>, m2: Mem<S>, x: Span, y: Span)
    requires
        s.ok(),
        0 <= li < s.cfg.n_layer,
        x.start + x.len <= layer_start(s.cfg, s.vocab as int, 0),
        y.start + y.len <= layer_start(s.cfg, s.vocab as int, 0),
        forall|z: Span|
            z.buf == GRADS && inside(bank_lens(s.cfg, s.vocab as int), z) && apart(x, z)
                && apart(y, z) ==> #[trigger] read(m2, z) == read(m1, z),
    ensures
        layer_weights(s, m2, GRADS as int, li) == layer_weights(s, m1, GRADS as int, li),
{
    lemma_layer_region(s, li);
    lemma_starts_grow(s, 0, li);
    assert forall|z: Span|
        z.buf == GRADS && layer_start(s.cfg, s.vocab as int, li) <= z.start && z.start + z.len
            <= layer_start(s.cfg, s.vocab as int, li + 1) implies #[trigger] read(m2, z) == read(
        m1,
        z,
    ) by {
        assert(inside(bank_lens(s.cfg, s.vocab as int), z));
    }
    lemma_same_grads(s, li, m1, m2);
}

/// Whoever carries out the backward plan follows the chain rule, from the loss back to every
/// parameter: the gradients are added to what the gradient buffer held. Nothing changes but
/// that buffer and those of the flow.
pub proof fn law_backward_plan_computes_gradients<S: Scalar>(
    s: Shape,
    valid: usize,
    tokens: Seq<i32>,
    targets: Seq<i32>,
    tr: Seq<Mem<S>>,
)
    requires
        s.ok(),
        run_tokens(s, tokens),
        targets.len() == s.rows,
        lens_of(tr[0]) == bank_lens(s.cfg, s.vocab as int),
        runs(backward_plan(s, valid), tokens, targets, tr),
    ensures
        is_backward(
            s,
            weights_of(s, tr[0], PARAMS as int),
            tokens,
            targets,
            valid as nat,
            values_of(s, tr[0]),
            read(tr[0], s.shared(PROBS as int, s.rv())),
            flow_of(s, tr),
            weights_of(s, tr[0], GRADS as int),
            weights_of(s, tr.last(), GRADS as int),
        ),
        lens_of(tr.last()) == lens_of(tr[0]),
        forall|b: int|
            0 <= b < buf_count(s.cfg) && !of_backward(b) ==> #[trigger] tr.last()[b] == tr[0][b],
{
    let n = s.cfg.n_layer as nat;
    let lens = bank_lens(s.cfg, s.vocab as int);
    let (p, g) = (PARAMS as int, GRADS as int);
    let first = head_backward_plan(s, valid);
    let middle = layers_backward_plan(s, n);
    let end = embed_backward_plan(s);
    let plan = backward_plan(s, valid);
    crate::plan::law_backward_plan_fits(s, valid, tokens, targets);
    lemma_backward_len(s, n);
    lemma_runs_split(first + middle, end, tokens, targets, tr);
    let tr12 = tr.take((first + middle).len() as int + 1);
    let tr3 = tr.skip((first + middle).len() as int);
    lemma_runs_split(first, middle, tokens, targets, tr12);
    let tr1 = tr12.take(first.len() as int + 1);
    let tr2 = tr12.skip(first.len() as int);
    assert(plan_fits(first, lens, tokens, targets)) by {
        assert forall|i: int| 0 <= i < first.len() implies fits(
            #[trigger] first[i],
            lens,
            tokens,
            targets,
        ) by {
            assert(plan[i] == first[i]);
        }
    }
    assert(plan_fits(end, lens, tokens, targets)) by {
        assert forall|i: int| 0 <= i < end.len() implies fits(
            #[trigger] end[i],
            lens,
            tokens,
            targets,
        ) by {
            assert(plan[(first + middle).len() + i] == end[i]);
        }
    }
    lemma_head_backward(s, valid, tokens, targets, tr1);
    assert(lens_of(tr1[3]) == lens) by {
        reveal(head_done);
    }
    assert(tr2[0] == tr1[3]);
    lemma_layers_part(s, tokens, targets, tr2);
    assert(tr3[0] == tr2.last());
    lemma_embed_backward(s, tokens, targets, tr3);
    let (m0, m1, m2, m3) = (tr[0], tr1[3], tr2.last(), tr.last());
    assert(m0 == tr1[0]);
    assert(m3 == tr3[3]);
    assert(tr2 =~= tr.subrange(3, tr.len() - 3));
    lemma_backward_whole(
        s,
        valid as nat,
        tokens,
        targets,
        m0,
        m1,
        m2,
        m3,
        flows_of(s, n, tr2),
        flow_of(s, tr),
    );
}

} // verus!
