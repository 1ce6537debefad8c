//! What the network computes: the equations between weights, activations and gradients,
//! and the proof that the planned launches bring them about.
use vstd::prelude::*;

use crate::attention::{is_attn_mix, is_attn_softmax, Side};
use crate::bank::{effect, fits, launched, lens_of, plan_fits, read, runs, Launch, Mem};
use crate::embed::is_embed;
use crate::matmul::{is_linear, lemma_linear_overwrites};
use crate::norm::is_rmsnorm;
use crate::plan::{
    embed_plan, forward_plan, head_plan, layer_forward_plan, layers_forward_plan,
    lemma_layer_forward_fits, run_tokens,
};
use crate::pointwise::{is_add, is_relu_fwd};
use crate::scalar::Scalar;
use crate::shape::{
    bank_lens, buf_count, Shape, ACTS, ATT, ATTY, H, HPRE, K, LOGITS, MLPO, PARAMS, PROJ, Q, R0, R1,
    R2, SHARED, V, X0, X1, XN, XN2, X_MID, X_OUT,
};

verus! {

/// The matrices of one layer.
pub struct LayerWeights<S> {
    pub wq: Seq<S>,
    pub wk: Seq<S>,
    pub wv: Seq<S>,
    pub wo: Seq<S>,
    pub fc1: Seq<S>,
    pub fc2: Seq<S>,
}

/// The activations of one layer.
pub struct LayerValues<S> {
    pub xin: Seq<S>,
    pub xn: Seq<S>,
    pub q: Seq<S>,
    pub k: Seq<S>,
    pub v: Seq<S>,
    pub att: Seq<S>,
    pub atty: Seq<S>,
    pub x_mid: Seq<S>,
    pub xn2: Seq<S>,
    pub hpre: Seq<S>,
    pub h: Seq<S>,
    pub x_out: Seq<S>,
    pub r1: Seq<S>,
    pub r2: Seq<S>,
}

/// `y` is `x` plus the product `a @ w^T`.
pub open spec fn is_residual<S: Scalar>(
    y: Seq<S>,
    x: Seq<S>,
    a: Seq<S>,
    w: Seq<S>,
    n: nat,
    k: nat,
) -> bool {
    exists|out: Seq<S>|
        out.len() == y.len() && #[trigger] is_linear(out, a, w, n, k) && is_add(y, x, out)
}

/// The activations of a layer have the sizes of the run.
pub open spec fn layer_sized<S>(s: Shape, a: LayerValues<S>) -> bool {
    &&& a.xin.len() == s.rc()
    &&& a.xn.len() == s.rc()
    &&& a.q.len() == s.rc()
    &&& a.k.len() == s.rc()
    &&& a.v.len() == s.rc()
    &&& a.att.len() == s.att()
    &&& a.atty.len() == s.rc()
    &&& a.x_mid.len() == s.rc()
    &&& a.xn2.len() == s.rc()
    &&& a.hpre.len() == s.rc4()
    &&& a.h.len() == s.rc4()
    &&& a.x_out.len() == s.rc()
    &&& a.r1.len() == s.rows
    &&& a.r2.len() == s.rows
}

/// The equations of a layer:
/// `x_mid = x_in + attention(rmsnorm(x_in)) @ wo^T` and
/// `x_out = x_mid + relu(rmsnorm(x_mid) @ fc1^T) @ fc2^T`.
pub open spec fn is_layer<S: Scalar>(s: Shape, w: LayerWeights<S>, a: LayerValues<S>) -> bool {
    let c = s.c() as nat;
    let c4 = (4 * s.c()) as nat;
    let hs = s.heads_spec();
    &&& layer_sized(s, a)
    &&& is_rmsnorm(a.xn, a.r1, a.xin, c)
    &&& is_linear(a.q, a.xn, w.wq, c, c)
    &&& is_linear(a.k, a.xn, w.wk, c, c)
    &&& is_linear(a.v, a.xn, w.wv, c, c)
    &&& is_attn_softmax(hs, a.att, a.q, a.k)
    &&& is_attn_mix(hs, Side::Past, a.atty, a.att, a.v)
    &&& is_residual(a.x_mid, a.xin, a.atty, w.wo, c, c)
    &&& is_rmsnorm(a.xn2, a.r2, a.x_mid, c)
    &&& is_linear(a.hpre, a.xn2, w.fc1, c4, c)
    &&& is_relu_fwd(a.h, a.hpre)
    &&& is_residual(a.x_out, a.x_mid, a.h, w.fc2, c, c4)
}

/// The matrices of layer `li` in buffer `buf`: the parameters, or their gradients.
pub open spec fn layer_weights<S>(s: Shape, m: Mem<S>, buf: int, li: int) -> LayerWeights<S> {
    LayerWeights {
        wq: read(m, s.wq(buf, li)),
        wk: read(m, s.wk(buf, li)),
        wv: read(m, s.wv(buf, li)),
        wo: read(m, s.wo(buf, li)),
        fc1: read(m, s.fc1(buf, li)),
        fc2: read(m, s.fc2(buf, li)),
    }
}

/// The activations of layer `li`.
pub open spec fn layer_values<S>(s: Shape, m: Mem<S>, li: int) -> LayerValues<S> {
    LayerValues {
        xin: read(m, s.xin(li)),
        xn: read(m, s.act(li, XN as int, s.rc())),
        q: read(m, s.act(li, Q as int, s.rc())),
        k: read(m, s.act(li, K as int, s.rc())),
        v: read(m, s.act(li, V as int, s.rc())),
        att: read(m, s.act(li, ATT as int, s.att())),
        atty: read(m, s.act(li, ATTY as int, s.rc())),
        x_mid: read(m, s.act(li, X_MID as int, s.rc())),
        xn2: read(m, s.act(li, XN2 as int, s.rc())),
        hpre: read(m, s.act(li, HPRE as int, s.rc4())),
        h: read(m, s.act(li, H as int, s.rc4())),
        x_out: read(m, s.act(li, X_OUT as int, s.rc())),
        r1: read(m, s.act(li, R1 as int, s.rows as int)),
        r2: read(m, s.act(li, R2 as int, s.rows as int)),
    }
}

/// Whether the scratch buffers hold what a layer adds to its input and to what comes between.
#[verifier::opaque]
pub open spec fn holds_branches<S: Scalar>(
    s: Shape,
    w: LayerWeights<S>,
    a: LayerValues<S>,
    m: Mem<S>,
) -> bool {
    let (c, c4) = (s.c() as nat, (4 * s.c()) as nat);
    let proj = read(m, s.shared(PROJ as int, s.rc()));
    let mlpo = read(m, s.shared(MLPO as int, s.rc()));
    &&& is_linear(proj, a.atty, w.wo, c, c)
    &&& is_add(a.x_mid, a.xin, proj)
    &&& is_linear(mlpo, a.h, w.fc2, c, c4)
    &&& is_add(a.x_out, a.x_mid, mlpo)
}

/// Whether the launch writes to buffer `b`.
pub open spec fn writes_to(l: Launch, b: int) -> bool {
    match l {
        Launch::EmbedFwd { x, .. } => b == x.buf,
        Launch::EmbedBwdWte { dwte, .. } => b == dwte.buf,
        Launch::EmbedBwdWpe { dwpe, .. } => b == dwpe.buf,
        Launch::RmsnormFwd { y, rinv, .. } => b == y.buf || b == rinv.buf,
        Launch::RmsnormBwd { dx, .. } => b == dx.buf,
        Launch::MatmulNt { y, .. } => b == y.buf,
        Launch::MatmulNn { y, .. } => b == y.buf,
        Launch::MatmulTn { dw, .. } => b == dw.buf,
        Launch::AttnSoftmaxFwd { att, .. } => b == att.buf,
        Launch::AttnSoftmaxBwd { ds, .. } => b == ds.buf,
        Launch::AttnScoresBwdDq { dq, .. } => b == dq.buf,
        Launch::AttnScoresBwdDk { dk, .. } => b == dk.buf,
        Launch::AttnMixFwd { y, .. } => b == y.buf,
        Launch::AttnMixBwdDp { dp, .. } => b == dp.buf,
        Launch::AttnMixBwdDv { dv, .. } => b == dv.buf,
        Launch::ReluFwd { y, .. } => b == y.buf,
        Launch::ReluBwdInplace { d, .. } => b == d.buf,
        Launch::AddFwd { y, .. } => b == y.buf,
        Launch::AddInplace { y, .. } => b == y.buf,
        Launch::CeFwd { losses, probs, .. } => b == losses.buf || b == probs.buf,
        Launch::CeBwd { dlogits, .. } => b == dlogits.buf,
        Launch::Swap { first, second } => b == first || b == second,
    }
}

/// A launch keeps the lengths of all buffers, and the contents of those it does not write
/// to.
#[verifier::rlimit(40)]
#[verifier::spinoff_prover]
pub proof fn lemma_launch_frame<S: Scalar>(
    l: Launch,
    tokens: Seq<i32>,
    targets: Seq<i32>,
    before: Mem<S>,
    after: Mem<S>,
)
    requires
        fits(l, lens_of(before), tokens, targets),
        effect(l, tokens, targets, before, after),
    ensures
        after.len() == before.len(),
        lens_of(after) == lens_of(before),
        forall|b: int|
            0 <= b < before.len() && !writes_to(l, b) ==> #[trigger] after[b] == before[b],
{
    reveal(launched);
    reveal(fits);
    assert(lens_of(after).len() == lens_of(before).len());
}

/// No launch of `plan` from number `i` on writes to buffer `b`, up to number `j`.
pub open spec fn spared(plan: Seq<Launch>, i: int, j: int, b: int) -> bool {
    forall|k: int| i <= k < j ==> !writes_to(#[trigger] plan[k], b)
}

/// A plan keeps the lengths of all buffers, and what it does not write to.
pub proof fn lemma_runs_frame<S: Scalar>(
    plan: Seq<Launch>,
    tokens: Seq<i32>,
    targets: Seq<i32>,
    tr: Seq<Mem<S>>,
    lens: Seq<nat>,
    i: int,
    j: int,
)
    requires
        runs(plan, tokens, targets, tr),
        lens_of(tr[0]) == lens,
        plan_fits(plan, lens, tokens, targets),
        0 <= i <= j <= plan.len(),
    ensures
        lens_of(tr[i]) == lens,
        lens_of(tr[j]) == lens,
        tr[j].len() == lens.len(),
        forall|b: int|
            0 <= b < lens.len() && spared(plan, i, j, b) ==> #[trigger] tr[j][b] == tr[i][b],
    decreases j,
{
    if j == 0 {
        assert(lens_of(tr[0]).len() == lens.len());
    } else {
        if i < j {
            lemma_runs_frame(plan, tokens, targets, tr, lens, i, j - 1);
        } else {
            lemma_runs_frame(plan, tokens, targets, tr, lens, i - 1, j - 1);
        }
        let l = plan[j - 1];
        assert(fits(l, lens, tokens, targets));
        assert(effect(l, tokens, targets, tr[j - 1], tr[j - 1 + 1]));
        assert(lens_of(tr[j - 1]).len() == lens.len());
        lemma_launch_frame(l, tokens, targets, tr[j - 1], tr[j]);
        assert forall|b: int| 0 <= b < lens.len() && spared(plan, i, j, b) implies #[trigger]
            tr[j][b] == tr[i][b] by {
            if i < j {
                assert(spared(plan, i, j - 1, b));
                assert(!writes_to(plan[j - 1], b));
            }
        }
    }
}

/// Whether buffer `b` holds an activation of layer `li`.
pub open spec fn of_layer(li: int, b: int) -> bool {
    SHARED + li * ACTS <= b < SHARED + (li + 1) * ACTS
}

/// What launch number `i` of a plan does.
pub proof fn lemma_run_step<S: Scalar>(
    plan: Seq<Launch>,
    tokens: Seq<i32>,
    targets: Seq<i32>,
    tr: Seq<Mem<S>>,
    lens: Seq<nat>,
    i: int,
)
    requires
        runs(plan, tokens, targets, tr),
        lens_of(tr[0]) == lens,
        plan_fits(plan, lens, tokens, targets),
        0 <= i < plan.len(),
    ensures
        lens_of(tr[i]) == lens,
        lens_of(tr[i + 1]) == lens,
        tr[i + 1].len() == lens.len(),
        effect(plan[i], tokens, targets, tr[i], tr[i + 1]),
        forall|b: int|
            0 <= b < lens.len() && !writes_to(plan[i], b) ==> #[trigger] tr[i + 1][b] == tr[i][b],
{
    lemma_runs_frame(plan, tokens, targets, tr, lens, i, i + 1);
    assert forall|b: int| 0 <= b < lens.len() && !writes_to(plan[i], b) implies #[trigger]
        tr[i + 1][b] == tr[i][b] by {
        assert(spared(plan, i, i + 1, b));
    }
}

/// The forward pass of a layer brings about its equations, and changes nothing but its own
/// activations and the scratch buffers.
#[verifier::rlimit(60)]
#[verifier::spinoff_prover]
proof fn lemma_layer_forward<S: Scalar>(
    s: Shape,
    li: int,
    tokens: Seq<i32>,
    targets: Seq<i32>,
    tr: Seq<Mem<S>>,
)
    requires
        s.ok(),
        0 <= li < s.cfg.n_layer,
        lens_of(tr[0]) == bank_lens(s.cfg, s.vocab as int),
        runs(layer_forward_plan(s, li), tokens, targets, tr),
    ensures
        tr.len() == 14,
        lens_of(tr[13]) == lens_of(tr[0]),
        is_layer(s, layer_weights(s, tr[13], PARAMS as int, li), layer_values(s, tr[13], li)),
        holds_branches(
            s,
            layer_weights(s, tr[13], PARAMS as int, li),
            layer_values(s, tr[13], li),
            tr[13],
        ),
        forall|b: int|
            0 <= b < buf_count(s.cfg) && b != PROJ && b != MLPO && !of_layer(li, b)
                ==> #[trigger] tr[13][b] == tr[0][b],
{
    reveal(launched);
    reveal(fits);
    let plan = layer_forward_plan(s, li);
    let lens = bank_lens(s.cfg, s.vocab as int);
    lemma_layer_forward_fits(s, li, tokens, targets);
    s.lemma_numbers();
    s.lemma_weights(li);
    crate::plan::lemma_layer_spans(s, li);
    assert(buf_count(s.cfg) == lens.len());
    lemma_run_step(plan, tokens, targets, tr, lens, 0);
    lemma_run_step(plan, tokens, targets, tr, lens, 1);
    lemma_run_step(plan, tokens, targets, tr, lens, 2);
    lemma_run_step(plan, tokens, targets, tr, lens, 3);
    lemma_run_step(plan, tokens, targets, tr, lens, 4);
    lemma_run_step(plan, tokens, targets, tr, lens, 5);
    lemma_run_step(plan, tokens, targets, tr, lens, 6);
    lemma_run_step(plan, tokens, targets, tr, lens, 7);
    lemma_run_step(plan, tokens, targets, tr, lens, 8);
    lemma_run_step(plan, tokens, targets, tr, lens, 9);
    lemma_run_step(plan, tokens, targets, tr, lens, 10);
    lemma_run_step(plan, tokens, targets, tr, lens, 11);
    lemma_run_step(plan, tokens, targets, tr, lens, 12);
    let (c, c4) = (s.c() as nat, (4 * s.c()) as nat);
    let w = layer_weights(s, tr[13], PARAMS as int, li);
    let a = layer_values(s, tr[13], li);
    assert(layer_sized(s, a));
    assert(is_rmsnorm(a.xn, a.r1, a.xin, c));
    let q = s.act(li, Q as int, s.rc());
    lemma_linear_overwrites(read(tr[1], q), a.q, a.xn, w.wq, c, c);
    let k = s.act(li, K as int, s.rc());
    lemma_linear_overwrites(read(tr[2], k), a.k, a.xn, w.wk, c, c);
    let v = s.act(li, V as int, s.rc());
    lemma_linear_overwrites(read(tr[3], v), a.v, a.xn, w.wv, c, c);
    assert(is_attn_softmax(s.heads_spec(), a.att, a.q, a.k));
    assert(is_attn_mix(s.heads_spec(), Side::Past, a.atty, a.att, a.v));
    let proj = s.shared(PROJ as int, s.rc());
    lemma_linear_overwrites(read(tr[6], proj), read(tr[7], proj), a.atty, w.wo, c, c);
    assert(is_residual(a.x_mid, a.xin, a.atty, w.wo, c, c));
    assert(is_rmsnorm(a.xn2, a.r2, a.x_mid, c));
    let hpre = s.act(li, HPRE as int, s.rc4());
    lemma_linear_overwrites(read(tr[9], hpre), a.hpre, a.xn2, w.fc1, c4, c);
    assert(is_relu_fwd(a.h, a.hpre));
    let mlpo = s.shared(MLPO as int, s.rc());
    lemma_linear_overwrites(read(tr[11], mlpo), read(tr[12], mlpo), a.h, w.fc2, c, c4);
    assert(is_residual(a.x_out, a.x_mid, a.h, w.fc2, c, c4));
    assert(holds_branches(s, w, a, tr[13])) by {
        reveal(holds_branches);
    }
}

/// All matrices.
pub struct Weights<S> {
    pub wte: Seq<S>,
    pub wpe: Seq<S>,
    pub lm_head: Seq<S>,
    pub layers: Seq<LayerWeights<S>>,
}

/// All activations of a forward pass.
pub struct Values<S> {
    pub x0: Seq<S>,
    pub x1: Seq<S>,
    pub r0: Seq<S>,
    pub layers: Seq<LayerValues<S>>,
    pub logits: Seq<S>,
}

/// The matrices in buffer `buf`: the parameters, or their gradients.
pub open spec fn weights_of<S>(s: Shape, m: Mem<S>, buf: int) -> Weights<S> {
    Weights {
        wte: read(m, s.wte(buf)),
        wpe: read(m, s.wpe(buf)),
        lm_head: read(m, s.lm_head(buf)),
        layers: Seq::new(s.cfg.n_layer as nat, |li: int| layer_weights(s, m, buf, li)),
    }
}

/// The activations of the last forward pass.
pub open spec fn values_of<S>(s: Shape, m: Mem<S>) -> Values<S> {
    Values {
        x0: read(m, s.shared(X0 as int, s.rc())),
        x1: read(m, s.shared(X1 as int, s.rc())),
        r0: read(m, s.shared(R0 as int, s.rows as int)),
        layers: Seq::new(s.cfg.n_layer as nat, |li: int| layer_values(s, m, li)),
        logits: read(m, s.shared(LOGITS as int, s.rv())),
    }
}

/// What goes into layer `li`: the normalized embeddings, or what comes out of the layer
/// before.
pub open spec fn input_of<S>(a: Values<S>, li: int) -> Seq<S> {
    if li == 0 {
        a.x1
    } else {
        a.layers[li - 1].x_out
    }
}

/// The equations of the network: from the tokens through the layers to the logits.
pub open spec fn is_forward<S: Scalar>(
    s: Shape,
    w: Weights<S>,
    tokens: Seq<i32>,
    a: Values<S>,
) -> bool {
    let c = s.c() as nat;
    &&& a.x0.len() == s.rc()
    &&& a.x1.len() == s.rc()
    &&& a.r0.len() == s.rows
    &&& is_embed(a.x0, w.wte, w.wpe, tokens, s.t_len as nat, c)
    &&& is_rmsnorm(a.x1, a.r0, a.x0, c)
    &&& a.layers.len() == s.cfg.n_layer
    &&& forall|li: int|
        0 <= li < s.cfg.n_layer ==> is_layer(s, w.layers[li], #[trigger] a.layers[li])
            && a.layers[li].xin == input_of(a, li)
    &&& a.logits.len() == s.rv()
    &&& is_linear(
        a.logits,
        a.layers[s.cfg.n_layer - 1].x_out,
        w.lm_head,
        s.vocab as nat,
        c,
    )
}

/// A run of two plans is a run of each.
pub proof fn lemma_runs_split<S: Scalar>(
    a: Seq<Launch>,
    b: Seq<Launch>,
    tokens: Seq<i32>,
    targets: Seq<i32>,
    tr: Seq<Mem<S>>,
)
    requires
        runs(a + b, tokens, targets, tr),
    ensures
        runs(a, tokens, targets, tr.take(a.len() as int + 1)),
        runs(b, tokens, targets, tr.skip(a.len() as int)),
{
    let n = a.len() as int;
    assert forall|i: int| 0 <= i < n implies effect(
        #[trigger] a[i],
        tokens,
        targets,
        tr.take(n + 1)[i],
        tr.take(n + 1)[i + 1],
    ) by {
        assert((a + b)[i] == a[i]);
    }
    assert forall|i: int| 0 <= i < b.len() implies effect(
        #[trigger] b[i],
        tokens,
        targets,
        tr.skip(n)[i],
        tr.skip(n)[i + 1],
    ) by {
        assert((a + b)[n + i] == b[i]);
    }
}

/// The first `n` layers bring about their equations, and change nothing but their own
/// activations and the scratch buffers.
proof fn lemma_layers_forward<S: Scalar>(
    s: Shape,
    n: nat,
    tokens: Seq<i32>,
    targets: Seq<i32>,
    tr: Seq<Mem<S>>,
)
    requires
        s.ok(),
        n <= s.cfg.n_layer,
        lens_of(tr[0]) == bank_lens(s.cfg, s.vocab as int),
        runs(layers_forward_plan(s, n), tokens, targets, tr),
    ensures
        lens_of(tr.last()) == lens_of(tr[0]),
        forall|li: int|
            0 <= li < n ==> is_layer(
                s,
                layer_weights(s, tr.last(), PARAMS as int, li),
                #[trigger] layer_values(s, tr.last(), li),
            ),
        n > 0 ==> holds_branches(
            s,
            layer_weights(s, tr.last(), PARAMS as int, n - 1),
            layer_values(s, tr.last(), n - 1),
            tr.last(),
        ),
        forall|b: int|
            0 <= b < SHARED && b != PROJ && b != MLPO ==> #[trigger] tr.last()[b] == tr[0][b],
    decreases n,
{
    if n > 0 {
        let before = layers_forward_plan(s, (n - 1) as nat);
        let own = layer_forward_plan(s, n - 1);
        lemma_runs_split(before, own, tokens, targets, tr);
        let tr1 = tr.take(before.len() as int + 1);
        let tr2 = tr.skip(before.len() as int);
        lemma_layers_forward(s, (n - 1) as nat, tokens, targets, tr1);
        assert(tr2[0] == tr1.last());
        lemma_layer_forward(s, n - 1, tokens, targets, tr2);
        let (m1, m2) = (tr1.last(), tr.last());
        assert(m2 == tr2[13]);
        s.lemma_weights(0);
        assert forall|li: int| 0 <= li < n implies is_layer(
            s,
            layer_weights(s, m2, PARAMS as int, li),
            #[trigger] layer_values(s, m2, li),
        ) by {
            if li < n - 1 {
                assert(is_layer(
                    s,
                    layer_weights(s, m1, PARAMS as int, li),
                    layer_values(s, m1, li),
                ));
                lemma_layer_kept(s, li, m1, m2);
            }
        }
    }
}

/// A layer reads nothing but the parameters, its input and its own activations.
proof fn lemma_layer_kept<S>(s: Shape, li: int, m1: Mem<S>, m2: Mem<S>)
    requires
        s.ok(),
        0 <= li < s.cfg.n_layer,
        m1[PARAMS as int] == m2[PARAMS as int],
        m1[X1 as int] == m2[X1 as int],
        forall|b: int|
            (of_layer(li, b) || (li > 0 && of_layer(li - 1, b))) ==> #[trigger] m2[b] == m1[b],
    ensures
        layer_weights(s, m2, PARAMS as int, li) == layer_weights(s, m1, PARAMS as int, li),
        layer_values(s, m2, li) == layer_values(s, m1, li),
{
    assert forall|k: int| 0 <= k < ACTS implies m2[SHARED + li * ACTS + k] == #[trigger] m1[SHARED
        + li * ACTS + k] by {
        assert(of_layer(li, SHARED + li * ACTS + k));
    }
    if li > 0 {
        let b = SHARED + (li - 1) * ACTS + X_OUT;
        assert(of_layer(li - 1, b));
        assert(m2[b] == m1[b]);
    }
}

/// Whoever carries out the forward plan computes the network: from the parameters and the
/// tokens, the activations and the logits satisfy the equations. Nothing else changes but
/// the scratch buffers, which hold what the last layer adds.
pub proof fn law_forward_plan_computes_network<S: Scalar>(
    s: Shape,
    tokens: Seq<i32>,
    targets: Seq<i32>,
    tr: Seq<Mem<S>>,
)
    requires
        s.ok(),
        run_tokens(s, tokens),
        lens_of(tr[0]) == bank_lens(s.cfg, s.vocab as int),
        runs(forward_plan(s), tokens, targets, tr),
    ensures
        is_forward(
            s,
            weights_of(s, tr[0], PARAMS as int),
            tokens,
            values_of(s, tr.last()),
        ),
        holds_branches(
            s,
            weights_of(s, tr[0], PARAMS as int).layers[s.cfg.n_layer - 1],
            values_of(s, tr.last()).layers[s.cfg.n_layer - 1],
            tr.last(),
        ),
        lens_of(tr.last()) == lens_of(tr[0]),
        forall|b: int|
            0 <= b < SHARED && b != X0 && b != X1 && b != R0 && b != PROJ && b != MLPO && b
                != LOGITS ==> #[trigger] tr.last()[b] == tr[0][b],
{
    let n = s.cfg.n_layer as nat;
    let lens = bank_lens(s.cfg, s.vocab as int);
    let first = embed_plan(s);
    let middle = layers_forward_plan(s, n);
    let end = head_plan(s);
    let plan = forward_plan(s);
    crate::plan::law_forward_plan_fits(s, tokens, targets);
    lemma_runs_split(first + middle, end, tokens, targets, tr);
    let tr12 = tr.take((first + middle).len() as int + 1);
    let tr3 = tr.skip((first + middle).len() as int);
    lemma_runs_split(first, middle, tokens, targets, tr12);
    let tr1 = tr12.take(first.len() as int + 1);
    let tr2 = tr12.skip(first.len() as int);
    assert(plan_fits(first, lens, tokens, targets)) by {
        assert forall|i: int| 0 <= i < first.len() implies fits(
            #[trigger] first[i],
            lens,
            tokens,
            targets,
        ) by {
            assert(plan[i] == first[i]);
        }
    }
    assert(plan_fits(end, lens, tokens, targets)) by {
        assert(plan[(first + middle).len() as int] == end[0]);
    }
    lemma_embed_forward(s, tokens, targets, tr1);
    assert(tr2[0] == tr1[2]);
    lemma_layers_forward(s, n, tokens, targets, tr2);
    assert(tr3[0] == tr2.last());
    lemma_head_forward(s, tokens, targets, tr3);
    let (m0, m1, m2, m3) = (tr[0], tr1[2], tr2.last(), tr.last());
    assert(m0 == tr1[0]);
    assert(m3 == tr3[1]);
    let (w, a) = (weights_of(s, m0, PARAMS as int), values_of(s, m3));
    assert forall|li: int| 0 <= li < n implies is_layer(s, w.layers[li], #[trigger] a.layers[li])
        && a.layers[li].xin == input_of(a, li) by {
        assert(is_layer(s, layer_weights(s, m2, PARAMS as int, li), layer_values(s, m2, li)));
        lemma_layer_kept(s, li, m2, m3);
        assert(layer_weights(s, m2, PARAMS as int, li) == w.layers[li]);
    }
    lemma_layer_kept(s, n - 1, m2, m3);
    assert(holds_branches(s, w.layers[n - 1], a.layers[n - 1], m3)) by {
        assert(layer_weights(s, m2, PARAMS as int, n - 1) == w.layers[n - 1]);
        assert(m3[PROJ as int] == m2[PROJ as int] && m3[MLPO as int] == m2[MLPO as int]);
        reveal(holds_branches);
    }
}

/// What the embedding launches do.
proof fn lemma_embed_forward<S: Scalar>(
    s: Shape,
    tokens: Seq<i32>,
    targets: Seq<i32>,
    tr: Seq<Mem<S>>,
)
    requires
        s.ok(),
        lens_of(tr[0]) == bank_lens(s.cfg, s.vocab as int),
        runs(embed_plan(s), tokens, targets, tr),
        plan_fits(embed_plan(s), bank_lens(s.cfg, s.vocab as int), tokens, targets),
    ensures
        lens_of(tr[2]) == lens_of(tr[0]),
        read(tr[2], s.shared(X0 as int, s.rc())).len() == s.rc(),
        read(tr[2], s.shared(X1 as int, s.rc())).len() == s.rc(),
        read(tr[2], s.shared(R0 as int, s.rows as int)).len() == s.rows,
        is_embed(
            read(tr[2], s.shared(X0 as int, s.rc())),
            read(tr[0], s.wte(PARAMS as int)),
            read(tr[0], s.wpe(PARAMS as int)),
            tokens,
            s.t_len as nat,
            s.c() as nat,
        ),
        is_rmsnorm(
            read(tr[2], s.shared(X1 as int, s.rc())),
            read(tr[2], s.shared(R0 as int, s.rows as int)),
            read(tr[2], s.shared(X0 as int, s.rc())),
            s.c() as nat,
        ),
        forall|b: int|
            0 <= b < buf_count(s.cfg) && b != X0 && b != X1 && b != R0 ==> #[trigger] tr[2][b]
                == tr[0][b],
{
    reveal(launched);
    reveal(fits);
    let lens = bank_lens(s.cfg, s.vocab as int);
    s.lemma_numbers();
    s.lemma_weights(0);
    assert(buf_count(s.cfg) == lens.len());
    lemma_run_step(embed_plan(s), tokens, targets, tr, lens, 0);
    lemma_run_step(embed_plan(s), tokens, targets, tr, lens, 1);
}

/// What the launch of the output head does.
proof fn lemma_head_forward<S: Scalar>(
    s: Shape,
    tokens: Seq<i32>,
    targets: Seq<i32>,
    tr: Seq<Mem<S>>,
)
    requires
        s.ok(),
        lens_of(tr[0]) == bank_lens(s.cfg, s.vocab as int),
        runs(head_plan(s), tokens, targets, tr),
        plan_fits(head_plan(s), bank_lens(s.cfg, s.vocab as int), tokens, targets),
    ensures
        lens_of(tr[1]) == lens_of(tr[0]),
        read(tr[1], s.shared(LOGITS as int, s.rv())).len() == s.rv(),
        is_linear(
            read(tr[1], s.shared(LOGITS as int, s.rv())),
            layer_values(s, tr[0], s.cfg.n_layer - 1).x_out,
            read(tr[0], s.lm_head(PARAMS as int)),
            s.vocab as nat,
            s.c() as nat,
        ),
        forall|b: int|
            0 <= b < buf_count(s.cfg) && b != LOGITS ==> #[trigger] tr[1][b] == tr[0][b],
{
    reveal(launched);
    reveal(fits);
    let lens = bank_lens(s.cfg, s.vocab as int);
    s.lemma_numbers();
    s.lemma_weights(0);
    assert(buf_count(s.cfg) == lens.len());
    lemma_run_step(head_plan(s), tokens, targets, tr, lens, 0);
    let logits = s.shared(LOGITS as int, s.rv());
    lemma_linear_overwrites(
        read(tr[0], logits),
        read(tr[1], logits),
        layer_values(s, tr[0], s.cfg.n_layer - 1).x_out,
        read(tr[0], s.lm_head(PARAMS as int)),
        s.vocab as nat,
        s.c() as nat,
    );
}

} // verus!
