//! The launches of a forward and of a backward pass, in order.
use vstd::prelude::*;

use crate::attention::Heads;
use crate::bank::{fits, inside, plan_fits, Launch, Span};
use crate::layout::{LayerOff, Layout};
use crate::loss::valid_targets;
use crate::shape::{
    bank_lens, buf_len, Shape, ACTS, ATT, ATTY, D_ATT, D_ATTY, D_H, D_K, D_LOGITS, D_Q, D_SCORES,
    D_V, D_X, D_X0, D_X2, D_XIN, D_XN, D_XN2, GRADS, H, HPRE, K, LOGITS, LOSSES, MLPO, PARAMS,
    PROBS, PROJ, Q, R0, R1, R2, SHARED, V, X0, X1, XN, XN2, X_MID, X_OUT,
};

verus! {

/// Token plus position embeddings, normalized.
pub open spec fn embed_plan(s: Shape) -> Seq<Launch> {
    let c = s.cfg.n_embd;
    seq![
        Launch::EmbedFwd {
            x: s.shared(X0 as int, s.rc()),
            wte: s.wte(PARAMS as int),
            wpe: s.wpe(PARAMS as int),
            t_len: s.t_len,
            c,
        },
        Launch::RmsnormFwd {
            y: s.shared(X1 as int, s.rc()),
            rinv: s.shared(R0 as int, s.rows as int),
            x: s.shared(X0 as int, s.rc()),
            c,
        },
    ]
}

/// A product that replaces what `y` holds.
pub open spec fn linear(y: Span, x: Span, w: Span, n: int, k: int) -> Launch {
    Launch::MatmulNt { y, x, w, n: n as usize, k: k as usize, accum: false }
}

/// Layer `li`: attention and its residual, then the perceptron and its residual.
pub open spec fn layer_forward_plan(s: Shape, li: int) -> Seq<Launch> {
    let c = s.cfg.n_embd;
    let c4 = 4 * s.c();
    let hs = s.heads_spec();
    let xn = s.act(li, XN as int, s.rc());
    let q = s.act(li, Q as int, s.rc());
    let k = s.act(li, K as int, s.rc());
    let v = s.act(li, V as int, s.rc());
    let att = s.act(li, ATT as int, s.att());
    let atty = s.act(li, ATTY as int, s.rc());
    let proj = s.shared(PROJ as int, s.rc());
    let x_mid = s.act(li, X_MID as int, s.rc());
    let xn2 = s.act(li, XN2 as int, s.rc());
    let hpre = s.act(li, HPRE as int, s.rc4());
    let h = s.act(li, H as int, s.rc4());
    let mlpo = s.shared(MLPO as int, s.rc());
    let x_out = s.act(li, X_OUT as int, s.rc());
    let p = PARAMS as int;
    seq![
        Launch::RmsnormFwd { y: xn, rinv: s.act(li, R1 as int, s.rows as int), x: s.xin(li), c },
        linear(q, xn, s.wq(p, li), s.c(), s.c()),
        linear(k, xn, s.wk(p, li), s.c(), s.c()),
        linear(v, xn, s.wv(p, li), s.c(), s.c()),
        Launch::AttnSoftmaxFwd { att, q, keys: k, hs },
        Launch::AttnMixFwd { y: atty, att, v, hs },
        linear(proj, atty, s.wo(p, li), s.c(), s.c()),
        Launch::AddFwd { y: x_mid, a: s.xin(li), b: proj },
        Launch::RmsnormFwd { y: xn2, rinv: s.act(li, R2 as int, s.rows as int), x: x_mid, c },
        linear(hpre, xn2, s.fc1(p, li), c4, s.c()),
        Launch::ReluFwd { y: h, x: hpre },
        linear(mlpo, h, s.fc2(p, li), s.c(), c4),
        Launch::AddFwd { y: x_out, a: x_mid, b: mlpo },
    ]
}

/// The first `n` layers.
pub open spec fn layers_forward_plan(s: Shape, n: nat) -> Seq<Launch>
    decreases n,
{
    if n == 0 {
        Seq::empty()
    } else {
        layers_forward_plan(s, (n - 1) as nat) + layer_forward_plan(s, n - 1)
    }
}

/// The output head.
pub open spec fn head_plan(s: Shape) -> Seq<Launch> {
    seq![
        linear(
            s.shared(LOGITS as int, s.rv()),
            s.act(s.cfg.n_layer - 1, X_OUT as int, s.rc()),
            s.lm_head(PARAMS as int),
            s.vocab as int,
            s.c(),
        ),
    ]
}

/// The forward pass: embeddings, layers, output head.
pub open spec fn forward_plan(s: Shape) -> Seq<Launch> {
    embed_plan(s) + layers_forward_plan(s, s.cfg.n_layer as nat) + head_plan(s)
}

/// The loss against the targets.
pub open spec fn loss_plan(s: Shape) -> Seq<Launch> {
    seq![
        Launch::CeFwd {
            losses: s.shared(LOSSES as int, s.rows as int),
            probs: s.shared(PROBS as int, s.rv()),
            logits: s.shared(LOGITS as int, s.rv()),
            vocab: s.vocab,
        },
    ]
}

/// The backward pass of the loss and of the output head.
pub open spec fn head_backward_plan(s: Shape, valid: usize) -> Seq<Launch> {
    let d_logits = s.shared(D_LOGITS as int, s.rv());
    let x_final = s.act(s.cfg.n_layer - 1, X_OUT as int, s.rc());
    seq![
        Launch::CeBwd {
            dlogits: d_logits,
            probs: s.shared(PROBS as int, s.rv()),
            vocab: s.vocab,
            valid,
        },
        Launch::MatmulTn {
            dw: s.lm_head(GRADS as int),
            dy: d_logits,
            x: x_final,
            m: s.vocab,
            n: s.cfg.n_embd,
            k: s.rows,
        },
        Launch::MatmulNn {
            y: s.shared(D_X as int, s.rc()),
            x: d_logits,
            w: s.lm_head(PARAMS as int),
            n: s.cfg.n_embd,
            k: s.vocab,
            accum: false,
        },
    ]
}

/// The backward pass of a product to its weights.
pub open spec fn to_weights(s: Shape, dw: Span, dy: Span, x: Span, m: int, n: int) -> Launch {
    Launch::MatmulTn { dw, dy, x, m: m as usize, n: n as usize, k: s.rows }
}

/// The backward pass of a product to its input.
pub open spec fn to_input(y: Span, x: Span, w: Span, n: int, k: int, accum: bool) -> Launch {
    Launch::MatmulNn { y, x, w, n: n as usize, k: k as usize, accum }
}

/// The backward pass of the perceptron of layer `li`, from the gradient of its output in
/// `D_X` to that of its input in `D_X2`.
pub open spec fn mlp_backward_plan(s: Shape, li: int) -> Seq<Launch> {
    let c = s.c();
    let c4 = 4 * s.c();
    let rc = s.rc();
    let (p, g) = (PARAMS as int, GRADS as int);
    let d_x = s.shared(D_X as int, rc);
    let d_h = s.shared(D_H as int, s.rc4());
    let d_xn2 = s.shared(D_XN2 as int, rc);
    let d_x2 = s.shared(D_X2 as int, rc);
    seq![
        to_weights(s, s.fc2(g, li), d_x, s.act(li, H as int, s.rc4()), c, c4),
        to_input(d_h, d_x, s.fc2(p, li), c4, c, false),
        Launch::ReluBwdInplace { d: d_h, x: s.act(li, HPRE as int, s.rc4()) },
        to_weights(s, s.fc1(g, li), d_h, s.act(li, XN2 as int, rc), c4, c),
        to_input(d_xn2, d_h, s.fc1(p, li), c, c4, false),
        Launch::RmsnormBwd {
            dx: d_x2,
            x: s.act(li, X_MID as int, rc),
            rinv: s.act(li, R2 as int, s.rows as int),
            dy: d_xn2,
            c: s.cfg.n_embd,
            accum: false,
        },
        Launch::AddInplace { y: d_x2, x: d_x },
    ]
}

/// The backward pass of the attention of layer `li`, from the gradient of its output in
/// `D_X2` to that of its input, which ends up in `D_X`.
pub open spec fn attention_backward_plan(s: Shape, li: int) -> Seq<Launch> {
    let c = s.c();
    let hs = s.heads_spec();
    let rc = s.rc();
    let (p, g) = (PARAMS as int, GRADS as int);
    let d_xin = s.shared(D_XIN as int, rc);
    let d_x2 = s.shared(D_X2 as int, rc);
    let d_atty = s.shared(D_ATTY as int, rc);
    let d_att = s.shared(D_ATT as int, s.att());
    let d_scores = s.shared(D_SCORES as int, s.att());
    let d_q = s.shared(D_Q as int, rc);
    let d_k = s.shared(D_K as int, rc);
    let d_v = s.shared(D_V as int, rc);
    let d_xn = s.shared(D_XN as int, rc);
    let xn = s.act(li, XN as int, rc);
    let att = s.act(li, ATT as int, s.att());
    seq![
        to_weights(s, s.wo(g, li), d_x2, s.act(li, ATTY as int, rc), c, c),
        to_input(d_atty, d_x2, s.wo(p, li), c, c, false),
        Launch::AttnMixBwdDp { dp: d_att, dy: d_atty, v: s.act(li, V as int, rc), hs },
        Launch::AttnMixBwdDv { dv: d_v, att, dy: d_atty, hs },
        Launch::AttnSoftmaxBwd { ds: d_scores, att, dp: d_att, hs },
        Launch::AttnScoresBwdDq { dq: d_q, ds: d_scores, keys: s.act(li, K as int, rc), hs },
        Launch::AttnScoresBwdDk { dk: d_k, ds: d_scores, q: s.act(li, Q as int, rc), hs },
        to_weights(s, s.wq(g, li), d_q, xn, c, c),
        to_weights(s, s.wk(g, li), d_k, xn, c, c),
        to_weights(s, s.wv(g, li), d_v, xn, c, c),
        to_input(d_xn, d_q, s.wq(p, li), c, c, false),
        to_input(d_xn, d_k, s.wk(p, li), c, c, true),
        to_input(d_xn, d_v, s.wv(p, li), c, c, true),
        Launch::RmsnormBwd {
            dx: d_xin,
            x: s.xin(li),
            rinv: s.act(li, R1 as int, s.rows as int),
            dy: d_xn,
            c: s.cfg.n_embd,
            accum: false,
        },
        Launch::AddInplace { y: d_xin, x: d_x2 },
        Launch::Swap { first: D_X, second: D_XIN },
    ]
}

/// The backward pass of layer `li`: the perceptron, then attention.
pub open spec fn layer_backward_plan(s: Shape, li: int) -> Seq<Launch> {
    mlp_backward_plan(s, li) + attention_backward_plan(s, li)
}

/// The backward pass of the last `n` layers, the last one first.
pub open spec fn layers_backward_plan(s: Shape, n: nat) -> Seq<Launch>
    decreases n,
{
    if n == 0 {
        Seq::empty()
    } else {
        layers_backward_plan(s, (n - 1) as nat) + layer_backward_plan(s, s.cfg.n_layer - n)
    }
}

/// The backward pass of the embeddings.
pub open spec fn embed_backward_plan(s: Shape) -> Seq<Launch> {
    let d_x0 = s.shared(D_X0 as int, s.rc());
    seq![
        Launch::RmsnormBwd {
            dx: d_x0,
            x: s.shared(X0 as int, s.rc()),
            rinv: s.shared(R0 as int, s.rows as int),
            dy: s.shared(D_X as int, s.rc()),
            c: s.cfg.n_embd,
            accum: false,
        },
        Launch::EmbedBwdWte { dwte: s.wte(GRADS as int), dx: d_x0, c: s.cfg.n_embd },
        Launch::EmbedBwdWpe {
            dwpe: s.wpe(GRADS as int),
            dx: d_x0,
            rows: s.rows,
            t_len: s.t_len,
            c: s.cfg.n_embd,
        },
    ]
}

/// The backward pass: output head, layers from the last to the first, embeddings.
pub open spec fn backward_plan(s: Shape, valid: usize) -> Seq<Launch> {
    head_backward_plan(s, valid) + layers_backward_plan(s, s.cfg.n_layer as nat)
        + embed_backward_plan(s)
}

/// A span of a shared buffer lies within the bank.
proof fn lemma_shared_inside(s: Shape, buf: int, len: int)
    requires
        s.ok(),
        0 <= buf < SHARED,
        0 <= len <= buf_len(s.cfg, s.vocab as int, buf),
        len <= usize::MAX,
    ensures
        inside(bank_lens(s.cfg, s.vocab as int), s.shared(buf, len)),
        s.shared(buf, len).len == len,
        s.shared(buf, len).buf == buf,
{
}

/// A span of an activation lies within the bank.
proof fn lemma_act_inside(s: Shape, li: int, k: int, len: int)
    requires
        s.ok(),
        0 <= li < s.cfg.n_layer,
        0 <= k < ACTS,
        0 <= len <= buf_len(s.cfg, s.vocab as int, SHARED + li * ACTS + k),
        len <= usize::MAX,
    ensures
        inside(bank_lens(s.cfg, s.vocab as int), s.act(li, k, len)),
        s.act(li, k, len).len == len,
        s.act(li, k, len).buf == SHARED + li * ACTS + k,
{
}

/// The spans of layer `li` lie within the bank.
pub proof fn lemma_layer_spans(s: Shape, li: int)
    requires
        s.ok(),
        0 <= li < s.cfg.n_layer,
    ensures
        forall|k: int|
            0 <= k < ACTS && k != ATT && k != HPRE && k != H && k != R1 && k != R2 ==> inside(
                bank_lens(s.cfg, s.vocab as int),
                #[trigger] s.act(li, k, s.rc()),
            ) && s.act(li, k, s.rc()).len == s.rc() && s.act(li, k, s.rc()).buf == SHARED + li
                * ACTS + k,
{
    s.lemma_numbers();
    assert forall|k: int|
        0 <= k < ACTS && k != ATT && k != HPRE && k != H && k != R1 && k != R2 implies inside(
        bank_lens(s.cfg, s.vocab as int),
        #[trigger] s.act(li, k, s.rc()),
    ) && s.act(li, k, s.rc()).len == s.rc() && s.act(li, k, s.rc()).buf == SHARED + li * ACTS
        + k by {
        lemma_act_inside(s, li, k, s.rc());
    }
}

/// Every launch of the forward pass of layer `li` fits.
pub proof fn lemma_layer_forward_fits(s: Shape, li: int, tokens: Seq<i32>, targets: Seq<i32>)
    requires
        s.ok(),
        0 <= li < s.cfg.n_layer,
    ensures
        plan_fits(layer_forward_plan(s, li), bank_lens(s.cfg, s.vocab as int), tokens, targets),
{
    reveal(fits);
    s.lemma_numbers();
    s.lemma_weights(li);
    lemma_layer_spans(s, li);
    if li > 0 {
        lemma_layer_spans(s, li - 1);
    }
    lemma_act_inside(s, li, ATT as int, s.att());
    lemma_act_inside(s, li, HPRE as int, s.rc4());
    lemma_act_inside(s, li, H as int, s.rc4());
    lemma_act_inside(s, li, R1 as int, s.rows as int);
    lemma_act_inside(s, li, R2 as int, s.rows as int);
    lemma_shared_inside(s, X1 as int, s.rc());
    lemma_shared_inside(s, PROJ as int, s.rc());
    lemma_shared_inside(s, MLPO as int, s.rc());
    let plan = layer_forward_plan(s, li);
    let lens = bank_lens(s.cfg, s.vocab as int);
    assert(fits(plan[0], lens, tokens, targets));
    assert(fits(plan[1], lens, tokens, targets));
    assert(fits(plan[2], lens, tokens, targets));
    assert(fits(plan[3], lens, tokens, targets));
    assert(fits(plan[4], lens, tokens, targets));
    assert(fits(plan[5], lens, tokens, targets));
    assert(fits(plan[6], lens, tokens, targets));
    assert(fits(plan[7], lens, tokens, targets));
    assert(fits(plan[8], lens, tokens, targets));
    assert(fits(plan[9], lens, tokens, targets));
    assert(fits(plan[10], lens, tokens, targets));
    assert(fits(plan[11], lens, tokens, targets));
    assert(fits(plan[12], lens, tokens, targets));
}

/// Every launch of the backward pass of the perceptron of layer `li` fits.
pub proof fn lemma_mlp_backward_fits(s: Shape, li: int, tokens: Seq<i32>, targets: Seq<i32>)
    requires
        s.ok(),
        0 <= li < s.cfg.n_layer,
    ensures
        plan_fits(mlp_backward_plan(s, li), bank_lens(s.cfg, s.vocab as int), tokens, targets),
{
    reveal(fits);
    s.lemma_numbers();
    s.lemma_weights(li);
    lemma_layer_spans(s, li);
    lemma_act_inside(s, li, HPRE as int, s.rc4());
    lemma_act_inside(s, li, H as int, s.rc4());
    lemma_act_inside(s, li, R2 as int, s.rows as int);
    lemma_shared_inside(s, D_X as int, s.rc());
    lemma_shared_inside(s, D_H as int, s.rc4());
    lemma_shared_inside(s, D_XN2 as int, s.rc());
    lemma_shared_inside(s, D_X2 as int, s.rc());
    let plan = mlp_backward_plan(s, li);
    let lens = bank_lens(s.cfg, s.vocab as int);
    assert(fits(plan[0], lens, tokens, targets));
    assert(fits(plan[1], lens, tokens, targets));
    assert(fits(plan[2], lens, tokens, targets));
    assert(fits(plan[3], lens, tokens, targets));
    assert(fits(plan[4], lens, tokens, targets));
    assert(fits(plan[5], lens, tokens, targets));
    assert(fits(plan[6], lens, tokens, targets));
}

/// Every launch of the backward pass of the attention of layer `li` fits.
#[verifier::spinoff_prover]
#[verifier::rlimit(40)]
pub proof fn lemma_attention_backward_fits(
    s: Shape,
    li: int,
    tokens: Seq<i32>,
    targets: Seq<i32>,
)
    requires
        s.ok(),
        0 <= li < s.cfg.n_layer,
    ensures
        plan_fits(
            attention_backward_plan(s, li),
            bank_lens(s.cfg, s.vocab as int),
            tokens,
            targets,
        ),
{
    reveal(fits);
    s.lemma_numbers();
    s.lemma_weights(li);
    lemma_layer_spans(s, li);
    if li > 0 {
        lemma_layer_spans(s, li - 1);
    }
    lemma_act_inside(s, li, ATT as int, s.att());
    lemma_act_inside(s, li, R1 as int, s.rows as int);
    lemma_shared_inside(s, X1 as int, s.rc());
    lemma_shared_inside(s, D_X as int, s.rc());
    lemma_shared_inside(s, D_XIN as int, s.rc());
    lemma_shared_inside(s, D_X2 as int, s.rc());
    lemma_shared_inside(s, D_ATTY as int, s.rc());
    lemma_shared_inside(s, D_ATT as int, s.att());
    lemma_shared_inside(s, D_SCORES as int, s.att());
    lemma_shared_inside(s, D_Q as int, s.rc());
    lemma_shared_inside(s, D_K as int, s.rc());
    lemma_shared_inside(s, D_V as int, s.rc());
    lemma_shared_inside(s, D_XN as int, s.rc());
    let plan = attention_backward_plan(s, li);
    let lens = bank_lens(s.cfg, s.vocab as int);
    assert(fits(plan[0], lens, tokens, targets));
    assert(fits(plan[1], lens, tokens, targets));
    assert(fits(plan[2], lens, tokens, targets));
    assert(fits(plan[3], lens, tokens, targets));
    assert(fits(plan[4], lens, tokens, targets));
    assert(fits(plan[5], lens, tokens, targets));
    assert(fits(plan[6], lens, tokens, targets));
    assert(fits(plan[7], lens, tokens, targets));
    assert(fits(plan[8], lens, tokens, targets));
    assert(fits(plan[9], lens, tokens, targets));
    assert(fits(plan[10], lens, tokens, targets));
    assert(fits(plan[11], lens, tokens, targets));
    assert(fits(plan[12], lens, tokens, targets));
    assert(fits(plan[13], lens, tokens, targets));
    assert(fits(plan[14], lens, tokens, targets));
    assert(fits(plan[15], lens, tokens, targets));
}

/// Every launch of the backward pass of layer `li` fits.
pub proof fn lemma_layer_backward_fits(s: Shape, li: int, tokens: Seq<i32>, targets: Seq<i32>)
    requires
        s.ok(),
        0 <= li < s.cfg.n_layer,
    ensures
        plan_fits(layer_backward_plan(s, li), bank_lens(s.cfg, s.vocab as int), tokens, targets),
{
    lemma_mlp_backward_fits(s, li, tokens, targets);
    lemma_attention_backward_fits(s, li, tokens, targets);
    lemma_fits_append(
        mlp_backward_plan(s, li),
        attention_backward_plan(s, li),
        bank_lens(s.cfg, s.vocab as int),
        tokens,
        targets,
    );
}

/// Plans that fit make up a plan that fits.
proof fn lemma_fits_append(
    a: Seq<Launch>,
    b: Seq<Launch>,
    lens: Seq<nat>,
    tokens: Seq<i32>,
    targets: Seq<i32>,
)
    requires
        plan_fits(a, lens, tokens, targets),
        plan_fits(b, lens, tokens, targets),
    ensures
        plan_fits(a + b, lens, tokens, targets),
{
    assert forall|i: int| 0 <= i < (a + b).len() implies fits(
        #[trigger] (a + b)[i],
        lens,
        tokens,
        targets,
    ) by {
        if i < a.len() {
            assert((a + b)[i] == a[i]);
        } else {
            assert((a + b)[i] == b[i - a.len()]);
        }
    }
}

proof fn lemma_layers_forward_fit(s: Shape, n: nat, tokens: Seq<i32>, targets: Seq<i32>)
    requires
        s.ok(),
        n <= s.cfg.n_layer,
    ensures
        plan_fits(layers_forward_plan(s, n), bank_lens(s.cfg, s.vocab as int), tokens, targets),
    decreases n,
{
    if n > 0 {
        lemma_layers_forward_fit(s, (n - 1) as nat, tokens, targets);
        lemma_layer_forward_fits(s, n - 1, tokens, targets);
        lemma_fits_append(
            layers_forward_plan(s, (n - 1) as nat),
            layer_forward_plan(s, n - 1),
            bank_lens(s.cfg, s.vocab as int),
            tokens,
            targets,
        );
    }
}

proof fn lemma_layers_backward_fit(s: Shape, n: nat, tokens: Seq<i32>, targets: Seq<i32>)
    requires
        s.ok(),
        n <= s.cfg.n_layer,
    ensures
        plan_fits(layers_backward_plan(s, n), bank_lens(s.cfg, s.vocab as int), tokens, targets),
    decreases n,
{
    if n > 0 {
        lemma_layers_backward_fit(s, (n - 1) as nat, tokens, targets);
        lemma_layer_backward_fits(s, s.cfg.n_layer - n, tokens, targets);
        lemma_fits_append(
            layers_backward_plan(s, (n - 1) as nat),
            layer_backward_plan(s, s.cfg.n_layer - n),
            bank_lens(s.cfg, s.vocab as int),
            tokens,
            targets,
        );
    }
}

/// The tokens of a run: one of the vocabulary for each row.
pub open spec fn run_tokens(s: Shape, tokens: Seq<i32>) -> bool {
    &&& tokens.len() == s.rows
    &&& forall|r: int| 0 <= r < tokens.len() ==> 0 <= #[trigger] tokens[r] < s.vocab
}

/// Every launch of the forward pass stays within the buffers it names, reads nothing from
/// a buffer it writes, and gets operands of matching shapes.
pub proof fn law_forward_plan_fits(s: Shape, tokens: Seq<i32>, targets: Seq<i32>)
    requires
        s.ok(),
        run_tokens(s, tokens),
    ensures
        plan_fits(forward_plan(s), bank_lens(s.cfg, s.vocab as int), tokens, targets),
{
    reveal(fits);
    let lens = bank_lens(s.cfg, s.vocab as int);
    let n = s.cfg.n_layer as nat;
    s.lemma_numbers();
    s.lemma_weights(0);
    lemma_layer_spans(s, s.cfg.n_layer - 1);
    lemma_shared_inside(s, X0 as int, s.rc());
    lemma_shared_inside(s, X1 as int, s.rc());
    lemma_shared_inside(s, R0 as int, s.rows as int);
    lemma_shared_inside(s, LOGITS as int, s.rv());
    crate::index::lemma_whole_rows(s.vocab as int, s.c());
    assert(fits(embed_plan(s)[0], lens, tokens, targets));
    assert(fits(embed_plan(s)[1], lens, tokens, targets));
    lemma_layers_forward_fit(s, n, tokens, targets);
    lemma_fits_append(embed_plan(s), layers_forward_plan(s, n), lens, tokens, targets);
    assert(fits(head_plan(s)[0], lens, tokens, targets));
    lemma_fits_append(
        embed_plan(s) + layers_forward_plan(s, n),
        head_plan(s),
        lens,
        tokens,
        targets,
    );
}

/// The launch of the loss fits in the same sense.
pub proof fn law_loss_plan_fits(s: Shape, tokens: Seq<i32>, targets: Seq<i32>)
    requires
        s.ok(),
        targets.len() == s.rows,
        valid_targets(targets, s.vocab as int),
    ensures
        plan_fits(loss_plan(s), bank_lens(s.cfg, s.vocab as int), tokens, targets),
{
    reveal(fits);
    s.lemma_numbers();
    lemma_shared_inside(s, LOSSES as int, s.rows as int);
    lemma_shared_inside(s, PROBS as int, s.rv());
    lemma_shared_inside(s, LOGITS as int, s.rv());
    assert(fits(loss_plan(s)[0], bank_lens(s.cfg, s.vocab as int), tokens, targets));
}

/// Every launch of the backward pass fits in the same sense.
pub proof fn law_backward_plan_fits(
    s: Shape,
    valid: usize,
    tokens: Seq<i32>,
    targets: Seq<i32>,
)
    requires
        s.ok(),
        run_tokens(s, tokens),
        targets.len() == s.rows,
    ensures
        plan_fits(backward_plan(s, valid), bank_lens(s.cfg, s.vocab as int), tokens, targets),
{
    reveal(fits);
    let lens = bank_lens(s.cfg, s.vocab as int);
    let n = s.cfg.n_layer as nat;
    s.lemma_numbers();
    s.lemma_weights(0);
    lemma_layer_spans(s, s.cfg.n_layer - 1);
    lemma_shared_inside(s, X0 as int, s.rc());
    lemma_shared_inside(s, R0 as int, s.rows as int);
    lemma_shared_inside(s, PROBS as int, s.rv());
    lemma_shared_inside(s, D_LOGITS as int, s.rv());
    lemma_shared_inside(s, D_X as int, s.rc());
    lemma_shared_inside(s, D_X0 as int, s.rc());
    crate::index::lemma_whole_rows(s.vocab as int, s.c());
    let head = head_backward_plan(s, valid);
    let tail = embed_backward_plan(s);
    assert(fits(head[0], lens, tokens, targets));
    assert(fits(head[1], lens, tokens, targets));
    assert(fits(head[2], lens, tokens, targets));
    assert(fits(tail[0], lens, tokens, targets));
    assert(fits(tail[1], lens, tokens, targets));
    assert(fits(tail[2], lens, tokens, targets));
    lemma_layers_backward_fit(s, n, tokens, targets);
    lemma_fits_append(head, layers_backward_plan(s, n), lens, tokens, targets);
    lemma_fits_append(head + layers_backward_plan(s, n), tail, lens, tokens, targets);
}

impl Shape {
    /// The first `len` numbers of buffer `buf`.
    fn shared_span(&self, buf: usize, len: usize) -> (z: Span)
        ensures
            z == self.shared(buf as int, len as int),
    {
        Span { buf, start: 0, len }
    }

    /// The first `len` numbers of activation `k` of layer `li`.
    fn act_span(&self, li: usize, k: usize, len: usize) -> (z: Span)
        requires
            self.ok(),
            li < self.cfg.n_layer,
            k < ACTS,
        ensures
            z == self.act(li as int, k as int, len as int),
    {
        Span { buf: SHARED + li * ACTS + k, start: 0, len }
    }

    /// The input of layer `li`.
    fn xin_span(&self, li: usize) -> (z: Span)
        requires
            self.ok(),
            li < self.cfg.n_layer,
        ensures
            z == self.xin(li as int),
    {
        let rc: usize = self.row_numbers();
        if li == 0 {
            self.shared_span(X1, rc)
        } else {
            self.act_span(li - 1, X_OUT, rc)
        }
    }

    /// The numbers in all rows of activations.
    fn row_numbers(&self) -> (n: usize)
        requires
            self.ok(),
        ensures
            n == self.rc(),
    {
        proof {
            self.lemma_numbers();
        }
        self.rows * self.cfg.n_embd
    }

    /// The numbers in all rows of the hidden layer of the perceptron.
    fn hidden_numbers(&self) -> (n: usize)
        requires
            self.ok(),
        ensures
            n == self.rc4(),
    {
        proof {
            self.lemma_numbers();
        }
        self.rows * (4 * self.cfg.n_embd)
    }

    /// The numbers in all rows of logits.
    fn logit_numbers(&self) -> (n: usize)
        requires
            self.ok(),
        ensures
            n == self.rv(),
    {
        proof {
            self.lemma_numbers();
        }
        self.rows * self.vocab
    }

    /// The number of attention weights.
    fn att_numbers(&self) -> (n: usize)
        requires
            self.ok(),
        ensures
            n == self.att(),
    {
        let hs: Heads = self.heads();
        proof {
            self.lemma_numbers();
            let (b, h, t) = (hs.b_n as int, hs.h_n as int, hs.t_len as int);
            assert(b * h <= b * h * t && b * h * t <= b * h * t * t && 0 <= b * h)
                by (nonlinear_arith)
                requires
                    b >= 0,
                    h > 0,
                    t > 0,
            ;
        }
        hs.b_n * hs.h_n * hs.t_len * hs.t_len
    }

    /// The token embeddings in buffer `buf`.
    fn wte_span(&self, l: &Layout, buf: usize) -> (z: Span)
        requires
            self.ok(),
            l.stands(self.cfg, self.vocab as int),
        ensures
            z == self.wte(buf as int),
    {
        Span { buf, start: l.wte, len: l.wpe - l.wte }
    }

    /// The position embeddings in buffer `buf`.
    fn wpe_span(&self, l: &Layout, buf: usize) -> (z: Span)
        requires
            self.ok(),
            l.stands(self.cfg, self.vocab as int),
        ensures
            z == self.wpe(buf as int),
    {
        proof {
            self.lemma_weights(0);
        }
        Span { buf, start: l.wpe, len: l.lm_head - l.wpe }
    }

    /// The output head in buffer `buf`.
    fn lm_head_span(&self, l: &Layout, buf: usize) -> (z: Span)
        requires
            self.ok(),
            l.stands(self.cfg, self.vocab as int),
        ensures
            z == self.lm_head(buf as int),
    {
        proof {
            self.lemma_weights(0);
        }
        Span { buf, start: l.lm_head, len: self.vocab * self.cfg.n_embd }
    }

    fn wq_span(&self, l: &Layout, buf: usize, li: usize) -> (z: Span)
        requires
            self.ok(),
            l.stands(self.cfg, self.vocab as int),
            li < self.cfg.n_layer,
        ensures
            z == self.wq(buf as int, li as int),
    {
        proof {
            self.lemma_weights(li as int);
        }
        let off: LayerOff = l.layers[li];
        let square: usize = self.cfg.n_embd * self.cfg.n_embd;
        Span { buf, start: off.wq, len: square }
    }

    fn wk_span(&self, l: &Layout, buf: usize, li: usize) -> (z: Span)
        requires
            self.ok(),
            l.stands(self.cfg, self.vocab as int),
            li < self.cfg.n_layer,
        ensures
            z == self.wk(buf as int, li as int),
    {
        proof {
            self.lemma_weights(li as int);
        }
        let off: LayerOff = l.layers[li];
        let square: usize = self.cfg.n_embd * self.cfg.n_embd;
        Span { buf, start: off.wk, len: square }
    }

    fn wv_span(&self, l: &Layout, buf: usize, li: usize) -> (z: Span)
        requires
            self.ok(),
            l.stands(self.cfg, self.vocab as int),
            li < self.cfg.n_layer,
        ensures
            z == self.wv(buf as int, li as int),
    {
        proof {
            self.lemma_weights(li as int);
        }
        let off: LayerOff = l.layers[li];
        let square: usize = self.cfg.n_embd * self.cfg.n_embd;
        Span { buf, start: off.wv, len: square }
    }

    fn wo_span(&self, l: &Layout, buf: usize, li: usize) -> (z: Span)
        requires
            self.ok(),
            l.stands(self.cfg, self.vocab as int),
            li < self.cfg.n_layer,
        ensures
            z == self.wo(buf as int, li as int),
    {
        proof {
            self.lemma_weights(li as int);
        }
        let off: LayerOff = l.layers[li];
        let square: usize = self.cfg.n_embd * self.cfg.n_embd;
        Span { buf, start: off.wo, len: square }
    }

    fn fc1_span(&self, l: &Layout, buf: usize, li: usize) -> (z: Span)
        requires
            self.ok(),
            l.stands(self.cfg, self.vocab as int),
            li < self.cfg.n_layer,
        ensures
            z == self.fc1(buf as int, li as int),
    {
        proof {
            self.lemma_weights(li as int);
        }
        let off: LayerOff = l.layers[li];
        let square: usize = self.cfg.n_embd * self.cfg.n_embd;
        Span { buf, start: off.fc1, len: 4 * square }
    }

    fn fc2_span(&self, l: &Layout, buf: usize, li: usize) -> (z: Span)
        requires
            self.ok(),
            l.stands(self.cfg, self.vocab as int),
            li < self.cfg.n_layer,
        ensures
            z == self.fc2(buf as int, li as int),
    {
        proof {
            self.lemma_weights(li as int);
        }
        let off: LayerOff = l.layers[li];
        let square: usize = self.cfg.n_embd * self.cfg.n_embd;
        Span { buf, start: off.fc2, len: 4 * square }
    }

    /// Appends the forward pass of layer `li` to a plan.
    fn push_layer_forward(&self, l: &Layout, li: usize, plan: &mut Vec<Launch>)
        requires
            self.ok(),
            l.stands(self.cfg, self.vocab as int),
            li < self.cfg.n_layer,
        ensures
            final(plan)@ == old(plan)@ + layer_forward_plan(*self, li as int),
    {
        let c: usize = self.cfg.n_embd;
        let c4: usize = 4 * c;
        let rc: usize = self.row_numbers();
        let rc4: usize = self.hidden_numbers();
        let hs: Heads = self.heads();
        let xin: Span = self.xin_span(li);
        let xn: Span = self.act_span(li, XN, rc);
        let q: Span = self.act_span(li, Q, rc);
        let k: Span = self.act_span(li, K, rc);
        let v: Span = self.act_span(li, V, rc);
        let att: Span = self.act_span(li, ATT, self.att_numbers());
        let atty: Span = self.act_span(li, ATTY, rc);
        let proj: Span = self.shared_span(PROJ, rc);
        let x_mid: Span = self.act_span(li, X_MID, rc);
        let xn2: Span = self.act_span(li, XN2, rc);
        let hpre: Span = self.act_span(li, HPRE, rc4);
        let h: Span = self.act_span(li, H, rc4);
        let mlpo: Span = self.shared_span(MLPO, rc);
        let x_out: Span = self.act_span(li, X_OUT, rc);
        let r1: Span = self.act_span(li, R1, self.rows);
        let r2: Span = self.act_span(li, R2, self.rows);
        let wq: Span = self.wq_span(l, PARAMS, li);
        let wk: Span = self.wk_span(l, PARAMS, li);
        let wv: Span = self.wv_span(l, PARAMS, li);
        let wo: Span = self.wo_span(l, PARAMS, li);
        let fc1: Span = self.fc1_span(l, PARAMS, li);
        let fc2: Span = self.fc2_span(l, PARAMS, li);
        plan.push(Launch::RmsnormFwd { y: xn, rinv: r1, x: xin, c });
        plan.push(Launch::MatmulNt { y: q, x: xn, w: wq, n: c, k: c, accum: false });
        plan.push(Launch::MatmulNt { y: k, x: xn, w: wk, n: c, k: c, accum: false });
        plan.push(Launch::MatmulNt { y: v, x: xn, w: wv, n: c, k: c, accum: false });
        plan.push(Launch::AttnSoftmaxFwd { att, q, keys: k, hs });
        plan.push(Launch::AttnMixFwd { y: atty, att, v, hs });
        plan.push(Launch::MatmulNt { y: proj, x: atty, w: wo, n: c, k: c, accum: false });
        plan.push(Launch::AddFwd { y: x_mid, a: xin, b: proj });
        plan.push(Launch::RmsnormFwd { y: xn2, rinv: r2, x: x_mid, c });
        plan.push(Launch::MatmulNt { y: hpre, x: xn2, w: fc1, n: c4, k: c, accum: false });
        plan.push(Launch::ReluFwd { y: h, x: hpre });
        plan.push(Launch::MatmulNt { y: mlpo, x: h, w: fc2, n: c, k: c4, accum: false });
        plan.push(Launch::AddFwd { y: x_out, a: x_mid, b: mlpo });
        assert(plan@ =~= old(plan)@ + layer_forward_plan(*self, li as int));
    }

    /// The launches of the forward pass.
    pub fn forward_launches(&self, l: &Layout) -> (plan: Vec<Launch>)
        requires
            self.ok(),
            l.stands(self.cfg, self.vocab as int),
        ensures
            plan@ == forward_plan(*self),
    {
        let c: usize = self.cfg.n_embd;
        let rc: usize = self.row_numbers();
        let mut plan: Vec<Launch> = Vec::new();
        let x0: Span = self.shared_span(X0, rc);
        plan.push(
            Launch::EmbedFwd {
                x: x0,
                wte: self.wte_span(l, PARAMS),
                wpe: self.wpe_span(l, PARAMS),
                t_len: self.t_len,
                c,
            },
        );
        plan.push(
            Launch::RmsnormFwd {
                y: self.shared_span(X1, rc),
                rinv: self.shared_span(R0, self.rows),
                x: x0,
                c,
            },
        );
        assert(plan@ =~= embed_plan(*self) + layers_forward_plan(*self, 0));
        for li in 0..self.cfg.n_layer
            invariant
                self.ok(),
                l.stands(self.cfg, self.vocab as int),
                plan@ == embed_plan(*self) + layers_forward_plan(*self, li as nat),
        {
            self.push_layer_forward(l, li, &mut plan);
            assert(plan@ =~= embed_plan(*self) + layers_forward_plan(*self, (li + 1) as nat));
        }
        let last: usize = self.cfg.n_layer - 1;
        plan.push(
            Launch::MatmulNt {
                y: self.shared_span(LOGITS, self.logit_numbers()),
                x: self.act_span(last, X_OUT, rc),
                w: self.lm_head_span(l, PARAMS),
                n: self.vocab,
                k: c,
                accum: false,
            },
        );
        assert(plan@ =~= forward_plan(*self));
        plan
    }

    /// The launch of the loss.
    pub fn loss_launch(&self) -> (launch: Launch)
        requires
            self.ok(),
        ensures
            seq![launch] == loss_plan(*self),
    {
        let rv: usize = self.logit_numbers();
        Launch::CeFwd {
            losses: self.shared_span(LOSSES, self.rows),
            probs: self.shared_span(PROBS, rv),
            logits: self.shared_span(LOGITS, rv),
            vocab: self.vocab,
        }
    }

    /// Appends the backward pass of layer `li` to a plan.
    #[verifier::rlimit(40)]
    fn push_layer_backward(&self, l: &Layout, li: usize, plan: &mut Vec<Launch>)
        requires
            self.ok(),
            l.stands(self.cfg, self.vocab as int),
            li < self.cfg.n_layer,
        ensures
            final(plan)@ == old(plan)@ + layer_backward_plan(*self, li as int),
    {
        let c: usize = self.cfg.n_embd;
        let c4: usize = 4 * c;
        let rc: usize = self.row_numbers();
        let rc4: usize = self.hidden_numbers();
        let att_n: usize = self.att_numbers();
        let rows: usize = self.rows;
        let hs: Heads = self.heads();
        let xin: Span = self.xin_span(li);
        let xn: Span = self.act_span(li, XN, rc);
        let q: Span = self.act_span(li, Q, rc);
        let k: Span = self.act_span(li, K, rc);
        let v: Span = self.act_span(li, V, rc);
        let att: Span = self.act_span(li, ATT, att_n);
        let atty: Span = self.act_span(li, ATTY, rc);
        let x_mid: Span = self.act_span(li, X_MID, rc);
        let xn2: Span = self.act_span(li, XN2, rc);
        let hpre: Span = self.act_span(li, HPRE, rc4);
        let h: Span = self.act_span(li, H, rc4);
        let r1: Span = self.act_span(li, R1, rows);
        let r2: Span = self.act_span(li, R2, rows);
        let d_x: Span = self.shared_span(D_X, rc);
        let d_xin: Span = self.shared_span(D_XIN, rc);
        let d_h: Span = self.shared_span(D_H, rc4);
        let d_xn2: Span = self.shared_span(D_XN2, rc);
        let d_x2: Span = self.shared_span(D_X2, rc);
        let d_atty: Span = self.shared_span(D_ATTY, rc);
        let d_att: Span = self.shared_span(D_ATT, att_n);
        let d_scores: Span = self.shared_span(D_SCORES, att_n);
        let d_q: Span = self.shared_span(D_Q, rc);
        let d_k: Span = self.shared_span(D_K, rc);
        let d_v: Span = self.shared_span(D_V, rc);
        let d_xn: Span = self.shared_span(D_XN, rc);
        let (wq, gq): (Span, Span) = (self.wq_span(l, PARAMS, li), self.wq_span(l, GRADS, li));
        let (wk, gk): (Span, Span) = (self.wk_span(l, PARAMS, li), self.wk_span(l, GRADS, li));
        let (wv, gv): (Span, Span) = (self.wv_span(l, PARAMS, li), self.wv_span(l, GRADS, li));
        let (wo, go): (Span, Span) = (self.wo_span(l, PARAMS, li), self.wo_span(l, GRADS, li));
        let (fc1, g1): (Span, Span) = (self.fc1_span(l, PARAMS, li), self.fc1_span(l, GRADS, li));
        let (fc2, g2): (Span, Span) = (self.fc2_span(l, PARAMS, li), self.fc2_span(l, GRADS, li));
        // The perceptron: x_out = x_mid + relu(xn2 @ fc1^T) @ fc2^T, xn2 = rmsnorm(x_mid).
        plan.push(Launch::MatmulTn { dw: g2, dy: d_x, x: h, m: c, n: c4, k: rows });
        plan.push(Launch::MatmulNn { y: d_h, x: d_x, w: fc2, n: c4, k: c, accum: false });
        plan.push(Launch::ReluBwdInplace { d: d_h, x: hpre });
        plan.push(Launch::MatmulTn { dw: g1, dy: d_h, x: xn2, m: c4, n: c, k: rows });
        plan.push(Launch::MatmulNn { y: d_xn2, x: d_h, w: fc1, n: c, k: c4, accum: false });
        plan.push(Launch::RmsnormBwd { dx: d_x2, x: x_mid, rinv: r2, dy: d_xn2, c, accum: false });
        plan.push(Launch::AddInplace { y: d_x2, x: d_x });
        // The output of attention: x_mid = x_in + atty @ wo^T.
        plan.push(Launch::MatmulTn { dw: go, dy: d_x2, x: atty, m: c, n: c, k: rows });
        plan.push(Launch::MatmulNn { y: d_atty, x: d_x2, w: wo, n: c, k: c, accum: false });
        // Attention: atty = att @ v, att = causal_softmax(q @ k^T / sqrt(d)).
        plan.push(Launch::AttnMixBwdDp { dp: d_att, dy: d_atty, v, hs });
        plan.push(Launch::AttnMixBwdDv { dv: d_v, att, dy: d_atty, hs });
        plan.push(Launch::AttnSoftmaxBwd { ds: d_scores, att, dp: d_att, hs });
        plan.push(Launch::AttnScoresBwdDq { dq: d_q, ds: d_scores, keys: k, hs });
        plan.push(Launch::AttnScoresBwdDk { dk: d_k, ds: d_scores, q, hs });
        // Queries, keys and values: products of xn = rmsnorm(x_in).
        plan.push(Launch::MatmulTn { dw: gq, dy: d_q, x: xn, m: c, n: c, k: rows });
        plan.push(Launch::MatmulTn { dw: gk, dy: d_k, x: xn, m: c, n: c, k: rows });
        plan.push(Launch::MatmulTn { dw: gv, dy: d_v, x: xn, m: c, n: c, k: rows });
        plan.push(Launch::MatmulNn { y: d_xn, x: d_q, w: wq, n: c, k: c, accum: false });
        plan.push(Launch::MatmulNn { y: d_xn, x: d_k, w: wk, n: c, k: c, accum: true });
        plan.push(Launch::MatmulNn { y: d_xn, x: d_v, w: wv, n: c, k: c, accum: true });
        plan.push(Launch::RmsnormBwd { dx: d_xin, x: xin, rinv: r1, dy: d_xn, c, accum: false });
        plan.push(Launch::AddInplace { y: d_xin, x: d_x2 });
        plan.push(Launch::Swap { first: D_X, second: D_XIN });
        assert(plan@ =~= old(plan)@ + layer_backward_plan(*self, li as int));
    }

    /// The launches of the backward pass.
    pub fn backward_launches(&self, l: &Layout, valid: usize) -> (plan: Vec<Launch>)
        requires
            self.ok(),
            l.stands(self.cfg, self.vocab as int),
        ensures
            plan@ == backward_plan(*self, valid),
    {
        let c: usize = self.cfg.n_embd;
        let rc: usize = self.row_numbers();
        let rv: usize = self.logit_numbers();
        let n_layer: usize = self.cfg.n_layer;
        let mut plan: Vec<Launch> = Vec::new();
        let d_logits: Span = self.shared_span(D_LOGITS, rv);
        let x_final: Span = self.act_span(n_layer - 1, X_OUT, rc);
        let d_x: Span = self.shared_span(D_X, rc);
        plan.push(
            Launch::CeBwd {
                dlogits: d_logits,
                probs: self.shared_span(PROBS, rv),
                vocab: self.vocab,
                valid,
            },
        );
        plan.push(
            Launch::MatmulTn {
                dw: self.lm_head_span(l, GRADS),
                dy: d_logits,
                x: x_final,
                m: self.vocab,
                n: c,
                k: self.rows,
            },
        );
        plan.push(
            Launch::MatmulNn {
                y: d_x,
                x: d_logits,
                w: self.lm_head_span(l, PARAMS),
                n: c,
                k: self.vocab,
                accum: false,
            },
        );
        let ghost head = head_backward_plan(*self, valid);
        assert(plan@ =~= head + layers_backward_plan(*self, 0));
        for n in 0..n_layer
            invariant
                self.ok(),
                n_layer == self.cfg.n_layer,
                l.stands(self.cfg, self.vocab as int),
                plan@ == head + layers_backward_plan(*self, n as nat),
        {
            self.push_layer_backward(l, n_layer - 1 - n, &mut plan);
            assert(plan@ =~= head + layers_backward_plan(*self, (n + 1) as nat));
        }
        let d_x0: Span = self.shared_span(D_X0, rc);
        plan.push(
            Launch::RmsnormBwd {
                dx: d_x0,
                x: self.shared_span(X0, rc),
                rinv: self.shared_span(R0, self.rows),
                dy: d_x,
                c,
                accum: false,
            },
        );
        plan.push(Launch::EmbedBwdWte { dwte: self.wte_span(l, GRADS), dx: d_x0, c });
        plan.push(
            Launch::EmbedBwdWpe {
                dwpe: self.wpe_span(l, GRADS),
                dx: d_x0,
                rows: self.rows,
                t_len: self.t_len,
                c,
            },
        );
        assert(plan@ =~= backward_plan(*self, valid));
        plan
    }
}

} // verus!
