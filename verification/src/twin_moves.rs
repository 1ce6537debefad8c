//! Motion through the whole network, collected from the handles of a tape: it is a motion of
//! the batched network.
use vstd::prelude::*;

use crate::derivative::{moves_attention, moves_layer, moves_mlp, moves_network};
use crate::exact::exact;
use crate::graph::{is_add_nodes, is_linear_nodes, is_relu_nodes, is_rmsnorm_nodes, rows_of};
use crate::index::{lemma_unpair, lemma_whole_rows};
use crate::layout::Cfg;
use crate::motion::row_moves;
use crate::motion_attention::is_score_factor;
use crate::motion_embed::moves_embed;
use crate::network::{input_of, is_forward, is_layer, LayerValues, LayerWeights, Values, Weights};
use crate::norm::is_inv_rms;
use crate::scalar::Scalar;
use crate::shape::Shape;
use crate::tape::{is_add_node, Node, Value};
use crate::tape_gpt::{is_attention, is_layer_trace, LayerTrace, StateDict};
use crate::tape_laws::{is_input, law_sum_rule};
use crate::tape_token::{
    are_layer_traces, is_token_trace, past_keys, past_values, trace_input, TokenTrace,
};
use crate::twin_heads::{is_attended, lemma_mix_moves, lemma_weights_moves, weights_gathered};
use crate::twin_motion::{
    factor_moves, follows, gathered, is_full_motion, lemma_gathered, lemma_linear_moves,
    lemma_norm_moves, lemma_relu_moves, lemma_residual_moves, rows_fn, same_moves, tape_moves,
};
use crate::twin_network::{same_token, same_trace};
use crate::twin_parts::{exact_curves, is_exponential, same_row};

verus! {

/// The first `n` of the rows `f`.
pub open spec fn first_rows(f: spec_fn(int) -> Seq<Value>, n: int) -> Seq<Seq<Value>> {
    Seq::new(n as nat, |u: int| f(u))
}

/// The motion of what goes through a layer, collected from the handles of all positions.
pub open spec fn layer_gathered<W: Scalar>(
    nodes: Seq<Node<W>>,
    mo: spec_fn(int) -> real,
    s: Shape,
    fl: spec_fn(int) -> LayerTrace,
) -> LayerValues<real> {
    let (m, c, c4) = (s.rows as nat, s.c() as nat, (4 * s.c()) as nat);
    let (fk, fv) = (|t: int| fl(t).k, |t: int| fl(t).v);
    LayerValues {
        xin: gathered(mo, |t: int| fl(t).xin, m, c),
        xn: gathered(mo, |t: int| fl(t).xn, m, c),
        q: gathered(mo, |t: int| fl(t).q, m, c),
        k: gathered(mo, fk, m, c),
        v: gathered(mo, fv, m, c),
        att: weights_gathered(
            nodes,
            mo,
            s.heads_spec(),
            |t: int| fl(t).q,
            |t: int| first_rows(fk, t + 1),
            |t: int| first_rows(fv, t + 1),
            |t: int| fl(t).x_attn,
        ),
        atty: gathered(mo, |t: int| fl(t).x_attn, m, c),
        x_mid: gathered(mo, |t: int| fl(t).x_mid, m, c),
        xn2: gathered(mo, |t: int| fl(t).xn2, m, c),
        hpre: gathered(mo, |t: int| fl(t).hpre, m, c4),
        h: gathered(mo, |t: int| fl(t).h, m, c4),
        x_out: gathered(mo, |t: int| fl(t).x_out, m, c),
        r1: factor_moves(nodes, mo, |t: int| fl(t).xin, |t: int| fl(t).xn, m),
        r2: factor_moves(nodes, mo, |t: int| fl(t).x_mid, |t: int| fl(t).xn2, m),
    }
}

/// The handles of a layer's matrices stand for their numbers and move as `mw` says.
pub open spec fn follows_layer<W, S>(
    p: spec_fn(W) -> real,
    q: spec_fn(S) -> real,
    nodes: Seq<Node<W>>,
    mo: spec_fn(int) -> real,
    w: crate::tape_gpt::LayerWeights,
    wm: LayerWeights<S>,
    mw: LayerWeights<real>,
    c: nat,
) -> bool {
    &&& w.attn_wq@.len() == c
    &&& w.attn_wk@.len() == c
    &&& w.attn_wv@.len() == c
    &&& w.attn_wo@.len() == c
    &&& w.mlp_fc1@.len() == 4 * c
    &&& w.mlp_fc2@.len() == c
    &&& follows(p, q, nodes, mo, rows_fn(rows_of(w.attn_wq@)), wm.wq, mw.wq, c, c)
    &&& follows(p, q, nodes, mo, rows_fn(rows_of(w.attn_wk@)), wm.wk, mw.wk, c, c)
    &&& follows(p, q, nodes, mo, rows_fn(rows_of(w.attn_wv@)), wm.wv, mw.wv, c, c)
    &&& follows(p, q, nodes, mo, rows_fn(rows_of(w.attn_wo@)), wm.wo, mw.wo, c, c)
    &&& follows(p, q, nodes, mo, rows_fn(rows_of(w.mlp_fc1@)), wm.fc1, mw.fc1, 4 * c, c)
    &&& follows(p, q, nodes, mo, rows_fn(rows_of(w.mlp_fc2@)), wm.fc2, mw.fc2, c, 4 * c)
}

/// Rows that stand for numbers follow their collected motion.
proof fn lemma_follows<W, S>(
    p: spec_fn(W) -> real,
    q: spec_fn(S) -> real,
    nodes: Seq<Node<W>>,
    mo: spec_fn(int) -> real,
    f: spec_fn(int) -> Seq<Value>,
    x: Seq<S>,
    m: nat,
    c: nat,
)
    requires
        forall|r: int| 0 <= r < m ==> same_row(p, q, nodes, #[trigger] f(r), x, c, r),
    ensures
        follows(p, q, nodes, mo, f, x, gathered(mo, f, m, c), m, c),
{
    assert forall|r: int| 0 <= r < m implies same_row(p, q, nodes, #[trigger] f(r), x, c, r)
        && same_moves(mo, f(r), gathered(mo, f, m, c), c, r) by {
        assert(same_row(p, q, nodes, f(r), x, c, r));
        lemma_gathered(mo, f, m, c, r);
    }
}

/// The layer's equations hold at every position, and what goes through it stands for the
/// rows of `a`.
#[verifier::opaque]
pub open spec fn is_layer_twin<W: Scalar, S: Scalar>(
    p: spec_fn(W) -> real,
    q: spec_fn(S) -> real,
    nodes: Seq<Node<W>>,
    s: Shape,
    w: crate::tape_gpt::LayerWeights,
    fl: spec_fn(int) -> LayerTrace,
    a: LayerValues<S>,
) -> bool {
    forall|t: int|
        0 <= t < s.rows ==> same_trace(p, q, nodes, s, #[trigger] fl(t), a, t) && is_layer_trace(
            nodes,
            s.cfg,
            w,
            first_rows(|u: int| fl(u).k, t),
            first_rows(|u: int| fl(u).v, t),
            fl(t),
        )
}

/// How the attention of a layer moves.
proof fn lemma_attention_moves<W: Scalar, S: Scalar>(
    p: spec_fn(W) -> real,
    q: spec_fn(S) -> real,
    ex: spec_fn(real) -> real,
    lg: spec_fn(real) -> real,
    nodes: Seq<Node<W>>,
    mo: spec_fn(int) -> real,
    s: Shape,
    scale: real,
    w: crate::tape_gpt::LayerWeights,
    wm: LayerWeights<S>,
    mw: LayerWeights<real>,
    fl: spec_fn(int) -> LayerTrace,
    a: LayerValues<S>,
)
    requires
        exact_curves(p, ex, lg),
        exact_curves(q, ex, lg),
        is_exponential(ex),
        is_full_motion(p, nodes, mo),
        s.ok(),
        s.rows == s.t_len,
        is_score_factor(s.heads_spec().d as nat, scale),
        is_layer(s, wm, a),
        is_layer_twin(p, q, nodes, s, w, fl, a),
        follows_layer(p, q, nodes, mo, w, wm, mw, s.c() as nat),
    ensures
        moves_attention(
            q,
            s,
            scale,
            wm,
            mw,
            a,
            layer_gathered(nodes, mo, s, fl),
        ),
{
    let (m, c) = (s.rows as nat, s.c() as nat);
    let hs = s.heads_spec();
    s.lemma_numbers();
    lemma_whole_rows(1, s.t_len as int);
    lemma_whole_rows(m as int, c as int);
    assert(hs.b_n == 1);
    let ma = layer_gathered(nodes, mo, s, fl);
    let (fxin, fxn) = (|t: int| fl(t).xin, |t: int| fl(t).xn);
    let (fq, fk, fv) = (|t: int| fl(t).q, |t: int| fl(t).k, |t: int| fl(t).v);
    let (fy, fo, fmid) = (|t: int| fl(t).x_attn, |t: int| fl(t).proj, |t: int| fl(t).x_mid);
    let (fkeys, fvalues) = (
        |t: int| first_rows(fk, t + 1),
        |t: int| first_rows(fv, t + 1),
    );
    assert forall|t: int| 0 <= t < m implies is_position(
        p,
        q,
        nodes,
        s,
        w,
        #[trigger] fl(t),
        fkeys(t),
        fvalues(t),
        a,
        t,
    ) by {
        reveal(is_layer_twin);
        reveal(is_layer_trace);
        reveal(same_trace);
        let own = fl(t);
        let (keys, values) = (
            first_rows(|u: int| fl(u).k, t),
            first_rows(|u: int| fl(u).v, t),
        );
        assert(same_trace(p, q, nodes, s, own, a, t));
        assert(is_layer_trace(nodes, s.cfg, w, keys, values, own));
        assert(keys.push(own.k) =~= fkeys(t));
        assert(values.push(own.v) =~= fvalues(t));
    }
    lemma_follows(p, q, nodes, mo, fxin, a.xin, m, c);
    lemma_follows(p, q, nodes, mo, fxn, a.xn, m, c);
    lemma_follows(p, q, nodes, mo, fq, a.q, m, c);
    lemma_follows(p, q, nodes, mo, fk, a.k, m, c);
    lemma_follows(p, q, nodes, mo, fv, a.v, m, c);
    lemma_follows(p, q, nodes, mo, fy, a.atty, m, c);
    assert forall|r: int| 0 <= r < m implies is_inv_rms(a.xin, c, r, #[trigger] a.r1[r]) by {}
    lemma_norm_moves(p, q, ex, lg, nodes, mo, fxin, fxn, a.xin, a.r1, ma.xin, m, c);
    lemma_linear_moves(
        p, q, nodes, mo, fxn, rows_of(w.attn_wq@), fq, a.xn, ma.xn, wm.wq, mw.wq, m, c, c,
    );
    lemma_linear_moves(
        p, q, nodes, mo, fxn, rows_of(w.attn_wk@), fk, a.xn, ma.xn, wm.wk, mw.wk, m, c, c,
    );
    lemma_linear_moves(
        p, q, nodes, mo, fxn, rows_of(w.attn_wv@), fv, a.xn, ma.xn, wm.wv, mw.wv, m, c, c,
    );
    assert(is_attended(
        p, q, nodes, mo, hs, fq, fk, fv, fkeys, fvalues, fy, a.q, ma.q, a.k, ma.k, a.v, ma.v,
        a.att,
    ));
    lemma_weights_moves(
        p, q, ex, lg, nodes, mo, hs, scale, fq, fk, fv, fkeys, fvalues, fy, a.q, ma.q, a.k, ma.k,
        a.v, ma.v, a.att,
    );
    lemma_mix_moves(
        p, q, ex, lg, nodes, mo, hs, scale, fq, fk, fv, fkeys, fvalues, fy, a.q, ma.q, a.k, ma.k,
        a.v, ma.v, a.att,
    );
    lemma_residual_moves(
        p, q, nodes, mo, fxin, fy, rows_of(w.attn_wo@), fo, fmid, a.atty, ma.atty, wm.wo, mw.wo,
        m, c, c,
    );
}

/// What attention at position `t` is made of.
spec fn is_position<W: Scalar, S: Scalar>(
    p: spec_fn(W) -> real,
    q: spec_fn(S) -> real,
    nodes: Seq<Node<W>>,
    s: Shape,
    w: crate::tape_gpt::LayerWeights,
    own: LayerTrace,
    keys: Seq<Seq<Value>>,
    values: Seq<Seq<Value>>,
    a: LayerValues<S>,
    t: int,
) -> bool {
    let c = s.c() as nat;
    &&& same_row(p, q, nodes, own.xin, a.xin, c, t)
    &&& same_row(p, q, nodes, own.xn, a.xn, c, t)
    &&& same_row(p, q, nodes, own.q, a.q, c, t)
    &&& same_row(p, q, nodes, own.k, a.k, c, t)
    &&& same_row(p, q, nodes, own.v, a.v, c, t)
    &&& same_row(p, q, nodes, own.x_attn, a.atty, c, t)
    &&& is_rmsnorm_nodes(nodes, own.xin, own.xn)
    &&& is_linear_nodes(nodes, own.xn, rows_of(w.attn_wq@), own.q)
    &&& is_linear_nodes(nodes, own.xn, rows_of(w.attn_wk@), own.k)
    &&& is_linear_nodes(nodes, own.xn, rows_of(w.attn_wv@), own.v)
    &&& is_attention(
        nodes,
        s.cfg.n_head as int,
        s.cfg.n_embd as int / s.cfg.n_head as int,
        own.q,
        keys,
        values,
        own.x_attn,
    )
    &&& is_linear_nodes(nodes, own.x_attn, rows_of(w.attn_wo@), own.proj)
    &&& is_add_nodes(nodes, own.proj, own.xin, own.x_mid)
}

/// What the perceptron at position `t` is made of.
spec fn is_mlp_position<W: Scalar, S: Scalar>(
    p: spec_fn(W) -> real,
    q: spec_fn(S) -> real,
    nodes: Seq<Node<W>>,
    s: Shape,
    w: crate::tape_gpt::LayerWeights,
    own: LayerTrace,
    a: LayerValues<S>,
    t: int,
) -> bool {
    let (c, c4) = (s.c() as nat, (4 * s.c()) as nat);
    &&& same_row(p, q, nodes, own.x_mid, a.x_mid, c, t)
    &&& same_row(p, q, nodes, own.xn2, a.xn2, c, t)
    &&& same_row(p, q, nodes, own.hpre, a.hpre, c4, t)
    &&& same_row(p, q, nodes, own.h, a.h, c4, t)
    &&& is_rmsnorm_nodes(nodes, own.x_mid, own.xn2)
    &&& is_linear_nodes(nodes, own.xn2, rows_of(w.mlp_fc1@), own.hpre)
    &&& is_relu_nodes(nodes, own.hpre, own.h)
    &&& is_linear_nodes(nodes, own.h, rows_of(w.mlp_fc2@), own.mlp)
    &&& is_add_nodes(nodes, own.mlp, own.x_mid, own.x_out)
}

/// How the perceptron of a layer moves.
proof fn lemma_mlp_moves<W: Scalar, S: Scalar>(
    p: spec_fn(W) -> real,
    q: spec_fn(S) -> real,
    ex: spec_fn(real) -> real,
    lg: spec_fn(real) -> real,
    nodes: Seq<Node<W>>,
    mo: spec_fn(int) -> real,
    s: Shape,
    w: crate::tape_gpt::LayerWeights,
    wm: LayerWeights<S>,
    mw: LayerWeights<real>,
    fl: spec_fn(int) -> LayerTrace,
    a: LayerValues<S>,
)
    requires
        exact_curves(p, ex, lg),
        exact(q),
        is_full_motion(p, nodes, mo),
        s.ok(),
        is_layer(s, wm, a),
        is_layer_twin(p, q, nodes, s, w, fl, a),
        follows_layer(p, q, nodes, mo, w, wm, mw, s.c() as nat),
    ensures
        moves_mlp(q, s, wm, mw, a, layer_gathered(nodes, mo, s, fl)),
{
    let (m, c, c4) = (s.rows as nat, s.c() as nat, (4 * s.c()) as nat);
    s.lemma_numbers();
    lemma_whole_rows(m as int, c as int);
    let ma = layer_gathered(nodes, mo, s, fl);
    let (fmid, fxn) = (|t: int| fl(t).x_mid, |t: int| fl(t).xn2);
    let (fpre, fh) = (|t: int| fl(t).hpre, |t: int| fl(t).h);
    let (fo, fout) = (|t: int| fl(t).mlp, |t: int| fl(t).x_out);
    assert forall|t: int| 0 <= t < m implies is_mlp_position(
        p,
        q,
        nodes,
        s,
        w,
        #[trigger] fl(t),
        a,
        t,
    ) by {
        reveal(is_layer_twin);
        reveal(is_layer_trace);
        reveal(same_trace);
        assert(same_trace(p, q, nodes, s, fl(t), a, t));
    }
    lemma_follows(p, q, nodes, mo, fmid, a.x_mid, m, c);
    lemma_follows(p, q, nodes, mo, fxn, a.xn2, m, c);
    lemma_follows(p, q, nodes, mo, fpre, a.hpre, m, c4);
    lemma_follows(p, q, nodes, mo, fh, a.h, m, c4);
    assert forall|r: int| 0 <= r < m implies is_inv_rms(a.x_mid, c, r, #[trigger] a.r2[r]) by {}
    lemma_norm_moves(p, q, ex, lg, nodes, mo, fmid, fxn, a.x_mid, a.r2, ma.x_mid, m, c);
    lemma_linear_moves(
        p, q, nodes, mo, fxn, rows_of(w.mlp_fc1@), fpre, a.xn2, ma.xn2, wm.fc1, mw.fc1, m, c4, c,
    );
    lemma_relu_moves(p, q, nodes, mo, fpre, fh, a.hpre, ma.hpre, m, c4);
    lemma_residual_moves(
        p, q, nodes, mo, fmid, fh, rows_of(w.mlp_fc2@), fo, fout, a.h, ma.h, wm.fc2, mw.fc2, m,
        c, c4,
    );
}

/// How a layer moves.
proof fn lemma_layer_moves<W: Scalar, S: Scalar>(
    p: spec_fn(W) -> real,
    q: spec_fn(S) -> real,
    ex: spec_fn(real) -> real,
    lg: spec_fn(real) -> real,
    nodes: Seq<Node<W>>,
    mo: spec_fn(int) -> real,
    s: Shape,
    scale: real,
    w: crate::tape_gpt::LayerWeights,
    wm: LayerWeights<S>,
    mw: LayerWeights<real>,
    fl: spec_fn(int) -> LayerTrace,
    a: LayerValues<S>,
)
    requires
        exact_curves(p, ex, lg),
        exact_curves(q, ex, lg),
        is_exponential(ex),
        is_full_motion(p, nodes, mo),
        s.ok(),
        s.rows == s.t_len,
        is_score_factor(s.heads_spec().d as nat, scale),
        is_layer(s, wm, a),
        is_layer_twin(p, q, nodes, s, w, fl, a),
        follows_layer(p, q, nodes, mo, w, wm, mw, s.c() as nat),
    ensures
        moves_layer(q, s, scale, wm, mw, a, layer_gathered(nodes, mo, s, fl)),
{
    lemma_attention_moves(p, q, ex, lg, nodes, mo, s, scale, w, wm, mw, fl, a);
    lemma_mlp_moves(p, q, ex, lg, nodes, mo, s, w, wm, mw, fl, a);
    reveal(moves_layer);
}

/// Layer `li` of every token.
pub open spec fn layer_at(toks: Seq<TokenTrace>, li: int) -> spec_fn(int) -> LayerTrace {
    |t: int| toks[t].layers[li]
}

/// The motion of what goes through the network, collected from the handles of all tokens.
pub open spec fn network_gathered<W: Scalar>(
    nodes: Seq<Node<W>>,
    mo: spec_fn(int) -> real,
    s: Shape,
    toks: Seq<TokenTrace>,
) -> Values<real> {
    let (m, c, v) = (s.rows as nat, s.c() as nat, s.vocab as nat);
    Values {
        x0: gathered(mo, |t: int| toks[t].emb, m, c),
        x1: gathered(mo, |t: int| toks[t].x1, m, c),
        r0: factor_moves(nodes, mo, |t: int| toks[t].emb, |t: int| toks[t].x1, m),
        layers: Seq::new(
            s.cfg.n_layer as nat,
            |li: int| layer_gathered(nodes, mo, s, layer_at(toks, li)),
        ),
        logits: gathered(mo, |t: int| toks[t].logits, m, v),
    }
}

/// The handles of all matrices stand for their numbers and move as `mw` says.
pub open spec fn follows_weights<W, S>(
    p: spec_fn(W) -> real,
    q: spec_fn(S) -> real,
    nodes: Seq<Node<W>>,
    mo: spec_fn(int) -> real,
    sd: StateDict,
    w: Weights<S>,
    mw: Weights<real>,
    cfg: Cfg,
    vocab: nat,
) -> bool {
    let (c, n) = (cfg.n_embd as nat, cfg.block_size as nat);
    &&& sd.lm_head@.len() == vocab
    &&& follows(p, q, nodes, mo, rows_fn(rows_of(sd.wte@)), w.wte, mw.wte, vocab, c)
    &&& follows(p, q, nodes, mo, rows_fn(rows_of(sd.wpe@)), w.wpe, mw.wpe, n, c)
    &&& follows(p, q, nodes, mo, rows_fn(rows_of(sd.lm_head@)), w.lm_head, mw.lm_head, vocab, c)
    &&& forall|li: int|
        0 <= li < cfg.n_layer ==> follows_layer(
            p,
            q,
            nodes,
            mo,
            #[trigger] sd.layers@[li],
            w.layers[li],
            mw.layers[li],
            c,
        )
}

/// The network's equations hold for every token, and what goes through it stands for the
/// rows of `a`.
pub open spec fn is_network_twin<W: Scalar, S: Scalar>(
    p: spec_fn(W) -> real,
    q: spec_fn(S) -> real,
    nodes: Seq<Node<W>>,
    s: Shape,
    sd: StateDict,
    tokens: Seq<i32>,
    toks: Seq<TokenTrace>,
    a: Values<S>,
) -> bool {
    forall|t: int|
        0 <= t < s.rows ==> same_token(p, q, nodes, s, #[trigger] toks[t], a, t) && is_token_trace(
            nodes,
            s.cfg,
            sd,
            tokens[t] as int,
            t,
            past_keys(s.cfg, toks, t),
            past_values(s.cfg, toks, t),
            toks[t],
        )
}

/// How the embedding moves.
proof fn lemma_embed_moves<W: Scalar, S: Scalar>(
    p: spec_fn(W) -> real,
    q: spec_fn(S) -> real,
    nodes: Seq<Node<W>>,
    mo: spec_fn(int) -> real,
    s: Shape,
    sd: StateDict,
    w: Weights<S>,
    mw: Weights<real>,
    tokens: Seq<i32>,
    femb: spec_fn(int) -> Seq<Value>,
)
    requires
        exact(p),
        is_full_motion(p, nodes, mo),
        s.ok(),
        s.rows == s.t_len,
        forall|t: int| 0 <= t < s.rows ==> 0 <= #[trigger] tokens[t] < s.vocab,
        follows_weights(p, q, nodes, mo, sd, w, mw, s.cfg, s.vocab as nat),
        forall|t: int|
            0 <= t < s.rows ==> is_add_nodes(
                nodes,
                rows_of(sd.wte@)[tokens[t] as int],
                rows_of(sd.wpe@)[t],
                #[trigger] femb(t),
            ),
    ensures
        moves_embed(
            gathered(mo, femb, s.rows as nat, s.c() as nat),
            mw.wte,
            mw.wpe,
            tokens,
            s.t_len as nat,
            s.rows as nat,
            s.c() as nat,
        ),
{
    let (m, c) = (s.rows as nat, s.c() as nat);
    let mx = gathered(mo, femb, m, c);
    assert forall|r: int, j: int| 0 <= r < m && 0 <= j < c implies #[trigger] row_moves(mx, c, r)(j)
        == row_moves(mw.wte, c, tokens[r] as int)(j) + row_moves(mw.wpe, c, r % s.t_len as int)(
        j,
    ) by {
        vstd::arithmetic::div_mod::lemma_small_mod(r as nat, s.t_len as nat);
        let id = tokens[r] as int;
        let (fw, fp) = (rows_fn(rows_of(sd.wte@)), rows_fn(rows_of(sd.wpe@)));
        assert(same_moves(mo, fw(id), mw.wte, c, id));
        assert(same_moves(mo, fp(r), mw.wpe, c, r));
        assert(is_add_nodes(nodes, fw(id), fp(r), femb(r)));
        lemma_gathered(mo, femb, m, c, r);
        assert(tape_moves(mo, femb(r))(j) == row_moves(mx, c, r)(j));
        assert(tape_moves(mo, fw(id))(j) == row_moves(mw.wte, c, id)(j));
        assert(tape_moves(mo, fp(r))(j) == row_moves(mw.wpe, c, r)(j));
        let (x, y, e) = (fw(id)[j], fp(r)[j], femb(r)[j]);
        assert(is_add_node(nodes, x, y, e));
        law_sum_rule(p, nodes, mo, x, y, e);
        assert(!is_input(nodes[e.idx as int]));
    }
}

/// The input of layer `li` moves as the output of the layer below.
proof fn lemma_input_moves<W: Scalar>(
    nodes: Seq<Node<W>>,
    mo: spec_fn(int) -> real,
    s: Shape,
    toks: Seq<TokenTrace>,
    li: int,
)
    requires
        s.ok(),
        0 <= li < s.cfg.n_layer,
        forall|t: int|
            0 <= t < s.rows ==> (#[trigger] toks[t]).layers[li].xin == trace_input(
                toks[t].x1,
                toks[t].layers,
                li,
            ),
    ensures
        network_gathered(nodes, mo, s, toks).layers[li].xin == input_of(
            network_gathered(nodes, mo, s, toks),
            li,
        ),
{
    let (m, c) = (s.rows as nat, s.c() as nat);
    let ma = network_gathered(nodes, mo, s, toks);
    let (own, below) = (ma.layers[li].xin, input_of(ma, li));
    assert forall|i: int| 0 <= i < m * c implies own[i] == below[i] by {
        lemma_unpair(i, m as int, c as int);
        let t = i / c as int;
        assert(toks[t].layers[li].xin == trace_input(toks[t].x1, toks[t].layers, li));
    }
    assert(own =~= below);
}

/// How the whole network moves.
pub proof fn lemma_network_moves<W: Scalar, S: Scalar>(
    p: spec_fn(W) -> real,
    q: spec_fn(S) -> real,
    ex: spec_fn(real) -> real,
    lg: spec_fn(real) -> real,
    nodes: Seq<Node<W>>,
    mo: spec_fn(int) -> real,
    s: Shape,
    scale: real,
    sd: StateDict,
    w: Weights<S>,
    mw: Weights<real>,
    tokens: Seq<i32>,
    toks: Seq<TokenTrace>,
    a: Values<S>,
)
    requires
        exact_curves(p, ex, lg),
        exact_curves(q, ex, lg),
        is_exponential(ex),
        is_full_motion(p, nodes, mo),
        s.ok(),
        s.rows == s.t_len,
        forall|t: int| 0 <= t < s.rows ==> 0 <= #[trigger] tokens[t] < s.vocab,
        is_score_factor(s.heads_spec().d as nat, scale),
        is_forward(s, w, tokens, a),
        follows_weights(p, q, nodes, mo, sd, w, mw, s.cfg, s.vocab as nat),
        is_network_twin(p, q, nodes, s, sd, tokens, toks, a),
    ensures
        moves_network(q, s, scale, w, mw, tokens, a, network_gathered(nodes, mo, s, toks)),
{
    let (m, c, v) = (s.rows as nat, s.c() as nat, s.vocab as nat);
    s.lemma_numbers();
    lemma_whole_rows(m as int, c as int);
    let ma = network_gathered(nodes, mo, s, toks);
    let (femb, fx1) = (|t: int| toks[t].emb, |t: int| toks[t].x1);
    let last = s.cfg.n_layer - 1;
    let (fout, flog) = (|t: int| layer_at(toks, last)(t).x_out, |t: int| toks[t].logits);
    assert forall|t: int| 0 <= t < m implies is_token_part(
        p,
        q,
        nodes,
        s,
        sd,
        tokens[t] as int,
        #[trigger] toks[t],
        a,
        t,
    ) by {
        reveal(is_token_trace);
        reveal(same_trace);
        assert(same_token(p, q, nodes, s, toks[t], a, t));
        assert(same_trace(p, q, nodes, s, toks[t].layers[last], a.layers[last], t));
    }
    lemma_embed_moves(p, q, nodes, mo, s, sd, w, mw, tokens, femb);
    lemma_follows(p, q, nodes, mo, femb, a.x0, m, c);
    assert forall|r: int| 0 <= r < m implies is_inv_rms(a.x0, c, r, #[trigger] a.r0[r]) by {}
    lemma_norm_moves(p, q, ex, lg, nodes, mo, femb, fx1, a.x0, a.r0, ma.x0, m, c);
    assert forall|li: int| 0 <= li < s.cfg.n_layer implies moves_layer(
        q,
        s,
        scale,
        w.layers[li],
        mw.layers[li],
        a.layers[li],
        #[trigger] ma.layers[li],
    ) && ma.layers[li].xin == input_of(ma, li) by {
        let fl = layer_at(toks, li);
        assert(is_layer_twin(p, q, nodes, s, sd.layers@[li], fl, a.layers[li])) by {
            lemma_layer_twin(p, q, nodes, s, sd, tokens, toks, a, li);
        }
        assert(is_layer(s, w.layers[li], a.layers[li]));
        assert(follows_layer(
            p,
            q,
            nodes,
            mo,
            sd.layers@[li],
            w.layers[li],
            mw.layers[li],
            c,
        ));
        lemma_layer_moves(
            p,
            q,
            ex,
            lg,
            nodes,
            mo,
            s,
            scale,
            sd.layers@[li],
            w.layers[li],
            mw.layers[li],
            fl,
            a.layers[li],
        );
        assert forall|t: int| 0 <= t < s.rows implies (#[trigger] toks[t]).layers[li].xin
            == trace_input(toks[t].x1, toks[t].layers, li) by {
            reveal(is_token_trace);
            assert(same_token(p, q, nodes, s, toks[t], a, t));
        }
        lemma_input_moves(nodes, mo, s, toks, li);
    }
    lemma_follows(p, q, nodes, mo, fout, a.layers[last].x_out, m, c);
    lemma_linear_moves(
        p,
        q,
        nodes,
        mo,
        fout,
        rows_of(sd.lm_head@),
        flog,
        a.layers[last].x_out,
        ma.layers[last].x_out,
        w.lm_head,
        mw.lm_head,
        m,
        v,
        c,
    );
}

/// What a token is made of besides its layers.
spec fn is_token_part<W: Scalar, S: Scalar>(
    p: spec_fn(W) -> real,
    q: spec_fn(S) -> real,
    nodes: Seq<Node<W>>,
    s: Shape,
    sd: StateDict,
    token: int,
    tok: TokenTrace,
    a: Values<S>,
    t: int,
) -> bool {
    let (c, last) = (s.c() as nat, s.cfg.n_layer - 1);
    &&& same_row(p, q, nodes, tok.emb, a.x0, c, t)
    &&& same_row(p, q, nodes, tok.layers[last].x_out, a.layers[last].x_out, c, t)
    &&& is_add_nodes(nodes, rows_of(sd.wte@)[token], rows_of(sd.wpe@)[t], tok.emb)
    &&& is_rmsnorm_nodes(nodes, tok.emb, tok.x1)
    &&& is_linear_nodes(nodes, tok.layers[last].x_out, rows_of(sd.lm_head@), tok.logits)
}

/// Layer `li` of every token has its equations.
proof fn lemma_layer_twin<W: Scalar, S: Scalar>(
    p: spec_fn(W) -> real,
    q: spec_fn(S) -> real,
    nodes: Seq<Node<W>>,
    s: Shape,
    sd: StateDict,
    tokens: Seq<i32>,
    toks: Seq<TokenTrace>,
    a: Values<S>,
    li: int,
)
    requires
        0 <= li < s.cfg.n_layer,
        is_network_twin(p, q, nodes, s, sd, tokens, toks, a),
    ensures
        is_layer_twin(p, q, nodes, s, sd.layers@[li], layer_at(toks, li), a.layers[li]),
{
    reveal(is_layer_twin);
    let fl = layer_at(toks, li);
    assert forall|t: int| 0 <= t < s.rows implies same_trace(
        p,
        q,
        nodes,
        s,
        #[trigger] fl(t),
        a.layers[li],
        t,
    ) && is_layer_trace(
        nodes,
        s.cfg,
        sd.layers@[li],
        first_rows(|u: int| fl(u).k, t),
        first_rows(|u: int| fl(u).v, t),
        fl(t),
    ) by {
        reveal(is_token_trace);
        assert(same_token(p, q, nodes, s, toks[t], a, t));
        let (keys, values) = (past_keys(s.cfg, toks, t), past_values(s.cfg, toks, t));
        assert(are_layer_traces(
            nodes,
            s.cfg,
            sd,
            keys,
            values,
            toks[t].x1,
            toks[t].layers,
        ));
        assert(toks[t].layers[li] == fl(t));
        assert(keys[li] =~= first_rows(|u: int| fl(u).k, t));
        assert(values[li] =~= first_rows(|u: int| fl(u).v, t));
    }
}

} // verus!
