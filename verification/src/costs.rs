//! The operations of a computation are as many as its cost says.
use vstd::prelude::*;

use crate::graph::{linear_cost, rows_of};
use crate::layout::{Cfg, Ratio};
use crate::order::{
    add_ops, at, attention_at, attention_ops, div_ops, dot_ops, draw_ops, draw_starts, draws_ops,
    embedded_at, exp_ops, exps_at, head_ops, keys_at, layer_at, layer_in, layer_ops, layers_from,
    layers_ops, linear_ops, logits_at, mix_ops, mul_ops, relu_ops, rmsnorm_ops, row_at, scale_ops,
    score_ops, scores_at, softmax_at, softmax_ops, sum_at, sum_ops, token_ops, values_at,
};
use crate::tape::Value;
use crate::tape_gpt::{column, head_cost, layer_cost, lemma_costs, part_of, LayerWeights, StateDict};
use crate::tape_sample::{draw_cost, drawn_before, draws_cost};
use crate::tape_token::token_cost;

verus! {

/// Sums.
proof fn lemma_sum_len(start: int, terms: Seq<Value>, n: int)
    requires
        n >= 1,
    ensures
        sum_ops(start, terms, n).len() == n - 1,
    decreases n,
{
    if n > 1 {
        lemma_sum_len(start, terms, n - 1);
    }
}

/// Dot products.
proof fn lemma_dot_len(start: int, a: Seq<Value>, b: Seq<Value>, n: int)
    requires
        n >= 1,
    ensures
        dot_ops(start, a, b, n).len() == 2 * n - 1,
    decreases n,
{
    if n > 1 {
        lemma_dot_len(start, a, b, n - 1);
    }
}

/// One group more of the same size.
proof fn lemma_one_more(n: int, k: int)
    ensures
        (n - 1) * k + k == n * k,
        0 * k == 0,
{
    assert((n - 1) * k + k == n * k) by (nonlinear_arith);
    assert(0 * k == 0) by (nonlinear_arith);
}

/// Linear layers.
proof fn lemma_linear_len(start: int, x: Seq<Value>, w: Seq<Seq<Value>>, n: int)
    requires
        n >= 0,
        x.len() > 0,
    ensures
        linear_ops(start, x, w, n).len() == linear_cost(x.len() as int, n),
    decreases n,
{
    lemma_one_more(n, 2 * x.len() - 1);
    if n > 0 {
        lemma_linear_len(start, x, w, n - 1);
        lemma_dot_len(start + (n - 1) * (2 * x.len() - 1), w[n - 1], x, x.len() as int);
    }
}

/// Exponentials.
proof fn lemma_exp_len(start: int, xs: Seq<Value>, n: int)
    requires
        n >= 0,
    ensures
        exp_ops(start, xs, n).len() == 2 * n,
    decreases n,
{
    if n > 0 {
        lemma_exp_len(start, xs, n - 1);
    }
}

/// Operations on every number of a row.
proof fn lemma_each_len(
    a: Seq<Value>,
    b: Seq<Value>,
    y: Value,
    temperature: Ratio,
    n: int,
)
    requires
        n >= 0,
    ensures
        div_ops(a, y, n).len() == n,
        mul_ops(a, y, n).len() == n,
        add_ops(a, b, n).len() == n,
        relu_ops(a, n).len() == n,
        scale_ops(a, temperature, n).len() == n,
    decreases n,
{
    if n > 0 {
        lemma_each_len(a, b, y, temperature, n - 1);
    }
}

/// The softmax.
proof fn lemma_softmax_len(start: int, xs: Seq<Value>)
    requires
        xs.len() > 0,
    ensures
        softmax_ops(start, xs).len() == 4 * xs.len() - 1,
{
    let n = xs.len() as int;
    let es = exps_at(start, xs.len());
    lemma_exp_len(start, xs, n);
    lemma_sum_len(start + 2 * n, es, n);
    lemma_each_len(
        es,
        es,
        sum_at(start + 2 * n, es, n),
        Ratio { num: 0, den: 0 },
        n,
    );
}

/// The normalization.
proof fn lemma_rmsnorm_len(start: int, xs: Seq<Value>)
    requires
        xs.len() > 0,
    ensures
        rmsnorm_ops(start, xs).len() == 3 * xs.len() + 2,
{
    let n = xs.len() as int;
    lemma_dot_len(start, xs, xs, n);
    lemma_each_len(xs, xs, at(start + 2 * n + 1), Ratio { num: 0, den: 0 }, n);
}

/// The scores of a head.
proof fn lemma_score_len(
    start: int,
    d: int,
    from: int,
    q: Seq<Value>,
    keys: Seq<Seq<Value>>,
    n: int,
)
    requires
        n >= 0,
        d > 0,
    ensures
        score_ops(start, d, from, q, keys, n).len() == n * (2 * d),
    decreases n,
{
    lemma_one_more(n, 2 * d);
    if n > 0 {
        lemma_score_len(start, d, from, q, keys, n - 1);
        lemma_dot_len(
            start + (n - 1) * (2 * d),
            part_of(q, from, d),
            part_of(keys[n - 1], from, d),
            d,
        );
    }
}

/// The mixed values of a head.
proof fn lemma_mix_len(
    start: int,
    weights: Seq<Value>,
    values: Seq<Seq<Value>>,
    from: int,
    n: int,
)
    requires
        n >= 0,
        weights.len() > 0,
    ensures
        mix_ops(start, weights, values, from, n).len() == n * (2 * weights.len() - 1),
    decreases n,
{
    lemma_one_more(n, 2 * weights.len() - 1);
    if n > 0 {
        lemma_mix_len(start, weights, values, from, n - 1);
        lemma_dot_len(
            start + (n - 1) * (2 * weights.len() - 1),
            weights,
            column(values, from + n - 1),
            weights.len() as int,
        );
    }
}

/// A head.
proof fn lemma_head_len(
    start: int,
    d: int,
    from: int,
    q: Seq<Value>,
    keys: Seq<Seq<Value>>,
    values: Seq<Seq<Value>>,
)
    requires
        d > 0,
        keys.len() > 0,
    ensures
        head_ops(start, d, from, q, keys, values).len() == head_cost(d, keys.len() as int),
{
    let t = keys.len();
    let scored = start + t * (2 * d);
    lemma_score_len(start, d, from, q, keys, t as int);
    lemma_softmax_len(scored, scores_at(start, d, t));
    lemma_mix_len(
        scored + (4 * t - 1),
        softmax_at(scored, t),
        values,
        from,
        d,
    );
}

/// All heads.
proof fn lemma_attention_len(
    start: int,
    d: int,
    q: Seq<Value>,
    keys: Seq<Seq<Value>>,
    values: Seq<Seq<Value>>,
    n: int,
)
    requires
        d > 0,
        keys.len() > 0,
        n >= 0,
    ensures
        attention_ops(start, d, q, keys, values, n).len() == n * head_cost(d, keys.len() as int),
        attention_at(start, d, keys.len(), n).len() == n * d,
    decreases n,
{
    let cost = head_cost(d, keys.len() as int);
    lemma_one_more(n, cost);
    lemma_one_more(n, d);
    if n > 0 {
        lemma_attention_len(start, d, q, keys, values, n - 1);
        lemma_head_len(start + (n - 1) * cost, d, (n - 1) * d, q, keys, values);
    }
}

/// A layer.
pub proof fn lemma_layer_len(
    start: int,
    cfg: Cfg,
    w: LayerWeights,
    xin: Seq<Value>,
    keys: Seq<Seq<Value>>,
    values: Seq<Seq<Value>>,
)
    requires
        cfg.has_heads(),
        xin.len() == cfg.n_embd,
    ensures
        layer_ops(start, cfg, w, xin, keys, values).len() == layer_cost(
            cfg,
            keys.len() as int + 1,
        ),
        layer_at(start, cfg, keys.len() + 1, xin).x_out.len() == cfg.n_embd,
{
    reveal(layer_ops);
    reveal(layer_at);
    let c = cfg.n_embd as int;
    let t = layer_at(start, cfg, keys.len() + 1, xin);
    let d = c / cfg.n_head as int;
    let some = Ratio { num: 0, den: 0 };
    lemma_costs(cfg, keys.len() as int + 1);
    let n1 = start + 3 * c + 2;
    let n2 = n1 + linear_cost(c, c);
    let n3 = n2 + linear_cost(c, c);
    let n4 = n3 + linear_cost(c, c);
    let n5 = n4 + cfg.n_head * head_cost(d, keys.len() as int + 1);
    let n7 = n5 + linear_cost(c, c) + c;
    let n8 = n7 + 3 * c + 2;
    let n10 = n8 + linear_cost(c, 4 * c) + 4 * c;
    lemma_rmsnorm_len(start, xin);
    lemma_linear_len(n1, t.xn, rows_of(w.attn_wq@), c);
    lemma_linear_len(n2, t.xn, rows_of(w.attn_wk@), c);
    lemma_linear_len(n3, t.xn, rows_of(w.attn_wv@), c);
    lemma_attention_len(n4, d, t.q, keys.push(t.k), values.push(t.v), cfg.n_head as int);
    lemma_linear_len(n5, t.x_attn, rows_of(w.attn_wo@), c);
    lemma_each_len(t.proj, xin, xin[0], some, c);
    lemma_rmsnorm_len(n7, t.x_mid);
    lemma_linear_len(n8, t.xn2, rows_of(w.mlp_fc1@), 4 * c);
    lemma_each_len(t.hpre, t.hpre, xin[0], some, 4 * c);
    lemma_linear_len(n10, t.h, rows_of(w.mlp_fc2@), c);
    lemma_each_len(t.mlp, t.x_mid, xin[0], some, c);
}

/// Layers.
proof fn lemma_layers_len(
    start: int,
    cfg: Cfg,
    sd: StateDict,
    x1: Seq<Value>,
    keys: Seq<Seq<Seq<Value>>>,
    values: Seq<Seq<Seq<Value>>>,
    t: nat,
    n: int,
)
    requires
        cfg.has_heads(),
        x1.len() == cfg.n_embd,
        0 <= n,
        forall|li: int| 0 <= li < n ==> (#[trigger] keys[li]).len() + 1 == t,
    ensures
        layers_ops(start, cfg, sd, x1, keys, values, t, n).len() == n * layer_cost(
            cfg,
            t as int,
        ),
        layer_in(start, cfg, t, x1, n).len() == cfg.n_embd,
    decreases n,
{
    let cost = layer_cost(cfg, t as int);
    lemma_one_more(n, cost);
    if n > 0 {
        lemma_layers_len(start, cfg, sd, x1, keys, values, t, n - 1);
        assert(keys[n - 1].len() + 1 == t);
        lemma_layer_len(
            start + (n - 1) * cost,
            cfg,
            sd.layers@[n - 1],
            layer_in(start, cfg, t, x1, n - 1),
            keys[n - 1],
            values[n - 1],
        );
    }
}

/// A token.
pub proof fn lemma_token_len(
    start: int,
    cfg: Cfg,
    sd: StateDict,
    token: int,
    pos: int,
    keys: Seq<Seq<Seq<Value>>>,
    values: Seq<Seq<Seq<Value>>>,
    t: nat,
)
    requires
        cfg.has_heads(),
        forall|li: int| 0 <= li < cfg.n_layer ==> (#[trigger] keys[li]).len() + 1 == t,
    ensures
        token_ops(start, cfg, sd, token, pos, keys, values, t).len() == token_cost(
            cfg,
            sd.lm_head@.len() as int,
            t as int,
        ),
{
    reveal(token_ops);
    let c = cfg.n_embd as int;
    let x1 = embedded_at(start, cfg);
    let from = layers_from(start, cfg);
    let row = row_at(start, cfg.n_embd as nat);
    let (te, pe) = (
        rows_of(sd.wte@)[token],
        rows_of(sd.wpe@)[pos],
    );
    lemma_each_len(te, pe, row[0], Ratio { num: 0, den: 0 }, c);
    lemma_rmsnorm_len(start + c, row);
    lemma_layers_len(from, cfg, sd, x1, keys, values, t, cfg.n_layer as int);
    lemma_linear_len(
        from + cfg.n_layer * layer_cost(cfg, t as int),
        layer_in(from, cfg, t, x1, cfg.n_layer as int),
        rows_of(sd.lm_head@),
        sd.lm_head@.len() as int,
    );
}

/// A draw.
proof fn lemma_draw_len(
    own: int,
    cfg: Cfg,
    vocab: nat,
    sd: StateDict,
    token: int,
    pos: int,
    keys: Seq<Seq<Seq<Value>>>,
    values: Seq<Seq<Seq<Value>>>,
    temperature: Ratio,
)
    requires
        cfg.has_heads(),
        pos >= 0,
        vocab > 0,
        sd.lm_head@.len() == vocab,
        forall|li: int| 0 <= li < cfg.n_layer ==> (#[trigger] keys[li]).len() == pos,
    ensures
        draw_ops(own, cfg, vocab, sd, token, pos, keys, values, temperature).len() == draw_cost(
            cfg,
            vocab as int,
            pos + 1,
        ),
{
    reveal(draw_ops);
    let t = (pos + 1) as nat;
    let end = own + token_cost(cfg, vocab as int, t as int);
    let logits = logits_at(own, cfg, vocab, t);
    lemma_token_len(own, cfg, sd, token, pos, keys, values, t);
    lemma_each_len(logits, logits, logits[0], temperature, vocab as int);
    lemma_softmax_len(end + vocab, row_at(end, vocab));
}

/// The draws of a sample.
pub proof fn lemma_draws_len(
    start: int,
    cfg: Cfg,
    vocab: nat,
    sd: StateDict,
    bos: int,
    temperature: Ratio,
    draws: Seq<usize>,
    n: int,
)
    requires
        cfg.has_heads(),
        vocab > 0,
        sd.lm_head@.len() == vocab,
        n >= 0,
    ensures
        draws_ops(start, cfg, vocab, sd, bos, temperature, draws, n).len() == draws_cost(
            cfg,
            vocab as int,
            n,
        ),
    decreases n,
{
    if n > 0 {
        lemma_draws_len(start, cfg, vocab, sd, bos, temperature, draws, n - 1);
        let starts = draw_starts(start, cfg, vocab as int);
        lemma_draw_len(
            starts(n - 1),
            cfg,
            vocab,
            sd,
            drawn_before(bos, draws, n - 1),
            n - 1,
            keys_at(cfg, starts, (n - 1) as nat),
            values_at(cfg, starts, (n - 1) as nat),
            temperature,
        );
    }
}

} // verus!
