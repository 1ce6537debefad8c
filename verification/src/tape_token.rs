//! The network for one token, on a tape: embeddings, layers, and the logits of the token that
//! follows.
use vstd::prelude::*;

use crate::graph::{
    add_all, all_on, is_add_nodes, is_linear_nodes, is_rmsnorm_nodes, lemma_linear_extends,
    lemma_rmsnorm_extends, linear, linear_cost, matrix_on, rmsnorm, rows_of,
};
use crate::index::{lemma_pair, lemma_row_inside};
use crate::layout::{layer_start, lemma_layers_fit, lemma_sizes, param_count, Cfg};
use crate::order::{
    add_ops, embedded_at, follows, key_at, layer_in, layer_ops, layers_ops, lemma_follows_append,
    lemma_follows_none, linear_ops, logits_at, nth_layer_at, rmsnorm_ops, row_at, token_ops,
    value_at,
};
use crate::scalar::Scalar;
use crate::tape::{extends, max_nodes, on, Node, Tape, Value};
use crate::tape_gpt::{
    is_layer_trace, is_matrix, layer, layer_cost, layer_on, lemma_add_extends, lemma_costs,
    lemma_layer_extends, lemma_layer_on_extends, lemma_matrix_extends, LayerTrace, StateDict,
};

verus! {

/// The keys or values of a document, by layer and position.
pub open spec fn cache_of(cache: Seq<Vec<Vec<Value>>>) -> Seq<Seq<Seq<Value>>> {
    Seq::new(cache.len(), |li: int| rows_of(cache[li]@))
}

/// Whether the cache holds `t` positions of handles for each layer.
pub open spec fn cache_on<S>(
    nodes: Seq<Node<S>>,
    cache: Seq<Seq<Seq<Value>>>,
    cfg: Cfg,
    t: nat,
) -> bool {
    &&& cache.len() == cfg.n_layer
    &&& forall|li: int|
        0 <= li < cfg.n_layer ==> (#[trigger] cache[li]).len() == t && matrix_on(
            nodes,
            cache[li],
            cfg.n_embd as nat,
        )
}

/// Whether all matrices are handles of nodes.
pub open spec fn state_on<S>(nodes: Seq<Node<S>>, sd: StateDict, cfg: Cfg, vocab: int) -> bool {
    let c = cfg.n_embd as nat;
    &&& sd.wte@.len() == vocab
    &&& sd.wpe@.len() == cfg.block_size
    &&& sd.lm_head@.len() == vocab
    &&& sd.layers@.len() == cfg.n_layer
    &&& matrix_on(nodes, rows_of(sd.wte@), c)
    &&& matrix_on(nodes, rows_of(sd.wpe@), c)
    &&& matrix_on(nodes, rows_of(sd.lm_head@), c)
    &&& forall|li: int|
        0 <= li < cfg.n_layer ==> layer_on(nodes, #[trigger] sd.layers@[li], c)
}

/// A matrix that stands on the tape is one of handles.
proof fn lemma_matrix_stands<S>(
    nodes: Seq<Node<S>>,
    m: Seq<Seq<Value>>,
    start: int,
    nout: int,
    nin: int,
)
    requires
        is_matrix(m, start, nout, nin),
        0 <= start,
        0 <= nin,
        start + nout * nin <= nodes.len(),
    ensures
        matrix_on(nodes, m, nin as nat),
{
    assert forall|r: int| 0 <= r < m.len() implies (#[trigger] m[r]).len() == nin && all_on(
        nodes,
        m[r],
    ) by {
        assert forall|c: int| 0 <= c < m[r].len() implies on(nodes, #[trigger] m[r][c]) by {
            lemma_pair(r, nout, c, nin);
        }
    }
}

/// Parameters that stand on the tape are handles of nodes.
pub proof fn lemma_state_on<S>(
    nodes: Seq<Node<S>>,
    sd: StateDict,
    base: int,
    cfg: Cfg,
    vocab: int,
)
    requires
        sd.stands(base, cfg, vocab),
        0 <= base,
        0 <= vocab,
        base + param_count(cfg, vocab) <= nodes.len(),
    ensures
        state_on(nodes, sd, cfg, vocab),
{
    let c = cfg.n_embd as int;
    let square = c * c;
    lemma_sizes(cfg, vocab);
    lemma_layers_fit(cfg, vocab, 0);
    lemma_matrix_stands(nodes, rows_of(sd.wte@), base, vocab, c);
    lemma_matrix_stands(nodes, rows_of(sd.wpe@), base + vocab * c, cfg.block_size as int, c);
    lemma_matrix_stands(
        nodes,
        rows_of(sd.lm_head@),
        base + vocab * c + cfg.block_size * c,
        vocab,
        c,
    );
    reveal(layer_on);
    assert forall|li: int| 0 <= li < cfg.n_layer implies layer_on(
        nodes,
        #[trigger] sd.layers@[li],
        c as nat,
    ) by {
        let w = sd.layers@[li];
        let at = base + layer_start(cfg, vocab, li);
        lemma_layers_fit(cfg, vocab, li);
        lemma_layers_fit(cfg, vocab, li + 1);
        assert(w.stands(at, c));
        assert((4 * c) * c == 4 * square && c * (4 * c) == 4 * square) by (nonlinear_arith)
            requires
                square == c * c,
        ;
        lemma_matrix_stands(nodes, rows_of(w.attn_wq@), at, c, c);
        lemma_matrix_stands(nodes, rows_of(w.attn_wk@), at + square, c, c);
        lemma_matrix_stands(nodes, rows_of(w.attn_wv@), at + 2 * square, c, c);
        lemma_matrix_stands(nodes, rows_of(w.attn_wo@), at + 3 * square, c, c);
        lemma_matrix_stands(nodes, rows_of(w.mlp_fc1@), at + 4 * square, 4 * c, c);
        lemma_matrix_stands(nodes, rows_of(w.mlp_fc2@), at + 8 * square, c, 4 * c);
    }
}

/// Handles stay handles when the tape grows.
pub proof fn lemma_cache_extends<S: Scalar>(
    nodes: Seq<Node<S>>,
    later: Seq<Node<S>>,
    cache: Seq<Seq<Seq<Value>>>,
    cfg: Cfg,
    t: nat,
)
    requires
        extends(nodes, later),
        cache_on(nodes, cache, cfg, t),
    ensures
        cache_on(later, cache, cfg, t),
{
    assert forall|li: int| 0 <= li < cfg.n_layer implies (#[trigger] cache[li]).len() == t
        && matrix_on(later, cache[li], cfg.n_embd as nat) by {
        lemma_matrix_extends(nodes, later, cache[li], cfg.n_embd as nat);
    }
}

/// The tokens that a cache holds.
pub open spec fn cached(cache: Seq<Seq<Seq<Value>>>) -> nat {
    cache[0].len()
}

/// What goes into layer `li`.
pub open spec fn trace_input(x1: Seq<Value>, layers: Seq<LayerTrace>, li: int) -> Seq<Value> {
    if li == 0 {
        x1
    } else {
        layers[li - 1].x_out
    }
}

/// The equations of the layers `layers`, the first ones of the network, for one token.
pub open spec fn are_layer_traces<S: Scalar>(
    nodes: Seq<Node<S>>,
    cfg: Cfg,
    sd: StateDict,
    keys: Seq<Seq<Seq<Value>>>,
    values: Seq<Seq<Seq<Value>>>,
    x1: Seq<Value>,
    layers: Seq<LayerTrace>,
) -> bool {
    forall|li: int|
        0 <= li < layers.len() ==> is_layer_trace(
            nodes,
            cfg,
            sd.layers@[li],
            keys[li],
            values[li],
            #[trigger] layers[li],
        ) && layers[li].xin == trace_input(x1, layers, li)
}

/// Layers stay what they are when the tape grows.
pub proof fn lemma_layers_extend<S: Scalar>(
    nodes: Seq<Node<S>>,
    later: Seq<Node<S>>,
    cfg: Cfg,
    sd: StateDict,
    keys: Seq<Seq<Seq<Value>>>,
    values: Seq<Seq<Seq<Value>>>,
    x1: Seq<Value>,
    layers: Seq<LayerTrace>,
)
    requires
        extends(nodes, later),
        are_layer_traces(nodes, cfg, sd, keys, values, x1, layers),
    ensures
        are_layer_traces(later, cfg, sd, keys, values, x1, layers),
{
    assert forall|li: int| 0 <= li < layers.len() implies is_layer_trace(
        later,
        cfg,
        sd.layers@[li],
        keys[li],
        values[li],
        #[trigger] layers[li],
    ) && layers[li].xin == trace_input(x1, layers, li) by {
        lemma_layer_extends(nodes, later, cfg, sd.layers@[li], keys[li], values[li], layers[li]);
    }
}

/// One more layer.
proof fn lemma_layers_push<S: Scalar>(
    nodes: Seq<Node<S>>,
    cfg: Cfg,
    sd: StateDict,
    keys: Seq<Seq<Seq<Value>>>,
    values: Seq<Seq<Seq<Value>>>,
    x1: Seq<Value>,
    layers: Seq<LayerTrace>,
    own: LayerTrace,
)
    requires
        are_layer_traces(nodes, cfg, sd, keys, values, x1, layers),
        is_layer_trace(
            nodes,
            cfg,
            sd.layers@[layers.len() as int],
            keys[layers.len() as int],
            values[layers.len() as int],
            own,
        ),
        own.xin == trace_input(x1, layers, layers.len() as int),
    ensures
        are_layer_traces(nodes, cfg, sd, keys, values, x1, layers.push(own)),
{
    let longer = layers.push(own);
    assert forall|li: int| 0 <= li < longer.len() implies is_layer_trace(
        nodes,
        cfg,
        sd.layers@[li],
        keys[li],
        values[li],
        #[trigger] longer[li],
    ) && longer[li].xin == trace_input(x1, longer, li) by {
        if li < layers.len() {
            assert(longer[li] == layers[li]);
        }
    }
}

/// The cache of layer `li`, with the row of this token behind the others once the layer is
/// done.
pub open spec fn grown(
    before: Seq<Seq<Value>>,
    row: Seq<Value>,
    li: int,
    done: int,
) -> Seq<Seq<Value>> {
    if li < done {
        before.push(row)
    } else {
        before
    }
}

/// Whether `after` is the cache `before` with one more row for each of `layers`, the keys of
/// the token.
pub open spec fn keys_grow(
    before: Seq<Seq<Seq<Value>>>,
    after: Seq<Seq<Seq<Value>>>,
    layers: Seq<LayerTrace>,
) -> bool {
    &&& after.len() == before.len()
    &&& forall|li: int|
        0 <= li < before.len() ==> #[trigger] after[li] == grown(
            before[li],
            layers[li].k,
            li,
            layers.len() as int,
        )
}

/// Whether `after` is the cache `before` with one more row for each of `layers`, the values
/// of the token.
pub open spec fn values_grow(
    before: Seq<Seq<Seq<Value>>>,
    after: Seq<Seq<Seq<Value>>>,
    layers: Seq<LayerTrace>,
) -> bool {
    &&& after.len() == before.len()
    &&& forall|li: int|
        0 <= li < before.len() ==> #[trigger] after[li] == grown(
            before[li],
            layers[li].v,
            li,
            layers.len() as int,
        )
}

/// Whether the caches of the first `done` layers hold `t + 1` positions of handles and those
/// of the others `t`.
pub open spec fn partly_on<S>(
    nodes: Seq<Node<S>>,
    cache: Seq<Seq<Seq<Value>>>,
    cfg: Cfg,
    t: nat,
    done: int,
) -> bool {
    &&& cache.len() == cfg.n_layer
    &&& forall|li: int|
        0 <= li < cfg.n_layer ==> (#[trigger] cache[li]).len() == t + (if li < done {
            1int
        } else {
            0
        }) && matrix_on(nodes, cache[li], cfg.n_embd as nat)
}

/// Handles stay handles when the tape grows.
proof fn lemma_partly_extends<S: Scalar>(
    nodes: Seq<Node<S>>,
    later: Seq<Node<S>>,
    cache: Seq<Seq<Seq<Value>>>,
    cfg: Cfg,
    t: nat,
    done: int,
)
    requires
        extends(nodes, later),
        partly_on(nodes, cache, cfg, t, done),
    ensures
        partly_on(later, cache, cfg, t, done),
{
    assert forall|li: int| 0 <= li < cfg.n_layer implies (#[trigger] cache[li]).len() == t + (
    if li < done {
        1int
    } else {
        0
    }) && matrix_on(later, cache[li], cfg.n_embd as nat) by {
        lemma_matrix_extends(nodes, later, cache[li], cfg.n_embd as nat);
    }
}

/// Takes one token through all layers.
#[verifier::rlimit(40)]
fn layers<S: Scalar>(
    tape: &mut Tape<S>,
    cfg: &Cfg,
    sd: &StateDict,
    vocab: usize,
    x1: Vec<Value>,
    keys: &mut Vec<Vec<Vec<Value>>>,
    values: &mut Vec<Vec<Vec<Value>>>,
    Ghost(t): Ghost<nat>,
) -> (x: Vec<Value>)
    requires
        old(tape).wf(),
        cfg.runnable(),
        state_on(old(tape).nodes@, *sd, *cfg, vocab as int),
        x1@.len() == cfg.n_embd,
        all_on(old(tape).nodes@, x1@),
        partly_on(old(tape).nodes@, cache_of(old(keys)@), *cfg, t, 0),
        partly_on(old(tape).nodes@, cache_of(old(values)@), *cfg, t, 0),
        old(tape).nodes@.len() + cfg.n_layer * layer_cost(*cfg, t as int + 1) <= max_nodes(),
    ensures
        final(tape).wf(),
        extends(old(tape).nodes@, final(tape).nodes@),
        final(tape).nodes@.len() == old(tape).nodes@.len() + cfg.n_layer * layer_cost(
            *cfg,
            t as int + 1,
        ),
        partly_on(final(tape).nodes@, cache_of(final(keys)@), *cfg, t, cfg.n_layer as int),
        partly_on(final(tape).nodes@, cache_of(final(values)@), *cfg, t, cfg.n_layer as int),
        x@.len() == cfg.n_embd,
        all_on(final(tape).nodes@, x@),
        exists|traces: Seq<LayerTrace>| #[trigger]
            are_layer_traces(
                final(tape).nodes@,
                *cfg,
                *sd,
                cache_of(old(keys)@),
                cache_of(old(values)@),
                x1@,
                traces,
            ) && traces.len() == cfg.n_layer && x@ == traces.last().x_out && keys_grow(
                cache_of(old(keys)@),
                cache_of(final(keys)@),
                traces,
            ) && values_grow(cache_of(old(values)@), cache_of(final(values)@), traces),
        follows(
            old(tape).nodes@,
            final(tape).nodes@,
            layers_ops(
                old(tape).nodes@.len() as int,
                *cfg,
                *sd,
                x1@,
                cache_of(old(keys)@),
                cache_of(old(values)@),
                t + 1,
                cfg.n_layer as int,
            ),
        ),
        x@ == layer_in(old(tape).nodes@.len() as int, *cfg, t + 1, x1@, cfg.n_layer as int),
        forall|li: int|
            0 <= li < cfg.n_layer ==> #[trigger] cache_of(final(keys)@)[li] == cache_of(
                old(keys)@,
            )[li].push(nth_layer_at(old(tape).nodes@.len() as int, *cfg, t + 1, x1@, li).k),
        forall|li: int|
            0 <= li < cfg.n_layer ==> #[trigger] cache_of(final(values)@)[li] == cache_of(
                old(values)@,
            )[li].push(nth_layer_at(old(tape).nodes@.len() as int, *cfg, t + 1, x1@, li).v),
{
    let ghost from = tape.nodes@.len() as int;
    proof {
        lemma_follows_none(tape.nodes@);
    }
    let ghost n0 = tape.nodes@;
    let ghost c = cfg.n_embd as nat;
    let ghost (k0, v0) = (cache_of(keys@), cache_of(values@));
    let ghost xs = x1@;
    let ghost cost = layer_cost(*cfg, t as int + 1);
    let ghost mut traces: Seq<LayerTrace> = Seq::empty();
    let n_layer: usize = cfg.n_layer;
    let mut x: Vec<Value> = x1;
    proof {
        lemma_costs(*cfg, t as int + 1);
        assert(0 * cost == 0) by (nonlinear_arith);
    }
    for li in 0..n_layer
        invariant
            tape.wf(),
            cfg.runnable(),
            n_layer == cfg.n_layer,
            c == cfg.n_embd,
            cost == layer_cost(*cfg, t as int + 1),
            cost >= 0,
            state_on(n0, *sd, *cfg, vocab as int),
            extends(n0, tape.nodes@),
            tape.nodes@.len() == n0.len() + li * cost,
            n0.len() + n_layer * cost <= max_nodes(),
            partly_on(tape.nodes@, cache_of(keys@), *cfg, t, li as int),
            partly_on(tape.nodes@, cache_of(values@), *cfg, t, li as int),
            traces.len() == li,
            are_layer_traces(tape.nodes@, *cfg, *sd, k0, v0, xs, traces),
            keys_grow(k0, cache_of(keys@), traces),
            values_grow(v0, cache_of(values@), traces),
            x@ == trace_input(xs, traces, li as int),
            x@.len() == c,
            all_on(tape.nodes@, x@),
            from == n0.len(),
            follows(n0, tape.nodes@, layers_ops(from, *cfg, *sd, xs, k0, v0, t + 1, li as int)),
            x@ == layer_in(from, *cfg, t + 1, xs, li as int),
            forall|i: int|
                0 <= i < li ==> #[trigger] cache_of(keys@)[i] == k0[i].push(
                    nth_layer_at(from, *cfg, t + 1, xs, i).k,
                ),
            forall|i: int|
                0 <= i < li ==> #[trigger] cache_of(values@)[i] == v0[i].push(
                    nth_layer_at(from, *cfg, t + 1, xs, i).v,
                ),
    {
        let ghost before = tape.nodes@;
        let ghost (ks, vs) = (cache_of(keys@), cache_of(values@));
        let ghost xin = x@;
        let ghost l = li as int;
        proof {
            lemma_row_inside(l, n_layer as int, cost);
            lemma_layer_on_extends(n0, before, sd.layers@[l], c);
            assert(ks[l] == rows_of(keys@[l]@) && vs[l] == rows_of(values@[l]@));
            assert(k0[l] == ks[l] && v0[l] == vs[l]);
        }
        x = layer(tape, cfg, &sd.layers[li], &x, &mut keys[li], &mut values[li]);
        proof {
            let end = tape.nodes@;
            let w = sd.layers@[l];
            let (k1, v1) = (cache_of(keys@), cache_of(values@));
            let own = choose|own: LayerTrace| #[trigger]
                is_layer_trace(end, *cfg, w, ks[l], vs[l], own) && own.xin == xin && own.x_out
                    == x@ && rows_of(keys@[l]@) == ks[l].push(own.k) && rows_of(values@[l]@)
                    == vs[l].push(own.v);
            assert(k1[l] == ks[l].push(own.k) && v1[l] == vs[l].push(own.v));
            lemma_layers_extend(before, end, *cfg, *sd, k0, v0, xs, traces);
            lemma_layers_push(end, *cfg, *sd, k0, v0, xs, traces, own);
            lemma_partly_extends(before, end, ks, *cfg, t, l);
            lemma_partly_extends(before, end, vs, *cfg, t, l);
            assert forall|i: int| 0 <= i < n_layer && i != l implies #[trigger] k1[i] == ks[i] by {}
            assert forall|i: int| 0 <= i < n_layer && i != l implies #[trigger] v1[i] == vs[i] by {}
            let longer = traces.push(own);
            assert forall|i: int| 0 <= i < n_layer implies #[trigger] k1[i] == grown(
                k0[i],
                longer[i].k,
                i,
                l + 1,
            ) by {
                assert(ks[i] == grown(k0[i], traces[i].k, i, l));
            }
            assert forall|i: int| 0 <= i < n_layer implies #[trigger] v1[i] == grown(
                v0[i],
                longer[i].v,
                i,
                l + 1,
            ) by {
                assert(vs[i] == grown(v0[i], traces[i].v, i, l));
            }
            traces = longer;
            lemma_follows_append(
                n0,
                before,
                end,
                layers_ops(from, *cfg, *sd, xs, k0, v0, t + 1, l),
                layer_ops(before.len() as int, *cfg, w, xin, k0[l], v0[l]),
            );
        }
    }
    x
}

/// The numbers that one token goes through.
pub struct TokenTrace {
    pub emb: Seq<Value>,
    pub x1: Seq<Value>,
    pub layers: Seq<LayerTrace>,
    pub logits: Seq<Value>,
}

/// The equations of the network for the token `token` at position `pos`, behind the tokens
/// whose keys and values are in the caches.
#[verifier::opaque]
pub open spec fn is_token_trace<S: Scalar>(
    nodes: Seq<Node<S>>,
    cfg: Cfg,
    sd: StateDict,
    token: int,
    pos: int,
    keys: Seq<Seq<Seq<Value>>>,
    values: Seq<Seq<Seq<Value>>>,
    t: TokenTrace,
) -> bool {
    &&& is_add_nodes(nodes, rows_of(sd.wte@)[token], rows_of(sd.wpe@)[pos], t.emb)
    &&& is_rmsnorm_nodes(nodes, t.emb, t.x1)
    &&& t.layers.len() == cfg.n_layer
    &&& are_layer_traces(nodes, cfg, sd, keys, values, t.x1, t.layers)
    &&& is_linear_nodes(nodes, t.layers.last().x_out, rows_of(sd.lm_head@), t.logits)
}

/// A token's numbers stay what they are when the tape grows.
pub proof fn lemma_token_extends<S: Scalar>(
    nodes: Seq<Node<S>>,
    later: Seq<Node<S>>,
    cfg: Cfg,
    sd: StateDict,
    token: int,
    pos: int,
    keys: Seq<Seq<Seq<Value>>>,
    values: Seq<Seq<Seq<Value>>>,
    t: TokenTrace,
)
    requires
        extends(nodes, later),
        is_token_trace(nodes, cfg, sd, token, pos, keys, values, t),
    ensures
        is_token_trace(later, cfg, sd, token, pos, keys, values, t),
{
    reveal(is_token_trace);
    lemma_add_extends(nodes, later, rows_of(sd.wte@)[token], rows_of(sd.wpe@)[pos], t.emb);
    lemma_rmsnorm_extends(nodes, later, t.emb, t.x1);
    lemma_layers_extend(nodes, later, cfg, sd, keys, values, t.x1, t.layers);
    lemma_linear_extends(nodes, later, t.layers.last().x_out, rows_of(sd.lm_head@), t.logits);
}

/// All matrices stay handles when the tape grows.
pub proof fn lemma_state_extends<S: Scalar>(
    nodes: Seq<Node<S>>,
    later: Seq<Node<S>>,
    sd: StateDict,
    cfg: Cfg,
    vocab: int,
)
    requires
        extends(nodes, later),
        state_on(nodes, sd, cfg, vocab),
    ensures
        state_on(later, sd, cfg, vocab),
{
    let c = cfg.n_embd as nat;
    lemma_matrix_extends(nodes, later, rows_of(sd.wte@), c);
    lemma_matrix_extends(nodes, later, rows_of(sd.wpe@), c);
    lemma_matrix_extends(nodes, later, rows_of(sd.lm_head@), c);
    assert forall|li: int| 0 <= li < cfg.n_layer implies layer_on(
        later,
        #[trigger] sd.layers@[li],
        c,
    ) by {
        lemma_layer_on_extends(nodes, later, sd.layers@[li], c);
    }
}

/// The nodes of one token, the `t`-th of its document.
pub open spec fn token_cost(cfg: Cfg, vocab: int, t: int) -> int {
    let c = cfg.n_embd as int;
    c + (3 * c + 2) + cfg.n_layer * layer_cost(cfg, t) + linear_cost(c, vocab)
}

/// No part of a token has a negative cost.
pub proof fn lemma_token_costs(cfg: Cfg, vocab: int, t: int)
    requires
        cfg.has_heads(),
        vocab >= 0,
        t > 0,
    ensures
        0 <= cfg.n_layer * layer_cost(cfg, t),
        0 <= linear_cost(cfg.n_embd as int, vocab),
        0 <= token_cost(cfg, vocab, t),
{
    lemma_costs(cfg, t);
    let (c, cost, n) = (cfg.n_embd as int, layer_cost(cfg, t), cfg.n_layer as int);
    assert(0 <= n * cost && 0 <= vocab * (2 * c - 1)) by (nonlinear_arith)
        requires
            cost >= 0,
            n >= 0,
            c > 0,
            vocab >= 0,
    ;
}

/// Whether `after` is the cache `before` with the row `row(li)` behind those of layer `li`.
pub open spec fn cache_grows(
    before: Seq<Seq<Seq<Value>>>,
    after: Seq<Seq<Seq<Value>>>,
    row: spec_fn(int) -> Seq<Value>,
) -> bool {
    &&& after.len() == before.len()
    &&& forall|li: int| 0 <= li < before.len() ==> #[trigger] after[li] == before[li].push(row(li))
}

/// The keys of the first `n` of `tokens`, by layer and position.
pub open spec fn past_keys(cfg: Cfg, tokens: Seq<TokenTrace>, n: int) -> Seq<Seq<Seq<Value>>> {
    Seq::new(
        cfg.n_layer as nat,
        |li: int| Seq::new(n as nat, |t: int| tokens[t].layers[li].k),
    )
}

/// The values of the first `n` of `tokens`, by layer and position.
pub open spec fn past_values(cfg: Cfg, tokens: Seq<TokenTrace>, n: int) -> Seq<Seq<Seq<Value>>> {
    Seq::new(
        cfg.n_layer as nat,
        |li: int| Seq::new(n as nat, |t: int| tokens[t].layers[li].v),
    )
}

/// The keys and values of the first `n` tokens do not depend on those behind them.
pub proof fn lemma_past_kept(cfg: Cfg, tokens: Seq<TokenTrace>, longer: Seq<TokenTrace>, n: int)
    requires
        0 <= n <= tokens.len(),
        n <= longer.len(),
        forall|i: int| 0 <= i < n ==> #[trigger] longer[i] == tokens[i],
    ensures
        past_keys(cfg, longer, n) == past_keys(cfg, tokens, n),
        past_values(cfg, longer, n) == past_values(cfg, tokens, n),
{
    let (k0, v0) = (past_keys(cfg, tokens, n), past_values(cfg, tokens, n));
    let (k1, v1) = (past_keys(cfg, longer, n), past_values(cfg, longer, n));
    assert forall|li: int| 0 <= li < cfg.n_layer implies #[trigger] k1[li] == k0[li] by {
        assert(k1[li] =~= k0[li]);
    }
    assert forall|li: int| 0 <= li < cfg.n_layer implies #[trigger] v1[li] == v0[li] by {
        assert(v1[li] =~= v0[li]);
    }
    assert(k1 =~= k0);
    assert(v1 =~= v0);
}

/// The caches hold one more token.
pub proof fn lemma_past_grows(
    cfg: Cfg,
    tokens: Seq<TokenTrace>,
    own: TokenTrace,
    keys: Seq<Seq<Seq<Value>>>,
    values: Seq<Seq<Seq<Value>>>,
)
    requires
        keys_grow(past_keys(cfg, tokens, tokens.len() as int), keys, own.layers),
        values_grow(past_values(cfg, tokens, tokens.len() as int), values, own.layers),
        own.layers.len() == cfg.n_layer,
    ensures
        keys == past_keys(cfg, tokens.push(own), tokens.len() as int + 1),
        values == past_values(cfg, tokens.push(own), tokens.len() as int + 1),
{
    let n = tokens.len() as int;
    let longer = tokens.push(own);
    let (k0, v0) = (past_keys(cfg, tokens, n), past_values(cfg, tokens, n));
    let (k1, v1) = (past_keys(cfg, longer, n + 1), past_values(cfg, longer, n + 1));
    assert forall|li: int| 0 <= li < cfg.n_layer implies #[trigger] keys[li] == k1[li] by {
        assert(keys[li] =~= k1[li]);
    }
    assert forall|li: int| 0 <= li < cfg.n_layer implies #[trigger] values[li] == v1[li] by {
        assert(values[li] =~= v1[li]);
    }
    assert(keys =~= k1);
    assert(values =~= v1);
}

/// The embedding of `token` at `pos`, normalized.
fn embed<S: Scalar>(
    tape: &mut Tape<S>,
    cfg: &Cfg,
    sd: &StateDict,
    vocab: usize,
    token_id: usize,
    pos_id: usize,
) -> (r: (Ghost<Seq<Value>>, Vec<Value>))
    requires
        old(tape).wf(),
        cfg.runnable(),
        state_on(old(tape).nodes@, *sd, *cfg, vocab as int),
        token_id < vocab,
        pos_id < cfg.block_size,
        old(tape).nodes@.len() + 4 * cfg.n_embd + 2 <= max_nodes(),
    ensures
        final(tape).wf(),
        extends(old(tape).nodes@, final(tape).nodes@),
        final(tape).nodes@.len() == old(tape).nodes@.len() + 4 * cfg.n_embd + 2,
        r.1@.len() == cfg.n_embd,
        all_on(final(tape).nodes@, r.1@),
        is_add_nodes(
            final(tape).nodes@,
            rows_of(sd.wte@)[token_id as int],
            rows_of(sd.wpe@)[pos_id as int],
            r.0@,
        ),
        is_rmsnorm_nodes(final(tape).nodes@, r.0@, r.1@),
        follows(
            old(tape).nodes@,
            final(tape).nodes@,
            add_ops(
                rows_of(sd.wte@)[token_id as int],
                rows_of(sd.wpe@)[pos_id as int],
                cfg.n_embd as int,
            ) + rmsnorm_ops(
                old(tape).nodes@.len() + cfg.n_embd,
                row_at(old(tape).nodes@.len() as int, cfg.n_embd as nat),
            ),
        ),
        r.1@ == embedded_at(old(tape).nodes@.len() as int, *cfg),
{
    let ghost n0 = tape.nodes@;
    proof {
        assert(rows_of(sd.wte@)[token_id as int] == sd.wte@[token_id as int]@);
        assert(rows_of(sd.wpe@)[pos_id as int] == sd.wpe@[pos_id as int]@);
        assert(all_on(n0, rows_of(sd.wte@)[token_id as int]));
        assert(all_on(n0, rows_of(sd.wpe@)[pos_id as int]));
    }
    let emb: Vec<Value> = add_all(tape, &sd.wte[token_id], &sd.wpe[pos_id]);
    let ghost n1 = tape.nodes@;
    let x1: Vec<Value> = rmsnorm(tape, &emb);
    proof {
        lemma_add_extends(
            n1,
            tape.nodes@,
            rows_of(sd.wte@)[token_id as int],
            rows_of(sd.wpe@)[pos_id as int],
            emb@,
        );
        lemma_follows_append(
            n0,
            n1,
            tape.nodes@,
            add_ops(
                rows_of(sd.wte@)[token_id as int],
                rows_of(sd.wpe@)[pos_id as int],
                cfg.n_embd as int,
            ),
            rmsnorm_ops(n1.len() as int, emb@),
        );
    }
    (Ghost(emb@), x1)
}

/// Takes one token through the network and returns the logits of the one that follows. Its
/// keys and values are appended to the caches.
pub fn gpt<S: Scalar>(
    tape: &mut Tape<S>,
    cfg: &Cfg,
    sd: &StateDict,
    vocab: usize,
    token_id: usize,
    pos_id: usize,
    keys: &mut Vec<Vec<Vec<Value>>>,
    values: &mut Vec<Vec<Vec<Value>>>,
) -> (logits: Vec<Value>)
    requires
        old(tape).wf(),
        cfg.runnable(),
        state_on(old(tape).nodes@, *sd, *cfg, vocab as int),
        token_id < vocab,
        pos_id < cfg.block_size,
        cache_on(old(tape).nodes@, cache_of(old(keys)@), *cfg, cached(cache_of(old(keys)@))),
        cache_on(old(tape).nodes@, cache_of(old(values)@), *cfg, cached(cache_of(old(keys)@))),
        old(tape).nodes@.len() + token_cost(
            *cfg,
            vocab as int,
            cached(cache_of(old(keys)@)) as int + 1,
        ) <= max_nodes(),
    ensures
        final(tape).wf(),
        extends(old(tape).nodes@, final(tape).nodes@),
        final(tape).nodes@.len() == old(tape).nodes@.len() + token_cost(
            *cfg,
            vocab as int,
            cached(cache_of(old(keys)@)) as int + 1,
        ),
        cache_on(
            final(tape).nodes@,
            cache_of(final(keys)@),
            *cfg,
            cached(cache_of(old(keys)@)) + 1,
        ),
        cache_on(
            final(tape).nodes@,
            cache_of(final(values)@),
            *cfg,
            cached(cache_of(old(keys)@)) + 1,
        ),
        logits@.len() == vocab,
        all_on(final(tape).nodes@, logits@),
        exists|trace: TokenTrace| #[trigger]
            is_token_trace(
                final(tape).nodes@,
                *cfg,
                *sd,
                token_id as int,
                pos_id as int,
                cache_of(old(keys)@),
                cache_of(old(values)@),
                trace,
            ) && trace.logits == logits@ && keys_grow(
                cache_of(old(keys)@),
                cache_of(final(keys)@),
                trace.layers,
            ) && values_grow(cache_of(old(values)@), cache_of(final(values)@), trace.layers),
        follows(
            old(tape).nodes@,
            final(tape).nodes@,
            token_ops(
                old(tape).nodes@.len() as int,
                *cfg,
                *sd,
                token_id as int,
                pos_id as int,
                cache_of(old(keys)@),
                cache_of(old(values)@),
                cached(cache_of(old(keys)@)) + 1,
            ),
        ),
        logits@ == logits_at(
            old(tape).nodes@.len() as int,
            *cfg,
            vocab as nat,
            cached(cache_of(old(keys)@)) + 1,
        ),
        cache_grows(
            cache_of(old(keys)@),
            cache_of(final(keys)@),
            |li: int|
                key_at(
                    old(tape).nodes@.len() as int,
                    *cfg,
                    cached(cache_of(old(keys)@)) + 1,
                    li,
                ),
        ),
        cache_grows(
            cache_of(old(values)@),
            cache_of(final(values)@),
            |li: int|
                value_at(
                    old(tape).nodes@.len() as int,
                    *cfg,
                    cached(cache_of(old(keys)@)) + 1,
                    li,
                ),
        ),
{
    let ghost t = cached(cache_of(keys@));
    let ghost n0 = tape.nodes@;
    let ghost c = cfg.n_embd as nat;
    let ghost (k0, v0) = (cache_of(keys@), cache_of(values@));
    proof {
        lemma_token_costs(*cfg, vocab as int, t as int + 1);
    }
    let (emb, x1): (Ghost<Seq<Value>>, Vec<Value>) = embed(tape, cfg, sd, vocab, token_id, pos_id);
    let ghost n1 = tape.nodes@;
    let ghost xs = x1@;
    proof {
        lemma_state_extends(n0, n1, *sd, *cfg, vocab as int);
        lemma_partly_extends(n0, n1, k0, *cfg, t, 0);
        lemma_partly_extends(n0, n1, v0, *cfg, t, 0);
    }
    let x: Vec<Value> = layers(tape, cfg, sd, vocab, x1, keys, values, Ghost(t));
    let ghost n2 = tape.nodes@;
    proof {
        lemma_matrix_extends(n1, n2, rows_of(sd.lm_head@), c);
    }
    let logits: Vec<Value> = linear(tape, &x, &sd.lm_head);
    proof {
        let end = tape.nodes@;
        let (k1, v1) = (cache_of(keys@), cache_of(values@));
        let traces = choose|traces: Seq<LayerTrace>| #[trigger]
            are_layer_traces(n2, *cfg, *sd, k0, v0, xs, traces) && traces.len() == cfg.n_layer
                && x@ == traces.last().x_out && keys_grow(k0, k1, traces) && values_grow(
                v0,
                v1,
                traces,
            );
        let done = TokenTrace { emb: emb@, x1: xs, layers: traces, logits: logits@ };
        lemma_partly_extends(n2, end, k1, *cfg, t, cfg.n_layer as int);
        lemma_partly_extends(n2, end, v1, *cfg, t, cfg.n_layer as int);
        lemma_layers_extend(n2, end, *cfg, *sd, k0, v0, xs, traces);
        assert(is_token_trace(
            end,
            *cfg,
            *sd,
            token_id as int,
            pos_id as int,
            k0,
            v0,
            done,
        )) by {
            reveal(is_token_trace);
            lemma_add_extends(
                n1,
                end,
                rows_of(sd.wte@)[token_id as int],
                rows_of(sd.wpe@)[pos_id as int],
                emb@,
            );
            lemma_rmsnorm_extends(n1, end, emb@, xs);
        }
        let from = n0.len() as int;
        let first = add_ops(
            rows_of(sd.wte@)[token_id as int],
            rows_of(sd.wpe@)[pos_id as int],
            cfg.n_embd as int,
        ) + rmsnorm_ops(from + cfg.n_embd, row_at(from, cfg.n_embd as nat));
        let middle = layers_ops(
            n1.len() as int,
            *cfg,
            *sd,
            xs,
            k0,
            v0,
            t + 1,
            cfg.n_layer as int,
        );
        let last = linear_ops(
            n2.len() as int,
            x@,
            rows_of(sd.lm_head@),
            sd.lm_head@.len() as int,
        );
        lemma_follows_append(n0, n1, n2, first, middle);
        lemma_follows_append(n0, n2, end, first + middle, last);
        reveal(token_ops);
    }
    logits
}

} // verus!
