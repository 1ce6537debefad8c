//! The tape and the batched network have the same gradients: what automatic differentiation
//! finds scalar by scalar, and what the backward pass written by hand computes layer by
//! layer, is the same.
use vstd::prelude::*;

use crate::accumulate::lemma_some_scale;
use crate::bank::{read, Mem, Span};
use crate::derivative::{law_backward_is_the_derivative_of_the_loss, layer_pairing, weights_pairing};
use crate::determinism::lemma_weights_sized;
use crate::exact::{
    exact, lemma_inner_same, lemma_quotient, lemma_total_append, lemma_total_pick, lemma_total_same,
    total_of,
};
use crate::gradient::{is_backward, Flow};
use crate::graph::{is_softmax_nodes, rows_of};
use crate::index::lemma_pair;
use crate::layout::{layer_len, layer_start, lemma_layers_fit, lemma_sizes, param_count};
use crate::loss::{count_valid, is_ce};
use crate::motion::{nums, pairing, row_moves, row_nums};

use crate::motion_loss::{moves_loss, moves_mean_loss};
use crate::network::{is_forward, layer_weights, weights_of, Values, Weights};


use crate::scalar::{is_num, is_one, is_quot, Scalar};
use crate::shape::Shape;
use crate::tape::{
    is_log_node, is_mul_const, is_neg_node, is_tape_backward, topological, Node, Value,
};
use crate::tape_gpt::{is_matrix, StateDict};
use crate::tape_laws::{
    input_part, is_input, is_motion, law_backward_is_the_derivative, law_constant_rule,
    law_logarithm_rule, law_sum_rule, moved,
};
use crate::tape_token::{is_token_trace, past_keys, past_values};
use crate::tape_train::{
    is_document_loss, is_document_loss_by, is_step_trace, losses_of, toks_of, StepTrace,
};
use crate::twin_motion::{
    follows, is_full_motion, lemma_gathered, lemma_softmax_nodes_moves, lemma_sum_node_moves,
    rows_fn, same_moves, tape_moves,
};
use crate::twin_moves::{
    follows_layer, follows_weights, is_network_twin, lemma_network_moves, network_gathered,
};
use crate::twin_network::{
    lemma_all_valid, lemma_twin_probs, lemma_twin_tokens, same_layer, same_token, same_weights,
};
use crate::twin_parts::{exact_curves, is_exponential, same_matrix, same_row, tape_nums};

verus! {

/// The motion of node `k` when the inputs move as `dir` says.
pub open spec fn driven<W>(
    p: spec_fn(W) -> real,
    nodes: Seq<Node<W>>,
    dir: spec_fn(int) -> real,
    k: int,
) -> real
    decreases k,
{
    if k < 0 || is_input(nodes[k]) {
        dir(k)
    } else {
        (match nodes[k].left {
            Some(o) => if o.idx < k {
                p(o.local_grad) * driven(p, nodes, dir, o.idx as int)
            } else {
                0 as real
            },
            None => 0 as real,
        }) + (match nodes[k].right {
            Some(o) => if o.idx < k {
                p(o.local_grad) * driven(p, nodes, dir, o.idx as int)
            } else {
                0 as real
            },
            None => 0 as real,
        })
    }
}

/// Every node is moved by its operands.
proof fn lemma_driven<W>(p: spec_fn(W) -> real, nodes: Seq<Node<W>>, dir: spec_fn(int) -> real)
    requires
        topological(nodes),
    ensures
        is_full_motion(p, nodes, |k: int| driven(p, nodes, dir, k)),
{
    let mo = |k: int| driven(p, nodes, dir, k);
    assert forall|k: int| 0 <= k < nodes.len() && !is_input(#[trigger] nodes[k]) implies mo(k)
        == moved(p, nodes, mo, k) by {}
}

/// Only number `i` moves.
pub open spec fn only(i: int) -> spec_fn(int) -> real {
    |k: int|
        if k == i {
            1 as real
        } else {
            0 as real
        }
}

/// The motion of a buffer of `n` numbers of which only number `i` moves.
pub open spec fn unit(i: int, n: nat) -> Seq<real> {
    Seq::new(n, |k: int| only(i)(k))
}

/// How the loss of position `t` moves.
proof fn lemma_step_moves<W: Scalar, S: Scalar>(
    p: spec_fn(W) -> real,
    q: spec_fn(S) -> real,
    nodes: Seq<Node<W>>,
    mo: spec_fn(int) -> real,
    step: StepTrace,
    target: int,
    probs: Seq<S>,
    mlogits: Seq<real>,
    vocab: nat,
    t: int,
)
    requires
        exact(p),
        is_full_motion(p, nodes, mo),
        0 <= target < vocab,
        same_row(p, q, nodes, step.probs, probs, vocab, t),
        same_moves(mo, step.token.logits, mlogits, vocab, t),
        is_softmax_nodes(nodes, step.token.logits, step.probs),
        is_log_node(nodes, step.probs[target], step.log),
        is_neg_node(nodes, step.log, step.loss),
    ensures
        moves_loss(q, mo(step.loss.idx as int), probs, mlogits, vocab, target, t),
{
    let (xs, ps) = (step.token.logits, step.probs);
    lemma_softmax_nodes_moves(p, nodes, mo, xs, ps, target);
    let (f, g) = (tape_nums(p, nodes, ps), row_nums(q, probs, vocab, t));
    let (mf, mg) = (tape_moves(mo, xs), row_moves(mlogits, vocab, t));
    lemma_inner_same(f, mf, g, mg, vocab);
    assert(f(target) == g(target) && mf(target) == mg(target));
    law_logarithm_rule(p, nodes, mo, ps[target], step.log);
    assert(!is_input(nodes[step.log.idx as int]));
    law_sum_rule(p, nodes, mo, step.log, step.log, step.loss);
    assert(!is_input(nodes[step.loss.idx as int]));
    let (mp, y) = (mo(ps[target].idx as int), g(target));
    lemma_quotient(mp, y);
    let (ml, r) = (mo(step.log.idx as int), mo(step.loss.idx as int));
    assert(y * (-ml) == -(ml * y)) by (nonlinear_arith);
}

/// How the loss of a document moves.
proof fn lemma_document_moves<W: Scalar, S: Scalar>(
    p: spec_fn(W) -> real,
    q: spec_fn(S) -> real,
    ex: spec_fn(real) -> real,
    lg: spec_fn(real) -> real,
    nodes: Seq<Node<W>>,
    mo: spec_fn(int) -> real,
    s: Shape,
    sd: StateDict,
    doc: Seq<usize>,
    loss: Value,
    targets: Seq<i32>,
    steps: Seq<StepTrace>,
    total: Value,
    share: W,
    a: Values<S>,
    before: Seq<S>,
    probs: Seq<S>,
    losses: Seq<S>,
)
    requires
        exact_curves(p, ex, lg),
        exact_curves(q, ex, lg),
        is_exponential(ex),
        is_full_motion(p, nodes, mo),
        s.ok(),
        0 < s.rows,
        s.rows < doc.len(),
        forall|i: int| 0 <= i <= s.rows ==> #[trigger] doc[i] < s.vocab,
        forall|i: int| 0 <= i < s.rows ==> #[trigger] targets[i] == doc[i + 1],
        is_document_loss_by(nodes, s.cfg, sd, doc, s.rows as nat, loss, steps, total, share),
        forall|t: int|
            0 <= t < s.rows ==> same_row(
                p,
                q,
                nodes,
                (#[trigger] steps[t]).token.logits,
                a.logits,
                s.vocab as nat,
                t,
            ),
        losses.len() == s.rows,
        a.logits.len() == s.rv(),
        probs.len() == s.rv(),
        is_ce(losses, before, probs, a.logits, targets, s.vocab as nat),
    ensures
        moves_mean_loss(
            q,
            mo(loss.idx as int),
            Seq::new(s.rows as nat, |t: int| mo(steps[t].loss.idx as int)),
            probs,
            network_gathered(nodes, mo, s, toks_of(steps)).logits,
            targets,
            s.rows as nat,
            s.vocab as nat,
            s.rows as nat,
        ),
{
    let (m, v) = (s.rows as nat, s.vocab as nat);
    let toks = toks_of(steps);
    let mlogits = network_gathered(nodes, mo, s, toks).logits;
    let mlosses = Seq::new(m, |t: int| mo(steps[t].loss.idx as int));
    let flog = |t: int| toks[t].logits;
    assert(s.rv() == m * v);
    assert forall|t: int| 0 <= t < m implies moves_loss(
        q,
        #[trigger] mlosses[t],
        probs,
        mlogits,
        v,
        targets[t] as int,
        t,
    ) by {
        assert(same_row(p, q, nodes, steps[t].token.logits, a.logits, v, t));
        assert(is_step_trace(
            nodes,
            s.cfg,
            sd,
            doc,
            t,
            past_keys(s.cfg, toks, t),
            past_values(s.cfg, toks, t),
            steps[t],
        ));
        reveal(is_step_trace);
        assert(targets[t] == doc[t + 1]);
        let step = steps[t];
        lemma_twin_probs(
            p,
            q,
            ex,
            lg,
            nodes,
            step.token.logits,
            step.probs,
            losses,
            before,
            probs,
            a.logits,
            targets,
            m,
            v,
            t,
        );
        lemma_gathered(mo, flog, m, v, t);
        lemma_step_moves(p, q, nodes, mo, step, targets[t] as int, probs, mlogits, v, t);
    }
    lemma_sum_node_moves(p, nodes, mo, losses_of(steps), total);
    let f = |t: int| mlosses[t];
    lemma_total_same(tape_moves(mo, losses_of(steps)), f, m);
    law_constant_rule(p, nodes, mo, total, share, loss);
    assert(!is_input(nodes[loss.idx as int]));
    let (one, num) = choose|one: W, num: W|
        is_one(one) && is_num(m as u64, num) && #[trigger] is_quot(one, num, share);
    let (h, n, top) = (p(share), m as real, total_of(f, m));
    assert(p(num) == n);
    lemma_quotient(1 as real, n);
    lemma_quotient(top, n);
    let y = top / n;
    assert(h * top == y) by (nonlinear_arith)
        requires
            h * n == 1 as real,
            y * n == top,
    ;
}

/// A matrix at its place on the tape moves as its place in the flat motion says.
proof fn lemma_flat_moves<W: Scalar, S: Scalar>(
    p: spec_fn(W) -> real,
    q: spec_fn(S) -> real,
    nodes: Seq<Node<W>>,
    mo: spec_fn(int) -> real,
    flat: Mem<real>,
    z: Span,
    rows: Seq<Seq<Value>>,
    x: Seq<S>,
    nout: nat,
    nin: nat,
)
    requires
        is_matrix(rows, z.start as int, nout as int, nin as int),
        z.len == nout * nin,
        z.start + z.len <= flat[z.buf as int].len(),
        forall|i: int|
            0 <= i < flat[z.buf as int].len() ==> mo(i) == #[trigger] flat[z.buf as int][i],
        same_matrix(p, q, nodes, rows, x, nout, nin),
    ensures
        follows(p, q, nodes, mo, rows_fn(rows), x, read(flat, z), nout, nin),
{
    let f = rows_fn(rows);
    assert forall|o: int| 0 <= o < nout implies same_row(p, q, nodes, #[trigger] f(o), x, nin, o)
        && same_moves(mo, f(o), read(flat, z), nin, o) by {
        assert(same_row(p, q, nodes, rows[o], x, nin, o));
        assert forall|j: int| 0 <= j < nin implies #[trigger] tape_moves(mo, f(o))(j) == row_moves(
            read(flat, z),
            nin,
            o,
        )(j) by {
            lemma_pair(o, nout as int, j, nin as int);
            let i = z.start + (o * nin + j);
            assert(rows[o][j].idx == z.start + o * nin + j);
            assert(read(flat, z)[o * nin + j] == flat[z.buf as int][i]);
        }
    }
}

/// All matrices move as their places in the flat motion say.
proof fn lemma_flat_weights<W: Scalar, S: Scalar>(
    p: spec_fn(W) -> real,
    q: spec_fn(S) -> real,
    nodes: Seq<Node<W>>,
    mo: spec_fn(int) -> real,
    s: Shape,
    sd: StateDict,
    w: Weights<S>,
    flat: Mem<real>,
)
    requires
        s.ok(),
        flat.len() == 1,
        flat[0].len() == param_count(s.cfg, s.vocab as int),
        sd.stands(0, s.cfg, s.vocab as int),
        same_weights(p, q, nodes, sd, w, s.cfg, s.vocab as nat),
        forall|i: int| 0 <= i < flat[0].len() ==> mo(i) == #[trigger] flat[0][i],
    ensures
        follows_weights(
            p,
            q,
            nodes,
            mo,
            sd,
            w,
            weights_of(s, flat, 0),
            s.cfg,
            s.vocab as nat,
        ),
{
    let (cfg, v) = (s.cfg, s.vocab as int);
    let c = cfg.n_embd as nat;
    let square = c * c;
    let mw = weights_of(s, flat, 0);
    lemma_sizes(cfg, v);
    lemma_layers_fit(cfg, v, 0);
    assert(0 * layer_len(cfg) == 0);
    lemma_flat_moves(p, q, nodes, mo, flat, s.wte(0), rows_of(sd.wte@), w.wte, v as nat, c);
    lemma_flat_moves(
        p,
        q,
        nodes,
        mo,
        flat,
        s.wpe(0),
        rows_of(sd.wpe@),
        w.wpe,
        cfg.block_size as nat,
        c,
    );
    lemma_flat_moves(
        p,
        q,
        nodes,
        mo,
        flat,
        s.lm_head(0),
        rows_of(sd.lm_head@),
        w.lm_head,
        v as nat,
        c,
    );
    assert((4 * c) * c == 4 * square && c * (4 * c) == 4 * square) by (nonlinear_arith)
        requires
            square == c * c,
    ;
    assert forall|li: int| 0 <= li < cfg.n_layer implies follows_layer(
        p,
        q,
        nodes,
        mo,
        #[trigger] sd.layers@[li],
        w.layers[li],
        mw.layers[li],
        c,
    ) by {
        let (own, wm) = (sd.layers@[li], w.layers[li]);
        lemma_layers_fit(cfg, v, li);
        lemma_layers_fit(cfg, v, li + 1);
        assert(own.stands(layer_start(cfg, v, li), c as int));
        assert(same_layer(p, q, nodes, own, wm, c));
        assert(mw.layers[li] == layer_weights(s, flat, 0, li));
        assert(0 * square == 0 && 1 * square == square);
        lemma_flat_moves(p, q, nodes, mo, flat, s.wq(0, li), rows_of(own.attn_wq@), wm.wq, c, c);
        lemma_flat_moves(p, q, nodes, mo, flat, s.wk(0, li), rows_of(own.attn_wk@), wm.wk, c, c);
        lemma_flat_moves(p, q, nodes, mo, flat, s.wv(0, li), rows_of(own.attn_wv@), wm.wv, c, c);
        lemma_flat_moves(p, q, nodes, mo, flat, s.wo(0, li), rows_of(own.attn_wo@), wm.wo, c, c);
        lemma_flat_moves(
            p,
            q,
            nodes,
            mo,
            flat,
            s.fc1(0, li),
            rows_of(own.mlp_fc1@),
            wm.fc1,
            4 * c,
            c,
        );
        lemma_flat_moves(
            p,
            q,
            nodes,
            mo,
            flat,
            s.fc2(0, li),
            rows_of(own.mlp_fc2@),
            wm.fc2,
            c,
            4 * c,
        );
    }
}

/// The terms of the pairing of a flat buffer.
spec fn flat_terms<S>(q: spec_fn(S) -> real, x: Seq<S>, d: Seq<real>) -> spec_fn(int) -> real {
    |k: int| q(x[k]) * d[k]
}

/// Pairing the next span adds its part to the sum.
proof fn lemma_span_pairing<S>(
    q: spec_fn(S) -> real,
    g: Mem<S>,
    z: Span,
    flat: Mem<real>,
    y: Span,
    n: nat,
)
    requires
        z.start == y.start,
        z.len == n,
        y.len == n,
        z.start + n <= g[z.buf as int].len(),
        z.start + n <= flat[y.buf as int].len(),
    ensures
        total_of(
            flat_terms(q, g[z.buf as int], flat[y.buf as int]),
            (z.start + n) as nat,
        ) == total_of(flat_terms(q, g[z.buf as int], flat[y.buf as int]), z.start as nat)
            + pairing(q, read(g, z), read(flat, y), n),
{
    let f = flat_terms(q, g[z.buf as int], flat[y.buf as int]);
    let (a, b) = (read(g, z), read(flat, y));
    let tail = |j: int| nums(q, a)(j) * (|i: int| b[i])(j);
    assert forall|j: int| 0 <= j < n implies #[trigger] tail(j) == f(z.start as nat + j) by {
        assert(a[j] == g[z.buf as int][z.start + j]);
        assert(b[j] == flat[y.buf as int][y.start + j]);
    }
    lemma_total_append(f, tail, z.start as nat, n);
}

/// The pairing of a layer is the sum over its part of the buffers.
proof fn lemma_layer_flat<S>(
    q: spec_fn(S) -> real,
    s: Shape,
    g: Mem<S>,
    buf: int,
    flat: Mem<real>,
    li: int,
)
    requires
        s.ok(),
        0 <= buf <= usize::MAX,
        g[buf].len() == param_count(s.cfg, s.vocab as int),
        flat[0].len() == param_count(s.cfg, s.vocab as int),
        0 <= li < s.cfg.n_layer,
    ensures
        total_of(
            flat_terms(q, g[buf], flat[0]),
            layer_start(s.cfg, s.vocab as int, li + 1) as nat,
        ) == total_of(
            flat_terms(q, g[buf], flat[0]),
            layer_start(s.cfg, s.vocab as int, li) as nat,
        ) + layer_pairing(q, s, layer_weights(s, g, buf, li), layer_weights(s, flat, 0, li)),
{
    let (cfg, v) = (s.cfg, s.vocab as int);
    let c = cfg.n_embd as nat;
    let square = c * c;
    lemma_sizes(cfg, v);
    lemma_layers_fit(cfg, v, 0);
    lemma_layers_fit(cfg, v, li);
    lemma_layers_fit(cfg, v, li + 1);
    assert(0 * layer_len(cfg) == 0);
    assert((4 * c) * c == 4 * square && c * (4 * c) == 4 * square) by (nonlinear_arith)
        requires
            square == c * c,
    ;
    assert(0 * square == 0 && 1 * square == square);
    lemma_span_pairing(q, g, s.wq(buf, li), flat, s.wq(0, li), square);
    lemma_span_pairing(q, g, s.wk(buf, li), flat, s.wk(0, li), square);
    lemma_span_pairing(q, g, s.wv(buf, li), flat, s.wv(0, li), square);
    lemma_span_pairing(q, g, s.wo(buf, li), flat, s.wo(0, li), square);
    lemma_span_pairing(q, g, s.fc1(buf, li), flat, s.fc1(0, li), 4 * square);
    lemma_span_pairing(q, g, s.fc2(buf, li), flat, s.fc2(0, li), 4 * square);
}

/// The pairing of the first `n` layers is the sum over their part of the buffers.
proof fn lemma_layers_flat<S>(
    q: spec_fn(S) -> real,
    s: Shape,
    g: Mem<S>,
    buf: int,
    flat: Mem<real>,
    n: nat,
)
    requires
        s.ok(),
        0 <= buf <= usize::MAX,
        g[buf].len() == param_count(s.cfg, s.vocab as int),
        flat[0].len() == param_count(s.cfg, s.vocab as int),
        n <= s.cfg.n_layer,
    ensures
        total_of(
            flat_terms(q, g[buf], flat[0]),
            layer_start(s.cfg, s.vocab as int, n as int) as nat,
        ) == total_of(
            flat_terms(q, g[buf], flat[0]),
            layer_start(s.cfg, s.vocab as int, 0) as nat,
        ) + total_of(
            |li: int|
                layer_pairing(
                    q,
                    s,
                    weights_of(s, g, buf).layers[li],
                    weights_of(s, flat, 0).layers[li],
                ),
            n,
        ),
    decreases n,
{
    if n > 0 {
        let less = (n - 1) as nat;
        lemma_layers_flat(q, s, g, buf, flat, less);
        lemma_layer_flat(q, s, g, buf, flat, less as int);
        let f = |li: int|
            layer_pairing(
                q,
                s,
                weights_of(s, g, buf).layers[li],
                weights_of(s, flat, 0).layers[li],
            );
        assert(weights_of(s, g, buf).layers[less as int] == layer_weights(s, g, buf, less as int));
        assert(weights_of(s, flat, 0).layers[less as int] == layer_weights(
            s,
            flat,
            0,
            less as int,
        ));
        assert(total_of(f, n) == total_of(f, less) + f(less as int));
    }
}

/// Pairing all matrices is pairing the flat buffers.
pub proof fn lemma_weights_flat<S>(
    q: spec_fn(S) -> real,
    s: Shape,
    g: Mem<S>,
    buf: int,
    flat: Mem<real>,
)
    requires
        s.ok(),
        0 <= buf <= usize::MAX,
        g[buf].len() == param_count(s.cfg, s.vocab as int),
        flat[0].len() == param_count(s.cfg, s.vocab as int),
    ensures
        weights_pairing(q, s, weights_of(s, g, buf), weights_of(s, flat, 0)) == pairing(
            q,
            g[buf],
            flat[0],
            param_count(s.cfg, s.vocab as int) as nat,
        ),
{
    let (cfg, v) = (s.cfg, s.vocab as int);
    let c = cfg.n_embd as nat;
    lemma_sizes(cfg, v);
    lemma_layers_fit(cfg, v, 0);
    assert(0 * layer_len(cfg) == 0);
    lemma_span_pairing(q, g, s.wte(buf), flat, s.wte(0), (v * c) as nat);
    lemma_span_pairing(q, g, s.wpe(buf), flat, s.wpe(0), (cfg.block_size * c) as nat);
    lemma_span_pairing(q, g, s.lm_head(buf), flat, s.lm_head(0), (v * c) as nat);
    lemma_layers_flat(q, s, g, buf, flat, cfg.n_layer as nat);
    let f = flat_terms(q, g[buf], flat[0]);
    let (a, b) = (g[buf], flat[0]);
    lemma_total_same(
        f,
        |i: int| nums(q, a)(i) * (|k: int| b[k])(i),
        param_count(cfg, v) as nat,
    );
}

/// Pairing with a motion of number `i` alone picks gradient `i`.
proof fn lemma_pairing_unit<S>(q: spec_fn(S) -> real, g: Seq<S>, i: int, n: nat)
    requires
        0 <= i < n,
    ensures
        pairing(q, g, unit(i, n), n) == q(g[i]),
{
    let d = unit(i, n);
    let f = |k: int| nums(q, g)(k) * (|j: int| d[j])(k);
    assert forall|k: int| 0 <= k < n && k != i implies #[trigger] f(k) == 0 as real by {
        let x = q(g[k]);
        assert(x * (0 as real) == 0 as real) by (nonlinear_arith);
    }
    lemma_total_pick(f, i, n);
    let x = q(g[i]);
    assert(x * (1 as real) == x) by (nonlinear_arith);
}

/// The motion of one parameter moves the loss on the tape and the mean loss of the network
/// alike.
proof fn lemma_one_gradient<W: Scalar, S: Scalar>(
    p: spec_fn(W) -> real,
    q: spec_fn(S) -> real,
    ex: spec_fn(real) -> real,
    lg: spec_fn(real) -> real,
    nodes: Seq<Node<W>>,
    s: Shape,
    sd: StateDict,
    w: Weights<S>,
    doc: Seq<usize>,
    loss: Value,
    tape_before: Seq<W>,
    tape_after: Seq<W>,
    tokens: Seq<i32>,
    targets: Seq<i32>,
    a: Values<S>,
    probs_before: Seq<S>,
    probs: Seq<S>,
    losses: Seq<S>,
    f: Flow<S>,
    before: Mem<S>,
    after: Mem<S>,
    buf: int,
    i: int,
)
    requires
        exact_curves(p, ex, lg),
        exact_curves(q, ex, lg),
        is_exponential(ex),
        s.ok(),
        is_document_run(s, doc, tokens, targets),
        is_tape_run(p, nodes, s, sd, doc, loss, tape_before, tape_after),
        same_weights(p, q, nodes, sd, w, s.cfg, s.vocab as nat),
        is_network_run(
            s,
            w,
            tokens,
            targets,
            a,
            probs_before,
            probs,
            losses,
            f,
            before,
            after,
            buf,
        ),
        0 <= i < param_count(s.cfg, s.vocab as int),
    ensures
        p(tape_after[i]) == q(after[buf][i]) - q(before[buf][i]),
{
    let (m, v) = (s.rows as nat, s.vocab as nat);
    let count = param_count(s.cfg, v as int) as nat;
    assert forall|t: int| 0 <= t < m implies #[trigger] targets[t] >= 0 by {
        assert(targets[t] == doc[t + 1]);
    }
    lemma_all_valid(targets, m);
    let at = loss.idx as int;
    s.lemma_numbers();
    let mo = |k: int| driven(p, nodes, only(i), k);
    lemma_driven(p, nodes, only(i));
    let (steps, total, share) = choose|steps: Seq<StepTrace>, total: Value, share: W| #[trigger]
        is_document_loss_by(nodes, s.cfg, sd, doc, m, loss, steps, total, share);
    let toks = toks_of(steps);
    assert(is_mul_const(nodes, total, share, loss));
    assert(at >= count);
    // on the tape
    assert(is_motion(p, nodes, at, mo));
    law_backward_is_the_derivative(p, nodes, at, tape_before, tape_after, mo);
    let parts = input_part(p, nodes, tape_after, mo);
    assert forall|k: int| 0 <= k < at + 1 && k != i implies #[trigger] parts(k) == 0 as real by {
        if is_input(nodes[k]) {
            assert(mo(k) == 0 as real);
            let g = p(tape_after[k]);
            assert(g * (0 as real) == 0 as real) by (nonlinear_arith);
        }
    }
    lemma_total_pick(parts, i, (at + 1) as nat);
    assert(is_input(nodes[i]) && mo(i) == 1 as real);
    let g = p(tape_after[i]);
    assert(g * (1 as real) == g) by (nonlinear_arith);
    assert(mo(at) == g);
    // in the network
    let flat = seq![unit(i, count)];
    let mw = weights_of(s, flat, 0);
    assert forall|k: int| 0 <= k < flat[0].len() implies mo(k) == #[trigger] flat[0][k] by {
        assert(is_input(nodes[k]));
    }
    lemma_flat_weights(p, q, nodes, mo, s, sd, w, flat);
    assert forall|t: int| 0 <= t < s.rows implies #[trigger] tokens[t] == doc[t] && doc[t]
        < s.vocab by {
        assert(doc[t] < s.vocab);
    }
    assert(is_network_twin(p, q, nodes, s, sd, tokens, toks, a)) by {
        assert forall|t: int| 0 <= t < s.rows implies same_token(
            p,
            q,
            nodes,
            s,
            #[trigger] toks[t],
            a,
            t,
        ) && is_token_trace(
            nodes,
            s.cfg,
            sd,
            tokens[t] as int,
            t,
            past_keys(s.cfg, toks, t),
            past_values(s.cfg, toks, t),
            toks[t],
        ) by {
            lemma_twin_tokens(p, q, ex, lg, nodes, s, sd, w, doc, tokens, steps, a, t);
            reveal(is_step_trace);
            assert(is_step_trace(
                nodes,
                s.cfg,
                sd,
                doc,
                t,
                past_keys(s.cfg, toks, t),
                past_values(s.cfg, toks, t),
                steps[t],
            ));
            assert(tokens[t] == doc[t]);
        }
    }
    let scale = lemma_some_scale(q, s, w, tokens, a);
    lemma_network_moves(p, q, ex, lg, nodes, mo, s, scale, sd, w, mw, tokens, toks, a);
    assert forall|t: int| 0 <= t < s.rows implies same_row(
        p,
        q,
        nodes,
        (#[trigger] steps[t]).token.logits,
        a.logits,
        v,
        t,
    ) by {
        assert(same_token(p, q, nodes, s, toks[t], a, t));
    }
    lemma_document_moves(
        p,
        q,
        ex,
        lg,
        nodes,
        mo,
        s,
        sd,
        doc,
        loss,
        targets,
        steps,
        total,
        share,
        a,
        probs_before,
        probs,
        losses,
    );
    lemma_weights_sized(s, before, buf);
    assert forall|t: int| 0 <= t < s.rows implies #[trigger] targets[t] < s.vocab by {
        assert(targets[t] == doc[t + 1]);
    }
    law_backward_is_the_derivative_of_the_loss(
        q,
        s,
        scale,
        w,
        mw,
        tokens,
        targets,
        m,
        a,
        network_gathered(nodes, mo, s, toks),
        losses,
        probs_before,
        probs,
        Seq::new(m, |t: int| mo(steps[t].loss.idx as int)),
        mo(at),
        f,
        weights_of(s, before, buf),
        weights_of(s, after, buf),
    );
    lemma_weights_flat(q, s, before, buf, flat);
    lemma_weights_flat(q, s, after, buf, flat);
    lemma_pairing_unit(q, before[buf], i, count);
    lemma_pairing_unit(q, after[buf], i, count);
}

/// A document as a batch of one: each token is followed by its target.
pub open spec fn is_document_run(
    s: Shape,
    doc: Seq<usize>,
    tokens: Seq<i32>,
    targets: Seq<i32>,
) -> bool {
    &&& s.rows == s.t_len
    &&& s.rows < doc.len()
    &&& forall|i: int| 0 <= i <= s.rows ==> #[trigger] doc[i] < s.vocab
    &&& tokens.len() == s.rows
    &&& targets.len() == s.rows
    &&& forall|i: int| 0 <= i < s.rows ==> #[trigger] tokens[i] == doc[i]
    &&& forall|i: int| 0 <= i < s.rows ==> #[trigger] targets[i] == doc[i + 1]
}

/// A tape that starts with the parameters, computes the loss of a document and pulls the
/// gradients back, from zero.
pub open spec fn is_tape_run<W: Scalar>(
    p: spec_fn(W) -> real,
    nodes: Seq<Node<W>>,
    s: Shape,
    sd: StateDict,
    doc: Seq<usize>,
    loss: Value,
    before: Seq<W>,
    after: Seq<W>,
) -> bool {
    &&& topological(nodes)
    &&& sd.stands(0, s.cfg, s.vocab as int)
    &&& forall|k: int|
        0 <= k < param_count(s.cfg, s.vocab as int) ==> is_input(#[trigger] nodes[k])
    &&& is_document_loss(nodes, s.cfg, sd, doc, s.rows as nat, loss)
    &&& forall|k: int| 0 <= k < loss.idx ==> p(#[trigger] before[k]) == 0 as real
    &&& is_tape_backward(nodes, loss.idx as int, before, after)
}

/// A forward pass, a loss and a backward pass of the network. The gradients are in buffer
/// `buf`, before and after.
pub open spec fn is_network_run<S: Scalar>(
    s: Shape,
    w: Weights<S>,
    tokens: Seq<i32>,
    targets: Seq<i32>,
    a: Values<S>,
    probs_before: Seq<S>,
    probs: Seq<S>,
    losses: Seq<S>,
    f: Flow<S>,
    before: Mem<S>,
    after: Mem<S>,
    buf: int,
) -> bool {
    &&& is_forward(s, w, tokens, a)
    &&& losses.len() == s.rows
    &&& probs_before.len() == s.rv()
    &&& probs.len() == s.rv()
    &&& is_ce(losses, probs_before, probs, a.logits, targets, s.vocab as nat)
    &&& 0 <= buf <= usize::MAX
    &&& before[buf].len() == param_count(s.cfg, s.vocab as int)
    &&& after[buf].len() == param_count(s.cfg, s.vocab as int)
    &&& is_backward(
        s,
        w,
        tokens,
        targets,
        count_valid(targets, targets.len()),
        a,
        probs,
        f,
        weights_of(s, before, buf),
        weights_of(s, after, buf),
    )
}

/// The gradients agree: in exact arithmetic, with the same parameters, the gradient that the
/// tape finds for a parameter is what the backward pass of the network adds to the gradient
/// of the same parameter, for every parameter of the model. The derivation by hand and
/// automatic differentiation give the same numbers.
pub proof fn law_tape_and_network_gradients_agree<W: Scalar, S: Scalar>(
    p: spec_fn(W) -> real,
    q: spec_fn(S) -> real,
    ex: spec_fn(real) -> real,
    lg: spec_fn(real) -> real,
    nodes: Seq<Node<W>>,
    s: Shape,
    sd: StateDict,
    w: Weights<S>,
    doc: Seq<usize>,
    loss: Value,
    tape_before: Seq<W>,
    tape_after: Seq<W>,
    tokens: Seq<i32>,
    targets: Seq<i32>,
    a: Values<S>,
    probs_before: Seq<S>,
    probs: Seq<S>,
    losses: Seq<S>,
    f: Flow<S>,
    before: Mem<S>,
    after: Mem<S>,
    buf: int,
)
    requires
        exact_curves(p, ex, lg),
        exact_curves(q, ex, lg),
        is_exponential(ex),
        s.ok(),
        is_document_run(s, doc, tokens, targets),
        is_tape_run(p, nodes, s, sd, doc, loss, tape_before, tape_after),
        same_weights(p, q, nodes, sd, w, s.cfg, s.vocab as nat),
        is_network_run(
            s,
            w,
            tokens,
            targets,
            a,
            probs_before,
            probs,
            losses,
            f,
            before,
            after,
            buf,
        ),
    ensures
        forall|i: int|
            0 <= i < param_count(s.cfg, s.vocab as int) ==> p(#[trigger] tape_after[i]) == q(
                after[buf][i],
            ) - q(before[buf][i]),
{
    assert forall|i: int| 0 <= i < param_count(s.cfg, s.vocab as int) implies p(
        #[trigger] tape_after[i],
    ) == q(after[buf][i]) - q(before[buf][i]) by {
        lemma_one_gradient(
            p,
            q,
            ex,
            lg,
            nodes,
            s,
            sd,
            w,
            doc,
            loss,
            tape_before,
            tape_after,
            tokens,
            targets,
            a,
            probs_before,
            probs,
            losses,
            f,
            before,
            after,
            buf,
            i,
        );
    }
}

} // verus!
