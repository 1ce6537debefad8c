//! The tape and the batched network sample the same documents.
use vstd::prelude::*;

use crate::bank::Mem;
use crate::choice::law_choices_ignore_the_scale;
use crate::exact::{lemma_cancel, lemma_quotient, total_of};
use crate::graph::{datas_of, is_softmax_nodes, is_softmax_nodes_by};
use crate::index::lemma_row_inside;
use crate::layout::{param_count, Cfg, Ratio};
use crate::motion::row_nums;
use crate::motion_loss::lemma_total_positive;
use crate::network::{is_forward, weights_of, Values, Weights};
use crate::rng::{advance, is_choice, unit_bits};
use crate::rows::row_of;
use crate::sample::{is_complete, is_drawn, is_next, is_weight, is_weights, is_weights_by};
use crate::sample_repeat::lemma_context_runs;
use crate::scalar::{is_cast, is_diff, is_exp, is_quot, is_ratio, Cast, Scalar};
use crate::shape::{sizes_fit, Shape, PARAMS};
use crate::tape::{data_of, is_div_const, Node, Value};
use crate::tape_gpt::StateDict;
use crate::tape_sample::{
    are_draws, are_scaled, drawn_before, drawn_tokens, ends_document, is_draw_trace, is_tape_sample,
    DrawTrace,
};
use crate::tape_token::{past_keys, past_values};
use crate::twin_network::{
    law_flat_parameters_are_the_same_matrices, lemma_twin_token, same_token, same_weights,
};
use crate::twin_parts::{
    exact_curves, is_exponential, is_share_of, lemma_softmax_nodes_shares, same_row, tape_nums,
};

verus! {

/// Whether conversions keep the number.
pub open spec fn casts_exactly<S: Cast<W>, W: Scalar>(
    p: spec_fn(W) -> real,
    q: spec_fn(S) -> real,
) -> bool {
    forall|a: S, r: W| #[trigger] is_cast(a, r) ==> p(r) == q(a)
}

/// The tokens of a sample up to draw `t` agree with those of the batched network.
proof fn lemma_twin_drawn<W: Scalar, S: Scalar>(
    p: spec_fn(W) -> real,
    q: spec_fn(S) -> real,
    ex: spec_fn(real) -> real,
    lg: spec_fn(real) -> real,
    nodes: Seq<Node<W>>,
    s: Shape,
    sd: StateDict,
    w: Weights<S>,
    bos: int,
    temperature: Ratio,
    seed: u64,
    draws: Seq<usize>,
    ts: Seq<DrawTrace>,
    tokens: Seq<i32>,
    a: Values<S>,
    t: int,
)
    requires
        exact_curves(p, ex, lg),
        exact_curves(q, ex, lg),
        is_exponential(ex),
        s.ok(),
        s.rows == s.t_len,
        0 <= t < s.rows <= ts.len(),
        forall|i: int|
            0 <= i < s.rows ==> #[trigger] tokens[i] == drawn_before(bos, draws, i) && 0
                <= tokens[i] < s.vocab,
        same_weights(p, q, nodes, sd, w, s.cfg, s.vocab as nat),
        is_forward(s, w, tokens, a),
        are_draws(nodes, s.cfg, sd, bos, temperature, seed, draws, ts),
    ensures
        same_token(p, q, nodes, s, ts[t].token, a, t),
    decreases t,
{
    let toks = drawn_tokens(ts);
    assert forall|u: int| 0 <= u < t implies same_token(
        p,
        q,
        nodes,
        s,
        #[trigger] toks[u],
        a,
        u,
    ) by {
        lemma_twin_drawn(
            p,
            q,
            ex,
            lg,
            nodes,
            s,
            sd,
            w,
            bos,
            temperature,
            seed,
            draws,
            ts,
            tokens,
            a,
            u,
        );
    }
    assert(is_draw_trace(
        nodes,
        s.cfg,
        sd,
        drawn_before(bos, draws, t),
        t,
        past_keys(s.cfg, toks, t),
        past_values(s.cfg, toks, t),
        temperature,
        advance(seed, t as nat),
        draws[t] as int,
        ts[t],
    ));
    reveal(is_draw_trace);
    assert(tokens[t] == drawn_before(bos, draws, t));
    lemma_twin_token(p, q, ex, lg, nodes, s, sd, w, tokens, toks, ts[t].token, a, t);
}

/// Dividing a difference.
proof fn lemma_split(a: real, b: real, t: real)
    requires
        t != 0 as real,
    ensures
        (a - b) / t == a / t + (-b) / t,
{
    lemma_quotient(a, t);
    lemma_quotient(-b, t);
    lemma_quotient(a - b, t);
    let (x, y, z) = (a / t, (-b) / t, (a - b) / t);
    assert((x + y) * t == x * t + y * t) by (nonlinear_arith);
    lemma_cancel(z, x + y, t);
}

/// A weight of the batched network is the tape's probability, up to a factor that all weights
/// have in common.
proof fn lemma_weight_scaled(e: real, y: real, g: real, tot: real, z: real)
    requires
        y * tot == e,
        z == e * g,
    ensures
        z == (tot * g) * y,
{
    assert((tot * g) * y == (y * tot) * g) by (nonlinear_arith);
}

/// The same logits draw the same token: on the tape from the softmax of the logits over the
/// temperature, in the batched network from exponentials that do not add up to one.
pub proof fn law_same_logits_draw_the_same_token<W: Scalar, S: Cast<W>>(
    p: spec_fn(W) -> real,
    q: spec_fn(S) -> real,
    ex: spec_fn(real) -> real,
    lg: spec_fn(real) -> real,
    nodes: Seq<Node<W>>,
    xs: Seq<Value>,
    scaled: Seq<Value>,
    probs: Seq<Value>,
    logits: Seq<S>,
    temperature: Ratio,
    state: u64,
    k: int,
    j: int,
)
    requires
        exact_curves(p, ex, lg),
        exact_curves(q, ex, lg),
        is_exponential(ex),
        casts_exactly::<S, W>(p, q),
        temperature.num > 0,
        temperature.den > 0,
        xs.len() == logits.len(),
        xs.len() > 0,
        forall|i: int|
            0 <= i < xs.len() ==> p(data_of(nodes, #[trigger] xs[i])) == q(logits[i]),
        are_scaled(nodes, xs, temperature, scaled),
        is_softmax_nodes(nodes, scaled, probs),
        is_choice(datas_of(nodes, probs), unit_bits(state, 0), k),
        is_drawn::<S, W>(logits, temperature, state, j),
    ensures
        k == j,
{
    let n = xs.len();
    let c = choose|c: W| #[trigger]
        is_ratio(temperature.num, temperature.den, c) && (forall|i: int|
            0 <= i < xs.len() ==> is_div_const(nodes, xs[i], c, #[trigger] scaled[i]));
    let weights = choose|weights: Seq<W>| #[trigger]
        is_weights(logits, temperature, weights) && is_choice(weights, unit_bits(state, 0), j);
    let (top, shift, d) = choose|top: S, shift: W, t: W| #[trigger]
        is_weights_by(logits, temperature, weights, top, shift, t);
    let (num, den) = (temperature.num as real, temperature.den as real);
    let t = num / den;
    lemma_quotient(num, den);
    assert(t != 0 as real) by {
        if t == 0 as real {
            assert((0 as real) * den == 0 as real) by (nonlinear_arith);
        }
    }
    assert(p(c) == t && p(d) == t);
    let l = |i: int| p(data_of(nodes, xs[i]));
    let z = tape_nums(p, nodes, scaled);
    assert forall|i: int| 0 <= i < n implies #[trigger] z(i) == l(i) / t by {
        assert(is_div_const(nodes, xs[i], c, scaled[i]));
    }
    let own = |i: int| ex(z(i));
    let tot = total_of(own, n);
    assert forall|i: int| 0 <= i < n implies #[trigger] own(i) > 0 as real by {}
    lemma_total_positive(own, n);
    let sh = p(shift);
    let g = ex((-sh) / t);
    let factor = tot * g;
    assert(factor > 0 as real) by (nonlinear_arith)
        requires
            tot > 0 as real,
            g > 0 as real,
            factor == tot * g,
    ;
    let datas = datas_of(nodes, probs);
    assert(probs.len() == n) by {
        let (a, b, e) = choose|shift: W, es: Seq<Value>, sum: Value| #[trigger]
            is_softmax_nodes_by(nodes, scaled, probs, shift, es, sum);
    }
    assert forall|i: int| 0 <= i < n implies p(#[trigger] weights[i]) == factor * p(datas[i]) by {
        lemma_softmax_nodes_shares(p, ex, lg, nodes, scaled, probs, i);
        let y = p(datas[i]);
        assert(is_share_of(ex, z, n, i, y));
        assert(is_weight(logits[i], shift, d, weights[i]));
        let (wide, diff, part) = choose|wide: W, diff: W, part: W|
            #![trigger is_diff(wide, shift, diff), is_quot(diff, d, part)]
            is_cast(logits[i], wide) && is_diff(wide, shift, diff) && is_quot(diff, d, part)
                && is_exp(part, weights[i]);
        assert(p(data_of(nodes, xs[i])) == q(logits[i]));
        assert(p(wide) == l(i));
        assert(p(part) == (l(i) - sh) / t);
        lemma_split(l(i), sh, t);
        assert(z(i) == l(i) / t);
        assert(ex(z(i) + (-sh) / t) == ex(z(i)) * ex((-sh) / t));
        lemma_weight_scaled(ex(z(i)), y, g, tot, p(weights[i]));
    }
    law_choices_ignore_the_scale(p, datas, weights, factor, unit_bits(state, 0), k, j);
}

/// One draw of the tape is the next token of the batched network.
proof fn lemma_twin_draw<W: Scalar, S: Cast<W>>(
    p: spec_fn(W) -> real,
    q: spec_fn(S) -> real,
    ex: spec_fn(real) -> real,
    lg: spec_fn(real) -> real,
    nodes: Seq<Node<W>>,
    cfg: Cfg,
    sd: StateDict,
    w: Weights<S>,
    bos: usize,
    temperature: Ratio,
    seed: u64,
    draws: Seq<usize>,
    ts: Seq<DrawTrace>,
    ctx: Seq<i32>,
    j: int,
)
    requires
        exact_curves(p, ex, lg),
        exact_curves(q, ex, lg),
        is_exponential(ex),
        casts_exactly::<S, W>(p, q),
        temperature.num > 0,
        temperature.den > 0,
        bos < i32::MAX,
        cfg.runnable(),
        cfg.batch > 0,
        sizes_fit(cfg, bos + 1),
        1 <= ctx.len() <= cfg.block_size,
        ctx.len() <= ts.len(),
        forall|i: int|
            0 <= i < ctx.len() ==> #[trigger] ctx[i] == drawn_before(bos as int, draws, i) && 0
                <= ctx[i] <= bos,
        same_weights(p, q, nodes, sd, w, cfg, (bos + 1) as nat),
        are_draws(nodes, cfg, sd, bos as int, temperature, seed, draws, ts),
        is_next::<S, W>(
            cfg,
            (bos + 1) as usize,
            w,
            ctx,
            temperature,
            advance(seed, (ctx.len() - 1) as nat),
            j,
        ),
    ensures
        draws[ctx.len() - 1] == j,
{
    let vocab = (bos + 1) as usize;
    let s = Shape { cfg, vocab, rows: ctx.len() as usize, t_len: ctx.len() as usize };
    let t = ctx.len() - 1;
    lemma_context_runs(cfg, vocab, ctx.len() as usize);
    let state = advance(seed, t as nat);
    let a = choose|a: Values<S>| #[trigger]
        is_forward(s, w, ctx, a) && is_drawn::<S, W>(
            row_of(a.logits, vocab as nat, t),
            temperature,
            state,
            j,
        );
    lemma_twin_drawn(
        p,
        q,
        ex,
        lg,
        nodes,
        s,
        sd,
        w,
        bos as int,
        temperature,
        seed,
        draws,
        ts,
        ctx,
        a,
        t,
    );
    let own = ts[t];
    let toks = drawn_tokens(ts);
    assert(is_draw_trace(
        nodes,
        cfg,
        sd,
        drawn_before(bos as int, draws, t),
        t,
        past_keys(cfg, toks, t),
        past_values(cfg, toks, t),
        temperature,
        state,
        draws[t] as int,
        own,
    ));
    reveal(is_draw_trace);
    let xs = own.token.logits;
    let row = row_of(a.logits, vocab as nat, t);
    assert(same_row(p, q, nodes, xs, a.logits, vocab as nat, t));
    s.lemma_numbers();
    lemma_row_inside(t, s.rows as int, vocab as int);
    assert forall|i: int| 0 <= i < xs.len() implies p(data_of(nodes, #[trigger] xs[i])) == q(
        row[i],
    ) by {
        assert(tape_nums(p, nodes, xs)(i) == row_nums(q, a.logits, vocab as nat, t)(i));
        assert(row[i] == a.logits[t * vocab + i]);
    }
    law_same_logits_draw_the_same_token(
        p,
        q,
        ex,
        lg,
        nodes,
        xs,
        own.scaled,
        own.probs,
        row,
        temperature,
        state,
        draws[t] as int,
        j,
    );
}

/// The tape and the batched network sample alike: in exact arithmetic, with the same
/// parameters and the same seed, the document sampled on the tape is the document sampled from
/// the model.
pub proof fn law_tape_and_network_sample_alike<W: Scalar, S: Cast<W>>(
    p: spec_fn(W) -> real,
    q: spec_fn(S) -> real,
    ex: spec_fn(real) -> real,
    lg: spec_fn(real) -> real,
    before: Seq<Node<W>>,
    s: Shape,
    sd: StateDict,
    m: Mem<S>,
    bos: usize,
    temperature: Ratio,
    seed: u64,
    sample: Seq<usize>,
    nodes: Seq<Node<W>>,
    draws: Seq<usize>,
    ts: Seq<DrawTrace>,
    ctx: Seq<i32>,
)
    requires
        exact_curves(p, ex, lg),
        exact_curves(q, ex, lg),
        is_exponential(ex),
        casts_exactly::<S, W>(p, q),
        temperature.num > 0,
        temperature.den > 0,
        bos < i32::MAX,
        s.ok(),
        s.vocab == bos + 1,
        s.cfg.batch > 0,
        m[PARAMS as int].len() == param_count(s.cfg, s.vocab as int) == before.len(),
        sd.stands(0, s.cfg, s.vocab as int),
        forall|i: int|
            0 <= i < before.len() ==> p(before[i].data) == q(#[trigger] m[PARAMS as int][i]),
        is_tape_sample(
            s.cfg,
            sd,
            bos as int,
            temperature,
            before,
            seed,
            sample,
            nodes,
            draws,
            ts,
        ),
        is_complete::<S, W>(
            s.cfg,
            bos,
            weights_of(s, m, PARAMS as int),
            temperature,
            seed,
            ctx,
        ),
    ensures
        ctx.len() == sample.len() + 1,
        forall|i: int| 0 <= i < sample.len() ==> #[trigger] sample[i] == ctx[i + 1],
{
    let w = weights_of(s, m, PARAMS as int);
    assert forall|i: int| 0 <= i < m[PARAMS as int].len() implies p(nodes[i].data) == q(
        #[trigger] m[PARAMS as int][i],
    ) by {
        assert(nodes[i] == before[i]);
    }
    law_flat_parameters_are_the_same_matrices(p, q, nodes, s, sd, m, PARAMS as int);
    let n = if draws.len() < ctx.len() {
        draws.len() as int
    } else {
        ctx.len() - 1
    };
    lemma_documents_agree(
        p,
        q,
        ex,
        lg,
        nodes,
        s.cfg,
        sd,
        w,
        bos,
        temperature,
        seed,
        draws,
        ts,
        ctx,
        n,
    );
    let b = s.cfg.block_size as int;
    assert(ends_document(bos as int, b, draws, sample));
    assert forall|i: int| 0 <= i < sample.len() implies draws[i] == sample[i] by {}
    if ctx.len() - 1 < draws.len() {
        let t = ctx.len() - 1;
        if ctx.len() <= b {
            assert forall|i: int| 0 <= i < ctx.len() implies #[trigger] ctx[i] == drawn_before(
                bos as int,
                draws,
                i,
            ) && 0 <= ctx[i] <= bos by {}
            lemma_twin_draw(
                p,
                q,
                ex,
                lg,
                nodes,
                s.cfg,
                sd,
                w,
                bos,
                temperature,
                seed,
                draws,
                ts,
                ctx,
                bos as int,
            );
            assert(draws[t] == bos);
            assert(t >= sample.len()) by {
                if t < sample.len() {
                    assert(sample[t] < bos);
                }
            }
        }
    } else {
        if sample.len() < draws.len() {
            let t = sample.len() as int;
            assert(draws[t] == bos);
            assert(ctx[t + 1] == draws[t]);
            assert(false);
        }
    }
}

/// The draws are the tokens of the other document, as far as both go.
proof fn lemma_documents_agree<W: Scalar, S: Cast<W>>(
    p: spec_fn(W) -> real,
    q: spec_fn(S) -> real,
    ex: spec_fn(real) -> real,
    lg: spec_fn(real) -> real,
    nodes: Seq<Node<W>>,
    cfg: Cfg,
    sd: StateDict,
    w: Weights<S>,
    bos: usize,
    temperature: Ratio,
    seed: u64,
    draws: Seq<usize>,
    ts: Seq<DrawTrace>,
    ctx: Seq<i32>,
    n: int,
)
    requires
        exact_curves(p, ex, lg),
        exact_curves(q, ex, lg),
        is_exponential(ex),
        casts_exactly::<S, W>(p, q),
        temperature.num > 0,
        temperature.den > 0,
        bos < i32::MAX,
        cfg.runnable(),
        cfg.batch > 0,
        sizes_fit(cfg, bos + 1),
        same_weights(p, q, nodes, sd, w, cfg, (bos + 1) as nat),
        are_draws(nodes, cfg, sd, bos as int, temperature, seed, draws, ts),
        is_complete::<S, W>(cfg, bos, w, temperature, seed, ctx),
        0 <= n <= draws.len(),
        n < ctx.len(),
    ensures
        forall|i: int| 0 <= i < n ==> #[trigger] draws[i] == ctx[i + 1],
    decreases n,
{
    if n > 0 {
        lemma_documents_agree(
            p,
            q,
            ex,
            lg,
            nodes,
            cfg,
            sd,
            w,
            bos,
            temperature,
            seed,
            draws,
            ts,
            ctx,
            n - 1,
        );
        let short = ctx.take(n);
        assert forall|i: int| 0 <= i < short.len() implies #[trigger] short[i] == drawn_before(
            bos as int,
            draws,
            i,
        ) && 0 <= short[i] <= bos by {
            if i > 0 {
                assert(draws[i - 1] == ctx[i - 1 + 1]);
            }
        }
        assert(is_next::<S, W>(
            cfg,
            (bos + 1) as usize,
            w,
            ctx.take(n),
            temperature,
            advance(seed, (n - 1) as nat),
            ctx[n] as int,
        ));
        lemma_twin_draw(
            p,
            q,
            ex,
            lg,
            nodes,
            cfg,
            sd,
            w,
            bos,
            temperature,
            seed,
            draws,
            ts,
            short,
            ctx[n] as int,
        );
    }
}

} // verus!
