//! Where operations have one outcome, sampling has: the same parameters and the same seed give
//! the same document.
use vstd::prelude::*;

use crate::agree::{lemma_max_agrees, lemma_total_agrees};
use crate::causality::law_forward_is_deterministic;
use crate::costs::lemma_draws_len;
use crate::graph::{datas_of, rows_of};
use crate::layout::{Cfg, Ratio};
use crate::network::{is_forward, Values, Weights};
use crate::order::{draws_ops, follows, probs_at};
use crate::reduce::is_total;
use crate::rng::{
    advance, counts, is_choice, is_countdown, is_pick, is_pick_by, is_unit, passes, stops_at,
    tests_proportions, tests_weight, unit_bits,
};
use crate::rows::row_of;
use crate::sample::{
    is_complete, is_drawn, is_next, is_sampled, is_weight, is_weights, is_weights_by,
};
use crate::scalar::{
    deterministic, is_cast, is_diff, is_exp, is_neg, is_prod, is_quot, tests_nonpositive,
    tests_positive, Cast, Scalar,
};
use crate::shape::{sizes_fit, Shape};
use crate::tape::{data_of, Node};
use crate::tape_gpt::StateDict;
use crate::tape_repeat::lemma_same_ops;
use crate::tape_sample::{
    are_choices, draws_cost, ends_document, is_choice_at, is_tape_sample, lemma_draws_cost_grows,
    lemma_draws_order, DrawTrace,
};
use crate::tape_token::lemma_token_costs;
use crate::twins::lemma_unit_repeats;

verus! {

/// A countdown has one course.
proof fn lemma_countdown_repeats<S: Scalar>(weights: Seq<S>, rest: Seq<S>, other: Seq<S>, n: int)
    requires
        deterministic::<S>(),
        is_countdown(weights, rest),
        is_countdown(weights, other),
        rest[0] == other[0],
        0 <= n < rest.len(),
        n < other.len(),
    ensures
        forall|i: int| 0 <= i <= n ==> #[trigger] rest[i] == other[i],
    decreases n,
{
    if n > 0 {
        lemma_countdown_repeats(weights, rest, other, n - 1);
        assert(rest[n - 1] == other[n - 1]);
        assert(is_diff(rest[n - 1], weights[n - 1], rest[n - 1 + 1]));
        assert(is_diff(other[n - 1], weights[n - 1], other[n - 1 + 1]));
    }
}

/// The test for proportions has one outcome.
proof fn lemma_proportions_repeat<S: Scalar>(weights: Seq<S>, a: bool, b: bool)
    requires
        deterministic::<S>(),
        tests_proportions(weights, a),
        tests_proportions(weights, b),
    ensures
        a == b,
{
    if a != b {
        assert(tests_proportions(weights, true) && tests_proportions(weights, false));
        let n = weights.len();
        if exists|i: int| 0 <= i < n && tests_weight(#[trigger] weights[i], false) {
            let i = choose|i: int| 0 <= i < n && tests_weight(#[trigger] weights[i], false);
            assert(tests_weight(weights[i], true));
            let m1 = choose|minus: S|
                is_neg(weights[i], minus) && #[trigger] tests_nonpositive(minus, true);
            let m2 = choose|minus: S|
                is_neg(weights[i], minus) && #[trigger] tests_nonpositive(minus, false);
            assert(m1 == m2);
        } else {
            let i = choose|i: int| 0 <= i < n && tests_positive(#[trigger] weights[i], true);
            assert(tests_positive(weights[i], false));
        }
    }
}

/// A pick has one outcome.
proof fn lemma_pick_repeats<S: Scalar>(weights: Seq<S>, level: S, k: int, j: int)
    requires
        deterministic::<S>(),
        is_pick(weights, level, k),
        is_pick(weights, level, j),
    ensures
        k == j,
{
    let (a, r) = choose|proportions: bool, rest: Seq<S>| #[trigger]
        is_pick_by(weights, level, k, proportions, rest);
    let (b, s) = choose|proportions: bool, rest: Seq<S>| #[trigger]
        is_pick_by(weights, level, j, proportions, rest);
    lemma_proportions_repeat(weights, a, b);
    let n = if r.len() < s.len() {
        r.len() - 1
    } else {
        s.len() - 1
    };
    lemma_countdown_repeats(weights, r, s, n);
    if stops_at(a, weights, k, r) {
        if stops_at(a, weights, j, s) {
            if k < j {
                assert(passes(a, weights[k], s[k + 1]));
                assert(r[k + 1] == s[k + 1]);
            } else if j < k {
                assert(passes(a, weights[j], r[j + 1]));
                assert(r[j + 1] == s[j + 1]);
            }
        } else {
            assert(passes(a, weights[k], s[k + 1]));
            assert(r[k + 1] == s[k + 1]);
        }
    } else if stops_at(a, weights, j, s) {
        assert(passes(a, weights[j], r[j + 1]));
        assert(r[j + 1] == s[j + 1]);
    } else {
        if k < j {
            assert(counts(a, weights[j], false));
        } else if j < k {
            assert(counts(a, weights[k], false));
        }
    }
}

/// A choice has one outcome, where the operations have: the same weights and the same random
/// number give the same index.
pub proof fn law_choices_are_deterministic<S: Scalar>(weights: Seq<S>, bits: u64, k: int, j: int)
    requires
        deterministic::<S>(),
        is_choice(weights, bits, k),
        is_choice(weights, bits, j),
    ensures
        k == j,
{
    let (s1, u1, l1) = choose|sum: S, u: S, level: S|
        is_total(weights, sum) && is_unit(bits, u) && #[trigger] is_prod(u, sum, level) && is_pick(
            weights,
            level,
            k,
        );
    let (s2, u2, l2) = choose|sum: S, u: S, level: S|
        is_total(weights, sum) && is_unit(bits, u) && #[trigger] is_prod(u, sum, level) && is_pick(
            weights,
            level,
            j,
        );
    lemma_total_agrees(weights, s1, s2);
    lemma_unit_repeats(bits, u1, u2);
    assert(l1 == l2);
    lemma_pick_repeats(weights, l1, k, j);
}

/// Whether a conversion has one outcome.
pub open spec fn casts_once<S: Cast<W>, W: Scalar>() -> bool {
    forall|a: S, r: W, q: W| #[trigger] is_cast(a, r) && #[trigger] is_cast(a, q) ==> r == q
}

/// The weights of logits have one outcome.
proof fn lemma_weights_repeat<S: Cast<W>, W: Scalar>(
    logits: Seq<S>,
    temperature: Ratio,
    w: Seq<W>,
    v: Seq<W>,
)
    requires
        deterministic::<S>(),
        deterministic::<W>(),
        casts_once::<S, W>(),
        is_weights(logits, temperature, w),
        is_weights(logits, temperature, v),
    ensures
        w == v,
{
    let (a1, s1, t1) = choose|top: S, shift: W, t: W| #[trigger]
        is_weights_by(logits, temperature, w, top, shift, t);
    let (a2, s2, t2) = choose|top: S, shift: W, t: W| #[trigger]
        is_weights_by(logits, temperature, v, top, shift, t);
    lemma_max_agrees(logits, a1, a2);
    assert(s1 == s2 && t1 == t2);
    assert forall|i: int| 0 <= i < w.len() implies w[i] == v[i] by {
        assert(is_weight(logits[i], s1, t1, w[i]) && is_weight(logits[i], s1, t1, v[i]));
        let (x1, d1, q1) = choose|wide: W, diff: W, scaled: W|
            #![trigger is_diff(wide, s1, diff), is_quot(diff, t1, scaled)]
            is_cast(logits[i], wide) && is_diff(wide, s1, diff) && is_quot(diff, t1, scaled)
                && is_exp(scaled, w[i]);
        let (x2, d2, q2) = choose|wide: W, diff: W, scaled: W|
            #![trigger is_diff(wide, s1, diff), is_quot(diff, t1, scaled)]
            is_cast(logits[i], wide) && is_diff(wide, s1, diff) && is_quot(diff, t1, scaled)
                && is_exp(scaled, v[i]);
        assert(x1 == x2);
        assert(d1 == d2);
        assert(q1 == q2);
    }
    assert(w =~= v);
}

/// The next token has one outcome, where the operations have.
pub proof fn law_next_token_is_deterministic<S: Cast<W>, W: Scalar>(
    cfg: Cfg,
    vocab: usize,
    w: Weights<S>,
    ctx: Seq<i32>,
    temperature: Ratio,
    state: u64,
    k: int,
    j: int,
)
    requires
        deterministic::<S>(),
        deterministic::<W>(),
        casts_once::<S, W>(),
        (Shape { cfg, vocab, rows: ctx.len() as usize, t_len: ctx.len() as usize }).ok(),
        is_next::<S, W>(cfg, vocab, w, ctx, temperature, state, k),
        is_next::<S, W>(cfg, vocab, w, ctx, temperature, state, j),
    ensures
        k == j,
{
    let s = Shape { cfg, vocab, rows: ctx.len() as usize, t_len: ctx.len() as usize };
    let n = ctx.len() - 1;
    let a = choose|a: Values<S>| #[trigger]
        is_forward(s, w, ctx, a) && is_drawn::<S, W>(
            row_of(a.logits, vocab as nat, n),
            temperature,
            state,
            k,
        );
    let b = choose|a: Values<S>| #[trigger]
        is_forward(s, w, ctx, a) && is_drawn::<S, W>(
            row_of(a.logits, vocab as nat, n),
            temperature,
            state,
            j,
        );
    law_forward_is_deterministic(s, w, ctx, a, b);
    let logits = row_of(a.logits, vocab as nat, n);
    let x = choose|weights: Seq<W>| #[trigger]
        is_weights(logits, temperature, weights) && is_choice(weights, unit_bits(state, 0), k);
    let y = choose|weights: Seq<W>| #[trigger]
        is_weights(logits, temperature, weights) && is_choice(weights, unit_bits(state, 0), j);
    lemma_weights_repeat(logits, temperature, x, y);
    law_choices_are_deterministic(x, unit_bits(state, 0), k, j);
}

/// A context is a run.
pub proof fn lemma_context_runs(cfg: Cfg, vocab: usize, rows: usize)
    requires
        cfg.runnable(),
        cfg.batch > 0,
        sizes_fit(cfg, vocab as int),
        vocab > 0,
        1 <= rows <= cfg.block_size,
    ensures
        (Shape { cfg, vocab, rows, t_len: rows }).ok(),
{
    let (b, t) = (cfg.batch as int, cfg.block_size as int);
    assert(t <= b * t) by (nonlinear_arith)
        requires
            b >= 1,
            t >= 0,
    ;
    let n = rows as int;
    assert(n % n == 0) by (nonlinear_arith)
        requires
            n >= 1,
    ;
}

/// Two documents sampled alike have the same tokens.
proof fn lemma_sampled_alike<S: Cast<W>, W: Scalar>(
    cfg: Cfg,
    vocab: usize,
    w: Weights<S>,
    temperature: Ratio,
    seed: u64,
    x: Seq<i32>,
    y: Seq<i32>,
    n: int,
)
    requires
        deterministic::<S>(),
        deterministic::<W>(),
        casts_once::<S, W>(),
        cfg.runnable(),
        cfg.batch > 0,
        sizes_fit(cfg, vocab as int),
        vocab > 0,
        x.len() <= cfg.block_size + 1,
        is_sampled::<S, W>(cfg, vocab, w, temperature, seed, x),
        is_sampled::<S, W>(cfg, vocab, w, temperature, seed, y),
        x.len() >= 1,
        y.len() >= 1,
        x[0] == y[0],
        0 <= n <= x.len(),
        n <= y.len(),
    ensures
        x.take(n) == y.take(n),
    decreases n,
{
    if n > 1 {
        lemma_sampled_alike::<S, W>(cfg, vocab, w, temperature, seed, x, y, n - 1);
        let i = n - 1;
        let state = advance(seed, (i - 1) as nat);
        let ctx = x.take(i);
        assert(is_next::<S, W>(cfg, vocab, w, x.take(i), temperature, state, x[i] as int));
        assert(is_next::<S, W>(cfg, vocab, w, y.take(i), temperature, state, y[i] as int));
        let rows = i as usize;
        lemma_context_runs(cfg, vocab, rows);
        law_next_token_is_deterministic::<S, W>(
            cfg,
            vocab,
            w,
            ctx,
            temperature,
            state,
            x[i] as int,
            y[i] as int,
        );
        assert(x.take(n) =~= x.take(i).push(x[i]));
        assert(y.take(n) =~= y.take(i).push(y[i]));
    } else {
        assert(x.take(n) =~= y.take(n));
    }
}

/// Sampling from a model has one outcome, where the operations have: the same parameters and
/// the same seed give the same document.
pub proof fn law_sampling_is_deterministic<S: Cast<W>, W: Scalar>(
    cfg: Cfg,
    bos: usize,
    w: Weights<S>,
    temperature: Ratio,
    seed: u64,
    x: Seq<i32>,
    y: Seq<i32>,
)
    requires
        deterministic::<S>(),
        deterministic::<W>(),
        casts_once::<S, W>(),
        bos < i32::MAX,
        cfg.runnable(),
        cfg.batch > 0,
        sizes_fit(cfg, bos + 1),
        is_complete::<S, W>(cfg, bos, w, temperature, seed, x),
        is_complete::<S, W>(cfg, bos, w, temperature, seed, y),
    ensures
        x == y,
{
    if x.len() <= y.len() {
        lemma_one_document::<S, W>(cfg, bos, w, temperature, seed, x, y);
    } else {
        lemma_one_document::<S, W>(cfg, bos, w, temperature, seed, y, x);
    }
}

/// [`law_sampling_is_deterministic`] for the shorter document.
proof fn lemma_one_document<S: Cast<W>, W: Scalar>(
    cfg: Cfg,
    bos: usize,
    w: Weights<S>,
    temperature: Ratio,
    seed: u64,
    x: Seq<i32>,
    y: Seq<i32>,
)
    requires
        deterministic::<S>(),
        deterministic::<W>(),
        casts_once::<S, W>(),
        bos < i32::MAX,
        cfg.runnable(),
        cfg.batch > 0,
        sizes_fit(cfg, bos + 1),
        is_complete::<S, W>(cfg, bos, w, temperature, seed, x),
        is_complete::<S, W>(cfg, bos, w, temperature, seed, y),
        x.len() <= y.len(),
    ensures
        x == y,
{
    let vocab = (bos + 1) as usize;
    let n = x.len() as int;
    lemma_sampled_alike::<S, W>(cfg, vocab, w, temperature, seed, x, y, n);
    assert(x.take(n) =~= x);
    if n < y.len() {
        let state = advance(seed, (n - 1) as nat);
        assert(is_next::<S, W>(cfg, vocab, w, y.take(n), temperature, state, y[n] as int));
        let rows = n as usize;
        lemma_context_runs(cfg, vocab, rows);
        law_next_token_is_deterministic::<S, W>(
            cfg,
            vocab,
            w,
            x,
            temperature,
            state,
            bos as int,
            y[n] as int,
        );
        assert(false);
    }
    assert(y.take(n) =~= y);
}

/// The first draws of two samples are the same.
proof fn lemma_draws_repeat<S: Scalar>(
    cfg: Cfg,
    sd: StateDict,
    bos: int,
    temperature: Ratio,
    before: Seq<Node<S>>,
    seed: u64,
    nodes: Seq<Node<S>>,
    draws: Seq<usize>,
    others: Seq<Node<S>>,
    again: Seq<usize>,
    n: int,
)
    requires
        deterministic::<S>(),
        cfg.runnable(),
        0 <= bos,
        sd.lm_head@.len() == bos + 1,
        follows(
            before,
            nodes,
            draws_ops(
                before.len() as int,
                cfg,
                (bos + 1) as nat,
                sd,
                bos,
                temperature,
                draws,
                draws.len() as int,
            ),
        ),
        follows(
            before,
            others,
            draws_ops(
                before.len() as int,
                cfg,
                (bos + 1) as nat,
                sd,
                bos,
                temperature,
                again,
                again.len() as int,
            ),
        ),
        are_choices(before.len() as int, nodes, cfg, bos, seed, draws),
        are_choices(before.len() as int, others, cfg, bos, seed, again),
        0 <= n <= draws.len(),
        n <= again.len(),
    ensures
        forall|i: int| 0 <= i < n ==> #[trigger] draws[i] == again[i],
    decreases n,
{
    if n > 0 {
        lemma_draws_repeat(
            cfg,
            sd,
            bos,
            temperature,
            before,
            seed,
            nodes,
            draws,
            others,
            again,
            n - 1,
        );
        let (start, v) = (before.len() as int, (bos + 1) as nat);
        let i = n - 1;
        let ops = draws_ops(start, cfg, v, sd, bos, temperature, draws, draws.len() as int);
        let other = draws_ops(start, cfg, v, sd, bos, temperature, again, again.len() as int);
        let (p, q) = (
            draws_ops(start, cfg, v, sd, bos, temperature, draws, n),
            draws_ops(start, cfg, v, sd, bos, temperature, again, n),
        );
        lemma_first_ops(start, cfg, v, sd, bos, temperature, draws, n, draws.len() as int);
        lemma_first_ops(start, cfg, v, sd, bos, temperature, again, n, again.len() as int);
        lemma_draws_order(start, cfg, sd, bos, temperature, draws, again, i);
        assert(p == q);
        assert forall|j: int| 0 <= j < p.len() implies #[trigger] ops[j] == other[j] by {
            assert(ops[j] == p[j] && other[j] == q[j]);
        }
        lemma_same_ops(before, nodes, others, ops, other, p.len() as int);
        lemma_draws_len(start, cfg, v, sd, bos, temperature, draws, n);
        let probs = probs_at(start + draws_cost(cfg, bos + 1, i), cfg, v, i);
        assert(datas_of(nodes, probs) =~= datas_of(others, probs)) by {
            assert forall|j: int| 0 <= j < probs.len() implies data_of(nodes, probs[j]) == data_of(
                others,
                #[trigger] probs[j],
            ) by {
                lemma_draws_cost_grows(cfg, bos + 1, 0, i);
                lemma_token_costs(cfg, bos + 1, n);
                let idx = probs[j].idx as int;
                reveal(follows);
                assert(idx < start + p.len());
                assert(nodes[idx] == others[idx]);
            }
        }
        assert(is_choice_at(start, nodes, cfg, bos, seed, i, draws[i]));
        assert(is_choice_at(start, others, cfg, bos, seed, i, again[i]));
        law_choices_are_deterministic(
            datas_of(nodes, probs),
            unit_bits(advance(seed, i as nat), 0),
            draws[i] as int,
            again[i] as int,
        );
    }
}

/// The operations of all draws start with those of the first ones.
proof fn lemma_first_ops(
    start: int,
    cfg: Cfg,
    vocab: nat,
    sd: StateDict,
    bos: int,
    temperature: Ratio,
    draws: Seq<usize>,
    n: int,
    m: int,
)
    requires
        0 <= n <= m,
    ensures
        ({
            let first = draws_ops(start, cfg, vocab, sd, bos, temperature, draws, n);
            let all = draws_ops(start, cfg, vocab, sd, bos, temperature, draws, m);
            &&& first.len() <= all.len()
            &&& forall|j: int| 0 <= j < first.len() ==> #[trigger] all[j] == first[j]
        }),
    decreases m,
{
    if n < m {
        lemma_first_ops(start, cfg, vocab, sd, bos, temperature, draws, n, m - 1);
    }
}

/// Sampling on a tape has one outcome, where the operations have: the same parameters and the
/// same seed give the same document, after as many draws.
pub proof fn law_tape_sampling_is_deterministic<S: Scalar>(
    cfg: Cfg,
    sd: StateDict,
    bos: int,
    temperature: Ratio,
    before: Seq<Node<S>>,
    seed: u64,
    x: Seq<usize>,
    nodes: Seq<Node<S>>,
    draws: Seq<usize>,
    ts: Seq<DrawTrace>,
    y: Seq<usize>,
    others: Seq<Node<S>>,
    again: Seq<usize>,
    us: Seq<DrawTrace>,
)
    requires
        deterministic::<S>(),
        cfg.runnable(),
        0 <= bos < usize::MAX,
        sd.stands(0, cfg, bos + 1),
        is_tape_sample(cfg, sd, bos, temperature, before, seed, x, nodes, draws, ts),
        is_tape_sample(cfg, sd, bos, temperature, before, seed, y, others, again, us),
    ensures
        x == y,
        draws == again,
{
    assert(sd.lm_head@.len() == bos + 1) by {
        assert(rows_of(sd.lm_head@).len() == bos + 1);
    }
    let n = if draws.len() < again.len() {
        draws.len()
    } else {
        again.len()
    };
    lemma_draws_repeat(
        cfg,
        sd,
        bos,
        temperature,
        before,
        seed,
        nodes,
        draws,
        others,
        again,
        n as int,
    );
    let b = cfg.block_size as int;
    assert(ends_document(bos, b, draws, x) && ends_document(bos, b, again, y));
    lemma_same_end(bos, b, draws, x, again, y);
}

/// Draws that agree as far as both go are those of the same document.
proof fn lemma_same_end(
    bos: int,
    block_size: int,
    draws: Seq<usize>,
    x: Seq<usize>,
    again: Seq<usize>,
    y: Seq<usize>,
)
    requires
        0 <= bos < usize::MAX,
        ends_document(bos, block_size, draws, x),
        ends_document(bos, block_size, again, y),
        forall|i: int|
            0 <= i < draws.len() && i < again.len() ==> #[trigger] draws[i] == again[i],
    ensures
        x == y,
        draws == again,
{
    assert forall|i: int| 0 <= i < x.len() implies draws[i] == x[i] by {}
    assert forall|i: int| 0 <= i < y.len() implies again[i] == y[i] by {}
    if draws.len() < again.len() {
        let i = draws.len() - 1;
        if x.len() < block_size {
            assert(draws[i] == bos);
            assert(again[i] == y[i]);
            assert(y[i] < bos);
        }
        assert(false);
    }
    if again.len() < draws.len() {
        let i = again.len() - 1;
        if y.len() < block_size {
            assert(again[i] == bos);
            assert(draws[i] == x[i]);
            assert(x[i] < bos);
        }
        assert(false);
    }
    assert(draws =~= again);
    if x.len() < y.len() {
        assert(draws[x.len() as int] == bos);
        assert(y[x.len() as int] < bos);
    }
    if y.len() < x.len() {
        assert(again[y.len() as int] == bos);
        assert(x[y.len() as int] < bos);
    }
    assert(x =~= y);
}

} // verus!
