//! What comes out of the model, in exact arithmetic: the loss is the mean surprise at the
//! targets, and documents are drawn token by token from the distribution that the network
//! gives, each by a random number of its own.
use vstd::arithmetic::div_mod::lemma_div_by_self;
use vstd::prelude::*;

use crate::choice::{law_choices_are_proportional, weight_before};
use crate::determinism::lemma_lens;
use crate::exact::{lemma_cancel, lemma_quotient, lemma_total_same, lemma_total_scale, total_of};
use crate::function::{is_root_function, law_the_network_computes_the_function, logits, net_of};
use crate::index::{lemma_row_inside, lemma_unpair};
use crate::layout::{Cfg, Ratio};
use crate::loss::{ce_row, count_valid, is_ce, is_mean_loss, valid_targets};
use crate::model::{forwarded, measured, Model};
use crate::motion::nums;
use crate::motion_loss::{lemma_total_exact, lemma_total_positive};
use crate::network::{is_forward, values_of, weights_of, Values, Weights};
use crate::normal::{fraction, lemma_fraction};
use crate::plan::run_tokens;
use crate::reduce::is_total;
use crate::rng::{advance, draw, is_choice, lemma_draw_after, unit_bits, UNIT};
use crate::rows::row_of;
use crate::sample::{is_complete, is_drawn, is_next, is_weight, is_weights, is_weights_by};
use crate::sample_repeat::lemma_context_runs;
use crate::scalar::{is_cast, is_diff, is_exp, is_ln, is_neg, is_num, is_quot, Cast, Scalar};
use crate::shape::{sizes_fit, Shape, LOGITS, LOSSES, PARAMS};
use crate::twin_parts::{exact_curves, is_exponential, lemma_softmax_shares};
use crate::twin_sample::casts_exactly;

verus! {

/// The part of all that number `i` of `x` has, where numbers count by their exponentials.
pub open spec fn part(
    ex: spec_fn(real) -> real,
    x: spec_fn(int) -> real,
    n: nat,
    i: int,
) -> real {
    ex(x(i)) / total_of(|j: int| ex(x(j)), n)
}

/// One for every target that is no padding.
pub open spec fn counted(targets: Seq<i32>) -> spec_fn(int) -> real {
    |r: int|
        if targets[r] >= 0 {
            1 as real
        } else {
            0 as real
        }
}

/// The surprise at the target of row `r`, where `x` has the logits: minus the logarithm of its
/// part. Padding is no surprise.
pub open spec fn surprises(
    ex: spec_fn(real) -> real,
    lg: spec_fn(real) -> real,
    x: spec_fn(int, int) -> real,
    targets: Seq<i32>,
    vocab: nat,
) -> spec_fn(int) -> real {
    |r: int|
        if targets[r] >= 0 {
            -lg(part(ex, |v: int| x(r, v), vocab, targets[r] as int))
        } else {
            0 as real
        }
}

/// The count of targets.
proof fn lemma_counted(targets: Seq<i32>, n: nat)
    ensures
        count_valid(targets, n) as real == total_of(counted(targets), n),
    decreases n,
{
    if n > 0 {
        lemma_counted(targets, (n - 1) as nat);
    }
}

/// The loss of a row.
proof fn lemma_surprise<S: Scalar>(
    val: spec_fn(S) -> real,
    ex: spec_fn(real) -> real,
    lg: spec_fn(real) -> real,
    loss: S,
    before: Seq<S>,
    probs: Seq<S>,
    row: Seq<S>,
    target: i32,
    x: spec_fn(int) -> real,
)
    requires
        exact_curves(val, ex, lg),
        is_exponential(ex),
        0 <= target < row.len(),
        ce_row(loss, before, probs, row, target),
        forall|v: int| 0 <= v < row.len() ==> val(#[trigger] row[v]) == x(v),
    ensures
        val(loss) == -lg(part(ex, x, row.len(), target as int)),
{
    let n = row.len();
    lemma_softmax_shares(val, ex, lg, row, probs, target as int);
    let z = nums(val, row);
    let (f, g) = (|j: int| ex(z(j)), |j: int| ex(x(j)));
    assert forall|j: int| 0 <= j < n implies #[trigger] f(j) == g(j) by {
        assert(val(row[j]) == x(j));
    }
    lemma_total_same(f, g, n);
    assert forall|j: int| 0 <= j < n implies #[trigger] g(j) > 0 as real by {}
    lemma_total_positive(g, n);
    let (p, e, all) = (val(probs[target as int]), ex(x(target as int)), total_of(g, n));
    assert(f(target as int) == g(target as int));
    assert(p * all == e);
    lemma_quotient(e, all);
    lemma_cancel(p, e / all, all);
    let log = choose|log: S| #[trigger] is_ln(probs[target as int], log) && is_neg(log, loss);
    assert(is_ln(probs[target as int], log));
}

/// The loss is the mean, over the positions that are no padding, of the surprise at the target:
/// minus the logarithm of the part that the target has of all tokens, where a token counts by
/// the exponential of its logit.
pub proof fn law_the_loss_is_the_mean_surprise<S: Scalar>(
    val: spec_fn(S) -> real,
    ex: spec_fn(real) -> real,
    lg: spec_fn(real) -> real,
    losses: Seq<S>,
    before: Seq<S>,
    probs: Seq<S>,
    lgs: Seq<S>,
    targets: Seq<i32>,
    rows: nat,
    vocab: nat,
    mean: S,
    x: spec_fn(int, int) -> real,
)
    requires
        exact_curves(val, ex, lg),
        is_exponential(ex),
        vocab > 0,
        losses.len() == rows,
        targets.len() == rows,
        rows <= u64::MAX,
        lgs.len() == rows * vocab,
        valid_targets(targets, vocab as int),
        exists|r: int| 0 <= r < rows && #[trigger] targets[r] >= 0,
        is_ce(losses, before, probs, lgs, targets, vocab),
        is_mean_loss(losses, count_valid(targets, targets.len()), mean),
        forall|r: int, v: int|
            0 <= r < rows && 0 <= v < vocab ==> val(#[trigger] lgs[r * vocab + v]) == x(r, v),
    ensures
        val(mean) * total_of(counted(targets), rows) == total_of(
            surprises(ex, lg, x, targets, vocab),
            rows,
        ),
{
    let own = surprises(ex, lg, x, targets, vocab);
    assert forall|r: int| 0 <= r < rows implies #[trigger] nums(val, losses)(r) == own(r) by {
        assert(ce_row(
            losses[r],
            row_of(before, vocab, r),
            row_of(probs, vocab, r),
            row_of(lgs, vocab, r),
            targets[r],
        ));
        if targets[r] >= 0 {
            let row = row_of(lgs, vocab, r);
            lemma_row_inside(r, rows as int, vocab as int);
            assert(targets[r] < vocab);
            let y = |v: int| x(r, v);
            assert forall|v: int| 0 <= v < row.len() implies val(#[trigger] row[v]) == y(v) by {
                assert(row[v] == lgs[r * vocab + v]);
            }
            lemma_surprise(
                val,
                ex,
                lg,
                losses[r],
                row_of(before, vocab, r),
                row_of(probs, vocab, r),
                row,
                targets[r],
                y,
            );
        }
    }
    lemma_total_same(nums(val, losses), own, rows);
    let n = count_valid(targets, targets.len());
    let (sum, count) = choose|sum: S, count: S|
        is_total(losses, sum) && is_num(n as u64, count) && #[trigger] is_quot(sum, count, mean);
    lemma_total_exact(val, losses, sum);
    lemma_counted(targets, rows);
    lemma_some_counted(targets, rows);
    assert(is_num(n as u64, count));
    assert(val(count) == n as real);
    lemma_quotient(val(sum), val(count));
}

/// There are targets, and no more than rows.
pub proof fn lemma_some_counted(targets: Seq<i32>, n: nat)
    ensures
        count_valid(targets, n) <= n,
        (exists|r: int| 0 <= r < n && #[trigger] targets[r] >= 0) ==> count_valid(targets, n) > 0,
    decreases n,
{
    if n > 0 {
        lemma_some_counted(targets, (n - 1) as nat);
        if exists|r: int| 0 <= r < n && #[trigger] targets[r] >= 0 {
            let r = choose|r: int| 0 <= r < n && #[trigger] targets[r] >= 0;
            if r < n - 1 {
                assert(0 <= r < (n - 1) as nat && targets[r] >= 0);
            }
        }
    }
}

/// The loss of a model is the mean surprise at the targets, where the logits of every position
/// are those of the function that its parameters say, given the tokens of the document so far.
pub proof fn law_models_measure_the_mean_surprise<S: Scalar>(
    val: spec_fn(S) -> real,
    ex: spec_fn(real) -> real,
    lg: spec_fn(real) -> real,
    rt: spec_fn(real) -> real,
    before: Model<S>,
    m1: Model<S>,
    m2: Model<S>,
    tokens: Seq<i32>,
    t_len: usize,
    targets: Seq<i32>,
    mean: S,
)
    requires
        exact_curves(val, ex, lg),
        is_exponential(ex),
        is_root_function(rt),
        m1.ran(),
        m2.ran(),
        forwarded(before, m1, tokens, t_len),
        measured(m1, m2, targets, mean),
        run_tokens(m1.shape(), tokens),
        targets.len() == tokens.len(),
        valid_targets(targets, m1.vocab as int),
        exists|r: int| 0 <= r < targets.len() && #[trigger] targets[r] >= 0,
    ensures
        val(mean) * total_of(counted(targets), tokens.len()) == total_of(
            surprises(
                ex,
                lg,
                |r: int, v: int|
                    logits(
                        ex,
                        rt,
                        net_of(
                            val,
                            m1.shape(),
                            weights_of(m1.shape(), before.mem(), PARAMS as int),
                        ),
                        |u: int| tokens[(r / t_len as int) * t_len + u] as int,
                        r % t_len as int,
                    )(v),
                targets,
                before.vocab as nat,
            ),
            tokens.len(),
        ),
{
    let s = m1.shape();
    let w = weights_of(s, before.mem(), PARAMS as int);
    let a = values_of(s, m1.mem());
    let (rows, vocab) = (s.rows as nat, s.vocab as nat);
    s.lemma_numbers();
    lemma_lens(m1, LOGITS as int);
    lemma_lens(m2, LOSSES as int);
    assert(s.rv() == rows * vocab);
    let x = |r: int, v: int|
        logits(
            ex,
            rt,
            net_of(val, m1.shape(), weights_of(m1.shape(), before.mem(), PARAMS as int)),
            |u: int| tokens[(r / t_len as int) * t_len + u] as int,
            r % t_len as int,
        )(v);
    assert forall|r: int, v: int| 0 <= r < rows && 0 <= v < vocab implies val(
        #[trigger] m1.logits()[r * vocab + v],
    ) == x(r, v) by {
        lemma_unpair(r, s.rows as int / s.t_len as int, s.t_len as int);
        let (b, t) = (r / t_len as int, r % t_len as int);
        law_the_network_computes_the_function(val, ex, lg, rt, s, w, tokens, a, b, t, v);
        assert(a.logits == m1.logits());
    }
    law_the_loss_is_the_mean_surprise(
        val,
        ex,
        lg,
        m2.losses(),
        m1.probs(),
        m2.probs(),
        m1.logits(),
        targets,
        rows,
        vocab,
        mean,
        x,
    );
}

/// How much a token counts in sampling: by the exponential of its logit over the temperature.
pub open spec fn heated(
    ex: spec_fn(real) -> real,
    temperature: Ratio,
    x: spec_fn(int) -> real,
) -> spec_fn(int) -> real {
    |v: int| ex(x(v) / (temperature.num as real / temperature.den as real))
}

/// Whether the random number `u` falls to item `k` of `n`, laid side by side by their counts.
pub open spec fn falls_to(u: real, e: spec_fn(int) -> real, n: nat, k: int) -> bool {
    &&& 0 <= k < n
    &&& total_of(e, k as nat) <= u * total_of(e, n)
    &&& u > 0 as real ==> total_of(e, k as nat) < u * total_of(e, n)
    &&& u * total_of(e, n) <= total_of(e, (k + 1) as nat)
}

/// Weights are exponentials of the logits over the temperature, up to a factor.
proof fn lemma_heated<S: Cast<W>, W: Scalar>(
    p: spec_fn(W) -> real,
    q: spec_fn(S) -> real,
    ex: spec_fn(real) -> real,
    lg: spec_fn(real) -> real,
    row: Seq<S>,
    temperature: Ratio,
    weights: Seq<W>,
    x: spec_fn(int) -> real,
) -> (g: real)
    requires
        exact_curves(p, ex, lg),
        is_exponential(ex),
        casts_exactly::<S, W>(p, q),
        temperature.num > 0,
        temperature.den > 0,
        is_weights(row, temperature, weights),
        forall|v: int| 0 <= v < row.len() ==> q(#[trigger] row[v]) == x(v),
    ensures
        g > 0 as real,
        weights.len() == row.len(),
        forall|v: int|
            0 <= v < row.len() ==> p(#[trigger] weights[v]) == g * heated(ex, temperature, x)(v),
{
    let (top, shift, t) = choose|top: S, shift: W, t: W| #[trigger]
        is_weights_by(row, temperature, weights, top, shift, t);
    let temp = temperature.num as real / temperature.den as real;
    assert(temp > 0 as real) by (nonlinear_arith)
        requires
            temp == temperature.num as real / temperature.den as real,
            temperature.num > 0,
            temperature.den > 0,
    ;
    assert(p(t) == temp);
    let z = p(shift);
    let g = ex(-(z / temp));
    let e = heated(ex, temperature, x);
    assert forall|v: int| 0 <= v < row.len() implies p(#[trigger] weights[v]) == g * e(v) by {
        assert(is_weight(row[v], shift, t, weights[v]));
        let (wide, diff, scaled) = choose|wide: W, diff: W, scaled: W|
            #![trigger is_diff(wide, shift, diff), is_quot(diff, t, scaled)]
            is_cast(row[v], wide) && is_diff(wide, shift, diff) && is_quot(diff, t, scaled)
                && is_exp(scaled, weights[v]);
        assert(is_cast(row[v], wide) && is_exp(scaled, weights[v]));
        let l = x(v);
        assert(p(wide) == l);
        let (a, b) = (l / temp, -(z / temp));
        assert((l - z) / temp == a + b) by (nonlinear_arith)
            requires
                a == l / temp,
                b == -(z / temp),
                temp > 0 as real,
        ;
        assert(ex(a + b) == ex(a) * ex(b));
        let (i, j) = (ex(a), ex(b));
        assert(i * j == j * i) by (nonlinear_arith);
    }
    g
}

/// A token is drawn by the random number that falls to it.
pub proof fn law_tokens_are_drawn_by_their_exponentials<S: Cast<W>, W: Scalar>(
    p: spec_fn(W) -> real,
    q: spec_fn(S) -> real,
    ex: spec_fn(real) -> real,
    lg: spec_fn(real) -> real,
    row: Seq<S>,
    temperature: Ratio,
    state: u64,
    k: int,
    x: spec_fn(int) -> real,
)
    requires
        exact_curves(p, ex, lg),
        is_exponential(ex),
        casts_exactly::<S, W>(p, q),
        temperature.num > 0,
        temperature.den > 0,
        row.len() > 0,
        is_drawn::<S, W>(row, temperature, state, k),
        forall|v: int| 0 <= v < row.len() ==> q(#[trigger] row[v]) == x(v),
    ensures
        falls_to(fraction(state, 0), heated(ex, temperature, x), row.len(), k),
{
    let n = row.len();
    let e = heated(ex, temperature, x);
    let weights = choose|weights: Seq<W>| #[trigger]
        is_weights(row, temperature, weights) && is_choice(weights, unit_bits(state, 0), k);
    let g = lemma_heated(p, q, ex, lg, row, temperature, weights, x);
    let bits = unit_bits(state, 0);
    lemma_fraction(state, 0);
    assert forall|v: int| 0 <= v < n implies p(#[trigger] weights[v]) > 0 as real by {
        assert(p(weights[v]) == g * e(v));
        let y = e(v);
        assert(y > 0 as real);
        assert(g * y > 0 as real) by (nonlinear_arith)
            requires
                g > 0 as real,
                y > 0 as real,
        ;
    }
    assert(p(weights[0]) > 0 as real);
    lemma_bits(state);
    law_choices_are_proportional(p, weights, bits, k);
    let w = nums(p, weights);
    lemma_parts(g, e, w, n, k);
    lemma_parts(g, e, w, n, k + 1);
    lemma_parts(g, e, w, n, n as int);
    let (u, b, unit) = (fraction(state, 0), bits as real, 9_007_199_254_740_992 as real);
    lemma_quotient(b, unit);
    assert(u * unit == b);
    let (lo, hi, all) = (total_of(e, k as nat), total_of(e, (k + 1) as nat), total_of(e, n));
    assert(lo <= u * all && (u > 0 as real ==> lo < u * all)) by (nonlinear_arith)
        requires
            g > 0 as real,
            unit > 0 as real,
            u * unit == b,
            (g * lo) * unit <= b * (g * all),
            u > 0 as real ==> (g * lo) * unit < b * (g * all),
    ;
    assert(u * all <= hi) by (nonlinear_arith)
        requires
            g > 0 as real,
            unit > 0 as real,
            u * unit == b,
            b * (g * all) <= (g * hi) * unit,
    ;
}

/// The bits of a uniform sample.
pub proof fn lemma_bits(state: u64)
    ensures
        unit_bits(state, 0) < UNIT,
{
    let z = draw(state, 0);
    assert(z >> 11 < 0x20_0000_0000_0000) by (bit_vector);
}

/// A common factor of the weights.
proof fn lemma_parts(
    g: real,
    e: spec_fn(int) -> real,
    w: spec_fn(int) -> real,
    n: nat,
    k: int,
)
    requires
        0 <= k <= n,
        forall|v: int| 0 <= v < n ==> #[trigger] w(v) == g * e(v),
    ensures
        weight_before(w, k) == g * total_of(e, k as nat),
{
    let scaled = |v: int| g * e(v);
    lemma_total_same(w, scaled, k as nat);
    lemma_total_scale(g, e, scaled, k as nat);
}

/// What the function says of the token behind a context.
pub open spec fn next_logits<S>(
    q: spec_fn(S) -> real,
    ex: spec_fn(real) -> real,
    rt: spec_fn(real) -> real,
    cfg: Cfg,
    vocab: usize,
    w: Weights<S>,
    ctx: Seq<i32>,
) -> spec_fn(int) -> real {
    logits(
        ex,
        rt,
        net_of(
            q,
            Shape { cfg, vocab, rows: ctx.len() as usize, t_len: ctx.len() as usize },
            w,
        ),
        |u: int| ctx[u] as int,
        ctx.len() - 1,
    )
}

/// The logits of the last position.
proof fn lemma_last_logits<S: Scalar>(
    q: spec_fn(S) -> real,
    ex: spec_fn(real) -> real,
    lg: spec_fn(real) -> real,
    rt: spec_fn(real) -> real,
    s: Shape,
    w: Weights<S>,
    ctx: Seq<i32>,
    a: Values<S>,
    v: int,
)
    requires
        exact_curves(q, ex, lg),
        is_exponential(ex),
        is_root_function(rt),
        s.ok(),
        s.rows == s.t_len,
        ctx.len() == s.rows,
        run_tokens(s, ctx),
        is_forward(s, w, ctx, a),
        0 <= v < s.vocab,
    ensures
        q(a.logits[(s.rows - 1) * s.vocab + v]) == next_logits(
            q,
            ex,
            rt,
            s.cfg,
            s.vocab,
            w,
            ctx,
        )(v),
{
    let n = s.rows as int;
    lemma_div_by_self(n);
    law_the_network_computes_the_function(q, ex, lg, rt, s, w, ctx, a, 0, n - 1, v);
    assert(0 * s.t_len + (n - 1) == n - 1);
    let (f, g) = (|u: int| ctx[0 * s.t_len + u] as int, |u: int| ctx[u] as int);
    assert forall|u: int| #[trigger] f(u) == g(u) by {
        assert(0 * s.t_len + u == u);
    }
    assert(f =~= g);
    assert(s == (Shape { cfg: s.cfg, vocab: s.vocab, rows: s.rows, t_len: s.t_len }));
}

/// The next token.
proof fn lemma_next<S: Cast<W>, W: Scalar>(
    p: spec_fn(W) -> real,
    q: spec_fn(S) -> real,
    ex: spec_fn(real) -> real,
    lg: spec_fn(real) -> real,
    rt: spec_fn(real) -> real,
    cfg: Cfg,
    vocab: usize,
    w: Weights<S>,
    ctx: Seq<i32>,
    temperature: Ratio,
    state: u64,
    k: int,
)
    requires
        exact_curves(p, ex, lg),
        exact_curves(q, ex, lg),
        is_exponential(ex),
        is_root_function(rt),
        casts_exactly::<S, W>(p, q),
        temperature.num > 0,
        temperature.den > 0,
        cfg.runnable(),
        cfg.batch > 0,
        sizes_fit(cfg, vocab as int),
        1 <= ctx.len() <= cfg.block_size,
        forall|i: int| 0 <= i < ctx.len() ==> 0 <= #[trigger] ctx[i] < vocab,
        is_next::<S, W>(cfg, vocab, w, ctx, temperature, state, k),
    ensures
        falls_to(
            fraction(state, 0),
            heated(ex, temperature, next_logits(q, ex, rt, cfg, vocab, w, ctx)),
            vocab as nat,
            k,
        ),
{
    let n = ctx.len() as usize;
    let s = Shape { cfg, vocab, rows: n, t_len: n };
    assert(0 <= ctx[0] < vocab);
    lemma_context_runs(cfg, vocab, n);
    let a = choose|a: Values<S>| #[trigger]
        is_forward(s, w, ctx, a) && is_drawn::<S, W>(
            row_of(a.logits, vocab as nat, ctx.len() - 1),
            temperature,
            state,
            k,
        );
    assert(is_forward(s, w, ctx, a));
    let row = row_of(a.logits, vocab as nat, ctx.len() - 1);
    let x = next_logits(q, ex, rt, cfg, vocab, w, ctx);
    assert(a.logits.len() == n * vocab) by {
        s.lemma_numbers();
    }
    lemma_row_inside(n - 1, n as int, vocab as int);
    assert(row.len() == vocab);
    assert forall|v: int| 0 <= v < row.len() implies q(#[trigger] row[v]) == x(v) by {
        lemma_last_logits(q, ex, lg, rt, s, w, ctx, a, v);
        assert(row[v] == a.logits[(n - 1) * vocab + v]);
    }
    law_tokens_are_drawn_by_their_exponentials::<S, W>(
        p,
        q,
        ex,
        lg,
        row,
        temperature,
        state,
        k,
        x,
    );
}

/// A sampled document is drawn from the distribution that the network gives, token by token:
/// token `i` is the one that random number `i - 1` falls to, where tokens count by the
/// exponentials of their logits over the temperature, and the logits are those of the tokens
/// before it. A document that does not fill the context ends because the next number falls to
/// the mark.
pub proof fn law_documents_are_drawn_from_the_network<S: Cast<W>, W: Scalar>(
    p: spec_fn(W) -> real,
    q: spec_fn(S) -> real,
    ex: spec_fn(real) -> real,
    lg: spec_fn(real) -> real,
    rt: spec_fn(real) -> real,
    cfg: Cfg,
    bos: usize,
    w: Weights<S>,
    temperature: Ratio,
    seed: u64,
    ctx: Seq<i32>,
    i: int,
)
    requires
        exact_curves(p, ex, lg),
        exact_curves(q, ex, lg),
        is_exponential(ex),
        is_root_function(rt),
        casts_exactly::<S, W>(p, q),
        temperature.num > 0,
        temperature.den > 0,
        cfg.runnable(),
        cfg.batch > 0,
        bos < i32::MAX,
        sizes_fit(cfg, bos + 1),
        is_complete::<S, W>(cfg, bos, w, temperature, seed, ctx),
        1 <= i <= ctx.len(),
        i <= cfg.block_size,
    ensures
        ctx[0] == bos,
        ctx.len() <= cfg.block_size + 1,
        forall|j: int| 1 <= j < ctx.len() ==> 0 <= #[trigger] ctx[j] < bos,
        falls_to(
            fraction(seed, (i - 1) as nat),
            heated(
                ex,
                temperature,
                next_logits(q, ex, rt, cfg, (bos + 1) as usize, w, ctx.take(i)),
            ),
            (bos + 1) as nat,
            if i < ctx.len() {
                ctx[i] as int
            } else {
                bos as int
            },
        ),
{
    let vocab = (bos + 1) as usize;
    let state = advance(seed, (i - 1) as nat);
    let short = ctx.take(i);
    lemma_draw_after(seed, (i - 1) as nat, 0);
    assert(fraction(state, 0) == fraction(seed, (i - 1) as nat));
    assert forall|j: int| 0 <= j < short.len() implies 0 <= #[trigger] short[j] < vocab by {
        assert(short[j] == ctx[j]);
    }
    if i < ctx.len() {
        assert(is_next::<S, W>(cfg, vocab, w, short, temperature, state, ctx[i] as int));
        lemma_next::<S, W>(
            p,
            q,
            ex,
            lg,
            rt,
            cfg,
            vocab,
            w,
            short,
            temperature,
            state,
            ctx[i] as int,
        );
    } else {
        assert(short =~= ctx);
        lemma_next::<S, W>(
            p,
            q,
            ex,
            lg,
            rt,
            cfg,
            vocab,
            w,
            short,
            temperature,
            state,
            bos as int,
        );
    }
}

} // verus!
