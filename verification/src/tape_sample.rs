//! Sampling on a tape, one token at a time.
use vstd::prelude::*;

use crate::graph::{
    all_on, datas_of, is_softmax_nodes, lemma_on_extends, lemma_softmax_extends, softmax,
};
use crate::layout::{param_count, Cfg, Ratio};
use crate::order::{
    draw_ops, draw_starts, draws_ops, follows, is_div_ratio, key_at, keys_at, lemma_follows_append,
    lemma_follows_none, lemma_follows_push, lemma_keys_grow, lemma_values_grow, probs_at, row_at,
    scale_ops, softmax_ops, token_ops, value_at, values_at, Op,
};
use crate::rng::{advance, is_choice, lemma_advance_adds, unit_bits, Rng};
use crate::scalar::{is_ratio, Scalar};
use crate::tape::{data_of, extends, is_div_const, max_nodes, on, Node, Tape, Value};
use crate::tape_gpt::StateDict;
use crate::tape_token::{
    cache_grows, cache_of, cache_on, cached, gpt, is_token_trace, keys_grow, lemma_cache_extends,
    lemma_past_grows, lemma_past_kept, lemma_state_extends, lemma_state_on, lemma_token_costs,
    lemma_token_extends, past_keys, past_values, state_on, token_cost, values_grow, TokenTrace,
};
use crate::tape_train::empty_cache;

verus! {

/// The numbers that one sampled token goes through.
pub struct DrawTrace {
    pub token: TokenTrace,
    pub scaled: Seq<Value>,
    pub probs: Seq<Value>,
}

/// `ys` are `xs` divided by the temperature.
pub open spec fn are_scaled<S: Scalar>(
    nodes: Seq<Node<S>>,
    xs: Seq<Value>,
    temperature: Ratio,
    ys: Seq<Value>,
) -> bool {
    &&& ys.len() == xs.len()
    &&& exists|c: S| #[trigger]
        is_ratio(temperature.num, temperature.den, c) && (forall|i: int|
            0 <= i < xs.len() ==> is_div_const(nodes, xs[i], c, #[trigger] ys[i]))
}

/// `k` is drawn behind `token` by a generator in state `state`: in proportion to the softmax
/// of the logits over the temperature.
#[verifier::opaque]
pub open spec fn is_draw_trace<S: Scalar>(
    nodes: Seq<Node<S>>,
    cfg: Cfg,
    sd: StateDict,
    token: int,
    pos: int,
    keys: Seq<Seq<Seq<Value>>>,
    values: Seq<Seq<Seq<Value>>>,
    temperature: Ratio,
    state: u64,
    k: int,
    t: DrawTrace,
) -> bool {
    &&& is_token_trace(nodes, cfg, sd, token, pos, keys, values, t.token)
    &&& are_scaled(nodes, t.token.logits, temperature, t.scaled)
    &&& is_softmax_nodes(nodes, t.scaled, t.probs)
    &&& all_on(nodes, t.probs)
    &&& is_choice(datas_of(nodes, t.probs), unit_bits(state, 0), k)
}

/// The tokens of the draws.
pub open spec fn drawn_tokens(ts: Seq<DrawTrace>) -> Seq<TokenTrace> {
    Seq::new(ts.len(), |i: int| ts[i].token)
}

/// The token behind which the `i`-th draw is made: the mark, then the tokens drawn.
pub open spec fn drawn_before(bos: int, draws: Seq<usize>, i: int) -> int {
    if i == 0 {
        bos
    } else {
        draws[i - 1] as int
    }
}

/// The draws `draws`, starting in state `seed`: each is made behind those before it.
pub open spec fn are_draws<S: Scalar>(
    nodes: Seq<Node<S>>,
    cfg: Cfg,
    sd: StateDict,
    bos: int,
    temperature: Ratio,
    seed: u64,
    draws: Seq<usize>,
    ts: Seq<DrawTrace>,
) -> bool {
    &&& ts.len() == draws.len()
    &&& forall|i: int|
        0 <= i < ts.len() ==> is_draw_trace(
            nodes,
            cfg,
            sd,
            drawn_before(bos, draws, i),
            i,
            past_keys(cfg, drawn_tokens(ts), i),
            past_values(cfg, drawn_tokens(ts), i),
            temperature,
            advance(seed, i as nat),
            draws[i] as int,
            #[trigger] ts[i],
        )
}

/// Each of `draws`, whose nodes start at `start`, is chosen by its probabilities.
pub open spec fn are_choices<S: Scalar>(
    start: int,
    nodes: Seq<Node<S>>,
    cfg: Cfg,
    bos: int,
    seed: u64,
    draws: Seq<usize>,
) -> bool {
    forall|i: int|
        0 <= i < draws.len() ==> is_choice_at(start, nodes, cfg, bos, seed, i, #[trigger] draws[i])
}

/// `k` is the `i`-th draw of those whose nodes start at `start`.
pub open spec fn is_choice_at<S: Scalar>(
    start: int,
    nodes: Seq<Node<S>>,
    cfg: Cfg,
    bos: int,
    seed: u64,
    i: int,
    k: usize,
) -> bool {
    let probs = probs_at(
        start + draws_cost(cfg, bos + 1, i),
        cfg,
        (bos + 1) as nat,
        i,
    );
    &&& all_on(nodes, probs)
    &&& is_choice(datas_of(nodes, probs), unit_bits(advance(seed, i as nat), 0), k as int)
}

/// Whether the draws `draws` are those of the document `sample`: they end with the mark, or
/// they fill the context, and the mark is drawn nowhere else.
pub open spec fn ends_document(
    bos: int,
    block_size: int,
    draws: Seq<usize>,
    sample: Seq<usize>,
) -> bool {
    &&& forall|i: int| 0 <= i < sample.len() ==> #[trigger] sample[i] < bos
    &&& sample.len() < block_size && draws == sample.push(bos as usize) || sample.len()
        == block_size && draws == sample
}

/// `sample` is a document sampled with the parameters on `before`, starting in state `seed`;
/// it took `draws` draws.
pub open spec fn is_tape_sample<S: Scalar>(
    cfg: Cfg,
    sd: StateDict,
    bos: int,
    temperature: Ratio,
    before: Seq<Node<S>>,
    seed: u64,
    sample: Seq<usize>,
    nodes: Seq<Node<S>>,
    draws: Seq<usize>,
    ts: Seq<DrawTrace>,
) -> bool {
    &&& extends(before, nodes)
    &&& follows(
        before,
        nodes,
        draws_ops(
            before.len() as int,
            cfg,
            (bos + 1) as nat,
            sd,
            bos,
            temperature,
            draws,
            draws.len() as int,
        ),
    )
    &&& are_choices(before.len() as int, nodes, cfg, bos, seed, draws)
    &&& are_draws(nodes, cfg, sd, bos, temperature, seed, draws, ts)
    &&& ends_document(bos, cfg.block_size as int, draws, sample)
}

/// A draw stays what it is when the tape grows.
proof fn lemma_draw_extends<S: Scalar>(
    nodes: Seq<Node<S>>,
    later: Seq<Node<S>>,
    cfg: Cfg,
    sd: StateDict,
    token: int,
    pos: int,
    keys: Seq<Seq<Seq<Value>>>,
    values: Seq<Seq<Seq<Value>>>,
    temperature: Ratio,
    state: u64,
    k: int,
    t: DrawTrace,
)
    requires
        extends(nodes, later),
        is_draw_trace(nodes, cfg, sd, token, pos, keys, values, temperature, state, k, t),
    ensures
        is_draw_trace(later, cfg, sd, token, pos, keys, values, temperature, state, k, t),
{
    reveal(is_draw_trace);
    lemma_token_extends(nodes, later, cfg, sd, token, pos, keys, values, t.token);
    lemma_scaled_extends(nodes, later, t.token.logits, temperature, t.scaled);
    lemma_softmax_extends(nodes, later, t.scaled, t.probs);
    lemma_on_extends(nodes, later, t.probs);
    assert(datas_of(later, t.probs) =~= datas_of(nodes, t.probs)) by {
        assert forall|i: int| 0 <= i < t.probs.len() implies data_of(later, t.probs[i]) == data_of(
            nodes,
            #[trigger] t.probs[i],
        ) by {
            assert(on(nodes, t.probs[i]));
        }
    }
}

/// Scaled numbers stay scaled when the tape grows.
proof fn lemma_scaled_extends<S: Scalar>(
    nodes: Seq<Node<S>>,
    later: Seq<Node<S>>,
    xs: Seq<Value>,
    temperature: Ratio,
    ys: Seq<Value>,
)
    requires
        extends(nodes, later),
        are_scaled(nodes, xs, temperature, ys),
    ensures
        are_scaled(later, xs, temperature, ys),
{
    let c = choose|c: S| #[trigger]
        is_ratio(temperature.num, temperature.den, c) && (forall|i: int|
            0 <= i < xs.len() ==> is_div_const(nodes, xs[i], c, #[trigger] ys[i]));
    assert forall|i: int| 0 <= i < xs.len() implies is_div_const(
        later,
        xs[i],
        c,
        #[trigger] ys[i],
    ) by {
        assert(is_div_const(nodes, xs[i], c, ys[i]));
    }
    assert(is_ratio(temperature.num, temperature.den, c));
}

/// One more draw.
proof fn lemma_draws_push<S: Scalar>(
    nodes: Seq<Node<S>>,
    later: Seq<Node<S>>,
    cfg: Cfg,
    sd: StateDict,
    bos: int,
    temperature: Ratio,
    seed: u64,
    draws: Seq<usize>,
    ts: Seq<DrawTrace>,
    k: usize,
    own: DrawTrace,
)
    requires
        extends(nodes, later),
        are_draws(nodes, cfg, sd, bos, temperature, seed, draws, ts),
        is_draw_trace(
            later,
            cfg,
            sd,
            drawn_before(bos, draws, draws.len() as int),
            draws.len() as int,
            past_keys(cfg, drawn_tokens(ts), draws.len() as int),
            past_values(cfg, drawn_tokens(ts), draws.len() as int),
            temperature,
            advance(seed, draws.len()),
            k as int,
            own,
        ),
    ensures
        are_draws(later, cfg, sd, bos, temperature, seed, draws.push(k), ts.push(own)),
{
    let (all, drawn) = (ts.push(own), draws.push(k));
    assert forall|i: int| 0 <= i < all.len() implies is_draw_trace(
        later,
        cfg,
        sd,
        drawn_before(bos, drawn, i),
        i,
        past_keys(cfg, drawn_tokens(all), i),
        past_values(cfg, drawn_tokens(all), i),
        temperature,
        advance(seed, i as nat),
        drawn[i] as int,
        #[trigger] all[i],
    ) by {
        lemma_past_kept(cfg, drawn_tokens(ts), drawn_tokens(all), i);
        assert(drawn_before(bos, drawn, i) == drawn_before(bos, draws, i));
        if i < ts.len() {
            assert(all[i] == ts[i]);
            lemma_draw_extends(
                nodes,
                later,
                cfg,
                sd,
                drawn_before(bos, draws, i),
                i,
                past_keys(cfg, drawn_tokens(ts), i),
                past_values(cfg, drawn_tokens(ts), i),
                temperature,
                advance(seed, i as nat),
                draws[i] as int,
                ts[i],
            );
        }
    }
}

/// The nodes of the `t`-th draw.
pub open spec fn draw_cost(cfg: Cfg, vocab: int, t: int) -> int {
    token_cost(cfg, vocab, t) + 5 * vocab - 1
}

/// The nodes of the first `n` draws.
pub open spec fn draws_cost(cfg: Cfg, vocab: int, n: int) -> int
    decreases n,
{
    if n <= 0 {
        0
    } else {
        draws_cost(cfg, vocab, n - 1) + draw_cost(cfg, vocab, n)
    }
}

/// More draws need no fewer nodes.
pub proof fn lemma_draws_cost_grows(cfg: Cfg, vocab: int, a: int, b: int)
    requires
        cfg.has_heads(),
        vocab > 0,
        0 <= a <= b,
    ensures
        0 <= draws_cost(cfg, vocab, a) <= draws_cost(cfg, vocab, b),
    decreases b,
{
    if a < b {
        lemma_draws_cost_grows(cfg, vocab, a, b - 1);
        lemma_token_costs(cfg, vocab, b);
    } else if b > 0 {
        lemma_draws_cost_grows(cfg, vocab, a - 1, b - 1);
        lemma_token_costs(cfg, vocab, b);
    }
}

/// The logits divided by the temperature.
fn scale_all<S: Scalar>(tape: &mut Tape<S>, xs: &Vec<Value>, temperature: Ratio) -> (ys: Vec<Value>)
    requires
        old(tape).wf(),
        all_on(old(tape).nodes@, xs@),
        old(tape).nodes@.len() + xs@.len() <= max_nodes(),
    ensures
        final(tape).wf(),
        extends(old(tape).nodes@, final(tape).nodes@),
        final(tape).nodes@.len() == old(tape).nodes@.len() + xs@.len(),
        are_scaled(final(tape).nodes@, xs@, temperature, ys@),
        all_on(final(tape).nodes@, ys@),
        follows(
            old(tape).nodes@,
            final(tape).nodes@,
            scale_ops(xs@, temperature, xs@.len() as int),
        ),
        ys@ == row_at(old(tape).nodes@.len() as int, xs@.len()),
{
    let n: usize = xs.len();
    let ghost from = tape.nodes@.len() as int;
    proof {
        lemma_follows_none(tape.nodes@);
    }
    let ghost start = tape.nodes@;
    let c: S = S::ratio(temperature.num, temperature.den);
    let mut ys: Vec<Value> = Vec::new();
    for i in 0..n
        invariant
            tape.wf(),
            n == xs@.len(),
            all_on(start, xs@),
            start.len() + n <= max_nodes(),
            extends(start, tape.nodes@),
            tape.nodes@.len() == start.len() + i,
            ys@.len() == i,
            all_on(tape.nodes@, ys@),
            forall|k: int|
                0 <= k < i ==> is_div_const(tape.nodes@, xs@[k], c, #[trigger] ys@[k]),
            is_ratio(temperature.num, temperature.den, c),
            from == start.len(),
            follows(start, tape.nodes@, scale_ops(xs@, temperature, i as int)),
            ys@ == row_at(from, i as nat),
    {
        let ghost nodes = tape.nodes@;
        assert(on(start, xs@[i as int]));
        let y: Value = xs[i].div_const(tape, c);
        ys.push(y);
        proof {
            assert forall|k: int| 0 <= k < i + 1 implies is_div_const(
                tape.nodes@,
                xs@[k],
                c,
                #[trigger] ys@[k],
            ) by {
                if k < i {
                    assert(on(nodes, ys@[k]));
                }
            }
            assert(is_div_const(tape.nodes@, xs@[i as int], c, y));
            assert(is_div_ratio(tape.nodes@, xs@[i as int], temperature, y));
            lemma_follows_push(
                start,
                nodes,
                tape.nodes@,
                scale_ops(xs@, temperature, i as int),
                Op::DivRatio(xs@[i as int], temperature),
                y,
            );
            assert(row_at(from, i as nat + 1) =~= row_at(from, i as nat).push(y));
        }
    }
    ys
}

/// The numbers of `vs`.
fn read_all<S: Scalar>(tape: &Tape<S>, vs: &Vec<Value>) -> (xs: Vec<S>)
    requires
        all_on(tape.nodes@, vs@),
    ensures
        xs@ == datas_of(tape.nodes@, vs@),
{
    let n: usize = vs.len();
    let mut xs: Vec<S> = Vec::new();
    for i in 0..n
        invariant
            n == vs@.len(),
            all_on(tape.nodes@, vs@),
            xs@ == datas_of(tape.nodes@, vs@).take(i as int),
    {
        assert(on(tape.nodes@, vs@[i as int]));
        xs.push(vs[i].data(tape));
    }
    xs
}

/// Draws the token that follows `token_id`.
fn draw_next<S: Scalar>(
    tape: &mut Tape<S>,
    cfg: &Cfg,
    sd: &StateDict,
    vocab: usize,
    rng: &mut Rng,
    temperature: Ratio,
    token_id: usize,
    pos: usize,
    keys: &mut Vec<Vec<Vec<Value>>>,
    values: &mut Vec<Vec<Vec<Value>>>,
) -> (k: usize)
    requires
        old(tape).wf(),
        cfg.runnable(),
        state_on(old(tape).nodes@, *sd, *cfg, vocab as int),
        token_id < vocab,
        pos < cfg.block_size,
        cached(cache_of(old(keys)@)) == pos,
        cache_on(old(tape).nodes@, cache_of(old(keys)@), *cfg, pos as nat),
        cache_on(old(tape).nodes@, cache_of(old(values)@), *cfg, pos as nat),
        old(tape).nodes@.len() + draw_cost(*cfg, vocab as int, pos + 1) <= max_nodes(),
    ensures
        final(tape).wf(),
        extends(old(tape).nodes@, final(tape).nodes@),
        final(tape).nodes@.len() == old(tape).nodes@.len() + draw_cost(
            *cfg,
            vocab as int,
            pos + 1,
        ),
        cache_on(final(tape).nodes@, cache_of(final(keys)@), *cfg, pos as nat + 1),
        cache_on(final(tape).nodes@, cache_of(final(values)@), *cfg, pos as nat + 1),
        k < vocab,
        final(rng).0 == advance(old(rng).0, 1),
        exists|t: DrawTrace| #[trigger]
            is_draw_trace(
                final(tape).nodes@,
                *cfg,
                *sd,
                token_id as int,
                pos as int,
                cache_of(old(keys)@),
                cache_of(old(values)@),
                temperature,
                old(rng).0,
                k as int,
                t,
            ) && t.token.layers.len() == cfg.n_layer && keys_grow(
                cache_of(old(keys)@),
                cache_of(final(keys)@),
                t.token.layers,
            ) && values_grow(
                cache_of(old(values)@),
                cache_of(final(values)@),
                t.token.layers,
            ),
        follows(
            old(tape).nodes@,
            final(tape).nodes@,
            draw_ops(
                old(tape).nodes@.len() as int,
                *cfg,
                vocab as nat,
                *sd,
                token_id as int,
                pos as int,
                cache_of(old(keys)@),
                cache_of(old(values)@),
                temperature,
            ),
        ),
        all_on(
            final(tape).nodes@,
            probs_at(old(tape).nodes@.len() as int, *cfg, vocab as nat, pos as int),
        ),
        is_choice(
            datas_of(
                final(tape).nodes@,
                probs_at(old(tape).nodes@.len() as int, *cfg, vocab as nat, pos as int),
            ),
            unit_bits(old(rng).0, 0),
            k as int,
        ),
        cache_grows(
            cache_of(old(keys)@),
            cache_of(final(keys)@),
            |li: int| key_at(old(tape).nodes@.len() as int, *cfg, pos as nat + 1, li),
        ),
        cache_grows(
            cache_of(old(values)@),
            cache_of(final(values)@),
            |li: int| value_at(old(tape).nodes@.len() as int, *cfg, pos as nat + 1, li),
        ),
{
    let ghost n0 = tape.nodes@;
    let ghost (k0, v0) = (cache_of(keys@), cache_of(values@));
    let ghost state = rng.0;
    let logits: Vec<Value> = gpt(tape, cfg, sd, vocab, token_id, pos, keys, values);
    let ghost n1 = tape.nodes@;
    let ghost (k1, v1) = (cache_of(keys@), cache_of(values@));
    let scaled: Vec<Value> = scale_all(tape, &logits, temperature);
    let ghost n2 = tape.nodes@;
    let probs: Vec<Value> = softmax(tape, &scaled);
    let weights: Vec<S> = read_all(tape, &probs);
    let k: usize = rng.choices(weights.as_slice());
    proof {
        let end = tape.nodes@;
        let token = choose|token: TokenTrace| #[trigger]
            is_token_trace(
                n1,
                *cfg,
                *sd,
                token_id as int,
                pos as int,
                k0,
                v0,
                token,
            ) && token.logits == logits@ && keys_grow(k0, k1, token.layers) && values_grow(
                v0,
                v1,
                token.layers,
            );
        let own = DrawTrace { token, scaled: scaled@, probs: probs@ };
        assert(token.layers.len() == cfg.n_layer) by {
            reveal(is_token_trace);
        }
        assert(is_draw_trace(
            end,
            *cfg,
            *sd,
            token_id as int,
            pos as int,
            k0,
            v0,
            temperature,
            state,
            k as int,
            own,
        )) by {
            reveal(is_draw_trace);
            lemma_token_extends(
                n1,
                end,
                *cfg,
                *sd,
                token_id as int,
                pos as int,
                k0,
                v0,
                token,
            );
            lemma_scaled_extends(n2, end, logits@, temperature, scaled@);
        }
        lemma_cache_extends(n1, end, k1, *cfg, pos as nat + 1);
        lemma_cache_extends(n1, end, v1, *cfg, pos as nat + 1);
        let first = token_ops(
            n0.len() as int,
            *cfg,
            *sd,
            token_id as int,
            pos as int,
            k0,
            v0,
            pos as nat + 1,
        );
        let middle = scale_ops(logits@, temperature, vocab as int);
        lemma_follows_append(n0, n1, n2, first, middle);
        lemma_follows_append(n0, n2, end, first + middle, softmax_ops(n2.len() as int, scaled@));
        reveal(draw_ops);
    }
    k
}

/// The operations of the first draws do not depend on those behind them.
pub proof fn lemma_draws_order(
    start: int,
    cfg: Cfg,
    sd: StateDict,
    bos: int,
    temperature: Ratio,
    draws: Seq<usize>,
    longer: Seq<usize>,
    n: int,
)
    requires
        0 <= n <= draws.len(),
        n <= longer.len(),
        forall|i: int| 0 <= i < n ==> #[trigger] longer[i] == draws[i],
    ensures
        draws_ops(start, cfg, (bos + 1) as nat, sd, bos, temperature, longer, n) == draws_ops(
            start,
            cfg,
            (bos + 1) as nat,
            sd,
            bos,
            temperature,
            draws,
            n,
        ),
    decreases n,
{
    if n > 0 {
        lemma_draws_order(start, cfg, sd, bos, temperature, draws, longer, n - 1);
        assert(drawn_before(bos, longer, n - 1) == drawn_before(bos, draws, n - 1));
    }
}

/// A choice stays what it is when the tape grows.
proof fn lemma_choice_extends<S: Scalar>(
    nodes: Seq<Node<S>>,
    later: Seq<Node<S>>,
    start: int,
    cfg: Cfg,
    bos: int,
    seed: u64,
    i: int,
    k: usize,
)
    requires
        extends(nodes, later),
        is_choice_at(start, nodes, cfg, bos, seed, i, k),
    ensures
        is_choice_at(start, later, cfg, bos, seed, i, k),
{
    let probs = probs_at(start + draws_cost(cfg, bos + 1, i), cfg, (bos + 1) as nat, i);
    lemma_on_extends(nodes, later, probs);
    assert(datas_of(later, probs) =~= datas_of(nodes, probs)) by {
        assert forall|j: int| 0 <= j < probs.len() implies data_of(later, probs[j]) == data_of(
            nodes,
            #[trigger] probs[j],
        ) by {
            assert(on(nodes, probs[j]));
        }
    }
}

/// Samples a document: starting from the mark, token by token, until the mark comes or the
/// context is full. The tape holds the parameters and nothing else, before and after.
#[verifier::rlimit(40)]
pub fn tape_sample<S: Scalar>(
    tape: &mut Tape<S>,
    cfg: &Cfg,
    sd: &StateDict,
    rng: &mut Rng,
    bos: usize,
    temperature: Ratio,
) -> (sample: Vec<usize>)
    requires
        old(tape).wf(),
        cfg.runnable(),
        bos < usize::MAX,
        sd.stands(0, *cfg, bos + 1),
        param_count(*cfg, bos + 1) == old(tape).nodes@.len(),
        old(tape).nodes@.len() + draws_cost(*cfg, bos + 1, cfg.block_size as int) <= max_nodes(),
    ensures
        final(tape).nodes@ == old(tape).nodes@,
        exists|nodes: Seq<Node<S>>, draws: Seq<usize>, ts: Seq<DrawTrace>| #[trigger]
            is_tape_sample(
                *cfg,
                *sd,
                bos as int,
                temperature,
                old(tape).nodes@,
                old(rng).0,
                sample@,
                nodes,
                draws,
                ts,
            ) && final(rng).0 == advance(old(rng).0, draws.len()),
{
    let ghost n0 = tape.nodes@;
    let ghost seed = rng.0;
    let ghost v = bos + 1;
    let ghost from = n0.len() as int;
    let ghost starts = draw_starts(from, *cfg, v);
    let vocab: usize = bos + 1;
    let num_params: usize = tape.len();
    let block_size: usize = cfg.block_size;
    let mut keys: Vec<Vec<Vec<Value>>> = empty_cache(cfg.n_layer);
    let mut values: Vec<Vec<Vec<Value>>> = empty_cache(cfg.n_layer);
    let mut token_id: usize = bos;
    let mut sample: Vec<usize> = Vec::new();
    let mut ended: bool = false;
    let ghost mut ts: Seq<DrawTrace> = Seq::empty();
    let ghost mut draws: Seq<usize> = Seq::empty();
    proof {
        lemma_state_on(n0, *sd, 0, *cfg, v);
        assert(cache_of(keys@) =~~= past_keys(*cfg, drawn_tokens(ts), 0));
        assert(cache_of(values@) =~~= past_values(*cfg, drawn_tokens(ts), 0));
        assert(advance(seed, 0) == seed);
        assert(cache_of(keys@) =~~= keys_at(*cfg, starts, 0));
        assert(cache_of(values@) =~~= values_at(*cfg, starts, 0));
        lemma_follows_none(n0);
    }
    while !ended && sample.len() < block_size
        invariant
            tape.wf(),
            cfg.runnable(),
            block_size == cfg.block_size,
            vocab == bos + 1,
            v == vocab,
            state_on(n0, *sd, *cfg, v),
            n0.len() + draws_cost(*cfg, v, block_size as int) <= max_nodes(),
            extends(n0, tape.nodes@),
            sample@.len() <= block_size,
            are_draws(tape.nodes@, *cfg, *sd, bos as int, temperature, seed, draws, ts),
            rng.0 == advance(seed, draws.len()),
            forall|i: int| 0 <= i < sample@.len() ==> #[trigger] sample@[i] < bos,
            ended ==> sample@.len() < block_size && draws == sample@.push(bos),
            !ended ==> draws == sample@,
            !ended ==> tape.nodes@.len() == n0.len() + draws_cost(*cfg, v, draws.len() as int),
            !ended ==> token_id < vocab && token_id == drawn_before(
                bos as int,
                draws,
                draws.len() as int,
            ),
            cache_on(tape.nodes@, cache_of(keys@), *cfg, draws.len()),
            cache_on(tape.nodes@, cache_of(values@), *cfg, draws.len()),
            cache_of(keys@) == past_keys(*cfg, drawn_tokens(ts), draws.len() as int),
            cache_of(values@) == past_values(*cfg, drawn_tokens(ts), draws.len() as int),
            from == n0.len(),
            starts == draw_starts(from, *cfg, v),
            follows(
                n0,
                tape.nodes@,
                draws_ops(
                    from,
                    *cfg,
                    v as nat,
                    *sd,
                    bos as int,
                    temperature,
                    draws,
                    draws.len() as int,
                ),
            ),
            are_choices(from, tape.nodes@, *cfg, bos as int, seed, draws),
            cache_of(keys@) == keys_at(*cfg, starts, draws.len()),
            cache_of(values@) == values_at(*cfg, starts, draws.len()),
        decreases block_size - sample@.len(), (if ended { 0int } else { 1 }),
    {
        let ghost before = tape.nodes@;
        let ghost (k0, v0) = (cache_of(keys@), cache_of(values@));
        let ghost state = rng.0;
        let pos: usize = sample.len();
        proof {
            lemma_draws_cost_grows(*cfg, v, pos + 1, block_size as int);
            lemma_state_extends(n0, before, *sd, *cfg, v);
            assert(k0[0].len() == pos);
        }
        let k: usize = draw_next(
            tape,
            cfg,
            sd,
            vocab,
            rng,
            temperature,
            token_id,
            pos,
            &mut keys,
            &mut values,
        );
        proof {
            let end = tape.nodes@;
            let (k1, v1) = (cache_of(keys@), cache_of(values@));
            let own = choose|t: DrawTrace| #[trigger]
                is_draw_trace(
                    end,
                    *cfg,
                    *sd,
                    token_id as int,
                    pos as int,
                    k0,
                    v0,
                    temperature,
                    state,
                    k as int,
                    t,
                ) && t.token.layers.len() == cfg.n_layer && keys_grow(k0, k1, t.token.layers)
                    && values_grow(v0, v1, t.token.layers);
            lemma_draws_push(
                before,
                end,
                *cfg,
                *sd,
                bos as int,
                temperature,
                seed,
                draws,
                ts,
                k,
                own,
            );
            lemma_past_grows(*cfg, drawn_tokens(ts), own.token, k1, v1);
            assert(drawn_tokens(ts.push(own)) =~= drawn_tokens(ts).push(own.token));
            lemma_advance_adds(seed, draws.len(), 1);
            ts = ts.push(own);
            let longer = draws.push(k);
            let row = |li: int| key_at(before.len() as int, *cfg, pos as nat + 1, li);
            lemma_keys_grow(*cfg, starts, pos as nat, k1, row);
            let row = |li: int| value_at(before.len() as int, *cfg, pos as nat + 1, li);
            lemma_values_grow(*cfg, starts, pos as nat, v1, row);
            lemma_draws_order(from, *cfg, *sd, bos as int, temperature, draws, longer, pos as int);
            lemma_follows_append(
                n0,
                before,
                end,
                draws_ops(from, *cfg, v as nat, *sd, bos as int, temperature, draws, pos as int),
                draw_ops(
                    before.len() as int,
                    *cfg,
                    v as nat,
                    *sd,
                    token_id as int,
                    pos as int,
                    k0,
                    v0,
                    temperature,
                ),
            );
            assert forall|i: int| 0 <= i < longer.len() implies is_choice_at(
                from,
                end,
                *cfg,
                bos as int,
                seed,
                i,
                #[trigger] longer[i],
            ) by {
                if i < pos {
                    assert(longer[i] == draws[i]);
                    lemma_choice_extends(before, end, from, *cfg, bos as int, seed, i, draws[i]);
                }
            }
            draws = longer;
        }
        if k == bos {
            ended = true;
        } else {
            token_id = k;
            sample.push(k);
        }
    }
    let ghost end = tape.nodes@;
    tape.truncate(num_params);
    proof {
        assert(tape.nodes@ =~= n0);
        assert(is_tape_sample(
            *cfg,
            *sd,
            bos as int,
            temperature,
            n0,
            seed,
            sample@,
            end,
            draws,
            ts,
        ));
    }
    sample
}

} // verus!
