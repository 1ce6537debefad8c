//! Training on a tape: the loss of a document, the optimizer, and one step of both.
use vstd::prelude::*;

use crate::adam::{adam_step, decayed_rate, is_adam, is_decayed_rate, Moments};
use crate::graph::{
    all_on, is_softmax_nodes, is_sum_node, lemma_softmax_extends, lemma_sum_extends, softmax, sum,
};
use crate::layout::{param_count, Cfg};
use crate::order::{
    at, document_ops, follows, is_mul_share, key_at, keys_at, lemma_follows_append,
    lemma_follows_none, lemma_follows_push, lemma_keys_grow, lemma_values_grow, losses_at,
    position_ops, softmax_ops, step_ops, step_starts, steps_ops, sum_ops, token_ops, value_at,
    values_at, Op,
};
use crate::scalar::{is_num, is_one, is_quot, is_ratio, is_zero, Scalar};
use crate::tape::{
    data_of, extends, grads_of, is_log_node, is_mul_const, is_neg_node, is_tape_backward, max_nodes,
    on, same_graph, stands_before, Node, Tape, Value,
};
use crate::tape_gpt::StateDict;
use crate::tape_token::{
    cache_grows, cache_of, cache_on, cached, gpt, is_token_trace, keys_grow, lemma_cache_extends,
    lemma_past_grows, lemma_past_kept, lemma_state_extends, lemma_state_on, lemma_token_costs,
    lemma_token_extends, past_keys, past_values, state_on, token_cost, values_grow, TokenTrace,
};

verus! {

/// The numbers that one position of a document goes through.
pub struct StepTrace {
    pub token: TokenTrace,
    pub probs: Seq<Value>,
    pub log: Value,
    pub loss: Value,
}

/// The tokens of the positions.
pub open spec fn toks_of(steps: Seq<StepTrace>) -> Seq<TokenTrace> {
    Seq::new(steps.len(), |pos: int| steps[pos].token)
}

/// The equations of one position: the token's logits, their softmax, and minus the logarithm
/// of what it gives to the token that follows.
#[verifier::opaque]
pub open spec fn is_step_trace<S: Scalar>(
    nodes: Seq<Node<S>>,
    cfg: Cfg,
    sd: StateDict,
    tokens: Seq<usize>,
    pos: int,
    keys: Seq<Seq<Seq<Value>>>,
    values: Seq<Seq<Seq<Value>>>,
    t: StepTrace,
) -> bool {
    &&& is_token_trace(nodes, cfg, sd, tokens[pos] as int, pos, keys, values, t.token)
    &&& is_softmax_nodes(nodes, t.token.logits, t.probs)
    &&& is_log_node(nodes, t.probs[tokens[pos + 1] as int], t.log)
    &&& is_neg_node(nodes, t.log, t.loss)
}

/// The equations of the first positions of a document: each attends to those before it.
pub open spec fn are_step_traces<S: Scalar>(
    nodes: Seq<Node<S>>,
    cfg: Cfg,
    sd: StateDict,
    tokens: Seq<usize>,
    steps: Seq<StepTrace>,
) -> bool {
    forall|pos: int|
        0 <= pos < steps.len() ==> is_step_trace(
            nodes,
            cfg,
            sd,
            tokens,
            pos,
            past_keys(cfg, toks_of(steps), pos),
            past_values(cfg, toks_of(steps), pos),
            #[trigger] steps[pos],
        )
}

/// The losses of the positions.
pub open spec fn losses_of(steps: Seq<StepTrace>) -> Seq<Value> {
    Seq::new(steps.len(), |pos: int| steps[pos].loss)
}

/// `r` is one over `n`.
pub open spec fn is_share<S: Scalar>(n: nat, r: S) -> bool {
    exists|one: S, num: S|
        is_one(one) && is_num(n as u64, num) && #[trigger] is_quot(one, num, r)
}

/// `loss` is the mean loss of the first `n` positions of a document.
pub open spec fn is_document_loss<S: Scalar>(
    nodes: Seq<Node<S>>,
    cfg: Cfg,
    sd: StateDict,
    tokens: Seq<usize>,
    n: nat,
    loss: Value,
) -> bool {
    exists|steps: Seq<StepTrace>, total: Value, share: S| #[trigger]
        is_document_loss_by(nodes, cfg, sd, tokens, n, loss, steps, total, share)
}

/// [`is_document_loss`], with the positions, the sum of their losses, and one over `n`.
pub open spec fn is_document_loss_by<S: Scalar>(
    nodes: Seq<Node<S>>,
    cfg: Cfg,
    sd: StateDict,
    tokens: Seq<usize>,
    n: nat,
    loss: Value,
    steps: Seq<StepTrace>,
    total: Value,
    share: S,
) -> bool {
    &&& steps.len() == n
    &&& are_step_traces(nodes, cfg, sd, tokens, steps)
    &&& is_sum_node(nodes, losses_of(steps), total)
    &&& is_share(n, share)
    &&& is_mul_const(nodes, total, share, loss)
}

/// The positions of a document that are trained on: as many as the context holds.
pub open spec fn trained(cfg: Cfg, tokens: Seq<usize>) -> nat {
    if cfg.block_size < tokens.len() - 1 {
        cfg.block_size as nat
    } else {
        (tokens.len() - 1) as nat
    }
}

/// The nodes of the `t`-th position of a document.
pub open spec fn step_cost(cfg: Cfg, vocab: int, t: int) -> int {
    token_cost(cfg, vocab, t) + 4 * vocab + 1
}

/// The nodes of the first `n` positions.
pub open spec fn steps_cost(cfg: Cfg, vocab: int, n: int) -> int
    decreases n,
{
    if n <= 0 {
        0
    } else {
        steps_cost(cfg, vocab, n - 1) + step_cost(cfg, vocab, n)
    }
}

/// The nodes of a document: its positions, their sum and the mean.
pub open spec fn document_cost(cfg: Cfg, vocab: int, n: int) -> int {
    steps_cost(cfg, vocab, n) + n
}

/// Whether the tokens can be trained on: there is one to predict, all of them are in the
/// vocabulary, and the context holds at least one.
pub open spec fn is_document(cfg: Cfg, vocab: int, tokens: Seq<usize>) -> bool {
    &&& cfg.block_size > 0
    &&& tokens.len() >= 2
    &&& forall|i: int| 0 <= i < tokens.len() ==> #[trigger] tokens[i] < vocab
}

/// More positions need no fewer nodes.
pub proof fn lemma_steps_cost_grows(cfg: Cfg, vocab: int, a: int, b: int)
    requires
        cfg.has_heads(),
        vocab >= 0,
        0 <= a <= b,
    ensures
        0 <= steps_cost(cfg, vocab, a) <= steps_cost(cfg, vocab, b),
    decreases b,
{
    if a < b {
        lemma_steps_cost_grows(cfg, vocab, a, b - 1);
        lemma_token_costs(cfg, vocab, b);
    } else if b > 0 {
        lemma_steps_cost_grows(cfg, vocab, a - 1, b - 1);
        lemma_token_costs(cfg, vocab, b);
    }
}

/// A position's numbers stay what they are when the tape grows.
proof fn lemma_step_extends<S: Scalar>(
    nodes: Seq<Node<S>>,
    later: Seq<Node<S>>,
    cfg: Cfg,
    sd: StateDict,
    tokens: Seq<usize>,
    pos: int,
    keys: Seq<Seq<Seq<Value>>>,
    values: Seq<Seq<Seq<Value>>>,
    t: StepTrace,
)
    requires
        extends(nodes, later),
        is_step_trace(nodes, cfg, sd, tokens, pos, keys, values, t),
    ensures
        is_step_trace(later, cfg, sd, tokens, pos, keys, values, t),
{
    reveal(is_step_trace);
    lemma_token_extends(nodes, later, cfg, sd, tokens[pos] as int, pos, keys, values, t.token);
    lemma_softmax_extends(nodes, later, t.token.logits, t.probs);
}

/// The positions stay what they are when the tape grows.
proof fn lemma_steps_extend<S: Scalar>(
    nodes: Seq<Node<S>>,
    later: Seq<Node<S>>,
    cfg: Cfg,
    sd: StateDict,
    tokens: Seq<usize>,
    steps: Seq<StepTrace>,
)
    requires
        extends(nodes, later),
        are_step_traces(nodes, cfg, sd, tokens, steps),
    ensures
        are_step_traces(later, cfg, sd, tokens, steps),
{
    assert forall|pos: int| 0 <= pos < steps.len() implies is_step_trace(
        later,
        cfg,
        sd,
        tokens,
        pos,
        past_keys(cfg, toks_of(steps), pos),
        past_values(cfg, toks_of(steps), pos),
        #[trigger] steps[pos],
    ) by {
        lemma_step_extends(
            nodes,
            later,
            cfg,
            sd,
            tokens,
            pos,
            past_keys(cfg, toks_of(steps), pos),
            past_values(cfg, toks_of(steps), pos),
            steps[pos],
        );
    }
}

/// One more position.
proof fn lemma_steps_push<S: Scalar>(
    nodes: Seq<Node<S>>,
    cfg: Cfg,
    sd: StateDict,
    tokens: Seq<usize>,
    steps: Seq<StepTrace>,
    own: StepTrace,
)
    requires
        are_step_traces(nodes, cfg, sd, tokens, steps),
        is_step_trace(
            nodes,
            cfg,
            sd,
            tokens,
            steps.len() as int,
            past_keys(cfg, toks_of(steps), steps.len() as int),
            past_values(cfg, toks_of(steps), steps.len() as int),
            own,
        ),
    ensures
        are_step_traces(nodes, cfg, sd, tokens, steps.push(own)),
{
    let longer = steps.push(own);
    assert forall|pos: int| 0 <= pos < longer.len() implies is_step_trace(
        nodes,
        cfg,
        sd,
        tokens,
        pos,
        past_keys(cfg, toks_of(longer), pos),
        past_values(cfg, toks_of(longer), pos),
        #[trigger] longer[pos],
    ) by {
        lemma_past_kept(cfg, toks_of(steps), toks_of(longer), pos);
        if pos < steps.len() {
            assert(longer[pos] == steps[pos]);
        }
    }
}

/// The loss of one position.
fn step_loss<S: Scalar>(
    tape: &mut Tape<S>,
    cfg: &Cfg,
    sd: &StateDict,
    vocab: usize,
    tokens: &Vec<usize>,
    pos: usize,
    keys: &mut Vec<Vec<Vec<Value>>>,
    values: &mut Vec<Vec<Vec<Value>>>,
) -> (loss: Value)
    requires
        old(tape).wf(),
        cfg.runnable(),
        state_on(old(tape).nodes@, *sd, *cfg, vocab as int),
        is_document(*cfg, vocab as int, tokens@),
        pos < cfg.block_size,
        pos + 1 < tokens@.len(),
        cached(cache_of(old(keys)@)) == pos,
        cache_on(old(tape).nodes@, cache_of(old(keys)@), *cfg, pos as nat),
        cache_on(old(tape).nodes@, cache_of(old(values)@), *cfg, pos as nat),
        old(tape).nodes@.len() + step_cost(*cfg, vocab as int, pos + 1) <= max_nodes(),
    ensures
        final(tape).wf(),
        extends(old(tape).nodes@, final(tape).nodes@),
        final(tape).nodes@.len() == old(tape).nodes@.len() + step_cost(
            *cfg,
            vocab as int,
            pos + 1,
        ),
        cache_on(final(tape).nodes@, cache_of(final(keys)@), *cfg, pos as nat + 1),
        cache_on(final(tape).nodes@, cache_of(final(values)@), *cfg, pos as nat + 1),
        on(final(tape).nodes@, loss),
        exists|t: StepTrace| #[trigger]
            is_step_trace(
                final(tape).nodes@,
                *cfg,
                *sd,
                tokens@,
                pos as int,
                cache_of(old(keys)@),
                cache_of(old(values)@),
                t,
            ) && t.loss == loss && t.token.layers.len() == cfg.n_layer && keys_grow(
                cache_of(old(keys)@),
                cache_of(final(keys)@),
                t.token.layers,
            ) && values_grow(
                cache_of(old(values)@),
                cache_of(final(values)@),
                t.token.layers,
            ),
        follows(
            old(tape).nodes@,
            final(tape).nodes@,
            position_ops(
                old(tape).nodes@.len() as int,
                *cfg,
                vocab as nat,
                *sd,
                tokens@,
                pos as int,
                cache_of(old(keys)@),
                cache_of(old(values)@),
            ),
        ),
        loss == at(final(tape).nodes@.len() - 1),
        cache_grows(
            cache_of(old(keys)@),
            cache_of(final(keys)@),
            |li: int| key_at(old(tape).nodes@.len() as int, *cfg, pos as nat + 1, li),
        ),
        cache_grows(
            cache_of(old(values)@),
            cache_of(final(values)@),
            |li: int| value_at(old(tape).nodes@.len() as int, *cfg, pos as nat + 1, li),
        ),
{
    let ghost n0 = tape.nodes@;
    let ghost (k0, v0) = (cache_of(keys@), cache_of(values@));
    assert(tokens@[pos as int] < vocab && tokens@[pos + 1] < vocab);
    let token_id: usize = tokens[pos];
    let target_id: usize = tokens[pos + 1];
    let logits: Vec<Value> = gpt(tape, cfg, sd, vocab, token_id, pos, keys, values);
    let ghost n1 = tape.nodes@;
    let ghost (k1, v1) = (cache_of(keys@), cache_of(values@));
    let probs: Vec<Value> = softmax(tape, &logits);
    let ghost n2 = tape.nodes@;
    assert(on(n2, probs@[target_id as int]));
    let log: Value = probs[target_id].log(tape);
    let ghost n3 = tape.nodes@;
    let loss: Value = log.neg(tape);
    proof {
        let end = tape.nodes@;
        let token = choose|token: TokenTrace| #[trigger]
            is_token_trace(
                n1,
                *cfg,
                *sd,
                token_id as int,
                pos as int,
                k0,
                v0,
                token,
            ) && token.logits == logits@ && keys_grow(k0, k1, token.layers) && values_grow(
                v0,
                v1,
                token.layers,
            );
        let own = StepTrace { token, probs: probs@, log, loss };
        assert(token.layers.len() == cfg.n_layer) by {
            reveal(is_token_trace);
        }
        assert(is_step_trace(end, *cfg, *sd, tokens@, pos as int, k0, v0, own)) by {
            reveal(is_step_trace);
            lemma_token_extends(
                n1,
                end,
                *cfg,
                *sd,
                token_id as int,
                pos as int,
                k0,
                v0,
                token,
            );
            lemma_softmax_extends(n2, end, logits@, probs@);
        }
        lemma_cache_extends(n1, end, k1, *cfg, pos as nat + 1);
        lemma_cache_extends(n1, end, v1, *cfg, pos as nat + 1);
        let first = token_ops(
            n0.len() as int,
            *cfg,
            *sd,
            token_id as int,
            pos as int,
            k0,
            v0,
            pos as nat + 1,
        );
        let shares = softmax_ops(n1.len() as int, logits@);
        let logged = shares.push(Op::Log(probs@[target_id as int]));
        lemma_follows_push(n1, n2, n3, shares, Op::Log(probs@[target_id as int]), log);
        lemma_follows_push(n1, n3, end, logged, Op::Neg(log), loss);
        lemma_follows_append(n0, n1, end, first, logged.push(Op::Neg(log)));
        reveal(position_ops);
    }
    loss
}

/// A cache for each layer, without any position yet.
pub fn empty_cache(n_layer: usize) -> (cache: Vec<Vec<Vec<Value>>>)
    ensures
        cache@.len() == n_layer,
        forall|li: int| 0 <= li < n_layer ==> (#[trigger] cache@[li])@.len() == 0,
{
    let mut cache: Vec<Vec<Vec<Value>>> = Vec::new();
    for li in 0..n_layer
        invariant
            cache@.len() == li,
            forall|i: int| 0 <= i < li ==> (#[trigger] cache@[i])@.len() == 0,
    {
        cache.push(Vec::new());
    }
    cache
}

/// The mean loss of a document, as a node.
#[verifier::rlimit(40)]
pub fn document_loss<S: Scalar>(
    tape: &mut Tape<S>,
    cfg: &Cfg,
    sd: &StateDict,
    vocab: usize,
    tokens: &Vec<usize>,
) -> (loss: Value)
    requires
        old(tape).wf(),
        cfg.runnable(),
        state_on(old(tape).nodes@, *sd, *cfg, vocab as int),
        is_document(*cfg, vocab as int, tokens@),
        old(tape).nodes@.len() + document_cost(
            *cfg,
            vocab as int,
            trained(*cfg, tokens@) as int,
        ) <= max_nodes(),
    ensures
        final(tape).wf(),
        extends(old(tape).nodes@, final(tape).nodes@),
        final(tape).nodes@.len() == old(tape).nodes@.len() + document_cost(
            *cfg,
            vocab as int,
            trained(*cfg, tokens@) as int,
        ),
        on(final(tape).nodes@, loss),
        is_document_loss(
            final(tape).nodes@,
            *cfg,
            *sd,
            tokens@,
            trained(*cfg, tokens@),
            loss,
        ),
        follows(
            old(tape).nodes@,
            final(tape).nodes@,
            document_ops(
                old(tape).nodes@.len() as int,
                *cfg,
                vocab as nat,
                *sd,
                tokens@,
                trained(*cfg, tokens@),
            ),
        ),
        loss == at(final(tape).nodes@.len() - 1),
{
    let ghost n0 = tape.nodes@;
    let ghost v = vocab as int;
    let ghost from = n0.len() as int;
    let ghost starts = step_starts(from, *cfg, v);
    proof {
        lemma_follows_none(n0);
    }
    let len: usize = tokens.len() - 1;
    let n: usize = if cfg.block_size < len {
        cfg.block_size
    } else {
        len
    };
    let mut keys: Vec<Vec<Vec<Value>>> = empty_cache(cfg.n_layer);
    let mut values: Vec<Vec<Vec<Value>>> = empty_cache(cfg.n_layer);
    let mut losses: Vec<Value> = Vec::new();
    let ghost mut steps: Seq<StepTrace> = Seq::empty();
    proof {
        assert(cache_of(keys@) =~~= past_keys(*cfg, toks_of(steps), 0));
        assert(cache_of(values@) =~~= past_values(*cfg, toks_of(steps), 0));
        assert(cache_of(keys@) =~~= keys_at(*cfg, starts, 0));
        assert(cache_of(values@) =~~= values_at(*cfg, starts, 0));
    }
    for pos in 0..n
        invariant
            tape.wf(),
            cfg.runnable(),
            v == vocab,
            state_on(n0, *sd, *cfg, v),
            is_document(*cfg, v, tokens@),
            n <= cfg.block_size,
            n + 1 <= tokens@.len(),
            n0.len() + document_cost(*cfg, v, n as int) <= max_nodes(),
            extends(n0, tape.nodes@),
            tape.nodes@.len() == n0.len() + steps_cost(*cfg, v, pos as int),
            cache_on(tape.nodes@, cache_of(keys@), *cfg, pos as nat),
            cache_on(tape.nodes@, cache_of(values@), *cfg, pos as nat),
            steps.len() == pos,
            cache_of(keys@) == past_keys(*cfg, toks_of(steps), pos as int),
            cache_of(values@) == past_values(*cfg, toks_of(steps), pos as int),
            are_step_traces(tape.nodes@, *cfg, *sd, tokens@, steps),
            losses@ == losses_of(steps),
            all_on(tape.nodes@, losses@),
            from == n0.len(),
            starts == step_starts(from, *cfg, v),
            follows(
                n0,
                tape.nodes@,
                steps_ops(from, *cfg, vocab as nat, *sd, tokens@, pos as int),
            ),
            cache_of(keys@) == keys_at(*cfg, starts, pos as nat),
            cache_of(values@) == values_at(*cfg, starts, pos as nat),
            losses@ == losses_at(from, *cfg, v, pos as nat),
    {
        let ghost before = tape.nodes@;
        let ghost (k0, v0) = (cache_of(keys@), cache_of(values@));
        proof {
            lemma_steps_cost_grows(*cfg, v, pos + 1, n as int);
            lemma_state_extends(n0, before, *sd, *cfg, v);
            assert(k0[0].len() == pos);
        }
        let loss: Value = step_loss(
            tape,
            cfg,
            sd,
            vocab,
            tokens,
            pos,
            &mut keys,
            &mut values,
        );
        losses.push(loss);
        proof {
            let end = tape.nodes@;
            let (k1, v1) = (cache_of(keys@), cache_of(values@));
            let own = choose|t: StepTrace| #[trigger]
                is_step_trace(end, *cfg, *sd, tokens@, pos as int, k0, v0, t) && t.loss == loss
                    && t.token.layers.len() == cfg.n_layer && keys_grow(k0, k1, t.token.layers)
                    && values_grow(v0, v1, t.token.layers);
            lemma_steps_extend(before, end, *cfg, *sd, tokens@, steps);
            lemma_steps_push(end, *cfg, *sd, tokens@, steps, own);
            lemma_past_grows(*cfg, toks_of(steps), own.token, k1, v1);
            assert(toks_of(steps.push(own)) =~= toks_of(steps).push(own.token));
            assert(losses_of(steps.push(own)) =~= losses_of(steps).push(loss));
            steps = steps.push(own);
            lemma_keys_grow(
                *cfg,
                starts,
                pos as nat,
                k1,
                |li: int| key_at(before.len() as int, *cfg, pos as nat + 1, li),
            );
            lemma_values_grow(
                *cfg,
                starts,
                pos as nat,
                v1,
                |li: int| value_at(before.len() as int, *cfg, pos as nat + 1, li),
            );
            lemma_follows_append(
                n0,
                before,
                end,
                steps_ops(from, *cfg, vocab as nat, *sd, tokens@, pos as int),
                step_ops(from, *cfg, vocab as nat, *sd, tokens@, pos as int),
            );
            assert(losses_at(from, *cfg, v, pos as nat + 1) =~= losses_at(
                from,
                *cfg,
                v,
                pos as nat,
            ).push(loss));
        }
    }
    let ghost n1 = tape.nodes@;
    let total: Value = sum(tape, &losses);
    let ghost n2 = tape.nodes@;
    let one: S = S::one();
    let num: S = S::from_u64(n as u64);
    let share: S = one.div(num);
    let loss: Value = total.mul_const(tape, share);
    proof {
        let end = tape.nodes@;
        lemma_steps_extend(n1, end, *cfg, *sd, tokens@, steps);
        lemma_sum_extends(n2, end, losses@, total);
        assert(is_share(n as nat, share));
        assert(is_document_loss_by(
            end,
            *cfg,
            *sd,
            tokens@,
            n as nat,
            loss,
            steps,
            total,
            share,
        ));
        let sums = sum_ops(n1.len() as int, losses@, n as int);
        assert(is_mul_const(end, total, share, loss));
        assert(is_mul_share(end, total, n as nat, loss));
        lemma_follows_push(n1, n2, end, sums, Op::MulShare(total, n as nat), loss);
        lemma_follows_append(
            n0,
            n1,
            end,
            steps_ops(from, *cfg, vocab as nat, *sd, tokens@, n as int),
            sums.push(Op::MulShare(total, n as nat)),
        );
    }
    loss
}

/// The moments that the optimizer keeps of the parameters.
pub struct Buffers<S> {
    pub m: Vec<S>,
    pub v: Vec<S>,
}

impl<S: Scalar> Buffers<S> {
    /// Whether there is a pair of moments for each of `n` parameters.
    pub open spec fn holds(&self, n: nat) -> bool {
        self.m@.len() == n && self.v@.len() == n
    }

    /// Parameter `i` of `nodes` with its moments.
    pub open spec fn moments(&self, nodes: Seq<Node<S>>, i: int) -> Moments<S> {
        Moments { p: nodes[i].data, m: self.m@[i], v: self.v@[i] }
    }

    /// Moments of `n` parameters, all zero.
    pub fn new(n: usize) -> (b: Buffers<S>)
        ensures
            b.holds(n as nat),
            forall|i: int| 0 <= i < n ==> is_zero(#[trigger] b.m@[i]),
            forall|i: int| 0 <= i < n ==> is_zero(#[trigger] b.v@[i]),
    {
        let mut m: Vec<S> = Vec::new();
        let mut v: Vec<S> = Vec::new();
        for i in 0..n
            invariant
                m@.len() == i,
                v@.len() == i,
                forall|k: int| 0 <= k < i ==> is_zero(#[trigger] m@[k]),
                forall|k: int| 0 <= k < i ==> is_zero(#[trigger] v@[k]),
        {
            m.push(S::zero());
            v.push(S::zero());
        }
        Buffers { m, v }
    }
}

/// `after` is node `before` with its number replaced and its gradient taken out.
pub open spec fn is_consumed<S: Scalar>(before: Node<S>, after: Node<S>) -> bool {
    &&& is_zero(after.grad)
    &&& after.left == before.left
    &&& after.right == before.right
}

/// What a step of the optimizer makes of the first `n` nodes, the parameters: it uses up
/// their gradients. The other nodes are left alone.
pub open spec fn is_tape_adam<S: Scalar>(
    n: int,
    step: nat,
    lr: S,
    before: Seq<Node<S>>,
    b: Buffers<S>,
    after: Seq<Node<S>>,
    a: Buffers<S>,
) -> bool {
    &&& after.len() == before.len()
    &&& a.m@.len() == b.m@.len()
    &&& a.v@.len() == b.v@.len()
    &&& forall|i: int|
        0 <= i < n ==> is_adam(
            step,
            lr,
            before[i].grad,
            b.moments(before, i),
            a.moments(after, i),
        ) && is_consumed(before[i], #[trigger] after[i])
    &&& forall|i: int| n <= i < before.len() ==> #[trigger] after[i] == before[i]
}

/// Updates the first `n` nodes, the parameters, and takes out their gradients.
pub fn tape_adam<S: Scalar>(
    tape: &mut Tape<S>,
    buffers: &mut Buffers<S>,
    n: usize,
    step: usize,
    lr: S,
)
    requires
        old(tape).wf(),
        n <= old(tape).nodes@.len(),
        old(buffers).holds(n as nat),
        step < i32::MAX,
    ensures
        final(tape).wf(),
        final(buffers).holds(n as nat),
        is_tape_adam(
            n as int,
            step as nat,
            lr,
            old(tape).nodes@,
            *old(buffers),
            final(tape).nodes@,
            *final(buffers),
        ),
{
    let ghost nodes = tape.nodes@;
    let ghost b = *buffers;
    for i in 0..n
        invariant
            n <= nodes.len(),
            tape.nodes@.len() == nodes.len(),
            b.holds(n as nat),
            buffers.holds(n as nat),
            step < i32::MAX,
            forall|k: int|
                0 <= k < i ==> is_adam(
                    step as nat,
                    lr,
                    nodes[k].grad,
                    b.moments(nodes, k),
                    buffers.moments(tape.nodes@, k),
                ) && is_consumed(nodes[k], #[trigger] tape.nodes@[k]),
            forall|k: int| i <= k < nodes.len() ==> #[trigger] tape.nodes@[k] == nodes[k],
            forall|k: int| i <= k < n ==> #[trigger] buffers.m@[k] == b.m@[k],
            forall|k: int| i <= k < n ==> #[trigger] buffers.v@[k] == b.v@[k],
    {
        let ghost (kept, old_nodes) = (*buffers, tape.nodes@);
        let mut node: Node<S> = tape.nodes[i];
        let after: Moments<S> = adam_step(
            step,
            lr,
            node.grad,
            Moments { p: node.data, m: buffers.m[i], v: buffers.v[i] },
        );
        node.data = after.p;
        node.grad = S::zero();
        tape.nodes[i] = node;
        buffers.m[i] = after.m;
        buffers.v[i] = after.v;
        proof {
            assert forall|k: int| 0 <= k < i + 1 implies is_adam(
                step as nat,
                lr,
                nodes[k].grad,
                b.moments(nodes, k),
                buffers.moments(tape.nodes@, k),
            ) && is_consumed(nodes[k], #[trigger] tape.nodes@[k]) by {
                if k < i {
                    assert(tape.nodes@[k] == old_nodes[k]);
                    assert(buffers.moments(tape.nodes@, k) == kept.moments(old_nodes, k));
                }
            }
        }
    }
    proof {
        assert forall|j: int| 0 <= j < tape.nodes@.len() implies stands_before(
            (#[trigger] tape.nodes@[j]).left,
            j,
        ) && stands_before(tape.nodes@[j].right, j) by {
            assert(stands_before(nodes[j].left, j) && stands_before(
                nodes[j].right,
                j,
            ));
        }
    }
}

/// Whether the nodes are parameters between two steps: without operands, and without
/// gradients.
pub open spec fn at_rest<S: Scalar>(nodes: Seq<Node<S>>) -> bool {
    forall|i: int|
        0 <= i < nodes.len() ==> (#[trigger] nodes[i]).left is None && nodes[i].right is None
            && is_zero(nodes[i].grad)
}

/// What one step goes through: the tape with the graph of the loss, that tape with the
/// gradients, the learning rate, and the tape after the optimizer.
pub struct TrainTrace<S> {
    pub graph: Seq<Node<S>>,
    pub loss: Value,
    pub pulled: Seq<Node<S>>,
    pub base: S,
    pub lr: S,
    pub updated: Seq<Node<S>>,
}

/// One training step on a document: the loss, its gradients, the update of the parameters
/// `before`; the graph is gone afterwards.
pub open spec fn is_tape_train_step<S: Scalar>(
    cfg: Cfg,
    sd: StateDict,
    tokens: Seq<usize>,
    step: nat,
    before: Seq<Node<S>>,
    b: Buffers<S>,
    after: Seq<Node<S>>,
    a: Buffers<S>,
    loss_data: S,
    t: TrainTrace<S>,
) -> bool {
    &&& extends(before, t.graph)
    &&& follows(
        before,
        t.graph,
        document_ops(
            before.len() as int,
            cfg,
            sd.wte@.len(),
            sd,
            tokens,
            trained(cfg, tokens),
        ),
    )
    &&& t.loss == at(t.graph.len() - 1)
    &&& is_document_loss(t.graph, cfg, sd, tokens, trained(cfg, tokens), t.loss)
    &&& loss_data == data_of(t.graph, t.loss)
    &&& same_graph(t.graph, t.pulled)
    &&& is_tape_backward(t.graph, t.loss.idx as int, grads_of(t.graph), grads_of(t.pulled))
    &&& is_ratio(cfg.learning_rate.num, cfg.learning_rate.den, t.base)
    &&& is_decayed_rate(t.base, step, cfg.num_steps as nat, t.lr)
    &&& is_tape_adam(before.len() as int, step, t.lr, t.pulled, b, t.updated, a)
    &&& after == t.updated.take(before.len() as int)
}

/// Trains on one document and returns its loss. The tape holds the parameters and nothing
/// else, before and after.
pub fn tape_train_step<S: Scalar>(
    tape: &mut Tape<S>,
    buffers: &mut Buffers<S>,
    cfg: &Cfg,
    sd: &StateDict,
    vocab: usize,
    tokens: &Vec<usize>,
    step: usize,
) -> (loss_data: S)
    requires
        old(tape).wf(),
        cfg.runnable(),
        sd.stands(0, *cfg, vocab as int),
        param_count(*cfg, vocab as int) == old(tape).nodes@.len(),
        old(buffers).holds(old(tape).nodes@.len()),
        is_document(*cfg, vocab as int, tokens@),
        step < i32::MAX,
        old(tape).nodes@.len() + document_cost(
            *cfg,
            vocab as int,
            trained(*cfg, tokens@) as int,
        ) <= max_nodes(),
    ensures
        final(tape).wf(),
        final(tape).nodes@.len() == old(tape).nodes@.len(),
        final(buffers).holds(final(tape).nodes@.len()),
        at_rest(old(tape).nodes@) ==> at_rest(final(tape).nodes@),
        exists|t: TrainTrace<S>| #[trigger]
            is_tape_train_step(
                *cfg,
                *sd,
                tokens@,
                step as nat,
                old(tape).nodes@,
                *old(buffers),
                final(tape).nodes@,
                *final(buffers),
                loss_data,
                t,
            ),
{
    let ghost before = tape.nodes@;
    let ghost b = *buffers;
    let num_params: usize = tape.len();
    proof {
        lemma_state_on(before, *sd, 0, *cfg, vocab as int);
    }
    let loss: Value = document_loss(tape, cfg, sd, vocab, tokens);
    let ghost graph = tape.nodes@;
    let loss_data: S = loss.data(tape);
    tape.backward(loss);
    let ghost pulled = tape.nodes@;
    let base: S = S::ratio(cfg.learning_rate.num, cfg.learning_rate.den);
    let lr: S = decayed_rate(base, step, cfg.num_steps);
    tape_adam(tape, buffers, num_params, step, lr);
    let ghost updated = tape.nodes@;
    tape.truncate(num_params);
    proof {
        let t = TrainTrace { graph, loss, pulled, base, lr, updated };
        assert(is_tape_train_step(
            *cfg,
            *sd,
            tokens@,
            step as nat,
            before,
            b,
            tape.nodes@,
            *buffers,
            loss_data,
            t,
        ));
        if at_rest(before) {
            assert forall|i: int| 0 <= i < tape.nodes@.len() implies (
            #[trigger] tape.nodes@[i]).left is None && tape.nodes@[i].right is None && is_zero(
                tape.nodes@[i].grad,
            ) by {
                assert(before[i].left is None && before[i].right is None);
                assert(graph[i] == before[i]);
                assert(pulled[i].left == graph[i].left && pulled[i].right == graph[i].right);
                assert(is_consumed(pulled[i], updated[i]));
            }
        }
    }
    loss_data
}

} // verus!
