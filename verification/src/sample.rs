//! Sampling new documents from a trained model.
use vstd::prelude::*;

use crate::bank::Mem;
use crate::layout::{Cfg, Ratio};
use crate::model::{keeps_training, Model};
use crate::network::{is_forward, values_of, weights_of, Values, Weights};
use crate::reduce::{is_max_of, max_of};
use crate::rng::{advance, is_choice, lemma_advance_adds, unit_bits, Rng};
use crate::rows::{row_of, RowRunner};
use crate::scalar::{is_cast, is_diff, is_exp, is_quot, is_ratio, Cast, Scalar};
use crate::shape::{Shape, PARAMS};

verus! {

/// `w` is the weight of the logit `l`: `exp((l - shift) / temperature)`, in the wide type.
pub open spec fn is_weight<S: Cast<W>, W: Scalar>(l: S, shift: W, temperature: W, w: W) -> bool {
    exists|wide: W, diff: W, scaled: W|
        #![trigger is_diff(wide, shift, diff), is_quot(diff, temperature, scaled)]
        is_cast(l, wide) && is_diff(wide, shift, diff) && is_quot(diff, temperature, scaled)
            && is_exp(scaled, w)
}

/// `weights` are the weights of `logits`, the largest of which is the shift.
pub open spec fn is_weights<S: Cast<W>, W: Scalar>(
    logits: Seq<S>,
    temperature: Ratio,
    weights: Seq<W>,
) -> bool {
    exists|top: S, shift: W, t: W| #[trigger] is_weights_by(logits, temperature, weights, top, shift, t)
}

/// [`is_weights`], with the largest logit and the temperature.
pub open spec fn is_weights_by<S: Cast<W>, W: Scalar>(
    logits: Seq<S>,
    temperature: Ratio,
    weights: Seq<W>,
    top: S,
    shift: W,
    t: W,
) -> bool {
    &&& is_max_of(logits, top)
    &&& is_cast(top, shift)
    &&& is_ratio(temperature.num, temperature.den, t)
    &&& weights.len() == logits.len()
    &&& forall|i: int|
        0 <= i < logits.len() ==> is_weight(logits[i], shift, t, #[trigger] weights[i])
}

/// `k` is the token that a generator in state `state` picks given `logits`.
pub open spec fn is_drawn<S: Cast<W>, W: Scalar>(
    logits: Seq<S>,
    temperature: Ratio,
    state: u64,
    k: int,
) -> bool {
    exists|weights: Seq<W>| #[trigger]
        is_weights(logits, temperature, weights) && is_choice(weights, unit_bits(state, 0), k)
}

/// The weights of `logits` at a temperature: the lower it is, the more the largest logit
/// stands out.
pub fn weights_of_logits<S: Cast<W>, W: Scalar>(logits: &[S], temperature: Ratio) -> (weights: Vec<
    W,
>)
    ensures
        is_weights(logits@, temperature, weights@),
{
    assert(logits@.take(logits@.len() as int) =~= logits@);
    let top: S = max_of(logits, logits.len());
    let shift: W = top.cast();
    let t: W = W::ratio(temperature.num, temperature.den);
    let mut weights: Vec<W> = Vec::new();
    for i in 0..logits.len()
        invariant
            weights@.len() == i,
            forall|k: int|
                0 <= k < i ==> is_weight(logits@[k], shift, t, #[trigger] weights@[k]),
    {
        let wide: W = logits[i].cast();
        let diff: W = wide.sub(shift);
        let scaled: W = diff.div(t);
        let w: W = scaled.exp();
        assert(is_weight(logits@[i as int], shift, t, w));
        weights.push(w);
    }
    assert(is_weights_by(logits@, temperature, weights@, top, shift, t));
    weights
}

/// Picks the next token, given the logits of the last position.
pub fn next_token<S: Cast<W>, W: Scalar>(
    rng: &mut Rng,
    logits: &[S],
    temperature: Ratio,
) -> (k: usize)
    requires
        logits@.len() > 0,
    ensures
        is_drawn::<S, W>(logits@, temperature, old(rng).0, k as int),
        k < logits@.len(),
        final(rng).0 == advance(old(rng).0, 1),
{
    let weights: Vec<W> = weights_of_logits(logits, temperature);
    rng.choices(weights.as_slice())
}

/// A document in the making: the tokens so far, with the mark in front.
pub struct Sampler {
    pub ctx: Vec<i32>,
    pub bos: usize,
    /// The most tokens to sample.
    pub limit: usize,
    /// Whether the end has been sampled.
    pub ended: bool,
}

impl Sampler {
    /// Whether the tokens are those of a document: the mark, then tokens below it.
    pub open spec fn wf(&self) -> bool {
        &&& 0 <= self.bos < i32::MAX
        &&& 1 <= self.ctx@.len() <= self.limit + 1
        &&& self.ctx@[0] == self.bos
        &&& forall|i: int| 0 < i < self.ctx@.len() ==> 0 <= #[trigger] self.ctx@[i] < self.bos
    }

    /// An empty document.
    pub fn new(bos: usize, limit: usize) -> (s: Sampler)
        requires
            bos < i32::MAX,
        ensures
            s.wf(),
            s.ctx@ == seq![bos as i32],
            s.bos == bos,
            s.limit == limit,
            !s.ended,
    {
        let mut ctx: Vec<i32> = Vec::new();
        ctx.push(bos as i32);
        Sampler { ctx, bos, limit, ended: false }
    }

    /// Whether another token is to be sampled.
    pub fn wants_more(&self) -> (more: bool)
        requires
            self.wf(),
        ensures
            more == (!self.ended && self.ctx@.len() <= self.limit),
    {
        !self.ended && self.ctx.len() - 1 < self.limit
    }

    /// Takes the sampled token `k`: the mark ends the document, any other token is appended.
    pub fn take(&mut self, k: usize)
        requires
            old(self).wf(),
            !old(self).ended,
            old(self).ctx@.len() <= old(self).limit,
            k <= old(self).bos,
        ensures
            final(self).wf(),
            final(self).bos == old(self).bos,
            final(self).limit == old(self).limit,
            final(self).ended == (k == old(self).bos),
            final(self).ctx@ == if k == old(self).bos {
                old(self).ctx@
            } else {
                old(self).ctx@.push(k as i32)
            },
    {
        if k == self.bos {
            self.ended = true;
        } else {
            self.ctx.push(k as i32);
        }
    }
}

/// `k` is the token that a model with the weights `w` and a generator in state `state` put
/// behind the context `ctx`.
pub open spec fn is_next<S: Cast<W>, W: Scalar>(
    cfg: Cfg,
    vocab: usize,
    w: Weights<S>,
    ctx: Seq<i32>,
    temperature: Ratio,
    state: u64,
    k: int,
) -> bool {
    let s = Shape { cfg, vocab, rows: ctx.len() as usize, t_len: ctx.len() as usize };
    exists|a: Values<S>| #[trigger]
        is_forward(s, w, ctx, a) && is_drawn::<S, W>(
            row_of(a.logits, vocab as nat, ctx.len() - 1),
            temperature,
            state,
            k,
        )
}

/// `ctx` is a document sampled from a model with the weights `w`, starting in state `seed`:
/// every token is the next one behind those before it.
pub open spec fn is_sampled<S: Cast<W>, W: Scalar>(
    cfg: Cfg,
    vocab: usize,
    w: Weights<S>,
    temperature: Ratio,
    seed: u64,
    ctx: Seq<i32>,
) -> bool {
    forall|i: int|
        1 <= i < ctx.len() ==> is_next::<S, W>(
            cfg,
            vocab,
            w,
            ctx.take(i),
            temperature,
            advance(seed, (i - 1) as nat),
            #[trigger] ctx[i] as int,
        )
}

/// `ctx` is a whole document sampled from a model with the weights `w`, starting in state
/// `seed`: it starts with the mark, and ends where the mark comes next or the context is full.
pub open spec fn is_complete<S: Cast<W>, W: Scalar>(
    cfg: Cfg,
    bos: usize,
    w: Weights<S>,
    temperature: Ratio,
    seed: u64,
    ctx: Seq<i32>,
) -> bool {
    let vocab = (bos + 1) as usize;
    &&& 1 <= ctx.len() <= cfg.block_size + 1
    &&& ctx[0] == bos
    &&& forall|i: int| 0 < i < ctx.len() ==> 0 <= #[trigger] ctx[i] < bos
    &&& is_sampled::<S, W>(cfg, vocab, w, temperature, seed, ctx)
    &&& ctx.len() == cfg.block_size + 1 || is_next::<S, W>(
        cfg,
        vocab,
        w,
        ctx,
        temperature,
        advance(seed, (ctx.len() - 1) as nat),
        bos as int,
    )
}

/// The last thing the model did was to forward `tokens`, as one document.
pub open spec fn has_run<S: Scalar>(model: Model<S>, tokens: Seq<i32>) -> bool {
    &&& model.ran()
    &&& model.rows == tokens.len()
    &&& model.t_len == tokens.len()
    &&& model.ran_tokens() == tokens
    &&& is_forward(
        model.shape(),
        weights_of(model.shape(), model.mem(), PARAMS as int),
        tokens,
        values_of(model.shape(), model.mem()),
    )
}

/// The matrices in a buffer do not depend on the run.
proof fn lemma_weights_of_model<S>(s: Shape, t: Shape, m: Mem<S>)
    requires
        s.cfg == t.cfg,
        s.vocab == t.vocab,
    ensures
        weights_of(s, m, PARAMS as int) == weights_of(t, m, PARAMS as int),
{
    assert(weights_of(s, m, PARAMS as int).layers =~= weights_of(t, m, PARAMS as int).layers);
}

/// Samples a document: starting from the mark, forwards all tokens so far, picks the next
/// one, and goes on until the mark comes or the context is full.
pub fn generate<S: Cast<W>, W: Scalar, R: RowRunner>(
    model: &mut Model<S>,
    runner: &R,
    rng: &mut Rng,
    bos: usize,
    temperature: Ratio,
) -> (ctx: Vec<i32>)
    requires
        old(model).wf(),
        old(model).cfg.runnable(),
        old(model).cfg.batch > 0,
        old(model).vocab == bos + 1,
        bos < i32::MAX,
    ensures
        final(model).wf(),
        keeps_training(*old(model), *final(model)),
        old(model).cfg.block_size == 0 ==> *final(model) == *old(model),
        is_complete::<S, W>(
            old(model).cfg,
            bos,
            weights_of(old(model).shape(), old(model).mem(), PARAMS as int),
            temperature,
            old(rng).0,
            ctx@,
        ),
        ctx@.len() == old(model).cfg.block_size + 1 && final(rng).0 == advance(
            old(rng).0,
            (ctx@.len() - 1) as nat,
        ) && (old(model).cfg.block_size > 0 ==> has_run(*final(model), ctx@.drop_last()))
            || is_next::<S, W>(
            old(model).cfg,
            old(model).vocab,
            weights_of(old(model).shape(), old(model).mem(), PARAMS as int),
            ctx@,
            temperature,
            advance(old(rng).0, (ctx@.len() - 1) as nat),
            bos as int,
        ) && final(rng).0 == advance(old(rng).0, ctx@.len()) && has_run(*final(model), ctx@),
{
    let ghost seed = rng.0;
    let ghost cfg = model.cfg;
    let ghost vocab = model.vocab;
    let ghost m0 = model.mem();
    let ghost w = weights_of(model.shape(), m0, PARAMS as int);
    let mut sampler: Sampler = Sampler::new(bos, model.cfg.block_size);
    proof {
        let (b, t) = (cfg.batch as int, cfg.block_size as int);
        assert(t <= b * t) by (nonlinear_arith)
            requires
                b >= 1,
                t >= 0,
        ;
        assert(advance(seed, 0) == seed);
    }
    while sampler.wants_more()
        invariant
            model.wf(),
            model.cfg == cfg,
            model.vocab == vocab == bos + 1,
            keeps_training(*old(model), *model),
            m0 == old(model).mem(),
            sampler.ctx@.len() == 1 && !sampler.ended ==> *model == *old(model),
            sampler.ctx@.len() > 1 && !sampler.ended ==> has_run(
                *model,
                sampler.ctx@.drop_last(),
            ),
            sampler.ended ==> has_run(*model, sampler.ctx@),
            cfg.runnable(),
            cfg.block_size <= cfg.batch * cfg.block_size,
            sampler.wf(),
            sampler.bos == bos,
            sampler.limit == cfg.block_size,
            w == weights_of(old(model).shape(), m0, PARAMS as int),
            old(model).cfg == cfg,
            old(model).vocab == vocab,
            is_sampled::<S, W>(cfg, vocab, w, temperature, seed, sampler.ctx@),
            if sampler.ended {
                is_next::<S, W>(
                    cfg,
                    vocab,
                    w,
                    sampler.ctx@,
                    temperature,
                    advance(seed, (sampler.ctx@.len() - 1) as nat),
                    bos as int,
                ) && rng.0 == advance(seed, sampler.ctx@.len())
            } else {
                rng.0 == advance(seed, (sampler.ctx@.len() - 1) as nat)
            },
        decreases
            if sampler.ended {
                0
            } else {
                cfg.block_size + 2 - sampler.ctx@.len()
            },
    {
        let ghost ctx = sampler.ctx@;
        let ghost n = ctx.len();
        let ghost m1 = model.mem();
        proof {
            vstd::arithmetic::div_mod::lemma_mod_self_0(n as int);
        }
        model.forward(runner, sampler.ctx.as_slice(), sampler.ctx.len());
        proof {
            lemma_weights_of_model(model.shape(), old(model).shape(), m1);
            lemma_same_params(old(model).shape(), m0, m1);
            model.shape().lemma_numbers();
            lemma_last_row(model.shape(), model.logits());
        }
        let logits: &[S] = model.last_logits();
        let k: usize = next_token::<S, W>(rng, logits, temperature);
        proof {
            let a = values_of(model.shape(), model.mem());
            assert(a.logits == model.logits());
            lemma_same_params(model.shape(), m1, model.mem());
            assert(has_run(*model, ctx));
            assert(is_forward(model.shape(), w, ctx, a));
            assert(is_next::<S, W>(
                cfg,
                vocab,
                w,
                ctx,
                temperature,
                advance(seed, (n - 1) as nat),
                k as int,
            ));
            lemma_advance_adds(seed, (n - 1) as nat, 1);
        }
        sampler.take(k);
        proof {
            if !sampler.ended {
                let longer = sampler.ctx@;
                assert(longer.drop_last() =~= ctx);
                assert forall|i: int| 1 <= i < longer.len() implies is_next::<S, W>(
                    cfg,
                    vocab,
                    w,
                    longer.take(i),
                    temperature,
                    advance(seed, (i - 1) as nat),
                    #[trigger] longer[i] as int,
                ) by {
                    if i < n {
                        assert(longer.take(i) =~= ctx.take(i));
                        assert(longer[i] == ctx[i]);
                    } else {
                        assert(longer.take(i) =~= ctx);
                    }
                }
            }
        }
    }
    sampler.ctx
}

/// The matrices of the parameters depend on nothing but that buffer.
proof fn lemma_same_params<S>(s: Shape, m: Mem<S>, other: Mem<S>)
    requires
        m[PARAMS as int] == other[PARAMS as int],
    ensures
        weights_of(s, m, PARAMS as int) == weights_of(s, other, PARAMS as int),
{
    assert(weights_of(s, m, PARAMS as int).layers =~= weights_of(s, other, PARAMS as int).layers);
}

/// The last row of logits has one for every token.
proof fn lemma_last_row<S>(s: Shape, logits: Seq<S>)
    requires
        s.ok(),
        s.rows > 0,
        logits.len() == s.rv(),
    ensures
        row_of(logits, s.vocab as nat, s.rows - 1).len() == s.vocab,
{
    crate::index::lemma_row_inside(s.rows - 1, s.rows as int, s.vocab as int);
}

} // verus!
