//! The whole model in ordinary memory: parameters, optimizer state, and every activation
//! and gradient that training needs.
use vstd::prelude::*;

use crate::adam::{adam_step, decayed_rate, is_adam, is_decayed_rate, Moments};
use crate::bank::{inside, launched, read, runs, Bank, Launch, Mem, Span};
use crate::batch::Batch;
use crate::gradient::{
    flow_of, is_backward, law_backward_plan_computes_gradients, of_backward, Flow,
};
use crate::index::lemma_row_inside;
use crate::layout::{param_count, Cfg, Layout};
use crate::loss::{count_valid, is_ce, is_mean_loss, mean_loss, valid_count, valid_targets};
use crate::matmul::zero_row;
use crate::network::{
    holds_branches, is_forward, law_forward_plan_computes_network, lemma_run_step, values_of,
    weights_of,
};
use crate::plan::{
    law_backward_plan_fits, law_forward_plan_fits, law_loss_plan_fits, loss_plan, run_tokens,
};
use crate::rows::{row_of, RowRunner};
use crate::scalar::{is_ratio, is_zero, Scalar};
use crate::scratch::{holds_flow, law_backward_plan_leaves_the_flow};
use crate::shape::{
    bank_lens, buf_count, buf_len, sizes_fit, Shape, GRADS, LOGITS, LOSSES, MAX_T, MLPO, PARAMS,
    PROBS, PROJ, R0, SHARED, X0, X1,
};
use crate::tails::{
    keeps_tails, law_backward_plan_keeps_the_rest, law_forward_plan_keeps_the_rest,
    law_loss_plan_keeps_the_rest, moves_tails,
};

verus! {

/// A model with the state of its training.
pub struct Model<S> {
    pub cfg: Cfg,
    pub vocab: usize,
    pub l: Layout,
    /// Positions per document of the last forward pass.
    pub t_len: usize,
    /// Rows of the last forward pass.
    pub rows: usize,
    /// Targets of the last loss that were no padding.
    pub valid: usize,
    pub adam_m: Vec<S>,
    pub adam_v: Vec<S>,
    pub tokens: Vec<i32>,
    pub targets: Vec<i32>,
    pub bank: Bank<S>,
}

impl<S: Scalar> Model<S> {
    /// The contents of the buffers.
    pub open spec fn mem(&self) -> Mem<S> {
        self.bank.mem()
    }

    /// The shape of the last run.
    pub open spec fn shape(&self) -> Shape {
        Shape { cfg: self.cfg, vocab: self.vocab, rows: self.rows, t_len: self.t_len }
    }

    /// The tokens of the last forward pass.
    pub open spec fn ran_tokens(&self) -> Seq<i32> {
        self.tokens@.take(self.rows as int)
    }

    /// The targets of the last loss.
    pub open spec fn ran_targets(&self) -> Seq<i32> {
        self.targets@.take(self.rows as int)
    }

    /// Whether everything has its size.
    pub open spec fn wf(&self) -> bool {
        &&& sizes_fit(self.cfg, self.vocab as int)
        &&& self.cfg.block_size <= MAX_T
        &&& self.l.stands(self.cfg, self.vocab as int)
        &&& self.bank.lens() == bank_lens(self.cfg, self.vocab as int)
        &&& self.adam_m@.len() == param_count(self.cfg, self.vocab as int)
        &&& self.adam_v@.len() == param_count(self.cfg, self.vocab as int)
        &&& self.tokens@.len() == self.cfg.batch * self.cfg.block_size
        &&& self.targets@.len() == self.cfg.batch * self.cfg.block_size
        &&& self.rows <= self.cfg.batch * self.cfg.block_size
    }

    /// Whether there has been a forward pass.
    pub open spec fn ran(&self) -> bool {
        &&& self.wf()
        &&& self.shape().ok()
        &&& run_tokens(self.shape(), self.ran_tokens())
    }

    /// A model with the given parameters, and zeros everywhere else.
    pub fn new(cfg: Cfg, vocab: usize, params: Vec<S>) -> (model: Model<S>)
        requires
            cfg.block_size <= MAX_T,
            sizes_fit(cfg, vocab as int),
            params@.len() == param_count(cfg, vocab as int),
        ensures
            model.wf(),
            model.cfg == cfg,
            model.vocab == vocab,
            model.t_len == 0,
            model.rows == 0,
            model.valid == 0,
            model.mem()[PARAMS as int] == params@,
            forall|b: int, i: int|
                0 < b < buf_count(cfg) && 0 <= i < model.mem()[b].len() ==> is_zero(
                    #[trigger] model.mem()[b][i],
                ),
            forall|i: int| 0 <= i < params@.len() ==> is_zero(#[trigger] model.adam_m@[i]),
            forall|i: int| 0 <= i < params@.len() ==> is_zero(#[trigger] model.adam_v@[i]),
            forall|i: int| 0 <= i < model.tokens@.len() ==> #[trigger] model.tokens@[i] == 0,
            forall|i: int| 0 <= i < model.targets@.len() ==> #[trigger] model.targets@[i] == 0,
    {
        let l: Layout = Layout::new(&cfg, vocab);
        let total: usize = l.total;
        let rows: usize = cfg.max_rows();
        let bank: Bank<S> = new_bank(cfg, vocab, params);
        Model {
            cfg,
            vocab,
            l,
            t_len: 0,
            rows: 0,
            valid: 0,
            adam_m: zero_row(total),
            adam_v: zero_row(total),
            tokens: zero_ids(rows),
            targets: zero_ids(rows),
            bank,
        }
    }

    /// The shape of the last run.
    fn run_shape(&self) -> (s: Shape)
        ensures
            s == self.shape(),
    {
        Shape { cfg: self.cfg, vocab: self.vocab, rows: self.rows, t_len: self.t_len }
    }

    /// Forwards `tokens`: documents of `t_len` positions each, one behind the other, short
    /// ones padded. The logits of all positions are left in the bank.
    pub fn forward<R: RowRunner>(&mut self, runner: &R, tokens: &[i32], t_len: usize)
        requires
            old(self).wf(),
            old(self).cfg.runnable(),
            old(self).vocab > 0,
            0 < t_len <= old(self).cfg.block_size,
            tokens@.len() % t_len as nat == 0,
            tokens@.len() <= old(self).cfg.batch * old(self).cfg.block_size,
            forall|r: int|
                0 <= r < tokens@.len() ==> 0 <= #[trigger] tokens@[r] < old(self).vocab,
        ensures
            final(self).ran(),
            forwarded(*old(self), *final(self), tokens@, t_len),
    {
        self.t_len = t_len;
        self.rows = tokens.len();
        copy_ids(&mut self.tokens, tokens);
        let s: Shape = self.run_shape();
        proof {
            assert(self.ran_tokens() =~= tokens@);
            law_forward_plan_fits(s, tokens@, self.targets@);
        }
        let plan: Vec<Launch> = s.forward_launches(&self.l);
        self.bank.run(runner, &plan, tokens, self.targets.as_slice());
        proof {
            let trace = choose|trace: Seq<Mem<S>>| #[trigger]
                runs(plan@, tokens@, self.targets@, trace) && trace[0] == old(self).mem()
                    && trace.last() == self.mem();
            law_forward_plan_computes_network(s, tokens@, self.targets@, trace);
            law_forward_plan_keeps_the_rest(s, tokens@, self.targets@, trace);
        }
    }

    /// Cross-entropy of the last forward pass against `targets`, averaged over the positions
    /// that are no padding. A negative target marks padding.
    pub fn loss<R: RowRunner>(&mut self, runner: &R, targets: &[i32]) -> (mean: S)
        requires
            old(self).ran(),
            targets@.len() == old(self).rows,
            valid_targets(targets@, old(self).vocab as int),
        ensures
            final(self).ran(),
            measured(*old(self), *final(self), targets@, mean),
    {
        let s: Shape = self.run_shape();
        let ghost m0 = self.mem();
        self.valid = valid_count(targets);
        copy_ids(&mut self.targets, targets);
        proof {
            law_loss_plan_fits(s, self.tokens@, targets@);
            s.lemma_numbers();
            assert(loss_plan(s)[0] == seq![loss_plan(s)[0]][0]);
        }
        let mut plan: Vec<Launch> = Vec::new();
        plan.push(s.loss_launch());
        assert(plan@ =~= loss_plan(s));
        self.bank.run(runner, &plan, self.tokens.as_slice(), targets);
        proof {
            let trace = choose|trace: Seq<Mem<S>>| #[trigger]
                runs(plan@, self.tokens@, targets@, trace) && trace[0] == m0 && trace.last()
                    == self.mem();
            lemma_run_step(
                loss_plan(s),
                self.tokens@,
                targets@,
                trace,
                bank_lens(s.cfg, s.vocab as int),
                0,
            );
            law_loss_plan_keeps_the_rest(s, self.tokens@, targets@, trace);
            reveal(launched);
            assert(trace[1] == self.mem());
            assert(self.bank.lens().len() == buf_count(s.cfg));
        }
        let part: Span = Span { buf: LOSSES, start: 0, len: self.rows };
        assert(inside(self.bank.lens(), part));
        let losses: &[S] = self.bank.part(part);
        assert(losses@.take(losses@.len() as int) =~= losses@);
        mean_loss(losses, losses.len(), self.valid)
    }

    /// The losses of all rows.
    pub open spec fn losses(&self) -> Seq<S> {
        read(self.mem(), self.shape().shared(LOSSES as int, self.rows as int))
    }

    /// The probabilities of all rows.
    pub open spec fn probs(&self) -> Seq<S> {
        read(self.mem(), self.shape().shared(PROBS as int, self.shape().rv()))
    }

    /// The logits of all rows.
    pub open spec fn logits(&self) -> Seq<S> {
        read(self.mem(), self.shape().shared(LOGITS as int, self.shape().rv()))
    }

    /// The chain rule, from the loss back to every parameter: adds the gradients of the last
    /// loss to the gradient buffer.
    pub fn backward<R: RowRunner>(&mut self, runner: &R)
        requires
            old(self).ran(),
        ensures
            final(self).ran(),
            backpropagated(*old(self), *final(self)),
    {
        let s: Shape = self.run_shape();
        let tokens: &[i32] = &self.tokens.as_slice()[0..self.rows];
        let targets: &[i32] = &self.targets.as_slice()[0..self.rows];
        assert(tokens@ =~= self.ran_tokens());
        assert(targets@ =~= self.ran_targets());
        let plan: Vec<Launch> = s.backward_launches(&self.l, self.valid);
        proof {
            law_backward_plan_fits(s, self.valid, tokens@, targets@);
        }
        self.bank.run(runner, &plan, tokens, targets);
        proof {
            let trace = choose|trace: Seq<Mem<S>>| #[trigger]
                runs(plan@, tokens@, targets@, trace) && trace[0] == old(self).mem()
                    && trace.last() == self.mem();
            law_backward_plan_computes_gradients(s, self.valid, tokens@, targets@, trace);
            law_backward_plan_leaves_the_flow(s, self.valid, tokens@, targets@, trace);
            law_backward_plan_keeps_the_rest(s, self.valid, tokens@, targets@, trace);
            assert(is_backward(
                s,
                weights_of(s, old(self).mem(), PARAMS as int),
                tokens@,
                targets@,
                self.valid as nat,
                values_of(s, old(self).mem()),
                old(self).probs(),
                flow_of(s, trace),
                weights_of(s, old(self).mem(), GRADS as int),
                weights_of(s, self.mem(), GRADS as int),
            ));
        }
    }

    /// One optimizer step for every parameter. It consumes the gradients: they are zero
    /// afterwards.
    pub fn adam(&mut self, step: usize, lr_t: S)
        requires
            old(self).wf(),
            step < i32::MAX,
        ensures
            final(self).wf(),
            optimized(*old(self), *final(self), step as nat, lr_t),
    {
        proof {
            assert(self.bank.lens()[PARAMS as int] == self.l.total);
            assert(self.bank.lens()[GRADS as int] == self.l.total);
            assert(self.bank.lens().len() == buf_count(self.cfg));
        }
        let mut params: Vec<S> = self.bank.take(PARAMS);
        let mut grads: Vec<S> = self.bank.take(GRADS);
        adam_all(step, lr_t, &mut params, &mut grads, &mut self.adam_m, &mut self.adam_v);
        self.bank.put(GRADS, grads);
        self.bank.put(PARAMS, params);
        assert(self.bank.lens() =~= old(self).bank.lens());
    }

    /// Parameter `i` with its moments.
    pub open spec fn moments(&self, i: int) -> Moments<S> {
        Moments { p: self.mem()[PARAMS as int][i], m: self.adam_m@[i], v: self.adam_v@[i] }
    }

    /// The logits of the last position.
    pub fn last_logits(&self) -> (logits: &[S])
        requires
            self.ran(),
            self.rows > 0,
        ensures
            logits@ == row_of(self.logits(), self.vocab as nat, self.rows - 1),
    {
        proof {
            self.shape().lemma_numbers();
            lemma_row_inside(self.rows - 1, self.rows as int, self.vocab as int);
            assert(self.bank.lens().len() == buf_count(self.cfg));
        }
        let part: Span = Span {
            buf: LOGITS,
            start: (self.rows - 1) * self.vocab,
            len: self.vocab,
        };
        assert(self.bank.lens()[LOGITS as int] == buf_len(
            self.cfg,
            self.vocab as int,
            LOGITS as int,
        ));
        let logits: &[S] = self.bank.part(part);
        assert(logits@ =~= row_of(self.logits(), self.vocab as nat, self.rows - 1));
        logits
    }
}

/// `after` is `before` once `tokens` have been forwarded: its activations satisfy the
/// equations of the network, and the scratch buffers hold what its last layer adds.
/// Parameters, gradients, the state of the loss and of the optimizer, and whatever lies behind
/// the run, stay as they are.
pub open spec fn forwarded<S: Scalar>(
    before: Model<S>,
    after: Model<S>,
    tokens: Seq<i32>,
    t_len: usize,
) -> bool {
    &&& keeps_training(before, after)
    &&& after.rows == tokens.len()
    &&& after.t_len == t_len
    &&& after.ran_tokens() == tokens
    &&& after.tokens@.skip(after.rows as int) == before.tokens@.skip(after.rows as int)
    &&& keeps_tails(after.shape(), before.mem(), after.mem())
    &&& is_forward(
        after.shape(),
        weights_of(after.shape(), before.mem(), PARAMS as int),
        tokens,
        values_of(after.shape(), after.mem()),
    )
    &&& holds_branches(
        after.shape(),
        weights_of(after.shape(), before.mem(), PARAMS as int).layers[after.cfg.n_layer - 1],
        values_of(after.shape(), after.mem()).layers[after.cfg.n_layer - 1],
        after.mem(),
    )
}

/// What running a model leaves as it is: its parameters, their gradients, and the state of
/// the loss and of the optimizer.
pub open spec fn keeps_training<S: Scalar>(before: Model<S>, after: Model<S>) -> bool {
    &&& after.cfg == before.cfg
    &&& after.vocab == before.vocab
    &&& forall|b: int|
        0 <= b < SHARED && b != X0 && b != X1 && b != R0 && b != PROJ && b != MLPO && b != LOGITS
            ==> #[trigger] after.mem()[b] == before.mem()[b]
    &&& after.valid == before.valid
    &&& after.targets@ == before.targets@
    &&& after.adam_m@ == before.adam_m@
    &&& after.adam_v@ == before.adam_v@
}

/// `after` is `before` once its logits have been held against `targets`, and `mean` is the
/// loss. Nothing else changes, nor does what lies behind the run.
pub open spec fn measured<S: Scalar>(
    before: Model<S>,
    after: Model<S>,
    targets: Seq<i32>,
    mean: S,
) -> bool {
    &&& after.shape() == before.shape()
    &&& after.tokens@ == before.tokens@
    &&& after.ran_targets() == targets
    &&& after.targets@.skip(after.rows as int) == before.targets@.skip(after.rows as int)
    &&& keeps_tails(after.shape(), before.mem(), after.mem())
    &&& after.valid == count_valid(targets, targets.len())
    &&& is_ce(
        after.losses(),
        before.probs(),
        after.probs(),
        before.logits(),
        targets,
        before.vocab as nat,
    )
    &&& is_mean_loss(after.losses(), after.valid as nat, mean)
    &&& forall|b: int|
        0 <= b < buf_count(before.cfg) && b != LOSSES && b != PROBS ==> #[trigger] after.mem()[b]
            == before.mem()[b]
    &&& after.adam_m@ == before.adam_m@
    &&& after.adam_v@ == before.adam_v@
}

/// `after` is `before` with the gradients of the last loss added to its gradient buffer, by
/// the chain rule. The buffers of the backward pass hold what it went through last; parameters,
/// activations and the state of the optimizer stay as they are.
pub open spec fn backpropagated<S: Scalar>(before: Model<S>, after: Model<S>) -> bool {
    &&& after.shape() == before.shape()
    &&& exists|f: Flow<S>| #[trigger]
        is_backward(
            before.shape(),
            weights_of(before.shape(), before.mem(), PARAMS as int),
            before.ran_tokens(),
            before.ran_targets(),
            before.valid as nat,
            values_of(before.shape(), before.mem()),
            before.probs(),
            f,
            weights_of(before.shape(), before.mem(), GRADS as int),
            weights_of(before.shape(), after.mem(), GRADS as int),
        ) && holds_flow(before.shape(), after.mem(), f)
    &&& forall|b: int|
        0 <= b < buf_count(before.cfg) && !of_backward(b) ==> #[trigger] after.mem()[b]
            == before.mem()[b]
    &&& moves_tails(before.shape(), before.mem(), after.mem())
    &&& after.valid == before.valid
    &&& after.tokens@ == before.tokens@
    &&& after.targets@ == before.targets@
    &&& after.adam_m@ == before.adam_m@
    &&& after.adam_v@ == before.adam_v@
}

/// `after` is `before` once the optimizer has made step `step` at the rate `lr` for every
/// parameter. The gradients are consumed: they are zero. Nothing else changes.
pub open spec fn optimized<S: Scalar>(
    before: Model<S>,
    after: Model<S>,
    step: nat,
    lr: S,
) -> bool {
    &&& after.shape() == before.shape()
    &&& forall|i: int|
        0 <= i < param_count(before.cfg, before.vocab as int) ==> is_adam(
            step,
            lr,
            before.mem()[GRADS as int][i],
            before.moments(i),
            #[trigger] after.moments(i),
        )
    &&& forall|i: int|
        0 <= i < param_count(before.cfg, before.vocab as int) ==> is_zero(
            #[trigger] after.mem()[GRADS as int][i],
        )
    &&& forall|b: int|
        0 <= b < buf_count(before.cfg) && b != PARAMS && b != GRADS ==> #[trigger] after.mem()[b]
            == before.mem()[b]
    &&& after.valid == before.valid
    &&& after.tokens@ == before.tokens@
    &&& after.targets@ == before.targets@
}

/// One optimizer step for every parameter.
#[verifier::spinoff_prover]
fn adam_all<S: Scalar>(
    step: usize,
    lr: S,
    p: &mut Vec<S>,
    g: &mut Vec<S>,
    m: &mut Vec<S>,
    v: &mut Vec<S>,
)
    requires
        step < i32::MAX,
        old(p)@.len() == old(g)@.len() == old(m)@.len() == old(v)@.len(),
    ensures
        final(p)@.len() == old(p)@.len(),
        final(g)@.len() == old(p)@.len(),
        final(m)@.len() == old(p)@.len(),
        final(v)@.len() == old(p)@.len(),
        forall|i: int|
            0 <= i < old(p)@.len() ==> is_adam(
                step as nat,
                lr,
                old(g)@[i],
                (Moments { p: old(p)@[i], m: old(m)@[i], v: old(v)@[i] }),
                (Moments { p: #[trigger] final(p)@[i], m: final(m)@[i], v: final(v)@[i] }),
            ),
        forall|i: int| 0 <= i < old(p)@.len() ==> is_zero(#[trigger] final(g)@[i]),
{
    let n: usize = p.len();
    for i in 0..n
        invariant
            n == p@.len() == g@.len() == m@.len() == v@.len(),
            n == old(p)@.len() == old(g)@.len() == old(m)@.len() == old(v)@.len(),
            step < i32::MAX,
            forall|k: int|
                0 <= k < i ==> is_adam(
                    step as nat,
                    lr,
                    old(g)@[k],
                    (Moments { p: old(p)@[k], m: old(m)@[k], v: old(v)@[k] }),
                    (Moments { p: #[trigger] p@[k], m: m@[k], v: v@[k] }),
                ),
            forall|k: int| 0 <= k < i ==> is_zero(#[trigger] g@[k]),
            forall|k: int|
                i <= k < n ==> #[trigger] p@[k] == old(p)@[k] && g@[k] == old(g)@[k] && m@[k]
                    == old(m)@[k] && v@[k] == old(v)@[k],
    {
        assert(p@[i as int] == old(p)@[i as int]);
        let before: Moments<S> = Moments { p: p[i], m: m[i], v: v[i] };
        let after: Moments<S> = adam_step(step, lr, g[i], before);
        p[i] = after.p;
        m[i] = after.m;
        v[i] = after.v;
        g[i] = S::zero();
    }
}

/// A bank with the given parameters in its first buffer, and zeros in the others.
fn new_bank<S: Scalar>(cfg: Cfg, vocab: usize, params: Vec<S>) -> (bank: Bank<S>)
    requires
        sizes_fit(cfg, vocab as int),
        params@.len() == param_count(cfg, vocab as int),
    ensures
        bank.lens() == bank_lens(cfg, vocab as int),
        bank.mem()[PARAMS as int] == params@,
        forall|b: int, i: int|
            0 < b < buf_count(cfg) && 0 <= i < bank.mem()[b].len() ==> is_zero(
                #[trigger] bank.mem()[b][i],
            ),
{
    let lens: Vec<usize> = crate::shape::buffer_lens(cfg, vocab);
    let mut bufs: Vec<Vec<S>> = Vec::new();
    bufs.push(params);
    for b in 1..lens.len()
        invariant
            lens@.len() == buf_count(cfg),
            forall|k: int|
                0 <= k < buf_count(cfg) ==> #[trigger] lens@[k] == buf_len(cfg, vocab as int, k),
            bufs@.len() == b,
            bufs@[0]@ == params@,
            params@.len() == param_count(cfg, vocab as int),
            forall|k: int|
                0 < k < b ==> (#[trigger] bufs@[k])@.len() == buf_len(cfg, vocab as int, k),
            forall|k: int, i: int|
                0 < k < b && 0 <= i < bufs@[k]@.len() ==> is_zero(#[trigger] bufs@[k]@[i]),
    {
        bufs.push(zero_row(lens[b]));
    }
    let bank: Bank<S> = Bank { bufs };
    assert(bank.lens() =~= bank_lens(cfg, vocab as int));
    bank
}

/// So many zeros.
fn zero_ids(n: usize) -> (ids: Vec<i32>)
    ensures
        ids@.len() == n,
        forall|i: int| 0 <= i < n ==> #[trigger] ids@[i] == 0,
{
    let mut ids: Vec<i32> = Vec::new();
    for i in 0..n
        invariant
            ids@.len() == i,
            forall|k: int| 0 <= k < i ==> #[trigger] ids@[k] == 0,
    {
        ids.push(0);
    }
    ids
}

/// Copies `from` to the front of `to`.
fn copy_ids(to: &mut Vec<i32>, from: &[i32])
    requires
        from@.len() <= old(to)@.len(),
    ensures
        final(to)@.len() == old(to)@.len(),
        final(to)@.take(from@.len() as int) == from@,
        final(to)@.skip(from@.len() as int) == old(to)@.skip(from@.len() as int),
{
    let n: usize = from.len();
    for i in 0..n
        invariant
            n == from@.len(),
            n <= to@.len(),
            to@.len() == old(to)@.len(),
            forall|k: int| 0 <= k < i ==> #[trigger] to@[k] == from@[k],
            forall|k: int| i <= k < to@.len() ==> #[trigger] to@[k] == old(to)@[k],
    {
        to[i] = from[i];
    }
    assert(to@.take(n as int) =~= from@);
    assert(to@.skip(n as int) =~= old(to)@.skip(n as int));
}

/// One step of training went through these states: forward, loss, backward, optimizer.
pub open spec fn is_train_step<S: Scalar>(
    before: Model<S>,
    after: Model<S>,
    batch: Batch,
    step: nat,
    mean: S,
) -> bool {
    exists|m1: Model<S>, m2: Model<S>, m3: Model<S>, base: S, lr: S|
        #![trigger forwarded(before, m1, batch.tokens@, batch.t_len), measured(m1, m2, batch.targets@, mean), backpropagated(m2, m3), optimized(m3, after, step, lr), is_decayed_rate(base, step, before.cfg.num_steps as nat, lr)]
        m1.ran() && m2.ran() && m3.ran() && forwarded(
            before,
            m1,
            batch.tokens@,
            batch.t_len,
        ) && measured(m1, m2, batch.targets@, mean) && backpropagated(m2, m3) && is_ratio(
            before.cfg.learning_rate.num,
            before.cfg.learning_rate.den,
            base,
        ) && is_decayed_rate(base, step, before.cfg.num_steps as nat, lr) && optimized(
            m3,
            after,
            step,
            lr,
        )
}

/// Trains the model on one batch and returns the loss before the step.
pub fn train_step<S: Scalar, R: RowRunner>(
    model: &mut Model<S>,
    runner: &R,
    batch: &Batch,
    step: usize,
) -> (mean: S)
    requires
        old(model).wf(),
        old(model).cfg.runnable(),
        old(model).vocab > 0,
        batch.fits(old(model).vocab as int),
        0 < batch.t_len <= old(model).cfg.block_size,
        batch.tokens@.len() % batch.t_len as nat == 0,
        batch.tokens@.len() <= old(model).cfg.batch * old(model).cfg.block_size,
        step < i32::MAX,
    ensures
        final(model).wf(),
        is_train_step(*old(model), *final(model), *batch, step as nat, mean),
{
    model.forward(runner, batch.tokens.as_slice(), batch.t_len);
    let ghost m1 = *model;
    let mean: S = model.loss(runner, batch.targets.as_slice());
    let ghost m2 = *model;
    model.backward(runner);
    let ghost m3 = *model;
    let base: S = S::ratio(model.cfg.learning_rate.num, model.cfg.learning_rate.den);
    let lr: S = decayed_rate(base, step, model.cfg.num_steps);
    model.adam(step, lr);
    proof {
        assert(forwarded(*old(model), m1, batch.tokens@, batch.t_len));
        assert(measured(m1, m2, batch.targets@, mean));
        assert(backpropagated(m2, m3));
        assert(optimized(m3, *model, step as nat, lr));
    }
    mean
}

} // verus!
