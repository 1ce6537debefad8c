//! What a run of training does to a parameter, in exact arithmetic: how far every step takes it,
//! and along which gradients.
use vstd::prelude::*;

use crate::adam::{is_adam, is_decayed_rate};
use crate::batch::Batch;
use crate::descent::{
    exact_powers, faded_mean, is_root_of, is_run, law_steps_follow_the_mean_gradient, lemma_rate,
    numbers_of, squares_of,
};
use crate::exact::exact;
use crate::layout::{param_count, Cfg};
use crate::model::{backpropagated, forwarded, is_train_step, measured, optimized, Model};
use crate::scalar::{is_ratio, is_zero, Scalar};
use crate::shape::{GRADS, PARAMS};
use crate::tape::Node;
use crate::tape_gpt::StateDict;
use crate::tape_train::{is_tape_train_step, trained, Buffers, TrainTrace};

verus! {

/// `g` is the gradient that parameter `k` of the model `before` has after the passes over the
/// batch.
pub open spec fn is_gradient_of<S: Scalar>(before: Model<S>, batch: Batch, k: int, g: S) -> bool {
    exists|m1: Model<S>, m2: Model<S>, m3: Model<S>, mean: S|
        #![trigger forwarded(before, m1, batch.tokens@, batch.t_len), measured(m1, m2, batch.targets@, mean), backpropagated(m2, m3)]
        forwarded(before, m1, batch.tokens@, batch.t_len) && measured(
            m1,
            m2,
            batch.targets@,
            mean,
        ) && backpropagated(m2, m3) && g == m3.mem()[GRADS as int][k]
}

/// What a step of training does to parameter `k`: its gradient, and the rate of the step.
proof fn lemma_train_step<S: Scalar>(
    val: spec_fn(S) -> real,
    before: Model<S>,
    after: Model<S>,
    batch: Batch,
    step: nat,
    mean: S,
    k: int,
) -> (r: (S, S))
    requires
        exact(val),
        step < before.cfg.num_steps,
        before.cfg.learning_rate.den != 0,
        is_train_step(before, after, batch, step, mean),
        0 <= k < param_count(before.cfg, before.vocab as int),
    ensures
        after.cfg == before.cfg,
        after.vocab == before.vocab,
        is_gradient_of(before, batch, k, r.0),
        is_adam(step, r.1, r.0, before.moments(k), after.moments(k)),
        val(r.1) * before.cfg.num_steps as real == (before.cfg.learning_rate.num as real
            / before.cfg.learning_rate.den as real) * (before.cfg.num_steps as real
            - step as real),
{
    let (m1, m2, m3, base, lr) = choose|m1: Model<S>, m2: Model<S>, m3: Model<S>, base: S, lr: S|
        #![trigger forwarded(before, m1, batch.tokens@, batch.t_len), measured(m1, m2, batch.targets@, mean), backpropagated(m2, m3), optimized(m3, after, step, lr), is_decayed_rate(base, step, before.cfg.num_steps as nat, lr)]
        m1.ran() && m2.ran() && m3.ran() && forwarded(
            before,
            m1,
            batch.tokens@,
            batch.t_len,
        ) && measured(m1, m2, batch.targets@, mean) && backpropagated(m2, m3) && is_ratio(
            before.cfg.learning_rate.num,
            before.cfg.learning_rate.den,
            base,
        ) && is_decayed_rate(base, step, before.cfg.num_steps as nat, lr) && optimized(
            m3,
            after,
            step,
            lr,
        );
    let g = m3.mem()[GRADS as int][k];
    let p = PARAMS as int;
    assert(m1.mem()[p] == before.mem()[p]);
    assert(m2.mem()[p] == m1.mem()[p]);
    assert(m3.mem()[p] == m2.mem()[p]);
    assert(m3.shape() == m2.shape() && m2.shape() == m1.shape());
    assert(after.shape() == m3.shape());
    assert(m3.moments(k) == before.moments(k));
    assert(is_adam(step, lr, g, m3.moments(k), after.moments(k)));
    lemma_rate(val, base, step, before.cfg.num_steps as nat, lr);
    (g, lr)
}

/// The gradients and the rates of the first steps of a run of training.
proof fn lemma_train_run<S: Scalar>(
    val: spec_fn(S) -> real,
    models: Seq<Model<S>>,
    batches: Seq<Batch>,
    means: Seq<S>,
    k: int,
    n: nat,
) -> (r: (Seq<S>, Seq<S>))
    requires
        exact(val),
        models.len() > n,
        batches.len() >= n,
        means.len() >= n,
        n <= models[0].cfg.num_steps,
        models[0].cfg.learning_rate.den != 0,
        forall|i: int|
            0 <= i < n ==> is_train_step(
                models[i],
                #[trigger] models[i + 1],
                batches[i],
                i as nat,
                means[i],
            ),
        0 <= k < param_count(models[0].cfg, models[0].vocab as int),
    ensures
        models[n as int].cfg == models[0].cfg,
        models[n as int].vocab == models[0].vocab,
        r.0.len() == n,
        r.1.len() == n,
        forall|i: int|
            0 <= i < n ==> #[trigger] is_gradient_of(models[i], batches[i], k, r.0[i]),
        forall|i: int|
            0 <= i < n ==> is_adam(
                i as nat,
                r.1[i],
                r.0[i],
                models[i].moments(k),
                (#[trigger] models[i + 1]).moments(k),
            ),
        forall|i: int|
            0 <= i < n ==> val(#[trigger] r.1[i]) * models[0].cfg.num_steps as real == (
            models[0].cfg.learning_rate.num as real / models[0].cfg.learning_rate.den as real) * (
            models[0].cfg.num_steps as real - i as real),
    decreases n,
{
    if n == 0 {
        (Seq::empty(), Seq::empty())
    } else {
        let m = n - 1;
        let (gs, lrs) = lemma_train_run(val, models, batches, means, k, m as nat);
        assert(is_train_step(models[m], models[m + 1], batches[m], m as nat, means[m]));
        let (g, lr) = lemma_train_step(
            val,
            models[m],
            models[m + 1],
            batches[m],
            m as nat,
            means[m],
            k,
        );
        (gs.push(g), lrs.push(lr))
    }
}

/// Training moves every parameter along its gradients. From zero moments on, and with rates
/// that fall along a line from the one of the configuration, step `i` takes parameter `k` by
/// the rate along the mean of its gradients so far, over the root of the mean of their squares.
/// In the one a gradient weighs `0.85` to the power of its age, in the other its square weighs
/// `0.99` to the power of its age.
pub proof fn law_training_follows_the_mean_gradient<S: Scalar>(
    val: spec_fn(S) -> real,
    models: Seq<Model<S>>,
    batches: Seq<Batch>,
    means: Seq<S>,
    k: int,
    i: int,
) -> (gs: Seq<S>)
    requires
        exact(val),
        exact_powers(val),
        models.len() == batches.len() + 1,
        means.len() == batches.len(),
        batches.len() <= models[0].cfg.num_steps,
        batches.len() <= i32::MAX,
        models[0].cfg.learning_rate.den != 0,
        forall|j: int|
            0 <= j < batches.len() ==> is_train_step(
                models[j],
                #[trigger] models[j + 1],
                batches[j],
                j as nat,
                means[j],
            ),
        0 <= k < param_count(models[0].cfg, models[0].vocab as int),
        val(models[0].adam_m@[k]) == 0 as real,
        val(models[0].adam_v@[k]) == 0 as real,
        0 <= i < batches.len(),
    ensures
        gs.len() == batches.len(),
        forall|j: int|
            0 <= j < gs.len() ==> #[trigger] is_gradient_of(models[j], batches[j], k, gs[j]),
        exists|root: real| #[trigger]
            is_root_of(
                faded_mean(99 as real / 100 as real, squares_of(val, gs), (i + 1) as nat),
                root,
            ) && ((val(models[i].mem()[PARAMS as int][k]) - val(
                models[i + 1].mem()[PARAMS as int][k],
            )) * (root + 1 as real / 100_000_000 as real)) * models[0].cfg.num_steps as real == ((
            models[0].cfg.learning_rate.num as real / models[0].cfg.learning_rate.den as real) * (
            models[0].cfg.num_steps as real - i as real)) * faded_mean(
                85 as real / 100 as real,
                numbers_of(val, gs),
                (i + 1) as nat,
            ),
{
    let n = batches.len();
    let (gs, lrs) = lemma_train_run(val, models, batches, means, k, n);
    let run = Seq::new(n + 1, |j: int| models[j].moments(k));
    assert forall|j: int| 0 <= j < n implies is_adam(
        j as nat,
        lrs[j],
        gs[j],
        run[j],
        #[trigger] run[j + 1],
    ) by {
        assert(is_adam(j as nat, lrs[j], gs[j], models[j].moments(k), models[j + 1].moments(k)));
    }
    assert(is_run(val, lrs, gs, run));
    law_steps_follow_the_mean_gradient(val, lrs, gs, run, i);
    let root = choose|root: real| #[trigger]
        is_root_of(
            faded_mean(99 as real / 100 as real, squares_of(val, gs), (i + 1) as nat),
            root,
        ) && (val(run[i].p) - val(run[i + 1].p)) * (root + 1 as real / 100_000_000 as real) == val(
            lrs[i],
        ) * faded_mean(85 as real / 100 as real, numbers_of(val, gs), (i + 1) as nat);
    let (x, lr, mean) = (
        (val(run[i].p) - val(run[i + 1].p)) * (root + 1 as real / 100_000_000 as real),
        val(lrs[i]),
        faded_mean(85 as real / 100 as real, numbers_of(val, gs), (i + 1) as nat),
    );
    let steps = models[0].cfg.num_steps as real;
    let line = (models[0].cfg.learning_rate.num as real
        / models[0].cfg.learning_rate.den as real) * (steps - i as real);
    assert(lr * steps == line);
    assert(x * steps == line * mean) by (nonlinear_arith)
        requires
            x == lr * mean,
            lr * steps == line,
    ;
    gs
}

/// Training on the tape does the same, where the gradient of a step is what the backward pass
/// leaves at the node of the parameter.
pub proof fn law_tape_training_follows_the_mean_gradient<S: Scalar>(
    val: spec_fn(S) -> real,
    cfg: Cfg,
    sd: StateDict,
    docs: Seq<Seq<usize>>,
    nodes: Seq<Seq<Node<S>>>,
    buffers: Seq<Buffers<S>>,
    losses: Seq<S>,
    traces: Seq<TrainTrace<S>>,
    k: int,
    i: int,
)
    requires
        exact(val),
        exact_powers(val),
        nodes.len() == docs.len() + 1,
        buffers.len() == docs.len() + 1,
        losses.len() == docs.len(),
        traces.len() == docs.len(),
        docs.len() <= cfg.num_steps,
        docs.len() <= i32::MAX,
        cfg.learning_rate.den != 0,
        forall|j: int|
            0 <= j < docs.len() ==> is_tape_train_step(
                cfg,
                sd,
                docs[j],
                j as nat,
                nodes[j],
                buffers[j],
                nodes[j + 1],
                buffers[j + 1],
                losses[j],
                #[trigger] traces[j],
            ),
        forall|j: int| 0 <= j < nodes.len() ==> 0 <= k < (#[trigger] nodes[j]).len(),
        val(buffers[0].m@[k]) == 0 as real,
        val(buffers[0].v@[k]) == 0 as real,
        0 <= i < docs.len(),
    ensures
        ({
            let gs = Seq::new(docs.len(), |j: int| traces[j].pulled[k].grad);
            exists|root: real| #[trigger]
                is_root_of(
                    faded_mean(99 as real / 100 as real, squares_of(val, gs), (i + 1) as nat),
                    root,
                ) && ((val(nodes[i][k].data) - val(nodes[i + 1][k].data)) * (root + 1 as real
                    / 100_000_000 as real)) * cfg.num_steps as real == ((
                cfg.learning_rate.num as real / cfg.learning_rate.den as real) * (
                cfg.num_steps as real - i as real)) * faded_mean(
                    85 as real / 100 as real,
                    numbers_of(val, gs),
                    (i + 1) as nat,
                )
        }),
{
    let n = docs.len();
    let gs = Seq::new(n, |j: int| traces[j].pulled[k].grad);
    let lrs = Seq::new(n, |j: int| traces[j].lr);
    let run = Seq::new(n + 1, |j: int| buffers[j].moments(nodes[j], k));
    assert forall|j: int| 0 <= j < n implies is_adam(
        j as nat,
        lrs[j],
        gs[j],
        run[j],
        #[trigger] run[j + 1],
    ) by {
        let t = traces[j];
        assert(is_tape_train_step(
            cfg,
            sd,
            docs[j],
            j as nat,
            nodes[j],
            buffers[j],
            nodes[j + 1],
            buffers[j + 1],
            losses[j],
            t,
        ));
        assert(0 <= k < nodes[j].len() && 0 <= k < nodes[j + 1].len());
        assert(t.graph[k] == nodes[j][k]);
        assert(t.pulled[k].data == t.graph[k].data);
        assert(nodes[j + 1][k] == t.updated[k]);
        assert(buffers[j].moments(t.pulled, k) == buffers[j].moments(nodes[j], k));
        assert(buffers[j + 1].moments(t.updated, k) == buffers[j + 1].moments(nodes[j + 1], k));
    }
    assert(is_run(val, lrs, gs, run));
    law_steps_follow_the_mean_gradient(val, lrs, gs, run, i);
    let root = choose|root: real| #[trigger]
        is_root_of(
            faded_mean(99 as real / 100 as real, squares_of(val, gs), (i + 1) as nat),
            root,
        ) && (val(run[i].p) - val(run[i + 1].p)) * (root + 1 as real / 100_000_000 as real) == val(
            lrs[i],
        ) * faded_mean(85 as real / 100 as real, numbers_of(val, gs), (i + 1) as nat);
    let t = traces[i];
    lemma_rate(val, t.base, i as nat, cfg.num_steps as nat, t.lr);
    let (x, lr, mean) = (
        (val(run[i].p) - val(run[i + 1].p)) * (root + 1 as real / 100_000_000 as real),
        val(t.lr),
        faded_mean(85 as real / 100 as real, numbers_of(val, gs), (i + 1) as nat),
    );
    let steps = cfg.num_steps as real;
    let line = (cfg.learning_rate.num as real / cfg.learning_rate.den as real) * (steps
        - i as real);
    assert(is_ratio(cfg.learning_rate.num, cfg.learning_rate.den, t.base));
    assert(lr * steps == line);
    assert(x * steps == line * mean) by (nonlinear_arith)
        requires
            x == lr * mean,
            lr * steps == line,
    ;
}

/// The positions of a document that the tape is trained on are those within the context that
/// have a token behind them, and no others.
pub proof fn law_every_followed_position_is_trained_on(cfg: Cfg, tokens: Seq<usize>, i: int)
    requires
        tokens.len() > 0,
    ensures
        0 <= i < trained(cfg, tokens) <==> 0 <= i < cfg.block_size && i + 1 < tokens.len(),
{
}

/// A step of training uses up its gradients: the next one starts with none.
pub proof fn law_steps_use_up_their_gradients<S: Scalar>(
    val: spec_fn(S) -> real,
    before: Model<S>,
    after: Model<S>,
    batch: Batch,
    step: nat,
    mean: S,
    k: int,
)
    requires
        exact(val),
        is_train_step(before, after, batch, step, mean),
        0 <= k < param_count(before.cfg, before.vocab as int),
    ensures
        val(after.mem()[GRADS as int][k]) == 0 as real,
{
    let (m1, m2, m3, base, lr) = choose|
        m1: Model<S>,
        m2: Model<S>,
        m3: Model<S>,
        base: S,
        lr: S,
    |
        #![trigger forwarded(before, m1, batch.tokens@, batch.t_len), measured(m1, m2, batch.targets@, mean), backpropagated(m2, m3), optimized(m3, after, step, lr), is_decayed_rate(base, step, before.cfg.num_steps as nat, lr)]
        forwarded(before, m1, batch.tokens@, batch.t_len) && measured(
            m1,
            m2,
            batch.targets@,
            mean,
        ) && backpropagated(m2, m3) && is_decayed_rate(
            base,
            step,
            before.cfg.num_steps as nat,
            lr,
        ) && optimized(m3, after, step, lr);
    assert(is_zero(after.mem()[GRADS as int][k]));
}

/// So does a step on the tape, which leaves nothing behind but the parameters.
pub proof fn law_tape_steps_use_up_their_gradients<S: Scalar>(
    val: spec_fn(S) -> real,
    cfg: Cfg,
    sd: StateDict,
    tokens: Seq<usize>,
    step: nat,
    before: Seq<Node<S>>,
    b: Buffers<S>,
    after: Seq<Node<S>>,
    a: Buffers<S>,
    loss: S,
    t: TrainTrace<S>,
    k: int,
)
    requires
        exact(val),
        is_tape_train_step(cfg, sd, tokens, step, before, b, after, a, loss, t),
        0 <= k < before.len(),
    ensures
        after.len() == before.len(),
        val(after[k].grad) == 0 as real,
{
    assert(is_zero(after[k].grad));
}

} // verus!
