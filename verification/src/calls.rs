//! What the functions of the library hand back, call by call, in exact arithmetic.
use vstd::prelude::*;

use crate::adam::{adam_step, decayed_rate, Moments};
use crate::batch::Batch;
use crate::choice::{law_choices_are_proportional, weight_before};
use crate::derivative::{law_backward_is_the_derivative_of_the_loss, moves_network, weights_pairing};
use crate::descent::{
    exact_powers, faded_mean, is_root_of, is_run, law_rate_falls_along_a_line,
    law_steps_follow_the_mean_gradient, numbers_of, squares_of,
};
use crate::determinism::{lemma_lens, lemma_weights_sized};
use crate::exact::{exact, lemma_quotient, total_of};
use crate::function::{is_root_function, law_the_network_computes_the_function, logits, net_of};
use crate::gradient::{is_backward, Flow};
use crate::init::{init_params, is_init_param};
use crate::layout::{param_count, Cfg, Ratio};
use crate::loss::{count_valid, is_ce, valid_targets};
use crate::model::{forwarded, is_train_step, train_step, Model};
use crate::motion::nums;
use crate::motion_attention::is_score_factor;
use crate::motion_loss::moves_mean_loss;
use crate::network::{is_forward, values_of, weights_of, Values, Weights};
use crate::normal::{
    exact_waves, falls_below_one, fraction, law_parameters_are_stretched_samples,
    law_samples_lie_around_the_mean, law_the_first_draw_chooses_the_last_item,
    law_uniform_samples_are_fractions, lemma_fraction,
};
use crate::outcomes::{
    counted, falls_to, heated, law_documents_are_drawn_from_the_network,
    law_models_measure_the_mean_surprise, law_tokens_are_drawn_by_their_exponentials, lemma_bits,
    lemma_some_counted, next_logits, surprises,
};
use crate::range::{exact_below_zero, grows, law_shares_need_no_large_exponentials, starts_below};
use crate::reduce::softmax_in_place;
use crate::rng::{
    draw, first_live, gauss_state, is_gauss, law_gauss_ends, lemma_draw_after,
    lemma_first_live_unique, skips, unit_bits, Rng,
};
use crate::rows::RowRunner;
use crate::sample::{generate, next_token};
use crate::scalar::{is_cast, is_one, is_zero, Cast, Scalar};
use crate::scratch::holds_flow;
use crate::shape::{sizes_fit, GRADS, LOSSES, PARAMS};
use crate::tape::Tape;
use crate::tape_gpt::StateDict;
use crate::tape_train::{is_tape_train_step, tape_train_step, Buffers, TrainTrace};
use crate::text::{contents, occurs, Tokenizer};
use crate::training::{
    is_gradient_of, law_steps_use_up_their_gradients, law_tape_steps_use_up_their_gradients,
    law_training_follows_the_mean_gradient,
};
use crate::twin_parts::{exact_curves, is_exponential, is_share_of, lemma_share_same};
use crate::twin_sample::casts_exactly;

verus! {

/// A call of the optimizer for every gradient follows the mean of the gradients so far.
pub proof fn law_the_optimizer_follows_the_mean_gradient<S: Scalar>(
    val: spec_fn(S) -> real,
    lrs: Seq<S>,
    gs: Seq<S>,
    run: Seq<Moments<S>>,
    i: int,
)
    requires
        exact(val),
        exact_powers(val),
        run.len() == gs.len() + 1,
        lrs.len() == gs.len(),
        gs.len() <= i32::MAX,
        val(run[0].m) == 0 as real,
        val(run[0].v) == 0 as real,
        forall|j: int|
            0 <= j < gs.len() ==> call_ensures(
                adam_step::<S>,
                (j as usize, lrs[j], gs[j], run[j]),
                #[trigger] run[j + 1],
            ),
        0 <= i < gs.len(),
    ensures
        exists|root: real| #[trigger]
            is_root_of(
                faded_mean(99 as real / 100 as real, squares_of(val, gs), (i + 1) as nat),
                root,
            ) && (val(run[i].p) - val(run[i + 1].p)) * (root + 1 as real / 100_000_000 as real)
                == val(lrs[i]) * faded_mean(
                85 as real / 100 as real,
                numbers_of(val, gs),
                (i + 1) as nat,
            ),
{
    assert(is_run(val, lrs, gs, run));
    law_steps_follow_the_mean_gradient(val, lrs, gs, run, i);
}

/// The rate of a step falls from the base along a line, and is zero at the end.
pub proof fn law_rates_fall_along_a_line<S: Scalar>(
    val: spec_fn(S) -> real,
    base: S,
    step: usize,
    num_steps: usize,
    now: S,
    next: S,
)
    requires
        exact(val),
        step < num_steps,
        call_ensures(decayed_rate::<S>, (base, step, num_steps), now),
        call_ensures(decayed_rate::<S>, (base, (step + 1) as usize, num_steps), next),
    ensures
        step == 0 ==> val(now) == val(base),
        (val(now) - val(next)) * num_steps as real == val(base),
        step + 1 == num_steps ==> val(next) == 0 as real,
        val(now) * num_steps as real == val(base) * (num_steps - step) as real,
{
    law_rate_falls_along_a_line(val, base, step as nat, num_steps as nat, now, next);
}

/// The gradients that parameter `k` has in the steps of a run of training.
pub open spec fn are_gradients<S: Scalar>(
    models: Seq<Model<S>>,
    batches: Seq<Batch>,
    k: int,
    gs: Seq<S>,
) -> bool {
    &&& gs.len() == batches.len()
    &&& forall|j: int|
        0 <= j < gs.len() ==> #[trigger] is_gradient_of(models[j], batches[j], k, gs[j])
}

/// A call of `train_step` behind a run of training takes every parameter along the mean of its
/// gradients so far, at a rate that falls along a line. It leaves no gradient behind.
pub proof fn law_training_goes_on_along_the_mean_gradient<S: Scalar, R: RowRunner>(
    val: spec_fn(S) -> real,
    model: &mut Model<S>,
    runner: &R,
    models: Seq<Model<S>>,
    batches: Seq<Batch>,
    means: Seq<S>,
    k: int,
)
    requires
        exact(val),
        exact_powers(val),
        models.len() == batches.len() > 0,
        means.len() == batches.len(),
        batches.len() <= models[0].cfg.num_steps,
        batches.len() <= i32::MAX,
        models[0].cfg.learning_rate.den != 0,
        forall|j: int|
            0 <= j < batches.len() - 1 ==> is_train_step(
                models[j],
                #[trigger] models[j + 1],
                batches[j],
                j as nat,
                means[j],
            ),
        0 <= k < param_count(models[0].cfg, models[0].vocab as int),
        val(models[0].adam_m@[k]) == 0 as real,
        val(models[0].adam_v@[k]) == 0 as real,
        *old(model) == models.last(),
        call_ensures(
            train_step::<S, R>,
            (model, runner, &batches.last(), (batches.len() - 1) as usize),
            means.last(),
        ),
    ensures
        exists|gs: Seq<S>, root: real| #[trigger]
            are_gradients(models, batches, k, gs) && #[trigger] is_root_of(
                faded_mean(99 as real / 100 as real, squares_of(val, gs), gs.len()),
                root,
            ) && ((val(old(model).mem()[PARAMS as int][k]) - val(
                final(model).mem()[PARAMS as int][k],
            )) * (root + 1 as real / 100_000_000 as real)) * models[0].cfg.num_steps as real == ((
            models[0].cfg.learning_rate.num as real / models[0].cfg.learning_rate.den as real) * (
            models[0].cfg.num_steps as real - (gs.len() - 1) as real)) * faded_mean(
                85 as real / 100 as real,
                numbers_of(val, gs),
                gs.len(),
            ),
        val(final(model).mem()[GRADS as int][k]) == 0 as real,
{
    let n = batches.len();
    let all = models.push(*final(model));
    assert forall|j: int| 0 <= j < n implies is_train_step(
        all[j],
        #[trigger] all[j + 1],
        batches[j],
        j as nat,
        means[j],
    ) by {
        if j < n - 1 {
            assert(all[j] == models[j] && all[j + 1] == models[j + 1]);
        }
    }
    let gs = law_training_follows_the_mean_gradient(val, all, batches, means, k, n - 1);
    lemma_same_sizes(models, batches, means, (n - 1) as nat);
    assert(is_train_step(all[n - 1], all[n - 1 + 1], batches[n - 1], (n - 1) as nat, means[n - 1]));
    law_steps_use_up_their_gradients(
        val,
        *old(model),
        *final(model),
        batches.last(),
        (n - 1) as nat,
        means.last(),
        k,
    );
    assert forall|j: int| 0 <= j < gs.len() implies #[trigger] is_gradient_of(
        models[j],
        batches[j],
        k,
        gs[j],
    ) by {
        assert(is_gradient_of(all[j], batches[j], k, gs[j]));
    }
    assert(are_gradients(models, batches, k, gs));
}

/// Training changes no size.
proof fn lemma_same_sizes<S: Scalar>(
    models: Seq<Model<S>>,
    batches: Seq<Batch>,
    means: Seq<S>,
    n: nat,
)
    requires
        n < models.len(),
        forall|j: int|
            0 <= j < n ==> is_train_step(
                models[j],
                #[trigger] models[j + 1],
                batches[j],
                j as nat,
                means[j],
            ),
    ensures
        models[n as int].cfg == models[0].cfg,
        models[n as int].vocab == models[0].vocab,
    decreases n,
{
    if n > 0 {
        lemma_same_sizes(models, batches, means, (n - 1) as nat);
        assert(is_train_step(
            models[n - 1],
            models[n - 1 + 1],
            batches[n - 1],
            (n - 1) as nat,
            means[n - 1],
        ));
    }
}

/// A generator goes on with the number behind the one that it gave.
pub proof fn law_numbers_come_one_after_the_other(r: &mut Rng, z: u64, n: nat)
    requires
        call_ensures(Rng::next_u64, (r,), z),
    ensures
        z == draw(old(r).0, 0),
        draw(final(r).0, n) == draw(old(r).0, n + 1),
{
    lemma_draw_after(old(r).0, 1, n);
}

/// A uniform number is the fraction of one draw, and the next is that of the draw behind it.
pub proof fn law_uniform_numbers_take_one_draw<S: Scalar>(
    val: spec_fn(S) -> real,
    r: &mut Rng,
    u: S,
    n: nat,
)
    requires
        exact(val),
        call_ensures(Rng::uniform::<S>, (r,), u),
    ensures
        val(u) == fraction(old(r).0, 0),
        fraction(final(r).0, n) == fraction(old(r).0, n + 1),
{
    law_uniform_samples_are_fractions(val, old(r).0, 0, u);
    lemma_draw_after(old(r).0, 1, n);
}

/// A choice falls to the item that one uniform number says, where the items lie side by side by
/// their weights; the next number is that of the draw behind it.
pub proof fn law_choices_take_one_draw<S: Scalar>(
    val: spec_fn(S) -> real,
    r: &mut Rng,
    weights: &[S],
    k: usize,
    n: nat,
)
    requires
        exact(val),
        forall|i: int| 0 <= i < weights@.len() ==> val(#[trigger] weights@[i]) >= 0 as real,
        exists|j: int| 0 <= j < weights@.len() && val(#[trigger] weights@[j]) > 0 as real,
        call_ensures(Rng::choices::<S>, (r, weights), k),
    ensures
        falls_to(fraction(old(r).0, 0), nums(val, weights@), weights@.len(), k as int),
        val(weights@[k as int]) > 0 as real,
        fraction(final(r).0, n) == fraction(old(r).0, n + 1),
{
    let s = old(r).0;
    let (bits, w, len) = (unit_bits(s, 0), nums(val, weights@), weights@.len());
    lemma_draw_after(s, 1, n);
    lemma_fraction(s, 0);
    lemma_bits(s);
    law_choices_are_proportional(val, weights@, bits, k as int);
    let (u, b, unit) = (fraction(s, 0), bits as real, 9_007_199_254_740_992 as real);
    lemma_quotient(b, unit);
    let (lo, hi, all) = (
        weight_before(w, k as int),
        weight_before(w, k + 1),
        weight_before(w, len as int),
    );
    assert(lo <= u * all && (u > 0 as real ==> lo < u * all) && u * all <= hi)
        by (nonlinear_arith)
        requires
            unit > 0 as real,
            u * unit == b,
            lo * unit <= b * all,
            u > 0 as real ==> lo * unit < b * all,
            b * all <= hi * unit,
    ;
}

/// A Gaussian number lies around its mean as two draws say, the first whose fraction is not zero
/// and the one behind it; the next number is made of draws behind these.
pub proof fn law_gaussian_numbers_take_two_draws<S: Scalar>(
    val: spec_fn(S) -> real,
    lg: spec_fn(real) -> real,
    cs: spec_fn(real) -> real,
    tau: real,
    r: &mut Rng,
    mu: S,
    sigma: S,
    x: S,
    k: nat,
    n: nat,
)
    requires
        exact_waves(val, lg, cs, tau),
        falls_below_one(lg),
        draw(old(r).0, k) >= 2048,
        forall|i: nat| i < k ==> #[trigger] draw(old(r).0, i) < 2048,
        call_ensures(Rng::gauss::<S>, (r, mu, sigma), x),
    ensures
        ({
            let d = val(x) - val(mu);
            let along = val(sigma) * cs(tau * fraction(old(r).0, k + 1));
            &&& d * d == (along * along) * -(2 as real * lg(fraction(old(r).0, k)))
            &&& d * along >= 0 as real
        }),
        draw(final(r).0, n) == draw(old(r).0, k + 2 + n),
{
    let s = old(r).0;
    law_samples_lie_around_the_mean(val, lg, cs, tau, s, k, mu, sigma, x, 0 as real);
    law_gauss_ends(s);
    assert(first_live(s, k)) by {
        lemma_fraction(s, k);
        assert forall|i: nat| i < k implies #[trigger] unit_bits(s, i) == 0 by {
            lemma_fraction(s, i);
            assert(draw(s, i) < 2048);
        }
    }
    lemma_first_live_unique(s, k, skips(s));
    lemma_draw_after(s, k + 2, n);
}

/// A shuffle takes one draw less than there are items, the first of which says which item comes
/// last.
pub proof fn law_shuffles_take_a_draw_for_each_choice<T>(r: &mut Rng, xs: &mut [T], n: nat)
    requires
        old(xs)@.len() > 1,
        call_ensures(Rng::shuffle::<T>, (r, xs), ()),
    ensures
        final(xs)@.to_multiset() == old(xs)@.to_multiset(),
        final(xs)@[old(xs)@.len() - 1] == old(xs)@[draw(old(r).0, 0) as int
            % old(xs)@.len() as int],
        draw(final(r).0, n) == draw(old(r).0, (old(xs)@.len() - 1 + n) as nat),
{
    law_the_first_draw_chooses_the_last_item(old(xs)@, old(r).0);
    lemma_draw_after(old(r).0, (old(xs)@.len() - 1) as nat, n);
}

/// Initial parameters are Gaussian numbers of their own, one behind the other, times the
/// deviation of the configuration.
pub proof fn law_initial_parameters_come_one_after_the_other<W: Cast<S>, S: Scalar>(
    val: spec_fn(W) -> real,
    num: spec_fn(S) -> real,
    lg: spec_fn(real) -> real,
    cs: spec_fn(real) -> real,
    tau: real,
    r: &mut Rng,
    cfg: Cfg,
    vocab: usize,
    params: Vec<S>,
    zero: W,
    one: W,
    i: int,
    z: W,
)
    requires
        exact_waves(val, lg, cs, tau),
        falls_below_one(lg),
        forall|a: W, b: S| #[trigger] is_cast(a, b) ==> num(b) == val(a),
        cfg.init_std.den != 0,
        is_zero(zero),
        is_one(one),
        call_ensures(init_params::<W, S>, (r, &cfg, vocab), params),
        0 <= i < params@.len(),
        is_gauss(gauss_state(old(r).0, i as nat), zero, one, z),
    ensures
        params@.len() == param_count(cfg, vocab as int),
        num(params@[i]) == (cfg.init_std.num as real / cfg.init_std.den as real) * val(z),
        final(r).0 == gauss_state(old(r).0, params@.len()),
{
    assert(is_init_param::<W, S>(
        gauss_state(old(r).0, i as nat),
        cfg.init_std,
        params@[i],
    ));
    law_parameters_are_stretched_samples(
        val,
        num,
        lg,
        cs,
        tau,
        gauss_state(old(r).0, i as nat),
        cfg.init_std,
        zero,
        one,
        z,
        params@[i],
    );
}

/// The next token is the one that one uniform number falls to, where tokens count by the
/// exponentials of their logits over the temperature.
pub proof fn law_next_tokens_take_one_draw<S: Cast<W>, W: Scalar>(
    p: spec_fn(W) -> real,
    q: spec_fn(S) -> real,
    ex: spec_fn(real) -> real,
    lg: spec_fn(real) -> real,
    r: &mut Rng,
    row: &[S],
    temperature: Ratio,
    k: usize,
    n: nat,
)
    requires
        exact_curves(p, ex, lg),
        is_exponential(ex),
        casts_exactly::<S, W>(p, q),
        temperature.num > 0,
        temperature.den > 0,
        row@.len() > 0,
        call_ensures(next_token::<S, W>, (r, row, temperature), k),
    ensures
        falls_to(
            fraction(old(r).0, 0),
            heated(ex, temperature, nums(q, row@)),
            row@.len(),
            k as int,
        ),
        draw(final(r).0, n) == draw(old(r).0, n + 1),
{
    law_tokens_are_drawn_by_their_exponentials::<S, W>(
        p,
        q,
        ex,
        lg,
        row@,
        temperature,
        old(r).0,
        k as int,
        nums(q, row@),
    );
    lemma_draw_after(old(r).0, 1, n);
}

/// A generated document starts with the mark and is drawn from the distribution that the network
/// of the model gives, token by token and each by the number behind the last. It takes a number
/// more than it has tokens behind the mark, unless it fills the context.
pub proof fn law_generated_documents_are_drawn_from_the_network<
    S: Cast<W>,
    W: Scalar,
    R: RowRunner,
>(
    p: spec_fn(W) -> real,
    q: spec_fn(S) -> real,
    ex: spec_fn(real) -> real,
    lg: spec_fn(real) -> real,
    rt: spec_fn(real) -> real,
    model: &mut Model<S>,
    runner: &R,
    r: &mut Rng,
    bos: usize,
    temperature: Ratio,
    ctx: Vec<i32>,
    i: int,
    n: nat,
)
    requires
        exact_curves(p, ex, lg),
        exact_curves(q, ex, lg),
        is_exponential(ex),
        is_root_function(rt),
        casts_exactly::<S, W>(p, q),
        temperature.num > 0,
        temperature.den > 0,
        old(model).cfg.runnable(),
        old(model).cfg.batch > 0,
        bos < i32::MAX,
        sizes_fit(old(model).cfg, bos + 1),
        call_ensures(generate::<S, W, R>, (model, runner, r, bos, temperature), ctx),
        1 <= i <= ctx@.len(),
        i <= old(model).cfg.block_size,
    ensures
        ctx@[0] == bos,
        ctx@.len() <= old(model).cfg.block_size + 1,
        forall|j: int| 1 <= j < ctx@.len() ==> 0 <= #[trigger] ctx@[j] < bos,
        falls_to(
            fraction(old(r).0, (i - 1) as nat),
            heated(
                ex,
                temperature,
                next_logits(
                    q,
                    ex,
                    rt,
                    old(model).cfg,
                    (bos + 1) as usize,
                    weights_of(old(model).shape(), old(model).mem(), PARAMS as int),
                    ctx@.take(i),
                ),
            ),
            (bos + 1) as nat,
            if i < ctx@.len() {
                ctx@[i] as int
            } else {
                bos as int
            },
        ),
        ctx@.len() <= old(model).cfg.block_size ==> draw(final(r).0, n) == draw(
            old(r).0,
            ctx@.len() + n,
        ),
{
    law_documents_are_drawn_from_the_network::<S, W>(
        p,
        q,
        ex,
        lg,
        rt,
        old(model).cfg,
        bos,
        weights_of(old(model).shape(), old(model).mem(), PARAMS as int),
        temperature,
        old(r).0,
        ctx@,
        i,
    );
    lemma_draw_after(old(r).0, ctx@.len(), n);
}

/// Every character of a document comes back from its token. The tokens of characters are in the
/// order of the characters, behind all of them is the mark, which stands at both ends, and
/// behind the mark there is none.
pub proof fn law_tokens_come_back_as_characters(
    docs: Vec<Vec<char>>,
    t: Tokenizer,
    doc: Vec<char>,
    tokens: Vec<usize>,
    mark: usize,
    size: usize,
    i: int,
    c: char,
)
    requires
        call_ensures(Tokenizer::new, (&docs,), t),
        call_ensures(Tokenizer::bos, (&t,), mark),
        call_ensures(Tokenizer::vocab_size, (&t,), size),
        call_ensures(Tokenizer::encode, (&t, &doc), tokens),
        0 <= i < doc@.len(),
        call_ensures(Tokenizer::char_of, (&t, tokens@[i + 1]), c),
    ensures
        c == doc@[i],
        tokens@.len() == doc@.len() + 2,
        tokens@[0] == mark,
        tokens@.last() == mark,
        mark + 1 == size,
        tokens@[i + 1] < mark,
        forall|j: int|
            0 <= j < doc@.len() ==> (tokens@[i + 1] < #[trigger] tokens@[j + 1] <==> doc@[i]
                < doc@[j]),
        occurs(contents(docs@), c),
{
    let chars = t.uchars@;
    let x = tokens@[i + 1] as int;
    assert(x < chars.len() && chars[x] == doc@[i + 1 - 1]);
    assert(chars.contains(c));
    assert forall|j: int| 0 <= j < doc@.len() implies (tokens@[i + 1] < #[trigger] tokens@[j + 1]
        <==> doc@[i] < doc@[j]) by {
        let y = tokens@[j + 1] as int;
        assert(y < chars.len() && chars[y] == doc@[j + 1 - 1]);
        if x < y {
            assert(chars[x] < chars[y]);
        } else if y < x {
            assert(chars[y] < chars[x]);
        }
    }
}

/// The softmax of the first numbers of a slice gives the shares of their exponentials, whatever
/// the exponentials of numbers above zero would be, and leaves the others alone.
pub proof fn law_softmax_gives_shares<S: Scalar>(
    val: spec_fn(S) -> real,
    ex: spec_fn(real) -> real,
    xs: &mut [S],
    n: usize,
    i: int,
)
    requires
        exact_below_zero(val, ex),
        grows(ex),
        n <= old(xs)@.len(),
        starts_below(val, old(xs)@.take(n as int)),
        call_ensures(softmax_in_place::<S>, (xs, n), ()),
        0 <= i < old(xs)@.len(),
    ensures
        i < n ==> is_share_of(ex, nums(val, old(xs)@), n as nat, i, val(final(xs)@[i])),
        i >= n ==> final(xs)@[i] == old(xs)@[i],
{
    let (a, b) = (old(xs)@, final(xs)@);
    if i < n {
        let (s, ps) = (a.take(n as int), b.take(n as int));
        law_shares_need_no_large_exponentials(val, ex, s, ps, i);
        assert(ps[i] == b[i]);
        let (x, z) = (nums(val, s), nums(val, a));
        assert forall|j: int| 0 <= j < n implies #[trigger] x(j) == z(j) by {
            assert(s[j] == a[j]);
        }
        lemma_share_same(ex, x, z, n as nat, i, val(b[i]));
    } else {
        assert(b.skip(n as int)[i - n] == a.skip(n as int)[i - n]);
    }
}

/// After a call of `forward` the logits of every position are those of the function that the
/// parameters say, given the tokens of its document up to it.
pub proof fn law_forward_computes_the_function<S: Scalar, R: RowRunner>(
    val: spec_fn(S) -> real,
    ex: spec_fn(real) -> real,
    lg: spec_fn(real) -> real,
    rt: spec_fn(real) -> real,
    model: &mut Model<S>,
    runner: &R,
    tokens: &[i32],
    t_len: usize,
    b: int,
    t: int,
    v: int,
)
    requires
        exact_curves(val, ex, lg),
        is_exponential(ex),
        is_root_function(rt),
        t_len > 0,
        call_ensures(Model::<S>::forward::<R>, (model, runner, tokens, t_len), ()),
        0 <= b < tokens@.len() as int / t_len as int,
        0 <= t < t_len,
        0 <= v < old(model).vocab,
    ensures
        val(final(model).logits()[(b * t_len + t) * old(model).vocab + v]) == logits(
            ex,
            rt,
            net_of(
                val,
                final(model).shape(),
                weights_of(final(model).shape(), old(model).mem(), PARAMS as int),
            ),
            |u: int| tokens@[b * t_len + u] as int,
            t,
        )(v),
{
    let s = final(model).shape();
    let a = values_of(s, final(model).mem());
    assert(a.logits == final(model).logits());
    law_the_network_computes_the_function(
        val,
        ex,
        lg,
        rt,
        s,
        weights_of(s, old(model).mem(), PARAMS as int),
        tokens@,
        a,
        b,
        t,
        v,
    );
}

/// A call of `loss` behind one of `forward` gives the mean surprise at the targets, as the
/// logits of the function have it.
pub proof fn law_loss_is_the_mean_surprise_of_the_function<S: Scalar, R: RowRunner>(
    val: spec_fn(S) -> real,
    ex: spec_fn(real) -> real,
    lg: spec_fn(real) -> real,
    rt: spec_fn(real) -> real,
    before: Model<S>,
    model: &mut Model<S>,
    runner: &R,
    tokens: Seq<i32>,
    t_len: usize,
    targets: &[i32],
    mean: S,
)
    requires
        exact_curves(val, ex, lg),
        is_exponential(ex),
        is_root_function(rt),
        old(model).ran(),
        forwarded(before, *old(model), tokens, t_len),
        call_ensures(Model::<S>::loss::<R>, (model, runner, targets), mean),
        targets@.len() == tokens.len(),
        valid_targets(targets@, old(model).vocab as int),
        exists|r: int| 0 <= r < targets@.len() && #[trigger] targets@[r] >= 0,
    ensures
        val(mean) * total_of(counted(targets@), tokens.len()) == total_of(
            surprises(
                ex,
                lg,
                |r: int, v: int|
                    logits(
                        ex,
                        rt,
                        net_of(
                            val,
                            old(model).shape(),
                            weights_of(old(model).shape(), before.mem(), PARAMS as int),
                        ),
                        |u: int| tokens[(r / t_len as int) * t_len + u] as int,
                        r % t_len as int,
                    )(v),
                targets@,
                before.vocab as nat,
            ),
            tokens.len(),
        ),
{
    law_models_measure_the_mean_surprise(
        val,
        ex,
        lg,
        rt,
        before,
        *old(model),
        *final(model),
        tokens,
        t_len,
        targets@,
        mean,
    );
}

/// A call of `backward`, on a model that was run forward and measured, adds the derivative of the
/// mean loss to the gradients: for any motion of the parameters, and the motion of the loss that
/// follows from it, the gradients grow by what pairs the one with the other.
pub proof fn law_backward_adds_the_derivative_of_the_loss<S: Scalar, R: RowRunner>(
    val: spec_fn(S) -> real,
    scale: real,
    model: &mut Model<S>,
    runner: &R,
    mw: Weights<real>,
    ma: Values<real>,
    probs: Seq<S>,
    mlosses: Seq<real>,
    mmean: real,
)
    requires
        exact(val),
        old(model).ran(),
        is_score_factor(old(model).shape().heads_spec().d as nat, scale),
        is_forward(
            old(model).shape(),
            weights_of(old(model).shape(), old(model).mem(), PARAMS as int),
            old(model).ran_tokens(),
            values_of(old(model).shape(), old(model).mem()),
        ),
        probs.len() == old(model).shape().rv(),
        valid_targets(old(model).ran_targets(), old(model).vocab as int),
        old(model).valid == count_valid(
            old(model).ran_targets(),
            old(model).ran_targets().len(),
        ),
        old(model).valid > 0,
        is_ce(
            old(model).losses(),
            probs,
            old(model).probs(),
            old(model).logits(),
            old(model).ran_targets(),
            old(model).vocab as nat,
        ),
        call_ensures(Model::<S>::backward::<R>, (model, runner), ()),
        moves_network(
            val,
            old(model).shape(),
            scale,
            weights_of(old(model).shape(), old(model).mem(), PARAMS as int),
            mw,
            old(model).ran_tokens(),
            values_of(old(model).shape(), old(model).mem()),
            ma,
        ),
        moves_mean_loss(
            val,
            mmean,
            mlosses,
            old(model).probs(),
            ma.logits,
            old(model).ran_targets(),
            old(model).rows as nat,
            old(model).vocab as nat,
            old(model).valid as nat,
        ),
    ensures
        mmean == weights_pairing(
            val,
            old(model).shape(),
            weights_of(old(model).shape(), final(model).mem(), GRADS as int),
            mw,
        ) - weights_pairing(
            val,
            old(model).shape(),
            weights_of(old(model).shape(), old(model).mem(), GRADS as int),
            mw,
        ),
{
    let m = *old(model);
    let s = m.shape();
    let (tokens, targets, valid) = (m.ran_tokens(), m.ran_targets(), m.valid as nat);
    let w = weights_of(s, m.mem(), PARAMS as int);
    let before = weights_of(s, m.mem(), GRADS as int);
    let after = weights_of(s, final(model).mem(), GRADS as int);
    let a = values_of(s, m.mem());
    let f = choose|f: Flow<S>| #[trigger]
        is_backward(s, w, tokens, targets, valid, a, m.probs(), f, before, after) && holds_flow(
            s,
            final(model).mem(),
            f,
        );
    s.lemma_numbers();
    lemma_lens(m, GRADS as int);
    lemma_lens(m, LOSSES as int);
    lemma_weights_sized(s, m.mem(), GRADS as int);
    lemma_some_counted(targets, targets.len());
    law_backward_is_the_derivative_of_the_loss(
        val,
        s,
        scale,
        w,
        mw,
        tokens,
        targets,
        valid,
        a,
        ma,
        m.losses(),
        probs,
        m.probs(),
        mlosses,
        mmean,
        f,
        before,
        after,
    );
}

/// A call of `tape_train_step` leaves as many nodes as there were, the parameters, and no
/// gradients.
pub proof fn law_tape_training_leaves_only_parameters<S: Scalar>(
    val: spec_fn(S) -> real,
    tape: &mut Tape<S>,
    buffers: &mut Buffers<S>,
    cfg: Cfg,
    sd: StateDict,
    vocab: usize,
    tokens: Vec<usize>,
    step: usize,
    loss: S,
    k: int,
)
    requires
        exact(val),
        call_ensures(
            tape_train_step::<S>,
            (tape, buffers, &cfg, &sd, vocab, &tokens, step),
            loss,
        ),
        0 <= k < old(tape).nodes@.len(),
    ensures
        final(tape).nodes@.len() == old(tape).nodes@.len(),
        val(final(tape).nodes@[k].grad) == 0 as real,
{
    let (before, b) = (old(tape).nodes@, *old(buffers));
    let (after, a) = (final(tape).nodes@, *final(buffers));
    let t = choose|t: TrainTrace<S>| #[trigger]
        is_tape_train_step(cfg, sd, tokens@, step as nat, before, b, after, a, loss, t);
    law_tape_steps_use_up_their_gradients(
        val,
        cfg,
        sd,
        tokens@,
        step as nat,
        before,
        b,
        after,
        a,
        loss,
        t,
        k,
    );
}

/// The two configurations: the large model has four times the layers, eight times the width,
/// twice the heads and 32 times the documents of the small one, the same context and the same
/// steps, a quarter of the deviation and a tenth of the rate.
pub proof fn law_the_large_model_is_the_small_one_scaled(small: Cfg, large: Cfg)
    requires
        call_ensures(Cfg::parity, (), small),
        call_ensures(Cfg::scale, (), large),
    ensures
        large.n_layer == 4 * small.n_layer,
        large.n_embd == 8 * small.n_embd,
        large.n_head == 2 * small.n_head,
        large.batch == 32 * small.batch,
        large.block_size == small.block_size == small.n_embd,
        large.num_steps == small.num_steps == 1000,
        small.init_std.num * 25 == small.init_std.den * 2,
        large.init_std.num * 100 == large.init_std.den * 2,
        small.learning_rate.num * 100 == small.learning_rate.den > 0,
        large.learning_rate.num * 1000 == large.learning_rate.den > 0,
{
}

} // verus!
