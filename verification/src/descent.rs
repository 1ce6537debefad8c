//! What the optimizer does over a run of steps, in exact arithmetic: it goes along the mean of
//! the gradients so far, in which older gradients weigh less, and divides by the root of the
//! mean of their squares.
use vstd::prelude::*;

use crate::adam::{
    is_adam, is_decay, is_decayed_rate, is_descent, is_unbiased, Moments, ADAM_EPS_DEN, BETA1,
    BETA2, BETA_DEN,
};
use crate::exact::{
    exact, lemma_cancel, lemma_quotient, lemma_total_same, lemma_total_scale, total_of,
};
use crate::scalar::{
    is_diff, is_num, is_one, is_one_minus_pow, is_prod, is_quot, is_ratio, is_sqrt, is_sum, Scalar,
};
use crate::tensor::{
    is_divide, is_minus, is_multiply, is_number, is_plus, is_ratio_number, is_root, Tensor,
};
use crate::tensor_train::{
    is_bias_number, is_fresh_number, is_tensor_adam, is_tensor_descent, is_tensor_moment,
    is_tensor_unbiased,
};

verus! {

/// The number `b` to the power `n`.
pub open spec fn power(b: real, n: nat) -> real
    decreases n,
{
    if n == 0 {
        1 as real
    } else {
        b * power(b, (n - 1) as nat)
    }
}

/// Whether powers are exact too.
pub open spec fn exact_powers<S: Scalar>(val: spec_fn(S) -> real) -> bool {
    forall|num: u32, den: u32, n: u32, r: S| #[trigger]
        is_one_minus_pow(num, den, n, r) && den != 0 ==> val(r) == 1 as real - power(
            num as real / den as real,
            n as nat,
        )
}

/// What the first `n` numbers of `g` come to where a number weighs `b` to the power of its age:
/// the last one weighs one.
pub open spec fn faded(b: real, g: spec_fn(int) -> real, n: nat) -> real {
    total_of(|i: int| power(b, (n - 1 - i) as nat) * g(i), n)
}

/// The mean of the first `n` numbers of `g`, in which a number weighs `b` to the power of its
/// age.
pub open spec fn faded_mean(b: real, g: spec_fn(int) -> real, n: nat) -> real {
    faded(b, g, n) / faded(b, |i: int| 1 as real, n)
}

/// The numbers that scalars stand for.
pub open spec fn numbers_of<S>(val: spec_fn(S) -> real, xs: Seq<S>) -> spec_fn(int) -> real {
    |i: int| val(xs[i])
}

/// Their squares.
pub open spec fn squares_of<S>(val: spec_fn(S) -> real, xs: Seq<S>) -> spec_fn(int) -> real {
    |i: int| val(xs[i]) * val(xs[i])
}

/// `root` is the root of `square`.
pub open spec fn is_root_of(square: real, root: real) -> bool {
    root >= 0 as real && root * root == square
}

/// One more number: the others age.
proof fn lemma_faded_step(b: real, g: spec_fn(int) -> real, n: nat)
    ensures
        faded(b, g, n + 1) == b * faded(b, g, n) + g(n as int),
{
    let now = |i: int| power(b, (n + 1 - 1 - i) as nat) * g(i);
    let then = |i: int| power(b, (n - 1 - i) as nat) * g(i);
    let aged = |i: int| b * then(i);
    assert forall|i: int| 0 <= i < n implies #[trigger] now(i) == aged(i) by {
        let (p, x) = (power(b, (n - 1 - i) as nat), g(i));
        assert(power(b, (n - i) as nat) == b * p);
        assert((b * p) * x == b * (p * x)) by (nonlinear_arith);
    }
    lemma_total_same(now, aged, n);
    lemma_total_scale(b, then, aged, n);
    let last = g(n as int);
    assert(power(b, 0) == 1 as real);
    assert((1 as real) * last == last) by (nonlinear_arith);
    assert(now(n as int) == last);
    assert(total_of(now, n + 1) == total_of(now, n) + now(n as int));
}

/// The weights add up to what the powers say.
proof fn lemma_weights_total(b: real, n: nat)
    ensures
        (1 as real - b) * faded(b, |i: int| 1 as real, n) == 1 as real - power(b, n),
    decreases n,
{
    let ones = |i: int| 1 as real;
    if n > 0 {
        let m = (n - 1) as nat;
        lemma_weights_total(b, m);
        lemma_faded_step(b, ones, m);
        let (x, p) = (faded(b, ones, m), power(b, m));
        assert((1 as real - b) * (b * x + 1 as real) == 1 as real - b * p) by (nonlinear_arith)
            requires
                (1 as real - b) * x == 1 as real - p,
        ;
    } else {
        assert((1 as real - b) * (0 as real) == 0 as real) by (nonlinear_arith);
    }
}

/// The weights are not nothing.
proof fn lemma_weights_positive(b: real, n: nat)
    requires
        b > 0 as real,
        b < 1 as real,
        n > 0,
    ensures
        faded(b, |i: int| 1 as real, n) > 0 as real,
        power(b, n) < 1 as real,
    decreases n,
{
    let ones = |i: int| 1 as real;
    let m = (n - 1) as nat;
    lemma_faded_step(b, ones, m);
    let x = faded(b, ones, m);
    if m > 0 {
        lemma_weights_positive(b, m);
        assert(b * x > 0 as real) by (nonlinear_arith)
            requires
                b > 0 as real,
                x > 0 as real,
        ;
    } else {
        assert(x == 0 as real);
        assert(b * (0 as real) == 0 as real) by (nonlinear_arith);
    }
    lemma_weights_total(b, n);
    let y = faded(b, ones, n);
    assert((1 as real - b) * y > 0 as real) by (nonlinear_arith)
        requires
            b < 1 as real,
            y > 0 as real,
    ;
}

/// A moment that starts at zero is what the gradients come to, up to its scale.
proof fn lemma_moment(b: real, x: spec_fn(int) -> real, g: spec_fn(int) -> real, n: nat)
    requires
        x(0) == 0 as real,
        forall|i: int|
            0 <= i < n ==> #[trigger] x(i + 1) == b * x(i) + (1 as real - b) * g(i),
    ensures
        x(n as int) == (1 as real - b) * faded(b, g, n),
    decreases n,
{
    if n > 0 {
        let m = (n - 1) as nat;
        lemma_moment(b, x, g, m);
        lemma_faded_step(b, g, m);
        assert(x(m as int + 1) == b * x(m as int) + (1 as real - b) * g(m as int));
        let (y, z) = (faded(b, g, m), g(m as int));
        assert(b * ((1 as real - b) * y) + (1 as real - b) * z == (1 as real - b) * (b * y + z))
            by (nonlinear_arith);
    } else {
        assert((1 as real - b) * (0 as real) == 0 as real) by (nonlinear_arith);
    }
}

/// Divided by what the powers say, it is the mean.
proof fn lemma_unbiased(b: real, g: spec_fn(int) -> real, n: nat, x: real, mean: real)
    requires
        b > 0 as real,
        b < 1 as real,
        n > 0,
        x == (1 as real - b) * faded(b, g, n),
        mean * (1 as real - power(b, n)) == x,
    ensures
        mean == faded_mean(b, g, n),
{
    let ones = |i: int| 1 as real;
    lemma_weights_total(b, n);
    lemma_weights_positive(b, n);
    let (y, w) = (faded(b, g, n), faded(b, ones, n));
    assert((mean * w) * (1 as real - b) == y * (1 as real - b)) by (nonlinear_arith)
        requires
            mean * (1 as real - power(b, n)) == (1 as real - b) * y,
            (1 as real - b) * w == 1 as real - power(b, n),
    ;
    lemma_cancel(mean * w, y, 1 as real - b);
    lemma_quotient(y, w);
    lemma_cancel(mean, y / w, w);
}

/// The mean of one number is that number.
proof fn lemma_mean_of_same(b: real, g: spec_fn(int) -> real, c: real, n: nat)
    requires
        b > 0 as real,
        b < 1 as real,
        n > 0,
        forall|i: int| 0 <= i < n ==> #[trigger] g(i) == c,
    ensures
        faded_mean(b, g, n) == c,
{
    let ones = |i: int| 1 as real;
    let (f, h) = (
        |i: int| power(b, (n - 1 - i) as nat) * ones(i),
        |i: int| power(b, (n - 1 - i) as nat) * g(i),
    );
    let scaled = |i: int| c * f(i);
    assert forall|i: int| 0 <= i < n implies #[trigger] h(i) == scaled(i) by {
        let p = power(b, (n - 1 - i) as nat);
        assert(g(i) == c);
        assert(p * c == c * (p * 1 as real)) by (nonlinear_arith);
    }
    lemma_total_same(h, scaled, n);
    lemma_total_scale(c, f, scaled, n);
    lemma_weights_positive(b, n);
    let w = faded(b, ones, n);
    assert(faded(b, g, n) == c * w);
    lemma_quotient(c * w, w);
    lemma_cancel((c * w) / w, c, w);
}

/// The decays as numbers.
proof fn lemma_decays<S: Scalar>(val: spec_fn(S) -> real, num: u32, beta: S, fresh: S)
    requires
        exact(val),
        is_decay(num, beta, fresh),
    ensures
        val(beta) == num as real / 100 as real,
        val(fresh) == 1 as real - num as real / 100 as real,
{
    let one = choose|one: S|
        is_ratio(num, BETA_DEN, beta) && is_one(one) && #[trigger] is_diff(one, beta, fresh);
    assert(is_diff(one, beta, fresh));
}

/// A parameter and its moments, as numbers.
pub struct Place {
    pub p: real,
    pub m: real,
    pub v: real,
}

/// The numbers of a parameter and its moments.
pub open spec fn place_of<S>(val: spec_fn(S) -> real, x: Moments<S>) -> Place {
    Place { p: val(x.p), m: val(x.m), v: val(x.v) }
}

/// What a step makes of the moments, and how far the parameter goes.
spec fn moves(step: nat, lr: real, g: real, before: Place, after: Place) -> bool {
    &&& after.m == (85 as real / 100 as real) * before.m + (1 as real - 85 as real / 100 as real)
        * g
    &&& after.v == (99 as real / 100 as real) * before.v + (1 as real - 99 as real / 100 as real)
        * (g * g)
    &&& exists|mean: real, square: real, root: real| #[trigger]
        moves_by(step, lr, before, after, mean, square, root)
}

/// How far the parameter goes, given the moments without their bias.
spec fn moves_by(
    step: nat,
    lr: real,
    before: Place,
    after: Place,
    mean: real,
    square: real,
    root: real,
) -> bool {
    &&& mean * (1 as real - power(85 as real / 100 as real, step + 1)) == after.m
    &&& square * (1 as real - power(99 as real / 100 as real, step + 1)) == after.v
    &&& square >= 0 as real ==> is_root_of(square, root) && (before.p - after.p) * (root + 1 as real
        / 100_000_000 as real) == lr * mean
}

/// One step, as numbers.
proof fn lemma_adam_numbers<S: Scalar>(
    val: spec_fn(S) -> real,
    step: nat,
    lr: S,
    g: S,
    before: Moments<S>,
    after: Moments<S>,
)
    requires
        exact(val),
        exact_powers(val),
        step < i32::MAX,
        is_adam(step, lr, g, before, after),
    ensures
        moves(step, val(lr), val(g), place_of(val, before), place_of(val, after)),
{
    let (b1, f1, k1, a1) = choose|beta: S, fresh: S, kept: S, added: S|
        #![trigger is_prod(beta, before.m, kept), is_prod(fresh, g, added)]
        is_decay(BETA1, beta, fresh) && is_prod(beta, before.m, kept) && is_prod(fresh, g, added)
            && is_sum(kept, added, after.m);
    lemma_decays(val, BETA1, b1, f1);
    let (b2, f2, k2, s2, a2) = choose|beta: S, fresh: S, kept: S, scaled: S, added: S|
        #![trigger is_prod(beta, before.v, kept), is_prod(fresh, g, scaled), is_prod(scaled, g, added)]
        is_decay(BETA2, beta, fresh) && is_prod(beta, before.v, kept) && is_prod(fresh, g, scaled)
            && is_prod(scaled, g, added) && is_sum(kept, added, after.v);
    lemma_decays(val, BETA2, b2, f2);
    let (w, x) = (val(f2), val(g));
    assert((w * x) * x == w * (x * x)) by (nonlinear_arith);
    let (mh, vh) = choose|mh: S, vh: S|
        is_unbiased(BETA1, step, after.m, mh) && is_unbiased(BETA2, step, after.v, vh)
            && #[trigger] is_descent(before.p, lr, mh, vh, after.p);
    let c1 = choose|bias: S|
        is_one_minus_pow(BETA1, BETA_DEN, (step + 1) as u32, bias) && #[trigger] is_quot(
            after.m,
            bias,
            mh,
        );
    let c2 = choose|bias: S|
        is_one_minus_pow(BETA2, BETA_DEN, (step + 1) as u32, bias) && #[trigger] is_quot(
            after.v,
            bias,
            vh,
        );
    lemma_weights_positive(85 as real / 100 as real, step + 1);
    lemma_weights_positive(99 as real / 100 as real, step + 1);
    assert(val(c1) == 1 as real - power(85 as real / 100 as real, step + 1));
    assert(val(c2) == 1 as real - power(99 as real / 100 as real, step + 1));
    lemma_quotient(val(after.m), val(c1));
    lemma_quotient(val(after.v), val(c2));
    let (top, root, eps, bottom, delta) = choose|top: S, root: S, eps: S, bottom: S, delta: S|
        #![trigger is_prod(lr, mh, top), is_sum(root, eps, bottom), is_quot(top, bottom, delta)]
        is_prod(lr, mh, top) && is_sqrt(vh, root) && is_ratio(
            1,
            ADAM_EPS_DEN,
            eps,
        ) && is_sum(root, eps, bottom) && is_quot(top, bottom, delta) && is_diff(
            before.p,
            delta,
            after.p,
        );
    if val(vh) >= 0 as real {
        assert(is_sqrt(vh, root));
        assert(val(bottom) == val(root) + 1 as real / 100_000_000 as real);
        assert(val(bottom) > 0 as real);
        lemma_quotient(val(top), val(bottom));
    }
    assert(moves_by(
        step,
        val(lr),
        place_of(val, before),
        place_of(val, after),
        val(mh),
        val(vh),
        val(root),
    ));
}

/// A run of the optimizer for one parameter: step `i` uses the gradient `gs[i]` and the rate
/// `lrs[i]`, and the moments are zero at the start.
pub open spec fn is_run<S: Scalar>(
    val: spec_fn(S) -> real,
    lrs: Seq<S>,
    gs: Seq<S>,
    run: Seq<Moments<S>>,
) -> bool {
    &&& run.len() == gs.len() + 1
    &&& lrs.len() == gs.len()
    &&& gs.len() <= i32::MAX
    &&& val(run[0].m) == 0 as real
    &&& val(run[0].v) == 0 as real
    &&& forall|i: int|
        0 <= i < gs.len() ==> is_adam(i as nat, lrs[i], gs[i], run[i], #[trigger] run[i + 1])
}

/// The optimizer goes along the mean of the gradients so far, over the root of the mean of
/// their squares. In the one a gradient weighs `0.85` to the power of its age, in the other its
/// square weighs `0.99` to the power of its age; the root is kept from zero by `1e-8`. The
/// zeros that the moments start from have no part in it.
pub proof fn law_steps_follow_the_mean_gradient<S: Scalar>(
    val: spec_fn(S) -> real,
    lrs: Seq<S>,
    gs: Seq<S>,
    run: Seq<Moments<S>>,
    i: int,
)
    requires
        exact(val),
        exact_powers(val),
        is_run(val, lrs, gs, run),
        0 <= i < gs.len(),
    ensures
        exists|root: real| #[trigger]
            is_root_of(
                faded_mean(99 as real / 100 as real, squares_of(val, gs), (i + 1) as nat),
                root,
            ) && (val(run[i].p) - val(run[i + 1].p)) * (root + 1 as real / 100_000_000 as real)
                == val(lrs[i]) * faded_mean(
                85 as real / 100 as real,
                numbers_of(val, gs),
                (i + 1) as nat,
            ),
{
    let places = Seq::new(run.len(), |j: int| place_of(val, run[j]));
    let (lr, g) = (numbers_of(val, lrs), numbers_of(val, gs));
    assert forall|j: int| 0 <= j < gs.len() implies moves(
        j as nat,
        lr(j),
        g(j),
        places[j],
        #[trigger] places[j + 1],
    ) by {
        assert(is_adam(j as nat, lrs[j], gs[j], run[j], run[j + 1]));
        lemma_adam_numbers(val, j as nat, lrs[j], gs[j], run[j], run[j + 1]);
    }
    lemma_places(lr, g, squares_of(val, gs), places, gs.len() as int, i);
}

/// A run of steps, as numbers.
proof fn lemma_places(
    lr: spec_fn(int) -> real,
    g: spec_fn(int) -> real,
    s: spec_fn(int) -> real,
    run: Seq<Place>,
    len: int,
    i: int,
)
    requires
        0 <= i < len,
        run.len() == len + 1,
        run[0].m == 0 as real,
        run[0].v == 0 as real,
        forall|j: int| 0 <= j < len ==> #[trigger] s(j) == g(j) * g(j),
        forall|j: int|
            0 <= j < len ==> moves(j as nat, lr(j), g(j), run[j], #[trigger] run[j + 1]),
    ensures
        exists|root: real| #[trigger]
            is_root_of(faded_mean(99 as real / 100 as real, s, (i + 1) as nat), root) && (run[i].p
                - run[i + 1].p) * (root + 1 as real / 100_000_000 as real) == lr(i) * faded_mean(
                85 as real / 100 as real,
                g,
                (i + 1) as nat,
            ),
{
    let (m, v) = (|j: int| run[j].m, |j: int| run[j].v);
    let (b1, b2) = (85 as real / 100 as real, 99 as real / 100 as real);
    let n = (i + 1) as nat;
    assert forall|j: int| 0 <= j < n implies #[trigger] m(j + 1) == b1 * m(j) + (1 as real - b1)
        * g(j) by {
        assert(moves(j as nat, lr(j), g(j), run[j], run[j + 1]));
    }
    assert forall|j: int| 0 <= j < n implies #[trigger] v(j + 1) == b2 * v(j) + (1 as real - b2)
        * s(j) by {
        assert(moves(j as nat, lr(j), g(j), run[j], run[j + 1]));
        assert(s(j) == g(j) * g(j));
    }
    lemma_moment(b1, m, g, n);
    lemma_moment(b2, v, s, n);
    assert(moves(i as nat, lr(i), g(i), run[i], run[i + 1]));
    let (mean, square, root) = choose|mean: real, square: real, root: real| #[trigger]
        moves_by(i as nat, lr(i), run[i], run[i + 1], mean, square, root);
    lemma_unbiased(b1, g, n, m(i + 1), mean);
    lemma_unbiased(b2, s, n, v(i + 1), square);
    assert forall|j: int| 0 <= j < n implies #[trigger] s(j) >= 0 as real by {
        let x = g(j);
        assert(x * x >= 0 as real) by (nonlinear_arith);
        assert(s(j) == g(j) * g(j));
    }
    lemma_mean_nonnegative(b2, s, n);
    assert(is_root_of(square, root));
}

/// A mean of numbers that are not below zero is not below zero.
proof fn lemma_mean_nonnegative(b: real, g: spec_fn(int) -> real, n: nat)
    requires
        b > 0 as real,
        b < 1 as real,
        n > 0,
        forall|i: int| 0 <= i < n ==> #[trigger] g(i) >= 0 as real,
    ensures
        faded_mean(b, g, n) >= 0 as real,
{
    lemma_faded_nonnegative(b, g, n);
    lemma_weights_positive(b, n);
    let (y, w) = (faded(b, g, n), faded(b, |i: int| 1 as real, n));
    assert(y / w >= 0 as real) by (nonlinear_arith)
        requires
            y >= 0 as real,
            w > 0 as real,
    ;
}

proof fn lemma_faded_nonnegative(b: real, g: spec_fn(int) -> real, n: nat)
    requires
        b > 0 as real,
        forall|i: int| 0 <= i < n ==> #[trigger] g(i) >= 0 as real,
    ensures
        faded(b, g, n) >= 0 as real,
    decreases n,
{
    if n > 0 {
        let m = (n - 1) as nat;
        lemma_faded_nonnegative(b, g, m);
        lemma_faded_step(b, g, m);
        let x = faded(b, g, m);
        assert(b * x >= 0 as real) by (nonlinear_arith)
            requires
                b > 0 as real,
                x >= 0 as real,
        ;
        assert(g(m as int) >= 0 as real);
    }
}

/// Whether the operations of a tensor that work on its entries one by one are exact at one
/// place, where `at` is the number that a tensor has there.
pub open spec fn exact_at<S: Scalar, T: Tensor<S>>(
    val: spec_fn(S) -> real,
    at: spec_fn(T) -> real,
) -> bool {
    &&& forall|x: S, r: T| #[trigger] is_number::<S, T>(x, r) ==> at(r) == val(x)
    &&& forall|a: T, b: T, r: T| #[trigger] is_plus::<S, T>(a, b, r) ==> at(r) == at(a) + at(b)
    &&& forall|a: T, b: T, r: T| #[trigger] is_minus::<S, T>(a, b, r) ==> at(r) == at(a) - at(b)
    &&& forall|a: T, b: T, r: T| #[trigger]
        is_multiply::<S, T>(a, b, r) ==> at(r) == at(a) * at(b)
    &&& forall|a: T, b: T, r: T| #[trigger]
        is_divide::<S, T>(a, b, r) && at(b) != 0 as real ==> at(r) == at(a) / at(b)
    &&& forall|a: T, r: T| #[trigger]
        is_root::<S, T>(a, r) && at(a) >= 0 as real ==> is_root_of(at(a), at(r))
}

/// One step over a tensor, as numbers at one place.
proof fn lemma_tensor_numbers<S: Scalar, T: Tensor<S>>(
    val: spec_fn(S) -> real,
    at: spec_fn(T) -> real,
    step: nat,
    lr: S,
    g: T,
    before: Moments<T>,
    after: Moments<T>,
)
    requires
        exact(val),
        exact_powers(val),
        exact_at::<S, T>(val, at),
        step < i32::MAX,
        is_tensor_adam::<S, T>(step, lr, g, before, after),
    ensures
        moves(step, val(lr), at(g), place_of(at, before), place_of(at, after)),
{
    lemma_tensor_moment::<S, T>(val, at, BETA1, before.m, g, after.m);
    let square = choose|square: T| #[trigger]
        is_multiply::<S, T>(g, g, square) && is_tensor_moment::<S, T>(
            BETA2,
            before.v,
            square,
            after.v,
        );
    lemma_tensor_moment::<S, T>(val, at, BETA2, before.v, square, after.v);
    let (mh, vh) = choose|mh: T, vh: T|
        is_tensor_unbiased::<S, T>(BETA1, step, after.m, mh) && is_tensor_unbiased::<S, T>(
            BETA2,
            step,
            after.v,
            vh,
        ) && #[trigger] is_tensor_descent::<S, T>(before.p, lr, mh, vh, after.p);
    lemma_tensor_unbiased::<S, T>(val, at, BETA1, step, after.m, mh);
    lemma_tensor_unbiased::<S, T>(val, at, BETA2, step, after.v, vh);
    let (rate, top, root, eps, bottom, delta) = choose|
        rate: T,
        top: T,
        root: T,
        eps: T,
        bottom: T,
        delta: T,
    |
        #![trigger is_multiply::<S, T>(mh, rate, top), is_plus::<S, T>(root, eps, bottom), is_divide::<S, T>(top, bottom, delta)]
        is_number::<S, T>(lr, rate) && is_multiply::<S, T>(mh, rate, top) && is_root::<S, T>(
            vh,
            root,
        ) && is_ratio_number::<S, T>(1, ADAM_EPS_DEN, eps) && is_plus::<S, T>(root, eps, bottom)
            && is_divide::<S, T>(top, bottom, delta) && is_minus::<S, T>(before.p, delta, after.p);
    let e = choose|x: S| is_ratio(1, ADAM_EPS_DEN, x) && #[trigger] is_number::<S, T>(x, eps);
    assert(is_number::<S, T>(e, eps));
    assert(at(eps) == 1 as real / 100_000_000 as real);
    let (x, y) = (at(mh), val(lr));
    assert(x * y == y * x) by (nonlinear_arith);
    if at(vh) >= 0 as real {
        assert(is_root::<S, T>(vh, root));
        assert(at(bottom) > 0 as real);
        lemma_quotient(at(top), at(bottom));
    }
    assert(moves_by(
        step,
        val(lr),
        place_of(at, before),
        place_of(at, after),
        at(mh),
        at(vh),
        at(root),
    ));
}

/// A moment, at one place.
proof fn lemma_tensor_moment<S: Scalar, T: Tensor<S>>(
    val: spec_fn(S) -> real,
    at: spec_fn(T) -> real,
    num: u32,
    x: T,
    g: T,
    r: T,
)
    requires
        exact(val),
        exact_at::<S, T>(val, at),
        is_tensor_moment::<S, T>(num, x, g, r),
    ensures
        at(r) == (num as real / 100 as real) * at(x) + (1 as real - num as real / 100 as real)
            * at(g),
{
    let (beta, fresh, kept, added) = choose|beta: T, fresh: T, kept: T, added: T|
        #![trigger is_multiply::<S, T>(x, beta, kept), is_multiply::<S, T>(g, fresh, added)]
        is_ratio_number::<S, T>(num, BETA_DEN, beta) && is_fresh_number::<S, T>(num, fresh)
            && is_multiply::<S, T>(x, beta, kept) && is_multiply::<S, T>(g, fresh, added)
            && is_plus::<S, T>(kept, added, r);
    let b = choose|y: S| is_ratio(num, BETA_DEN, y) && #[trigger] is_number::<S, T>(y, beta);
    assert(is_number::<S, T>(b, beta));
    let (one, part, rest) = choose|one: S, beta: S, rest: S|
        #![trigger is_diff(one, beta, rest), is_number::<S, T>(rest, fresh)]
        is_one(one) && is_ratio(num, BETA_DEN, beta) && is_diff(one, beta, rest) && is_number::<
            S,
            T,
        >(rest, fresh);
    assert(is_diff(one, part, rest) && is_number::<S, T>(rest, fresh));
    let (p, q, y, z) = (at(x), at(beta), at(g), at(fresh));
    assert(p * q == q * p && y * z == z * y) by (nonlinear_arith);
}

/// A moment without its bias, at one place.
proof fn lemma_tensor_unbiased<S: Scalar, T: Tensor<S>>(
    val: spec_fn(S) -> real,
    at: spec_fn(T) -> real,
    num: u32,
    step: nat,
    x: T,
    r: T,
)
    requires
        exact(val),
        exact_powers(val),
        exact_at::<S, T>(val, at),
        step < i32::MAX,
        0 < num < 100,
        is_tensor_unbiased::<S, T>(num, step, x, r),
    ensures
        at(r) * (1 as real - power(num as real / 100 as real, step + 1)) == at(x),
{
    let bias = choose|bias: T| #[trigger]
        is_divide::<S, T>(x, bias, r) && is_bias_number::<S, T>(num, step, bias);
    let b = choose|b: S|
        is_one_minus_pow(num, BETA_DEN, (step + 1) as u32, b) && #[trigger] is_number::<S, T>(
            b,
            bias,
        );
    assert(is_number::<S, T>(b, bias));
    let beta = num as real / 100 as real;
    assert(beta > 0 as real && beta < 1 as real) by (nonlinear_arith)
        requires
            beta == num as real / 100 as real,
            0 < num < 100,
    ;
    lemma_weights_positive(beta, step + 1);
    lemma_quotient(at(x), at(bias));
}

/// The optimizer over whole tensors does the same at every place: what
/// [`law_steps_follow_the_mean_gradient`] says of a parameter holds of every entry.
pub proof fn law_tensor_steps_follow_the_mean_gradient<S: Scalar, T: Tensor<S>>(
    val: spec_fn(S) -> real,
    at: spec_fn(T) -> real,
    lrs: Seq<S>,
    gs: Seq<T>,
    run: Seq<Moments<T>>,
    i: int,
)
    requires
        exact(val),
        exact_powers(val),
        exact_at::<S, T>(val, at),
        run.len() == gs.len() + 1,
        lrs.len() == gs.len(),
        gs.len() <= i32::MAX,
        at(run[0].m) == 0 as real,
        at(run[0].v) == 0 as real,
        forall|j: int|
            0 <= j < gs.len() ==> is_tensor_adam::<S, T>(
                j as nat,
                lrs[j],
                gs[j],
                run[j],
                #[trigger] run[j + 1],
            ),
        0 <= i < gs.len(),
    ensures
        exists|root: real| #[trigger]
            is_root_of(
                faded_mean(99 as real / 100 as real, squares_of(at, gs), (i + 1) as nat),
                root,
            ) && (at(run[i].p) - at(run[i + 1].p)) * (root + 1 as real / 100_000_000 as real)
                == val(lrs[i]) * faded_mean(
                85 as real / 100 as real,
                numbers_of(at, gs),
                (i + 1) as nat,
            ),
{
    let places = Seq::new(run.len(), |j: int| place_of(at, run[j]));
    let (lr, g) = (numbers_of(val, lrs), numbers_of(at, gs));
    assert forall|j: int| 0 <= j < gs.len() implies moves(
        j as nat,
        lr(j),
        g(j),
        places[j],
        #[trigger] places[j + 1],
    ) by {
        assert(is_tensor_adam::<S, T>(j as nat, lrs[j], gs[j], run[j], run[j + 1]));
        lemma_tensor_numbers(val, at, j as nat, lrs[j], gs[j], run[j], run[j + 1]);
    }
    lemma_places(lr, g, squares_of(at, gs), places, gs.len() as int, i);
}

/// Where all gradients are the same, every step is the rate along the sign of the gradient, up
/// to the `1e-8`: the first step no less and the last no more. So the bias that the zeros at
/// the start bring into the moments is taken out at every step.
pub proof fn law_same_gradients_give_same_steps<S: Scalar>(
    val: spec_fn(S) -> real,
    lrs: Seq<S>,
    gs: Seq<S>,
    run: Seq<Moments<S>>,
    g: real,
    i: int,
)
    requires
        exact(val),
        exact_powers(val),
        is_run(val, lrs, gs, run),
        forall|j: int| 0 <= j < gs.len() ==> val(#[trigger] gs[j]) == g,
        0 <= i < gs.len(),
    ensures
        g >= 0 as real ==> (val(run[i].p) - val(run[i + 1].p)) * (g + 1 as real / 100_000_000 as real)
            == val(lrs[i]) * g,
        g <= 0 as real ==> (val(run[i].p) - val(run[i + 1].p)) * (-g + 1 as real
            / 100_000_000 as real) == val(lrs[i]) * g,
{
    let (f, s) = (numbers_of(val, gs), squares_of(val, gs));
    let (b1, b2) = (85 as real / 100 as real, 99 as real / 100 as real);
    let n = (i + 1) as nat;
    law_steps_follow_the_mean_gradient(val, lrs, gs, run, i);
    let root = choose|root: real| #[trigger]
        is_root_of(faded_mean(b2, s, n), root) && (val(run[i].p) - val(run[i + 1].p)) * (root + 1 as real
            / 100_000_000 as real) == val(lrs[i]) * faded_mean(b1, f, n);
    assert forall|j: int| 0 <= j < n implies #[trigger] f(j) == g by {
        assert(val(gs[j]) == g);
    }
    assert forall|j: int| 0 <= j < n implies #[trigger] s(j) == g * g by {
        assert(val(gs[j]) == g);
    }
    lemma_mean_of_same(b1, f, g, n);
    lemma_mean_of_same(b2, s, g * g, n);
    assert(root == g || root == -g) by (nonlinear_arith)
        requires
            root * root == g * g,
    ;
}

/// The learning rate falls along a line: from the whole rate at the first step by the same
/// amount with every step, to nothing after the last.
pub proof fn law_rate_falls_along_a_line<S: Scalar>(
    val: spec_fn(S) -> real,
    base: S,
    step: nat,
    num_steps: nat,
    now: S,
    next: S,
)
    requires
        exact(val),
        0 < num_steps <= u64::MAX,
        step < num_steps,
        is_decayed_rate(base, step, num_steps, now),
        is_decayed_rate(base, step + 1, num_steps, next),
    ensures
        step == 0 ==> val(now) == val(base),
        (val(now) - val(next)) * num_steps as real == val(base),
        step + 1 == num_steps ==> val(next) == 0 as real,
        val(now) * num_steps as real == val(base) * (num_steps - step) as real,
{
    lemma_rate(val, base, step, num_steps, now);
    lemma_rate(val, base, step + 1, num_steps, next);
    let (b, n, s) = (val(base), num_steps as real, step as real);
    let (x, y) = (val(now), val(next));
    assert((x - y) * n == b) by (nonlinear_arith)
        requires
            x * n == b * (n - s),
            y * n == b * (n - (s + 1 as real)),
    ;
    if step == 0 {
        lemma_cancel(x, b, n);
    }
    if step + 1 == num_steps {
        assert(b * (0 as real) == 0 as real && (0 as real) * n == 0 as real) by (nonlinear_arith);
        lemma_cancel(y, 0 as real, n);
    }
}

/// The rate as a number.
pub proof fn lemma_rate<S: Scalar>(
    val: spec_fn(S) -> real,
    base: S,
    step: nat,
    num_steps: nat,
    r: S,
)
    requires
        exact(val),
        0 < num_steps <= u64::MAX,
        step <= num_steps,
        is_decayed_rate(base, step, num_steps, r),
    ensures
        val(r) * num_steps as real == val(base) * (num_steps as real - step as real),
{
    let (now, end, part, one, left) = choose|now: S, end: S, part: S, one: S, left: S|
        #![trigger is_quot(now, end, part), is_diff(one, part, left)]
        is_num(step as u64, now) && is_num(num_steps as u64, end) && is_quot(now, end, part)
            && is_one(one) && is_diff(one, part, left) && is_prod(base, left, r);
    assert(is_num(step as u64, now) && is_num(num_steps as u64, end));
    assert(is_diff(one, part, left) && is_prod(base, left, r));
    let (b, n, s) = (val(base), num_steps as real, step as real);
    assert(val(end) == n && val(now) == s);
    lemma_quotient(s, n);
    let q = s / n;
    assert((b * (1 as real - q)) * n == b * (n - s)) by (nonlinear_arith)
        requires
            q * n == s,
    ;
}

} // verus!
