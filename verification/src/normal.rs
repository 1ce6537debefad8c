//! What the random numbers are, in exact arithmetic: uniform samples are the upper bits of the
//! draws, Gaussian samples lie around their mean as the logarithm of one uniform sample and the
//! angle of another say, and a shuffle can bring about every order.
use vstd::prelude::*;

use crate::descent::is_root_of;
use crate::exact::exact;
use crate::init::is_init_param;
use crate::layout::Ratio;
use crate::rng::{
    advance, draw, first_live, fisher_yates, gauss_state, is_box_muller, is_direction, is_gauss,
    is_radius, is_unit, law_gauss_ends, lemma_advance_adds, lemma_advance_zero, lemma_draw_after,
    lemma_first_live_unique, shuffle_draws, skips, swapped, unit_bits, UNIT,
};
use crate::scalar::{
    is_cast, is_cos, is_ln, is_neg, is_num, is_one, is_prod, is_quot, is_ratio, is_sqrt, is_sum,
    is_tau, is_zero, Cast, Scalar,
};

verus! {

/// Whether logarithms and cosines are exact, where `lg` and `cs` are these functions and `tau`
/// is the circle constant.
pub open spec fn exact_waves<S: Scalar>(
    val: spec_fn(S) -> real,
    lg: spec_fn(real) -> real,
    cs: spec_fn(real) -> real,
    tau: real,
) -> bool {
    &&& exact(val)
    &&& forall|r: S| #[trigger] is_tau(r) ==> val(r) == tau
    &&& forall|a: S, r: S| #[trigger] is_ln(a, r) ==> val(r) == lg(val(a))
    &&& forall|a: S, r: S| #[trigger] is_cos(a, r) ==> val(r) == cs(val(a))
}

/// Whether the logarithm of a number below one is not above zero.
pub open spec fn falls_below_one(lg: spec_fn(real) -> real) -> bool {
    forall|u: real| u > 0 as real && u < 1 as real ==> #[trigger] lg(u) <= 0 as real
}

/// The number between zero and one that draw `n` of a generator in state `s` makes: its upper
/// 53 bits, as a fraction.
pub open spec fn fraction(s: u64, n: nat) -> real {
    (draw(s, n) / 2048) as real / 9_007_199_254_740_992 as real
}

/// A fraction is one, and below one.
pub proof fn lemma_fraction(s: u64, n: nat)
    ensures
        fraction(s, n) >= 0 as real,
        fraction(s, n) < 1 as real,
        unit_bits(s, n) == draw(s, n) / 2048,
        unit_bits(s, n) != 0 ==> fraction(s, n) > 0 as real,
{
    let z = draw(s, n);
    assert(z >> 11 == z / 2048) by (bit_vector);
    assert(z >> 11 < 0x20_0000_0000_0000) by (bit_vector);
    let (q, u) = ((z / 2048) as real, 9_007_199_254_740_992 as real);
    let r = q / u;
    assert(r >= 0 as real && r < 1 as real && (q > 0 as real ==> r > 0 as real))
        by (nonlinear_arith)
        requires
            r == q / u,
            q >= 0 as real,
            q < u,
            u > 0 as real,
    ;
}

/// A uniform sample is the fraction of its draw.
pub proof fn law_uniform_samples_are_fractions<S: Scalar>(
    val: spec_fn(S) -> real,
    s: u64,
    n: nat,
    u: S,
)
    requires
        exact(val),
        is_unit(unit_bits(s, n), u),
    ensures
        val(u) == fraction(s, n),
        val(u) >= 0 as real,
        val(u) < 1 as real,
{
    lemma_fraction(s, n);
    let (num, den) = choose|num: S, den: S|
        is_num(unit_bits(s, n), num) && is_num(UNIT, den) && #[trigger] is_quot(num, den, u);
    assert(is_num(unit_bits(s, n), num) && is_num(UNIT, den));
    assert(val(den) == 9_007_199_254_740_992 as real);
}

/// A Gaussian sample made of two uniform ones, as numbers.
proof fn lemma_box_muller<S: Scalar>(
    val: spec_fn(S) -> real,
    lg: spec_fn(real) -> real,
    cs: spec_fn(real) -> real,
    tau: real,
    mu: S,
    sigma: S,
    u: S,
    v: S,
    x: S,
) -> (radius: real)
    requires
        exact_waves(val, lg, cs, tau),
        lg(val(u)) <= 0 as real,
        is_box_muller(mu, sigma, u, v, x),
    ensures
        is_root_of(-(2 as real * lg(val(u))), radius),
        val(x) == val(mu) + (val(sigma) * radius) * cs(tau * val(v)),
{
    let (radius, scaled, direction, offset) = choose|radius: S, scaled: S, direction: S, offset: S|
        #![trigger is_prod(sigma, radius, scaled), is_prod(scaled, direction, offset)]
        is_radius(u, radius) && is_prod(sigma, radius, scaled) && is_direction(v, direction)
            && is_prod(scaled, direction, offset) && is_sum(mu, offset, x);
    assert(is_prod(sigma, radius, scaled) && is_prod(scaled, direction, offset));
    let (two, minus_two, log, square) = choose|two: S, minus_two: S, log: S, square: S|
        #![trigger is_neg(two, minus_two), is_prod(minus_two, log, square)]
        is_num(2, two) && is_neg(two, minus_two) && is_ln(u, log) && is_prod(
            minus_two,
            log,
            square,
        ) && is_sqrt(square, radius);
    assert(is_neg(two, minus_two) && is_prod(minus_two, log, square) && is_ln(u, log));
    let l = lg(val(u));
    assert(-(2 as real) * l == -(2 as real * l)) by (nonlinear_arith);
    assert(val(square) == -(2 as real * l));
    assert(is_sqrt(square, radius));
    let (t, angle) = choose|t: S, angle: S|
        is_tau(t) && #[trigger] is_prod(t, v, angle) && is_cos(angle, direction);
    assert(is_prod(t, v, angle) && is_cos(angle, direction));
    val(radius)
}

/// A Gaussian sample lies around its mean as two uniform ones say, the first that is not zero
/// and the one behind it: its distance is the deviation times the root of minus twice the
/// logarithm of the first, along the cosine of the second as a part of the full circle. So it
/// exceeds every bound, where that logarithm goes far enough below zero.
pub proof fn law_samples_lie_around_the_mean<S: Scalar>(
    val: spec_fn(S) -> real,
    lg: spec_fn(real) -> real,
    cs: spec_fn(real) -> real,
    tau: real,
    s: u64,
    k: nat,
    mu: S,
    sigma: S,
    x: S,
    bound: real,
)
    requires
        exact_waves(val, lg, cs, tau),
        falls_below_one(lg),
        bound >= 0 as real,
        is_gauss(s, mu, sigma, x),
        draw(s, k) >= 2048,
        forall|i: nat| i < k ==> #[trigger] draw(s, i) < 2048,
    ensures
        ({
            let d = val(x) - val(mu);
            let c = cs(tau * fraction(s, k + 1));
            let along = val(sigma) * c;
            let far = -(2 as real * lg(fraction(s, k)));
            &&& d * d == (along * along) * far
            &&& d * along >= 0 as real
            &&& (along * along) * far > bound * bound ==> d > bound || d < -bound
        }),
{
    law_gauss_ends(s);
    assert(first_live(s, k)) by {
        lemma_fraction(s, k);
        assert forall|i: nat| i < k implies #[trigger] unit_bits(s, i) == 0 by {
            lemma_fraction(s, i);
            assert(draw(s, i) < 2048);
        }
    }
    lemma_first_live_unique(s, k, skips(s));
    let (u, v) = choose|u1: S, u2: S|
        is_unit(unit_bits(s, skips(s)), u1) && is_unit(unit_bits(s, skips(s) + 1), u2)
            && #[trigger] is_box_muller(mu, sigma, u1, u2, x);
    law_uniform_samples_are_fractions(val, s, k, u);
    law_uniform_samples_are_fractions(val, s, k + 1, v);
    lemma_fraction(s, k);
    let r = lemma_box_muller(val, lg, cs, tau, mu, sigma, u, v, x);
    let (g, c) = (val(sigma), cs(tau * fraction(s, k + 1)));
    let (d, along) = (val(x) - val(mu), g * c);
    let far = -(2 as real * lg(fraction(s, k)));
    assert(d == along * r) by (nonlinear_arith)
        requires
            d == (g * r) * c,
            along == g * c,
    ;
    assert(d * d == (along * along) * far) by (nonlinear_arith)
        requires
            d == along * r,
            r * r == far,
    ;
    assert(d * along >= 0 as real) by (nonlinear_arith)
        requires
            d == along * r,
            r >= 0 as real,
    ;
    if (along * along) * far > bound * bound {
        assert(d > bound || d < -bound) by (nonlinear_arith)
            requires
                d * d > bound * bound,
                bound >= 0 as real,
        ;
    }
}

/// The smaller the first of two uniform samples, the farther away the Gaussian sample. So
/// samples have no fixed distance from their mean.
pub proof fn law_smaller_numbers_lie_farther<S: Scalar>(
    val: spec_fn(S) -> real,
    lg: spec_fn(real) -> real,
    cs: spec_fn(real) -> real,
    tau: real,
    mu: S,
    sigma: S,
    u: S,
    w: S,
    v: S,
    x: S,
    y: S,
)
    requires
        exact_waves(val, lg, cs, tau),
        lg(val(u)) < lg(val(w)),
        lg(val(w)) <= 0 as real,
        val(sigma) * cs(tau * val(v)) != 0 as real,
        is_box_muller(mu, sigma, u, v, x),
        is_box_muller(mu, sigma, w, v, y),
    ensures
        (val(x) - val(mu)) * (val(x) - val(mu)) > (val(y) - val(mu)) * (val(y) - val(mu)),
{
    let r = lemma_box_muller(val, lg, cs, tau, mu, sigma, u, v, x);
    let q = lemma_box_muller(val, lg, cs, tau, mu, sigma, w, v, y);
    let (g, c) = (val(sigma), cs(tau * val(v)));
    let (d, e) = (val(x) - val(mu), val(y) - val(mu));
    let a = (g * c) * (g * c);
    assert(a > 0 as real) by (nonlinear_arith)
        requires
            a == (g * c) * (g * c),
            g * c != 0 as real,
    ;
    assert(d * d == a * (r * r)) by (nonlinear_arith)
        requires
            d == (g * r) * c,
            a == (g * c) * (g * c),
    ;
    assert(e * e == a * (q * q)) by (nonlinear_arith)
        requires
            e == (g * q) * c,
            a == (g * c) * (g * c),
    ;
    let (far, near) = (r * r, q * q);
    assert(a * far > a * near) by (nonlinear_arith)
        requires
            a > 0 as real,
            far > near,
    ;
}

/// Mean and deviation shift and stretch the standard sample that a generator in the same state
/// gives.
pub proof fn law_samples_shift_and_stretch<S: Scalar>(
    val: spec_fn(S) -> real,
    lg: spec_fn(real) -> real,
    cs: spec_fn(real) -> real,
    tau: real,
    s: u64,
    zero: S,
    one: S,
    z: S,
    mu: S,
    sigma: S,
    x: S,
)
    requires
        exact_waves(val, lg, cs, tau),
        falls_below_one(lg),
        is_zero(zero),
        is_one(one),
        is_gauss(s, zero, one, z),
        is_gauss(s, mu, sigma, x),
    ensures
        val(x) == val(mu) + val(sigma) * val(z),
{
    law_gauss_ends(s);
    let k = skips(s);
    lemma_fraction(s, k);
    let (a, b) = choose|u1: S, u2: S|
        is_unit(unit_bits(s, skips(s)), u1) && is_unit(unit_bits(s, skips(s) + 1), u2)
            && #[trigger] is_box_muller(zero, one, u1, u2, z);
    let (u, v) = choose|u1: S, u2: S|
        is_unit(unit_bits(s, skips(s)), u1) && is_unit(unit_bits(s, skips(s) + 1), u2)
            && #[trigger] is_box_muller(mu, sigma, u1, u2, x);
    law_uniform_samples_are_fractions(val, s, k, a);
    law_uniform_samples_are_fractions(val, s, k, u);
    law_uniform_samples_are_fractions(val, s, k + 1, b);
    law_uniform_samples_are_fractions(val, s, k + 1, v);
    let p = lemma_box_muller(val, lg, cs, tau, zero, one, a, b, z);
    let r = lemma_box_muller(val, lg, cs, tau, mu, sigma, u, v, x);
    assert(p == r) by (nonlinear_arith)
        requires
            p * p == r * r,
            p >= 0 as real,
            r >= 0 as real,
    ;
    let (g, c) = (val(sigma), cs(tau * fraction(s, k + 1)));
    assert((g * r) * c == g * ((1 as real * r) * c)) by (nonlinear_arith);
}

/// An initial parameter is the standard sample times the deviation of the configuration.
pub proof fn law_parameters_are_stretched_samples<W: Cast<S>, S: Scalar>(
    val: spec_fn(W) -> real,
    num: spec_fn(S) -> real,
    lg: spec_fn(real) -> real,
    cs: spec_fn(real) -> real,
    tau: real,
    s: u64,
    std: Ratio,
    zero: W,
    one: W,
    z: W,
    p: S,
)
    requires
        exact_waves(val, lg, cs, tau),
        falls_below_one(lg),
        forall|a: W, r: S| #[trigger] is_cast(a, r) ==> num(r) == val(a),
        std.den != 0,
        is_zero(zero),
        is_one(one),
        is_gauss(s, zero, one, z),
        is_init_param::<W, S>(s, std, p),
    ensures
        num(p) == (std.num as real / std.den as real) * val(z),
{
    let (o, sigma, sample) = choose|zero: W, sigma: W, sample: W|
        is_zero(zero) && is_ratio(std.num, std.den, sigma) && #[trigger] is_gauss(
            s,
            zero,
            sigma,
            sample,
        ) && is_cast(sample, p);
    assert(is_gauss(s, o, sigma, sample));
    law_samples_shift_and_stretch(val, lg, cs, tau, s, zero, one, z, o, sigma, sample);
}

/// Where in the stream of draws the samples start: as many draws behind the seed.
proof fn lemma_stream(s: u64, n: nat) -> (at: nat)
    ensures
        gauss_state(s, n) == advance(s, at),
        at >= 2 * n,
    decreases n,
{
    if n == 0 {
        lemma_advance_zero(s);
        0
    } else {
        let before = lemma_stream(s, (n - 1) as nat);
        let t = gauss_state(s, (n - 1) as nat);
        lemma_advance_adds(s, before, skips(t) + 2);
        before + skips(t) + 2
    }
}

/// Samples `i` and `j` of a generator are made of draws of their own: the first uses the draws
/// `r.0` and the one behind it, the second `r.1` and the one behind it, and the second pair lies
/// behind the first.
pub proof fn law_samples_share_no_draw<S: Scalar>(
    val: spec_fn(S) -> real,
    lg: spec_fn(real) -> real,
    cs: spec_fn(real) -> real,
    tau: real,
    s: u64,
    i: nat,
    j: nat,
    mu: S,
    sigma: S,
    x: S,
    y: S,
) -> (r: (nat, nat))
    requires
        exact_waves(val, lg, cs, tau),
        falls_below_one(lg),
        i < j,
        is_gauss(gauss_state(s, i), mu, sigma, x),
        is_gauss(gauss_state(s, j), mu, sigma, y),
    ensures
        r.0 + 1 < r.1,
        draw(s, r.0) >= 2048,
        draw(s, r.1) >= 2048,
        ({
            let (d, along) = (val(x) - val(mu), val(sigma) * cs(tau * fraction(s, r.0 + 1)));
            d * d == (along * along) * -(2 as real * lg(fraction(s, r.0)))
        }),
        ({
            let (d, along) = (val(y) - val(mu), val(sigma) * cs(tau * fraction(s, r.1 + 1)));
            d * d == (along * along) * -(2 as real * lg(fraction(s, r.1)))
        }),
{
    let (a, e) = (gauss_state(s, i), gauss_state(s, j));
    let at = lemma_stream(s, i);
    let next = lemma_later(s, i, j, at);
    let (p, q) = (skips(a), skips(e));
    law_gauss_ends(a);
    law_gauss_ends(e);
    lemma_live_draws(a, p);
    lemma_live_draws(e, q);
    law_samples_lie_around_the_mean(val, lg, cs, tau, a, p, mu, sigma, x, 0 as real);
    law_samples_lie_around_the_mean(val, lg, cs, tau, e, q, mu, sigma, y, 0 as real);
    lemma_draw_after(s, at, p);
    lemma_draw_after(s, at, p + 1);
    lemma_draw_after(s, next, q);
    lemma_draw_after(s, next, q + 1);
    (at + p, next + q)
}

/// The draws that a sample passes over.
proof fn lemma_live_draws(s: u64, k: nat)
    requires
        first_live(s, k),
    ensures
        draw(s, k) >= 2048,
        forall|i: nat| i < k ==> #[trigger] draw(s, i) < 2048,
{
    lemma_fraction(s, k);
    assert forall|i: nat| i < k implies #[trigger] draw(s, i) < 2048 by {
        assert(unit_bits(s, i) == 0);
        lemma_fraction(s, i);
    }
}

/// A later sample starts behind the draws of an earlier one.
proof fn lemma_later(s: u64, i: nat, j: nat, at: nat) -> (next: nat)
    requires
        i < j,
        gauss_state(s, i) == advance(s, at),
    ensures
        gauss_state(s, j) == advance(s, next),
        next >= at + skips(gauss_state(s, i)) + 2,
    decreases j,
{
    let m = (j - 1) as nat;
    let t = gauss_state(s, m);
    if m == i {
        lemma_advance_adds(s, at, skips(t) + 2);
        at + skips(t) + 2
    } else {
        let before = lemma_later(s, i, m, at);
        lemma_advance_adds(s, before, skips(t) + 2);
        before + skips(t) + 2
    }
}

/// A shuffle from position `i` down leaves what lies behind.
proof fn lemma_shuffle_keeps<T>(xs: Seq<T>, s: u64, i: nat, k: int)
    requires
        i < xs.len(),
        i < k < xs.len(),
    ensures
        fisher_yates(xs, s, i).len() == xs.len(),
        fisher_yates(xs, s, i)[k] == xs[k],
    decreases i,
{
    if i > 0 {
        let j = draw(s, 0) as int % (i as int + 1);
        lemma_shuffle_keeps(swapped(xs, i as int, j), advance(s, 1), (i - 1) as nat, k);
    }
}

/// Exchanging two of different items leaves them different.
proof fn lemma_swapped_distinct<T>(xs: Seq<T>, i: int, j: int)
    requires
        xs.no_duplicates(),
        0 <= i < xs.len(),
        0 <= j < xs.len(),
    ensures
        swapped(xs, i, j).no_duplicates(),
{
}

/// The choices of a shuffle from position `i` down: equal orders come from equal choices.
proof fn lemma_choices_differ<T>(xs: Seq<T>, s: u64, t: u64, i: nat, k: nat)
    requires
        xs.no_duplicates(),
        i < xs.len(),
        fisher_yates(xs, s, i) == fisher_yates(xs, t, i),
        1 <= k <= i,
    ensures
        draw(s, (i - k) as nat) as int % (k as int + 1) == draw(t, (i - k) as nat) as int % (k as int
            + 1),
    decreases i,
{
    let n = i as int;
    let (a, b) = (draw(s, 0) as int % (n + 1), draw(t, 0) as int % (n + 1));
    let (x, y) = (swapped(xs, n, a), swapped(xs, n, b));
    let (s1, t1) = (advance(s, 1), advance(t, 1));
    let m = (i - 1) as nat;
    lemma_shuffle_last(xs, s, i);
    lemma_shuffle_last(xs, t, i);
    assert(xs[a] == xs[b]);
    assert(a == b);
    if k < i {
        lemma_swapped_distinct(xs, n, a);
        lemma_choices_differ(x, s1, t1, m, k);
        lemma_draw_after(s, 1, (m - k) as nat);
        lemma_draw_after(t, 1, (m - k) as nat);
    }
}

/// The item that the first choice of a shuffle puts at its place.
proof fn lemma_shuffle_last<T>(xs: Seq<T>, s: u64, i: nat)
    requires
        0 < i < xs.len(),
    ensures
        fisher_yates(xs, s, i).len() == xs.len(),
        fisher_yates(xs, s, i)[i as int] == xs[draw(s, 0) as int % (i as int + 1)],
{
    let j = draw(s, 0) as int % (i as int + 1);
    let next = swapped(xs, i as int, j);
    if i > 1 {
        lemma_shuffle_keeps(next, advance(s, 1), (i - 1) as nat, i as int);
    } else {
        assert(fisher_yates(next, advance(s, 1), 0) == next);
    }
}

/// A shuffle can bring about every order, each in one way: two generators that bring different
/// items into the same order choose the same place, out of all that are left, for every item.
/// For the position `k` there are `k + 1` places to choose from, so there are as many ways to
/// choose as there are orders.
pub proof fn law_every_order_has_its_own_draws<T>(xs: Seq<T>, s: u64, t: u64, k: nat)
    requires
        xs.no_duplicates(),
        xs.len() <= u64::MAX,
        fisher_yates(xs, s, shuffle_draws(xs.len())) == fisher_yates(
            xs,
            t,
            shuffle_draws(xs.len()),
        ),
        1 <= k < xs.len(),
    ensures
        draw(s, (xs.len() - 1 - k) as nat) as int % (k as int + 1) == draw(
            t,
            (xs.len() - 1 - k) as nat,
        ) as int % (k as int + 1),
{
    lemma_choices_differ(xs, s, t, (xs.len() - 1) as nat, k);
}

/// The first draw of a shuffle chooses the last item, out of all items.
pub proof fn law_the_first_draw_chooses_the_last_item<T>(xs: Seq<T>, s: u64)
    requires
        xs.len() > 1,
    ensures
        fisher_yates(xs, s, shuffle_draws(xs.len()))[xs.len() - 1] == xs[draw(s, 0) as int
            % xs.len() as int],
{
    lemma_shuffle_last(xs, s, (xs.len() - 1) as nat);
}

} // verus!
