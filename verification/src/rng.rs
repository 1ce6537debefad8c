//! A small deterministic random number generator: splitmix64, uniform and Gaussian
//! samples on top of it, a Fisher-Yates shuffle and a weighted choice.
use vstd::arithmetic::div_mod::{lemma_add_mod_noop_right, lemma_mul_mod_noop_left, lemma_small_mod};
use vstd::prelude::*;
use vstd::relations::injective_on;
use vstd::set_lib::{lemma_int_range, lemma_len_subset, lemma_map_size, set_int_range};

use crate::reduce::{is_total, total};
use crate::scalar::{
    is_cos, is_diff, is_ln, is_neg, is_num, is_prod, is_quot, is_sqrt, is_sum, is_tau,
    tests_nonpositive, tests_positive, Scalar,
};

verus! {

/// How far the state moves with every draw. It is odd, so the state visits every
/// 64-bit value before it repeats.
pub const GAMMA: u64 = 0x9E3779B97F4A7C15;

/// The denominator of a uniform sample.
pub const UNIT: u64 = 0x20_0000_0000_0000;

/// The number of values a `u64` can take.
pub open spec fn two64() -> int {
    0x1_0000_0000_0000_0000
}

/// The state `n` draws after the state `s`.
pub open spec fn advance(s: u64, n: nat) -> u64 {
    ((s + n * GAMMA) % two64()) as u64
}

/// The finalizer of splitmix64: what a state is turned into when it is drawn.
pub open spec fn mix(z: u64) -> u64 {
    let a = vstd::wrapping::u64_specs::wrapping_mul(z ^ (z >> 30), 0xBF58476D1CE4E5B9);
    let b = vstd::wrapping::u64_specs::wrapping_mul(a ^ (a >> 27), 0x94D049BB133111EB);
    b ^ (b >> 31)
}

/// The `n`-th number (from 0) that a generator in state `s` gives.
pub open spec fn draw(s: u64, n: nat) -> u64 {
    mix(advance(s, n + 1))
}

/// The numerator, over [`UNIT`], of the uniform sample made of draw `n`.
pub open spec fn unit_bits(s: u64, n: nat) -> u64 {
    draw(s, n) >> 11
}

/// `r` is the number `bits / UNIT`.
pub open spec fn is_unit<S: Scalar>(bits: u64, r: S) -> bool {
    exists|num: S, den: S|
        is_num(bits, num) && is_num(UNIT, den) && #[trigger] is_quot(num, den, r)
}

/// `r` is `sqrt(-2 ln u)`, the radius of the Box-Muller transform.
pub open spec fn is_radius<S: Scalar>(u: S, r: S) -> bool {
    exists|two: S, minus_two: S, log: S, square: S|
        #![trigger is_neg(two, minus_two), is_prod(minus_two, log, square)]
        is_num(2, two) && is_neg(two, minus_two) && is_ln(u, log) && is_prod(
            minus_two,
            log,
            square,
        ) && is_sqrt(square, r)
}

/// `r` is `cos(tau * u)`, the direction of the Box-Muller transform.
pub open spec fn is_direction<S: Scalar>(u: S, r: S) -> bool {
    exists|tau: S, angle: S| is_tau(tau) && #[trigger] is_prod(tau, u, angle) && is_cos(angle, r)
}

/// `r` is `mu + sigma * sqrt(-2 ln u1) * cos(tau * u2)`.
pub open spec fn is_box_muller<S: Scalar>(mu: S, sigma: S, u1: S, u2: S, r: S) -> bool {
    exists|radius: S, scaled: S, direction: S, offset: S|
        #![trigger is_prod(sigma, radius, scaled), is_prod(scaled, direction, offset)]
        is_radius(u1, radius) && is_prod(sigma, radius, scaled) && is_direction(u2, direction)
            && is_prod(scaled, direction, offset) && is_sum(mu, offset, r)
}

/// Draw `k` is the first one, in state `s`, whose uniform sample is not zero.
pub open spec fn first_live(s: u64, k: nat) -> bool {
    &&& unit_bits(s, k) != 0
    &&& forall|i: nat| i < k ==> #[trigger] unit_bits(s, i) == 0
}

/// How many draws a Gaussian sample in state `s` passes over, because their uniform sample
/// is zero.
pub open spec fn skips(s: u64) -> nat {
    choose|k: nat| first_live(s, k)
}

/// `r` is the Gaussian sample of a generator in state `s`: the Box-Muller transform of the
/// first uniform sample that is not zero and of the one that follows it.
pub open spec fn is_gauss<S: Scalar>(s: u64, mu: S, sigma: S, r: S) -> bool {
    exists|u1: S, u2: S|
        is_unit(unit_bits(s, skips(s)), u1) && is_unit(unit_bits(s, skips(s) + 1), u2)
            && #[trigger] is_box_muller(mu, sigma, u1, u2, r)
}

/// The state after a Gaussian sample.
pub open spec fn after_gauss(s: u64) -> u64 {
    advance(s, skips(s) + 2)
}

/// The state after `n` Gaussian samples.
pub open spec fn gauss_state(s: u64, n: nat) -> u64
    decreases n,
{
    if n == 0 {
        s
    } else {
        after_gauss(gauss_state(s, (n - 1) as nat))
    }
}

/// `rest[i]` is what is left of `rest[0]` after taking away the first `i` weights.
pub open spec fn is_countdown<S: Scalar>(weights: Seq<S>, rest: Seq<S>) -> bool {
    forall|i: int|
        0 <= i < rest.len() - 1 ==> is_diff(rest[i], weights[i], #[trigger] rest[i + 1])
}

/// `b` is an outcome of the test whether `w` is at least zero.
pub open spec fn tests_weight<S: Scalar>(w: S, b: bool) -> bool {
    exists|minus: S| is_neg(w, minus) && #[trigger] tests_nonpositive(minus, b)
}

/// `b` is an outcome of the test whether `weights` are proportions: none is below zero, and
/// one is above it.
pub open spec fn tests_proportions<S: Scalar>(weights: Seq<S>, b: bool) -> bool {
    if b {
        &&& forall|i: int| 0 <= i < weights.len() ==> tests_weight(#[trigger] weights[i], true)
        &&& exists|i: int| 0 <= i < weights.len() && tests_positive(#[trigger] weights[i], true)
    } else {
        ||| exists|i: int| 0 <= i < weights.len() && tests_weight(#[trigger] weights[i], false)
        ||| forall|i: int| 0 <= i < weights.len() ==> tests_positive(#[trigger] weights[i], false)
    }
}

/// Whether an item of weight `w` can be picked. Among proportions it has to have a weight.
pub open spec fn counts<S: Scalar>(proportions: bool, w: S, b: bool) -> bool {
    if proportions {
        tests_positive(w, b)
    } else {
        b
    }
}

/// The countdown passes an item of weight `w` that leaves `left`: something is left, or the
/// item cannot be picked.
pub open spec fn passes<S: Scalar>(proportions: bool, w: S, left: S) -> bool {
    tests_nonpositive(left, false) || counts(proportions, w, false)
}

/// The countdown stops at item `k`, and passes those before it: item `k` can be picked, and
/// nothing is left behind it.
pub open spec fn stops_at<S: Scalar>(
    proportions: bool,
    weights: Seq<S>,
    k: int,
    rest: Seq<S>,
) -> bool {
    &&& rest.len() == k + 2
    &&& forall|i: int| 0 <= i < k ==> passes(proportions, #[trigger] weights[i], rest[i + 1])
    &&& tests_nonpositive(rest[k + 1], true)
    &&& counts(proportions, weights[k], true)
}

/// The countdown passes all items. Then `k` is the last one that can be picked.
pub open spec fn falls_back_to<S: Scalar>(
    proportions: bool,
    weights: Seq<S>,
    k: int,
    rest: Seq<S>,
) -> bool {
    &&& rest.len() == weights.len() + 1
    &&& forall|i: int|
        0 <= i < weights.len() ==> passes(proportions, #[trigger] weights[i], rest[i + 1])
    &&& counts(proportions, weights[k], true)
    &&& forall|i: int|
        k < i < weights.len() ==> counts(proportions, #[trigger] weights[i], false)
}

/// `k` is where taking the weights away from `level`, one after the other, leaves nothing.
/// Among proportions, items without weight are passed over.
pub open spec fn is_pick<S: Scalar>(weights: Seq<S>, level: S, k: int) -> bool {
    exists|proportions: bool, rest: Seq<S>| #[trigger]
        is_pick_by(weights, level, k, proportions, rest)
}

/// [`is_pick`], with whether the weights are proportions, and what is left along the way.
pub open spec fn is_pick_by<S: Scalar>(
    weights: Seq<S>,
    level: S,
    k: int,
    proportions: bool,
    rest: Seq<S>,
) -> bool {
    &&& 0 <= k < weights.len()
    &&& tests_proportions(weights, proportions)
    &&& rest[0] == level
    &&& is_countdown(weights, rest)
    &&& stops_at(proportions, weights, k, rest) || falls_back_to(proportions, weights, k, rest)
}

/// `k` is the choice among `weights` that the uniform numerator `bits` makes.
pub open spec fn is_choice<S: Scalar>(weights: Seq<S>, bits: u64, k: int) -> bool {
    exists|sum: S, u: S, level: S|
        is_total(weights, sum) && is_unit(bits, u) && #[trigger] is_prod(u, sum, level)
            && is_pick(weights, level, k)
}

/// `xs` with the items at `i` and `j` exchanged.
pub open spec fn swapped<T>(xs: Seq<T>, i: int, j: int) -> Seq<T> {
    xs.update(i, xs[j]).update(j, xs[i])
}

/// What a Fisher-Yates shuffle makes of `xs` when it has the positions `i` down to 1
/// still to fill and draws from a generator in state `s`: position `i` exchanges its
/// item with one of the positions up to `i`.
pub open spec fn fisher_yates<T>(xs: Seq<T>, s: u64, i: nat) -> Seq<T>
    decreases i,
{
    if i == 0 {
        xs
    } else {
        fisher_yates(
            swapped(xs, i as int, draw(s, 0) as int % (i as int + 1)),
            advance(s, 1),
            (i - 1) as nat,
        )
    }
}

/// The number of draws that a shuffle of `len` items takes.
pub open spec fn shuffle_draws(len: nat) -> nat {
    if len == 0 {
        0
    } else {
        (len - 1) as nat
    }
}

/// A splitmix64 generator; the field is its state.
pub struct Rng(pub u64);

impl Rng {
    /// A generator that starts from `seed`.
    pub fn new(seed: u64) -> (r: Rng)
        ensures
            r.0 == seed,
    {
        Rng(seed)
    }

    /// The next 64 random bits.
    pub fn next_u64(&mut self) -> (z: u64)
        ensures
            z == draw(old(self).0, 0),
            final(self).0 == advance(old(self).0, 1),
    {
        self.0 = self.0.wrapping_add(GAMMA);
        let mut z: u64 = self.0;
        z = (z ^ (z >> 30)).wrapping_mul(0xBF58476D1CE4E5B9);
        z = (z ^ (z >> 27)).wrapping_mul(0x94D049BB133111EB);
        z ^ (z >> 31)
    }

    /// The numerator of a uniform sample: one of `0..UNIT`.
    pub fn next_unit(&mut self) -> (bits: u64)
        ensures
            bits == unit_bits(old(self).0, 0),
            bits < UNIT,
            final(self).0 == advance(old(self).0, 1),
    {
        let z: u64 = self.next_u64();
        assert(z >> 11 < 0x20_0000_0000_0000) by (bit_vector);
        z >> 11
    }

    /// A sample that is uniform in `[0, 1)`.
    pub fn uniform<S: Scalar>(&mut self) -> (u: S)
        ensures
            unit_bits(old(self).0, 0) < UNIT,
            is_unit(unit_bits(old(self).0, 0), u),
            final(self).0 == advance(old(self).0, 1),
    {
        let bits: u64 = self.next_unit();
        unit(bits)
    }

    /// A sample of the normal distribution with mean `mu` and deviation `sigma`.
    pub fn gauss<S: Scalar>(&mut self, mu: S, sigma: S) -> (r: S)
        ensures
            is_gauss(old(self).0, mu, sigma, r),
            final(self).0 == after_gauss(old(self).0),
    {
        let ghost start = self.0;
        let ghost mut skipped: nat = 0;
        let mut bits: u64 = self.next_unit();
        while bits == 0
            invariant
                self.0 == advance(start, skipped + 1),
                bits == unit_bits(start, skipped),
                forall|i: nat| i < skipped ==> #[trigger] unit_bits(start, i) == 0,
                skipped <= 2048,
            decreases 2048 - skipped,
        {
            proof {
                lemma_zero_units_are_few(start, skipped + 1);
                lemma_draw_after(start, skipped + 1, 0);
                lemma_advance_adds(start, skipped + 1, 1);
                skipped = skipped + 1;
            }
            bits = self.next_unit();
        }
        proof {
            assert(first_live(start, skipped));
            lemma_first_live_unique(start, skipped, skips(start));
            lemma_draw_after(start, skipped + 1, 0);
            lemma_advance_adds(start, skipped + 1, 1);
        }
        let u1: S = unit(bits);
        let u2: S = self.uniform();
        box_muller(mu, sigma, u1, u2)
    }

    /// Shuffles `xs` in place.
    pub fn shuffle<T>(&mut self, xs: &mut [T])
        ensures
            final(xs)@ == fisher_yates(old(xs)@, old(self).0, shuffle_draws(old(xs)@.len())),
            final(xs)@.to_multiset() == old(xs)@.to_multiset(),
            final(self).0 == advance(old(self).0, shuffle_draws(old(xs)@.len())),
    {
        let len: usize = xs.len();
        proof {
            lemma_advance_zero(self.0);
        }
        if len == 0 {
            return ;
        }
        let ghost start = self.0;
        let ghost items = xs@;
        let mut i: usize = len - 1;
        while i > 0
            invariant
                0 <= i < len == xs@.len() == items.len(),
                fisher_yates(xs@, self.0, i as nat) == fisher_yates(items, start, (len - 1) as nat),
                xs@.to_multiset() == items.to_multiset(),
                self.0 == advance(start, (len - 1 - i) as nat),
            decreases i,
        {
            let ghost before = xs@;
            let j: usize = (self.next_u64() % (i as u64 + 1)) as usize;
            if j < i {
                let (low, high) = xs.split_at_mut(i);
                core::mem::swap(&mut low[j], &mut high[0]);
            }
            proof {
                lemma_advance_adds(start, (len - 1 - i) as nat, 1);
                assert(xs@ =~= swapped(before, i as int, j as int));
                lemma_swap_keeps_items(before, i as int, j as int);
            }
            i = i - 1;
        }
    }

    /// Samples an index in proportion to the given weights, which need not add up to one. An
    /// index without weight is never drawn where another has one.
    pub fn choices<S: Scalar>(&mut self, weights: &[S]) -> (k: usize)
        requires
            weights@.len() > 0,
        ensures
            is_choice(weights@, unit_bits(old(self).0, 0), k as int),
            k < weights@.len(),
            final(self).0 == advance(old(self).0, 1),
    {
        assert(weights@.take(weights@.len() as int) =~= weights@);
        let sum: S = total(weights, weights.len());
        let u: S = self.uniform();
        let level: S = u.mul(sum);
        pick(weights, level)
    }
}

/// The number `bits / UNIT`.
fn unit<S: Scalar>(bits: u64) -> (r: S)
    ensures
        is_unit(bits, r),
{
    let num: S = S::from_u64(bits);
    let den: S = S::from_u64(UNIT);
    num.div(den)
}

/// The Box-Muller transform of two uniform samples.
fn box_muller<S: Scalar>(mu: S, sigma: S, u1: S, u2: S) -> (r: S)
    ensures
        is_box_muller(mu, sigma, u1, u2, r),
{
    let two: S = S::from_u64(2);
    let minus_two: S = two.neg();
    let log: S = u1.ln();
    let square: S = minus_two.mul(log);
    let radius: S = square.sqrt();
    let scaled: S = sigma.mul(radius);
    let tau: S = S::tau();
    let angle: S = tau.mul(u2);
    let direction: S = angle.cos();
    let offset: S = scaled.mul(direction);
    let r: S = mu.add(offset);
    assert(is_radius(u1, radius));
    assert(is_direction(u2, direction));
    r
}

/// Whether the weights are proportions, and which of them are above zero.
fn proportions_of<S: Scalar>(weights: &[S]) -> (r: (bool, Vec<bool>))
    ensures
        tests_proportions(weights@, r.0),
        r.1@.len() == weights@.len(),
        forall|i: int| 0 <= i < weights@.len() ==> tests_positive(weights@[i], #[trigger] r.1@[i]),
        r.0 ==> exists|i: int| 0 <= i < weights@.len() && #[trigger] r.1@[i],
{
    let mut all: bool = true;
    let mut some: bool = false;
    let mut above: Vec<bool> = Vec::new();
    for i in 0..weights.len()
        invariant
            above@.len() == i,
            forall|j: int| 0 <= j < i ==> tests_positive(weights@[j], #[trigger] above@[j]),
            all ==> forall|j: int| 0 <= j < i ==> tests_weight(#[trigger] weights@[j], true),
            !all ==> exists|j: int| 0 <= j < i && tests_weight(#[trigger] weights@[j], false),
            some ==> exists|j: int| 0 <= j < i && #[trigger] above@[j],
            !some ==> forall|j: int| 0 <= j < i ==> !#[trigger] above@[j],
    {
        let minus: S = weights[i].neg();
        let weight: bool = minus.is_nonpositive();
        let positive: bool = weights[i].is_positive();
        let ghost before = above@;
        above.push(positive);
        proof {
            assert(tests_nonpositive(minus, weight));
            assert(tests_weight(weights@[i as int], weight));
            if some {
                let j = choose|j: int| 0 <= j < i && #[trigger] before[j];
                assert(above@[j]);
            }
            assert(above@[i as int] == positive);
        }
        all = all && weight;
        some = some || positive;
    }
    proof {
        if some {
            let j = choose|j: int| 0 <= j < weights@.len() && #[trigger] above@[j];
            assert(tests_positive(weights@[j], true));
        } else {
            assert forall|j: int| 0 <= j < weights@.len() implies tests_positive(
                #[trigger] weights@[j],
                false,
            ) by {
                assert(!above@[j]);
            }
        }
    }
    (all && some, above)
}

/// The first item at which taking the weights away from `level` leaves nothing; where
/// rounding leaves something to the end, the last item. Among proportions, items without
/// weight are passed over.
pub fn pick<S: Scalar>(weights: &[S], level: S) -> (k: usize)
    requires
        weights@.len() > 0,
    ensures
        is_pick(weights@, level, k as int),
        k < weights@.len(),
{
    let (proportions, above): (bool, Vec<bool>) = proportions_of(weights);
    let mut left: S = level;
    let ghost mut rest: Seq<S> = seq![level];
    let mut last: usize = 0;
    for i in 0..weights.len()
        invariant
            above@.len() == weights@.len(),
            tests_proportions(weights@, proportions),
            forall|j: int| 0 <= j < weights@.len() ==> tests_positive(weights@[j], #[trigger] above@[j]),
            rest.len() == i + 1,
            rest[0] == level,
            rest[i as int] == left,
            is_countdown(weights@, rest),
            forall|j: int| 0 <= j < i ==> passes(proportions, #[trigger] weights@[j], rest[j + 1]),
            last < weights@.len(),
            (exists|j: int| 0 <= j < i && (!proportions || #[trigger] above@[j])) ==> counts(
                proportions,
                weights@[last as int],
                true,
            ),
            forall|j: int|
                last < j < i ==> counts(proportions, #[trigger] weights@[j], false),
    {
        left = left.sub(weights[i]);
        let ghost longer = rest.push(left);
        assert(is_countdown(weights@, longer)) by {
            assert forall|j: int| 0 <= j < longer.len() - 1 implies is_diff(
                longer[j],
                weights@[j],
                #[trigger] longer[j + 1],
            ) by {
                if j < rest.len() - 1 {
                    assert(longer[j + 1] == rest[j + 1]);
                }
            }
        }
        let counting: bool = !proportions || above[i];
        assert(counts(proportions, weights@[i as int], counting)) by {
            assert(tests_positive(weights@[i as int], above@[i as int]));
        }
        if left.is_nonpositive() && counting {
            assert(stops_at(proportions, weights@, i as int, longer));
            assert(is_pick_by(weights@, level, i as int, proportions, longer));
            return i;
        }
        assert(passes(proportions, weights@[i as int], left));
        if counting {
            last = i;
        }
        proof {
            assert(above@[i as int] == above@[i as int]);
            rest = longer;
        }
    }
    proof {
        if proportions {
            let j = choose|j: int| 0 <= j < weights@.len() && #[trigger] above@[j];
            assert(above@[j]);
        } else {
            assert(above@[0] == above@[0]);
        }
    }
    assert(falls_back_to(proportions, weights@, last as int, rest));
    assert(is_pick_by(weights@, level, last as int, proportions, rest));
    last
}

/// There is only one first draw.
pub proof fn lemma_first_live_unique(s: u64, j: nat, k: nat)
    requires
        first_live(s, j),
        first_live(s, k),
    ensures
        j == k,
{
    if j < k {
        assert(unit_bits(s, j) == 0);
    } else if k < j {
        assert(unit_bits(s, k) == 0);
    }
}

/// Every state has a first draw whose uniform sample is not zero, so a Gaussian sample
/// always comes: it passes over no more than 2048 draws.
pub proof fn law_gauss_ends(s: u64)
    ensures
        first_live(s, skips(s)),
        skips(s) <= 2048,
{
    let k = lemma_live_draw(s, 0);
    lemma_first_live_unique(s, k, skips(s));
}

proof fn lemma_live_draw(s: u64, from: nat) -> (k: nat)
    requires
        from <= 2048,
        forall|i: nat| i < from ==> #[trigger] unit_bits(s, i) == 0,
    ensures
        first_live(s, k),
        k <= 2048,
    decreases 2048 - from,
{
    if unit_bits(s, from) != 0 {
        from
    } else {
        assert forall|i: nat| i < from + 1 implies #[trigger] unit_bits(s, i) == 0 by {
            if i == from {
                assert(unit_bits(s, from) == 0);
            }
        }
        lemma_zero_units_are_few(s, from + 1);
        lemma_live_draw(s, from + 1)
    }
}

/// Drawing nothing leaves the state alone.
pub proof fn lemma_advance_zero(s: u64)
    ensures
        advance(s, 0) == s,
{
}

/// Drawing `m` numbers and then `n` more moves the state as drawing `m + n` does.
pub proof fn lemma_advance_adds(s: u64, m: nat, n: nat)
    ensures
        advance(advance(s, m), n) == advance(s, m + n),
{
    assert(s + (m + n) * GAMMA == (n * GAMMA) + (s + m * GAMMA)) by (nonlinear_arith);
    lemma_add_mod_noop_right(n * GAMMA as int, s + m * GAMMA, two64());
}

/// The draws that follow the first `m` are those of the state `m` draws on.
pub proof fn lemma_draw_after(s: u64, m: nat, n: nat)
    ensures
        draw(advance(s, m), n) == draw(s, m + n),
        unit_bits(advance(s, m), n) == unit_bits(s, m + n),
{
    lemma_advance_adds(s, m, n + 1);
}

/// Taking `m` Gaussian samples and then `n` more moves the state as taking `m + n` does.
pub proof fn lemma_gauss_state_adds(s: u64, m: nat, n: nat)
    ensures
        gauss_state(gauss_state(s, m), n) == gauss_state(s, m + n),
    decreases n,
{
    if n > 0 {
        lemma_gauss_state_adds(s, m, (n - 1) as nat);
    }
}

/// Exchanging two items keeps the items.
proof fn lemma_swap_keeps_items<T>(xs: Seq<T>, i: int, j: int)
    requires
        0 <= i < xs.len(),
        0 <= j < xs.len(),
    ensures
        swapped(xs, i, j).to_multiset() == xs.to_multiset(),
{
    broadcast use vstd::seq_lib::group_to_multiset_ensures;

    let once = xs.update(i, xs[j]);
    vstd::seq_lib::to_multiset_update(xs, i, xs[j]);
    vstd::seq_lib::to_multiset_update(once, j, xs[i]);
    assert(xs.contains(xs[i]));
    assert(xs.to_multiset().count(xs[i]) > 0);
    assert(swapped(xs, i, j).to_multiset() =~= xs.to_multiset());
}

/// Multiplying by a number that has an inverse modulo 2^64 loses nothing.
proof fn lemma_mul_injective(a: int, b: int, m: int, inverse: int)
    requires
        0 <= a < two64(),
        0 <= b < two64(),
        (m * inverse) % two64() == 1,
        (a * m) % two64() == (b * m) % two64(),
    ensures
        a == b,
{
    lemma_mul_inverse(a, m, inverse);
    lemma_mul_inverse(b, m, inverse);
}

proof fn lemma_mul_inverse(a: int, m: int, inverse: int)
    requires
        0 <= a < two64(),
        (m * inverse) % two64() == 1,
    ensures
        (((a * m) % two64()) * inverse) % two64() == a,
{
    let p = two64();
    lemma_mul_mod_noop_left(a * m, inverse, p);
    assert((a * m) * inverse == (m * inverse) * a) by (nonlinear_arith);
    lemma_mul_mod_noop_left(m * inverse, a, p);
    lemma_small_mod(a as nat, p as nat);
}

/// Two states that are drawn as the same number are the same state.
pub proof fn law_mix_is_injective(y: u64, z: u64)
    requires
        mix(y) == mix(z),
    ensures
        y == z,
{
    let y0 = y ^ (y >> 30);
    let z0 = z ^ (z >> 30);
    let ya = vstd::wrapping::u64_specs::wrapping_mul(y0, 0xBF58476D1CE4E5B9);
    let za = vstd::wrapping::u64_specs::wrapping_mul(z0, 0xBF58476D1CE4E5B9);
    let y1 = ya ^ (ya >> 27);
    let z1 = za ^ (za >> 27);
    let yb = vstd::wrapping::u64_specs::wrapping_mul(y1, 0x94D049BB133111EB);
    let zb = vstd::wrapping::u64_specs::wrapping_mul(z1, 0x94D049BB133111EB);
    assert(yb ^ (yb >> 31) == zb ^ (zb >> 31) ==> yb == zb) by (bit_vector);
    lemma_mul_injective(y1 as int, z1 as int, 0x94D049BB133111EB, 0x319642B2D24D8EC3);
    assert(ya ^ (ya >> 27) == za ^ (za >> 27) ==> ya == za) by (bit_vector);
    lemma_mul_injective(y0 as int, z0 as int, 0xBF58476D1CE4E5B9, 0x96DE1B173F119089);
    assert(y ^ (y >> 30) == z ^ (z >> 30) ==> y == z) by (bit_vector);
}

/// A generator repeats no number within 2^64 draws: over its period it gives every
/// 64-bit number exactly once.
pub proof fn law_draws_are_distinct(s: u64, i: nat, j: nat)
    requires
        i < j,
        j - i < two64(),
    ensures
        draw(s, i) != draw(s, j),
{
    if draw(s, i) == draw(s, j) {
        let p = two64();
        law_mix_is_injective(advance(s, i + 1), advance(s, j + 1));
        let si = s + (i + 1) * GAMMA;
        let sj = s + (j + 1) * GAMMA;
        let gap = (j - i) * GAMMA;
        assert(sj == si + gap) by (nonlinear_arith)
            requires
                si == s + (i + 1) * GAMMA,
                sj == s + (j + 1) * GAMMA,
                gap == (j - i) * GAMMA,
        ;
        vstd::arithmetic::div_mod::lemma_mod_equivalence(sj, si, p);
        assert(gap % p == 0);
        assert(0 * GAMMA == 0);
        lemma_mul_injective(j - i, 0, GAMMA as int, 0xF1DE83E19937733D);
    }
}

/// No more than 2048 draws in a row give the uniform sample zero.
proof fn lemma_zero_units_are_few(s: u64, n: nat)
    requires
        n < two64(),
        forall|i: nat| i < n ==> #[trigger] unit_bits(s, i) == 0,
    ensures
        n <= 2048,
{
    let indices = set_int_range(0, n as int);
    let f = |i: int| draw(s, i as nat) as int;
    let image = indices.map(f);
    lemma_int_range(0, n as int);
    lemma_int_range(0, 2048);
    assert(injective_on(f, indices)) by {
        assert forall|i: int, j: int|
            indices.contains(i) && indices.contains(j) && #[trigger] f(i) == #[trigger] f(
                j,
            ) implies i == j by {
            if i < j {
                law_draws_are_distinct(s, i as nat, j as nat);
            } else if j < i {
                law_draws_are_distinct(s, j as nat, i as nat);
            }
        }
    }
    lemma_map_size(indices, image, f);
    assert(image.subset_of(set_int_range(0, 2048))) by {
        assert forall|v: int| image.contains(v) implies set_int_range(0, 2048).contains(v) by {
            let i = choose|i: int| indices.contains(i) && f(i) == v;
            let z = draw(s, i as nat);
            assert(unit_bits(s, i as nat) == 0);
            assert(z >> 11 == 0 ==> z < 2048) by (bit_vector);
        }
    }
    lemma_len_subset(image, set_int_range(0, 2048));
}

} // verus!
