//! Weighted choices in exact arithmetic: an index is drawn in proportion to its weight.
use vstd::prelude::*;

use crate::exact::{exact, lemma_cancel, lemma_quotient, lemma_total_scale, total_of};
use crate::motion::nums;
use crate::motion_loss::lemma_total_exact;
use crate::reduce::is_total;
use crate::rng::{
    counts, falls_back_to, is_choice, is_countdown, is_pick, is_pick_by, is_unit, passes, stops_at,
    tests_proportions, tests_weight, UNIT,
};
use crate::scalar::{is_diff, is_num, is_prod, is_quot, tests_positive, Scalar};

verus! {

/// What the weights before item `i` add up to.
pub open spec fn weight_before(w: spec_fn(int) -> real, i: int) -> real {
    total_of(w, i as nat)
}

/// Whether the first `n` weights are proportions: none is below zero, and one is above it.
pub open spec fn are_proportions(w: spec_fn(int) -> real, n: nat) -> bool {
    &&& forall|i: int| 0 <= i < n ==> #[trigger] w(i) >= 0 as real
    &&& exists|i: int| 0 <= i < n && #[trigger] w(i) > 0 as real
}

/// Whether item `i` can be picked: among proportions it has to have a weight.
pub open spec fn pickable(w: spec_fn(int) -> real, n: nat, i: int) -> bool {
    are_proportions(w, n) ==> w(i) > 0 as real
}

/// Whether a countdown from `level` would stop at item `i`: it can be picked, and up to it
/// the weights reach the level.
pub open spec fn hits(w: spec_fn(int) -> real, n: nat, level: real, i: int) -> bool {
    pickable(w, n, i) && level <= weight_before(w, i + 1)
}

/// Item `k` is where a countdown over `n` items ends.
pub open spec fn ends_at(w: spec_fn(int) -> real, n: nat, level: real, k: int) -> bool {
    &&& 0 <= k < n
    &&& ((forall|i: int| 0 <= i < k ==> !#[trigger] hits(w, n, level, i)) && hits(w, n, level, k))
        || ((forall|i: int| 0 <= i < n ==> !#[trigger] hits(w, n, level, i)) && fallback(w, n, k))
}

/// Item `k` is the last one that can be picked.
pub open spec fn fallback(w: spec_fn(int) -> real, n: nat, k: int) -> bool {
    pickable(w, n, k) && (forall|i: int| k < i < n ==> !#[trigger] pickable(w, n, i))
}

/// What is left along a countdown.
proof fn lemma_countdown_exact<S: Scalar>(
    val: spec_fn(S) -> real,
    weights: Seq<S>,
    rest: Seq<S>,
    i: int,
)
    requires
        exact(val),
        is_countdown(weights, rest),
        0 <= i < rest.len(),
    ensures
        val(rest[i]) == val(rest[0]) - weight_before(nums(val, weights), i),
    decreases i,
{
    if i > 0 {
        lemma_countdown_exact(val, weights, rest, i - 1);
        assert(is_diff(rest[i - 1], weights[i - 1], rest[i - 1 + 1]));
        let w = nums(val, weights);
        assert(total_of(w, i as nat) == total_of(w, (i - 1) as nat) + w(i - 1));
    }
}

/// Whether weights are proportions, in exact arithmetic.
proof fn lemma_proportions_exact<S: Scalar>(
    val: spec_fn(S) -> real,
    weights: Seq<S>,
    proportions: bool,
)
    requires
        exact(val),
        tests_proportions(weights, proportions),
    ensures
        proportions == are_proportions(nums(val, weights), weights.len()),
{
    let (w, n) = (nums(val, weights), weights.len());
    if proportions {
        assert forall|i: int| 0 <= i < n implies #[trigger] w(i) >= 0 as real by {
            assert(tests_weight(weights[i], true));
        }
        let i = choose|i: int| 0 <= i < n && tests_positive(#[trigger] weights[i], true);
        assert(w(i) > 0 as real);
    } else if exists|i: int| 0 <= i < n && tests_weight(#[trigger] weights[i], false) {
        let i = choose|i: int| 0 <= i < n && tests_weight(#[trigger] weights[i], false);
        assert(w(i) < 0 as real);
    } else {
        assert forall|i: int| 0 <= i < n implies #[trigger] w(i) <= 0 as real by {
            assert(tests_positive(weights[i], false));
        }
    }
}

/// A pick, in exact arithmetic.
proof fn lemma_pick_exact<S: Scalar>(
    val: spec_fn(S) -> real,
    weights: Seq<S>,
    level: S,
    k: int,
)
    requires
        exact(val),
        is_pick(weights, level, k),
    ensures
        ends_at(nums(val, weights), weights.len(), val(level), k),
{
    let (proportions, rest) = choose|proportions: bool, rest: Seq<S>| #[trigger]
        is_pick_by(weights, level, k, proportions, rest);
    let (w, l, n) = (nums(val, weights), val(level), weights.len());
    lemma_proportions_exact(val, weights, proportions);
    assert forall|i: int, b: bool|
        0 <= i < n && #[trigger] counts(proportions, weights[i], b) implies b == pickable(
        w,
        n,
        i,
    ) by {}
    assert forall|i: int| 0 <= i < rest.len() implies val(#[trigger] rest[i]) == l - weight_before(
        w,
        i,
    ) by {
        lemma_countdown_exact(val, weights, rest, i);
    }
    if stops_at(proportions, weights, k, rest) {
        assert forall|i: int| 0 <= i < k implies !#[trigger] hits(w, n, l, i) by {
            assert(passes(proportions, weights[i], rest[i + 1]));
        }
        assert(val(rest[k + 1]) <= 0 as real);
        assert(hits(w, n, l, k));
    } else {
        assert(falls_back_to(proportions, weights, k, rest));
        assert forall|i: int| 0 <= i < n implies !#[trigger] hits(w, n, l, i) by {
            assert(passes(proportions, weights[i], rest[i + 1]));
        }
        assert forall|i: int| k < i < n implies !#[trigger] pickable(w, n, i) by {
            assert(counts(proportions, weights[i], false));
        }
        assert(fallback(w, n, k));
    }
}

/// A countdown ends at one item.
proof fn lemma_ends_once(w: spec_fn(int) -> real, n: nat, level: real, k: int, j: int)
    requires
        ends_at(w, n, level, k),
        ends_at(w, n, level, j),
    ensures
        k == j,
{
    if hits(w, n, level, k) || hits(w, n, level, j) {
        assert(hits(w, n, level, k) && hits(w, n, level, j));
    } else {
        assert(pickable(w, n, k) && pickable(w, n, j));
    }
}

/// The level of a choice: the uniform number's share of all weights.
proof fn lemma_choice_exact<S: Scalar>(
    val: spec_fn(S) -> real,
    weights: Seq<S>,
    bits: u64,
    k: int,
) -> (level: real)
    requires
        exact(val),
        is_choice(weights, bits, k),
    ensures
        level * UNIT as real == bits as real * weight_before(
            nums(val, weights),
            weights.len() as int,
        ),
        ends_at(nums(val, weights), weights.len(), level, k),
{
    let (sum, u, level) = choose|sum: S, u: S, level: S|
        is_total(weights, sum) && is_unit(bits, u) && #[trigger] is_prod(u, sum, level) && is_pick(
            weights,
            level,
            k,
        );
    let (num, den) = choose|num: S, den: S|
        is_num(bits, num) && is_num(UNIT, den) && #[trigger] is_quot(num, den, u);
    lemma_total_exact(val, weights, sum);
    lemma_quotient(bits as real, UNIT as real);
    let (a, b, t, n) = (val(u), val(level), val(sum), UNIT as real);
    assert(a * n == bits as real);
    assert((a * t) * n == (a * n) * t) by (nonlinear_arith);
    lemma_pick_exact(val, weights, level, k);
    b
}

/// An index without weight is never drawn: where no weight is below zero and some index has
/// a weight, the one that is drawn has one, whatever the generator gives.
pub proof fn law_choices_have_weight<S: Scalar>(
    val: spec_fn(S) -> real,
    weights: Seq<S>,
    bits: u64,
    k: int,
)
    requires
        exact(val),
        forall|i: int| 0 <= i < weights.len() ==> val(#[trigger] weights[i]) >= 0 as real,
        exists|j: int| 0 <= j < weights.len() && val(#[trigger] weights[j]) > 0 as real,
        is_choice(weights, bits, k),
    ensures
        0 <= k < weights.len(),
        val(weights[k]) > 0 as real,
{
    let (w, n) = (nums(val, weights), weights.len());
    let level = lemma_choice_exact(val, weights, bits, k);
    lemma_are_proportions(val, weights);
    assert(pickable(w, n, k));
}

/// Numbers that are proportions.
proof fn lemma_are_proportions<S: Scalar>(val: spec_fn(S) -> real, weights: Seq<S>)
    requires
        forall|i: int| 0 <= i < weights.len() ==> val(#[trigger] weights[i]) >= 0 as real,
        exists|j: int| 0 <= j < weights.len() && val(#[trigger] weights[j]) > 0 as real,
    ensures
        are_proportions(nums(val, weights), weights.len()),
{
    let w = nums(val, weights);
    let j = choose|j: int| 0 <= j < weights.len() && val(#[trigger] weights[j]) > 0 as real;
    assert(w(j) > 0 as real);
    assert forall|i: int| 0 <= i < weights.len() implies #[trigger] w(i) >= 0 as real by {
        assert(val(weights[i]) >= 0 as real);
    }
}

/// Only the proportions of the weights matter: if all weights are multiplied by one positive
/// factor, the same random number draws the same index.
pub proof fn law_choices_ignore_the_scale<S: Scalar>(
    val: spec_fn(S) -> real,
    weights: Seq<S>,
    scaled: Seq<S>,
    factor: real,
    bits: u64,
    k: int,
    j: int,
)
    requires
        exact(val),
        factor > 0 as real,
        scaled.len() == weights.len(),
        forall|i: int|
            0 <= i < weights.len() ==> val(#[trigger] scaled[i]) == factor * val(weights[i]),
        is_choice(weights, bits, k),
        is_choice(scaled, bits, j),
    ensures
        k == j,
{
    let n = weights.len();
    let (w, v) = (nums(val, weights), nums(val, scaled));
    let l = lemma_choice_exact(val, weights, bits, k);
    let m = lemma_choice_exact(val, scaled, bits, j);
    assert forall|i: int| 0 <= i < n implies #[trigger] v(i) == factor * w(i) by {
        assert(val(scaled[i]) == factor * val(weights[i]));
    }
    assert forall|i: int| 0 <= i <= n implies #[trigger] weight_before(v, i) == factor
        * weight_before(w, i) by {
        lemma_total_scale(factor, w, v, i as nat);
    }
    let (unit, b) = (UNIT as real, bits as real);
    let (all, every) = (weight_before(w, n as int), weight_before(v, n as int));
    assert(b * (factor * all) == factor * (b * all)) by (nonlinear_arith);
    assert((factor * l) * unit == factor * (l * unit)) by (nonlinear_arith);
    lemma_cancel(m, factor * l, unit);
    assert forall|i: int| 0 <= i < n implies (#[trigger] w(i) > 0 as real <==> v(i) > 0 as real) && (
    w(i) >= 0 as real <==> v(i) >= 0 as real) by {
        lemma_same_sign(factor, w(i), 0 as real);
        assert(factor * (0 as real) == 0 as real) by (nonlinear_arith);
        assert(v(i) == factor * w(i));
    }
    lemma_proportions_alike(w, v, n);
    assert forall|i: int| 0 <= i <= n implies (m <= #[trigger] weight_before(v, i) <==> l
        <= weight_before(w, i)) by {
        lemma_same_sign(factor, weight_before(w, i), l);
    }
    assert forall|i: int| 0 <= i < n implies #[trigger] hits(w, n, l, i) == hits(v, n, m, i) by {
        assert(w(i) > 0 as real <==> v(i) > 0 as real);
        assert(m <= weight_before(v, i + 1) <==> l <= weight_before(w, i + 1));
    }
    lemma_ends_alike(w, v, n, l, m, j);
    lemma_ends_once(w, n, l, k, j);
}

/// A positive factor keeps the order.
proof fn lemma_same_sign(f: real, x: real, y: real)
    requires
        f > 0 as real,
    ensures
        f * x > f * y <==> x > y,
        f * y <= f * x <==> y <= x,
{
    if x > y {
        assert(f * x > f * y) by (nonlinear_arith)
            requires
                f > 0 as real,
                x > y,
        ;
    } else {
        assert(f * x <= f * y) by (nonlinear_arith)
            requires
                f > 0 as real,
                x <= y,
        ;
    }
    if y <= x {
        assert(f * y <= f * x) by (nonlinear_arith)
            requires
                f > 0 as real,
                y <= x,
        ;
    } else {
        assert(f * x < f * y) by (nonlinear_arith)
            requires
                f > 0 as real,
                x < y,
        ;
    }
}

/// Numbers with the same signs are proportions together.
proof fn lemma_proportions_alike(w: spec_fn(int) -> real, v: spec_fn(int) -> real, n: nat)
    requires
        forall|i: int|
            0 <= i < n ==> (#[trigger] w(i) > 0 as real <==> v(i) > 0 as real) && (w(i)
                >= 0 as real <==> v(i) >= 0 as real),
    ensures
        are_proportions(w, n) == are_proportions(v, n),
        forall|i: int| 0 <= i < n ==> #[trigger] pickable(w, n, i) == pickable(v, n, i),
{
    if are_proportions(w, n) {
        let i = choose|i: int| 0 <= i < n && #[trigger] w(i) > 0 as real;
        assert(v(i) > 0 as real);
        assert forall|j: int| 0 <= j < n implies #[trigger] v(j) >= 0 as real by {
            assert(w(j) >= 0 as real);
        }
    }
    if are_proportions(v, n) {
        let i = choose|i: int| 0 <= i < n && #[trigger] v(i) > 0 as real;
        assert(w(i) > 0 as real);
    }
    assert forall|i: int| 0 <= i < n implies #[trigger] pickable(w, n, i) == pickable(v, n, i) by {
        assert(w(i) > 0 as real <==> v(i) > 0 as real);
    }
}

/// Countdowns with the same hits end at the same item.
proof fn lemma_ends_alike(
    w: spec_fn(int) -> real,
    v: spec_fn(int) -> real,
    n: nat,
    l: real,
    m: real,
    j: int,
)
    requires
        forall|i: int| 0 <= i < n ==> #[trigger] pickable(w, n, i) == pickable(v, n, i),
        forall|i: int| 0 <= i < n ==> #[trigger] hits(w, n, l, i) == hits(v, n, m, i),
        ends_at(v, n, m, j),
    ensures
        ends_at(w, n, l, j),
{
    assert(hits(w, n, l, j) == hits(v, n, m, j));
    if hits(v, n, m, j) {
        assert forall|i: int| 0 <= i < j implies !#[trigger] hits(w, n, l, i) by {
            assert(!hits(v, n, m, i));
        }
    } else {
        assert(fallback(v, n, j));
        assert forall|i: int| 0 <= i < n implies !#[trigger] hits(w, n, l, i) by {
            assert(!hits(v, n, m, i));
        }
        assert(pickable(w, n, j) == pickable(v, n, j));
        assert forall|i: int| j < i < n implies !#[trigger] pickable(w, n, i) by {
            assert(!pickable(v, n, i));
        }
        assert(fallback(w, n, j));
    }
}

/// Where the weights before item `k` reach a positive level, a countdown stops before it.
proof fn lemma_hit_before(w: spec_fn(int) -> real, n: nat, level: real, k: int) -> (i: int)
    requires
        0 <= k <= n,
        forall|i: int| 0 <= i < k ==> #[trigger] w(i) >= 0 as real,
        level > 0 as real,
        level <= weight_before(w, k),
    ensures
        0 <= i < k,
        hits(w, n, level, i),
    decreases k,
{
    if k == 0 {
        assert(false);
        0
    } else {
        assert(total_of(w, k as nat) == total_of(w, (k - 1) as nat) + w(k - 1));
        if w(k - 1) > 0 as real {
            assert(weight_before(w, k - 1 + 1) == weight_before(w, k));
            k - 1
        } else {
            lemma_hit_before(w, n, level, k - 1)
        }
    }
}

/// Sums of weights grow.
proof fn lemma_before_grows(w: spec_fn(int) -> real, a: int, b: int)
    requires
        0 <= a <= b,
        forall|i: int| 0 <= i < b ==> #[trigger] w(i) >= 0 as real,
    ensures
        0 as real <= weight_before(w, a) <= weight_before(w, b),
    decreases b,
{
    if b > 0 {
        assert(total_of(w, b as nat) == total_of(w, (b - 1) as nat) + w(b - 1));
        if a < b {
            lemma_before_grows(w, a, b - 1);
        } else {
            lemma_before_grows(w, a - 1, b - 1);
        }
    }
}

/// Choices are in proportion to the weights: index `k` is drawn by the uniform numbers that
/// lie, on the scale from nothing to all weights, where its own weight lies. So of the numbers
/// `0..UNIT` as many draw it as is its share of all weights, up to the two at its ends.
pub proof fn law_choices_are_proportional<S: Scalar>(
    val: spec_fn(S) -> real,
    weights: Seq<S>,
    bits: u64,
    k: int,
)
    requires
        exact(val),
        bits < UNIT,
        forall|i: int| 0 <= i < weights.len() ==> val(#[trigger] weights[i]) >= 0 as real,
        exists|j: int| 0 <= j < weights.len() && val(#[trigger] weights[j]) > 0 as real,
        is_choice(weights, bits, k),
    ensures
        ({
            let w = nums(val, weights);
            let share = bits as real * weight_before(w, weights.len() as int);
            &&& 0 <= k < weights.len()
            &&& w(k) > 0 as real
            &&& weight_before(w, k) * UNIT as real <= share
            &&& bits > 0 ==> weight_before(w, k) * (UNIT as real) < share
            &&& share <= weight_before(w, k + 1) * UNIT as real
        }),
{
    let n = weights.len();
    let w = nums(val, weights);
    let level = lemma_choice_exact(val, weights, bits, k);
    law_choices_have_weight(val, weights, bits, k);
    assert forall|i: int| 0 <= i < n implies #[trigger] w(i) >= 0 as real by {
        assert(val(weights[i]) >= 0 as real);
    }
    let all = weight_before(w, n as int);
    lemma_before_grows(w, k, n as int);
    lemma_before_grows(w, k + 1, n as int);
    assert(total_of(w, (k + 1) as nat) == total_of(w, k as nat) + w(k));
    let (unit, b) = (UNIT as real, bits as real);
    assert(all > 0 as real);
    lemma_level(level, b, unit, all);
    if !hits(w, n, level, k) {
        if level > 0 as real {
            let i = lemma_hit_before(w, n, level, n as int);
            assert(hits(w, n, level, i));
        } else {
            assert(hits(w, n, level, k));
        }
    }
    assert(level <= weight_before(w, k + 1));
    let below = weight_before(w, k);
    if bits > 0 && level <= below {
        let i = lemma_hit_before(w, n, level, k);
        assert(hits(w, n, level, i));
    }
    if bits == 0 && level < below {
        if below > 0 as real {
            let i = lemma_hit_before(w, n, below, k);
            assert(hits(w, n, level, i));
        }
    }
    lemma_same_sign(unit, level, below);
    lemma_same_sign(unit, weight_before(w, k + 1), level);
    let above = weight_before(w, k + 1);
    assert(unit * level == level * unit && unit * below == below * unit && unit * above == above
        * unit) by (nonlinear_arith);
}

/// The level lies between nothing and all weights.
proof fn lemma_level(level: real, b: real, unit: real, all: real)
    requires
        level * unit == b * all,
        0 as real <= b < unit,
        all > 0 as real,
    ensures
        0 as real <= level <= all,
        b > 0 as real ==> level > 0 as real,
        b == 0 as real ==> level == 0 as real,
{
    assert(unit > 0 as real);
    if level < 0 as real {
        assert(level * unit < 0 as real) by (nonlinear_arith)
            requires
                level < 0 as real,
                unit > 0 as real,
        ;
        assert(b * all >= 0 as real) by (nonlinear_arith)
            requires
                b >= 0 as real,
                all > 0 as real,
        ;
    }
    if level > all {
        assert(level * unit > all * unit) by (nonlinear_arith)
            requires
                level > all,
                unit > 0 as real,
        ;
        assert(b * all < all * unit) by (nonlinear_arith)
            requires
                b < unit,
                all > 0 as real,
        ;
    }
    if b > 0 as real && level <= 0 as real {
        assert(b * all > 0 as real) by (nonlinear_arith)
            requires
                b > 0 as real,
                all > 0 as real,
        ;
        assert(level * unit <= 0 as real) by (nonlinear_arith)
            requires
                level <= 0 as real,
                unit > 0 as real,
        ;
    }
    if b == 0 as real {
        assert((0 as real) * all == 0 as real) by (nonlinear_arith);
        lemma_cancel(level, 0 as real, unit);
        assert((0 as real) * unit == 0 as real) by (nonlinear_arith);
    }
}

} // verus!
