//! The tape and the flat model start from the same parameters.
use vstd::prelude::*;

use crate::init::is_init_param;
use crate::layout::Ratio;
use crate::rng::{
    gauss_state, is_box_muller, is_direction, is_gauss, is_radius, is_unit, skips, unit_bits, UNIT,
};
use crate::scalar::{
    deterministic, is_cast, is_cos, is_ln, is_neg, is_num, is_prod, is_quot, is_ratio, is_sqrt,
    is_sum, is_tau, is_zero, Cast, Scalar,
};
use crate::tape::Node;
use crate::tape_gpt::{are_init_nodes, is_init_node};

verus! {

/// A uniform sample, twice.
pub proof fn lemma_unit_repeats<S: Scalar>(bits: u64, r: S, q: S)
    requires
        deterministic::<S>(),
        is_unit(bits, r),
        is_unit(bits, q),
    ensures
        r == q,
{
    let (n1, d1) = choose|num: S, den: S|
        is_num(bits, num) && is_num(UNIT, den) && #[trigger] is_quot(num, den, r);
    let (n2, d2) = choose|num: S, den: S|
        is_num(bits, num) && is_num(UNIT, den) && #[trigger] is_quot(num, den, q);
    assert(n1 == n2 && d1 == d2);
}

/// The radius of a Gaussian sample, twice.
proof fn lemma_radius_repeats<S: Scalar>(u: S, r: S, q: S)
    requires
        deterministic::<S>(),
        is_radius(u, r),
        is_radius(u, q),
    ensures
        r == q,
{
    let (t1, m1, l1, s1) = choose|two: S, minus_two: S, log: S, square: S|
        #![trigger is_neg(two, minus_two), is_prod(minus_two, log, square)]
        is_num(2, two) && is_neg(two, minus_two) && is_ln(u, log) && is_prod(
            minus_two,
            log,
            square,
        ) && is_sqrt(square, r);
    let (t2, m2, l2, s2) = choose|two: S, minus_two: S, log: S, square: S|
        #![trigger is_neg(two, minus_two), is_prod(minus_two, log, square)]
        is_num(2, two) && is_neg(two, minus_two) && is_ln(u, log) && is_prod(
            minus_two,
            log,
            square,
        ) && is_sqrt(square, q);
    assert(t1 == t2 && l1 == l2);
    assert(m1 == m2);
    assert(s1 == s2);
}

/// The direction of a Gaussian sample, twice.
proof fn lemma_direction_repeats<S: Scalar>(u: S, r: S, q: S)
    requires
        deterministic::<S>(),
        is_direction(u, r),
        is_direction(u, q),
    ensures
        r == q,
{
    let (t1, a1) = choose|tau: S, angle: S|
        is_tau(tau) && #[trigger] is_prod(tau, u, angle) && is_cos(angle, r);
    let (t2, a2) = choose|tau: S, angle: S|
        is_tau(tau) && #[trigger] is_prod(tau, u, angle) && is_cos(angle, q);
    assert(t1 == t2);
    assert(a1 == a2);
}

/// The Box-Muller transform, twice.
proof fn lemma_box_muller_repeats<S: Scalar>(mu: S, sigma: S, u1: S, u2: S, r: S, q: S)
    requires
        deterministic::<S>(),
        is_box_muller(mu, sigma, u1, u2, r),
        is_box_muller(mu, sigma, u1, u2, q),
    ensures
        r == q,
{
    let (r1, s1, d1, o1) = choose|radius: S, scaled: S, direction: S, offset: S|
        #![trigger is_prod(sigma, radius, scaled), is_prod(scaled, direction, offset)]
        is_radius(u1, radius) && is_prod(sigma, radius, scaled) && is_direction(u2, direction)
            && is_prod(scaled, direction, offset) && is_sum(mu, offset, r);
    let (r2, s2, d2, o2) = choose|radius: S, scaled: S, direction: S, offset: S|
        #![trigger is_prod(sigma, radius, scaled), is_prod(scaled, direction, offset)]
        is_radius(u1, radius) && is_prod(sigma, radius, scaled) && is_direction(u2, direction)
            && is_prod(scaled, direction, offset) && is_sum(mu, offset, q);
    lemma_radius_repeats(u1, r1, r2);
    lemma_direction_repeats(u2, d1, d2);
    assert(s1 == s2);
    assert(o1 == o2);
}

/// Gaussian samples have one outcome, where the operations have: generators in the same
/// state give the same sample.
pub proof fn law_gauss_is_deterministic<S: Scalar>(s: u64, mu: S, sigma: S, r: S, q: S)
    requires
        deterministic::<S>(),
        is_gauss(s, mu, sigma, r),
        is_gauss(s, mu, sigma, q),
    ensures
        r == q,
{
    let (a1, a2) = choose|u1: S, u2: S|
        is_unit(unit_bits(s, skips(s)), u1) && is_unit(unit_bits(s, skips(s) + 1), u2)
            && #[trigger] is_box_muller(mu, sigma, u1, u2, r);
    let (b1, b2) = choose|u1: S, u2: S|
        is_unit(unit_bits(s, skips(s)), u1) && is_unit(unit_bits(s, skips(s) + 1), u2)
            && #[trigger] is_box_muller(mu, sigma, u1, u2, q);
    lemma_unit_repeats(unit_bits(s, skips(s)), a1, b1);
    lemma_unit_repeats(unit_bits(s, skips(s) + 1), a2, b2);
    lemma_box_muller_repeats(mu, sigma, a1, a2, r, q);
}

/// The tape and the flat model start from the same parameters: drawn from the same seed,
/// parameter `i` of the flat model is node `i` of the tape, converted.
pub proof fn law_tape_and_model_start_alike<W: Cast<S>, S: Scalar>(
    nodes: Seq<Node<W>>,
    base: int,
    params: Seq<S>,
    seed: u64,
    std: Ratio,
    i: int,
)
    requires
        deterministic::<W>(),
        are_init_nodes(nodes, base, base + params.len(), seed, std),
        forall|k: int|
            0 <= k < params.len() ==> is_init_param::<W, S>(
                gauss_state(seed, k as nat),
                std,
                #[trigger] params[k],
            ),
        0 <= i < params.len(),
    ensures
        is_cast(nodes[base + i].data, params[i]),
{
    let at = base + i;
    let state = gauss_state(seed, (at - base) as nat);
    assert(is_init_node(nodes, at, state, std));
    let (z1, g1) = choose|zero: W, sigma: W|
        is_zero(zero) && is_ratio(std.num, std.den, sigma) && #[trigger] is_gauss(
            state,
            zero,
            sigma,
            nodes[at].data,
        );
    let (z2, g2, x) = choose|zero: W, sigma: W, sample: W|
        is_zero(zero) && is_ratio(std.num, std.den, sigma) && #[trigger] is_gauss(
            state,
            zero,
            sigma,
            sample,
        ) && is_cast(sample, params[i]);
    assert(is_init_param::<W, S>(state, std, params[i]));
    assert(z1 == z2 && g1 == g2);
    law_gauss_is_deterministic(state, z1, g1, nodes[at].data, x);
}

} // verus!
