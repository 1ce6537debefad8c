//! Initial parameters.
use vstd::prelude::*;

use crate::layout::{param_count, Cfg, Layout, Ratio};
use crate::rng::{gauss_state, is_gauss, Rng};
use crate::scalar::{is_cast, is_ratio, is_zero, Cast, Scalar};

verus! {

/// `r` is the initial parameter drawn in state `state`: a Gaussian sample around zero with
/// the deviation `std`, in the wide type `W`, then converted.
pub open spec fn is_init_param<W: Cast<S>, S: Scalar>(state: u64, std: Ratio, r: S) -> bool {
    exists|zero: W, sigma: W, sample: W|
        is_zero(zero) && is_ratio(std.num, std.den, sigma) && #[trigger] is_gauss(
            state,
            zero,
            sigma,
            sample,
        ) && is_cast(sample, r)
}

/// The initial parameters of a model of shape `cfg`, in the order of its layout.
pub fn init_params<W: Cast<S>, S: Scalar>(rng: &mut Rng, cfg: &Cfg, vocab: usize) -> (params: Vec<
    S,
>)
    requires
        param_count(*cfg, vocab as int) <= usize::MAX,
    ensures
        params@.len() == param_count(*cfg, vocab as int),
        forall|i: int|
            0 <= i < params@.len() ==> is_init_param::<W, S>(
                gauss_state(old(rng).0, i as nat),
                cfg.init_std,
                #[trigger] params@[i],
            ),
        final(rng).0 == gauss_state(old(rng).0, params@.len()),
{
    let l: Layout = Layout::new(cfg, vocab);
    let ghost seed = rng.0;
    let mut params: Vec<S> = Vec::new();
    for i in 0..l.total
        invariant
            params@.len() == i,
            rng.0 == gauss_state(seed, i as nat),
            forall|k: int|
                0 <= k < i ==> is_init_param::<W, S>(
                    gauss_state(seed, k as nat),
                    cfg.init_std,
                    #[trigger] params@[k],
                ),
    {
        let zero: W = W::zero();
        let sigma: W = W::ratio(cfg.init_std.num, cfg.init_std.den);
        let ghost state = rng.0;
        let sample: W = rng.gauss(zero, sigma);
        let p: S = sample.cast();
        assert(is_init_param::<W, S>(state, cfg.init_std, p));
        params.push(p);
    }
    params
}

} // verus!
