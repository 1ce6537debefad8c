//! Whether a model can be counted in machine words, and whether a tape has room for it.
use vstd::arithmetic::overflow::CheckedU64;
use vstd::prelude::*;

use crate::graph::linear_cost;
use crate::layout::{layer_len, param_count, Cfg};
use crate::shape::{buf_count, sizes_fit, ACTS, SHARED};
use crate::tape::max_nodes;
use crate::tape_gpt::{head_cost, layer_cost, lemma_costs};
use crate::tape_sample::{draw_cost, draws_cost, lemma_draws_cost_grows};
use crate::tape_token::token_cost;
use crate::tape_train::{document_cost, lemma_steps_cost_grows, step_cost, steps_cost};

verus! {

/// A number that is added to and multiplied without a bound.
fn count(n: usize) -> (c: CheckedU64)
    ensures
        c@ == n,
{
    CheckedU64::new(n as u64)
}

/// Whether a number is at most `limit`.
fn at_most(c: &CheckedU64, limit: u64) -> (b: bool)
    ensures
        b == (c@ <= limit),
{
    match c.to_option() {
        Some(n) => n <= limit,
        None => false,
    }
}

/// The number of parameters of a model.
fn count_params(cfg: &Cfg, vocab: usize) -> (p: CheckedU64)
    ensures
        p@ == param_count(*cfg, vocab as int),
{
    let c: CheckedU64 = count(cfg.n_embd);
    let tokens: CheckedU64 = count(vocab).mul_checked(&c).mul_value(2);
    let positions: CheckedU64 = count(cfg.block_size).mul_checked(&c);
    let layer: CheckedU64 = c.mul_checked(&c).mul_value(12);
    let layers: CheckedU64 = count(cfg.n_layer).mul_checked(&layer);
    assert(layers@ == cfg.n_layer * layer_len(*cfg));
    tokens.add_checked(&positions).add_checked(&layers)
}

/// The number of parameters of a model, where all of its sizes can be counted in machine
/// words.
pub fn checked_sizes(cfg: &Cfg, vocab: usize) -> (n: Option<usize>)
    ensures
        match n {
            Some(p) => sizes_fit(*cfg, vocab as int) && p == param_count(*cfg, vocab as int),
            None => !sizes_fit(*cfg, vocab as int),
        },
{
    let max: u64 = usize::MAX as u64;
    let rows: CheckedU64 = count(cfg.batch).mul_checked(&count(cfg.block_size));
    let wide: CheckedU64 = count(cfg.n_embd).mul_value(4);
    let hidden: CheckedU64 = rows.mul_checked(&wide);
    let logits: CheckedU64 = rows.mul_checked(&count(vocab));
    let att: CheckedU64 = rows.mul_checked(&count(cfg.n_head)).mul_checked(
        &count(cfg.block_size),
    );
    let acts: CheckedU64 = count(cfg.n_layer).mul_checked(&count(ACTS));
    let bufs: CheckedU64 = count(SHARED).add_checked(&acts);
    assert(bufs@ == buf_count(*cfg));
    let small: bool = at_most(&rows, max) && at_most(&wide, max) && at_most(&hidden, max)
        && at_most(&logits, max) && at_most(&att, max) && at_most(&bufs, max);
    match count_params(cfg, vocab).to_option() {
        Some(p) => if small && p <= max {
            Some(p as usize)
        } else {
            None
        },
        None => None,
    }
}

/// The nodes of one token in one layer, the `t`-th of its document.
fn count_layer(cfg: &Cfg, t: usize) -> (n: CheckedU64)
    requires
        cfg.has_heads(),
        t > 0,
    ensures
        n@ == layer_cost(*cfg, t as int),
{
    proof {
        lemma_costs(*cfg, t as int);
    }
    let c: CheckedU64 = count(cfg.n_embd);
    let time: CheckedU64 = count(t);
    let size: usize = cfg.n_embd / cfg.n_head;
    let d: CheckedU64 = count(size);
    let wide: CheckedU64 = c.mul_value(4);
    let c_odd: CheckedU64 = c.add_value((cfg.n_embd - 1) as u64);
    let wide_odd: CheckedU64 = c.mul_value(7).add_value((cfg.n_embd - 1) as u64);
    let time_odd: CheckedU64 = time.add_value((t - 1) as u64);
    let scores: CheckedU64 = time.mul_checked(&d.mul_value(2));
    let softmax: CheckedU64 = time.mul_value(3).add_value((t - 1) as u64);
    let head: CheckedU64 = scores.add_checked(&softmax).add_checked(&d.mul_checked(&time_odd));
    assert(head@ == head_cost(size as int, t as int));
    let heads: CheckedU64 = count(cfg.n_head).mul_checked(&head);
    let norms: CheckedU64 = c.mul_value(3).add_value(2).mul_value(2);
    let square: CheckedU64 = c.mul_checked(&c_odd).mul_value(4);
    let up: CheckedU64 = wide.mul_checked(&c_odd);
    let down: CheckedU64 = c.mul_checked(&wide_odd);
    norms.add_checked(&square).add_checked(&heads).add_checked(&c.mul_value(6)).add_checked(
        &up,
    ).add_checked(&down)
}

/// The nodes of one token, the `t`-th of its document.
fn count_token(cfg: &Cfg, vocab: usize, t: usize) -> (n: CheckedU64)
    requires
        cfg.has_heads(),
        t > 0,
    ensures
        n@ == token_cost(*cfg, vocab as int, t as int),
{
    let c: CheckedU64 = count(cfg.n_embd);
    let c_odd: CheckedU64 = c.add_value((cfg.n_embd - 1) as u64);
    let norm: CheckedU64 = c.mul_value(3).add_value(2);
    let layers: CheckedU64 = count(cfg.n_layer).mul_checked(&count_layer(cfg, t));
    let head: CheckedU64 = count(vocab).mul_checked(&c_odd);
    assert(head@ == linear_cost(cfg.n_embd as int, vocab as int));
    c.add_checked(&norm).add_checked(&layers).add_checked(&head)
}

/// Whether a tape with the parameters of the model on it has room for what comes behind them:
/// any document that is trained on, and any sample.
pub open spec fn has_room(cfg: Cfg, vocab: int) -> bool {
    let n = cfg.block_size as int;
    &&& param_count(cfg, vocab) + document_cost(cfg, vocab, n) <= max_nodes()
    &&& param_count(cfg, vocab) + draws_cost(cfg, vocab, n) <= max_nodes()
}

/// Whether a tape has room for the model, for every document and for every sample.
pub fn tape_has_room(cfg: &Cfg, vocab: usize) -> (room: bool)
    requires
        cfg.has_heads(),
        vocab > 0,
    ensures
        room == has_room(*cfg, vocab as int),
        room ==> forall|n: int|
            0 <= n <= cfg.block_size ==> param_count(*cfg, vocab as int)
                + #[trigger] document_cost(*cfg, vocab as int, n) <= max_nodes(),
        room ==> forall|n: int|
            0 <= n <= cfg.block_size ==> param_count(*cfg, vocab as int)
                + #[trigger] draws_cost(*cfg, vocab as int, n) <= max_nodes(),
{
    let ghost v = vocab as int;
    let ghost block = cfg.block_size as int;
    let limit: u64 = 0x1_0000_0000;
    let params: CheckedU64 = count_params(cfg, vocab);
    let mut steps: CheckedU64 = count(0);
    let mut draws: CheckedU64 = count(0);
    for i in 0..cfg.block_size
        invariant
            cfg.has_heads(),
            v == vocab > 0,
            block == cfg.block_size,
            limit == max_nodes(),
            params@ == param_count(*cfg, v),
            steps@ == steps_cost(*cfg, v, i as int),
            draws@ == draws_cost(*cfg, v, i as int),
    {
        let token: CheckedU64 = count_token(cfg, vocab, i + 1);
        let four: CheckedU64 = count(vocab).mul_value(4);
        steps = steps.add_checked(&token.add_checked(&four).add_value(1));
        draws = draws.add_checked(&token.add_checked(&four).add_value((vocab - 1) as u64));
        assert(step_cost(*cfg, v, i + 1) == token@ + four@ + 1);
        assert(draw_cost(*cfg, v, i + 1) == token@ + four@ + v - 1);
        if !at_most(&steps, limit) {
            proof {
                lemma_steps_cost_grows(*cfg, v, i + 1, block);
            }
            return false;
        }
    }
    let documents: CheckedU64 = params.add_checked(&steps.add_value(cfg.block_size as u64));
    let samples: CheckedU64 = params.add_checked(&draws);
    let room: bool = at_most(&documents, limit) && at_most(&samples, limit);
    proof {
        assert forall|n: int| 0 <= n <= block && room implies param_count(*cfg, v)
            + #[trigger] document_cost(*cfg, v, n) <= max_nodes() by {
            lemma_steps_cost_grows(*cfg, v, n, block);
        }
        assert forall|n: int| 0 <= n <= block && room implies param_count(*cfg, v)
            + #[trigger] draws_cost(*cfg, v, n) <= max_nodes() by {
            lemma_draws_cost_grows(*cfg, v, n, block);
        }
    }
    room
}

/// The document that comes at step `step`, of `len` that are taken in turn.
pub fn document_at(step: usize, len: usize) -> (i: usize)
    requires
        len > 0,
    ensures
        i < len,
        i == step % len,
{
    step % len
}

} // verus!
