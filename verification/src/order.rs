//! The order of the nodes on a tape: for every computation, the operations that it appends,
//! one behind the other, and where its results stand.
use vstd::prelude::*;

use crate::graph::{datas_of, is_minus_half, linear_cost, rows_of};
use crate::layout::{Cfg, Ratio};
use crate::norm::EPS_DEN;
use crate::reduce::is_max_of;
use crate::scalar::{is_max, is_num, is_ratio, is_sqrt, is_zero, Scalar};
use crate::tape::{
    data_of, extends, grows_by_one, is_add_const, is_add_node, is_div_const, is_div_node,
    is_exp_node, is_log_node, is_mul_const, is_mul_node, is_neg_node, is_pow_node, is_relu_node,
    is_sub_const, max_nodes, topological, Node, Value,
};
use crate::tape_gpt::{column, head_cost, layer_cost, part_of, LayerTrace, LayerWeights, StateDict};
use crate::tape_sample::{drawn_before, draws_cost};
use crate::tape_token::{cache_grows, token_cost};
use crate::tape_train::{is_share, steps_cost};

verus! {

/// An operation, with the handles of its operands.
pub enum Op {
    Add(Value, Value),
    Mul(Value, Value),
    Div(Value, Value),
    Neg(Value),
    Log(Value),
    Exp(Value),
    Relu(Value),
    /// Minus the largest of some numbers, as a constant.
    SubMax(Value, Seq<Value>),
    /// Divided by a whole number.
    DivNum(Value, nat),
    /// Divided by the root of a whole number.
    DivRoot(Value, nat),
    /// Divided by a fraction.
    DivRatio(Value, Ratio),
    /// Times one over a whole number.
    MulShare(Value, nat),
    /// Plus the small number that keeps a norm away from zero.
    AddEps(Value),
    /// To the power of minus one half.
    InverseRoot(Value),
}

/// The handle of node `i`.
pub open spec fn at(i: int) -> Value {
    Value { idx: i as u32 }
}

/// The handles of `n` nodes from `start` on.
pub open spec fn row_at(start: int, n: nat) -> Seq<Value> {
    Seq::new(n, |i: int| at(start + i))
}

/// Node `r` is what `op` makes of its operands.
pub open spec fn is_op<S: Scalar>(nodes: Seq<Node<S>>, op: Op, r: Value) -> bool {
    match op {
        Op::Add(a, b) => is_add_node(nodes, a, b, r),
        Op::Mul(a, b) => is_mul_node(nodes, a, b, r),
        Op::Div(a, b) => is_div_node(nodes, a, b, r),
        Op::Neg(a) => is_neg_node(nodes, a, r),
        Op::Log(a) => is_log_node(nodes, a, r),
        Op::Exp(a) => is_exp_node(nodes, a, r),
        Op::Relu(a) => is_relu_node(nodes, a, r),
        Op::SubMax(a, xs) => is_sub_max(nodes, a, xs, r),
        Op::DivNum(a, n) => is_div_num(nodes, a, n, r),
        Op::DivRoot(a, n) => is_div_root(nodes, a, n, r),
        Op::DivRatio(a, q) => is_div_ratio(nodes, a, q, r),
        Op::MulShare(a, n) => is_mul_share(nodes, a, n, r),
        Op::AddEps(a) => is_add_eps(nodes, a, r),
        Op::InverseRoot(a) => is_inverse_root(nodes, a, r),
    }
}

/// `r` is `a` minus the largest of `xs`.
pub open spec fn is_sub_max<S: Scalar>(
    nodes: Seq<Node<S>>,
    a: Value,
    xs: Seq<Value>,
    r: Value,
) -> bool {
    &&& forall|i: int| 0 <= i < xs.len() ==> (#[trigger] xs[i]).idx < r.idx
    &&& exists|c: S| is_max_of(datas_of(nodes, xs), c) && #[trigger] is_sub_const(nodes, a, c, r)
}

/// `r` is `a` divided by `n`.
pub open spec fn is_div_num<S: Scalar>(nodes: Seq<Node<S>>, a: Value, n: nat, r: Value) -> bool {
    exists|c: S| is_num(n as u64, c) && #[trigger] is_div_const(nodes, a, c, r)
}

/// `r` is `a` divided by the root of `n`.
pub open spec fn is_div_root<S: Scalar>(nodes: Seq<Node<S>>, a: Value, n: nat, r: Value) -> bool {
    exists|c: S| is_root(n, c) && #[trigger] is_div_const(nodes, a, c, r)
}

/// `r` is `a` divided by `q`.
pub open spec fn is_div_ratio<S: Scalar>(
    nodes: Seq<Node<S>>,
    a: Value,
    q: Ratio,
    r: Value,
) -> bool {
    exists|c: S| is_ratio(q.num, q.den, c) && #[trigger] is_div_const(nodes, a, c, r)
}

/// `r` is `a` times one over `n`.
pub open spec fn is_mul_share<S: Scalar>(nodes: Seq<Node<S>>, a: Value, n: nat, r: Value) -> bool {
    exists|c: S| is_share(n, c) && #[trigger] is_mul_const(nodes, a, c, r)
}

/// `r` is `a` plus the small number that keeps a norm away from zero.
pub open spec fn is_add_eps<S: Scalar>(nodes: Seq<Node<S>>, a: Value, r: Value) -> bool {
    exists|c: S| is_ratio(1, EPS_DEN, c) && #[trigger] is_add_const(nodes, a, c, r)
}

/// `r` is `a` to the power of minus one half.
pub open spec fn is_inverse_root<S: Scalar>(nodes: Seq<Node<S>>, a: Value, r: Value) -> bool {
    exists|c: S| is_minus_half(c) && #[trigger] is_pow_node(nodes, a, c, r)
}

/// `c` is the root of `n`.
pub open spec fn is_root<S: Scalar>(n: nat, c: S) -> bool {
    exists|num: S| is_num(n as u64, num) && #[trigger] is_sqrt(num, c)
}

/// `later` is `nodes` followed by the nodes of `ops`, in this order. Operands stand before
/// their nodes.
#[verifier::opaque]
pub open spec fn follows<S: Scalar>(
    nodes: Seq<Node<S>>,
    later: Seq<Node<S>>,
    ops: Seq<Op>,
) -> bool {
    &&& extends(nodes, later)
    &&& topological(later)
    &&& later.len() == nodes.len() + ops.len() <= max_nodes()
    &&& forall|i: int|
        0 <= i < ops.len() ==> is_op(later, #[trigger] ops[i], at(nodes.len() + i))
}

/// The sum of the first `n` of `terms`.
pub open spec fn sum_at(start: int, terms: Seq<Value>, n: int) -> Value {
    if n <= 1 {
        terms[0]
    } else {
        at(start + n - 2)
    }
}

/// The operations of a sum of the first `n` of `terms`.
pub open spec fn sum_ops(start: int, terms: Seq<Value>, n: int) -> Seq<Op>
    decreases n,
{
    if n <= 1 {
        Seq::empty()
    } else {
        sum_ops(start, terms, n - 1).push(Op::Add(sum_at(start, terms, n - 1), terms[n - 1]))
    }
}

/// The operations of the dot product of the first `n` of `a` and `b`: each product is added
/// as soon as it is there.
pub open spec fn dot_ops(start: int, a: Seq<Value>, b: Seq<Value>, n: int) -> Seq<Op>
    decreases n,
{
    if n <= 0 {
        Seq::empty()
    } else if n == 1 {
        Seq::empty().push(Op::Mul(a[0], b[0]))
    } else {
        dot_ops(start, a, b, n - 1).push(Op::Mul(a[n - 1], b[n - 1])).push(
            Op::Add(at(start + 2 * n - 4), at(start + 2 * n - 3)),
        )
    }
}

/// The dot product of `n` pairs.
pub open spec fn dot_at(start: int, n: int) -> Value {
    at(start + 2 * n - 2)
}

/// The operations of the first `n` numbers of a linear layer.
pub open spec fn linear_ops(start: int, x: Seq<Value>, w: Seq<Seq<Value>>, n: int) -> Seq<Op>
    decreases n,
{
    if n <= 0 {
        Seq::empty()
    } else {
        linear_ops(start, x, w, n - 1) + dot_ops(
            start + (n - 1) * (2 * x.len() - 1),
            w[n - 1],
            x,
            x.len() as int,
        )
    }
}

/// The results of `nout` dot products of `nin` pairs each.
pub open spec fn linear_at(start: int, nin: int, nout: nat) -> Seq<Value> {
    Seq::new(nout, |j: int| dot_at(start + j * (2 * nin - 1), nin))
}

/// The operations of the first `n` exponentials of a softmax.
pub open spec fn exp_ops(start: int, xs: Seq<Value>, n: int) -> Seq<Op>
    decreases n,
{
    if n <= 0 {
        Seq::empty()
    } else {
        exp_ops(start, xs, n - 1).push(Op::SubMax(xs[n - 1], xs)).push(
            Op::Exp(at(start + 2 * n - 2)),
        )
    }
}

/// The exponentials.
pub open spec fn exps_at(start: int, n: nat) -> Seq<Value> {
    Seq::new(n, |i: int| at(start + 2 * i + 1))
}

/// The operations that divide the first `n` of `xs` by `y`.
pub open spec fn div_ops(xs: Seq<Value>, y: Value, n: int) -> Seq<Op>
    decreases n,
{
    if n <= 0 {
        Seq::empty()
    } else {
        div_ops(xs, y, n - 1).push(Op::Div(xs[n - 1], y))
    }
}

/// The operations of a softmax.
pub open spec fn softmax_ops(start: int, xs: Seq<Value>) -> Seq<Op> {
    let n = xs.len() as int;
    let es = exps_at(start, xs.len());
    exp_ops(start, xs, n) + sum_ops(start + 2 * n, es, n) + div_ops(
        es,
        sum_at(start + 2 * n, es, n),
        n,
    )
}

/// The results of a softmax of `n` numbers.
pub open spec fn softmax_at(start: int, n: nat) -> Seq<Value> {
    row_at(start + 3 * n - 1, n)
}

/// The operations that multiply the first `n` of `xs` by `y`.
pub open spec fn mul_ops(xs: Seq<Value>, y: Value, n: int) -> Seq<Op>
    decreases n,
{
    if n <= 0 {
        Seq::empty()
    } else {
        mul_ops(xs, y, n - 1).push(Op::Mul(xs[n - 1], y))
    }
}

/// The operations of a normalization.
pub open spec fn rmsnorm_ops(start: int, xs: Seq<Value>) -> Seq<Op> {
    let n = xs.len() as int;
    dot_ops(start, xs, xs, n).push(Op::DivNum(dot_at(start, n), xs.len())).push(
        Op::AddEps(at(start + 2 * n - 1)),
    ).push(Op::InverseRoot(at(start + 2 * n))) + mul_ops(xs, at(start + 2 * n + 1), n)
}

/// The results of a normalization of `n` numbers.
pub open spec fn rmsnorm_at(start: int, n: nat) -> Seq<Value> {
    row_at(start + 2 * n + 2, n)
}

/// The operations that add the first `n` of `a` and `b`, one by one.
pub open spec fn add_ops(a: Seq<Value>, b: Seq<Value>, n: int) -> Seq<Op>
    decreases n,
{
    if n <= 0 {
        Seq::empty()
    } else {
        add_ops(a, b, n - 1).push(Op::Add(a[n - 1], b[n - 1]))
    }
}

/// The operations that cut off the negative numbers among the first `n` of `xs`.
pub open spec fn relu_ops(xs: Seq<Value>, n: int) -> Seq<Op>
    decreases n,
{
    if n <= 0 {
        Seq::empty()
    } else {
        relu_ops(xs, n - 1).push(Op::Relu(xs[n - 1]))
    }
}

/// The operations that divide the first `n` of `xs` by a temperature.
pub open spec fn scale_ops(xs: Seq<Value>, temperature: Ratio, n: int) -> Seq<Op>
    decreases n,
{
    if n <= 0 {
        Seq::empty()
    } else {
        scale_ops(xs, temperature, n - 1).push(Op::DivRatio(xs[n - 1], temperature))
    }
}

/// The operations of the first `n` scores of the head that starts at `from`.
pub open spec fn score_ops(
    start: int,
    d: int,
    from: int,
    q: Seq<Value>,
    keys: Seq<Seq<Value>>,
    n: int,
) -> Seq<Op>
    decreases n,
{
    if n <= 0 {
        Seq::empty()
    } else {
        let own = start + (n - 1) * (2 * d);
        score_ops(start, d, from, q, keys, n - 1) + dot_ops(
            own,
            part_of(q, from, d),
            part_of(keys[n - 1], from, d),
            d,
        ).push(Op::DivRoot(dot_at(own, d), d as nat))
    }
}

/// The scores over `t` positions.
pub open spec fn scores_at(start: int, d: int, t: nat) -> Seq<Value> {
    Seq::new(t, |i: int| at(start + i * (2 * d) + 2 * d - 1))
}

/// The operations that mix the first `n` columns from `from` on by the attention weights.
pub open spec fn mix_ops(
    start: int,
    weights: Seq<Value>,
    values: Seq<Seq<Value>>,
    from: int,
    n: int,
) -> Seq<Op>
    decreases n,
{
    if n <= 0 {
        Seq::empty()
    } else {
        mix_ops(start, weights, values, from, n - 1) + dot_ops(
            start + (n - 1) * (2 * weights.len() - 1),
            weights,
            column(values, from + n - 1),
            weights.len() as int,
        )
    }
}

/// The operations of the head that starts at `from`.
pub open spec fn head_ops(
    start: int,
    d: int,
    from: int,
    q: Seq<Value>,
    keys: Seq<Seq<Value>>,
    values: Seq<Seq<Value>>,
) -> Seq<Op> {
    let t = keys.len();
    let scored = start + t * (2 * d);
    score_ops(start, d, from, q, keys, t as int) + softmax_ops(scored, scores_at(start, d, t))
        + mix_ops(scored + (4 * t - 1), softmax_at(scored, t), values, from, d)
}

/// The results of a head over `t` positions.
pub open spec fn head_at(start: int, d: int, t: nat) -> Seq<Value> {
    linear_at(start + t * (2 * d) + (4 * t - 1), t as int, d as nat)
}

/// The operations of the first `n` heads.
pub open spec fn attention_ops(
    start: int,
    d: int,
    q: Seq<Value>,
    keys: Seq<Seq<Value>>,
    values: Seq<Seq<Value>>,
    n: int,
) -> Seq<Op>
    decreases n,
{
    if n <= 0 {
        Seq::empty()
    } else {
        attention_ops(start, d, q, keys, values, n - 1) + head_ops(
            start + (n - 1) * head_cost(d, keys.len() as int),
            d,
            (n - 1) * d,
            q,
            keys,
            values,
        )
    }
}

/// The results of the first `n` heads over `t` positions, side by side.
pub open spec fn attention_at(start: int, d: int, t: nat, n: int) -> Seq<Value>
    decreases n,
{
    if n <= 0 {
        Seq::empty()
    } else {
        attention_at(start, d, t, n - 1) + head_at(start + (n - 1) * head_cost(d, t as int), d, t)
    }
}

/// The handles of a token's numbers in a layer whose nodes start at `start`; the token is the
/// `t`-th of its document.
#[verifier::opaque]
pub open spec fn layer_at(start: int, cfg: Cfg, t: nat, xin: Seq<Value>) -> LayerTrace {
    let c = cfg.n_embd as int;
    let (n, wide) = (cfg.n_embd as nat, (4 * cfg.n_embd) as nat);
    let d = c / cfg.n_head as int;
    let n1 = start + 3 * c + 2;
    let n2 = n1 + linear_cost(c, c);
    let n3 = n2 + linear_cost(c, c);
    let n4 = n3 + linear_cost(c, c);
    let n5 = n4 + cfg.n_head * head_cost(d, t as int);
    let n6 = n5 + linear_cost(c, c);
    let n7 = n6 + c;
    let n8 = n7 + 3 * c + 2;
    let n9 = n8 + linear_cost(c, 4 * c);
    let n10 = n9 + 4 * c;
    let n11 = n10 + linear_cost(4 * c, c);
    LayerTrace {
        xin,
        xn: rmsnorm_at(start, n),
        q: linear_at(n1, c, n),
        k: linear_at(n2, c, n),
        v: linear_at(n3, c, n),
        x_attn: attention_at(n4, d, t, cfg.n_head as int),
        proj: linear_at(n5, c, n),
        x_mid: row_at(n6, n),
        xn2: rmsnorm_at(n7, n),
        hpre: linear_at(n8, c, wide),
        h: row_at(n9, wide),
        mlp: linear_at(n10, 4 * c, n),
        x_out: row_at(n11, n),
    }
}

/// The operations of one token in one layer, behind the tokens whose keys and values are
/// `keys` and `values`.
#[verifier::opaque]
pub open spec fn layer_ops(
    start: int,
    cfg: Cfg,
    w: LayerWeights,
    xin: Seq<Value>,
    keys: Seq<Seq<Value>>,
    values: Seq<Seq<Value>>,
) -> Seq<Op> {
    let c = cfg.n_embd as int;
    let t = layer_at(start, cfg, keys.len() + 1, xin);
    let d = c / cfg.n_head as int;
    let n1 = start + 3 * c + 2;
    let n2 = n1 + linear_cost(c, c);
    let n3 = n2 + linear_cost(c, c);
    let n4 = n3 + linear_cost(c, c);
    let n5 = n4 + cfg.n_head * head_cost(d, keys.len() as int + 1);
    let n7 = n5 + linear_cost(c, c) + c;
    let n8 = n7 + 3 * c + 2;
    let n10 = n8 + linear_cost(c, 4 * c) + 4 * c;
    rmsnorm_ops(start, xin) + linear_ops(n1, t.xn, rows_of(w.attn_wq@), c) + linear_ops(
        n2,
        t.xn,
        rows_of(w.attn_wk@),
        c,
    ) + linear_ops(n3, t.xn, rows_of(w.attn_wv@), c) + attention_ops(
        n4,
        d,
        t.q,
        keys.push(t.k),
        values.push(t.v),
        cfg.n_head as int,
    ) + linear_ops(n5, t.x_attn, rows_of(w.attn_wo@), c) + add_ops(t.proj, xin, c) + rmsnorm_ops(
        n7,
        t.x_mid,
    ) + linear_ops(n8, t.xn2, rows_of(w.mlp_fc1@), 4 * c) + relu_ops(t.hpre, 4 * c) + linear_ops(
        n10,
        t.h,
        rows_of(w.mlp_fc2@),
        c,
    ) + add_ops(t.mlp, t.x_mid, c)
}

/// What goes into layer `n` of those whose nodes start at `start`.
pub open spec fn layer_in(start: int, cfg: Cfg, t: nat, x1: Seq<Value>, n: int) -> Seq<Value>
    decreases n,
{
    if n <= 0 {
        x1
    } else {
        layer_at(
            start + (n - 1) * layer_cost(cfg, t as int),
            cfg,
            t,
            layer_in(start, cfg, t, x1, n - 1),
        ).x_out
    }
}

/// The handles of a token's numbers in layer `li`.
pub open spec fn nth_layer_at(start: int, cfg: Cfg, t: nat, x1: Seq<Value>, li: int) -> LayerTrace {
    layer_at(start + li * layer_cost(cfg, t as int), cfg, t, layer_in(start, cfg, t, x1, li))
}

/// The operations of the first `n` layers.
pub open spec fn layers_ops(
    start: int,
    cfg: Cfg,
    sd: StateDict,
    x1: Seq<Value>,
    keys: Seq<Seq<Seq<Value>>>,
    values: Seq<Seq<Seq<Value>>>,
    t: nat,
    n: int,
) -> Seq<Op>
    decreases n,
{
    if n <= 0 {
        Seq::empty()
    } else {
        layers_ops(start, cfg, sd, x1, keys, values, t, n - 1) + layer_ops(
            start + (n - 1) * layer_cost(cfg, t as int),
            cfg,
            sd.layers@[n - 1],
            layer_in(start, cfg, t, x1, n - 1),
            keys[n - 1],
            values[n - 1],
        )
    }
}

/// Where the nodes of a token's layers start, where those of the token start at `start`.
pub open spec fn layers_from(start: int, cfg: Cfg) -> int {
    start + 4 * cfg.n_embd + 2
}

/// The normalized embedding of a token whose nodes start at `start`.
pub open spec fn embedded_at(start: int, cfg: Cfg) -> Seq<Value> {
    rmsnorm_at(start + cfg.n_embd, cfg.n_embd as nat)
}

/// The keys of the `t`-th token of a document in layer `li`.
pub open spec fn key_at(start: int, cfg: Cfg, t: nat, li: int) -> Seq<Value> {
    nth_layer_at(layers_from(start, cfg), cfg, t, embedded_at(start, cfg), li).k
}

/// The values of the `t`-th token of a document in layer `li`.
pub open spec fn value_at(start: int, cfg: Cfg, t: nat, li: int) -> Seq<Value> {
    nth_layer_at(layers_from(start, cfg), cfg, t, embedded_at(start, cfg), li).v
}

/// The logits behind the `t`-th token of a document.
pub open spec fn logits_at(start: int, cfg: Cfg, vocab: nat, t: nat) -> Seq<Value> {
    linear_at(
        layers_from(start, cfg) + cfg.n_layer * layer_cost(cfg, t as int),
        cfg.n_embd as int,
        vocab,
    )
}

/// The operations of the network for the token `token` at position `pos`, the `t`-th of its
/// document, behind those whose keys and values are in the caches.
#[verifier::opaque]
pub open spec fn token_ops(
    start: int,
    cfg: Cfg,
    sd: StateDict,
    token: int,
    pos: int,
    keys: Seq<Seq<Seq<Value>>>,
    values: Seq<Seq<Seq<Value>>>,
    t: nat,
) -> Seq<Op> {
    let c = cfg.n_embd as int;
    let x1 = embedded_at(start, cfg);
    let from = layers_from(start, cfg);
    add_ops(rows_of(sd.wte@)[token], rows_of(sd.wpe@)[pos], c) + rmsnorm_ops(
        start + c,
        row_at(start, cfg.n_embd as nat),
    ) + layers_ops(from, cfg, sd, x1, keys, values, t, cfg.n_layer as int) + linear_ops(
        from + cfg.n_layer * layer_cost(cfg, t as int),
        layer_in(from, cfg, t, x1, cfg.n_layer as int),
        rows_of(sd.lm_head@),
        sd.lm_head@.len() as int,
    )
}

/// The keys of the first `n` tokens, where the nodes of the `i`-th start at `starts(i)`.
pub open spec fn keys_at(cfg: Cfg, starts: spec_fn(int) -> int, n: nat) -> Seq<Seq<Seq<Value>>> {
    Seq::new(
        cfg.n_layer as nat,
        |li: int| Seq::new(n, |i: int| key_at(starts(i), cfg, (i + 1) as nat, li)),
    )
}

/// The values of the first `n` tokens.
pub open spec fn values_at(cfg: Cfg, starts: spec_fn(int) -> int, n: nat) -> Seq<Seq<Seq<Value>>> {
    Seq::new(
        cfg.n_layer as nat,
        |li: int| Seq::new(n, |i: int| value_at(starts(i), cfg, (i + 1) as nat, li)),
    )
}

/// Where the nodes of the positions of a document start.
pub open spec fn step_starts(start: int, cfg: Cfg, vocab: int) -> spec_fn(int) -> int {
    |pos: int| start + steps_cost(cfg, vocab, pos)
}

/// The operations of one position, whose nodes start at `own`: those of the token, behind the
/// ones whose keys and values are in the caches, and of the loss.
#[verifier::opaque]
pub open spec fn position_ops(
    own: int,
    cfg: Cfg,
    vocab: nat,
    sd: StateDict,
    tokens: Seq<usize>,
    pos: int,
    keys: Seq<Seq<Seq<Value>>>,
    values: Seq<Seq<Seq<Value>>>,
) -> Seq<Op> {
    let t = (pos + 1) as nat;
    let end = own + token_cost(cfg, vocab as int, t as int);
    token_ops(own, cfg, sd, tokens[pos] as int, pos, keys, values, t) + softmax_ops(
        end,
        logits_at(own, cfg, vocab, t),
    ).push(Op::Log(softmax_at(end, vocab)[tokens[pos + 1] as int])).push(
        Op::Neg(at(end + 4 * vocab - 1)),
    )
}

/// The operations of position `pos` of a document whose nodes start at `start`.
pub open spec fn step_ops(
    start: int,
    cfg: Cfg,
    vocab: nat,
    sd: StateDict,
    tokens: Seq<usize>,
    pos: int,
) -> Seq<Op> {
    let starts = step_starts(start, cfg, vocab as int);
    position_ops(
        starts(pos),
        cfg,
        vocab,
        sd,
        tokens,
        pos,
        keys_at(cfg, starts, pos as nat),
        values_at(cfg, starts, pos as nat),
    )
}

/// The operations of the first `n` positions.
pub open spec fn steps_ops(
    start: int,
    cfg: Cfg,
    vocab: nat,
    sd: StateDict,
    tokens: Seq<usize>,
    n: int,
) -> Seq<Op>
    decreases n,
{
    if n <= 0 {
        Seq::empty()
    } else {
        steps_ops(start, cfg, vocab, sd, tokens, n - 1) + step_ops(
            start,
            cfg,
            vocab,
            sd,
            tokens,
            n - 1,
        )
    }
}

/// The losses of the first `n` positions.
pub open spec fn losses_at(start: int, cfg: Cfg, vocab: int, n: nat) -> Seq<Value> {
    Seq::new(n, |pos: int| at(start + steps_cost(cfg, vocab, pos + 1) - 1))
}

/// The operations of the mean loss of the first `n` positions of a document.
pub open spec fn document_ops(
    start: int,
    cfg: Cfg,
    vocab: nat,
    sd: StateDict,
    tokens: Seq<usize>,
    n: nat,
) -> Seq<Op> {
    let end = start + steps_cost(cfg, vocab as int, n as int);
    let losses = losses_at(start, cfg, vocab as int, n);
    steps_ops(start, cfg, vocab, sd, tokens, n as int) + sum_ops(end, losses, n as int).push(
        Op::MulShare(sum_at(end, losses, n as int), n),
    )
}

/// The probabilities of the token that follows the one at `pos`, whose nodes start at `own`.
pub open spec fn probs_at(own: int, cfg: Cfg, vocab: nat, pos: int) -> Seq<Value> {
    softmax_at(own + token_cost(cfg, vocab as int, pos + 1) + vocab, vocab)
}

/// The operations of one draw, whose nodes start at `own`: those of the token at `pos`, behind
/// the ones whose keys and values are in the caches, and of the probabilities.
#[verifier::opaque]
pub open spec fn draw_ops(
    own: int,
    cfg: Cfg,
    vocab: nat,
    sd: StateDict,
    token: int,
    pos: int,
    keys: Seq<Seq<Seq<Value>>>,
    values: Seq<Seq<Seq<Value>>>,
    temperature: Ratio,
) -> Seq<Op> {
    let t = (pos + 1) as nat;
    let end = own + token_cost(cfg, vocab as int, t as int);
    token_ops(own, cfg, sd, token, pos, keys, values, t) + scale_ops(
        logits_at(own, cfg, vocab, t),
        temperature,
        vocab as int,
    ) + softmax_ops(end + vocab, row_at(end, vocab))
}

/// Where the nodes of the draws start.
pub open spec fn draw_starts(start: int, cfg: Cfg, vocab: int) -> spec_fn(int) -> int {
    |i: int| start + draws_cost(cfg, vocab, i)
}

/// The operations of the first `n` of `draws`, whose nodes start at `start`.
pub open spec fn draws_ops(
    start: int,
    cfg: Cfg,
    vocab: nat,
    sd: StateDict,
    bos: int,
    temperature: Ratio,
    draws: Seq<usize>,
    n: int,
) -> Seq<Op>
    decreases n,
{
    if n <= 0 {
        Seq::empty()
    } else {
        let starts = draw_starts(start, cfg, vocab as int);
        draws_ops(start, cfg, vocab, sd, bos, temperature, draws, n - 1) + draw_ops(
            starts(n - 1),
            cfg,
            vocab,
            sd,
            drawn_before(bos, draws, n - 1),
            n - 1,
            keys_at(cfg, starts, (n - 1) as nat),
            values_at(cfg, starts, (n - 1) as nat),
            temperature,
        )
    }
}

/// The keys of one more token.
pub proof fn lemma_keys_grow(
    cfg: Cfg,
    starts: spec_fn(int) -> int,
    n: nat,
    after: Seq<Seq<Seq<Value>>>,
    row: spec_fn(int) -> Seq<Value>,
)
    requires
        cache_grows(keys_at(cfg, starts, n), after, row),
        forall|li: int| #[trigger] row(li) == key_at(starts(n as int), cfg, n + 1, li),
    ensures
        after == keys_at(cfg, starts, n + 1),
{
    let (k0, k1) = (keys_at(cfg, starts, n), keys_at(cfg, starts, n + 1));
    assert forall|li: int| 0 <= li < cfg.n_layer implies #[trigger] after[li] == k1[li] by {
        assert(after[li] == k0[li].push(row(li)));
        assert(after[li] =~= k1[li]);
    }
    assert(after =~= k1);
}

/// The values of one more token.
pub proof fn lemma_values_grow(
    cfg: Cfg,
    starts: spec_fn(int) -> int,
    n: nat,
    after: Seq<Seq<Seq<Value>>>,
    row: spec_fn(int) -> Seq<Value>,
)
    requires
        cache_grows(values_at(cfg, starts, n), after, row),
        forall|li: int| #[trigger] row(li) == value_at(starts(n as int), cfg, n + 1, li),
    ensures
        after == values_at(cfg, starts, n + 1),
{
    let (v0, v1) = (values_at(cfg, starts, n), values_at(cfg, starts, n + 1));
    assert forall|li: int| 0 <= li < cfg.n_layer implies #[trigger] after[li] == v1[li] by {
        assert(after[li] == v0[li].push(row(li)));
        assert(after[li] =~= v1[li]);
    }
    assert(after =~= v1);
}

/// An operation stays what it is when the tape grows.
pub proof fn lemma_op_extends<S: Scalar>(
    nodes: Seq<Node<S>>,
    later: Seq<Node<S>>,
    op: Op,
    r: Value,
)
    requires
        extends(nodes, later),
        is_op(nodes, op, r),
    ensures
        is_op(later, op, r),
{
    match op {
        Op::Relu(a) => {
            let zero = choose|zero: S|
                is_zero(zero) && #[trigger] is_max(data_of(nodes, a), zero, data_of(nodes, r));
            assert(is_max(data_of(later, a), zero, data_of(later, r)));
        },
        Op::SubMax(a, xs) => {
            let c = choose|c: S|
                is_max_of(datas_of(nodes, xs), c) && #[trigger] is_sub_const(nodes, a, c, r);
            assert(datas_of(later, xs) =~= datas_of(nodes, xs)) by {
                assert forall|i: int| 0 <= i < xs.len() implies data_of(later, xs[i]) == data_of(
                    nodes,
                    #[trigger] xs[i],
                ) by {
                    assert(xs[i].idx < r.idx);
                }
            }
            assert(is_sub_const(later, a, c, r));
        },
        Op::DivNum(a, n) => {
            let c = choose|c: S| is_num(n as u64, c) && #[trigger] is_div_const(nodes, a, c, r);
            assert(is_div_const(later, a, c, r));
        },
        Op::DivRoot(a, n) => {
            let c = choose|c: S| is_root(n, c) && #[trigger] is_div_const(nodes, a, c, r);
            assert(is_div_const(later, a, c, r));
        },
        Op::DivRatio(a, q) => {
            let c = choose|c: S|
                is_ratio(q.num, q.den, c) && #[trigger] is_div_const(nodes, a, c, r);
            assert(is_div_const(later, a, c, r));
        },
        Op::MulShare(a, n) => {
            let c = choose|c: S| is_share(n, c) && #[trigger] is_mul_const(nodes, a, c, r);
            assert(is_mul_const(later, a, c, r));
        },
        Op::AddEps(a) => {
            let c = choose|c: S|
                is_ratio(1, EPS_DEN, c) && #[trigger] is_add_const(nodes, a, c, r);
            assert(is_add_const(later, a, c, r));
        },
        Op::InverseRoot(a) => {
            let c = choose|c: S| is_minus_half(c) && #[trigger] is_pow_node(nodes, a, c, r);
            assert(is_pow_node(later, a, c, r));
        },
        _ => {},
    }
}

/// Nothing is appended.
pub proof fn lemma_follows_none<S: Scalar>(nodes: Seq<Node<S>>)
    requires
        topological(nodes),
        nodes.len() <= max_nodes(),
    ensures
        follows(nodes, nodes, Seq::empty()),
{
    reveal(follows);
}

/// One more operation.
pub proof fn lemma_follows_push<S: Scalar>(
    nodes: Seq<Node<S>>,
    mid: Seq<Node<S>>,
    later: Seq<Node<S>>,
    ops: Seq<Op>,
    op: Op,
    r: Value,
)
    requires
        follows(nodes, mid, ops),
        grows_by_one(mid, later, r),
        topological(later),
        later.len() <= max_nodes(),
        is_op(later, op, r),
    ensures
        follows(nodes, later, ops.push(op)),
        r == at(mid.len() as int),
{
    reveal(follows);
    let all = ops.push(op);
    assert forall|i: int| 0 <= i < all.len() implies is_op(
        later,
        #[trigger] all[i],
        at(nodes.len() + i),
    ) by {
        if i < ops.len() {
            assert(all[i] == ops[i]);
            lemma_op_extends(mid, later, ops[i], at(nodes.len() + i));
        }
    }
}

/// More operations behind those that are there.
pub proof fn lemma_follows_append<S: Scalar>(
    nodes: Seq<Node<S>>,
    mid: Seq<Node<S>>,
    later: Seq<Node<S>>,
    ops: Seq<Op>,
    more: Seq<Op>,
)
    requires
        follows(nodes, mid, ops),
        follows(mid, later, more),
    ensures
        follows(nodes, later, ops + more),
{
    reveal(follows);
    let all = ops + more;
    assert forall|i: int| 0 <= i < all.len() implies is_op(
        later,
        #[trigger] all[i],
        at(nodes.len() + i),
    ) by {
        if i < ops.len() {
            assert(all[i] == ops[i]);
            lemma_op_extends(mid, later, ops[i], at(nodes.len() + i));
        } else {
            assert(all[i] == more[i - ops.len()]);
        }
    }
}

} // verus!
