//! Where operations have one outcome, computations on a tape have: the same nodes, the same
//! gradients and the same parameters after a step, bit by bit.
use vstd::prelude::*;

use crate::agree::lemma_max_agrees;
use crate::graph::{datas_of, is_minus_half};
use crate::layout::Cfg;
use crate::norm::EPS_DEN;
use crate::order::{at, document_ops, follows, is_op, is_root, Op};
use crate::reduce::is_max_of;
use crate::repeat::{law_adam_is_deterministic, lemma_rate_repeats};
use crate::scalar::{
    deterministic, is_diff, is_max, is_neg, is_num, is_one, is_pow, is_prod, is_quot, is_ratio,
    is_sqrt, is_zero, lemma_running_sum_unique, Scalar,
};
use crate::tape::{
    data_of, grads_of, is_add_const, is_div_const, is_inverse, is_minus_one, is_mul_const,
    is_pow_node, is_pow_slope, is_pulled, is_quot_slope, is_sub_const, is_tape_backward, left_of,
    lemma_uses_between, stands_before, topological, use_term, uses, Node, Value,
};
use crate::tape_gpt::StateDict;
use crate::tape_train::{
    is_consumed, is_share, is_tape_adam, is_tape_train_step, trained, Buffers, TrainTrace,
};

verus! {

/// Whether two tapes have the same first `n` nodes.
pub open spec fn same_below<S>(x: Seq<Node<S>>, y: Seq<Node<S>>, n: int) -> bool {
    forall|i: int| 0 <= i < n ==> #[trigger] x[i] == y[i]
}

/// One over a number has one outcome.
proof fn lemma_inverse_repeats<S: Scalar>(a: S, r: S, q: S)
    requires
        deterministic::<S>(),
        is_inverse(a, r),
        is_inverse(a, q),
    ensures
        r == q,
{
    let one = choose|one: S| is_one(one) && #[trigger] is_quot(one, a, r);
    let uno = choose|one: S| is_one(one) && #[trigger] is_quot(one, a, q);
    assert(one == uno);
}

/// So has minus one,
proof fn lemma_minus_one_repeats<S: Scalar>(r: S, q: S)
    requires
        deterministic::<S>(),
        is_minus_one(r),
        is_minus_one(q),
    ensures
        r == q,
{
    let one = choose|one: S| is_one(one) && #[trigger] is_neg(one, r);
    let uno = choose|one: S| is_one(one) && #[trigger] is_neg(one, q);
    assert(one == uno);
}

/// the derivative of a quotient,
proof fn lemma_quot_slope_repeats<S: Scalar>(a: S, b: S, r: S, q: S)
    requires
        deterministic::<S>(),
        is_quot_slope(a, b, r),
        is_quot_slope(a, b, q),
    ensures
        r == q,
{
    let (t1, s1) = choose|top: S, square: S|
        is_neg(a, top) && is_prod(b, b, square) && #[trigger] is_quot(top, square, r);
    let (t2, s2) = choose|top: S, square: S|
        is_neg(a, top) && is_prod(b, b, square) && #[trigger] is_quot(top, square, q);
    assert(t1 == t2 && s1 == s2);
}

/// and the derivative of a power.
proof fn lemma_pow_slope_repeats<S: Scalar>(a: S, k: S, r: S, q: S)
    requires
        deterministic::<S>(),
        is_pow_slope(a, k, r),
        is_pow_slope(a, k, q),
    ensures
        r == q,
{
    let (o1, l1, p1) = choose|one: S, less: S, power: S|
        #![trigger is_diff(k, one, less), is_pow(a, less, power)]
        is_one(one) && is_diff(k, one, less) && is_pow(a, less, power) && is_prod(k, power, r);
    let (o2, l2, p2) = choose|one: S, less: S, power: S|
        #![trigger is_diff(k, one, less), is_pow(a, less, power)]
        is_one(one) && is_diff(k, one, less) && is_pow(a, less, power) && is_prod(k, power, q);
    assert(o1 == o2);
    assert(l1 == l2);
    assert(p1 == p2);
}

/// A node divided by a constant.
proof fn lemma_div_const_repeats<S: Scalar>(
    x: Seq<Node<S>>,
    y: Seq<Node<S>>,
    a: Value,
    c: S,
    r: Value,
)
    requires
        deterministic::<S>(),
        data_of(x, a) == data_of(y, a),
        is_div_const(x, a, c, r),
        is_div_const(y, a, c, r),
    ensures
        data_of(x, r) == data_of(y, r),
        left_of(x, r) == left_of(y, r),
{
    lemma_inverse_repeats(c, left_of(x, r), left_of(y, r));
}

/// The same operation on the same nodes gives the same node.
#[verifier::rlimit(40)]
proof fn lemma_op_repeats<S: Scalar>(x: Seq<Node<S>>, y: Seq<Node<S>>, op: Op, r: Value)
    requires
        deterministic::<S>(),
        topological(x),
        topological(y),
        same_below(x, y, r.idx as int),
        is_op(x, op, r),
        is_op(y, op, r),
        is_zero(x[r.idx as int].grad),
        is_zero(y[r.idx as int].grad),
    ensures
        x[r.idx as int] == y[r.idx as int],
{
    let i = r.idx as int;
    let (m, n) = (x[i], y[i]);
    assert(stands_before(m.left, i) && stands_before(m.right, i));
    assert(m.grad == n.grad);
    match op {
        Op::Add(a, b) => {
            assert(x[a.idx as int] == y[a.idx as int] && x[b.idx as int] == y[b.idx as int]);
        },
        Op::Mul(a, b) => {
            assert(x[a.idx as int] == y[a.idx as int] && x[b.idx as int] == y[b.idx as int]);
        },
        Op::Div(a, b) => {
            assert(x[a.idx as int] == y[a.idx as int] && x[b.idx as int] == y[b.idx as int]);
            lemma_inverse_repeats(data_of(x, b), m.left->0.local_grad, n.left->0.local_grad);
            lemma_quot_slope_repeats(
                data_of(x, a),
                data_of(x, b),
                m.right->0.local_grad,
                n.right->0.local_grad,
            );
        },
        Op::Neg(a) => {
            assert(x[a.idx as int] == y[a.idx as int]);
            lemma_minus_one_repeats(m.left->0.local_grad, n.left->0.local_grad);
        },
        Op::Log(a) => {
            assert(x[a.idx as int] == y[a.idx as int]);
            lemma_inverse_repeats(data_of(x, a), m.left->0.local_grad, n.left->0.local_grad);
        },
        Op::Exp(a) => {
            assert(x[a.idx as int] == y[a.idx as int]);
        },
        Op::Relu(a) => {
            assert(x[a.idx as int] == y[a.idx as int]);
            let z1 = choose|zero: S|
                is_zero(zero) && #[trigger] is_max(data_of(x, a), zero, data_of(x, r));
            let z2 = choose|zero: S|
                is_zero(zero) && #[trigger] is_max(data_of(y, a), zero, data_of(y, r));
            assert(z1 == z2);
        },
        Op::SubMax(a, xs) => {
            assert(x[a.idx as int] == y[a.idx as int]);
            assert(datas_of(x, xs) =~= datas_of(y, xs)) by {
                assert forall|j: int| 0 <= j < xs.len() implies data_of(x, xs[j]) == data_of(
                    y,
                    #[trigger] xs[j],
                ) by {
                    assert(xs[j].idx < r.idx);
                    assert(x[xs[j].idx as int] == y[xs[j].idx as int]);
                }
            }
            let c = choose|c: S|
                is_max_of(datas_of(x, xs), c) && #[trigger] is_sub_const(x, a, c, r);
            let d = choose|c: S|
                is_max_of(datas_of(y, xs), c) && #[trigger] is_sub_const(y, a, c, r);
            lemma_max_agrees(datas_of(x, xs), c, d);
        },
        Op::DivNum(a, k) => {
            assert(x[a.idx as int] == y[a.idx as int]);
            let c = choose|c: S| is_num(k as u64, c) && #[trigger] is_div_const(x, a, c, r);
            let d = choose|c: S| is_num(k as u64, c) && #[trigger] is_div_const(y, a, c, r);
            assert(c == d);
            lemma_div_const_repeats(x, y, a, c, r);
        },
        Op::DivRoot(a, k) => {
            assert(x[a.idx as int] == y[a.idx as int]);
            let c = choose|c: S| is_root(k, c) && #[trigger] is_div_const(x, a, c, r);
            let d = choose|c: S| is_root(k, c) && #[trigger] is_div_const(y, a, c, r);
            let u = choose|num: S| is_num(k as u64, num) && #[trigger] is_sqrt(num, c);
            let v = choose|num: S| is_num(k as u64, num) && #[trigger] is_sqrt(num, d);
            assert(u == v);
            assert(c == d);
            lemma_div_const_repeats(x, y, a, c, r);
        },
        Op::DivRatio(a, q) => {
            assert(x[a.idx as int] == y[a.idx as int]);
            let c = choose|c: S| is_ratio(q.num, q.den, c) && #[trigger] is_div_const(x, a, c, r);
            let d = choose|c: S| is_ratio(q.num, q.den, c) && #[trigger] is_div_const(y, a, c, r);
            assert(c == d);
            lemma_div_const_repeats(x, y, a, c, r);
        },
        Op::MulShare(a, k) => {
            assert(x[a.idx as int] == y[a.idx as int]);
            let c = choose|c: S| is_share(k, c) && #[trigger] is_mul_const(x, a, c, r);
            let d = choose|c: S| is_share(k, c) && #[trigger] is_mul_const(y, a, c, r);
            let (o1, u) = choose|one: S, num: S|
                is_one(one) && is_num(k as u64, num) && #[trigger] is_quot(one, num, c);
            let (o2, v) = choose|one: S, num: S|
                is_one(one) && is_num(k as u64, num) && #[trigger] is_quot(one, num, d);
            assert(o1 == o2 && u == v);
            assert(c == d);
        },
        Op::AddEps(a) => {
            assert(x[a.idx as int] == y[a.idx as int]);
            let c = choose|c: S| is_ratio(1, EPS_DEN, c) && #[trigger] is_add_const(x, a, c, r);
            let d = choose|c: S| is_ratio(1, EPS_DEN, c) && #[trigger] is_add_const(y, a, c, r);
            assert(c == d);
        },
        Op::InverseRoot(a) => {
            assert(x[a.idx as int] == y[a.idx as int]);
            let c = choose|c: S| is_minus_half(c) && #[trigger] is_pow_node(x, a, c, r);
            let d = choose|c: S| is_minus_half(c) && #[trigger] is_pow_node(y, a, c, r);
            let u = choose|half: S| is_ratio(1, 2, half) && #[trigger] is_neg(half, c);
            let v = choose|half: S| is_ratio(1, 2, half) && #[trigger] is_neg(half, d);
            assert(u == v);
            assert(c == d);
            lemma_pow_slope_repeats(
                data_of(x, a),
                c,
                m.left->0.local_grad,
                n.left->0.local_grad,
            );
        },
    }
}

/// Tapes that start with the same nodes and go on with the same operations have the same
/// nodes, as far as the operations are the same.
pub proof fn lemma_same_ops<S: Scalar>(
    nodes: Seq<Node<S>>,
    x: Seq<Node<S>>,
    y: Seq<Node<S>>,
    ops: Seq<Op>,
    others: Seq<Op>,
    n: int,
)
    requires
        deterministic::<S>(),
        follows(nodes, x, ops),
        follows(nodes, y, others),
        0 <= n <= ops.len(),
        n <= others.len(),
        forall|i: int| 0 <= i < n ==> #[trigger] ops[i] == others[i],
    ensures
        same_below(x, y, nodes.len() + n),
    decreases n,
{
    reveal(follows);
    if n > 0 {
        lemma_same_ops(nodes, x, y, ops, others, n - 1);
        let i = nodes.len() + n - 1;
        assert(is_op(x, ops[n - 1], at(i)));
        assert(is_op(y, others[n - 1], at(i)));
        assert(ops[n - 1] == others[n - 1]);
        assert(is_zero(x[i].grad) && is_zero(y[i].grad));
        lemma_op_repeats(x, y, ops[n - 1], at(i));
    }
}

/// The gradients of a graph have one outcome.
proof fn lemma_pulled_repeats<S: Scalar>(
    nodes: Seq<Node<S>>,
    loss: int,
    before: Seq<S>,
    a: Seq<S>,
    b: Seq<S>,
    k: int,
)
    requires
        deterministic::<S>(),
        0 <= k <= loss < before.len(),
        is_tape_backward(nodes, loss, before, a),
        is_tape_backward(nodes, loss, before, b),
    ensures
        forall|j: int| k <= j < before.len() ==> #[trigger] a[j] == b[j],
    decreases loss - k,
{
    if k < loss {
        lemma_pulled_repeats(nodes, loss, before, a, b, k + 1);
        assert(is_pulled(nodes, loss, k + 1, before[k], a, k, a[k]));
        assert(is_pulled(nodes, loss, k + 1, before[k], b, k, b[k]));
        let us = uses(nodes, k, k + 1, loss);
        lemma_uses_between(nodes, k, k + 1, loss);
        assert forall|i: int, t: S, u: S|
            0 <= i < us.len() && #[trigger] use_term(nodes, us, a)(i, t) && #[trigger] use_term(
                nodes,
                us,
                b,
            )(i, u) implies t == u by {
            assert(a[us[i].by] == b[us[i].by]);
        }
        lemma_running_sum_unique(
            before[k],
            use_term(nodes, us, a),
            use_term(nodes, us, b),
            us.len(),
            a[k],
            b[k],
        );
    } else {
        assert(a[loss] == b[loss]);
    }
}

/// The backward pass on a tape has one outcome, where the operations have.
pub proof fn law_tape_backward_is_deterministic<S: Scalar>(
    nodes: Seq<Node<S>>,
    loss: int,
    before: Seq<S>,
    a: Seq<S>,
    b: Seq<S>,
)
    requires
        deterministic::<S>(),
        0 <= loss < before.len(),
        is_tape_backward(nodes, loss, before, a),
        is_tape_backward(nodes, loss, before, b),
    ensures
        a == b,
{
    lemma_pulled_repeats(nodes, loss, before, a, b, 0);
    assert(a =~= b);
}

/// The optimizer on a tape has one outcome, where the operations have.
pub proof fn law_tape_adam_is_deterministic<S: Scalar>(
    n: int,
    step: nat,
    lr: S,
    before: Seq<Node<S>>,
    b: Buffers<S>,
    x: Seq<Node<S>>,
    bx: Buffers<S>,
    y: Seq<Node<S>>,
    by: Buffers<S>,
)
    requires
        deterministic::<S>(),
        0 <= n <= before.len(),
        b.holds(n as nat),
        is_tape_adam(n, step, lr, before, b, x, bx),
        is_tape_adam(n, step, lr, before, b, y, by),
    ensures
        x == y,
        bx.m@ == by.m@,
        bx.v@ == by.v@,
{
    assert forall|i: int| 0 <= i < n implies #[trigger] bx.moments(x, i) == by.moments(y, i)
        && x[i] == y[i] by {
        assert(is_consumed(before[i], x[i]) && is_consumed(before[i], y[i]));
        law_adam_is_deterministic(
            step,
            lr,
            before[i].grad,
            b.moments(before, i),
            bx.moments(x, i),
            by.moments(y, i),
        );
    }
    assert forall|i: int| 0 <= i < n implies x[i] == y[i] by {
        assert(bx.moments(x, i) == by.moments(y, i));
    }
    assert forall|i: int| 0 <= i < n implies bx.m@[i] == by.m@[i] by {
        assert(bx.moments(x, i) == by.moments(y, i));
    }
    assert forall|i: int| 0 <= i < n implies bx.v@[i] == by.v@[i] by {
        assert(bx.moments(x, i) == by.moments(y, i));
    }
    assert forall|i: int| n <= i < before.len() implies x[i] == y[i] by {
        assert(x[i] == before[i] && y[i] == before[i]);
    }
    assert(x =~= y);
    assert(bx.m@ =~= by.m@);
    assert(bx.v@ =~= by.v@);
}

/// Training on a tape has one outcome, where the operations have: from the same parameters and
/// moments, the same document gives the same loss, the same parameters and the same moments,
/// bit by bit.
pub proof fn law_tape_training_is_deterministic<S: Scalar>(
    cfg: Cfg,
    sd: StateDict,
    tokens: Seq<usize>,
    step: nat,
    before: Seq<Node<S>>,
    b: Buffers<S>,
    x: Seq<Node<S>>,
    bx: Buffers<S>,
    loss: S,
    t: TrainTrace<S>,
    y: Seq<Node<S>>,
    by: Buffers<S>,
    other: S,
    u: TrainTrace<S>,
)
    requires
        deterministic::<S>(),
        b.holds(before.len()),
        is_tape_train_step(cfg, sd, tokens, step, before, b, x, bx, loss, t),
        is_tape_train_step(cfg, sd, tokens, step, before, b, y, by, other, u),
    ensures
        x == y,
        bx.m@ == by.m@,
        bx.v@ == by.v@,
        loss == other,
{
    let ops = document_ops(
        before.len() as int,
        cfg,
        sd.wte@.len(),
        sd,
        tokens,
        trained(cfg, tokens),
    );
    lemma_same_ops(before, t.graph, u.graph, ops, ops, ops.len() as int);
    assert(t.graph =~= u.graph) by {
        reveal(follows);
    }
    let (grads, g, h) = (grads_of(t.graph), grads_of(t.pulled), grads_of(u.pulled));
    assert(ops.len() > 0);
    assert(0 <= t.loss.idx < t.graph.len()) by {
        reveal(follows);
    }
    law_tape_backward_is_deterministic(t.graph, t.loss.idx as int, grads, g, h);
    assert(t.pulled =~= u.pulled) by {
        assert forall|i: int| 0 <= i < t.pulled.len() implies t.pulled[i] == u.pulled[i] by {
            assert(g[i] == h[i]);
            assert(t.pulled[i].data == t.graph[i].data && u.pulled[i].data == u.graph[i].data);
        }
    }
    lemma_rate_repeats(t.base, step, cfg.num_steps as nat, t.lr, u.lr);
    law_tape_adam_is_deterministic(
        before.len() as int,
        step,
        t.lr,
        t.pulled,
        b,
        t.updated,
        bx,
        u.updated,
        by,
    );
}

} // verus!
