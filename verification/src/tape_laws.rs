//! What the backward pass on a tape computes: the derivative of the loss, whatever way the
//! inputs move.
use vstd::prelude::*;

use crate::exact::{
    column_terms, exact, lemma_cancel, lemma_quotient, lemma_running_sum_exact, lemma_total_add,
    lemma_total_append, lemma_total_pick, lemma_total_same, lemma_total_scale, lemma_total_swap,
    lemma_total_zero, row_terms, total_of,
};
use crate::scalar::{
    deterministic, is_diff, is_one, is_pow, is_prod, is_zero, lemma_running_sum_unique, Scalar,
};
use crate::tape::{
    data_of, extends, is_add_const, is_add_node, is_div_const, is_div_node, is_exp_node, is_inverse,
    is_log_node, is_minus_one, is_mul_const, is_mul_node, is_neg_node, is_pow_node, is_pow_slope,
    is_pulled, is_quot_slope, is_relu_node, is_sub_const, is_sub_node, is_tape_backward, left_of,
    lemma_no_early_uses, lemma_uses_between, right_of, same_graph, slope_of, stands_before,
    topological, use_term, uses, uses_by, Node, Parent, Use, Value,
};
use crate::tape_train::{at_rest, is_consumed};

verus! {

/// Whether the node is an input of the computation: it has no operands.
pub open spec fn is_input<S>(node: Node<S>) -> bool {
    node.left is None && node.right is None
}

/// How far an operand carries its motion on: the derivative times the motion.
pub open spec fn carried<S>(
    val: spec_fn(S) -> real,
    p: Option<Parent<S>>,
    motion: spec_fn(int) -> real,
) -> real {
    match p {
        None => 0 as real,
        Some(p) => val(p.local_grad) * motion(p.idx as int),
    }
}

/// How far node `k` is moved by its operands.
pub open spec fn moved<S>(
    val: spec_fn(S) -> real,
    nodes: Seq<Node<S>>,
    motion: spec_fn(int) -> real,
    k: int,
) -> real {
    carried(val, nodes[k].left, motion) + carried(val, nodes[k].right, motion)
}

/// Whether `motion` is a first-order motion of the computation up to `loss`: the inputs move
/// in any way, and every other node moves as its operands make it move.
pub open spec fn is_motion<S>(
    val: spec_fn(S) -> real,
    nodes: Seq<Node<S>>,
    loss: int,
    motion: spec_fn(int) -> real,
) -> bool {
    forall|k: int|
        0 <= k <= loss && !is_input(#[trigger] nodes[k]) ==> motion(k) == moved(
            val,
            nodes,
            motion,
            k,
        )
}

/// What input `k` contributes to the motion of the loss: its gradient times its motion.
pub open spec fn input_part<S>(
    val: spec_fn(S) -> real,
    nodes: Seq<Node<S>>,
    grads: Seq<S>,
    motion: spec_fn(int) -> real,
) -> spec_fn(int) -> real {
    |k: int|
        if is_input(nodes[k]) {
            val(grads[k]) * motion(k)
        } else {
            0 as real
        }
}

/// What node `j` adds to the gradient of node `k` through the operand `p`.
spec fn added<S>(
    val: spec_fn(S) -> real,
    p: Option<Parent<S>>,
    g: real,
    k: int,
) -> real {
    if p is Some && p->0.idx == k {
        val(p->0.local_grad) * g
    } else {
        0 as real
    }
}

/// What node `j` adds to the gradient of node `k`.
spec fn added_by<S>(
    val: spec_fn(S) -> real,
    nodes: Seq<Node<S>>,
    grads: Seq<S>,
    j: int,
    k: int,
) -> real {
    added(val, nodes[j].left, val(grads[j]), k) + added(val, nodes[j].right, val(grads[j]), k)
}

/// What one use adds.
spec fn use_value<S>(
    val: spec_fn(S) -> real,
    nodes: Seq<Node<S>>,
    us: Seq<Use>,
    grads: Seq<S>,
) -> spec_fn(int) -> real {
    |i: int| val(slope_of(nodes, us[i])) * val(grads[us[i].by])
}

/// The uses of node `k` by the nodes from `low` to `high` add up to what these nodes add.
proof fn lemma_uses_total<S>(
    val: spec_fn(S) -> real,
    nodes: Seq<Node<S>>,
    grads: Seq<S>,
    k: int,
    low: int,
    high: int,
)
    requires
        low <= high + 1,
    ensures
        total_of(
            use_value(val, nodes, uses(nodes, k, low, high), grads),
            uses(nodes, k, low, high).len(),
        ) == total_of(
            |i: int| added_by(val, nodes, grads, low + i, k),
            (high + 1 - low) as nat,
        ),
    decreases high + 1 - low,
{
    let all = uses(nodes, k, low, high);
    let by_node = |i: int| added_by(val, nodes, grads, low + i, k);
    if low <= high {
        let later = uses(nodes, k, low + 1, high);
        let own = uses_by(nodes, k, low);
        lemma_uses_total(val, nodes, grads, k, low + 1, high);
        let (f, f_later, f_own) = (
            use_value(val, nodes, all, grads),
            use_value(val, nodes, later, grads),
            use_value(val, nodes, own, grads),
        );
        assert forall|i: int| 0 <= i < later.len() implies #[trigger] f_later(i) == f(i) by {
            assert(all[i] == later[i]);
        }
        lemma_total_same(f_later, f, later.len());
        assert forall|i: int| 0 <= i < own.len() implies #[trigger] f_own(i) == f(
            later.len() + i,
        ) by {
            assert(all[later.len() + i] == own[i]);
        }
        lemma_total_append(f, f_own, later.len(), own.len());
        // the uses by the node at `low`, at most two of them
        assert(total_of(f_own, own.len()) == by_node(0)) by {
            reveal_with_fuel(total_of, 3);
        }
        let rest = |i: int| added_by(val, nodes, grads, low + 1 + i, k);
        let first = |i: int| by_node(i);
        assert(total_of(first, 1) == by_node(0)) by {
            reveal_with_fuel(total_of, 2);
        }
        lemma_total_same(first, by_node, 1);
        lemma_total_append(by_node, rest, 1, (high - low) as nat);
    }
}

/// The gradient of node `k` is what all nodes up to the loss add to it.
proof fn lemma_gradient_total<S: Scalar>(
    val: spec_fn(S) -> real,
    nodes: Seq<Node<S>>,
    loss: int,
    start: S,
    grads: Seq<S>,
    k: int,
)
    requires
        exact(val),
        topological(nodes),
        0 <= k < loss < nodes.len(),
        val(start) == 0 as real,
        is_pulled(nodes, loss, k + 1, start, grads, k, grads[k]),
    ensures
        val(grads[k]) == total_of(
            |j: int| added_by(val, nodes, grads, j, k),
            (loss + 1) as nat,
        ),
{
    let us = uses(nodes, k, k + 1, loss);
    lemma_no_early_uses(nodes, k, 0, loss);
    lemma_running_sum_exact(
        val,
        start,
        use_term(nodes, us, grads),
        use_value(val, nodes, us, grads),
        us.len(),
        grads[k],
    );
    lemma_uses_total(val, nodes, grads, k, 0, loss);
    lemma_total_same(
        |i: int| added_by(val, nodes, grads, 0 + i, k),
        |j: int| added_by(val, nodes, grads, j, k),
        (loss + 1) as nat,
    );
}

/// What an operand of node `j` is moved by, collected from all nodes before the loss.
proof fn lemma_operand_collected<S: Scalar>(
    val: spec_fn(S) -> real,
    p: Option<Parent<S>>,
    g: real,
    motion: spec_fn(int) -> real,
    loss: int,
)
    requires
        stands_before(p, loss),
        0 <= loss,
    ensures
        total_of(|k: int| added(val, p, g, k) * motion(k), loss as nat) == g * carried(
            val,
            p,
            motion,
        ),
{
    let f = |k: int| added(val, p, g, k) * motion(k);
    match p {
        None => {
            assert forall|k: int| 0 <= k < loss implies #[trigger] f(k) == 0 as real by {
                assert((0 as real) * motion(k) == 0 as real) by (nonlinear_arith);
            }
            lemma_total_zero(f, loss as nat);
            assert(g * (0 as real) == 0 as real) by (nonlinear_arith);
        },
        Some(q) => {
            let at = q.idx as int;
            assert forall|k: int| 0 <= k < loss && k != at implies #[trigger] f(k)
                == 0 as real by {
                assert((0 as real) * motion(k) == 0 as real) by (nonlinear_arith);
            }
            lemma_total_pick(f, at, loss as nat);
            let (slope, m) = (val(q.local_grad), motion(at));
            assert(slope * g * m == g * (slope * m)) by (nonlinear_arith);
        },
    }
}

/// The backward pass computes the derivative of the loss. In exact arithmetic, and starting
/// from gradients of zero: whatever first-order motion the inputs make, the loss moves by
/// the sum over the inputs of gradient times motion.
pub proof fn law_backward_is_the_derivative<S: Scalar>(
    val: spec_fn(S) -> real,
    nodes: Seq<Node<S>>,
    loss: int,
    before: Seq<S>,
    after: Seq<S>,
    motion: spec_fn(int) -> real,
)
    requires
        exact(val),
        topological(nodes),
        0 <= loss < nodes.len(),
        forall|k: int| 0 <= k < loss ==> val(#[trigger] before[k]) == 0 as real,
        is_tape_backward(nodes, loss, before, after),
        is_motion(val, nodes, loss, motion),
    ensures
        motion(loss) == total_of(input_part(val, nodes, after, motion), (loss + 1) as nat),
{
    let n = (loss + 1) as nat;
    // over all nodes before the loss, gradient times motion
    let weighted = |k: int| val(after[k]) * motion(k);
    // the same, node by node of those that add to the gradients
    let pairs = |k: int, j: int| added_by(val, nodes, after, j, k) * motion(k);
    let by_rows = |k: int| total_of(row_terms(pairs, k), n);
    assert forall|k: int| 0 <= k < loss implies #[trigger] weighted(k) == by_rows(k) by {
        lemma_gradient_total(val, nodes, loss, before[k], after, k);
        let f = |j: int| added_by(val, nodes, after, j, k);
        let m = motion(k);
        assert forall|j: int| 0 <= j < n implies #[trigger] row_terms(pairs, k)(j) == m * f(j) by {
            assert(f(j) * m == m * f(j)) by (nonlinear_arith);
        }
        lemma_total_scale(m, f, row_terms(pairs, k), n);
        let g = val(after[k]);
        assert(g * m == m * g) by (nonlinear_arith);
    }
    lemma_total_same(weighted, by_rows, loss as nat);
    lemma_total_swap(pairs, loss as nat, n);
    let by_columns = |j: int| total_of(column_terms(pairs, j), loss as nat);
    let spread = |j: int| val(after[j]) * moved(val, nodes, motion, j);
    assert forall|j: int| 0 <= j < n implies #[trigger] by_columns(j) == spread(j) by {
        let (left, right, g) = (nodes[j].left, nodes[j].right, val(after[j]));
        assert(stands_before(left, j) && stands_before(right, j));
        lemma_operand_collected(val, left, g, motion, loss);
        lemma_operand_collected(val, right, g, motion, loss);
        let fl = |k: int| added(val, left, g, k) * motion(k);
        let fr = |k: int| added(val, right, g, k) * motion(k);
        assert forall|k: int| 0 <= k < loss implies #[trigger] column_terms(pairs, j)(k) == fl(k)
            + fr(k) by {
            let (a, b, m) = (added(val, left, g, k), added(val, right, g, k), motion(k));
            assert((a + b) * m == a * m + b * m) by (nonlinear_arith);
        }
        lemma_total_add(fl, fr, column_terms(pairs, j), loss as nat);
        let (x, y) = (carried(val, left, motion), carried(val, right, motion));
        assert(g * (x + y) == g * x + g * y) by (nonlinear_arith);
    }
    lemma_total_same(by_columns, spread, n);
    assert(total_of(weighted, loss as nat) == total_of(spread, n));
    // split the nodes into the inputs and those that their operands move
    let inputs = input_part(val, nodes, after, motion);
    assert forall|k: int| 0 <= k < n implies #[trigger] weighted(k) == inputs(k) + spread(k) by {
        let g = val(after[k]);
        if is_input(nodes[k]) {
            assert(g * (0 as real + 0 as real) == 0 as real) by (nonlinear_arith);
        } else {
            assert(motion(k) == moved(val, nodes, motion, k));
        }
    }
    lemma_total_add(inputs, spread, weighted, n);
    assert(total_of(weighted, n) == total_of(weighted, loss as nat) + weighted(loss));
    let m = motion(loss);
    assert((1 as real) * m == m) by (nonlinear_arith);
}

/// Sums, differences and negatives move as their operands do.
pub proof fn law_sum_rule<S: Scalar>(
    val: spec_fn(S) -> real,
    nodes: Seq<Node<S>>,
    motion: spec_fn(int) -> real,
    a: Value,
    b: Value,
    r: Value,
)
    requires
        exact(val),
    ensures
        is_add_node(nodes, a, b, r) ==> moved(val, nodes, motion, r.idx as int) == motion(
            a.idx as int,
        ) + motion(b.idx as int),
        is_sub_node(nodes, a, b, r) ==> moved(val, nodes, motion, r.idx as int) == motion(
            a.idx as int,
        ) - motion(b.idx as int),
        is_neg_node(nodes, a, r) ==> moved(val, nodes, motion, r.idx as int) == -motion(
            a.idx as int,
        ),
{
    let (x, y) = (motion(a.idx as int), motion(b.idx as int));
    assert((1 as real) * x == x && (1 as real) * y == y) by (nonlinear_arith);
    assert((-(1 as real)) * x == -x && (-(1 as real)) * y == -y) by (nonlinear_arith);
    if is_sub_node(nodes, a, b, r) {
        assert(is_minus_one(right_of(nodes, r)));
    }
    if is_neg_node(nodes, a, r) {
        assert(is_minus_one(left_of(nodes, r)));
    }
}

/// The product rule.
pub proof fn law_product_rule<S: Scalar>(
    val: spec_fn(S) -> real,
    nodes: Seq<Node<S>>,
    motion: spec_fn(int) -> real,
    a: Value,
    b: Value,
    r: Value,
)
    requires
        exact(val),
        is_mul_node(nodes, a, b, r),
    ensures
        moved(val, nodes, motion, r.idx as int) == val(data_of(nodes, b)) * motion(a.idx as int)
            + val(data_of(nodes, a)) * motion(b.idx as int),
{
}

/// Multiplying by an inverse is dividing.
proof fn lemma_inverse_times(m: real, x: real)
    requires
        x != 0 as real,
    ensures
        (1 as real) / x * m == m / x,
{
    let u = (1 as real) / x;
    lemma_quotient(1 as real, x);
    lemma_quotient(m, x);
    assert(u * m * x == m) by (nonlinear_arith)
        requires
            u * x == 1 as real,
    ;
    lemma_cancel(u * m, m / x, x);
}

/// The quotient rule.
pub proof fn law_quotient_rule<S: Scalar>(
    val: spec_fn(S) -> real,
    nodes: Seq<Node<S>>,
    motion: spec_fn(int) -> real,
    a: Value,
    b: Value,
    r: Value,
)
    requires
        exact(val),
        is_div_node(nodes, a, b, r),
        val(data_of(nodes, b)) != 0 as real,
    ensures
        moved(val, nodes, motion, r.idx as int) == (motion(a.idx as int) * val(data_of(nodes, b))
            - val(data_of(nodes, a)) * motion(b.idx as int)) / (val(data_of(nodes, b)) * val(
            data_of(nodes, b),
        )),
{
    let (x, y) = (val(data_of(nodes, a)), val(data_of(nodes, b)));
    let (mx, my) = (motion(a.idx as int), motion(b.idx as int));
    assert(is_inverse(data_of(nodes, b), left_of(nodes, r)));
    assert(is_quot_slope(data_of(nodes, a), data_of(nodes, b), right_of(nodes, r)));
    let (u, w) = ((1 as real) / y, (-x) / (y * y));
    let square = y * y;
    assert(square != 0 as real) by (nonlinear_arith)
        requires
            square == y * y,
            y != 0 as real,
    ;
    let top = mx * y - x * my;
    lemma_quotient(1 as real, y);
    lemma_quotient(-x, square);
    lemma_quotient(top, square);
    assert(u * mx * square == mx * y) by (nonlinear_arith)
        requires
            u * y == 1 as real,
            square == y * y,
    ;
    assert(w * my * square == -(x * my)) by (nonlinear_arith)
        requires
            w * square == -x,
    ;
    let sum = u * mx + w * my;
    assert(sum * square == u * mx * square + w * my * square) by (nonlinear_arith)
        requires
            sum == u * mx + w * my,
    ;
    lemma_cancel(sum, top / square, square);
}

/// The derivative of the exponential is the exponential.
pub proof fn law_exponential_rule<S: Scalar>(
    val: spec_fn(S) -> real,
    nodes: Seq<Node<S>>,
    motion: spec_fn(int) -> real,
    a: Value,
    r: Value,
)
    requires
        is_exp_node(nodes, a, r),
    ensures
        moved(val, nodes, motion, r.idx as int) == val(data_of(nodes, r)) * motion(a.idx as int),
{
}

/// The derivative of the logarithm is one over its argument.
pub proof fn law_logarithm_rule<S: Scalar>(
    val: spec_fn(S) -> real,
    nodes: Seq<Node<S>>,
    motion: spec_fn(int) -> real,
    a: Value,
    r: Value,
)
    requires
        exact(val),
        is_log_node(nodes, a, r),
        val(data_of(nodes, a)) != 0 as real,
    ensures
        moved(val, nodes, motion, r.idx as int) == motion(a.idx as int) / val(data_of(nodes, a)),
{
    let (x, m) = (val(data_of(nodes, a)), motion(a.idx as int));
    assert(is_inverse(data_of(nodes, a), left_of(nodes, r)));
    lemma_inverse_times(m, x);
}

/// The derivative of `a^k` is `k * a^(k - 1)`.
pub proof fn law_power_rule<S: Scalar>(
    val: spec_fn(S) -> real,
    nodes: Seq<Node<S>>,
    motion: spec_fn(int) -> real,
    a: Value,
    k: S,
    r: Value,
)
    requires
        exact(val),
        is_pow_node(nodes, a, k, r),
    ensures
        exists|less: S, power: S|
            val(less) == val(k) - 1 as real && #[trigger] is_pow(data_of(nodes, a), less, power)
                && moved(val, nodes, motion, r.idx as int) == val(k) * val(power) * motion(
                a.idx as int,
            ),
{
    let (x, slope) = (data_of(nodes, a), left_of(nodes, r));
    assert(is_pow_slope(x, k, slope));
    let (one, less, power) = choose|one: S, less: S, power: S|
        #![trigger is_diff(k, one, less), is_pow(x, less, power)]
        is_one(one) && is_diff(k, one, less) && is_pow(x, less, power) && is_prod(k, power, slope);
    assert(is_pow(data_of(nodes, a), less, power));
}

/// Where the operand is positive the result moves with it, elsewhere it does not move.
pub proof fn law_relu_rule<S: Scalar>(
    val: spec_fn(S) -> real,
    nodes: Seq<Node<S>>,
    motion: spec_fn(int) -> real,
    a: Value,
    r: Value,
)
    requires
        exact(val),
        is_relu_node(nodes, a, r),
    ensures
        moved(val, nodes, motion, r.idx as int) == if val(data_of(nodes, a)) > 0 as real {
            motion(a.idx as int)
        } else {
            0 as real
        },
{
    let m = motion(a.idx as int);
    assert((1 as real) * m == m && (0 as real) * m == 0 as real) by (nonlinear_arith);
}

/// Sums, differences, products and quotients with a constant: the constant does not move.
pub proof fn law_constant_rule<S: Scalar>(
    val: spec_fn(S) -> real,
    nodes: Seq<Node<S>>,
    motion: spec_fn(int) -> real,
    a: Value,
    c: S,
    r: Value,
)
    requires
        exact(val),
    ensures
        is_add_const(nodes, a, c, r) || is_sub_const(nodes, a, c, r) ==> moved(
            val,
            nodes,
            motion,
            r.idx as int,
        ) == motion(a.idx as int),
        is_mul_const(nodes, a, c, r) ==> moved(val, nodes, motion, r.idx as int) == val(c) * motion(
            a.idx as int,
        ),
        is_div_const(nodes, a, c, r) && val(c) != 0 as real ==> moved(
            val,
            nodes,
            motion,
            r.idx as int,
        ) == motion(a.idx as int) / val(c),
{
    let (x, m) = (val(c), motion(a.idx as int));
    assert((1 as real) * m == m) by (nonlinear_arith);
    if is_div_const(nodes, a, c, r) && x != 0 as real {
        assert(is_inverse(c, left_of(nodes, r)));
        lemma_inverse_times(m, x);
    }
}

/// A backward pass has one outcome, where the operations have: the same computation and the
/// same gradients to start from give the same gradients.
pub proof fn law_backward_is_deterministic<S: Scalar>(
    nodes: Seq<Node<S>>,
    other: Seq<Node<S>>,
    loss: int,
    before: Seq<S>,
    after: Seq<S>,
    again: Seq<S>,
)
    requires
        deterministic::<S>(),
        same_graph(nodes, other),
        before.len() == nodes.len(),
        0 <= loss < nodes.len(),
        is_tape_backward(nodes, loss, before, after),
        is_tape_backward(other, loss, before, again),
    ensures
        after == again,
{
    assert forall|k: int| 0 <= k < before.len() implies after[k] == #[trigger] again[k] by {
        if k <= loss {
            lemma_backward_agrees(nodes, other, loss, before, after, again, k);
        } else {
            assert(after[k] == before[k] && again[k] == before[k]);
        }
    }
    assert(after =~= again);
}

/// From the loss down to node `k`, two backward passes agree.
proof fn lemma_backward_agrees<S: Scalar>(
    nodes: Seq<Node<S>>,
    other: Seq<Node<S>>,
    loss: int,
    before: Seq<S>,
    after: Seq<S>,
    again: Seq<S>,
    k: int,
)
    requires
        deterministic::<S>(),
        same_graph(nodes, other),
        0 <= k <= loss < nodes.len(),
        is_tape_backward(nodes, loss, before, after),
        is_tape_backward(other, loss, before, again),
    ensures
        forall|i: int| k <= i <= loss ==> after[i] == #[trigger] again[i],
    decreases loss - k,
{
    if k < loss {
        lemma_backward_agrees(nodes, other, loss, before, after, again, k + 1);
        let us = uses(nodes, k, k + 1, loss);
        lemma_same_uses(nodes, other, k, k + 1, loss);
        lemma_uses_between(nodes, k, k + 1, loss);
        assert(is_pulled(nodes, loss, k + 1, before[k], after, k, after[k]));
        assert(is_pulled(other, loss, k + 1, before[k], again, k, again[k]));
        assert forall|i: int, t: S, u: S|
            0 <= i < us.len() && #[trigger] use_term(nodes, us, after)(i, t) && #[trigger] use_term(
                other,
                us,
                again,
            )(i, u) implies t == u by {
            let by = us[i].by;
            assert(k + 1 <= by <= loss);
            assert(after[by] == again[by]);
            assert(nodes[by].left == other[by].left && nodes[by].right == other[by].right);
        }
        lemma_running_sum_unique(
            before[k],
            use_term(nodes, us, after),
            use_term(other, us, again),
            us.len(),
            after[k],
            again[k],
        );
    }
}

/// Tapes with the same graph have the same uses.
proof fn lemma_same_uses<S>(nodes: Seq<Node<S>>, other: Seq<Node<S>>, k: int, low: int, high: int)
    requires
        same_graph(nodes, other),
        0 <= low,
        high < nodes.len(),
    ensures
        uses(nodes, k, low, high) == uses(other, k, low, high),
    decreases high + 1 - low,
{
    if low <= high {
        lemma_same_uses(nodes, other, k, low + 1, high);
        assert(nodes[low].left == other[low].left && nodes[low].right == other[low].right);
    }
}

/// Parameters survive a cycle: a graph is built behind them, the gradients are computed and
/// taken out again, and what is behind them is discarded. What is left is what was there.
pub proof fn law_parameters_survive<S: Scalar>(
    params: Seq<Node<S>>,
    graph: Seq<Node<S>>,
    pulled: Seq<Node<S>>,
    cleared: Seq<Node<S>>,
)
    requires
        deterministic::<S>(),
        at_rest(params),
        extends(params, graph),
        same_graph(graph, pulled),
        cleared.len() == pulled.len(),
        forall|i: int|
            0 <= i < params.len() ==> (#[trigger] cleared[i]).data == pulled[i].data && is_consumed(
                pulled[i],
                cleared[i],
            ),
    ensures
        cleared.take(params.len() as int) == params,
{
    let kept = cleared.take(params.len() as int);
    assert forall|i: int| 0 <= i < params.len() implies #[trigger] kept[i] == params[i] by {
        assert(kept[i] == cleared[i]);
        assert(graph[i] == params[i]);
        assert(pulled[i].data == graph[i].data && pulled[i].left == graph[i].left
            && pulled[i].right == graph[i].right);
        assert(is_zero(cleared[i].grad) && is_zero(params[i].grad));
    }
    assert(kept =~= params);
}

} // verus!
