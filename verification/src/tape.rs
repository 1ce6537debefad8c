//! Automatic differentiation on a tape.
//!
//! Every operation appends a node that holds its result, and for each operand the
//! derivative of the result with respect to it. Operands stand before results, so the order
//! of the tape is a topological order of the computation: one sweep from the end to the
//! start applies the chain rule.
use vstd::prelude::*;

use crate::scalar::{
    is_diff, is_exp, is_ln, is_max, is_neg, is_one, is_pow, is_prod, is_quot, is_running_sum,
    is_sum, is_zero, lemma_running_sum_congruent, lemma_running_sum_step, tests_positive, Scalar,
};

verus! {

/// An operand of a node.
#[derive(Clone, Copy)]
pub struct Parent<S> {
    /// Where the operand stands on the tape.
    pub idx: u32,
    /// The derivative of the node with respect to it.
    pub local_grad: S,
}

/// One number of a computation.
#[derive(Clone, Copy)]
pub struct Node<S> {
    pub data: S,
    /// The derivative of the loss with respect to this node, once the backward pass has
    /// computed it.
    pub grad: S,
    /// The operands: every operation has at most two.
    pub left: Option<Parent<S>>,
    pub right: Option<Parent<S>>,
}

/// A handle to one node.
#[derive(Clone, Copy)]
pub struct Value {
    pub idx: u32,
}

/// The nodes of a computation, in the order in which they were computed.
pub struct Tape<S> {
    pub nodes: Vec<Node<S>>,
}

/// The most nodes a tape can hold.
pub open spec fn max_nodes() -> int {
    0x1_0000_0000
}

/// Whether the operand, if there is one, stands before place `i`.
pub open spec fn stands_before<S>(p: Option<Parent<S>>, i: int) -> bool {
    p is Some ==> p->0.idx < i
}

/// Whether every operand stands before its node.
pub open spec fn topological<S>(nodes: Seq<Node<S>>) -> bool {
    forall|i: int|
        0 <= i < nodes.len() ==> stands_before((#[trigger] nodes[i]).left, i) && stands_before(
            nodes[i].right,
            i,
        )
}

/// Whether `later` is a tape that starts with the nodes of `nodes`, and goes on with nodes
/// that have no gradient yet.
pub open spec fn extends<S: Scalar>(nodes: Seq<Node<S>>, later: Seq<Node<S>>) -> bool {
    &&& nodes.len() <= later.len()
    &&& forall|i: int| 0 <= i < nodes.len() ==> #[trigger] later[i] == nodes[i]
    &&& forall|i: int| nodes.len() <= i < later.len() ==> is_zero((#[trigger] later[i]).grad)
}

/// Whether `v` is the handle of a node.
pub open spec fn on<S>(nodes: Seq<Node<S>>, v: Value) -> bool {
    v.idx < nodes.len()
}

/// The number that `v` stands for.
pub open spec fn data_of<S>(nodes: Seq<Node<S>>, v: Value) -> S {
    nodes[v.idx as int].data
}

/// Whether `p` is the operand `a`.
pub open spec fn points_to<S>(p: Option<Parent<S>>, a: Value) -> bool {
    p is Some && p->0.idx == a.idx
}

/// A node with the one operand `a`: its number and its derivative.
pub open spec fn is_unary<S>(nodes: Seq<Node<S>>, a: Value, r: Value) -> bool {
    let node = nodes[r.idx as int];
    on(nodes, r) && on(nodes, a) && points_to(node.left, a) && node.right is None
}

/// A node with the operands `a` and `b`.
pub open spec fn is_binary<S>(nodes: Seq<Node<S>>, a: Value, b: Value, r: Value) -> bool {
    let node = nodes[r.idx as int];
    on(nodes, r) && on(nodes, a) && on(nodes, b) && points_to(node.left, a) && points_to(
        node.right,
        b,
    )
}

/// The derivative with respect to the first operand.
pub open spec fn left_of<S>(nodes: Seq<Node<S>>, r: Value) -> S {
    nodes[r.idx as int].left->0.local_grad
}

/// The derivative with respect to the second operand.
pub open spec fn right_of<S>(nodes: Seq<Node<S>>, r: Value) -> S {
    nodes[r.idx as int].right->0.local_grad
}

/// `r` is minus one.
pub open spec fn is_minus_one<S: Scalar>(r: S) -> bool {
    exists|one: S| is_one(one) && #[trigger] is_neg(one, r)
}

/// `r` is one over `a`.
pub open spec fn is_inverse<S: Scalar>(a: S, r: S) -> bool {
    exists|one: S| is_one(one) && #[trigger] is_quot(one, a, r)
}

/// `r = a + b`; both derivatives are one.
pub open spec fn is_add_node<S: Scalar>(
    nodes: Seq<Node<S>>,
    a: Value,
    b: Value,
    r: Value,
) -> bool {
    &&& is_binary(nodes, a, b, r)
    &&& is_sum(data_of(nodes, a), data_of(nodes, b), data_of(nodes, r))
    &&& is_one(left_of(nodes, r))
    &&& is_one(right_of(nodes, r))
}

/// `r = a - b`; the derivatives are one and minus one.
pub open spec fn is_sub_node<S: Scalar>(
    nodes: Seq<Node<S>>,
    a: Value,
    b: Value,
    r: Value,
) -> bool {
    &&& is_binary(nodes, a, b, r)
    &&& is_diff(data_of(nodes, a), data_of(nodes, b), data_of(nodes, r))
    &&& is_one(left_of(nodes, r))
    &&& is_minus_one(right_of(nodes, r))
}

/// `r = a * b`; the derivatives are `b` and `a`.
pub open spec fn is_mul_node<S: Scalar>(
    nodes: Seq<Node<S>>,
    a: Value,
    b: Value,
    r: Value,
) -> bool {
    &&& is_binary(nodes, a, b, r)
    &&& is_prod(data_of(nodes, a), data_of(nodes, b), data_of(nodes, r))
    &&& left_of(nodes, r) == data_of(nodes, b)
    &&& right_of(nodes, r) == data_of(nodes, a)
}

/// `d` is `-a / (b * b)`.
pub open spec fn is_quot_slope<S: Scalar>(a: S, b: S, d: S) -> bool {
    exists|top: S, square: S|
        is_neg(a, top) && is_prod(b, b, square) && #[trigger] is_quot(top, square, d)
}

/// `r = a / b`; the derivatives are `1 / b` and `-a / (b * b)`.
pub open spec fn is_div_node<S: Scalar>(
    nodes: Seq<Node<S>>,
    a: Value,
    b: Value,
    r: Value,
) -> bool {
    &&& is_binary(nodes, a, b, r)
    &&& is_quot(data_of(nodes, a), data_of(nodes, b), data_of(nodes, r))
    &&& is_inverse(data_of(nodes, b), left_of(nodes, r))
    &&& is_quot_slope(data_of(nodes, a), data_of(nodes, b), right_of(nodes, r))
}

/// `r = -a`; the derivative is minus one.
pub open spec fn is_neg_node<S: Scalar>(nodes: Seq<Node<S>>, a: Value, r: Value) -> bool {
    &&& is_unary(nodes, a, r)
    &&& is_neg(data_of(nodes, a), data_of(nodes, r))
    &&& is_minus_one(left_of(nodes, r))
}

/// `d` is `k * a^(k - 1)`.
pub open spec fn is_pow_slope<S: Scalar>(a: S, k: S, d: S) -> bool {
    exists|one: S, less: S, power: S|
        #![trigger is_diff(k, one, less), is_pow(a, less, power)]
        is_one(one) && is_diff(k, one, less) && is_pow(a, less, power) && is_prod(k, power, d)
}

/// `r = a^k`; the derivative is `k * a^(k - 1)`.
pub open spec fn is_pow_node<S: Scalar>(nodes: Seq<Node<S>>, a: Value, k: S, r: Value) -> bool {
    &&& is_unary(nodes, a, r)
    &&& is_pow(data_of(nodes, a), k, data_of(nodes, r))
    &&& is_pow_slope(data_of(nodes, a), k, left_of(nodes, r))
}

/// `r = ln(a)`; the derivative is `1 / a`.
pub open spec fn is_log_node<S: Scalar>(nodes: Seq<Node<S>>, a: Value, r: Value) -> bool {
    &&& is_unary(nodes, a, r)
    &&& is_ln(data_of(nodes, a), data_of(nodes, r))
    &&& is_inverse(data_of(nodes, a), left_of(nodes, r))
}

/// `r = exp(a)`, which is its own derivative.
pub open spec fn is_exp_node<S: Scalar>(nodes: Seq<Node<S>>, a: Value, r: Value) -> bool {
    &&& is_unary(nodes, a, r)
    &&& is_exp(data_of(nodes, a), data_of(nodes, r))
    &&& left_of(nodes, r) == data_of(nodes, r)
}

/// `r = max(a, 0)`; the derivative is one where `a` is positive and zero elsewhere.
pub open spec fn is_relu_node<S: Scalar>(nodes: Seq<Node<S>>, a: Value, r: Value) -> bool {
    &&& is_unary(nodes, a, r)
    &&& exists|zero: S|
        is_zero(zero) && #[trigger] is_max(data_of(nodes, a), zero, data_of(nodes, r))
    &&& tests_positive(data_of(nodes, a), true) && is_one(left_of(nodes, r)) || tests_positive(
        data_of(nodes, a),
        false,
    ) && is_zero(left_of(nodes, r))
}

/// `r = a + c` for a constant `c`; the derivative is one.
pub open spec fn is_add_const<S: Scalar>(nodes: Seq<Node<S>>, a: Value, c: S, r: Value) -> bool {
    &&& is_unary(nodes, a, r)
    &&& is_sum(data_of(nodes, a), c, data_of(nodes, r))
    &&& is_one(left_of(nodes, r))
}

/// `r = a - c` for a constant `c`; the derivative is one.
pub open spec fn is_sub_const<S: Scalar>(nodes: Seq<Node<S>>, a: Value, c: S, r: Value) -> bool {
    &&& is_unary(nodes, a, r)
    &&& is_diff(data_of(nodes, a), c, data_of(nodes, r))
    &&& is_one(left_of(nodes, r))
}

/// `r = a * c` for a constant `c`, which is the derivative.
pub open spec fn is_mul_const<S: Scalar>(nodes: Seq<Node<S>>, a: Value, c: S, r: Value) -> bool {
    &&& is_unary(nodes, a, r)
    &&& is_prod(data_of(nodes, a), c, data_of(nodes, r))
    &&& left_of(nodes, r) == c
}

/// `r = a / c` for a constant `c`; the derivative is `1 / c`.
pub open spec fn is_div_const<S: Scalar>(nodes: Seq<Node<S>>, a: Value, c: S, r: Value) -> bool {
    &&& is_unary(nodes, a, r)
    &&& is_quot(data_of(nodes, a), c, data_of(nodes, r))
    &&& is_inverse(c, left_of(nodes, r))
}

/// `later` is `nodes` with one more node, `r`, which has no gradient yet.
pub open spec fn grows_by_one<S: Scalar>(
    nodes: Seq<Node<S>>,
    later: Seq<Node<S>>,
    r: Value,
) -> bool {
    &&& later.len() == nodes.len() + 1
    &&& extends(nodes, later)
    &&& r.idx == nodes.len()
}

impl<S: Scalar> Tape<S> {
    /// Whether the tape is in topological order and every node has a handle.
    pub open spec fn wf(&self) -> bool {
        topological(self.nodes@) && self.nodes@.len() <= max_nodes()
    }

    /// An empty tape.
    pub fn new() -> (t: Tape<S>)
        ensures
            t.wf(),
            t.nodes@.len() == 0,
    {
        Tape { nodes: Vec::new() }
    }

    /// The number of nodes.
    pub fn len(&self) -> (n: usize)
        ensures
            n == self.nodes@.len(),
    {
        self.nodes.len()
    }

    /// Discards every node past `len`, and with them a whole computation.
    pub fn truncate(&mut self, len: usize)
        requires
            old(self).wf(),
        ensures
            final(self).wf(),
            final(self).nodes@ == if len <= old(self).nodes@.len() {
                old(self).nodes@.take(len as int)
            } else {
                old(self).nodes@
            },
    {
        if len <= self.nodes.len() {
            self.nodes.truncate(len);
            assert(self.nodes@ =~= old(self).nodes@.take(len as int));
        }
    }

    /// A node without operands: a parameter or a constant.
    pub fn value(&mut self, data: S) -> (v: Value)
        requires
            old(self).wf(),
            old(self).nodes@.len() < max_nodes(),
        ensures
            final(self).wf(),
            grows_by_one(old(self).nodes@, final(self).nodes@, v),
            data_of(final(self).nodes@, v) == data,
            final(self).nodes@[v.idx as int].left is None,
            final(self).nodes@[v.idx as int].right is None,
    {
        self.push(data, None, None)
    }

    /// Appends a node behind its operands, with a gradient of zero. The tape stays in
    /// topological order.
    pub fn push(&mut self, data: S, left: Option<Parent<S>>, right: Option<Parent<S>>) -> (v: Value)
        requires
            old(self).wf(),
            old(self).nodes@.len() < max_nodes(),
            stands_before(left, old(self).nodes@.len() as int),
            stands_before(right, old(self).nodes@.len() as int),
        ensures
            final(self).wf(),
            grows_by_one(old(self).nodes@, final(self).nodes@, v),
            data_of(final(self).nodes@, v) == data,
            final(self).nodes@[v.idx as int].left == left,
            final(self).nodes@[v.idx as int].right == right,
    {
        let idx: u32 = self.nodes.len() as u32;
        let grad: S = S::zero();
        self.nodes.push(Node { data, grad, left, right });
        Value { idx }
    }
}

impl Value {
    /// The number of the node.
    pub fn data<S: Scalar>(self, tape: &Tape<S>) -> (x: S)
        requires
            on(tape.nodes@, self),
        ensures
            x == data_of(tape.nodes@, self),
    {
        tape.nodes[self.idx as usize].data
    }

    /// The gradient of the node.
    pub fn grad<S: Scalar>(self, tape: &Tape<S>) -> (x: S)
        requires
            on(tape.nodes@, self),
        ensures
            x == tape.nodes@[self.idx as int].grad,
    {
        tape.nodes[self.idx as usize].grad
    }

    /// This node as an operand.
    fn parent<S: Scalar>(self, local_grad: S) -> (p: Option<Parent<S>>)
        ensures
            p == Some(Parent { idx: self.idx, local_grad }),
    {
        Some(Parent { idx: self.idx, local_grad })
    }

    /// The node raised to the power `k`.
    pub fn powf<S: Scalar>(self, tape: &mut Tape<S>, k: S) -> (r: Value)
        requires
            old(tape).wf(),
            old(tape).nodes@.len() < max_nodes(),
            on(old(tape).nodes@, self),
        ensures
            final(tape).wf(),
            grows_by_one(old(tape).nodes@, final(tape).nodes@, r),
            is_pow_node(final(tape).nodes@, self, k, r),
    {
        let a: S = self.data(tape);
        let one: S = S::one();
        let less: S = k.sub(one);
        let power: S = a.powf(less);
        let slope: S = k.mul(power);
        let data: S = a.powf(k);
        assert(is_pow_slope(a, k, slope));
        tape.push(data, self.parent(slope), None)
    }

    /// The natural logarithm of the node.
    pub fn log<S: Scalar>(self, tape: &mut Tape<S>) -> (r: Value)
        requires
            old(tape).wf(),
            old(tape).nodes@.len() < max_nodes(),
            on(old(tape).nodes@, self),
        ensures
            final(tape).wf(),
            grows_by_one(old(tape).nodes@, final(tape).nodes@, r),
            is_log_node(final(tape).nodes@, self, r),
    {
        let a: S = self.data(tape);
        let one: S = S::one();
        let slope: S = one.div(a);
        let data: S = a.ln();
        tape.push(data, self.parent(slope), None)
    }

    /// The exponential of the node.
    pub fn exp<S: Scalar>(self, tape: &mut Tape<S>) -> (r: Value)
        requires
            old(tape).wf(),
            old(tape).nodes@.len() < max_nodes(),
            on(old(tape).nodes@, self),
        ensures
            final(tape).wf(),
            grows_by_one(old(tape).nodes@, final(tape).nodes@, r),
            is_exp_node(final(tape).nodes@, self, r),
    {
        let a: S = self.data(tape);
        let e: S = a.exp();
        tape.push(e, self.parent(e), None)
    }

    /// The node, with zero in place of negative numbers.
    pub fn relu<S: Scalar>(self, tape: &mut Tape<S>) -> (r: Value)
        requires
            old(tape).wf(),
            old(tape).nodes@.len() < max_nodes(),
            on(old(tape).nodes@, self),
        ensures
            final(tape).wf(),
            grows_by_one(old(tape).nodes@, final(tape).nodes@, r),
            is_relu_node(final(tape).nodes@, self, r),
    {
        let a: S = self.data(tape);
        let zero: S = S::zero();
        let data: S = a.max(zero);
        let slope: S = if a.is_positive() {
            S::one()
        } else {
            S::zero()
        };
        tape.push(data, self.parent(slope), None)
    }

    /// The sum of two nodes.
    pub fn add<S: Scalar>(self, tape: &mut Tape<S>, other: Value) -> (r: Value)
        requires
            old(tape).wf(),
            old(tape).nodes@.len() < max_nodes(),
            on(old(tape).nodes@, self),
            on(old(tape).nodes@, other),
        ensures
            final(tape).wf(),
            grows_by_one(old(tape).nodes@, final(tape).nodes@, r),
            is_add_node(final(tape).nodes@, self, other, r),
    {
        let data: S = self.data(tape).add(other.data(tape));
        tape.push(data, self.parent(S::one()), other.parent(S::one()))
    }

    /// The difference of two nodes.
    pub fn sub<S: Scalar>(self, tape: &mut Tape<S>, other: Value) -> (r: Value)
        requires
            old(tape).wf(),
            old(tape).nodes@.len() < max_nodes(),
            on(old(tape).nodes@, self),
            on(old(tape).nodes@, other),
        ensures
            final(tape).wf(),
            grows_by_one(old(tape).nodes@, final(tape).nodes@, r),
            is_sub_node(final(tape).nodes@, self, other, r),
    {
        let data: S = self.data(tape).sub(other.data(tape));
        let one: S = S::one();
        let minus_one: S = one.neg();
        assert(is_minus_one(minus_one));
        tape.push(data, self.parent(S::one()), other.parent(minus_one))
    }

    /// The product of two nodes.
    pub fn mul<S: Scalar>(self, tape: &mut Tape<S>, other: Value) -> (r: Value)
        requires
            old(tape).wf(),
            old(tape).nodes@.len() < max_nodes(),
            on(old(tape).nodes@, self),
            on(old(tape).nodes@, other),
        ensures
            final(tape).wf(),
            grows_by_one(old(tape).nodes@, final(tape).nodes@, r),
            is_mul_node(final(tape).nodes@, self, other, r),
    {
        let a: S = self.data(tape);
        let b: S = other.data(tape);
        tape.push(a.mul(b), self.parent(b), other.parent(a))
    }

    /// The quotient of two nodes.
    pub fn div<S: Scalar>(self, tape: &mut Tape<S>, other: Value) -> (r: Value)
        requires
            old(tape).wf(),
            old(tape).nodes@.len() < max_nodes(),
            on(old(tape).nodes@, self),
            on(old(tape).nodes@, other),
        ensures
            final(tape).wf(),
            grows_by_one(old(tape).nodes@, final(tape).nodes@, r),
            is_div_node(final(tape).nodes@, self, other, r),
    {
        let a: S = self.data(tape);
        let b: S = other.data(tape);
        let one: S = S::one();
        let left: S = one.div(b);
        let top: S = a.neg();
        let square: S = b.mul(b);
        let right: S = top.div(square);
        assert(is_quot_slope(a, b, right));
        tape.push(a.div(b), self.parent(left), other.parent(right))
    }

    /// The node with the other sign.
    pub fn neg<S: Scalar>(self, tape: &mut Tape<S>) -> (r: Value)
        requires
            old(tape).wf(),
            old(tape).nodes@.len() < max_nodes(),
            on(old(tape).nodes@, self),
        ensures
            final(tape).wf(),
            grows_by_one(old(tape).nodes@, final(tape).nodes@, r),
            is_neg_node(final(tape).nodes@, self, r),
    {
        let a: S = self.data(tape);
        let one: S = S::one();
        let minus_one: S = one.neg();
        assert(is_minus_one(minus_one));
        tape.push(a.neg(), self.parent(minus_one), None)
    }

    /// The node plus a constant, which needs no node of its own.
    pub fn add_const<S: Scalar>(self, tape: &mut Tape<S>, c: S) -> (r: Value)
        requires
            old(tape).wf(),
            old(tape).nodes@.len() < max_nodes(),
            on(old(tape).nodes@, self),
        ensures
            final(tape).wf(),
            grows_by_one(old(tape).nodes@, final(tape).nodes@, r),
            is_add_const(final(tape).nodes@, self, c, r),
    {
        let data: S = self.data(tape).add(c);
        tape.push(data, self.parent(S::one()), None)
    }

    /// The node minus a constant.
    pub fn sub_const<S: Scalar>(self, tape: &mut Tape<S>, c: S) -> (r: Value)
        requires
            old(tape).wf(),
            old(tape).nodes@.len() < max_nodes(),
            on(old(tape).nodes@, self),
        ensures
            final(tape).wf(),
            grows_by_one(old(tape).nodes@, final(tape).nodes@, r),
            is_sub_const(final(tape).nodes@, self, c, r),
    {
        let data: S = self.data(tape).sub(c);
        tape.push(data, self.parent(S::one()), None)
    }

    /// The node times a constant.
    pub fn mul_const<S: Scalar>(self, tape: &mut Tape<S>, c: S) -> (r: Value)
        requires
            old(tape).wf(),
            old(tape).nodes@.len() < max_nodes(),
            on(old(tape).nodes@, self),
        ensures
            final(tape).wf(),
            grows_by_one(old(tape).nodes@, final(tape).nodes@, r),
            is_mul_const(final(tape).nodes@, self, c, r),
    {
        let data: S = self.data(tape).mul(c);
        tape.push(data, self.parent(c), None)
    }

    /// The node divided by a constant.
    pub fn div_const<S: Scalar>(self, tape: &mut Tape<S>, c: S) -> (r: Value)
        requires
            old(tape).wf(),
            old(tape).nodes@.len() < max_nodes(),
            on(old(tape).nodes@, self),
        ensures
            final(tape).wf(),
            grows_by_one(old(tape).nodes@, final(tape).nodes@, r),
            is_div_const(final(tape).nodes@, self, c, r),
    {
        let data: S = self.data(tape).div(c);
        let one: S = S::one();
        let slope: S = one.div(c);
        tape.push(data, self.parent(slope), None)
    }
}

/// One use of a node: the node that uses it, and on which side.
pub struct Use {
    pub by: int,
    pub is_left: bool,
}

/// The uses of node `k` by node `j`, the left one first.
pub open spec fn uses_by<S>(nodes: Seq<Node<S>>, k: int, j: int) -> Seq<Use> {
    let left = nodes[j].left is Some && nodes[j].left->0.idx == k;
    let right = nodes[j].right is Some && nodes[j].right->0.idx == k;
    let one = if left {
        seq![Use { by: j, is_left: true }]
    } else {
        Seq::empty()
    };
    if right {
        one.push(Use { by: j, is_left: false })
    } else {
        one
    }
}

/// The uses of node `k` by the nodes from `low` to `high`, the latest first.
pub open spec fn uses<S>(nodes: Seq<Node<S>>, k: int, low: int, high: int) -> Seq<Use>
    decreases high + 1 - low,
{
    if low > high {
        Seq::empty()
    } else {
        uses(nodes, k, low + 1, high) + uses_by(nodes, k, low)
    }
}

/// The derivative of the using node along this use.
pub open spec fn slope_of<S>(nodes: Seq<Node<S>>, u: Use) -> S {
    if u.is_left {
        nodes[u.by].left->0.local_grad
    } else {
        nodes[u.by].right->0.local_grad
    }
}

/// What the uses contribute to a gradient: the derivative along the use times the gradient
/// of the using node, as the terms of a sum.
pub open spec fn use_term<S: Scalar>(
    nodes: Seq<Node<S>>,
    us: Seq<Use>,
    grads: Seq<S>,
) -> spec_fn(int, S) -> bool {
    |i: int, t: S| is_prod(slope_of(nodes, us[i]), grads[us[i].by], t)
}

/// The gradients on a tape.
pub open spec fn grads_of<S>(nodes: Seq<Node<S>>) -> Seq<S> {
    Seq::new(nodes.len(), |i: int| nodes[i].grad)
}

/// Whether two tapes differ in nothing but gradients.
pub open spec fn same_graph<S>(nodes: Seq<Node<S>>, later: Seq<Node<S>>) -> bool {
    &&& later.len() == nodes.len()
    &&& forall|i: int|
        0 <= i < nodes.len() ==> (#[trigger] later[i]).data == nodes[i].data && later[i].left
            == nodes[i].left && later[i].right == nodes[i].right
}

/// The chain rule: to the gradient that node `k` starts from, every use of it by the nodes
/// from `low` on, up to the loss, adds the derivative along the use times the gradient of
/// the using node; the latest use first.
pub open spec fn is_pulled<S: Scalar>(
    nodes: Seq<Node<S>>,
    loss: int,
    low: int,
    start: S,
    grads: Seq<S>,
    k: int,
    r: S,
) -> bool {
    let us = uses(nodes, k, low, loss);
    is_running_sum(start, use_term(nodes, us, grads), us.len(), r)
}

/// `after` holds the gradients of `loss`, on top of those of `before`: that of the loss is
/// one, that of any node before it follows from the gradients of its uses, and those behind
/// it are left alone.
pub open spec fn is_tape_backward<S: Scalar>(
    nodes: Seq<Node<S>>,
    loss: int,
    before: Seq<S>,
    after: Seq<S>,
) -> bool {
    &&& after.len() == before.len()
    &&& is_one(after[loss])
    &&& forall|k: int|
        0 <= k < loss ==> is_pulled(nodes, loss, k + 1, before[k], after, k, #[trigger] after[k])
    &&& forall|k: int| loss < k < before.len() ==> #[trigger] after[k] == before[k]
}

/// The uses by the nodes from `low` to `high` are by those nodes.
pub proof fn lemma_uses_between<S>(nodes: Seq<Node<S>>, k: int, low: int, high: int)
    ensures
        forall|i: int|
            0 <= i < uses(nodes, k, low, high).len() ==> low <= (#[trigger] uses(
                nodes,
                k,
                low,
                high,
            )[i]).by <= high,
    decreases high + 1 - low,
{
    if low <= high {
        lemma_uses_between(nodes, k, low + 1, high);
        let later = uses(nodes, k, low + 1, high);
        let own = uses_by(nodes, k, low);
        assert forall|i: int| 0 <= i < (later + own).len() implies low <= (#[trigger] (later
            + own)[i]).by <= high by {
            if i < later.len() {
                assert((later + own)[i] == later[i]);
            } else {
                assert((later + own)[i] == own[i - later.len()]);
            }
        }
    }
}

/// No node is used by itself or by one before it.
pub proof fn lemma_no_early_uses<S>(nodes: Seq<Node<S>>, k: int, low: int, high: int)
    requires
        topological(nodes),
        0 <= low <= k + 1,
        k <= high < nodes.len(),
    ensures
        uses(nodes, k, low, high) == uses(nodes, k, k + 1, high),
    decreases k + 1 - low,
{
    if low < k + 1 {
        lemma_no_early_uses(nodes, k, low + 1, high);
        assert(stands_before(nodes[low].left, low) && stands_before(nodes[low].right, low));
        assert(uses_by(nodes, k, low) =~= Seq::empty());
        assert(uses(nodes, k, low, high) =~= uses(nodes, k, low + 1, high));
    }
}

/// A pulled gradient depends only on the gradients of the uses.
proof fn lemma_pulled_kept<S: Scalar>(
    nodes: Seq<Node<S>>,
    loss: int,
    low: int,
    start: S,
    g: Seq<S>,
    other: Seq<S>,
    k: int,
    r: S,
)
    requires
        is_pulled(nodes, loss, low, start, g, k, r),
        forall|b: int| low <= b <= loss ==> #[trigger] other[b] == g[b],
    ensures
        is_pulled(nodes, loss, low, start, other, k, r),
{
    let us = uses(nodes, k, low, loss);
    lemma_uses_between(nodes, k, low, loss);
    assert forall|i: int, t: S|
        0 <= i < us.len() && #[trigger] use_term(nodes, us, g)(i, t) implies use_term(
        nodes,
        us,
        other,
    )(i, t) by {
        assert(low <= us[i].by <= loss);
        assert(other[us[i].by] == g[us[i].by]);
    }
    lemma_running_sum_congruent(
        start,
        use_term(nodes, us, g),
        use_term(nodes, us, other),
        us.len(),
        r,
    );
}

/// One more use adds its term.
proof fn lemma_use_added<S: Scalar>(
    nodes: Seq<Node<S>>,
    us: Seq<Use>,
    u: Use,
    g: Seq<S>,
    start: S,
    before: S,
    t: S,
    r: S,
)
    requires
        is_running_sum(start, use_term(nodes, us, g), us.len(), before),
        is_prod(slope_of(nodes, u), g[u.by], t),
        is_sum(before, t, r),
    ensures
        is_running_sum(start, use_term(nodes, us.push(u), g), us.push(u).len(), r),
{
    let longer = us.push(u);
    assert forall|i: int, x: S|
        0 <= i < us.len() && #[trigger] use_term(nodes, us, g)(i, x) implies use_term(
        nodes,
        longer,
        g,
    )(i, x) by {
        assert(longer[i] == us[i]);
    }
    lemma_running_sum_congruent(
        start,
        use_term(nodes, us, g),
        use_term(nodes, longer, g),
        us.len(),
        before,
    );
    assert(use_term(nodes, longer, g)(us.len() as int, t));
    lemma_running_sum_step(start, use_term(nodes, longer, g), us.len(), before, t, r);
}

/// `h` is `g` with the operand's gradient increased by its derivative times `grad`.
pub open spec fn is_spread<S: Scalar>(
    p: Option<Parent<S>>,
    grad: S,
    g: Seq<S>,
    h: Seq<S>,
) -> bool {
    match p {
        None => h == g,
        Some(p) => {
            let k = p.idx as int;
            exists|t: S| #[trigger]
                is_prod(p.local_grad, grad, t) && is_sum(g[k], t, h[k]) && h == g.update(k, h[k])
        },
    }
}

/// Sweeping over node `j` adds its uses to the gradients of its operands.
proof fn lemma_swept<S: Scalar>(
    nodes: Seq<Node<S>>,
    loss: int,
    j: int,
    start: S,
    g: Seq<S>,
    h: Seq<S>,
    e: Seq<S>,
    k: int,
)
    requires
        topological(nodes),
        0 <= k <= loss < nodes.len(),
        0 <= j <= loss,
        g.len() == nodes.len(),
        is_pulled(nodes, loss, j + 1, start, g, k, g[k]),
        is_spread(nodes[j].left, g[j], g, h),
        is_spread(nodes[j].right, g[j], h, e),
    ensures
        is_pulled(nodes, loss, j, start, e, k, e[k]),
        e.len() == g.len(),
        forall|b: int| j <= b < g.len() ==> #[trigger] e[b] == g[b],
{
    let node = nodes[j];
    assert(stands_before(node.left, j) && stands_before(node.right, j));
    let us = uses(nodes, k, j + 1, loss);
    let left = Use { by: j, is_left: true };
    let right = Use { by: j, is_left: false };
    let by_left = node.left is Some && node.left->0.idx == k;
    let by_right = node.right is Some && node.right->0.idx == k;
    let mid = if by_left {
        us.push(left)
    } else {
        us
    };
    if by_left {
        let t = choose|t: S| #[trigger]
            is_prod(node.left->0.local_grad, g[j], t) && is_sum(g[k], t, h[k]) && h == g.update(
                k,
                h[k],
            );
        lemma_use_added(nodes, us, left, g, start, g[k], t, h[k]);
    }
    assert(is_running_sum(start, use_term(nodes, mid, g), mid.len(), h[k]));
    let full = if by_right {
        mid.push(right)
    } else {
        mid
    };
    if by_right {
        let t = choose|t: S| #[trigger]
            is_prod(node.right->0.local_grad, g[j], t) && is_sum(h[k], t, e[k]) && e == h.update(
                k,
                e[k],
            );
        lemma_use_added(nodes, mid, right, g, start, h[k], t, e[k]);
    }
    assert(full =~= uses(nodes, k, j, loss));
    assert(is_pulled(nodes, loss, j, start, g, k, e[k]));
    lemma_pulled_kept(nodes, loss, j, start, g, e, k, e[k]);
}

impl<S: Scalar> Tape<S> {
    /// Adds to the gradient of the operand, if there is one, its derivative times `grad`.
    fn spread(&mut self, p: Option<Parent<S>>, grad: S)
        requires
            stands_before(p, old(self).nodes@.len() as int),
        ensures
            same_graph(old(self).nodes@, final(self).nodes@),
            is_spread(p, grad, grads_of(old(self).nodes@), grads_of(final(self).nodes@)),
    {
        if let Some(p) = p {
            let k: usize = p.idx as usize;
            let t: S = p.local_grad.mul(grad);
            let mut node: Node<S> = self.nodes[k];
            node.grad = node.grad.add(t);
            self.nodes[k] = node;
            let ghost g = grads_of(old(self).nodes@);
            assert(grads_of(self.nodes@) =~= g.update(k as int, node.grad));
        }
    }

    /// Computes the derivatives of `loss` with respect to all nodes before it, in one sweep
    /// from the loss to the start.
    pub fn backward(&mut self, loss: Value)
        requires
            old(self).wf(),
            on(old(self).nodes@, loss),
        ensures
            final(self).wf(),
            same_graph(old(self).nodes@, final(self).nodes@),
            is_tape_backward(
                old(self).nodes@,
                loss.idx as int,
                grads_of(old(self).nodes@),
                grads_of(final(self).nodes@),
            ),
    {
        let ghost nodes = self.nodes@;
        let ghost before = grads_of(nodes);
        let top: usize = loss.idx as usize;
        let len: usize = self.nodes.len();
        assert(top < len);
        let one: S = S::one();
        let mut last: Node<S> = self.nodes[top];
        last.grad = one;
        self.nodes[top] = last;
        let mut i: usize = top + 1;
        proof {
            let g = grads_of(self.nodes@);
            assert forall|k: int| 0 <= k < top implies is_pulled(
                nodes,
                top as int,
                top + 1,
                before[k],
                g,
                k,
                #[trigger] g[k],
            ) by {
                assert(uses(nodes, k, top + 1, top as int).len() == 0);
            }
        }
        while i > 0
            invariant
                topological(nodes),
                before == grads_of(nodes),
                top < nodes.len(),
                i <= top + 1,
                same_graph(nodes, self.nodes@),
                is_one(grads_of(self.nodes@)[top as int]),
                forall|k: int|
                    0 <= k < top ==> is_pulled(
                        nodes,
                        top as int,
                        i as int,
                        before[k],
                        grads_of(self.nodes@),
                        k,
                        #[trigger] grads_of(self.nodes@)[k],
                    ),
                forall|k: int|
                    top < k < nodes.len() ==> #[trigger] grads_of(self.nodes@)[k] == before[k],
            decreases i,
        {
            i = i - 1;
            let ghost g = grads_of(self.nodes@);
            let node: Node<S> = self.nodes[i];
            assert(stands_before(nodes[i as int].left, i as int) && stands_before(
                nodes[i as int].right,
                i as int,
            ));
            self.spread(node.left, node.grad);
            let ghost h = grads_of(self.nodes@);
            self.spread(node.right, node.grad);
            proof {
                let e = grads_of(self.nodes@);
                assert forall|k: int| 0 <= k < top implies is_pulled(
                    nodes,
                    top as int,
                    i as int,
                    before[k],
                    e,
                    k,
                    #[trigger] e[k],
                ) by {
                    assert(is_pulled(nodes, top as int, i + 1, before[k], g, k, g[k]));
                    lemma_swept(nodes, top as int, i as int, before[k], g, h, e, k);
                }
            }
        }
        proof {
            let e = grads_of(self.nodes@);
            assert forall|k: int| 0 <= k < top implies is_pulled(
                nodes,
                top as int,
                k + 1,
                before[k],
                e,
                k,
                #[trigger] e[k],
            ) by {
                lemma_no_early_uses(nodes, k, 0, top as int);
            }
            assert(topological(self.nodes@)) by {
                assert forall|j: int| 0 <= j < self.nodes@.len() implies stands_before(
                    (#[trigger] self.nodes@[j]).left,
                    j,
                ) && stands_before(self.nodes@[j].right, j) by {
                    assert(stands_before(nodes[j].left, j) && stands_before(nodes[j].right, j));
                }
            }
        }
    }
}

} // verus!
