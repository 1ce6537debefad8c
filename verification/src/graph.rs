//! Layers of a network as computations on a tape: products, softmax and normalization.
use vstd::prelude::*;

use crate::norm::EPS_DEN;
use crate::order::{
    add_ops, at, div_ops, dot_at, dot_ops, exp_ops, exps_at, follows, is_div_num, is_op, is_sub_max,
    lemma_follows_append, lemma_follows_none, lemma_follows_push, linear_at, linear_ops, mul_ops,
    relu_ops, rmsnorm_at, rmsnorm_ops, row_at, softmax_at, softmax_ops, sum_at, sum_ops, Op,
};
use crate::reduce::{is_max_of, max_of};
use crate::scalar::{is_max, is_neg, is_num, is_ratio, is_zero, Scalar};
use crate::tape::{
    data_of, extends, grows_by_one, is_add_const, is_add_node, is_div_const, is_div_node,
    is_exp_node, is_mul_node, is_pow_node, is_relu_node, is_sub_const, max_nodes, on, topological,
    Node, Tape, Value,
};

verus! {

/// Whether all of `vs` are handles of nodes.
pub open spec fn all_on<S>(nodes: Seq<Node<S>>, vs: Seq<Value>) -> bool {
    forall|i: int| 0 <= i < vs.len() ==> on(nodes, #[trigger] vs[i])
}

/// The numbers that `vs` stand for.
pub open spec fn datas_of<S>(nodes: Seq<Node<S>>, vs: Seq<Value>) -> Seq<S> {
    Seq::new(vs.len(), |i: int| data_of(nodes, vs[i]))
}

/// The rows of a matrix.
pub open spec fn rows_of(m: Seq<Vec<Value>>) -> Seq<Seq<Value>> {
    Seq::new(m.len(), |i: int| m[i]@)
}

/// `r` is the sum of `terms`, added up from the left.
pub open spec fn is_sum_node<S: Scalar>(nodes: Seq<Node<S>>, terms: Seq<Value>, r: Value) -> bool
    decreases terms.len(),
{
    if terms.len() <= 1 {
        terms.len() == 1 && r == terms[0] && on(nodes, r)
    } else {
        exists|before: Value, last: Value|
            #![trigger is_add_node(nodes, before, last, r)]
            is_sum_node(nodes, terms.drop_last(), before) && last == terms.last() && is_add_node(
                nodes,
                before,
                last,
                r,
            )
    }
}

/// `ps` are the products of `a` and `b`, one by one.
pub open spec fn is_mul_nodes<S: Scalar>(
    nodes: Seq<Node<S>>,
    a: Seq<Value>,
    b: Seq<Value>,
    ps: Seq<Value>,
) -> bool {
    &&& ps.len() == a.len()
    &&& forall|i: int| 0 <= i < a.len() ==> is_mul_node(nodes, a[i], b[i], #[trigger] ps[i])
}

/// `ss` are the sums of `a` and `b`, one by one.
pub open spec fn is_add_nodes<S: Scalar>(
    nodes: Seq<Node<S>>,
    a: Seq<Value>,
    b: Seq<Value>,
    ss: Seq<Value>,
) -> bool {
    &&& ss.len() == a.len()
    &&& forall|i: int| 0 <= i < a.len() ==> is_add_node(nodes, a[i], b[i], #[trigger] ss[i])
}

/// `rs` are `xs` with the negative numbers cut off.
pub open spec fn is_relu_nodes<S: Scalar>(
    nodes: Seq<Node<S>>,
    xs: Seq<Value>,
    rs: Seq<Value>,
) -> bool {
    &&& rs.len() == xs.len()
    &&& forall|i: int| 0 <= i < xs.len() ==> is_relu_node(nodes, xs[i], #[trigger] rs[i])
}

/// `r` is the dot product of `a` and `b`.
pub open spec fn is_dot_node<S: Scalar>(
    nodes: Seq<Node<S>>,
    a: Seq<Value>,
    b: Seq<Value>,
    r: Value,
) -> bool {
    exists|ps: Seq<Value>| #[trigger] is_mul_nodes(nodes, a, b, ps) && is_sum_node(nodes, ps, r)
}

/// `ys` are the dot products of the rows of `w` with `xs`.
pub open spec fn is_linear_nodes<S: Scalar>(
    nodes: Seq<Node<S>>,
    xs: Seq<Value>,
    w: Seq<Seq<Value>>,
    ys: Seq<Value>,
) -> bool {
    &&& ys.len() == w.len()
    &&& forall|j: int| 0 <= j < w.len() ==> is_dot_node(nodes, w[j], xs, #[trigger] ys[j])
}

/// `e` is `exp(x - shift)`.
pub open spec fn is_shifted_exp_node<S: Scalar>(
    nodes: Seq<Node<S>>,
    x: Value,
    shift: S,
    e: Value,
) -> bool {
    exists|diff: Value| #[trigger] is_sub_const(nodes, x, shift, diff) && is_exp_node(nodes, diff, e)
}

/// `ps` are the softmax of `xs`. The largest number is taken as a constant.
pub open spec fn is_softmax_nodes<S: Scalar>(
    nodes: Seq<Node<S>>,
    xs: Seq<Value>,
    ps: Seq<Value>,
) -> bool {
    exists|shift: S, es: Seq<Value>, sum: Value| #[trigger]
        is_softmax_nodes_by(nodes, xs, ps, shift, es, sum)
}

/// [`is_softmax_nodes`], with the largest number, the exponentials and their sum.
pub open spec fn is_softmax_nodes_by<S: Scalar>(
    nodes: Seq<Node<S>>,
    xs: Seq<Value>,
    ps: Seq<Value>,
    shift: S,
    es: Seq<Value>,
    sum: Value,
) -> bool {
    &&& all_on(nodes, xs)
    &&& is_max_of(datas_of(nodes, xs), shift)
    &&& es.len() == xs.len()
    &&& forall|i: int|
        0 <= i < xs.len() ==> is_shifted_exp_node(nodes, xs[i], shift, #[trigger] es[i])
    &&& is_sum_node(nodes, es, sum)
    &&& ps.len() == xs.len()
    &&& forall|i: int| 0 <= i < xs.len() ==> is_div_node(nodes, es[i], sum, #[trigger] ps[i])
}

/// `k` is minus one half.
pub open spec fn is_minus_half<S: Scalar>(k: S) -> bool {
    exists|half: S| is_ratio(1, 2, half) && #[trigger] is_neg(half, k)
}

/// `scale` is `(ms + eps)^(-1/2)`.
pub open spec fn is_scale_node<S: Scalar>(nodes: Seq<Node<S>>, ms: Value, scale: Value) -> bool {
    exists|eps: S, padded: Value, k: S|
        #![trigger is_add_const(nodes, ms, eps, padded), is_pow_node(nodes, padded, k, scale)]
        is_ratio(1, EPS_DEN, eps) && is_add_const(nodes, ms, eps, padded) && is_minus_half(k)
            && is_pow_node(nodes, padded, k, scale)
}

/// `ys` are `xs` divided by their root mean square.
pub open spec fn is_rmsnorm_nodes<S: Scalar>(
    nodes: Seq<Node<S>>,
    xs: Seq<Value>,
    ys: Seq<Value>,
) -> bool {
    exists|squares: Value, ms: Value, scale: Value| #[trigger]
        is_rmsnorm_nodes_by(nodes, xs, ys, squares, ms, scale)
}

/// [`is_rmsnorm_nodes`], with the sum of squares, its mean and the factor.
pub open spec fn is_rmsnorm_nodes_by<S: Scalar>(
    nodes: Seq<Node<S>>,
    xs: Seq<Value>,
    ys: Seq<Value>,
    squares: Value,
    ms: Value,
    scale: Value,
) -> bool {
    &&& is_dot_node(nodes, xs, xs, squares)
    &&& exists|count: S|
        is_num(xs.len() as u64, count) && #[trigger] is_div_const(nodes, squares, count, ms)
    &&& is_scale_node(nodes, ms, scale)
    &&& ys.len() == xs.len()
    &&& forall|i: int| 0 <= i < xs.len() ==> is_mul_node(nodes, xs[i], scale, #[trigger] ys[i])
}

/// A sum stays a sum when the tape grows.
pub proof fn lemma_sum_extends<S: Scalar>(
    nodes: Seq<Node<S>>,
    later: Seq<Node<S>>,
    terms: Seq<Value>,
    r: Value,
)
    requires
        extends(nodes, later),
        is_sum_node(nodes, terms, r),
    ensures
        is_sum_node(later, terms, r),
    decreases terms.len(),
{
    if terms.len() > 1 {
        let (before, last) = choose|before: Value, last: Value|
            #![trigger is_add_node(nodes, before, last, r)]
            is_sum_node(nodes, terms.drop_last(), before) && last == terms.last() && is_add_node(
                nodes,
                before,
                last,
                r,
            );
        lemma_sum_extends(nodes, later, terms.drop_last(), before);
        assert(is_add_node(later, before, last, r));
    }
}

/// So does a dot product,
pub proof fn lemma_dot_extends<S: Scalar>(
    nodes: Seq<Node<S>>,
    later: Seq<Node<S>>,
    a: Seq<Value>,
    b: Seq<Value>,
    r: Value,
)
    requires
        extends(nodes, later),
        is_dot_node(nodes, a, b, r),
    ensures
        is_dot_node(later, a, b, r),
{
    let ps = choose|ps: Seq<Value>| #[trigger]
        is_mul_nodes(nodes, a, b, ps) && is_sum_node(nodes, ps, r);
    lemma_sum_extends(nodes, later, ps, r);
    assert(is_mul_nodes(later, a, b, ps));
}

/// a linear layer,
pub proof fn lemma_linear_extends<S: Scalar>(
    nodes: Seq<Node<S>>,
    later: Seq<Node<S>>,
    xs: Seq<Value>,
    w: Seq<Seq<Value>>,
    ys: Seq<Value>,
)
    requires
        extends(nodes, later),
        is_linear_nodes(nodes, xs, w, ys),
    ensures
        is_linear_nodes(later, xs, w, ys),
{
    assert forall|j: int| 0 <= j < w.len() implies is_dot_node(later, w[j], xs, #[trigger] ys[j]) by {
        lemma_dot_extends(nodes, later, w[j], xs, ys[j]);
    }
}

/// a softmax,
pub proof fn lemma_softmax_extends<S: Scalar>(
    nodes: Seq<Node<S>>,
    later: Seq<Node<S>>,
    xs: Seq<Value>,
    ps: Seq<Value>,
)
    requires
        extends(nodes, later),
        is_softmax_nodes(nodes, xs, ps),
    ensures
        is_softmax_nodes(later, xs, ps),
{
    let (shift, es, sum) = choose|shift: S, es: Seq<Value>, sum: Value| #[trigger]
        is_softmax_nodes_by(nodes, xs, ps, shift, es, sum);
    lemma_sum_extends(nodes, later, es, sum);
    assert(datas_of(later, xs) =~= datas_of(nodes, xs));
    assert forall|i: int| 0 <= i < xs.len() implies is_shifted_exp_node(
        later,
        xs[i],
        shift,
        #[trigger] es[i],
    ) by {
        assert(is_shifted_exp_node(nodes, xs[i], shift, es[i]));
        let diff = choose|diff: Value| #[trigger]
            is_sub_const(nodes, xs[i], shift, diff) && is_exp_node(nodes, diff, es[i]);
        assert(is_sub_const(later, xs[i], shift, diff));
    }
    assert(is_softmax_nodes_by(later, xs, ps, shift, es, sum));
}

/// and a normalization.
pub proof fn lemma_rmsnorm_extends<S: Scalar>(
    nodes: Seq<Node<S>>,
    later: Seq<Node<S>>,
    xs: Seq<Value>,
    ys: Seq<Value>,
)
    requires
        extends(nodes, later),
        is_rmsnorm_nodes(nodes, xs, ys),
    ensures
        is_rmsnorm_nodes(later, xs, ys),
{
    let (squares, ms, scale) = choose|squares: Value, ms: Value, scale: Value| #[trigger]
        is_rmsnorm_nodes_by(nodes, xs, ys, squares, ms, scale);
    lemma_dot_extends(nodes, later, xs, xs, squares);
    let count = choose|count: S|
        is_num(xs.len() as u64, count) && #[trigger] is_div_const(nodes, squares, count, ms);
    assert(is_div_const(later, squares, count, ms));
    let (eps, padded, k) = choose|eps: S, padded: Value, k: S|
        #![trigger is_add_const(nodes, ms, eps, padded), is_pow_node(nodes, padded, k, scale)]
        is_ratio(1, EPS_DEN, eps) && is_add_const(nodes, ms, eps, padded) && is_minus_half(k)
            && is_pow_node(nodes, padded, k, scale);
    assert(is_add_const(later, ms, eps, padded));
    assert(is_pow_node(later, padded, k, scale));
    assert(is_scale_node(later, ms, scale));
    assert(is_rmsnorm_nodes_by(later, xs, ys, squares, ms, scale));
}

/// The sum of `terms`.
pub fn sum<S: Scalar>(tape: &mut Tape<S>, terms: &Vec<Value>) -> (r: Value)
    requires
        old(tape).wf(),
        terms@.len() > 0,
        all_on(old(tape).nodes@, terms@),
        old(tape).nodes@.len() + terms@.len() - 1 <= max_nodes(),
    ensures
        final(tape).wf(),
        extends(old(tape).nodes@, final(tape).nodes@),
        final(tape).nodes@.len() == old(tape).nodes@.len() + terms@.len() - 1,
        is_sum_node(final(tape).nodes@, terms@, r),
        on(final(tape).nodes@, r),
        follows(
            old(tape).nodes@,
            final(tape).nodes@,
            sum_ops(old(tape).nodes@.len() as int, terms@, terms@.len() as int),
        ),
        r == sum_at(old(tape).nodes@.len() as int, terms@, terms@.len() as int),
{
    let mut acc: Value = terms[0];
    let n: usize = terms.len();
    let ghost from = tape.nodes@.len() as int;
    proof {
        lemma_follows_none(tape.nodes@);
    }
    assert(is_sum_node(tape.nodes@, terms@.take(1), acc));
    for i in 1..n
        invariant
            tape.wf(),
            n == terms@.len(),
            all_on(old(tape).nodes@, terms@),
            old(tape).nodes@.len() + n - 1 <= max_nodes(),
            extends(old(tape).nodes@, tape.nodes@),
            tape.nodes@.len() == old(tape).nodes@.len() + i - 1,
            is_sum_node(tape.nodes@, terms@.take(i as int), acc),
            on(tape.nodes@, acc),
            from == old(tape).nodes@.len(),
            follows(old(tape).nodes@, tape.nodes@, sum_ops(from, terms@, i as int)),
            acc == sum_at(from, terms@, i as int),
    {
        let ghost nodes = tape.nodes@;
        let ghost before = acc;
        let next: Value = terms[i];
        assert(on(old(tape).nodes@, next));
        acc = acc.add(tape, next);
        proof {
            lemma_sum_extends(nodes, tape.nodes@, terms@.take(i as int), before);
            assert(terms@.take(i + 1).drop_last() =~= terms@.take(i as int));
            assert(is_add_node(tape.nodes@, before, next, acc));
            lemma_follows_push(
                old(tape).nodes@,
                nodes,
                tape.nodes@,
                sum_ops(from, terms@, i as int),
                Op::Add(before, next),
                acc,
            );
        }
    }
    assert(terms@.take(n as int) =~= terms@);
    acc
}

/// The dot product of `a` and `b`: each product is added as soon as it is computed.
pub fn dot<S: Scalar>(tape: &mut Tape<S>, a: &Vec<Value>, b: &Vec<Value>) -> (r: Value)
    requires
        old(tape).wf(),
        a@.len() > 0,
        a@.len() == b@.len(),
        all_on(old(tape).nodes@, a@),
        all_on(old(tape).nodes@, b@),
        old(tape).nodes@.len() + 2 * a@.len() - 1 <= max_nodes(),
    ensures
        final(tape).wf(),
        extends(old(tape).nodes@, final(tape).nodes@),
        final(tape).nodes@.len() == old(tape).nodes@.len() + 2 * a@.len() - 1,
        is_dot_node(final(tape).nodes@, a@, b@, r),
        on(final(tape).nodes@, r),
        follows(
            old(tape).nodes@,
            final(tape).nodes@,
            dot_ops(old(tape).nodes@.len() as int, a@, b@, a@.len() as int),
        ),
        r == dot_at(old(tape).nodes@.len() as int, a@.len() as int),
{
    let n: usize = a.len();
    let ghost from = tape.nodes@.len() as int;
    assert(on(tape.nodes@, a@[0]) && on(tape.nodes@, b@[0]));
    let mut acc: Value = a[0].mul(tape, b[0]);
    let ghost mut ps: Seq<Value> = seq![acc];
    assert(is_mul_nodes(tape.nodes@, a@.take(1), b@.take(1), ps));
    proof {
        let start = old(tape).nodes@;
        lemma_follows_none(start);
        lemma_follows_push(start, start, tape.nodes@, Seq::empty(), Op::Mul(a@[0], b@[0]), acc);
    }
    for i in 1..n
        invariant
            tape.wf(),
            n == a@.len() == b@.len(),
            all_on(old(tape).nodes@, a@),
            all_on(old(tape).nodes@, b@),
            old(tape).nodes@.len() + 2 * n - 1 <= max_nodes(),
            extends(old(tape).nodes@, tape.nodes@),
            tape.nodes@.len() == old(tape).nodes@.len() + 2 * i - 1,
            is_mul_nodes(tape.nodes@, a@.take(i as int), b@.take(i as int), ps),
            is_sum_node(tape.nodes@, ps, acc),
            on(tape.nodes@, acc),
            from == old(tape).nodes@.len(),
            follows(old(tape).nodes@, tape.nodes@, dot_ops(from, a@, b@, i as int)),
            acc == dot_at(from, i as int),
    {
        let ghost nodes = tape.nodes@;
        let ghost before = acc;
        assert(on(old(tape).nodes@, a@[i as int]) && on(old(tape).nodes@, b@[i as int]));
        let p: Value = a[i].mul(tape, b[i]);
        let ghost mid = tape.nodes@;
        acc = acc.add(tape, p);
        proof {
            let start = old(tape).nodes@;
            let ops = dot_ops(from, a@, b@, i as int);
            let product = Op::Mul(a@[i as int], b@[i as int]);
            lemma_follows_push(start, nodes, mid, ops, product, p);
            lemma_follows_push(start, mid, tape.nodes@, ops.push(product), Op::Add(before, p), acc);
            let longer = ps.push(p);
            lemma_sum_extends(nodes, tape.nodes@, ps, before);
            assert(longer.drop_last() =~= ps);
            assert(is_add_node(tape.nodes@, before, p, acc));
            assert(is_sum_node(tape.nodes@, longer, acc));
            let (short_a, short_b) = (a@.take(i as int), b@.take(i as int));
            let (long_a, long_b) = (a@.take(i + 1), b@.take(i + 1));
            assert forall|k: int| 0 <= k < long_a.len() implies is_mul_node(
                tape.nodes@,
                long_a[k],
                long_b[k],
                #[trigger] longer[k],
            ) by {
                if k < i {
                    assert(is_mul_node(nodes, short_a[k], short_b[k], ps[k]));
                } else {
                    assert(is_mul_node(tape.nodes@, a@[i as int], b@[i as int], p));
                }
            }
            ps = longer;
        }
    }
    assert(a@.take(n as int) =~= a@ && b@.take(n as int) =~= b@);
    acc
}

/// Whether all rows of a matrix are handles of nodes, `nin` in each row.
pub open spec fn matrix_on<S>(nodes: Seq<Node<S>>, w: Seq<Seq<Value>>, nin: nat) -> bool {
    forall|j: int|
        0 <= j < w.len() ==> (#[trigger] w[j]).len() == nin && all_on(nodes, w[j])
}

/// Handles stay handles when the tape grows.
pub proof fn lemma_on_extends<S: Scalar>(nodes: Seq<Node<S>>, later: Seq<Node<S>>, vs: Seq<Value>)
    requires
        extends(nodes, later),
        all_on(nodes, vs),
    ensures
        all_on(later, vs),
{
    assert forall|i: int| 0 <= i < vs.len() implies on(later, #[trigger] vs[i]) by {
        assert(on(nodes, vs[i]));
    }
}

/// The nodes of a linear layer.
pub open spec fn linear_cost(nin: int, nout: int) -> int {
    nout * (2 * nin - 1)
}

/// The dot products of the rows of `w` with `x`.
pub fn linear<S: Scalar>(tape: &mut Tape<S>, x: &Vec<Value>, w: &Vec<Vec<Value>>) -> (ys: Vec<
    Value,
>)
    requires
        old(tape).wf(),
        x@.len() > 0,
        all_on(old(tape).nodes@, x@),
        matrix_on(old(tape).nodes@, rows_of(w@), x@.len()),
        old(tape).nodes@.len() + linear_cost(x@.len() as int, w@.len() as int) <= max_nodes(),
    ensures
        final(tape).wf(),
        extends(old(tape).nodes@, final(tape).nodes@),
        final(tape).nodes@.len() == old(tape).nodes@.len() + linear_cost(
            x@.len() as int,
            w@.len() as int,
        ),
        is_linear_nodes(final(tape).nodes@, x@, rows_of(w@), ys@),
        all_on(final(tape).nodes@, ys@),
        follows(
            old(tape).nodes@,
            final(tape).nodes@,
            linear_ops(old(tape).nodes@.len() as int, x@, rows_of(w@), w@.len() as int),
        ),
        ys@ == linear_at(old(tape).nodes@.len() as int, x@.len() as int, w@.len()),
{
    let mut ys: Vec<Value> = Vec::new();
    let ghost from = tape.nodes@.len() as int;
    proof {
        lemma_follows_none(tape.nodes@);
    }
    let ghost rows = rows_of(w@);
    let n: usize = w.len();
    let ghost cost = 2 * x@.len() - 1;
    assert(0 * cost == 0) by (nonlinear_arith);
    for j in 0..n
        invariant
            tape.wf(),
            n == w@.len(),
            rows == rows_of(w@),
            x@.len() > 0,
            cost == 2 * x@.len() - 1,
            all_on(old(tape).nodes@, x@),
            matrix_on(old(tape).nodes@, rows, x@.len()),
            old(tape).nodes@.len() + n * cost <= max_nodes(),
            extends(old(tape).nodes@, tape.nodes@),
            tape.nodes@.len() == old(tape).nodes@.len() + j * cost,
            ys@.len() == j,
            forall|k: int|
                0 <= k < j ==> is_dot_node(tape.nodes@, rows[k], x@, #[trigger] ys@[k]),
            all_on(tape.nodes@, ys@),
            from == old(tape).nodes@.len(),
            follows(old(tape).nodes@, tape.nodes@, linear_ops(from, x@, rows, j as int)),
            ys@ == linear_at(from, x@.len() as int, j as nat),
    {
        let ghost nodes = tape.nodes@;
        proof {
            assert(rows[j as int] == w@[j as int]@);
            assert(rows[j as int].len() == x@.len() && all_on(old(tape).nodes@, rows[j as int]));
            lemma_on_extends(old(tape).nodes@, nodes, x@);
            lemma_on_extends(old(tape).nodes@, nodes, rows[j as int]);
            crate::index::lemma_row_inside(j as int, n as int, cost as int);
        }
        let y: Value = dot(tape, &w[j], x);
        proof {
            lemma_on_extends(nodes, tape.nodes@, ys@);
            assert forall|k: int| 0 <= k < j implies is_dot_node(
                tape.nodes@,
                rows[k],
                x@,
                #[trigger] ys@[k],
            ) by {
                lemma_dot_extends(nodes, tape.nodes@, rows[k], x@, ys@[k]);
            }
            lemma_follows_append(
                old(tape).nodes@,
                nodes,
                tape.nodes@,
                linear_ops(from, x@, rows, j as int),
                dot_ops(from + j * cost, rows[j as int], x@, x@.len() as int),
            );
            assert(linear_at(from, x@.len() as int, j as nat + 1) =~= linear_at(
                from,
                x@.len() as int,
                j as nat,
            ).push(y));
        }
        ys.push(y);
    }
    ys
}

/// The largest of the numbers that `xs` stand for.
fn max_data<S: Scalar>(tape: &Tape<S>, xs: &Vec<Value>) -> (r: S)
    requires
        all_on(tape.nodes@, xs@),
    ensures
        is_max_of(datas_of(tape.nodes@, xs@), r),
{
    let mut datas: Vec<S> = Vec::new();
    for i in 0..xs.len()
        invariant
            all_on(tape.nodes@, xs@),
            datas@.len() == i,
            forall|k: int| 0 <= k < i ==> #[trigger] datas@[k] == data_of(tape.nodes@, xs@[k]),
    {
        assert(on(tape.nodes@, xs@[i as int]));
        datas.push(xs[i].data(tape));
    }
    assert(datas@.take(datas@.len() as int) =~= datas_of(tape.nodes@, xs@));
    max_of(datas.as_slice(), datas.len())
}

/// The softmax of `xs`: the exponentials of `x - max`, divided by their sum.
pub fn softmax<S: Scalar>(tape: &mut Tape<S>, xs: &Vec<Value>) -> (ps: Vec<Value>)
    requires
        old(tape).wf(),
        xs@.len() > 0,
        all_on(old(tape).nodes@, xs@),
        old(tape).nodes@.len() + 4 * xs@.len() - 1 <= max_nodes(),
    ensures
        final(tape).wf(),
        extends(old(tape).nodes@, final(tape).nodes@),
        final(tape).nodes@.len() == old(tape).nodes@.len() + 4 * xs@.len() - 1,
        is_softmax_nodes(final(tape).nodes@, xs@, ps@),
        all_on(final(tape).nodes@, ps@),
        follows(
            old(tape).nodes@,
            final(tape).nodes@,
            softmax_ops(old(tape).nodes@.len() as int, xs@),
        ),
        ps@ == softmax_at(old(tape).nodes@.len() as int, xs@.len()),
{
    let n: usize = xs.len();
    let shift: S = max_data(tape, xs);
    let ghost start = tape.nodes@;
    let ghost from = start.len() as int;
    proof {
        lemma_follows_none(start);
    }
    let mut es: Vec<Value> = Vec::new();
    for i in 0..n
        invariant
            tape.wf(),
            n == xs@.len(),
            start == old(tape).nodes@,
            is_max_of(datas_of(start, xs@), shift),
            from == start.len(),
            follows(start, tape.nodes@, exp_ops(from, xs@, i as int)),
            es@ == exps_at(from, i as nat),
            all_on(start, xs@),
            start.len() + 4 * n - 1 <= max_nodes(),
            extends(start, tape.nodes@),
            tape.nodes@.len() == start.len() + 2 * i,
            es@.len() == i,
            all_on(tape.nodes@, es@),
            forall|k: int|
                0 <= k < i ==> is_shifted_exp_node(tape.nodes@, xs@[k], shift, #[trigger] es@[k]),
    {
        let ghost nodes = tape.nodes@;
        assert(on(start, xs@[i as int]));
        let diff: Value = xs[i].sub_const(tape, shift);
        let ghost mid = tape.nodes@;
        let e: Value = diff.exp(tape);
        proof {
            assert(is_sub_const(tape.nodes@, xs@[i as int], shift, diff));
            assert(is_shifted_exp_node(tape.nodes@, xs@[i as int], shift, e));
            lemma_on_extends(nodes, tape.nodes@, es@);
            let ops = exp_ops(from, xs@, i as int);
            let less = Op::SubMax(xs@[i as int], xs@);
            assert(is_op(mid, less, diff)) by {
                assert(datas_of(mid, xs@) =~= datas_of(start, xs@)) by {
                    assert forall|k: int| 0 <= k < xs@.len() implies data_of(mid, xs@[k])
                        == data_of(start, #[trigger] xs@[k]) by {
                        assert(on(start, xs@[k]));
                    }
                }
                assert(is_sub_const(mid, xs@[i as int], shift, diff));
                assert forall|k: int| 0 <= k < xs@.len() implies (#[trigger] xs@[k]).idx
                    < diff.idx by {
                    assert(on(start, xs@[k]));
                }
                assert(is_sub_max(mid, xs@[i as int], xs@, diff));
            }
            lemma_follows_push(start, nodes, mid, ops, less, diff);
            lemma_follows_push(start, mid, tape.nodes@, ops.push(less), Op::Exp(diff), e);
            assert(exps_at(from, i as nat + 1) =~= exps_at(from, i as nat).push(e));
            assert forall|k: int| 0 <= k < i implies is_shifted_exp_node(
                tape.nodes@,
                xs@[k],
                shift,
                #[trigger] es@[k],
            ) by {
                lemma_shifted_exp_extends(nodes, tape.nodes@, xs@[k], shift, es@[k]);
            }
        }
        es.push(e);
    }
    let ghost with_es = tape.nodes@;
    let total: Value = sum(tape, &es);
    let ghost with_sum = tape.nodes@;
    let ghost before_ps = exp_ops(from, xs@, n as int) + sum_ops(from + 2 * n, es@, n as int);
    proof {
        lemma_follows_append(
            start,
            with_es,
            with_sum,
            exp_ops(from, xs@, n as int),
            sum_ops(from + 2 * n, es@, n as int),
        );
        lemma_follows_none(with_sum);
    }
    let mut ps: Vec<Value> = Vec::new();
    for i in 0..n
        invariant
            tape.wf(),
            n == es@.len(),
            start.len() + 4 * n - 1 <= max_nodes(),
            all_on(with_sum, es@),
            on(with_sum, total),
            extends(with_sum, tape.nodes@),
            with_sum.len() == start.len() + 3 * n - 1,
            tape.nodes@.len() == with_sum.len() + i,
            ps@.len() == i,
            all_on(tape.nodes@, ps@),
            forall|k: int|
                0 <= k < i ==> is_div_node(tape.nodes@, es@[k], total, #[trigger] ps@[k]),
            from == start.len(),
            follows(with_sum, tape.nodes@, div_ops(es@, total, i as int)),
            ps@ == row_at(from + 3 * n - 1, i as nat),
    {
        let ghost nodes = tape.nodes@;
        assert(on(with_sum, es@[i as int]));
        let p: Value = es[i].div(tape, total);
        proof {
            lemma_on_extends(nodes, tape.nodes@, ps@);
            assert forall|k: int| 0 <= k < i implies is_div_node(
                tape.nodes@,
                es@[k],
                total,
                #[trigger] ps@[k],
            ) by {
                assert(is_div_node(nodes, es@[k], total, ps@[k]));
            }
            lemma_follows_push(
                with_sum,
                nodes,
                tape.nodes@,
                div_ops(es@, total, i as int),
                Op::Div(es@[i as int], total),
                p,
            );
            assert(row_at(from + 3 * n - 1, i as nat + 1) =~= row_at(
                from + 3 * n - 1,
                i as nat,
            ).push(p));
        }
        ps.push(p);
    }
    proof {
        let end = tape.nodes@;
        lemma_on_extends(start, end, xs@);
        assert(datas_of(end, xs@) =~= datas_of(start, xs@)) by {
            assert forall|i: int| 0 <= i < xs@.len() implies data_of(end, xs@[i]) == data_of(
                start,
                xs@[i],
            ) by {
                assert(on(start, xs@[i]));
            }
        }
        assert forall|i: int| 0 <= i < n implies is_shifted_exp_node(
            end,
            xs@[i],
            shift,
            #[trigger] es@[i],
        ) by {
            lemma_shifted_exp_extends(with_es, end, xs@[i], shift, es@[i]);
        }
        lemma_sum_extends(with_sum, end, es@, total);
        assert(is_softmax_nodes_by(end, xs@, ps@, shift, es@, total));
        lemma_follows_append(start, with_sum, end, before_ps, div_ops(es@, total, n as int));
    }
    ps
}

proof fn lemma_shifted_exp_extends<S: Scalar>(
    nodes: Seq<Node<S>>,
    later: Seq<Node<S>>,
    x: Value,
    shift: S,
    e: Value,
)
    requires
        extends(nodes, later),
        is_shifted_exp_node(nodes, x, shift, e),
    ensures
        is_shifted_exp_node(later, x, shift, e),
{
    let diff = choose|diff: Value| #[trigger]
        is_sub_const(nodes, x, shift, diff) && is_exp_node(nodes, diff, e);
    assert(is_sub_const(later, x, shift, diff));
}

/// `xs` divided by their root mean square.
pub fn rmsnorm<S: Scalar>(tape: &mut Tape<S>, xs: &Vec<Value>) -> (ys: Vec<Value>)
    requires
        old(tape).wf(),
        xs@.len() > 0,
        all_on(old(tape).nodes@, xs@),
        old(tape).nodes@.len() + 3 * xs@.len() + 2 <= max_nodes(),
    ensures
        final(tape).wf(),
        extends(old(tape).nodes@, final(tape).nodes@),
        final(tape).nodes@.len() == old(tape).nodes@.len() + 3 * xs@.len() + 2,
        is_rmsnorm_nodes(final(tape).nodes@, xs@, ys@),
        all_on(final(tape).nodes@, ys@),
        follows(
            old(tape).nodes@,
            final(tape).nodes@,
            rmsnorm_ops(old(tape).nodes@.len() as int, xs@),
        ),
        ys@ == rmsnorm_at(old(tape).nodes@.len() as int, xs@.len()),
{
    let n: usize = xs.len();
    let ghost start = tape.nodes@;
    let squares: Value = dot(tape, xs, xs);
    let ghost n1 = tape.nodes@;
    let count: S = S::from_u64(n as u64);
    let ms: Value = squares.div_const(tape, count);
    let ghost with_ms = tape.nodes@;
    let eps: S = S::ratio(1, EPS_DEN);
    let padded: Value = ms.add_const(tape, eps);
    let ghost with_padded = tape.nodes@;
    let half: S = S::ratio(1, 2);
    let k: S = half.neg();
    let scale: Value = padded.powf(tape, k);
    let ghost n2 = tape.nodes@;
    proof {
        assert(is_minus_half(k));
        assert(is_div_const(n2, squares, count, ms));
        assert(is_add_const(n2, ms, eps, padded));
        assert(is_pow_node(n2, padded, k, scale));
        assert(is_scale_node(n2, ms, scale));
        assert(is_div_const(with_ms, squares, count, ms));
        assert(is_div_num(with_ms, squares, xs@.len(), ms));
        assert(is_add_const(with_padded, ms, eps, padded));
        lemma_norm_order(start, n1, with_ms, with_padded, n2, xs@, squares, ms, padded, scale);
        lemma_follows_none(n2);
    }
    let ghost from = start.len() as int;
    let mut ys: Vec<Value> = Vec::new();
    for i in 0..n
        invariant
            tape.wf(),
            n == xs@.len(),
            all_on(start, xs@),
            extends(start, n2),
            extends(n2, tape.nodes@),
            on(n2, scale),
            n2.len() == start.len() + 2 * n + 2,
            start.len() + 3 * n + 2 <= max_nodes(),
            tape.nodes@.len() == n2.len() + i,
            ys@.len() == i,
            all_on(tape.nodes@, ys@),
            forall|j: int|
                0 <= j < i ==> is_mul_node(tape.nodes@, xs@[j], scale, #[trigger] ys@[j]),
            from == start.len(),
            follows(n2, tape.nodes@, mul_ops(xs@, scale, i as int)),
            ys@ == row_at(from + 2 * n + 2, i as nat),
    {
        let ghost nodes = tape.nodes@;
        assert(on(start, xs@[i as int]));
        let y: Value = xs[i].mul(tape, scale);
        proof {
            lemma_on_extends(nodes, tape.nodes@, ys@);
            assert forall|j: int| 0 <= j < i implies is_mul_node(
                tape.nodes@,
                xs@[j],
                scale,
                #[trigger] ys@[j],
            ) by {
                assert(is_mul_node(nodes, xs@[j], scale, ys@[j]));
            }
            lemma_follows_push(
                n2,
                nodes,
                tape.nodes@,
                mul_ops(xs@, scale, i as int),
                Op::Mul(xs@[i as int], scale),
                y,
            );
            assert(row_at(from + 2 * n + 2, i as nat + 1) =~= row_at(
                from + 2 * n + 2,
                i as nat,
            ).push(y));
        }
        ys.push(y);
    }
    proof {
        let end = tape.nodes@;
        lemma_dot_extends(n1, end, xs@, xs@, squares);
        assert(is_div_const(end, squares, count, ms));
        assert(is_add_const(end, ms, eps, padded));
        assert(is_pow_node(end, padded, k, scale));
        assert(is_scale_node(end, ms, scale));
        assert(is_rmsnorm_nodes_by(end, xs@, ys@, squares, ms, scale));
        lemma_follows_append(
            start,
            n2,
            end,
            factor_ops(from, xs@),
            mul_ops(xs@, scale, n as int),
        );
    }
    ys
}

/// The operations up to the factor of a normalization.
spec fn factor_ops(start: int, xs: Seq<Value>) -> Seq<Op> {
    let n = xs.len() as int;
    dot_ops(start, xs, xs, n).push(Op::DivNum(dot_at(start, n), xs.len())).push(
        Op::AddEps(at(start + 2 * n - 1)),
    ).push(Op::InverseRoot(at(start + 2 * n)))
}

/// The factor of a normalization comes behind the sum of squares, their mean and what keeps
/// it from zero.
proof fn lemma_norm_order<S: Scalar>(
    start: Seq<Node<S>>,
    n1: Seq<Node<S>>,
    n2: Seq<Node<S>>,
    n3: Seq<Node<S>>,
    n4: Seq<Node<S>>,
    xs: Seq<Value>,
    squares: Value,
    ms: Value,
    padded: Value,
    scale: Value,
)
    requires
        follows(start, n1, dot_ops(start.len() as int, xs, xs, xs.len() as int)),
        n1.len() == start.len() + 2 * xs.len() - 1,
        squares == dot_at(start.len() as int, xs.len() as int),
        grows_by_one(n1, n2, ms),
        topological(n2),
        is_op(n2, Op::DivNum(squares, xs.len()), ms),
        grows_by_one(n2, n3, padded),
        topological(n3),
        is_op(n3, Op::AddEps(ms), padded),
        grows_by_one(n3, n4, scale),
        topological(n4),
        n4.len() <= max_nodes(),
        is_op(n4, Op::InverseRoot(padded), scale),
    ensures
        follows(start, n4, factor_ops(start.len() as int, xs)),
        scale == at(start.len() as int + 2 * xs.len() + 1),
{
    let d0 = dot_ops(start.len() as int, xs, xs, xs.len() as int);
    let d1 = d0.push(Op::DivNum(squares, xs.len()));
    let d2 = d1.push(Op::AddEps(ms));
    lemma_follows_push(start, n1, n2, d0, Op::DivNum(squares, xs.len()), ms);
    lemma_follows_push(start, n2, n3, d1, Op::AddEps(ms), padded);
    lemma_follows_push(start, n3, n4, d2, Op::InverseRoot(padded), scale);
}

/// The sums of `a` and `b`, one by one.
pub fn add_all<S: Scalar>(tape: &mut Tape<S>, a: &Vec<Value>, b: &Vec<Value>) -> (ss: Vec<Value>)
    requires
        old(tape).wf(),
        a@.len() == b@.len(),
        all_on(old(tape).nodes@, a@),
        all_on(old(tape).nodes@, b@),
        old(tape).nodes@.len() + a@.len() <= max_nodes(),
    ensures
        final(tape).wf(),
        extends(old(tape).nodes@, final(tape).nodes@),
        final(tape).nodes@.len() == old(tape).nodes@.len() + a@.len(),
        is_add_nodes(final(tape).nodes@, a@, b@, ss@),
        all_on(final(tape).nodes@, ss@),
        follows(old(tape).nodes@, final(tape).nodes@, add_ops(a@, b@, a@.len() as int)),
        ss@ == row_at(old(tape).nodes@.len() as int, a@.len()),
{
    let n: usize = a.len();
    let ghost from = tape.nodes@.len() as int;
    proof {
        lemma_follows_none(tape.nodes@);
    }
    let mut ss: Vec<Value> = Vec::new();
    for i in 0..n
        invariant
            tape.wf(),
            n == a@.len() == b@.len(),
            all_on(old(tape).nodes@, a@),
            all_on(old(tape).nodes@, b@),
            old(tape).nodes@.len() + n <= max_nodes(),
            extends(old(tape).nodes@, tape.nodes@),
            tape.nodes@.len() == old(tape).nodes@.len() + i,
            ss@.len() == i,
            all_on(tape.nodes@, ss@),
            forall|k: int|
                0 <= k < i ==> is_add_node(tape.nodes@, a@[k], b@[k], #[trigger] ss@[k]),
            from == old(tape).nodes@.len(),
            follows(old(tape).nodes@, tape.nodes@, add_ops(a@, b@, i as int)),
            ss@ == row_at(from, i as nat),
    {
        let ghost nodes = tape.nodes@;
        assert(on(old(tape).nodes@, a@[i as int]) && on(old(tape).nodes@, b@[i as int]));
        let s: Value = a[i].add(tape, b[i]);
        proof {
            lemma_on_extends(nodes, tape.nodes@, ss@);
            assert forall|k: int| 0 <= k < i implies is_add_node(
                tape.nodes@,
                a@[k],
                b@[k],
                #[trigger] ss@[k],
            ) by {
                assert(is_add_node(nodes, a@[k], b@[k], ss@[k]));
            }
            lemma_follows_push(
                old(tape).nodes@,
                nodes,
                tape.nodes@,
                add_ops(a@, b@, i as int),
                Op::Add(a@[i as int], b@[i as int]),
                s,
            );
            assert(row_at(from, i as nat + 1) =~= row_at(from, i as nat).push(s));
        }
        ss.push(s);
    }
    ss
}

/// A number with the negative part cut off stays one when the tape grows.
pub proof fn lemma_relu_extends<S: Scalar>(
    nodes: Seq<Node<S>>,
    later: Seq<Node<S>>,
    x: Value,
    r: Value,
)
    requires
        extends(nodes, later),
        is_relu_node(nodes, x, r),
    ensures
        is_relu_node(later, x, r),
{
    let zero = choose|zero: S|
        is_zero(zero) && #[trigger] is_max(data_of(nodes, x), zero, data_of(nodes, r));
    assert(is_max(data_of(later, x), zero, data_of(later, r)));
}

/// `xs` with the negative numbers cut off.
pub fn relu_all<S: Scalar>(tape: &mut Tape<S>, xs: &Vec<Value>) -> (rs: Vec<Value>)
    requires
        old(tape).wf(),
        all_on(old(tape).nodes@, xs@),
        old(tape).nodes@.len() + xs@.len() <= max_nodes(),
    ensures
        final(tape).wf(),
        extends(old(tape).nodes@, final(tape).nodes@),
        final(tape).nodes@.len() == old(tape).nodes@.len() + xs@.len(),
        is_relu_nodes(final(tape).nodes@, xs@, rs@),
        all_on(final(tape).nodes@, rs@),
        follows(old(tape).nodes@, final(tape).nodes@, relu_ops(xs@, xs@.len() as int)),
        rs@ == row_at(old(tape).nodes@.len() as int, xs@.len()),
{
    let n: usize = xs.len();
    let ghost from = tape.nodes@.len() as int;
    proof {
        lemma_follows_none(tape.nodes@);
    }
    let mut rs: Vec<Value> = Vec::new();
    for i in 0..n
        invariant
            tape.wf(),
            n == xs@.len(),
            all_on(old(tape).nodes@, xs@),
            old(tape).nodes@.len() + n <= max_nodes(),
            extends(old(tape).nodes@, tape.nodes@),
            tape.nodes@.len() == old(tape).nodes@.len() + i,
            rs@.len() == i,
            all_on(tape.nodes@, rs@),
            forall|k: int|
                0 <= k < i ==> is_relu_node(tape.nodes@, xs@[k], #[trigger] rs@[k]),
            from == old(tape).nodes@.len(),
            follows(old(tape).nodes@, tape.nodes@, relu_ops(xs@, i as int)),
            rs@ == row_at(from, i as nat),
    {
        let ghost nodes = tape.nodes@;
        assert(on(old(tape).nodes@, xs@[i as int]));
        let r: Value = xs[i].relu(tape);
        proof {
            lemma_on_extends(nodes, tape.nodes@, rs@);
            assert forall|k: int| 0 <= k < i implies is_relu_node(
                tape.nodes@,
                xs@[k],
                #[trigger] rs@[k],
            ) by {
                lemma_relu_extends(nodes, tape.nodes@, xs@[k], rs@[k]);
            }
            lemma_follows_push(
                old(tape).nodes@,
                nodes,
                tape.nodes@,
                relu_ops(xs@, i as int),
                Op::Relu(xs@[i as int]),
                r,
            );
            assert(row_at(from, i as nat + 1) =~= row_at(from, i as nat).push(r));
        }
        rs.push(r);
    }
    rs
}

} // verus!
