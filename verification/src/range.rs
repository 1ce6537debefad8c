//! Shares without large numbers: where exponentials are taken, they are taken of nothing above
//! zero, and at least one of them of zero itself. So none grows out of range, and their sum does
//! not vanish, however large the numbers are.
use vstd::prelude::*;

use crate::exact::{exact, lemma_quotient, total_of};
use crate::graph::{datas_of, is_shifted_exp_node, is_softmax_nodes, is_softmax_nodes_by};
use crate::layout::Ratio;
use crate::motion::nums;
use crate::motion_loss::{lemma_softmax_exact, lemma_total_positive};
use crate::outcomes::heated;
use crate::reduce::{is_max_of, is_running_max, is_shifted_exp, is_softmax, is_softmax_by};
use crate::sample::{is_weight, is_weights, is_weights_by};
use crate::scalar::{is_cast, is_diff, is_exp, is_max, is_neg_infinity, is_quot, Cast, Scalar};
use crate::tape::{data_of, is_div_node, is_exp_node, is_sub_const, Node, Value};
use crate::twin_parts::{
    is_exponential, is_share_of, lemma_shift_cancels, lemma_sum_node_exact, tape_nums,
};
use crate::twin_sample::casts_exactly;

verus! {

/// Arithmetic that is exact but for exponentials of numbers above zero, of which nothing is
/// known.
pub open spec fn exact_below_zero<S: Scalar>(
    val: spec_fn(S) -> real,
    ex: spec_fn(real) -> real,
) -> bool {
    &&& exact(val)
    &&& forall|a: S, r: S| #[trigger]
        is_exp(a, r) && val(a) <= 0 as real ==> val(r) == ex(val(a))
    &&& forall|a: S, b: S, r: S| #[trigger]
        is_max(a, b, r) ==> val(r) == if val(a) >= val(b) {
            val(a)
        } else {
            val(b)
        }
}

/// Whether `ex` is a growing exponential.
pub open spec fn grows(ex: spec_fn(real) -> real) -> bool {
    &&& is_exponential(ex)
    &&& forall|x: real| x <= 0 as real ==> #[trigger] ex(x) <= 1 as real
}

/// Whether what stands for minus infinity is below the numbers `x`.
pub open spec fn starts_below<S: Scalar>(val: spec_fn(S) -> real, x: Seq<S>) -> bool {
    forall|start: S, j: int|
        0 <= j < x.len() && #[trigger] is_neg_infinity(start) ==> val(start) <= val(
            #[trigger] x[j],
        )
}

/// The numbers `e` are between zero and one, and one of them is one.
pub open spec fn peaks_at_one<S>(val: spec_fn(S) -> real, e: Seq<S>) -> bool {
    &&& forall|j: int|
        0 <= j < e.len() ==> val(#[trigger] e[j]) > 0 as real && val(e[j]) <= 1 as real
    &&& exists|j: int| 0 <= j < e.len() && val(#[trigger] e[j]) == 1 as real
}

/// A running maximum is one of the numbers, and no other is above it.
proof fn lemma_running_max<S: Scalar>(
    val: spec_fn(S) -> real,
    ex: spec_fn(real) -> real,
    start: S,
    xs: Seq<S>,
    n: nat,
    r: S,
)
    requires
        exact_below_zero(val, ex),
        n <= xs.len(),
        is_running_max(start, xs, n, r),
    ensures
        val(r) >= val(start),
        forall|j: int| 0 <= j < n ==> val(#[trigger] xs[j]) <= val(r),
        val(r) == val(start) || exists|j: int| 0 <= j < n && val(#[trigger] xs[j]) == val(r),
    decreases n,
{
    if n > 0 {
        let (before, x) = choose|before: S, x: S|
            #![trigger is_max(before, x, r)]
            is_running_max(start, xs, (n - 1) as nat, before) && x == xs[n - 1] && is_max(
                before,
                x,
                r,
            );
        lemma_running_max(val, ex, start, xs, (n - 1) as nat, before);
        assert(is_max(before, x, r));
        if val(before) >= val(x) {
            if val(r) != val(start) {
                let j = choose|j: int| 0 <= j < n - 1 && val(#[trigger] xs[j]) == val(before);
                assert(val(xs[j]) == val(r));
            }
        } else {
            assert(val(xs[n - 1]) == val(r));
        }
    }
}

/// The largest of a row.
proof fn lemma_max_of<S: Scalar>(
    val: spec_fn(S) -> real,
    ex: spec_fn(real) -> real,
    xs: Seq<S>,
    r: S,
)
    requires
        exact_below_zero(val, ex),
        is_max_of(xs, r),
        xs.len() > 0,
        starts_below(val, xs),
    ensures
        forall|j: int| 0 <= j < xs.len() ==> val(#[trigger] xs[j]) <= val(r),
        exists|j: int| 0 <= j < xs.len() && val(#[trigger] xs[j]) == val(r),
{
    let start = choose|start: S|
        is_neg_infinity(start) && #[trigger] is_running_max(start, xs, xs.len(), r);
    lemma_running_max(val, ex, start, xs, xs.len(), r);
    assert(is_neg_infinity(start));
    assert(val(start) <= val(xs[0]) <= val(r));
    if val(r) == val(start) {
        assert(val(xs[0]) == val(r));
    }
}

/// The exponential of zero.
proof fn lemma_exponential_of_zero(ex: spec_fn(real) -> real)
    requires
        is_exponential(ex),
    ensures
        ex(0 as real) == 1 as real,
{
    let (o, e) = (0 as real, ex(0 as real));
    assert(ex(o + o) == ex(o) * ex(o));
    assert(o + o == o);
    assert(e == 1 as real) by (nonlinear_arith)
        requires
            e * e == e,
            e > 0 as real,
    ;
}

/// Exponentials of numbers less the largest.
proof fn lemma_peak(
    ex: spec_fn(real) -> real,
    x: spec_fn(int) -> real,
    e: spec_fn(int) -> real,
    top: real,
    n: nat,
    at: int,
)
    requires
        grows(ex),
        0 <= at < n,
        x(at) == top,
        forall|j: int| 0 <= j < n ==> #[trigger] x(j) <= top,
        forall|j: int| 0 <= j < n ==> #[trigger] e(j) == ex(x(j) - top),
    ensures
        forall|j: int| 0 <= j < n ==> #[trigger] e(j) > 0 as real && e(j) <= 1 as real,
        e(at) == 1 as real,
{
    lemma_exponential_of_zero(ex);
    assert forall|j: int| 0 <= j < n implies #[trigger] e(j) > 0 as real && e(j) <= 1 as real by {
        assert(x(j) <= top);
        assert(ex(x(j) - top) <= 1 as real);
    }
    assert(x(at) - top == 0 as real);
}

/// The softmax of a row gives the shares of the exponentials, whatever the exponentials of
/// numbers above zero would be. It divides numbers of which the largest is one.
pub proof fn law_shares_need_no_large_exponentials<S: Scalar>(
    val: spec_fn(S) -> real,
    ex: spec_fn(real) -> real,
    s: Seq<S>,
    ps: Seq<S>,
    i: int,
)
    requires
        exact_below_zero(val, ex),
        grows(ex),
        is_softmax(s, ps),
        starts_below(val, s),
        0 <= i < s.len(),
    ensures
        is_share_of(ex, nums(val, s), s.len(), i, val(ps[i])),
        exists|e: Seq<S>, sum: S|
            e.len() == s.len() && peaks_at_one(val, e) && val(sum) == total_of(
                nums(val, e),
                s.len(),
            ) && #[trigger] is_quot(e[i], sum, ps[i]),
{
    let (shift, e, sum) = choose|shift: S, e: Seq<S>, sum: S| #[trigger]
        is_softmax_by(s, ps, shift, e, sum);
    lemma_softmax_exact(val, s, ps, shift, e, sum);
    lemma_max_of(val, ex, s, shift);
    let (x, es, n) = (nums(val, s), nums(val, e), s.len());
    assert forall|j: int| 0 <= j < n implies #[trigger] es(j) == ex(x(j) - val(shift)) by {
        assert(is_shifted_exp(s[j], shift, e[j]));
        let diff = choose|diff: S| #[trigger] is_diff(s[j], shift, diff) && is_exp(diff, e[j]);
        assert(is_exp(diff, e[j]));
        assert(val(s[j]) <= val(shift));
    }
    assert forall|j: int| 0 <= j < n implies #[trigger] x(j) <= val(shift) by {
        assert(val(s[j]) <= val(shift));
    }
    let at = choose|j: int| 0 <= j < n && val(#[trigger] s[j]) == val(shift);
    lemma_peak(ex, x, es, val(shift), n, at);
    assert forall|j: int| 0 <= j < e.len() implies val(#[trigger] e[j]) > 0 as real && val(e[j])
        <= 1 as real by {
        assert(es(j) <= 1 as real);
    }
    assert(val(e[at]) == 1 as real);
    assert(nums(val, ps)(i) * val(sum) == es(i));
    lemma_shift_cancels(ex, x, es, val(shift), n, i, val(ps[i]));
    assert(is_quot(e[i], sum, ps[i]));
}

/// The softmax on the tape does so too.
pub proof fn law_tape_shares_need_no_large_exponentials<S: Scalar>(
    val: spec_fn(S) -> real,
    ex: spec_fn(real) -> real,
    nodes: Seq<Node<S>>,
    xs: Seq<Value>,
    ps: Seq<Value>,
    i: int,
)
    requires
        exact_below_zero(val, ex),
        grows(ex),
        is_softmax_nodes(nodes, xs, ps),
        starts_below(val, datas_of(nodes, xs)),
        0 <= i < xs.len(),
    ensures
        is_share_of(ex, tape_nums(val, nodes, xs), xs.len(), i, val(data_of(nodes, ps[i]))),
        exists|es: Seq<Value>, sum: Value|
            es.len() == xs.len() && peaks_at_one(val, datas_of(nodes, es)) && val(
                data_of(nodes, sum),
            ) == total_of(tape_nums(val, nodes, es), xs.len()) && #[trigger] is_div_node(
                nodes,
                es[i],
                sum,
                ps[i],
            ),
{
    let (shift, es, sum) = choose|shift: S, es: Seq<Value>, sum: Value| #[trigger]
        is_softmax_nodes_by(nodes, xs, ps, shift, es, sum);
    let (x, e, n) = (tape_nums(val, nodes, xs), tape_nums(val, nodes, es), xs.len());
    let ds = datas_of(nodes, xs);
    lemma_max_of(val, ex, ds, shift);
    lemma_sum_node_exact(val, nodes, es, sum);
    assert forall|j: int| 0 <= j < n implies #[trigger] x(j) <= val(shift) by {
        assert(val(ds[j]) <= val(shift));
    }
    assert forall|j: int| 0 <= j < n implies #[trigger] e(j) == ex(x(j) - val(shift)) by {
        assert(is_shifted_exp_node(nodes, xs[j], shift, es[j]));
        let diff = choose|diff: Value| #[trigger]
            is_sub_const(nodes, xs[j], shift, diff) && is_exp_node(nodes, diff, es[j]);
        assert(is_diff(data_of(nodes, xs[j]), shift, data_of(nodes, diff)));
        assert(is_exp(data_of(nodes, diff), data_of(nodes, es[j])));
        assert(x(j) <= val(shift));
    }
    let at = choose|j: int| 0 <= j < n && val(#[trigger] ds[j]) == val(shift);
    assert(x(at) == val(shift));
    lemma_peak(ex, x, e, val(shift), n, at);
    let de = datas_of(nodes, es);
    assert forall|j: int| 0 <= j < de.len() implies val(#[trigger] de[j]) > 0 as real && val(de[j])
        <= 1 as real by {
        assert(e(j) <= 1 as real);
    }
    assert(val(de[at]) == 1 as real);
    lemma_total_positive(e, n);
    assert(is_div_node(nodes, es[i], sum, ps[i]));
    lemma_quotient(e(i), total_of(e, n));
    lemma_shift_cancels(ex, x, e, val(shift), n, i, val(data_of(nodes, ps[i])));
}

/// The weights of sampling are the exponentials of the logits over the temperature, up to a
/// factor, whatever the exponentials of numbers above zero would be. The largest of them is one.
pub proof fn law_weights_need_no_large_exponentials<S: Cast<W>, W: Scalar>(
    p: spec_fn(W) -> real,
    q: spec_fn(S) -> real,
    ex: spec_fn(real) -> real,
    row: Seq<S>,
    temperature: Ratio,
    weights: Seq<W>,
) -> (g: real)
    requires
        exact_below_zero(p, ex),
        exact_below_zero(q, ex),
        grows(ex),
        casts_exactly::<S, W>(p, q),
        temperature.num > 0,
        temperature.den > 0,
        row.len() > 0,
        starts_below(q, row),
        is_weights(row, temperature, weights),
    ensures
        g > 0 as real,
        weights.len() == row.len(),
        peaks_at_one(p, weights),
        forall|v: int|
            0 <= v < row.len() ==> p(#[trigger] weights[v]) == g * heated(
                ex,
                temperature,
                nums(q, row),
            )(v),
{
    let (top, shift, t) = choose|top: S, shift: W, t: W| #[trigger]
        is_weights_by(row, temperature, weights, top, shift, t);
    let (temp, n) = (temperature.num as real / temperature.den as real, row.len());
    assert(temp > 0 as real) by (nonlinear_arith)
        requires
            temp == temperature.num as real / temperature.den as real,
            temperature.num > 0,
            temperature.den > 0,
    ;
    assert(p(t) == temp);
    lemma_max_of(q, ex, row, top);
    let z = p(shift);
    assert(z == q(top));
    let (x, w) = (|v: int| q(row[v]) / temp, nums(p, weights));
    let peak = z / temp;
    assert forall|v: int| 0 <= v < n implies #[trigger] x(v) <= peak by {
        let l = q(row[v]);
        assert(l <= z);
        assert(l / temp <= z / temp) by (nonlinear_arith)
            requires
                l <= z,
                temp > 0 as real,
        ;
    }
    assert forall|v: int| 0 <= v < n implies #[trigger] w(v) == ex(x(v) - peak) by {
        assert(is_weight(row[v], shift, t, weights[v]));
        let (wide, diff, scaled) = choose|wide: W, diff: W, scaled: W|
            #![trigger is_diff(wide, shift, diff), is_quot(diff, t, scaled)]
            is_cast(row[v], wide) && is_diff(wide, shift, diff) && is_quot(diff, t, scaled)
                && is_exp(scaled, weights[v]);
        assert(is_cast(row[v], wide) && is_exp(scaled, weights[v]));
        let l = q(row[v]);
        assert(p(wide) == l);
        assert((l - z) / temp == l / temp - z / temp) by (nonlinear_arith)
            requires
                temp > 0 as real,
        ;
        assert(x(v) <= peak);
    }
    let at = choose|j: int| 0 <= j < n && q(#[trigger] row[j]) == q(top);
    assert(x(at) == peak);
    lemma_peak(ex, x, w, peak, n, at);
    assert forall|j: int| 0 <= j < weights.len() implies p(#[trigger] weights[j]) > 0 as real && p(
        weights[j],
    ) <= 1 as real by {
        assert(w(j) <= 1 as real);
    }
    assert(p(weights[at]) == 1 as real) by {
        assert(w(at) == 1 as real);
    }
    let g = ex(-peak);
    assert forall|v: int| 0 <= v < n implies p(#[trigger] weights[v]) == g * heated(
        ex,
        temperature,
        nums(q, row),
    )(v) by {
        assert(w(v) == ex(x(v) - peak));
        let (a, b) = (x(v), -peak);
        assert(ex(a + b) == ex(a) * ex(b));
        assert(a + b == a - peak);
        let (i, j) = (ex(a), ex(b));
        assert(i * j == j * i) by (nonlinear_arith);
    }
    g
}

} // verus!
