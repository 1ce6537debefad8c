//! What the tensor form of the network computes, on a framework whose tensors are exact: for
//! every sequence and every position a function of real numbers.
//!
//! Masked positions are not left out but given a score far below every other, so that they weigh
//! next to nothing.
use vstd::arithmetic::div_mod::{lemma_fundamental_div_mod, lemma_mod_bound};
use vstd::prelude::*;

use crate::descent::is_root_of;
use crate::exact::{exact, lemma_quotient, lemma_total_same, lemma_total_scale, total_of};
use crate::function::{closeness, cut_off, is_root_function, plus, times, unit_scale, Block, Net};
use crate::layout::Cfg;
use crate::motion_loss::lemma_total_positive;
use crate::scalar::{is_neg, is_num, is_ratio, is_sqrt, Scalar};
use crate::tensor::{
    are_tensor_layers, gpt, is_dim, is_divide, is_entries_at, is_first_rows, is_floor_number,
    is_logsumexp_last, is_matmul, is_mean_last, is_minus, is_multiply, is_number, is_permuted,
    is_plus, is_ratio_number, is_root_number, is_rows_at, is_rsqrt, is_shaped3, is_shaped4,
    is_softmax_last, is_split, is_sum_all, is_tensor_attention, is_tensor_embed, is_tensor_gpt,
    is_tensor_gpt_by, is_tensor_layer, is_tensor_layer_by, is_tensor_linear, is_tensor_loss,
    is_tensor_norm, is_tensor_relu, is_transposed, is_triangle, is_where, loss_fn, tensor_count,
    Tensor, TensorLayer, FLOOR,
};
use crate::twin_parts::is_exponential;

verus! {

/// How tensors are read: the lengths of their axes, and their numbers by up to four places, of
/// which the last ones count. Along an axis that a tensor lacks, or that has the length one, all
/// places have the same number.
#[verifier::reject_recursive_types(T)]
pub struct Reading<T> {
    pub axes: spec_fn(T) -> Seq<int>,
    pub at: spec_fn(T, int, int, int, int) -> real,
}

/// Whether a tensor with the axes `small` can be combined with one with the axes `large`.
pub open spec fn fits_on(small: Seq<int>, large: Seq<int>) -> bool {
    &&& small.len() <= large.len()
    &&& forall|i: int|
        0 <= i < small.len() ==> #[trigger] small[i] == 1 || small[i] == large[i + large.len()
            - small.len()]
}

/// `r` is made of `a` and `b`, number by number.
pub open spec fn combines<T>(
    rd: Reading<T>,
    a: T,
    b: T,
    r: T,
    op: spec_fn(real, real) -> real,
) -> bool {
    fits_on((rd.axes)(b), (rd.axes)(a)) ==> {
        &&& (rd.axes)(r) == (rd.axes)(a)
        &&& forall|i: int, j: int, k: int, l: int| #[trigger]
            (rd.at)(r, i, j, k, l) == op((rd.at)(a, i, j, k, l), (rd.at)(b, i, j, k, l))
    }
}

/// `r` is made of `a`, number by number.
pub open spec fn changes_each<T>(rd: Reading<T>, a: T, r: T, op: spec_fn(real) -> real) -> bool {
    &&& (rd.axes)(r) == (rd.axes)(a)
    &&& forall|i: int, j: int, k: int, l: int| #[trigger]
        (rd.at)(r, i, j, k, l) == op((rd.at)(a, i, j, k, l))
}

/// `r` has one number for each row of `a`.
pub open spec fn folds<T>(
    rd: Reading<T>,
    a: T,
    r: T,
    op: spec_fn(spec_fn(int) -> real, nat) -> real,
) -> bool {
    (rd.axes)(a).len() > 0 && (rd.axes)(a).last() > 0 ==> {
        &&& (rd.axes)(r) == (rd.axes)(a).drop_last().push(1)
        &&& forall|i: int, j: int, k: int, l: int| #[trigger]
            (rd.at)(r, i, j, k, l) == op(
                |m: int| (rd.at)(a, i, j, k, m),
                (rd.axes)(a).last() as nat,
            )
    }
}

/// The sum of the exponentials of a row.
pub open spec fn weight_of(
    ex: spec_fn(real) -> real,
    x: spec_fn(int) -> real,
    n: nat,
) -> real {
    total_of(|m: int| ex(x(m)), n)
}

/// `r` has the shares of the exponentials in the rows of `a`.
pub open spec fn shares_rows<T>(
    rd: Reading<T>,
    ex: spec_fn(real) -> real,
    a: T,
    r: T,
) -> bool {
    (rd.axes)(a).len() > 0 && (rd.axes)(a).last() > 0 ==> {
        &&& (rd.axes)(r) == (rd.axes)(a)
        &&& forall|i: int, j: int, k: int, l: int|
            0 <= l < (rd.axes)(a).last() ==> #[trigger] (rd.at)(r, i, j, k, l) == ex(
                (rd.at)(a, i, j, k, l),
            ) / weight_of(ex, |m: int| (rd.at)(a, i, j, k, m), (rd.axes)(a).last() as nat)
    }
}

/// `r` is the product of the matrices in the last two axes of `a` and `b`.
pub open spec fn multiplies<T>(rd: Reading<T>, a: T, b: T, r: T) -> bool {
    let (x, y) = ((rd.axes)(a), (rd.axes)(b));
    x.len() >= 2 && y.len() >= 2 && x.last() >= 0 && x.last() == y[y.len() - 2] && (y.len() == 2
        || (y.len() == x.len() && y.take(y.len() - 2) == x.take(x.len() - 2))) ==> {
        &&& (rd.axes)(r) == x.drop_last().push(y.last())
        &&& forall|i: int, j: int, k: int, l: int| #[trigger]
            (rd.at)(r, i, j, k, l) == total_of(
                |m: int| (rd.at)(a, i, j, k, m) * (rd.at)(b, i, j, m, l),
                x.last() as nat,
            )
    }
}

/// The place along an axis, where `p` says which axis each place goes along.
pub open spec fn place_along(axis: int, p: (int, int, int), x: (int, int, int, int)) -> int {
    if p.0 == axis {
        x.0
    } else if p.1 == axis {
        x.1
    } else if p.2 == axis {
        x.2
    } else {
        x.3
    }
}

/// `r` is `a` with its axes in another order.
pub open spec fn turns<T>(
    rd: Reading<T>,
    a: T,
    p0: int,
    p1: int,
    p2: int,
    p3: int,
    r: T,
) -> bool {
    let x = (rd.axes)(a);
    let p = (p0, p1, p2);
    x.len() == 4 && seq![p0, p1, p2, p3].no_duplicates() && 0 <= p0 < 4 && 0 <= p1 < 4 && 0 <= p2
        < 4 && 0 <= p3 < 4 ==> {
        &&& (rd.axes)(r) == seq![x[p0], x[p1], x[p2], x[p3]]
        &&& forall|i: int, j: int, k: int, l: int| #[trigger]
            (rd.at)(r, i, j, k, l) == (rd.at)(
                a,
                place_along(0, p, (i, j, k, l)),
                place_along(1, p, (i, j, k, l)),
                place_along(2, p, (i, j, k, l)),
                place_along(3, p, (i, j, k, l)),
            )
    }
}

/// `r` is the matrix `a` with rows for columns.
pub open spec fn mirrors<T>(rd: Reading<T>, a: T, r: T) -> bool {
    let x = (rd.axes)(a);
    x.len() == 2 ==> {
        &&& (rd.axes)(r) == seq![x[1], x[0]]
        &&& forall|i: int, j: int, k: int, l: int| #[trigger]
            (rd.at)(r, i, j, k, l) == (rd.at)(a, 0, 0, l, k)
    }
}

/// `r` is `a` with the last axis cut into `h` parts of `d`.
pub open spec fn cuts<T>(rd: Reading<T>, a: T, b: int, t: int, h: int, d: int, r: T) -> bool {
    h > 0 && d > 0 && (rd.axes)(a) == seq![b, t, h * d] ==> {
        &&& (rd.axes)(r) == seq![b, t, h, d]
        &&& forall|i: int, j: int, k: int, l: int|
            0 <= k < h && 0 <= l < d ==> #[trigger] (rd.at)(r, i, j, k, l) == (rd.at)(
                a,
                0,
                i,
                j,
                k * d + l,
            )
    }
}

/// `r` is `a` with its last two axes, of `h` and `d` places, as one.
pub open spec fn joins<T>(
    rd: Reading<T>,
    a: T,
    b: int,
    t: int,
    h: int,
    d: int,
    r: T,
) -> bool {
    h > 0 && d > 0 && (rd.axes)(a) == seq![b, t, h, d] ==> {
        &&& (rd.axes)(r) == seq![b, t, h * d]
        &&& forall|z: int, i: int, j: int, m: int|
            0 <= m < h * d ==> #[trigger] (rd.at)(r, z, i, j, m) == (rd.at)(
                a,
                i,
                j,
                m / d,
                m % d,
            )
    }
}

/// `r` is the matrix `a` with one more axis, of the length one.
pub open spec fn widens<T>(rd: Reading<T>, a: T, b: int, t: int, r: T) -> bool {
    (rd.axes)(a) == seq![b, t] ==> {
        &&& (rd.axes)(r) == seq![b, t, 1]
        &&& forall|z: int, i: int, j: int, l: int| #[trigger]
            (rd.at)(r, z, i, j, l) == (rd.at)(a, 0, 0, i, j)
    }
}

/// `r` has the rows of `a` that `ids` names.
pub open spec fn looks_up<T>(rd: Reading<T>, a: T, ids: T, r: T) -> bool {
    let (x, y) = ((rd.axes)(a), (rd.axes)(ids));
    x.len() == 2 && y.len() == 2 ==> {
        &&& (rd.axes)(r) == seq![y[0], y[1], x[1]]
        &&& forall|i: int, j: int, k: int, l: int, n: int|
            #![trigger (rd.at)(r, i, j, k, l), (rd.at)(a, 0, 0, n, l)]
            (rd.at)(ids, 0, 0, j, k) == n as real && 0 <= n < x[0] ==> (rd.at)(r, i, j, k, l)
                == (rd.at)(a, 0, 0, n, l)
    }
}

/// `r` has the first `n` rows of `a`.
pub open spec fn starts_with<T>(rd: Reading<T>, a: T, n: int, r: T) -> bool {
    let x = (rd.axes)(a);
    x.len() == 2 && 0 <= n <= x[0] ==> {
        &&& (rd.axes)(r) == seq![n, x[1]]
        &&& forall|i: int, j: int, k: int, l: int|
            0 <= k < n ==> #[trigger] (rd.at)(r, i, j, k, l) == (rd.at)(a, 0, 0, k, l)
    }
}

/// `r` has the entry of each row of `a` that `ids` names.
pub open spec fn picks<T>(rd: Reading<T>, a: T, ids: T, r: T) -> bool {
    let (x, y) = ((rd.axes)(a), (rd.axes)(ids));
    x.len() == 3 && y == seq![x[0], x[1], 1] ==> {
        &&& (rd.axes)(r) == y
        &&& forall|i: int, j: int, k: int, l: int, n: int|
            #![trigger (rd.at)(r, i, j, k, l), (rd.at)(a, i, j, k, n)]
            (rd.at)(ids, i, j, k, l) == n as real && 0 <= n < x[2] ==> (rd.at)(r, i, j, k, l)
                == (rd.at)(a, i, j, k, n)
    }
}

/// `r` has one up to the diagonal, zero behind it.
pub open spec fn marks<T>(rd: Reading<T>, n: int, r: T) -> bool {
    &&& (rd.axes)(r) == seq![n, n]
    &&& forall|i: int, j: int, k: int, l: int|
        0 <= k < n && 0 <= l < n ==> #[trigger] (rd.at)(r, i, j, k, l) == if l <= k {
            1 as real
        } else {
            0 as real
        }
}

/// `r` is `a` where `mask` is set, `other` elsewhere.
pub open spec fn masks<T>(rd: Reading<T>, a: T, mask: T, other: T, r: T) -> bool {
    fits_on((rd.axes)(mask), (rd.axes)(a)) && fits_on((rd.axes)(other), (rd.axes)(a)) ==> {
        &&& (rd.axes)(r) == (rd.axes)(a)
        &&& forall|i: int, j: int, k: int, l: int| #[trigger]
            (rd.at)(r, i, j, k, l) == if (rd.at)(mask, i, j, k, l) != 0 as real {
                (rd.at)(a, i, j, k, l)
            } else {
                (rd.at)(other, i, j, k, l)
            }
    }
}

/// `r` is the number `x`.
pub open spec fn is_one_number<T>(rd: Reading<T>, x: real, r: T) -> bool {
    &&& (rd.axes)(r).len() == 0
    &&& forall|i: int, j: int, k: int, l: int| #[trigger] (rd.at)(r, i, j, k, l) == x
}

/// `r` is the sum of the numbers of `a`, which has one number per position.
pub open spec fn adds_up<T>(rd: Reading<T>, a: T, r: T) -> bool {
    let x = (rd.axes)(a);
    x.len() == 3 && x[2] == 1 && x[0] >= 0 && x[1] >= 0 ==> is_one_number(
        rd,
        total_of(
            |i: int| total_of(|j: int| (rd.at)(a, 0, i, j, 0), x[1] as nat),
            x[0] as nat,
        ),
        r,
    )
}

/// Whether the operations of a framework that take one or two tensors to one of the same axes
/// are exact.
pub open spec fn exact_each<S: Scalar, T: Tensor<S>>(
    val: spec_fn(S) -> real,
    rt: spec_fn(real) -> real,
    rd: Reading<T>,
) -> bool {
    &&& forall|x: S, r: T| #[trigger] is_number::<S, T>(x, r) ==> is_one_number(rd, val(x), r)
    &&& forall|a: T, b: T, r: T| #[trigger]
        is_multiply::<S, T>(a, b, r) ==> combines(rd, a, b, r, |x: real, y: real| x * y)
    &&& forall|a: T, b: T, r: T| #[trigger]
        is_plus::<S, T>(a, b, r) ==> combines(rd, a, b, r, |x: real, y: real| x + y)
    &&& forall|a: T, b: T, r: T| #[trigger]
        is_minus::<S, T>(a, b, r) ==> combines(rd, a, b, r, |x: real, y: real| x - y)
    &&& forall|a: T, b: T, r: T| #[trigger]
        is_divide::<S, T>(a, b, r) ==> combines(rd, a, b, r, |x: real, y: real| x / y)
    &&& forall|a: T, mask: T, other: T, r: T| #[trigger]
        is_where::<S, T>(a, mask, other, r) ==> masks(rd, a, mask, other, r)
    &&& forall|a: T, r: T| #[trigger]
        is_rsqrt::<S, T>(a, r) ==> changes_each(rd, a, r, |x: real| 1 as real / rt(x))
    &&& forall|a: T, r: T| #[trigger]
        is_tensor_relu::<S, T>(a, r) ==> changes_each(
            rd,
            a,
            r,
            |x: real|
                if x > 0 as real {
                    x
                } else {
                    0 as real
                },
        )
}

/// Whether the operations of a framework that work on rows and matrices are exact.
pub open spec fn exact_rows<S: Scalar, T: Tensor<S>>(
    ex: spec_fn(real) -> real,
    lg: spec_fn(real) -> real,
    rd: Reading<T>,
) -> bool {
    &&& forall|a: T, b: T, r: T| #[trigger] is_matmul::<S, T>(a, b, r) ==> multiplies(rd, a, b, r)
    &&& forall|a: T, r: T| #[trigger]
        is_mean_last::<S, T>(a, r) ==> folds(
            rd,
            a,
            r,
            |x: spec_fn(int) -> real, n: nat| total_of(x, n) / n as real,
        )
    &&& forall|a: T, r: T| #[trigger]
        is_logsumexp_last::<S, T>(a, r) ==> folds(
            rd,
            a,
            r,
            |x: spec_fn(int) -> real, n: nat| lg(weight_of(ex, x, n)),
        )
    &&& forall|a: T, r: T| #[trigger]
        is_softmax_last::<S, T>(a, r) ==> shares_rows(rd, ex, a, r)
    &&& forall|a: T, r: T| #[trigger] is_sum_all::<S, T>(a, r) ==> adds_up(rd, a, r)
}

/// Whether the operations of a framework that move numbers are exact.
pub open spec fn exact_moves<S: Scalar, T: Tensor<S>>(rd: Reading<T>) -> bool {
    &&& forall|a: T, axis: usize, n: i32| #[trigger]
        is_dim::<S, T>(a, axis, n) && axis < (rd.axes)(a).len() ==> n == (rd.axes)(a)[axis as int]
    &&& forall|n: i32, r: T| #[trigger] is_triangle::<S, T>(n, r) ==> marks(rd, n as int, r)
    &&& forall|a: T, r: T| #[trigger] is_transposed::<S, T>(a, r) ==> mirrors(rd, a, r)
    &&& forall|a: T, i: i32, j: i32, k: i32, l: i32, r: T| #[trigger]
        is_permuted::<S, T>(a, i, j, k, l, r) ==> turns(
            rd,
            a,
            i as int,
            j as int,
            k as int,
            l as int,
            r,
        )
    &&& forall|a: T, b: i32, t: i32, h: i32, d: i32, r: T| #[trigger]
        is_shaped4::<S, T>(a, b, t, h, d, r) ==> cuts(
            rd,
            a,
            b as int,
            t as int,
            h as int,
            d as int,
            r,
        )
    &&& forall|a: T, b: i32, t: i32, c: i32, r: T, h: int, d: int|
        #![trigger is_shaped3::<S, T>(a, b, t, c, r), joins(rd, a, b as int, t as int, h, d, r)]
        is_shaped3::<S, T>(a, b, t, c, r) && h * d == c ==> joins(
            rd,
            a,
            b as int,
            t as int,
            h,
            d,
            r,
        )
    &&& forall|a: T, b: i32, t: i32, r: T| #[trigger]
        is_shaped3::<S, T>(a, b, t, 1, r) ==> widens(rd, a, b as int, t as int, r)
    &&& forall|a: T, ids: T, r: T| #[trigger]
        is_rows_at::<S, T>(a, ids, r) ==> looks_up(rd, a, ids, r)
    &&& forall|a: T, n: i32, r: T| #[trigger]
        is_first_rows::<S, T>(a, n, r) ==> starts_with(rd, a, n as int, r)
    &&& forall|a: T, ids: T, r: T| #[trigger]
        is_entries_at::<S, T>(a, ids, r) ==> picks(rd, a, ids, r)
}

/// Tensor `x` has, for `b` sequences of `t` positions, the `c` numbers that `f` says.
pub open spec fn tells_rows<T>(
    rd: Reading<T>,
    x: T,
    b: int,
    t: int,
    c: int,
    f: spec_fn(int, int) -> spec_fn(int) -> real,
) -> bool {
    &&& (rd.axes)(x) == seq![b, t, c]
    &&& forall|z: int, i: int, j: int, l: int|
        0 <= i < b && 0 <= j < t && 0 <= l < c ==> #[trigger] (rd.at)(x, z, i, j, l) == f(i, j)(l)
}

/// A tensor that is a matrix, as numbers.
pub open spec fn matrix_at<T>(rd: Reading<T>, w: T) -> spec_fn(int, int) -> real {
    |i: int, j: int| (rd.at)(w, 0, 0, i, j)
}

/// The normalization of rows.
proof fn lemma_tells_norm<S: Scalar, T: Tensor<S>>(
    val: spec_fn(S) -> real,
    ex: spec_fn(real) -> real,
    lg: spec_fn(real) -> real,
    rt: spec_fn(real) -> real,
    rd: Reading<T>,
    x: T,
    r: T,
    b: int,
    t: int,
    c: int,
    f: spec_fn(int, int) -> spec_fn(int) -> real,
)
    requires
        exact(val),
        is_root_function(rt),
        exact_each::<S, T>(val, rt, rd),
        exact_rows::<S, T>(ex, lg, rd),
        c > 0,
        tells_rows(rd, x, b, t, c, f),
        is_tensor_norm::<S, T>(x, r),
    ensures
        tells_rows(rd, r, b, t, c, |i: int, j: int| unit_scale(rt, f(i, j), c as nat)),
{
    let (square, ms, eps, padded, inv) = choose|square: T, ms: T, eps: T, padded: T, inv: T|
        #![trigger is_mean_last::<S, T>(square, ms), is_plus::<S, T>(ms, eps, padded), is_rsqrt::<S, T>(padded, inv)]
        is_multiply::<S, T>(x, x, square) && is_mean_last::<S, T>(square, ms) && is_ratio_number::<
            S,
            T,
        >(1, 100_000, eps) && is_plus::<S, T>(ms, eps, padded) && is_rsqrt::<S, T>(padded, inv)
            && is_multiply::<S, T>(x, inv, r);
    let e = choose|e: S| is_ratio(1, 100_000, e) && #[trigger] is_number::<S, T>(e, eps);
    assert(combines(rd, x, x, square, |x: real, y: real| x * y));
    assert(combines(rd, ms, eps, padded, |x: real, y: real| x + y));
    assert(combines(rd, x, inv, r, |x: real, y: real| x * y));
    assert((rd.axes)(ms) =~= seq![b, t, 1]);
    assert(fits_on((rd.axes)(inv), (rd.axes)(x)));
    let g = |i: int, j: int| unit_scale(rt, f(i, j), c as nat);
    let tiny = 1 as real / 100_000 as real;
    assert(val(e) == tiny);
    assert forall|z: int, i: int, j: int, l: int|
        0 <= i < b && 0 <= j < t && 0 <= l < c implies #[trigger] (rd.at)(r, z, i, j, l) == g(
        i,
        j,
    )(l) by {
        let row = f(i, j);
        let (p, q) = (|m: int| (rd.at)(square, z, i, j, m), |m: int| row(m) * row(m));
        assert forall|m: int| 0 <= m < c implies #[trigger] p(m) == q(m) by {
            assert((rd.at)(x, z, i, j, m) == row(m));
        }
        lemma_total_same(p, q, c as nat);
        lemma_squares(row, c as nat);
        let total = total_of(q, c as nat);
        let s = total / c as real + tiny;
        assert((rd.at)(ms, z, i, j, l) == total / c as real);
        assert((rd.at)(padded, z, i, j, l) == s);
        let n = c as real;
        assert(s > 0 as real) by (nonlinear_arith)
            requires
                total >= 0 as real,
                n > 0 as real,
                s == total / n + tiny,
                tiny > 0 as real,
        ;
        let (root, v) = (rt(s), row(l));
        assert(is_root_of(s, root));
        assert(root > 0 as real) by (nonlinear_arith)
            requires
                root >= 0 as real,
                root * root == s,
                s > 0 as real,
        ;
        assert((rd.at)(inv, z, i, j, l) == 1 as real / root);
        assert((rd.at)(x, z, i, j, l) == v);
        assert(v * (1 as real / root) == v / root) by (nonlinear_arith)
            requires
                root > 0 as real,
        ;
    }
}

/// Squares add up to no less than zero.
proof fn lemma_squares(x: spec_fn(int) -> real, n: nat)
    ensures
        total_of(|m: int| x(m) * x(m), n) >= 0 as real,
    decreases n,
{
    if n > 0 {
        lemma_squares(x, (n - 1) as nat);
        let v = x(n - 1);
        assert(v * v >= 0 as real) by (nonlinear_arith);
    }
}

/// A product with a matrix.
proof fn lemma_tells_linear<S: Scalar, T: Tensor<S>>(
    ex: spec_fn(real) -> real,
    lg: spec_fn(real) -> real,
    rd: Reading<T>,
    x: T,
    w: T,
    r: T,
    b: int,
    t: int,
    c: int,
    n: int,
    f: spec_fn(int, int) -> spec_fn(int) -> real,
)
    requires
        exact_rows::<S, T>(ex, lg, rd),
        exact_moves::<S, T>(rd),
        c > 0,
        tells_rows(rd, x, b, t, c, f),
        (rd.axes)(w) == seq![n, c],
        is_tensor_linear::<S, T>(x, w, r),
    ensures
        tells_rows(rd, r, b, t, n, |i: int, j: int| times(matrix_at(rd, w), f(i, j), c as nat)),
{
    let wt = choose|wt: T| #[trigger]
        is_transposed::<S, T>(w, wt) && #[trigger] is_matmul::<S, T>(x, wt, r);
    assert(mirrors(rd, w, wt));
    assert((rd.axes)(wt) =~= seq![c, n]);
    assert(multiplies(rd, x, wt, r));
    assert((rd.axes)(r) =~= seq![b, t, n]);
    let m = matrix_at(rd, w);
    let g = |i: int, j: int| times(m, f(i, j), c as nat);
    assert forall|z: int, i: int, j: int, l: int|
        0 <= i < b && 0 <= j < t && 0 <= l < n implies #[trigger] (rd.at)(r, z, i, j, l) == g(
        i,
        j,
    )(l) by {
        let row = f(i, j);
        let (p, q) = (
            |k: int| (rd.at)(x, z, i, j, k) * (rd.at)(wt, z, i, k, l),
            |k: int| m(l, k) * row(k),
        );
        assert forall|k: int| 0 <= k < c implies #[trigger] p(k) == q(k) by {
            assert((rd.at)(x, z, i, j, k) == row(k));
            assert((rd.at)(wt, z, i, k, l) == m(l, k));
            let (u, v) = (row(k), m(l, k));
            assert(u * v == v * u) by (nonlinear_arith);
        }
        lemma_total_same(p, q, c as nat);
        assert((rd.at)(r, z, i, j, l) == total_of(p, c as nat));
    }
}

/// How much position `t` heeds position `u`: not at all where that comes later, which is said by
/// a score far below every other.
pub open spec fn heed(
    rt: spec_fn(real) -> real,
    d: nat,
    h: int,
    q: spec_fn(int) -> real,
    k: spec_fn(int) -> real,
    t: int,
    u: int,
) -> real {
    if u <= t {
        closeness(rt, d, h, q, k)
    } else {
        -(1_000_000_000 as real)
    }
}

/// The scores of all positions.
pub open spec fn heeds(
    rt: spec_fn(real) -> real,
    d: nat,
    h: int,
    q: spec_fn(int) -> real,
    k: spec_fn(int) -> spec_fn(int) -> real,
    t: int,
) -> spec_fn(int) -> real {
    |u: int| heed(rt, d, h, q, k(u), t, u)
}

/// What position `t` of `len` gathers from the values: in every head their mean, in which the
/// higher scores weigh exponentially more.
pub open spec fn gather_low(
    ex: spec_fn(real) -> real,
    rt: spec_fn(real) -> real,
    d: nat,
    q: spec_fn(int) -> real,
    k: spec_fn(int) -> spec_fn(int) -> real,
    v: spec_fn(int) -> spec_fn(int) -> real,
    t: int,
    len: nat,
) -> spec_fn(int) -> real {
    |col: int|
        total_of(|u: int| ex(heeds(rt, d, col / d as int, q, k, t)(u)) * v(u)(col), len)
            / weight_of(ex, heeds(rt, d, col / d as int, q, k, t), len)
}

/// Position `t` after attention.
pub open spec fn attended_low(
    ex: spec_fn(real) -> real,
    rt: spec_fn(real) -> real,
    b: Block,
    c: nat,
    d: nat,
    x: spec_fn(int) -> spec_fn(int) -> real,
    t: int,
    len: nat,
) -> spec_fn(int) -> real {
    plus(
        x(t),
        times(
            b.o,
            gather_low(
                ex,
                rt,
                d,
                times(b.q, unit_scale(rt, x(t), c), c),
                |u: int| times(b.k, unit_scale(rt, x(u), c), c),
                |u: int| times(b.v, unit_scale(rt, x(u), c), c),
                t,
                len,
            ),
            c,
        ),
    )
}

/// Position `t` after the layer.
pub open spec fn blocked_low(
    ex: spec_fn(real) -> real,
    rt: spec_fn(real) -> real,
    b: Block,
    c: nat,
    d: nat,
    x: spec_fn(int) -> spec_fn(int) -> real,
    t: int,
    len: nat,
) -> spec_fn(int) -> real {
    let mid = attended_low(ex, rt, b, c, d, x, t, len);
    plus(mid, times(b.down, cut_off(times(b.up, unit_scale(rt, mid, c), c)), 4 * c))
}

/// What is known of every position of a sequence of `len` after `l` layers.
pub open spec fn hidden_low(
    ex: spec_fn(real) -> real,
    rt: spec_fn(real) -> real,
    net: Net,
    tokens: spec_fn(int) -> int,
    len: nat,
    l: nat,
) -> spec_fn(int) -> spec_fn(int) -> real
    decreases l,
{
    if l == 0 {
        |t: int|
            unit_scale(rt, |j: int| (net.wte)(tokens(t), j) + (net.wpe)(t, j), net.c)
    } else {
        |t: int|
            blocked_low(
                ex,
                rt,
                (net.blocks)(l - 1),
                net.c,
                net.d,
                hidden_low(ex, rt, net, tokens, len, (l - 1) as nat),
                t,
                len,
            )
    }
}

/// The logits behind position `t` of a sequence of `len`.
pub open spec fn logits_low(
    ex: spec_fn(real) -> real,
    rt: spec_fn(real) -> real,
    net: Net,
    tokens: spec_fn(int) -> int,
    len: nat,
    t: int,
) -> spec_fn(int) -> real {
    times(net.head, hidden_low(ex, rt, net, tokens, len, net.depth)(t), net.c)
}

/// Tensor `x` has, in every head of every position, the part of its row that `f` says.
pub open spec fn tells_heads<T>(
    rd: Reading<T>,
    x: T,
    b: int,
    t: int,
    h: int,
    d: int,
    f: spec_fn(int, int) -> spec_fn(int) -> real,
) -> bool {
    &&& (rd.axes)(x) == seq![b, h, t, d]
    &&& forall|i: int, k: int, j: int, l: int|
        0 <= i < b && 0 <= j < t && 0 <= k < h && 0 <= l < d ==> #[trigger] (rd.at)(x, i, k, j, l)
            == f(i, j)(k * d + l)
}

/// Heads are parts of rows.
proof fn lemma_tells_split<S: Scalar, T: Tensor<S>>(
    rd: Reading<T>,
    x: T,
    r: T,
    b: i32,
    t: i32,
    h: i32,
    d: i32,
    f: spec_fn(int, int) -> spec_fn(int) -> real,
)
    requires
        exact_moves::<S, T>(rd),
        h > 0,
        d > 0,
        tells_rows(rd, x, b as int, t as int, h * d, f),
        is_split::<S, T>(x, b, t, h, d, r),
    ensures
        tells_heads(rd, r, b as int, t as int, h as int, d as int, f),
{
    let split = choose|split: T| #[trigger]
        is_shaped4::<S, T>(x, b, t, h, d, split) && is_permuted::<S, T>(split, 0, 2, 1, 3, r);
    assert(cuts(rd, x, b as int, t as int, h as int, d as int, split));
    assert(turns(rd, split, 0, 2, 1, 3, r));
    assert(seq![0int, 2int, 1int, 3int].no_duplicates());
    assert((rd.axes)(r) =~= seq![b as int, h as int, t as int, d as int]);
    assert forall|i: int, k: int, j: int, l: int|
        0 <= i < b && 0 <= j < t && 0 <= k < h && 0 <= l < d implies #[trigger] (rd.at)(
        r,
        i,
        k,
        j,
        l,
    ) == f(i, j)(k * d + l) by {
        assert((rd.at)(r, i, k, j, l) == (rd.at)(split, i, j, k, l));
        assert(0 <= k * d + l < h * d) by (nonlinear_arith)
            requires
                0 <= k < h,
                0 <= l < d,
        ;
        assert((rd.at)(x, 0, i, j, k * d + l) == f(i, j)(k * d + l));
    }
}

/// The root of a number.
proof fn lemma_tells_root<S: Scalar, T: Tensor<S>>(
    val: spec_fn(S) -> real,
    rt: spec_fn(real) -> real,
    rd: Reading<T>,
    n: u64,
    r: T,
)
    requires
        exact(val),
        is_root_function(rt),
        exact_each::<S, T>(val, rt, rd),
        is_root_number::<S, T>(n, r),
    ensures
        is_one_number(rd, rt(n as real), r),
{
    let (x, root) = choose|x: S, root: S|
        is_num(n, x) && #[trigger] is_sqrt(x, root) && #[trigger] is_number::<S, T>(root, r);
    assert(val(x) == n as real);
    let (u, v, s) = (val(root), rt(n as real), n as real);
    assert(is_root_of(s, v));
    assert(u == v) by (nonlinear_arith)
        requires
            u >= 0 as real,
            v >= 0 as real,
            u * u == s,
            v * v == s,
    ;
}

/// The scores of a head.
proof fn lemma_tells_scores<S: Scalar, T: Tensor<S>>(
    val: spec_fn(S) -> real,
    ex: spec_fn(real) -> real,
    lg: spec_fn(real) -> real,
    rt: spec_fn(real) -> real,
    rd: Reading<T>,
    l: TensorLayer<T>,
    b: i32,
    t: i32,
    h: i32,
    d: i32,
    q: spec_fn(int, int) -> spec_fn(int) -> real,
    k: spec_fn(int, int) -> spec_fn(int) -> real,
)
    requires
        exact(val),
        is_root_function(rt),
        exact_each::<S, T>(val, rt, rd),
        exact_rows::<S, T>(ex, lg, rd),
        exact_moves::<S, T>(rd),
        h > 0,
        d > 0,
        tells_heads(rd, l.q, b as int, t as int, h as int, d as int, q),
        tells_heads(rd, l.k, b as int, t as int, h as int, d as int, k),
        is_permuted::<S, T>(l.k, 0, 1, 3, 2, l.kt),
        is_matmul::<S, T>(l.q, l.kt, l.products),
        is_root_number::<S, T>(d as u64, l.size),
        is_divide::<S, T>(l.products, l.size, l.scores),
        is_triangle::<S, T>(t, l.causal),
        is_floor_number::<S, T>(l.floor),
        is_where::<S, T>(l.scores, l.causal, l.floor, l.masked),
    ensures
        (rd.axes)(l.masked) == seq![b as int, h as int, t as int, t as int],
        forall|i: int, g: int, j: int, u: int|
            0 <= i < b && 0 <= g < h && 0 <= j < t && 0 <= u < t ==> #[trigger] (rd.at)(
                l.masked,
                i,
                g,
                j,
                u,
            ) == heed(rt, d as nat, g, q(i, j), k(i, u), j, u),
{
    assert(turns(rd, l.k, 0, 1, 3, 2, l.kt));
    assert(seq![0int, 1int, 3int, 2int].no_duplicates());
    assert((rd.axes)(l.kt) =~= seq![b as int, h as int, d as int, t as int]);
    assert(multiplies(rd, l.q, l.kt, l.products));
    assert((rd.axes)(l.q).take(2) =~= (rd.axes)(l.kt).take(2));
    assert((rd.axes)(l.products) =~= seq![b as int, h as int, t as int, t as int]);
    lemma_tells_root(val, rt, rd, d as u64, l.size);
    assert(combines(rd, l.products, l.size, l.scores, |x: real, y: real| x / y));
    let (x, below) = choose|x: S, below: S|
        is_num(FLOOR, x) && #[trigger] is_neg(x, below) && #[trigger] is_number::<
            S,
            T,
        >(below, l.floor);
    assert(val(below) == -(1_000_000_000 as real));
    assert(marks(rd, t as int, l.causal));
    assert(masks(rd, l.scores, l.causal, l.floor, l.masked));
    assert forall|i: int, g: int, j: int, u: int|
        0 <= i < b && 0 <= g < h && 0 <= j < t && 0 <= u < t implies #[trigger] (rd.at)(
        l.masked,
        i,
        g,
        j,
        u,
    ) == heed(rt, d as nat, g, q(i, j), k(i, u), j, u) by {
        let (qs, ks) = (q(i, j), k(i, u));
        let (x, y) = (
            |m: int| (rd.at)(l.q, i, g, j, m) * (rd.at)(l.kt, i, g, m, u),
            |e: int| qs(g * d as nat + e) * ks(g * d as nat + e),
        );
        assert forall|m: int| 0 <= m < d implies #[trigger] x(m) == y(m) by {
            assert((rd.at)(l.q, i, g, j, m) == qs(g * d + m));
            assert((rd.at)(l.kt, i, g, m, u) == (rd.at)(l.k, i, g, u, m));
            assert((rd.at)(l.k, i, g, u, m) == ks(g * d + m));
        }
        lemma_total_same(x, y, d as nat);
        assert((rd.at)(l.products, i, g, j, u) == total_of(x, d as nat));
        assert((rd.at)(l.scores, i, g, j, u) == closeness(rt, d as nat, g, qs, ks));
    }
}

/// What the heads gather.
proof fn lemma_tells_gather<S: Scalar, T: Tensor<S>>(
    ex: spec_fn(real) -> real,
    lg: spec_fn(real) -> real,
    rt: spec_fn(real) -> real,
    rd: Reading<T>,
    l: TensorLayer<T>,
    b: i32,
    t: i32,
    h: i32,
    d: i32,
    c: i32,
    q: spec_fn(int, int) -> spec_fn(int) -> real,
    k: spec_fn(int, int) -> spec_fn(int) -> real,
    v: spec_fn(int, int) -> spec_fn(int) -> real,
)
    requires
        is_exponential(ex),
        exact_rows::<S, T>(ex, lg, rd),
        exact_moves::<S, T>(rd),
        h > 0,
        d > 0,
        t > 0,
        c == h * d,
        (rd.axes)(l.masked) == seq![b as int, h as int, t as int, t as int],
        forall|i: int, g: int, j: int, u: int|
            0 <= i < b && 0 <= g < h && 0 <= j < t && 0 <= u < t ==> #[trigger] (rd.at)(
                l.masked,
                i,
                g,
                j,
                u,
            ) == heed(rt, d as nat, g, q(i, j), k(i, u), j, u),
        tells_heads(rd, l.v, b as int, t as int, h as int, d as int, v),
        is_softmax_last::<S, T>(l.masked, l.att),
        is_matmul::<S, T>(l.att, l.v, l.mixed),
        is_permuted::<S, T>(l.mixed, 0, 2, 1, 3, l.turned),
        is_shaped3::<S, T>(l.turned, b, t, c, l.joined),
    ensures
        tells_rows(
            rd,
            l.joined,
            b as int,
            t as int,
            c as int,
            |i: int, j: int|
                gather_low(
                    ex,
                    rt,
                    d as nat,
                    q(i, j),
                    |u: int| k(i, u),
                    |u: int| v(i, u),
                    j,
                    t as nat,
                ),
        ),
{
    assert(shares_rows(rd, ex, l.masked, l.att));
    assert(multiplies(rd, l.att, l.v, l.mixed));
    assert((rd.axes)(l.att).take(2) =~= (rd.axes)(l.v).take(2));
    assert((rd.axes)(l.mixed) =~= seq![b as int, h as int, t as int, d as int]);
    assert(turns(rd, l.mixed, 0, 2, 1, 3, l.turned));
    assert(seq![0int, 2int, 1int, 3int].no_duplicates());
    assert((rd.axes)(l.turned) =~= seq![b as int, t as int, h as int, d as int]);
    assert(joins(rd, l.turned, b as int, t as int, h as int, d as int, l.joined));
    let f = |i: int, j: int|
        gather_low(ex, rt, d as nat, q(i, j), |u: int| k(i, u), |u: int| v(i, u), j, t as nat);
    assert forall|z: int, i: int, j: int, m: int|
        0 <= i < b && 0 <= j < t && 0 <= m < c implies #[trigger] (rd.at)(l.joined, z, i, j, m)
        == f(i, j)(m) by {
        let (g, e) = (m / d as int, m % d as int);
        lemma_fundamental_div_mod(m, d as int);
        lemma_mod_bound(m, d as int);
        assert(0 <= g < h && g * d + e == m) by (nonlinear_arith)
            requires
                m == d * g + e,
                0 <= e < d,
                0 <= m < h * d,
                d > 0,
        ;
        assert((rd.at)(l.joined, z, i, j, m) == (rd.at)(l.turned, i, j, g, e));
        assert((rd.at)(l.turned, i, j, g, e) == (rd.at)(l.mixed, i, g, j, e));
        let s = heeds(rt, d as nat, g, q(i, j), |u: int| k(i, u), j);
        let vs = |u: int| v(i, u);
        let n = t as nat;
        let (y, x) = (|u: int| (rd.at)(l.masked, i, g, j, u), |u: int| ex(s(u)));
        let w = weight_of(ex, s, n);
        let ey = |u: int| ex(y(u));
        assert forall|u: int| 0 <= u < n implies #[trigger] ey(u) == x(u) by {
            assert((rd.at)(l.masked, i, g, j, u) == s(u));
        }
        lemma_total_same(ey, x, n);
        assert(weight_of(ex, y, n) == total_of(ey, n));
        assert(w == total_of(x, n));
        lemma_total_positive(x, n);
        let (a, p, r) = (
            |u: int| (rd.at)(l.att, i, g, j, u) * (rd.at)(l.v, i, g, u, e),
            |u: int| ex(s(u)) * vs(u)(m),
            |u: int| (1 as real / w) * p_of(ex, s, vs, m)(u),
        );
        assert forall|u: int| 0 <= u < n implies #[trigger] a(u) == r(u) by {
            assert((rd.at)(l.att, i, g, j, u) == ex(y(u)) / w);
            assert((rd.at)(l.v, i, g, u, e) == v(i, u)(m));
            assert((rd.at)(l.masked, i, g, j, u) == s(u));
            let (eu, vu) = (ex(s(u)), v(i, u)(m));
            assert((eu / w) * vu == (1 as real / w) * (eu * vu)) by (nonlinear_arith)
                requires
                    w > 0 as real,
            ;
        }
        lemma_total_same(a, r, n);
        lemma_total_scale(1 as real / w, p_of(ex, s, vs, m), r, n);
        lemma_total_same(p_of(ex, s, vs, m), p, n);
        let total = total_of(p, n);
        assert((1 as real / w) * total == total / w) by (nonlinear_arith)
            requires
                w > 0 as real,
        ;
        assert((rd.at)(l.mixed, i, g, j, e) == total_of(a, n));
    }
}

/// The terms of a weighted mean.
spec fn p_of(
    ex: spec_fn(real) -> real,
    s: spec_fn(int) -> real,
    v: spec_fn(int) -> spec_fn(int) -> real,
    m: int,
) -> spec_fn(int) -> real {
    |u: int| ex(s(u)) * v(u)(m)
}

/// The matrices of a layer: queries, keys, values, output, and the two of the perceptron.
pub open spec fn block_at<T>(rd: Reading<T>, params: Seq<T>, at: int) -> Block {
    Block {
        q: matrix_at(rd, params[at]),
        k: matrix_at(rd, params[at + 1]),
        v: matrix_at(rd, params[at + 2]),
        o: matrix_at(rd, params[at + 3]),
        up: matrix_at(rd, params[at + 4]),
        down: matrix_at(rd, params[at + 5]),
    }
}

/// The matrices of the network: embeddings of tokens and positions, output head, and six for
/// each layer.
pub open spec fn net_at<T>(rd: Reading<T>, params: Seq<T>, cfg: Cfg) -> Net {
    Net {
        wte: matrix_at(rd, params[0]),
        wpe: matrix_at(rd, params[1]),
        head: matrix_at(rd, params[2]),
        blocks: |li: int| block_at(rd, params, 3 + li * 6),
        c: cfg.n_embd as nat,
        d: (cfg.n_embd as int / cfg.n_head as int) as nat,
        depth: cfg.n_layer as nat,
    }
}

/// The axes of the matrices of a layer.
pub open spec fn has_block_axes<T>(rd: Reading<T>, params: Seq<T>, at: int, c: int) -> bool {
    &&& forall|k: int| at <= k < at + 4 ==> (rd.axes)(#[trigger] params[k]) == seq![c, c]
    &&& (rd.axes)(params[at + 4]) == seq![4 * c, c]
    &&& (rd.axes)(params[at + 5]) == seq![c, 4 * c]
}

/// The axes of all matrices, and sizes that a framework can count.
pub open spec fn has_axes<T>(rd: Reading<T>, params: Seq<T>, cfg: Cfg, vocab: int) -> bool {
    let c = cfg.n_embd as int;
    &&& cfg.has_heads()
    &&& cfg.n_embd <= i32::MAX
    &&& params.len() == tensor_count(cfg)
    &&& (rd.axes)(params[0]) == seq![vocab, c]
    &&& (rd.axes)(params[1]) == seq![cfg.block_size as int, c]
    &&& (rd.axes)(params[2]) == seq![vocab, c]
    &&& forall|li: int|
        0 <= li < cfg.n_layer ==> has_block_axes(rd, params, #[trigger] first_of(li), c)
}

/// The number of the first matrix of layer `li`.
pub open spec fn first_of(li: int) -> int {
    3 + li * 6
}

/// Rows that are the same.
proof fn lemma_tells_same<T>(
    rd: Reading<T>,
    x: T,
    b: int,
    t: int,
    c: int,
    f: spec_fn(int, int) -> spec_fn(int) -> real,
    g: spec_fn(int, int) -> spec_fn(int) -> real,
)
    requires
        tells_rows(rd, x, b, t, c, f),
        forall|i: int, j: int| 0 <= i < b && 0 <= j < t ==> #[trigger] f(i, j) == g(i, j),
    ensures
        tells_rows(rd, x, b, t, c, g),
{
    assert forall|z: int, i: int, j: int, l: int|
        0 <= i < b && 0 <= j < t && 0 <= l < c implies #[trigger] (rd.at)(x, z, i, j, l) == g(
        i,
        j,
    )(l) by {
        assert(f(i, j) == g(i, j));
    }
}

/// A sum of rows.
proof fn lemma_tells_plus<S: Scalar, T: Tensor<S>>(
    val: spec_fn(S) -> real,
    rt: spec_fn(real) -> real,
    rd: Reading<T>,
    x: T,
    y: T,
    r: T,
    b: int,
    t: int,
    c: int,
    f: spec_fn(int, int) -> spec_fn(int) -> real,
    g: spec_fn(int, int) -> spec_fn(int) -> real,
)
    requires
        exact_each::<S, T>(val, rt, rd),
        tells_rows(rd, x, b, t, c, f),
        tells_rows(rd, y, b, t, c, g),
        is_plus::<S, T>(x, y, r),
    ensures
        tells_rows(rd, r, b, t, c, |i: int, j: int| plus(f(i, j), g(i, j))),
{
    assert(combines(rd, x, y, r, |x: real, y: real| x + y));
    let h = |i: int, j: int| plus(f(i, j), g(i, j));
    assert forall|z: int, i: int, j: int, l: int|
        0 <= i < b && 0 <= j < t && 0 <= l < c implies #[trigger] (rd.at)(r, z, i, j, l) == h(
        i,
        j,
    )(l) by {
        assert((rd.at)(x, z, i, j, l) == f(i, j)(l));
        assert((rd.at)(y, z, i, j, l) == g(i, j)(l));
    }
}

/// Rows without what is below zero.
proof fn lemma_tells_relu<S: Scalar, T: Tensor<S>>(
    val: spec_fn(S) -> real,
    rt: spec_fn(real) -> real,
    rd: Reading<T>,
    x: T,
    r: T,
    b: int,
    t: int,
    c: int,
    f: spec_fn(int, int) -> spec_fn(int) -> real,
)
    requires
        exact_each::<S, T>(val, rt, rd),
        tells_rows(rd, x, b, t, c, f),
        is_tensor_relu::<S, T>(x, r),
    ensures
        tells_rows(rd, r, b, t, c, |i: int, j: int| cut_off(f(i, j))),
{
    assert(changes_each(
        rd,
        x,
        r,
        |x: real|
            if x > 0 as real {
                x
            } else {
                0 as real
            },
    ));
    let h = |i: int, j: int| cut_off(f(i, j));
    assert forall|z: int, i: int, j: int, l: int|
        0 <= i < b && 0 <= j < t && 0 <= l < c implies #[trigger] (rd.at)(r, z, i, j, l) == h(
        i,
        j,
    )(l) by {
        assert((rd.at)(x, z, i, j, l) == f(i, j)(l));
    }
}

/// The attention of a layer.
proof fn lemma_tells_attention<S: Scalar, T: Tensor<S>>(
    val: spec_fn(S) -> real,
    ex: spec_fn(real) -> real,
    lg: spec_fn(real) -> real,
    rt: spec_fn(real) -> real,
    rd: Reading<T>,
    params: Seq<T>,
    at: int,
    cfg: Cfg,
    b: i32,
    t: i32,
    x: T,
    l: TensorLayer<T>,
    f: spec_fn(int, int) -> spec_fn(int) -> real,
)
    requires
        exact(val),
        is_exponential(ex),
        is_root_function(rt),
        exact_each::<S, T>(val, rt, rd),
        exact_rows::<S, T>(ex, lg, rd),
        exact_moves::<S, T>(rd),
        cfg.has_heads(),
        cfg.n_embd <= i32::MAX,
        has_block_axes(rd, params, at, cfg.n_embd as int),
        t > 0,
        tells_rows(rd, x, b as int, t as int, cfg.n_embd as int, f),
        is_tensor_attention::<S, T>(params, at, cfg, b, t, x, l),
    ensures
        tells_rows(
            rd,
            l.mid,
            b as int,
            t as int,
            cfg.n_embd as int,
            |i: int, j: int|
                attended_low(
                    ex,
                    rt,
                    block_at(rd, params, at),
                    cfg.n_embd as nat,
                    (cfg.n_embd as int / cfg.n_head as int) as nat,
                    |u: int| f(i, u),
                    j,
                    t as nat,
                ),
        ),
{
    let (c, h) = (cfg.n_embd as int, cfg.n_head as int);
    let d = c / h;
    lemma_fundamental_div_mod(c, h);
    assert(c == h * d && d > 0 && d <= c && h <= c) by (nonlinear_arith)
        requires
            c == h * d + c % h,
            c % h == 0,
            c > 0,
            h > 0,
    ;
    let (bi, ti, n) = (b as int, t as int, c as nat);
    let blk = block_at(rd, params, at);
    assert((rd.axes)(params[at]) == seq![c, c]);
    assert((rd.axes)(params[at + 1]) == seq![c, c]);
    assert((rd.axes)(params[at + 2]) == seq![c, c]);
    assert((rd.axes)(params[at + 3]) == seq![c, c]);
    let fx = |i: int, j: int| unit_scale(rt, f(i, j), n);
    lemma_tells_norm(val, ex, lg, rt, rd, x, l.xn, bi, ti, c, f);
    let q = |i: int, j: int| times(matrix_at(rd, params[at]), fx(i, j), n);
    let k = |i: int, j: int| times(matrix_at(rd, params[at + 1]), fx(i, j), n);
    let v = |i: int, j: int| times(matrix_at(rd, params[at + 2]), fx(i, j), n);
    lemma_tells_linear(ex, lg, rd, l.xn, params[at], l.ql, bi, ti, c, c, fx);
    lemma_tells_linear(ex, lg, rd, l.xn, params[at + 1], l.kl, bi, ti, c, c, fx);
    lemma_tells_linear(ex, lg, rd, l.xn, params[at + 2], l.vl, bi, ti, c, c, fx);
    let (hi, di, ci) = (h as i32, d as i32, c as i32);
    lemma_tells_split(rd, l.ql, l.q, b, t, hi, di, q);
    lemma_tells_split(rd, l.kl, l.k, b, t, hi, di, k);
    lemma_tells_split(rd, l.vl, l.v, b, t, hi, di, v);
    lemma_tells_scores(val, ex, lg, rt, rd, l, b, t, hi, di, q, k);
    lemma_tells_gather(ex, lg, rt, rd, l, b, t, hi, di, ci, q, k, v);
    let g = |i: int, j: int|
        gather_low(ex, rt, di as nat, q(i, j), |u: int| k(i, u), |u: int| v(i, u), j, t as nat);
    lemma_tells_linear(ex, lg, rd, l.joined, params[at + 3], l.proj, bi, ti, c, c, g);
    let o = |i: int, j: int| times(matrix_at(rd, params[at + 3]), g(i, j), n);
    lemma_tells_plus(val, rt, rd, x, l.proj, l.mid, bi, ti, c, f, o);
    let (made, wanted) = (
        |i: int, j: int| plus(f(i, j), o(i, j)),
        |i: int, j: int|
            attended_low(ex, rt, blk, n, d as nat, |u: int| f(i, u), j, t as nat),
    );
    assert forall|i: int, j: int| 0 <= i < bi && 0 <= j < ti implies #[trigger] made(i, j)
        == wanted(i, j) by {
        let y = |u: int| f(i, u);
        let (k1, k2) = (|u: int| k(i, u), |u: int| times(blk.k, unit_scale(rt, y(u), n), n));
        let (v1, v2) = (|u: int| v(i, u), |u: int| times(blk.v, unit_scale(rt, y(u), n), n));
        assert(k1 =~= k2);
        assert(v1 =~= v2);
        assert(q(i, j) == times(blk.q, unit_scale(rt, y(j), n), n));
    }
    lemma_tells_same(rd, l.mid, bi, ti, c, made, wanted);
}

/// A whole layer.
proof fn lemma_tells_layer<S: Scalar, T: Tensor<S>>(
    val: spec_fn(S) -> real,
    ex: spec_fn(real) -> real,
    lg: spec_fn(real) -> real,
    rt: spec_fn(real) -> real,
    rd: Reading<T>,
    params: Seq<T>,
    li: int,
    cfg: Cfg,
    b: i32,
    t: i32,
    x: T,
    out: T,
    f: spec_fn(int, int) -> spec_fn(int) -> real,
)
    requires
        exact(val),
        is_exponential(ex),
        is_root_function(rt),
        exact_each::<S, T>(val, rt, rd),
        exact_rows::<S, T>(ex, lg, rd),
        exact_moves::<S, T>(rd),
        cfg.has_heads(),
        cfg.n_embd <= i32::MAX,
        has_block_axes(rd, params, first_of(li), cfg.n_embd as int),
        t > 0,
        tells_rows(rd, x, b as int, t as int, cfg.n_embd as int, f),
        is_tensor_layer::<S, T>(params, li, cfg, b, t, x, out),
    ensures
        tells_rows(
            rd,
            out,
            b as int,
            t as int,
            cfg.n_embd as int,
            |i: int, j: int|
                blocked_low(
                    ex,
                    rt,
                    block_at(rd, params, first_of(li)),
                    cfg.n_embd as nat,
                    (cfg.n_embd as int / cfg.n_head as int) as nat,
                    |u: int| f(i, u),
                    j,
                    t as nat,
                ),
        ),
{
    reveal(is_tensor_layer);
    let l = choose|l: TensorLayer<T>| #[trigger]
        is_tensor_layer_by::<S, T>(params, li, cfg, b, t, x, l) && l.out == out;
    let at = first_of(li);
    let (c, bi, ti, n) = (cfg.n_embd as int, b as int, t as int, cfg.n_embd as nat);
    let d = (cfg.n_embd as int / cfg.n_head as int) as nat;
    let blk = block_at(rd, params, at);
    lemma_tells_attention(val, ex, lg, rt, rd, params, at, cfg, b, t, x, l, f);
    let mid = |i: int, j: int|
        attended_low(ex, rt, blk, n, d, |u: int| f(i, u), j, t as nat);
    lemma_tells_norm(val, ex, lg, rt, rd, l.mid, l.xn2, bi, ti, c, mid);
    let xn = |i: int, j: int| unit_scale(rt, mid(i, j), n);
    lemma_tells_linear(ex, lg, rd, l.xn2, params[at + 4], l.hpre, bi, ti, c, 4 * c, xn);
    let pre = |i: int, j: int| times(matrix_at(rd, params[at + 4]), xn(i, j), n);
    lemma_tells_relu(val, rt, rd, l.hpre, l.h, bi, ti, 4 * c, pre);
    let h = |i: int, j: int| cut_off(pre(i, j));
    lemma_tells_linear(ex, lg, rd, l.h, params[at + 5], l.mlp, bi, ti, 4 * c, c, h);
    let mlp = |i: int, j: int| times(matrix_at(rd, params[at + 5]), h(i, j), (4 * c) as nat);
    lemma_tells_plus(val, rt, rd, l.mid, l.mlp, l.out, bi, ti, c, mid, mlp);
    let (made, wanted) = (
        |i: int, j: int| plus(mid(i, j), mlp(i, j)),
        |i: int, j: int| blocked_low(ex, rt, blk, n, d, |u: int| f(i, u), j, t as nat),
    );
    assert forall|i: int, j: int| 0 <= i < bi && 0 <= j < ti implies #[trigger] made(i, j)
        == wanted(i, j) by {
        assert(h(i, j) == cut_off(times(blk.up, unit_scale(rt, mid(i, j), n), n)));
    }
    lemma_tells_same(rd, l.out, bi, ti, c, made, wanted);
}

/// Tensor `ids` names the tokens `tokens` of `b` sequences of `t` positions.
pub open spec fn names<T>(
    rd: Reading<T>,
    ids: T,
    b: int,
    t: int,
    vocab: int,
    tokens: spec_fn(int) -> spec_fn(int) -> int,
) -> bool {
    &&& (rd.axes)(ids) == seq![b, t]
    &&& forall|i: int, j: int|
        0 <= i < b && 0 <= j < t ==> #[trigger] (rd.at)(ids, 0, 0, i, j) == tokens(i)(j) as real
            && 0 <= tokens(i)(j) < vocab
}

/// The sum of the embeddings, normalized.
proof fn lemma_tells_embed<S: Scalar, T: Tensor<S>>(
    val: spec_fn(S) -> real,
    ex: spec_fn(real) -> real,
    lg: spec_fn(real) -> real,
    rt: spec_fn(real) -> real,
    rd: Reading<T>,
    params: Seq<T>,
    cfg: Cfg,
    vocab: int,
    ids: T,
    b: i32,
    t: i32,
    tokens: spec_fn(int) -> spec_fn(int) -> int,
    x: T,
)
    requires
        exact(val),
        is_root_function(rt),
        exact_each::<S, T>(val, rt, rd),
        exact_rows::<S, T>(ex, lg, rd),
        exact_moves::<S, T>(rd),
        has_axes(rd, params, cfg, vocab),
        names(rd, ids, b as int, t as int, vocab, tokens),
        0 < t <= cfg.block_size,
        is_tensor_embed::<S, T>(params, ids, t, x),
    ensures
        tells_rows(
            rd,
            x,
            b as int,
            t as int,
            cfg.n_embd as int,
            |i: int, j: int| hidden_low(ex, rt, net_at(rd, params, cfg), tokens(i), t as nat, 0)(j),
        ),
{
    let (tok, pos, sum) = choose|tok: T, pos: T, sum: T|
        #![trigger is_plus::<S, T>(tok, pos, sum)]
        is_rows_at::<S, T>(params[0], ids, tok) && is_first_rows::<S, T>(params[1], t, pos)
            && is_plus::<S, T>(tok, pos, sum) && is_tensor_norm::<S, T>(sum, x);
    let (c, bi, ti) = (cfg.n_embd as int, b as int, t as int);
    let net = net_at(rd, params, cfg);
    assert(looks_up(rd, params[0], ids, tok));
    assert((rd.axes)(tok) =~= seq![bi, ti, c]);
    assert(starts_with(rd, params[1], ti, pos));
    assert((rd.axes)(pos) =~= seq![ti, c]);
    assert(combines(rd, tok, pos, sum, |x: real, y: real| x + y));
    assert(fits_on((rd.axes)(pos), (rd.axes)(tok)));
    let f = |i: int, j: int| (|l: int| (net.wte)(tokens(i)(j), l) + (net.wpe)(j, l));
    assert forall|z: int, i: int, j: int, l: int|
        0 <= i < bi && 0 <= j < ti && 0 <= l < c implies #[trigger] (rd.at)(sum, z, i, j, l) == f(
        i,
        j,
    )(l) by {
        let n = tokens(i)(j);
        assert((rd.at)(ids, 0, 0, i, j) == n as real);
        assert((rd.at)(tok, z, i, j, l) == (rd.at)(params[0], 0, 0, n, l));
        assert((rd.at)(pos, z, i, j, l) == (rd.at)(params[1], 0, 0, j, l));
    }
    lemma_tells_norm(val, ex, lg, rt, rd, sum, x, bi, ti, c, f);
    let (made, wanted) = (
        |i: int, j: int| unit_scale(rt, f(i, j), c as nat),
        |i: int, j: int| hidden_low(ex, rt, net, tokens(i), t as nat, 0)(j),
    );
    assert forall|i: int, j: int| 0 <= i < bi && 0 <= j < ti implies #[trigger] made(i, j)
        == wanted(i, j) by {
        let ids = tokens(i);
        let (p, q) = (
            |l: int| (net.wte)(tokens(i)(j), l) + (net.wpe)(j, l),
            |l: int| (net.wte)(ids(j), l) + (net.wpe)(j, l),
        );
        assert(p =~= q);
    }
    lemma_tells_same(rd, x, bi, ti, c, made, wanted);
}

/// The layers, one after the other.
proof fn lemma_tells_layers<S: Scalar, T: Tensor<S>>(
    val: spec_fn(S) -> real,
    ex: spec_fn(real) -> real,
    lg: spec_fn(real) -> real,
    rt: spec_fn(real) -> real,
    rd: Reading<T>,
    params: Seq<T>,
    cfg: Cfg,
    vocab: int,
    ids: T,
    b: i32,
    t: i32,
    tokens: spec_fn(int) -> spec_fn(int) -> int,
    xs: Seq<T>,
    n: nat,
)
    requires
        exact(val),
        is_exponential(ex),
        is_root_function(rt),
        exact_each::<S, T>(val, rt, rd),
        exact_rows::<S, T>(ex, lg, rd),
        exact_moves::<S, T>(rd),
        has_axes(rd, params, cfg, vocab),
        names(rd, ids, b as int, t as int, vocab, tokens),
        0 < t <= cfg.block_size,
        xs.len() == cfg.n_layer + 1,
        is_tensor_embed::<S, T>(params, ids, t, xs[0]),
        are_tensor_layers::<S, T>(params, cfg, b, t, xs),
        n <= cfg.n_layer,
    ensures
        tells_rows(
            rd,
            xs[n as int],
            b as int,
            t as int,
            cfg.n_embd as int,
            |i: int, j: int| hidden_low(ex, rt, net_at(rd, params, cfg), tokens(i), t as nat, n)(j),
        ),
    decreases n,
{
    let net = net_at(rd, params, cfg);
    if n == 0 {
        lemma_tells_embed(val, ex, lg, rt, rd, params, cfg, vocab, ids, b, t, tokens, xs[0]);
    } else {
        let m = (n - 1) as nat;
        lemma_tells_layers(
            val,
            ex,
            lg,
            rt,
            rd,
            params,
            cfg,
            vocab,
            ids,
            b,
            t,
            tokens,
            xs,
            m,
        );
        let f = |i: int, j: int| hidden_low(ex, rt, net, tokens(i), t as nat, m)(j);
        assert(is_tensor_layer::<S, T>(params, m as int, cfg, b, t, xs[m as int], xs[n as int]));
        assert(has_block_axes(rd, params, first_of(m as int), cfg.n_embd as int));
        lemma_tells_layer(
            val,
            ex,
            lg,
            rt,
            rd,
            params,
            m as int,
            cfg,
            b,
            t,
            xs[m as int],
            xs[n as int],
            f,
        );
        let (made, wanted) = (
            |i: int, j: int|
                blocked_low(
                    ex,
                    rt,
                    block_at(rd, params, first_of(m as int)),
                    cfg.n_embd as nat,
                    (cfg.n_embd as int / cfg.n_head as int) as nat,
                    |u: int| f(i, u),
                    j,
                    t as nat,
                ),
            |i: int, j: int| hidden_low(ex, rt, net, tokens(i), t as nat, n)(j),
        );
        assert forall|i: int, j: int| 0 <= i < b && 0 <= j < t implies #[trigger] made(i, j)
            == wanted(i, j) by {
            let y = hidden_low(ex, rt, net, tokens(i), t as nat, m);
            let z = |u: int| f(i, u);
            assert(z =~= y);
        }
        lemma_tells_same(
            rd,
            xs[n as int],
            b as int,
            t as int,
            cfg.n_embd as int,
            made,
            wanted,
        );
    }
}

/// On a framework whose tensors are exact, the logits of every position of every sequence are
/// those of the function that the parameters say.
pub proof fn law_tensors_compute_the_function<S: Scalar, T: Tensor<S>>(
    val: spec_fn(S) -> real,
    ex: spec_fn(real) -> real,
    lg: spec_fn(real) -> real,
    rt: spec_fn(real) -> real,
    rd: Reading<T>,
    params: &[T],
    cfg: Cfg,
    vocab: int,
    ids: T,
    b: i32,
    t: i32,
    tokens: spec_fn(int) -> spec_fn(int) -> int,
    logits: T,
)
    requires
        exact(val),
        is_exponential(ex),
        is_root_function(rt),
        exact_each::<S, T>(val, rt, rd),
        exact_rows::<S, T>(ex, lg, rd),
        exact_moves::<S, T>(rd),
        has_axes(rd, params@, cfg, vocab),
        names(rd, ids, b as int, t as int, vocab, tokens),
        0 < t <= cfg.block_size,
        call_ensures(gpt::<S, T>, (params, &cfg, &ids), logits),
    ensures
        tells_rows(
            rd,
            logits,
            b as int,
            t as int,
            vocab,
            |i: int, j: int|
                logits_low(ex, rt, net_at(rd, params@, cfg), tokens(i), t as nat, j),
        ),
{
    lemma_tells_logits(
        val,
        ex,
        lg,
        rt,
        rd,
        params@,
        cfg,
        vocab,
        ids,
        b,
        t,
        tokens,
        logits,
    );
}

/// The logits.
proof fn lemma_tells_logits<S: Scalar, T: Tensor<S>>(
    val: spec_fn(S) -> real,
    ex: spec_fn(real) -> real,
    lg: spec_fn(real) -> real,
    rt: spec_fn(real) -> real,
    rd: Reading<T>,
    params: Seq<T>,
    cfg: Cfg,
    vocab: int,
    ids: T,
    b: i32,
    t: i32,
    tokens: spec_fn(int) -> spec_fn(int) -> int,
    logits: T,
)
    requires
        exact(val),
        is_exponential(ex),
        is_root_function(rt),
        exact_each::<S, T>(val, rt, rd),
        exact_rows::<S, T>(ex, lg, rd),
        exact_moves::<S, T>(rd),
        has_axes(rd, params, cfg, vocab),
        names(rd, ids, b as int, t as int, vocab, tokens),
        0 < t <= cfg.block_size,
        is_tensor_gpt::<S, T>(params, cfg, ids, logits),
    ensures
        tells_rows(
            rd,
            logits,
            b as int,
            t as int,
            vocab,
            |i: int, j: int|
                logits_low(ex, rt, net_at(rd, params, cfg), tokens(i), t as nat, j),
        ),
{
    let (b0, t0, xs) = choose|b: i32, t: i32, xs: Seq<T>| #[trigger]
        is_tensor_gpt_by::<S, T>(params, cfg, ids, logits, b, t, xs);
    assert(b0 == b && t0 == t);
    let net = net_at(rd, params, cfg);
    let n = cfg.n_layer as nat;
    lemma_tells_layers(val, ex, lg, rt, rd, params, cfg, vocab, ids, b, t, tokens, xs, n);
    let f = |i: int, j: int| hidden_low(ex, rt, net, tokens(i), t as nat, n)(j);
    let c = cfg.n_embd as int;
    lemma_tells_linear(
        ex,
        lg,
        rd,
        xs[n as int],
        params[2],
        logits,
        b as int,
        t as int,
        c,
        vocab,
        f,
    );
    let (made, wanted) = (
        |i: int, j: int| times(matrix_at(rd, params[2]), f(i, j), c as nat),
        |i: int, j: int| logits_low(ex, rt, net, tokens(i), t as nat, j),
    );
    assert forall|i: int, j: int| 0 <= i < b && 0 <= j < t implies #[trigger] made(i, j) == wanted(
        i,
        j,
    ) by {}
    lemma_tells_same(rd, logits, b as int, t as int, vocab, made, wanted);
}

/// The surprise at the target of a position: how far its logit lies below the logarithm of the
/// sum of all exponentials.
pub open spec fn gap_of(
    ex: spec_fn(real) -> real,
    lg: spec_fn(real) -> real,
    x: spec_fn(int) -> real,
    vocab: nat,
    target: int,
) -> real {
    lg(total_of(|v: int| ex(x(v)), vocab)) - x(target)
}

/// On such a framework the loss of a batch is the mean surprise at the targets: the surprises of
/// all positions, each times what the mask says, add up to the loss times the count.
pub proof fn law_tensors_measure_the_mean_surprise<S: Scalar, T: Tensor<S>>(
    val: spec_fn(S) -> real,
    ex: spec_fn(real) -> real,
    lg: spec_fn(real) -> real,
    rt: spec_fn(real) -> real,
    rd: Reading<T>,
    params: &[T],
    cfg: Cfg,
    vocab: int,
    ids: T,
    targets: T,
    mask: T,
    valid: S,
    b: i32,
    t: i32,
    tokens: spec_fn(int) -> spec_fn(int) -> int,
    wanted: spec_fn(int) -> spec_fn(int) -> int,
    loss: T,
)
    requires
        exact(val),
        is_exponential(ex),
        is_root_function(rt),
        exact_each::<S, T>(val, rt, rd),
        exact_rows::<S, T>(ex, lg, rd),
        exact_moves::<S, T>(rd),
        has_axes(rd, params@, cfg, vocab),
        names(rd, ids, b as int, t as int, vocab, tokens),
        names(rd, targets, b as int, t as int, vocab, wanted),
        (rd.axes)(mask) == seq![b as int, t as int, 1],
        0 < t <= cfg.block_size,
        b >= 0,
        vocab > 0,
        val(valid) > 0 as real,
        call_ensures(
            loss_fn::<S, T>,
            (params, &cfg, &ids, &targets, &mask, valid),
            loss,
        ),
    ensures
        (rd.at)(loss, 0, 0, 0, 0) * val(valid) == total_of(
            |i: int|
                total_of(
                    |j: int|
                        gap_of(
                            ex,
                            lg,
                            logits_low(ex, rt, net_at(rd, params@, cfg), tokens(i), t as nat, j),
                            vocab as nat,
                            wanted(i)(j),
                        ) * (rd.at)(mask, 0, i, j, 0),
                    t as nat,
                ),
            b as nat,
        ),
{
    let net = net_at(rd, params@, cfg);
    let (logits, b0, t0) = choose|logits: T, b: i32, t: i32|
        #![trigger is_tensor_gpt::<S, T>(params@, cfg, ids, logits), is_dim::<S, T>(ids, 0, b), is_dim::<S, T>(ids, 1, t)]
        is_tensor_gpt::<S, T>(params@, cfg, ids, logits) && is_dim::<S, T>(ids, 0, b) && is_dim::<
            S,
            T,
        >(ids, 1, t) && is_tensor_loss::<S, T>(logits, b, t, targets, mask, valid, loss);
    assert(b0 == b && t0 == t);
    lemma_tells_logits(
        val,
        ex,
        lg,
        rt,
        rd,
        params@,
        cfg,
        vocab,
        ids,
        b,
        t,
        tokens,
        logits,
    );
    let f = |i: int, j: int| logits_low(ex, rt, net, tokens(i), t as nat, j);
    lemma_tells_loss(
        val,
        ex,
        lg,
        rt,
        rd,
        logits,
        targets,
        mask,
        valid,
        b,
        t,
        vocab,
        wanted,
        loss,
        f,
    );
    let (u, v) = (
        |i: int|
            total_of(
                |j: int|
                    gap_of(ex, lg, f(i, j), vocab as nat, wanted(i)(j)) * (rd.at)(
                        mask,
                        0,
                        i,
                        j,
                        0,
                    ),
                t as nat,
            ),
        |i: int|
            total_of(
                |j: int|
                    gap_of(
                        ex,
                        lg,
                        logits_low(ex, rt, net, tokens(i), t as nat, j),
                        vocab as nat,
                        wanted(i)(j),
                    ) * (rd.at)(mask, 0, i, j, 0),
                t as nat,
            ),
    );
    assert forall|i: int| 0 <= i < b implies #[trigger] u(i) == v(i) by {
        let (p, q) = (
            |j: int|
                gap_of(ex, lg, f(i, j), vocab as nat, wanted(i)(j)) * (rd.at)(mask, 0, i, j, 0),
            |j: int|
                gap_of(
                    ex,
                    lg,
                    logits_low(ex, rt, net, tokens(i), t as nat, j),
                    vocab as nat,
                    wanted(i)(j),
                ) * (rd.at)(mask, 0, i, j, 0),
        );
        assert(p =~= q);
    }
    lemma_total_same(u, v, b as nat);
}

/// The loss of given logits.
proof fn lemma_tells_loss<S: Scalar, T: Tensor<S>>(
    val: spec_fn(S) -> real,
    ex: spec_fn(real) -> real,
    lg: spec_fn(real) -> real,
    rt: spec_fn(real) -> real,
    rd: Reading<T>,
    logits: T,
    targets: T,
    mask: T,
    valid: S,
    b: i32,
    t: i32,
    vocab: int,
    wanted: spec_fn(int) -> spec_fn(int) -> int,
    loss: T,
    f: spec_fn(int, int) -> spec_fn(int) -> real,
)
    requires
        exact_each::<S, T>(val, rt, rd),
        exact_rows::<S, T>(ex, lg, rd),
        exact_moves::<S, T>(rd),
        names(rd, targets, b as int, t as int, vocab, wanted),
        (rd.axes)(mask) == seq![b as int, t as int, 1],
        b >= 0,
        t > 0,
        vocab > 0,
        val(valid) > 0 as real,
        tells_rows(rd, logits, b as int, t as int, vocab, f),
        is_tensor_loss::<S, T>(logits, b, t, targets, mask, valid, loss),
    ensures
        (rd.at)(loss, 0, 0, 0, 0) * val(valid) == total_of(
            |i: int|
                total_of(
                    |j: int|
                        gap_of(ex, lg, f(i, j), vocab as nat, wanted(i)(j)) * (rd.at)(
                            mask,
                            0,
                            i,
                            j,
                            0,
                        ),
                    t as nat,
                ),
            b as nat,
        ),
{
    let (lse, ids, picked, gap, kept, sum, count) = choose|
        lse: T,
        ids: T,
        picked: T,
        gap: T,
        kept: T,
        sum: T,
        count: T,
    |
        #![trigger is_minus::<S, T>(lse, picked, gap), is_multiply::<S, T>(gap, mask, kept), is_divide::<S, T>(sum, count, loss), is_entries_at::<S, T>(logits, ids, picked)]
        is_logsumexp_last::<S, T>(logits, lse) && is_shaped3::<S, T>(targets, b, t, 1, ids)
            && is_entries_at::<S, T>(logits, ids, picked) && is_minus::<S, T>(lse, picked, gap)
            && is_multiply::<S, T>(gap, mask, kept) && is_sum_all::<S, T>(kept, sum)
            && is_number::<S, T>(valid, count) && is_divide::<S, T>(sum, count, loss);
    let (bi, ti, n) = (b as int, t as int, vocab as nat);
    assert((rd.axes)(lse) =~= seq![bi, ti, 1]);
    assert(widens(rd, targets, bi, ti, ids));
    assert(picks(rd, logits, ids, picked));
    assert((rd.axes)(ids) =~= seq![bi, ti, 1]);
    assert(combines(rd, lse, picked, gap, |x: real, y: real| x - y));
    assert(combines(rd, gap, mask, kept, |x: real, y: real| x * y));
    assert(adds_up(rd, kept, sum));
    assert(combines(rd, sum, count, loss, |x: real, y: real| x / y));
    let (u, v) = (
        |i: int| total_of(|j: int| (rd.at)(kept, 0, i, j, 0), ti as nat),
        |i: int|
            total_of(
                |j: int|
                    gap_of(ex, lg, f(i, j), vocab as nat, wanted(i)(j)) * (rd.at)(
                        mask,
                        0,
                        i,
                        j,
                        0,
                    ),
                t as nat,
            ),
    );
    assert forall|i: int| 0 <= i < bi implies #[trigger] u(i) == v(i) by {
        let (p, q) = (
            |j: int| (rd.at)(kept, 0, i, j, 0),
            |j: int|
                gap_of(ex, lg, f(i, j), vocab as nat, wanted(i)(j)) * (rd.at)(mask, 0, i, j, 0),
        );
        assert forall|j: int| 0 <= j < ti implies #[trigger] p(j) == q(j) by {
            let row = f(i, j);
            let (x, y) = (
                |m: int| ex((|m: int| (rd.at)(logits, 0, i, j, m))(m)),
                |m: int| ex(row(m)),
            );
            assert forall|m: int| 0 <= m < n implies #[trigger] x(m) == y(m) by {
                assert((rd.at)(logits, 0, i, j, m) == row(m));
            }
            lemma_total_same(x, y, n);
            assert(weight_of(ex, |m: int| (rd.at)(logits, 0, i, j, m), n) == total_of(x, n));
            assert((rd.at)(lse, 0, i, j, 0) == lg(total_of(y, n)));
            let target = wanted(i)(j);
            assert((rd.at)(targets, 0, 0, i, j) == target as real);
            assert((rd.at)(ids, 0, i, j, 0) == target as real);
            assert((rd.at)(logits, 0, i, j, target) == row(target));
            assert((rd.at)(picked, 0, i, j, 0) == row(target));
            assert((rd.at)(gap, 0, i, j, 0) == gap_of(ex, lg, row, n, target));
        }
        lemma_total_same(p, q, ti as nat);
    }
    lemma_total_same(u, v, bi as nat);
    assert((rd.at)(sum, 0, 0, 0, 0) == total_of(u, bi as nat));
    lemma_quotient((rd.at)(sum, 0, 0, 0, 0), val(valid));
}

} // verus!
