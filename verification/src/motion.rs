//! First-order motion: how the results of an operation move when its operands do, and that
//! the backward pass of the operation is its adjoint.
//!
//! A motion assigns to every number of a buffer how fast it moves. The rules by which an
//! operation passes motion on are those of calculus. Its backward pass is right when the
//! gradient of the results, paired with their motion, equals the gradient of the operands,
//! paired with theirs, whatever the motion is. All of this is about exact arithmetic.
use vstd::prelude::*;

use crate::exact::{
    applied, applied_back, column_terms, exact, inner, lemma_inner_add, lemma_inner_flip,
    lemma_inner_same, lemma_running_sum_exact, lemma_total_add, lemma_total_rows, lemma_total_same,
    lemma_total_swap, lemma_transpose, row_terms, total_of,
};
use crate::index::{lemma_row_inside, lemma_whole_rows};
use crate::matmul::{
    is_landed_dot, is_linear_bwd, is_matmul_nn, is_matmul_tn, linear_bwd_row, matmul_nn_row,
    matmul_tn_row,
};
use crate::pointwise::{is_add_inplace, is_relu_bwd, is_relu_grad};
use crate::reduce::{dot_term, is_dot};
use crate::rows::row_of;
use crate::scalar::{is_running_sum, is_zero, Scalar};

verus! {

/// The numbers of a buffer.
pub open spec fn nums<S>(val: spec_fn(S) -> real, x: Seq<S>) -> spec_fn(int) -> real {
    |i: int| val(x[i])
}

/// Row `r` of a buffer with rows of `n` numbers.
pub open spec fn row_nums<S>(val: spec_fn(S) -> real, x: Seq<S>, n: nat, r: int) -> spec_fn(
    int,
) -> real {
    |j: int| val(x[r * n + j])
}

/// Row `r` of a motion.
pub open spec fn row_moves(m: Seq<real>, n: nat, r: int) -> spec_fn(int) -> real {
    |j: int| m[r * n + j]
}

/// A buffer of rows of `n` numbers, as a matrix.
pub open spec fn matrix_nums<S>(val: spec_fn(S) -> real, x: Seq<S>, n: nat) -> spec_fn(
    int,
    int,
) -> real {
    |i: int, j: int| val(x[i * n + j])
}

/// The gradient `g` of a buffer of `n` numbers paired with their motion `m`: how fast the
/// loss moves on their account.
pub open spec fn pairing<S>(val: spec_fn(S) -> real, g: Seq<S>, m: Seq<real>, n: nat) -> real {
    inner(nums(val, g), |i: int| m[i], n)
}

/// A pairing, row by row.
pub open spec fn paired_row<S>(
    val: spec_fn(S) -> real,
    g: Seq<S>,
    m: Seq<real>,
    n: nat,
) -> spec_fn(int) -> real {
    |r: int| inner(row_nums(val, g, n, r), row_moves(m, n, r), n)
}

/// A pairing is the sum of those of the rows.
pub proof fn lemma_pairing_rows<S>(
    val: spec_fn(S) -> real,
    g: Seq<S>,
    m: Seq<real>,
    rows: nat,
    n: nat,
)
    ensures
        pairing(val, g, m, rows * n) == total_of(paired_row(val, g, m, n), rows),
{
    let flat = |i: int| nums(val, g)(i) * m[i];
    let pairs = |r: int, j: int| val(g[r * n + j]) * m[r * n + j];
    lemma_total_rows(flat, pairs, rows, n);
    lemma_total_same(|i: int| nums(val, g)(i) * (|k: int| m[k])(i), flat, rows * n);
    let by_row = |r: int| total_of(row_terms(pairs, r), n);
    assert forall|r: int| 0 <= r < rows implies #[trigger] by_row(r) == paired_row(val, g, m, n)(
        r,
    ) by {
        let own = |j: int| row_nums(val, g, n, r)(j) * row_moves(m, n, r)(j);
        lemma_total_same(row_terms(pairs, r), own, n);
    }
    lemma_total_same(by_row, paired_row(val, g, m, n), rows);
}

/// A dot product, in exact arithmetic.
pub proof fn lemma_dot_exact<S: Scalar>(
    val: spec_fn(S) -> real,
    x: Seq<S>,
    xo: int,
    xs: int,
    y: Seq<S>,
    yo: int,
    ys: int,
    n: nat,
    r: S,
)
    requires
        exact(val),
        is_dot(x, xo, xs, y, yo, ys, n, r),
    ensures
        val(r) == total_of(|p: int| val(x[xo + p * xs]) * val(y[yo + p * ys]), n),
{
    let zero = choose|zero: S|
        is_zero(zero) && #[trigger] is_running_sum(zero, dot_term(x, xo, xs, y, yo, ys), n, r);
    lemma_running_sum_exact(
        val,
        zero,
        dot_term(x, xo, xs, y, yo, ys),
        |p: int| val(x[xo + p * xs]) * val(y[yo + p * ys]),
        n,
        r,
    );
}

/// Number (`r`, `p`) of `dx = dy @ w`.
pub proof fn lemma_linear_bwd_entry<S: Scalar>(
    val: spec_fn(S) -> real,
    dx: Seq<S>,
    dy: Seq<S>,
    w: Seq<S>,
    m: nat,
    n: nat,
    k: nat,
    r: int,
    p: int,
)
    requires
        exact(val),
        k > 0,
        dx.len() == m * k,
        is_linear_bwd(dx, dy, w, k, n),
        0 <= r < m,
        0 <= p < k,
    ensures
        val(dx[r * k + p]) == applied_back(matrix_nums(val, w, k), row_nums(val, dy, n, r), n)(p),
{
    lemma_whole_rows(m as int, k as int);
    lemma_row_inside(r, m as int, k as int);
    assert(linear_bwd_row(dy, w, n, r, row_of(dx, k, r)));
    let v = row_of(dx, k, r)[p];
    assert(is_dot(dy, r * n, 1, w, p, k as int, n, v));
    lemma_dot_exact(val, dy, r * n, 1, w, p, k as int, n, v);
    let f = |c: int| val(dy[r * n + c * 1]) * val(w[p + c * k]);
    let g = |c: int| matrix_nums(val, w, k)(c, p) * row_nums(val, dy, n, r)(c);
    assert forall|c: int| 0 <= c < n implies #[trigger] f(c) == g(c) by {
        assert(p + c * k == c * k + p);
        let (a, b) = (val(dy[r * n + c]), val(w[c * k + p]));
        assert(a * b == b * a) by (nonlinear_arith);
    }
    lemma_total_same(f, g, n);
}

/// Number (`r`, `p`) of `dx = before + dy @ w`.
pub proof fn lemma_matmul_nn_entry<S: Scalar>(
    val: spec_fn(S) -> real,
    before: Seq<S>,
    dx: Seq<S>,
    dy: Seq<S>,
    w: Seq<S>,
    m: nat,
    n: nat,
    k: nat,
    r: int,
    p: int,
)
    requires
        exact(val),
        k > 0,
        dx.len() == m * k,
        is_matmul_nn(before, dx, dy, w, k, n, true),
        0 <= r < m,
        0 <= p < k,
    ensures
        val(dx[r * k + p]) == val(before[r * k + p]) + applied_back(
            matrix_nums(val, w, k),
            row_nums(val, dy, n, r),
            n,
        )(p),
{
    lemma_whole_rows(m as int, k as int);
    lemma_row_inside(r, m as int, k as int);
    assert(matmul_nn_row(dy, w, n, true, r, row_of(before, k, r), row_of(dx, k, r)));
    let v = row_of(dx, k, r)[p];
    assert(is_landed_dot(dy, r * n, 1, w, p, k as int, n, true, row_of(before, k, r)[p], v));
    let acc = choose|acc: S| #[trigger]
        is_dot(dy, r * n, 1, w, p, k as int, n, acc) && crate::scalar::lands(
            true,
            row_of(before, k, r)[p],
            acc,
            v,
        );
    lemma_dot_exact(val, dy, r * n, 1, w, p, k as int, n, acc);
    let f = |c: int| val(dy[r * n + c * 1]) * val(w[p + c * k]);
    let g = |c: int| matrix_nums(val, w, k)(c, p) * row_nums(val, dy, n, r)(c);
    assert forall|c: int| 0 <= c < n implies #[trigger] f(c) == g(c) by {
        assert(p + c * k == c * k + p);
        let (a, b) = (val(dy[r * n + c]), val(w[c * k + p]));
        assert(a * b == b * a) by (nonlinear_arith);
    }
    lemma_total_same(f, g, n);
}

/// Column `c` of a buffer with rows of `n` numbers.
pub open spec fn column_nums<S>(val: spec_fn(S) -> real, x: Seq<S>, n: nat, c: int) -> spec_fn(
    int,
) -> real {
    |r: int| val(x[r * n + c])
}

/// Number (`c`, `p`) of `after = before + dy^T @ x`.
pub proof fn lemma_matmul_tn_entry<S: Scalar>(
    val: spec_fn(S) -> real,
    before: Seq<S>,
    after: Seq<S>,
    dy: Seq<S>,
    x: Seq<S>,
    m: nat,
    n: nat,
    k: nat,
    c: int,
    p: int,
)
    requires
        exact(val),
        k > 0,
        before.len() == n * k,
        is_matmul_tn(before, after, dy, x, n, k, m),
        0 <= c < n,
        0 <= p < k,
    ensures
        val(after[c * k + p]) == val(before[c * k + p]) + applied_back(
            matrix_nums(val, x, k),
            column_nums(val, dy, n, c),
            m,
        )(p),
{
    lemma_whole_rows(n as int, k as int);
    lemma_row_inside(c, n as int, k as int);
    assert(matmul_tn_row(dy, x, n, m, c, row_of(before, k, c), row_of(after, k, c)));
    let v = row_of(after, k, c)[p];
    assert(is_landed_dot(dy, c, n as int, x, p, k as int, m, true, row_of(before, k, c)[p], v));
    let acc = choose|acc: S| #[trigger]
        is_dot(dy, c, n as int, x, p, k as int, m, acc) && crate::scalar::lands(
            true,
            row_of(before, k, c)[p],
            acc,
            v,
        );
    lemma_dot_exact(val, dy, c, n as int, x, p, k as int, m, acc);
    let f = |r: int| val(dy[c + r * n]) * val(x[p + r * k]);
    let g = |r: int| matrix_nums(val, x, k)(r, p) * column_nums(val, dy, n, c)(r);
    assert forall|r: int| 0 <= r < m implies #[trigger] f(r) == g(r) by {
        assert(c + r * n == r * n + c && p + r * k == r * k + p);
        let (a, b) = (val(dy[r * n + c]), val(x[r * k + p]));
        assert(a * b == b * a) by (nonlinear_arith);
    }
    lemma_total_same(f, g, m);
}

/// How number (`r`, `c`) of `y = x @ w^T` moves on account of `x`.
pub open spec fn moved_by_input<S>(
    val: spec_fn(S) -> real,
    w: Seq<S>,
    mx: Seq<real>,
    k: nat,
    r: int,
    c: int,
) -> real {
    applied(matrix_nums(val, w, k), row_moves(mx, k, r), k)(c)
}

/// How number (`r`, `c`) of `y = x @ w^T` moves on account of `w`.
pub open spec fn moved_by_weights<S>(
    val: spec_fn(S) -> real,
    x: Seq<S>,
    mw: Seq<real>,
    k: nat,
    r: int,
    c: int,
) -> real {
    applied(matrix_nums(val, x, k), row_moves(mw, k, c), k)(r)
}

/// The product rule for `y = x @ w^T`, with `x` of shape (m, k), `w` (n, k) and `y` (m, n).
pub open spec fn moves_linear<S>(
    val: spec_fn(S) -> real,
    my: Seq<real>,
    x: Seq<S>,
    mx: Seq<real>,
    w: Seq<S>,
    mw: Seq<real>,
    m: nat,
    n: nat,
    k: nat,
) -> bool {
    forall|r: int, c: int, i: int|
        0 <= r < m && 0 <= c < n && i == r * n + c ==> #[trigger] my[i] == #[trigger]
        moved_by_input(val, w, mx, k, r, c) + moved_by_weights(val, x, mw, k, r, c)
}

/// What goes back to row `r` of the input, paired with the motion of the row.
pub open spec fn pulled_row<S>(
    val: spec_fn(S) -> real,
    dy: Seq<S>,
    w: Seq<S>,
    mx: Seq<real>,
    n: nat,
    k: nat,
) -> spec_fn(int) -> real {
    |r: int|
        inner(
            applied_back(matrix_nums(val, w, k), row_nums(val, dy, n, r), n),
            row_moves(mx, k, r),
            k,
        )
}

/// The gradient of the output paired with its motion on account of the input is what goes
/// back to the input, paired with the input's motion.
proof fn lemma_linear_input<S>(
    val: spec_fn(S) -> real,
    dy: Seq<S>,
    w: Seq<S>,
    mx: Seq<real>,
    n: nat,
    k: nat,
    r: int,
)
    ensures
        inner(row_nums(val, dy, n, r), |c: int| moved_by_input(val, w, mx, k, r, c), n)
            == pulled_row(val, dy, w, mx, n, k)(r),
{
    let a = row_nums(val, dy, n, r);
    let f = matrix_nums(val, w, k);
    let b = row_moves(mx, k, r);
    lemma_transpose(a, f, b, n, k);
    lemma_inner_same(a, |c: int| moved_by_input(val, w, mx, k, r, c), a, applied(f, b, k), n);
}

/// The gradient of the output paired with its motion on account of the weights is what is
/// added to the gradient of the weights, paired with the weights' motion.
proof fn lemma_linear_weights<S: Scalar>(
    val: spec_fn(S) -> real,
    before: Seq<S>,
    after: Seq<S>,
    dy: Seq<S>,
    x: Seq<S>,
    mw: Seq<real>,
    m: nat,
    n: nat,
    k: nat,
)
    requires
        exact(val),
        k > 0,
        before.len() == n * k,
        is_matmul_tn(before, after, dy, x, n, k, m),
    ensures
        total_of(
            |r: int|
                inner(row_nums(val, dy, n, r), |c: int| moved_by_weights(val, x, mw, k, r, c), n),
            m,
        ) == pairing(val, after, mw, n * k) - pairing(val, before, mw, n * k),
{
    let all = |r: int, c: int| val(dy[r * n + c]) * moved_by_weights(val, x, mw, k, r, c);
    let left = |r: int|
        inner(row_nums(val, dy, n, r), |c: int| moved_by_weights(val, x, mw, k, r, c), n);
    let rows = |r: int| total_of(row_terms(all, r), n);
    assert forall|r: int| 0 <= r < m implies #[trigger] left(r) == rows(r) by {
        let g = |c: int| moved_by_weights(val, x, mw, k, r, c);
        let f = |c: int| row_nums(val, dy, n, r)(c) * g(c);
        lemma_total_same(f, row_terms(all, r), n);
    }
    lemma_total_same(left, rows, m);
    lemma_total_swap(all, m, n);
    let columns = |c: int| total_of(column_terms(all, c), m);
    let (pa, pb) = (paired_row(val, after, mw, k), paired_row(val, before, mw, k));
    assert forall|c: int| 0 <= c < n implies #[trigger] pa(c) == pb(c) + columns(c) by {
        let a = column_nums(val, dy, n, c);
        let f = matrix_nums(val, x, k);
        let b = row_moves(mw, k, c);
        lemma_transpose(a, f, b, m, k);
        let g = |r: int| a(r) * applied(f, b, k)(r);
        lemma_total_same(column_terms(all, c), g, m);
        let added = applied_back(f, a, m);
        assert forall|p: int| 0 <= p < k implies #[trigger] row_nums(val, after, k, c)(p)
            == row_nums(val, before, k, c)(p) + added(p) by {
            lemma_matmul_tn_entry(val, before, after, dy, x, m, n, k, c, p);
        }
        lemma_inner_flip(row_nums(val, after, k, c), b, k);
        lemma_inner_flip(row_nums(val, before, k, c), b, k);
        lemma_inner_flip(added, b, k);
        lemma_inner_add(
            b,
            row_nums(val, before, k, c),
            added,
            row_nums(val, after, k, c),
            k,
        );
    }
    lemma_total_add(pb, columns, pa, n);
    lemma_pairing_rows(val, after, mw, n, k);
    lemma_pairing_rows(val, before, mw, n, k);
}

/// The backward pass of a linear layer is its adjoint: given `y = x @ w^T` and any motion of
/// `x` and `w`, the gradient of `y` paired with its motion equals the gradient of `x` paired
/// with its motion plus what is added to the gradient of `w`, paired with its motion.
pub proof fn law_linear_adjoint<S: Scalar>(
    val: spec_fn(S) -> real,
    dx: Seq<S>,
    dy: Seq<S>,
    before: Seq<S>,
    after: Seq<S>,
    my: Seq<real>,
    x: Seq<S>,
    mx: Seq<real>,
    w: Seq<S>,
    mw: Seq<real>,
    m: nat,
    n: nat,
    k: nat,
)
    requires
        exact(val),
        k > 0,
        dx.len() == m * k,
        before.len() == n * k,
        is_linear_bwd(dx, dy, w, k, n),
        is_matmul_tn(before, after, dy, x, n, k, m),
        moves_linear(val, my, x, mx, w, mw, m, n, k),
    ensures
        pairing(val, dy, my, m * n) == pairing(val, dx, mx, m * k) + pairing(
            val,
            after,
            mw,
            n * k,
        ) - pairing(val, before, mw, n * k),
{
    let pulled = pulled_row(val, dy, w, mx, n, k);
    let own = paired_row(val, dx, mx, k);
    assert forall|r: int| 0 <= r < m implies #[trigger] own(r) == pulled(r) by {
        let back = applied_back(matrix_nums(val, w, k), row_nums(val, dy, n, r), n);
        let b = row_moves(mx, k, r);
        assert forall|p: int| 0 <= p < k implies #[trigger] row_nums(val, dx, k, r)(p) == back(
            p,
        ) by {
            lemma_linear_bwd_entry(val, dx, dy, w, m, n, k, r, p);
        }
        lemma_inner_same(row_nums(val, dx, k, r), b, back, b, k);
    }
    lemma_total_same(own, pulled, m);
    lemma_pairing_rows(val, dx, mx, m, k);
    lemma_linear_split(val, dy, before, after, my, x, mx, w, mw, m, n, k);
}

/// [`law_linear_adjoint`] where the gradient of the input is added to `base`: what is added
/// counts.
pub proof fn law_linear_adjoint_added<S: Scalar>(
    val: spec_fn(S) -> real,
    base: Seq<S>,
    dx: Seq<S>,
    dy: Seq<S>,
    before: Seq<S>,
    after: Seq<S>,
    my: Seq<real>,
    x: Seq<S>,
    mx: Seq<real>,
    w: Seq<S>,
    mw: Seq<real>,
    m: nat,
    n: nat,
    k: nat,
)
    requires
        exact(val),
        k > 0,
        dx.len() == m * k,
        before.len() == n * k,
        is_matmul_nn(base, dx, dy, w, k, n, true),
        is_matmul_tn(before, after, dy, x, n, k, m),
        moves_linear(val, my, x, mx, w, mw, m, n, k),
    ensures
        pairing(val, dy, my, m * n) == pairing(val, dx, mx, m * k) - pairing(
            val,
            base,
            mx,
            m * k,
        ) + pairing(val, after, mw, n * k) - pairing(val, before, mw, n * k),
{
    let pulled = pulled_row(val, dy, w, mx, n, k);
    let (own, had) = (paired_row(val, dx, mx, k), paired_row(val, base, mx, k));
    assert forall|r: int| 0 <= r < m implies #[trigger] own(r) == had(r) + pulled(r) by {
        let back = applied_back(matrix_nums(val, w, k), row_nums(val, dy, n, r), n);
        let b = row_moves(mx, k, r);
        let (new, old_row) = (row_nums(val, dx, k, r), row_nums(val, base, k, r));
        assert forall|p: int| 0 <= p < k implies #[trigger] new(p) == old_row(p) + back(p) by {
            lemma_matmul_nn_entry(val, base, dx, dy, w, m, n, k, r, p);
        }
        lemma_inner_flip(new, b, k);
        lemma_inner_flip(old_row, b, k);
        lemma_inner_flip(back, b, k);
        lemma_inner_add(b, old_row, back, new, k);
    }
    lemma_total_add(had, pulled, own, m);
    lemma_pairing_rows(val, dx, mx, m, k);
    lemma_pairing_rows(val, base, mx, m, k);
    lemma_linear_split(val, dy, before, after, my, x, mx, w, mw, m, n, k);
}

/// The sum over both ways of moving.
proof fn lemma_linear_split<S: Scalar>(
    val: spec_fn(S) -> real,
    dy: Seq<S>,
    before: Seq<S>,
    after: Seq<S>,
    my: Seq<real>,
    x: Seq<S>,
    mx: Seq<real>,
    w: Seq<S>,
    mw: Seq<real>,
    m: nat,
    n: nat,
    k: nat,
)
    requires
        exact(val),
        k > 0,
        before.len() == n * k,
        is_matmul_tn(before, after, dy, x, n, k, m),
        moves_linear(val, my, x, mx, w, mw, m, n, k),
    ensures
        pairing(val, dy, my, m * n) == total_of(pulled_row(val, dy, w, mx, n, k), m) + pairing(
            val,
            after,
            mw,
            n * k,
        ) - pairing(val, before, mw, n * k),
{
    let whole = paired_row(val, dy, my, n);
    let by_input = pulled_row(val, dy, w, mx, n, k);
    let by_weights = |r: int|
        inner(row_nums(val, dy, n, r), |c: int| moved_by_weights(val, x, mw, k, r, c), n);
    assert forall|r: int| 0 <= r < m implies #[trigger] whole(r) == by_input(r) + by_weights(
        r,
    ) by {
        lemma_linear_input(val, dy, w, mx, n, k, r);
        let fi = |c: int| moved_by_input(val, w, mx, k, r, c);
        let fw = |c: int| moved_by_weights(val, x, mw, k, r, c);
        assert forall|c: int| 0 <= c < n implies #[trigger] row_moves(my, n, r)(c) == fi(c) + fw(
            c,
        ) by {
            assert(my[r * n + c] == moved_by_input(val, w, mx, k, r, c) + moved_by_weights(
                val,
                x,
                mw,
                k,
                r,
                c,
            ));
        }
        lemma_inner_add(row_nums(val, dy, n, r), fi, fw, row_moves(my, n, r), n);
    }
    lemma_total_add(by_input, by_weights, whole, m);
    lemma_pairing_rows(val, dy, my, m, n);
    lemma_linear_weights(val, before, after, dy, x, mw, m, n, k);
}

/// How `y = max(x, 0)` moves: with `x` where it is positive, not at all elsewhere.
pub open spec fn moves_relu<S>(
    val: spec_fn(S) -> real,
    my: Seq<real>,
    x: Seq<S>,
    mx: Seq<real>,
    n: nat,
) -> bool {
    forall|i: int|
        0 <= i < n ==> #[trigger] my[i] == if val(x[i]) > 0 as real {
            mx[i]
        } else {
            0 as real
        }
}

/// The backward pass of the cut-off is its adjoint.
pub proof fn law_relu_adjoint<S: Scalar>(
    val: spec_fn(S) -> real,
    dy: Seq<S>,
    dx: Seq<S>,
    my: Seq<real>,
    x: Seq<S>,
    mx: Seq<real>,
    n: nat,
)
    requires
        exact(val),
        dy.len() == n,
        is_relu_bwd(dy, dx, x),
        moves_relu(val, my, x, mx, n),
    ensures
        pairing(val, dy, my, n) == pairing(val, dx, mx, n),
{
    let f = |i: int| nums(val, dy)(i) * (|k: int| my[k])(i);
    let g = |i: int| nums(val, dx)(i) * (|k: int| mx[k])(i);
    assert forall|i: int| 0 <= i < n implies #[trigger] f(i) == g(i) by {
        assert(is_relu_grad(x[i], dy[i], dx[i]));
        let (a, b) = (val(dy[i]), mx[i]);
        assert(my[i] == if val(x[i]) > 0 as real {
            mx[i]
        } else {
            0 as real
        });
        assert(a * (0 as real) == 0 as real && (0 as real) * b == 0 as real) by (nonlinear_arith);
    }
    lemma_total_same(f, g, n);
}

/// Gradients that are added are paired one by one.
pub proof fn lemma_pairing_added<S: Scalar>(
    val: spec_fn(S) -> real,
    before: Seq<S>,
    after: Seq<S>,
    x: Seq<S>,
    m: Seq<real>,
    n: nat,
)
    requires
        exact(val),
        before.len() == n,
        is_add_inplace(before, after, x),
    ensures
        pairing(val, after, m, n) == pairing(val, before, m, n) + pairing(val, x, m, n),
{
    let f = |i: int| nums(val, before)(i) * (|k: int| m[k])(i);
    let g = |i: int| nums(val, x)(i) * (|k: int| m[k])(i);
    let h = |i: int| nums(val, after)(i) * (|k: int| m[k])(i);
    assert forall|i: int| 0 <= i < n implies #[trigger] h(i) == f(i) + g(i) by {
        let (a, b, c) = (val(before[i]), val(x[i]), m[i]);
        assert(val(after[i]) == a + b);
        assert((a + b) * c == a * c + b * c) by (nonlinear_arith);
    }
    lemma_total_add(f, g, h, n);
}

/// A motion that is the sum of two is paired one by one.
pub proof fn lemma_pairing_moves<S>(
    val: spec_fn(S) -> real,
    d: Seq<S>,
    a: Seq<real>,
    b: Seq<real>,
    sum: Seq<real>,
    n: nat,
)
    requires
        forall|i: int| 0 <= i < n ==> #[trigger] sum[i] == a[i] + b[i],
    ensures
        pairing(val, d, sum, n) == pairing(val, d, a, n) + pairing(val, d, b, n),
{
    lemma_inner_add(
        nums(val, d),
        |i: int| a[i],
        |i: int| b[i],
        |i: int| sum[i],
        n,
    );
}

} // verus!
