//! Exact arithmetic: what the operations of a scalar mean when nothing is rounded.
use vstd::prelude::*;

use crate::scalar::{
    is_diff, is_exp, is_neg, is_num, is_one, is_prod, is_quot, is_ratio, is_running_sum, is_sqrt,
    is_sum, is_zero, tests_nonpositive, tests_positive, Scalar,
};

verus! {

/// The sum of the first `n` numbers of `f`.
pub open spec fn total_of(f: spec_fn(int) -> real, n: nat) -> real
    decreases n,
{
    if n == 0 {
        0 as real
    } else {
        total_of(f, (n - 1) as nat) + f(n - 1)
    }
}

/// A sum depends only on its terms.
pub proof fn lemma_total_same(f: spec_fn(int) -> real, g: spec_fn(int) -> real, n: nat)
    requires
        forall|i: int| 0 <= i < n ==> #[trigger] f(i) == g(i),
    ensures
        total_of(f, n) == total_of(g, n),
    decreases n,
{
    if n > 0 {
        lemma_total_same(f, g, (n - 1) as nat);
        assert(f(n - 1) == g(n - 1));
    }
}

/// A sum of zeros is zero.
pub proof fn lemma_total_zero(f: spec_fn(int) -> real, n: nat)
    requires
        forall|i: int| 0 <= i < n ==> #[trigger] f(i) == 0 as real,
    ensures
        total_of(f, n) == 0 as real,
    decreases n,
{
    if n > 0 {
        lemma_total_zero(f, (n - 1) as nat);
        assert(f(n - 1) == 0 as real);
    }
}

/// The sum of sums, term by term.
pub proof fn lemma_total_add(
    f: spec_fn(int) -> real,
    g: spec_fn(int) -> real,
    h: spec_fn(int) -> real,
    n: nat,
)
    requires
        forall|i: int| 0 <= i < n ==> #[trigger] h(i) == f(i) + g(i),
    ensures
        total_of(h, n) == total_of(f, n) + total_of(g, n),
    decreases n,
{
    if n > 0 {
        lemma_total_add(f, g, h, (n - 1) as nat);
        assert(h(n - 1) == f(n - 1) + g(n - 1));
    }
}

/// A common factor.
pub proof fn lemma_total_scale(
    c: real,
    f: spec_fn(int) -> real,
    h: spec_fn(int) -> real,
    n: nat,
)
    requires
        forall|i: int| 0 <= i < n ==> #[trigger] h(i) == c * f(i),
    ensures
        total_of(h, n) == c * total_of(f, n),
    decreases n,
{
    if n > 0 {
        lemma_total_scale(c, f, h, (n - 1) as nat);
        let (t, last) = (total_of(f, (n - 1) as nat), f(n - 1));
        assert(h(n - 1) == c * last);
        assert(c * (t + last) == c * t + c * last) by (nonlinear_arith);
    } else {
        assert(c * (0 as real) == 0 as real) by (nonlinear_arith);
    }
}

/// A sum in which only term `k` is not zero.
pub proof fn lemma_total_pick(f: spec_fn(int) -> real, k: int, n: nat)
    requires
        0 <= k < n,
        forall|i: int| 0 <= i < n && i != k ==> #[trigger] f(i) == 0 as real,
    ensures
        total_of(f, n) == f(k),
    decreases n,
{
    if k == n - 1 {
        lemma_total_zero(f, (n - 1) as nat);
    } else {
        lemma_total_pick(f, k, (n - 1) as nat);
        assert(f(n - 1) == 0 as real);
    }
}

/// The terms of row `i` of a double sum.
pub open spec fn row_terms(f: spec_fn(int, int) -> real, i: int) -> spec_fn(int) -> real {
    |j: int| f(i, j)
}

/// The terms of column `j` of a double sum.
pub open spec fn column_terms(f: spec_fn(int, int) -> real, j: int) -> spec_fn(int) -> real {
    |i: int| f(i, j)
}

/// A double sum, row by row.
pub open spec fn total_by_rows(f: spec_fn(int, int) -> real, m: nat, n: nat) -> real {
    total_of(|i: int| total_of(row_terms(f, i), n), m)
}

/// A double sum, column by column.
pub open spec fn total_by_columns(f: spec_fn(int, int) -> real, m: nat, n: nat) -> real {
    total_of(|j: int| total_of(column_terms(f, j), m), n)
}

/// The order of a double sum does not matter.
pub proof fn lemma_total_swap(f: spec_fn(int, int) -> real, m: nat, n: nat)
    ensures
        total_by_rows(f, m, n) == total_by_columns(f, m, n),
    decreases m,
{
    let by_column = |j: int| total_of(column_terms(f, j), m);
    if m == 0 {
        lemma_total_zero(by_column, n);
    } else {
        let less = (m - 1) as nat;
        lemma_total_swap(f, less, n);
        let fewer = |j: int| total_of(column_terms(f, j), less);
        let last = row_terms(f, m - 1);
        assert forall|j: int| 0 <= j < n implies #[trigger] by_column(j) == fewer(j) + last(j) by {
            assert(column_terms(f, j)(m - 1) == f(m - 1, j));
        }
        lemma_total_add(fewer, last, by_column, n);
        let rows = |i: int| total_of(row_terms(f, i), n);
        assert(total_of(rows, m) == total_of(rows, less) + rows(m - 1));
    }
}

/// A sum over the places of a matrix, row by row.
pub proof fn lemma_total_rows(f: spec_fn(int) -> real, g: spec_fn(int, int) -> real, m: nat, n: nat)
    requires
        forall|i: int, j: int|
            0 <= i < m && 0 <= j < n ==> #[trigger] g(i, j) == f(i * n + j),
    ensures
        total_of(f, m * n) == total_by_rows(g, m, n),
    decreases m,
{
    let rows = |i: int| total_of(row_terms(g, i), n);
    if m > 0 {
        let less = (m - 1) as nat;
        lemma_total_rows(f, g, less, n);
        assert(m * n == less * n + n) by (nonlinear_arith)
            requires
                less == m - 1,
        ;
        let start = (less * n) as nat;
        assert forall|j: int| 0 <= j < n implies #[trigger] row_terms(g, m - 1)(j) == f(
            start + j,
        ) by {
            assert(g(m - 1, j) == f((m - 1) * n + j));
        }
        lemma_total_append(f, row_terms(g, m - 1), start, n);
        assert(total_of(rows, m) == total_of(rows, less) + rows(m - 1));
    } else {
        assert(0 * n == 0) by (nonlinear_arith);
    }
}

/// A sum in two parts.
pub proof fn lemma_total_append(
    f: spec_fn(int) -> real,
    tail: spec_fn(int) -> real,
    a: nat,
    b: nat,
)
    requires
        forall|j: int| 0 <= j < b ==> #[trigger] tail(j) == f(a + j),
    ensures
        total_of(f, a + b) == total_of(f, a) + total_of(tail, b),
    decreases b,
{
    if b > 0 {
        lemma_total_append(f, tail, a, (b - 1) as nat);
        assert(tail(b - 1) == f(a + (b - 1)));
    }
}

/// Zeros at the end do not count.
pub proof fn lemma_total_tail(f: spec_fn(int) -> real, a: nat, n: nat)
    requires
        a <= n,
        forall|i: int| a <= i < n ==> #[trigger] f(i) == 0 as real,
    ensures
        total_of(f, n) == total_of(f, a),
    decreases n,
{
    if a < n {
        lemma_total_tail(f, a, (n - 1) as nat);
        assert(f(n - 1) == 0 as real);
    }
}

/// Zeros at the start do not count.
pub proof fn lemma_total_head(
    f: spec_fn(int) -> real,
    tail: spec_fn(int) -> real,
    a: nat,
    n: nat,
)
    requires
        a <= n,
        forall|i: int| 0 <= i < a ==> #[trigger] f(i) == 0 as real,
        forall|j: int| 0 <= j < n - a ==> #[trigger] tail(j) == f(a + j),
    ensures
        total_of(f, n) == total_of(tail, (n - a) as nat),
{
    lemma_total_zero(f, a);
    lemma_total_append(f, tail, a, (n - a) as nat);
}

/// A double sum depends only on its terms.
pub proof fn lemma_rows_same(
    f: spec_fn(int, int) -> real,
    g: spec_fn(int, int) -> real,
    m: nat,
    n: nat,
)
    requires
        forall|i: int, j: int| 0 <= i < m && 0 <= j < n ==> #[trigger] f(i, j) == g(i, j),
    ensures
        total_by_rows(f, m, n) == total_by_rows(g, m, n),
{
    let (a, b) = (|i: int| total_of(row_terms(f, i), n), |i: int| total_of(row_terms(g, i), n));
    assert forall|i: int| 0 <= i < m implies #[trigger] a(i) == b(i) by {
        assert forall|j: int| 0 <= j < n implies #[trigger] row_terms(f, i)(j) == row_terms(g, i)(
            j,
        ) by {
            assert(f(i, j) == g(i, j));
        }
        lemma_total_same(row_terms(f, i), row_terms(g, i), n);
    }
    lemma_total_same(a, b, m);
}

/// A double sum of sums.
pub proof fn lemma_rows_add(
    f: spec_fn(int, int) -> real,
    g: spec_fn(int, int) -> real,
    h: spec_fn(int, int) -> real,
    m: nat,
    n: nat,
)
    requires
        forall|i: int, j: int|
            0 <= i < m && 0 <= j < n ==> #[trigger] h(i, j) == f(i, j) + g(i, j),
    ensures
        total_by_rows(h, m, n) == total_by_rows(f, m, n) + total_by_rows(g, m, n),
{
    let (a, b, c) = (
        |i: int| total_of(row_terms(f, i), n),
        |i: int| total_of(row_terms(g, i), n),
        |i: int| total_of(row_terms(h, i), n),
    );
    assert forall|i: int| 0 <= i < m implies #[trigger] c(i) == a(i) + b(i) by {
        assert forall|j: int| 0 <= j < n implies #[trigger] row_terms(h, i)(j) == row_terms(f, i)(
            j,
        ) + row_terms(g, i)(j) by {
            assert(h(i, j) == f(i, j) + g(i, j));
        }
        lemma_total_add(row_terms(f, i), row_terms(g, i), row_terms(h, i), n);
    }
    lemma_total_add(a, b, c, m);
}

/// What the matrix `f`, of `n` columns, makes of `b`: number `i`.
pub open spec fn applied(f: spec_fn(int, int) -> real, b: spec_fn(int) -> real, n: nat) -> spec_fn(
    int,
) -> real {
    |i: int| total_of(|j: int| f(i, j) * b(j), n)
}

/// What the transposed matrix `f`, of `m` rows, makes of `a`: number `j`.
pub open spec fn applied_back(
    f: spec_fn(int, int) -> real,
    a: spec_fn(int) -> real,
    m: nat,
) -> spec_fn(int) -> real {
    |j: int| total_of(|i: int| f(i, j) * a(i), m)
}

/// The product of two sequences of `n` numbers.
pub open spec fn inner(a: spec_fn(int) -> real, b: spec_fn(int) -> real, n: nat) -> real {
    total_of(|i: int| a(i) * b(i), n)
}

/// Transposing: `a . (f b) == (f^T a) . b`.
pub proof fn lemma_transpose(
    a: spec_fn(int) -> real,
    f: spec_fn(int, int) -> real,
    b: spec_fn(int) -> real,
    m: nat,
    n: nat,
)
    ensures
        inner(a, applied(f, b, n), m) == inner(applied_back(f, a, m), b, n),
{
    let all = |i: int, j: int| a(i) * f(i, j) * b(j);
    let left = |i: int| a(i) * applied(f, b, n)(i);
    let right = |j: int| applied_back(f, a, m)(j) * b(j);
    let rows = |i: int| total_of(row_terms(all, i), n);
    let columns = |j: int| total_of(column_terms(all, j), m);
    assert forall|i: int| 0 <= i < m implies #[trigger] left(i) == rows(i) by {
        let x = a(i);
        let g = |j: int| f(i, j) * b(j);
        assert forall|j: int| 0 <= j < n implies #[trigger] row_terms(all, i)(j) == x * g(j) by {
            let (y, z) = (f(i, j), b(j));
            assert(x * y * z == x * (y * z)) by (nonlinear_arith);
        }
        lemma_total_scale(x, g, row_terms(all, i), n);
    }
    lemma_total_same(left, rows, m);
    assert forall|j: int| 0 <= j < n implies #[trigger] right(j) == columns(j) by {
        let z = b(j);
        let g = |i: int| f(i, j) * a(i);
        assert forall|i: int| 0 <= i < m implies #[trigger] column_terms(all, j)(i) == z * g(i) by {
            let (x, y) = (a(i), f(i, j));
            assert(x * y * z == z * (y * x)) by (nonlinear_arith);
        }
        lemma_total_scale(z, g, column_terms(all, j), m);
        let t = total_of(g, m);
        assert(t * z == z * t) by (nonlinear_arith);
    }
    lemma_total_same(right, columns, n);
    lemma_total_swap(all, m, n);
}

/// A product with a sum.
pub proof fn lemma_inner_add(
    a: spec_fn(int) -> real,
    b: spec_fn(int) -> real,
    c: spec_fn(int) -> real,
    sum: spec_fn(int) -> real,
    n: nat,
)
    requires
        forall|i: int| 0 <= i < n ==> #[trigger] sum(i) == b(i) + c(i),
    ensures
        inner(a, sum, n) == inner(a, b, n) + inner(a, c, n),
{
    let (f, g, h) = (|i: int| a(i) * b(i), |i: int| a(i) * c(i), |i: int| a(i) * sum(i));
    assert forall|i: int| 0 <= i < n implies #[trigger] h(i) == f(i) + g(i) by {
        let (x, y, z) = (a(i), b(i), c(i));
        assert(sum(i) == y + z);
        assert(x * (y + z) == x * y + x * z) by (nonlinear_arith);
    }
    lemma_total_add(f, g, h, n);
}

/// A product depends only on its numbers.
pub proof fn lemma_inner_same(
    a: spec_fn(int) -> real,
    b: spec_fn(int) -> real,
    c: spec_fn(int) -> real,
    d: spec_fn(int) -> real,
    n: nat,
)
    requires
        forall|i: int| 0 <= i < n ==> #[trigger] a(i) == c(i),
        forall|i: int| 0 <= i < n ==> #[trigger] b(i) == d(i),
    ensures
        inner(a, b, n) == inner(c, d, n),
{
    let (f, g) = (|i: int| a(i) * b(i), |i: int| c(i) * d(i));
    assert forall|i: int| 0 <= i < n implies #[trigger] f(i) == g(i) by {
        assert(a(i) == c(i) && b(i) == d(i));
    }
    lemma_total_same(f, g, n);
}

/// The factors of a product can be exchanged.
pub proof fn lemma_inner_flip(a: spec_fn(int) -> real, b: spec_fn(int) -> real, n: nat)
    ensures
        inner(a, b, n) == inner(b, a, n),
{
    let (f, g) = (|i: int| a(i) * b(i), |i: int| b(i) * a(i));
    assert forall|i: int| 0 <= i < n implies #[trigger] f(i) == g(i) by {
        let (x, y) = (a(i), b(i));
        assert(x * y == y * x) by (nonlinear_arith);
    }
    lemma_total_same(f, g, n);
}

/// A scaled factor.
pub proof fn lemma_inner_scaled(
    a: spec_fn(int) -> real,
    c: real,
    b: spec_fn(int) -> real,
    scaled: spec_fn(int) -> real,
    n: nat,
)
    requires
        forall|j: int| 0 <= j < n ==> #[trigger] scaled(j) == c * b(j),
    ensures
        inner(a, scaled, n) == c * inner(a, b, n),
{
    let f = |j: int| a(j) * b(j);
    let h = |j: int| a(j) * scaled(j);
    assert forall|j: int| 0 <= j < n implies #[trigger] h(j) == c * f(j) by {
        let (x, y) = (a(j), b(j));
        assert(scaled(j) == c * y);
        assert(x * (c * y) == c * (x * y)) by (nonlinear_arith);
    }
    lemma_total_scale(c, f, h, n);
}

/// A quotient times its divisor.
pub proof fn lemma_quotient(a: real, b: real)
    requires
        b != 0 as real,
    ensures
        (a / b) * b == a,
{
    assert((a / b) * b == a) by (nonlinear_arith)
        requires
            b != 0 as real,
    ;
}

/// A divisor that is not zero can be cancelled.
pub proof fn lemma_cancel(p: real, q: real, b: real)
    requires
        b != 0 as real,
        p * b == q * b,
    ensures
        p == q,
{
    assert(p == q) by (nonlinear_arith)
        requires
            b != 0 as real,
            p * b == q * b,
    ;
}

/// Whether the operations of `S` compute exactly, where `val` is the number that a scalar
/// stands for.
pub open spec fn exact<S: Scalar>(val: spec_fn(S) -> real) -> bool {
    &&& forall|r: S| #[trigger] is_zero(r) ==> val(r) == 0 as real
    &&& forall|r: S| #[trigger] is_one(r) ==> val(r) == 1 as real
    &&& forall|n: u64, r: S| #[trigger] is_num(n, r) ==> val(r) == n as real
    &&& forall|a: S, b: S, r: S| #[trigger] is_sum(a, b, r) ==> val(r) == val(a) + val(b)
    &&& forall|a: S, b: S, r: S| #[trigger] is_diff(a, b, r) ==> val(r) == val(a) - val(b)
    &&& forall|a: S, b: S, r: S| #[trigger] is_prod(a, b, r) ==> val(r) == val(a) * val(b)
    &&& forall|a: S, r: S| #[trigger] is_neg(a, r) ==> val(r) == -val(a)
    &&& forall|a: S, b: S, r: S| #[trigger]
        is_quot(a, b, r) && val(b) != 0 as real ==> val(r) == val(a) / val(b)
    &&& forall|num: u32, den: u32, r: S| #[trigger]
        is_ratio(num, den, r) && den != 0 ==> val(r) == num as real / den as real
    &&& forall|a: S, r: S| #[trigger]
        is_sqrt(a, r) && val(a) >= 0 as real ==> val(r) >= 0 as real && val(r) * val(r) == val(a)
    &&& forall|a: S, r: S| #[trigger] is_exp(a, r) ==> val(r) > 0 as real
    &&& forall|a: S, b: bool| #[trigger] tests_positive(a, b) ==> b == (val(a) > 0 as real)
    &&& forall|a: S, b: bool| #[trigger] tests_nonpositive(a, b) ==> b == (val(a) <= 0 as real)
}

/// A running sum of exact terms is their sum.
pub proof fn lemma_running_sum_exact<S: Scalar>(
    val: spec_fn(S) -> real,
    start: S,
    term: spec_fn(int, S) -> bool,
    f: spec_fn(int) -> real,
    n: nat,
    r: S,
)
    requires
        exact(val),
        is_running_sum(start, term, n, r),
        forall|i: int, t: S| 0 <= i < n && #[trigger] term(i, t) ==> val(t) == f(i),
    ensures
        val(r) == val(start) + total_of(f, n),
    decreases n,
{
    if n > 0 {
        let (acc, t) = choose|acc: S, t: S|
            is_running_sum(start, term, (n - 1) as nat, acc) && term(n - 1, t) && #[trigger] is_sum(
                acc,
                t,
                r,
            );
        lemma_running_sum_exact(val, start, term, f, (n - 1) as nat, acc);
    }
}

} // verus!
