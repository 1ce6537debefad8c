//! Matrix products over flat row-major buffers: a linear layer and its two backward
//! passes.
use vstd::prelude::*;

use crate::index::{lemma_row_inside, lemma_rows_cover, lemma_whole_rows};
use crate::reduce::{dot, dot_term, is_dot};
use crate::rows::{all_rows, each_row, row_of, RowKernel, RowRunner};
use crate::scalar::{is_running_sum, is_zero, lands, lemma_running_sum_step, Scalar};

verus! {

/// `r` is the dot product that lands in a place holding `before`.
pub open spec fn is_landed_dot<S: Scalar>(
    x: Seq<S>,
    xo: int,
    xs: int,
    y: Seq<S>,
    yo: int,
    ys: int,
    n: nat,
    accum: bool,
    before: S,
    r: S,
) -> bool {
    exists|acc: S| #[trigger]
        is_dot(x, xo, xs, y, yo, ys, n, acc) && lands(accum, before, acc, r)
}

/// Row `r` of `x @ w^T`, where rows of `x` and `w` have `k` numbers.
pub open spec fn matmul_nt_row<S: Scalar>(
    x: Seq<S>,
    w: Seq<S>,
    k: nat,
    accum: bool,
    r: int,
    before: Seq<S>,
    after: Seq<S>,
) -> bool {
    forall|col: int|
        0 <= col < before.len() ==> is_landed_dot(
            x,
            r * k,
            1,
            w,
            col * k,
            1,
            k,
            accum,
            before[col],
            #[trigger] after[col],
        )
}

/// `after` is `x @ w^T` with `x` of shape (m, k), `w` (n, k) and the result (m, n); where
/// `accum` is set it is added to `before`.
pub open spec fn is_matmul_nt<S: Scalar>(
    before: Seq<S>,
    after: Seq<S>,
    x: Seq<S>,
    w: Seq<S>,
    n: nat,
    k: nat,
    accum: bool,
) -> bool {
    each_row(
        |r: int, b: Seq<S>, a: Seq<S>| matmul_nt_row(x, w, k, accum, r, b, a),
        n,
        before,
        after,
    )
}

/// Row `r` of `x @ w`, where rows of `x` have `k` numbers.
pub open spec fn matmul_nn_row<S: Scalar>(
    x: Seq<S>,
    w: Seq<S>,
    k: nat,
    accum: bool,
    r: int,
    before: Seq<S>,
    after: Seq<S>,
) -> bool {
    forall|col: int|
        0 <= col < before.len() ==> is_landed_dot(
            x,
            r * k,
            1,
            w,
            col,
            before.len() as int,
            k,
            accum,
            before[col],
            #[trigger] after[col],
        )
}

/// `after` is `x @ w` with `x` of shape (m, k), `w` (k, n) and the result (m, n); where
/// `accum` is set it is added to `before`.
pub open spec fn is_matmul_nn<S: Scalar>(
    before: Seq<S>,
    after: Seq<S>,
    x: Seq<S>,
    w: Seq<S>,
    n: nat,
    k: nat,
    accum: bool,
) -> bool {
    each_row(
        |r: int, b: Seq<S>, a: Seq<S>| matmul_nn_row(x, w, k, accum, r, b, a),
        n,
        before,
        after,
    )
}

/// Row `r` of `before + dy^T @ x`, where rows of `dy` have `m` numbers and there are `k` of
/// them.
pub open spec fn matmul_tn_row<S: Scalar>(
    dy: Seq<S>,
    x: Seq<S>,
    m: nat,
    k: nat,
    r: int,
    before: Seq<S>,
    after: Seq<S>,
) -> bool {
    forall|col: int|
        0 <= col < before.len() ==> is_landed_dot(
            dy,
            r,
            m as int,
            x,
            col,
            before.len() as int,
            k,
            true,
            before[col],
            #[trigger] after[col],
        )
}

/// `after` is `before + dy^T @ x` with `dy` of shape (k, m), `x` (k, n) and the result
/// (m, n).
pub open spec fn is_matmul_tn<S: Scalar>(
    before: Seq<S>,
    after: Seq<S>,
    dy: Seq<S>,
    x: Seq<S>,
    m: nat,
    n: nat,
    k: nat,
) -> bool {
    each_row(
        |r: int, b: Seq<S>, a: Seq<S>| matmul_tn_row(dy, x, m, k, r, b, a),
        n,
        before,
        after,
    )
}

/// Row `r` of `x @ w^T`.
pub open spec fn linear_row<S: Scalar>(
    x: Seq<S>,
    w: Seq<S>,
    k: nat,
    r: int,
    y: Seq<S>,
) -> bool {
    forall|col: int|
        0 <= col < y.len() ==> is_dot(x, r * k, 1, w, col * k, 1, k, #[trigger] y[col])
}

/// `y` is `x @ w^T`.
pub open spec fn is_linear<S: Scalar>(y: Seq<S>, x: Seq<S>, w: Seq<S>, n: nat, k: nat) -> bool {
    all_rows(|r: int, a: Seq<S>| linear_row(x, w, k, r, a), n, y)
}

/// Row `r` of `dy @ w`.
pub open spec fn linear_bwd_row<S: Scalar>(
    dy: Seq<S>,
    w: Seq<S>,
    k: nat,
    r: int,
    dx: Seq<S>,
) -> bool {
    forall|col: int|
        0 <= col < dx.len() ==> is_dot(
            dy,
            r * k,
            1,
            w,
            col,
            dx.len() as int,
            k,
            #[trigger] dx[col],
        )
}

/// `dx` is `dy @ w`.
pub open spec fn is_linear_bwd<S: Scalar>(
    dx: Seq<S>,
    dy: Seq<S>,
    w: Seq<S>,
    n: nat,
    k: nat,
) -> bool {
    all_rows(|r: int, a: Seq<S>| linear_bwd_row(dy, w, k, r, a), n, dx)
}

/// A product that is not accumulated does not depend on what was there before.
pub proof fn lemma_linear_overwrites<S: Scalar>(
    before: Seq<S>,
    y: Seq<S>,
    x: Seq<S>,
    w: Seq<S>,
    n: nat,
    k: nat,
)
    requires
        n > 0,
        is_matmul_nt(before, y, x, w, n, k, false),
        y.len() % n == 0,
    ensures
        is_linear(y, x, w, n, k),
{
    let rows = y.len() as int / n as int;
    lemma_rows_cover(y.len() as int, n as int);
    assert forall|r: int| 0 <= r < rows implies linear_row(
        x,
        w,
        k,
        r,
        #[trigger] row_of(y, n, r),
    ) by {
        lemma_row_inside(r, rows, n as int);
        assert(matmul_nt_row(x, w, k, false, r, row_of(before, n, r), row_of(y, n, r)));
    }
}

/// A product that is not accumulated does not depend on what was there before.
pub proof fn lemma_linear_bwd_overwrites<S: Scalar>(
    before: Seq<S>,
    dx: Seq<S>,
    dy: Seq<S>,
    w: Seq<S>,
    n: nat,
    k: nat,
)
    requires
        n > 0,
        is_matmul_nn(before, dx, dy, w, n, k, false),
        dx.len() % n == 0,
    ensures
        is_linear_bwd(dx, dy, w, n, k),
{
    let rows = dx.len() as int / n as int;
    lemma_rows_cover(dx.len() as int, n as int);
    assert forall|r: int| 0 <= r < rows implies linear_bwd_row(
        dy,
        w,
        k,
        r,
        #[trigger] row_of(dx, n, r),
    ) by {
        lemma_row_inside(r, rows, n as int);
        assert(matmul_nn_row(dy, w, k, false, r, row_of(before, n, r), row_of(dx, n, r)));
    }
}

/// Puts `value` into a place that holds `before`.
pub fn land<S: Scalar>(accum: bool, before: S, value: S) -> (r: S)
    ensures
        lands(accum, before, value, r),
{
    if accum {
        before.add(value)
    } else {
        value
    }
}

/// The rows of `x @ w^T`.
pub struct MatmulNt<'a, S> {
    pub x: &'a [S],
    pub w: &'a [S],
    pub k: usize,
    pub accum: bool,
}

impl<'a, S: Scalar> RowKernel<S> for MatmulNt<'a, S> {
    open spec fn accepts(&self, r: int, row_len: nat) -> bool {
        &&& 0 <= r
        &&& (r + 1) * self.k <= self.x@.len()
        &&& row_len * self.k <= self.w@.len()
    }

    open spec fn row(&self, r: int, before: Seq<S>, after: Seq<S>) -> bool {
        matmul_nt_row(self.x@, self.w@, self.k as nat, self.accum, r, before, after)
    }

    fn apply(&self, r: usize, row: &mut [S]) {
        let ghost before = row@;
        let n: usize = row.len();
        let x_len: usize = self.x.len();
        let w_len: usize = self.w.len();
        proof {
            lemma_row_inside(r as int, r + 1, self.k as int);
        }
        for col in 0..n
            invariant
                n == before.len() == row@.len(),
                x_len == self.x@.len(),
                w_len == self.w@.len(),
                0 <= r * self.k,
                r * self.k + self.k <= self.x@.len(),
                n * self.k <= self.w@.len(),
                forall|j: int|
                    0 <= j < col ==> is_landed_dot(
                        self.x@,
                        r * self.k,
                        1,
                        self.w@,
                        j * self.k,
                        1,
                        self.k as nat,
                        self.accum,
                        before[j],
                        #[trigger] row@[j],
                    ),
                forall|j: int| col <= j < n ==> row@[j] == before[j],
        {
            proof {
                lemma_row_inside(col as int, n as int, self.k as int);
            }
            let acc: S = dot(self.x, r * self.k, 1, self.w, col * self.k, 1, self.k);
            row[col] = land(self.accum, row[col], acc);
        }
    }
}

/// Adds `s * w[from + j]` to every `acc[j]`.
fn add_scaled<S: Scalar>(
    acc: &mut Vec<S>,
    s: S,
    w: &[S],
    from: usize,
    Ghost(zeros): Ghost<Seq<S>>,
    Ghost(x): Ghost<Seq<S>>,
    Ghost(xo): Ghost<int>,
    Ghost(xs): Ghost<int>,
    Ghost(p): Ghost<nat>,
)
    requires
        from + old(acc)@.len() <= w@.len(),
        from == p * old(acc)@.len(),
        s == x[xo + p * xs],
        zeros.len() == old(acc)@.len(),
        forall|j: int|
            0 <= j < old(acc)@.len() ==> is_running_sum(
                zeros[j],
                dot_term(x, xo, xs, w@, j, old(acc)@.len() as int),
                p,
                #[trigger] old(acc)@[j],
            ),
    ensures
        final(acc)@.len() == old(acc)@.len(),
        forall|j: int|
            0 <= j < final(acc)@.len() ==> is_running_sum(
                zeros[j],
                dot_term(x, xo, xs, w@, j, final(acc)@.len() as int),
                p + 1,
                #[trigger] final(acc)@[j],
            ),
{
    let n: usize = acc.len();
    let w_len: usize = w.len();
    let ghost start = acc@;
    for j in 0..n
        invariant
            n == acc@.len() == start.len() == zeros.len(),
            w_len == w@.len(),
            from + n <= w@.len(),
            from == p * n,
            s == x[xo + p * xs],
            forall|i: int|
                0 <= i < j ==> is_running_sum(
                    zeros[i],
                    dot_term(x, xo, xs, w@, i, n as int),
                    p + 1,
                    #[trigger] acc@[i],
                ),
            forall|i: int| j <= i < n ==> acc@[i] == start[i],
            forall|i: int|
                0 <= i < n ==> is_running_sum(
                    zeros[i],
                    dot_term(x, xo, xs, w@, i, n as int),
                    p,
                    #[trigger] start[i],
                ),
    {
        let t: S = s.mul(w[from + j]);
        let ghost before = start[j as int];
        let sum: S = acc[j].add(t);
        proof {
            let term = dot_term(x, xo, xs, w@, j as int, n as int);
            assert(term(p as int, t));
            lemma_running_sum_step(zeros[j as int], term, p, before, t, sum);
        }
        acc[j] = sum;
    }
}

/// So many zeros.
pub fn zero_row<S: Scalar>(n: usize) -> (acc: Vec<S>)
    ensures
        acc@.len() == n,
        forall|j: int| 0 <= j < n ==> is_zero(#[trigger] acc@[j]),
{
    let mut acc: Vec<S> = Vec::new();
    for j in 0..n
        invariant
            acc@.len() == j,
            forall|i: int| 0 <= i < j ==> is_zero(#[trigger] acc@[i]),
    {
        acc.push(S::zero());
    }
    acc
}

/// Puts a row of finished dot products in its place.
fn land_row<S: Scalar>(
    row: &mut [S],
    acc: &Vec<S>,
    accum: bool,
    Ghost(zeros): Ghost<Seq<S>>,
    Ghost(x): Ghost<Seq<S>>,
    Ghost(xo): Ghost<int>,
    Ghost(xs): Ghost<int>,
    Ghost(w): Ghost<Seq<S>>,
    Ghost(k): Ghost<nat>,
)
    requires
        acc@.len() == old(row)@.len() == zeros.len(),
        forall|j: int| 0 <= j < zeros.len() ==> is_zero(#[trigger] zeros[j]),
        forall|j: int|
            0 <= j < acc@.len() ==> is_running_sum(
                zeros[j],
                dot_term(x, xo, xs, w, j, acc@.len() as int),
                k,
                #[trigger] acc@[j],
            ),
    ensures
        final(row)@.len() == old(row)@.len(),
        forall|j: int|
            0 <= j < old(row)@.len() ==> is_landed_dot(
                x,
                xo,
                xs,
                w,
                j,
                old(row)@.len() as int,
                k,
                accum,
                old(row)@[j],
                #[trigger] final(row)@[j],
            ),
{
    let n: usize = row.len();
    let ghost before = row@;
    for j in 0..n
        invariant
            n == acc@.len() == row@.len() == before.len() == zeros.len(),
            forall|i: int| 0 <= i < n ==> is_zero(#[trigger] zeros[i]),
            forall|i: int|
                0 <= i < n ==> is_running_sum(
                    zeros[i],
                    dot_term(x, xo, xs, w, i, n as int),
                    k,
                    #[trigger] acc@[i],
                ),
            forall|i: int|
                0 <= i < j ==> is_landed_dot(
                    x,
                    xo,
                    xs,
                    w,
                    i,
                    n as int,
                    k,
                    accum,
                    before[i],
                    #[trigger] row@[i],
                ),
            forall|i: int| j <= i < n ==> row@[i] == before[i],
    {
        let a: S = acc[j];
        assert(is_zero(zeros[j as int]));
        assert(is_dot(x, xo, xs, w, j as int, n as int, k, a));
        row[j] = land(accum, row[j], a);
    }
}

/// The rows of `x @ w`. The loop over the products is the outer one, so `w` and the
/// accumulators are walked one number at a time; every number is still the sum of its
/// products in order.
pub struct MatmulNn<'a, S> {
    pub x: &'a [S],
    pub w: &'a [S],
    pub k: usize,
    pub accum: bool,
}

impl<'a, S: Scalar> RowKernel<S> for MatmulNn<'a, S> {
    open spec fn accepts(&self, r: int, row_len: nat) -> bool {
        &&& 0 <= r
        &&& (r + 1) * self.k <= self.x@.len()
        &&& self.k * row_len <= self.w@.len()
    }

    open spec fn row(&self, r: int, before: Seq<S>, after: Seq<S>) -> bool {
        matmul_nn_row(self.x@, self.w@, self.k as nat, self.accum, r, before, after)
    }

    fn apply(&self, r: usize, row: &mut [S]) {
        let n: usize = row.len();
        let x_len: usize = self.x.len();
        let w_len: usize = self.w.len();
        let mut acc: Vec<S> = zero_row(n);
        let ghost zeros = acc@;
        let ghost xo = r * self.k;
        proof {
            lemma_row_inside(r as int, r + 1, self.k as int);
        }
        for p in 0..self.k
            invariant
                n == acc@.len() == zeros.len(),
                x_len == self.x@.len(),
                w_len == self.w@.len(),
                xo == r * self.k,
                0 <= xo,
                xo + self.k <= self.x@.len(),
                self.k * n <= self.w@.len(),
                forall|j: int|
                    0 <= j < n ==> is_running_sum(
                        zeros[j],
                        dot_term(self.x@, xo, 1, self.w@, j, n as int),
                        p as nat,
                        #[trigger] acc@[j],
                    ),
        {
            proof {
                lemma_row_inside(p as int, self.k as int, n as int);
            }
            let s: S = self.x[r * self.k + p];
            add_scaled(
                &mut acc,
                s,
                self.w,
                p * n,
                Ghost(zeros),
                Ghost(self.x@),
                Ghost(xo),
                Ghost(1),
                Ghost(p as nat),
            );
        }
        land_row(
            row,
            &acc,
            self.accum,
            Ghost(zeros),
            Ghost(self.x@),
            Ghost(xo),
            Ghost(1),
            Ghost(self.w@),
            Ghost(self.k as nat),
        );
    }
}

/// The rows of `dy^T @ x`, each added to what its place holds. The loops are ordered as
/// in [`MatmulNn`].
pub struct MatmulTn<'a, S> {
    pub dy: &'a [S],
    pub x: &'a [S],
    pub m: usize,
    pub k: usize,
}

impl<'a, S: Scalar> RowKernel<S> for MatmulTn<'a, S> {
    open spec fn accepts(&self, r: int, row_len: nat) -> bool {
        &&& 0 <= r < self.m
        &&& self.k * self.m <= self.dy@.len()
        &&& self.k * row_len <= self.x@.len()
    }

    open spec fn row(&self, r: int, before: Seq<S>, after: Seq<S>) -> bool {
        matmul_tn_row(self.dy@, self.x@, self.m as nat, self.k as nat, r, before, after)
    }

    fn apply(&self, r: usize, row: &mut [S]) {
        let n: usize = row.len();
        let dy_len: usize = self.dy.len();
        let x_len: usize = self.x.len();
        let mut acc: Vec<S> = zero_row(n);
        let ghost zeros = acc@;
        for p in 0..self.k
            invariant
                n == acc@.len() == zeros.len(),
                dy_len == self.dy@.len(),
                x_len == self.x@.len(),
                0 <= r < self.m,
                self.k * self.m <= self.dy@.len(),
                self.k * n <= self.x@.len(),
                forall|j: int|
                    0 <= j < n ==> is_running_sum(
                        zeros[j],
                        dot_term(self.dy@, r as int, self.m as int, self.x@, j, n as int),
                        p as nat,
                        #[trigger] acc@[j],
                    ),
        {
            proof {
                lemma_row_inside(p as int, self.k as int, n as int);
                lemma_row_inside(p as int, self.k as int, self.m as int);
            }
            let s: S = self.dy[p * self.m + r];
            add_scaled(
                &mut acc,
                s,
                self.x,
                p * n,
                Ghost(zeros),
                Ghost(self.dy@),
                Ghost(r as int),
                Ghost(self.m as int),
                Ghost(p as nat),
            );
        }
        land_row(
            row,
            &acc,
            true,
            Ghost(zeros),
            Ghost(self.dy@),
            Ghost(r as int),
            Ghost(self.m as int),
            Ghost(self.x@),
            Ghost(self.k as nat),
        );
    }
}

/// `y = x @ w^T`, the forward pass of a linear layer.
pub fn matmul_nt<S: Scalar, R: RowRunner>(
    runner: &R,
    y: &mut [S],
    x: &[S],
    w: &[S],
    n: usize,
    k: usize,
    accum: bool,
)
    requires
        n > 0,
        old(y)@.len() % n as nat == 0,
        (old(y)@.len() / n as nat) * k <= x@.len(),
        n * k <= w@.len(),
    ensures
        is_matmul_nt(old(y)@, final(y)@, x@, w@, n as nat, k as nat, accum),
{
    let kernel: MatmulNt<S> = MatmulNt { x, w, k, accum };
    proof {
        let rows = y@.len() as int / n as int;
        assert forall|r: int| 0 <= r < rows implies #[trigger] kernel.accepts(r, n as nat) by {
            lemma_row_inside(r, rows, k as int);
        }
    }
    runner.run(&kernel, y, n);
}

/// `y = x @ w`, the backward pass of a linear layer to its input.
pub fn matmul_nn<S: Scalar, R: RowRunner>(
    runner: &R,
    y: &mut [S],
    x: &[S],
    w: &[S],
    n: usize,
    k: usize,
    accum: bool,
)
    requires
        n > 0,
        old(y)@.len() % n as nat == 0,
        (old(y)@.len() / n as nat) * k <= x@.len(),
        k * n <= w@.len(),
    ensures
        is_matmul_nn(old(y)@, final(y)@, x@, w@, n as nat, k as nat, accum),
{
    let kernel: MatmulNn<S> = MatmulNn { x, w, k, accum };
    proof {
        let rows = y@.len() as int / n as int;
        assert forall|r: int| 0 <= r < rows implies #[trigger] kernel.accepts(r, n as nat) by {
            lemma_row_inside(r, rows, k as int);
        }
    }
    runner.run(&kernel, y, n);
}

/// `dw += dy^T @ x`, the backward pass of a linear layer to its weights.
pub fn matmul_tn<S: Scalar, R: RowRunner>(
    runner: &R,
    dw: &mut [S],
    dy: &[S],
    x: &[S],
    m: usize,
    n: usize,
    k: usize,
)
    requires
        n > 0,
        old(dw)@.len() == m * n,
        k * m <= dy@.len(),
        k * n <= x@.len(),
    ensures
        is_matmul_tn(old(dw)@, final(dw)@, dy@, x@, m as nat, n as nat, k as nat),
{
    let kernel: MatmulTn<S> = MatmulTn { dy, x, m, k };
    proof {
        lemma_whole_rows(m as int, n as int);
    }
    runner.run(&kernel, dw, n);
}

} // verus!
