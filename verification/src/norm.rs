//! Root-mean-square normalization of rows, and its backward pass.
use vstd::prelude::*;

use crate::index::{lemma_row_inside, lemma_rows_cover, lemma_whole_rows};
use crate::matmul::land;
use crate::reduce::{dot, is_dot};
use crate::rows::{all_rows, each_row, row_of, RowKernel, RowRunner};
use crate::scalar::{
    is_diff, is_num, is_one, is_prod, is_quot, is_ratio, is_sqrt, is_sum, lands, Scalar,
};

verus! {

/// What is added to the mean square, as one over this number.
pub const EPS_DEN: u32 = 100_000;

/// `r` is `1 / sqrt(ms + eps)`.
pub open spec fn is_inv_root<S: Scalar>(ms: S, r: S) -> bool {
    exists|eps: S, padded: S, root: S, one: S|
        #![trigger is_sum(ms, eps, padded), is_quot(one, root, r)]
        is_ratio(1, EPS_DEN, eps) && is_sum(ms, eps, padded) && is_sqrt(padded, root) && is_one(
            one,
        ) && is_quot(one, root, r)
}

/// `r` is one over the root mean square of row `t` of `x`.
pub open spec fn is_inv_rms<S: Scalar>(x: Seq<S>, c: nat, t: int, r: S) -> bool {
    exists|squares: S, count: S, ms: S|
        #![trigger is_quot(squares, count, ms)]
        is_dot(x, t * c, 1, x, t * c, 1, c, squares) && is_num(c as u64, count) && is_quot(
            squares,
            count,
            ms,
        ) && is_inv_root(ms, r)
}

/// Row `t` of `y = x * r`.
pub open spec fn scaled_row<S: Scalar>(
    x: Seq<S>,
    rinv: Seq<S>,
    t: int,
    after: Seq<S>,
) -> bool {
    forall|j: int|
        0 <= j < after.len() ==> is_prod(x[t * after.len() + j], rinv[t], #[trigger] after[j])
}

/// `y` is `x` with every row normalized, and `rinv` holds the factor of each row.
pub open spec fn is_rmsnorm<S: Scalar>(
    y: Seq<S>,
    rinv: Seq<S>,
    x: Seq<S>,
    c: nat,
) -> bool {
    &&& forall|t: int| 0 <= t < rinv.len() ==> is_inv_rms(x, c, t, #[trigger] rinv[t])
    &&& all_rows(|t: int, a: Seq<S>| scaled_row(x, rinv, t, a), c, y)
}

/// `k` is `r * r * r * dot / c`.
pub open spec fn is_pull<S: Scalar>(r: S, dot: S, c: nat, k: S) -> bool {
    exists|r2: S, r3: S, top: S, count: S|
        #![trigger is_prod(r2, r, r3), is_quot(top, count, k)]
        is_prod(r, r, r2) && is_prod(r2, r, r3) && is_prod(r3, dot, top) && is_num(
            c as u64,
            count,
        ) && is_quot(top, count, k)
}

/// `after` is `r * dy - k * x`, landed on `before`.
pub open spec fn is_norm_grad<S: Scalar>(
    r: S,
    dy: S,
    k: S,
    x: S,
    accum: bool,
    before: S,
    after: S,
) -> bool {
    exists|direct: S, pulled: S, g: S|
        #![trigger is_diff(direct, pulled, g)]
        is_prod(r, dy, direct) && is_prod(k, x, pulled) && is_diff(direct, pulled, g) && lands(
            accum,
            before,
            g,
            after,
        )
}

/// Row `t` of the backward pass of the normalization.
pub open spec fn rmsnorm_bwd_row<S: Scalar>(
    x: Seq<S>,
    rinv: Seq<S>,
    dy: Seq<S>,
    accum: bool,
    t: int,
    before: Seq<S>,
    after: Seq<S>,
) -> bool {
    exists|dot: S, k: S| #[trigger]
        rmsnorm_bwd_row_by(x, rinv, dy, accum, t, before, after, dot, k)
}

/// [`rmsnorm_bwd_row`], with the dot product of the row and the pull toward it.
pub open spec fn rmsnorm_bwd_row_by<S: Scalar>(
    x: Seq<S>,
    rinv: Seq<S>,
    dy: Seq<S>,
    accum: bool,
    t: int,
    before: Seq<S>,
    after: Seq<S>,
    dot: S,
    k: S,
) -> bool {
    let c = before.len();
    &&& is_dot(dy, t * c, 1, x, t * c, 1, c, dot)
    &&& is_pull(rinv[t], dot, c, k)
    &&& forall|j: int|
        0 <= j < c ==> is_norm_grad(
            rinv[t],
            dy[t * c + j],
            k,
            x[t * c + j],
            accum,
            before[j],
            #[trigger] after[j],
        )
}

/// `after` is the gradient of the rows `x`, given the gradient `dy` of the normalized ones.
pub open spec fn is_rmsnorm_bwd<S: Scalar>(
    before: Seq<S>,
    after: Seq<S>,
    x: Seq<S>,
    rinv: Seq<S>,
    dy: Seq<S>,
    c: nat,
    accum: bool,
) -> bool {
    each_row(
        |t: int, b: Seq<S>, a: Seq<S>| rmsnorm_bwd_row(x, rinv, dy, accum, t, b, a),
        c,
        before,
        after,
    )
}

/// `dx` is the gradient of the rows `x`.
pub open spec fn is_norm_bwd<S: Scalar>(
    dx: Seq<S>,
    x: Seq<S>,
    rinv: Seq<S>,
    dy: Seq<S>,
    c: nat,
) -> bool {
    all_rows(|t: int, a: Seq<S>| rmsnorm_bwd_row(x, rinv, dy, false, t, a, a), c, dx)
}

/// A gradient that is not accumulated does not depend on what was there before.
pub proof fn lemma_norm_bwd_overwrites<S: Scalar>(
    before: Seq<S>,
    dx: Seq<S>,
    x: Seq<S>,
    rinv: Seq<S>,
    dy: Seq<S>,
    c: nat,
)
    requires
        c > 0,
        is_rmsnorm_bwd(before, dx, x, rinv, dy, c, false),
        dx.len() % c == 0,
    ensures
        is_norm_bwd(dx, x, rinv, dy, c),
{
    let rows = dx.len() as int / c as int;
    lemma_rows_cover(dx.len() as int, c as int);
    assert forall|t: int| 0 <= t < rows implies rmsnorm_bwd_row(
        x,
        rinv,
        dy,
        false,
        t,
        row_of(dx, c, t),
        #[trigger] row_of(dx, c, t),
    ) by {
        lemma_row_inside(t, rows, c as int);
        let (b, a) = (row_of(before, c, t), row_of(dx, c, t));
        assert(rmsnorm_bwd_row(x, rinv, dy, false, t, b, a));
        let (dot, k) = choose|dot: S, k: S| #[trigger]
            rmsnorm_bwd_row_by(x, rinv, dy, false, t, b, a, dot, k);
        assert forall|j: int| 0 <= j < c implies is_norm_grad(
            rinv[t],
            dy[t * c + j],
            k,
            x[t * c + j],
            false,
            a[j],
            #[trigger] a[j],
        ) by {
            assert(is_norm_grad(rinv[t], dy[t * c + j], k, x[t * c + j], false, b[j], a[j]));
        }
        assert(rmsnorm_bwd_row_by(x, rinv, dy, false, t, a, a, dot, k));
    }
}

/// One over the root of `ms + eps`.
fn inv_root<S: Scalar>(ms: S) -> (r: S)
    ensures
        is_inv_root(ms, r),
{
    let eps: S = S::ratio(1, EPS_DEN);
    let padded: S = ms.add(eps);
    let root: S = padded.sqrt();
    let one: S = S::one();
    one.div(root)
}

/// The rows of `x`, each times its factor.
pub struct ScaleRows<'a, S> {
    pub x: &'a [S],
    pub rinv: &'a [S],
}

impl<'a, S: Scalar> RowKernel<S> for ScaleRows<'a, S> {
    open spec fn accepts(&self, r: int, row_len: nat) -> bool {
        &&& 0 <= r < self.rinv@.len()
        &&& (r + 1) * row_len <= self.x@.len()
    }

    open spec fn row(&self, r: int, before: Seq<S>, after: Seq<S>) -> bool {
        scaled_row(self.x@, self.rinv@, r, after)
    }

    fn apply(&self, t: usize, row: &mut [S]) {
        let c: usize = row.len();
        let x_len: usize = self.x.len();
        let r: S = self.rinv[t];
        proof {
            lemma_row_inside(t as int, t + 1, c as int);
        }
        for j in 0..c
            invariant
                c == row@.len(),
                x_len == self.x@.len(),
                0 <= t * c,
                t * c + c <= self.x@.len(),
                forall|i: int|
                    0 <= i < j ==> is_prod(self.x@[t * c + i], r, #[trigger] row@[i]),
        {
            row[j] = self.x[t * c + j].mul(r);
        }
    }
}

/// Normalizes the rows of `x` into `y` and keeps the factor of each row in `rinv`.
pub fn rmsnorm_fwd<S: Scalar, R: RowRunner>(
    runner: &R,
    y: &mut [S],
    rinv: &mut [S],
    x: &[S],
    c: usize,
)
    requires
        c > 0,
        old(y)@.len() == old(rinv)@.len() * c,
        old(rinv)@.len() * c <= x@.len(),
    ensures
        final(rinv)@.len() == old(rinv)@.len(),
        final(y)@.len() == old(y)@.len(),
        is_rmsnorm(final(y)@, final(rinv)@, x@, c as nat),
{
    let rows: usize = rinv.len();
    let x_len: usize = x.len();
    for t in 0..rows
        invariant
            c > 0,
            rows == rinv@.len(),
            x_len == x@.len(),
            rows * c <= x@.len(),
            forall|i: int| 0 <= i < t ==> is_inv_rms(x@, c as nat, i, #[trigger] rinv@[i]),
    {
        proof {
            lemma_row_inside(t as int, rows as int, c as int);
        }
        let squares: S = dot(x, t * c, 1, x, t * c, 1, c);
        let count: S = S::from_u64(c as u64);
        let ms: S = squares.div(count);
        rinv[t] = inv_root(ms);
        assert(is_inv_rms(x@, c as nat, t as int, rinv@[t as int]));
    }
    let kernel: ScaleRows<S> = ScaleRows { x, rinv };
    proof {
        lemma_whole_rows(rows as int, c as int);
        assert forall|r: int| 0 <= r < rows implies #[trigger] kernel.accepts(r, c as nat) by {
            lemma_row_inside(r, rows as int, c as int);
        }
    }
    runner.run(&kernel, y, c);
}

/// The rows of the gradient of a normalization.
pub struct RmsnormBwd<'a, S> {
    pub x: &'a [S],
    pub rinv: &'a [S],
    pub dy: &'a [S],
    pub accum: bool,
}

impl<'a, S: Scalar> RowKernel<S> for RmsnormBwd<'a, S> {
    open spec fn accepts(&self, r: int, row_len: nat) -> bool {
        &&& 0 <= r < self.rinv@.len()
        &&& 0 < row_len
        &&& (r + 1) * row_len <= self.x@.len()
        &&& (r + 1) * row_len <= self.dy@.len()
    }

    open spec fn row(&self, r: int, before: Seq<S>, after: Seq<S>) -> bool {
        rmsnorm_bwd_row(self.x@, self.rinv@, self.dy@, self.accum, r, before, after)
    }

    fn apply(&self, t: usize, row: &mut [S]) {
        let c: usize = row.len();
        let x_len: usize = self.x.len();
        let dy_len: usize = self.dy.len();
        let ghost before = row@;
        proof {
            lemma_row_inside(t as int, t + 1, c as int);
        }
        let along: S = dot(self.dy, t * c, 1, self.x, t * c, 1, c);
        let r: S = self.rinv[t];
        let r2: S = r.mul(r);
        let r3: S = r2.mul(r);
        let top: S = r3.mul(along);
        let count: S = S::from_u64(c as u64);
        let k: S = top.div(count);
        assert(is_pull(r, along, c as nat, k));
        for j in 0..c
            invariant
                c == row@.len() == before.len(),
                x_len == self.x@.len(),
                dy_len == self.dy@.len(),
                0 <= t * c,
                t * c + c <= self.x@.len(),
                t * c + c <= self.dy@.len(),
                forall|i: int|
                    0 <= i < j ==> is_norm_grad(
                        r,
                        self.dy@[t * c + i],
                        k,
                        self.x@[t * c + i],
                        self.accum,
                        before[i],
                        #[trigger] row@[i],
                    ),
                forall|i: int| j <= i < c ==> row@[i] == before[i],
        {
            let direct: S = r.mul(self.dy[t * c + j]);
            let pulled: S = k.mul(self.x[t * c + j]);
            let g: S = direct.sub(pulled);
            row[j] = land(self.accum, row[j], g);
            assert(is_norm_grad(
                r,
                self.dy@[t * c + j],
                k,
                self.x@[t * c + j],
                self.accum,
                before[j as int],
                row@[j as int],
            ));
        }
        assert(rmsnorm_bwd_row_by(
            self.x@,
            self.rinv@,
            self.dy@,
            self.accum,
            t as int,
            before,
            row@,
            along,
            k,
        ));
    }
}

/// The gradient of the rows `x`, given the gradient `dy` of the normalized ones.
pub fn rmsnorm_bwd<S: Scalar, R: RowRunner>(
    runner: &R,
    dx: &mut [S],
    x: &[S],
    rinv: &[S],
    dy: &[S],
    c: usize,
    accum: bool,
)
    requires
        c > 0,
        old(dx)@.len() == rinv@.len() * c,
        rinv@.len() * c <= x@.len(),
        rinv@.len() * c <= dy@.len(),
    ensures
        is_rmsnorm_bwd(old(dx)@, final(dx)@, x@, rinv@, dy@, c as nat, accum),
{
    let kernel: RmsnormBwd<S> = RmsnormBwd { x, rinv, dy, accum };
    proof {
        let rows = rinv@.len() as int;
        lemma_whole_rows(rows, c as int);
        assert forall|r: int| 0 <= r < rows implies #[trigger] kernel.accepts(r, c as nat) by {
            lemma_row_inside(r, rows, c as int);
        }
    }
    runner.run(&kernel, dx, c);
}

} // verus!
