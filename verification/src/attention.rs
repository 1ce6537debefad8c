//! Causal multi-head attention over a batch of documents of equal length, and its
//! backward pass.
//!
//! Queries, keys and values are rows of `h_n * d` numbers, one for each position of each
//! document, with the heads side by side. The attention weights are rows of `t_len`
//! numbers, one for each position of each head of each document.
use vstd::prelude::*;

use crate::index::{lemma_pair, lemma_row_inside, lemma_unpair, lemma_whole_rows};
use crate::reduce::{dot, is_dot, is_softmax, softmax_in_place};
use crate::rows::{all_rows, each_row, RowKernel, RowRunner};
use crate::scalar::{is_diff, is_num, is_one, is_prod, is_quot, is_sqrt, is_zero, Scalar};

verus! {

/// The shape of an attention layer: `b_n` documents of `t_len` positions, `h_n` heads of
/// `d` numbers each.
#[derive(Clone, Copy)]
pub struct Heads {
    pub b_n: usize,
    pub h_n: usize,
    pub t_len: usize,
    pub d: usize,
}

impl Heads {
    /// The numbers in a row of queries, keys or values.
    pub open spec fn width(&self) -> int {
        self.h_n * self.d
    }

    /// The rows of queries, keys or values.
    pub open spec fn positions(&self) -> int {
        self.b_n * self.t_len
    }

    /// The rows of attention weights.
    pub open spec fn weight_rows(&self) -> int {
        self.b_n * self.h_n * self.t_len
    }

    /// The row of queries, keys or values of position `t` of document `b`.
    pub open spec fn position(&self, b: int, t: int) -> int {
        b * self.t_len + t
    }

    /// The row of attention weights of position `t` of head `h` of document `b`.
    pub open spec fn weight_row(&self, b: int, h: int, t: int) -> int {
        (b * self.h_n + h) * self.t_len + t
    }

    /// Where the numbers of head `h` at position `t` of document `b` start.
    pub open spec fn head_start(&self, b: int, t: int, h: int) -> int {
        self.position(b, t) * self.width() + h * self.d
    }

    /// Where number `col` of position `t` of document `b` stands.
    pub open spec fn entry(&self, b: int, t: int, col: int) -> int {
        self.position(b, t) * self.width() + col
    }

    /// The document of a row of attention weights.
    pub open spec fn doc_of(&self, i: int) -> int {
        i / self.t_len as int / self.h_n as int
    }

    /// The head of a row of attention weights.
    pub open spec fn head_of(&self, i: int) -> int {
        i / self.t_len as int % self.h_n as int
    }

    /// Whether a row buffer of `len` numbers covers every position.
    pub open spec fn covers_rows(&self, len: nat) -> bool {
        self.positions() * self.width() <= len
    }

    /// Whether a buffer of `len` numbers covers all attention weights.
    pub open spec fn covers_weights(&self, len: nat) -> bool {
        self.weight_rows() * self.t_len <= len
    }

    /// Where the numbers of position `t` of document `b` start.
    fn row_start(&self, b: usize, t: usize) -> (start: usize)
        requires
            b < self.b_n,
            t < self.t_len,
            self.positions() * self.width() <= usize::MAX,
            self.width() > 0,
        ensures
            start == self.entry(b as int, t as int, 0),
            start + self.width() <= self.positions() * self.width(),
            self.width() <= usize::MAX,
    {
        proof {
            lemma_pair(b as int, self.b_n as int, t as int, self.t_len as int);
            let p = self.position(b as int, t as int);
            let w = self.width();
            lemma_row_inside(p, self.positions(), w);
            assert(0 <= b * self.t_len) by (nonlinear_arith);
            assert(p <= p * w && w <= p * w + w) by (nonlinear_arith)
                requires
                    p >= 0,
                    w > 0,
            ;
        }
        (b * self.t_len + t) * (self.h_n * self.d)
    }

    /// Where row (`b`, `h`, `t`) of the attention weights starts.
    fn weight_start(&self, b: usize, h: usize, t: usize) -> (start: usize)
        requires
            b < self.b_n,
            h < self.h_n,
            t < self.t_len,
            self.weight_rows() * self.t_len <= usize::MAX,
        ensures
            start == self.weight_row(b as int, h as int, t as int) * self.t_len,
            start + self.t_len <= self.weight_rows() * self.t_len,
            self.weight_row(b as int, h as int, t as int) < self.weight_rows(),
    {
        proof {
            let bh = b * self.h_n + h;
            let i = bh * self.t_len + t;
            let t_len = self.t_len as int;
            lemma_pair(b as int, self.b_n as int, h as int, self.h_n as int);
            lemma_pair(bh, self.b_n * self.h_n, t as int, t_len);
            lemma_row_inside(i, self.weight_rows(), t_len);
            assert(0 <= b * self.h_n) by (nonlinear_arith);
            assert(bh <= bh * t_len && i <= i * t_len) by (nonlinear_arith)
                requires
                    bh >= 0,
                    i >= 0,
                    t_len > 0,
            ;
        }
        ((b * self.h_n + h) * self.t_len + t) * self.t_len
    }

    /// The document, head and position of row `i` of the attention weights.
    fn locate(&self, i: usize) -> (place: (usize, usize, usize))
        requires
            i < self.weight_rows(),
            self.h_n > 0,
            self.t_len > 0,
        ensures
            place.0 == self.doc_of(i as int) < self.b_n,
            place.1 == self.head_of(i as int) < self.h_n,
            place.2 == i % self.t_len < self.t_len,
    {
        proof {
            lemma_unpair(i as int, self.b_n * self.h_n, self.t_len as int);
            lemma_unpair(i as int / self.t_len as int, self.b_n as int, self.h_n as int);
        }
        let bh: usize = i / self.t_len;
        (bh / self.h_n, bh % self.h_n, i % self.t_len)
    }
}

/// `r` is `1 / sqrt(d)`.
pub open spec fn is_score_scale<S: Scalar>(d: nat, r: S) -> bool {
    exists|size: S, root: S, one: S|
        #![trigger is_sqrt(size, root), is_quot(one, root, r)]
        is_num(d as u64, size) && is_sqrt(size, root) && is_one(one) && is_quot(one, root, r)
}

fn score_scale<S: Scalar>(d: usize) -> (r: S)
    ensures
        is_score_scale(d as nat, r),
{
    let size: S = S::from_u64(d as u64);
    let root: S = size.sqrt();
    let one: S = S::one();
    one.div(root)
}

/// `r` is a dot product times `scale`.
pub open spec fn is_scaled_dot<S: Scalar>(
    x: Seq<S>,
    xo: int,
    xs: int,
    y: Seq<S>,
    yo: int,
    ys: int,
    n: nat,
    scale: S,
    r: S,
) -> bool {
    exists|acc: S| #[trigger] is_dot(x, xo, xs, y, yo, ys, n, acc) && is_prod(acc, scale, r)
}

/// The scores of row `i`: for every position up to its own, query times key times `scale`.
pub open spec fn is_scores<S: Scalar>(
    hs: Heads,
    q: Seq<S>,
    k: Seq<S>,
    i: int,
    scale: S,
    scores: Seq<S>,
) -> bool {
    let (b, h, t) = (hs.doc_of(i), hs.head_of(i), i % hs.t_len as int);
    &&& scores.len() == t + 1
    &&& forall|u: int|
        0 <= u <= t ==> is_scaled_dot(
            q,
            hs.head_start(b, t, h),
            1,
            k,
            hs.head_start(b, u, h),
            1,
            hs.d as nat,
            scale,
            #[trigger] scores[u],
        )
}

/// Row `i` of the attention weights: the softmax of the scores, zero above the diagonal.
pub open spec fn softmax_row<S: Scalar>(
    hs: Heads,
    q: Seq<S>,
    k: Seq<S>,
    i: int,
    after: Seq<S>,
) -> bool {
    let t = i % hs.t_len as int;
    &&& exists|scale: S, scores: Seq<S>|
        is_score_scale(hs.d as nat, scale) && #[trigger] is_scores(hs, q, k, i, scale, scores)
            && is_softmax(scores, after.take(t + 1))
    &&& forall|u: int| t < u < after.len() ==> is_zero(#[trigger] after[u])
}

/// `att` holds the causal attention weights of the queries `q` and the keys `k`.
pub open spec fn is_attn_softmax<S: Scalar>(
    hs: Heads,
    att: Seq<S>,
    q: Seq<S>,
    k: Seq<S>,
) -> bool {
    all_rows(|i: int, a: Seq<S>| softmax_row(hs, q, k, i, a), hs.t_len as nat, att)
}

/// `r` is `p * (dp - dot)`.
pub open spec fn is_softmax_grad<S: Scalar>(p: S, dp: S, dot: S, r: S) -> bool {
    exists|diff: S| #[trigger] is_diff(dp, dot, diff) && is_prod(p, diff, r)
}

/// Row `i` of the gradient of the scores.
pub open spec fn softmax_bwd_row<S: Scalar>(
    att: Seq<S>,
    dp: Seq<S>,
    i: int,
    after: Seq<S>,
) -> bool {
    exists|along: S| #[trigger] softmax_bwd_row_by(att, dp, i, after, along)
}

/// [`softmax_bwd_row`], with the dot product of the row and its gradient.
pub open spec fn softmax_bwd_row_by<S: Scalar>(
    att: Seq<S>,
    dp: Seq<S>,
    i: int,
    after: Seq<S>,
    along: S,
) -> bool {
    let t_len = after.len();
    let t = i % t_len as int;
    let base = i * t_len;
    &&& is_dot(dp, base, 1, att, base, 1, (t + 1) as nat, along)
    &&& forall|u: int|
        0 <= u < t_len ==> if u <= t {
            is_softmax_grad(att[base + u], dp[base + u], along, #[trigger] after[u])
        } else {
            is_zero(after[u])
        }
}

/// `ds` is the gradient of the scores, given that of the attention weights.
pub open spec fn is_attn_softmax_bwd<S: Scalar>(
    ds: Seq<S>,
    att: Seq<S>,
    dp: Seq<S>,
    t_len: nat,
) -> bool {
    all_rows(|i: int, a: Seq<S>| softmax_bwd_row(att, dp, i, a), t_len, ds)
}

/// Which positions a sum runs over.
#[derive(Clone, Copy)]
pub enum Side {
    /// The positions up to its own.
    Past,
    /// The positions from its own on.
    Future,
}

/// `acc` is number `col` of row `r` of a sum over the positions of one side, per head:
/// `sum_u w[t, u] * x[u]` over the past of `t`, or `sum_t w[t, u] * x[t]` over the future
/// of `u`.
pub open spec fn is_causal_sum<S: Scalar>(
    hs: Heads,
    side: Side,
    w: Seq<S>,
    x: Seq<S>,
    r: int,
    col: int,
    acc: S,
) -> bool {
    let (b, t, h) = (r / hs.t_len as int, r % hs.t_len as int, col / hs.d as int);
    let row = hs.weight_row(b, h, t) * hs.t_len;
    match side {
        Side::Past => is_dot(
            w,
            row,
            1,
            x,
            hs.entry(b, 0, col),
            hs.width(),
            (t + 1) as nat,
            acc,
        ),
        Side::Future => is_dot(
            w,
            row + t,
            hs.t_len as int,
            x,
            hs.entry(b, t, col),
            hs.width(),
            (hs.t_len - t) as nat,
            acc,
        ),
    }
}

/// `v` is such a sum times `scale`.
pub open spec fn is_scaled_sum<S: Scalar>(
    hs: Heads,
    side: Side,
    w: Seq<S>,
    x: Seq<S>,
    r: int,
    col: int,
    scale: S,
    v: S,
) -> bool {
    exists|acc: S| #[trigger] is_causal_sum(hs, side, w, x, r, col, acc) && is_prod(acc, scale, v)
}

/// A row of such sums.
pub open spec fn causal_row<S: Scalar>(
    hs: Heads,
    side: Side,
    w: Seq<S>,
    x: Seq<S>,
    r: int,
    after: Seq<S>,
) -> bool {
    forall|col: int|
        0 <= col < after.len() ==> is_causal_sum(hs, side, w, x, r, col, #[trigger] after[col])
}

/// A row of such sums, each times `1 / sqrt(d)`.
pub open spec fn scaled_causal_row<S: Scalar>(
    hs: Heads,
    side: Side,
    w: Seq<S>,
    x: Seq<S>,
    r: int,
    after: Seq<S>,
) -> bool {
    exists|scale: S| #[trigger]
        is_score_scale(hs.d as nat, scale) && (forall|col: int|
            0 <= col < after.len() ==> is_scaled_sum(
                hs,
                side,
                w,
                x,
                r,
                col,
                scale,
                #[trigger] after[col],
            ))
}

/// `out` is the gradient of the queries (`x` the keys, over the past) or of the keys (`x`
/// the queries, over the future), given the gradient `ds` of the scores.
pub open spec fn is_attn_scores_bwd<S: Scalar>(
    hs: Heads,
    side: Side,
    out: Seq<S>,
    ds: Seq<S>,
    x: Seq<S>,
) -> bool {
    all_rows(
        |r: int, a: Seq<S>| scaled_causal_row(hs, side, ds, x, r, a),
        hs.width() as nat,
        out,
    )
}

/// `out` is the values `x` mixed by the attention weights (over the past), or the
/// gradient of the values, given that of the mix (over the future).
pub open spec fn is_attn_mix<S: Scalar>(
    hs: Heads,
    side: Side,
    out: Seq<S>,
    att: Seq<S>,
    x: Seq<S>,
) -> bool {
    all_rows(|r: int, a: Seq<S>| causal_row(hs, side, att, x, r, a), hs.width() as nat, out)
}

/// Row `i` of the gradient of the attention weights.
pub open spec fn mix_bwd_dp_row<S: Scalar>(
    hs: Heads,
    dy: Seq<S>,
    v: Seq<S>,
    i: int,
    after: Seq<S>,
) -> bool {
    let (b, h, t) = (hs.doc_of(i), hs.head_of(i), i % hs.t_len as int);
    forall|u: int|
        0 <= u < after.len() ==> if u <= t {
            is_dot(
                dy,
                hs.head_start(b, t, h),
                1,
                v,
                hs.head_start(b, u, h),
                1,
                hs.d as nat,
                #[trigger] after[u],
            )
        } else {
            is_zero(after[u])
        }
}

/// `dp` is the gradient of the attention weights, given that of the mixed values.
pub open spec fn is_attn_mix_bwd_dp<S: Scalar>(
    hs: Heads,
    dp: Seq<S>,
    dy: Seq<S>,
    v: Seq<S>,
) -> bool {
    all_rows(|i: int, a: Seq<S>| mix_bwd_dp_row(hs, dy, v, i, a), hs.t_len as nat, dp)
}

/// The rows of the attention weights.
pub struct SoftmaxRows<'a, S> {
    pub hs: Heads,
    pub q: &'a [S],
    pub k: &'a [S],
}

impl<'a, S: Scalar> RowKernel<S> for SoftmaxRows<'a, S> {
    open spec fn accepts(&self, i: int, row_len: nat) -> bool {
        &&& 0 <= i < self.hs.weight_rows()
        &&& row_len == self.hs.t_len > 0
        &&& self.hs.h_n > 0
        &&& self.hs.d > 0
        &&& self.hs.covers_rows(self.q@.len())
        &&& self.hs.covers_rows(self.k@.len())
    }

    open spec fn row(&self, i: int, before: Seq<S>, after: Seq<S>) -> bool {
        softmax_row(self.hs, self.q@, self.k@, i, after)
    }

    fn apply(&self, i: usize, row: &mut [S]) {
        let hs: Heads = self.hs;
        let q_len: usize = self.q.len();
        let k_len: usize = self.k.len();
        let (b, h, t): (usize, usize, usize) = hs.locate(i);
        let scale: S = score_scale(hs.d);
        proof {
            lemma_row_inside(h as int, hs.h_n as int, hs.d as int);
        }
        let q_start: usize = hs.row_start(b, t) + h * hs.d;
        for u in 0..t + 1
            invariant
                hs == self.hs,
                q_len == self.q@.len(),
                k_len == self.k@.len(),
                hs.covers_rows(self.q@.len()),
                hs.covers_rows(self.k@.len()),
                row@.len() == hs.t_len,
                b < hs.b_n,
                t < hs.t_len,
                hs.d > 0,
                0 <= h * hs.d,
                h * hs.d + hs.d <= hs.width(),
                q_start == hs.head_start(b as int, t as int, h as int),
                q_start + hs.d <= self.q@.len(),
                forall|j: int|
                    0 <= j < u ==> is_scaled_dot(
                        self.q@,
                        q_start as int,
                        1,
                        self.k@,
                        hs.head_start(b as int, j, h as int),
                        1,
                        hs.d as nat,
                        scale,
                        #[trigger] row@[j],
                    ),
        {
            let k_start: usize = hs.row_start(b, u) + h * hs.d;
            let acc: S = dot(self.q, q_start, 1, self.k, k_start, 1, hs.d);
            row[u] = acc.mul(scale);
            assert(is_scaled_dot(
                self.q@,
                q_start as int,
                1,
                self.k@,
                hs.head_start(b as int, u as int, h as int),
                1,
                hs.d as nat,
                scale,
                row@[u as int],
            ));
        }
        let ghost scores = row@.take(t + 1);
        assert(is_scores(hs, self.q@, self.k@, i as int, scale, scores));
        softmax_in_place(row, t + 1);
        let ghost weights = row@.take(t + 1);
        for u in t + 1..hs.t_len
            invariant
                row@.len() == hs.t_len,
                t < hs.t_len,
                row@.take(t + 1) == weights,
                forall|j: int| t < j < u ==> is_zero(#[trigger] row@[j]),
        {
            row[u] = S::zero();
            assert(row@.take(t + 1) =~= weights);
        }
    }
}

/// The rows of the gradient of the scores.
pub struct SoftmaxBwd<'a, S> {
    pub att: &'a [S],
    pub dp: &'a [S],
}

impl<'a, S: Scalar> RowKernel<S> for SoftmaxBwd<'a, S> {
    open spec fn accepts(&self, i: int, row_len: nat) -> bool {
        &&& 0 <= i
        &&& 0 < row_len
        &&& (i + 1) * row_len <= self.att@.len()
        &&& (i + 1) * row_len <= self.dp@.len()
    }

    open spec fn row(&self, i: int, before: Seq<S>, after: Seq<S>) -> bool {
        softmax_bwd_row(self.att@, self.dp@, i, after)
    }

    fn apply(&self, i: usize, row: &mut [S]) {
        let t_len: usize = row.len();
        let att_len: usize = self.att.len();
        let dp_len: usize = self.dp.len();
        let t: usize = i % t_len;
        proof {
            lemma_row_inside(i as int, i + 1, t_len as int);
        }
        let base: usize = i * t_len;
        let along: S = dot(self.dp, base, 1, self.att, base, 1, t + 1);
        for u in 0..t_len
            invariant
                t_len == row@.len(),
                att_len == self.att@.len(),
                dp_len == self.dp@.len(),
                base + t_len <= self.att@.len(),
                base + t_len <= self.dp@.len(),
                forall|j: int|
                    0 <= j < u ==> if j <= t {
                        is_softmax_grad(
                            self.att@[base + j],
                            self.dp@[base + j],
                            along,
                            #[trigger] row@[j],
                        )
                    } else {
                        is_zero(row@[j])
                    },
        {
            if u <= t {
                let diff: S = self.dp[base + u].sub(along);
                row[u] = self.att[base + u].mul(diff);
                assert(is_softmax_grad(
                    self.att@[base + u],
                    self.dp@[base + u],
                    along,
                    row@[u as int],
                ));
            } else {
                row[u] = S::zero();
            }
        }
        assert(softmax_bwd_row_by(self.att@, self.dp@, i as int, row@, along));
    }
}

/// The rows of sums over the past or the future, times `1 / sqrt(d)` where `scaled` is set.
pub struct CausalRows<'a, S> {
    pub hs: Heads,
    pub side: Side,
    pub scaled: bool,
    pub w: &'a [S],
    pub x: &'a [S],
}

impl<'a, S: Scalar> RowKernel<S> for CausalRows<'a, S> {
    open spec fn accepts(&self, r: int, row_len: nat) -> bool {
        &&& 0 <= r < self.hs.positions()
        &&& row_len == self.hs.width()
        &&& self.hs.h_n > 0
        &&& self.hs.d > 0
        &&& self.hs.t_len > 0
        &&& self.hs.covers_weights(self.w@.len())
        &&& self.hs.covers_rows(self.x@.len())
    }

    open spec fn row(&self, r: int, before: Seq<S>, after: Seq<S>) -> bool {
        if self.scaled {
            scaled_causal_row(self.hs, self.side, self.w@, self.x@, r, after)
        } else {
            causal_row(self.hs, self.side, self.w@, self.x@, r, after)
        }
    }

    fn apply(&self, r: usize, row: &mut [S]) {
        let hs: Heads = self.hs;
        let c: usize = row.len();
        let scale: S = score_scale(hs.d);
        for col in 0..c
            invariant
                hs == self.hs,
                self.accepts(r as int, c as nat),
                c == row@.len(),
                forall|j: int|
                    0 <= j < col ==> if self.scaled {
                        is_scaled_sum(
                            hs,
                            self.side,
                            self.w@,
                            self.x@,
                            r as int,
                            j,
                            scale,
                            #[trigger] row@[j],
                        )
                    } else {
                        is_causal_sum(hs, self.side, self.w@, self.x@, r as int, j, row@[j])
                    },
        {
            let acc: S = self.causal_sum(r, col);
            if self.scaled {
                row[col] = acc.mul(scale);
                assert(is_scaled_sum(
                    hs,
                    self.side,
                    self.w@,
                    self.x@,
                    r as int,
                    col as int,
                    scale,
                    row@[col as int],
                ));
            } else {
                row[col] = acc;
            }
        }
    }
}

impl<'a, S: Scalar> CausalRows<'a, S> {
    /// Number `col` of row `r`, before it is scaled.
    fn causal_sum(&self, r: usize, col: usize) -> (acc: S)
        requires
            self.accepts(r as int, self.hs.width() as nat),
            col < self.hs.width(),
        ensures
            is_causal_sum(self.hs, self.side, self.w@, self.x@, r as int, col as int, acc),
    {
        let hs: Heads = self.hs;
        let w_len: usize = self.w.len();
        let x_len: usize = self.x.len();
        let ghost width = hs.width();
        proof {
            lemma_unpair(r as int, hs.b_n as int, hs.t_len as int);
            lemma_unpair(col as int, hs.h_n as int, hs.d as int);
        }
        let b: usize = r / hs.t_len;
        let t: usize = r % hs.t_len;
        let h: usize = col / hs.d;
        let start: usize = hs.weight_start(b, h, t);
        let first: usize = hs.row_start(b, 0);
        let own: usize = hs.row_start(b, t);
        let last: usize = hs.row_start(b, hs.t_len - 1);
        let c: usize = hs.h_n * hs.d;
        proof {
            let (bi, ti, n) = (b as int, t as int, hs.t_len as int);
            assert(hs.position(bi, 0) * width + ti * width == hs.position(bi, ti) * width
                && hs.position(bi, ti) * width + (n - 1 - ti) * width == hs.position(bi, n - 1)
                * width) by (nonlinear_arith)
                requires
                    hs.position(bi, 0) + ti == hs.position(bi, ti),
                    hs.position(bi, ti) + (n - 1 - ti) == hs.position(bi, n - 1),
            ;
        }
        match self.side {
            Side::Past => dot(self.w, start, 1, self.x, first + col, c, t + 1),
            Side::Future => {
                proof {
                    let (bi, ti, hi, n) = (b as int, t as int, h as int, hs.t_len as int);
                    let last_row = hs.weight_row(bi, hi, n - 1);
                    lemma_pair(bi, hs.b_n as int, hi, hs.h_n as int);
                    lemma_pair(bi * hs.h_n + hi, hs.b_n * hs.h_n, n - 1, n);
                    lemma_row_inside(last_row, hs.weight_rows(), n);
                    assert(hs.weight_row(bi, hi, ti) * n + (n - 1 - ti) * n == last_row * n)
                        by (nonlinear_arith)
                        requires
                            hs.weight_row(bi, hi, ti) + (n - 1 - ti) == last_row,
                    ;
                }
                dot(self.w, start + t, hs.t_len, self.x, own + col, c, hs.t_len - t)
            },
        }
    }
}

/// The rows of the gradient of the attention weights.
pub struct MixBwdDp<'a, S> {
    pub hs: Heads,
    pub dy: &'a [S],
    pub v: &'a [S],
}

impl<'a, S: Scalar> RowKernel<S> for MixBwdDp<'a, S> {
    open spec fn accepts(&self, i: int, row_len: nat) -> bool {
        &&& 0 <= i < self.hs.weight_rows()
        &&& row_len == self.hs.t_len > 0
        &&& self.hs.h_n > 0
        &&& self.hs.d > 0
        &&& self.hs.covers_rows(self.dy@.len())
        &&& self.hs.covers_rows(self.v@.len())
    }

    open spec fn row(&self, i: int, before: Seq<S>, after: Seq<S>) -> bool {
        mix_bwd_dp_row(self.hs, self.dy@, self.v@, i, after)
    }

    fn apply(&self, i: usize, row: &mut [S]) {
        let hs: Heads = self.hs;
        let dy_len: usize = self.dy.len();
        let v_len: usize = self.v.len();
        let (b, h, t): (usize, usize, usize) = hs.locate(i);
        proof {
            lemma_row_inside(h as int, hs.h_n as int, hs.d as int);
        }
        let dy_start: usize = hs.row_start(b, t) + h * hs.d;
        for u in 0..hs.t_len
            invariant
                hs == self.hs,
                dy_len == self.dy@.len(),
                v_len == self.v@.len(),
                hs.covers_rows(self.dy@.len()),
                hs.covers_rows(self.v@.len()),
                row@.len() == hs.t_len,
                b < hs.b_n,
                t < hs.t_len,
                hs.d > 0,
                0 <= h * hs.d,
                h * hs.d + hs.d <= hs.width(),
                dy_start == hs.head_start(b as int, t as int, h as int),
                dy_start + hs.d <= self.dy@.len(),
                forall|j: int|
                    0 <= j < u ==> if j <= t {
                        is_dot(
                            self.dy@,
                            dy_start as int,
                            1,
                            self.v@,
                            hs.head_start(b as int, j, h as int),
                            1,
                            hs.d as nat,
                            #[trigger] row@[j],
                        )
                    } else {
                        is_zero(row@[j])
                    },
        {
            if u <= t {
                let v_start: usize = hs.row_start(b, u) + h * hs.d;
                row[u] = dot(self.dy, dy_start, 1, self.v, v_start, 1, hs.d);
            } else {
                row[u] = S::zero();
            }
        }
    }
}

/// The causal attention weights of the queries `q` and the keys `k`.
pub fn attn_softmax_fwd<S: Scalar, R: RowRunner>(
    runner: &R,
    att: &mut [S],
    q: &[S],
    k: &[S],
    hs: Heads,
)
    requires
        hs.h_n > 0,
        hs.t_len > 0,
        hs.d > 0,
        old(att)@.len() == hs.weight_rows() * hs.t_len,
        hs.covers_rows(q@.len()),
        hs.covers_rows(k@.len()),
    ensures
        final(att)@.len() == old(att)@.len(),
        is_attn_softmax(hs, final(att)@, q@, k@),
{
    let kernel: SoftmaxRows<S> = SoftmaxRows { hs, q, k };
    proof {
        hs.lemma_counts();
        lemma_whole_rows(hs.weight_rows(), hs.t_len as int);
    }
    runner.run(&kernel, att, hs.t_len);
}

/// The gradient of the scores, given that of the attention weights.
pub fn attn_softmax_bwd<S: Scalar, R: RowRunner>(
    runner: &R,
    ds: &mut [S],
    att: &[S],
    dp: &[S],
    t_len: usize,
)
    requires
        t_len > 0,
        old(ds)@.len() % t_len as nat == 0,
        old(ds)@.len() <= att@.len(),
        old(ds)@.len() <= dp@.len(),
    ensures
        final(ds)@.len() == old(ds)@.len(),
        is_attn_softmax_bwd(final(ds)@, att@, dp@, t_len as nat),
{
    let kernel: SoftmaxBwd<S> = SoftmaxBwd { att, dp };
    proof {
        let rows = ds@.len() as int / t_len as int;
        crate::index::lemma_rows_cover(ds@.len() as int, t_len as int);
        assert forall|i: int| 0 <= i < rows implies #[trigger] kernel.accepts(i, t_len as nat) by {
            lemma_row_inside(i, rows, t_len as int);
        }
    }
    runner.run(&kernel, ds, t_len);
}

/// The gradient of the queries, given that of the scores.
pub fn attn_scores_bwd_dq<S: Scalar, R: RowRunner>(
    runner: &R,
    dq: &mut [S],
    ds: &[S],
    k: &[S],
    hs: Heads,
)
    requires
        hs.h_n > 0,
        hs.t_len > 0,
        hs.d > 0,
        old(dq)@.len() == hs.positions() * hs.width(),
        hs.covers_weights(ds@.len()),
        hs.covers_rows(k@.len()),
    ensures
        final(dq)@.len() == old(dq)@.len(),
        is_attn_scores_bwd(hs, Side::Past, final(dq)@, ds@, k@),
{
    run_causal(runner, dq, CausalRows { hs, side: Side::Past, scaled: true, w: ds, x: k });
}

/// The gradient of the keys, given that of the scores.
pub fn attn_scores_bwd_dk<S: Scalar, R: RowRunner>(
    runner: &R,
    dk: &mut [S],
    ds: &[S],
    q: &[S],
    hs: Heads,
)
    requires
        hs.h_n > 0,
        hs.t_len > 0,
        hs.d > 0,
        old(dk)@.len() == hs.positions() * hs.width(),
        hs.covers_weights(ds@.len()),
        hs.covers_rows(q@.len()),
    ensures
        final(dk)@.len() == old(dk)@.len(),
        is_attn_scores_bwd(hs, Side::Future, final(dk)@, ds@, q@),
{
    run_causal(runner, dk, CausalRows { hs, side: Side::Future, scaled: true, w: ds, x: q });
}

/// The values `v` mixed by the attention weights.
pub fn attn_mix_fwd<S: Scalar, R: RowRunner>(
    runner: &R,
    y: &mut [S],
    att: &[S],
    v: &[S],
    hs: Heads,
)
    requires
        hs.h_n > 0,
        hs.t_len > 0,
        hs.d > 0,
        old(y)@.len() == hs.positions() * hs.width(),
        hs.covers_weights(att@.len()),
        hs.covers_rows(v@.len()),
    ensures
        final(y)@.len() == old(y)@.len(),
        is_attn_mix(hs, Side::Past, final(y)@, att@, v@),
{
    run_causal(runner, y, CausalRows { hs, side: Side::Past, scaled: false, w: att, x: v });
}

/// The gradient of the values, given that of the mixed ones.
pub fn attn_mix_bwd_dv<S: Scalar, R: RowRunner>(
    runner: &R,
    dv: &mut [S],
    att: &[S],
    dy: &[S],
    hs: Heads,
)
    requires
        hs.h_n > 0,
        hs.t_len > 0,
        hs.d > 0,
        old(dv)@.len() == hs.positions() * hs.width(),
        hs.covers_weights(att@.len()),
        hs.covers_rows(dy@.len()),
    ensures
        final(dv)@.len() == old(dv)@.len(),
        is_attn_mix(hs, Side::Future, final(dv)@, att@, dy@),
{
    run_causal(runner, dv, CausalRows { hs, side: Side::Future, scaled: false, w: att, x: dy });
}

/// The gradient of the attention weights, given that of the mixed values.
pub fn attn_mix_bwd_dp<S: Scalar, R: RowRunner>(
    runner: &R,
    dp: &mut [S],
    dy: &[S],
    v: &[S],
    hs: Heads,
)
    requires
        hs.h_n > 0,
        hs.t_len > 0,
        hs.d > 0,
        old(dp)@.len() == hs.weight_rows() * hs.t_len,
        hs.covers_rows(dy@.len()),
        hs.covers_rows(v@.len()),
    ensures
        final(dp)@.len() == old(dp)@.len(),
        is_attn_mix_bwd_dp(hs, final(dp)@, dy@, v@),
{
    let kernel: MixBwdDp<S> = MixBwdDp { hs, dy, v };
    proof {
        hs.lemma_counts();
        lemma_whole_rows(hs.weight_rows(), hs.t_len as int);
    }
    runner.run(&kernel, dp, hs.t_len);
}

/// Runs a kernel of causal sums over all positions.
fn run_causal<'a, S: Scalar, R: RowRunner>(
    runner: &R,
    out: &mut [S],
    kernel: CausalRows<'a, S>,
)
    requires
        kernel.hs.h_n > 0,
        kernel.hs.t_len > 0,
        kernel.hs.d > 0,
        old(out)@.len() == kernel.hs.positions() * kernel.hs.width(),
        kernel.hs.covers_weights(kernel.w@.len()),
        kernel.hs.covers_rows(kernel.x@.len()),
    ensures
        each_row(
            |r: int, b: Seq<S>, a: Seq<S>| kernel.row(r, b, a),
            kernel.hs.width() as nat,
            old(out)@,
            final(out)@,
        ),
{
    let hs: Heads = kernel.hs;
    let len: usize = out.len();
    proof {
        hs.lemma_counts();
        lemma_whole_rows(hs.positions(), hs.width());
    }
    if len == 0 {
        assert(hs.positions() == 0) by (nonlinear_arith)
            requires
                hs.positions() * hs.width() == 0,
                hs.width() > 0,
        ;
        return ;
    }
    assert(hs.width() <= len) by (nonlinear_arith)
        requires
            hs.positions() * hs.width() == len,
            len > 0,
            hs.positions() >= 0,
            hs.width() > 0,
    ;
    runner.run(&kernel, out, hs.h_n * hs.d);
}

impl Heads {
    /// The counts are not negative, and no row is empty.
    pub proof fn lemma_counts(&self)
        ensures
            0 <= self.positions(),
            0 <= self.weight_rows(),
            0 <= self.width(),
            self.h_n > 0 && self.d > 0 ==> self.width() > 0,
    {
        assert(0 <= self.b_n * self.t_len && 0 <= self.h_n * self.d && 0 <= self.b_n * self.h_n)
            by (nonlinear_arith);
        assert(0 <= self.weight_rows()) by (nonlinear_arith)
            requires
                0 <= self.b_n * self.h_n,
                self.weight_rows() == self.b_n * self.h_n * self.t_len,
        ;
        if self.h_n > 0 && self.d > 0 {
            assert(self.h_n * self.d > 0) by (nonlinear_arith)
                requires
                    self.h_n > 0,
                    self.d > 0,
            ;
        }
    }
}

} // verus!
