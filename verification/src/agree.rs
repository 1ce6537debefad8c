//! Where operations have one outcome, computations have: results that are computed from the
//! same numbers agree. For the forward pass this is stated row by row: a position depends on
//! itself and on those before it in its document, and on nothing else.
use vstd::prelude::*;

use crate::attention::{
    causal_row, is_attn_mix, is_attn_softmax, is_causal_sum, is_scaled_dot, is_score_scale,
    is_scores, softmax_row, Heads, Side,
};
use crate::embed::{embed_row, is_embed};
use crate::index::{lemma_pair, lemma_row_inside, lemma_unpair, lemma_whole_rows};
use crate::matmul::{is_linear, linear_row};
use crate::norm::{is_inv_rms, is_inv_root, is_rmsnorm, scaled_row, EPS_DEN};
use crate::pointwise::{is_add, is_relu, is_relu_fwd};
use crate::reduce::{
    dot_term, is_dot, is_max_of, is_running_max, is_shifted_exp, is_softmax, is_softmax_by,
    is_total, item_term,
};
use crate::rows::row_of;
use crate::scalar::{
    deterministic, is_diff, is_exp, is_max, is_neg_infinity, is_num, is_one, is_prod, is_quot,
    is_ratio, is_running_sum, is_sqrt, is_sum, is_zero, lemma_running_sum_unique, Scalar,
};

verus! {

/// Number (`r`, `j`) of a buffer with rows of `n` numbers.
pub open spec fn entry<S>(x: Seq<S>, n: nat, r: int, j: int) -> S {
    x[r * n + j]
}

/// Whether two buffers of `m` rows of `n` numbers agree in the rows that are `seen`.
pub open spec fn rows_agree<S>(
    x: Seq<S>,
    y: Seq<S>,
    m: nat,
    n: nat,
    seen: spec_fn(int) -> bool,
) -> bool {
    forall|r: int, j: int|
        0 <= r < m && seen(r) && 0 <= j < n ==> #[trigger] entry(x, n, r, j) == entry(y, n, r, j)
}

/// Whether two buffers agree in the numbers that are `seen`.
pub open spec fn nums_agree<S>(x: Seq<S>, y: Seq<S>, m: nat, seen: spec_fn(int) -> bool) -> bool {
    forall|r: int| 0 <= r < m && seen(r) ==> #[trigger] x[r] == y[r]
}

/// Buffers of whole rows that agree everywhere are the same.
pub proof fn lemma_agree_everywhere<S>(
    x: Seq<S>,
    y: Seq<S>,
    m: nat,
    n: nat,
    seen: spec_fn(int) -> bool,
)
    requires
        rows_agree(x, y, m, n, seen),
        forall|r: int| 0 <= r < m ==> #[trigger] seen(r),
        x.len() == m * n,
        y.len() == m * n,
        n > 0,
    ensures
        x == y,
{
    assert forall|i: int| 0 <= i < x.len() implies x[i] == y[i] by {
        lemma_unpair(i, m as int, n as int);
        assert(seen(i / n as int));
        assert(entry(x, n, i / n as int, i % n as int) == entry(y, n, i / n as int, i % n as int));
    }
    assert(x =~= y);
}

/// A dot product of the same numbers.
pub proof fn lemma_dot_agrees<S: Scalar>(
    x1: Seq<S>,
    x2: Seq<S>,
    xo: int,
    xs: int,
    y1: Seq<S>,
    y2: Seq<S>,
    yo: int,
    ys: int,
    n: nat,
    r1: S,
    r2: S,
)
    requires
        deterministic::<S>(),
        is_dot(x1, xo, xs, y1, yo, ys, n, r1),
        is_dot(x2, xo, xs, y2, yo, ys, n, r2),
        forall|p: int|
            0 <= p < n ==> (#[trigger] dot_pair(x1, xo, xs, y1, yo, ys, p)) == dot_pair(
                x2,
                xo,
                xs,
                y2,
                yo,
                ys,
                p,
            ),
    ensures
        r1 == r2,
{
    let z1 = choose|zero: S|
        is_zero(zero) && #[trigger] is_running_sum(zero, dot_term(x1, xo, xs, y1, yo, ys), n, r1);
    let z2 = choose|zero: S|
        is_zero(zero) && #[trigger] is_running_sum(zero, dot_term(x2, xo, xs, y2, yo, ys), n, r2);
    assert(z1 == z2);
    let (f, g) = (dot_term(x1, xo, xs, y1, yo, ys), dot_term(x2, xo, xs, y2, yo, ys));
    assert forall|i: int, t: S, u: S|
        0 <= i < n && #[trigger] f(i, t) && #[trigger] g(i, u) implies t == u by {
        assert(dot_pair(x1, xo, xs, y1, yo, ys, i) == dot_pair(x2, xo, xs, y2, yo, ys, i));
    }
    lemma_running_sum_unique(z1, f, g, n, r1, r2);
}

/// The two numbers that pair `p` of a dot product multiplies.
pub open spec fn dot_pair<S>(
    x: Seq<S>,
    xo: int,
    xs: int,
    y: Seq<S>,
    yo: int,
    ys: int,
    p: int,
) -> (S, S) {
    (x[xo + p * xs], y[yo + p * ys])
}

/// The largest of the same numbers.
proof fn lemma_running_max_agrees<S: Scalar>(start: S, xs: Seq<S>, n: nat, r: S, q: S)
    requires
        deterministic::<S>(),
        is_running_max(start, xs, n, r),
        is_running_max(start, xs, n, q),
    ensures
        r == q,
    decreases n,
{
    if n > 0 {
        let (b1, x1) = choose|before: S, x: S|
            #![trigger is_max(before, x, r)]
            is_running_max(start, xs, (n - 1) as nat, before) && x == xs[n - 1] && is_max(
                before,
                x,
                r,
            );
        let (b2, x2) = choose|before: S, x: S|
            #![trigger is_max(before, x, q)]
            is_running_max(start, xs, (n - 1) as nat, before) && x == xs[n - 1] && is_max(
                before,
                x,
                q,
            );
        lemma_running_max_agrees(start, xs, (n - 1) as nat, b1, b2);
        assert(is_max(b1, x1, r) && is_max(b1, x1, q));
    }
}

/// The largest of the same numbers, from the start.
pub proof fn lemma_max_agrees<S: Scalar>(xs: Seq<S>, r: S, q: S)
    requires
        deterministic::<S>(),
        is_max_of(xs, r),
        is_max_of(xs, q),
    ensures
        r == q,
{
    let s1 = choose|start: S|
        is_neg_infinity(start) && #[trigger] is_running_max(start, xs, xs.len(), r);
    let s2 = choose|start: S|
        is_neg_infinity(start) && #[trigger] is_running_max(start, xs, xs.len(), q);
    assert(s1 == s2);
    lemma_running_max_agrees(s1, xs, xs.len(), r, q);
}

/// The sum of the same numbers.
pub proof fn lemma_total_agrees<S: Scalar>(xs: Seq<S>, r: S, q: S)
    requires
        deterministic::<S>(),
        is_total(xs, r),
        is_total(xs, q),
    ensures
        r == q,
{
    let z1 = choose|zero: S|
        is_zero(zero) && #[trigger] is_running_sum(zero, item_term(xs), xs.len(), r);
    let z2 = choose|zero: S|
        is_zero(zero) && #[trigger] is_running_sum(zero, item_term(xs), xs.len(), q);
    assert(z1 == z2);
    lemma_running_sum_unique(z1, item_term(xs), item_term(xs), xs.len(), r, q);
}

/// The softmax of the same numbers.
pub proof fn lemma_softmax_agrees<S: Scalar>(s: Seq<S>, p: Seq<S>, q: Seq<S>)
    requires
        deterministic::<S>(),
        is_softmax(s, p),
        is_softmax(s, q),
    ensures
        p == q,
{
    let (h1, e1, t1) = choose|shift: S, e: Seq<S>, sum: S| #[trigger]
        is_softmax_by(s, p, shift, e, sum);
    let (h2, e2, t2) = choose|shift: S, e: Seq<S>, sum: S| #[trigger]
        is_softmax_by(s, q, shift, e, sum);
    let n1 = choose|start: S|
        is_neg_infinity(start) && #[trigger] is_running_max(start, s, s.len(), h1);
    let n2 = choose|start: S|
        is_neg_infinity(start) && #[trigger] is_running_max(start, s, s.len(), h2);
    assert(n1 == n2);
    lemma_running_max_agrees(n1, s, s.len(), h1, h2);
    assert forall|i: int| 0 <= i < s.len() implies e1[i] == e2[i] by {
        assert(is_shifted_exp(s[i], h1, e1[i]) && is_shifted_exp(s[i], h2, e2[i]));
        let d1 = choose|diff: S| #[trigger] is_diff(s[i], h1, diff) && is_exp(diff, e1[i]);
        let d2 = choose|diff: S| #[trigger] is_diff(s[i], h2, diff) && is_exp(diff, e2[i]);
        assert(d1 == d2);
        assert(is_exp(d1, e1[i]) && is_exp(d1, e2[i]));
    }
    assert(e1 =~= e2);
    lemma_total_agrees(e1, t1, t2);
    assert forall|i: int| 0 <= i < s.len() implies p[i] == q[i] by {
        assert(is_quot(e1[i], t1, p[i]) && is_quot(e1[i], t1, q[i]));
    }
    assert(p =~= q);
}

/// Embeddings of the same tokens.
pub proof fn lemma_embed_agrees<S: Scalar>(
    x: Seq<S>,
    y: Seq<S>,
    wte: Seq<S>,
    wpe: Seq<S>,
    tokens: Seq<i32>,
    others: Seq<i32>,
    t_len: nat,
    m: nat,
    c: nat,
    seen: spec_fn(int) -> bool,
)
    requires
        deterministic::<S>(),
        c > 0,
        x.len() == m * c,
        y.len() == m * c,
        is_embed(x, wte, wpe, tokens, t_len, c),
        is_embed(y, wte, wpe, others, t_len, c),
        nums_agree(tokens, others, m, seen),
    ensures
        rows_agree(x, y, m, c, seen),
{
    lemma_whole_rows(m as int, c as int);
    assert forall|r: int, j: int| 0 <= r < m && seen(r) && 0 <= j < c implies #[trigger] entry(
        x,
        c,
        r,
        j,
    ) == entry(y, c, r, j) by {
        lemma_row_inside(r, m as int, c as int);
        let (a, b) = (row_of(x, c, r), row_of(y, c, r));
        assert(embed_row(wte, wpe, tokens, t_len, r, a));
        assert(embed_row(wte, wpe, others, t_len, r, b));
        assert(tokens[r] == others[r]);
        let (t, p) = (wte[tokens[r] * c + j], wpe[(r % t_len as int) * c + j]);
        assert(is_sum(t, p, a[j]) && is_sum(t, p, b[j]));
    }
}

/// The factor of the same row.
proof fn lemma_factor_agrees<S: Scalar>(
    x: Seq<S>,
    y: Seq<S>,
    c: nat,
    t: int,
    r: S,
    q: S,
)
    requires
        deterministic::<S>(),
        is_inv_rms(x, c, t, r),
        is_inv_rms(y, c, t, q),
        forall|j: int| 0 <= j < c ==> #[trigger] entry(x, c, t, j) == entry(y, c, t, j),
    ensures
        r == q,
{
    let (s1, n1, m1) = choose|squares: S, count: S, ms: S|
        #![trigger is_quot(squares, count, ms)]
        is_dot(x, t * c, 1, x, t * c, 1, c, squares) && is_num(c as u64, count) && is_quot(
            squares,
            count,
            ms,
        ) && is_inv_root(ms, r);
    let (s2, n2, m2) = choose|squares: S, count: S, ms: S|
        #![trigger is_quot(squares, count, ms)]
        is_dot(y, t * c, 1, y, t * c, 1, c, squares) && is_num(c as u64, count) && is_quot(
            squares,
            count,
            ms,
        ) && is_inv_root(ms, q);
    assert forall|p: int| 0 <= p < c implies (#[trigger] dot_pair(x, t * c, 1, x, t * c, 1, p))
        == dot_pair(y, t * c, 1, y, t * c, 1, p) by {
        assert(entry(x, c, t, p) == entry(y, c, t, p));
    }
    lemma_dot_agrees(x, y, t * c, 1, x, y, t * c, 1, c, s1, s2);
    assert(n1 == n2);
    assert(is_quot(s1, n1, m1) && is_quot(s1, n1, m2));
    let (e1, p1, r1, o1) = choose|eps: S, padded: S, root: S, one: S|
        #![trigger is_sum(m1, eps, padded), is_quot(one, root, r)]
        is_ratio(1, EPS_DEN, eps) && is_sum(m1, eps, padded) && is_sqrt(padded, root) && is_one(
            one,
        ) && is_quot(one, root, r);
    let (e2, p2, r2, o2) = choose|eps: S, padded: S, root: S, one: S|
        #![trigger is_sum(m2, eps, padded), is_quot(one, root, q)]
        is_ratio(1, EPS_DEN, eps) && is_sum(m2, eps, padded) && is_sqrt(padded, root) && is_one(
            one,
        ) && is_quot(one, root, q);
    assert(e1 == e2 && o1 == o2);
    assert(is_sum(m1, e1, p1) && is_sum(m1, e1, p2));
    assert(is_sqrt(p1, r1) && is_sqrt(p1, r2));
    assert(is_quot(o1, r1, r) && is_quot(o1, r1, q));
}

/// The same rows, normalized.
pub proof fn lemma_norm_agrees<S: Scalar>(
    y1: Seq<S>,
    y2: Seq<S>,
    f1: Seq<S>,
    f2: Seq<S>,
    x1: Seq<S>,
    x2: Seq<S>,
    m: nat,
    c: nat,
    seen: spec_fn(int) -> bool,
)
    requires
        deterministic::<S>(),
        c > 0,
        y1.len() == m * c,
        y2.len() == m * c,
        f1.len() == m,
        f2.len() == m,
        is_rmsnorm(y1, f1, x1, c),
        is_rmsnorm(y2, f2, x2, c),
        rows_agree(x1, x2, m, c, seen),
    ensures
        nums_agree(f1, f2, m, seen),
        rows_agree(y1, y2, m, c, seen),
{
    lemma_whole_rows(m as int, c as int);
    assert forall|r: int| 0 <= r < m && seen(r) implies #[trigger] f1[r] == f2[r] by {
        assert(is_inv_rms(x1, c, r, f1[r]) && is_inv_rms(x2, c, r, f2[r]));
        lemma_factor_agrees(x1, x2, c, r, f1[r], f2[r]);
    }
    assert forall|r: int, j: int| 0 <= r < m && seen(r) && 0 <= j < c implies #[trigger] entry(
        y1,
        c,
        r,
        j,
    ) == entry(y2, c, r, j) by {
        lemma_row_inside(r, m as int, c as int);
        let (a, b) = (row_of(y1, c, r), row_of(y2, c, r));
        assert(scaled_row(x1, f1, r, a) && scaled_row(x2, f2, r, b));
        assert(entry(x1, c, r, j) == entry(x2, c, r, j));
        assert(f1[r] == f2[r]);
        let x = entry(x1, c, r, j);
        assert(is_prod(x, f1[r], a[j]) && is_prod(x, f1[r], b[j]));
    }
}

/// Products of the same rows with the same matrix.
pub proof fn lemma_linear_agrees<S: Scalar>(
    y1: Seq<S>,
    y2: Seq<S>,
    x1: Seq<S>,
    x2: Seq<S>,
    w: Seq<S>,
    m: nat,
    n: nat,
    k: nat,
    seen: spec_fn(int) -> bool,
)
    requires
        deterministic::<S>(),
        n > 0,
        y1.len() == m * n,
        y2.len() == m * n,
        is_linear(y1, x1, w, n, k),
        is_linear(y2, x2, w, n, k),
        rows_agree(x1, x2, m, k, seen),
    ensures
        rows_agree(y1, y2, m, n, seen),
{
    lemma_whole_rows(m as int, n as int);
    assert forall|r: int, j: int| 0 <= r < m && seen(r) && 0 <= j < n implies #[trigger] entry(
        y1,
        n,
        r,
        j,
    ) == entry(y2, n, r, j) by {
        lemma_row_inside(r, m as int, n as int);
        let (a, b) = (row_of(y1, n, r), row_of(y2, n, r));
        assert(linear_row(x1, w, k, r, a) && linear_row(x2, w, k, r, b));
        assert(is_dot(x1, r * k, 1, w, j * k, 1, k, a[j]));
        assert(is_dot(x2, r * k, 1, w, j * k, 1, k, b[j]));
        assert forall|p: int| 0 <= p < k implies (#[trigger] dot_pair(x1, r * k, 1, w, j * k, 1, p))
            == dot_pair(x2, r * k, 1, w, j * k, 1, p) by {
            assert(entry(x1, k, r, p) == entry(x2, k, r, p));
        }
        lemma_dot_agrees(x1, x2, r * k, 1, w, w, j * k, 1, k, a[j], b[j]);
    }
}

/// Sums of the same rows.
pub proof fn lemma_add_agrees<S: Scalar>(
    y1: Seq<S>,
    y2: Seq<S>,
    a1: Seq<S>,
    a2: Seq<S>,
    b1: Seq<S>,
    b2: Seq<S>,
    m: nat,
    n: nat,
    seen: spec_fn(int) -> bool,
)
    requires
        deterministic::<S>(),
        y1.len() == m * n,
        y2.len() == m * n,
        is_add(y1, a1, b1),
        is_add(y2, a2, b2),
        rows_agree(a1, a2, m, n, seen),
        rows_agree(b1, b2, m, n, seen),
    ensures
        rows_agree(y1, y2, m, n, seen),
{
    assert forall|r: int, j: int| 0 <= r < m && seen(r) && 0 <= j < n implies #[trigger] entry(
        y1,
        n,
        r,
        j,
    ) == entry(y2, n, r, j) by {
        lemma_pair(r, m as int, j, n as int);
        let i = r * n + j;
        assert(entry(a1, n, r, j) == entry(a2, n, r, j) && entry(b1, n, r, j) == entry(
            b2,
            n,
            r,
            j,
        ));
        assert(is_sum(a1[i], b1[i], y1[i]) && is_sum(a1[i], b1[i], y2[i]));
    }
}

/// The same rows, cut off at zero.
pub proof fn lemma_relu_agrees<S: Scalar>(
    y1: Seq<S>,
    y2: Seq<S>,
    x1: Seq<S>,
    x2: Seq<S>,
    m: nat,
    n: nat,
    seen: spec_fn(int) -> bool,
)
    requires
        deterministic::<S>(),
        y1.len() == m * n,
        y2.len() == m * n,
        is_relu_fwd(y1, x1),
        is_relu_fwd(y2, x2),
        rows_agree(x1, x2, m, n, seen),
    ensures
        rows_agree(y1, y2, m, n, seen),
{
    assert forall|r: int, j: int| 0 <= r < m && seen(r) && 0 <= j < n implies #[trigger] entry(
        y1,
        n,
        r,
        j,
    ) == entry(y2, n, r, j) by {
        lemma_pair(r, m as int, j, n as int);
        let i = r * n + j;
        assert(entry(x1, n, r, j) == entry(x2, n, r, j));
        assert(is_relu(x1[i], y1[i]) && is_relu(x2[i], y2[i]));
        let z1 = choose|zero: S| is_zero(zero) && #[trigger] is_max(x1[i], zero, y1[i]);
        let z2 = choose|zero: S| is_zero(zero) && #[trigger] is_max(x2[i], zero, y2[i]);
        assert(z1 == z2);
        assert(is_max(x1[i], z1, y1[i]) && is_max(x1[i], z1, y2[i]));
    }
}

/// Whether the seen rows are closed under what comes before: with a position of a document
/// all those before it in the document are seen.
pub open spec fn looks_back(hs: Heads, seen: spec_fn(int) -> bool) -> bool {
    forall|b: int, t: int, u: int|
        0 <= b < hs.b_n && 0 <= u <= t < hs.t_len && #[trigger] seen(hs.position(b, t))
            ==> #[trigger] seen(hs.position(b, u))
}

/// The rows of attention weights whose position is seen.
pub open spec fn seen_weights(hs: Heads, seen: spec_fn(int) -> bool) -> spec_fn(int) -> bool {
    |i: int| seen(hs.position(hs.doc_of(i), i % hs.t_len as int))
}

/// There is one scale of the scores.
pub proof fn lemma_scale_agrees<S: Scalar>(d: nat, a: S, b: S)
    requires
        deterministic::<S>(),
        is_score_scale(d, a),
        is_score_scale(d, b),
    ensures
        a == b,
{
    let (s1, r1, o1) = choose|size: S, root: S, one: S|
        #![trigger is_sqrt(size, root), is_quot(one, root, a)]
        is_num(d as u64, size) && is_sqrt(size, root) && is_one(one) && is_quot(one, root, a);
    let (s2, r2, o2) = choose|size: S, root: S, one: S|
        #![trigger is_sqrt(size, root), is_quot(one, root, b)]
        is_num(d as u64, size) && is_sqrt(size, root) && is_one(one) && is_quot(one, root, b);
    assert(s1 == s2 && o1 == o2);
    assert(is_sqrt(s1, r1) && is_sqrt(s1, r2));
    assert(is_quot(o1, r1, a) && is_quot(o1, r1, b));
}

/// Where the numbers of head `h` at position `u` of document `b` stand.
proof fn lemma_head_entry<S>(hs: Heads, x: Seq<S>, b: int, h: int, u: int, j: int)
    requires
        0 <= b < hs.b_n,
        0 <= h < hs.h_n,
        0 <= u < hs.t_len,
        0 <= j < hs.d,
    ensures
        0 <= hs.position(b, u) < hs.positions(),
        0 <= h * hs.d + j < hs.width(),
        x[hs.head_start(b, u, h) + j] == entry(x, hs.width() as nat, hs.position(b, u), h * hs.d
            + j),
{
    lemma_pair(b, hs.b_n as int, u, hs.t_len as int);
    lemma_pair(h, hs.h_n as int, j, hs.d as int);
}

/// The scores of the same queries and keys.
proof fn lemma_scores_agree<S: Scalar>(
    hs: Heads,
    q1: Seq<S>,
    q2: Seq<S>,
    k1: Seq<S>,
    k2: Seq<S>,
    i: int,
    scale: S,
    s1: Seq<S>,
    s2: Seq<S>,
    seen: spec_fn(int) -> bool,
)
    requires
        deterministic::<S>(),
        hs.t_len > 0,
        hs.h_n > 0,
        0 <= i < hs.weight_rows(),
        is_scores(hs, q1, k1, i, scale, s1),
        is_scores(hs, q2, k2, i, scale, s2),
        rows_agree(q1, q2, hs.positions() as nat, hs.width() as nat, seen),
        rows_agree(k1, k2, hs.positions() as nat, hs.width() as nat, seen),
        looks_back(hs, seen),
        seen_weights(hs, seen)(i),
    ensures
        s1 == s2,
{
    lemma_unpair(i, hs.b_n * hs.h_n, hs.t_len as int);
    lemma_unpair(i / hs.t_len as int, hs.b_n as int, hs.h_n as int);
    let (b, h, t) = (hs.doc_of(i), hs.head_of(i), i % hs.t_len as int);
    assert forall|u: int| 0 <= u < s1.len() implies s1[u] == s2[u] by {
        let (st, su, d) = (hs.head_start(b, t, h), hs.head_start(b, u, h), hs.d as nat);
        assert(is_scaled_dot(q1, st, 1, k1, su, 1, d, scale, s1[u]));
        assert(is_scaled_dot(q2, st, 1, k2, su, 1, d, scale, s2[u]));
        let a1 = choose|acc: S| #[trigger]
            is_dot(q1, st, 1, k1, su, 1, d, acc) && is_prod(acc, scale, s1[u]);
        let a2 = choose|acc: S| #[trigger]
            is_dot(q2, st, 1, k2, su, 1, d, acc) && is_prod(acc, scale, s2[u]);
        assert(seen(hs.position(b, t)) && seen(hs.position(b, u)));
        assert forall|p: int| 0 <= p < d implies (#[trigger] dot_pair(q1, st, 1, k1, su, 1, p))
            == dot_pair(q2, st, 1, k2, su, 1, p) by {
            lemma_head_entry(hs, q1, b, h, t, p);
            lemma_head_entry(hs, q2, b, h, t, p);
            lemma_head_entry(hs, k1, b, h, u, p);
            lemma_head_entry(hs, k2, b, h, u, p);
            let (w, col) = (hs.width() as nat, h * hs.d + p);
            assert(entry(q1, w, hs.position(b, t), col) == entry(q2, w, hs.position(b, t), col));
            assert(entry(k1, w, hs.position(b, u), col) == entry(k2, w, hs.position(b, u), col));
        }
        lemma_dot_agrees(q1, q2, st, 1, k1, k2, su, 1, d, a1, a2);
        assert(is_prod(a1, scale, s1[u]) && is_prod(a1, scale, s2[u]));
    }
    assert(s1 =~= s2);
}

/// The attention weights of the same queries and keys.
pub proof fn lemma_weights_agree<S: Scalar>(
    hs: Heads,
    w1: Seq<S>,
    w2: Seq<S>,
    q1: Seq<S>,
    q2: Seq<S>,
    k1: Seq<S>,
    k2: Seq<S>,
    seen: spec_fn(int) -> bool,
)
    requires
        deterministic::<S>(),
        hs.t_len > 0,
        hs.h_n > 0,
        w1.len() == hs.weight_rows() * hs.t_len,
        w2.len() == hs.weight_rows() * hs.t_len,
        is_attn_softmax(hs, w1, q1, k1),
        is_attn_softmax(hs, w2, q2, k2),
        rows_agree(q1, q2, hs.positions() as nat, hs.width() as nat, seen),
        rows_agree(k1, k2, hs.positions() as nat, hs.width() as nat, seen),
        looks_back(hs, seen),
    ensures
        rows_agree(
            w1,
            w2,
            hs.weight_rows() as nat,
            hs.t_len as nat,
            seen_weights(hs, seen),
        ),
{
    let (m, n) = (hs.weight_rows() as nat, hs.t_len as nat);
    assert(0 <= hs.weight_rows()) by (nonlinear_arith)
        requires
            hs.weight_rows() == hs.b_n * hs.h_n * hs.t_len,
    ;
    lemma_whole_rows(m as int, n as int);
    assert forall|i: int, u: int|
        0 <= i < m && seen_weights(hs, seen)(i) && 0 <= u < n implies #[trigger] entry(w1, n, i, u)
        == entry(w2, n, i, u) by {
        lemma_row_inside(i, m as int, n as int);
        let (a, b) = (row_of(w1, n, i), row_of(w2, n, i));
        let t = i % hs.t_len as int;
        assert(0 <= t < n) by {
            vstd::arithmetic::div_mod::lemma_mod_bound(i, hs.t_len as int);
        }
        assert(softmax_row(hs, q1, k1, i, a) && softmax_row(hs, q2, k2, i, b));
        if u <= t {
            let (c1, s1) = choose|scale: S, scores: Seq<S>|
                is_score_scale(hs.d as nat, scale) && #[trigger] is_scores(
                    hs,
                    q1,
                    k1,
                    i,
                    scale,
                    scores,
                ) && is_softmax(scores, a.take(t + 1));
            let (c2, s2) = choose|scale: S, scores: Seq<S>|
                is_score_scale(hs.d as nat, scale) && #[trigger] is_scores(
                    hs,
                    q2,
                    k2,
                    i,
                    scale,
                    scores,
                ) && is_softmax(scores, b.take(t + 1));
            lemma_scale_agrees(hs.d as nat, c1, c2);
            lemma_scores_agree(hs, q1, q2, k1, k2, i, c1, s1, s2, seen);
            lemma_softmax_agrees(s1, a.take(t + 1), b.take(t + 1));
            assert(a.take(t + 1)[u] == b.take(t + 1)[u]);
        } else {
            assert(is_zero(a[u]) && is_zero(b[u]));
        }
    }
}

/// One row further down.
proof fn lemma_step(a: int, i: int, w: int)
    ensures
        a * w + i * w == (a + i) * w,
{
    assert(a * w + i * w == (a + i) * w) by (nonlinear_arith);
}

/// The same values mixed by the same weights.
pub proof fn lemma_mix_agrees<S: Scalar>(
    hs: Heads,
    y1: Seq<S>,
    y2: Seq<S>,
    w1: Seq<S>,
    w2: Seq<S>,
    v1: Seq<S>,
    v2: Seq<S>,
    seen: spec_fn(int) -> bool,
)
    requires
        deterministic::<S>(),
        hs.t_len > 0,
        hs.h_n > 0,
        hs.d > 0,
        y1.len() == hs.positions() * hs.width(),
        y2.len() == hs.positions() * hs.width(),
        is_attn_mix(hs, Side::Past, y1, w1, v1),
        is_attn_mix(hs, Side::Past, y2, w2, v2),
        rows_agree(
            w1,
            w2,
            hs.weight_rows() as nat,
            hs.t_len as nat,
            seen_weights(hs, seen),
        ),
        rows_agree(v1, v2, hs.positions() as nat, hs.width() as nat, seen),
        looks_back(hs, seen),
    ensures
        rows_agree(y1, y2, hs.positions() as nat, hs.width() as nat, seen),
{
    let (p, c) = (hs.positions(), hs.width());
    assert(0 <= p && 0 < c) by (nonlinear_arith)
        requires
            p == hs.b_n * hs.t_len,
            c == hs.h_n * hs.d,
            hs.h_n > 0,
            hs.d > 0,
    ;
    lemma_whole_rows(p, c);
    assert forall|r: int, col: int| 0 <= r < p && seen(r) && 0 <= col < c implies #[trigger] entry(
        y1,
        c as nat,
        r,
        col,
    ) == entry(y2, c as nat, r, col) by {
        lemma_row_inside(r, p, c);
        lemma_unpair(r, hs.b_n as int, hs.t_len as int);
        lemma_unpair(col, hs.h_n as int, hs.d as int);
        let (b, t, h) = (r / hs.t_len as int, r % hs.t_len as int, col / hs.d as int);
        lemma_pair(b, hs.b_n as int, h, hs.h_n as int);
        lemma_pair(b * hs.h_n + h, hs.b_n * hs.h_n, t, hs.t_len as int);
        let (x, y) = (row_of(y1, c as nat, r), row_of(y2, c as nat, r));
        assert(causal_row(hs, Side::Past, w1, v1, r, x));
        assert(causal_row(hs, Side::Past, w2, v2, r, y));
        assert(is_causal_sum(hs, Side::Past, w1, v1, r, col, x[col]));
        assert(is_causal_sum(hs, Side::Past, w2, v2, r, col, y[col]));
        let i = hs.weight_row(b, h, t);
        let (row, start, n) = (i * hs.t_len, hs.entry(b, 0, col), (t + 1) as nat);
        assert(hs.doc_of(i) == b && i % hs.t_len as int == t);
        assert(seen_weights(hs, seen)(i));
        assert forall|u: int| 0 <= u < n implies (#[trigger] dot_pair(w1, row, 1, v1, start, c, u))
            == dot_pair(w2, row, 1, v2, start, c, u) by {
            assert(entry(w1, hs.t_len as nat, i, u) == entry(w2, hs.t_len as nat, i, u));
            assert(seen(hs.position(b, t)) && seen(hs.position(b, u)));
            lemma_pair(b, hs.b_n as int, u, hs.t_len as int);
            lemma_step(b * hs.t_len, u, c);
            assert(entry(v1, c as nat, hs.position(b, u), col) == entry(
                v2,
                c as nat,
                hs.position(b, u),
                col,
            ));
        }
        lemma_dot_agrees(w1, w2, row, 1, v1, v2, start, c, n, x[col], y[col]);
    }
}

} // verus!
