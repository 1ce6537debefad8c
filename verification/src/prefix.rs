//! A document stands alone: the rows of its first positions, cut out of a run of a whole
//! batch, are a run of these positions by themselves.
use vstd::prelude::*;

use crate::agree::{dot_pair, entry};
use crate::attention::{
    causal_row, is_attn_mix, is_attn_softmax, is_causal_sum, is_scaled_dot, is_score_scale,
    is_scores, softmax_row, Heads, Side,
};
use crate::causality::law_forward_is_deterministic;
use crate::embed::{embed_row, is_embed};
use crate::index::{lemma_pair, lemma_row_inside, lemma_unpair, lemma_whole_rows};
use crate::matmul::{is_linear, linear_row};
use crate::motion_attention::{lemma_places, lemma_step_down, lemma_weight_places, lemma_weight_row};
use crate::network::{
    input_of, is_forward, is_layer, is_residual, LayerValues, LayerWeights, Values, Weights,
};
use crate::norm::{is_inv_rms, is_inv_root, is_rmsnorm, scaled_row};
use crate::pointwise::{is_add, is_relu, is_relu_fwd};
use crate::reduce::{dot_term, is_dot, is_softmax};
use crate::rows::row_of;
use crate::scalar::{
    deterministic, is_num, is_prod, is_quot, is_running_sum, is_sum, is_zero,
    lemma_running_sum_congruent, Scalar,
};
use crate::shape::Shape;

verus! {

/// The `m` rows of `x`, of `n` numbers each, from row `base` on.
pub open spec fn cut<S>(x: Seq<S>, n: nat, base: int, m: nat) -> Seq<S> {
    x.subrange(base * n, (base + m) * n)
}

/// Where the numbers of the cut rows were.
proof fn lemma_cut<S>(x: Seq<S>, n: nat, base: int, m: nat, total: nat)
    requires
        0 <= base,
        base + m <= total,
        x.len() == total * n,
    ensures
        cut(x, n, base, m).len() == m * n,
        forall|u: int, j: int, i: int|
            0 <= u < m && 0 <= j < n && i == u * n + j ==> #[trigger] cut(x, n, base, m)[i]
                == #[trigger] entry(x, n, base + u, j),
        forall|u: int|
            0 <= u < m ==> #[trigger] row_of(cut(x, n, base, m), n, u) == row_of(x, n, base + u),
{
    assert(0 <= base * n && (base + m) * n <= total * n && (base + m) * n - base * n == m * n)
        by (nonlinear_arith)
        requires
            0 <= base,
            base + m <= total,
    ;
    let y = cut(x, n, base, m);
    assert forall|u: int, j: int, i: int|
        0 <= u < m && 0 <= j < n && i == u * n + j implies #[trigger] y[i] == #[trigger]
    entry(x, n, base + u, j) by {
        lemma_pair(u, m as int, j, n as int);
        assert(base * n + u * n == (base + u) * n) by (nonlinear_arith);
    }
    assert forall|u: int| 0 <= u < m implies #[trigger] row_of(y, n, u) == row_of(
        x,
        n,
        base + u,
    ) by {
        lemma_row_inside(u, m as int, n as int);
        lemma_row_inside(base + u, total as int, n as int);
        let (a, b) = (row_of(y, n, u), row_of(x, n, base + u));
        assert forall|j: int| 0 <= j < n implies a[j] == b[j] by {
            assert(y[u * n + j] == entry(x, n, base + u, j));
        }
        assert(a =~= b);
    }
}

/// A dot product of the same numbers at other places.
proof fn lemma_dot_moved<S: Scalar>(
    x: Seq<S>,
    xo: int,
    xs: int,
    y: Seq<S>,
    yo: int,
    ys: int,
    z: Seq<S>,
    zo: int,
    zs: int,
    w: Seq<S>,
    wo: int,
    ws: int,
    n: nat,
    r: S,
)
    requires
        is_dot(x, xo, xs, y, yo, ys, n, r),
        forall|p: int|
            0 <= p < n ==> (#[trigger] dot_pair(z, zo, zs, w, wo, ws, p)) == dot_pair(
                x,
                xo,
                xs,
                y,
                yo,
                ys,
                p,
            ),
    ensures
        is_dot(z, zo, zs, w, wo, ws, n, r),
{
    let (f, g) = (dot_term(x, xo, xs, y, yo, ys), dot_term(z, zo, zs, w, wo, ws));
    let zero = choose|zero: S| is_zero(zero) && #[trigger] is_running_sum(zero, f, n, r);
    assert forall|p: int, t: S| 0 <= p < n && #[trigger] f(p, t) implies g(p, t) by {
        assert(dot_pair(z, zo, zs, w, wo, ws, p) == dot_pair(x, xo, xs, y, yo, ys, p));
    }
    lemma_running_sum_congruent(zero, f, g, n, r);
}

/// Products with a matrix.
proof fn lemma_cut_linear<S: Scalar>(
    y: Seq<S>,
    x: Seq<S>,
    w: Seq<S>,
    n: nat,
    k: nat,
    base: int,
    m: nat,
    total: nat,
)
    requires
        0 <= base,
        base + m <= total,
        n > 0,
        y.len() == total * n,
        x.len() == total * k,
        is_linear(y, x, w, n, k),
    ensures
        is_linear(cut(y, n, base, m), cut(x, k, base, m), w, n, k),
{
    let (yc, xc) = (cut(y, n, base, m), cut(x, k, base, m));
    lemma_cut(y, n, base, m, total);
    lemma_cut(x, k, base, m, total);
    lemma_whole_rows(m as int, n as int);
    lemma_whole_rows(total as int, n as int);
    assert forall|u: int| 0 <= u < yc.len() / n implies linear_row(
        xc,
        w,
        k,
        u,
        #[trigger] row_of(yc, n, u),
    ) by {
        let row = row_of(yc, n, u);
        assert(row == row_of(y, n, base + u));
        assert(linear_row(x, w, k, base + u, row_of(y, n, base + u)));
        assert forall|col: int| 0 <= col < row.len() implies is_dot(
            xc,
            u * k,
            1,
            w,
            col * k,
            1,
            k,
            #[trigger] row[col],
        ) by {
            assert(is_dot(x, (base + u) * k, 1, w, col * k, 1, k, row[col]));
            assert forall|p: int| 0 <= p < k implies (#[trigger] dot_pair(
                xc,
                u * k,
                1,
                w,
                col * k,
                1,
                p,
            )) == dot_pair(x, (base + u) * k, 1, w, col * k, 1, p) by {
                assert(xc[u * k + p] == entry(x, k, base + u, p));
            }
            lemma_dot_moved(
                x,
                (base + u) * k,
                1,
                w,
                col * k,
                1,
                xc,
                u * k,
                1,
                w,
                col * k,
                1,
                k,
                row[col],
            );
        }
    }
}

/// Sums.
proof fn lemma_cut_add<S: Scalar>(
    y: Seq<S>,
    a: Seq<S>,
    b: Seq<S>,
    n: nat,
    base: int,
    m: nat,
    total: nat,
)
    requires
        0 <= base,
        base + m <= total,
        y.len() == total * n,
        a.len() == total * n,
        b.len() == total * n,
        is_add(y, a, b),
    ensures
        is_add(cut(y, n, base, m), cut(a, n, base, m), cut(b, n, base, m)),
{
    lemma_cut(y, n, base, m, total);
    let (yc, ac, bc) = (cut(y, n, base, m), cut(a, n, base, m), cut(b, n, base, m));
    let start = base * n;
    assert(0 <= start && start + m * n <= total * n && (base + m) * n == start + m * n)
        by (nonlinear_arith)
        requires
            0 <= base,
            base + m <= total,
            start == base * n,
    ;
    assert forall|i: int| 0 <= i < yc.len() implies is_sum(ac[i], bc[i], #[trigger] yc[i]) by {
        assert(is_sum(a[start + i], b[start + i], y[start + i]));
    }
}

/// The cut-off.
proof fn lemma_cut_relu<S: Scalar>(
    y: Seq<S>,
    x: Seq<S>,
    n: nat,
    base: int,
    m: nat,
    total: nat,
)
    requires
        0 <= base,
        base + m <= total,
        y.len() == total * n,
        x.len() == total * n,
        is_relu_fwd(y, x),
    ensures
        is_relu_fwd(cut(y, n, base, m), cut(x, n, base, m)),
{
    lemma_cut(y, n, base, m, total);
    let (yc, xc) = (cut(y, n, base, m), cut(x, n, base, m));
    let start = base * n;
    assert(0 <= start && start + m * n <= total * n && (base + m) * n == start + m * n)
        by (nonlinear_arith)
        requires
            0 <= base,
            base + m <= total,
            start == base * n,
    ;
    assert forall|i: int| 0 <= i < yc.len() implies is_relu(xc[i], #[trigger] yc[i]) by {
        assert(is_relu(x[start + i], y[start + i]));
    }
}

/// A residual branch.
proof fn lemma_cut_residual<S: Scalar>(
    y: Seq<S>,
    x: Seq<S>,
    a: Seq<S>,
    w: Seq<S>,
    n: nat,
    k: nat,
    base: int,
    m: nat,
    total: nat,
)
    requires
        0 <= base,
        base + m <= total,
        n > 0,
        y.len() == total * n,
        x.len() == total * n,
        a.len() == total * k,
        is_residual(y, x, a, w, n, k),
    ensures
        is_residual(cut(y, n, base, m), cut(x, n, base, m), cut(a, k, base, m), w, n, k),
{
    let out = choose|out: Seq<S>|
        out.len() == y.len() && #[trigger] is_linear(out, a, w, n, k) && is_add(y, x, out);
    lemma_cut(y, n, base, m, total);
    lemma_cut(out, n, base, m, total);
    lemma_cut_linear(out, a, w, n, k, base, m, total);
    lemma_cut_add(y, x, out, n, base, m, total);
    assert(is_linear(cut(out, n, base, m), cut(a, k, base, m), w, n, k));
}

/// The normalization.
proof fn lemma_cut_norm<S: Scalar>(
    y: Seq<S>,
    rinv: Seq<S>,
    x: Seq<S>,
    c: nat,
    base: int,
    m: nat,
    total: nat,
)
    requires
        0 <= base,
        base + m <= total,
        c > 0,
        y.len() == total * c,
        x.len() == total * c,
        rinv.len() == total,
        is_rmsnorm(y, rinv, x, c),
    ensures
        is_rmsnorm(
            cut(y, c, base, m),
            rinv.subrange(base, base + m),
            cut(x, c, base, m),
            c,
        ),
{
    let (yc, rc, xc) = (cut(y, c, base, m), rinv.subrange(base, base + m), cut(x, c, base, m));
    lemma_cut(y, c, base, m, total);
    lemma_cut(x, c, base, m, total);
    lemma_whole_rows(m as int, c as int);
    lemma_whole_rows(total as int, c as int);
    assert forall|t: int| 0 <= t < rc.len() implies is_inv_rms(xc, c, t, #[trigger] rc[t]) by {
        let r = base + t;
        assert(rc[t] == rinv[r]);
        assert(is_inv_rms(x, c, r, rinv[r]));
        let (squares, count, ms) = choose|squares: S, count: S, ms: S|
            #![trigger is_quot(squares, count, ms)]
            is_dot(x, r * c, 1, x, r * c, 1, c, squares) && is_num(c as u64, count) && is_quot(
                squares,
                count,
                ms,
            ) && is_inv_root(ms, rinv[r]);
        assert forall|p: int| 0 <= p < c implies (#[trigger] dot_pair(
            xc,
            t * c,
            1,
            xc,
            t * c,
            1,
            p,
        )) == dot_pair(x, r * c, 1, x, r * c, 1, p) by {
            assert(xc[t * c + p] == entry(x, c, base + t, p));
        }
        lemma_dot_moved(x, r * c, 1, x, r * c, 1, xc, t * c, 1, xc, t * c, 1, c, squares);
        assert(is_quot(squares, count, ms));
    }
    assert forall|t: int| 0 <= t < yc.len() / c implies scaled_row(
        xc,
        rc,
        t,
        #[trigger] row_of(yc, c, t),
    ) by {
        let row = row_of(yc, c, t);
        lemma_row_inside(base + t, total as int, c as int);
        assert(row == row_of(y, c, base + t));
        assert(scaled_row(x, rinv, base + t, row_of(y, c, base + t)));
        assert forall|j: int| 0 <= j < row.len() implies is_prod(
            xc[t * row.len() + j],
            rc[t],
            #[trigger] row[j],
        ) by {
            assert(xc[t * c + j] == entry(x, c, base + t, j));
        }
    }
}

/// The embeddings.
proof fn lemma_cut_embed<S: Scalar>(
    x: Seq<S>,
    wte: Seq<S>,
    wpe: Seq<S>,
    tokens: Seq<i32>,
    t_len: nat,
    c: nat,
    doc: int,
    m: nat,
    total: nat,
)
    requires
        0 <= doc,
        0 < m <= t_len,
        doc * t_len + m <= total,
        c > 0,
        x.len() == total * c,
        tokens.len() == total,
        is_embed(x, wte, wpe, tokens, t_len, c),
    ensures
        is_embed(
            cut(x, c, doc * t_len, m),
            wte,
            wpe,
            tokens.subrange(doc * t_len, doc * t_len + m),
            m,
            c,
        ),
{
    let base = doc * t_len;
    assert(0 <= base) by (nonlinear_arith)
        requires
            0 <= doc,
            base == doc * t_len,
    ;
    let (xc, own) = (cut(x, c, base, m), tokens.subrange(base, base + m));
    lemma_cut(x, c, base, m, total);
    lemma_whole_rows(m as int, c as int);
    lemma_whole_rows(total as int, c as int);
    assert forall|u: int| 0 <= u < xc.len() / c implies embed_row(
        wte,
        wpe,
        own,
        m,
        u,
        #[trigger] row_of(xc, c, u),
    ) by {
        let row = row_of(xc, c, u);
        lemma_row_inside(base + u, total as int, c as int);
        assert(row == row_of(x, c, base + u));
        assert(embed_row(wte, wpe, tokens, t_len, base + u, row_of(x, c, base + u)));
        vstd::arithmetic::div_mod::lemma_small_mod(u as nat, m);
        lemma_pair(doc, doc + 1, u, t_len as int);
        assert(own[u] == tokens[base + u]);
        assert forall|j: int| 0 <= j < row.len() implies is_sum(
            wte[own[u] * row.len() + j],
            wpe[(u % m as int) * row.len() + j],
            #[trigger] row[j],
        ) by {
            let r = base + u;
            assert(is_sum(wte[tokens[r] * c + j], wpe[(r % t_len as int) * c + j], row[j]));
        }
    }
}

/// One document of `m` positions.
pub open spec fn one_document(hs: Heads, m: nat) -> Heads {
    Heads { b_n: 1, h_n: hs.h_n, t_len: m as usize, d: hs.d }
}

/// The attention weights of the first `m` positions of document `doc`.
pub open spec fn cut_weights<S>(att: Seq<S>, hs: Heads, doc: int, m: nat) -> Seq<S> {
    Seq::new(
        (hs.h_n * m * m) as nat,
        |i: int|
            {
                let (row, u) = (i / m as int, i % m as int);
                att[hs.weight_row(doc, row / m as int, row % m as int) * hs.t_len + u]
            },
    )
}

/// Where the cut weights were.
proof fn lemma_cut_weight<S>(att: Seq<S>, hs: Heads, doc: int, m: nat, h: int, t: int, u: int)
    requires
        0 <= h < hs.h_n,
        0 <= t < m,
        0 <= u < m,
        m <= usize::MAX,
    ensures
        cut_weights(att, hs, doc, m)[one_document(hs, m).weight_row(0, h, t) * m + u]
            == att[hs.weight_row(doc, h, t) * hs.t_len + u],
        one_document(hs, m).weight_row(0, h, t) == h * m + t,
{
    assert(0 * hs.h_n == 0);
    lemma_pair(h, hs.h_n as int, t, m as int);
    lemma_pair(h * m + t, hs.h_n * m, u, m as int);
}

/// The attention weights of a document.
proof fn lemma_cut_softmax<S: Scalar>(
    hs: Heads,
    att: Seq<S>,
    q: Seq<S>,
    k: Seq<S>,
    doc: int,
    m: nat,
)
    requires
        hs.t_len > 0,
        hs.h_n > 0,
        hs.d > 0,
        0 <= doc < hs.b_n,
        0 < m <= hs.t_len,
        att.len() == hs.weight_rows() * hs.t_len,
        q.len() == hs.positions() * hs.width(),
        k.len() == hs.positions() * hs.width(),
        is_attn_softmax(hs, att, q, k),
    ensures
        is_attn_softmax(
            one_document(hs, m),
            cut_weights(att, hs, doc, m),
            cut(q, hs.width() as nat, doc * hs.t_len, m),
            cut(k, hs.width() as nat, doc * hs.t_len, m),
        ),
{
    let hp = one_document(hs, m);
    let c = hs.width() as nat;
    let base = doc * hs.t_len;
    let (ac, qc, kc) = (cut_weights(att, hs, doc, m), cut(q, c, base, m), cut(k, c, base, m));
    lemma_row_inside(doc, hs.b_n as int, hs.t_len as int);
    lemma_cut(q, c, base, m, hs.positions() as nat);
    lemma_cut(k, c, base, m, hs.positions() as nat);
    assert(hs.h_n * m >= 0) by (nonlinear_arith);
    lemma_whole_rows(hs.h_n * m, m as int);
    assert forall|i: int| 0 <= i < ac.len() / m implies softmax_row(
        hp,
        qc,
        kc,
        i,
        #[trigger] row_of(ac, m, i),
    ) by {
        lemma_unpair(i, hs.h_n as int, m as int);
        let (h, t) = (i / m as int, i % m as int);
        let wi = hs.weight_row(doc, h, t);
        lemma_weight_places(hs, doc, h, t);
        lemma_weight_row(hs, att, doc, h, t);
        assert(0 * hp.h_n == 0);
        assert(hp.weight_row(0, h, t) == i);
        lemma_weight_places(hp, 0, h, t);
        lemma_row_inside(i, hs.h_n * m, m as int);
        let (row, was) = (row_of(ac, m, i), row_of(att, hs.t_len as nat, wi));
        assert(softmax_row(hs, q, k, wi, was));
        assert forall|u: int| 0 <= u < m implies row[u] == was[u] by {
            lemma_cut_weight(att, hs, doc, m, h, t, u);
        }
        let (scale, sc) = choose|scale: S, sc: Seq<S>|
            is_score_scale(hs.d as nat, scale) && #[trigger] is_scores(hs, q, k, wi, scale, sc)
                && is_softmax(sc, was.take(t + 1));
        assert(row.take(t + 1) =~= was.take(t + 1));
        assert forall|u: int| 0 <= u <= t implies is_scaled_dot(
            qc,
            hp.head_start(0, t, h),
            1,
            kc,
            hp.head_start(0, u, h),
            1,
            hp.d as nat,
            scale,
            #[trigger] sc[u],
        ) by {
            lemma_cut_score(hs, q, k, doc, m, h, t, u, scale, sc[u]);
        }
        assert(is_scores(hp, qc, kc, i, scale, sc));
        assert forall|u: int| t < u < row.len() implies is_zero(#[trigger] row[u]) by {
            assert(row[u] == was[u]);
        }
    }
}

/// A score of a document.
proof fn lemma_cut_score<S: Scalar>(
    hs: Heads,
    q: Seq<S>,
    k: Seq<S>,
    doc: int,
    m: nat,
    h: int,
    t: int,
    u: int,
    scale: S,
    r: S,
)
    requires
        hs.d > 0,
        0 <= doc < hs.b_n,
        0 < m <= hs.t_len,
        0 <= h < hs.h_n,
        0 <= u <= t < m,
        q.len() == hs.positions() * hs.width(),
        k.len() == hs.positions() * hs.width(),
        is_scaled_dot(
            q,
            hs.head_start(doc, t, h),
            1,
            k,
            hs.head_start(doc, u, h),
            1,
            hs.d as nat,
            scale,
            r,
        ),
    ensures
        is_scaled_dot(
            cut(q, hs.width() as nat, doc * hs.t_len, m),
            one_document(hs, m).head_start(0, t, h),
            1,
            cut(k, hs.width() as nat, doc * hs.t_len, m),
            one_document(hs, m).head_start(0, u, h),
            1,
            hs.d as nat,
            scale,
            r,
        ),
{
    let hp = one_document(hs, m);
    let (c, d) = (hs.width() as nat, hs.d as nat);
    let base = doc * hs.t_len;
    let (qc, kc) = (cut(q, c, base, m), cut(k, c, base, m));
    lemma_row_inside(doc, hs.b_n as int, hs.t_len as int);
    lemma_cut(q, c, base, m, hs.positions() as nat);
    lemma_cut(k, c, base, m, hs.positions() as nat);
    let (st, su) = (hs.head_start(doc, t, h), hs.head_start(doc, u, h));
    let (pt, pu) = (hp.head_start(0, t, h), hp.head_start(0, u, h));
    assert(0 * hp.t_len == 0);
    let acc = choose|acc: S| #[trigger]
        is_dot(q, st, 1, k, su, 1, d, acc) && is_prod(acc, scale, r);
    assert forall|p: int| 0 <= p < d implies (#[trigger] dot_pair(qc, pt, 1, kc, pu, 1, p))
        == dot_pair(q, st, 1, k, su, 1, p) by {
        lemma_places(hs, doc, h, t, p);
        lemma_places(hs, doc, h, u, p);
        let col = h * hs.d + p;
        assert(qc[t * c + col] == entry(q, c, base + t, col));
        assert(kc[u * c + col] == entry(k, c, base + u, col));
    }
    lemma_dot_moved(q, st, 1, k, su, 1, qc, pt, 1, kc, pu, 1, d, acc);
}

/// The weighted sums of a document.
proof fn lemma_cut_mix<S: Scalar>(
    hs: Heads,
    y: Seq<S>,
    att: Seq<S>,
    v: Seq<S>,
    doc: int,
    m: nat,
)
    requires
        hs.t_len > 0,
        hs.h_n > 0,
        hs.d > 0,
        0 <= doc < hs.b_n,
        0 < m <= hs.t_len,
        y.len() == hs.positions() * hs.width(),
        v.len() == hs.positions() * hs.width(),
        is_attn_mix(hs, Side::Past, y, att, v),
    ensures
        is_attn_mix(
            one_document(hs, m),
            Side::Past,
            cut(y, hs.width() as nat, doc * hs.t_len, m),
            cut_weights(att, hs, doc, m),
            cut(v, hs.width() as nat, doc * hs.t_len, m),
        ),
{
    let hp = one_document(hs, m);
    let c = hs.width() as nat;
    let base = doc * hs.t_len;
    let (yc, ac, vc) = (cut(y, c, base, m), cut_weights(att, hs, doc, m), cut(v, c, base, m));
    lemma_row_inside(doc, hs.b_n as int, hs.t_len as int);
    lemma_places(hs, doc, 0, 0, 0);
    lemma_cut(y, c, base, m, hs.positions() as nat);
    lemma_cut(v, c, base, m, hs.positions() as nat);
    lemma_whole_rows(m as int, c as int);
    lemma_whole_rows(hs.positions(), c as int);
    assert(0 * hp.t_len == 0 && 0 * hp.h_n == 0);
    assert forall|t: int| 0 <= t < yc.len() / c implies causal_row(
        hp,
        Side::Past,
        ac,
        vc,
        t,
        #[trigger] row_of(yc, c, t),
    ) by {
        let (row, r) = (row_of(yc, c, t), base + t);
        lemma_row_inside(r, hs.positions(), c as int);
        assert(row == row_of(y, c, r));
        assert(causal_row(hs, Side::Past, att, v, r, row_of(y, c, r)));
        lemma_pair(doc, hs.b_n as int, t, hs.t_len as int);
        lemma_pair(0, 1, t, m as int);
        assert forall|col: int| 0 <= col < row.len() implies is_causal_sum(
            hp,
            Side::Past,
            ac,
            vc,
            t,
            col,
            #[trigger] row[col],
        ) by {
            assert(is_causal_sum(hs, Side::Past, att, v, r, col, row[col]));
            lemma_unpair(col, hs.h_n as int, hs.d as int);
            let h = col / hs.d as int;
            let (wo, po) = (hs.weight_row(doc, h, t) * hs.t_len, hp.weight_row(0, h, t) * hp.t_len);
            let (vo, zo) = (hs.entry(doc, 0, col), hp.entry(0, 0, col));
            let n = (t + 1) as nat;
            assert forall|u: int| 0 <= u < n implies (#[trigger] dot_pair(
                ac,
                po,
                1,
                vc,
                zo,
                hp.width(),
                u,
            )) == dot_pair(att, wo, 1, v, vo, hs.width(), u) by {
                lemma_cut_weight(att, hs, doc, m, h, t, u);
                lemma_step_down(base, u, c as int);
                assert(vc[u * c + col] == entry(v, c, base + u, col));
                assert(hp.position(0, 0) == 0 && hs.position(doc, 0) == base);
                assert(0 * hp.width() == 0);
            }
            lemma_dot_moved(
                att,
                wo,
                1,
                v,
                vo,
                hs.width(),
                ac,
                po,
                1,
                vc,
                zo,
                hp.width(),
                n,
                row[col],
            );
        }
    }
}

/// The shape of a run of `m` positions by themselves.
pub open spec fn alone(s: Shape, m: nat) -> Shape {
    Shape { cfg: s.cfg, vocab: s.vocab, rows: m as usize, t_len: m as usize }
}

/// What goes through a layer for the first `m` positions of document `doc`.
pub open spec fn cut_layer<S>(
    s: Shape,
    a: LayerValues<S>,
    doc: int,
    m: nat,
) -> LayerValues<S> {
    let (c, c4, base) = (s.c() as nat, (4 * s.c()) as nat, doc * s.t_len);
    LayerValues {
        xin: cut(a.xin, c, base, m),
        xn: cut(a.xn, c, base, m),
        q: cut(a.q, c, base, m),
        k: cut(a.k, c, base, m),
        v: cut(a.v, c, base, m),
        att: cut_weights(a.att, s.heads_spec(), doc, m),
        atty: cut(a.atty, c, base, m),
        x_mid: cut(a.x_mid, c, base, m),
        xn2: cut(a.xn2, c, base, m),
        hpre: cut(a.hpre, c4, base, m),
        h: cut(a.h, c4, base, m),
        x_out: cut(a.x_out, c, base, m),
        r1: a.r1.subrange(base, base + m),
        r2: a.r2.subrange(base, base + m),
    }
}

/// What goes through the network for the first `m` positions of document `doc`.
pub open spec fn cut_values<S>(s: Shape, a: Values<S>, doc: int, m: nat) -> Values<S> {
    let (c, v, base) = (s.c() as nat, s.vocab as nat, doc * s.t_len);
    Values {
        x0: cut(a.x0, c, base, m),
        x1: cut(a.x1, c, base, m),
        r0: a.r0.subrange(base, base + m),
        layers: Seq::new(
            s.cfg.n_layer as nat,
            |li: int| cut_layer(s, a.layers[li], doc, m),
        ),
        logits: cut(a.logits, v, base, m),
    }
}

/// A run of some positions alone has a shape that can be run.
proof fn lemma_alone(s: Shape, doc: int, m: nat)
    requires
        s.ok(),
        0 <= doc < s.heads_spec().b_n,
        0 < m <= s.t_len,
    ensures
        alone(s, m).ok(),
        alone(s, m).heads_spec() == one_document(s.heads_spec(), m),
        0 <= doc * s.t_len,
        doc * s.t_len + m <= s.rows,
{
    let hs = s.heads_spec();
    s.lemma_numbers();
    lemma_row_inside(doc, hs.b_n as int, hs.t_len as int);
    vstd::arithmetic::div_mod::lemma_mod_self_0(m as int);
    lemma_whole_rows(1, m as int);
}

/// A layer of a document.
proof fn lemma_cut_layer<S: Scalar>(
    s: Shape,
    w: LayerWeights<S>,
    a: LayerValues<S>,
    doc: int,
    m: nat,
)
    requires
        s.ok(),
        0 <= doc < s.heads_spec().b_n,
        0 < m <= s.t_len,
        is_layer(s, w, a),
    ensures
        is_layer(alone(s, m), w, cut_layer(s, a, doc, m)),
{
    let (c, c4, base) = (s.c() as nat, (4 * s.c()) as nat, doc * s.t_len);
    let total = s.rows as nat;
    let hs = s.heads_spec();
    let p = alone(s, m);
    let b = cut_layer(s, a, doc, m);
    s.lemma_numbers();
    lemma_alone(s, doc, m);
    p.lemma_numbers();
    assert(s.rc() == total * c && s.rc4() == total * c4);
    assert(p.rc() == m * c && p.rc4() == m * c4);
    assert(p.att() == hs.h_n * m * m) by {
        let hp = p.heads_spec();
        assert(1 * hs.h_n == hs.h_n);
        assert(hp.weight_rows() == hs.h_n * m);
    }
    lemma_cut(a.xin, c, base, m, total);
    lemma_cut(a.xn, c, base, m, total);
    lemma_cut(a.q, c, base, m, total);
    lemma_cut(a.k, c, base, m, total);
    lemma_cut(a.v, c, base, m, total);
    lemma_cut(a.atty, c, base, m, total);
    lemma_cut(a.x_mid, c, base, m, total);
    lemma_cut(a.xn2, c, base, m, total);
    lemma_cut(a.hpre, c4, base, m, total);
    lemma_cut(a.h, c4, base, m, total);
    lemma_cut(a.x_out, c, base, m, total);
    lemma_cut_norm(a.xn, a.r1, a.xin, c, base, m, total);
    lemma_cut_linear(a.q, a.xn, w.wq, c, c, base, m, total);
    lemma_cut_linear(a.k, a.xn, w.wk, c, c, base, m, total);
    lemma_cut_linear(a.v, a.xn, w.wv, c, c, base, m, total);
    lemma_cut_softmax(hs, a.att, a.q, a.k, doc, m);
    lemma_cut_mix(hs, a.atty, a.att, a.v, doc, m);
    lemma_cut_residual(a.x_mid, a.xin, a.atty, w.wo, c, c, base, m, total);
    lemma_cut_norm(a.xn2, a.r2, a.x_mid, c, base, m, total);
    lemma_cut_linear(a.hpre, a.xn2, w.fc1, c4, c, base, m, total);
    lemma_cut_relu(a.h, a.hpre, c4, base, m, total);
    lemma_cut_residual(a.x_out, a.x_mid, a.h, w.fc2, c, c4, base, m, total);
}

/// A document stands alone: cut out of a run of a whole batch, the rows of its first `m`
/// positions are a run of these positions by themselves.
pub proof fn law_documents_stand_alone<S: Scalar>(
    s: Shape,
    w: Weights<S>,
    tokens: Seq<i32>,
    a: Values<S>,
    doc: int,
    m: nat,
)
    requires
        s.ok(),
        tokens.len() == s.rows,
        is_forward(s, w, tokens, a),
        0 <= doc < s.heads_spec().b_n,
        0 < m <= s.t_len,
    ensures
        alone(s, m).ok(),
        is_forward(
            alone(s, m),
            w,
            tokens.subrange(doc * s.t_len, doc * s.t_len + m),
            cut_values(s, a, doc, m),
        ),
{
    let (c, v, base) = (s.c() as nat, s.vocab as nat, doc * s.t_len);
    let total = s.rows as nat;
    let p = alone(s, m);
    let b = cut_values(s, a, doc, m);
    let n = s.cfg.n_layer as int;
    s.lemma_numbers();
    lemma_alone(s, doc, m);
    p.lemma_numbers();
    assert(s.rc() == total * c && s.rv() == total * v);
    assert(p.rc() == m * c && p.rv() == m * v);
    lemma_cut(a.x0, c, base, m, total);
    lemma_cut(a.x1, c, base, m, total);
    lemma_cut(a.logits, v, base, m, total);
    lemma_cut_embed(a.x0, w.wte, w.wpe, tokens, s.t_len as nat, c, doc, m, total);
    lemma_cut_norm(a.x1, a.r0, a.x0, c, base, m, total);
    assert forall|li: int| 0 <= li < n implies is_layer(p, w.layers[li], #[trigger] b.layers[li])
        && b.layers[li].xin == input_of(b, li) by {
        assert(is_layer(s, w.layers[li], a.layers[li]) && a.layers[li].xin == input_of(a, li));
        lemma_cut_layer(s, w.layers[li], a.layers[li], doc, m);
    }
    assert(is_layer(s, w.layers[n - 1], a.layers[n - 1]));
    lemma_cut_linear(
        a.logits,
        a.layers[n - 1].x_out,
        w.lm_head,
        v,
        c,
        base,
        m,
        total,
    );
}

/// A position's logits are those of its prefix: position `t` of a document in a batch has the
/// logits that come last when the tokens of the document up to `t` are run by themselves,
/// bit by bit. Neither later tokens, nor padding, nor other documents have a part in them.
pub proof fn law_prefixes_have_the_same_logits<S: Scalar>(
    s: Shape,
    w: Weights<S>,
    tokens: Seq<i32>,
    a: Values<S>,
    b: Values<S>,
    doc: int,
    t: int,
)
    requires
        deterministic::<S>(),
        s.ok(),
        tokens.len() == s.rows,
        is_forward(s, w, tokens, a),
        0 <= doc < s.heads_spec().b_n,
        0 <= t < s.t_len,
        is_forward(
            alone(s, (t + 1) as nat),
            w,
            tokens.subrange(doc * s.t_len, doc * s.t_len + t + 1),
            b,
        ),
    ensures
        row_of(a.logits, s.vocab as nat, doc * s.t_len + t) == row_of(
            b.logits,
            s.vocab as nat,
            t,
        ),
{
    let m = (t + 1) as nat;
    let (v, base) = (s.vocab as nat, doc * s.t_len);
    s.lemma_numbers();
    lemma_alone(s, doc, m);
    law_documents_stand_alone(s, w, tokens, a, doc, m);
    let own = tokens.subrange(base, base + m);
    assert(own =~= tokens.subrange(base, base + t + 1));
    law_forward_is_deterministic(alone(s, m), w, own, cut_values(s, a, doc, m), b);
    assert(s.rv() == s.rows as nat * v);
    lemma_cut(a.logits, v, base, m, s.rows as nat);
}

} // verus!
