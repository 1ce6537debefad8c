//! First-order motion of the softmax and of the cross-entropy, and that the backward pass of
//! the loss is its adjoint.
use vstd::prelude::*;

use crate::exact::{
    exact, inner, lemma_cancel, lemma_quotient, lemma_running_sum_exact, lemma_total_add,
    lemma_total_pick, lemma_total_scale, lemma_total_zero, total_of,
};
use crate::index::{lemma_row_inside, lemma_whole_rows};
use crate::loss::{ce_bwd_row, ce_row, is_ce, is_ce_bwd, is_ce_grad};
use crate::motion::{lemma_pairing_rows, nums, paired_row, pairing, row_moves, row_nums};
use crate::reduce::{is_shifted_exp, is_softmax_by, is_total, item_term};
use crate::rows::row_of;
use crate::scalar::{is_diff, is_num, is_one, is_quot, is_running_sum, is_zero, Scalar};

verus! {

/// How number `j` of a softmax `p` of `n` numbers moves, when these move by `ms`:
/// `p_j * (s'_j - sum_k p_k s'_k)`.
pub open spec fn softmax_moved(
    p: spec_fn(int) -> real,
    ms: spec_fn(int) -> real,
    n: nat,
    j: int,
) -> real {
    p(j) * (ms(j) - inner(p, ms, n))
}

/// A sum, in exact arithmetic.
pub proof fn lemma_total_exact<S: Scalar>(val: spec_fn(S) -> real, xs: Seq<S>, r: S)
    requires
        exact(val),
        is_total(xs, r),
    ensures
        val(r) == total_of(nums(val, xs), xs.len()),
{
    let zero = choose|zero: S|
        is_zero(zero) && #[trigger] is_running_sum(zero, item_term(xs), xs.len(), r);
    lemma_running_sum_exact(val, zero, item_term(xs), nums(val, xs), xs.len(), r);
}

/// A sum of positive numbers is positive.
pub proof fn lemma_total_positive(f: spec_fn(int) -> real, n: nat)
    requires
        forall|i: int| 0 <= i < n ==> #[trigger] f(i) > 0 as real,
    ensures
        n > 0 ==> total_of(f, n) > 0 as real,
        n == 0 ==> total_of(f, n) == 0 as real,
    decreases n,
{
    if n > 0 {
        lemma_total_positive(f, (n - 1) as nat);
        assert(f(n - 1) > 0 as real);
    }
}

/// The numbers of a softmax: positive exponentials over their positive sum.
pub proof fn lemma_softmax_exact<S: Scalar>(
    val: spec_fn(S) -> real,
    s: Seq<S>,
    p: Seq<S>,
    shift: S,
    e: Seq<S>,
    sum: S,
)
    requires
        exact(val),
        s.len() > 0,
        is_softmax_by(s, p, shift, e, sum),
    ensures
        val(sum) > 0 as real,
        val(sum) == total_of(nums(val, e), s.len()),
        forall|j: int|
            0 <= j < s.len() ==> #[trigger] nums(val, p)(j) * val(sum) == nums(val, e)(j)
                && nums(val, e)(j) > 0 as real,
{
    assert forall|j: int| 0 <= j < s.len() implies #[trigger] nums(val, e)(j) > 0 as real by {
        assert(is_shifted_exp(s[j], shift, e[j]));
    }
    lemma_total_positive(nums(val, e), s.len());
    lemma_total_exact(val, e, sum);
    assert forall|j: int| 0 <= j < s.len() implies #[trigger] nums(val, p)(j) * val(sum) == nums(
        val,
        e,
    )(j) && nums(val, e)(j) > 0 as real by {
        assert(is_quot(e[j], sum, p[j]));
        lemma_quotient(val(e[j]), val(sum));
        assert(nums(val, e)(j) > 0 as real);
    }
}

/// The rule for the softmax follows from those for exponentials, sums and quotients, however
/// the number moves that is taken off for safety.
pub proof fn law_softmax_rule<S: Scalar>(
    val: spec_fn(S) -> real,
    s: Seq<S>,
    p: Seq<S>,
    shift: S,
    e: Seq<S>,
    sum: S,
    ms: spec_fn(int) -> real,
    mshift: real,
    me: spec_fn(int) -> real,
    mp: spec_fn(int) -> real,
)
    requires
        exact(val),
        s.len() > 0,
        is_softmax_by(s, p, shift, e, sum),
        forall|j: int|
            0 <= j < s.len() ==> #[trigger] me(j) == nums(val, e)(j) * (ms(j) - mshift),
        forall|j: int|
            0 <= j < s.len() ==> #[trigger] mp(j) * val(sum) == me(j) - nums(val, p)(j) * total_of(
                me,
                s.len(),
            ),
    ensures
        forall|j: int|
            0 <= j < s.len() ==> #[trigger] mp(j) == softmax_moved(nums(val, p), ms, s.len(), j),
{
    lemma_softmax_exact(val, s, p, shift, e, sum);
    let n = s.len();
    let (ps, es, z) = (nums(val, p), nums(val, e), val(sum));
    let mean = inner(ps, ms, n);
    // the sum moves by z * (mean - mshift)
    let along = |j: int| ps(j) * ms(j);
    let (scaled, shifted) = (|j: int| z * along(j), |j: int| (-mshift) * es(j));
    assert forall|j: int| 0 <= j < n implies #[trigger] me(j) == scaled(j) + shifted(j) by {
        let (a, b, m) = (ps(j), es(j), ms(j));
        assert(a * z == b);
        assert((a * z) * (m - mshift) == z * (a * m) + (-mshift) * (a * z)) by (nonlinear_arith);
    }
    lemma_total_add(scaled, shifted, me, n);
    lemma_total_scale(z, along, scaled, n);
    lemma_total_scale(-mshift, es, shifted, n);
    let msum = total_of(me, n);
    assert(msum == z * mean + (-mshift) * z);
    assert forall|j: int| 0 <= j < n implies #[trigger] mp(j) == softmax_moved(ps, ms, n, j) by {
        let (a, b, m, x) = (ps(j), es(j), ms(j), mp(j));
        assert(a * z == b);
        assert(me(j) == b * (m - mshift));
        assert(x * z == me(j) - a * msum);
        let y = a * (m - mean);
        assert(a * (z * mean + (-mshift) * z) == (a * z) * mean + (-mshift) * (a * z))
            by (nonlinear_arith);
        assert(b * (m - mshift) == b * m + (-mshift) * b) by (nonlinear_arith);
        assert(a * (m - mean) * z == (a * z) * m - (a * z) * mean) by (nonlinear_arith);
        lemma_cancel(x, y, z);
    }
}

/// How the loss of a row moves: by the rule for `-ln(p)`, where `p` is what the softmax
/// gives to the target; the loss of padding does not move.
pub open spec fn moves_loss<S>(
    val: spec_fn(S) -> real,
    mloss: real,
    probs: Seq<S>,
    mlogits: Seq<real>,
    vocab: nat,
    target: int,
    t: int,
) -> bool {
    if target < 0 {
        mloss == 0 as real
    } else {
        row_nums(val, probs, vocab, t)(target) * mloss == -softmax_moved(
            row_nums(val, probs, vocab, t),
            row_moves(mlogits, vocab, t),
            vocab,
            target,
        )
    }
}

/// How the mean of the losses of `m` rows moves.
pub open spec fn moves_mean_loss<S>(
    val: spec_fn(S) -> real,
    mmean: real,
    mlosses: Seq<real>,
    probs: Seq<S>,
    mlogits: Seq<real>,
    targets: Seq<i32>,
    m: nat,
    vocab: nat,
    valid: nat,
) -> bool {
    &&& forall|t: int|
        0 <= t < m ==> moves_loss(
            val,
            #[trigger] mlosses[t],
            probs,
            mlogits,
            vocab,
            targets[t] as int,
            t,
        )
    &&& mmean == total_of(|t: int| mlosses[t], m) / valid as real
}

/// The loss of row `t` moves by `sum_j p_j l'_j - l'_target`.
proof fn lemma_loss_moved<S: Scalar>(
    val: spec_fn(S) -> real,
    losses: Seq<S>,
    probs_before: Seq<S>,
    probs: Seq<S>,
    logits: Seq<S>,
    targets: Seq<i32>,
    mloss: real,
    mlogits: Seq<real>,
    m: nat,
    vocab: nat,
    t: int,
)
    requires
        exact(val),
        vocab > 0,
        losses.len() == m,
        probs_before.len() == m * vocab,
        logits.len() == m * vocab,
        is_ce(losses, probs_before, probs, logits, targets, vocab),
        0 <= t < m,
        0 <= targets[t] < vocab,
        moves_loss(val, mloss, probs, mlogits, vocab, targets[t] as int, t),
    ensures
        mloss == inner(row_nums(val, probs, vocab, t), row_moves(mlogits, vocab, t), vocab)
            - row_moves(mlogits, vocab, t)(targets[t] as int),
{
    lemma_row_inside(t, m as int, vocab as int);
    let (lrow, prow) = (row_of(logits, vocab, t), row_of(probs, vocab, t));
    assert(ce_row(losses[t], row_of(probs_before, vocab, t), prow, lrow, targets[t]));
    let (shift, e, sum) = choose|shift: S, e: Seq<S>, sum: S| #[trigger]
        is_softmax_by(lrow, prow, shift, e, sum);
    lemma_softmax_exact(val, lrow, prow, shift, e, sum);
    let hit = targets[t] as int;
    assert(nums(val, prow)(hit) * val(sum) == nums(val, e)(hit));
    let (p, z, x) = (row_nums(val, probs, vocab, t)(hit), val(sum), nums(val, e)(hit));
    assert(p == nums(val, prow)(hit));
    assert(p != 0 as real) by (nonlinear_arith)
        requires
            p * z == x,
            x > 0 as real,
    ;
    let (mean, own) = (
        inner(row_nums(val, probs, vocab, t), row_moves(mlogits, vocab, t), vocab),
        row_moves(mlogits, vocab, t)(hit),
    );
    assert(mloss * p == p * mloss && (mean - own) * p == -(p * (own - mean))) by (nonlinear_arith);
    lemma_cancel(mloss, mean - own, p);
}

/// The gradient of a row of logits, paired with their motion, times the number of valid
/// rows.
proof fn lemma_ce_row<S: Scalar>(
    val: spec_fn(S) -> real,
    dlogits: Seq<S>,
    probs: Seq<S>,
    targets: Seq<i32>,
    mlogits: Seq<real>,
    m: nat,
    vocab: nat,
    valid: nat,
    t: int,
)
    requires
        exact(val),
        vocab > 0,
        0 < valid <= u64::MAX,
        dlogits.len() == m * vocab,
        is_ce_bwd(dlogits, probs, targets, vocab, valid),
        0 <= t < m,
        targets[t] < vocab,
    ensures
        valid as real * paired_row(val, dlogits, mlogits, vocab)(t) == if targets[t] < 0 {
            0 as real
        } else {
            inner(row_nums(val, probs, vocab, t), row_moves(mlogits, vocab, t), vocab) - row_moves(
                mlogits,
                vocab,
                t,
            )(targets[t] as int)
        },
{
    lemma_whole_rows(m as int, vocab as int);
    lemma_row_inside(t, m as int, vocab as int);
    let row = row_of(dlogits, vocab, t);
    assert(ce_bwd_row(probs, targets, valid, t, row));
    let (g, ml) = (row_nums(val, dlogits, vocab, t), row_moves(mlogits, vocab, t));
    let f = |j: int| g(j) * ml(j);
    let n = valid as real;
    if targets[t] < 0 {
        assert forall|j: int| 0 <= j < vocab implies #[trigger] f(j) == 0 as real by {
            assert(is_zero(row[j]));
            let x = ml(j);
            assert((0 as real) * x == 0 as real) by (nonlinear_arith);
        }
        lemma_total_zero(f, vocab);
        assert(n * (0 as real) == 0 as real) by (nonlinear_arith);
    } else {
        let hit = targets[t] as int;
        let ps = row_nums(val, probs, vocab, t);
        let along = |j: int| ps(j) * ml(j);
        let off = |j: int|
            if j == hit {
                -ml(j)
            } else {
                0 as real
            };
        let h = |j: int| n * f(j);
        assert forall|j: int| 0 <= j < vocab implies #[trigger] h(j) == along(j) + off(j) by {
            let (p, r) = (probs[t * vocab + j], row[j]);
            assert(is_ce_grad(p, j == targets[t], valid, r));
            let (one, diff, count) = choose|one: S, diff: S, count: S|
                #![trigger is_diff(p, one, diff), is_quot(diff, count, r)]
                (if j == targets[t] {
                    is_one(one)
                } else {
                    is_zero(one)
                }) && is_diff(p, one, diff) && is_num(valid as u64, count) && is_quot(
                    diff,
                    count,
                    r,
                );
            lemma_quotient(val(diff), n);
            let (a, x, y) = (val(p), g(j), ml(j));
            let o = if j == hit {
                1 as real
            } else {
                0 as real
            };
            assert(x * n == a - o);
            assert(n * (x * y) == (x * n) * y && (a - o) * y == a * y - o * y) by (nonlinear_arith);
            assert((1 as real) * y == y && (0 as real) * y == 0 as real) by (nonlinear_arith);
        }
        lemma_total_add(along, off, h, vocab);
        lemma_total_scale(n, f, h, vocab);
        lemma_total_pick(off, hit, vocab);
    }
}

/// The backward pass of the loss is its adjoint: for any motion of the logits, the mean loss
/// moves by the gradient of the logits paired with their motion.
pub proof fn law_loss_adjoint<S: Scalar>(
    val: spec_fn(S) -> real,
    losses: Seq<S>,
    probs_before: Seq<S>,
    probs: Seq<S>,
    logits: Seq<S>,
    dlogits: Seq<S>,
    targets: Seq<i32>,
    mmean: real,
    mlosses: Seq<real>,
    mlogits: Seq<real>,
    m: nat,
    vocab: nat,
    valid: nat,
)
    requires
        exact(val),
        vocab > 0,
        0 < valid <= u64::MAX,
        losses.len() == m,
        probs_before.len() == m * vocab,
        logits.len() == m * vocab,
        dlogits.len() == m * vocab,
        forall|t: int| 0 <= t < m ==> #[trigger] targets[t] < vocab,
        is_ce(losses, probs_before, probs, logits, targets, vocab),
        is_ce_bwd(dlogits, probs, targets, vocab, valid),
        moves_mean_loss(
            val,
            mmean,
            mlosses,
            probs,
            mlogits,
            targets,
            m,
            vocab,
            valid,
        ),
    ensures
        mmean == pairing(val, dlogits, mlogits, m * vocab),
{
    let rows = paired_row(val, dlogits, mlogits, vocab);
    let n = valid as real;
    let ml = |t: int| mlosses[t];
    assert forall|t: int| 0 <= t < m implies #[trigger] ml(t) == n * rows(t) by {
        assert(targets[t] < vocab);
        assert(moves_loss(val, mlosses[t], probs, mlogits, vocab, targets[t] as int, t));
        lemma_ce_row(val, dlogits, probs, targets, mlogits, m, vocab, valid, t);
        if targets[t] >= 0 {
            lemma_loss_moved(
                val,
                losses,
                probs_before,
                probs,
                logits,
                targets,
                mlosses[t],
                mlogits,
                m,
                vocab,
                t,
            );
        }
    }
    lemma_total_scale(n, rows, ml, m);
    lemma_pairing_rows(val, dlogits, mlogits, m, vocab);
    let total = total_of(ml, m);
    let pair = total_of(rows, m);
    lemma_quotient(total, n);
    assert(n * pair == pair * n) by (nonlinear_arith);
    lemma_cancel(mmean, pair, n);
}

} // verus!
