//! Cross-entropy of rows of logits against target tokens, and its backward pass. A
//! negative target marks padding.
use vstd::prelude::*;

use crate::index::{lemma_row_inside, lemma_whole_rows};
use crate::reduce::{is_softmax, is_total, softmax_in_place, total};
use crate::rows::{all_rows, row_of, RowKernel, RowRunner};
use crate::scalar::{is_diff, is_ln, is_neg, is_num, is_one, is_quot, is_zero, Scalar};

verus! {

/// Targets for `rows` rows: each is a token of the vocabulary, or negative for padding.
pub open spec fn valid_targets(targets: Seq<i32>, vocab: int) -> bool {
    forall|t: int| 0 <= t < targets.len() ==> #[trigger] targets[t] < vocab
}

/// How many of the first `n` targets are no padding.
pub open spec fn count_valid(targets: Seq<i32>, n: nat) -> nat
    decreases n,
{
    if n == 0 {
        0
    } else {
        count_valid(targets, (n - 1) as nat) + if targets[n - 1] >= 0 {
            1nat
        } else {
            0
        }
    }
}

/// `r` is `-ln(p)`.
pub open spec fn is_surprise<S: Scalar>(p: S, r: S) -> bool {
    exists|log: S| #[trigger] is_ln(p, log) && is_neg(log, r)
}

/// What the loss makes of row `t`: the softmax of the logits and the surprise at the
/// target, or on padding a zero with the probabilities left alone.
pub open spec fn ce_row<S: Scalar>(
    loss: S,
    before: Seq<S>,
    probs: Seq<S>,
    logits: Seq<S>,
    target: i32,
) -> bool {
    if target < 0 {
        is_zero(loss) && probs == before
    } else {
        is_softmax(logits, probs) && is_surprise(probs[target as int], loss)
    }
}

/// `losses` and `probs` are those of `logits` against `targets`.
pub open spec fn is_ce<S: Scalar>(
    losses: Seq<S>,
    probs_before: Seq<S>,
    probs: Seq<S>,
    logits: Seq<S>,
    targets: Seq<i32>,
    vocab: nat,
) -> bool {
    &&& probs.len() == probs_before.len()
    &&& forall|t: int|
        0 <= t < losses.len() ==> ce_row(
            #[trigger] losses[t],
            row_of(probs_before, vocab, t),
            row_of(probs, vocab, t),
            row_of(logits, vocab, t),
            targets[t],
        )
}

/// `r` is `(p - hit) / valid`, where `hit` is one at the target and zero elsewhere.
pub open spec fn is_ce_grad<S: Scalar>(p: S, hit: bool, valid: nat, r: S) -> bool {
    exists|one: S, diff: S, count: S|
        #![trigger is_diff(p, one, diff), is_quot(diff, count, r)]
        (if hit {
            is_one(one)
        } else {
            is_zero(one)
        }) && is_diff(p, one, diff) && is_num(valid as u64, count) && is_quot(diff, count, r)
}

/// Row `t` of the gradient of the logits.
pub open spec fn ce_bwd_row<S: Scalar>(
    probs: Seq<S>,
    targets: Seq<i32>,
    valid: nat,
    t: int,
    after: Seq<S>,
) -> bool {
    let vocab = after.len();
    forall|j: int|
        0 <= j < vocab ==> if targets[t] < 0 {
            is_zero(#[trigger] after[j])
        } else {
            is_ce_grad(probs[t * vocab + j], j == targets[t], valid, after[j])
        }
}

/// `dlogits` is the gradient of the mean loss with respect to the logits.
pub open spec fn is_ce_bwd<S: Scalar>(
    dlogits: Seq<S>,
    probs: Seq<S>,
    targets: Seq<i32>,
    vocab: nat,
    valid: nat,
) -> bool {
    all_rows(|t: int, a: Seq<S>| ce_bwd_row(probs, targets, valid, t, a), vocab, dlogits)
}

/// `r` is the mean of `losses` over `valid` positions.
pub open spec fn is_mean_loss<S: Scalar>(losses: Seq<S>, valid: nat, r: S) -> bool {
    exists|sum: S, count: S|
        is_total(losses, sum) && is_num(valid as u64, count) && #[trigger] is_quot(sum, count, r)
}

/// How many targets are no padding.
pub fn valid_count(targets: &[i32]) -> (n: usize)
    ensures
        n == count_valid(targets@, targets@.len()),
        n <= targets@.len(),
{
    let mut n: usize = 0;
    for t in 0..targets.len()
        invariant
            n == count_valid(targets@, t as nat),
            n <= t,
    {
        if targets[t] >= 0 {
            n = n + 1;
        }
    }
    n
}

/// The mean of the first `n` losses over `valid` positions.
pub fn mean_loss<S: Scalar>(losses: &[S], n: usize, valid: usize) -> (r: S)
    requires
        n <= losses@.len(),
    ensures
        is_mean_loss(losses@.take(n as int), valid as nat, r),
{
    let sum: S = total(losses, n);
    let count: S = S::from_u64(valid as u64);
    sum.div(count)
}

/// Softmax and negative log-likelihood of every row.
pub fn ce_fwd<S: Scalar>(
    losses: &mut [S],
    probs: &mut [S],
    logits: &[S],
    targets: &[i32],
    vocab: usize,
)
    requires
        vocab > 0,
        old(losses)@.len() <= targets@.len(),
        valid_targets(targets@, vocab as int),
        old(losses)@.len() * vocab <= old(probs)@.len(),
        old(losses)@.len() * vocab <= logits@.len(),
    ensures
        final(losses)@.len() == old(losses)@.len(),
        is_ce(final(losses)@, old(probs)@, final(probs)@, logits@, targets@, vocab as nat),
        forall|i: int|
            old(losses)@.len() * vocab <= i < old(probs)@.len() ==> final(probs)@[i] == old(
                probs,
            )@[i],
{
    let rows: usize = losses.len();
    let probs_len: usize = probs.len();
    let logits_len: usize = logits.len();
    let ghost before = probs@;
    let ghost c = vocab as nat;
    for t in 0..rows
        invariant
            vocab > 0,
            c == vocab,
            rows == losses@.len(),
            rows <= targets@.len(),
            valid_targets(targets@, vocab as int),
            probs_len == probs@.len() == before.len(),
            logits_len == logits@.len(),
            rows * vocab <= probs@.len(),
            rows * vocab <= logits@.len(),
            forall|i: int|
                0 <= i < t ==> ce_row(
                    #[trigger] losses@[i],
                    row_of(before, c, i),
                    row_of(probs@, c, i),
                    row_of(logits@, c, i),
                    targets@[i],
                ),
            forall|i: int| t * vocab <= i < probs@.len() ==> probs@[i] == before[i],
    {
        let ghost current = probs@;
        let ghost earlier = losses@;
        proof {
            lemma_row_inside(t as int, rows as int, vocab as int);
        }
        let target: i32 = targets[t];
        assert(row_of(current, c, t as int) =~= row_of(before, c, t as int));
        if target < 0 {
            losses[t] = S::zero();
        } else {
            let start: usize = t * vocab;
            let (_, tail) = probs.split_at_mut(start);
            let (row, _) = tail.split_at_mut(vocab);
            for j in 0..vocab
                invariant
                    row@.len() == vocab,
                    logits_len == logits@.len(),
                    start + vocab <= logits@.len(),
                    forall|i: int| 0 <= i < j ==> row@[i] == logits@[start + i],
            {
                row[j] = logits[start + j];
            }
            assert(row@.take(vocab as int) =~= row_of(logits@, c, t as int));
            softmax_in_place(row, vocab);
            assert(row@.take(vocab as int) =~= row@);
            assert(target < vocab);
            let log: S = row[target as usize].ln();
            let ghost filled = row@;
            losses[t] = log.neg();
            proof {
                assert(row_of(probs@, c, t as int) =~= filled);
                assert(is_surprise(filled[target as int], losses@[t as int]));
            }
        }
        proof {
            assert forall|i: int| 0 <= i < t + 1 implies ce_row(
                #[trigger] losses@[i],
                row_of(before, c, i),
                row_of(probs@, c, i),
                row_of(logits@, c, i),
                targets@[i],
            ) by {
                if i < t {
                    lemma_row_inside(i, t as int, vocab as int);
                    assert(row_of(probs@, c, i) =~= row_of(current, c, i));
                    assert(losses@[i] == earlier[i]);
                }
            }
        }
    }
}

/// The rows of the gradient of the logits.
pub struct CeBwd<'a, S> {
    pub probs: &'a [S],
    pub targets: &'a [i32],
    pub valid: usize,
}

impl<'a, S: Scalar> RowKernel<S> for CeBwd<'a, S> {
    open spec fn accepts(&self, r: int, row_len: nat) -> bool {
        &&& 0 <= r < self.targets@.len()
        &&& (r + 1) * row_len <= self.probs@.len()
    }

    open spec fn row(&self, r: int, before: Seq<S>, after: Seq<S>) -> bool {
        ce_bwd_row(self.probs@, self.targets@, self.valid as nat, r, after)
    }

    fn apply(&self, t: usize, row: &mut [S]) {
        let vocab: usize = row.len();
        let probs_len: usize = self.probs.len();
        let target: i32 = self.targets[t];
        proof {
            lemma_row_inside(t as int, t + 1, vocab as int);
        }
        for j in 0..vocab
            invariant
                vocab == row@.len(),
                probs_len == self.probs@.len(),
                0 <= t * vocab,
                t * vocab + vocab <= self.probs@.len(),
                forall|i: int|
                    0 <= i < j ==> if target < 0 {
                        is_zero(#[trigger] row@[i])
                    } else {
                        is_ce_grad(
                            self.probs@[t * vocab + i],
                            i == target,
                            self.valid as nat,
                            row@[i],
                        )
                    },
        {
            if target < 0 {
                row[j] = S::zero();
            } else {
                let p: S = self.probs[t * vocab + j];
                let one: S = if j == target as usize {
                    S::one()
                } else {
                    S::zero()
                };
                let diff: S = p.sub(one);
                let count: S = S::from_u64(self.valid as u64);
                row[j] = diff.div(count);
                assert(is_ce_grad(
                    self.probs@[t * vocab + j],
                    j == target,
                    self.valid as nat,
                    row@[j as int],
                ));
            }
        }
    }
}

/// The gradient of the mean loss with respect to the logits.
pub fn ce_bwd<S: Scalar, R: RowRunner>(
    runner: &R,
    dlogits: &mut [S],
    probs: &[S],
    targets: &[i32],
    vocab: usize,
    valid: usize,
)
    requires
        vocab > 0,
        old(dlogits)@.len() == targets@.len() * vocab,
        old(dlogits)@.len() <= probs@.len(),
    ensures
        final(dlogits)@.len() == old(dlogits)@.len(),
        is_ce_bwd(final(dlogits)@, probs@, targets@, vocab as nat, valid as nat),
{
    let kernel: CeBwd<S> = CeBwd { probs, targets, valid };
    proof {
        let rows = targets@.len() as int;
        lemma_whole_rows(rows, vocab as int);
        assert forall|r: int| 0 <= r < rows implies #[trigger] kernel.accepts(
            r,
            vocab as nat,
        ) by {
            lemma_row_inside(r, rows, vocab as int);
        }
    }
    runner.run(&kernel, dlogits, vocab);
}

} // verus!
