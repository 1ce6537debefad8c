//! Batches of documents for training.
use vstd::prelude::*;

use crate::index::lemma_pair;
use crate::loss::valid_targets;
use crate::text::{ascending, contents, is_encoding, law_encoding_is_unique, Tokenizer};

verus! {

/// How many positions of a document with the tokens `toks` are trained on: all but the
/// last token predict the one that follows, up to `t_max` of them.
pub open spec fn clipped(toks: Seq<usize>, t_max: int) -> int {
    if toks.len() - 1 < t_max {
        toks.len() - 1
    } else {
        t_max
    }
}

/// Position `i` of a row of a batch: a token and the one that follows it, or beyond the
/// end of the document the mark and a padding target.
pub open spec fn is_batch_entry(
    toks: Seq<usize>,
    bos: int,
    t_max: int,
    i: int,
    token: i32,
    target: i32,
) -> bool {
    if i < clipped(toks, t_max) {
        token == toks[i] && target == toks[i + 1]
    } else {
        token == bos && target == -1
    }
}

/// The row of a batch that starts at `start` and has `t_len` positions is that of the
/// document with the tokens `toks`.
pub open spec fn is_batch_row(
    toks: Seq<usize>,
    bos: int,
    t_max: int,
    tokens: Seq<i32>,
    targets: Seq<i32>,
    start: int,
    t_len: int,
) -> bool {
    forall|i: int|
        0 <= i < t_len ==> is_batch_entry(
            toks,
            bos,
            t_max,
            i,
            #[trigger] tokens[start + i],
            targets[start + i],
        )
}

/// Row `b` of a batch is that of the document that comes `b`-th at step `step`. A batch of
/// one is as long as its document.
pub open spec fn has_row(
    alphabet: Seq<char>,
    docs: Seq<Seq<char>>,
    batch: int,
    t_max: int,
    step: int,
    tokens: Seq<i32>,
    targets: Seq<i32>,
    t_len: int,
    b: int,
) -> bool {
    exists|toks: Seq<usize>|
        is_encoding(alphabet, docs[(step * batch + b) % docs.len() as int], toks)
            && #[trigger] is_batch_row(
            toks,
            alphabet.len() as int,
            t_max,
            tokens,
            targets,
            b * t_len,
            t_len,
        ) && (batch == 1 ==> t_len == clipped(toks, t_max))
}

/// Rows of tokens and of the targets they are to predict, `t_len` positions each. The
/// padding behind short documents has negative targets.
pub struct Batch {
    pub tokens: Vec<i32>,
    pub targets: Vec<i32>,
    pub t_len: usize,
}

impl Batch {
    /// Whether the batch can be run on a vocabulary of `vocab` tokens.
    pub open spec fn fits(&self, vocab: int) -> bool {
        &&& self.tokens@.len() == self.targets@.len()
        &&& forall|r: int|
            0 <= r < self.tokens@.len() ==> 0 <= #[trigger] self.tokens@[r] < vocab
        &&& valid_targets(self.targets@, vocab)
    }

    /// Whether the rows of the batch are those of the documents that come at step `step`.
    pub open spec fn has_rows(
        &self,
        alphabet: Seq<char>,
        docs: Seq<Seq<char>>,
        batch: int,
        t_max: int,
        step: int,
    ) -> bool {
        forall|b: int|
            0 <= b < batch ==> #[trigger] has_row(
                alphabet,
                docs,
                batch,
                t_max,
                step,
                self.tokens@,
                self.targets@,
                self.t_len as int,
                b,
            )
    }

    /// The batch of step `step`: `batch` documents, taken in turn, each with the mark at
    /// both ends and clipped to `t_max` positions. A batch of one is as long as its
    /// document; longer ones are padded.
    pub fn assemble(
        tokenizer: &Tokenizer,
        docs: &Vec<Vec<char>>,
        batch: usize,
        t_max: usize,
        step: usize,
    ) -> (t: Batch)
        requires
            tokenizer.wf(),
            docs@.len() > 0,
            forall|d: int, i: int|
                0 <= d < docs@.len() && 0 <= i < docs@[d]@.len() ==> tokenizer.uchars@.contains(
                    #[trigger] docs@[d]@[i],
                ),
            step * batch + batch <= usize::MAX,
            batch * t_max <= usize::MAX,
        ensures
            t.tokens@.len() == batch * t.t_len,
            t.t_len <= t_max,
            batch != 1 ==> t.t_len == t_max,
            t_max > 0 ==> t.t_len > 0,
            t.fits(tokenizer.uchars@.len() as int + 1),
            forall|b: int|
                0 <= b < batch ==> #[trigger] has_row(
                    tokenizer.uchars@,
                    contents(docs@),
                    batch as int,
                    t_max as int,
                    step as int,
                    t.tokens@,
                    t.targets@,
                    t.t_len as int,
                    b,
                ),
            t.has_rows(
                tokenizer.uchars@,
                contents(docs@),
                batch as int,
                t_max as int,
                step as int,
            ),
    {
        let bos: usize = tokenizer.bos();
        proof {
            crate::text::lemma_alphabet_fits(tokenizer.uchars@);
        }
        let ghost alphabet = tokenizer.uchars@;
        let ghost all = contents(docs@);
        let ghost mut single: Seq<usize> = Seq::empty();
        let t_len: usize = if batch == 1 {
            let doc: &Vec<char> = &docs[step % docs.len()];
            assert forall|i: int| 0 <= i < doc@.len() implies alphabet.contains(
                #[trigger] doc@[i],
            ) by {
                assert(docs@[step as int % docs@.len() as int]@[i] == doc@[i]);
            }
            let toks: Vec<usize> = tokenizer.encode(doc);
            proof {
                single = toks@;
            }
            if toks.len() - 1 < t_max {
                toks.len() - 1
            } else {
                t_max
            }
        } else {
            t_max
        };
        let mut tokens: Vec<i32> = Vec::new();
        let mut targets: Vec<i32> = Vec::new();
        assert(0 * t_len == 0) by (nonlinear_arith);
        for b in 0..batch
            invariant
                docs@.len() > 0,
                all == contents(docs@),
                alphabet == tokenizer.uchars@,
                bos == alphabet.len(),
                bos < 0x7fff_ffff,
                forall|d: int, i: int|
                    0 <= d < docs@.len() && 0 <= i < docs@[d]@.len() ==> alphabet.contains(
                        #[trigger] docs@[d]@[i],
                    ),
                step * batch + batch <= usize::MAX,
                t_len <= t_max,
                tokens@.len() == b * t_len,
                targets@.len() == b * t_len,
                forall|r: int| 0 <= r < tokens@.len() ==> 0 <= #[trigger] tokens@[r] <= bos,
                forall|r: int| 0 <= r < targets@.len() ==> #[trigger] targets@[r] <= bos,
                forall|k: int|
                    0 <= k < b ==> #[trigger] has_row(
                        alphabet,
                        all,
                        batch as int,
                        t_max as int,
                        step as int,
                        tokens@,
                        targets@,
                        t_len as int,
                        k,
                    ),
                ascending(alphabet),
                batch == 1 ==> is_encoding(alphabet, all[step as int % all.len() as int], single)
                    && t_len == clipped(single, t_max as int),
        {
            let doc: &Vec<char> = &docs[(step * batch + b) % docs.len()];
            assert forall|i: int| 0 <= i < doc@.len() implies alphabet.contains(
                #[trigger] doc@[i],
            ) by {
                assert(docs@[(step * batch + b) % docs@.len() as int]@[i] == doc@[i]);
            }
            let toks: Vec<usize> = tokenizer.encode(doc);
            let ghost (old_tokens, old_targets) = (tokens@, targets@);
            push_row(&toks, bos, t_max, t_len, &mut tokens, &mut targets);
            proof {
                assert((b + 1) * t_len == b * t_len + t_len) by (nonlinear_arith);
                assert(is_batch_row(
                    toks@,
                    bos as int,
                    t_max as int,
                    tokens@,
                    targets@,
                    b * t_len,
                    t_len as int,
                ));
                assert forall|k: int| 0 <= k < b + 1 implies #[trigger] has_row(
                    alphabet,
                    all,
                    batch as int,
                    t_max as int,
                    step as int,
                    tokens@,
                    targets@,
                    t_len as int,
                    k,
                ) by {
                    let which = all[(step * batch + k) % all.len() as int];
                    if k < b {
                        assert(has_row(
                            alphabet,
                            all,
                            batch as int,
                            t_max as int,
                            step as int,
                            old_tokens,
                            old_targets,
                            t_len as int,
                            k,
                        ));
                        let ts = choose|ts: Seq<usize>|
                            is_encoding(alphabet, which, ts) && #[trigger] is_batch_row(
                                ts,
                                bos as int,
                                t_max as int,
                                old_tokens,
                                old_targets,
                                k * t_len,
                                t_len as int,
                            ) && (batch == 1 ==> t_len == clipped(ts, t_max as int));
                        assert forall|i: int| 0 <= i < t_len implies is_batch_entry(
                            ts,
                            bos as int,
                            t_max as int,
                            i,
                            #[trigger] tokens@[k * t_len + i],
                            targets@[k * t_len + i],
                        ) by {
                            lemma_pair(k, b as int, i, t_len as int);
                            assert(tokens@[k * t_len + i] == old_tokens[k * t_len + i]);
                            assert(targets@[k * t_len + i] == old_targets[k * t_len + i]);
                        }
                        assert(is_batch_row(
                            ts,
                            bos as int,
                            t_max as int,
                            tokens@,
                            targets@,
                            k * t_len,
                            t_len as int,
                        ));
                    } else {
                        assert(which == doc@);
                        if batch == 1 {
                            assert(step * batch + k == step);
                            law_encoding_is_unique(alphabet, doc@, toks@, single);
                        }
                    }
                }
            }
        }
        Batch { tokens, targets, t_len }
    }
}

/// Appends one row to a batch.
fn push_row(
    toks: &Vec<usize>,
    bos: usize,
    t_max: usize,
    t_len: usize,
    tokens: &mut Vec<i32>,
    targets: &mut Vec<i32>,
)
    requires
        toks@.len() >= 2,
        bos < 0x7fff_ffff,
        forall|i: int| 0 <= i < toks@.len() ==> #[trigger] toks@[i] <= bos,
        t_len <= t_max,
        old(tokens)@.len() == old(targets)@.len(),
        forall|r: int| 0 <= r < old(tokens)@.len() ==> 0 <= #[trigger] old(tokens)@[r] <= bos,
        forall|r: int| 0 <= r < old(targets)@.len() ==> #[trigger] old(targets)@[r] <= bos,
    ensures
        final(tokens)@.len() == old(tokens)@.len() + t_len,
        final(targets)@.len() == old(targets)@.len() + t_len,
        final(tokens)@.take(old(tokens)@.len() as int) == old(tokens)@,
        final(targets)@.take(old(targets)@.len() as int) == old(targets)@,
        is_batch_row(
            toks@,
            bos as int,
            t_max as int,
            final(tokens)@,
            final(targets)@,
            old(tokens)@.len() as int,
            t_len as int,
        ),
        forall|r: int| 0 <= r < final(tokens)@.len() ==> 0 <= #[trigger] final(tokens)@[r] <= bos,
        forall|r: int| 0 <= r < final(targets)@.len() ==> #[trigger] final(targets)@[r] <= bos,
{
    let ghost start = tokens@.len() as int;
    let n: usize = if toks.len() - 1 < t_max {
        toks.len() - 1
    } else {
        t_max
    };
    for i in 0..t_len
        invariant
            toks@.len() >= 2,
            n == clipped(toks@, t_max as int),
            bos < 0x7fff_ffff,
            forall|k: int| 0 <= k < toks@.len() ==> #[trigger] toks@[k] <= bos,
            start == old(tokens)@.len() == old(targets)@.len(),
            tokens@.len() == start + i,
            targets@.len() == start + i,
            tokens@.take(start) == old(tokens)@,
            targets@.take(start) == old(targets)@,
            forall|k: int|
                0 <= k < i ==> is_batch_entry(
                    toks@,
                    bos as int,
                    t_max as int,
                    k,
                    #[trigger] tokens@[start + k],
                    targets@[start + k],
                ),
            forall|r: int| 0 <= r < tokens@.len() ==> 0 <= #[trigger] tokens@[r] <= bos,
            forall|r: int| 0 <= r < targets@.len() ==> #[trigger] targets@[r] <= bos,
    {
        if i < n {
            tokens.push(toks[i] as i32);
            targets.push(toks[i + 1] as i32);
        } else {
            tokens.push(bos as i32);
            targets.push(-1);
        }
        assert(tokens@.take(start) =~= old(tokens)@);
        assert(targets@.take(start) =~= old(targets)@);
    }
}

/// Whether each target is no padding.
pub open spec fn is_mask(targets: Seq<i32>, mask: Seq<bool>) -> bool {
    &&& mask.len() == targets.len()
    &&& forall|r: int| 0 <= r < targets.len() ==> #[trigger] mask[r] == (targets[r] >= 0)
}

/// The targets with padding clamped to token zero, and a mask that tells which ones are
/// no padding.
pub fn masked_targets(targets: &Vec<i32>) -> (pair: (Vec<i32>, Vec<bool>))
    ensures
        pair.0@.len() == targets@.len(),
        forall|r: int|
            0 <= r < targets@.len() ==> #[trigger] pair.0@[r] == if targets@[r] >= 0 {
                targets@[r]
            } else {
                0
            },
        is_mask(targets@, pair.1@),
{
    let mut clamped: Vec<i32> = Vec::new();
    let mut mask: Vec<bool> = Vec::new();
    for r in 0..targets.len()
        invariant
            clamped@.len() == r,
            mask@.len() == r,
            forall|k: int|
                0 <= k < r ==> #[trigger] clamped@[k] == if targets@[k] >= 0 {
                    targets@[k]
                } else {
                    0
                },
            forall|k: int| 0 <= k < r ==> #[trigger] mask@[k] == (targets@[k] >= 0),
    {
        let t: i32 = targets[r];
        mask.push(t >= 0);
        clamped.push(
            if t >= 0 {
                t
            } else {
                0
            },
        );
    }
    (clamped, mask)
}

} // verus!
