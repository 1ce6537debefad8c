//! Which documents the batches of training hold: over the steps they come in turn, and a pass
//! through all of them takes every document once.
use vstd::arithmetic::div_mod::{
    lemma_add_mod_noop, lemma_fundamental_div_mod, lemma_mod_bound, lemma_mod_twice,
    lemma_small_mod,
};
use vstd::prelude::*;

use crate::batch::{clipped, has_row, is_batch_entry, is_batch_row, Batch};
use crate::capacity::document_at;
use crate::text::{contents, is_encoding, Tokenizer};

verus! {

/// Whether the row of `t_len` positions that starts at `start` shows the document: the mark and
/// its characters as tokens, and as targets its characters and the mark, as far as they go;
/// behind them the mark, and targets that are padding.
pub open spec fn shows(
    alphabet: Seq<char>,
    doc: Seq<char>,
    tokens: Seq<i32>,
    targets: Seq<i32>,
    start: int,
    t_len: int,
) -> bool {
    forall|i: int|
        0 <= i < t_len ==> shows_at(
            alphabet,
            doc,
            i,
            #[trigger] tokens[start + i] as int,
            targets[start + i] as int,
        )
}

/// [`shows`], at position `i`.
pub open spec fn shows_at(
    alphabet: Seq<char>,
    doc: Seq<char>,
    i: int,
    token: int,
    target: int,
) -> bool {
    &&& 1 <= i <= doc.len() ==> 0 <= token < alphabet.len() && alphabet[token] == doc[i - 1]
    &&& i == 0 || i > doc.len() ==> token == alphabet.len()
    &&& i < doc.len() ==> 0 <= target < alphabet.len() && alphabet[target] == doc[i]
    &&& i == doc.len() ==> target == alphabet.len()
    &&& i > doc.len() ==> target == -1
}

/// Whether the documents can be assembled to batches at step `step`.
pub open spec fn can_assemble(
    tokenizer: Tokenizer,
    docs: Vec<Vec<char>>,
    batch: usize,
    t_max: usize,
    step: usize,
) -> bool {
    &&& tokenizer.wf()
    &&& docs@.len() > 0
    &&& forall|d: int, i: int|
        0 <= d < docs@.len() && 0 <= i < docs@[d]@.len() ==> tokenizer.uchars@.contains(
            #[trigger] docs@[d]@[i],
        )
    &&& step * batch + batch <= usize::MAX
    &&& batch * t_max <= usize::MAX
}

/// `t` is a batch that [`Batch::assemble`] may return.
pub open spec fn assembles(
    tokenizer: Tokenizer,
    docs: Vec<Vec<char>>,
    batch: usize,
    t_max: usize,
    step: usize,
    t: Batch,
) -> bool {
    &&& can_assemble(tokenizer, docs, batch, t_max, step)
    &&& call_ensures(Batch::assemble, (&tokenizer, &docs, batch, t_max, step), t)
}

/// Whether row `b` of the batch shows the document.
pub open spec fn row_shows(tokenizer: Tokenizer, doc: Seq<char>, t: Batch, b: int) -> bool {
    shows(tokenizer.uchars@, doc, t.tokens@, t.targets@, b * t.t_len, t.t_len as int)
}

/// A row of a batch shows its document.
proof fn lemma_row_shows(
    tokenizer: Tokenizer,
    docs: Vec<Vec<char>>,
    batch: usize,
    t_max: usize,
    step: usize,
    t: Batch,
    b: int,
)
    requires
        assembles(tokenizer, docs, batch, t_max, step, t),
        0 <= b < batch,
    ensures
        row_shows(tokenizer, docs@[(step * batch + b) % docs@.len() as int]@, t, b),
{
    let (alphabet, all) = (tokenizer.uchars@, contents(docs@));
    let d = (step * batch + b) % docs@.len() as int;
    lemma_mod_bound(step * batch + b, docs@.len() as int);
    let doc = docs@[d]@;
    assert(all[d] == doc);
    assert(t.has_rows(alphabet, all, batch as int, t_max as int, step as int));
    assert(has_row(
        alphabet,
        all,
        batch as int,
        t_max as int,
        step as int,
        t.tokens@,
        t.targets@,
        t.t_len as int,
        b,
    ));
    let toks = choose|toks: Seq<usize>|
        is_encoding(alphabet, doc, toks) && #[trigger] is_batch_row(
            toks,
            alphabet.len() as int,
            t_max as int,
            t.tokens@,
            t.targets@,
            b * t.t_len,
            t.t_len as int,
        ) && (batch == 1 ==> t.t_len == clipped(toks, t_max as int));
    let start = b * t.t_len;
    assert forall|i: int| 0 <= i < t.t_len implies shows_at(
        alphabet,
        doc,
        i,
        #[trigger] t.tokens@[start + i] as int,
        t.targets@[start + i] as int,
    ) by {
        assert(is_batch_entry(
            toks,
            alphabet.len() as int,
            t_max as int,
            i,
            t.tokens@[start + i],
            t.targets@[start + i],
        ));
        if 1 <= i <= doc.len() {
            assert(toks[i] < alphabet.len() && alphabet[toks[i] as int] == doc[i - 1]);
        }
        if i < doc.len() {
            assert(toks[i + 1] < alphabet.len() && alphabet[toks[i + 1] as int] == doc[i]);
        }
    }
}

/// Over the steps the documents come in turn: the rows of a batch show documents that follow
/// each other, and the first row of the next batch shows the one that follows the last row of
/// this one. The first step starts with the first document, and behind the last document comes
/// the first again.
pub proof fn law_batches_take_documents_in_turn(
    tokenizer: Tokenizer,
    docs: Vec<Vec<char>>,
    batch: usize,
    t_max: usize,
    step: usize,
    next: usize,
    first: Batch,
    second: Batch,
) -> (d: int)
    requires
        next == step + 1,
        assembles(tokenizer, docs, batch, t_max, step, first),
        assembles(tokenizer, docs, batch, t_max, next, second),
    ensures
        0 <= d < docs@.len(),
        step == 0 ==> d == 0,
        forall|b: int|
            0 <= b < batch ==> #[trigger] row_shows(
                tokenizer,
                docs@[(d + b) % docs@.len() as int]@,
                first,
                b,
            ),
        forall|b: int|
            0 <= b < batch ==> #[trigger] row_shows(
                tokenizer,
                docs@[(d + batch + b) % docs@.len() as int]@,
                second,
                b,
            ),
{
    let n = docs@.len() as int;
    let d = (step * batch) % n;
    lemma_mod_bound(step * batch, n);
    if step == 0 {
        assert(0 * batch == 0) by (nonlinear_arith);
        lemma_small_mod(0, n as nat);
    }
    assert forall|b: int| 0 <= b < batch implies #[trigger] row_shows(
        tokenizer,
        docs@[(d + b) % n]@,
        first,
        b,
    ) by {
        lemma_row_shows(tokenizer, docs, batch, t_max, step, first, b);
        lemma_mod_shift(step * batch, b, n);
    }
    assert forall|b: int| 0 <= b < batch implies #[trigger] row_shows(
        tokenizer,
        docs@[(d + batch + b) % n]@,
        second,
        b,
    ) by {
        lemma_row_shows(tokenizer, docs, batch, t_max, next, second, b);
        assert((step + 1) * batch == step * batch + batch) by (nonlinear_arith);
        lemma_mod_shift(step * batch, batch + b, n);
    }
    d
}

/// A remainder can be taken first.
proof fn lemma_mod_shift(a: int, b: int, n: int)
    requires
        n > 0,
    ensures
        (a % n + b) % n == (a + b) % n,
{
    lemma_add_mod_noop(a % n, b, n);
    lemma_mod_twice(a, n);
    lemma_add_mod_noop(a, b, n);
}

/// Before all documents had their turn none comes twice: two rows, of one step or of two, show
/// documents at different places of the list.
pub proof fn law_no_document_comes_twice(
    tokenizer: Tokenizer,
    docs: Vec<Vec<char>>,
    batch: usize,
    t_max: usize,
    s: usize,
    first: Batch,
    a: int,
    t: usize,
    second: Batch,
    b: int,
) -> (r: (int, int))
    requires
        assembles(tokenizer, docs, batch, t_max, s, first),
        assembles(tokenizer, docs, batch, t_max, t, second),
        0 <= a < batch,
        0 <= b < batch,
        s < t || (s == t && a < b),
        (t + 1) * batch <= docs@.len(),
    ensures
        0 <= r.0 < r.1 < docs@.len(),
        row_shows(tokenizer, docs@[r.0]@, first, a),
        row_shows(tokenizer, docs@[r.1]@, second, b),
{
    let n = docs@.len() as int;
    let (d, e) = (s * batch + a, t * batch + b);
    assert(0 <= s * batch && 0 <= t * batch) by (nonlinear_arith);
    assert((t + 1) * batch == t * batch + batch) by (nonlinear_arith);
    if s < t {
        assert(s * batch + batch <= t * batch) by (nonlinear_arith)
            requires
                s + 1 <= t,
        ;
    }
    lemma_small_mod(d as nat, n as nat);
    lemma_small_mod(e as nat, n as nat);
    lemma_row_shows(tokenizer, docs, batch, t_max, s, first, a);
    lemma_row_shows(tokenizer, docs, batch, t_max, t, second, b);
    (d, e)
}

/// A pass takes every document: where the batches go into the documents evenly, document `d` has
/// a row at one of the steps of the pass.
pub proof fn law_a_pass_takes_every_document(
    tokenizer: Tokenizer,
    docs: Vec<Vec<char>>,
    batch: usize,
    t_max: usize,
    steps: nat,
    batches: Seq<Batch>,
    d: int,
) -> (r: (int, int))
    requires
        batches.len() == steps,
        steps * batch == docs@.len(),
        forall|s: int|
            0 <= s < steps ==> assembles(
                tokenizer,
                docs,
                batch,
                t_max,
                s as usize,
                #[trigger] batches[s],
            ),
        steps <= usize::MAX,
        0 <= d < docs@.len(),
    ensures
        0 <= r.0 < steps,
        0 <= r.1 < batch,
        row_shows(tokenizer, docs@[d]@, batches[r.0], r.1),
{
    let n = batch as int;
    assert(batch > 0) by {
        if batch == 0 {
            assert(steps * 0 == 0) by (nonlinear_arith);
        }
    }
    lemma_fundamental_div_mod(d, n);
    lemma_mod_bound(d, n);
    let (s, b) = (d / n, d % n);
    assert(0 <= s < steps) by (nonlinear_arith)
        requires
            d == n * s + b,
            0 <= b < n,
            0 <= d < steps * n,
    ;
    assert(n * s == s * n) by (nonlinear_arith);
    assert(assembles(tokenizer, docs, batch, t_max, s as usize, batches[s]));
    lemma_row_shows(tokenizer, docs, batch, t_max, s as usize, batches[s], b);
    lemma_small_mod(d as nat, docs@.len());
    (s, b)
}

/// A row tells its document, as far as it goes: two documents that the same row shows begin with
/// the same characters, and where one of them ends within the row they are the same.
pub proof fn law_rows_tell_documents(
    tokenizer: Tokenizer,
    doc: Seq<char>,
    other: Seq<char>,
    t: Batch,
    b: int,
)
    requires
        row_shows(tokenizer, doc, t, b),
        row_shows(tokenizer, other, t, b),
    ensures
        forall|i: int|
            0 <= i < doc.len() && i < t.t_len ==> #[trigger] doc[i] == other[i] && i < other.len(),
        doc.len() < t.t_len ==> doc == other,
{
    assert forall|i: int| 0 <= i < doc.len() && i < t.t_len implies #[trigger] doc[i] == other[i]
        && i < other.len() by {
        lemma_same_at(tokenizer, doc, other, t, b, i);
    }
    if doc.len() < t.t_len {
        lemma_same_at(tokenizer, doc, other, t, b, doc.len() as int);
        if other.len() < doc.len() {
            lemma_same_at(tokenizer, doc, other, t, b, other.len() as int);
        }
        assert(doc =~= other);
    }
}

/// [`law_rows_tell_documents`], at one position.
proof fn lemma_same_at(
    tokenizer: Tokenizer,
    doc: Seq<char>,
    other: Seq<char>,
    t: Batch,
    b: int,
    i: int,
)
    requires
        row_shows(tokenizer, doc, t, b),
        row_shows(tokenizer, other, t, b),
        0 <= i < t.t_len,
    ensures
        i < doc.len() <==> i < other.len(),
        i < doc.len() ==> doc[i] == other[i],
{
    let (alphabet, start) = (tokenizer.uchars@, b * t.t_len);
    let (token, target) = (t.tokens@[start + i] as int, t.targets@[start + i] as int);
    assert(shows_at(alphabet, doc, i, token, target));
    assert(shows_at(alphabet, other, i, token, target));
}

/// How long the rows are: as long as the context, but for a batch of one, which is as long as
/// its document with one mark, if that is shorter.
pub proof fn law_rows_are_as_long_as_the_context(
    tokenizer: Tokenizer,
    docs: Vec<Vec<char>>,
    batch: usize,
    t_max: usize,
    step: usize,
    t: Batch,
)
    requires
        assembles(tokenizer, docs, batch, t_max, step, t),
        batch > 0,
    ensures
        t.tokens@.len() == batch * t.t_len,
        t.targets@.len() == batch * t.t_len,
        batch > 1 ==> t.t_len == t_max,
        batch == 1 ==> ({
            let len = docs@[step as int % docs@.len() as int]@.len();
            t.t_len == if len + 1 < t_max {
                len + 1
            } else {
                t_max as nat
            }
        }),
{
    if batch == 1 {
        let (alphabet, all) = (tokenizer.uchars@, contents(docs@));
        assert(step * 1 + 0 == step) by (nonlinear_arith);
        lemma_mod_bound(step as int, docs@.len() as int);
        assert(t.has_rows(alphabet, all, batch as int, t_max as int, step as int));
        assert(has_row(
            alphabet,
            all,
            batch as int,
            t_max as int,
            step as int,
            t.tokens@,
            t.targets@,
            t.t_len as int,
            0,
        ));
    }
}

/// On the tape, too, the documents come in turn: the first step takes the first one, and every
/// step the one behind that of the step before, or the first one behind the last.
pub proof fn law_documents_take_turns(step: usize, next: usize, len: usize, i: usize, j: usize)
    requires
        len > 0,
        next == step + 1,
        call_ensures(document_at, (step, len), i),
        call_ensures(document_at, (next, len), j),
    ensures
        i < len,
        step == 0 ==> i == 0,
        j == if i + 1 == len {
            0
        } else {
            i + 1
        },
{
    let n = len as int;
    lemma_mod_bound(step as int, n);
    lemma_mod_shift(step as int, 1, n);
    lemma_small_mod(0, n as nat);
    if i + 1 == len {
        vstd::arithmetic::div_mod::lemma_mod_self_0(n);
    } else {
        lemma_small_mod((i + 1) as nat, n as nat);
    }
}

} // verus!
