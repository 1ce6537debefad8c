//! Token and position embeddings, and their backward passes.
use vstd::prelude::*;

use crate::index::{lemma_row_inside, lemma_whole_rows};
use crate::rows::{all_rows, each_row, RowKernel, RowRunner};
use crate::scalar::{is_running_sum, is_sum, is_zero, lemma_running_sum_step, Scalar};

verus! {

/// Row `r` of the embeddings: that of its token plus that of its position.
pub open spec fn embed_row<S: Scalar>(
    wte: Seq<S>,
    wpe: Seq<S>,
    tokens: Seq<i32>,
    t_len: nat,
    r: int,
    after: Seq<S>,
) -> bool {
    let c = after.len();
    forall|j: int|
        0 <= j < c ==> is_sum(
            wte[tokens[r] * c + j],
            wpe[(r % t_len as int) * c + j],
            #[trigger] after[j],
        )
}

/// `x` holds the embeddings of `tokens`, in documents of `t_len` positions.
pub open spec fn is_embed<S: Scalar>(
    x: Seq<S>,
    wte: Seq<S>,
    wpe: Seq<S>,
    tokens: Seq<i32>,
    t_len: nat,
    c: nat,
) -> bool {
    all_rows(|r: int, a: Seq<S>| embed_row(wte, wpe, tokens, t_len, r, a), c, x)
}

/// The places among the first `n` at which `token` occurs, in order.
pub open spec fn places(tokens: Seq<i32>, token: int, n: nat) -> Seq<int>
    decreases n,
{
    if n == 0 {
        Seq::empty()
    } else {
        let before = places(tokens, token, (n - 1) as nat);
        if tokens[n - 1] == token {
            before.push(n - 1)
        } else {
            before
        }
    }
}

/// Number `j` of the rows `at` of `dx`, as the terms of a sum.
pub open spec fn row_term<S: Scalar>(
    dx: Seq<S>,
    c: int,
    at: Seq<int>,
    j: int,
) -> spec_fn(int, S) -> bool {
    |i: int, t: S| t == dx[at[i] * c + j]
}

/// `after` is `before` plus the sum of number `j` of the rows `at` of `dx`.
pub open spec fn is_gathered<S: Scalar>(
    dx: Seq<S>,
    c: int,
    at: Seq<int>,
    j: int,
    before: S,
    after: S,
) -> bool {
    exists|zero: S, acc: S|
        is_zero(zero) && #[trigger] is_running_sum(zero, row_term(dx, c, at, j), at.len(), acc)
            && is_sum(before, acc, after)
}

/// Row `v` of the gradient of the token embeddings: the rows of `dx` that belong to token
/// `v`, added up.
pub open spec fn embed_bwd_wte_row<S: Scalar>(
    dx: Seq<S>,
    tokens: Seq<i32>,
    v: int,
    before: Seq<S>,
    after: Seq<S>,
) -> bool {
    forall|j: int|
        0 <= j < before.len() ==> is_gathered(
            dx,
            before.len() as int,
            places(tokens, v, tokens.len()),
            j,
            before[j],
            #[trigger] after[j],
        )
}

/// `after` is `before` plus the gradient of the token embeddings.
pub open spec fn is_embed_bwd_wte<S: Scalar>(
    before: Seq<S>,
    after: Seq<S>,
    dx: Seq<S>,
    tokens: Seq<i32>,
    c: nat,
) -> bool {
    each_row(
        |v: int, b: Seq<S>, a: Seq<S>| embed_bwd_wte_row(dx, tokens, v, b, a),
        c,
        before,
        after,
    )
}

/// The rows among the first `n` that belong to position `t`, in order.
pub open spec fn visits(t: int, t_len: int, n: nat) -> Seq<int>
    decreases n,
{
    if n == 0 {
        Seq::empty()
    } else {
        let before = visits(t, t_len, (n - 1) as nat);
        if (n - 1) % t_len == t {
            before.push(n - 1)
        } else {
            before
        }
    }
}

/// `after` is `before` plus the gradient of the position embeddings: for each position the
/// rows of `dx` that belong to it, added up.
pub open spec fn is_embed_bwd_wpe<S: Scalar>(
    before: Seq<S>,
    after: Seq<S>,
    dx: Seq<S>,
    rows: nat,
    t_len: nat,
    c: nat,
) -> bool {
    &&& after.len() == before.len()
    &&& forall|i: int|
        0 <= i < before.len() ==> if i < t_len * c {
            is_gathered(
                dx,
                c as int,
                visits(i / c as int, t_len as int, rows),
                i % c as int,
                before[i],
                #[trigger] after[i],
            )
        } else {
            after[i] == before[i]
        }
}

/// The rows of the embeddings.
pub struct EmbedRows<'a, S> {
    pub wte: &'a [S],
    pub wpe: &'a [S],
    pub tokens: &'a [i32],
    pub t_len: usize,
}

impl<'a, S: Scalar> RowKernel<S> for EmbedRows<'a, S> {
    open spec fn accepts(&self, r: int, row_len: nat) -> bool {
        &&& 0 <= r < self.tokens@.len()
        &&& 0 < self.t_len
        &&& 0 <= self.tokens@[r]
        &&& (self.tokens@[r] + 1) * row_len <= self.wte@.len()
        &&& self.t_len * row_len <= self.wpe@.len()
    }

    open spec fn row(&self, r: int, before: Seq<S>, after: Seq<S>) -> bool {
        embed_row(self.wte@, self.wpe@, self.tokens@, self.t_len as nat, r, after)
    }

    fn apply(&self, r: usize, row: &mut [S]) {
        let c: usize = row.len();
        let wte_len: usize = self.wte.len();
        let wpe_len: usize = self.wpe.len();
        let token: i32 = self.tokens[r];
        let pos: usize = r % self.t_len;
        let tok: usize = token as usize;
        proof {
            lemma_row_inside(token as int, token + 1, c as int);
            lemma_row_inside(pos as int, self.t_len as int, c as int);
        }
        for j in 0..c
            invariant
                c == row@.len(),
                wte_len == self.wte@.len(),
                wpe_len == self.wpe@.len(),
                tok == token,
                0 <= tok * c,
                tok * c + c <= self.wte@.len(),
                0 <= pos * c,
                pos * c + c <= self.wpe@.len(),
                forall|i: int|
                    0 <= i < j ==> is_sum(
                        self.wte@[token * c + i],
                        self.wpe@[pos * c + i],
                        #[trigger] row@[i],
                    ),
        {
            row[j] = self.wte[tok * c + j].add(self.wpe[pos * c + j]);
        }
    }
}

/// The embeddings of `tokens`, in documents of `t_len` positions.
pub fn embed_fwd<S: Scalar, R: RowRunner>(
    runner: &R,
    x: &mut [S],
    wte: &[S],
    wpe: &[S],
    tokens: &[i32],
    t_len: usize,
    c: usize,
)
    requires
        c > 0,
        t_len > 0,
        old(x)@.len() == tokens@.len() * c,
        forall|r: int|
            0 <= r < tokens@.len() ==> 0 <= #[trigger] tokens@[r] && tokens@[r] < wte@.len()
                / c as nat,
        t_len * c <= wpe@.len(),
    ensures
        final(x)@.len() == old(x)@.len(),
        is_embed(final(x)@, wte@, wpe@, tokens@, t_len as nat, c as nat),
{
    let kernel: EmbedRows<S> = EmbedRows { wte, wpe, tokens, t_len };
    proof {
        lemma_whole_rows(tokens@.len() as int, c as int);
        assert forall|r: int| 0 <= r < tokens@.len() implies #[trigger] kernel.accepts(
            r,
            c as nat,
        ) by {
            let token = tokens@[r] as int;
            let whole = wte@.len() as int / c as int;
            lemma_row_inside(token, whole, c as int);
            vstd::arithmetic::div_mod::lemma_fundamental_div_mod(wte@.len() as int, c as int);
            vstd::arithmetic::mul::lemma_mul_is_commutative(whole, c as int);
        }
    }
    runner.run(&kernel, x, c);
}

/// The rows of the gradient of the token embeddings.
pub struct EmbedBwdWte<'a, S> {
    pub dx: &'a [S],
    pub tokens: &'a [i32],
}

impl<'a, S: Scalar> RowKernel<S> for EmbedBwdWte<'a, S> {
    open spec fn accepts(&self, r: int, row_len: nat) -> bool {
        &&& 0 <= r
        &&& self.tokens@.len() * row_len <= self.dx@.len()
        &&& forall|i: int| 0 <= i < self.tokens@.len() ==> 0 <= #[trigger] self.tokens@[i]
    }

    open spec fn row(&self, r: int, before: Seq<S>, after: Seq<S>) -> bool {
        embed_bwd_wte_row(self.dx@, self.tokens@, r, before, after)
    }

    fn apply(&self, v: usize, row: &mut [S]) {
        let c: usize = row.len();
        let ghost before = row@;
        for j in 0..c
            invariant
                c == row@.len() == before.len(),
                self.accepts(v as int, c as nat),
                forall|i: int|
                    0 <= i < j ==> is_gathered(
                        self.dx@,
                        c as int,
                        places(self.tokens@, v as int, self.tokens@.len()),
                        i,
                        before[i],
                        #[trigger] row@[i],
                    ),
                forall|i: int| j <= i < c ==> row@[i] == before[i],
        {
            let (zero, acc): (S, S) = self.gather(v, c, j);
            row[j] = row[j].add(acc);
        }
    }
}

impl<'a, S: Scalar> EmbedBwdWte<'a, S> {
    /// The zero that the sum for number `j` of token `v` starts from, and the sum.
    fn gather(&self, v: usize, c: usize, j: usize) -> (sum: (S, S))
        requires
            self.accepts(v as int, c as nat),
            j < c,
        ensures
            is_zero(sum.0),
            is_running_sum(
                sum.0,
                row_term(
                    self.dx@,
                    c as int,
                    places(self.tokens@, v as int, self.tokens@.len()),
                    j as int,
                ),
                places(self.tokens@, v as int, self.tokens@.len()).len(),
                sum.1,
            ),
    {
        let rows: usize = self.tokens.len();
        let dx_len: usize = self.dx.len();
        let zero: S = S::zero();
        let mut acc: S = zero;
        for r in 0..rows
            invariant
                self.accepts(v as int, c as nat),
                j < c,
                rows == self.tokens@.len(),
                dx_len == self.dx@.len(),
                is_running_sum(
                    zero,
                    row_term(self.dx@, c as int, places(self.tokens@, v as int, r as nat), j as int),
                    places(self.tokens@, v as int, r as nat).len(),
                    acc,
                ),
        {
            let ghost at = places(self.tokens@, v as int, r as nat);
            let ghost at_next = places(self.tokens@, v as int, (r + 1) as nat);
            proof {
                assert(0 <= self.tokens@[r as int]);
                lemma_row_inside(r as int, rows as int, c as int);
            }
            if self.tokens[r] as usize == v {
                let ghost before = acc;
                acc = acc.add(self.dx[r * c + j]);
                proof {
                    assert(at_next == at.push(r as int));
                    lemma_row_term_grows(self.dx@, c as int, at, r as int, j as int, zero, before);
                    lemma_running_sum_step(
                        zero,
                        row_term(self.dx@, c as int, at_next, j as int),
                        at.len(),
                        before,
                        self.dx@[r * c + j],
                        acc,
                    );
                }
            }
        }
        (zero, acc)
    }
}

/// A sum of rows stays what it is when another row is appended to the list.
proof fn lemma_row_term_grows<S: Scalar>(
    dx: Seq<S>,
    c: int,
    at: Seq<int>,
    next: int,
    j: int,
    zero: S,
    r: S,
)
    requires
        is_running_sum(zero, row_term(dx, c, at, j), at.len(), r),
    ensures
        is_running_sum(zero, row_term(dx, c, at.push(next), j), at.len(), r),
{
    crate::scalar::lemma_running_sum_congruent(
        zero,
        row_term(dx, c, at, j),
        row_term(dx, c, at.push(next), j),
        at.len(),
        r,
    );
}

/// Adds to `dwte` the gradient of the token embeddings.
pub fn embed_bwd_wte<S: Scalar, R: RowRunner>(
    runner: &R,
    dwte: &mut [S],
    dx: &[S],
    tokens: &[i32],
    c: usize,
)
    requires
        c > 0,
        old(dwte)@.len() % c as nat == 0,
        tokens@.len() * c <= dx@.len(),
        forall|r: int| 0 <= r < tokens@.len() ==> 0 <= #[trigger] tokens@[r],
    ensures
        is_embed_bwd_wte(old(dwte)@, final(dwte)@, dx@, tokens@, c as nat),
{
    let kernel: EmbedBwdWte<S> = EmbedBwdWte { dx, tokens };
    runner.run(&kernel, dwte, c);
}

/// The sum of number `j` of the rows of `dx` that belong to position `t`, with the zero it
/// starts from.
fn gather_position<S: Scalar>(
    dx: &[S],
    rows: usize,
    t_len: usize,
    c: usize,
    t: usize,
    j: usize,
) -> (sum: (S, S))
    requires
        t < t_len,
        j < c,
        rows * c <= dx@.len(),
    ensures
        is_zero(sum.0),
        is_running_sum(
            sum.0,
            row_term(dx@, c as int, visits(t as int, t_len as int, rows as nat), j as int),
            visits(t as int, t_len as int, rows as nat).len(),
            sum.1,
        ),
{
    let dx_len: usize = dx.len();
    let zero: S = S::zero();
    let mut acc: S = zero;
    for r in 0..rows
        invariant
            t < t_len,
            j < c,
            rows * c <= dx@.len(),
            dx_len == dx@.len(),
            is_running_sum(
                zero,
                row_term(dx@, c as int, visits(t as int, t_len as int, r as nat), j as int),
                visits(t as int, t_len as int, r as nat).len(),
                acc,
            ),
    {
        let ghost at = visits(t as int, t_len as int, r as nat);
        let ghost at_next = visits(t as int, t_len as int, (r + 1) as nat);
        proof {
            lemma_row_inside(r as int, rows as int, c as int);
        }
        if r % t_len == t {
            let ghost before = acc;
            acc = acc.add(dx[r * c + j]);
            proof {
                assert(at_next == at.push(r as int));
                lemma_row_term_grows(dx@, c as int, at, r as int, j as int, zero, before);
                lemma_running_sum_step(
                    zero,
                    row_term(dx@, c as int, at_next, j as int),
                    at.len(),
                    before,
                    dx@[r * c + j],
                    acc,
                );
            }
        }
    }
    (zero, acc)
}

/// Adds to `dwpe` the gradient of the position embeddings.
pub fn embed_bwd_wpe<S: Scalar>(dwpe: &mut [S], dx: &[S], rows: usize, t_len: usize, c: usize)
    requires
        c > 0,
        t_len * c <= old(dwpe)@.len(),
        rows * c <= dx@.len(),
    ensures
        is_embed_bwd_wpe(old(dwpe)@, final(dwpe)@, dx@, rows as nat, t_len as nat, c as nat),
{
    let len: usize = dwpe.len();
    let ghost before = dwpe@;
    for i in 0..t_len * c
        invariant
            c > 0,
            len == dwpe@.len() == before.len(),
            t_len * c <= len,
            rows * c <= dx@.len(),
            forall|k: int|
                0 <= k < i ==> is_gathered(
                    dx@,
                    c as int,
                    visits(k / c as int, t_len as int, rows as nat),
                    k % c as int,
                    before[k],
                    #[trigger] dwpe@[k],
                ),
            forall|k: int| i <= k < len ==> dwpe@[k] == before[k],
    {
        proof {
            crate::index::lemma_unpair(i as int, t_len as int, c as int);
        }
        let (zero, acc): (S, S) = gather_position(dx, rows, t_len, c, i / c, i % c);
        dwpe[i] = dwpe[i].add(acc);
        assert(is_gathered(
            dx@,
            c as int,
            visits(i as int / c as int, t_len as int, rows as nat),
            i as int % c as int,
            before[i as int],
            dwpe@[i as int],
        ));
    }
}

} // verus!
