//! Running a computation over the rows of a buffer, as a whole or in chunks.
//!
//! A [`RowKernel`] says how one row of an output buffer is computed. A [`RowRunner`]
//! applies a kernel to every row. Each row is computed by exactly one call of the
//! kernel, so how the rows are divided among workers changes no number.
use vstd::arithmetic::div_mod::lemma_fundamental_div_mod;
use vstd::prelude::*;

use crate::index::{lemma_row_inside, lemma_rows_cover, lemma_whole_rows};
use crate::scalar::Scalar;

verus! {

/// Buffers with fewer numbers than this are not worth dividing among workers.
pub const MIN_SHARED_LEN: usize = 0x8000;

/// Row `r` of a buffer made of rows of `row_len` numbers.
pub open spec fn row_of<S>(x: Seq<S>, row_len: nat, r: int) -> Seq<S> {
    x.subrange(r * row_len, r * row_len + row_len)
}

/// A way to compute the rows of a buffer, one at a time.
pub trait RowKernel<S: Scalar>: Sync {
    /// Whether row `r` can be computed, given rows of `row_len` numbers.
    spec fn accepts(&self, r: int, row_len: nat) -> bool;

    /// Whether `after` is what the kernel may leave in row `r` when it finds `before` there.
    spec fn row(&self, r: int, before: Seq<S>, after: Seq<S>) -> bool;

    /// Computes row `r`.
    fn apply(&self, r: usize, row: &mut [S])
        requires
            self.accepts(r as int, old(row)@.len()),
        ensures
            final(row)@.len() == old(row)@.len(),
            self.row(r as int, old(row)@, final(row)@),
    ;
}

/// Every row of `after` is what `kernel` may leave of the same row of `before`, where the
/// first row counts as row `first`.
pub open spec fn rows_done<S: Scalar, K: RowKernel<S>>(
    kernel: &K,
    first: int,
    row_len: nat,
    before: Seq<S>,
    after: Seq<S>,
) -> bool {
    &&& after.len() == before.len()
    &&& forall|r: int|
        0 <= r < before.len() / row_len ==> kernel.row(
            first + r,
            row_of(before, row_len, r),
            #[trigger] row_of(after, row_len, r),
        )
}

/// Every row of `after` stands in the relation `row` to the same row of `before`.
pub open spec fn each_row<S>(
    row: spec_fn(int, Seq<S>, Seq<S>) -> bool,
    row_len: nat,
    before: Seq<S>,
    after: Seq<S>,
) -> bool {
    &&& after.len() == before.len()
    &&& forall|r: int|
        0 <= r < before.len() / row_len ==> row(
            r,
            row_of(before, row_len, r),
            #[trigger] row_of(after, row_len, r),
        )
}

/// Every row of `x` satisfies `row`.
pub open spec fn all_rows<S>(
    row: spec_fn(int, Seq<S>) -> bool,
    row_len: nat,
    x: Seq<S>,
) -> bool {
    forall|r: int| 0 <= r < x.len() / row_len ==> row(r, #[trigger] row_of(x, row_len, r))
}

/// Something that applies a kernel to all rows of a buffer.
pub trait RowRunner {
    /// Computes every row of `out`.
    fn run<S: Scalar, K: RowKernel<S>>(&self, kernel: &K, out: &mut [S], row_len: usize)
        requires
            row_len > 0,
            old(out)@.len() % row_len as nat == 0,
            forall|r: int|
                0 <= r < old(out)@.len() / row_len as nat ==> #[trigger] kernel.accepts(
                    r,
                    row_len as nat,
                ),
        ensures
            rows_done(kernel, 0, row_len as nat, old(out)@, final(out)@),
    ;
}

/// Computes the rows of `out`, of which the first counts as row `first`.
pub fn run_rows<S: Scalar, K: RowKernel<S>>(
    kernel: &K,
    first: usize,
    out: &mut [S],
    row_len: usize,
)
    requires
        row_len > 0,
        old(out)@.len() % row_len as nat == 0,
        first + old(out)@.len() / row_len as nat <= usize::MAX,
        forall|r: int|
            0 <= r < old(out)@.len() / row_len as nat ==> #[trigger] kernel.accepts(
                first + r,
                row_len as nat,
            ),
    ensures
        rows_done(kernel, first as int, row_len as nat, old(out)@, final(out)@),
{
    let len: usize = out.len();
    let rows: usize = len / row_len;
    let ghost before = out@;
    let ghost c = row_len as nat;
    proof {
        lemma_rows_cover(out@.len() as int, row_len as int);
    }
    for r in 0..rows
        invariant
            row_len > 0,
            c == row_len,
            rows == before.len() / c,
            before.len() == rows * c,
            before.len() == len,
            out@.len() == before.len(),
            first + rows <= usize::MAX,
            forall|i: int|
                0 <= i < rows ==> #[trigger] kernel.accepts(first + i, c),
            forall|i: int|
                0 <= i < r ==> kernel.row(
                    first + i,
                    row_of(before, c, i),
                    #[trigger] row_of(out@, c, i),
                ),
            forall|i: int| r * c <= i < before.len() ==> out@[i] == before[i],
    {
        let ghost current = out@;
        proof {
            lemma_row_inside(r as int, rows as int, c as int);
            assert(kernel.accepts(first + r as int, c));
        }
        let (_, tail) = out.split_at_mut(r * row_len);
        let (row, _) = tail.split_at_mut(row_len);
        assert(row@ =~= row_of(before, c, r as int));
        kernel.apply(first + r, row);
        let ghost filled = row@;
        proof {
            assert(row_of(out@, c, r as int) =~= filled);
            assert forall|i: int| 0 <= i < r + 1 implies kernel.row(
                first + i,
                row_of(before, c, i),
                #[trigger] row_of(out@, c, i),
            ) by {
                if i < r {
                    lemma_row_inside(i, r as int, c as int);
                    assert(row_of(out@, c, i) =~= row_of(current, c, i));
                }
            }
        }
    }
}

/// How many rows each chunk of a buffer of `len` numbers has when it is shared among
/// `workers`; `None` where it stays whole.
pub fn rows_per_chunk(len: usize, rows: usize, workers: usize) -> (per: Option<usize>)
    ensures
        len < MIN_SHARED_LEN || workers < 2 <==> per is None,
        per matches Some(n) ==> n * workers >= rows && (n - 1) * workers < rows,
{
    if len < MIN_SHARED_LEN || workers < 2 {
        return None;
    }
    let whole: usize = rows / workers;
    let rest: usize = rows % workers;
    proof {
        lemma_fundamental_div_mod(rows as int, workers as int);
        assert(rows == whole * workers + rest && 2 * whole <= rows && (whole + 1) * workers
            == whole * workers + workers && (whole - 1) * workers == whole * workers - workers)
            by (nonlinear_arith)
            requires
                rows == workers * whole + rest,
                rest >= 0,
                workers >= 2,
                whole >= 0,
        ;
    }
    if rest == 0 {
        Some(whole)
    } else {
        Some(whole + 1)
    }
}

/// Computes every row of `out` in chunks, one for each of the `workers`.
///
/// No chunk needs another one to be done first.
pub fn par_rows<S: Scalar, K: RowKernel<S>>(
    kernel: &K,
    out: &mut [S],
    row_len: usize,
    workers: usize,
)
    requires
        row_len > 0,
        old(out)@.len() % row_len as nat == 0,
        forall|r: int|
            0 <= r < old(out)@.len() / row_len as nat ==> #[trigger] kernel.accepts(
                r,
                row_len as nat,
            ),
    ensures
        rows_done(kernel, 0, row_len as nat, old(out)@, final(out)@),
{
    let ghost before = out@;
    let ghost c = row_len as nat;
    proof {
        lemma_rows_cover(out@.len() as int, c as int);
    }
    let rows: usize = out.len() / row_len;
    let per: usize = match rows_per_chunk(out.len(), rows, workers) {
        None => {
            run_rows(kernel, 0, out, row_len);
            return ;
        },
        Some(per) => per,
    };
    if rows == 0 {
        return ;
    }
    assert(per > 0) by (nonlinear_arith)
        requires
            per * workers >= rows,
            rows > 0,
    ;
    let mut done: usize = 0;
    while done < rows
        invariant
            row_len > 0,
            c == row_len,
            rows == before.len() / c,
            before.len() == rows * c,
            before.len() <= usize::MAX,
            out@.len() == before.len(),
            0 <= done <= rows,
            per > 0,
            forall|i: int|
                0 <= i < rows ==> #[trigger] kernel.accepts(i, c),
            forall|i: int|
                0 <= i < done ==> kernel.row(
                    i,
                    row_of(before, c, i),
                    #[trigger] row_of(out@, c, i),
                ),
            forall|i: int| done * c <= i < before.len() ==> out@[i] == before[i],
        decreases rows - done,
    {
        let n: usize = if per < rows - done { per } else { rows - done };
        let ghost current = out@;
        proof {
            lemma_row_inside(done as int, rows as int, c as int);
            assert(done * c + n * c == (done + n) * c) by (nonlinear_arith);
            if done + n < rows {
                lemma_row_inside(done + n, rows as int, c as int);
            }
            lemma_whole_rows(n as int, c as int);
            assert(0 <= n * c) by (nonlinear_arith);
            assert forall|i: int| 0 <= i < n implies #[trigger] kernel.accepts(done + i, c) by {
                assert(kernel.accepts(done + i, c));
            }
        }
        let (_, tail) = out.split_at_mut(done * row_len);
        let (chunk, _) = tail.split_at_mut(n * row_len);
        let ghost fresh = chunk@;
        assert(fresh =~= before.subrange(done * c, done * c + n * c));
        run_rows(kernel, done, chunk, row_len);
        let ghost filled = chunk@;
        proof {
            let start = done * c;
            assert(out@.subrange(start, start + n * c) =~= filled);
            assert(rows_done(kernel, done as int, c, fresh, filled));
            assert forall|i: int| 0 <= i < done + n implies kernel.row(
                i,
                row_of(before, c, i),
                #[trigger] row_of(out@, c, i),
            ) by {
                if i < done {
                    lemma_row_inside(i, done as int, c as int);
                    assert(row_of(out@, c, i) =~= row_of(current, c, i));
                } else {
                    let k = i - done;
                    lemma_row_inside(k, n as int, c as int);
                    assert(i * c == start + k * c) by (nonlinear_arith)
                        requires
                            start == done * c,
                            k == i - done,
                    ;
                    assert(row_of(before, c, i) =~= row_of(fresh, c, k));
                    assert(row_of(out@, c, i) =~= row_of(filled, c, k));
                    assert(kernel.row(done + k, row_of(fresh, c, k), row_of(filled, c, k)));
                }
            }
        }
        done = done + n;
    }
}

/// Runs kernels on one worker.
pub struct Serial;

impl RowRunner for Serial {
    fn run<S: Scalar, K: RowKernel<S>>(&self, kernel: &K, out: &mut [S], row_len: usize) {
        let len: usize = out.len();
        proof {
            lemma_rows_cover(len as int, row_len as int);
        }
        run_rows(kernel, 0, out, row_len);
    }
}

/// Runs kernels in as many chunks as there are workers, one after the other.
pub struct Chunked {
    pub workers: usize,
}

impl RowRunner for Chunked {
    fn run<S: Scalar, K: RowKernel<S>>(&self, kernel: &K, out: &mut [S], row_len: usize) {
        par_rows(kernel, out, row_len, self.workers);
    }
}

} // verus!
