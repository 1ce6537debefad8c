//! What a device is told of a launch: the sizes that its kernel is handed multiply to the
//! numbers that it reads and writes, and there is a thread for each of them.
use vstd::arithmetic::div_mod::{lemma_div_multiples_vanish, lemma_fundamental_div_mod};
use vstd::prelude::*;

use crate::attention::Heads;
use crate::bank::{fits, Launch};
use crate::device::{device_counts, grid_for, kernel_ints, threads, Grid, Threads};

verus! {

/// The threads of a line, or of all tiles.
pub open spec fn thread_count(t: Threads) -> int {
    match t {
        Threads::Line(n) => n as int,
        Threads::Tiles { rows, cols } => rows * cols,
        Threads::Nothing => 0,
    }
}

/// The sizes that a kernel of attention is handed first: sequences, heads, positions.
pub open spec fn tells_heads(ints: Seq<usize>, hs: Heads) -> bool {
    &&& ints[0] * ints[2] == hs.positions()
    &&& ints[0] * ints[1] * ints[2] == hs.weight_rows()
}

/// All four sizes of attention: behind them the numbers of a head.
pub open spec fn tells_widths(ints: Seq<usize>, hs: Heads) -> bool {
    &&& ints.len() == 4
    &&& tells_heads(ints, hs)
    &&& ints[1] * ints[3] == hs.width()
}

/// How the threads of a launch and the sizes that its kernel is handed fit the numbers that it
/// reads and writes.
pub open spec fn tells(
    l: Launch,
    t: Threads,
    ints: Seq<usize>,
    tokens: Seq<i32>,
    targets: Seq<i32>,
) -> bool {
    match l {
        Launch::EmbedFwd { x, wte, wpe, t_len, c } => {
            &&& ints.len() == 5
            &&& t == Threads::Line(x.len)
            &&& ints[0] == wte.start && ints[1] == wpe.start
            &&& ints[2] == tokens.len() && ints[2] * ints[4] == x.len
            &&& ints[3] * ints[4] == t_len * c
        },
        Launch::EmbedBwdWte { dwte, dx, c } => {
            &&& ints.len() == 4
            &&& t == Threads::Line(dwte.len)
            &&& ints[0] == dwte.start
            &&& ints[1] * ints[3] == dwte.len
            &&& ints[3] == c && tokens.len() <= ints[2] && ints[2] * ints[3] <= dx.len
        },
        Launch::EmbedBwdWpe { dwpe, dx, rows, t_len, c } => {
            &&& ints.len() == 4
            &&& thread_count(t) == ints[2] * ints[3] <= dwpe.len
            &&& ints[0] == dwpe.start
            &&& ints[1] * ints[3] == rows * c && ints[2] * ints[3] == t_len * c
            &&& ints[3] == c
        },
        Launch::RmsnormFwd { y, rinv, .. } => {
            &&& ints.len() == 2
            &&& t == Threads::Line(rinv.len)
            &&& ints[0] * ints[1] == y.len && ints[0] == rinv.len
        },
        Launch::RmsnormBwd { dx, rinv, accum, .. } => {
            &&& ints.len() == 3
            &&& t == Threads::Line(rinv.len)
            &&& ints[0] * ints[1] == dx.len && ints[0] == rinv.len
            &&& ints[2] == 1 <==> accum
            &&& ints[2] == 0 <==> !accum
        },
        Launch::MatmulNt { y, x, w, n, k, accum } | Launch::MatmulNn { y, x, w, n, k, accum } => {
            &&& ints.len() == 4
            &&& t matches Threads::Tiles { rows, cols } && rows * cols == y.len && cols == n
            &&& ints[0] * ints[1] == y.len && ints[1] * ints[2] == n * k
            &&& ints[0] * ints[2] <= x.len
            &&& ints[1] == n
            &&& ints[3] == 1 <==> accum
            &&& ints[3] == 0 <==> !accum
        },
        Launch::MatmulTn { dw, m, n, k, .. } => {
            &&& ints.len() == 3
            &&& t matches Threads::Tiles { rows, cols } && rows * cols == dw.len && cols == n
            &&& ints[0] * ints[1] == dw.len && ints[1] == n
            &&& ints[2] * ints[0] == k * m && ints[2] * ints[1] == k * n
        },
        Launch::AttnSoftmaxFwd { att, hs, .. } => {
            &&& tells_widths(ints, hs)
            &&& thread_count(t) * ints[2] == att.len
            &&& thread_count(t) == ints[0] * ints[1] * ints[2]
        },
        Launch::AttnSoftmaxBwd { ds, hs, .. } => {
            &&& ints.len() == 3
            &&& tells_heads(ints, hs)
            &&& thread_count(t) * ints[2] == ds.len
            &&& thread_count(t) == ints[0] * ints[1] * ints[2]
        },
        Launch::AttnScoresBwdDq { dq: out, hs, .. }
        | Launch::AttnScoresBwdDk { dk: out, hs, .. }
        | Launch::AttnMixFwd { y: out, hs, .. }
        | Launch::AttnMixBwdDv { dv: out, hs, .. } => {
            &&& tells_widths(ints, hs)
            &&& t == Threads::Line(out.len)
            &&& (ints[0] * ints[2]) * (ints[1] * ints[3]) == out.len
        },
        Launch::AttnMixBwdDp { dp, hs, .. } => {
            &&& tells_widths(ints, hs)
            &&& t == Threads::Line(dp.len)
            &&& (ints[0] * ints[1] * ints[2]) * ints[2] == dp.len
        },
        Launch::ReluFwd { y, .. }
        | Launch::ReluBwdInplace { d: y, .. }
        | Launch::AddFwd { y, .. }
        | Launch::AddInplace { y, .. } => {
            &&& ints =~= seq![y.len]
            &&& t == Threads::Line(y.len)
        },
        Launch::CeFwd { losses, probs, vocab, .. } => {
            &&& ints.len() == 2
            &&& t == Threads::Line(losses.len)
            &&& ints[0] == losses.len && ints[0] * ints[1] == losses.len * vocab <= probs.len
        },
        Launch::CeBwd { dlogits, valid, .. } => {
            &&& ints.len() == 3
            &&& t == Threads::Line(dlogits.len)
            &&& ints[0] == targets.len() && ints[0] * ints[1] == dlogits.len
            &&& ints[2] == valid
        },
        Launch::Swap { .. } => thread_count(t) == 0 && ints.len() == 0,
    }
}

/// Whole rows are as many as fit.
proof fn lemma_rows_in(len: nat, n: nat)
    requires
        n > 0,
        len % n == 0,
    ensures
        (len / n) * n == len,
{
    lemma_fundamental_div_mod(len as int, n as int);
    assert((len / n) * n == n * (len / n)) by (nonlinear_arith);
}

/// Counted rows are as many as were counted.
proof fn lemma_rows_counted(rows: int, n: int)
    requires
        n > 0,
    ensures
        (rows * n) / n == rows,
{
    lemma_div_multiples_vanish(rows, n);
    assert(n * rows == rows * n) by (nonlinear_arith);
}

/// Every kernel is told the sizes of what it reads and writes, and is given a thread for each
/// number that it writes, or for each row where it works on whole rows.
pub proof fn law_kernels_reach_every_number(
    l: Launch,
    lens: Seq<nat>,
    tokens: Seq<i32>,
    targets: Seq<i32>,
    t: Threads,
    ints: Vec<usize>,
)
    requires
        fits(l, lens, tokens, targets),
        call_ensures(threads, (&l,), t),
        call_ensures(kernel_ints, (&l,), ints),
    ensures
        tells(l, t, ints@, tokens, targets),
{
    reveal(fits);
    match l {
        Launch::EmbedFwd { x, c, .. } => {
            lemma_rows_counted(tokens.len() as int, c as int);
        },
        Launch::EmbedBwdWte { dwte, dx, c } => {
            lemma_rows_in(dwte.len as nat, c as nat);
            let (rows, width, n) = (dx.len as nat / c as nat, c as nat, tokens.len());
            lemma_fundamental_div_mod(dx.len as int, c as int);
            assert(rows * width <= dx.len && n <= rows) by (nonlinear_arith)
                requires
                    width > 0,
                    dx.len == width * rows + (dx.len as int) % (width as int),
                    0 <= (dx.len as int) % (width as int) < width,
                    n * width <= dx.len,
            ;
        },
        Launch::MatmulNt { y, n, .. } => {
            lemma_rows_in(y.len as nat, n as nat);
        },
        Launch::MatmulNn { y, n, k, .. } => {
            lemma_rows_in(y.len as nat, n as nat);
        },
        Launch::AttnSoftmaxFwd { hs, .. } => {
            lemma_rows_counted(hs.weight_rows(), hs.t_len as int);
        },
        Launch::AttnSoftmaxBwd { hs, .. } => {
            lemma_rows_counted(hs.weight_rows(), hs.t_len as int);
        },
        Launch::CeBwd { vocab, .. } => {
            lemma_rows_counted(targets.len() as int, vocab as int);
        },
        _ => {},
    }
}

/// Along each axis a grid has as many threads as are wanted, and less than one block more:
/// columns along the first axis, rows along the second.
pub proof fn law_grids_hold_the_threads(t: Threads, grid: Option<Grid>)
    requires
        device_counts(t),
        call_ensures(grid_for, (t,), grid),
    ensures
        grid is None <==> thread_count(t) == 0 && t is Nothing,
        grid matches Some(g) ==> {
            let (along, across) = match t {
                Threads::Tiles { rows, cols } => (cols as int, rows as int),
                _ => (thread_count(t), 1),
            };
            &&& along <= g.blocks.0 * g.threads.0 < along + g.threads.0
            &&& across <= g.blocks.1 * g.threads.1 < across + g.threads.1
            &&& g.blocks.2 * g.threads.2 == 1
            &&& 0 < g.threads.0 * g.threads.1 * g.threads.2 <= 1024
        },
{
    if let Some(g) = grid {
        let (x, y, size) = (g.blocks.0 as int, g.blocks.1 as int, g.threads.0 as int);
        match t {
            Threads::Line(_) => {
                assert(g.threads.0 == 1024 && g.threads.1 == 1 && g.threads.2 == 1);
                assert(x * size == x * 1024 && y * 1 == y);
                assert(g.threads.0 * g.threads.1 * g.threads.2 == 1024);
            },
            Threads::Tiles { .. } => {
                assert(g.threads.0 == 16 && g.threads.1 == 16 && g.threads.2 == 1);
                assert(x * size == x * 16 && y * size == y * 16);
                assert(g.threads.0 * g.threads.1 * g.threads.2 == 256) by (nonlinear_arith)
                    requires
                        g.threads.0 == 16,
                        g.threads.1 == 16,
                        g.threads.2 == 1,
                ;
            },
            Threads::Nothing => {},
        }
    }
}

} // verus!
