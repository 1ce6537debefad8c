//! How launches are spread over the threads of a device.
//!
//! Every number that a launch writes is written by one thread. Matrix products are computed
//! in square tiles, one block of threads per tile; everything else has its threads in a line.
use vstd::prelude::*;

use crate::bank::{fits, Launch, Span};

verus! {

/// The rows and the columns of a tile.
pub const TILE: u32 = 16;

/// The threads that a launch needs.
#[derive(Clone, Copy, PartialEq, Eq, Structural)]
pub enum Threads {
    /// So many threads in a line.
    Line(usize),
    /// One thread per number of a matrix, in tiles.
    Tiles { rows: usize, cols: usize },
    /// None: the launch renames buffers.
    Nothing,
}

/// The rows of a span of whole rows.
pub open spec fn rows_in(z: Span, row_len: usize) -> usize {
    (z.len as nat / row_len as nat) as usize
}

/// The threads of a launch: one per row that is normalized, turned into a softmax or given a
/// loss, one per number that anything else writes.
pub open spec fn threads_of(l: Launch) -> Threads {
    match l {
        Launch::EmbedFwd { x, .. } => Threads::Line(x.len),
        Launch::EmbedBwdWte { dwte, .. } => Threads::Line(dwte.len),
        Launch::EmbedBwdWpe { t_len, c, .. } => Threads::Line((t_len * c) as usize),
        Launch::RmsnormFwd { rinv, .. } => Threads::Line(rinv.len),
        Launch::RmsnormBwd { rinv, .. } => Threads::Line(rinv.len),
        Launch::MatmulNt { y, n, .. } => Threads::Tiles { rows: rows_in(y, n), cols: n },
        Launch::MatmulNn { y, n, .. } => Threads::Tiles { rows: rows_in(y, n), cols: n },
        Launch::MatmulTn { m, n, .. } => Threads::Tiles { rows: m, cols: n },
        Launch::AttnSoftmaxFwd { att, hs, .. } => Threads::Line(rows_in(att, hs.t_len)),
        Launch::AttnSoftmaxBwd { ds, hs, .. } => Threads::Line(rows_in(ds, hs.t_len)),
        Launch::AttnScoresBwdDq { dq, .. } => Threads::Line(dq.len),
        Launch::AttnScoresBwdDk { dk, .. } => Threads::Line(dk.len),
        Launch::AttnMixFwd { y, .. } => Threads::Line(y.len),
        Launch::AttnMixBwdDp { dp, .. } => Threads::Line(dp.len),
        Launch::AttnMixBwdDv { dv, .. } => Threads::Line(dv.len),
        Launch::ReluFwd { y, .. } => Threads::Line(y.len),
        Launch::ReluBwdInplace { d, .. } => Threads::Line(d.len),
        Launch::AddFwd { y, .. } => Threads::Line(y.len),
        Launch::AddInplace { y, .. } => Threads::Line(y.len),
        Launch::CeFwd { losses, .. } => Threads::Line(losses.len),
        Launch::CeBwd { dlogits, .. } => Threads::Line(dlogits.len),
        Launch::Swap { .. } => Threads::Nothing,
    }
}

/// Whether the rows of the launch, where it has any, are not empty, and its numbers can be
/// counted.
pub open spec fn countable(l: Launch) -> bool {
    match l {
        Launch::EmbedFwd { c, .. } => c > 0,
        Launch::EmbedBwdWte { c, .. } => c > 0,
        Launch::EmbedBwdWpe { t_len, c, .. } => t_len * c <= usize::MAX,
        Launch::MatmulNt { n, .. } => n > 0,
        Launch::MatmulNn { n, .. } => n > 0,
        Launch::AttnSoftmaxFwd { hs, .. } => hs.t_len > 0,
        Launch::AttnSoftmaxBwd { hs, .. } => hs.t_len > 0,
        Launch::CeBwd { vocab, .. } => vocab > 0,
        _ => true,
    }
}

/// Launches that fit a bank are countable.
pub proof fn law_fitting_launches_are_countable(
    l: Launch,
    lens: Seq<nat>,
    tokens: Seq<i32>,
    targets: Seq<i32>,
)
    requires
        fits(l, lens, tokens, targets),
    ensures
        countable(l),
{
    reveal(fits);
}

/// The threads of a launch.
pub fn threads(l: &Launch) -> (t: Threads)
    requires
        countable(*l),
    ensures
        t == threads_of(*l),
{
    match *l {
        Launch::EmbedFwd { x, .. } => Threads::Line(x.len),
        Launch::EmbedBwdWte { dwte, .. } => Threads::Line(dwte.len),
        Launch::EmbedBwdWpe { t_len, c, .. } => Threads::Line(t_len * c),
        Launch::RmsnormFwd { rinv, .. } => Threads::Line(rinv.len),
        Launch::RmsnormBwd { rinv, .. } => Threads::Line(rinv.len),
        Launch::MatmulNt { y, n, .. } => Threads::Tiles { rows: y.len / n, cols: n },
        Launch::MatmulNn { y, n, .. } => Threads::Tiles { rows: y.len / n, cols: n },
        Launch::MatmulTn { m, n, .. } => Threads::Tiles { rows: m, cols: n },
        Launch::AttnSoftmaxFwd { att, hs, .. } => Threads::Line(att.len / hs.t_len),
        Launch::AttnSoftmaxBwd { ds, hs, .. } => Threads::Line(ds.len / hs.t_len),
        Launch::AttnScoresBwdDq { dq, .. } => Threads::Line(dq.len),
        Launch::AttnScoresBwdDk { dk, .. } => Threads::Line(dk.len),
        Launch::AttnMixFwd { y, .. } => Threads::Line(y.len),
        Launch::AttnMixBwdDp { dp, .. } => Threads::Line(dp.len),
        Launch::AttnMixBwdDv { dv, .. } => Threads::Line(dv.len),
        Launch::ReluFwd { y, .. } => Threads::Line(y.len),
        Launch::ReluBwdInplace { d, .. } => Threads::Line(d.len),
        Launch::AddFwd { y, .. } => Threads::Line(y.len),
        Launch::AddInplace { y, .. } => Threads::Line(y.len),
        Launch::CeFwd { losses, .. } => Threads::Line(losses.len),
        Launch::CeBwd { dlogits, .. } => Threads::Line(dlogits.len),
        Launch::Swap { .. } => Threads::Nothing,
    }
}

/// The whole numbers that a launch hands to its kernel, behind the buffers: where the
/// embeddings start, sizes and counts, and one or zero for a yes or a no.
pub open spec fn ints_of(l: Launch) -> Seq<usize> {
    match l {
        Launch::EmbedFwd { x, wte, wpe, t_len, c } => seq![
            wte.start,
            wpe.start,
            rows_in(x, c),
            t_len,
            c,
        ],
        Launch::EmbedBwdWte { dwte, dx, c } => seq![
            dwte.start,
            rows_in(dwte, c),
            rows_in(dx, c),
            c,
        ],
        Launch::EmbedBwdWpe { dwpe, rows, t_len, c, .. } => seq![dwpe.start, rows, t_len, c],
        Launch::RmsnormFwd { rinv, c, .. } => seq![rinv.len, c],
        Launch::RmsnormBwd { rinv, c, accum, .. } => seq![rinv.len, c, flag(accum)],
        Launch::MatmulNt { y, n, k, accum, .. } => seq![rows_in(y, n), n, k, flag(accum)],
        Launch::MatmulNn { y, n, k, accum, .. } => seq![rows_in(y, n), n, k, flag(accum)],
        Launch::MatmulTn { m, n, k, .. } => seq![m, n, k],
        Launch::AttnSoftmaxFwd { hs, .. } => seq![hs.b_n, hs.h_n, hs.t_len, hs.d],
        Launch::AttnSoftmaxBwd { hs, .. } => seq![hs.b_n, hs.h_n, hs.t_len],
        Launch::AttnScoresBwdDq { hs, .. } => seq![hs.b_n, hs.h_n, hs.t_len, hs.d],
        Launch::AttnScoresBwdDk { hs, .. } => seq![hs.b_n, hs.h_n, hs.t_len, hs.d],
        Launch::AttnMixFwd { hs, .. } => seq![hs.b_n, hs.h_n, hs.t_len, hs.d],
        Launch::AttnMixBwdDp { hs, .. } => seq![hs.b_n, hs.h_n, hs.t_len, hs.d],
        Launch::AttnMixBwdDv { hs, .. } => seq![hs.b_n, hs.h_n, hs.t_len, hs.d],
        Launch::ReluFwd { y, .. } => seq![y.len],
        Launch::ReluBwdInplace { d, .. } => seq![d.len],
        Launch::AddFwd { y, .. } => seq![y.len],
        Launch::AddInplace { y, .. } => seq![y.len],
        Launch::CeFwd { losses, vocab, .. } => seq![losses.len, vocab],
        Launch::CeBwd { dlogits, vocab, valid, .. } => seq![
            rows_in(dlogits, vocab),
            vocab,
            valid,
        ],
        Launch::Swap { .. } => seq![],
    }
}

/// One for a yes.
pub open spec fn flag(yes: bool) -> usize {
    if yes {
        1
    } else {
        0
    }
}

fn as_flag(yes: bool) -> (n: usize)
    ensures
        n == flag(yes),
{
    if yes {
        1
    } else {
        0
    }
}

/// The whole numbers that a launch hands to its kernel.
pub fn kernel_ints(l: &Launch) -> (ints: Vec<usize>)
    requires
        countable(*l),
    ensures
        ints@ == ints_of(*l),
{
    match *l {
        Launch::EmbedFwd { x, wte, wpe, t_len, c } => vec![
            wte.start,
            wpe.start,
            x.len / c,
            t_len,
            c,
        ],
        Launch::EmbedBwdWte { dwte, dx, c } => vec![dwte.start, dwte.len / c, dx.len / c, c],
        Launch::EmbedBwdWpe { dwpe, rows, t_len, c, .. } => vec![dwpe.start, rows, t_len, c],
        Launch::RmsnormFwd { rinv, c, .. } => vec![rinv.len, c],
        Launch::RmsnormBwd { rinv, c, accum, .. } => vec![rinv.len, c, as_flag(accum)],
        Launch::MatmulNt { y, n, k, accum, .. } => vec![y.len / n, n, k, as_flag(accum)],
        Launch::MatmulNn { y, n, k, accum, .. } => vec![y.len / n, n, k, as_flag(accum)],
        Launch::MatmulTn { m, n, k, .. } => vec![m, n, k],
        Launch::AttnSoftmaxBwd { hs, .. } => vec![hs.b_n, hs.h_n, hs.t_len],
        Launch::AttnSoftmaxFwd { hs, .. }
        | Launch::AttnScoresBwdDq { hs, .. }
        | Launch::AttnScoresBwdDk { hs, .. }
        | Launch::AttnMixFwd { hs, .. }
        | Launch::AttnMixBwdDp { hs, .. }
        | Launch::AttnMixBwdDv { hs, .. } => vec![hs.b_n, hs.h_n, hs.t_len, hs.d],
        Launch::ReluFwd { y, .. } => vec![y.len],
        Launch::ReluBwdInplace { d, .. } => vec![d.len],
        Launch::AddFwd { y, .. } => vec![y.len],
        Launch::AddInplace { y, .. } => vec![y.len],
        Launch::CeFwd { losses, vocab, .. } => vec![losses.len, vocab],
        Launch::CeBwd { dlogits, vocab, valid, .. } => vec![dlogits.len / vocab, vocab, valid],
        Launch::Swap { .. } => Vec::new(),
    }
}

/// A grid of blocks of threads: how many blocks there are along each axis, and how many
/// threads each of them has.
#[derive(Clone, Copy)]
pub struct Grid {
    pub blocks: (u32, u32, u32),
    pub threads: (u32, u32, u32),
    pub shared_bytes: u32,
}

/// `blocks` blocks of `size` threads are just enough for `n` numbers in a line.
pub open spec fn just_covers(blocks: int, size: int, n: int) -> bool {
    if n == 0 {
        blocks == 0
    } else {
        (blocks - 1) * size < n <= blocks * size
    }
}

/// The grid of `cudarc::driver::LaunchConfig::for_num_elems`: `n` threads in a line, in blocks
/// of 1024, the last of which may be larger than needed.
#[verifier::external_body]
fn line_grid(n: u32) -> (grid: Grid)
    ensures
        grid.threads == (1024u32, 1u32, 1u32),
        grid.blocks == (((n + 1023) / 1024) as u32, 1u32, 1u32),
        grid.shared_bytes == 0,
{
    let config = cudarc::driver::LaunchConfig::for_num_elems(n);
    Grid {
        blocks: config.grid_dim,
        threads: config.block_dim,
        shared_bytes: config.shared_mem_bytes,
    }
}

/// How many tiles cover `n` numbers in a line.
fn tiles_for(n: u32) -> (blocks: u32)
    ensures
        just_covers(blocks as int, TILE as int, n as int),
{
    let whole: u32 = n / TILE;
    if n % TILE > 0 {
        whole + 1
    } else {
        whole
    }
}

/// Whether the grid has just enough blocks for the threads `t`.
pub open spec fn is_grid(t: Threads, grid: Grid) -> bool {
    match t {
        Threads::Line(n) => {
            &&& grid.threads == (1024u32, 1u32, 1u32)
            &&& just_covers(grid.blocks.0 as int, 1024, n as int)
            &&& grid.blocks.1 == 1
            &&& grid.blocks.2 == 1
            &&& grid.shared_bytes == 0
        },
        Threads::Tiles { rows, cols } => {
            &&& grid.threads == (TILE, TILE, 1u32)
            &&& just_covers(grid.blocks.0 as int, TILE as int, cols as int)
            &&& just_covers(grid.blocks.1 as int, TILE as int, rows as int)
            &&& grid.blocks.2 == 1
            &&& grid.shared_bytes == 0
        },
        Threads::Nothing => false,
    }
}

/// Whether a device, which counts in 32 bits, can count the threads.
pub open spec fn device_counts(t: Threads) -> bool {
    match t {
        Threads::Line(n) => n <= i32::MAX,
        Threads::Tiles { rows, cols } => rows <= i32::MAX && cols <= i32::MAX,
        Threads::Nothing => true,
    }
}

/// The grid for the threads `t`, where there are any.
pub fn grid_for(t: Threads) -> (grid: Option<Grid>)
    requires
        device_counts(t),
    ensures
        grid is None <==> t == Threads::Nothing,
        grid matches Some(g) ==> is_grid(t, g),
{
    match t {
        Threads::Line(n) => {
            let grid: Grid = line_grid(n as u32);
            Some(grid)
        },
        Threads::Tiles { rows, cols } => Some(
            Grid {
                blocks: (tiles_for(cols as u32), tiles_for(rows as u32), 1),
                threads: (TILE, TILE, 1),
                shared_bytes: 0,
            },
        ),
        Threads::Nothing => None,
    }
}

/// Thread `thread` of block `block`, of `size` threads, has place `at` of a line.
pub open spec fn has_place(block: int, thread: int, size: int, at: int) -> bool {
    0 <= thread < size && at == block * size + thread
}

/// Along each axis of a grid, every number has one thread of one block, and no other.
pub proof fn law_every_number_has_one_thread(blocks: int, size: int, n: int, at: int)
    requires
        size > 0,
        just_covers(blocks, size, n),
        0 <= at < n,
    ensures
        exists|block: int, thread: int|
            0 <= block < blocks && #[trigger] has_place(block, thread, size, at),
        forall|b1: int, t1: int, b2: int, t2: int| #[trigger]
            has_place(b1, t1, size, at) && #[trigger] has_place(b2, t2, size, at) ==> b1 == b2
                && t1 == t2,
{
    let (block, thread) = (at / size, at % size);
    vstd::arithmetic::div_mod::lemma_fundamental_div_mod(at, size);
    vstd::arithmetic::div_mod::lemma_mod_bound(at, size);
    assert(at == block * size + thread && 0 <= block < blocks) by (nonlinear_arith)
        requires
            at == size * block + thread,
            0 <= thread < size,
            0 <= at < blocks * size,
    ;
    assert(has_place(block, thread, size, at));
    assert forall|b1: int, t1: int, b2: int, t2: int| #[trigger]
        has_place(b1, t1, size, at) && #[trigger] has_place(b2, t2, size, at) implies b1 == b2
        && t1 == t2 by {
        vstd::arithmetic::div_mod::lemma_fundamental_div_mod_converse(at, size, b1, t1);
        vstd::arithmetic::div_mod::lemma_fundamental_div_mod_converse(at, size, b2, t2);
    }
}

} // verus!
