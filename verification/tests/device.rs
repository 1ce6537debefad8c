//! Launches on the threads of a device.
use microgpt::attention::Heads;
use microgpt::bank::{Launch, Span};
use microgpt::device::{grid_for, kernel_ints, threads, Threads, TILE};
use microgpt::layout::{Cfg, Layout};
use microgpt::shape::Shape;

fn span(buf: usize, start: usize, len: usize) -> Span {
    Span { buf, start, len }
}

#[test]
fn a_line_of_threads_comes_in_blocks() {
    let cases: [(usize, u32); 6] =
        [(0, 0), (1, 1), (1023, 1), (1024, 1), (1025, 2), (2_147_483_647, 2_097_152)];
    for (n, blocks) in cases {
        let grid = grid_for(Threads::Line(n)).unwrap();
        assert_eq!(grid.threads, (1024, 1, 1));
        assert_eq!(grid.blocks, (blocks, 1, 1), "{n} threads");
        assert_eq!(grid.shared_bytes, 0);
    }
}

#[test]
fn matrices_come_in_tiles() {
    let cases: [(usize, usize, u32, u32); 4] =
        [(16, 16, 1, 1), (1, 17, 1, 2), (512, 27, 32, 2), (33, 128, 3, 8)];
    for (rows, cols, down, across) in cases {
        let grid = grid_for(Threads::Tiles { rows, cols }).unwrap();
        assert_eq!(grid.threads, (TILE, TILE, 1));
        assert_eq!(grid.blocks, (across, down, 1), "{rows} x {cols}");
    }
}

#[test]
fn every_number_of_a_tiled_matrix_has_one_thread() {
    let (rows, cols) = (37usize, 21usize);
    let grid = grid_for(Threads::Tiles { rows, cols }).unwrap();
    let mut hits = vec![0u32; rows * cols];
    for by in 0..grid.blocks.1 {
        for bx in 0..grid.blocks.0 {
            for ty in 0..grid.threads.1 {
                for tx in 0..grid.threads.0 {
                    let r = (by * TILE + ty) as usize;
                    let c = (bx * TILE + tx) as usize;
                    if r < rows && c < cols {
                        hits[r * cols + c] += 1;
                    }
                }
            }
        }
    }
    assert!(hits.iter().all(|&n| n == 1));
}

#[test]
fn renaming_buffers_needs_no_threads() {
    let l = Launch::Swap { first: 1, second: 2 };
    assert!(threads(&l) == Threads::Nothing);
    assert!(grid_for(threads(&l)).is_none());
    assert!(kernel_ints(&l).is_empty());
}

#[test]
fn launches_hand_over_their_numbers() {
    let embed = Launch::EmbedFwd {
        x: span(2, 0, 80),
        wte: span(0, 0, 432),
        wpe: span(0, 432, 256),
        t_len: 5,
        c: 16,
    };
    assert_eq!(kernel_ints(&embed), vec![0, 432, 5, 5, 16]);
    assert!(threads(&embed) == Threads::Line(80));

    let product = Launch::MatmulNn {
        y: span(3, 0, 80),
        x: span(4, 0, 135),
        w: span(0, 0, 432),
        n: 16,
        k: 27,
        accum: true,
    };
    assert_eq!(kernel_ints(&product), vec![5, 16, 27, 1]);
    assert!(threads(&product) == Threads::Tiles { rows: 5, cols: 16 });

    let hs = Heads { b_n: 2, h_n: 4, t_len: 3, d: 4 };
    let soft = Launch::AttnSoftmaxFwd { att: span(5, 0, 72), q: span(6, 0, 96), keys: span(7, 0, 96), hs };
    assert_eq!(kernel_ints(&soft), vec![2, 4, 3, 4]);
    assert!(threads(&soft) == Threads::Line(24));

    let back = Launch::AttnSoftmaxBwd { ds: span(5, 0, 72), att: span(6, 0, 72), dp: span(7, 0, 72), hs };
    assert_eq!(kernel_ints(&back), vec![2, 4, 3]);
    assert!(threads(&back) == Threads::Line(24));

    let grad = Launch::CeBwd { dlogits: span(8, 0, 135), probs: span(9, 0, 135), vocab: 27, valid: 4 };
    assert_eq!(kernel_ints(&grad), vec![5, 27, 4]);
}

#[test]
fn a_training_step_is_a_fixed_sequence_of_launches() {
    let (cfg, vocab) = (Cfg::parity(), 27);
    let l = Layout::new(&cfg, vocab);
    let s = Shape { cfg, vocab, rows: 5, t_len: 5 };
    let forward = s.forward_launches(&l);
    assert_eq!(forward.len(), 2 + 13 + 1);
    let backward = s.backward_launches(&l, 5);
    assert!(matches!(backward[0], Launch::CeBwd { .. }));
    assert!(matches!(backward[backward.len() - 1], Launch::EmbedBwdWpe { .. }));
    let one = s.loss_launch();
    assert!(threads(&one) == Threads::Line(5));
}
