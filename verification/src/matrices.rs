//! Where the tensors of the network lie in the flat buffer of its parameters.
use vstd::prelude::*;

use crate::bank::Mem;
use crate::layout::{layer_len, lemma_layers_fit, lemma_sizes, param_count};
use crate::network::{layer_weights, weights_of, LayerWeights};
use crate::shape::Shape;
use crate::tensor_train::{matrices, MatrixAt};

verus! {

/// The part of the buffer `flat` that `at` tells is the matrix `w`, of so many rows and columns.
pub open spec fn is_part<S>(
    flat: Seq<S>,
    at: MatrixAt,
    rows: int,
    cols: int,
    w: Seq<S>,
) -> bool {
    &&& at.rows == rows
    &&& at.cols == cols
    &&& at.start + rows * cols <= flat.len()
    &&& w == flat.subrange(at.start as int, at.start + rows * cols)
}

/// Six tensors are the matrices of a layer of width `c`.
pub open spec fn are_parts<S>(
    flat: Seq<S>,
    six: Seq<MatrixAt>,
    c: int,
    w: LayerWeights<S>,
) -> bool {
    &&& is_part(flat, six[0], c, c, w.wq)
    &&& is_part(flat, six[1], c, c, w.wk)
    &&& is_part(flat, six[2], c, c, w.wv)
    &&& is_part(flat, six[3], c, c, w.wo)
    &&& is_part(flat, six[4], 4 * c, c, w.fc1)
    &&& is_part(flat, six[5], c, 4 * c, w.fc2)
}

/// The tensors of the network are the matrices of the batched model, each with its own rows and
/// columns: the embeddings of tokens and positions, the output head, and six for each layer.
pub proof fn law_tensors_are_the_matrices_of_the_model<S>(
    s: Shape,
    m: Mem<S>,
    buf: usize,
    list: Vec<MatrixAt>,
)
    requires
        param_count(s.cfg, s.vocab as int) <= usize::MAX,
        m[buf as int].len() == param_count(s.cfg, s.vocab as int),
        call_ensures(matrices, (&s.cfg, s.vocab), list),
    ensures
        list@.len() == 3 + 6 * s.cfg.n_layer,
        is_part(
            m[buf as int],
            list@[0],
            s.vocab as int,
            s.cfg.n_embd as int,
            weights_of(s, m, buf as int).wte,
        ),
        is_part(
            m[buf as int],
            list@[1],
            s.cfg.block_size as int,
            s.cfg.n_embd as int,
            weights_of(s, m, buf as int).wpe,
        ),
        is_part(
            m[buf as int],
            list@[2],
            s.vocab as int,
            s.cfg.n_embd as int,
            weights_of(s, m, buf as int).lm_head,
        ),
        forall|li: int|
            0 <= li < s.cfg.n_layer ==> are_parts(
                m[buf as int],
                list@.skip(3 + 6 * li),
                s.cfg.n_embd as int,
                #[trigger] weights_of(s, m, buf as int).layers[li],
            ),
{
    let (cfg, vocab, c) = (s.cfg, s.vocab as int, s.cfg.n_embd as int);
    let flat = m[buf as int];
    let w = weights_of(s, m, buf as int);
    lemma_sizes(cfg, vocab);
    lemma_layers_fit(cfg, vocab, 0);
    assert(0 * layer_len(cfg) == 0);
    assert(list@[0].stands(cfg, vocab, 0));
    assert(list@[1].stands(cfg, vocab, 1));
    assert(list@[2].stands(cfg, vocab, 2));
    assert forall|li: int| 0 <= li < cfg.n_layer implies are_parts(
        flat,
        list@.skip(3 + 6 * li),
        c,
        #[trigger] w.layers[li],
    ) by {
        lemma_layers_fit(cfg, vocab, li);
        lemma_layers_fit(cfg, vocab, li + 1);
        let at = 3 + 6 * li;
        let square = c * c;
        assert((4 * c) * c == 4 * square && c * (4 * c) == 4 * square) by (nonlinear_arith)
            requires
                square == c * c,
        ;
        assert forall|k: int| 0 <= k < 6 implies list@.skip(at)[k] == #[trigger] list@[at + k]
            && list@[at + k].stands(cfg, vocab, at + k) by {}
        assert forall|k: int| 0 <= k < 6 implies (at + k - 3) / 6 == li && (#[trigger] (at + k)
            - 3) % 6 == k by {}
        assert(list@.skip(at)[0] == list@[at + 0]);
        assert(list@.skip(at)[1] == list@[at + 1]);
        assert(list@.skip(at)[2] == list@[at + 2]);
        assert(list@.skip(at)[3] == list@[at + 3]);
        assert(list@.skip(at)[4] == list@[at + 4]);
        assert(list@.skip(at)[5] == list@[at + 5]);
        assert(w.layers[li] == layer_weights(s, m, buf as int, li));
    }
}

} // verus!
