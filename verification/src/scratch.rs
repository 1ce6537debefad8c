//! What the backward pass leaves in its buffers: the gradients that it went through last.
use vstd::prelude::*;

use crate::bank::{effect, fits, launched, lens_of, read, runs, Launch, Mem};
use crate::gradient::{flow_of, flows_of, layer_flow, lemma_backward_len, Flow};
use crate::network::{lemma_runs_frame, spared, writes_to};
use crate::plan::{
    attention_backward_plan, backward_plan, embed_backward_plan, head_backward_plan,
    law_backward_plan_fits, layer_backward_plan, layers_backward_plan, mlp_backward_plan,
    run_tokens,
};
use crate::scalar::Scalar;
use crate::shape::{
    bank_lens, Shape, D_ATT, D_ATTY, D_H, D_K, D_LOGITS, D_Q, D_SCORES, D_V, D_X, D_X0, D_X2, D_XIN,
    D_XN, D_XN2,
};

verus! {

/// Whether the buffers of the backward pass hold the gradients of `f`: those of the logits and
/// of the embeddings' sum, and those of the first layer, which comes last.
pub open spec fn holds_flow<S>(s: Shape, m: Mem<S>, f: Flow<S>) -> bool {
    let rc = s.rc();
    let l = f.layers[0];
    &&& read(m, s.shared(D_LOGITS as int, s.rv())) == f.d_logits
    &&& read(m, s.shared(D_X0 as int, rc)) == f.d_x0
    &&& read(m, s.shared(D_X as int, rc)) == l.d_in
    &&& read(m, s.shared(D_XIN as int, rc)) == l.d_out
    &&& read(m, s.shared(D_H as int, s.rc4())) == l.d_h
    &&& read(m, s.shared(D_XN2 as int, rc)) == l.d_xn2
    &&& read(m, s.shared(D_X2 as int, rc)) == l.d_mid
    &&& read(m, s.shared(D_ATTY as int, rc)) == l.d_atty
    &&& read(m, s.shared(D_ATT as int, s.att())) == l.d_att
    &&& read(m, s.shared(D_SCORES as int, s.att())) == l.d_scores
    &&& read(m, s.shared(D_Q as int, rc)) == l.d_q
    &&& read(m, s.shared(D_K as int, rc)) == l.d_k
    &&& read(m, s.shared(D_V as int, rc)) == l.d_v
    &&& read(m, s.shared(D_XN as int, rc)) == l.d_xn
}

/// The launches of the first layer and of the embeddings.
spec fn ending(s: Shape) -> Seq<Launch> {
    layer_backward_plan(s, 0) + embed_backward_plan(s)
}

/// After how many of these launches a buffer is not written any more.
spec fn kept_from(b: int) -> int {
    if b == D_H {
        3
    } else if b == D_XN2 {
        5
    } else if b == D_X2 {
        7
    } else if b == D_ATTY {
        9
    } else if b == D_ATT {
        10
    } else if b == D_V {
        11
    } else if b == D_SCORES {
        12
    } else if b == D_Q {
        13
    } else if b == D_K {
        14
    } else if b == D_XN {
        20
    } else {
        23
    }
}

/// They are not written.
proof fn lemma_ending_spares(s: Shape, b: int, i: int)
    requires
        s.ok(),
        D_X <= b <= D_XN,
        kept_from(b) <= i < 26 || (b == D_X && 0 <= i < 22),
    ensures
        !writes_to(ending(s)[i], b),
{
    s.lemma_numbers();
    let (first, second) = (mlp_backward_plan(s, 0), attention_backward_plan(s, 0));
    if i < 7 {
        assert(ending(s)[i] == first[i]);
    } else if i < 23 {
        assert(ending(s)[i] == second[i - 7]);
    } else {
        assert(ending(s)[i] == embed_backward_plan(s)[i - 23]);
    }
}

/// The backward plan ends with them.
proof fn lemma_plan_ends(s: Shape, valid: usize, i: int)
    requires
        s.ok(),
        0 <= i < 26,
    ensures
        backward_plan(s, valid).len() == 6 + 23 * s.cfg.n_layer,
        backward_plan(s, valid)[3 + 23 * (s.cfg.n_layer - 1) + i] == ending(s)[i],
{
    let n = s.cfg.n_layer as nat;
    let (first, middle) = (head_backward_plan(s, valid), layers_backward_plan(s, n));
    let before = layers_backward_plan(s, (n - 1) as nat);
    lemma_backward_len(s, n);
    lemma_backward_len(s, (n - 1) as nat);
    assert(middle == before + layer_backward_plan(s, 0));
    let at = 3 + 23 * (n - 1) + i;
    if i < 23 {
        assert(backward_plan(s, valid)[at] == middle[at - 3]);
        assert(middle[at - 3] == layer_backward_plan(s, 0)[i]);
    } else {
        assert(backward_plan(s, valid)[at] == embed_backward_plan(s)[i - 23]);
    }
}

/// A buffer that is not written from state `i` on, of those of the ending, is the same at its
/// end.
proof fn lemma_kept<S: Scalar>(
    s: Shape,
    valid: usize,
    tokens: Seq<i32>,
    targets: Seq<i32>,
    tr: Seq<Mem<S>>,
    b: int,
    i: int,
    j: int,
)
    requires
        s.ok(),
        run_tokens(s, tokens),
        targets.len() == s.rows,
        lens_of(tr[0]) == bank_lens(s.cfg, s.vocab as int),
        runs(backward_plan(s, valid), tokens, targets, tr),
        D_X <= b <= D_XN,
        kept_from(b) <= i <= j <= 26 || (b == D_X && 0 <= i <= j <= 22),
    ensures
        tr[3 + 23 * (s.cfg.n_layer - 1) + j][b] == tr[3 + 23 * (s.cfg.n_layer - 1) + i][b],
{
    let plan = backward_plan(s, valid);
    let base = 3 + 23 * (s.cfg.n_layer - 1);
    let lens = bank_lens(s.cfg, s.vocab as int);
    law_backward_plan_fits(s, valid, tokens, targets);
    lemma_plan_ends(s, valid, 0);
    assert(spared(plan, base + i, base + j, b)) by {
        assert forall|k: int| base + i <= k < base + j implies !writes_to(
            #[trigger] plan[k],
            b,
        ) by {
            lemma_plan_ends(s, valid, k - base);
            lemma_ending_spares(s, b, k - base);
        }
    }
    lemma_runs_frame(plan, tokens, targets, tr, lens, base + i, base + j);
}

/// The exchange at the end of the first layer.
proof fn lemma_exchanged<S: Scalar>(
    s: Shape,
    valid: usize,
    tokens: Seq<i32>,
    targets: Seq<i32>,
    tr: Seq<Mem<S>>,
)
    requires
        s.ok(),
        run_tokens(s, tokens),
        targets.len() == s.rows,
        lens_of(tr[0]) == bank_lens(s.cfg, s.vocab as int),
        runs(backward_plan(s, valid), tokens, targets, tr),
    ensures
        tr[3 + 23 * s.cfg.n_layer][D_X as int] == tr[2 + 23 * s.cfg.n_layer][D_XIN as int],
        tr[3 + 23 * s.cfg.n_layer][D_XIN as int] == tr[2 + 23 * s.cfg.n_layer][D_X as int],
{
    let plan = backward_plan(s, valid);
    let base = 3 + 23 * (s.cfg.n_layer - 1);
    let lens = bank_lens(s.cfg, s.vocab as int);
    law_backward_plan_fits(s, valid, tokens, targets);
    lemma_plan_ends(s, valid, 22);
    assert(plan[base + 22] == attention_backward_plan(s, 0)[15]);
    lemma_runs_frame(plan, tokens, targets, tr, lens, 0, base + 22);
    assert(effect(plan[base + 22], tokens, targets, tr[base + 22], tr[base + 22 + 1]));
    assert(fits(plan[base + 22], lens, tokens, targets));
    reveal(launched);
}

/// Whoever carries out the backward plan leaves the gradients that it goes through last in
/// the buffers of the backward pass.
pub proof fn law_backward_plan_leaves_the_flow<S: Scalar>(
    s: Shape,
    valid: usize,
    tokens: Seq<i32>,
    targets: Seq<i32>,
    tr: Seq<Mem<S>>,
)
    requires
        s.ok(),
        run_tokens(s, tokens),
        targets.len() == s.rows,
        lens_of(tr[0]) == bank_lens(s.cfg, s.vocab as int),
        runs(backward_plan(s, valid), tokens, targets, tr),
    ensures
        holds_flow(s, tr.last(), flow_of(s, tr)),
{
    let n = s.cfg.n_layer as int;
    let base = 3 + 23 * (n - 1);
    lemma_plan_ends(s, valid, 0);
    let all = tr.subrange(3, tr.len() - 3);
    let own = all.skip(23 * (n - 1));
    let flows = flows_of(s, n as nat, all);
    lemma_flows_len(s, (n - 1) as nat, all.take(23 * (n - 1) + 1));
    assert(flows[n - 1] == layer_flow(s, own.take(8), own.skip(7)));
    assert(flow_of(s, tr).layers[0] == flows[n - 1]);
    assert forall|k: int| 0 <= k < 8 implies own.take(8)[k] == #[trigger] tr[base + k] by {}
    assert forall|k: int| 0 <= k < 17 implies own.skip(7)[k] == #[trigger] tr[base + 7 + k] by {}
    assert(tr.last() == tr[base + 26]);
    lemma_kept(s, valid, tokens, targets, tr, D_H as int, 3, 26);
    lemma_kept(s, valid, tokens, targets, tr, D_XN2 as int, 5, 26);
    lemma_kept(s, valid, tokens, targets, tr, D_X2 as int, 7, 26);
    lemma_kept(s, valid, tokens, targets, tr, D_ATTY as int, 9, 26);
    lemma_kept(s, valid, tokens, targets, tr, D_ATT as int, 10, 26);
    lemma_kept(s, valid, tokens, targets, tr, D_V as int, 11, 26);
    lemma_kept(s, valid, tokens, targets, tr, D_SCORES as int, 12, 26);
    lemma_kept(s, valid, tokens, targets, tr, D_Q as int, 13, 26);
    lemma_kept(s, valid, tokens, targets, tr, D_K as int, 14, 26);
    lemma_kept(s, valid, tokens, targets, tr, D_XN as int, 20, 26);
    lemma_kept(s, valid, tokens, targets, tr, D_X as int, 0, 22);
    lemma_exchanged(s, valid, tokens, targets, tr);
    lemma_kept(s, valid, tokens, targets, tr, D_X as int, 23, 26);
    lemma_kept(s, valid, tokens, targets, tr, D_XIN as int, 23, 26);
}

/// There is one flow for every layer.
proof fn lemma_flows_len<S>(s: Shape, n: nat, tr: Seq<Mem<S>>)
    ensures
        flows_of(s, n, tr).len() == n,
    decreases n,
{
    if n > 0 {
        lemma_flows_len(s, (n - 1) as nat, tr.take(23 * (n - 1) + 1));
    }
}

} // verus!
