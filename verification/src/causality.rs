//! What the forward pass depends on: the tokens of a position and of those before it in its
//! document, and the weights. The same tokens give the same numbers, whatever stands in the
//! padding behind them.
use vstd::prelude::*;

use crate::agree::{
    entry, lemma_add_agrees, lemma_agree_everywhere, lemma_embed_agrees, lemma_linear_agrees,
    lemma_mix_agrees, lemma_norm_agrees, lemma_relu_agrees, lemma_softmax_agrees,
    lemma_total_agrees, lemma_weights_agree, looks_back, nums_agree, rows_agree, seen_weights,
};
use crate::attention::Heads;
use crate::index::{lemma_pair, lemma_row_inside, lemma_unpair};
use crate::loss::{ce_row, is_ce, is_mean_loss, is_surprise};
use crate::matmul::is_linear;
use crate::network::{
    input_of, is_forward, is_layer, is_residual, layer_sized, LayerValues, LayerWeights, Values,
    Weights,
};
use crate::pointwise::is_add;
use crate::reduce::is_total;
use crate::rows::row_of;
use crate::scalar::{deterministic, is_ln, is_neg, is_num, is_quot, is_zero, Scalar};
use crate::shape::Shape;

verus! {

/// Whether two runs of a layer agree in the rows that are `seen`.
#[verifier::opaque]
pub open spec fn layers_agree<S>(
    s: Shape,
    a: LayerValues<S>,
    b: LayerValues<S>,
    seen: spec_fn(int) -> bool,
) -> bool {
    let (m, c, c4) = (s.rows as nat, s.c() as nat, (4 * s.c()) as nat);
    let hs = s.heads_spec();
    &&& rows_agree(a.xin, b.xin, m, c, seen)
    &&& rows_agree(a.xn, b.xn, m, c, seen)
    &&& rows_agree(a.q, b.q, m, c, seen)
    &&& rows_agree(a.k, b.k, m, c, seen)
    &&& rows_agree(a.v, b.v, m, c, seen)
    &&& rows_agree(
        a.att,
        b.att,
        hs.weight_rows() as nat,
        hs.t_len as nat,
        seen_weights(hs, seen),
    )
    &&& rows_agree(a.atty, b.atty, m, c, seen)
    &&& rows_agree(a.x_mid, b.x_mid, m, c, seen)
    &&& rows_agree(a.xn2, b.xn2, m, c, seen)
    &&& rows_agree(a.hpre, b.hpre, m, c4, seen)
    &&& rows_agree(a.h, b.h, m, c4, seen)
    &&& rows_agree(a.x_out, b.x_out, m, c, seen)
    &&& nums_agree(a.r1, b.r1, m, seen)
    &&& nums_agree(a.r2, b.r2, m, seen)
}

/// A residual branch of the same rows.
proof fn lemma_residual_agrees<S: Scalar>(
    y1: Seq<S>,
    y2: Seq<S>,
    x1: Seq<S>,
    x2: Seq<S>,
    a1: Seq<S>,
    a2: Seq<S>,
    w: Seq<S>,
    m: nat,
    n: nat,
    k: nat,
    seen: spec_fn(int) -> bool,
)
    requires
        deterministic::<S>(),
        n > 0,
        y1.len() == m * n,
        y2.len() == m * n,
        is_residual(y1, x1, a1, w, n, k),
        is_residual(y2, x2, a2, w, n, k),
        rows_agree(x1, x2, m, n, seen),
        rows_agree(a1, a2, m, k, seen),
    ensures
        rows_agree(y1, y2, m, n, seen),
{
    let o1 = choose|out: Seq<S>|
        out.len() == y1.len() && #[trigger] is_linear(out, a1, w, n, k) && is_add(y1, x1, out);
    let o2 = choose|out: Seq<S>|
        out.len() == y2.len() && #[trigger] is_linear(out, a2, w, n, k) && is_add(y2, x2, out);
    lemma_linear_agrees(o1, o2, a1, a2, w, m, n, k, seen);
    lemma_add_agrees(y1, y2, x1, x2, o1, o2, m, n, seen);
}

/// A layer on the same rows.
proof fn lemma_layer_agrees<S: Scalar>(
    s: Shape,
    w: LayerWeights<S>,
    a: LayerValues<S>,
    b: LayerValues<S>,
    seen: spec_fn(int) -> bool,
)
    requires
        deterministic::<S>(),
        s.ok(),
        is_layer(s, w, a),
        is_layer(s, w, b),
        looks_back(s.heads_spec(), seen),
        rows_agree(a.xin, b.xin, s.rows as nat, s.c() as nat, seen),
    ensures
        layers_agree(s, a, b, seen),
{
    reveal(layers_agree);
    let (m, c, c4) = (s.rows as nat, s.c() as nat, (4 * s.c()) as nat);
    let hs = s.heads_spec();
    s.lemma_numbers();
    assert(s.rc() == m * c && s.rc4() == m * c4);
    lemma_norm_agrees(a.xn, b.xn, a.r1, b.r1, a.xin, b.xin, m, c, seen);
    lemma_linear_agrees(a.q, b.q, a.xn, b.xn, w.wq, m, c, c, seen);
    lemma_linear_agrees(a.k, b.k, a.xn, b.xn, w.wk, m, c, c, seen);
    lemma_linear_agrees(a.v, b.v, a.xn, b.xn, w.wv, m, c, c, seen);
    lemma_weights_agree(hs, a.att, b.att, a.q, b.q, a.k, b.k, seen);
    lemma_mix_agrees(hs, a.atty, b.atty, a.att, b.att, a.v, b.v, seen);
    lemma_residual_agrees(a.x_mid, b.x_mid, a.xin, b.xin, a.atty, b.atty, w.wo, m, c, c, seen);
    lemma_norm_agrees(a.xn2, b.xn2, a.r2, b.r2, a.x_mid, b.x_mid, m, c, seen);
    lemma_linear_agrees(a.hpre, b.hpre, a.xn2, b.xn2, w.fc1, m, c4, c, seen);
    lemma_relu_agrees(a.h, b.h, a.hpre, b.hpre, m, c4, seen);
    lemma_residual_agrees(a.x_out, b.x_out, a.x_mid, b.x_mid, a.h, b.h, w.fc2, m, c, c4, seen);
}

/// The normalized embeddings of the same rows.
pub proof fn lemma_embeddings_agree<S: Scalar>(
    s: Shape,
    w: Weights<S>,
    tokens: Seq<i32>,
    others: Seq<i32>,
    a: Values<S>,
    b: Values<S>,
    seen: spec_fn(int) -> bool,
)
    requires
        deterministic::<S>(),
        s.ok(),
        is_forward(s, w, tokens, a),
        is_forward(s, w, others, b),
        nums_agree(tokens, others, s.rows as nat, seen),
    ensures
        rows_agree(a.x0, b.x0, s.rows as nat, s.c() as nat, seen),
        rows_agree(a.x1, b.x1, s.rows as nat, s.c() as nat, seen),
        nums_agree(a.r0, b.r0, s.rows as nat, seen),
{
    let (m, c) = (s.rows as nat, s.c() as nat);
    s.lemma_numbers();
    assert(s.rc() == m * c);
    lemma_embed_agrees(
        a.x0,
        b.x0,
        w.wte,
        w.wpe,
        tokens,
        others,
        s.t_len as nat,
        m,
        c,
        seen,
    );
    lemma_norm_agrees(a.x1, b.x1, a.r0, b.r0, a.x0, b.x0, m, c, seen);
}

/// What comes out of a layer.
proof fn lemma_output_agrees<S>(
    s: Shape,
    a: LayerValues<S>,
    b: LayerValues<S>,
    seen: spec_fn(int) -> bool,
)
    requires
        layers_agree(s, a, b, seen),
    ensures
        rows_agree(a.x_out, b.x_out, s.rows as nat, s.c() as nat, seen),
{
    reveal(layers_agree);
}

/// Layer `li` on the same rows.
pub proof fn lemma_layers_agree<S: Scalar>(
    s: Shape,
    w: Weights<S>,
    tokens: Seq<i32>,
    others: Seq<i32>,
    a: Values<S>,
    b: Values<S>,
    seen: spec_fn(int) -> bool,
    li: int,
)
    requires
        deterministic::<S>(),
        s.ok(),
        is_forward(s, w, tokens, a),
        is_forward(s, w, others, b),
        looks_back(s.heads_spec(), seen),
        nums_agree(tokens, others, s.rows as nat, seen),
        0 <= li < s.cfg.n_layer,
    ensures
        layers_agree(s, a.layers[li], b.layers[li], seen),
    decreases li,
{
    assert(is_layer(s, w.layers[li], a.layers[li]) && a.layers[li].xin == input_of(a, li));
    assert(is_layer(s, w.layers[li], b.layers[li]) && b.layers[li].xin == input_of(b, li));
    if li == 0 {
        lemma_embeddings_agree(s, w, tokens, others, a, b, seen);
    } else {
        lemma_layers_agree(s, w, tokens, others, a, b, seen, li - 1);
        lemma_output_agrees(s, a.layers[li - 1], b.layers[li - 1], seen);
    }
    lemma_layer_agrees(s, w.layers[li], a.layers[li], b.layers[li], seen);
}

/// The logits of the same rows.
pub proof fn lemma_logits_agree<S: Scalar>(
    s: Shape,
    w: Weights<S>,
    tokens: Seq<i32>,
    others: Seq<i32>,
    a: Values<S>,
    b: Values<S>,
    seen: spec_fn(int) -> bool,
)
    requires
        deterministic::<S>(),
        s.ok(),
        is_forward(s, w, tokens, a),
        is_forward(s, w, others, b),
        looks_back(s.heads_spec(), seen),
        nums_agree(tokens, others, s.rows as nat, seen),
    ensures
        rows_agree(a.logits, b.logits, s.rows as nat, s.vocab as nat, seen),
{
    let (m, c, v) = (s.rows as nat, s.c() as nat, s.vocab as nat);
    s.lemma_numbers();
    assert(s.rv() == m * v);
    let last = s.cfg.n_layer - 1;
    lemma_layers_agree(s, w, tokens, others, a, b, seen, last);
    lemma_output_agrees(s, a.layers[last], b.layers[last], seen);
    lemma_linear_agrees(
        a.logits,
        b.logits,
        a.layers[last].x_out,
        b.layers[last].x_out,
        w.lm_head,
        m,
        v,
        c,
        seen,
    );
}

/// The rows of document `doc` up to position `t`.
pub open spec fn prefix_rows(hs: Heads, doc: int, t: int) -> spec_fn(int) -> bool {
    |r: int| r / hs.t_len as int == doc && r % hs.t_len as int <= t
}

/// The model looks back, never forward and never into another document: if two batches agree
/// in the tokens of a document up to position `t`, the logits of these positions are the
/// same, bit by bit.
pub proof fn law_positions_see_only_the_past<S: Scalar>(
    s: Shape,
    w: Weights<S>,
    tokens: Seq<i32>,
    others: Seq<i32>,
    a: Values<S>,
    b: Values<S>,
    doc: int,
    t: int,
)
    requires
        deterministic::<S>(),
        s.ok(),
        is_forward(s, w, tokens, a),
        is_forward(s, w, others, b),
        0 <= doc < s.heads_spec().b_n,
        0 <= t < s.t_len,
        forall|u: int|
            0 <= u <= t ==> tokens[#[trigger] s.heads_spec().position(doc, u)]
                == others[s.heads_spec().position(doc, u)],
    ensures
        forall|u: int|
            0 <= u <= t ==> row_of(
                a.logits,
                s.vocab as nat,
                #[trigger] s.heads_spec().position(doc, u),
            ) == row_of(b.logits, s.vocab as nat, s.heads_spec().position(doc, u)),
{
    let hs = s.heads_spec();
    let seen = prefix_rows(hs, doc, t);
    s.lemma_numbers();
    assert forall|d: int, x: int, y: int|
        0 <= d < hs.b_n && 0 <= y <= x < hs.t_len && #[trigger] seen(
            hs.position(d, x),
        ) implies #[trigger] seen(hs.position(d, y)) by {
        lemma_pair(d, hs.b_n as int, x, hs.t_len as int);
        lemma_pair(d, hs.b_n as int, y, hs.t_len as int);
    }
    assert forall|r: int| 0 <= r < s.rows && seen(r) implies #[trigger] tokens[r] == others[r] by {
        lemma_unpair(r, hs.b_n as int, hs.t_len as int);
        let u = r % hs.t_len as int;
        assert(hs.position(doc, u) == r);
    }
    lemma_logits_agree(s, w, tokens, others, a, b, seen);
    let v = s.vocab as nat;
    assert forall|u: int| 0 <= u <= t implies row_of(
        a.logits,
        v,
        #[trigger] hs.position(doc, u),
    ) == row_of(b.logits, v, hs.position(doc, u)) by {
        let r = hs.position(doc, u);
        lemma_pair(doc, hs.b_n as int, u, hs.t_len as int);
        lemma_row_inside(r, s.rows as int, v as int);
        assert(seen(r));
        assert forall|j: int| 0 <= j < v implies row_of(a.logits, v, r)[j] == row_of(
            b.logits,
            v,
            r,
        )[j] by {
            assert(entry(a.logits, v, r, j) == entry(b.logits, v, r, j));
        }
        assert(row_of(a.logits, v, r) =~= row_of(b.logits, v, r));
    }
}

/// Two runs of a layer that agree everywhere are the same.
proof fn lemma_same_layer<S>(
    s: Shape,
    a: LayerValues<S>,
    b: LayerValues<S>,
    seen: spec_fn(int) -> bool,
)
    requires
        s.ok(),
        layer_sized(s, a),
        layer_sized(s, b),
        layers_agree(s, a, b, seen),
        forall|r: int| #[trigger] seen(r),
    ensures
        a == b,
{
    reveal(layers_agree);
    let (m, c, c4) = (s.rows as nat, s.c() as nat, (4 * s.c()) as nat);
    let hs = s.heads_spec();
    s.lemma_numbers();
    assert(s.rc() == m * c && s.rc4() == m * c4);
    let all = seen_weights(hs, seen);
    let n = hs.weight_rows() as nat;
    assert(0 <= hs.weight_rows()) by (nonlinear_arith)
        requires
            hs.weight_rows() == hs.b_n * hs.h_n * hs.t_len,
    ;
    assert forall|i: int| 0 <= i < n implies #[trigger] all(i) by {
        assert(seen(hs.position(hs.doc_of(i), i % hs.t_len as int)));
    }
    lemma_agree_everywhere(a.xin, b.xin, m, c, seen);
    lemma_agree_everywhere(a.xn, b.xn, m, c, seen);
    lemma_agree_everywhere(a.q, b.q, m, c, seen);
    lemma_agree_everywhere(a.k, b.k, m, c, seen);
    lemma_agree_everywhere(a.v, b.v, m, c, seen);
    lemma_agree_everywhere(a.att, b.att, n, hs.t_len as nat, all);
    lemma_agree_everywhere(a.atty, b.atty, m, c, seen);
    lemma_agree_everywhere(a.x_mid, b.x_mid, m, c, seen);
    lemma_agree_everywhere(a.xn2, b.xn2, m, c, seen);
    lemma_agree_everywhere(a.hpre, b.hpre, m, c4, seen);
    lemma_agree_everywhere(a.h, b.h, m, c4, seen);
    lemma_agree_everywhere(a.x_out, b.x_out, m, c, seen);
    assert(a.r1 =~= b.r1) by {
        assert forall|r: int| 0 <= r < m implies a.r1[r] == b.r1[r] by {
            assert(seen(r));
        }
    }
    assert(a.r2 =~= b.r2) by {
        assert forall|r: int| 0 <= r < m implies a.r2[r] == b.r2[r] by {
            assert(seen(r));
        }
    }
}

/// The forward pass has one outcome, where the operations have: the same weights and tokens
/// give the same activations and logits, bit by bit.
pub proof fn law_forward_is_deterministic<S: Scalar>(
    s: Shape,
    w: Weights<S>,
    tokens: Seq<i32>,
    a: Values<S>,
    b: Values<S>,
)
    requires
        deterministic::<S>(),
        s.ok(),
        is_forward(s, w, tokens, a),
        is_forward(s, w, tokens, b),
    ensures
        a == b,
{
    let (m, c, v) = (s.rows as nat, s.c() as nat, s.vocab as nat);
    let seen = |r: int| true;
    let n = s.cfg.n_layer as nat;
    s.lemma_numbers();
    assert(s.rc() == m * c && s.rv() == m * v);
    assert(looks_back(s.heads_spec(), seen));
    lemma_embeddings_agree(s, w, tokens, tokens, a, b, seen);
    lemma_logits_agree(s, w, tokens, tokens, a, b, seen);
    lemma_agree_everywhere(a.x0, b.x0, m, c, seen);
    lemma_agree_everywhere(a.x1, b.x1, m, c, seen);
    lemma_agree_everywhere(a.logits, b.logits, m, v, seen);
    assert(a.r0 =~= b.r0) by {
        assert forall|r: int| 0 <= r < m implies a.r0[r] == b.r0[r] by {
            assert(seen(r));
        }
    }
    assert forall|li: int| 0 <= li < n implies a.layers[li] == b.layers[li] by {
        assert(is_layer(s, w.layers[li], a.layers[li]));
        assert(is_layer(s, w.layers[li], b.layers[li]));
        lemma_layers_agree(s, w, tokens, tokens, a, b, seen, li);
        lemma_same_layer(s, a.layers[li], b.layers[li], seen);
    }
    assert(a.layers =~= b.layers);
}

/// The losses of the same logits, where padding is left out.
pub proof fn lemma_losses_agree<S: Scalar>(
    losses: Seq<S>,
    again: Seq<S>,
    p0: Seq<S>,
    q0: Seq<S>,
    probs: Seq<S>,
    others: Seq<S>,
    logits: Seq<S>,
    same: Seq<S>,
    targets: Seq<i32>,
    m: nat,
    vocab: nat,
)
    requires
        deterministic::<S>(),
        losses.len() == m,
        again.len() == m,
        is_ce(losses, p0, probs, logits, targets, vocab),
        is_ce(again, q0, others, same, targets, vocab),
        forall|r: int|
            0 <= r < m && targets[r] >= 0 ==> #[trigger] row_of(logits, vocab, r) == row_of(
                same,
                vocab,
                r,
            ),
    ensures
        losses == again,
        forall|r: int|
            0 <= r < m && targets[r] >= 0 ==> #[trigger] row_of(probs, vocab, r) == row_of(
                others,
                vocab,
                r,
            ),
{
    assert forall|r: int| 0 <= r < m && targets[r] >= 0 implies #[trigger] row_of(probs, vocab, r)
        == row_of(others, vocab, r) by {
        assert(ce_row(losses[r], row_of(p0, vocab, r), row_of(probs, vocab, r), row_of(
            logits,
            vocab,
            r,
        ), targets[r]));
        assert(ce_row(again[r], row_of(q0, vocab, r), row_of(others, vocab, r), row_of(
            same,
            vocab,
            r,
        ), targets[r]));
        assert(row_of(logits, vocab, r) == row_of(same, vocab, r));
        lemma_softmax_agrees(
            row_of(logits, vocab, r),
            row_of(probs, vocab, r),
            row_of(others, vocab, r),
        );
    }
    assert forall|r: int| 0 <= r < m implies losses[r] == again[r] by {
        assert(ce_row(losses[r], row_of(p0, vocab, r), row_of(probs, vocab, r), row_of(
            logits,
            vocab,
            r,
        ), targets[r]));
        assert(ce_row(again[r], row_of(q0, vocab, r), row_of(others, vocab, r), row_of(
            same,
            vocab,
            r,
        ), targets[r]));
        if targets[r] < 0 {
            assert(is_zero(losses[r]) && is_zero(again[r]));
        } else {
            let p = row_of(probs, vocab, r)[targets[r] as int];
            assert(row_of(probs, vocab, r) == row_of(others, vocab, r));
            assert(is_surprise(p, losses[r]) && is_surprise(p, again[r]));
            let l1 = choose|log: S| #[trigger] is_ln(p, log) && is_neg(log, losses[r]);
            let l2 = choose|log: S| #[trigger] is_ln(p, log) && is_neg(log, again[r]);
            assert(l1 == l2);
            assert(is_neg(l1, losses[r]) && is_neg(l1, again[r]));
        }
    }
    assert(losses =~= again);
}

/// The mean of the same losses.
pub proof fn lemma_mean_agrees<S: Scalar>(losses: Seq<S>, valid: nat, r: S, q: S)
    requires
        deterministic::<S>(),
        is_mean_loss(losses, valid, r),
        is_mean_loss(losses, valid, q),
    ensures
        r == q,
{
    let (s1, c1) = choose|sum: S, count: S|
        is_total(losses, sum) && is_num(valid as u64, count) && #[trigger] is_quot(sum, count, r);
    let (s2, c2) = choose|sum: S, count: S|
        is_total(losses, sum) && is_num(valid as u64, count) && #[trigger] is_quot(sum, count, q);
    lemma_total_agrees(losses, s1, s2);
    assert(c1 == c2);
    assert(is_quot(s1, c1, r) && is_quot(s1, c1, q));
}

/// Padding changes no loss: where it stands behind the valid positions of each document, two
/// batches that agree in the valid positions have the same losses and the same mean, bit by
/// bit, whatever tokens fill the padding.
pub proof fn law_padding_changes_no_loss<S: Scalar>(
    s: Shape,
    w: Weights<S>,
    tokens: Seq<i32>,
    others: Seq<i32>,
    targets: Seq<i32>,
    a: Values<S>,
    b: Values<S>,
    losses: Seq<S>,
    again: Seq<S>,
    p0: Seq<S>,
    q0: Seq<S>,
    probs: Seq<S>,
    other_probs: Seq<S>,
    valid: nat,
    mean: S,
    other_mean: S,
)
    requires
        deterministic::<S>(),
        s.ok(),
        is_forward(s, w, tokens, a),
        is_forward(s, w, others, b),
        looks_back(s.heads_spec(), |r: int| targets[r] >= 0),
        forall|r: int| 0 <= r < s.rows && targets[r] >= 0 ==> #[trigger] tokens[r] == others[r],
        losses.len() == s.rows,
        again.len() == s.rows,
        is_ce(losses, p0, probs, a.logits, targets, s.vocab as nat),
        is_ce(again, q0, other_probs, b.logits, targets, s.vocab as nat),
        is_mean_loss(losses, valid, mean),
        is_mean_loss(again, valid, other_mean),
    ensures
        losses == again,
        mean == other_mean,
{
    let (m, v) = (s.rows as nat, s.vocab as nat);
    let seen = |r: int| targets[r] >= 0;
    s.lemma_numbers();
    assert(s.rv() == m * v);
    lemma_logits_agree(s, w, tokens, others, a, b, seen);
    assert forall|r: int| 0 <= r < m && targets[r] >= 0 implies #[trigger] row_of(a.logits, v, r)
        == row_of(b.logits, v, r) by {
        lemma_row_inside(r, m as int, v as int);
        assert(seen(r));
        assert forall|j: int| 0 <= j < v implies row_of(a.logits, v, r)[j] == row_of(
            b.logits,
            v,
            r,
        )[j] by {
            assert(entry(a.logits, v, r, j) == entry(b.logits, v, r, j));
        }
        assert(row_of(a.logits, v, r) =~= row_of(b.logits, v, r));
    }
    lemma_losses_agree(
        losses,
        again,
        p0,
        q0,
        probs,
        other_probs,
        a.logits,
        b.logits,
        targets,
        m,
        v,
    );
    lemma_mean_agrees(losses, valid, mean, other_mean);
}

} // verus!
