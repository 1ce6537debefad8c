//! What lies behind the run: a pass over fewer rows than the buffers hold leaves the rest of
//! every buffer as it is, or moves it with its buffer.
use vstd::prelude::*;

use crate::bank::{effect, fits, launched, lens_of, plan_fits, read, runs, Launch, Mem, Span};
use crate::gradient::{leaves, lemma_launch_leaves};
use crate::layout::param_count;
use crate::loss::valid_targets;
use crate::network::{lemma_launch_frame, lemma_runs_frame};
use crate::plan::{
    attention_backward_plan, backward_plan, embed_backward_plan, embed_plan, forward_plan,
    head_backward_plan, head_plan, law_backward_plan_fits, law_forward_plan_fits,
    law_loss_plan_fits, layer_backward_plan, layer_forward_plan, layers_backward_plan,
    layers_forward_plan, loss_plan, mlp_backward_plan, run_tokens,
};
use crate::scalar::Scalar;
use crate::shape::{
    bank_lens, buf_count, Shape, ACTS, ATT, D_ATT, D_H, D_LOGITS, D_SCORES, D_X, D_XIN, GRADS, H,
    HPRE, LOGITS, LOSSES, PARAMS, PROBS, R0, R1, R2, SHARED,
};

verus! {

/// How many numbers of buffer `b` a run of shape `s` uses.
pub open spec fn run_len(s: Shape, b: int) -> int {
    if b < SHARED {
        if b == PARAMS || b == GRADS {
            param_count(s.cfg, s.vocab as int)
        } else if b == R0 || b == LOSSES {
            s.rows as int
        } else if b == LOGITS || b == PROBS || b == D_LOGITS {
            s.rv()
        } else if b == D_H {
            s.rc4()
        } else if b == D_ATT || b == D_SCORES {
            s.att()
        } else {
            s.rc()
        }
    } else {
        let k = (b - SHARED) % (ACTS as int);
        if k == ATT {
            s.att()
        } else if k == HPRE || k == H {
            s.rc4()
        } else if k == R1 || k == R2 {
            s.rows as int
        } else {
            s.rc()
        }
    }
}

/// Whether the buffers differ in nothing behind a run of shape `s`.
#[verifier::opaque]
pub open spec fn keeps_tails<S>(s: Shape, before: Mem<S>, after: Mem<S>) -> bool {
    forall|b: int|
        0 <= b < buf_count(s.cfg) ==> (#[trigger] after[b]).skip(run_len(s, b)) == before[b].skip(
            run_len(s, b),
        )
}

/// Where the buffer comes from whose place `b` has after `l`.
pub open spec fn source_of(l: Launch, b: int) -> int {
    match l {
        Launch::Swap { first, second } => if b == second {
            first as int
        } else if b == first {
            second as int
        } else {
            b
        },
        _ => b,
    }
}

/// The same for the first `j` launches of a plan.
spec fn source(plan: Seq<Launch>, b: int, j: int) -> int
    decreases j,
{
    if j <= 0 {
        b
    } else {
        source(plan, source_of(plan[j - 1], b), j - 1)
    }
}

/// Whether a span lies within what a run uses.
spec fn within(s: Shape, z: Span) -> bool {
    z.start + z.len <= run_len(s, z.buf as int)
}

/// Whether a launch writes only what a run uses.
spec fn writes_within(s: Shape, l: Launch) -> bool {
    match l {
        Launch::RmsnormFwd { y, rinv, .. } => within(s, y) && within(s, rinv),
        Launch::CeFwd { losses, probs, .. } => within(s, losses) && within(s, probs),
        Launch::EmbedFwd { x: y, .. }
        | Launch::EmbedBwdWte { dwte: y, .. }
        | Launch::EmbedBwdWpe { dwpe: y, .. }
        | Launch::RmsnormBwd { dx: y, .. }
        | Launch::MatmulNt { y, .. }
        | Launch::MatmulNn { y, .. }
        | Launch::MatmulTn { dw: y, .. }
        | Launch::AttnSoftmaxFwd { att: y, .. }
        | Launch::AttnSoftmaxBwd { ds: y, .. }
        | Launch::AttnScoresBwdDq { dq: y, .. }
        | Launch::AttnScoresBwdDk { dk: y, .. }
        | Launch::AttnMixFwd { y, .. }
        | Launch::AttnMixBwdDp { dp: y, .. }
        | Launch::AttnMixBwdDv { dv: y, .. }
        | Launch::ReluFwd { y, .. }
        | Launch::ReluBwdInplace { d: y, .. }
        | Launch::AddFwd { y, .. }
        | Launch::AddInplace { y, .. }
        | Launch::CeBwd { dlogits: y, .. } => within(s, y),
        Launch::Swap { first, second } => run_len(s, first as int) == run_len(s, second as int),
    }
}

/// What a run leaves of buffer `b`.
spec fn tail(s: Shape, b: int) -> Span {
    let from = run_len(s, b);
    Span {
        buf: b as usize,
        start: from as usize,
        len: (bank_lens(s.cfg, s.vocab as int)[b] - from) as usize,
    }
}

/// A launch that writes only what a run uses leaves the rest of every buffer as it is, or
/// moves it with its buffer.
proof fn lemma_launch_tail<S: Scalar>(
    s: Shape,
    l: Launch,
    tokens: Seq<i32>,
    targets: Seq<i32>,
    before: Mem<S>,
    after: Mem<S>,
    b: int,
)
    requires
        s.ok(),
        lens_of(before) == bank_lens(s.cfg, s.vocab as int),
        fits(l, lens_of(before), tokens, targets),
        effect(l, tokens, targets, before, after),
        writes_within(s, l),
        0 <= b < buf_count(s.cfg),
    ensures
        0 <= source_of(l, b) < buf_count(s.cfg),
        run_len(s, source_of(l, b)) == run_len(s, b),
        after[b].skip(run_len(s, b)) == before[source_of(l, b)].skip(run_len(s, b)),
{
    let lens = bank_lens(s.cfg, s.vocab as int);
    lemma_run_len(s, b);
    lemma_launch_frame(l, tokens, targets, before, after);
    assert(lens.len() == before.len() && lens_of(after).len() == after.len());
    assert(lens_of(after)[b] == after[b].len() && lens_of(before)[b] == before[b].len());
    if l is Swap {
        reveal(launched);
        reveal(fits);
    } else {
        let z = tail(s, b);
        assert(leaves(l, z));
        lemma_launch_leaves(l, tokens, targets, before, after, z);
        assert(read(after, z) =~= after[b].skip(run_len(s, b)));
        assert(read(before, z) =~= before[b].skip(run_len(s, b)));
    }
}

/// So does a plan of such launches.
proof fn lemma_runs_tail<S: Scalar>(
    s: Shape,
    plan: Seq<Launch>,
    tokens: Seq<i32>,
    targets: Seq<i32>,
    tr: Seq<Mem<S>>,
    b: int,
    j: int,
)
    requires
        s.ok(),
        runs(plan, tokens, targets, tr),
        lens_of(tr[0]) == bank_lens(s.cfg, s.vocab as int),
        plan_fits(plan, bank_lens(s.cfg, s.vocab as int), tokens, targets),
        forall|k: int| 0 <= k < plan.len() ==> writes_within(s, #[trigger] plan[k]),
        0 <= b < buf_count(s.cfg),
        0 <= j <= plan.len(),
    ensures
        tr[j][b].skip(run_len(s, b)) == tr[0][source(plan, b, j)].skip(run_len(s, b)),
    decreases j,
{
    if j > 0 {
        let lens = bank_lens(s.cfg, s.vocab as int);
        let l = plan[j - 1];
        lemma_runs_frame(plan, tokens, targets, tr, lens, 0, j - 1);
        assert(fits(l, lens, tokens, targets));
        assert(effect(l, tokens, targets, tr[j - 1], tr[j - 1 + 1]));
        assert(writes_within(s, l));
        lemma_launch_tail(s, l, tokens, targets, tr[j - 1], tr[j], b);
        lemma_runs_tail(s, plan, tokens, targets, tr, source_of(l, b), j - 1);
    }
}

/// Where nothing is exchanged, every buffer keeps its place.
proof fn lemma_source_stays(plan: Seq<Launch>, b: int, j: int)
    requires
        0 <= j <= plan.len(),
        forall|k: int| 0 <= k < j ==> !(#[trigger] plan[k] is Swap),
    ensures
        source(plan, b, j) == b,
    decreases j,
{
    if j > 0 {
        assert(!(plan[j - 1] is Swap));
        lemma_source_stays(plan, b, j - 1);
    }
}

/// The source in a plan that goes on.
proof fn lemma_source_prefix(p: Seq<Launch>, q: Seq<Launch>, b: int, j: int)
    requires
        0 <= j <= p.len(),
    ensures
        source(p + q, b, j) == source(p, b, j),
    decreases j,
{
    if j > 0 {
        assert((p + q)[j - 1] == p[j - 1]);
        lemma_source_prefix(p, q, source_of(p[j - 1], b), j - 1);
    }
}

/// The source in two plans, one behind the other.
proof fn lemma_source_append(p: Seq<Launch>, q: Seq<Launch>, b: int, j: int)
    requires
        0 <= j <= q.len(),
    ensures
        source(p + q, b, p.len() + j) == source(p, source(q, b, j), p.len() as int),
    decreases j,
{
    if j > 0 {
        assert((p + q)[p.len() + j - 1] == q[j - 1]);
        lemma_source_append(p, q, source_of(q[j - 1], b), j - 1);
    } else {
        lemma_source_prefix(p, q, b, p.len() as int);
    }
}

/// The activation of a layer that a buffer holds.
proof fn lemma_act_of(li: int, k: int)
    requires
        0 <= li,
        0 <= k < ACTS,
    ensures
        (li * ACTS + k) % (ACTS as int) == k,
{
    assert((li * 13 + k) % 13 == k);
}

/// The launches of a layer write what the run uses.
proof fn lemma_layer_within(s: Shape, li: int, j: int)
    requires
        s.ok(),
        0 <= li < s.cfg.n_layer,
        0 <= j < layer_forward_plan(s, li).len(),
    ensures
        writes_within(s, layer_forward_plan(s, li)[j]),
        !(layer_forward_plan(s, li)[j] is Swap),
{
    s.lemma_numbers();
    assert forall|k: int| 0 <= k < ACTS implies #[trigger] ((li * ACTS + k) % (ACTS as int)) == k by {
        lemma_act_of(li, k);
    }
    assert(SHARED + li * ACTS + ACTS <= buf_count(s.cfg)) by (nonlinear_arith)
        requires
            li + 1 <= s.cfg.n_layer,
            buf_count(s.cfg) == SHARED + s.cfg.n_layer * ACTS,
    ;
    assert(0 <= li * ACTS) by (nonlinear_arith)
        requires
            0 <= li,
    ;
}

/// So do those of all layers.
proof fn lemma_layers_within(s: Shape, n: nat, j: int)
    requires
        s.ok(),
        n <= s.cfg.n_layer,
        0 <= j < layers_forward_plan(s, n).len(),
    ensures
        writes_within(s, layers_forward_plan(s, n)[j]),
        !(layers_forward_plan(s, n)[j] is Swap),
    decreases n,
{
    if n > 0 {
        let before = layers_forward_plan(s, (n - 1) as nat);
        if j < before.len() {
            lemma_layers_within(s, (n - 1) as nat, j);
        } else {
            lemma_layer_within(s, n - 1, j - before.len());
        }
    }
}

/// A forward pass over fewer rows than the buffers hold leaves the rest of every buffer as it
/// is.
pub proof fn law_forward_plan_keeps_the_rest<S: Scalar>(
    s: Shape,
    tokens: Seq<i32>,
    targets: Seq<i32>,
    tr: Seq<Mem<S>>,
)
    requires
        s.ok(),
        run_tokens(s, tokens),
        lens_of(tr[0]) == bank_lens(s.cfg, s.vocab as int),
        runs(forward_plan(s), tokens, targets, tr),
    ensures
        keeps_tails(s, tr[0], tr.last()),
{
    let plan = forward_plan(s);
    let lens = bank_lens(s.cfg, s.vocab as int);
    let n = s.cfg.n_layer as nat;
    law_forward_plan_fits(s, tokens, targets);
    s.lemma_numbers();
    assert forall|k: int| 0 <= k < plan.len() implies writes_within(s, #[trigger] plan[k]) && !(
    plan[k] is Swap) by {
        let (first, middle) = (embed_plan(s), layers_forward_plan(s, n));
        if k < first.len() {
            assert(plan[k] == first[k]);
        } else if k < first.len() + middle.len() {
            assert(plan[k] == middle[k - first.len()]);
            lemma_layers_within(s, n, k - first.len());
        } else {
            assert(plan[k] == head_plan(s)[0]);
        }
    }
    lemma_tails(s, plan, tokens, targets, tr);
}

/// The loss over fewer rows than the buffers hold leaves the rest of every buffer as it is.
pub proof fn law_loss_plan_keeps_the_rest<S: Scalar>(
    s: Shape,
    tokens: Seq<i32>,
    targets: Seq<i32>,
    tr: Seq<Mem<S>>,
)
    requires
        s.ok(),
        targets.len() == s.rows,
        valid_targets(targets, s.vocab as int),
        lens_of(tr[0]) == bank_lens(s.cfg, s.vocab as int),
        runs(loss_plan(s), tokens, targets, tr),
    ensures
        keeps_tails(s, tr[0], tr.last()),
{
    let plan = loss_plan(s);
    law_loss_plan_fits(s, tokens, targets);
    s.lemma_numbers();
    lemma_tails(s, plan, tokens, targets, tr);
}

/// Where buffer `b` stood before the backward pass: every layer exchanges two buffers.
pub open spec fn came_from(s: Shape, b: int) -> int {
    turned(b, s.cfg.n_layer as int)
}

/// Where buffer `b` stood `n` exchanges earlier.
pub open spec fn turned(b: int, n: int) -> int {
    if n % 2 == 1 && b == D_X {
        D_XIN as int
    } else if n % 2 == 1 && b == D_XIN {
        D_X as int
    } else {
        b
    }
}

/// Whether the buffers differ in nothing behind a run of shape `s`, once those are put back
/// that the backward pass exchanges.
#[verifier::opaque]
pub open spec fn moves_tails<S>(s: Shape, before: Mem<S>, after: Mem<S>) -> bool {
    forall|b: int|
        0 <= b < buf_count(s.cfg) ==> (#[trigger] after[b]).skip(run_len(s, b))
            == before[came_from(s, b)].skip(run_len(s, b))
}

/// The launches of the backward pass of a layer write what the run uses.
#[verifier::spinoff_prover]
proof fn lemma_layer_backward_within(s: Shape, li: int, j: int)
    requires
        s.ok(),
        0 <= li < s.cfg.n_layer,
        0 <= j < layer_backward_plan(s, li).len(),
    ensures
        writes_within(s, layer_backward_plan(s, li)[j]),
        j < layer_backward_plan(s, li).len() - 1 ==> !(layer_backward_plan(s, li)[j] is Swap),
{
    s.lemma_numbers();
    s.lemma_weights(li);
    let (first, second) = (mlp_backward_plan(s, li), attention_backward_plan(s, li));
    if j < first.len() {
        assert(layer_backward_plan(s, li)[j] == first[j]);
    } else {
        assert(layer_backward_plan(s, li)[j] == second[j - first.len()]);
    }
}

/// A layer exchanges two buffers.
proof fn lemma_layer_source(s: Shape, li: int, b: int)
    requires
        s.ok(),
        0 <= li < s.cfg.n_layer,
    ensures
        source(layer_backward_plan(s, li), b, layer_backward_plan(s, li).len() as int) == turned(
            b,
            1,
        ),
{
    let plan = layer_backward_plan(s, li);
    let n = plan.len() as int;
    assert(plan[n - 1] == attention_backward_plan(s, li)[15]);
    assert forall|k: int| 0 <= k < n - 1 implies !(#[trigger] plan[k] is Swap) by {
        lemma_layer_backward_within(s, li, k);
    }
    lemma_source_stays(plan, source_of(plan[n - 1], b), n - 1);
}

/// The launches of the backward pass of the last `n` layers.
proof fn lemma_layers_backward_within(s: Shape, n: nat, j: int)
    requires
        s.ok(),
        n <= s.cfg.n_layer,
        0 <= j < layers_backward_plan(s, n).len(),
    ensures
        writes_within(s, layers_backward_plan(s, n)[j]),
    decreases n,
{
    if n > 0 {
        let before = layers_backward_plan(s, (n - 1) as nat);
        if j < before.len() {
            lemma_layers_backward_within(s, (n - 1) as nat, j);
        } else {
            lemma_layer_backward_within(s, s.cfg.n_layer - n, j - before.len());
        }
    }
}

/// What they exchange.
proof fn lemma_layers_source(s: Shape, n: nat, b: int)
    requires
        s.ok(),
        n <= s.cfg.n_layer,
    ensures
        source(layers_backward_plan(s, n), b, layers_backward_plan(s, n).len() as int) == turned(
            b,
            n as int,
        ),
    decreases n,
{
    if n > 0 {
        let before = layers_backward_plan(s, (n - 1) as nat);
        let layer = layer_backward_plan(s, s.cfg.n_layer - n);
        lemma_source_append(before, layer, b, layer.len() as int);
        lemma_layer_source(s, s.cfg.n_layer - n, b);
        lemma_layers_source(s, (n - 1) as nat, turned(b, 1));
    }
}

/// A backward pass over fewer rows than the buffers hold leaves the rest of every buffer as
/// it is, but for the two buffers that every layer exchanges: theirs goes with them.
pub proof fn law_backward_plan_keeps_the_rest<S: Scalar>(
    s: Shape,
    valid: usize,
    tokens: Seq<i32>,
    targets: Seq<i32>,
    tr: Seq<Mem<S>>,
)
    requires
        s.ok(),
        run_tokens(s, tokens),
        targets.len() == s.rows,
        lens_of(tr[0]) == bank_lens(s.cfg, s.vocab as int),
        runs(backward_plan(s, valid), tokens, targets, tr),
    ensures
        moves_tails(s, tr[0], tr.last()),
{
    let plan = backward_plan(s, valid);
    let n = s.cfg.n_layer as nat;
    let (first, middle) = (head_backward_plan(s, valid), layers_backward_plan(s, n));
    let last = embed_backward_plan(s);
    law_backward_plan_fits(s, valid, tokens, targets);
    s.lemma_numbers();
    s.lemma_weights(0);
    assert forall|k: int| 0 <= k < plan.len() implies writes_within(s, #[trigger] plan[k]) by {
        if k < first.len() {
            assert(plan[k] == first[k]);
        } else if k < first.len() + middle.len() {
            assert(plan[k] == middle[k - first.len()]);
            lemma_layers_backward_within(s, n, k - first.len());
        } else {
            assert(plan[k] == last[k - first.len() - middle.len()]);
        }
    }
    reveal(moves_tails);
    assert forall|b: int| 0 <= b < buf_count(s.cfg) implies (#[trigger] tr.last()[b]).skip(
        run_len(s, b),
    ) == tr[0][came_from(s, b)].skip(run_len(s, b)) by {
        lemma_source_stays(last, b, last.len() as int);
        lemma_source_append(first + middle, last, b, last.len() as int);
        lemma_layers_source(s, n, b);
        lemma_source_append(first, middle, b, middle.len() as int);
        lemma_source_stays(first, came_from(s, b), first.len() as int);
        lemma_runs_tail(s, plan, tokens, targets, tr, b, plan.len() as int);
    }
}

/// [`lemma_runs_tail`] for all buffers, where nothing is exchanged.
proof fn lemma_tails<S: Scalar>(
    s: Shape,
    plan: Seq<Launch>,
    tokens: Seq<i32>,
    targets: Seq<i32>,
    tr: Seq<Mem<S>>,
)
    requires
        s.ok(),
        lens_of(tr[0]) == bank_lens(s.cfg, s.vocab as int),
        runs(plan, tokens, targets, tr),
        plan_fits(plan, bank_lens(s.cfg, s.vocab as int), tokens, targets),
        forall|k: int|
            0 <= k < plan.len() ==> writes_within(s, #[trigger] plan[k]) && !(plan[k] is Swap),
    ensures
        keeps_tails(s, tr[0], tr.last()),
{
    let n = plan.len() as int;
    reveal(keeps_tails);
    assert forall|b: int| 0 <= b < buf_count(s.cfg) implies (#[trigger] tr.last()[b]).skip(
        run_len(s, b),
    ) == tr[0][b].skip(run_len(s, b)) by {
        lemma_source_stays(plan, b, n);
        lemma_runs_tail(s, plan, tokens, targets, tr, b, n);
    }
}

/// A run uses no more than there is.
proof fn lemma_run_len(s: Shape, b: int)
    requires
        s.ok(),
        0 <= b < buf_count(s.cfg),
    ensures
        0 <= run_len(s, b) <= bank_lens(s.cfg, s.vocab as int)[b] <= usize::MAX,
        b <= usize::MAX,
{
    s.lemma_numbers();
}

} // verus!
