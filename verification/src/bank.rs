//! A bank of numbered buffers, and the steps that compute with them.
//!
//! Training is a fixed sequence of [`Launch`]es, each of which reads some spans of the
//! bank and writes one or two others. What a launch does to the contents of a bank is
//! [`effect`]; whoever carries it out, on a processor or on a device, has to bring about
//! that effect. [`Bank`] carries it out in ordinary memory.
use vstd::prelude::*;

use crate::attention::{
    attn_mix_bwd_dp, attn_mix_bwd_dv, attn_mix_fwd, attn_scores_bwd_dk, attn_scores_bwd_dq,
    attn_softmax_bwd, attn_softmax_fwd, is_attn_mix, is_attn_mix_bwd_dp, is_attn_scores_bwd,
    is_attn_softmax, is_attn_softmax_bwd, Heads, Side,
};
use crate::embed::{
    embed_bwd_wpe, embed_bwd_wte, embed_fwd, is_embed, is_embed_bwd_wpe, is_embed_bwd_wte,
};
use crate::index::lemma_whole_rows;
use crate::loss::{ce_bwd, ce_fwd, is_ce, is_ce_bwd, valid_targets};
use crate::matmul::{is_matmul_nn, is_matmul_nt, is_matmul_tn, matmul_nn, matmul_nt, matmul_tn};
use crate::norm::{is_rmsnorm, is_rmsnorm_bwd, rmsnorm_bwd, rmsnorm_fwd};
use crate::pointwise::{
    add_fwd, add_inplace, is_add, is_add_inplace, is_relu_bwd, is_relu_fwd, relu_bwd_inplace,
    relu_fwd,
};
use crate::rows::RowRunner;
use crate::scalar::Scalar;

verus! {

/// A part of one buffer of the bank.
#[derive(Clone, Copy)]
pub struct Span {
    pub buf: usize,
    pub start: usize,
    pub len: usize,
}

/// One step of a computation, with the spans it works on. The first spans are those that
/// are written.
#[derive(Clone, Copy)]
pub enum Launch {
    EmbedFwd { x: Span, wte: Span, wpe: Span, t_len: usize, c: usize },
    EmbedBwdWte { dwte: Span, dx: Span, c: usize },
    EmbedBwdWpe { dwpe: Span, dx: Span, rows: usize, t_len: usize, c: usize },
    RmsnormFwd { y: Span, rinv: Span, x: Span, c: usize },
    RmsnormBwd { dx: Span, x: Span, rinv: Span, dy: Span, c: usize, accum: bool },
    MatmulNt { y: Span, x: Span, w: Span, n: usize, k: usize, accum: bool },
    MatmulNn { y: Span, x: Span, w: Span, n: usize, k: usize, accum: bool },
    MatmulTn { dw: Span, dy: Span, x: Span, m: usize, n: usize, k: usize },
    AttnSoftmaxFwd { att: Span, q: Span, keys: Span, hs: Heads },
    AttnSoftmaxBwd { ds: Span, att: Span, dp: Span, hs: Heads },
    AttnScoresBwdDq { dq: Span, ds: Span, keys: Span, hs: Heads },
    AttnScoresBwdDk { dk: Span, ds: Span, q: Span, hs: Heads },
    AttnMixFwd { y: Span, att: Span, v: Span, hs: Heads },
    AttnMixBwdDp { dp: Span, dy: Span, v: Span, hs: Heads },
    AttnMixBwdDv { dv: Span, att: Span, dy: Span, hs: Heads },
    ReluFwd { y: Span, x: Span },
    ReluBwdInplace { d: Span, x: Span },
    AddFwd { y: Span, a: Span, b: Span },
    AddInplace { y: Span, x: Span },
    CeFwd { losses: Span, probs: Span, logits: Span, vocab: usize },
    CeBwd { dlogits: Span, probs: Span, vocab: usize, valid: usize },
    Swap { first: usize, second: usize },
}

/// The contents of a bank.
pub type Mem<S> = Seq<Seq<S>>;

/// What the span `z` holds.
pub open spec fn read<S>(m: Mem<S>, z: Span) -> Seq<S> {
    m[z.buf as int].subrange(z.start as int, z.start + z.len)
}

/// The bank `m` with `v` written to the span `z`.
pub open spec fn overwrite<S>(m: Mem<S>, z: Span, v: Seq<S>) -> Mem<S> {
    let buf = m[z.buf as int];
    m.update(z.buf as int, buf.take(z.start as int) + v + buf.skip(z.start + z.len))
}

/// Whether the span `z` lies within a bank whose buffers have the lengths `lens`.
pub open spec fn inside(lens: Seq<nat>, z: Span) -> bool {
    z.buf < lens.len() && z.start + z.len <= lens[z.buf as int]
}

/// Whether the two spans have nothing in common.
pub open spec fn apart(y: Span, z: Span) -> bool {
    y.buf != z.buf || y.start + y.len <= z.start || z.start + z.len <= y.start
}

/// The lengths of the buffers of a bank.
pub open spec fn lens_of<S>(m: Mem<S>) -> Seq<nat> {
    Seq::new(m.len(), |i: int| m[i].len())
}

/// Whether the launch can be carried out on a bank with buffers of the lengths `lens`:
/// every span lies within, nothing is read from a buffer that is being written, and the
/// shapes agree.
#[verifier::opaque]
pub open spec fn fits(
    l: Launch,
    lens: Seq<nat>,
    tokens: Seq<i32>,
    targets: Seq<i32>,
) -> bool {
    match l {
        Launch::EmbedFwd { x, wte, wpe, t_len, c } => {
            &&& inside(lens, x) && inside(lens, wte) && inside(lens, wpe)
            &&& x.buf != wte.buf && x.buf != wpe.buf
            &&& c > 0 && t_len > 0
            &&& x.len == tokens.len() * c
            &&& t_len * c <= wpe.len
            &&& forall|r: int|
                0 <= r < tokens.len() ==> 0 <= #[trigger] tokens[r] && tokens[r] < wte.len
                    as nat / c as nat
        },
        Launch::EmbedBwdWte { dwte, dx, c } => {
            &&& inside(lens, dwte) && inside(lens, dx)
            &&& dwte.buf != dx.buf
            &&& c > 0
            &&& dwte.len as nat % c as nat == 0
            &&& tokens.len() * c <= dx.len
            &&& forall|r: int| 0 <= r < tokens.len() ==> 0 <= #[trigger] tokens[r]
        },
        Launch::EmbedBwdWpe { dwpe, dx, rows, t_len, c } => {
            &&& inside(lens, dwpe) && inside(lens, dx)
            &&& dwpe.buf != dx.buf
            &&& c > 0
            &&& t_len * c <= dwpe.len
            &&& rows * c <= dx.len
        },
        Launch::RmsnormFwd { y, rinv, x, c } => {
            &&& inside(lens, y) && inside(lens, rinv) && inside(lens, x)
            &&& y.buf != rinv.buf && y.buf != x.buf && rinv.buf != x.buf
            &&& c > 0
            &&& y.len == rinv.len * c
            &&& y.len <= x.len
        },
        Launch::RmsnormBwd { dx, x, rinv, dy, c, accum } => {
            &&& inside(lens, dx) && inside(lens, x) && inside(lens, rinv) && inside(lens, dy)
            &&& dx.buf != x.buf && dx.buf != rinv.buf && dx.buf != dy.buf
            &&& c > 0
            &&& dx.len == rinv.len * c
            &&& dx.len <= x.len
            &&& dx.len <= dy.len
        },
        Launch::MatmulNt { y, x, w, n, k, accum } => {
            &&& inside(lens, y) && inside(lens, x) && inside(lens, w)
            &&& y.buf != x.buf && y.buf != w.buf
            &&& n > 0
            &&& y.len as nat % n as nat == 0
            &&& (y.len as nat / n as nat) * k <= x.len
            &&& n * k <= w.len
        },
        Launch::MatmulNn { y, x, w, n, k, accum } => {
            &&& inside(lens, y) && inside(lens, x) && inside(lens, w)
            &&& y.buf != x.buf && y.buf != w.buf
            &&& n > 0
            &&& y.len as nat % n as nat == 0
            &&& (y.len as nat / n as nat) * k <= x.len
            &&& k * n <= w.len
        },
        Launch::MatmulTn { dw, dy, x, m, n, k } => {
            &&& inside(lens, dw) && inside(lens, dy) && inside(lens, x)
            &&& dw.buf != dy.buf && dw.buf != x.buf
            &&& n > 0
            &&& dw.len == m * n
            &&& k * m <= dy.len
            &&& k * n <= x.len
        },
        Launch::AttnSoftmaxFwd { att, q, keys, hs } => {
            &&& inside(lens, att) && inside(lens, q) && inside(lens, keys)
            &&& att.buf != q.buf && att.buf != keys.buf
            &&& hs.h_n > 0 && hs.t_len > 0 && hs.d > 0
            &&& att.len == hs.weight_rows() * hs.t_len
            &&& hs.covers_rows(q.len as nat)
            &&& hs.covers_rows(keys.len as nat)
        },
        Launch::AttnSoftmaxBwd { ds, att, dp, hs } => {
            &&& inside(lens, ds) && inside(lens, att) && inside(lens, dp)
            &&& ds.buf != att.buf && ds.buf != dp.buf
            &&& hs.t_len > 0
            &&& ds.len == hs.weight_rows() * hs.t_len
            &&& ds.len <= att.len
            &&& ds.len <= dp.len
        },
        Launch::AttnScoresBwdDq { dq: out, ds: w, keys: x, hs }
        | Launch::AttnScoresBwdDk { dk: out, ds: w, q: x, hs }
        | Launch::AttnMixFwd { y: out, att: w, v: x, hs }
        | Launch::AttnMixBwdDv { dv: out, att: w, dy: x, hs } => {
            &&& inside(lens, out) && inside(lens, w) && inside(lens, x)
            &&& out.buf != w.buf && out.buf != x.buf
            &&& hs.h_n > 0 && hs.t_len > 0 && hs.d > 0
            &&& out.len == hs.positions() * hs.width()
            &&& hs.covers_weights(w.len as nat)
            &&& hs.covers_rows(x.len as nat)
        },
        Launch::AttnMixBwdDp { dp, dy, v, hs } => {
            &&& inside(lens, dp) && inside(lens, dy) && inside(lens, v)
            &&& dp.buf != dy.buf && dp.buf != v.buf
            &&& hs.h_n > 0 && hs.t_len > 0 && hs.d > 0
            &&& dp.len == hs.weight_rows() * hs.t_len
            &&& hs.covers_rows(dy.len as nat)
            &&& hs.covers_rows(v.len as nat)
        },
        Launch::ReluFwd { y, x } | Launch::ReluBwdInplace { d: y, x } | Launch::AddInplace {
            y,
            x,
        } => {
            &&& inside(lens, y) && inside(lens, x)
            &&& y.buf != x.buf
            &&& y.len <= x.len
        },
        Launch::AddFwd { y, a, b } => {
            &&& inside(lens, y) && inside(lens, a) && inside(lens, b)
            &&& y.buf != a.buf && y.buf != b.buf
            &&& y.len <= a.len
            &&& y.len <= b.len
        },
        Launch::CeFwd { losses, probs, logits, vocab } => {
            &&& inside(lens, losses) && inside(lens, probs) && inside(lens, logits)
            &&& losses.buf != probs.buf && losses.buf != logits.buf && probs.buf != logits.buf
            &&& vocab > 0
            &&& losses.len <= targets.len()
            &&& valid_targets(targets, vocab as int)
            &&& losses.len * vocab <= probs.len
            &&& losses.len * vocab <= logits.len
        },
        Launch::CeBwd { dlogits, probs, vocab, valid } => {
            &&& inside(lens, dlogits) && inside(lens, probs)
            &&& dlogits.buf != probs.buf
            &&& vocab > 0
            &&& dlogits.len == targets.len() * vocab
            &&& dlogits.len <= probs.len
        },
        Launch::Swap { first, second } => {
            &&& first < lens.len() && second < lens.len()
            &&& lens[first as int] == lens[second as int]
        },
    }
}

/// `after` is `before` with nothing changed but the span `z`.
pub open spec fn changes<S>(before: Mem<S>, after: Mem<S>, z: Span) -> bool {
    after == overwrite(before, z, read(after, z))
}

/// `after` is what the launch may make of the bank `before`.
pub open spec fn effect<S: Scalar>(
    l: Launch,
    tokens: Seq<i32>,
    targets: Seq<i32>,
    before: Mem<S>,
    after: Mem<S>,
) -> bool {
    lens_of(after) == lens_of(before) && launched(l, tokens, targets, before, after)
}

/// The part of [`effect`] that tells the launches apart.
#[verifier::opaque]
pub open spec fn launched<S: Scalar>(
    l: Launch,
    tokens: Seq<i32>,
    targets: Seq<i32>,
    before: Mem<S>,
    after: Mem<S>,
) -> bool {
    match l {
        Launch::EmbedFwd { x, wte, wpe, t_len, c } => {
            &&& changes(before, after, x)
            &&& is_embed(
                read(after, x),
                read(before, wte),
                read(before, wpe),
                tokens,
                t_len as nat,
                c as nat,
            )
        },
        Launch::EmbedBwdWte { dwte, dx, c } => {
            &&& changes(before, after, dwte)
            &&& is_embed_bwd_wte(
                read(before, dwte),
                read(after, dwte),
                read(before, dx),
                tokens,
                c as nat,
            )
        },
        Launch::EmbedBwdWpe { dwpe, dx, rows, t_len, c } => {
            &&& changes(before, after, dwpe)
            &&& is_embed_bwd_wpe(
                read(before, dwpe),
                read(after, dwpe),
                read(before, dx),
                rows as nat,
                t_len as nat,
                c as nat,
            )
        },
        Launch::RmsnormFwd { y, rinv, x, c } => {
            &&& after == overwrite(overwrite(before, rinv, read(after, rinv)), y, read(after, y))
            &&& is_rmsnorm(read(after, y), read(after, rinv), read(before, x), c as nat)
        },
        Launch::RmsnormBwd { dx, x, rinv, dy, c, accum } => {
            &&& changes(before, after, dx)
            &&& is_rmsnorm_bwd(
                read(before, dx),
                read(after, dx),
                read(before, x),
                read(before, rinv),
                read(before, dy),
                c as nat,
                accum,
            )
        },
        Launch::MatmulNt { y, x, w, n, k, accum } => {
            &&& changes(before, after, y)
            &&& is_matmul_nt(
                read(before, y),
                read(after, y),
                read(before, x),
                read(before, w),
                n as nat,
                k as nat,
                accum,
            )
        },
        Launch::MatmulNn { y, x, w, n, k, accum } => {
            &&& changes(before, after, y)
            &&& is_matmul_nn(
                read(before, y),
                read(after, y),
                read(before, x),
                read(before, w),
                n as nat,
                k as nat,
                accum,
            )
        },
        Launch::MatmulTn { dw, dy, x, m, n, k } => {
            &&& changes(before, after, dw)
            &&& is_matmul_tn(
                read(before, dw),
                read(after, dw),
                read(before, dy),
                read(before, x),
                m as nat,
                n as nat,
                k as nat,
            )
        },
        Launch::AttnSoftmaxFwd { att, q, keys, hs } => {
            &&& changes(before, after, att)
            &&& is_attn_softmax(hs, read(after, att), read(before, q), read(before, keys))
        },
        Launch::AttnSoftmaxBwd { ds, att, dp, hs } => {
            &&& changes(before, after, ds)
            &&& is_attn_softmax_bwd(
                read(after, ds),
                read(before, att),
                read(before, dp),
                hs.t_len as nat,
            )
        },
        Launch::AttnScoresBwdDq { dq, ds, keys, hs } => {
            &&& changes(before, after, dq)
            &&& is_attn_scores_bwd(
                hs,
                Side::Past,
                read(after, dq),
                read(before, ds),
                read(before, keys),
            )
        },
        Launch::AttnScoresBwdDk { dk, ds, q, hs } => {
            &&& changes(before, after, dk)
            &&& is_attn_scores_bwd(
                hs,
                Side::Future,
                read(after, dk),
                read(before, ds),
                read(before, q),
            )
        },
        Launch::AttnMixFwd { y, att, v, hs } => {
            &&& changes(before, after, y)
            &&& is_attn_mix(hs, Side::Past, read(after, y), read(before, att), read(before, v))
        },
        Launch::AttnMixBwdDp { dp, dy, v, hs } => {
            &&& changes(before, after, dp)
            &&& is_attn_mix_bwd_dp(hs, read(after, dp), read(before, dy), read(before, v))
        },
        Launch::AttnMixBwdDv { dv, att, dy, hs } => {
            &&& changes(before, after, dv)
            &&& is_attn_mix(hs, Side::Future, read(after, dv), read(before, att), read(before, dy))
        },
        Launch::ReluFwd { y, x } => {
            &&& changes(before, after, y)
            &&& is_relu_fwd(read(after, y), read(before, x))
        },
        Launch::ReluBwdInplace { d, x } => {
            &&& changes(before, after, d)
            &&& is_relu_bwd(read(before, d), read(after, d), read(before, x))
        },
        Launch::AddFwd { y, a, b } => {
            &&& changes(before, after, y)
            &&& is_add(read(after, y), read(before, a), read(before, b))
        },
        Launch::AddInplace { y, x } => {
            &&& changes(before, after, y)
            &&& is_add_inplace(read(before, y), read(after, y), read(before, x))
        },
        Launch::CeFwd { losses, probs, logits, vocab } => {
            &&& after == overwrite(overwrite(before, probs, read(after, probs)), losses, read(after, losses))
            &&& is_ce(
                read(after, losses),
                read(before, probs),
                read(after, probs),
                read(before, logits),
                targets,
                vocab as nat,
            )
        },
        Launch::CeBwd { dlogits, probs, vocab, valid } => {
            &&& changes(before, after, dlogits)
            &&& is_ce_bwd(
                read(after, dlogits),
                read(before, probs),
                targets,
                vocab as nat,
                valid as nat,
            )
        },
        Launch::Swap { first, second } => {
            after == before.update(first as int, before[second as int]).update(
                second as int,
                before[first as int],
            )
        },
    }
}

/// `trace` is what the launches of `plan`, carried out in order, may make of a bank: its
/// contents at the start and after each launch.
pub open spec fn runs<S: Scalar>(
    plan: Seq<Launch>,
    tokens: Seq<i32>,
    targets: Seq<i32>,
    trace: Seq<Mem<S>>,
) -> bool {
    &&& trace.len() == plan.len() + 1
    &&& forall|i: int|
        0 <= i < plan.len() ==> effect(
            #[trigger] plan[i],
            tokens,
            targets,
            trace[i],
            trace[i + 1],
        )
}

/// Whether every launch of `plan` can be carried out on a bank with buffers of the lengths
/// `lens`.
pub open spec fn plan_fits(
    plan: Seq<Launch>,
    lens: Seq<nat>,
    tokens: Seq<i32>,
    targets: Seq<i32>,
) -> bool {
    forall|i: int| 0 <= i < plan.len() ==> fits(#[trigger] plan[i], lens, tokens, targets)
}

/// A bank in ordinary memory.
pub struct Bank<S> {
    pub bufs: Vec<Vec<S>>,
}

/// The part `z` of a buffer, to be written.
fn window<S>(buf: &mut Vec<S>, z: Span) -> (part: &mut [S])
    requires
        z.start + z.len <= old(buf)@.len(),
    ensures
        part@ == old(buf)@.subrange(z.start as int, z.start + z.len),
        final(buf)@ == old(buf)@.take(z.start as int) + final(part)@ + old(buf)@.skip(
            z.start + z.len,
        ),
{
    let (_, tail) = buf.as_mut_slice().split_at_mut(z.start);
    let (part, _) = tail.split_at_mut(z.len);
    part
}

/// Taking a buffer out, changing one span of it and putting it back changes that span of
/// the bank.
proof fn lemma_put_back<S>(m: Mem<S>, z: Span, part: Seq<S>, after: Mem<S>)
    requires
        inside(lens_of(m), z),
        part.len() == z.len,
        after == m.update(
            z.buf as int,
            m[z.buf as int].take(z.start as int) + part + m[z.buf as int].skip(z.start + z.len),
        ),
    ensures
        after == overwrite(m, z, part),
        read(after, z) == part,
        changes(m, after, z),
        lens_of(after) == lens_of(m),
{
    lemma_read_written(m, z, part);
}

/// The same for two buffers.
proof fn lemma_put_two<S>(m: Mem<S>, y: Span, v: Seq<S>, z: Span, w: Seq<S>, after: Mem<S>)
    requires
        inside(lens_of(m), y),
        inside(lens_of(m), z),
        y.buf != z.buf,
        v.len() == y.len,
        w.len() == z.len,
        after == m.update(
            y.buf as int,
            m[y.buf as int].take(y.start as int) + v + m[y.buf as int].skip(y.start + y.len),
        ).update(
            z.buf as int,
            m[z.buf as int].take(z.start as int) + w + m[z.buf as int].skip(z.start + z.len),
        ),
    ensures
        after == overwrite(overwrite(m, y, v), z, w),
        read(after, y) == v,
        read(after, z) == w,
        lens_of(after) == lens_of(m),
{
    let mid = overwrite(m, y, v);
    lemma_read_written(m, y, v);
    lemma_read_written(mid, z, w);
    lemma_read_apart(mid, z, w, y);
}

impl<S: Scalar> Bank<S> {
    /// The contents of the buffers.
    pub open spec fn mem(&self) -> Mem<S> {
        Seq::new(self.bufs@.len(), |i: int| self.bufs@[i]@)
    }

    /// The lengths of the buffers.
    pub open spec fn lens(&self) -> Seq<nat> {
        lens_of(self.mem())
    }

    /// Takes a buffer out and leaves an empty one in its place.
    pub fn take(&mut self, buf: usize) -> (taken: Vec<S>)
        requires
            buf < old(self).mem().len(),
        ensures
            taken@ == old(self).mem()[buf as int],
            final(self).mem() == old(self).mem().update(buf as int, Seq::empty()),
    {
        let mut taken: Vec<S> = Vec::new();
        core::mem::swap(&mut self.bufs[buf], &mut taken);
        assert(self.mem() =~= old(self).mem().update(buf as int, Seq::empty()));
        taken
    }

    /// Puts a buffer in its place.
    pub fn put(&mut self, buf: usize, v: Vec<S>)
        requires
            buf < old(self).mem().len(),
        ensures
            final(self).mem() == old(self).mem().update(buf as int, v@),
    {
        self.bufs[buf] = v;
        assert(self.mem() =~= old(self).mem().update(buf as int, v@));
    }

    /// What the span `z` holds.
    pub fn part(&self, z: Span) -> (part: &[S])
        requires
            inside(self.lens(), z),
        ensures
            part@ == read(self.mem(), z),
    {
        let buf: &[S] = self.bufs[z.buf].as_slice();
        let len: usize = buf.len();
        &buf[z.start..z.start + z.len]
    }

    /// Carries out the launches of a plan, in order.
    pub fn run<R: RowRunner>(
        &mut self,
        runner: &R,
        plan: &Vec<Launch>,
        tokens: &[i32],
        targets: &[i32],
    )
        requires
            plan_fits(plan@, old(self).lens(), tokens@, targets@),
        ensures
            exists|trace: Seq<Mem<S>>| #[trigger]
                runs(plan@, tokens@, targets@, trace) && trace[0] == old(self).mem()
                    && trace.last() == final(self).mem(),
            final(self).lens() == old(self).lens(),
    {
        let ghost mut trace: Seq<Mem<S>> = seq![self.mem()];
        let ghost lens = self.lens();
        for i in 0..plan.len()
            invariant
                plan_fits(plan@, lens, tokens@, targets@),
                self.lens() == lens,
                trace.len() == i + 1,
                trace[0] == old(self).mem(),
                trace.last() == self.mem(),
                forall|k: int|
                    0 <= k < i ==> effect(
                        #[trigger] plan@[k],
                        tokens@,
                        targets@,
                        trace[k],
                        trace[k + 1],
                    ),
        {
            assert(fits(plan@[i as int], lens, tokens@, targets@));
            self.launch(runner, plan[i], tokens, targets);
            proof {
                let longer = trace.push(self.mem());
                assert forall|k: int| 0 <= k < i + 1 implies effect(
                    #[trigger] plan@[k],
                    tokens@,
                    targets@,
                    longer[k],
                    longer[k + 1],
                ) by {
                    if k < i {
                        assert(effect(plan@[k], tokens@, targets@, trace[k], trace[k + 1]));
                    }
                }
                trace = longer;
            }
        }
        assert(runs(plan@, tokens@, targets@, trace));
    }

    /// Carries out one launch.
    #[verifier::rlimit(40)]
    #[verifier::spinoff_prover]
    pub fn launch<R: RowRunner>(
        &mut self,
        runner: &R,
        l: Launch,
        tokens: &[i32],
        targets: &[i32],
    )
        requires
            fits(l, old(self).lens(), tokens@, targets@),
        ensures
            effect(l, tokens@, targets@, old(self).mem(), final(self).mem()),
            final(self).lens() == old(self).lens(),
    {
        let ghost m = self.mem();
        proof {
            reveal(launched);
            reveal(fits);
        }
        match l {
            Launch::EmbedFwd { x, wte, wpe, t_len, c } => {
                let mut out: Vec<S> = self.take(x.buf);
                let place: &mut [S] = window(&mut out, x);
                embed_fwd(runner, place, self.part(wte), self.part(wpe), tokens, t_len, c);
                let ghost part = place@;
                self.put(x.buf, out);
                proof {
                    assert(self.mem() =~= m.update(x.buf as int, out@));
                    lemma_put_back(m, x, part, self.mem());
                }
            },
            Launch::EmbedBwdWte { dwte, dx, c } => {
                let mut out: Vec<S> = self.take(dwte.buf);
                let place: &mut [S] = window(&mut out, dwte);
                embed_bwd_wte(runner, place, self.part(dx), tokens, c);
                let ghost part = place@;
                self.put(dwte.buf, out);
                proof {
                    assert(self.mem() =~= m.update(dwte.buf as int, out@));
                    lemma_put_back(m, dwte, part, self.mem());
                }
            },
            Launch::EmbedBwdWpe { dwpe, dx, rows, t_len, c } => {
                let mut out: Vec<S> = self.take(dwpe.buf);
                let place: &mut [S] = window(&mut out, dwpe);
                embed_bwd_wpe(place, self.part(dx), rows, t_len, c);
                let ghost part = place@;
                self.put(dwpe.buf, out);
                proof {
                    assert(self.mem() =~= m.update(dwpe.buf as int, out@));
                    lemma_put_back(m, dwpe, part, self.mem());
                }
            },
            Launch::RmsnormFwd { y, rinv, x, c } => {
                let mut factors: Vec<S> = self.take(rinv.buf);
                let mut out: Vec<S> = self.take(y.buf);
                let factor: &mut [S] = window(&mut factors, rinv);
                let place: &mut [S] = window(&mut out, y);
                rmsnorm_fwd(runner, place, factor, self.part(x), c);
                let ghost part = place@;
                let ghost fpart = factor@;
                self.put(rinv.buf, factors);
                self.put(y.buf, out);
                proof {
                    assert(self.mem() =~= m.update(rinv.buf as int, factors@).update(
                        y.buf as int,
                        out@,
                    ));
                    lemma_put_two(m, rinv, fpart, y, part, self.mem());
                }
            },
            Launch::RmsnormBwd { dx, x, rinv, dy, c, accum } => {
                let mut out: Vec<S> = self.take(dx.buf);
                let place: &mut [S] = window(&mut out, dx);
                rmsnorm_bwd(runner, place, self.part(x), self.part(rinv), self.part(dy), c, accum);
                let ghost part = place@;
                self.put(dx.buf, out);
                proof {
                    assert(self.mem() =~= m.update(dx.buf as int, out@));
                    lemma_put_back(m, dx, part, self.mem());
                }
            },
            Launch::MatmulNt { y, x, w, n, k, accum } => {
                let mut out: Vec<S> = self.take(y.buf);
                let place: &mut [S] = window(&mut out, y);
                matmul_nt(runner, place, self.part(x), self.part(w), n, k, accum);
                let ghost part = place@;
                self.put(y.buf, out);
                proof {
                    assert(self.mem() =~= m.update(y.buf as int, out@));
                    lemma_put_back(m, y, part, self.mem());
                }
            },
            Launch::MatmulNn { y, x, w, n, k, accum } => {
                let mut out: Vec<S> = self.take(y.buf);
                let place: &mut [S] = window(&mut out, y);
                matmul_nn(runner, place, self.part(x), self.part(w), n, k, accum);
                let ghost part = place@;
                self.put(y.buf, out);
                proof {
                    assert(self.mem() =~= m.update(y.buf as int, out@));
                    lemma_put_back(m, y, part, self.mem());
                }
            },
            Launch::MatmulTn { dw, dy, x, m: rows, n, k } => {
                let mut out: Vec<S> = self.take(dw.buf);
                let place: &mut [S] = window(&mut out, dw);
                matmul_tn(runner, place, self.part(dy), self.part(x), rows, n, k);
                let ghost part = place@;
                self.put(dw.buf, out);
                proof {
                    assert(self.mem() =~= m.update(dw.buf as int, out@));
                    lemma_put_back(m, dw, part, self.mem());
                }
            },
            Launch::AttnSoftmaxFwd { att, q, keys, hs } => {
                let mut out: Vec<S> = self.take(att.buf);
                let place: &mut [S] = window(&mut out, att);
                attn_softmax_fwd(runner, place, self.part(q), self.part(keys), hs);
                let ghost part = place@;
                self.put(att.buf, out);
                proof {
                    assert(self.mem() =~= m.update(att.buf as int, out@));
                    lemma_put_back(m, att, part, self.mem());
                }
            },
            Launch::AttnSoftmaxBwd { ds, att, dp, hs } => {
                proof {
                    assert(0 <= hs.weight_rows()) by (nonlinear_arith)
                        requires
                            hs.weight_rows() == hs.b_n * hs.h_n * hs.t_len,
                    ;
                    lemma_whole_rows(hs.weight_rows(), hs.t_len as int);
                }
                let mut out: Vec<S> = self.take(ds.buf);
                let place: &mut [S] = window(&mut out, ds);
                attn_softmax_bwd(runner, place, self.part(att), self.part(dp), hs.t_len);
                let ghost part = place@;
                self.put(ds.buf, out);
                proof {
                    assert(self.mem() =~= m.update(ds.buf as int, out@));
                    lemma_put_back(m, ds, part, self.mem());
                }
            },
            Launch::AttnScoresBwdDq { dq, ds, keys, hs } => {
                let mut out: Vec<S> = self.take(dq.buf);
                let place: &mut [S] = window(&mut out, dq);
                attn_scores_bwd_dq(runner, place, self.part(ds), self.part(keys), hs);
                let ghost part = place@;
                self.put(dq.buf, out);
                proof {
                    assert(self.mem() =~= m.update(dq.buf as int, out@));
                    lemma_put_back(m, dq, part, self.mem());
                }
            },
            Launch::AttnScoresBwdDk { dk, ds, q, hs } => {
                let mut out: Vec<S> = self.take(dk.buf);
                let place: &mut [S] = window(&mut out, dk);
                attn_scores_bwd_dk(runner, place, self.part(ds), self.part(q), hs);
                let ghost part = place@;
                self.put(dk.buf, out);
                proof {
                    assert(self.mem() =~= m.update(dk.buf as int, out@));
                    lemma_put_back(m, dk, part, self.mem());
                }
            },
            Launch::AttnMixFwd { y, att, v, hs } => {
                let mut out: Vec<S> = self.take(y.buf);
                let place: &mut [S] = window(&mut out, y);
                attn_mix_fwd(runner, place, self.part(att), self.part(v), hs);
                let ghost part = place@;
                self.put(y.buf, out);
                proof {
                    assert(self.mem() =~= m.update(y.buf as int, out@));
                    lemma_put_back(m, y, part, self.mem());
                }
            },
            Launch::AttnMixBwdDp { dp, dy, v, hs } => {
                let mut out: Vec<S> = self.take(dp.buf);
                let place: &mut [S] = window(&mut out, dp);
                attn_mix_bwd_dp(runner, place, self.part(dy), self.part(v), hs);
                let ghost part = place@;
                self.put(dp.buf, out);
                proof {
                    assert(self.mem() =~= m.update(dp.buf as int, out@));
                    lemma_put_back(m, dp, part, self.mem());
                }
            },
            Launch::AttnMixBwdDv { dv, att, dy, hs } => {
                let mut out: Vec<S> = self.take(dv.buf);
                let place: &mut [S] = window(&mut out, dv);
                attn_mix_bwd_dv(runner, place, self.part(att), self.part(dy), hs);
                let ghost part = place@;
                self.put(dv.buf, out);
                proof {
                    assert(self.mem() =~= m.update(dv.buf as int, out@));
                    lemma_put_back(m, dv, part, self.mem());
                }
            },
            Launch::ReluFwd { y, x } => {
                let mut out: Vec<S> = self.take(y.buf);
                let place: &mut [S] = window(&mut out, y);
                relu_fwd(place, self.part(x));
                let ghost part = place@;
                self.put(y.buf, out);
                proof {
                    assert(self.mem() =~= m.update(y.buf as int, out@));
                    lemma_put_back(m, y, part, self.mem());
                }
            },
            Launch::ReluBwdInplace { d, x } => {
                let mut out: Vec<S> = self.take(d.buf);
                let place: &mut [S] = window(&mut out, d);
                relu_bwd_inplace(place, self.part(x));
                let ghost part = place@;
                self.put(d.buf, out);
                proof {
                    assert(self.mem() =~= m.update(d.buf as int, out@));
                    lemma_put_back(m, d, part, self.mem());
                }
            },
            Launch::AddFwd { y, a, b } => {
                let mut out: Vec<S> = self.take(y.buf);
                let place: &mut [S] = window(&mut out, y);
                add_fwd(place, self.part(a), self.part(b));
                let ghost part = place@;
                self.put(y.buf, out);
                proof {
                    assert(self.mem() =~= m.update(y.buf as int, out@));
                    lemma_put_back(m, y, part, self.mem());
                }
            },
            Launch::AddInplace { y, x } => {
                let mut out: Vec<S> = self.take(y.buf);
                let place: &mut [S] = window(&mut out, y);
                add_inplace(place, self.part(x));
                let ghost part = place@;
                self.put(y.buf, out);
                proof {
                    assert(self.mem() =~= m.update(y.buf as int, out@));
                    lemma_put_back(m, y, part, self.mem());
                }
            },
            Launch::CeFwd { losses, probs, logits, vocab } => {
                let mut weights: Vec<S> = self.take(probs.buf);
                let mut out: Vec<S> = self.take(losses.buf);
                let weight: &mut [S] = window(&mut weights, probs);
                let place: &mut [S] = window(&mut out, losses);
                ce_fwd(place, weight, self.part(logits), targets, vocab);
                let ghost part = place@;
                let ghost wpart = weight@;
                self.put(probs.buf, weights);
                self.put(losses.buf, out);
                proof {
                    assert(self.mem() =~= m.update(probs.buf as int, weights@).update(
                        losses.buf as int,
                        out@,
                    ));
                    lemma_put_two(m, probs, wpart, losses, part, self.mem());
                }
            },
            Launch::CeBwd { dlogits, probs, vocab, valid } => {
                let mut out: Vec<S> = self.take(dlogits.buf);
                let place: &mut [S] = window(&mut out, dlogits);
                ce_bwd(runner, place, self.part(probs), targets, vocab, valid);
                let ghost part = place@;
                self.put(dlogits.buf, out);
                proof {
                    assert(self.mem() =~= m.update(dlogits.buf as int, out@));
                    lemma_put_back(m, dlogits, part, self.mem());
                }
            },
            Launch::Swap { first, second } => {
                let one: Vec<S> = self.take(first);
                if first == second {
                    self.put(first, one);
                } else {
                    let other: Vec<S> = self.take(second);
                    self.put(first, other);
                    self.put(second, one);
                }
                proof {
                    assert(self.mem() =~= m.update(first as int, m[second as int]).update(
                        second as int,
                        m[first as int],
                    ));
                    assert(self.lens() =~= lens_of(m));
                }
            },
        }
    }
}

/// What is written is read back.
pub proof fn lemma_read_written<S>(m: Mem<S>, z: Span, v: Seq<S>)
    requires
        inside(lens_of(m), z),
        v.len() == z.len,
    ensures
        read(overwrite(m, z, v), z) == v,
        lens_of(overwrite(m, z, v)) == lens_of(m),
{
    assert(read(overwrite(m, z, v), z) =~= v);
    assert(lens_of(overwrite(m, z, v)) =~= lens_of(m));
}

/// What is written does not touch what stands apart.
pub proof fn lemma_read_apart<S>(m: Mem<S>, y: Span, v: Seq<S>, z: Span)
    requires
        inside(lens_of(m), y),
        inside(lens_of(m), z),
        v.len() == y.len,
        apart(y, z),
    ensures
        read(overwrite(m, y, v), z) == read(m, z),
{
    assert(read(overwrite(m, y, v), z) =~= read(m, z));
}

} // verus!
