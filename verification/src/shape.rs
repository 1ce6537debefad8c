//! The buffers of a model, and the spans of them that one run works on.
use vstd::prelude::*;

use crate::attention::Heads;
use crate::bank::Span;
use crate::index::{lemma_rows_cover, lemma_whole_rows};
use crate::layout::{layer_start, lemma_layers_fit, lemma_sizes, param_count, Cfg};

verus! {

/// The longest context the attention kernels are built for.
pub const MAX_T: usize = 16;

/// The parameters.
pub const PARAMS: usize = 0;

/// Their gradients.
pub const GRADS: usize = 1;

/// Token plus position embeddings.
pub const X0: usize = 2;

/// The same, normalized: the input of the first layer.
pub const X1: usize = 3;

/// The factors of that normalization.
pub const R0: usize = 4;

/// Scratch for the output of attention.
pub const PROJ: usize = 5;

/// Scratch for the output of the perceptron.
pub const MLPO: usize = 6;

pub const LOGITS: usize = 7;

pub const PROBS: usize = 8;

pub const LOSSES: usize = 9;

/// The gradients of the logits, and of what follows in the backward pass; shared by all
/// layers.
pub const D_LOGITS: usize = 10;

pub const D_X: usize = 11;

pub const D_XIN: usize = 12;

pub const D_H: usize = 13;

pub const D_XN2: usize = 14;

pub const D_X2: usize = 15;

pub const D_ATTY: usize = 16;

pub const D_ATT: usize = 17;

pub const D_SCORES: usize = 18;

pub const D_Q: usize = 19;

pub const D_K: usize = 20;

pub const D_V: usize = 21;

pub const D_XN: usize = 22;

pub const D_X0: usize = 23;

/// The number of buffers that are not of one layer.
pub const SHARED: usize = 24;

/// The activations of one layer that the backward pass needs: the normalized input,
pub const XN: usize = 0;

/// the queries, keys and values,
pub const Q: usize = 1;

pub const K: usize = 2;

pub const V: usize = 3;

/// the attention weights,
pub const ATT: usize = 4;

/// the values they mix,
pub const ATTY: usize = 5;

/// the input plus the output of attention,
pub const X_MID: usize = 6;

/// the same, normalized,
pub const XN2: usize = 7;

/// the hidden numbers of the perceptron, before
pub const HPRE: usize = 8;

/// and after the negative ones are cut off,
pub const H: usize = 9;

/// the output,
pub const X_OUT: usize = 10;

/// and the factors of the two normalizations.
pub const R1: usize = 11;

pub const R2: usize = 12;

/// The number of buffers of one layer.
pub const ACTS: usize = 13;

/// How many numbers buffer `i` holds.
pub open spec fn buf_len(cfg: Cfg, vocab: int, i: int) -> int {
    let r = cfg.batch * cfg.block_size;
    let c = cfg.n_embd as int;
    let att = r * cfg.n_head * cfg.block_size;
    if i < SHARED {
        if i == PARAMS || i == GRADS {
            param_count(cfg, vocab)
        } else if i == R0 || i == LOSSES {
            r
        } else if i == LOGITS || i == PROBS || i == D_LOGITS {
            r * vocab
        } else if i == D_H {
            r * (4 * c)
        } else if i == D_ATT || i == D_SCORES {
            att
        } else {
            r * c
        }
    } else {
        let k = (i - SHARED) % (ACTS as int);
        if k == ATT {
            att
        } else if k == HPRE || k == H {
            r * (4 * c)
        } else if k == R1 || k == R2 {
            r
        } else {
            r * c
        }
    }
}

/// How many buffers there are.
pub open spec fn buf_count(cfg: Cfg) -> int {
    SHARED + cfg.n_layer * ACTS
}

/// The lengths of all buffers.
pub open spec fn bank_lens(cfg: Cfg, vocab: int) -> Seq<nat> {
    Seq::new(buf_count(cfg) as nat, |i: int| buf_len(cfg, vocab, i) as nat)
}

/// Whether the buffers can be numbered and measured in machine words.
pub open spec fn sizes_fit(cfg: Cfg, vocab: int) -> bool {
    let r = cfg.batch * cfg.block_size;
    &&& buf_count(cfg) <= usize::MAX
    &&& param_count(cfg, vocab) <= usize::MAX
    &&& r <= usize::MAX
    &&& 4 * cfg.n_embd <= usize::MAX
    &&& r * (4 * cfg.n_embd) <= usize::MAX
    &&& r * vocab <= usize::MAX
    &&& r * cfg.n_head * cfg.block_size <= usize::MAX
}

/// The shape of one run: `rows` positions, in documents of `t_len`.
#[derive(Clone, Copy)]
pub struct Shape {
    pub cfg: Cfg,
    pub vocab: usize,
    pub rows: usize,
    pub t_len: usize,
}

impl Shape {
    /// Whether a model of this shape can run on so many rows.
    pub open spec fn ok(&self) -> bool {
        &&& self.cfg.runnable()
        &&& self.vocab > 0
        &&& 0 < self.t_len <= self.cfg.block_size
        &&& self.rows % self.t_len == 0
        &&& self.rows <= self.cfg.batch * self.cfg.block_size
        &&& sizes_fit(self.cfg, self.vocab as int)
    }

    /// The width of the network.
    pub open spec fn c(&self) -> int {
        self.cfg.n_embd as int
    }

    /// The numbers in one row of activations, times the rows.
    pub open spec fn rc(&self) -> int {
        self.rows * self.c()
    }

    /// The same in the hidden layer of the perceptron.
    pub open spec fn rc4(&self) -> int {
        self.rows * (4 * self.c())
    }

    /// The same for the logits.
    pub open spec fn rv(&self) -> int {
        self.rows * self.vocab
    }

    /// The shape of attention.
    pub open spec fn heads_spec(&self) -> Heads {
        Heads {
            b_n: (self.rows as int / self.t_len as int) as usize,
            h_n: self.cfg.n_head,
            t_len: self.t_len,
            d: (self.cfg.n_embd as int / self.cfg.n_head as int) as usize,
        }
    }

    /// The attention weights.
    pub open spec fn att(&self) -> int {
        self.heads_spec().weight_rows() * self.t_len
    }

    /// The first `len` numbers of buffer `buf`.
    pub open spec fn shared(&self, buf: int, len: int) -> Span {
        Span { buf: buf as usize, start: 0, len: len as usize }
    }

    /// The first `len` numbers of activation `k` of layer `li`.
    pub open spec fn act(&self, li: int, k: int, len: int) -> Span {
        Span { buf: (SHARED + li * ACTS + k) as usize, start: 0, len: len as usize }
    }

    /// The input of layer `li`.
    pub open spec fn xin(&self, li: int) -> Span {
        if li == 0 {
            self.shared(X1 as int, self.rc())
        } else {
            self.act(li - 1, X_OUT as int, self.rc())
        }
    }

    /// The token embeddings in buffer `buf`: the parameters, or their gradients.
    pub open spec fn wte(&self, buf: int) -> Span {
        Span { buf: buf as usize, start: 0, len: (self.vocab * self.cfg.n_embd) as usize }
    }

    /// The position embeddings.
    pub open spec fn wpe(&self, buf: int) -> Span {
        Span {
            buf: buf as usize,
            start: (self.vocab * self.cfg.n_embd) as usize,
            len: (self.cfg.block_size * self.cfg.n_embd) as usize,
        }
    }

    /// The output head.
    pub open spec fn lm_head(&self, buf: int) -> Span {
        Span {
            buf: buf as usize,
            start: (self.vocab * self.cfg.n_embd + self.cfg.block_size * self.cfg.n_embd) as usize,
            len: (self.vocab * self.cfg.n_embd) as usize,
        }
    }

    /// The matrix of layer `li` that starts `at` square matrices into the layer and is
    /// `size` of them large.
    pub open spec fn weight(&self, buf: int, li: int, at: int, size: int) -> Span {
        let square = self.cfg.n_embd * self.cfg.n_embd;
        Span {
            buf: buf as usize,
            start: (layer_start(self.cfg, self.vocab as int, li) + at * square) as usize,
            len: (size * square) as usize,
        }
    }

    pub open spec fn wq(&self, buf: int, li: int) -> Span {
        self.weight(buf, li, 0, 1)
    }

    pub open spec fn wk(&self, buf: int, li: int) -> Span {
        self.weight(buf, li, 1, 1)
    }

    pub open spec fn wv(&self, buf: int, li: int) -> Span {
        self.weight(buf, li, 2, 1)
    }

    pub open spec fn wo(&self, buf: int, li: int) -> Span {
        self.weight(buf, li, 3, 1)
    }

    pub open spec fn fc1(&self, buf: int, li: int) -> Span {
        self.weight(buf, li, 4, 4)
    }

    pub open spec fn fc2(&self, buf: int, li: int) -> Span {
        self.weight(buf, li, 8, 4)
    }

    /// How the numbers of a run hang together.
    pub proof fn lemma_numbers(&self)
        requires
            self.ok(),
        ensures
            self.heads_spec().h_n > 0,
            self.heads_spec().t_len > 0,
            self.heads_spec().d > 0,
            self.heads_spec().positions() == self.rows,
            self.heads_spec().width() == self.c(),
            self.heads_spec().b_n == self.rows as int / self.t_len as int,
            self.heads_spec().d == self.cfg.n_embd as int / self.cfg.n_head as int,
            0 <= self.rc() <= (self.cfg.batch * self.cfg.block_size) * self.c(),
            0 <= self.rc4() <= (self.cfg.batch * self.cfg.block_size) * (4 * self.c()),
            0 <= self.rv() <= (self.cfg.batch * self.cfg.block_size) * self.vocab,
            (self.cfg.batch * self.cfg.block_size) * self.c() <= (self.cfg.batch
                * self.cfg.block_size) * (4 * self.c()),
            0 <= self.att() <= self.cfg.batch * self.cfg.block_size * self.cfg.n_head
                * self.cfg.block_size,
            self.rc() / self.c() == self.rows,
            self.rc() % self.c() == 0,
            self.rc4() / (4 * self.c()) == self.rows,
            self.rc4() % (4 * self.c()) == 0,
            self.rv() / (self.vocab as int) == self.rows,
            self.rv() % (self.vocab as int) == 0,
            self.att() % (self.t_len as int) == 0,
            self.t_len * self.c() <= self.cfg.block_size * self.c(),
            (4 * self.c()) * self.c() == 4 * (self.c() * self.c()),
            self.c() * (4 * self.c()) == 4 * (self.c() * self.c()),
    {
        let hs = self.heads_spec();
        let (rows, t, c, v) = (
            self.rows as int,
            self.t_len as int,
            self.cfg.n_embd as int,
            self.vocab as int,
        );
        let r = self.cfg.batch * self.cfg.block_size;
        let h = self.cfg.n_head as int;
        lemma_rows_cover(rows, t);
        lemma_rows_cover(c, h);
        let b = rows / t;
        let d = c / h;
        vstd::arithmetic::mul::lemma_mul_is_commutative(d, h);
        assert(d > 0) by (nonlinear_arith)
            requires
                d * h == c,
                c > 0,
                h > 0,
        ;
        assert(0 <= rows * c <= r * c && 0 <= rows * (4 * c) <= r * (4 * c) && 0 <= rows * v <= r
            * v && r * c <= r * (4 * c)) by (nonlinear_arith)
            requires
                0 <= rows <= r,
                c > 0,
                v > 0,
        ;
        lemma_whole_rows(rows, c);
        lemma_whole_rows(rows, 4 * c);
        lemma_whole_rows(rows, v);
        hs.lemma_counts();
        lemma_whole_rows(hs.weight_rows(), t);
        assert(b * h * t * t == (b * t) * h * t) by (nonlinear_arith);
        let bs = self.cfg.block_size as int;
        assert(0 <= rows * h * t <= r * h * bs) by (nonlinear_arith)
            requires
                0 <= rows <= r,
                0 < h,
                0 < t <= bs,
        ;
        assert(t * c <= bs * c && (4 * c) * c == 4 * (c * c) && c * (4 * c) == 4 * (c * c))
            by (nonlinear_arith)
            requires
                t <= bs,
                c > 0,
        ;
    }

    /// How the matrices stand in the parameter buffer.
    pub proof fn lemma_weights(&self, li: int)
        requires
            self.ok(),
            0 <= li < self.cfg.n_layer,
        ensures
            0 <= self.vocab * self.cfg.n_embd,
            0 <= self.cfg.block_size * self.cfg.n_embd,
            0 <= self.cfg.n_embd * self.cfg.n_embd,
            2 * (self.vocab * self.cfg.n_embd) + self.cfg.block_size * self.cfg.n_embd
                <= layer_start(self.cfg, self.vocab as int, li),
            layer_start(self.cfg, self.vocab as int, li) + 12 * (self.cfg.n_embd
                * self.cfg.n_embd) <= param_count(self.cfg, self.vocab as int),
    {
        lemma_sizes(self.cfg, self.vocab as int);
        lemma_layers_fit(self.cfg, self.vocab as int, li);
        lemma_layers_fit(self.cfg, self.vocab as int, li + 1);
    }

    /// The shape of attention.
    pub fn heads(&self) -> (hs: Heads)
        requires
            self.ok(),
        ensures
            hs == self.heads_spec(),
    {
        Heads {
            b_n: self.rows / self.t_len,
            h_n: self.cfg.n_head,
            t_len: self.t_len,
            d: self.cfg.head_dim(),
        }
    }
}

/// The lengths of all buffers.
pub fn buffer_lens(cfg: Cfg, vocab: usize) -> (lens: Vec<usize>)
    requires
        sizes_fit(cfg, vocab as int),
    ensures
        lens@.len() == buf_count(cfg),
        forall|i: int|
            0 <= i < buf_count(cfg) ==> #[trigger] lens@[i] == buf_len(cfg, vocab as int, i),
{
    let l: crate::layout::Layout = crate::layout::Layout::new(&cfg, vocab);
    let r: usize = cfg.max_rows();
    let c: usize = cfg.n_embd;
    proof {
        assert(0 <= r * c <= r * (4 * c) && 0 <= r * cfg.n_head) by (nonlinear_arith)
            requires
                r >= 0,
                c >= 0,
        ;
        assert(cfg.block_size >= 1 ==> r * cfg.n_head <= r * cfg.n_head * cfg.block_size)
            by (nonlinear_arith)
            requires
                0 <= r * cfg.n_head,
        ;
        if cfg.block_size == 0 {
            assert(cfg.batch * cfg.block_size == 0);
            assert(r * cfg.n_head == 0) by (nonlinear_arith)
                requires
                    r == 0,
            ;
        }
    }
    let rc: usize = r * c;
    let rc4: usize = r * (4 * c);
    let rv: usize = r * vocab;
    let att: usize = r * cfg.n_head * cfg.block_size;
    let n: usize = SHARED + cfg.n_layer * ACTS;
    let mut lens: Vec<usize> = Vec::new();
    for i in 0..n
        invariant
            n == buf_count(cfg),
            l.total == param_count(cfg, vocab as int),
            r == cfg.batch * cfg.block_size,
            rc == r * cfg.n_embd,
            rc4 == r * (4 * cfg.n_embd),
            rv == r * vocab,
            att == r * cfg.n_head * cfg.block_size,
            lens@.len() == i,
            forall|k: int|
                0 <= k < i ==> #[trigger] lens@[k] == buf_len(cfg, vocab as int, k),
    {
        let len: usize = if i < SHARED {
            if i == PARAMS || i == GRADS {
                l.total
            } else if i == R0 || i == LOSSES {
                r
            } else if i == LOGITS || i == PROBS || i == D_LOGITS {
                rv
            } else if i == D_H {
                rc4
            } else if i == D_ATT || i == D_SCORES {
                att
            } else {
                rc
            }
        } else {
            let k: usize = (i - SHARED) % ACTS;
            if k == ATT {
                att
            } else if k == HPRE || k == H {
                rc4
            } else if k == R1 || k == R2 {
                r
            } else {
                rc
            }
        };
        lens.push(len);
    }
    lens
}

} // verus!
