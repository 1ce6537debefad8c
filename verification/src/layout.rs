//! The shape of a model, and where its weight matrices stand in the one flat buffer that
//! holds all parameters.
use vstd::prelude::*;

verus! {

/// The number `num / den`.
#[derive(Clone, Copy)]
pub struct Ratio {
    pub num: u32,
    pub den: u32,
}

/// The shape of a model and of its training.
#[derive(Clone, Copy)]
pub struct Cfg {
    /// Depth of the network.
    pub n_layer: usize,
    /// Width of the network.
    pub n_embd: usize,
    /// Attention heads; the width is divided among them.
    pub n_head: usize,
    /// The longest context.
    pub block_size: usize,
    /// Documents per training step.
    pub batch: usize,
    pub num_steps: usize,
    /// Standard deviation of the initial parameters.
    pub init_std: Ratio,
    pub learning_rate: Ratio,
}

/// The numbers in the six matrices of one layer.
pub open spec fn layer_len(cfg: Cfg) -> int {
    12 * (cfg.n_embd * cfg.n_embd)
}

/// Where the matrices of layer `i` start.
pub open spec fn layer_start(cfg: Cfg, vocab: int, i: int) -> int {
    2 * (vocab * cfg.n_embd) + cfg.block_size * cfg.n_embd + i * layer_len(cfg)
}

/// The numbers in all matrices.
pub open spec fn param_count(cfg: Cfg, vocab: int) -> int {
    layer_start(cfg, vocab, cfg.n_layer as int)
}

impl Cfg {
    /// The small model: some thousands of parameters, one document per step.
    pub fn parity() -> (cfg: Cfg)
        ensures
            cfg == (Cfg {
                n_layer: 1,
                n_embd: 16,
                n_head: 4,
                block_size: 16,
                batch: 1,
                num_steps: 1000,
                init_std: Ratio { num: 8, den: 100 },
                learning_rate: Ratio { num: 1, den: 100 },
            }),
            cfg.runnable(),
    {
        Cfg {
            n_layer: 1,
            n_embd: 16,
            n_head: 4,
            block_size: 16,
            batch: 1,
            num_steps: 1000,
            init_std: Ratio { num: 8, den: 100 },
            learning_rate: Ratio { num: 1, den: 100 },
        }
    }

    /// The large model: some hundred thousands of parameters, 32 documents per step. It
    /// needs cooler initial weights and smaller steps than the small one.
    pub fn scale() -> (cfg: Cfg)
        ensures
            cfg == (Cfg {
                n_layer: 4,
                n_embd: 128,
                n_head: 8,
                block_size: 16,
                batch: 32,
                num_steps: 1000,
                init_std: Ratio { num: 2, den: 100 },
                learning_rate: Ratio { num: 1, den: 1000 },
            }),
            cfg.runnable(),
    {
        Cfg {
            n_layer: 4,
            n_embd: 128,
            n_head: 8,
            block_size: 16,
            batch: 32,
            num_steps: 1000,
            init_std: Ratio { num: 2, den: 100 },
            learning_rate: Ratio { num: 1, den: 1000 },
        }
    }

    /// Whether a model of this shape can be run: it has a layer, and the width is divided
    /// evenly among the heads.
    pub open spec fn runnable(&self) -> bool {
        &&& self.n_layer > 0
        &&& self.has_heads()
    }

    /// Whether the width can be divided among the heads.
    pub open spec fn has_heads(&self) -> bool {
        &&& self.n_embd > 0
        &&& self.n_head > 0
        &&& self.n_embd % self.n_head == 0
    }

    /// The numbers of one head.
    pub fn head_dim(&self) -> (d: usize)
        requires
            self.n_head > 0,
        ensures
            d == self.n_embd / self.n_head,
    {
        self.n_embd / self.n_head
    }

    /// The rows of activations of a full training step.
    pub fn max_rows(&self) -> (rows: usize)
        requires
            self.batch * self.block_size <= usize::MAX,
        ensures
            rows == self.batch * self.block_size,
    {
        self.batch * self.block_size
    }
}

/// Where the matrices of one layer start.
#[derive(Clone, Copy)]
pub struct LayerOff {
    pub wq: usize,
    pub wk: usize,
    pub wv: usize,
    pub wo: usize,
    pub fc1: usize,
    pub fc2: usize,
}

impl LayerOff {
    /// Whether these are the offsets of layer `i`: four square matrices, and two that are
    /// four times as large.
    pub open spec fn stands(&self, cfg: Cfg, vocab: int, i: int) -> bool {
        let square = cfg.n_embd * cfg.n_embd;
        &&& self.wq == layer_start(cfg, vocab, i)
        &&& self.wk == self.wq + square
        &&& self.wv == self.wk + square
        &&& self.wo == self.wv + square
        &&& self.fc1 == self.wo + square
        &&& self.fc2 == self.fc1 + 4 * square
    }
}

/// Where each matrix starts in the flat parameter buffer: token embeddings, position
/// embeddings, output head, then the layers.
pub struct Layout {
    pub wte: usize,
    pub wpe: usize,
    pub lm_head: usize,
    pub layers: Vec<LayerOff>,
    pub total: usize,
}

impl Layout {
    /// Whether this is the layout of a model of shape `cfg` over `vocab` tokens.
    pub open spec fn stands(&self, cfg: Cfg, vocab: int) -> bool {
        &&& self.wte == 0
        &&& self.wpe == vocab * cfg.n_embd
        &&& self.lm_head == self.wpe + cfg.block_size * cfg.n_embd
        &&& self.layers@.len() == cfg.n_layer
        &&& forall|i: int|
            0 <= i < cfg.n_layer ==> (#[trigger] self.layers@[i]).stands(cfg, vocab, i)
        &&& self.total == param_count(cfg, vocab)
    }

    /// The layout of a model of shape `cfg` over `vocab` tokens.
    pub fn new(cfg: &Cfg, vocab: usize) -> (l: Layout)
        requires
            param_count(*cfg, vocab as int) <= usize::MAX,
        ensures
            l.stands(*cfg, vocab as int),
    {
        let c: usize = cfg.n_embd;
        proof {
            lemma_sizes(*cfg, vocab as int);
            lemma_layers_fit(*cfg, vocab as int, 0);
        }
        let wpe: usize = vocab * c;
        let lm_head: usize = wpe + cfg.block_size * c;
        let mut off: usize = lm_head + vocab * c;
        let mut layers: Vec<LayerOff> = Vec::new();
        for i in 0..cfg.n_layer
            invariant
                c == cfg.n_embd,
                layers@.len() == i,
                off == layer_start(*cfg, vocab as int, i as int),
                param_count(*cfg, vocab as int) <= usize::MAX,
                forall|j: int|
                    0 <= j < i ==> (#[trigger] layers@[j]).stands(*cfg, vocab as int, j),
        {
            proof {
                lemma_sizes(*cfg, vocab as int);
                lemma_layers_fit(*cfg, vocab as int, i as int);
                lemma_layers_fit(*cfg, vocab as int, i + 1);
            }
            let square: usize = c * c;
            let wk: usize = off + square;
            let wv: usize = wk + square;
            let wo: usize = wv + square;
            let fc1: usize = wo + square;
            let fc2: usize = fc1 + 4 * square;
            layers.push(LayerOff { wq: off, wk, wv, wo, fc1, fc2 });
            off = fc2 + 4 * square;
        }
        Layout { wte: 0, wpe, lm_head, layers, total: off }
    }
}

/// No matrix has a negative size.
pub proof fn lemma_sizes(cfg: Cfg, vocab: int)
    requires
        vocab >= 0,
    ensures
        0 <= vocab * cfg.n_embd,
        0 <= cfg.block_size * cfg.n_embd,
        0 <= cfg.n_embd * cfg.n_embd,
{
    assert(0 <= vocab * cfg.n_embd && 0 <= cfg.block_size * cfg.n_embd && 0 <= cfg.n_embd
        * cfg.n_embd) by (nonlinear_arith)
        requires
            vocab >= 0,
    ;
}

/// The layers stand one behind the other, up to the end of the buffer.
pub proof fn lemma_layers_fit(cfg: Cfg, vocab: int, i: int)
    requires
        0 <= i <= cfg.n_layer,
    ensures
        layer_start(cfg, vocab, i + 1) == layer_start(cfg, vocab, i) + layer_len(cfg),
        layer_start(cfg, vocab, i) <= param_count(cfg, vocab),
        layer_start(cfg, vocab, 0) <= layer_start(cfg, vocab, i),
{
    let n = layer_len(cfg);
    assert(0 <= n) by (nonlinear_arith)
        requires
            n == 12 * (cfg.n_embd * cfg.n_embd),
    ;
    assert((i + 1) * n == i * n + n && 0 <= i * n <= cfg.n_layer * n) by (nonlinear_arith)
        requires
            0 <= i <= cfg.n_layer,
            0 <= n,
    ;
}

} // verus!
