//! The model as a computation on a tape, one token at a time.
use vstd::prelude::*;

use crate::graph::{
    add_all, all_on, dot, is_add_nodes, is_dot_node, is_linear_nodes, is_relu_nodes,
    is_rmsnorm_nodes, is_softmax_nodes, lemma_dot_extends, lemma_linear_extends, lemma_on_extends,
    lemma_relu_extends, lemma_rmsnorm_extends, lemma_softmax_extends, linear, linear_cost,
    matrix_on, relu_all, rmsnorm, rows_of, softmax,
};
use crate::index::lemma_row_inside;
use crate::layout::{layer_len, layer_start, lemma_layers_fit, lemma_sizes, param_count, Cfg, Ratio};
use crate::order::{
    add_ops, attention_at, attention_ops, dot_ops, follows, head_at, head_ops, is_div_root, is_root,
    layer_at, layer_ops, lemma_follows_append, lemma_follows_none, lemma_follows_push, linear_at,
    linear_ops, mix_ops, relu_ops, rmsnorm_at, rmsnorm_ops, row_at, score_ops, scores_at,
    softmax_ops, Op,
};
use crate::rng::{gauss_state, is_gauss, lemma_gauss_state_adds, Rng};
use crate::scalar::{is_num, is_ratio, is_sqrt, is_zero, Scalar};
use crate::tape::{
    extends, is_add_node, is_div_const, is_relu_node, max_nodes, on, Node, Tape, Value,
};

verus! {

/// The matrices of one layer, as nodes.
pub struct LayerWeights {
    pub attn_wq: Vec<Vec<Value>>,
    pub attn_wk: Vec<Vec<Value>>,
    pub attn_wv: Vec<Vec<Value>>,
    pub attn_wo: Vec<Vec<Value>>,
    pub mlp_fc1: Vec<Vec<Value>>,
    pub mlp_fc2: Vec<Vec<Value>>,
}

/// All matrices, as nodes.
pub struct StateDict {
    pub wte: Vec<Vec<Value>>,
    pub wpe: Vec<Vec<Value>>,
    pub lm_head: Vec<Vec<Value>>,
    pub layers: Vec<LayerWeights>,
}

/// `m` is a matrix whose entries stand one behind the other on the tape, row by row, from
/// `start` on.
pub open spec fn is_matrix(m: Seq<Seq<Value>>, start: int, nout: int, nin: int) -> bool {
    &&& m.len() == nout
    &&& forall|r: int| 0 <= r < nout ==> (#[trigger] m[r]).len() == nin
    &&& forall|r: int, c: int|
        0 <= r < nout && 0 <= c < nin ==> (#[trigger] m[r][c]).idx == start + r * nin + c
}

/// The node at `at` is a parameter, drawn in state `state`.
pub open spec fn is_init_node<S: Scalar>(
    nodes: Seq<Node<S>>,
    at: int,
    state: u64,
    std: Ratio,
) -> bool {
    &&& nodes[at].left is None
    &&& nodes[at].right is None
    &&& exists|zero: S, sigma: S|
        is_zero(zero) && is_ratio(std.num, std.den, sigma) && #[trigger] is_gauss(
            state,
            zero,
            sigma,
            nodes[at].data,
        )
}

/// The nodes from `from` up to `to` are parameters, drawn one after the other from state
/// `seed` on.
pub open spec fn are_init_nodes<S: Scalar>(
    nodes: Seq<Node<S>>,
    from: int,
    to: int,
    seed: u64,
    std: Ratio,
) -> bool {
    forall|at: int|
        from <= at < to ==> is_init_node(
            nodes,
            at,
            #[trigger] gauss_state(seed, (at - from) as nat),
            std,
        )
}

/// A matrix of new parameters.
pub fn matrix<S: Scalar>(
    tape: &mut Tape<S>,
    rng: &mut Rng,
    nout: usize,
    nin: usize,
    std: Ratio,
) -> (m: Vec<Vec<Value>>)
    requires
        old(tape).wf(),
        old(tape).nodes@.len() + nout * nin <= max_nodes(),
    ensures
        final(tape).wf(),
        extends(old(tape).nodes@, final(tape).nodes@),
        final(tape).nodes@.len() == old(tape).nodes@.len() + nout * nin,
        is_matrix(rows_of(m@), old(tape).nodes@.len() as int, nout as int, nin as int),
        are_init_nodes(
            final(tape).nodes@,
            old(tape).nodes@.len() as int,
            final(tape).nodes@.len() as int,
            old(rng).0,
            std,
        ),
        final(rng).0 == gauss_state(old(rng).0, (nout * nin) as nat),
{
    let ghost start = tape.nodes@.len() as int;
    let ghost seed = rng.0;
    let mut m: Vec<Vec<Value>> = Vec::new();
    assert(0 * nin == 0) by (nonlinear_arith);
    for r in 0..nout
        invariant
            tape.wf(),
            start == old(tape).nodes@.len(),
            start + nout * nin <= max_nodes(),
            extends(old(tape).nodes@, tape.nodes@),
            tape.nodes@.len() == start + r * nin,
            is_matrix(rows_of(m@), start, r as int, nin as int),
            are_init_nodes(tape.nodes@, start, tape.nodes@.len() as int, seed, std),
            rng.0 == gauss_state(seed, (r * nin) as nat),
    {
        let ghost before = rows_of(m@);
        let mut row: Vec<Value> = Vec::new();
        proof {
            lemma_row_inside(r as int, nout as int, nin as int);
        }
        for c in 0..nin
            invariant
                tape.wf(),
                start == old(tape).nodes@.len(),
                0 <= r * nin,
                start + r * nin + nin <= max_nodes(),
                extends(old(tape).nodes@, tape.nodes@),
                tape.nodes@.len() == start + r * nin + c,
                row@.len() == c,
                forall|k: int| 0 <= k < c ==> (#[trigger] row@[k]).idx == start + r * nin + k,
                are_init_nodes(tape.nodes@, start, tape.nodes@.len() as int, seed, std),
                rng.0 == gauss_state(seed, (r * nin + c) as nat),
        {
            let ghost nodes = tape.nodes@;
            let zero: S = S::zero();
            let sigma: S = S::ratio(std.num, std.den);
            let ghost state = rng.0;
            let x: S = rng.gauss(zero, sigma);
            let v: Value = tape.value(x);
            proof {
                let later = tape.nodes@;
                assert forall|at: int| start <= at < later.len() implies is_init_node(
                    later,
                    at,
                    #[trigger] gauss_state(seed, (at - start) as nat),
                    std,
                ) by {
                    if at < nodes.len() {
                        let st = gauss_state(seed, (at - start) as nat);
                        assert(is_init_node(nodes, at, st, std));
                        let (z, g) = choose|z: S, g: S|
                            is_zero(z) && is_ratio(std.num, std.den, g) && #[trigger] is_gauss(
                                st,
                                z,
                                g,
                                nodes[at].data,
                            );
                        assert(later[at] == nodes[at]);
                        assert(is_gauss(st, z, g, later[at].data));
                    } else {
                        assert(at - start == r * nin + c);
                        assert(is_gauss(state, zero, sigma, later[at].data));
                    }
                }
            }
            row.push(v);
        }
        m.push(row);
        proof {
            let after = rows_of(m@);
            assert(after =~= before.push(row@));
            assert forall|i: int, c: int| 0 <= i < r + 1 && 0 <= c < nin implies (
            #[trigger] after[i][c]).idx == start + i * nin + c by {
                if i < r {
                    assert(after[i] == before[i]);
                    assert(before[i][c].idx == start + i * nin + c);
                }
            }
        }
    }
    m
}

impl LayerWeights {
    /// Whether the matrices stand one behind the other from `start` on.
    pub open spec fn stands(&self, start: int, c: int) -> bool {
        let square = c * c;
        &&& is_matrix(rows_of(self.attn_wq@), start, c, c)
        &&& is_matrix(rows_of(self.attn_wk@), start + square, c, c)
        &&& is_matrix(rows_of(self.attn_wv@), start + 2 * square, c, c)
        &&& is_matrix(rows_of(self.attn_wo@), start + 3 * square, c, c)
        &&& is_matrix(rows_of(self.mlp_fc1@), start + 4 * square, 4 * c, c)
        &&& is_matrix(rows_of(self.mlp_fc2@), start + 8 * square, c, 4 * c)
    }
}

impl StateDict {
    /// Whether the matrices stand on the tape from `base` on, in the order of the layout of
    /// a model of shape `cfg`.
    pub open spec fn stands(&self, base: int, cfg: Cfg, vocab: int) -> bool {
        let c = cfg.n_embd as int;
        &&& is_matrix(rows_of(self.wte@), base, vocab, c)
        &&& is_matrix(rows_of(self.wpe@), base + vocab * c, cfg.block_size as int, c)
        &&& is_matrix(
            rows_of(self.lm_head@),
            base + vocab * c + cfg.block_size * c,
            vocab,
            c,
        )
        &&& self.layers@.len() == cfg.n_layer
        &&& forall|i: int|
            0 <= i < cfg.n_layer ==> (#[trigger] self.layers@[i]).stands(
                base + layer_start(cfg, vocab, i),
                c,
            )
    }

    /// New parameters for a model of shape `cfg`, as the next nodes of the tape.
    pub fn init<S: Scalar>(tape: &mut Tape<S>, rng: &mut Rng, cfg: &Cfg, vocab: usize) -> (sd:
        StateDict)
        requires
            old(tape).wf(),
            old(tape).nodes@.len() + param_count(*cfg, vocab as int) <= max_nodes(),
            4 * cfg.n_embd <= usize::MAX,
        ensures
            final(tape).wf(),
            extends(old(tape).nodes@, final(tape).nodes@),
            final(tape).nodes@.len() == old(tape).nodes@.len() + param_count(
                *cfg,
                vocab as int,
            ),
            sd.stands(old(tape).nodes@.len() as int, *cfg, vocab as int),
            are_init_nodes(
                final(tape).nodes@,
                old(tape).nodes@.len() as int,
                final(tape).nodes@.len() as int,
                old(rng).0,
                cfg.init_std,
            ),
            final(rng).0 == gauss_state(old(rng).0, param_count(*cfg, vocab as int) as nat),
    {
        let c: usize = cfg.n_embd;
        let std: Ratio = cfg.init_std;
        let ghost base = tape.nodes@.len() as int;
        let ghost seed = rng.0;
        let ghost n0 = tape.nodes@;
        proof {
            lemma_sizes(*cfg, vocab as int);
            lemma_layers_fit(*cfg, vocab as int, 0);
        }
        let wte: Vec<Vec<Value>> = matrix(tape, rng, vocab, c, std);
        let ghost n1 = tape.nodes@;
        let ghost s1 = rng.0;
        let wpe: Vec<Vec<Value>> = matrix(tape, rng, cfg.block_size, c, std);
        let ghost n2 = tape.nodes@;
        let ghost s2 = rng.0;
        proof {
            lemma_init_append(n1, n2, base, seed, s1, std);
        }
        let lm_head: Vec<Vec<Value>> = matrix(tape, rng, vocab, c, std);
        proof {
            lemma_init_append(n2, tape.nodes@, base, seed, s2, std);
        }
        let mut layers: Vec<LayerWeights> = Vec::new();
        for i in 0..cfg.n_layer
            invariant
                tape.wf(),
                c == cfg.n_embd,
                std == cfg.init_std,
                4 * c <= usize::MAX,
                base == old(tape).nodes@.len(),
                base + param_count(*cfg, vocab as int) <= max_nodes(),
                extends(old(tape).nodes@, tape.nodes@),
                tape.nodes@.len() == base + layer_start(*cfg, vocab as int, i as int),
                0 <= layer_start(*cfg, vocab as int, i as int),
                layers@.len() == i,
                forall|k: int|
                    0 <= k < i ==> (#[trigger] layers@[k]).stands(
                        base + layer_start(*cfg, vocab as int, k),
                        c as int,
                    ),
                are_init_nodes(tape.nodes@, base, tape.nodes@.len() as int, seed, std),
                rng.0 == gauss_state(seed, layer_start(*cfg, vocab as int, i as int) as nat),
        {
            let ghost m0 = tape.nodes@;
            let ghost state = rng.0;
            proof {
                lemma_layers_fit(*cfg, vocab as int, i as int);
                lemma_layers_fit(*cfg, vocab as int, i + 1);
            }
            let layer: LayerWeights = init_layer(tape, rng, c, std);
            proof {
                assert(layer_len(*cfg) == 12 * (c * c));
                lemma_init_append(m0, tape.nodes@, base, seed, state, std);
            }
            layers.push(layer);
        }
        StateDict { wte, wpe, lm_head, layers }
    }
}

/// New parameters for one layer.
fn init_layer<S: Scalar>(tape: &mut Tape<S>, rng: &mut Rng, c: usize, std: Ratio) -> (layer:
    LayerWeights)
    requires
        old(tape).wf(),
        old(tape).nodes@.len() + 12 * (c * c) <= max_nodes(),
        4 * c <= usize::MAX,
    ensures
        final(tape).wf(),
        extends(old(tape).nodes@, final(tape).nodes@),
        final(tape).nodes@.len() == old(tape).nodes@.len() + 12 * (c * c),
        layer.stands(old(tape).nodes@.len() as int, c as int),
        are_init_nodes(
            final(tape).nodes@,
            old(tape).nodes@.len() as int,
            final(tape).nodes@.len() as int,
            old(rng).0,
            std,
        ),
        final(rng).0 == gauss_state(old(rng).0, (12 * (c * c)) as nat),
{
    let ghost base = tape.nodes@.len() as int;
    let ghost seed = rng.0;
    proof {
        assert(0 <= c * c && (4 * c) * c == 4 * (c * c) && c * (4 * c) == 4 * (c * c))
            by (nonlinear_arith)
            requires
                c >= 0,
        ;
    }
    let attn_wq: Vec<Vec<Value>> = matrix(tape, rng, c, c, std);
    let ghost (n1, s1) = (tape.nodes@, rng.0);
    let attn_wk: Vec<Vec<Value>> = matrix(tape, rng, c, c, std);
    let ghost (n2, s2) = (tape.nodes@, rng.0);
    proof {
        lemma_init_append(n1, n2, base, seed, s1, std);
    }
    let attn_wv: Vec<Vec<Value>> = matrix(tape, rng, c, c, std);
    let ghost (n3, s3) = (tape.nodes@, rng.0);
    proof {
        lemma_init_append(n2, n3, base, seed, s2, std);
    }
    let attn_wo: Vec<Vec<Value>> = matrix(tape, rng, c, c, std);
    let ghost (n4, s4) = (tape.nodes@, rng.0);
    proof {
        lemma_init_append(n3, n4, base, seed, s3, std);
    }
    let mlp_fc1: Vec<Vec<Value>> = matrix(tape, rng, 4 * c, c, std);
    let ghost (n5, s5) = (tape.nodes@, rng.0);
    proof {
        lemma_init_append(n4, n5, base, seed, s4, std);
    }
    let mlp_fc2: Vec<Vec<Value>> = matrix(tape, rng, c, 4 * c, std);
    proof {
        lemma_init_append(n5, tape.nodes@, base, seed, s5, std);
    }
    LayerWeights { attn_wq, attn_wk, attn_wv, attn_wo, mlp_fc1, mlp_fc2 }
}

/// More parameters behind those that are there.
proof fn lemma_init_append<S: Scalar>(
    nodes: Seq<Node<S>>,
    later: Seq<Node<S>>,
    base: int,
    seed: u64,
    state: u64,
    std: Ratio,
)
    requires
        0 <= base <= nodes.len(),
        extends(nodes, later),
        are_init_nodes(nodes, base, nodes.len() as int, seed, std),
        are_init_nodes(later, nodes.len() as int, later.len() as int, state, std),
        state == gauss_state(seed, (nodes.len() - base) as nat),
    ensures
        are_init_nodes(later, base, later.len() as int, seed, std),
        gauss_state(state, (later.len() - nodes.len()) as nat) == gauss_state(
            seed,
            (later.len() - base) as nat,
        ),
{
    lemma_gauss_state_adds(seed, (nodes.len() - base) as nat, (later.len() - nodes.len()) as nat);
    assert forall|at: int| base <= at < later.len() implies is_init_node(
        later,
        at,
        #[trigger] gauss_state(seed, (at - base) as nat),
        std,
    ) by {
        if at < nodes.len() {
            let st = gauss_state(seed, (at - base) as nat);
            assert(is_init_node(nodes, at, st, std));
            let (z, g) = choose|z: S, g: S|
                is_zero(z) && is_ratio(std.num, std.den, g) && #[trigger] is_gauss(
                    st,
                    z,
                    g,
                    nodes[at].data,
                );
            assert(later[at] == nodes[at]);
            assert(is_gauss(st, z, g, later[at].data));
        } else {
            let i = (at - nodes.len()) as nat;
            lemma_gauss_state_adds(seed, (nodes.len() - base) as nat, i);
            assert(is_init_node(later, at, gauss_state(state, i), std));
        }
    }
}

/// `r` is the dot product of `a` and `b`, divided by the root of `d`.
pub open spec fn is_score_node<S: Scalar>(
    nodes: Seq<Node<S>>,
    a: Seq<Value>,
    b: Seq<Value>,
    d: nat,
    r: Value,
) -> bool {
    exists|product: Value, size: S, root: S|
        #![trigger is_dot_node(nodes, a, b, product), is_sqrt(size, root)]
        is_dot_node(nodes, a, b, product) && is_num(d as u64, size) && is_sqrt(size, root)
            && is_div_const(nodes, product, root, r)
}

/// Number `col` of every row.
pub open spec fn column(rows: Seq<Seq<Value>>, col: int) -> Seq<Value> {
    Seq::new(rows.len(), |t: int| rows[t][col])
}

/// The part of a row that starts at `start` and has `d` numbers.
pub open spec fn part_of(row: Seq<Value>, start: int, d: int) -> Seq<Value> {
    row.subrange(start, start + d)
}

/// `out` is what the head that starts at `start` and has `d` numbers makes of the query `q`:
/// the values of all positions, mixed by the softmax of query times key over the root of `d`.
pub open spec fn is_head<S: Scalar>(
    nodes: Seq<Node<S>>,
    d: int,
    start: int,
    q: Seq<Value>,
    keys: Seq<Seq<Value>>,
    values: Seq<Seq<Value>>,
    out: Seq<Value>,
) -> bool {
    exists|scores: Seq<Value>, weights: Seq<Value>| #[trigger]
        is_head_by(nodes, d, start, q, keys, values, out, scores, weights)
}

/// [`is_head`], with the scores and the attention weights.
pub open spec fn is_head_by<S: Scalar>(
    nodes: Seq<Node<S>>,
    d: int,
    start: int,
    q: Seq<Value>,
    keys: Seq<Seq<Value>>,
    values: Seq<Seq<Value>>,
    out: Seq<Value>,
    scores: Seq<Value>,
    weights: Seq<Value>,
) -> bool {
    &&& scores.len() == keys.len()
    &&& forall|t: int|
        0 <= t < keys.len() ==> is_score_node(
            nodes,
            part_of(q, start, d),
            part_of(keys[t], start, d),
            d as nat,
            #[trigger] scores[t],
        )
    &&& is_softmax_nodes(nodes, scores, weights)
    &&& out.len() == d
    &&& forall|j: int|
        0 <= j < d ==> is_dot_node(nodes, weights, column(values, start + j), #[trigger] out[j])
}

/// `out` is what all heads make of the query `q`, side by side.
pub open spec fn is_attention<S: Scalar>(
    nodes: Seq<Node<S>>,
    n_head: int,
    d: int,
    q: Seq<Value>,
    keys: Seq<Seq<Value>>,
    values: Seq<Seq<Value>>,
    out: Seq<Value>,
) -> bool {
    &&& out.len() == n_head * d
    &&& forall|h: int|
        0 <= h < n_head ==> is_head(
            nodes,
            d,
            h * d,
            q,
            keys,
            values,
            #[trigger] part_of(out, h * d, d),
        )
}

/// The nodes of one head over `t` positions.
pub open spec fn head_cost(d: int, t: int) -> int {
    t * (2 * d) + (4 * t - 1) + d * (2 * t - 1)
}

/// A score stays one when the tape grows.
proof fn lemma_score_extends<S: Scalar>(
    nodes: Seq<Node<S>>,
    later: Seq<Node<S>>,
    a: Seq<Value>,
    b: Seq<Value>,
    d: nat,
    r: Value,
)
    requires
        extends(nodes, later),
        is_score_node(nodes, a, b, d, r),
    ensures
        is_score_node(later, a, b, d, r),
{
    let (product, size, root) = choose|product: Value, size: S, root: S|
        #![trigger is_dot_node(nodes, a, b, product), is_sqrt(size, root)]
        is_dot_node(nodes, a, b, product) && is_num(d as u64, size) && is_sqrt(size, root)
            && is_div_const(nodes, product, root, r);
    lemma_dot_extends(nodes, later, a, b, product);
    assert(is_div_const(later, product, root, r));
    assert(is_dot_node(later, a, b, product) && is_sqrt(size, root));
}

/// So does what a head computes,
proof fn lemma_head_extends<S: Scalar>(
    nodes: Seq<Node<S>>,
    later: Seq<Node<S>>,
    d: int,
    start: int,
    q: Seq<Value>,
    keys: Seq<Seq<Value>>,
    values: Seq<Seq<Value>>,
    out: Seq<Value>,
)
    requires
        extends(nodes, later),
        is_head(nodes, d, start, q, keys, values, out),
    ensures
        is_head(later, d, start, q, keys, values, out),
{
    let (scores, weights) = choose|scores: Seq<Value>, weights: Seq<Value>| #[trigger]
        is_head_by(nodes, d, start, q, keys, values, out, scores, weights);
    assert forall|t: int| 0 <= t < keys.len() implies is_score_node(
        later,
        part_of(q, start, d),
        part_of(keys[t], start, d),
        d as nat,
        #[trigger] scores[t],
    ) by {
        lemma_score_extends(
            nodes,
            later,
            part_of(q, start, d),
            part_of(keys[t], start, d),
            d as nat,
            scores[t],
        );
    }
    lemma_softmax_extends(nodes, later, scores, weights);
    assert forall|j: int| 0 <= j < d implies is_dot_node(
        later,
        weights,
        column(values, start + j),
        #[trigger] out[j],
    ) by {
        lemma_dot_extends(nodes, later, weights, column(values, start + j), out[j]);
    }
    assert(is_head_by(later, d, start, q, keys, values, out, scores, weights));
}

/// and what all of them compute.
proof fn lemma_attention_extends<S: Scalar>(
    nodes: Seq<Node<S>>,
    later: Seq<Node<S>>,
    n_head: int,
    d: int,
    q: Seq<Value>,
    keys: Seq<Seq<Value>>,
    values: Seq<Seq<Value>>,
    out: Seq<Value>,
)
    requires
        extends(nodes, later),
        is_attention(nodes, n_head, d, q, keys, values, out),
    ensures
        is_attention(later, n_head, d, q, keys, values, out),
{
    assert forall|h: int| 0 <= h < n_head implies is_head(
        later,
        d,
        h * d,
        q,
        keys,
        values,
        #[trigger] part_of(out, h * d, d),
    ) by {
        lemma_head_extends(nodes, later, d, h * d, q, keys, values, part_of(out, h * d, d));
    }
}

/// The handles of a part of a row.
fn take_part(row: &Vec<Value>, start: usize, d: usize) -> (part: Vec<Value>)
    requires
        start + d <= row@.len(),
    ensures
        part@ == part_of(row@, start as int, d as int),
{
    let len: usize = row.len();
    let mut part: Vec<Value> = Vec::new();
    for i in 0..d
        invariant
            len == row@.len(),
            start + d <= row@.len(),
            part@ == part_of(row@, start as int, i as int),
    {
        part.push(row[start + i]);
        assert(part@ =~= part_of(row@, start as int, i + 1));
    }
    part
}

/// The handles of one column.
fn take_column(rows: &Vec<Vec<Value>>, col: usize) -> (out: Vec<Value>)
    requires
        forall|t: int| 0 <= t < rows@.len() ==> col < (#[trigger] rows@[t])@.len(),
    ensures
        out@ == column(rows_of(rows@), col as int),
{
    let mut out: Vec<Value> = Vec::new();
    for t in 0..rows.len()
        invariant
            forall|i: int| 0 <= i < rows@.len() ==> col < (#[trigger] rows@[i])@.len(),
            out@.len() == t,
            forall|i: int| 0 <= i < t ==> #[trigger] out@[i] == rows@[i]@[col as int],
    {
        let row: &Vec<Value> = &rows[t];
        assert(col < rows@[t as int]@.len());
        out.push(row[col]);
    }
    assert(out@ =~= column(rows_of(rows@), col as int));
    out
}

/// What the head that starts at `start` makes of the query `q`.
fn head<S: Scalar>(
    tape: &mut Tape<S>,
    q: &Vec<Value>,
    keys: &Vec<Vec<Value>>,
    values: &Vec<Vec<Value>>,
    start: usize,
    d: usize,
) -> (out: Vec<Value>)
    requires
        old(tape).wf(),
        d > 0,
        keys@.len() > 0,
        keys@.len() == values@.len(),
        start + d <= q@.len(),
        all_on(old(tape).nodes@, q@),
        matrix_on(old(tape).nodes@, rows_of(keys@), q@.len()),
        matrix_on(old(tape).nodes@, rows_of(values@), q@.len()),
        old(tape).nodes@.len() + head_cost(d as int, keys@.len() as int) <= max_nodes(),
    ensures
        final(tape).wf(),
        extends(old(tape).nodes@, final(tape).nodes@),
        final(tape).nodes@.len() == old(tape).nodes@.len() + head_cost(
            d as int,
            keys@.len() as int,
        ),
        is_head(
            final(tape).nodes@,
            d as int,
            start as int,
            q@,
            rows_of(keys@),
            rows_of(values@),
            out@,
        ),
        all_on(final(tape).nodes@, out@),
        follows(
            old(tape).nodes@,
            final(tape).nodes@,
            head_ops(
                old(tape).nodes@.len() as int,
                d as int,
                start as int,
                q@,
                rows_of(keys@),
                rows_of(values@),
            ),
        ),
        out@ == head_at(old(tape).nodes@.len() as int, d as int, keys@.len()),
{
    let ghost from = tape.nodes@.len() as int;
    proof {
        lemma_follows_none(tape.nodes@);
    }
    let t_len: usize = keys.len();
    let q_len: usize = q.len();
    let ghost n0 = tape.nodes@;
    let ghost (ks, vs) = (rows_of(keys@), rows_of(values@));
    let q_h: Vec<Value> = take_part(q, start, d);
    let ghost (ti, di) = (t_len as int, d as int);
    proof {
        assert(all_on(n0, q_h@)) by {
            assert forall|i: int| 0 <= i < q_h@.len() implies on(n0, #[trigger] q_h@[i]) by {
                assert(on(n0, q@[start + i]));
            }
        }
        assert(0 <= ti * (2 * di) && 0 <= di * (2 * ti - 1) && 0 * (2 * di) == 0 && 0 * (2 * ti
            - 1) == 0) by (nonlinear_arith)
            requires
                ti >= 1,
                di >= 1,
        ;
    }
    let mut scores: Vec<Value> = Vec::new();
    for t in 0..t_len
        invariant
            tape.wf(),
            d > 0,
            t_len == keys@.len() == ks.len(),
            ks == rows_of(keys@),
            start + d <= q@.len() == q_len,
            q_h@ == part_of(q@, start as int, d as int),
            all_on(n0, q_h@),
            matrix_on(n0, ks, q@.len()),
            di == d,
            extends(n0, tape.nodes@),
            tape.nodes@.len() == n0.len() + t * (2 * di),
            n0.len() + t_len * (2 * di) <= max_nodes(),
            scores@.len() == t,
            all_on(tape.nodes@, scores@),
            forall|i: int|
                0 <= i < t ==> is_score_node(
                    tape.nodes@,
                    q_h@,
                    part_of(ks[i], start as int, di),
                    d as nat,
                    #[trigger] scores@[i],
                ),
            from == n0.len(),
            follows(n0, tape.nodes@, score_ops(from, di, start as int, q@, ks, t as int)),
            scores@ == scores_at(from, di, t as nat),
    {
        let ghost before = tape.nodes@;
        proof {
            lemma_row_inside(t as int, t_len as int, 2 * di);
            assert(ks[t as int] == keys@[t as int]@);
            assert(ks[t as int].len() == q@.len() && all_on(n0, ks[t as int]));
        }
        let k_h: Vec<Value> = take_part(&keys[t], start, d);
        proof {
            assert(all_on(n0, k_h@)) by {
                assert forall|i: int| 0 <= i < k_h@.len() implies on(n0, #[trigger] k_h@[i]) by {
                    assert(on(n0, ks[t as int][start + i]));
                }
            }
            lemma_on_extends(n0, before, q_h@);
            lemma_on_extends(n0, before, k_h@);
        }
        let product: Value = dot(tape, &q_h, &k_h);
        let ghost mid = tape.nodes@;
        let size: S = S::from_u64(d as u64);
        let root: S = size.sqrt();
        let score: Value = product.div_const(tape, root);
        proof {
            lemma_dot_extends(mid, tape.nodes@, q_h@, k_h@, product);
            assert(is_dot_node(tape.nodes@, q_h@, k_h@, product) && is_sqrt(size, root));
            assert(is_score_node(tape.nodes@, q_h@, k_h@, d as nat, score));
            lemma_on_extends(before, tape.nodes@, scores@);
            let own = dot_ops(from + t * (2 * di), q_h@, k_h@, di);
            assert(is_root(d as nat, root));
            assert(is_div_const(tape.nodes@, product, root, score));
            assert(is_div_root(tape.nodes@, product, d as nat, score));
            lemma_follows_push(
                before,
                mid,
                tape.nodes@,
                own,
                Op::DivRoot(product, d as nat),
                score,
            );
            lemma_follows_append(
                n0,
                before,
                tape.nodes@,
                score_ops(from, di, start as int, q@, ks, t as int),
                own.push(Op::DivRoot(product, d as nat)),
            );
            assert(scores_at(from, di, t as nat + 1) =~= scores_at(from, di, t as nat).push(score));
            assert forall|i: int| 0 <= i < t implies is_score_node(
                tape.nodes@,
                q_h@,
                part_of(ks[i], start as int, di),
                d as nat,
                #[trigger] scores@[i],
            ) by {
                lemma_score_extends(
                    before,
                    tape.nodes@,
                    q_h@,
                    part_of(ks[i], start as int, di),
                    d as nat,
                    scores@[i],
                );
            }
        }
        scores.push(score);
    }
    let ghost n1 = tape.nodes@;
    let weights: Vec<Value> = softmax(tape, &scores);
    let ghost n2 = tape.nodes@;
    let ghost scored = score_ops(from, di, start as int, q@, ks, ti);
    proof {
        lemma_follows_append(n0, n1, n2, scored, softmax_ops(n1.len() as int, scores@));
        lemma_follows_none(n2);
    }
    let mut out: Vec<Value> = Vec::new();
    for j in 0..d
        invariant
            tape.wf(),
            t_len == values@.len() == vs.len() == weights@.len(),
            t_len > 0,
            vs == rows_of(values@),
            start + d <= q@.len() == q_len,
            matrix_on(n0, vs, q@.len()),
            all_on(n2, weights@),
            extends(n0, n2),
            extends(n2, tape.nodes@),
            ti == t_len,
            tape.nodes@.len() == n2.len() + j * (2 * ti - 1),
            n2.len() + d * (2 * ti - 1) <= max_nodes(),
            out@.len() == j,
            all_on(tape.nodes@, out@),
            forall|i: int|
                0 <= i < j ==> is_dot_node(
                    tape.nodes@,
                    weights@,
                    column(vs, start + i),
                    #[trigger] out@[i],
                ),
            follows(
                n2,
                tape.nodes@,
                mix_ops(n2.len() as int, weights@, vs, start as int, j as int),
            ),
            out@ == linear_at(n2.len() as int, ti, j as nat),
    {
        let ghost before = tape.nodes@;
        proof {
            lemma_row_inside(j as int, d as int, 2 * ti - 1);
            assert forall|t: int| 0 <= t < values@.len() implies start + j < (
            #[trigger] values@[t])@.len() by {
                assert(vs[t].len() == q@.len());
            }
        }
        let col: Vec<Value> = take_column(values, start + j);
        proof {
            assert(all_on(n0, col@)) by {
                assert forall|t: int| 0 <= t < col@.len() implies on(n0, #[trigger] col@[t]) by {
                    assert(all_on(n0, vs[t]));
                    assert(on(n0, vs[t][start + j]));
                }
            }
            lemma_on_extends(n0, n2, col@);
            lemma_on_extends(n2, before, col@);
            lemma_on_extends(n2, before, weights@);
        }
        let y: Value = dot(tape, &weights, &col);
        proof {
            lemma_on_extends(before, tape.nodes@, out@);
            assert forall|i: int| 0 <= i < j implies is_dot_node(
                tape.nodes@,
                weights@,
                column(vs, start + i),
                #[trigger] out@[i],
            ) by {
                lemma_dot_extends(before, tape.nodes@, weights@, column(vs, start + i), out@[i]);
            }
            lemma_follows_append(
                n2,
                before,
                tape.nodes@,
                mix_ops(n2.len() as int, weights@, vs, start as int, j as int),
                dot_ops(before.len() as int, weights@, col@, ti),
            );
            assert(linear_at(n2.len() as int, ti, j as nat + 1) =~= linear_at(
                n2.len() as int,
                ti,
                j as nat,
            ).push(y));
        }
        out.push(y);
    }
    proof {
        let end = tape.nodes@;
        assert forall|i: int| 0 <= i < t_len implies is_score_node(
            end,
            q_h@,
            part_of(ks[i], start as int, di),
            d as nat,
            #[trigger] scores@[i],
        ) by {
            lemma_score_extends(
                n1,
                end,
                q_h@,
                part_of(ks[i], start as int, di),
                d as nat,
                scores@[i],
            );
        }
        lemma_softmax_extends(n2, end, scores@, weights@);
        assert(is_head_by(end, di, start as int, q@, ks, vs, out@, scores@, weights@));
        lemma_follows_append(
            n0,
            n2,
            end,
            scored + softmax_ops(n1.len() as int, scores@),
            mix_ops(n2.len() as int, weights@, vs, start as int, di),
        );
    }
    out
}

/// What all heads make of the query `q`.
fn attention<S: Scalar>(
    tape: &mut Tape<S>,
    q: &Vec<Value>,
    keys: &Vec<Vec<Value>>,
    values: &Vec<Vec<Value>>,
    n_head: usize,
    d: usize,
) -> (out: Vec<Value>)
    requires
        old(tape).wf(),
        d > 0,
        keys@.len() > 0,
        keys@.len() == values@.len(),
        q@.len() == n_head * d,
        all_on(old(tape).nodes@, q@),
        matrix_on(old(tape).nodes@, rows_of(keys@), q@.len()),
        matrix_on(old(tape).nodes@, rows_of(values@), q@.len()),
        old(tape).nodes@.len() + n_head * head_cost(d as int, keys@.len() as int) <= max_nodes(),
    ensures
        final(tape).wf(),
        extends(old(tape).nodes@, final(tape).nodes@),
        final(tape).nodes@.len() == old(tape).nodes@.len() + n_head * head_cost(
            d as int,
            keys@.len() as int,
        ),
        is_attention(
            final(tape).nodes@,
            n_head as int,
            d as int,
            q@,
            rows_of(keys@),
            rows_of(values@),
            out@,
        ),
        all_on(final(tape).nodes@, out@),
        follows(
            old(tape).nodes@,
            final(tape).nodes@,
            attention_ops(
                old(tape).nodes@.len() as int,
                d as int,
                q@,
                rows_of(keys@),
                rows_of(values@),
                n_head as int,
            ),
        ),
        out@ == attention_at(
            old(tape).nodes@.len() as int,
            d as int,
            keys@.len(),
            n_head as int,
        ),
{
    let ghost from = tape.nodes@.len() as int;
    proof {
        lemma_follows_none(tape.nodes@);
    }
    let q_len: usize = q.len();
    let ghost n0 = tape.nodes@;
    let ghost (ks, vs) = (rows_of(keys@), rows_of(values@));
    let ghost cost = head_cost(d as int, keys@.len() as int);
    let ghost di = d as int;
    proof {
        lemma_head_cost(d as int, keys@.len() as int);
        assert(0 * cost == 0 && 0 * d == 0) by (nonlinear_arith);
    }
    let mut out: Vec<Value> = Vec::new();
    for h in 0..n_head
        invariant
            tape.wf(),
            d > 0,
            di == d,
            keys@.len() > 0,
            keys@.len() == values@.len(),
            q@.len() == n_head * d == q_len,
            ks == rows_of(keys@),
            vs == rows_of(values@),
            all_on(n0, q@),
            matrix_on(n0, ks, q@.len()),
            matrix_on(n0, vs, q@.len()),
            cost == head_cost(d as int, keys@.len() as int),
            cost >= 0,
            n0.len() + n_head * cost <= max_nodes(),
            extends(n0, tape.nodes@),
            tape.nodes@.len() == n0.len() + h * cost,
            out@.len() == h * d,
            all_on(tape.nodes@, out@),
            forall|k: int|
                0 <= k < h ==> is_head(
                    tape.nodes@,
                    di,
                    k * di,
                    q@,
                    ks,
                    vs,
                    #[trigger] part_of(out@, k * di, di),
                ),
            from == n0.len(),
            follows(n0, tape.nodes@, attention_ops(from, di, q@, ks, vs, h as int)),
            out@ == attention_at(from, di, keys@.len(), h as int),
    {
        let ghost before = tape.nodes@;
        let ghost old_out = out@;
        proof {
            lemma_row_inside(h as int, n_head as int, cost);
            lemma_row_inside(h as int, n_head as int, di);
            lemma_on_extends(n0, before, q@);
            lemma_matrix_extends(n0, before, ks, q@.len());
            lemma_matrix_extends(n0, before, vs, q@.len());
        }
        let mut part: Vec<Value> = head(tape, q, keys, values, h * d, d);
        let ghost own = part@;
        proof {
            lemma_on_extends(before, tape.nodes@, old_out);
            lemma_follows_append(
                n0,
                before,
                tape.nodes@,
                attention_ops(from, di, q@, ks, vs, h as int),
                head_ops(from + h * cost, di, h * di, q@, ks, vs),
            );
        }
        out.append(&mut part);
        proof {
            assert(out@ =~= old_out + own);
            assert forall|k: int| 0 <= k < h + 1 implies is_head(
                tape.nodes@,
                di,
                k * di,
                q@,
                ks,
                vs,
                #[trigger] part_of(out@, k * di, di),
            ) by {
                if k < h {
                    lemma_row_inside(k, h as int, di);
                    assert(part_of(out@, k * di, di) =~= part_of(old_out, k * di, di));
                    lemma_head_extends(
                        before,
                        tape.nodes@,
                        di,
                        k * di,
                        q@,
                        ks,
                        vs,
                        part_of(old_out, k * di, di),
                    );
                } else {
                    assert(part_of(out@, k * di, di) =~= own);
                }
            }
            assert forall|i: int| 0 <= i < out@.len() implies on(tape.nodes@, #[trigger] out@[i]) by {
                if i < old_out.len() {
                    assert(on(tape.nodes@, old_out[i]));
                } else {
                    assert(on(tape.nodes@, own[i - old_out.len()]));
                }
            }
        }
    }
    out
}

/// A head costs something.
proof fn lemma_head_cost(d: int, t: int)
    requires
        d > 0,
        t > 0,
    ensures
        head_cost(d, t) >= 0,
{
    assert(head_cost(d, t) >= 0) by (nonlinear_arith)
        requires
            d > 0,
            t > 0,
            head_cost(d, t) == t * (2 * d) + (4 * t - 1) + d * (2 * t - 1),
    ;
}

/// Matrices of handles stay such when the tape grows.
pub proof fn lemma_matrix_extends<S: Scalar>(
    nodes: Seq<Node<S>>,
    later: Seq<Node<S>>,
    w: Seq<Seq<Value>>,
    nin: nat,
)
    requires
        extends(nodes, later),
        matrix_on(nodes, w, nin),
    ensures
        matrix_on(later, w, nin),
{
    assert forall|j: int| 0 <= j < w.len() implies (#[trigger] w[j]).len() == nin && all_on(
        later,
        w[j],
    ) by {
        lemma_on_extends(nodes, later, w[j]);
    }
}

/// The numbers that one token goes through in one layer.
pub struct LayerTrace {
    pub xin: Seq<Value>,
    pub xn: Seq<Value>,
    pub q: Seq<Value>,
    pub k: Seq<Value>,
    pub v: Seq<Value>,
    pub x_attn: Seq<Value>,
    pub proj: Seq<Value>,
    pub x_mid: Seq<Value>,
    pub xn2: Seq<Value>,
    pub hpre: Seq<Value>,
    pub h: Seq<Value>,
    pub mlp: Seq<Value>,
    pub x_out: Seq<Value>,
}

/// The equations of a layer, for the token that comes behind those whose keys and values
/// are `keys` and `values`.
#[verifier::opaque]
pub open spec fn is_layer_trace<S: Scalar>(
    nodes: Seq<Node<S>>,
    cfg: Cfg,
    w: LayerWeights,
    keys: Seq<Seq<Value>>,
    values: Seq<Seq<Value>>,
    t: LayerTrace,
) -> bool {
    &&& is_rmsnorm_nodes(nodes, t.xin, t.xn)
    &&& is_linear_nodes(nodes, t.xn, rows_of(w.attn_wq@), t.q)
    &&& is_linear_nodes(nodes, t.xn, rows_of(w.attn_wk@), t.k)
    &&& is_linear_nodes(nodes, t.xn, rows_of(w.attn_wv@), t.v)
    &&& is_attention(
        nodes,
        cfg.n_head as int,
        cfg.n_embd as int / cfg.n_head as int,
        t.q,
        keys.push(t.k),
        values.push(t.v),
        t.x_attn,
    )
    &&& is_linear_nodes(nodes, t.x_attn, rows_of(w.attn_wo@), t.proj)
    &&& is_add_nodes(nodes, t.proj, t.xin, t.x_mid)
    &&& is_rmsnorm_nodes(nodes, t.x_mid, t.xn2)
    &&& is_linear_nodes(nodes, t.xn2, rows_of(w.mlp_fc1@), t.hpre)
    &&& is_relu_nodes(nodes, t.hpre, t.h)
    &&& is_linear_nodes(nodes, t.h, rows_of(w.mlp_fc2@), t.mlp)
    &&& is_add_nodes(nodes, t.mlp, t.x_mid, t.x_out)
}

/// What a layer computes stays that when the tape grows.
pub proof fn lemma_layer_extends<S: Scalar>(
    nodes: Seq<Node<S>>,
    later: Seq<Node<S>>,
    cfg: Cfg,
    w: LayerWeights,
    keys: Seq<Seq<Value>>,
    values: Seq<Seq<Value>>,
    t: LayerTrace,
)
    requires
        extends(nodes, later),
        is_layer_trace(nodes, cfg, w, keys, values, t),
    ensures
        is_layer_trace(later, cfg, w, keys, values, t),
{
    reveal(is_layer_trace);
    lemma_rmsnorm_extends(nodes, later, t.xin, t.xn);
    lemma_linear_extends(nodes, later, t.xn, rows_of(w.attn_wq@), t.q);
    lemma_linear_extends(nodes, later, t.xn, rows_of(w.attn_wk@), t.k);
    lemma_linear_extends(nodes, later, t.xn, rows_of(w.attn_wv@), t.v);
    lemma_attention_extends(
        nodes,
        later,
        cfg.n_head as int,
        cfg.n_embd as int / cfg.n_head as int,
        t.q,
        keys.push(t.k),
        values.push(t.v),
        t.x_attn,
    );
    lemma_linear_extends(nodes, later, t.x_attn, rows_of(w.attn_wo@), t.proj);
    lemma_add_extends(nodes, later, t.proj, t.xin, t.x_mid);
    lemma_rmsnorm_extends(nodes, later, t.x_mid, t.xn2);
    lemma_linear_extends(nodes, later, t.xn2, rows_of(w.mlp_fc1@), t.hpre);
    assert forall|i: int| 0 <= i < t.hpre.len() implies is_relu_node(
        later,
        t.hpre[i],
        #[trigger] t.h[i],
    ) by {
        lemma_relu_extends(nodes, later, t.hpre[i], t.h[i]);
    }
    lemma_linear_extends(nodes, later, t.h, rows_of(w.mlp_fc2@), t.mlp);
    lemma_add_extends(nodes, later, t.mlp, t.x_mid, t.x_out);
}

/// Sums stay sums when the tape grows.
pub proof fn lemma_add_extends<S: Scalar>(
    nodes: Seq<Node<S>>,
    later: Seq<Node<S>>,
    a: Seq<Value>,
    b: Seq<Value>,
    ss: Seq<Value>,
)
    requires
        extends(nodes, later),
        is_add_nodes(nodes, a, b, ss),
    ensures
        is_add_nodes(later, a, b, ss),
{
    assert forall|i: int| 0 <= i < a.len() implies is_add_node(
        later,
        a[i],
        b[i],
        #[trigger] ss[i],
    ) by {
        assert(is_add_node(nodes, a[i], b[i], ss[i]));
    }
}

/// The nodes of one token in one layer, the `t`-th of its document.
pub open spec fn layer_cost(cfg: Cfg, t: int) -> int {
    let c = cfg.n_embd as int;
    2 * (3 * c + 2) + 4 * linear_cost(c, c) + cfg.n_head * head_cost(
        c / cfg.n_head as int,
        t,
    ) + 6 * c + linear_cost(c, 4 * c) + linear_cost(4 * c, c)
}

/// Whether the matrices of a layer are handles of nodes.
#[verifier::opaque]
pub open spec fn layer_on<S>(nodes: Seq<Node<S>>, w: LayerWeights, c: nat) -> bool {
    &&& matrix_on(nodes, rows_of(w.attn_wq@), c)
    &&& matrix_on(nodes, rows_of(w.attn_wk@), c)
    &&& matrix_on(nodes, rows_of(w.attn_wv@), c)
    &&& matrix_on(nodes, rows_of(w.attn_wo@), c)
    &&& matrix_on(nodes, rows_of(w.mlp_fc1@), c)
    &&& matrix_on(nodes, rows_of(w.mlp_fc2@), (4 * c) as nat)
    &&& w.attn_wq@.len() == c
    &&& w.attn_wk@.len() == c
    &&& w.attn_wv@.len() == c
    &&& w.attn_wo@.len() == c
    &&& w.mlp_fc1@.len() == 4 * c
    &&& w.mlp_fc2@.len() == c
}

/// No part of a layer has a negative cost.
pub proof fn lemma_costs(cfg: Cfg, t: int)
    requires
        cfg.has_heads(),
        t > 0,
    ensures
        0 <= linear_cost(cfg.n_embd as int, cfg.n_embd as int),
        0 <= linear_cost(cfg.n_embd as int, 4 * cfg.n_embd),
        0 <= linear_cost(4 * cfg.n_embd, cfg.n_embd as int),
        0 <= cfg.n_head * head_cost(cfg.n_embd as int / cfg.n_head as int, t),
        cfg.n_embd as int / cfg.n_head as int > 0,
        cfg.n_head * (cfg.n_embd as int / cfg.n_head as int) == cfg.n_embd,
{
    let (c, h) = (cfg.n_embd as int, cfg.n_head as int);
    let d = c / h;
    crate::index::lemma_rows_cover(c, h);
    vstd::arithmetic::mul::lemma_mul_is_commutative(d, h);
    assert(d > 0) by (nonlinear_arith)
        requires
            d * h == c,
            c > 0,
            h > 0,
    ;
    lemma_head_cost(d, t);
    let cost = head_cost(d, t);
    assert(0 <= c * (2 * c - 1) && 0 <= (4 * c) * (2 * c - 1) && 0 <= c * (2 * (4 * c) - 1) && 0
        <= h * cost) by (nonlinear_arith)
        requires
            c > 0,
            h > 0,
            cost >= 0,
    ;
}

/// Takes one token through one layer. Its keys and values are appended to those of the
/// tokens before it.
#[verifier::rlimit(100)]
#[verifier::spinoff_prover]
pub fn layer<S: Scalar>(
    tape: &mut Tape<S>,
    cfg: &Cfg,
    w: &LayerWeights,
    x: &Vec<Value>,
    keys: &mut Vec<Vec<Value>>,
    values: &mut Vec<Vec<Value>>,
) -> (x_out: Vec<Value>)
    requires
        old(tape).wf(),
        cfg.has_heads(),
        x@.len() == cfg.n_embd,
        all_on(old(tape).nodes@, x@),
        layer_on(old(tape).nodes@, *w, cfg.n_embd as nat),
        old(keys)@.len() == old(values)@.len(),
        matrix_on(old(tape).nodes@, rows_of(old(keys)@), cfg.n_embd as nat),
        matrix_on(old(tape).nodes@, rows_of(old(values)@), cfg.n_embd as nat),
        old(tape).nodes@.len() + layer_cost(*cfg, old(keys)@.len() as int + 1) <= max_nodes(),
    ensures
        final(tape).wf(),
        extends(old(tape).nodes@, final(tape).nodes@),
        final(tape).nodes@.len() == old(tape).nodes@.len() + layer_cost(
            *cfg,
            old(keys)@.len() as int + 1,
        ),
        final(keys)@.len() == old(keys)@.len() + 1,
        final(values)@.len() == old(values)@.len() + 1,
        matrix_on(final(tape).nodes@, rows_of(final(keys)@), cfg.n_embd as nat),
        matrix_on(final(tape).nodes@, rows_of(final(values)@), cfg.n_embd as nat),
        x_out@.len() == cfg.n_embd,
        all_on(final(tape).nodes@, x_out@),
        exists|t: LayerTrace| #[trigger]
            is_layer_trace(
                final(tape).nodes@,
                *cfg,
                *w,
                rows_of(old(keys)@),
                rows_of(old(values)@),
                t,
            ) && t.xin == x@ && t.x_out == x_out@ && rows_of(final(keys)@) == rows_of(
                old(keys)@,
            ).push(t.k) && rows_of(final(values)@) == rows_of(old(values)@).push(t.v),
        follows(
            old(tape).nodes@,
            final(tape).nodes@,
            layer_ops(
                old(tape).nodes@.len() as int,
                *cfg,
                *w,
                x@,
                rows_of(old(keys)@),
                rows_of(old(values)@),
            ),
        ),
        x_out@ == layer_at(
            old(tape).nodes@.len() as int,
            *cfg,
            old(keys)@.len() + 1,
            x@,
        ).x_out,
        rows_of(final(keys)@) == rows_of(old(keys)@).push(
            layer_at(old(tape).nodes@.len() as int, *cfg, old(keys)@.len() + 1, x@).k,
        ),
        rows_of(final(values)@) == rows_of(old(values)@).push(
            layer_at(old(tape).nodes@.len() as int, *cfg, old(keys)@.len() + 1, x@).v,
        ),
{
    let ghost c = cfg.n_embd as nat;
    let ghost n0 = tape.nodes@;
    let ghost (ks, vs) = (rows_of(keys@), rows_of(values@));
    let ghost t = keys@.len() + 1;
    let d: usize = cfg.head_dim();
    proof {
        lemma_costs(*cfg, t as int);
        reveal(layer_on);
    }
    let xn: Vec<Value> = rmsnorm(tape, x);
    let ghost n1 = tape.nodes@;
    proof {
        lemma_layer_on_extends(n0, n1, *w, c);
    }
    let q: Vec<Value> = linear(tape, &xn, &w.attn_wq);
    let ghost n2 = tape.nodes@;
    proof {
        lemma_on_extends(n1, n2, xn@);
        lemma_layer_on_extends(n1, n2, *w, c);
    }
    let k: Vec<Value> = linear(tape, &xn, &w.attn_wk);
    let ghost n3 = tape.nodes@;
    proof {
        lemma_on_extends(n2, n3, xn@);
        lemma_layer_on_extends(n2, n3, *w, c);
    }
    let v: Vec<Value> = linear(tape, &xn, &w.attn_wv);
    let ghost n4 = tape.nodes@;
    let ghost (kt, vt) = (k@, v@);
    keys.push(k);
    values.push(v);
    proof {
        assert(rows_of(keys@) =~= ks.push(kt));
        assert(rows_of(values@) =~= vs.push(vt));
        lemma_on_extends(n2, n4, q@);
        lemma_on_extends(n3, n4, kt);
        lemma_matrix_extends(n0, n4, ks, c);
        lemma_matrix_extends(n0, n4, vs, c);
        lemma_matrix_push(n4, ks, kt, c);
        lemma_matrix_push(n4, vs, vt, c);
    }
    let x_attn: Vec<Value> = attention(tape, &q, keys, values, cfg.n_head, d);
    let ghost n5 = tape.nodes@;
    proof {
        lemma_layer_on_extends(n3, n5, *w, c);
    }
    let proj: Vec<Value> = linear(tape, &x_attn, &w.attn_wo);
    let ghost n6 = tape.nodes@;
    proof {
        lemma_on_extends(n0, n6, x@);
    }
    let x_mid: Vec<Value> = add_all(tape, &proj, x);
    let ghost n7 = tape.nodes@;
    let xn2: Vec<Value> = rmsnorm(tape, &x_mid);
    let ghost n8 = tape.nodes@;
    proof {
        lemma_layer_on_extends(n5, n8, *w, c);
    }
    let hpre: Vec<Value> = linear(tape, &xn2, &w.mlp_fc1);
    let ghost n9 = tape.nodes@;
    let h: Vec<Value> = relu_all(tape, &hpre);
    let ghost n10 = tape.nodes@;
    proof {
        lemma_layer_on_extends(n8, n10, *w, c);
    }
    let mlp: Vec<Value> = linear(tape, &h, &w.mlp_fc2);
    let ghost n11 = tape.nodes@;
    proof {
        lemma_on_extends(n7, n11, x_mid@);
    }
    let x_out: Vec<Value> = add_all(tape, &mlp, &x_mid);
    proof {
        let end = tape.nodes@;
        lemma_matrix_extends(n4, end, rows_of(keys@), c);
        lemma_matrix_extends(n4, end, rows_of(values@), c);
        lemma_rmsnorm_extends(n1, end, x@, xn@);
        lemma_linear_extends(n2, end, xn@, rows_of(w.attn_wq@), q@);
        lemma_linear_extends(n3, end, xn@, rows_of(w.attn_wk@), kt);
        lemma_linear_extends(n4, end, xn@, rows_of(w.attn_wv@), vt);
        lemma_attention_extends(
            n5,
            end,
            cfg.n_head as int,
            d as int,
            q@,
            ks.push(kt),
            vs.push(vt),
            x_attn@,
        );
        lemma_linear_extends(n6, end, x_attn@, rows_of(w.attn_wo@), proj@);
        lemma_add_extends(n7, end, proj@, x@, x_mid@);
        lemma_rmsnorm_extends(n8, end, x_mid@, xn2@);
        lemma_linear_extends(n9, end, xn2@, rows_of(w.mlp_fc1@), hpre@);
        assert forall|i: int| 0 <= i < hpre@.len() implies is_relu_node(
            end,
            hpre@[i],
            #[trigger] h@[i],
        ) by {
            lemma_relu_extends(n10, end, hpre@[i], h@[i]);
        }
        lemma_linear_extends(n11, end, h@, rows_of(w.mlp_fc2@), mlp@);
        let trace = LayerTrace {
            xin: x@,
            xn: xn@,
            q: q@,
            k: kt,
            v: vt,
            x_attn: x_attn@,
            proj: proj@,
            x_mid: x_mid@,
            xn2: xn2@,
            hpre: hpre@,
            h: h@,
            mlp: mlp@,
            x_out: x_out@,
        };
        assert(is_layer_trace(end, *cfg, *w, ks, vs, trace)) by {
            reveal(is_layer_trace);
        }
        lemma_layer_order(
            n0,
            n1,
            n2,
            n3,
            n4,
            n5,
            n6,
            n7,
            n8,
            n9,
            n10,
            n11,
            end,
            *cfg,
            *w,
            ks,
            vs,
            trace,
        );
    }
    x_out
}

/// The operations of a layer, one group behind the other.
proof fn lemma_layer_order<S: Scalar>(
    n0: Seq<Node<S>>,
    n1: Seq<Node<S>>,
    n2: Seq<Node<S>>,
    n3: Seq<Node<S>>,
    n4: Seq<Node<S>>,
    n5: Seq<Node<S>>,
    n6: Seq<Node<S>>,
    n7: Seq<Node<S>>,
    n8: Seq<Node<S>>,
    n9: Seq<Node<S>>,
    n10: Seq<Node<S>>,
    n11: Seq<Node<S>>,
    end: Seq<Node<S>>,
    cfg: Cfg,
    w: LayerWeights,
    keys: Seq<Seq<Value>>,
    values: Seq<Seq<Value>>,
    t: LayerTrace,
)
    requires
        n1.len() == n0.len() + 3 * cfg.n_embd + 2,
        n2.len() == n1.len() + linear_cost(cfg.n_embd as int, cfg.n_embd as int),
        n3.len() == n2.len() + linear_cost(cfg.n_embd as int, cfg.n_embd as int),
        n4.len() == n3.len() + linear_cost(cfg.n_embd as int, cfg.n_embd as int),
        n5.len() == n4.len() + cfg.n_head * head_cost(
            cfg.n_embd as int / cfg.n_head as int,
            keys.len() as int + 1,
        ),
        n6.len() == n5.len() + linear_cost(cfg.n_embd as int, cfg.n_embd as int),
        n7.len() == n6.len() + cfg.n_embd,
        n8.len() == n7.len() + 3 * cfg.n_embd + 2,
        n9.len() == n8.len() + linear_cost(cfg.n_embd as int, 4 * cfg.n_embd),
        n10.len() == n9.len() + 4 * cfg.n_embd,
        n11.len() == n10.len() + linear_cost(4 * cfg.n_embd, cfg.n_embd as int),
        follows(n0, n1, rmsnorm_ops(n0.len() as int, t.xin)),
        t.xn == rmsnorm_at(n0.len() as int, cfg.n_embd as nat),
        follows(
            n1,
            n2,
            linear_ops(n1.len() as int, t.xn, rows_of(w.attn_wq@), cfg.n_embd as int),
        ),
        t.q == linear_at(n1.len() as int, cfg.n_embd as int, cfg.n_embd as nat),
        follows(
            n2,
            n3,
            linear_ops(n2.len() as int, t.xn, rows_of(w.attn_wk@), cfg.n_embd as int),
        ),
        t.k == linear_at(n2.len() as int, cfg.n_embd as int, cfg.n_embd as nat),
        follows(
            n3,
            n4,
            linear_ops(n3.len() as int, t.xn, rows_of(w.attn_wv@), cfg.n_embd as int),
        ),
        t.v == linear_at(n3.len() as int, cfg.n_embd as int, cfg.n_embd as nat),
        follows(
            n4,
            n5,
            attention_ops(
                n4.len() as int,
                cfg.n_embd as int / cfg.n_head as int,
                t.q,
                keys.push(t.k),
                values.push(t.v),
                cfg.n_head as int,
            ),
        ),
        t.x_attn == attention_at(
            n4.len() as int,
            cfg.n_embd as int / cfg.n_head as int,
            keys.len() + 1,
            cfg.n_head as int,
        ),
        follows(
            n5,
            n6,
            linear_ops(n5.len() as int, t.x_attn, rows_of(w.attn_wo@), cfg.n_embd as int),
        ),
        t.proj == linear_at(n5.len() as int, cfg.n_embd as int, cfg.n_embd as nat),
        follows(n6, n7, add_ops(t.proj, t.xin, cfg.n_embd as int)),
        t.x_mid == row_at(n6.len() as int, cfg.n_embd as nat),
        follows(n7, n8, rmsnorm_ops(n7.len() as int, t.x_mid)),
        t.xn2 == rmsnorm_at(n7.len() as int, cfg.n_embd as nat),
        follows(
            n8,
            n9,
            linear_ops(n8.len() as int, t.xn2, rows_of(w.mlp_fc1@), 4 * cfg.n_embd),
        ),
        t.hpre == linear_at(n8.len() as int, cfg.n_embd as int, (4 * cfg.n_embd) as nat),
        follows(n9, n10, relu_ops(t.hpre, 4 * cfg.n_embd)),
        t.h == row_at(n9.len() as int, (4 * cfg.n_embd) as nat),
        follows(
            n10,
            n11,
            linear_ops(n10.len() as int, t.h, rows_of(w.mlp_fc2@), cfg.n_embd as int),
        ),
        t.mlp == linear_at(n10.len() as int, 4 * cfg.n_embd, cfg.n_embd as nat),
        follows(n11, end, add_ops(t.mlp, t.x_mid, cfg.n_embd as int)),
        t.x_out == row_at(n11.len() as int, cfg.n_embd as nat),
    ensures
        follows(n0, end, layer_ops(n0.len() as int, cfg, w, t.xin, keys, values)),
        t == layer_at(n0.len() as int, cfg, keys.len() + 1, t.xin),
{
    let c = cfg.n_embd as int;
    let p1 = rmsnorm_ops(n0.len() as int, t.xin);
    let q2 = linear_ops(n1.len() as int, t.xn, rows_of(w.attn_wq@), c);
    let q3 = linear_ops(n2.len() as int, t.xn, rows_of(w.attn_wk@), c);
    let q4 = linear_ops(n3.len() as int, t.xn, rows_of(w.attn_wv@), c);
    let q5 = attention_ops(
        n4.len() as int,
        c / cfg.n_head as int,
        t.q,
        keys.push(t.k),
        values.push(t.v),
        cfg.n_head as int,
    );
    let q6 = linear_ops(n5.len() as int, t.x_attn, rows_of(w.attn_wo@), c);
    let q7 = add_ops(t.proj, t.xin, c);
    let q8 = rmsnorm_ops(n7.len() as int, t.x_mid);
    let q9 = linear_ops(n8.len() as int, t.xn2, rows_of(w.mlp_fc1@), 4 * c);
    let q10 = relu_ops(t.hpre, 4 * c);
    let q11 = linear_ops(n10.len() as int, t.h, rows_of(w.mlp_fc2@), c);
    let q12 = add_ops(t.mlp, t.x_mid, c);
    let p2 = p1 + q2;
    let p3 = p2 + q3;
    let p4 = p3 + q4;
    let p5 = p4 + q5;
    let p6 = p5 + q6;
    let p7 = p6 + q7;
    let p8 = p7 + q8;
    let p9 = p8 + q9;
    let p10 = p9 + q10;
    let p11 = p10 + q11;
    lemma_follows_append(n0, n1, n2, p1, q2);
    lemma_follows_append(n0, n2, n3, p2, q3);
    lemma_follows_append(n0, n3, n4, p3, q4);
    lemma_follows_append(n0, n4, n5, p4, q5);
    lemma_follows_append(n0, n5, n6, p5, q6);
    lemma_follows_append(n0, n6, n7, p6, q7);
    lemma_follows_append(n0, n7, n8, p7, q8);
    lemma_follows_append(n0, n8, n9, p8, q9);
    lemma_follows_append(n0, n9, n10, p9, q10);
    lemma_follows_append(n0, n10, n11, p10, q11);
    lemma_follows_append(n0, n11, end, p11, q12);
    reveal(layer_at);
    reveal(layer_ops);
    assert(t == layer_at(n0.len() as int, cfg, keys.len() + 1, t.xin));
    assert(p11 + q12 == layer_ops(n0.len() as int, cfg, w, t.xin, keys, values));
}

/// The matrices of a layer stay handles when the tape grows.
pub proof fn lemma_layer_on_extends<S: Scalar>(
    nodes: Seq<Node<S>>,
    later: Seq<Node<S>>,
    w: LayerWeights,
    c: nat,
)
    requires
        extends(nodes, later),
        layer_on(nodes, w, c),
    ensures
        layer_on(later, w, c),
{
    reveal(layer_on);
    lemma_matrix_extends(nodes, later, rows_of(w.attn_wq@), c);
    lemma_matrix_extends(nodes, later, rows_of(w.attn_wk@), c);
    lemma_matrix_extends(nodes, later, rows_of(w.attn_wv@), c);
    lemma_matrix_extends(nodes, later, rows_of(w.attn_wo@), c);
    lemma_matrix_extends(nodes, later, rows_of(w.mlp_fc1@), c);
    lemma_matrix_extends(nodes, later, rows_of(w.mlp_fc2@), (4 * c) as nat);
}

/// One more row of handles.
pub proof fn lemma_matrix_push<S>(nodes: Seq<Node<S>>, w: Seq<Seq<Value>>, row: Seq<Value>, nin: nat)
    requires
        matrix_on(nodes, w, nin),
        row.len() == nin,
        all_on(nodes, row),
    ensures
        matrix_on(nodes, w.push(row), nin),
{
    assert forall|j: int| 0 <= j < w.push(row).len() implies (#[trigger] w.push(row)[j]).len()
        == nin && all_on(nodes, w.push(row)[j]) by {
        if j < w.len() {
            assert(w.push(row)[j] == w[j]);
        }
    }
}

} // verus!
