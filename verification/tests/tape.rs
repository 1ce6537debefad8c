//! The tape: gradients, the network on a tape, training and sampling.
use microgpt::graph::{linear, relu_all, rmsnorm, softmax, sum};
use microgpt::layout::{Cfg, Ratio};
use microgpt::rng::Rng;
use microgpt::scalar::Scalar;
use microgpt::tape::{Parent, Tape, Value};
use microgpt::tape_gpt::StateDict;
use microgpt::tape_sample::tape_sample;
use microgpt::tape_token::gpt;
use microgpt::tape_train::{document_loss, empty_cache, tape_adam, tape_train_step, Buffers};

#[derive(Clone, Copy, Debug, PartialEq)]
struct F64(f64);

impl Scalar for F64 {
    fn zero() -> F64 {
        F64(0.0)
    }
    fn one() -> F64 {
        F64(1.0)
    }
    fn tau() -> F64 {
        F64(std::f64::consts::TAU)
    }
    fn neg_infinity() -> F64 {
        F64(f64::NEG_INFINITY)
    }
    fn from_u64(n: u64) -> F64 {
        F64(n as f64)
    }
    fn ratio(num: u32, den: u32) -> F64 {
        F64(num as f64 / den as f64)
    }
    fn one_minus_pow(num: u32, den: u32, n: u32) -> F64 {
        F64(1.0 - (num as f64 / den as f64).powi(n as i32))
    }
    fn add(self, other: F64) -> F64 {
        F64(self.0 + other.0)
    }
    fn sub(self, other: F64) -> F64 {
        F64(self.0 - other.0)
    }
    fn mul(self, other: F64) -> F64 {
        F64(self.0 * other.0)
    }
    fn div(self, other: F64) -> F64 {
        F64(self.0 / other.0)
    }
    fn neg(self) -> F64 {
        F64(-self.0)
    }
    fn max(self, other: F64) -> F64 {
        F64(self.0.max(other.0))
    }
    fn sqrt(self) -> F64 {
        F64(self.0.sqrt())
    }
    fn exp(self) -> F64 {
        F64(self.0.exp())
    }
    fn ln(self) -> F64 {
        F64(self.0.ln())
    }
    fn cos(self) -> F64 {
        F64(self.0.cos())
    }
    fn powf(self, exponent: F64) -> F64 {
        F64(self.0.powf(exponent.0))
    }
    fn is_positive(self) -> bool {
        self.0 > 0.0
    }
    fn is_nonpositive(self) -> bool {
        self.0 <= 0.0
    }
}

type Expr = fn(&mut Tape<F64>, &[Value]) -> Value;

/// Check analytic gradients against central finite differences.
fn grad_check(f: Expr, xs: &[f64]) {
    let mut tape: Tape<F64> = Tape::new();
    let vals: Vec<Value> = xs.iter().map(|&x| tape.value(F64(x))).collect();
    let out = f(&mut tape, &vals);
    tape.backward(out);
    let analytic: Vec<f64> = vals.iter().map(|v| v.grad(&tape).0).collect();

    let h = 1e-6;
    for i in 0..xs.len() {
        let eval = |delta: f64| {
            let mut t: Tape<F64> = Tape::new();
            let mut xs2 = xs.to_vec();
            xs2[i] += delta;
            let vs: Vec<Value> = xs2.iter().map(|&x| t.value(F64(x))).collect();
            f(&mut t, &vs).data(&t).0
        };
        let numeric = (eval(h) - eval(-h)) / (2.0 * h);
        assert!(
            (analytic[i] - numeric).abs() < 1e-5,
            "grad mismatch at input {i}: analytic {} vs numeric {}",
            analytic[i],
            numeric
        );
    }
}

fn expr_add_mul(t: &mut Tape<F64>, v: &[Value]) -> Value {
    let s = v[0].add(t, v[1]);
    let p = s.mul(t, v[2]);
    let q = v[0].mul(t, v[0]);
    p.add(t, q)
}

fn expr_div_pow(t: &mut Tape<F64>, v: &[Value]) -> Value {
    let q = v[0].div(t, v[1]);
    let c = v[1].powf(t, F64(3.0));
    let s = q.add(t, c);
    s.powf(t, F64(-0.5))
}

fn expr_exp_log(t: &mut Tape<F64>, v: &[Value]) -> Value {
    let e = v[0].exp(t);
    let q = v[1].mul(t, v[1]);
    let s = e.add(t, q);
    let l = s.log(t);
    l.mul(t, v[0])
}

fn expr_relu(t: &mut Tape<F64>, v: &[Value]) -> Value {
    let r = v[0].relu(t);
    let p = r.mul(t, v[1]);
    let q = v[0].mul(t, v[1]);
    let s = q.relu(t);
    p.add(t, s)
}

fn expr_mixed_consts(t: &mut Tape<F64>, v: &[Value]) -> Value {
    let a = v[0].mul_const(t, F64(3.0)).add_const(t, F64(1.5));
    let b = v[1].sub_const(t, F64(0.25)).div_const(t, F64(2.0));
    let ab = a.mul(t, b);
    let inner = ab.sub_const(t, F64(0.1)).mul_const(t, F64(2.0));
    let left = inner.neg(t);
    let right = a.div(t, b);
    left.add(t, right)
}

fn expr_rmsnorm_softmax(t: &mut Tape<F64>, v: &[Value]) -> Value {
    let normed = rmsnorm(t, &v.to_vec());
    let probs = softmax(t, &normed);
    probs[0].log(t).neg(t) // cross-entropy against class 0
}

fn expr_difference(t: &mut Tape<F64>, v: &[Value]) -> Value {
    let d = v[0].sub(t, v[1]);
    d.mul(t, v[1])
}

#[test]
fn pushed_nodes_stand_behind_their_operands() {
    let mut tape: Tape<F64> = Tape::new();
    let a = tape.value(F64(3.0));
    let b = tape.value(F64(-2.0));
    // a * a * b, with its two derivatives.
    let left = Parent { idx: a.idx, local_grad: F64(-12.0) };
    let right = Parent { idx: b.idx, local_grad: F64(9.0) };
    let y = tape.push(F64(-18.0), Some(left), Some(right));
    let z = tape.push(F64(18.0), Some(Parent { idx: y.idx, local_grad: F64(-1.0) }), None);
    assert_eq!((y.idx, z.idx, tape.len()), (2, 3, 4));
    assert_eq!((y.data(&tape), y.grad(&tape)), (F64(-18.0), F64(0.0)));
    tape.backward(z);
    assert_eq!((a.grad(&tape), b.grad(&tape)), (F64(12.0), F64(-9.0)));
}

#[test]
fn gradients_match_finite_differences() {
    grad_check(expr_add_mul, &[0.7, -1.3, 2.1]);
    grad_check(expr_div_pow, &[1.4, 0.9]);
    grad_check(expr_exp_log, &[0.3, -1.1]);
    grad_check(expr_relu, &[0.8, -0.6]);
    grad_check(expr_relu, &[-0.8, 0.6]);
    grad_check(expr_mixed_consts, &[0.45, 1.7]);
    grad_check(expr_rmsnorm_softmax, &[0.2, -0.5, 1.1, 0.7]);
}

#[test]
fn differences_have_gradients() {
    grad_check(expr_difference, &[0.9, -0.4]);
}

#[test]
fn params_survive_truncate_and_regrad() {
    let mut tape: Tape<F64> = Tape::new();
    let a = tape.value(F64(1.5));
    let b = tape.value(F64(-0.7));
    let num_params = tape.len();

    let mut run = || {
        let ab = a.mul(&mut tape, b);
        let e = ab.exp(&mut tape);
        let p = a.powf(&mut tape, F64(2.0));
        let loss = e.add(&mut tape, p);
        tape.backward(loss);
        let grads = (a.grad(&tape), b.grad(&tape));
        // zero grads like the optimizer does, then free the graph
        for i in 0..num_params {
            tape.nodes[i].grad = F64(0.0);
        }
        tape.truncate(num_params);
        grads
    };
    let first = run();
    let second = run();
    assert_eq!(tape.len(), num_params);
    assert_eq!(first, second, "grads must be identical across truncate cycles");
}

fn emma() -> Vec<usize> {
    vec![26, 4, 12, 12, 0, 26] // the mark, "emma", the mark, with an alphabet of 26
}

#[test]
fn untrained_loss_is_near_uniform() {
    // With random init, the mean cross-entropy should be close to ln(vocab_size)
    let cfg = Cfg::parity();
    let mut rng = Rng::new(42);
    let vocab_size = 27;
    let mut tape: Tape<F64> = Tape::new();
    let sd = StateDict::init(&mut tape, &mut rng, &cfg, vocab_size);
    let mut keys = empty_cache(cfg.n_layer);
    let mut values = empty_cache(cfg.n_layer);
    let tokens = emma();
    let mut total = 0.0;
    for pos in 0..tokens.len() - 1 {
        let logits =
            gpt(&mut tape, &cfg, &sd, vocab_size, tokens[pos], pos, &mut keys, &mut values);
        let probs = softmax(&mut tape, &logits);
        total += -probs[tokens[pos + 1]].data(&tape).0.ln();
    }
    let mean = total / (tokens.len() - 1) as f64;
    let uniform = (vocab_size as f64).ln(); // ~3.296
    assert!((mean - uniform).abs() < 0.5, "untrained loss {mean} too far from ln(V) {uniform}");
}

#[test]
fn the_document_loss_is_the_mean_over_positions() {
    let cfg = Cfg::parity();
    let mut rng = Rng::new(42);
    let mut tape: Tape<F64> = Tape::new();
    let sd = StateDict::init(&mut tape, &mut rng, &cfg, 27);
    let num_params = tape.len();
    assert_eq!(num_params, 4192);
    let tokens = emma();
    let mut keys = empty_cache(cfg.n_layer);
    let mut values = empty_cache(cfg.n_layer);
    let mut total = 0.0;
    for pos in 0..5 {
        let logits = gpt(&mut tape, &cfg, &sd, 27, tokens[pos], pos, &mut keys, &mut values);
        let probs = softmax(&mut tape, &logits);
        total += -probs[tokens[pos + 1]].data(&tape).0.ln();
    }
    tape.truncate(num_params);
    let loss = document_loss(&mut tape, &cfg, &sd, 27, &tokens);
    assert!((loss.data(&tape).0 - total / 5.0).abs() < 1e-12);
}

#[test]
fn a_long_document_is_clipped_to_the_context() {
    let cfg = Cfg { block_size: 3, ..Cfg::parity() };
    let mut rng = Rng::new(1);
    let mut tape: Tape<F64> = Tape::new();
    let sd = StateDict::init(&mut tape, &mut rng, &cfg, 27);
    let n = tape.len();
    let long = document_loss(&mut tape, &cfg, &sd, 27, &emma()).data(&tape);
    tape.truncate(n);
    let short = document_loss(&mut tape, &cfg, &sd, 27, &vec![26, 4, 12, 12]).data(&tape);
    assert_eq!(long, short);
}

#[test]
fn the_network_has_the_gradients_of_finite_differences() {
    let cfg = Cfg { n_layer: 2, n_embd: 4, n_head: 2, block_size: 4, ..Cfg::parity() };
    let vocab = 5;
    let tokens = vec![4, 1, 3, 0, 4];
    let mut rng = Rng::new(5);
    let mut tape: Tape<F64> = Tape::new();
    let sd = StateDict::init(&mut tape, &mut rng, &cfg, vocab);
    let n = tape.len();
    let loss = document_loss(&mut tape, &cfg, &sd, vocab, &tokens);
    tape.backward(loss);
    let grads: Vec<f64> = (0..n).map(|i| tape.nodes[i].grad.0).collect();
    tape.truncate(n);
    let h = 1e-5;
    for i in (0..n).step_by(7) {
        let mut eval = |delta: f64| {
            let kept = tape.nodes[i].data;
            tape.nodes[i].data = F64(kept.0 + delta);
            let l = document_loss(&mut tape, &cfg, &sd, vocab, &tokens).data(&tape).0;
            tape.truncate(n);
            tape.nodes[i].data = kept;
            l
        };
        let numeric = (eval(h) - eval(-h)) / (2.0 * h);
        assert!((grads[i] - numeric).abs() < 1e-6, "parameter {i}: {} vs {numeric}", grads[i]);
    }
}

#[test]
fn training_reduces_the_loss_and_leaves_the_parameters_at_rest() {
    let cfg = Cfg { num_steps: 20, ..Cfg::parity() };
    let mut rng = Rng::new(42);
    let mut tape: Tape<F64> = Tape::new();
    let sd = StateDict::init(&mut tape, &mut rng, &cfg, 27);
    let num_params = tape.len();
    let mut buffers: Buffers<F64> = Buffers::new(num_params);
    let tokens = emma();
    let first = tape_train_step(&mut tape, &mut buffers, &cfg, &sd, 27, &tokens, 0);
    let mut last = first;
    for step in 1..20 {
        last = tape_train_step(&mut tape, &mut buffers, &cfg, &sd, 27, &tokens, step);
        assert_eq!(tape.len(), num_params);
        assert!(tape.nodes.iter().all(|n| n.grad == F64(0.0)));
    }
    assert!(last.0 < first.0 - 0.3, "{last:?} after {first:?}");
}

#[test]
fn training_on_a_tape_repeats_bit_by_bit() {
    let run = || {
        let cfg = Cfg { num_steps: 10, ..Cfg::parity() };
        let mut rng = Rng::new(42);
        let mut tape: Tape<F64> = Tape::new();
        let sd = StateDict::init(&mut tape, &mut rng, &cfg, 27);
        let mut buffers: Buffers<F64> = Buffers::new(tape.len());
        let losses: Vec<u64> = (0..5)
            .map(|step| {
                let loss = tape_train_step(&mut tape, &mut buffers, &cfg, &sd, 27, &emma(), step);
                loss.0.to_bits()
            })
            .collect();
        let params: Vec<u64> = tape.nodes.iter().map(|n| n.data.0.to_bits()).collect();
        (losses, params)
    };
    let first = run();
    assert_eq!(first, run());
    assert_ne!(first.0[0], first.0[4]);
}

#[test]
fn nodes_stand_in_the_order_in_which_they_are_computed() {
    let mut t: Tape<F64> = Tape::new();
    let vs: Vec<Value> = [1.0, -2.0, 3.0].iter().map(|&x| t.value(F64(x))).collect();
    let operands = |t: &Tape<F64>, i: usize| {
        let node = &t.nodes[i];
        (node.left.map(|p| p.idx), node.right.map(|p| p.idx))
    };
    let rows = vec![vec![vs[2], vs[1], vs[0]], vec![vs[1], vs[1], vs[1]]];
    let ys = linear(&mut t, &vs, &rows);
    // each product is added as soon as it is there
    assert_eq!(ys.iter().map(|y| y.idx).collect::<Vec<u32>>(), vec![7, 12]);
    assert_eq!(operands(&t, 3), (Some(2), Some(0)));
    assert_eq!(operands(&t, 4), (Some(1), Some(1)));
    assert_eq!(operands(&t, 5), (Some(3), Some(4)));
    assert_eq!(operands(&t, 6), (Some(0), Some(2)));
    assert_eq!(operands(&t, 7), (Some(5), Some(6)));
    // differences and exponentials in turn, their sum, the quotients
    let ps = softmax(&mut t, &vs);
    assert_eq!(ps.iter().map(|p| p.idx).collect::<Vec<u32>>(), vec![21, 22, 23]);
    assert_eq!(operands(&t, 14), (Some(13), None));
    assert_eq!(operands(&t, 19), (Some(14), Some(16)));
    assert_eq!(operands(&t, 20), (Some(19), Some(18)));
    assert_eq!(operands(&t, 21), (Some(14), Some(20)));
    let ns = rmsnorm(&mut t, &vs);
    assert_eq!(ns.iter().map(|n| n.idx).collect::<Vec<u32>>(), vec![32, 33, 34]);
    assert_eq!(t.len(), 35);
}

#[test]
fn logits_stand_at_the_end_of_their_position() {
    let cfg = Cfg::parity();
    let mut rng = Rng::new(42);
    let mut tape: Tape<F64> = Tape::new();
    let sd = StateDict::init(&mut tape, &mut rng, &cfg, 27);
    let (mut keys, mut values) = (empty_cache(cfg.n_layer), empty_cache(cfg.n_layer));
    for (pos, token) in emma()[..3].iter().enumerate() {
        let logits = gpt(&mut tape, &cfg, &sd, 27, *token, pos, &mut keys, &mut values);
        let end = tape.len() as u32;
        for (j, l) in logits.iter().enumerate() {
            assert_eq!(l.idx, end - 1 - (26 - j as u32) * 31);
        }
        assert_eq!(keys[0].len(), pos + 1);
    }
}

#[test]
fn one_step_of_the_optimizer() {
    let mut tape: Tape<F64> = Tape::new();
    let a = tape.value(F64(1.0));
    let b = tape.value(F64(2.0));
    let p = a.mul(&mut tape, b);
    tape.backward(p);
    let mut buffers: Buffers<F64> = Buffers::new(2);
    tape_adam(&mut tape, &mut buffers, 2, 0, F64(0.1));
    // in the first step the moments are unbiased to the gradient and its square
    let after = |x: f64, g: f64| {
        let m = (1.0 - 0.85) * g / (1.0 - 0.85);
        let v = (1.0 - 0.99) * g * g / (1.0 - 0.99);
        x - 0.1 * m / (v.sqrt() + 1e-8)
    };
    assert!((a.data(&tape).0 - after(1.0, 2.0)).abs() < 1e-12);
    assert!((b.data(&tape).0 - after(2.0, 1.0)).abs() < 1e-12);
    assert_eq!(a.grad(&tape), F64(0.0));
    assert_eq!(b.grad(&tape), F64(0.0));
    assert_eq!(p.data(&tape), F64(2.0));
    assert_eq!(p.grad(&tape), F64(1.0));
}

#[test]
fn sampling_gives_documents_and_keeps_the_parameters() {
    let cfg = Cfg::parity();
    let run = || {
        let mut rng = Rng::new(42);
        let mut tape: Tape<F64> = Tape::new();
        let sd = StateDict::init(&mut tape, &mut rng, &cfg, 27);
        let num_params = tape.len();
        let samples: Vec<Vec<usize>> = (0..5)
            .map(|_| tape_sample(&mut tape, &cfg, &sd, &mut rng, 26, Ratio { num: 1, den: 2 }))
            .collect();
        assert_eq!(tape.len(), num_params);
        samples
    };
    let samples = run();
    assert!(samples.iter().all(|s| s.len() <= 16 && s.iter().all(|&k| k < 26)));
    assert!(samples.iter().any(|s| !s.is_empty()));
    assert_eq!(samples, run());
}

#[test]
fn small_graphs_have_exact_values() {
    let mut t: Tape<F64> = Tape::new();
    let vs: Vec<Value> = [1.0, -2.0, 3.0].iter().map(|&x| t.value(F64(x))).collect();
    let s = sum(&mut t, &vs);
    assert_eq!(s.data(&t), F64(2.0));
    let rows = vec![vec![vs[0], vs[1], vs[2]], vec![vs[2], vs[2], vs[2]]];
    let ys = linear(&mut t, &vs, &rows);
    assert_eq!(ys.len(), 2);
    assert_eq!(ys[0].data(&t), F64(14.0));
    assert_eq!(ys[1].data(&t), F64(6.0));
    let rs = relu_all(&mut t, &vs);
    let data: Vec<f64> = rs.iter().map(|r| r.data(&t).0).collect();
    assert_eq!(data, vec![1.0, 0.0, 3.0]);
    let even = vec![vs[0], vs[0]];
    let ps = softmax(&mut t, &even);
    assert_eq!(ps[0].data(&t), F64(0.5));
    assert_eq!(ps[1].data(&t), F64(0.5));
}
