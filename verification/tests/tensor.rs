//! The model in terms of whole tensors, on a plain tensor in memory, and how it agrees with
//! the batched model and with the tape.
use microgpt::adam::{adam_step, Moments};
use microgpt::batch::masked_targets;
use microgpt::init::init_params;
use microgpt::layout::{Cfg, Ratio};
use microgpt::loss::valid_count;
use microgpt::model::Model;
use microgpt::rng::Rng;
use microgpt::rows::Serial;
use microgpt::scalar::{Cast, Scalar};
use microgpt::shape::PARAMS;
use microgpt::tape::Tape;
use microgpt::tape_gpt::StateDict;
use microgpt::tape_train::{document_loss, tape_train_step, Buffers};
use microgpt::tensor::{gpt, loss_fn, rmsnorm, Tensor};
use microgpt::tensor_train::{matrices, tensor_adam, tensor_adam_all};

#[derive(Clone, Copy, Debug, PartialEq)]
struct F32(f32);

impl Scalar for F32 {
    fn zero() -> F32 {
        F32(0.0)
    }
    fn one() -> F32 {
        F32(1.0)
    }
    fn tau() -> F32 {
        F32(std::f32::consts::TAU)
    }
    fn neg_infinity() -> F32 {
        F32(f32::NEG_INFINITY)
    }
    fn from_u64(n: u64) -> F32 {
        F32(n as f32)
    }
    fn ratio(num: u32, den: u32) -> F32 {
        F32(num as f32 / den as f32)
    }
    fn one_minus_pow(num: u32, den: u32, n: u32) -> F32 {
        F32((1.0 - (num as f64 / den as f64).powi(n as i32)) as f32)
    }
    fn add(self, other: F32) -> F32 {
        F32(self.0 + other.0)
    }
    fn sub(self, other: F32) -> F32 {
        F32(self.0 - other.0)
    }
    fn mul(self, other: F32) -> F32 {
        F32(self.0 * other.0)
    }
    fn div(self, other: F32) -> F32 {
        F32(self.0 / other.0)
    }
    fn neg(self) -> F32 {
        F32(-self.0)
    }
    fn max(self, other: F32) -> F32 {
        F32(self.0.max(other.0))
    }
    fn sqrt(self) -> F32 {
        F32(self.0.sqrt())
    }
    fn exp(self) -> F32 {
        F32(self.0.exp())
    }
    fn ln(self) -> F32 {
        F32(self.0.ln())
    }
    fn cos(self) -> F32 {
        F32(self.0.cos())
    }
    fn powf(self, exponent: F32) -> F32 {
        F32(self.0.powf(exponent.0))
    }
    fn is_positive(self) -> bool {
        self.0 > 0.0
    }
    fn is_nonpositive(self) -> bool {
        self.0 <= 0.0
    }
}

#[derive(Clone, Copy, Debug, PartialEq)]
struct F64(f64);

impl Scalar for F64 {
    fn zero() -> F64 {
        F64(0.0)
    }
    fn one() -> F64 {
        F64(1.0)
    }
    fn tau() -> F64 {
        F64(std::f64::consts::TAU)
    }
    fn neg_infinity() -> F64 {
        F64(f64::NEG_INFINITY)
    }
    fn from_u64(n: u64) -> F64 {
        F64(n as f64)
    }
    fn ratio(num: u32, den: u32) -> F64 {
        F64(num as f64 / den as f64)
    }
    fn one_minus_pow(num: u32, den: u32, n: u32) -> F64 {
        F64(1.0 - (num as f64 / den as f64).powi(n as i32))
    }
    fn add(self, other: F64) -> F64 {
        F64(self.0 + other.0)
    }
    fn sub(self, other: F64) -> F64 {
        F64(self.0 - other.0)
    }
    fn mul(self, other: F64) -> F64 {
        F64(self.0 * other.0)
    }
    fn div(self, other: F64) -> F64 {
        F64(self.0 / other.0)
    }
    fn neg(self) -> F64 {
        F64(-self.0)
    }
    fn max(self, other: F64) -> F64 {
        F64(self.0.max(other.0))
    }
    fn sqrt(self) -> F64 {
        F64(self.0.sqrt())
    }
    fn exp(self) -> F64 {
        F64(self.0.exp())
    }
    fn ln(self) -> F64 {
        F64(self.0.ln())
    }
    fn cos(self) -> F64 {
        F64(self.0.cos())
    }
    fn powf(self, exponent: F64) -> F64 {
        F64(self.0.powf(exponent.0))
    }
    fn is_positive(self) -> bool {
        self.0 > 0.0
    }
    fn is_nonpositive(self) -> bool {
        self.0 <= 0.0
    }
}

impl Cast<F32> for F64 {
    fn cast(self) -> F32 {
        F32(self.0 as f32)
    }
}

impl Cast<F64> for F32 {
    fn cast(self) -> F64 {
        F64(self.0 as f64)
    }
}

/// A tensor in ordinary memory, row-major. Masks and ids are numbers too.
#[derive(Clone, Debug, PartialEq)]
struct Plain {
    dims: Vec<i32>,
    data: Vec<f32>,
}

impl Plain {
    fn of(dims: &[i32], data: &[f32]) -> Plain {
        assert_eq!(dims.iter().product::<i32>() as usize, data.len());
        Plain { dims: dims.to_vec(), data: data.to_vec() }
    }

    fn last(&self) -> usize {
        *self.dims.last().unwrap() as usize
    }

    /// Entry by entry, the other one repeated along the axes that it lacks or has one of.
    fn zip(&self, other: &Plain, f: impl Fn(f32, f32) -> f32) -> Plain {
        let at = |i: usize| -> usize {
            let (mut i, mut at, mut step) = (i, 0, 1);
            let lead = self.dims.len() - other.dims.len();
            for a in (0..self.dims.len()).rev() {
                let n = self.dims[a] as usize;
                let k = i % n;
                i /= n;
                if a >= lead {
                    let m = other.dims[a - lead] as usize;
                    if m > 1 {
                        at += k * step;
                    }
                    step *= m;
                }
            }
            at
        };
        let data = (0..self.data.len()).map(|i| f(self.data[i], other.data[at(i)])).collect();
        Plain { dims: self.dims.clone(), data }
    }

    fn map(&self, f: impl Fn(f32) -> f32) -> Plain {
        Plain { dims: self.dims.clone(), data: self.data.iter().map(|&x| f(x)).collect() }
    }

    /// One number for each row of the last axis, which stays as an axis of one.
    fn fold(&self, f: impl Fn(&[f32]) -> f32) -> Plain {
        let mut dims = self.dims.clone();
        *dims.last_mut().unwrap() = 1;
        Plain { dims, data: self.data.chunks(self.last()).map(f).collect() }
    }
}

impl Tensor<F32> for Plain {
    fn number(x: F32) -> Plain {
        Plain::of(&[1], &[x.0])
    }
    fn up_to_diagonal(n: i32) -> Plain {
        let data: Vec<f32> =
            (0..n * n).map(|i| if i % n <= i / n { 1.0 } else { 0.0 }).collect();
        Plain::of(&[n, n], &data)
    }
    fn dim(&self, axis: usize) -> i32 {
        self.dims[axis]
    }
    fn multiply(&self, other: &Plain) -> Plain {
        self.zip(other, |a, b| a * b)
    }
    fn plus(&self, other: &Plain) -> Plain {
        self.zip(other, |a, b| a + b)
    }
    fn minus(&self, other: &Plain) -> Plain {
        self.zip(other, |a, b| a - b)
    }
    fn divide(&self, other: &Plain) -> Plain {
        self.zip(other, |a, b| a / b)
    }
    fn matmul(&self, other: &Plain) -> Plain {
        let (r, k) = (self.dims.len(), other.dims.len());
        let (m, inner) = (self.dims[r - 2] as usize, self.dims[r - 1] as usize);
        let n = other.dims[k - 1] as usize;
        assert_eq!(inner, other.dims[k - 2] as usize);
        let blocks = self.data.len() / (m * inner);
        let shared = other.data.len() == inner * n;
        let mut dims = self.dims.clone();
        dims[r - 1] = n as i32;
        let mut data = vec![0.0f32; blocks * m * n];
        for b in 0..blocks {
            let w = if shared { 0 } else { b * inner * n };
            for i in 0..m {
                for j in 0..n {
                    data[(b * m + i) * n + j] = (0..inner)
                        .map(|p| self.data[(b * m + i) * inner + p] * other.data[w + p * n + j])
                        .sum();
                }
            }
        }
        Plain { dims, data }
    }
    fn transposed(&self) -> Plain {
        let (m, n) = (self.dims[0] as usize, self.dims[1] as usize);
        let data: Vec<f32> = (0..m * n).map(|i| self.data[(i % m) * n + i / m]).collect();
        Plain::of(&[n as i32, m as i32], &data)
    }
    fn permute(&self, first: i32, second: i32, third: i32, fourth: i32) -> Plain {
        let axes = [first as usize, second as usize, third as usize, fourth as usize];
        let dims: Vec<i32> = axes.iter().map(|&a| self.dims[a]).collect();
        let mut steps = [1usize; 4];
        for a in (0..3).rev() {
            steps[a] = steps[a + 1] * self.dims[a + 1] as usize;
        }
        let data = (0..self.data.len())
            .map(|i| {
                let (mut i, mut at) = (i, 0);
                for a in (0..4).rev() {
                    let n = dims[a] as usize;
                    at += (i % n) * steps[axes[a]];
                    i /= n;
                }
                self.data[at]
            })
            .collect();
        Plain { dims, data }
    }
    fn shape3(&self, first: i32, second: i32, third: i32) -> Plain {
        Plain::of(&[first, second, third], &self.data)
    }
    fn shape4(&self, first: i32, second: i32, third: i32, fourth: i32) -> Plain {
        Plain::of(&[first, second, third, fourth], &self.data)
    }
    fn rows_at(&self, ids: &Plain) -> Plain {
        let c = self.last();
        let mut dims = ids.dims.clone();
        dims.push(c as i32);
        let data = ids
            .data
            .iter()
            .flat_map(|&k| self.data[k as usize * c..(k as usize + 1) * c].to_vec())
            .collect();
        Plain { dims, data }
    }
    fn first_rows(&self, n: i32) -> Plain {
        let c = self.last();
        Plain::of(&[n, c as i32], &self.data[..n as usize * c])
    }
    fn entries_at(&self, ids: &Plain) -> Plain {
        let n = self.last();
        let data: Vec<f32> =
            ids.data.iter().enumerate().map(|(r, &k)| self.data[r * n + k as usize]).collect();
        Plain { dims: ids.dims.clone(), data }
    }
    fn where_set(&self, mask: &Plain, other: &Plain) -> Plain {
        let low = other.data[0];
        self.zip(mask, |a, m| if m > 0.0 { a } else { low })
    }
    fn mean_last(&self) -> Plain {
        self.fold(|row| row.iter().sum::<f32>() / row.len() as f32)
    }
    fn softmax_last(&self) -> Plain {
        let lse = self.logsumexp_last();
        self.zip(&lse, |a, l| (a - l).exp())
    }
    fn logsumexp_last(&self) -> Plain {
        self.fold(|row| {
            let top = row.iter().cloned().fold(f32::NEG_INFINITY, f32::max);
            top + row.iter().map(|x| (x - top).exp()).sum::<f32>().ln()
        })
    }
    fn sum_all(&self) -> Plain {
        Plain::of(&[1], &[self.data.iter().sum()])
    }
    fn rsqrt(&self) -> Plain {
        self.map(|x| 1.0 / x.sqrt())
    }
    fn root(&self) -> Plain {
        self.map(f32::sqrt)
    }
    fn relu(&self) -> Plain {
        self.map(|x| x.max(0.0))
    }
}

/// The flat parameters as matrices.
fn split(cfg: &Cfg, vocab: usize, flat: &[F32]) -> Vec<Plain> {
    matrices(cfg, vocab)
        .iter()
        .map(|m| {
            let part: Vec<f32> =
                flat[m.start..m.start + m.rows * m.cols].iter().map(|x| x.0).collect();
            Plain::of(&[m.rows as i32, m.cols as i32], &part)
        })
        .collect()
}

fn ids(dims: &[i32], tokens: &[i32]) -> Plain {
    let data: Vec<f32> = tokens.iter().map(|&k| k as f32).collect();
    Plain::of(dims, &data)
}

fn tiny() -> Cfg {
    Cfg {
        n_layer: 2,
        n_embd: 8,
        n_head: 2,
        block_size: 8,
        batch: 2,
        num_steps: 10,
        init_std: Ratio { num: 8, den: 100 },
        learning_rate: Ratio { num: 1, den: 100 },
    }
}

#[test]
fn the_matrices_fill_the_flat_buffer() {
    for (cfg, vocab) in [(tiny(), 11), (Cfg::parity(), 27), (Cfg::scale(), 27)] {
        let list = matrices(&cfg, vocab);
        assert_eq!(list.len(), 3 + 6 * cfg.n_layer);
        let mut end = 0;
        for m in &list {
            assert_eq!(m.start, end);
            end += m.rows * m.cols;
        }
        let mut rng = Rng::new(1);
        assert_eq!(end, init_params::<F64, F32>(&mut rng, &cfg, vocab).len());
    }
    let list = matrices(&Cfg::parity(), 27);
    assert_eq!((list[7].rows, list[7].cols), (64, 16));
    assert_eq!((list[8].rows, list[8].cols), (16, 64));
}

#[test]
fn tensors_and_the_batched_model_agree() {
    let (cfg, vocab) = (tiny(), 11);
    let mut rng = Rng::new(7);
    let flat = init_params::<F64, F32>(&mut rng, &cfg, vocab);
    let tokens: Vec<i32> = vec![10, 3, 1, 4, 1, 5, 9, 2, 10, 2, 7, 1, 10, 10, 10, 10];
    let targets: Vec<i32> = vec![3, 1, 4, 1, 5, 9, 2, 6, 2, 7, 1, 10, -1, -1, -1, -1];
    let mut model = Model::new(cfg, vocab, flat.clone());
    model.forward(&Serial, &tokens, 8);
    let last: Vec<f32> = model.last_logits().iter().map(|x| x.0).collect();
    let loss = model.loss(&Serial, &targets).0;

    let params = split(&cfg, vocab, &flat);
    let inputs = ids(&[2, 8], &tokens);
    let logits = gpt(&params, &cfg, &inputs);
    assert_eq!(logits.dims, vec![2, 8, 11]);
    for (a, b) in last.iter().zip(&logits.data[15 * 11..]) {
        assert!((a - b).abs() < 1e-5, "logit {a} vs {b}");
    }
    let (clamped, valid) = masked_targets(&targets);
    let mask: Vec<f32> = valid.iter().map(|&v| if v { 1.0 } else { 0.0 }).collect();
    let mean = loss_fn(
        &params,
        &cfg,
        &inputs,
        &ids(&[2, 8], &clamped),
        &Plain::of(&[2, 8, 1], &mask),
        F32(valid_count(&targets) as f32),
    );
    assert!((mean.data[0] - loss).abs() < 1e-5, "loss {} vs {loss}", mean.data[0]);
}

#[test]
fn a_later_token_changes_no_earlier_logit() {
    let (cfg, vocab) = (tiny(), 11);
    let mut rng = Rng::new(3);
    let flat = init_params::<F64, F32>(&mut rng, &cfg, vocab);
    let params = split(&cfg, vocab, &flat);
    let a = gpt(&params, &cfg, &ids(&[1, 4], &[10, 1, 2, 3]));
    let b = gpt(&params, &cfg, &ids(&[1, 4], &[10, 1, 2, 9]));
    assert_eq!(a.data[..3 * 11], b.data[..3 * 11]);
    assert_ne!(a.data[3 * 11..], b.data[3 * 11..]);
}

#[test]
fn normalizing_a_tensor() {
    let y = rmsnorm(&Plain::of(&[1, 2], &[3.0, 4.0]));
    let r = 1.0 / (12.5f32 + 1e-5).sqrt();
    assert_eq!(y, Plain::of(&[1, 2], &[3.0 * r, 4.0 * r]));
}

#[test]
fn one_step_of_the_optimizer_on_tensors() {
    let before = Moments {
        p: Plain::of(&[2], &[0.5, -0.25]),
        m: Plain::of(&[2], &[0.0, 0.1]),
        v: Plain::of(&[2], &[0.0, 0.2]),
    };
    let g = Plain::of(&[2], &[2.0, -1.0]);
    let lr = F32(0.01);
    let after = tensor_adam(3, lr, &g, &before);
    for i in 0..2 {
        let one = Moments { p: F32(before.p.data[i]), m: F32(before.m.data[i]), v: F32(before.v.data[i]) };
        let want = adam_step(3, lr, F32(g.data[i]), one);
        assert!((after.p.data[i] - want.p.0).abs() < 1e-6);
        assert!((after.m.data[i] - want.m.0).abs() < 1e-6);
        assert!((after.v.data[i] - want.v.0).abs() < 1e-6);
    }
    let all = tensor_adam_all(3, lr, &[g], &[before]);
    assert_eq!(all.len(), 1);
    assert_eq!(all[0].p, after.p);
}

#[test]
fn tape_and_batched_model_start_from_the_same_parameters() {
    let (cfg, vocab) = (Cfg::parity(), 27);
    let mut rng = Rng::new(42);
    let mut tape: Tape<F64> = Tape::new();
    StateDict::init(&mut tape, &mut rng, &cfg, vocab);
    let mut other = Rng::new(42);
    let flat = init_params::<F64, F32>(&mut other, &cfg, vocab);
    assert_eq!(tape.len(), flat.len());
    assert_eq!(rng.0, other.0);
    for (node, p) in tape.nodes.iter().zip(&flat) {
        assert_eq!(node.data.0 as f32, p.0);
    }
}

#[test]
fn tape_and_batched_model_agree_through_training() {
    let (cfg, vocab) = (Cfg::parity(), 27);
    let mut rng = Rng::new(42);
    let mut tape: Tape<F64> = Tape::new();
    let sd = StateDict::init(&mut tape, &mut rng, &cfg, vocab);
    let mut buffers: Buffers<F64> = Buffers::new(tape.len());
    let flat: Vec<F32> = tape.nodes.iter().map(|n| F32(n.data.0 as f32)).collect();
    let mut model = Model::new(cfg, vocab, flat);

    let docs: Vec<Vec<usize>> = vec![
        vec![26, 4, 12, 12, 0, 26],
        vec![26, 14, 11, 8, 21, 8, 0, 26],
        vec![26, 0, 21, 0, 26],
    ];
    for step in 0..6 {
        let tokens = &docs[step % 3];
        let ids: Vec<i32> = tokens.iter().map(|&k| k as i32).collect();
        let n = ids.len() - 1;
        let batch = microgpt::batch::Batch {
            tokens: ids[..n].to_vec(),
            targets: ids[1..].to_vec(),
            t_len: n,
        };
        let a = tape_train_step(&mut tape, &mut buffers, &cfg, &sd, vocab, tokens, step).0;
        let b = microgpt::model::train_step(&mut model, &Serial, &batch, step).0;
        assert!((a - b as f64).abs() < 1e-4, "step {step}: loss {a} on the tape, {b} in batches");
    }
    for (node, p) in tape.nodes.iter().zip(&model.bank.bufs[PARAMS]) {
        assert!((node.data.0 - p.0 as f64).abs() < 1e-3);
    }
}

#[test]
fn gradients_of_tape_and_batched_model_agree() {
    let (cfg, vocab) = (Cfg::parity(), 27);
    let mut rng = Rng::new(5);
    let mut tape: Tape<F64> = Tape::new();
    let sd = StateDict::init(&mut tape, &mut rng, &cfg, vocab);
    let count = tape.len();
    let flat: Vec<F32> = tape.nodes.iter().map(|n| F32(n.data.0 as f32)).collect();
    let mut model = Model::new(cfg, vocab, flat);
    let tokens = vec![26, 4, 12, 12, 0, 26];
    let loss = document_loss(&mut tape, &cfg, &sd, vocab, &tokens);
    tape.backward(loss);
    model.forward(&Serial, &[26, 4, 12, 12, 0], 5);
    model.loss(&Serial, &[4, 12, 12, 0, 26]);
    model.backward(&Serial);
    let grads = &model.bank.bufs[microgpt::shape::GRADS];
    for i in 0..count {
        let (a, b) = (tape.nodes[i].grad.0, grads[i].0 as f64);
        assert!((a - b).abs() < 1e-4, "gradient {i}: {a} on the tape, {b} in batches");
    }
}
