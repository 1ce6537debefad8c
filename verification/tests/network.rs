//! The batched model: its kernels, its gradients, training and sampling.
use microgpt::adam::{adam_step, decayed_rate, Moments};
use microgpt::attention::{
    attn_mix_bwd_dp, attn_mix_bwd_dv, attn_mix_fwd, attn_scores_bwd_dk, attn_scores_bwd_dq,
    attn_softmax_bwd, attn_softmax_fwd, Heads,
};
use microgpt::batch::Batch;
use microgpt::capacity::{checked_sizes, document_at, tape_has_room};
use microgpt::embed::{embed_bwd_wpe, embed_bwd_wte, embed_fwd};
use microgpt::init::init_params;
use microgpt::layout::{Cfg, Layout, Ratio};
use microgpt::loss::{ce_bwd, ce_fwd, mean_loss, valid_count};
use microgpt::matmul::{matmul_nn, matmul_nt, matmul_tn};
use microgpt::model::{train_step, Model};
use microgpt::norm::{rmsnorm_bwd, rmsnorm_fwd};
use microgpt::pointwise::{add_fwd, add_inplace, relu_bwd_inplace, relu_fwd};
use microgpt::rng::{pick, Rng};
use microgpt::rows::{rows_per_chunk, Chunked, Serial};
use microgpt::sample::{generate, next_token, weights_of_logits, Sampler};
use microgpt::scalar::{Cast, Scalar};
use microgpt::shape::{
    D_H, D_LOGITS, D_Q, D_X, D_X0, D_XIN, GRADS, LOGITS, LOSSES, MLPO, PARAMS, PROBS, PROJ, R0,
    SHARED, X0, X1, X_MID, X_OUT,
};
use microgpt::tape::Tape;
use microgpt::tape_gpt::StateDict;
use microgpt::tape_sample::tape_sample;

#[derive(Clone, Copy, Debug, PartialEq)]
struct F32(f32);

impl Scalar for F32 {
    fn zero() -> F32 {
        F32(0.0)
    }
    fn one() -> F32 {
        F32(1.0)
    }
    fn tau() -> F32 {
        F32(std::f32::consts::TAU)
    }
    fn neg_infinity() -> F32 {
        F32(f32::NEG_INFINITY)
    }
    fn from_u64(n: u64) -> F32 {
        F32(n as f32)
    }
    fn ratio(num: u32, den: u32) -> F32 {
        F32(num as f32 / den as f32)
    }
    fn one_minus_pow(num: u32, den: u32, n: u32) -> F32 {
        F32((1.0 - (num as f64 / den as f64).powi(n as i32)) as f32)
    }
    fn add(self, other: F32) -> F32 {
        F32(self.0 + other.0)
    }
    fn sub(self, other: F32) -> F32 {
        F32(self.0 - other.0)
    }
    fn mul(self, other: F32) -> F32 {
        F32(self.0 * other.0)
    }
    fn div(self, other: F32) -> F32 {
        F32(self.0 / other.0)
    }
    fn neg(self) -> F32 {
        F32(-self.0)
    }
    fn max(self, other: F32) -> F32 {
        F32(self.0.max(other.0))
    }
    fn sqrt(self) -> F32 {
        F32(self.0.sqrt())
    }
    fn exp(self) -> F32 {
        F32(self.0.exp())
    }
    fn ln(self) -> F32 {
        F32(self.0.ln())
    }
    fn cos(self) -> F32 {
        F32(self.0.cos())
    }
    fn powf(self, exponent: F32) -> F32 {
        F32(self.0.powf(exponent.0))
    }
    fn is_positive(self) -> bool {
        self.0 > 0.0
    }
    fn is_nonpositive(self) -> bool {
        self.0 <= 0.0
    }
}

#[derive(Clone, Copy, Debug, PartialEq)]
struct F64(f64);

impl Scalar for F64 {
    fn zero() -> F64 {
        F64(0.0)
    }
    fn one() -> F64 {
        F64(1.0)
    }
    fn tau() -> F64 {
        F64(std::f64::consts::TAU)
    }
    fn neg_infinity() -> F64 {
        F64(f64::NEG_INFINITY)
    }
    fn from_u64(n: u64) -> F64 {
        F64(n as f64)
    }
    fn ratio(num: u32, den: u32) -> F64 {
        F64(num as f64 / den as f64)
    }
    fn one_minus_pow(num: u32, den: u32, n: u32) -> F64 {
        F64(1.0 - (num as f64 / den as f64).powi(n as i32))
    }
    fn add(self, other: F64) -> F64 {
        F64(self.0 + other.0)
    }
    fn sub(self, other: F64) -> F64 {
        F64(self.0 - other.0)
    }
    fn mul(self, other: F64) -> F64 {
        F64(self.0 * other.0)
    }
    fn div(self, other: F64) -> F64 {
        F64(self.0 / other.0)
    }
    fn neg(self) -> F64 {
        F64(-self.0)
    }
    fn max(self, other: F64) -> F64 {
        F64(self.0.max(other.0))
    }
    fn sqrt(self) -> F64 {
        F64(self.0.sqrt())
    }
    fn exp(self) -> F64 {
        F64(self.0.exp())
    }
    fn ln(self) -> F64 {
        F64(self.0.ln())
    }
    fn cos(self) -> F64 {
        F64(self.0.cos())
    }
    fn powf(self, exponent: F64) -> F64 {
        F64(self.0.powf(exponent.0))
    }
    fn is_positive(self) -> bool {
        self.0 > 0.0
    }
    fn is_nonpositive(self) -> bool {
        self.0 <= 0.0
    }
}

impl Cast<F32> for F64 {
    fn cast(self) -> F32 {
        F32(self.0 as f32)
    }
}

impl Cast<F64> for F32 {
    fn cast(self) -> F64 {
        F64(self.0 as f64)
    }
}

impl Cast<F64> for F64 {
    fn cast(self) -> F64 {
        self
    }
}

/// |analytic - numeric| must be small in absolute and relative terms.
fn assert_close(analytic: f32, numeric: f32, what: &str) {
    let tol = 1e-3 + 0.02 * numeric.abs();
    assert!((analytic - numeric).abs() < tol, "{what}: analytic {analytic} vs numeric {numeric}");
}

fn rand_vec(rng: &mut Rng, n: usize) -> Vec<F32> {
    (0..n).map(|_| rng.gauss(F64(0.0), F64(1.0)).cast()).collect()
}

fn zeros(n: usize) -> Vec<F32> {
    vec![F32(0.0); n]
}

fn init(rng: &mut Rng, cfg: &Cfg, vocab: usize) -> Vec<F32> {
    init_params::<F64, F32>(rng, cfg, vocab)
}

#[test]
fn rng_moments_are_sane() {
    let mut rng = Rng::new(7);
    let n = 20_000;
    let samples: Vec<f64> = (0..n).map(|_| rng.gauss(F64(0.0), F64(1.0)).0).collect();
    let mean = samples.iter().sum::<f64>() / n as f64;
    let var = samples.iter().map(|x| (x - mean) * (x - mean)).sum::<f64>() / n as f64;
    assert!(mean.abs() < 0.03, "gauss mean {mean}");
    assert!((var - 1.0).abs() < 0.05, "gauss var {var}");
}

#[test]
fn untrained_parity_loss_is_near_uniform() {
    let mut rng = Rng::new(42);
    let vocab = 27;
    let params = init(&mut rng, &Cfg::parity(), vocab);
    let mut model = Model::new(Cfg::parity(), vocab, params);
    let tokens: Vec<i32> = vec![26, 4, 12, 12, 0]; // BOS e m m a
    let targets: Vec<i32> = vec![4, 12, 12, 0, 26];
    model.forward(&Serial, &tokens, tokens.len());
    let loss = model.loss(&Serial, &targets).0;
    let uniform = (vocab as f32).ln();
    assert!((loss - uniform).abs() < 0.5, "untrained loss {loss} vs ln(V) {uniform}");
}

fn tiny() -> Cfg {
    Cfg {
        n_layer: 2,
        n_embd: 8,
        n_head: 2,
        block_size: 8,
        batch: 2,
        num_steps: 0,
        init_std: Ratio { num: 8, den: 100 },
        learning_rate: Ratio { num: 1, den: 100 },
    }
}

#[test]
fn multilayer_batched_gradients_match_finite_differences() {
    // A tiny scale-shaped config: multiple layers, a batch of two documents of
    // different lengths, padding and loss mask active.
    let tiny = tiny();
    let mut rng = Rng::new(7);
    let vocab = 11;
    let host_params = init(&mut rng, &tiny, vocab);
    let mut model = Model::new(tiny, vocab, host_params.clone());
    let l = Layout::new(&tiny, vocab);

    let tokens: Vec<i32> = vec![
        10, 3, 1, 4, 1, 5, 9, 2, // doc 0: 8 positions
        10, 2, 7, 1, 10, 10, 10, 10, // doc 1: 4 valid + BOS padding
    ];
    let targets: Vec<i32> = vec![
        3, 1, 4, 1, 5, 9, 2, 6, //
        2, 7, 1, 10, -1, -1, -1, -1,
    ];

    model.forward(&Serial, &tokens, 8);
    model.loss(&Serial, &targets);
    model.backward(&Serial);
    let grads = model.bank.bufs[GRADS].clone();

    let probes: Vec<usize> = vec![
        l.wte + 10 * 8 + 2,
        l.wte + 3 * 8 + 5,
        l.wpe + 6 * 8 + 1,
        l.lm_head + 2 * 8 + 4,
        l.layers[0].wq + 13,
        l.layers[0].wo + 40,
        l.layers[0].fc1 + 99,
        l.layers[1].wk + 21,
        l.layers[1].wv + 50,
        l.layers[1].fc2 + 123,
    ];

    let h = 1e-2f32;
    for &i in &probes {
        let mut eval = |delta: f32| -> f32 {
            model.bank.bufs[PARAMS].copy_from_slice(&host_params);
            model.bank.bufs[PARAMS][i].0 += delta;
            model.forward(&Serial, &tokens, 8);
            model.loss(&Serial, &targets).0
        };
        let numeric = (eval(h) - eval(-h)) / (2.0 * h);
        assert_close(grads[i].0, numeric, &format!("multilayer dparam[{i}]"));
    }
}

#[test]
fn main_multilayer_batched_gradients_match_finite_differences() {
    // The same probes with the rows divided among workers.
    let tiny = tiny();
    let mut rng = Rng::new(7);
    let vocab = 11;
    let host_params = init(&mut rng, &tiny, vocab);
    let mut model = Model::new(tiny, vocab, host_params.clone());
    let l = Layout::new(&tiny, vocab);
    let runner = Chunked { workers: 3 };

    let tokens: Vec<i32> = vec![
        10, 3, 1, 4, 1, 5, 9, 2, // doc 0: 8 positions
        10, 2, 7, 1, 10, 10, 10, 10, // doc 1: 4 valid + BOS padding
    ];
    let targets: Vec<i32> = vec![
        3, 1, 4, 1, 5, 9, 2, 6, //
        2, 7, 1, 10, -1, -1, -1, -1,
    ];

    model.forward(&runner, &tokens, tiny.block_size);
    model.loss(&runner, &targets);
    model.backward(&runner);
    let grads = model.bank.bufs[GRADS].clone();

    let probes: Vec<usize> = vec![
        l.wte + 10 * 8 + 2, // BOS row (also the pad token: its grad must survive too)
        l.wte + 3 * 8 + 5,
        l.wpe + 6 * 8 + 1, // a position only doc 0 reaches
        l.lm_head + 2 * 8 + 4,
        l.layers[0].wq + 13,
        l.layers[0].wo + 40,
        l.layers[0].fc1 + 99,
        l.layers[1].wk + 21,
        l.layers[1].wv + 50,
        l.layers[1].fc2 + 123,
    ];

    let h = 1e-2f32;
    for &i in &probes {
        let mut eval = |delta: f32| -> f32 {
            let mut p = host_params.clone();
            p[i].0 += delta;
            let mut probe = Model::new(tiny, vocab, p);
            probe.forward(&runner, &tokens, 8);
            probe.loss(&runner, &targets).0
        };
        let numeric = (eval(h) - eval(-h)) / (2.0 * h);
        assert_close(grads[i].0, numeric, &format!("multilayer dparam[{i}]"));
    }
}

#[test]
fn threaded_ops_match_serial_reference() {
    // dividing the rows must not change any element's math: compare a chunked matmul
    // against a plain triple loop.
    let mut rng = Rng::new(9);
    let (m, n, k) = (67usize, 33usize, 41usize); // odd sizes, forces ragged chunks
    let x = rand_vec(&mut rng, m * k);
    let w = rand_vec(&mut rng, n * k);
    let mut y = zeros(m * n);
    matmul_nt(&Chunked { workers: 8 }, &mut y, &x, &w, n, k, false);
    for r in 0..m {
        for col in 0..n {
            let want: f32 = (0..k).map(|p| x[r * k + p].0 * w[col * k + p].0).sum();
            assert_eq!(y[r * n + col].0.to_bits(), want.to_bits(), "matmul_nt [{r},{col}]");
        }
    }
}

#[test]
fn ragged_chunks_change_no_bit() {
    let mut rng = Rng::new(10);
    let (m, n, k) = (601usize, 67usize, 5usize); // large enough to be divided
    assert!(rows_per_chunk(m * n, m, 8).is_some());
    let x = rand_vec(&mut rng, m * k);
    let w = rand_vec(&mut rng, n * k);
    let mut serial = zeros(m * n);
    let mut chunked = zeros(m * n);
    matmul_nt(&Serial, &mut serial, &x, &w, n, k, false);
    matmul_nt(&Chunked { workers: 8 }, &mut chunked, &x, &w, n, k, false);
    assert!(serial.iter().zip(&chunked).all(|(a, b)| a.0.to_bits() == b.0.to_bits()));
    // ceil(601 / 8) rows for each worker; small buffers and single workers are not divided
    assert_eq!(rows_per_chunk(m * n, m, 8), Some(76));
    assert_eq!(rows_per_chunk(m * n, m, 1), None);
    assert_eq!(rows_per_chunk(0x7fff, 7, 8), None);
    assert_eq!(rows_per_chunk(0x8000, 8, 8), Some(1));
}

#[test]
fn matmul_kernels_match_host_reference() {
    let mut rng = Rng::new(1);
    let (m, n, kk) = (5usize, 7usize, 11usize);
    let a = rand_vec(&mut rng, m * kk);
    let b = rand_vec(&mut rng, n * kk); // used as (n,kk) for nt, (kk,n) for nn/tn
    let mut y = zeros(m * n);

    matmul_nt(&Serial, &mut y, &a, &b, n, kk, false);
    for r in 0..m {
        for c in 0..n {
            let want: f32 = (0..kk).map(|p| a[r * kk + p].0 * b[c * kk + p].0).sum();
            assert!((y[r * n + c].0 - want).abs() < 1e-4, "matmul_nt [{r},{c}]");
        }
    }

    matmul_nn(&Serial, &mut y, &a, &b, n, kk, false);
    for r in 0..m {
        for c in 0..n {
            let want: f32 = (0..kk).map(|p| a[r * kk + p].0 * b[p * n + c].0).sum();
            assert!((y[r * n + c].0 - want).abs() < 1e-4, "matmul_nn [{r},{c}]");
        }
    }

    let (m2, n2, k2) = (4usize, 6usize, 9usize);
    let a2 = rand_vec(&mut rng, k2 * m2);
    let b2 = rand_vec(&mut rng, k2 * n2);
    let mut w = zeros(m2 * n2);
    matmul_tn(&Serial, &mut w, &a2, &b2, m2, n2, k2);
    for r in 0..m2 {
        for c in 0..n2 {
            let want: f32 = (0..k2).map(|p| a2[p * m2 + r].0 * b2[p * n2 + c].0).sum();
            assert!((w[r * n2 + c].0 - want).abs() < 1e-4, "matmul_tn [{r},{c}]");
        }
    }
}

#[test]
fn the_interchanged_loops_match_the_naive_ones_bit_by_bit() {
    let mut rng = Rng::new(12);
    let (m, n, k) = (6usize, 9usize, 13usize);
    let x = rand_vec(&mut rng, m * k);
    let w = rand_vec(&mut rng, k * n);
    let start = rand_vec(&mut rng, m * n);
    let mut y = start.clone();
    matmul_nn(&Serial, &mut y, &x, &w, n, k, true);
    for r in 0..m {
        for c in 0..n {
            let mut acc = 0.0f32;
            for p in 0..k {
                acc += x[r * k + p].0 * w[p * n + c].0;
            }
            let want = start[r * n + c].0 + acc;
            assert_eq!(y[r * n + c].0.to_bits(), want.to_bits());
        }
    }
}

#[test]
fn rmsnorm_backward_matches_finite_differences() {
    let mut rng = Rng::new(2);
    let (t, c) = (3usize, 8usize);
    let x = rand_vec(&mut rng, t * c);
    let w = rand_vec(&mut rng, t * c); // loss = dot(w, rmsnorm(x)), so dy = w

    let fwd = |x: &[F32]| -> f32 {
        let mut y = zeros(t * c);
        let mut r = zeros(t);
        rmsnorm_fwd(&Serial, &mut y, &mut r, x, c);
        y.iter().zip(&w).map(|(a, b)| a.0 * b.0).sum()
    };

    let mut y = zeros(t * c);
    let mut r = zeros(t);
    rmsnorm_fwd(&Serial, &mut y, &mut r, &x, c);
    let mut analytic = zeros(t * c);
    rmsnorm_bwd(&Serial, &mut analytic, &x, &r, &w, c, false);

    let h = 1e-2f32;
    for i in 0..t * c {
        let mut xp = x.clone();
        let mut xm = x.clone();
        xp[i].0 += h;
        xm[i].0 -= h;
        let numeric = (fwd(&xp) - fwd(&xm)) / (2.0 * h);
        assert_close(analytic[i].0, numeric, &format!("rmsnorm dx[{i}]"));
    }
}

#[test]
fn attention_backward_matches_finite_differences() {
    let mut rng = Rng::new(3);
    // batch of 2 exercises the batched indexing in every attention kernel
    let (b_n, h_n, t, d) = (2usize, 2usize, 5usize, 3usize);
    let hs = Heads { b_n, h_n, t_len: t, d };
    let c = h_n * d;
    let rows = b_n * t;
    let q = rand_vec(&mut rng, rows * c);
    let kv = rand_vec(&mut rng, rows * c);
    let v = rand_vec(&mut rng, rows * c);
    let w = rand_vec(&mut rng, rows * c); // loss = dot(w, attention(q,k,v))

    let fwd = |q: &[F32], kk: &[F32], v: &[F32]| -> f32 {
        let mut att = zeros(b_n * h_n * t * t);
        let mut y = zeros(rows * c);
        attn_softmax_fwd(&Serial, &mut att, q, kk, hs);
        attn_mix_fwd(&Serial, &mut y, &att, v, hs);
        y.iter().zip(&w).map(|(a, b)| a.0 * b.0).sum()
    };

    // analytic: chain the backward kernels
    let mut att = zeros(b_n * h_n * t * t);
    attn_softmax_fwd(&Serial, &mut att, &q, &kv, hs);
    let mut d_att = zeros(b_n * h_n * t * t);
    let mut d_scores = zeros(b_n * h_n * t * t);
    let mut gq = zeros(rows * c);
    let mut gk = zeros(rows * c);
    let mut gv = zeros(rows * c);
    attn_mix_bwd_dp(&Serial, &mut d_att, &w, &v, hs);
    attn_mix_bwd_dv(&Serial, &mut gv, &att, &w, hs);
    attn_softmax_bwd(&Serial, &mut d_scores, &att, &d_att, t);
    attn_scores_bwd_dq(&Serial, &mut gq, &d_scores, &kv, hs);
    attn_scores_bwd_dk(&Serial, &mut gk, &d_scores, &q, hs);

    let h = 1e-2f32;
    for i in 0..rows * c {
        let perturb = |base: &[F32], delta: f32| {
            let mut p = base.to_vec();
            p[i].0 += delta;
            p
        };
        let nq = (fwd(&perturb(&q, h), &kv, &v) - fwd(&perturb(&q, -h), &kv, &v)) / (2.0 * h);
        let nk = (fwd(&q, &perturb(&kv, h), &v) - fwd(&q, &perturb(&kv, -h), &v)) / (2.0 * h);
        let nv = (fwd(&q, &kv, &perturb(&v, h)) - fwd(&q, &kv, &perturb(&v, -h))) / (2.0 * h);
        assert_close(gq[i].0, nq, &format!("attn dq[{i}]"));
        assert_close(gk[i].0, nk, &format!("attn dk[{i}]"));
        assert_close(gv[i].0, nv, &format!("attn dv[{i}]"));
    }
}

#[test]
fn attention_is_causal() {
    let hs = Heads { b_n: 1, h_n: 1, t_len: 3, d: 2 };
    let q = vec![F32(0.0); 6];
    let mut att = vec![F32(9.0); 9];
    attn_softmax_fwd(&Serial, &mut att, &q, &q, hs);
    // equal scores: each row is uniform over its past, and zero above the diagonal
    let rows: Vec<f32> = att.iter().map(|a| a.0).collect();
    assert_eq!(rows[..6], [1.0, 0.0, 0.0, 0.5, 0.5, 0.0]);
    assert!(rows[6..].iter().all(|&p| p == 1.0 / 3.0));
}

#[test]
fn cross_entropy_backward_matches_finite_differences() {
    let mut rng = Rng::new(4);
    let (t, v) = (4usize, 7usize);
    let logits = rand_vec(&mut rng, t * v);
    let targets: Vec<i32> = vec![2, 0, -1, 5]; // one padded (masked) row
    let valid = valid_count(&targets);
    assert_eq!(valid, 3);

    let fwd = |logits: &[F32]| -> f32 {
        let mut losses = zeros(t);
        let mut probs = zeros(t * v);
        ce_fwd(&mut losses, &mut probs, logits, &targets, v);
        mean_loss(&losses, t, valid).0
    };

    let mut losses = zeros(t);
    let mut probs = zeros(t * v);
    let mut analytic = zeros(t * v);
    ce_fwd(&mut losses, &mut probs, &logits, &targets, v);
    ce_bwd(&Serial, &mut analytic, &probs, &targets, v, valid);
    assert_eq!(losses[2], F32(0.0));
    assert!(analytic[14..21].iter().all(|&g| g == F32(0.0)));

    let h = 1e-2f32;
    for i in 0..t * v {
        let mut lp = logits.clone();
        let mut lm = logits.clone();
        lp[i].0 += h;
        lm[i].0 -= h;
        let numeric = (fwd(&lp) - fwd(&lm)) / (2.0 * h);
        assert_close(analytic[i].0, numeric, &format!("ce dlogits[{i}]"));
    }
}

#[test]
fn end_to_end_gradients_match_finite_differences() {
    let mut rng = Rng::new(42);
    let vocab = 27;
    let host_params = init(&mut rng, &Cfg::parity(), vocab);
    let mut model = Model::new(Cfg::parity(), vocab, host_params.clone());
    let l = Layout::new(&Cfg::parity(), vocab);
    let lo = l.layers[0];

    let tokens: Vec<i32> = vec![26, 4, 12, 12, 0]; // BOS e m m a
    let targets: Vec<i32> = vec![4, 12, 12, 0, 26];

    let loss0 = {
        model.forward(&Serial, &tokens, tokens.len());
        model.loss(&Serial, &targets).0
    };
    // untrained loss should sit near the uniform floor ln(27) ~ 3.296
    let uniform = (vocab as f32).ln();
    assert!((loss0 - uniform).abs() < 0.5, "untrained loss {loss0} vs ln(V) {uniform}");

    model.backward(&Serial);
    let grads = model.bank.bufs[GRADS].clone();

    // probe a few parameters from every matrix in the model
    let probes: Vec<usize> = [
        l.wte + 26 * 16 + 3, // a token actually used (BOS row)
        l.wte + 4 * 16 + 7,  // 'e' row
        l.wpe + 5,
        l.wpe + 2 * 16 + 1,
        l.lm_head + 4 * 16 + 2,
        l.lm_head + 26 * 16 + 9,
        lo.wq,
        lo.wq + 100,
        lo.wk + 37,
        lo.wv + 200,
        lo.wo + 141,
        lo.fc1 + 11,
        lo.fc1 + 500,
        lo.fc2 + 300,
        lo.fc2 + 777,
    ]
    .to_vec();

    let h = 1e-2f32;
    for &i in &probes {
        let mut eval = |delta: f32| -> f32 {
            model.bank.bufs[PARAMS].copy_from_slice(&host_params);
            model.bank.bufs[PARAMS][i].0 += delta;
            model.forward(&Serial, &tokens, tokens.len());
            model.loss(&Serial, &targets).0
        };
        let numeric = (eval(h) - eval(-h)) / (2.0 * h);
        assert_close(grads[i].0, numeric, &format!("end-to-end dparam[{i}]"));
    }
}

#[test]
fn training_is_bit_deterministic() {
    let run = |workers: usize| -> (f32, Vec<F32>) {
        let runner = Chunked { workers };
        let mut rng = Rng::new(42);
        let vocab = 27;
        let host_params = init(&mut rng, &Cfg::parity(), vocab);
        let mut model = Model::new(Cfg::parity(), vocab, host_params);
        let tokens: Vec<i32> = vec![26, 4, 12, 12, 0];
        let targets: Vec<i32> = vec![4, 12, 12, 0, 26];
        let mut last = 0.0;
        for step in 0..20 {
            model.forward(&runner, &tokens, tokens.len());
            last = model.loss(&runner, &targets).0;
            model.backward(&runner);
            model.adam(step, F32(0.01));
        }
        (last, model.bank.bufs[PARAMS].clone())
    };
    let (l1, p1) = run(1);
    let (l2, p2) = run(4);
    assert_eq!(l1.to_bits(), l2.to_bits(), "loss must be bit-identical");
    assert!(
        p1.iter().zip(&p2).all(|(a, b)| a.0.to_bits() == b.0.to_bits()),
        "params must be bit-identical"
    );
    assert!(l1 < 3.0, "20 steps on one doc should reduce the loss below start ({l1})");
}

#[test]
fn the_optimizer_consumes_the_gradients() {
    let mut rng = Rng::new(42);
    let params = init(&mut rng, &Cfg::parity(), 27);
    let before = params.clone();
    let mut model = Model::new(Cfg::parity(), 27, params);
    model.forward(&Serial, &[26, 4, 12], 3);
    model.loss(&Serial, &[4, 12, 26]);
    model.backward(&Serial);
    let g = model.bank.bufs[GRADS].clone();
    assert!(g.iter().any(|g| g.0 != 0.0));
    model.adam(0, F32(0.01));
    assert!(model.bank.bufs[GRADS].iter().all(|g| *g == F32(0.0)));
    let i = (0..g.len()).find(|&i| g[i].0.abs() > 1e-3).unwrap();
    // the first step is the learning rate along the sign of the gradient
    let moved = model.bank.bufs[PARAMS][i].0 - before[i].0;
    assert!((moved + 0.01 * g[i].0.signum()).abs() < 1e-4);
}

#[test]
fn padding_gets_no_gradient_and_changes_no_valid_position() {
    let tiny = tiny();
    let mut rng = Rng::new(7);
    let vocab = 11;
    let params = init(&mut rng, &tiny, vocab);
    let targets: Vec<i32> = vec![3, 1, 4, 1, 5, 9, 2, 6, 2, 7, 1, 10, -1, -1, -1, -1];
    let run = |pad: i32| {
        let mut model = Model::new(tiny, vocab, params.clone());
        let tokens: Vec<i32> = vec![10, 3, 1, 4, 1, 5, 9, 2, 10, 2, 7, 1, pad, pad, pad, pad];
        model.forward(&Serial, &tokens, 8);
        let loss = model.loss(&Serial, &targets);
        model.backward(&Serial);
        assert!(model.bank.bufs[D_LOGITS][12 * 11..16 * 11].iter().all(|g| g.0 == 0.0));
        assert!(model.bank.bufs[D_X0][12 * 8..16 * 8].iter().all(|g| g.0 == 0.0));
        let last = model.bank.bufs[SHARED + 13 + X_OUT][..12 * 8].to_vec();
        (loss, last, model.bank.bufs[GRADS].clone())
    };
    let (loss1, rows1, grads1) = run(10);
    let (loss2, rows2, grads2) = run(4);
    assert_eq!(loss1, loss2);
    assert_eq!(rows1, rows2);
    assert_eq!(grads1, grads2);
}

#[test]
fn padding_reaches_no_embedding() {
    let mut model = Model::new(tiny(), 11, init(&mut Rng::new(7), &tiny(), 11));
    let tokens: Vec<i32> = vec![10, 3, 1, 4, 0, 0, 0, 0, 10, 2, 7, 1, 0, 0, 0, 0];
    let targets: Vec<i32> = vec![3, 1, 4, 10, -1, -1, -1, -1, 2, 7, 1, 10, -1, -1, -1, -1];
    model.forward(&Serial, &tokens, 8);
    model.loss(&Serial, &targets);
    model.backward(&Serial);
    let l = Layout::new(&tiny(), 11);
    let row = |start: usize, i: usize| {
        let from = start + i * 8;
        model.bank.bufs[GRADS][from..from + 8].iter().any(|g| g.0 != 0.0)
    };
    for token in [0, 5, 6, 8, 9] {
        assert!(!row(l.wte, token));
    }
    for token in [1, 2, 3, 4, 7, 10] {
        assert!(row(l.wte, token));
    }
    for t in 0..8 {
        assert_eq!(row(l.wpe, t), t < 4);
    }
}

#[test]
fn a_prefix_alone_has_the_logits_that_it_has_in_the_batch() {
    let mut model = Model::new(tiny(), 11, init(&mut Rng::new(7), &tiny(), 11));
    let tokens: Vec<i32> = vec![10, 3, 1, 4, 1, 5, 9, 2, 10, 2, 7, 1, 8, 2, 8, 1];
    model.forward(&Serial, &tokens, 8);
    let all = model.bank.bufs[LOGITS].clone();
    for (doc, len) in [(0, 1), (0, 5), (1, 3), (1, 8)] {
        model.forward(&Serial, &tokens[doc * 8..doc * 8 + len], len);
        let from = doc * 8 * 11;
        assert_eq!(model.bank.bufs[LOGITS][..len * 11], all[from..from + len * 11]);
    }
}

#[test]
fn a_short_run_keeps_what_lies_behind_it() {
    let mut model = Model::new(tiny(), 11, init(&mut Rng::new(7), &tiny(), 11));
    let tokens: Vec<i32> = vec![10, 3, 1, 4, 1, 5, 9, 2, 10, 2, 7, 1, 8, 2, 8, 1];
    let targets: Vec<i32> = vec![3, 1, 4, 1, 5, 9, 2, 10, 2, 7, 1, 8, 2, 8, 1, 10];
    model.forward(&Serial, &tokens, 8);
    model.loss(&Serial, &targets);
    let long = model.bank.bufs.clone();
    model.forward(&Serial, &[10, 2, 7], 3);
    assert_eq!(model.tokens[..3], [10, 2, 7]);
    assert_eq!(model.tokens[3..], tokens[3..]);
    for (buf, width) in [(X0, 8), (R0, 1), (LOGITS, 11), (SHARED + X_OUT, 8)] {
        let run = 3 * width;
        assert_eq!(model.bank.bufs[buf][run..], long[buf][run..]);
        assert_ne!(model.bank.bufs[buf][..run], long[buf][..run]);
    }
    model.loss(&Serial, &[2, 7, 10]);
    assert_eq!(model.targets[..3], [2, 7, 10]);
    assert_eq!(model.targets[3..], targets[3..]);
    assert_eq!(model.tokens[3..], tokens[3..]);
    for (buf, width) in [(PROBS, 11), (LOSSES, 1)] {
        let run = 3 * width;
        assert_eq!(model.bank.bufs[buf][run..], long[buf][run..]);
        assert_ne!(model.bank.bufs[buf][..run], long[buf][..run]);
    }
}

#[test]
fn a_short_backward_pass_keeps_what_lies_behind_it() {
    for n_layer in [1, 2] {
        let cfg = Cfg { n_layer, ..tiny() };
        let mut model = Model::new(cfg, 11, init(&mut Rng::new(7), &cfg, 11));
        let tokens: Vec<i32> = vec![10, 3, 1, 4, 1, 5, 9, 2, 10, 2, 7, 1, 8, 2, 8, 1];
        let targets: Vec<i32> = vec![3, 1, 4, 1, 5, 9, 2, 10, 2, 7, 1, 8, 2, 8, 1, 10];
        model.forward(&Serial, &tokens, 8);
        model.loss(&Serial, &targets);
        model.backward(&Serial);
        let long = model.bank.bufs.clone();
        model.forward(&Serial, &[10, 2, 7], 3);
        model.loss(&Serial, &[2, 7, 10]);
        model.backward(&Serial);
        for (buf, width) in [(D_LOGITS, 11), (D_H, 32), (D_Q, 8), (D_X0, 8)] {
            let run = 3 * width;
            assert_eq!(model.bank.bufs[buf][run..], long[buf][run..]);
            assert_ne!(model.bank.bufs[buf][..run], long[buf][..run]);
        }
        // every layer exchanges these two
        let (x, xin) = if n_layer % 2 == 1 { (D_XIN, D_X) } else { (D_X, D_XIN) };
        assert_ne!(long[D_X][24..], long[D_XIN][24..]);
        assert_eq!(model.bank.bufs[D_X][24..], long[x][24..]);
        assert_eq!(model.bank.bufs[D_XIN][24..], long[xin][24..]);
    }
}

#[test]
fn the_scratch_buffers_hold_what_came_last() {
    let cfg = Cfg { n_layer: 1, ..tiny() };
    let mut model = Model::new(cfg, 11, init(&mut Rng::new(7), &cfg, 11));
    model.forward(&Serial, &[10, 3, 1, 4], 2);
    for i in 0..4 * 8 {
        let (mid, out) = (model.bank.bufs[SHARED + X_MID][i], model.bank.bufs[SHARED + X_OUT][i]);
        assert_eq!(model.bank.bufs[X1][i].0 + model.bank.bufs[PROJ][i].0, mid.0);
        assert_eq!(mid.0 + model.bank.bufs[MLPO][i].0, out.0);
    }
    model.loss(&Serial, &[3, 1, 4, 10]);
    model.backward(&Serial);
    // the gradient of the layer's output, which the exchange has put behind that of its input
    let l = Layout::new(&cfg, 11);
    for (r, c) in [(0, 0), (1, 5), (3, 7)] {
        let want: f32 = (0..11)
            .map(|v| {
                let w = model.bank.bufs[PARAMS][l.lm_head + v * 8 + c].0;
                model.bank.bufs[D_LOGITS][r * 11 + v].0 * w
            })
            .sum();
        assert!((model.bank.bufs[D_XIN][r * 8 + c].0 - want).abs() < 1e-6);
    }
    assert_ne!(model.bank.bufs[D_X][..32], model.bank.bufs[D_XIN][..32]);
}

#[test]
fn backward_adds_to_the_gradients() {
    let params = init(&mut Rng::new(7), &tiny(), 11);
    let (a, b): (Vec<i32>, Vec<i32>) = (vec![10, 3, 1, 4, 1, 5], vec![10, 2, 7, 1, 8, 2]);
    let (ta, tb): (Vec<i32>, Vec<i32>) = (vec![3, 1, 4, 1, 5, 10], vec![2, 7, 1, 8, 2, -1]);
    let add = |model: &mut Model<F32>, tokens: &[i32], targets: &[i32]| {
        model.forward(&Serial, tokens, 3);
        model.loss(&Serial, targets);
        model.backward(&Serial);
        model.bank.bufs[GRADS].clone()
    };
    let only_a = add(&mut Model::new(tiny(), 11, params.clone()), &a, &ta);
    let only_b = add(&mut Model::new(tiny(), 11, params.clone()), &b, &tb);
    let mut model = Model::new(tiny(), 11, params);
    add(&mut model, &a, &ta);
    let both = add(&mut model, &b, &tb);
    assert!(only_a.iter().any(|g| g.0 != 0.0) && only_a != only_b);
    for i in 0..both.len() {
        let sum = only_a[i].0 + only_b[i].0;
        assert!((both[i].0 - sum).abs() < 1e-6, "{} vs {}", both[i].0, sum);
    }
    model.backward(&Serial);
    for i in 0..both.len() {
        let sum = both[i].0 + only_b[i].0;
        assert!((model.bank.bufs[GRADS][i].0 - sum).abs() < 1e-6);
    }
}

#[test]
fn generating_keeps_what_training_needs() {
    let mut rng = Rng::new(42);
    let params = init(&mut rng, &Cfg::parity(), 27);
    let mut model = Model::new(Cfg::parity(), 27, params);
    let tokens: Vec<i32> = vec![26, 4, 12, 12, 0];
    let targets: Vec<i32> = vec![4, 12, 12, 0, 26];
    model.forward(&Serial, &tokens, 5);
    model.loss(&Serial, &targets);
    model.backward(&Serial);
    let (params, grads) = (model.bank.bufs[PARAMS].clone(), model.bank.bufs[GRADS].clone());
    let half = Ratio { num: 1, den: 2 };
    let doc = generate::<F32, F64, Serial>(&mut model, &Serial, &mut rng, 26, half);
    assert!(doc.len() <= 17);
    assert_eq!(model.bank.bufs[PARAMS], params);
    assert_eq!(model.bank.bufs[GRADS], grads);
}

#[test]
fn sizes_are_counted_or_refused() {
    assert_eq!(checked_sizes(&Cfg::parity(), 27), Some(4192));
    assert_eq!(checked_sizes(&Cfg::scale(), 27), Some(795_392));
    let mut cfg = tiny();
    cfg.n_layer = 0;
    cfg.n_embd = 1 << 40;
    cfg.batch = 0;
    assert_eq!(checked_sizes(&cfg, 1), Some(10 << 40));
    cfg.n_layer = 1;
    assert_eq!(checked_sizes(&cfg, 1), None);
    assert_eq!(checked_sizes(&tiny(), usize::MAX), None);
    for field in 0..4 {
        let mut cfg = tiny();
        match field {
            0 => cfg.n_layer = usize::MAX / 2,
            1 => cfg.n_head = usize::MAX / 4,
            2 => cfg.block_size = usize::MAX / 8,
            _ => cfg.batch = usize::MAX / 4,
        }
        assert_eq!(checked_sizes(&cfg, 27), None);
    }
}

#[test]
fn a_tape_has_room_for_small_models() {
    assert!(tape_has_room(&Cfg::parity(), 27));
    assert!(tape_has_room(&Cfg::scale(), 27));
    assert!(!tape_has_room(&Cfg::parity(), 1 << 28));
    let mut cfg = Cfg::parity();
    cfg.block_size = usize::MAX / 1024;
    assert!(!tape_has_room(&cfg, 27));
    let flat = Cfg { n_layer: 0, ..Cfg::parity() };
    assert!(tape_has_room(&flat, 27));
    let one = Cfg { n_layer: 0, n_embd: 1, n_head: 1, block_size: 1, ..Cfg::parity() };
    // Behind 2v + 1 parameters a sample of one token needs 1 + 5 + v + 5v - 1 nodes.
    assert!(tape_has_room(&one, 536_870_911));
    assert!(!tape_has_room(&one, 536_870_912));
}

#[test]
fn documents_come_in_turn() {
    let turns: Vec<usize> = (0..7).map(|step| document_at(step, 3)).collect();
    assert_eq!(turns, vec![0, 1, 2, 0, 1, 2, 0]);
}

#[test]
fn configurations_have_their_sizes() {
    assert_eq!(Layout::new(&Cfg::parity(), 27).total, 4192);
    assert_eq!(Layout::new(&Cfg::scale(), 27).total, 795_392);
    assert_eq!(Cfg::parity().head_dim(), 4);
    assert_eq!(Cfg::scale().head_dim(), 16);
    assert_eq!(Cfg::scale().max_rows(), 512);
    let l = Layout::new(&Cfg::parity(), 27);
    assert_eq!((l.wte, l.wpe, l.lm_head), (0, 432, 688));
    assert_eq!((l.layers[0].wq, l.layers[0].wk, l.layers[0].fc1), (1120, 1376, 2144));
    assert_eq!(l.layers[0].fc2, 3168);
}

#[test]
fn constants_round_like_decimal_literals() {
    assert_eq!(F32::ratio(85, 100).0.to_bits(), 0.85f32.to_bits());
    assert_eq!(F32::ratio(99, 100).0.to_bits(), 0.99f32.to_bits());
    assert_eq!(F32::ratio(1, 100_000).0.to_bits(), 1e-5f32.to_bits());
    assert_eq!(F32::ratio(1, 100_000_000).0.to_bits(), 1e-8f32.to_bits());
    assert_eq!(F64::ratio(8, 100).0.to_bits(), 0.08f64.to_bits());
}

#[test]
fn generator_draws_are_those_of_splitmix() {
    let mut r = Rng::new(0);
    assert_eq!(r.next_u64(), 0xE220A8397B1DCDAF);
    assert_eq!(r.next_u64(), 0x6E789E6AA1B965F4);
    let mut u = Rng::new(0);
    assert_eq!(u.uniform::<F64>().0, (0xE220A8397B1DCDAFu64 >> 11) as f64 / (1u64 << 53) as f64);
}

#[test]
fn shuffling_permutes() {
    let mut xs: Vec<u32> = (0..50).collect();
    let mut rng = Rng::new(42);
    rng.shuffle(&mut xs);
    assert_ne!(xs, (0..50).collect::<Vec<u32>>());
    let mut again: Vec<u32> = (0..50).collect();
    Rng::new(42).shuffle(&mut again);
    assert_eq!(xs, again);
    xs.sort();
    assert_eq!(xs, (0..50).collect::<Vec<u32>>());
    let mut three = vec!['a', 'b', 'c'];
    let mut draws = Rng::new(5);
    let (d1, d2) = (draws.next_u64(), draws.next_u64());
    let mut want = vec!['a', 'b', 'c'];
    want.swap(2, (d1 % 3) as usize);
    want.swap(1, (d2 % 2) as usize);
    Rng::new(5).shuffle(&mut three);
    assert_eq!(three, want);
}

#[test]
fn choices_follow_the_weights() {
    // one weight has it all
    let mut rng = Rng::new(3);
    for _ in 0..20 {
        assert_eq!(rng.choices(&[F64(0.0), F64(0.0), F64(2.0)]), 2);
    }
    let mut counts = [0usize; 2];
    for _ in 0..10_000 {
        counts[rng.choices(&[F64(1.0), F64(3.0)])] += 1;
    }
    assert!((7_300..7_700).contains(&counts[1]), "{counts:?}");
    // not a number: nothing is reached, so the last index is taken
    assert_eq!(rng.choices(&[F64(f64::NAN), F64(1.0)]), 1);
}

#[test]
fn an_index_without_weight_is_never_drawn() {
    // the first number of this generator is zero
    let seed = 0x61C8864680B583EB;
    assert_eq!(Rng::new(seed).uniform::<F64>(), F64(0.0));
    assert_eq!(Rng::new(seed).choices(&[F64(0.0), F64(1.0)]), 1);
    assert_eq!(Rng::new(seed).choices(&[F64(0.0), F64(0.0), F64(3.0), F64(0.0)]), 2);
    assert_eq!(Rng::new(seed).choices(&[F64(2.0), F64(1.0)]), 0);
    // what rounding leaves to the end belongs to the last weight
    assert_eq!(pick(&[F64(1.0), F64(2.0), F64(0.0)], F64(3.5)), 1);
    // without weights the first index has it all
    assert_eq!(Rng::new(seed).choices(&[F64(0.0), F64(0.0)]), 0);
    let mut rng = Rng::new(4);
    for _ in 0..1000 {
        assert_eq!(rng.choices(&[F64(0.0), F64(0.5), F64(0.0)]), 1);
    }
}

#[test]
fn weights_that_are_no_proportions_are_taken_away_in_turn() {
    let nan = f64::NAN;
    // nothing is reached, so the last index is taken
    assert_eq!(Rng::new(5).choices(&[F64(1.0), F64(nan)]), 1);
    assert_eq!(Rng::new(5).choices(&[F64(nan), F64(0.0)]), 1);
    assert_eq!(pick(&[F64(1.0), F64(nan)], F64(nan)), 1);
    assert_eq!(pick(&[F64(1.0), F64(nan)], F64(0.5)), 0);
    // a draw of one half of a total of -3
    assert_eq!(pick(&[F64(-1.0), F64(-3.0), F64(1.0)], F64(-1.5)), 0);
    // a zero among negative weights is not passed over
    assert_eq!(pick(&[F64(0.0), F64(-1.0), F64(2.0)], F64(0.0)), 0);
    assert_eq!(pick(&[F64(-1.0), F64(2.0), F64(0.0)], F64(5.0)), 2);
    assert_eq!(pick(&[F64(0.0), F64(1.0), F64(2.0)], F64(0.0)), 1);
    assert_eq!(pick(&[F64(0.0), F64(0.0)], F64(0.0)), 0);
    assert_eq!(pick(&[F64(0.0), F64(0.0)], F64(1.0)), 1);
}

#[test]
fn choices_do_not_depend_on_the_scale_of_the_weights() {
    let weights = [0.0, 0.3, 2.5, 0.0, 1.25, 0.7];
    for scale in [0.125, 4.0, 1024.0] {
        let (mut a, mut b) = (Rng::new(9), Rng::new(9));
        for _ in 0..200 {
            let k = a.choices(&weights.map(F64));
            assert_eq!(b.choices(&weights.map(|w| F64(scale * w))), k);
            assert_eq!(a.0, b.0);
        }
    }
}

#[test]
fn weights_are_exponentials_over_the_temperature() {
    let half = Ratio { num: 1, den: 2 };
    let ws: Vec<F64> = weights_of_logits(&[F32(1.0), F32(3.0), F32(2.0)], half);
    let want = [(-4.0f64).exp(), 1.0, (-2.0f64).exp()];
    for (w, x) in ws.iter().zip(want) {
        assert!((w.0 - x).abs() < 1e-15);
    }
    let mut rng = Rng::new(8);
    let k = next_token::<F32, F64>(&mut rng, &[F32(-500.0), F32(500.0)], half);
    assert_eq!(k, 1);
}

#[test]
fn a_sampler_ends_at_the_mark_or_at_the_limit() {
    let mut s = Sampler::new(26, 2);
    assert!(s.wants_more());
    s.take(3);
    assert!(s.wants_more());
    s.take(26);
    assert!(s.ended && !s.wants_more());
    assert_eq!(s.ctx, vec![26, 3]);
    let mut full = Sampler::new(26, 1);
    full.take(0);
    assert!(!full.ended && !full.wants_more());
    assert_eq!(full.ctx, vec![26, 0]);
}

#[test]
fn generated_documents_are_reproducible() {
    let run = || {
        let mut rng = Rng::new(42);
        let params = init(&mut rng, &Cfg::parity(), 27);
        let mut model = Model::new(Cfg::parity(), 27, params);
        let half = Ratio { num: 1, den: 2 };
        (0..5)
            .map(|_| generate::<F32, F64, Serial>(&mut model, &Serial, &mut rng, 26, half))
            .collect::<Vec<Vec<i32>>>()
    };
    let docs = run();
    assert!(docs.iter().all(|d| d[0] == 26 && d.len() <= 17));
    assert!(docs.iter().all(|d| d[1..].iter().all(|&k| (0..26).contains(&k))));
    assert_eq!(docs, run());
}

#[test]
fn the_tape_and_the_network_draw_the_same_documents() {
    let cfg = Cfg { init_std: Ratio { num: 1, den: 2 }, ..Cfg::parity() };
    let half = Ratio { num: 1, den: 2 };
    let (mut tape_rng, mut rng) = (Rng::new(42), Rng::new(42));
    let mut tape: Tape<F64> = Tape::new();
    let sd = StateDict::init(&mut tape, &mut tape_rng, &cfg, 27);
    let params = init_params::<F64, F64>(&mut rng, &cfg, 27);
    assert_eq!(tape_rng.0, rng.0);
    let mut model: Model<F64> = Model::new(cfg, 27, params);
    let mut drawn = 0;
    for _ in 0..4 {
        let on_tape = tape_sample(&mut tape, &cfg, &sd, &mut tape_rng, 26, half);
        let ctx = generate::<F64, F64, Serial>(&mut model, &Serial, &mut rng, 26, half);
        let doc: Vec<usize> = ctx[1..].iter().map(|&k| k as usize).collect();
        assert_eq!(doc, on_tape);
        assert_eq!(tape_rng.0, rng.0);
        drawn += doc.len();
    }
    assert!(drawn > 0);
}

#[test]
fn one_step_of_training_uses_the_decayed_rate() {
    let lr = decayed_rate(F32(0.01), 250, 1000);
    assert_eq!(lr, F32(0.01 * 0.75));
    let after = adam_step(0, F32(0.5), F32(2.0), Moments { p: F32(1.0), m: F32(0.0), v: F32(0.0) });
    assert!((after.m.0 - 0.3).abs() < 1e-6);
    assert!((after.v.0 - 0.04).abs() < 1e-6);
    assert!((after.p.0 - 0.5).abs() < 1e-5);
    let mut rng = Rng::new(42);
    let cfg = Cfg { num_steps: 4, ..Cfg::parity() };
    let params = init(&mut rng, &cfg, 27);
    let mut a = Model::new(cfg, 27, params.clone());
    let mut b = Model::new(cfg, 27, params);
    let batch = Batch { tokens: vec![26, 4, 12], targets: vec![4, 12, 26], t_len: 3 };
    for step in 0..2 {
        let la = train_step(&mut a, &Serial, &batch, step);
        b.forward(&Serial, &batch.tokens, 3);
        let lb = b.loss(&Serial, &batch.targets);
        b.backward(&Serial);
        b.adam(step, F32(0.01 * (1.0 - step as f32 / 4.0)));
        assert_eq!(la, lb);
    }
    assert_eq!(a.bank.bufs[PARAMS], b.bank.bufs[PARAMS]);
}

#[test]
fn embeddings_gather_and_their_gradients_add_up() {
    let wte: Vec<F32> = [1.0, 2.0, 3.0, 4.0].map(F32).to_vec();
    let wpe: Vec<F32> = [10.0, 20.0, 30.0, 40.0].map(F32).to_vec();
    let tokens = [1, 0, 1, 1];
    let mut x = zeros(8);
    embed_fwd(&Serial, &mut x, &wte, &wpe, &tokens, 2, 2);
    let got: Vec<f32> = x.iter().map(|v| v.0).collect();
    assert_eq!(got, vec![13.0, 24.0, 31.0, 42.0, 13.0, 24.0, 33.0, 44.0]);
    let dx: Vec<F32> = [1.0, 2.0, 3.0, 4.0, 5.0, 6.0, 7.0, 8.0].map(F32).to_vec();
    let mut dwte: Vec<F32> = [0.5, 0.5, 0.5, 0.5].map(F32).to_vec();
    embed_bwd_wte(&Serial, &mut dwte, &dx, &tokens, 2);
    let got: Vec<f32> = dwte.iter().map(|v| v.0).collect();
    assert_eq!(got, vec![3.5, 4.5, 13.5, 16.5]);
    let mut dwpe = zeros(4);
    embed_bwd_wpe(&mut dwpe, &dx, 4, 2, 2);
    let got: Vec<f32> = dwpe.iter().map(|v| v.0).collect();
    assert_eq!(got, vec![6.0, 8.0, 10.0, 12.0]);
}

#[test]
fn pointwise_operations() {
    let x: Vec<F32> = [1.5, -2.0, 0.0].map(F32).to_vec();
    let mut y = zeros(3);
    relu_fwd(&mut y, &x);
    assert_eq!(y, [1.5, 0.0, 0.0].map(F32).to_vec());
    let mut d: Vec<F32> = [7.0, 7.0, 7.0].map(F32).to_vec();
    relu_bwd_inplace(&mut d, &x);
    assert_eq!(d, [7.0, 0.0, 0.0].map(F32).to_vec());
    add_fwd(&mut y, &x, &d);
    assert_eq!(y, [8.5, -2.0, 0.0].map(F32).to_vec());
    add_inplace(&mut y, &x);
    assert_eq!(y, [10.0, -4.0, 0.0].map(F32).to_vec());
}
