//! The model with IEEE arithmetic.
use std::collections::HashSet;

use clai::arith::Arith;
use clai::checkpoint::{
    load, put_f32, put_f32_slice, put_u32, put_u32_slice, put_u64, save, LoadError, Reader,
};
use clai::config::{Config, GateMode};
use clai::data::Corpus;
use clai::graph::{gaussian, Topology};
use clai::mlp::{Algebra, Matrix, Mlp};
use clai::network::{activate, activate_grad, gate, gate_grad, sigmoid, softmax_ce, Network};
use clai::optim::{clip_in_place, global_norm, Adam, Moment};
use clai::ranking::ranking_of;
use clai::rigl::{churn_fraction, rigl_step, NotANumber};
use clai::scalar::{Double, Single};
use clai::train::{
    apply_update, cut_point, eval_loss, generate, overlapping, sample, split_windows, GenOpts, Moments,
    SetupError, TrainOpts, Trainer,
};
use ndarray::{arr1, Array1, Array2, Axis};
use rand::rngs::StdRng;
use rand::{Rng, SeedableRng};

/// The arithmetic of the machine. All NaNs are one.
struct Ieee;

fn f(x: Single) -> f32 {
    f32::from_bits(x.bits)
}

fn s(x: f32) -> Single {
    if x.is_nan() {
        Single { bits: 0x7fc0_0000 }
    } else {
        Single { bits: x.to_bits() }
    }
}

fn wide_f(x: Double) -> f64 {
    f64::from_bits(x.bits)
}

fn wide_s(x: f64) -> Double {
    if x.is_nan() {
        Double { bits: 0x7ff8_0000_0000_0000 }
    } else {
        Double { bits: x.to_bits() }
    }
}

impl Arith for Ieee {
    fn of_count(n: u64) -> Single {
        s(n as f32)
    }
    fn to_count(x: Single) -> usize {
        f(x) as usize
    }
    fn plus(x: Single, y: Single) -> Single {
        s(f(x) + f(y))
    }
    fn minus(x: Single, y: Single) -> Single {
        s(f(x) - f(y))
    }
    fn times(x: Single, y: Single) -> Single {
        s(f(x) * f(y))
    }
    fn over(x: Single, y: Single) -> Single {
        s(f(x) / f(y))
    }
    fn sqrt(x: Single) -> Single {
        s(f(x).sqrt())
    }
    fn exp(x: Single) -> Single {
        s(f(x).exp())
    }
    fn ln(x: Single) -> Single {
        s(f(x).ln())
    }
    fn cos(x: Single) -> Single {
        s(f(x).cos())
    }
    fn tanh(x: Single) -> Single {
        s(f(x).tanh())
    }
    fn round(x: Single) -> Single {
        s(f(x).round())
    }
    fn power(x: Single, n: i32) -> Single {
        s(f(x).powi(n))
    }
    fn widen(x: Single) -> Double {
        wide_s(f(x) as f64)
    }
    fn narrow(x: Double) -> Single {
        s(wide_f(x) as f32)
    }
    fn wide_of_count(n: u64) -> Double {
        wide_s(n as f64)
    }
    fn wide_plus(x: Double, y: Double) -> Double {
        wide_s(wide_f(x) + wide_f(y))
    }
    fn wide_minus(x: Double, y: Double) -> Double {
        wide_s(wide_f(x) - wide_f(y))
    }
    fn wide_times(x: Double, y: Double) -> Double {
        wide_s(wide_f(x) * wide_f(y))
    }
    fn wide_over(x: Double, y: Double) -> Double {
        wide_s(wide_f(x) / wide_f(y))
    }
    fn wide_sqrt(x: Double) -> Double {
        wide_s(wide_f(x).sqrt())
    }
    fn wide_ln(x: Double) -> Double {
        wide_s(wide_f(x).ln())
    }
    fn uniform(rng: &StdRng, lo: Single, hi: Single) -> (Single, StdRng) {
        let mut next = rng.clone();
        let drawn = next.gen_range(f(lo)..f(hi));
        (s(drawn), next)
    }
}

fn matrix_of(w: &Matrix) -> Array2<f32> {
    Array2::from_shape_vec((w.rows, w.cols), floats(&w.cells)).unwrap()
}

impl Algebra for Ieee {
    fn column_dot(w: &Matrix, j: usize, x: &Vec<Single>) -> Single {
        s(matrix_of(w).column(j).dot(&Array1::from_vec(floats(x))))
    }
    fn row_dot(w: &Matrix, i: usize, d: &Vec<Single>) -> Single {
        s(matrix_of(w).row(i).dot(&Array1::from_vec(floats(d))))
    }
    fn random() -> Single {
        s(rand::random())
    }
}

fn floats(xs: &[Single]) -> Vec<f32> {
    xs.iter().map(|&x| f(x)).collect()
}

fn singles(xs: &[f32]) -> Vec<Single> {
    xs.iter().map(|&x| s(x)).collect()
}

// --- corpus -----------------------------------------------------------------

#[test]
fn encode_decode_roundtrip() {
    let c = Corpus::from_text("hello world\nhello");
    let ids = c.encode("hello");
    assert_eq!(c.decode(&ids), "hello");
}

#[test]
fn vocab_is_unique_chars() {
    let c = Corpus::from_text("aabbc");
    assert_eq!(c.vocab_size(), 3); // a, b, c
}

#[test]
fn unigram_entropy_of_uniform_is_ln_v() {
    // Each of 4 chars appears equally -> entropy = ln(4).
    let c = Corpus::from_text("abcd");
    let h = f(c.unigram_cross_entropy::<Ieee>());
    assert!((h - (4f32).ln()).abs() < 1e-5, "h = {h}");
}

#[test]
fn vocabulary_is_in_order_and_tokens_follow_the_text() {
    let c = Corpus::from_text("banana \u{1F600}");
    assert_eq!(c.id_to_char, vec![' ', 'a', 'b', 'n', '\u{1F600}']);
    assert_eq!(c.tokens, vec![2, 1, 3, 1, 3, 1, 0, 4]);
    assert_eq!(c.decode(&c.tokens), "banana \u{1F600}");
    assert_eq!(c.encode(&c.decode(&[4, 0, 3, 3])), vec![4, 0, 3, 3]);
}

#[test]
fn encoding_passes_over_unknown_characters() {
    let c = Corpus::from_text("abc");
    assert_eq!(c.encode("xaybzc"), vec![0, 1, 2]);
    assert_eq!(c.decode(&c.encode("xaybzc")), "abc");
    assert_eq!(c.encode(""), Vec::<u32>::new());
}

#[test]
fn empty_text_has_no_vocabulary() {
    let c = Corpus::from_text("");
    assert_eq!(c.vocab_size(), 0);
    assert!(c.tokens.is_empty());
    assert_eq!(f(c.unigram_cross_entropy::<Ieee>()), 0.0);
}

#[test]
fn unigram_entropy_weighs_by_share() {
    // Shares 3/4 and 1/4.
    let c = Corpus::from_text("aaab");
    let h = f(c.unigram_cross_entropy::<Ieee>());
    let want = -(0.75f64 * 0.75f64.ln() + 0.25f64 * 0.25f64.ln());
    assert!((h as f64 - want).abs() < 1e-6);
}

#[test]
fn unigram_entropy_ignores_order() {
    let a = Corpus::from_text("the cat sat on the mat");
    let b = Corpus::from_text("tam eht no tas tac eht");
    assert_eq!(a.id_to_char, b.id_to_char);
    assert_ne!(a.tokens, b.tokens);
    assert_eq!(a.unigram_cross_entropy::<Ieee>(), b.unigram_cross_entropy::<Ieee>());
    let one = Corpus::from_text("aaaaa");
    assert_eq!(f(one.unigram_cross_entropy::<Ieee>()), 0.0);
}

#[test]
fn encoding_does_not_read_the_tokens() {
    let mut c = Corpus::from_text("abc");
    c.tokens.push(99);
    assert_eq!(c.encode("cab"), vec![2, 0, 1]);
}

// --- numbers ----------------------------------------------------------------

#[test]
fn order_is_that_of_the_machine() {
    let xs = [
        0.0f32,
        -0.0,
        1.0,
        -1.0,
        1e-40,
        -1e-40,
        f32::INFINITY,
        f32::NEG_INFINITY,
        f32::NAN,
        3.5,
        -3.25,
    ];
    for &x in &xs {
        for &y in &xs {
            assert_eq!(s(x).lt(s(y)), x < y, "{x} < {y}");
            assert_eq!(s(x).le(s(y)), x <= y, "{x} <= {y}");
        }
        assert_eq!(s(x).is_nan(), x.is_nan());
        assert_eq!(s(x).is_zero(), x == 0.0);
        if !x.is_nan() {
            assert_eq!(f(s(x).neg()).to_bits(), (-x).to_bits());
            assert_eq!(f(s(x).abs()).to_bits(), x.abs().to_bits());
            assert_eq!(f(s(x).clamp(s(0.0), s(0.9))), x.clamp(0.0, 0.9));
        }
    }
    assert!(s(f32::NAN).clamp(s(0.0), s(0.9)).is_nan());
}

#[test]
fn larger_and_smaller_are_those_of_the_machine() {
    let xs = [0.0f32, 1.0, -1.0, f32::INFINITY, f32::NEG_INFINITY, f32::NAN, 3.5, -3.25];
    for &x in &xs {
        for &y in &xs {
            assert_eq!(s(x).larger(s(y)), s(x.max(y)), "{x} {y}");
            assert_eq!(s(x).smaller(s(y)), s(x.min(y)), "{x} {y}");
        }
    }
}

#[test]
fn default_configuration() {
    let c = Config::default();
    assert_eq!((c.n, c.k, c.n_in, c.n_out, c.window), (4096, 32, 64, 64, 64));
    assert_eq!(f(c.theta), 0.1);
    assert_eq!(f(c.beta), 4.0);
    assert_eq!(c.gate, GateMode::Hard);
    assert_eq!(f(c.spectral_radius), 0.95);
    assert_eq!(f(c.lr), 1e-3);
    assert_eq!(f(c.adam_beta1), 0.9);
    assert_eq!(f(c.adam_beta2), 0.999);
    assert_eq!(f(c.adam_eps), 1e-8);
    assert_eq!(f(c.grad_clip), 1.0);
    assert_eq!(f(c.rigl_fraction), 0.3);
    assert_eq!((c.rigl_interval, c.rigl_candidates, c.rigl_decay_steps), (100, 256, 20_000));
    assert!(!c.rigl_enabled);
    assert_eq!(c.seed, 42);
    let t = Config::tiny();
    assert_eq!((t.n, t.k, t.n_in, t.n_out, t.window, t.seed), (16, 4, 4, 4, 5, 1));
    assert_eq!(t.gate, GateMode::Soft);
    assert_eq!(f(t.spectral_radius), 0.9);
    assert_eq!(t.out_start(), 12);
}

// --- graph ------------------------------------------------------------------

#[test]
fn csr_invariants() {
    let cfg = Config::default();
    let mut rng = StdRng::seed_from_u64(cfg.seed);
    let topo = Topology::init_random::<Ieee>(&cfg, &mut rng);

    assert_eq!(topo.row_ptr.len(), cfg.n + 1);
    assert_eq!(topo.num_edges(), cfg.n * cfg.k);

    // No self-loops, no duplicate targets within a neuron.
    for i in 0..cfg.n {
        let mut seen = HashSet::new();
        for e in topo.out_range(i) {
            let j = topo.col_idx[e] as usize;
            assert_ne!(j, i, "self-loop at {i}");
            assert!(seen.insert(j), "duplicate edge {i}->{j}");
        }
    }
}

#[test]
fn spectral_radius_matches_target() {
    let cfg = Config::default();
    let mut rng = StdRng::seed_from_u64(cfg.seed);
    let topo = Topology::init_random::<Ieee>(&cfg, &mut rng);
    let mut r2 = StdRng::seed_from_u64(7);
    let rho = f(topo.spectral_radius::<Ieee>(80, &mut r2));
    let target = f(cfg.spectral_radius);
    let rel = (rho - target).abs() / target;
    assert!(rel < 0.05, "rho = {rho}, target = {target}");
}

#[test]
fn transpose_lists_every_edge_once() {
    // 0 -> 1, 0 -> 2, 1 -> 2, 2 -> 0, 2 -> 1
    let topo = Topology::from_csr(
        3,
        vec![0, 2, 3, 5],
        vec![1, 2, 2, 0, 1],
        singles(&[0.1, 0.2, 0.3, 0.4, 0.5]),
    );
    assert_eq!(topo.edge_src, vec![0, 0, 1, 2, 2]);
    assert_eq!(topo.in_row_ptr, vec![0, 1, 3, 5]);
    assert_eq!(topo.in_edge, vec![3, 0, 4, 1, 2]);
    assert_eq!(topo.in_range(2), 3..5);
    assert_eq!(topo.out_range(2), 3..5);
    for e in 0..topo.num_edges() {
        let src = topo.edge_src[e] as usize;
        assert!(topo.out_range(src).contains(&e));
    }
}

#[test]
fn radius_of_a_cycle_is_its_weight() {
    // A cycle of three equal weights has spectral radius 2.
    let mut topo =
        Topology::from_csr(3, vec![0, 1, 2, 3], vec![1, 2, 0], singles(&[2.0, 2.0, 2.0]));
    let mut rng = StdRng::seed_from_u64(1);
    let rho = f(topo.spectral_radius::<Ieee>(50, &mut rng));
    assert!((rho - 2.0).abs() < 1e-4, "{rho}");
    topo.rescale_spectral_radius::<Ieee>(s(0.5));
    for w in floats(&topo.weights) {
        assert!((w - 0.5).abs() < 1e-4, "{w}");
    }
}

#[test]
fn targets_are_shuffled_and_reproducible() {
    let cfg = Config::tiny();
    let a = Topology::init_random::<Ieee>(&cfg, &mut StdRng::seed_from_u64(5));
    let b = Topology::init_random::<Ieee>(&cfg, &mut StdRng::seed_from_u64(5));
    let c = Topology::init_random::<Ieee>(&cfg, &mut StdRng::seed_from_u64(6));
    assert_eq!(a.col_idx, b.col_idx);
    assert_eq!(a.weights, b.weights);
    assert_ne!(a.col_idx, c.col_idx);
    // Not simply the first other neurons.
    let first: Vec<u32> = (0..16).flat_map(|i| (0..16u32).filter(move |&j| j != i).take(4)).collect();
    assert_ne!(a.col_idx, first);
}

#[test]
fn degree_is_capped_by_the_other_neurons() {
    let mut cfg = Config::tiny();
    cfg.n = 3;
    cfg.k = 10;
    let topo = Topology::init_random::<Ieee>(&cfg, &mut StdRng::seed_from_u64(1));
    assert_eq!(topo.row_ptr, vec![0, 2, 4, 6]);
    for i in 0..3 {
        let mut targets: Vec<u32> = topo.out_range(i).map(|e| topo.col_idx[e]).collect();
        targets.sort();
        let want: Vec<u32> = (0..3u32).filter(|&j| j != i as u32).collect();
        assert_eq!(targets, want);
    }
}

#[test]
fn gaussian_samples_have_mean_zero_and_unit_variance() {
    let mut rng = StdRng::seed_from_u64(3);
    let xs: Vec<f32> = (0..20_000).map(|_| f(gaussian::<Ieee>(&mut rng))).collect();
    let mean = xs.iter().sum::<f32>() / xs.len() as f32;
    let var = xs.iter().map(|x| (x - mean) * (x - mean)).sum::<f32>() / xs.len() as f32;
    assert!(mean.abs() < 0.03, "{mean}");
    assert!((var - 1.0).abs() < 0.05, "{var}");
}

// --- network ----------------------------------------------------------------

#[test]
fn activity_stays_in_band() {
    // Free-run the network (no meaningful input) and confirm activity neither
    // saturates nor dies.
    let mut cfg = Config::default();
    cfg.n = 1024;
    let net = Network::new::<Ieee>(cfg, 8);
    let mut prev = vec![s(0.0); cfg.n];
    // kick-start a few input neurons
    for i in 0..cfg.n_in {
        prev[i] = s(0.5);
    }
    let mut ok_steps = 0;
    for _ in 0..200 {
        let (st, _) = net.step_once::<Ieee>(0, &prev);
        let active = st.iter().filter(|&&v| f(v) != 0.0).count();
        let frac = active as f32 / cfg.n as f32;
        assert!(frac < 0.9, "saturated: {frac}");
        if frac > 0.0 {
            ok_steps += 1;
        }
        prev = st;
    }
    assert!(ok_steps > 100, "activity died too early: {ok_steps} live steps");
}

#[test]
fn gate_grad_matches_finite_difference() {
    let mut cfg = Config::tiny();
    cfg.gate = GateMode::Soft;
    let mut rng = rand::thread_rng();
    for _ in 0..100 {
        let p: f32 = rng.gen_range(-2.0..2.0);
        let eps = 1e-3;
        let num = (f(activate::<Ieee>(s(p + eps), &cfg)) - f(activate::<Ieee>(s(p - eps), &cfg)))
            / (2.0 * eps);
        let ana = f(activate_grad::<Ieee>(s(p), &cfg));
        assert!((num - ana).abs() < 1e-2, "p={p} num={num} ana={ana}");
    }
}

#[test]
fn gates_and_activations() {
    assert_eq!(f(sigmoid::<Ieee>(s(0.0))), 0.5);
    let mut cfg = Config::tiny();
    cfg.gate = GateMode::Hard;
    assert_eq!(f(gate::<Ieee>(s(0.5), &cfg)), 1.0);
    assert_eq!(f(gate::<Ieee>(s(-0.5), &cfg)), 1.0);
    assert_eq!(f(gate::<Ieee>(s(0.1), &cfg)), 0.0);
    assert_eq!(f(gate::<Ieee>(s(0.0), &cfg)), 0.0);
    assert_eq!(f(activate::<Ieee>(s(0.5), &cfg)), 0.5f32.tanh());
    let hard = gate_grad::<Ieee>(s(0.3), &cfg);
    cfg.gate = GateMode::Soft;
    assert_eq!(gate_grad::<Ieee>(s(0.3), &cfg), hard);
    let sg = |z: f32| 1.0 / (1.0 + (-z).exp());
    let p = 0.3f32;
    assert_eq!(f(gate::<Ieee>(s(p), &cfg)), sg(4.0 * (p - 0.1)) + sg(4.0 * (-p - 0.1)));
}

#[test]
fn the_slope_is_odd() {
    let cfg = Config::tiny();
    for p in [0.0f32, 0.05, 0.1, 0.7, 3.0] {
        let right = f(gate_grad::<Ieee>(s(p), &cfg));
        let left = f(gate_grad::<Ieee>(s(-p), &cfg));
        assert_eq!(left, -right, "{p}");
    }
    assert_eq!(f(gate_grad::<Ieee>(s(0.0), &cfg)), 0.0);
    // The two sides meet where the threshold is zero.
    for theta in [0.0f32, -0.0] {
        let mut flat = cfg;
        flat.theta = s(theta);
        assert_eq!(f(gate_grad::<Ieee>(s(0.0), &flat)), 0.0);
        assert_eq!(f(gate_grad::<Ieee>(s(-0.0), &flat)), 0.0);
    }
}

#[test]
fn softmax_of_equal_logits_is_uniform() {
    let (probs, loss) = softmax_ce::<Ieee>(&singles(&[1.5, 1.5]), 1);
    assert_eq!(floats(&probs), vec![0.5, 0.5]);
    assert_eq!(f(loss), -(0.5f32.ln()));
    let (_, loss) = softmax_ce::<Ieee>(&singles(&[0.0, 500.0]), 0);
    assert_eq!(f(loss), -(1e-30f32.ln()));
}

/// Two neurons, `0 -> 1` and `1 -> 0`; token 0 is injected into neuron 0, and
/// neuron 1 is read out.
fn pair_network() -> Network {
    let mut cfg = Config::tiny();
    cfg.n = 2;
    cfg.k = 1;
    cfg.n_in = 1;
    cfg.n_out = 1;
    cfg.window = 2;
    cfg.gate = GateMode::Hard;
    let topo = Topology::from_csr(2, vec![0, 1, 2], vec![1, 0], singles(&[2.0, -1.0]));
    Network {
        cfg,
        topo,
        embed: singles(&[0.5, -0.75]),
        readout: singles(&[1.0, 3.0]),
        bias_out: singles(&[0.25, -0.25]),
        vocab: 2,
    }
}

#[test]
fn one_step_of_a_pair() {
    let net = pair_network();
    let (state, logits) = net.step_once::<Ieee>(1, &singles(&[0.5, 0.25]));
    let a = (-0.75f32 + -1.0 * 0.25).tanh();
    let b = (2.0f32 * 0.5).tanh();
    assert_eq!(floats(&state), vec![a, b]);
    assert_eq!(floats(&logits), vec![0.25 + 1.0 * b, -0.25 + 3.0 * b]);
    // A silent network hears the token alone.
    let (state, logits) = net.step_once::<Ieee>(1, &singles(&[0.0, 0.0]));
    assert_eq!(floats(&state), vec![(-0.75f32).tanh(), 0.0]);
    assert_eq!(floats(&logits), vec![0.25, -0.25]);
}

#[test]
fn a_window_is_its_steps() {
    let net = Network::new::<Ieee>(Config::tiny(), 5);
    let seq = [0u32, 3, 1, 4, 2, 0];
    let init = vec![s(0.0); net.cfg.n];
    let tape = net.run_window::<Ieee>(&seq, &init);
    let mut prev = init;
    let mut loss = 0.0f32;
    for t in 0..net.cfg.window {
        let (st, logits) = net.step_once::<Ieee>(seq[t], &prev);
        let (probs, l) = softmax_ce::<Ieee>(&logits, seq[t + 1]);
        assert_eq!(tape.state[t], st);
        assert_eq!(tape.probs[t], probs);
        loss += f(l);
        prev = st;
    }
    assert_eq!(f(tape.loss), loss / net.cfg.window as f32);
    assert_eq!(tape.inputs, seq[..5].to_vec());
    assert_eq!(tape.targets, seq[1..].to_vec());
    // What comes later has no effect on the states before.
    let other = net.run_window::<Ieee>(&[0, 3, 1, 0, 0, 0], &vec![s(0.0); net.cfg.n]);
    assert_eq!(tape.state[..3].to_vec(), other.state[..3].to_vec());
    assert_ne!(tape.state[3], other.state[3]);
}

#[test]
fn without_inputs_nothing_is_injected() {
    let mut net = pair_network();
    net.cfg.n_in = 0;
    net.embed = vec![];
    let (state, _) = net.step_once::<Ieee>(77, &singles(&[0.5, 0.25]));
    assert_eq!(floats(&state), vec![(-1.0f32 * 0.25).tanh(), (2.0f32 * 0.5).tanh()]);
    let a = net.run_window::<Ieee>(&[77, 0, 1], &singles(&[0.5, 0.25]));
    let b = net.run_window::<Ieee>(&[5, 0, 1], &singles(&[0.5, 0.25]));
    assert_eq!(a.state, b.state);
    assert_eq!(a.loss, b.loss);
}

#[test]
fn networks_are_reproducible() {
    let a = Network::new::<Ieee>(Config::tiny(), 5);
    let b = Network::new::<Ieee>(Config::tiny(), 5);
    let mut cfg = Config::tiny();
    cfg.seed = 2;
    let c = Network::new::<Ieee>(cfg, 5);
    assert_eq!(a.embed, b.embed);
    assert_eq!(a.readout, b.readout);
    assert_eq!(a.topo.col_idx, b.topo.col_idx);
    assert_ne!(a.embed, c.embed);
    assert_ne!(a.topo.col_idx, c.topo.col_idx);
    assert!(a.bias_out.iter().all(|&x| f(x) == 0.0));
}

// --- gradients --------------------------------------------------------------

fn slot(net: &mut Network, part: usize, idx: usize) -> &mut Single {
    match part {
        0 => &mut net.embed[idx],
        1 => &mut net.readout[idx],
        2 => &mut net.bias_out[idx],
        _ => &mut net.topo.weights[idx],
    }
}

/// Finite-difference gradient check on a tiny, fully differentiable network.
#[test]
fn gradient_check() {
    let mut cfg = Config::tiny();
    cfg.gate = GateMode::Soft;
    let vocab = 5;
    let mut net = Network::new::<Ieee>(cfg, vocab);

    let mut rng = StdRng::seed_from_u64(123);
    let seq: Vec<u32> = (0..cfg.window + 1).map(|_| rng.gen_range(0..vocab as u32)).collect();
    let init = vec![s(0.0); cfg.n];

    let tape = net.run_window::<Ieee>(&seq, &init);
    let grads = net.backward::<Ieee>(&tape);

    let eps = 3e-3f32;
    let mut checked = 0usize;
    let mut places: Vec<(usize, usize, f32)> = Vec::new();
    for idx in (0..net.embed.len()).step_by(3) {
        places.push((0, idx, f(grads.g_embed[idx])));
    }
    for idx in (0..net.readout.len()).step_by(3) {
        places.push((1, idx, f(grads.g_readout[idx])));
    }
    for idx in 0..net.bias_out.len() {
        places.push((2, idx, f(grads.g_bias[idx])));
    }
    for e in (0..net.topo.num_edges()).step_by(2) {
        places.push((3, e, f(grads.g_w[e])));
    }
    for (part, idx, ana) in places {
        if ana.abs() < 1e-4 {
            continue; // finite diff is unreliable where the gradient is ~0
        }
        let orig = f(*slot(&mut net, part, idx));
        *slot(&mut net, part, idx) = s(orig + eps);
        let lp = f(net.run_window::<Ieee>(&seq, &init).loss);
        *slot(&mut net, part, idx) = s(orig - eps);
        let lm = f(net.run_window::<Ieee>(&seq, &init).loss);
        *slot(&mut net, part, idx) = s(orig);
        let num = (lp - lm) / (2.0 * eps);
        let rel = (num - ana).abs() / (ana.abs() + num.abs() + 1e-4);
        assert!(rel < 3e-2, "part {part}: analytic={ana} numeric={num} rel={rel}");
        checked += 1;
    }

    assert!(checked > 20, "too few parameters exercised: {checked}");
}

#[test]
fn gradients_of_a_pair() {
    let net = pair_network();
    let tape = net.run_window::<Ieee>(&[1, 0, 1], &singles(&[0.5, 0.25]));
    let grads = net.backward::<Ieee>(&tape);
    // Bias gradients: (p - 1{target}) / 2, the later step first.
    let p = |t: usize, c: usize| f(tape.probs[t][c]);
    let want0 = (0.0 + p(1, 0) * 0.5) + (p(0, 0) - 1.0) * 0.5;
    assert_eq!(f(grads.g_bias[0]), want0);
    // Each token was injected once.
    assert_eq!(grads.g_embed[0], grads.dpre[1][0]);
    assert_eq!(grads.g_embed[1], grads.dpre[0][0]);
    // Edge 0 -> 1: the state of 0 before each step times the gradient at 1.
    let want = (0.0 + f(tape.state[0][0]) * f(grads.dpre[1][1])) + 0.5 * f(grads.dpre[0][1]);
    assert_eq!(f(grads.g_w[0]), want);
    assert_eq!(grads.dpre.len(), 2);
}

#[test]
fn absent_tokens_get_no_gradient() {
    let net = Network::new::<Ieee>(Config::tiny(), 5);
    let tape = net.run_window::<Ieee>(&[0, 1, 0, 1, 0, 2], &vec![s(0.0); 16]);
    let grads = net.backward::<Ieee>(&tape);
    for tok in 2..5 {
        for i in 0..4 {
            assert_eq!(f(grads.g_embed[tok * 4 + i]), 0.0);
        }
    }
    assert!(grads.g_embed[..8].iter().any(|&g| f(g) != 0.0));
}

// --- optimizer --------------------------------------------------------------

#[test]
fn clip_scales_down_large_grads() {
    let mut a = singles(&[3.0, 4.0]); // norm 5
    let mut refs: Vec<&mut [Single]> = vec![&mut a[..]];
    let n = f(clip_in_place::<Ieee>(&mut refs, s(1.0)));
    assert!((n - 5.0).abs() < 1e-5);
    let a = floats(&a);
    let new_norm = (a[0] * a[0] + a[1] * a[1]).sqrt();
    assert!((new_norm - 1.0).abs() < 1e-5);
}

#[test]
fn adam_decreases_a_quadratic() {
    // Minimize f(x) = x^2 from x0 = 5; gradient 2x.
    let mut cfg = Config::default();
    cfg.lr = s(0.1);
    let mut adam = Adam::new(&cfg);
    let mut x = singles(&[5.0]);
    let mut mom = Moment::zeros(1);
    for _ in 0..2000 {
        let g = singles(&[2.0 * f(x[0])]);
        adam.begin_step();
        adam.update::<Ieee>(&mut x, &g, &mut mom);
    }
    assert!(f(x[0]).abs() < 1e-2, "x = {}", f(x[0]));
}

#[test]
fn small_gradients_are_left_alone() {
    let (mut a, mut b) = (singles(&[0.3]), singles(&[0.4, 0.0]));
    let n = f(clip_in_place::<Ieee>(&mut [&mut a[..], &mut b[..]], s(1.0)));
    assert!((n - 0.5).abs() < 1e-6);
    assert_eq!(floats(&a), vec![0.3]);
    assert_eq!(floats(&b), vec![0.4, 0.0]);
    let mut zero = singles(&[0.0]);
    assert_eq!(f(clip_in_place::<Ieee>(&mut [&mut zero[..]], s(-1.0))), 0.0);
    assert_eq!(floats(&zero), vec![0.0]);
}

#[test]
fn norm_is_of_one_long_vector() {
    let (a, b, ab) = (singles(&[1.0, 2.0]), singles(&[3.0, 4.0]), singles(&[1.0, 2.0, 3.0, 4.0]));
    let split = global_norm::<Ieee>(&[&a, &b]);
    assert_eq!(split, global_norm::<Ieee>(&[&ab]));
    assert_eq!(f(split), 30f64.sqrt() as f32);
    assert_eq!(f(global_norm::<Ieee>(&[])), 0.0);
    assert_eq!(f(global_norm::<Ieee>(&[&singles(&[3.0]), &singles(&[4.0])])), 5.0);
}

#[test]
fn one_adam_step_by_hand() {
    let cfg = Config::default();
    let mut adam = Adam::new(&cfg);
    adam.begin_step();
    assert_eq!(adam.t, 1);
    let mut p = singles(&[1.0]);
    let mut mom = Moment::zeros(2);
    adam.update::<Ieee>(&mut p, &singles(&[0.5]), &mut mom);
    let m = 0.9f32 * 0.0 + (1.0 - 0.9f32) * 0.5;
    let v = 0.999f32 * 0.0 + (1.0 - 0.999f32) * 0.5 * 0.5;
    let mhat = m / (1.0 - 0.9f32.powi(1));
    let vhat = v / (1.0 - 0.999f32.powi(1));
    assert_eq!(floats(&mom.m), vec![m, 0.0]);
    assert_eq!(floats(&mom.v), vec![v, 0.0]);
    assert_eq!(f(p[0]), 1.0 - 1e-3 * mhat / (vhat.sqrt() + 1e-8));
}

// --- rewiring ---------------------------------------------------------------

#[test]
fn edge_budget_is_constant_and_new_edges_are_zero() {
    let mut cfg = Config::tiny();
    cfg.rigl_candidates = 12;
    cfg.rigl_fraction = s(0.5);
    cfg.rigl_decay_steps = 1000;
    let vocab = 5;
    let mut net = Network::new::<Ieee>(cfg, vocab);
    let mut wmom = Moment::zeros(net.topo.num_edges());

    let before_edges = net.topo.num_edges();
    // per-neuron degree before
    let deg_before: Vec<usize> = (0..cfg.n).map(|i| net.topo.out_range(i).len()).collect();

    let seq: Vec<u32> = (0..cfg.window + 1).map(|t| (t % vocab) as u32).collect();
    let init = vec![s(0.0); cfg.n];
    let tape = net.run_window::<Ieee>(&seq, &init);
    let grads = net.backward::<Ieee>(&tape);

    let churn = f(rigl_step::<Ieee>(&mut net, &mut wmom, &tape, &grads, 10).unwrap());

    assert_eq!(net.topo.num_edges(), before_edges, "total edge budget changed");
    assert_eq!(wmom.m.len(), before_edges);
    for i in 0..cfg.n {
        assert_eq!(net.topo.out_range(i).len(), deg_before[i], "degree of {i} changed");
        // no self-loops, no duplicate targets
        let mut seen = HashSet::new();
        for e in net.topo.out_range(i) {
            let j = net.topo.col_idx[e];
            assert_ne!(j as usize, i);
            assert!(seen.insert(j), "dup edge {i}->{j}");
        }
    }
    assert!(churn > 0.0, "nothing was rewired");
}

#[test]
fn churn_decays_to_zero() {
    let cfg = Config::default();
    let early = f(churn_fraction::<Ieee>(&cfg, 0));
    let mid = f(churn_fraction::<Ieee>(&cfg, cfg.rigl_decay_steps as u64 / 2));
    let late = f(churn_fraction::<Ieee>(&cfg, cfg.rigl_decay_steps as u64));
    assert!((early - f(cfg.rigl_fraction)).abs() < 1e-6);
    assert!(late < 1e-6);
    assert!(mid < early && mid > late);
}

#[test]
fn survivors_are_the_largest_and_keep_their_moments() {
    let mut cfg = Config::tiny();
    cfg.rigl_candidates = 64;
    cfg.rigl_fraction = s(0.5);
    cfg.rigl_decay_steps = 1000;
    let mut net = Network::new::<Ieee>(cfg, 5);
    let edges = net.topo.num_edges();
    let mut wmom = Moment {
        m: (0..edges).map(|e| s(e as f32 + 1.0)).collect(),
        v: (0..edges).map(|e| s(e as f32 + 1000.0)).collect(),
    };
    let tape = net.run_window::<Ieee>(&[0, 1, 2, 3, 4, 0], &vec![s(0.0); cfg.n]);
    let grads = net.backward::<Ieee>(&tape);
    let old_col = net.topo.col_idx.clone();
    let old_w = floats(&net.topo.weights);
    rigl_step::<Ieee>(&mut net, &mut wmom, &tape, &grads, 0).unwrap();
    for i in 0..cfg.n {
        // Half of the four out-edges survive: those of the largest magnitude.
        let row = 4 * i..4 * i + 4;
        let mut ranked: Vec<usize> = row.clone().collect();
        ranked.sort_by(|&a, &b| old_w[b].abs().partial_cmp(&old_w[a].abs()).unwrap());
        for (k, e) in row.clone().enumerate() {
            if k < 2 {
                assert_eq!(net.topo.col_idx[e], old_col[ranked[k]]);
                assert_eq!(f(net.topo.weights[e]), old_w[ranked[k]]);
                assert_eq!(f(wmom.m[e]), ranked[k] as f32 + 1.0);
                assert_eq!(f(wmom.v[e]), ranked[k] as f32 + 1000.0);
            } else {
                let j = net.topo.col_idx[e];
                assert!(!old_col[row.clone()].contains(&j));
                assert_eq!(f(net.topo.weights[e]), 0.0);
                assert_eq!(f(wmom.m[e]), 0.0);
                assert_eq!(f(wmom.v[e]), 0.0);
            }
        }
    }
}

#[test]
fn without_candidates_pruned_edges_come_back() {
    let mut cfg = Config::tiny();
    cfg.rigl_candidates = 0;
    cfg.rigl_fraction = s(1.0);
    let mut net = Network::new::<Ieee>(cfg, 5);
    let mut wmom = Moment::zeros(net.topo.num_edges());
    let tape = net.run_window::<Ieee>(&[0, 1, 2, 3, 4, 0], &vec![s(0.0); cfg.n]);
    let grads = net.backward::<Ieee>(&tape);
    let mut before: Vec<Vec<u32>> =
        (0..cfg.n).map(|i| net.topo.col_idx[net.topo.out_range(i)].to_vec()).collect();
    let churn = rigl_step::<Ieee>(&mut net, &mut wmom, &tape, &grads, 0).unwrap();
    assert_eq!(f(churn), 0.0);
    for i in 0..cfg.n {
        let mut after = net.topo.col_idx[net.topo.out_range(i)].to_vec();
        after.sort();
        before[i].sort();
        assert_eq!(after, before[i]);
    }
}

#[test]
fn a_full_graph_can_be_rewired() {
    let mut cfg = Config::tiny();
    cfg.k = cfg.n - 1;
    cfg.rigl_candidates = 8;
    cfg.rigl_fraction = s(0.5);
    let mut net = Network::new::<Ieee>(cfg, 5);
    assert_eq!(net.topo.num_edges(), cfg.n * (cfg.n - 1));
    let mut wmom = Moment::zeros(net.topo.num_edges());
    let tape = net.run_window::<Ieee>(&[0, 1, 2, 3, 4, 0], &vec![s(0.0); cfg.n]);
    let grads = net.backward::<Ieee>(&tape);
    let churn = rigl_step::<Ieee>(&mut net, &mut wmom, &tape, &grads, 0).unwrap();
    assert_eq!(f(churn), 0.0);
}

#[test]
fn without_churn_rows_are_reordered() {
    let mut cfg = Config::tiny();
    cfg.rigl_candidates = 8;
    cfg.rigl_fraction = s(0.0);
    let mut net = Network::new::<Ieee>(cfg, 5);
    let edges = net.topo.num_edges();
    let mut wmom = Moment {
        m: (0..edges).map(|e| s(e as f32)).collect(),
        v: (0..edges).map(|e| s(e as f32 + 0.5)).collect(),
    };
    let tape = net.run_window::<Ieee>(&[0, 1, 2, 3, 4, 0], &vec![s(0.0); cfg.n]);
    let grads = net.backward::<Ieee>(&tape);
    let rows = |net: &Network, mom: &Moment| -> Vec<Vec<(u32, u32, u32, u32)>> {
        (0..cfg.n)
            .map(|i| {
                let mut row: Vec<(u32, u32, u32, u32)> = net
                    .topo
                    .out_range(i)
                    .map(|e| {
                        let w = net.topo.weights[e].bits;
                        (net.topo.col_idx[e], w, mom.m[e].bits, mom.v[e].bits)
                    })
                    .collect();
                row.sort();
                row
            })
            .collect()
    };
    let before = rows(&net, &wmom);
    let churn = rigl_step::<Ieee>(&mut net, &mut wmom, &tape, &grads, 0).unwrap();
    assert_eq!(f(churn), 0.0);
    assert_eq!(rows(&net, &wmom), before);
}

#[test]
fn dropping_zero_edges_keeps_the_function() {
    let mut cfg = Config::tiny();
    cfg.rigl_candidates = 64;
    cfg.rigl_fraction = s(0.5);
    let mut net = Network::new::<Ieee>(cfg, 5);
    // Two of the four out-edges of each neuron have no weight.
    for i in 0..cfg.n {
        for e in net.topo.out_range(i).skip(2) {
            net.topo.weights[e] = s(if e % 2 == 0 { 0.0 } else { -0.0 });
        }
    }
    let mut wmom = Moment::zeros(net.topo.num_edges());
    let seq = [0u32, 1, 2, 3, 4, 0];
    let init = vec![s(0.25); cfg.n];
    let before = net.run_window::<Ieee>(&seq, &init);
    let grads = net.backward::<Ieee>(&before);
    let old_col = net.topo.col_idx.clone();
    let churn = rigl_step::<Ieee>(&mut net, &mut wmom, &before, &grads, 0).unwrap();
    assert_eq!(f(churn), 0.5);
    assert_ne!(net.topo.col_idx, old_col);
    let after = net.run_window::<Ieee>(&seq, &init);
    assert_eq!(after.state, before.state);
    assert_eq!(after.probs, before.probs);
    assert_eq!(after.loss, before.loss);
}

#[test]
fn rewiring_refuses_nan_weights() {
    let cfg = Config::tiny();
    let mut net = Network::new::<Ieee>(cfg, 5);
    let mut wmom = Moment::zeros(net.topo.num_edges());
    let tape = net.run_window::<Ieee>(&[0, 1, 2, 3, 4, 0], &vec![s(0.0); cfg.n]);
    let grads = net.backward::<Ieee>(&tape);
    net.topo.weights[7] = s(f32::NAN);
    let before = net.topo.col_idx.clone();
    let r = rigl_step::<Ieee>(&mut net, &mut wmom, &tape, &grads, 0);
    assert_eq!(r, Err(NotANumber));
    assert_eq!(net.topo.col_idx, before);
}

#[test]
fn rewiring_refuses_nan_scores() {
    let mut cfg = Config::tiny();
    cfg.rigl_candidates = 64;
    let mut net = Network::new::<Ieee>(cfg, 5);
    let mut wmom = Moment::zeros(net.topo.num_edges());
    let tape = net.run_window::<Ieee>(&[0, 1, 2, 3, 4, 0], &vec![s(0.5); cfg.n]);
    let mut grads = net.backward::<Ieee>(&tape);
    grads.dpre[0] = vec![s(f32::NAN); cfg.n];
    let r = rigl_step::<Ieee>(&mut net, &mut wmom, &tape, &grads, 0);
    assert_eq!(r, Err(NotANumber));
}

#[test]
fn rewiring_is_reproducible_and_depends_on_the_step() {
    let mut cfg = Config::tiny();
    cfg.rigl_candidates = 3;
    cfg.rigl_fraction = s(0.5);
    let mut after: Vec<Vec<u32>> = Vec::new();
    for step in [4u64, 4, 5] {
        let mut net = Network::new::<Ieee>(cfg, 5);
        let mut wmom = Moment::zeros(net.topo.num_edges());
        let tape = net.run_window::<Ieee>(&[0, 1, 2, 3, 4, 0], &vec![s(0.0); cfg.n]);
        let grads = net.backward::<Ieee>(&tape);
        rigl_step::<Ieee>(&mut net, &mut wmom, &tape, &grads, step).unwrap();
        after.push(net.topo.col_idx);
    }
    assert_eq!(after[0], after[1]);
    assert_ne!(after[0], after[2]);
}

#[test]
fn ranking_is_stable() {
    assert_eq!(ranking_of(&vec![3, 9, 3, 0, 9]), vec![1, 4, 0, 2, 3]);
    assert_eq!(ranking_of(&vec![]), Vec::<usize>::new());
}

// --- checkpoints ------------------------------------------------------------

#[test]
fn save_load_roundtrip() {
    let cfg = Config::tiny();
    let net = Network::new::<Ieee>(cfg, 6);
    let vocab: Vec<char> = "abcdef".chars().collect();
    let bytes = save(&net, &vocab);
    let (net2, v2) = load(&bytes).unwrap();
    assert_eq!(net2.cfg.n, net.cfg.n);
    assert_eq!(v2, vocab);
    assert_eq!(net2.topo.weights, net.topo.weights);
    assert_eq!(net2.embed, net.embed);
    // and all the rest
    assert_eq!(net2.cfg, net.cfg);
    assert_eq!(net2.topo.row_ptr, net.topo.row_ptr);
    assert_eq!(net2.topo.col_idx, net.topo.col_idx);
    assert_eq!(net2.topo.in_edge, net.topo.in_edge);
    assert_eq!(net2.topo.edge_src, net.topo.edge_src);
    assert_eq!(net2.readout, net.readout);
    assert_eq!(net2.bias_out, net.bias_out);
    assert_eq!(net2.vocab, net.vocab);
}

#[test]
fn checkpoint_layout() {
    let mut net = pair_network();
    net.cfg.seed = 0x0102_0304_0506_0708;
    net.cfg.rigl_enabled = true;
    let bytes = save(&net, &['a', '\u{1F600}']);
    assert_eq!(&bytes[..4], b"CLAI");
    let word = |k: usize| u32::from_le_bytes(bytes[4 + 4 * k..8 + 4 * k].try_into().unwrap());
    assert_eq!((0..9).map(word).collect::<Vec<u32>>(), vec![1, 2, 1, 1, 1, 2, 100, 256, 20_000]);
    assert_eq!(word(9), 0.1f32.to_bits());
    assert_eq!(word(17), 0.3f32.to_bits());
    assert_eq!((word(18), word(19)), (1, 1));
    assert_eq!((word(20), word(21)), (0x0506_0708, 0x0102_0304));
    assert_eq!((word(22), word(23), word(24)), (2, 97, 0x1F600));
    assert_eq!((25..31).map(word).collect::<Vec<u32>>(), vec![2, 0, 1, 2, 1, 0]);
    assert_eq!(word(31), 2.0f32.to_bits());
    assert_eq!(bytes.len(), 4 + 4 * 39);
}

#[test]
fn every_truncation_is_found() {
    let bytes = save(&pair_network(), &['a', 'b']);
    for len in 0..bytes.len() {
        assert_eq!(load(&bytes[..len]).err(), Some(LoadError::Truncated), "{len}");
    }
    assert!(load(&bytes).is_ok());
    // Whatever stands behind is ignored.
    let mut longer = bytes.clone();
    longer.extend_from_slice(&[1, 2, 3, 4, 5]);
    let (net, _) = load(&longer).unwrap();
    assert_eq!(net.embed, pair_network().embed);
}

#[test]
fn wrong_start_is_found() {
    let mut bytes = save(&pair_network(), &['a', 'b']);
    bytes[0] = b'X';
    assert_eq!(load(&bytes).err(), Some(LoadError::BadMagic));
    assert_eq!(load(b"NOPE").err(), Some(LoadError::BadMagic));
    assert_eq!(load(b"CLA").err(), Some(LoadError::Truncated));
}

#[test]
fn impossible_topology_is_found() {
    let mut net = pair_network();
    net.topo.col_idx[0] = 2;
    assert_eq!(load(&save(&net, &['a', 'b'])).err(), Some(LoadError::BadTopology));
    let mut net = pair_network();
    net.topo.row_ptr[2] = 3;
    assert_eq!(load(&save(&net, &['a', 'b'])).err(), Some(LoadError::BadTopology));
}

#[test]
fn words_that_are_no_characters_are_replaced() {
    let mut bytes = save(&pair_network(), &['a', 'b']);
    let at = 4 + 4 * 23;
    bytes[at..at + 4].copy_from_slice(&0xD800u32.to_le_bytes());
    let (_, chars) = load(&bytes).unwrap();
    assert_eq!(chars, vec!['\u{FFFD}', 'b']);
}

#[test]
fn words_are_little_endian() {
    let mut b: Vec<u8> = Vec::new();
    put_u32(&mut b, 0x0102_0304);
    put_u64(&mut b, 0x0506_0708_090a_0b0c);
    put_f32(&mut b, s(1.5));
    put_u32_slice(&mut b, &[7, 8]);
    put_f32_slice(&mut b, &singles(&[-2.0]));
    let mut want = 0x0102_0304u32.to_le_bytes().to_vec();
    want.extend(0x0506_0708_090a_0b0cu64.to_le_bytes());
    want.extend(1.5f32.to_le_bytes());
    want.extend(7u32.to_le_bytes());
    want.extend(8u32.to_le_bytes());
    want.extend((-2.0f32).to_le_bytes());
    assert_eq!(b, want);
    let mut r = Reader { buf: &b, pos: 0 };
    assert_eq!(r.u32(), 0x0102_0304);
    assert_eq!(r.u64(), 0x0506_0708_090a_0b0c);
    assert_eq!(f(r.single()), 1.5);
    assert_eq!(r.u32_vec(2), vec![7, 8]);
    assert_eq!(floats(&r.f32_vec(1)), vec![-2.0]);
    assert_eq!(r.pos, b.len());
    r.pos = 1;
    assert_eq!(r.take(2), &b[1..3]);
}

// --- training ---------------------------------------------------------------

fn options(steps: usize, log_every: usize, checkpoint_every: usize) -> TrainOpts {
    TrainOpts {
        corpus_path: String::new(),
        out_path: String::new(),
        steps,
        log_every,
        checkpoint_every,
        val_frac: s(0.1),
    }
}

#[test]
fn tokens_are_sliced_into_overlapping_windows() {
    let tokens: Vec<u32> = (0..12).collect();
    let windows = overlapping(&tokens, 4);
    assert_eq!(windows, vec![&[0u32, 1, 2, 3][..], &[3, 4, 5, 6], &[6, 7, 8, 9]]);
    for pair in windows.windows(2) {
        assert_eq!(pair[0].last(), pair[1].first());
    }
    assert_eq!(overlapping(&tokens, 12).len(), 1);
    assert_eq!(overlapping(&tokens, 13).len(), 0);
    assert_eq!(overlapping(&tokens, 1).len(), 12);
    assert_eq!(overlapping(&[], 4).len(), 0);
    let (train, val) = split_windows(&tokens, 7, 3);
    assert_eq!(train, vec![&[0u32, 1, 2][..], &[2, 3, 4], &[4, 5, 6]]);
    assert_eq!(val, vec![&[7u32, 8, 9][..], &[9, 10, 11]]);
}

#[test]
fn the_tail_is_held_out() {
    assert_eq!(cut_point::<Ieee>(100, s(0.25)), 75);
    assert_eq!(cut_point::<Ieee>(100, s(0.0)), 100);
    assert_eq!(cut_point::<Ieee>(100, s(-3.0)), 100);
    // No more than nine tenths.
    assert_eq!(cut_point::<Ieee>(100, s(5.0)), (100.0f32 * (1.0 - 0.9f32)) as usize);
    assert_eq!(cut_point::<Ieee>(100, s(f32::NAN)), 0);
}

#[test]
fn evaluation_carries_the_state() {
    let net = Network::new::<Ieee>(Config::tiny(), 3);
    let tokens: Vec<u32> = (0..18).map(|t| (t * t % 3) as u32).collect();
    let windows = overlapping(&tokens, 6);
    assert_eq!(eval_loss::<Ieee>(&net, &[], 128), None);
    let a = net.run_window::<Ieee>(windows[0], &vec![s(0.0); 16]);
    let b = net.run_window::<Ieee>(windows[1], &a.state[4]);
    let want = (0.0 + f(a.loss) + f(b.loss)) / 2.0;
    assert_eq!(f(eval_loss::<Ieee>(&net, &windows, 2).unwrap()), want);
    assert_eq!(f(eval_loss::<Ieee>(&net, &windows, 1).unwrap()), f(a.loss));
    // Windows past the cap have no effect.
    assert_eq!(eval_loss::<Ieee>(&net, &windows[..2], 2), eval_loss::<Ieee>(&net, &windows, 2));
    assert_ne!(eval_loss::<Ieee>(&net, &windows, 3), eval_loss::<Ieee>(&net, &windows, 2));
}

#[test]
fn one_update_is_clipped_adam_over_all_arrays() {
    let cfg = Config::tiny();
    let mut net = Network::new::<Ieee>(cfg, 3);
    let mut adam = Adam::new(&cfg);
    let mut mom = Moments::new(&net);
    let tape = net.run_window::<Ieee>(&[0, 1, 2, 0, 1, 2], &vec![s(0.0); 16]);
    let grads = net.backward::<Ieee>(&tape);
    let mut arrays = vec![
        grads.g_w.clone(),
        grads.g_embed.clone(),
        grads.g_readout.clone(),
        grads.g_bias.clone(),
    ];
    let mut views: Vec<&mut [Single]> = arrays.iter_mut().map(|a| &mut a[..]).collect();
    clip_in_place::<Ieee>(&mut views, cfg.grad_clip);
    let mut want = (net.topo.weights.clone(), net.bias_out.clone());
    let mut by_hand = Adam::new(&cfg);
    by_hand.begin_step();
    by_hand.update::<Ieee>(&mut want.0, &arrays[0], &mut Moment::zeros(64));
    by_hand.update::<Ieee>(&mut want.1, &arrays[3], &mut Moment::zeros(3));
    let targets = net.topo.col_idx.clone();
    apply_update::<Ieee>(&mut net, &mut adam, &mut mom, &grads, &cfg);
    assert_eq!(net.topo.weights, want.0);
    assert_eq!(net.bias_out, want.1);
    assert_eq!(net.topo.col_idx, targets);
    assert_eq!(adam.t, 1);
}

#[test]
fn training_learns_a_pattern() {
    let corpus = Corpus::from_text(&"abcab".repeat(60));
    let mut cfg = Config::tiny();
    cfg.lr = s(0.01);
    cfg.rigl_enabled = true;
    cfg.rigl_interval = 20;
    cfg.rigl_candidates = 8;
    let (mut trainer, windows, val) =
        Trainer::prepare::<Ieee>(cfg, corpus.vocab_size(), &corpus.tokens, s(0.1)).unwrap();
    assert_eq!((windows.len(), val.len()), (53, 5));
    let edges = trainer.net.topo.num_edges();
    let opts = options(400, 50, 100);
    let mut losses: Vec<f32> = Vec::new();
    for step in 0..opts.steps {
        let report = trainer.step::<Ieee>(&windows, &val, step, &opts).unwrap();
        assert_eq!(report.progress.is_some(), step > 0 && step % 50 == 0);
        assert_eq!(report.save, step > 0 && step % 100 == 0);
        assert_eq!(report.churn.is_some(), step > 0 && step % 100 == 0);
        if let Some(p) = report.progress {
            losses.push(f(p.train_loss));
            assert!(p.val_loss.is_some());
            assert!(f(p.active_percent) > 99.0); // soft gates are never closed
        }
        assert_eq!(trainer.net.topo.num_edges(), edges);
        assert_eq!(trainer.adam.t, step as u64 + 1);
    }
    let baseline = f(corpus.unigram_cross_entropy::<Ieee>());
    let last = *losses.last().unwrap();
    assert!(last < baseline, "{last} vs {baseline}");
    assert!(last < losses[0], "{losses:?}");
}

#[test]
fn setups_that_cannot_run() {
    let tokens: Vec<u32> = vec![0; 12];
    let setup = |cfg: Config, tokens: &[u32], val_frac: f32| {
        Trainer::prepare::<Ieee>(cfg, 1, tokens, s(val_frac)).err()
    };
    let cfg = Config::tiny();
    assert_eq!(setup(cfg, &tokens, 0.0), None);
    assert_eq!(setup(Config { n_in: 0, ..cfg }, &tokens, 0.0), Some(SetupError::NoInputsOrOutputs));
    assert_eq!(setup(Config { n_out: 0, ..cfg }, &tokens, 0.0), Some(SetupError::NoInputsOrOutputs));
    assert_eq!(setup(Config { n: 0, ..cfg }, &tokens, 0.0), Some(SetupError::SizesOutOfRange));
    let endless = Config { window: usize::MAX, ..cfg };
    assert_eq!(setup(endless, &tokens, 0.0), Some(SetupError::SizesOutOfRange));
    assert_eq!(setup(cfg, &tokens, 0.75), Some(SetupError::CorpusTooSmall));
    assert_eq!(setup(cfg, &tokens[..5], 0.0), Some(SetupError::CorpusTooSmall));
    // One more than single precision can tell.
    let many: Vec<u32> = vec![0; 16_777_219];
    assert_eq!(setup(cfg, &many, 0.0), Some(SetupError::CutBeyondCorpus));
}

#[test]
fn sizes_that_only_a_step_needs() {
    let tokens: Vec<u32> = vec![0; 12];
    let cfg = Config::tiny();
    for (cfg, runs) in [
        (cfg, true),
        (Config { window: 0, ..cfg }, false),
        (Config { n_in: 17, ..cfg }, false),
        (Config { n_out: 17, ..cfg }, false),
    ] {
        let (trainer, _, _) = Trainer::prepare::<Ieee>(cfg, 1, &tokens, s(0.0)).unwrap();
        assert_eq!(trainer.can_run(), runs);
        let (net, _) = load(&save(&trainer.net, &['a'])).unwrap();
        assert_eq!(net.cfg, cfg);
    }
}

#[test]
fn two_steps_on_the_head_of_a_text() {
    let corpus = Corpus::from_text("aaab");
    let cfg = Config { window: 1, ..Config::tiny() };
    let (mut trainer, windows, val) =
        Trainer::prepare::<Ieee>(cfg, 2, &corpus.tokens, s(0.5)).unwrap();
    assert_eq!(windows, vec![&[0u32, 0][..]]);
    assert_eq!(val, vec![&[0u32, 1][..]]);
    for step in 0..2 {
        trainer.step::<Ieee>(&windows, &val, step, &options(2, 10, 0)).unwrap();
    }
    let fresh = Network::new::<Ieee>(cfg, 2);
    let bias = floats(&trainer.net.bias_out);
    assert!((bias[0] - 0.002).abs() < 1e-5 && (bias[1] + 0.002).abs() < 1e-5, "{bias:?}");
    assert_eq!(floats(&trainer.net.embed), floats(&fresh.embed));
    assert_eq!(floats(&trainer.net.readout), floats(&fresh.readout));
    assert_eq!(floats(&trainer.net.topo.weights), floats(&fresh.topo.weights));
}

#[test]
fn held_out_text_and_options_do_not_reach_parameters() {
    let head = "abcab".repeat(10);
    let texts = [format!("{head}{}", "abcab".repeat(10)), format!("{head}{}", "ccbaa".repeat(10))];
    let opts = [options(40, 5, 7), options(40, 3, 0)];
    let cfg = Config { rigl_enabled: true, rigl_interval: 10, rigl_candidates: 8, ..Config::tiny() };
    let mut saved: Vec<Vec<u8>> = Vec::new();
    for (text, opts) in texts.iter().zip(opts.iter()) {
        let corpus = Corpus::from_text(text);
        let (mut trainer, windows, val) =
            Trainer::prepare::<Ieee>(cfg, corpus.vocab_size(), &corpus.tokens, s(0.5)).unwrap();
        for step in 0..opts.steps {
            trainer.step::<Ieee>(&windows, &val, step, opts).unwrap();
        }
        saved.push(save(&trainer.net, &corpus.id_to_char));
    }
    assert_eq!(saved[0], saved[1]);
}

#[test]
fn a_run_starts_with_the_configured_optimizer() {
    let cfg = Config { lr: s(0.25), adam_beta1: s(0.5), adam_eps: s(1e-3), ..Config::tiny() };
    let tokens: Vec<u32> = vec![0; 12];
    let (trainer, _, _) = Trainer::prepare::<Ieee>(cfg, 1, &tokens, s(0.0)).unwrap();
    let adam = &trainer.adam;
    assert_eq!((f(adam.b1), f(adam.b2), f(adam.eps), f(adam.lr)), (0.5, 0.999, 1e-3, 0.25));
    assert_eq!(adam.t, 0);
}

#[test]
fn frozen_topology_stays() {
    let mut cfg = Config::tiny();
    cfg.rigl_interval = 1;
    let mut trainer = Trainer::new::<Ieee>(cfg, 3);
    let targets = trainer.net.topo.col_idx.clone();
    let weights = trainer.net.topo.weights.clone();
    let window: Vec<u32> = vec![0, 1, 2, 0, 1, 2];
    for step in 0..5 {
        let report = trainer.step::<Ieee>(&[&window], &[], step, &options(5, 2, 0)).unwrap();
        assert_eq!(report.churn, None);
        assert!(!report.save);
        if let Some(p) = report.progress {
            assert_eq!(p.val_loss, None);
        }
    }
    assert_eq!(trainer.net.topo.col_idx, targets);
    assert_ne!(trainer.net.topo.weights, weights);
    assert_eq!(trainer.logged, 0);
}

#[test]
fn training_stops_at_a_nan() {
    let mut cfg = Config::tiny();
    cfg.rigl_enabled = true;
    cfg.rigl_interval = 1;
    let mut trainer = Trainer::new::<Ieee>(cfg, 3);
    trainer.net.topo.weights[0] = s(f32::NAN);
    let window: Vec<u32> = vec![0, 1, 2, 0, 1, 2];
    assert!(trainer.step::<Ieee>(&[&window], &[], 0, &options(5, 1, 0)).is_ok());
    assert_eq!(trainer.step::<Ieee>(&[&window], &[], 1, &options(5, 1, 0)), Err(NotANumber));
}

// --- generation -------------------------------------------------------------

fn generation(prompt: &str, length: usize, temperature: f32, seed: u64) -> GenOpts {
    GenOpts {
        ckpt_path: String::new(),
        prompt: prompt.to_string(),
        length,
        temperature: s(temperature),
        seed,
    }
}

#[test]
fn greedy_choice_is_the_first_of_the_largest() {
    let mut rng = StdRng::seed_from_u64(1);
    let logits = singles(&[0.5, 2.0, -1.0, 2.0]);
    assert_eq!(sample::<Ieee>(&logits, s(0.0), &mut rng), 1);
    assert_eq!(sample::<Ieee>(&logits, s(1e-6), &mut rng), 1);
    assert_eq!(sample::<Ieee>(&logits, s(-1.0), &mut rng), 1);
    // The generator was not used.
    assert_eq!(rng, StdRng::seed_from_u64(1));
}

#[test]
fn samples_follow_the_probabilities() {
    let mut rng = StdRng::seed_from_u64(9);
    let logits = singles(&[0.0, (3.0f32).ln()]);
    let ones = (0..4000).filter(|_| sample::<Ieee>(&logits, s(1.0), &mut rng) == 1).count();
    assert!((2850..3150).contains(&ones), "{ones}"); // three quarters
    // One draw by hand.
    let mut a = StdRng::seed_from_u64(4);
    let r: f32 = a.gen_range(0.0..1.0);
    let want = if r <= 0.25 { 0 } else { 1 };
    assert_eq!(sample::<Ieee>(&logits, s(1.0), &mut StdRng::seed_from_u64(4)), want);
    // Nothing reaches a NaN: the last index.
    let nan = singles(&[f32::NAN, 0.0, 1.0]);
    assert_eq!(sample::<Ieee>(&nan, s(1.0), &mut a), 2);
}

#[test]
fn generated_text_continues_the_prompt() {
    let net = Network::new::<Ieee>(Config::tiny(), 3);
    let chars = ['a', 'b', 'c'];
    let text = generate::<Ieee>(&net, &chars, &generation("ab?c", 10, 1.0, 5));
    assert_eq!(text.chars().count(), 14);
    assert!(text.starts_with("ab?c"));
    assert!(text[4..].chars().all(|c| chars.contains(&c)));
    assert_eq!(text, generate::<Ieee>(&net, &chars, &generation("ab?c", 10, 1.0, 5)));
    // Characters outside the vocabulary are kept but not fed.
    let plain = generate::<Ieee>(&net, &chars, &generation("abc", 10, 1.0, 5));
    assert_eq!(text[4..], plain[3..]);
    let others: HashSet<String> =
        (0..20).map(|seed| generate::<Ieee>(&net, &chars, &generation("ab", 10, 1.0, seed))).collect();
    assert!(others.len() > 10);
    assert_eq!(generate::<Ieee>(&net, &chars, &generation("", 0, 1.0, 5)), "");
}

#[test]
fn greedy_generation_by_hand() {
    let net = Network::new::<Ieee>(Config::tiny(), 3);
    let chars = ['a', 'b', 'c'];
    let text = generate::<Ieee>(&net, &chars, &generation("b", 3, 0.0, 0));
    let mut want = String::from("b");
    let (mut state, _) = net.step_once::<Ieee>(1, &vec![s(0.0); 16]);
    let mut last = 1u32;
    for _ in 0..3 {
        let (st, logits) = net.step_once::<Ieee>(last, &state);
        state = st;
        let z = floats(&logits);
        last = (0..3).fold(0, |best, i| if z[i] > z[best] { i } else { best }) as u32;
        want.push(chars[last as usize]);
    }
    assert_eq!(text, want);
    // The seed makes no difference.
    assert_eq!(generate::<Ieee>(&net, &chars, &generation("b", 3, 0.0, 99)), want);
    // A character that occurs twice in the vocabulary has its last id.
    let twice = ['b', 'b', 'c'];
    let text = generate::<Ieee>(&net, &twice, &generation("b", 0, 0.0, 0));
    assert_eq!(text, "b");
}

// --- dense network ----------------------------------------------------------

/// A fixed network of the sizes 2, 3, 1.
fn small_mlp() -> Mlp {
    Mlp {
        weights: vec![
            Matrix { rows: 2, cols: 3, cells: singles(&[0.1, -0.2, 0.3, 0.4, 0.5, -0.6]) },
            Matrix { rows: 3, cols: 1, cells: singles(&[0.7, -0.8, 0.9]) },
        ],
        biases: vec![singles(&[0.05, -0.1, 0.2]), singles(&[-0.3])],
    }
}

fn squash(v: f32) -> f32 {
    1.0 / (1.0 + (-v).exp())
}

#[test]
fn layers_follow_the_sizes() {
    let mlp = Mlp::new::<Ieee>(&[2, 5, 3, 1]);
    let shapes: Vec<(usize, usize)> = mlp.weights.iter().map(|w| (w.rows, w.cols)).collect();
    assert_eq!(shapes, vec![(2, 5), (5, 3), (3, 1)]);
    let lens: Vec<usize> = mlp.biases.iter().map(|b| b.len()).collect();
    assert_eq!(lens, vec![5, 3, 1]);
    for w in &mlp.weights {
        assert_eq!(w.cells.len(), w.rows * w.cols);
        assert!(w.cells.iter().all(|&c| (0.0..1.0).contains(&f(c))));
    }
    assert!(Mlp::new::<Ieee>(&[4]).weights.is_empty());
    assert!(Mlp::new::<Ieee>(&[]).weights.is_empty());
}

#[test]
fn forward_is_that_of_the_arrays() {
    let mlp = small_mlp();
    let x = arr1(&[0.5f32, -1.5]);
    let mut acc = x.clone();
    let mut cache = vec![x.to_vec()];
    for (w, b) in mlp.weights.iter().zip(mlp.biases.iter()) {
        acc = (acc.dot(&matrix_of(w)) + &Array1::from_vec(floats(b))).mapv(squash);
        cache.push(acc.to_vec());
    }
    assert_eq!(floats(&mlp.forward::<Ieee, Ieee>(singles(&[0.5, -1.5]))), acc.to_vec());
    let got: Vec<Vec<f32>> = mlp
        .forward_with_cache::<Ieee, Ieee>(singles(&[0.5, -1.5]))
        .iter()
        .map(|a| floats(a))
        .collect();
    assert_eq!(got, cache);
    let none = Mlp { weights: vec![], biases: vec![] };
    assert_eq!(floats(&none.forward::<Ieee, Ieee>(singles(&[3.0]))), vec![3.0]);
}

#[test]
fn gradients_are_those_of_the_arrays() {
    let mlp = small_mlp();
    let (x, target) = (arr1(&[0.5f32, -1.5]), arr1(&[1.0f32]));
    let (w0, w1) = (matrix_of(&mlp.weights[0]), matrix_of(&mlp.weights[1]));
    let a1 = (x.dot(&w0) + &arr1(&[0.05f32, -0.1, 0.2])).mapv(squash);
    let a2 = (a1.dot(&w1) + &arr1(&[-0.3f32])).mapv(squash);
    let delta2 = &a2 - &target;
    let delta1 = w1.dot(&delta2) * a1.mapv(|a| a * (1.0 - a));
    let outer = |a: &Array1<f32>, d: &Array1<f32>| {
        a.view().insert_axis(Axis(1)).dot(&d.view().insert_axis(Axis(0)))
    };
    let (dw, db) = mlp.backpropagate::<Ieee, Ieee>(singles(&[0.5, -1.5]), singles(&[1.0]));
    assert_eq!(matrix_of(&dw[0]), outer(&x, &delta1));
    assert_eq!(matrix_of(&dw[1]), outer(&a1, &delta2));
    assert_eq!(floats(&db[0]), delta1.to_vec());
    assert_eq!(floats(&db[1]), delta2.to_vec());
    let mut trained = small_mlp();
    trained.train::<Ieee, Ieee>(singles(&[0.5, -1.5]), singles(&[1.0]), s(0.1));
    let want = &w1 - &(&outer(&a1, &delta2) * 0.1);
    assert_eq!(matrix_of(&trained.weights[1]), want);
    assert_eq!(f(trained.biases[1][0]), -0.3 - delta2[0] * 0.1);
}

#[test]
fn a_single_target_is_taken_for_all_outputs() {
    let mlp = Mlp {
        weights: vec![Matrix { rows: 1, cols: 2, cells: singles(&[1.0, -1.0]) }],
        biases: vec![singles(&[0.0, 0.5])],
    };
    let y = floats(&mlp.forward::<Ieee, Ieee>(singles(&[2.0])));
    let (_, db) = mlp.backpropagate::<Ieee, Ieee>(singles(&[2.0]), singles(&[1.0]));
    assert_eq!(floats(&db[0]), vec![y[0] - 1.0, y[1] - 1.0]);
}

#[test]
fn no_gradient_where_the_target_is_met() {
    let mlp = small_mlp();
    let y = mlp.forward::<Ieee, Ieee>(singles(&[0.5, -1.5]));
    let (dw, db) = mlp.backpropagate::<Ieee, Ieee>(singles(&[0.5, -1.5]), y);
    assert!(dw.iter().all(|w| w.cells.iter().all(|&c| f(c) == 0.0)));
    assert!(db.iter().all(|b| b.iter().all(|&c| f(c) == 0.0)));
}

#[test]
fn without_layers_nothing_is_trained() {
    let mut none = Mlp { weights: vec![], biases: vec![] };
    none.train::<Ieee, Ieee>(singles(&[1.0, 2.0]), singles(&[0.5]), s(0.1));
    none.train::<Ieee, Ieee>(singles(&[1.0]), singles(&[0.5, 0.25]), s(0.1));
    assert!(none.weights.is_empty());
    assert!(none.biases.is_empty());
}

#[test]
fn descent_lowers_the_error() {
    let mut mlp = small_mlp();
    let rows = [([0.0f32, 0.0], 0.0f32), ([0.0, 1.0], 1.0), ([1.0, 0.0], 1.0), ([1.0, 1.0], 1.0)];
    let error = |mlp: &Mlp| -> f32 {
        rows.iter()
            .map(|(x, t)| (f(mlp.forward::<Ieee, Ieee>(singles(x))[0]) - t).powi(2))
            .sum()
    };
    let before = error(&mlp);
    for _ in 0..2000 {
        for (x, t) in &rows {
            mlp.train::<Ieee, Ieee>(singles(x), singles(&[*t]), s(0.1));
        }
    }
    let after = error(&mlp);
    assert!(after < before / 4.0, "{before} -> {after}");
}
