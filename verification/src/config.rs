//! Hyperparameters for the free-topology recurrent network.
//!
//! Defaults target a small, CPU-trainable char-level language model.
use vstd::prelude::*;

use crate::scalar::{
    Single, FOUR_BITS, NINETEEN_TWENTIETHS_BITS, NINE_TENTHS_BITS, ONE_BITS, POINT_999_BITS,
    TENTH_BITS, TEN_TO_MINUS_8_BITS, THOUSANDTH_BITS, THREE_TENTHS_BITS,
};

verus! {

/// Which gate the activation uses.
///
/// - `Soft`: differentiable, `g(p) = s(b(p - t)) + s(b(-p - t))` with the sigmoid
///   `s`, used in the forward pass too, so that forward and backward are
///   consistent.
/// - `Hard`: the forward pass uses the double threshold `|p| > t` (event-driven,
///   sparse); the backward pass uses the same derivative as `Soft`, as a
///   surrogate gradient.
#[derive(Clone, Copy, Debug, PartialEq, Eq, Structural)]
pub enum GateMode {
    Soft,
    Hard,
}

#[derive(Clone, Copy, Debug, PartialEq, Eq, Structural)]
pub struct Config {
    /// Total number of neurons in the pool.
    pub n: usize,
    /// Out-edges created per neuron at initialization.
    pub k: usize,
    /// Number of neurons that receive the injected token embedding.
    pub n_in: usize,
    /// Number of neurons whose state is read out as logits.
    pub n_out: usize,
    /// Gate threshold.
    pub theta: Single,
    /// Gate steepness for the (surrogate) sigmoid.
    pub beta: Single,
    /// Forward/backward gate behaviour.
    pub gate: GateMode,
    /// Target spectral radius after rescaling recurrent weights.
    pub spectral_radius: Single,
    /// Truncated-BPTT window length (steps unrolled before an update).
    pub window: usize,
    /// Adam learning rate.
    pub lr: Single,
    pub adam_beta1: Single,
    pub adam_beta2: Single,
    pub adam_eps: Single,
    /// Global gradient-norm clip.
    pub grad_clip: Single,
    /// RigL: apply a prune/grow update every this many optimizer steps.
    pub rigl_interval: usize,
    /// RigL: initial fraction of each neuron's out-edges rewired per update.
    pub rigl_fraction: Single,
    /// RigL: candidate targets sampled per neuron when growing.
    pub rigl_candidates: usize,
    /// RigL: total optimizer steps over which `rigl_fraction` cosine-decays to 0.
    pub rigl_decay_steps: usize,
    /// Enable topology learning. When false, topology is frozen.
    pub rigl_enabled: bool,
    /// PRNG seed for reproducible runs.
    pub seed: u64,
}

/// The default configuration.
pub open spec fn default_config() -> Config {
    Config {
        n: 4096,
        k: 32,
        n_in: 64,
        n_out: 64,
        theta: Single { bits: TENTH_BITS },
        beta: Single { bits: FOUR_BITS },
        gate: GateMode::Hard,
        spectral_radius: Single { bits: NINETEEN_TWENTIETHS_BITS },
        window: 64,
        lr: Single { bits: THOUSANDTH_BITS },
        adam_beta1: Single { bits: NINE_TENTHS_BITS },
        adam_beta2: Single { bits: POINT_999_BITS },
        adam_eps: Single { bits: TEN_TO_MINUS_8_BITS },
        grad_clip: Single { bits: ONE_BITS },
        rigl_interval: 100,
        rigl_fraction: Single { bits: THREE_TENTHS_BITS },
        rigl_candidates: 256,
        rigl_decay_steps: 20_000,
        rigl_enabled: false,
        seed: 42,
    }
}

/// The tiny configuration: the default but for the fields named here.
pub open spec fn tiny_config() -> Config {
    Config {
        n: 16,
        k: 4,
        n_in: 4,
        n_out: 4,
        theta: Single { bits: TENTH_BITS },
        beta: Single { bits: FOUR_BITS },
        gate: GateMode::Soft,
        spectral_radius: Single { bits: NINE_TENTHS_BITS },
        window: 5,
        rigl_enabled: false,
        seed: 1,
        ..default_config()
    }
}

impl Default for Config {
    fn default() -> (cfg: Self)
        ensures
            cfg == default_config(),
    {
        Config {
            n: 4096,
            k: 32,
            n_in: 64,
            n_out: 64,
            theta: Single { bits: TENTH_BITS },
            beta: Single { bits: FOUR_BITS },
            gate: GateMode::Hard,
            spectral_radius: Single { bits: NINETEEN_TWENTIETHS_BITS },
            window: 64,
            lr: Single { bits: THOUSANDTH_BITS },
            adam_beta1: Single { bits: NINE_TENTHS_BITS },
            adam_beta2: Single { bits: POINT_999_BITS },
            adam_eps: Single { bits: TEN_TO_MINUS_8_BITS },
            grad_clip: Single { bits: ONE_BITS },
            rigl_interval: 100,
            rigl_fraction: Single { bits: THREE_TENTHS_BITS },
            rigl_candidates: 256,
            rigl_decay_steps: 20_000,
            rigl_enabled: false,
            seed: 42,
        }
    }
}

impl Config {
    /// A tiny configuration used by tests (fast, fully differentiable).
    pub fn tiny() -> (cfg: Self)
        ensures
            cfg == tiny_config(),
    {
        Config {
            n: 16,
            k: 4,
            n_in: 4,
            n_out: 4,
            theta: Single { bits: TENTH_BITS },
            beta: Single { bits: FOUR_BITS },
            gate: GateMode::Soft,
            spectral_radius: Single { bits: NINE_TENTHS_BITS },
            window: 5,
            rigl_enabled: false,
            seed: 1,
            ..Config::default()
        }
    }

    /// Index of the first output neuron (the last `n_out` neurons are read out).
    pub fn out_start(&self) -> (r: usize)
        requires
            self.n_out <= self.n,
        ensures
            r == self.n - self.n_out,
    {
        self.n - self.n_out
    }
}

} // verus!
