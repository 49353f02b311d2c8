//! The network: topology and trainable dense in/out projections, plus the
//! forward pass ([`Network::run_window`]) that executes one wave per time step
//! and records a [`Tape`] for backpropagation.
//!
//! Neuron index layout: `[0, n_in)` are input neurons (receive the token
//! embedding); `[n - n_out, n)` are output neurons (read out as logits). These
//! ranges may overlap the hidden pool: an input neuron is still a normal neuron
//! with incoming recurrent edges.
use vstd::prelude::*;

use crate::arith::{
    absorbs_zero, adds_either_way, counted, deterministic, difference, exponential,
    hyperbolic_tangent, is_steady, keeps_zero, law_running_sum_passes_over_terms,
    lemma_running_sum_ext, lemma_zero_terms, logarithm, product, quotient, root, running_sum,
    running_sum_where, subtracts, sum, zeros, zeros_have_one_exponential, Arith,
};
use crate::config::{Config, GateMode};
use crate::graph::{
    gaussian_draws, gaussians, initial_degree, initial_graph, law_draws_go_on, lemma_edges_into,
    lemma_source_of, lists_in_edges, Csr, Topology,
};
use crate::parallel::{parallel_map, parallel_update};
use crate::random::{seeded, seeded_state};
use crate::scalar::{
    at_most, law_absolute, law_negation, less, maximum, nought, same_number, unit, Single,
    NEG_INFINITY_BITS, TEN_TO_MINUS_30_BITS,
};

verus! {

pub struct Network {
    pub cfg: Config,
    pub topo: Topology,
    /// Token embedding, `vocab * n_in`, row-major by token id.
    pub embed: Vec<Single>,
    /// Readout, `n_out * vocab`, row-major by output-neuron offset.
    pub readout: Vec<Single>,
    /// Output bias, `vocab`.
    pub bias_out: Vec<Single>,
    pub vocab: usize,
}

/// Everything recorded during the forward pass needed to backpropagate.
pub struct Tape {
    /// Post-activation state per step, `window` entries each of length `n`.
    pub state: Vec<Vec<Single>>,
    /// Pre-activation per step (input to gate and tanh), `window` entries.
    pub pre: Vec<Vec<Single>>,
    /// State carried in from before the window (detached; gradients stop here).
    pub state_init: Vec<Single>,
    /// Softmax probabilities per step, `window` entries of length `vocab`.
    pub probs: Vec<Vec<Single>>,
    /// Prediction target (next token id) per step.
    pub targets: Vec<u32>,
    /// Input token id injected per step.
    pub inputs: Vec<u32>,
    /// Mean cross-entropy loss over the window (nats).
    pub loss: Single,
}

// --- gate and activation ----------------------------------------------------

/// `1 / (1 + exp(-z))`.
pub open spec fn sigmoid_of<A: Arith>(z: Single) -> Single {
    quotient::<A>(unit(), sum::<A>(unit(), exponential::<A>(z.negated())))
}

/// How far gating lets through at `p`, on the side of positive and of negative `p`.
pub open spec fn gate_sides<A: Arith>(p: Single, cfg: Config) -> (Single, Single) {
    (
        sigmoid_of::<A>(product::<A>(cfg.beta, difference::<A>(p, cfg.theta))),
        sigmoid_of::<A>(product::<A>(cfg.beta, difference::<A>(p.negated(), cfg.theta))),
    )
}

/// Gating: both sides added up, or the double threshold `|p| > theta`.
pub open spec fn gate_of<A: Arith>(p: Single, cfg: Config) -> Single {
    match cfg.gate {
        GateMode::Soft => sum::<A>(gate_sides::<A>(p, cfg).0, gate_sides::<A>(p, cfg).1),
        GateMode::Hard => if less(cfg.theta, p.absolute()) {
            unit()
        } else {
            nought()
        },
    }
}

/// `beta * s * (1 - s)`.
pub open spec fn side_slope<A: Arith>(s: Single, cfg: Config) -> Single {
    product::<A>(product::<A>(cfg.beta, s), difference::<A>(unit(), s))
}

/// The derivative of the soft gate.
pub open spec fn gate_slope<A: Arith>(p: Single, cfg: Config) -> Single {
    difference::<A>(
        side_slope::<A>(gate_sides::<A>(p, cfg).0, cfg),
        side_slope::<A>(gate_sides::<A>(p, cfg).1, cfg),
    )
}

/// `gate(p) * tanh(p)`.
pub open spec fn activation<A: Arith>(p: Single, cfg: Config) -> Single {
    product::<A>(gate_of::<A>(p, cfg), hyperbolic_tangent::<A>(p))
}

/// `gate'(p) * tanh(p) + gate(p) * (1 - tanh(p) * tanh(p))`.
pub open spec fn activation_slope<A: Arith>(p: Single, cfg: Config) -> Single {
    let t = hyperbolic_tangent::<A>(p);
    sum::<A>(
        product::<A>(gate_slope::<A>(p, cfg), t),
        product::<A>(gate_of::<A>(p, cfg), difference::<A>(unit(), product::<A>(t, t))),
    )
}

/// Sigmoid.
pub fn sigmoid<A: Arith>(z: Single) -> (r: Single)
    ensures
        deterministic::<A>() ==> r == sigmoid_of::<A>(z),
{
    A::over(Single::one(), A::plus(Single::one(), A::exp(z.neg())))
}

/// Gate value used in the forward pass.
///
/// `Soft`: `s(b(p - t)) + s(b(-p - t))`, differentiable.
/// `Hard`: `1` if `|p| > t` else `0`, event-driven.
pub fn gate<A: Arith>(p: Single, cfg: &Config) -> (r: Single)
    ensures
        deterministic::<A>() ==> r == gate_of::<A>(p, *cfg),
        cfg.gate == GateMode::Hard ==> r == if less(cfg.theta, p.absolute()) {
            unit()
        } else {
            nought()
        },
{
    match cfg.gate {
        GateMode::Soft => {
            let a = sigmoid::<A>(A::times(cfg.beta, A::minus(p, cfg.theta)));
            let b = sigmoid::<A>(A::times(cfg.beta, A::minus(p.neg(), cfg.theta)));
            A::plus(a, b)
        },
        GateMode::Hard => {
            if cfg.theta.lt(p.abs()) {
                Single::one()
            } else {
                Single::zeroed()
            }
        },
    }
}

/// Derivative of the soft gate. Used for both `Soft` (exact) and `Hard`
/// (surrogate) modes in the backward pass.
pub fn gate_grad<A: Arith>(p: Single, cfg: &Config) -> (r: Single)
    ensures
        deterministic::<A>() ==> r == gate_slope::<A>(p, *cfg),
{
    let a = sigmoid::<A>(A::times(cfg.beta, A::minus(p, cfg.theta)));
    let b = sigmoid::<A>(A::times(cfg.beta, A::minus(p.neg(), cfg.theta)));
    A::minus(
        A::times(A::times(cfg.beta, a), A::minus(Single::one(), a)),
        A::times(A::times(cfg.beta, b), A::minus(Single::one(), b)),
    )
}

/// Neuron output `gate(p) * tanh(p)`.
pub fn activate<A: Arith>(p: Single, cfg: &Config) -> (r: Single)
    ensures
        deterministic::<A>() ==> r == activation::<A>(p, *cfg),
{
    A::times(gate::<A>(p, cfg), A::tanh(p))
}

/// The local gradient of [`activate`]. In `Hard` mode gating is the hard
/// step (matching the forward pass) but its derivative is the soft surrogate.
pub fn activate_grad<A: Arith>(p: Single, cfg: &Config) -> (r: Single)
    ensures
        deterministic::<A>() ==> r == activation_slope::<A>(p, *cfg),
{
    let t = A::tanh(p);
    let g = gate::<A>(p, cfg);
    let dg = gate_grad::<A>(p, cfg);
    A::plus(A::times(dg, t), A::times(g, A::minus(Single::one(), A::times(t, t))))
}

// --- softmax ----------------------------------------------------------------

/// The largest of the first `n` of `z`, or negative infinity.
pub open spec fn peak(z: Seq<Single>, n: int) -> Single
    decreases n,
{
    if n <= 0 {
        Single { bits: NEG_INFINITY_BITS }
    } else {
        maximum(peak(z, n - 1), z[n - 1])
    }
}

/// `exp(z[i] - max(z))`.
pub open spec fn weight_of<A: Arith>(z: Seq<Single>, i: int) -> Single {
    exponential::<A>(difference::<A>(z[i], peak(z, z.len() as int)))
}

/// The weights of all of `z`, added up.
pub open spec fn total_weight<A: Arith>(z: Seq<Single>) -> Single {
    running_sum::<A>(nought(), z.len() as int, |i: int| weight_of::<A>(z, i))
}

/// The probabilities that logits `z` stand for.
pub open spec fn softmax<A: Arith>(z: Seq<Single>) -> Seq<Single> {
    Seq::new(
        z.len(),
        |i: int| quotient::<A>(weight_of::<A>(z, i), total_weight::<A>(z)),
    )
}

/// The surprise, in nats, at what had probability `p`.
pub open spec fn surprise<A: Arith>(p: Single) -> Single {
    logarithm::<A>(maximum(p, Single { bits: TEN_TO_MINUS_30_BITS })).negated()
}

/// Softmax and cross-entropy for one step. Returns `(probs, loss_nats)`.
pub fn softmax_ce<A: Arith>(logits: &[Single], target: u32) -> (r: (Vec<Single>, Single))
    requires
        target < logits@.len(),
    ensures
        r.0@.len() == logits@.len(),
        deterministic::<A>() ==> {
            &&& r.0@ == softmax::<A>(logits@)
            &&& r.1 == surprise::<A>(softmax::<A>(logits@)[target as int])
        },
{
    let n = logits.len();
    let mut maxv = Single { bits: NEG_INFINITY_BITS };
    let mut i: usize = 0;
    while i < n
        invariant
            n == logits@.len(),
            i <= n,
            deterministic::<A>() ==> maxv == peak(logits@, i as int),
        decreases n - i,
    {
        maxv = maxv.larger(logits[i]);
        i += 1;
    }
    let mut weights: Vec<Single> = Vec::new();
    let mut total = Single::zeroed();
    let ghost term = |i: int| weight_of::<A>(logits@, i);
    let mut i: usize = 0;
    while i < n
        invariant
            n == logits@.len(),
            i <= n,
            weights@.len() == i,
            term == (|i: int| weight_of::<A>(logits@, i)),
            deterministic::<A>() ==> maxv == peak(logits@, n as int),
            deterministic::<A>() ==> forall|k: int|
                0 <= k < i ==> #[trigger] weights@[k] == weight_of::<A>(logits@, k),
            deterministic::<A>() ==> total == running_sum::<A>(nought(), i as int, term),
        decreases n - i,
    {
        let w = A::exp(A::minus(logits[i], maxv));
        weights.push(w);
        total = A::plus(total, w);
        i += 1;
    }
    let mut probs: Vec<Single> = Vec::new();
    let mut i: usize = 0;
    while i < n
        invariant
            n == logits@.len(),
            i <= n,
            weights@.len() == n,
            probs@.len() == i,
            deterministic::<A>() ==> total == total_weight::<A>(logits@),
            deterministic::<A>() ==> forall|k: int|
                0 <= k < n ==> #[trigger] weights@[k] == weight_of::<A>(logits@, k),
            deterministic::<A>() ==> forall|k: int|
                0 <= k < i ==> #[trigger] probs@[k] == softmax::<A>(logits@)[k],
        decreases n - i,
    {
        probs.push(A::over(weights[i], total));
        i += 1;
    }
    proof {
        if deterministic::<A>() {
            assert(probs@ =~= softmax::<A>(logits@));
        }
    }
    let loss = A::ln(
        probs[target as usize].larger(Single { bits: TEN_TO_MINUS_30_BITS }),
    ).neg();
    (probs, loss)
}

// --- the model --------------------------------------------------------------

/// What a network is.
#[verifier::ext_equal]
pub struct Model {
    pub cfg: Config,
    pub graph: Csr,
    pub embed: Seq<Single>,
    pub readout: Seq<Single>,
    pub bias_out: Seq<Single>,
    pub vocab: int,
}

/// What a tape is.
#[verifier::ext_equal]
pub struct Trace {
    pub state: Seq<Seq<Single>>,
    pub pre: Seq<Seq<Single>>,
    pub state_init: Seq<Single>,
    pub probs: Seq<Seq<Single>>,
    pub targets: Seq<u32>,
    pub inputs: Seq<u32>,
    pub loss: Single,
}

/// A vector of vectors, as a sequence of sequences.
pub open spec fn rows_of(v: Seq<Vec<Single>>) -> Seq<Seq<Single>> {
    Seq::new(v.len(), |t: int| v[t]@)
}

impl View for Network {
    type V = Model;

    open spec fn view(&self) -> Model {
        Model {
            cfg: self.cfg,
            graph: self.topo@,
            embed: self.embed@,
            readout: self.readout@,
            bias_out: self.bias_out@,
            vocab: self.vocab as int,
        }
    }
}

impl View for Tape {
    type V = Trace;

    open spec fn view(&self) -> Trace {
        Trace {
            state: rows_of(self.state@),
            pre: rows_of(self.pre@),
            state_init: self.state_init@,
            probs: rows_of(self.probs@),
            targets: self.targets@,
            inputs: self.inputs@,
            loss: self.loss,
        }
    }
}

impl Csr {
    /// Every edge starts in a neuron whose state is among `len` states.
    pub open spec fn sources_below(self, len: nat) -> bool {
        forall|e: int| 0 <= e < self.edges() ==> #[trigger] self.source(e) < len
    }

    /// `start`, plus what arrives over the edges into neuron `j` from those
    /// sources that are not silent in `prev`.
    pub open spec fn gathered<A: Arith>(self, start: Single, prev: Seq<Single>, j: int) -> Single {
        let into = self.into_neuron(j);
        running_sum_where::<A>(
            start,
            into.len() as int,
            |k: int| !prev[self.source(into[k] as int) as int].zero(),
            |k: int|
                product::<A>(
                    self.weights[into[k] as int],
                    prev[self.source(into[k] as int) as int],
                ),
        )
    }
}

impl Model {
    /// The first output neuron.
    pub open spec fn out_start(self) -> int {
        self.cfg.n - self.cfg.n_out
    }

    /// What injecting `tok` adds to neuron `i`.
    pub open spec fn injected<A: Arith>(self, tok: u32, i: int) -> Single {
        if i < self.cfg.n_in {
            sum::<A>(nought(), self.embed[tok * self.cfg.n_in + i])
        } else {
            nought()
        }
    }

    /// The pre-activations that `tok` and the states `prev` give.
    pub open spec fn pre_activations<A: Arith>(self, tok: u32, prev: Seq<Single>) -> Seq<Single> {
        Seq::new(
            self.cfg.n as nat,
            |j: int| self.graph.gathered::<A>(self.injected::<A>(tok, j), prev, j),
        )
    }

    /// The states that pre-activations `pre` give.
    pub open spec fn activations<A: Arith>(self, pre: Seq<Single>) -> Seq<Single> {
        Seq::new(pre.len(), |j: int| activation::<A>(pre[j], self.cfg))
    }

    /// The states one step after `prev`, with `tok` injected.
    pub open spec fn stepped<A: Arith>(self, tok: u32, prev: Seq<Single>) -> Seq<Single> {
        self.activations::<A>(self.pre_activations::<A>(tok, prev))
    }

    /// The states after the first `t` tokens of `seq`, from `init`.
    pub open spec fn carried<A: Arith>(self, seq: Seq<u32>, init: Seq<Single>, t: int) -> Seq<
        Single,
    >
        decreases t,
    {
        if t <= 0 {
            init
        } else {
            self.stepped::<A>(seq[t - 1], self.carried::<A>(seq, init, t - 1))
        }
    }

    /// The logit of token `c`: its bias, plus readout times state over the output
    /// neurons that are not silent.
    pub open spec fn logit<A: Arith>(self, state: Seq<Single>, c: int) -> Single {
        running_sum_where::<A>(
            self.bias_out[c],
            self.cfg.n_out as int,
            |m: int| !state[self.out_start() + m].zero(),
            |m: int|
                product::<A>(self.readout[m * self.vocab + c], state[self.out_start() + m]),
        )
    }

    /// The logits that `state` stands for.
    pub open spec fn logits<A: Arith>(self, state: Seq<Single>) -> Seq<Single> {
        Seq::new(self.bias_out.len(), |c: int| self.logit::<A>(state, c))
    }

    /// The probabilities predicted after token `t` of `seq`.
    pub open spec fn predicted<A: Arith>(self, seq: Seq<u32>, init: Seq<Single>, t: int) -> Seq<
        Single,
    > {
        softmax::<A>(self.logits::<A>(self.carried::<A>(seq, init, t + 1)))
    }

    /// The losses at the first `steps` steps, added up.
    pub open spec fn total_loss<A: Arith>(
        self,
        seq: Seq<u32>,
        init: Seq<Single>,
        steps: int,
    ) -> Single {
        running_sum::<A>(
            nought(),
            steps,
            |t: int| surprise::<A>(self.predicted::<A>(seq, init, t)[seq[t + 1] as int]),
        )
    }

    /// What the first `steps` steps of a window record.
    pub open spec fn recorded<A: Arith>(
        self,
        seq: Seq<u32>,
        init: Seq<Single>,
        steps: nat,
        loss: Single,
    ) -> Trace {
        Trace {
            state: Seq::new(steps, |t: int| self.carried::<A>(seq, init, t + 1)),
            pre: Seq::new(
                steps,
                |t: int| self.pre_activations::<A>(seq[t], self.carried::<A>(seq, init, t)),
            ),
            state_init: init,
            probs: Seq::new(steps, |t: int| self.predicted::<A>(seq, init, t)),
            targets: Seq::new(steps, |t: int| seq[t + 1]),
            inputs: Seq::new(steps, |t: int| seq[t]),
            loss,
        }
    }

    /// The forward pass over one window: `seq[t]` is injected at step `t` and
    /// `seq[t + 1]` is its target.
    pub open spec fn window_trace<A: Arith>(self, seq: Seq<u32>, init: Seq<Single>) -> Trace {
        let w = self.cfg.window;
        self.recorded::<A>(
            seq,
            init,
            w as nat,
            quotient::<A>(
                self.total_loss::<A>(seq, init, w as int),
                counted::<A>(w as u64),
            ),
        )
    }

    /// The first `len` items of `seq` can be injected: they are tokens, unless there
    /// is nothing to inject them into.
    pub open spec fn are_inputs(self, seq: Seq<u32>, len: int) -> bool {
        self.cfg.n_in > 0 ==> self.are_tokens(seq, len)
    }

    /// A window can be run over `seq`: every item but the last can be injected, and
    /// every item but the first is a token that can be predicted.
    pub open spec fn is_window(self, seq: Seq<u32>) -> bool {
        &&& self.cfg.window < seq.len()
        &&& self.are_inputs(seq, self.cfg.window as int)
        &&& forall|t: int| 1 <= t <= self.cfg.window ==> #[trigger] seq[t] < self.vocab
    }

    /// The first `len` items of `seq` are tokens.
    pub open spec fn are_tokens(self, seq: Seq<u32>, len: int) -> bool {
        forall|t: int| 0 <= t < len ==> #[trigger] seq[t] < self.vocab
    }
}

impl Trace {
    /// The trace is one of a window of `model`.
    pub open spec fn fits(self, model: Model) -> bool {
        let w = model.cfg.window;
        let n = model.cfg.n;
        &&& self.state.len() == w
        &&& self.pre.len() == w
        &&& self.probs.len() == w
        &&& self.targets.len() == w
        &&& self.inputs.len() == w
        &&& model.graph.sources_below(self.state_init.len())
        &&& forall|t: int| 0 <= t < w ==> #[trigger] self.state[t].len() == n
        &&& forall|t: int| 0 <= t < w ==> #[trigger] self.pre[t].len() == n
        &&& forall|t: int| 0 <= t < w ==> #[trigger] self.probs[t].len() == model.vocab
        &&& model.are_tokens(self.targets, w as int)
        &&& model.are_inputs(self.inputs, w as int)
    }
}

impl Network {
    /// Sizes agree with the configuration.
    pub open spec fn wf(self) -> bool {
        &&& self.topo.wf()
        &&& self.topo.n == self.cfg.n
        &&& self.cfg.n_in <= self.cfg.n
        &&& self.cfg.n_out <= self.cfg.n
        &&& self.embed@.len() == self.vocab * self.cfg.n_in
        &&& self.readout@.len() == self.cfg.n_out * self.vocab
        &&& self.bias_out@.len() == self.vocab
    }
}

/// Cell `(row, col)` of a table of `rows` rows of `cols` cells lies in it.
pub proof fn lemma_cell(row: int, rows: int, col: int, cols: int)
    requires
        0 <= row < rows,
        0 <= col < cols,
    ensures
        0 <= row * cols,
        row * cols + col < rows * cols,
        0 <= row * cols + col,
{
    assert(0 <= row * cols) by (nonlinear_arith)
        requires
            0 <= row,
            0 <= cols,
    ;
    assert(row * cols + cols <= rows * cols) by (nonlinear_arith)
        requires
            row + 1 <= rows,
            0 <= cols,
    ;
}

/// In a topology that has an edge, every edge starts in one of its neurons.
pub proof fn lemma_sources_below(topo: Topology)
    requires
        topo.wf(),
    ensures
        topo@.sources_below(topo.n as nat),
{
    assert forall|e: int| 0 <= e < topo@.edges() implies #[trigger] topo@.source(e)
        < topo.n by {
        assert(topo.col_idx@[e] < topo.n);
        lemma_source_of(topo.row_ptr@, topo.n as int, e);
    }
}

/// A copy of `s`.
pub fn copied(s: &[Single]) -> (r: Vec<Single>)
    ensures
        r@ == s@,
{
    let mut r: Vec<Single> = Vec::new();
    let mut i: usize = 0;
    while i < s.len()
        invariant
            i <= s@.len(),
            r@ == s@.take(i as int),
        decreases s.len() - i,
    {
        r.push(s[i]);
        i += 1;
        assert(r@ =~= s@.take(i as int));
    }
    r
}

impl Network {
    /// What arrives at neuron `j`, added to `start`.
    fn gather_one<A: Arith>(&self, j: usize, start: Single, prev: &[Single]) -> (r: Single)
        requires
            self.topo.wf(),
            j < self.topo.n,
            self.topo@.sources_below(prev@.len()),
        ensures
            deterministic::<A>() ==> r == self.topo@.gathered::<A>(start, prev@, j as int),
    {
        let topo = &self.topo;
        let ghost into = topo@.into_neuron(j as int);
        let ghost heard = |k: int| !prev@[topo@.source(into[k] as int) as int].zero();
        let ghost term = |k: int|
            product::<A>(
                topo@.weights[into[k] as int],
                prev@[topo@.source(into[k] as int) as int],
            );
        assert(lists_in_edges(topo.in_row_ptr@, topo.in_edge@, topo.col_idx@, j as int));
        proof {
            lemma_edges_into(topo.col_idx@, j as int, topo@.edges() as int);
        }
        let range = topo.in_range(j);
        let mut acc = start;
        let mut idx: usize = range.start;
        while idx < range.end
            invariant
                topo.wf(),
                topo@.sources_below(prev@.len()),
                into == topo.in_edge@.subrange(range.start as int, range.end as int),
                range.start <= idx <= range.end <= topo.in_edge@.len(),
                forall|k: int| 0 <= k < into.len() ==> #[trigger] into[k] < topo@.edges(),
                heard == (|k: int| !prev@[topo@.source(into[k] as int) as int].zero()),
                term == (|k: int|
                    product::<A>(
                        topo@.weights[into[k] as int],
                        prev@[topo@.source(into[k] as int) as int],
                    )),
                deterministic::<A>() ==> acc == running_sum_where::<A>(
                    start,
                    idx - range.start,
                    heard,
                    term,
                ),
            decreases range.end - idx,
        {
            let ghost k = idx - range.start;
            assert(into[k] == topo.in_edge@[idx as int]);
            let e: usize = topo.in_edge[idx] as usize;
            assert(topo.edge_src@[e as int] == topo@.source(e as int));
            let src: usize = topo.edge_src[e] as usize;
            let sv = prev[src];
            assert(heard(k) == !sv.zero());
            assert(term(k) == product::<A>(topo.weights@[e as int], sv));
            if !sv.is_zero() {
                acc = A::plus(acc, A::times(topo.weights[e], sv));
            }
            idx += 1;
        }
        acc
    }

    /// Adds recurrent contributions to the pre-activations `p`, gathering each
    /// target neuron's in-edges independently. `p` must already contain the token
    /// injection for input neurons.
    fn gather_recurrent<A: Arith>(&self, p: &mut Vec<Single>, prev: &[Single])
        requires
            self.topo.wf(),
            old(p)@.len() == self.topo.n,
            self.topo@.sources_below(prev@.len()),
        ensures
            final(p)@.len() == old(p)@.len(),
            deterministic::<A>() ==> final(p)@ == Seq::new(
                old(p)@.len(),
                |j: int| self.topo@.gathered::<A>(old(p)@[j], prev@, j),
            ),
    {
        let ghost before = p@;
        let gather = |j: usize, pj: Single| -> (r: Single)
            requires
                j < self.topo.n,
            ensures
                deterministic::<A>() ==> r == self.topo@.gathered::<A>(pj, prev@, j as int),
            { self.gather_one::<A>(j, pj, prev) };
        parallel_update(p, gather);
        proof {
            if deterministic::<A>() {
                assert forall|j: int| 0 <= j < before.len() implies #[trigger] p@[j]
                    == self.topo@.gathered::<A>(before[j], prev@, j) by {
                    let u = j as usize;
                    assert(p@[u as int] == p@[j]);
                }
                assert(p@ =~= Seq::new(
                    before.len(),
                    |j: int| self.topo@.gathered::<A>(before[j], prev@, j),
                ));
            }
        }
    }

    /// The pre-activations that `tok` and the states `prev` give.
    fn pre_activation<A: Arith>(&self, tok: u32, prev: &[Single]) -> (p: Vec<Single>)
        requires
            self.wf(),
            self.cfg.n_in > 0 ==> tok < self.vocab,
            self.topo@.sources_below(prev@.len()),
        ensures
            p@.len() == self.cfg.n,
            deterministic::<A>() ==> p@ == self@.pre_activations::<A>(tok, prev@),
    {
        let cfg = &self.cfg;
        let mut p = zeros(cfg.n);
        let mut i: usize = 0;
        if cfg.n_in > 0 {
            proof {
                lemma_cell(tok as int, self.vocab as int, 0, cfg.n_in as int);
                assert(tok * cfg.n_in < self.embed.len());
            }
            let erow: usize = tok as usize * cfg.n_in;
            while i < cfg.n_in
                invariant
                    self.wf(),
                    *cfg == self.cfg,
                    tok < self.vocab,
                    i <= cfg.n_in,
                    erow == tok * cfg.n_in,
                    p@.len() == cfg.n,
                    forall|j: int| i <= j < cfg.n ==> #[trigger] p@[j] == nought(),
                    deterministic::<A>() ==> forall|j: int|
                        0 <= j < i ==> #[trigger] p@[j] == self@.injected::<A>(tok, j),
                decreases cfg.n_in - i,
            {
                proof {
                    lemma_cell(tok as int, self.vocab as int, i as int, cfg.n_in as int);
                    assert(erow + i < self.embed.len());
                }
                p.set(i, A::plus(p[i], self.embed[erow + i]));
                i += 1;
            }
        }
        let ghost injected = p@;
        self.gather_recurrent::<A>(&mut p, prev);
        proof {
            if deterministic::<A>() {
                assert forall|j: int| 0 <= j < cfg.n implies #[trigger] injected[j]
                    == self@.injected::<A>(tok, j) by {}
                assert(p@ =~= self@.pre_activations::<A>(tok, prev@));
            }
        }
        p
    }

    /// The states that pre-activations `p` give.
    fn activations<A: Arith>(&self, p: &Vec<Single>) -> (s: Vec<Single>)
        ensures
            s@.len() == p@.len(),
            deterministic::<A>() ==> s@ == self@.activations::<A>(p@),
    {
        let cfg = &self.cfg;
        let act = |j: usize| -> (r: Single)
            requires
                j < p@.len(),
            ensures
                deterministic::<A>() ==> r == activation::<A>(p@[j as int], self.cfg),
            { activate::<A>(p[j], cfg) };
        let s = parallel_map(p.len(), act);
        proof {
            if deterministic::<A>() {
                assert forall|j: int| 0 <= j < p@.len() implies #[trigger] s@[j] == activation::<A>(
                    p@[j],
                    self.cfg,
                ) by {
                    let u = j as usize;
                    assert(s@[u as int] == s@[j]);
                }
                assert(s@ =~= self@.activations::<A>(p@));
            }
        }
        s
    }

    /// Logits from a state vector: bias plus readout times the output neurons.
    pub fn logits<A: Arith>(&self, state: &[Single]) -> (r: Vec<Single>)
        requires
            self.wf(),
            self.cfg.n_out > 0 ==> state@.len() >= self.cfg.n,
        ensures
            r@.len() == self.vocab,
            deterministic::<A>() ==> r@ == self@.logits::<A>(state@),
    {
        let cfg = &self.cfg;
        let vocab = self.vocab;
        let mut logits = copied(self.bias_out.as_slice());
        let base = cfg.out_start();
        let ghost heard = |m: int| !state@[base + m].zero();
        let ghost term = |c: int|
            |m: int| product::<A>(self.readout@[m * vocab + c], state@[base + m]);
        let mut m: usize = 0;
        while m < cfg.n_out
            invariant
                self.wf(),
                *cfg == self.cfg,
                vocab == self.vocab,
                base == cfg.n - cfg.n_out,
                cfg.n_out > 0 ==> state@.len() >= cfg.n,
                m <= cfg.n_out,
                logits@.len() == vocab,
                heard == (|m: int| !state@[base + m].zero()),
                term == (|c: int|
                    |m: int| product::<A>(self.readout@[m * vocab + c], state@[base + m])),
                deterministic::<A>() ==> forall|c: int|
                    0 <= c < vocab ==> #[trigger] logits@[c] == running_sum_where::<A>(
                        self.bias_out@[c],
                        m as int,
                        heard,
                        term(c),
                    ),
            decreases cfg.n_out - m,
        {
            let sv = state[base + m];
            assert(heard(m as int) == !sv.zero());
            if !sv.is_zero() && vocab > 0 {
                proof {
                    lemma_cell(m as int, cfg.n_out as int, 0, vocab as int);
                    assert(m * vocab < self.readout.len());
                }
                let row: usize = m * vocab;
                let ghost before = logits@;
                let mut c: usize = 0;
                while c < vocab
                    invariant
                        self.wf(),
                        *cfg == self.cfg,
                        vocab == self.vocab,
                        m < cfg.n_out,
                        c <= vocab,
                        row == m * vocab,
                        before.len() == vocab,
                        logits@.len() == vocab,
                        forall|q: int| c <= q < vocab ==> #[trigger] logits@[q] == before[q],
                        deterministic::<A>() ==> forall|q: int|
                            0 <= q < c ==> #[trigger] logits@[q] == sum::<A>(
                                before[q],
                                product::<A>(self.readout@[m * vocab + q], sv),
                            ),
                    decreases vocab - c,
                {
                    proof {
                        lemma_cell(m as int, cfg.n_out as int, c as int, vocab as int);
                        assert(row + c < self.readout.len());
                    }
                    logits.set(c, A::plus(logits[c], A::times(self.readout[row + c], sv)));
                    c += 1;
                }
                assert(deterministic::<A>() ==> forall|q: int|
                    0 <= q < vocab ==> #[trigger] logits@[q] == running_sum_where::<A>(
                        self.bias_out@[q],
                        m + 1,
                        heard,
                        term(q),
                    )) by {
                    if deterministic::<A>() {
                        assert forall|q: int| 0 <= q < vocab implies #[trigger] logits@[q]
                            == running_sum_where::<A>(
                            self.bias_out@[q],
                            m + 1,
                            heard,
                            term(q),
                        ) by {
                            assert(before[q] == running_sum_where::<A>(
                                self.bias_out@[q],
                                m as int,
                                heard,
                                term(q),
                            ));
                            assert(term(q)(m as int) == product::<A>(
                                self.readout@[m * vocab + q],
                                sv,
                            ));
                        }
                    }
                }
            }
            m += 1;
        }
        proof {
            if deterministic::<A>() {
                assert forall|c: int| 0 <= c < vocab implies #[trigger] logits@[c] == self@.logit::<
                    A,
                >(state@, c) by {
                    assert(heard =~= |m: int| !state@[self@.out_start() + m].zero());
                    assert(term(c) =~= |m: int|
                        product::<A>(
                            self@.readout[m * self@.vocab + c],
                            state@[self@.out_start() + m],
                        ));
                }
                assert(logits@ =~= self@.logits::<A>(state@));
            }
        }
        logits
    }

    /// Advances the recurrent state by one step for a single injected token (used
    /// by generation). Returns `(new_state, logits)`.
    pub fn step_once<A: Arith>(&self, tok: u32, prev: &[Single]) -> (r: (Vec<Single>, Vec<Single>))
        requires
            self.wf(),
            self.cfg.n_in > 0 ==> tok < self.vocab,
            self.topo@.sources_below(prev@.len()),
        ensures
            r.0@.len() == self.cfg.n,
            r.1@.len() == self.vocab,
            deterministic::<A>() ==> {
                &&& r.0@ == self@.stepped::<A>(tok, prev@)
                &&& r.1@ == self@.logits::<A>(self@.stepped::<A>(tok, prev@))
            },
    {
        let p = self.pre_activation::<A>(tok, prev);
        let s = self.activations::<A>(&p);
        let logits = self.logits::<A>(s.as_slice());
        (s, logits)
    }
}

impl Network {
    /// Runs one truncated-BPTT window. Token `seq[t]` is injected at step `t` and
    /// `seq[t + 1]` is its target. `state_init` is carried recurrent state (use
    /// zeros to reset).
    pub fn run_window<A: Arith>(&self, seq: &[u32], state_init: &[Single]) -> (tape: Tape)
        requires
            self.wf(),
            self@.is_window(seq@),
            self.topo@.sources_below(state_init@.len()),
        ensures
            tape@.fits(self@),
            tape@.state_init == state_init@,
            tape@.targets == seq@.subrange(1, self.cfg.window + 1),
            tape@.inputs == seq@.take(self.cfg.window as int),
            deterministic::<A>() ==> tape@ == self@.window_trace::<A>(seq@, state_init@),
    {
        let cfg = &self.cfg;
        let w = cfg.window;
        let ghost init = state_init@;
        let mut state: Vec<Vec<Single>> = Vec::new();
        let mut pre: Vec<Vec<Single>> = Vec::new();
        let mut probs: Vec<Vec<Single>> = Vec::new();
        let mut targets: Vec<u32> = Vec::new();
        let mut inputs: Vec<u32> = Vec::new();
        let mut loss = Single::zeroed();
        let ghost term = |t: int|
            surprise::<A>(self@.predicted::<A>(seq@, init, t)[seq@[t + 1] as int]);
        let mut prev = copied(state_init);
        proof {
            lemma_sources_below(self.topo);
        }
        let mut t: usize = 0;
        while t < w
            invariant
                self.wf(),
                self.topo@.sources_below(self.cfg.n as nat),
                w == self.cfg.window,
                self@.is_window(seq@),
                t <= w,
                self.topo@.sources_below(prev@.len()),
                state@.len() == t,
                pre@.len() == t,
                probs@.len() == t,
                targets@ == seq@.subrange(1, t + 1),
                inputs@ == seq@.take(t as int),
                forall|k: int| 0 <= k < t ==> #[trigger] state@[k]@.len() == self.cfg.n,
                forall|k: int| 0 <= k < t ==> #[trigger] pre@[k]@.len() == self.cfg.n,
                forall|k: int| 0 <= k < t ==> #[trigger] probs@[k]@.len() == self.vocab,
                term == (|t: int|
                    surprise::<A>(self@.predicted::<A>(seq@, init, t)[seq@[t + 1] as int])),
                deterministic::<A>() ==> prev@ == self@.carried::<A>(seq@, init, t as int),
                deterministic::<A>() ==> loss == running_sum::<A>(nought(), t as int, term),
                deterministic::<A>() ==> forall|k: int|
                    0 <= k < t ==> #[trigger] state@[k]@ == self@.carried::<A>(seq@, init, k + 1),
                deterministic::<A>() ==> forall|k: int|
                    0 <= k < t ==> #[trigger] pre@[k]@ == self@.pre_activations::<A>(
                        seq@[k],
                        self@.carried::<A>(seq@, init, k),
                    ),
                deterministic::<A>() ==> forall|k: int|
                    0 <= k < t ==> #[trigger] probs@[k]@ == self@.predicted::<A>(seq@, init, k),
            decreases w - t,
        {
            let tok: u32 = seq[t];
            let target: u32 = seq[t + 1];
            let p = self.pre_activation::<A>(tok, prev.as_slice());
            let s = self.activations::<A>(&p);
            let logits = self.logits::<A>(s.as_slice());
            let (pr, l) = softmax_ce::<A>(logits.as_slice(), target);
            loss = A::plus(loss, l);
            probs.push(pr);
            targets.push(target);
            inputs.push(tok);
            pre.push(p);
            state.push(copied(s.as_slice()));
            prev = s;
            t += 1;
            assert(targets@ =~= seq@.subrange(1, t + 1));
            assert(inputs@ =~= seq@.take(t as int));
        }
        let tape = Tape {
            state,
            pre,
            state_init: copied(state_init),
            probs,
            targets,
            inputs,
            loss: A::over(loss, A::of_count(w as u64)),
        };
        proof {
            if deterministic::<A>() {
                let spec_trace = self@.window_trace::<A>(seq@, init);
                assert(tape@.state =~= spec_trace.state);
                assert(tape@.pre =~= spec_trace.pre);
                assert(tape@.probs =~= spec_trace.probs);
                assert(tape@.targets =~= spec_trace.targets);
                assert(tape@.inputs =~= spec_trace.inputs);
            }
        }
        tape
    }
}

/// `1 / sqrt(count)`.
pub open spec fn fan_scale<A: Arith>(count: usize) -> Single {
    root::<A>(quotient::<A>(unit(), counted::<A>(count as u64)))
}

/// The network that `cfg` and the size of the vocabulary give.
pub open spec fn initial_model<A: Arith>(cfg: Config, vocab: usize) -> Model {
    let state = seeded_state(cfg.seed ^ 0xA11CE);
    let (embed, between) = gaussian_draws::<A>(state, vocab * cfg.n_in);
    let (readout, _) = gaussian_draws::<A>(between, cfg.n_out * vocab);
    Model {
        cfg,
        graph: initial_graph::<A>(cfg, seeded_state(cfg.seed)).0,
        embed: embed.map_values(|x: Single| product::<A>(x, fan_scale::<A>(cfg.n_in))),
        readout: readout.map_values(|x: Single| product::<A>(x, fan_scale::<A>(cfg.n_out))),
        bias_out: Seq::new(vocab as nat, |c: int| nought()),
        vocab: vocab as int,
    }
}

impl Network {
    /// A network with random wiring, embedding and readout, all drawn from the
    /// configured seed.
    pub fn new<A: Arith>(cfg: Config, vocab: usize) -> (net: Network)
        requires
            1 <= cfg.n <= u32::MAX,
            cfg.n < usize::MAX,
            cfg.n * initial_degree(cfg) <= u32::MAX,
            vocab * cfg.n_in <= usize::MAX,
            cfg.n_out * vocab <= usize::MAX,
        ensures
            net.cfg == cfg,
            net.vocab == vocab,
            net.topo.wf(),
            net.topo.n == cfg.n,
            net.topo@.is_packed(),
            net.topo@.is_simple(),
            forall|i: int|
                0 <= i < cfg.n ==> #[trigger] net.topo@.degree(i) == initial_degree(cfg),
            net.embed@.len() == vocab * cfg.n_in,
            net.readout@.len() == cfg.n_out * vocab,
            net.bias_out@.len() == vocab,
            cfg.n_in <= cfg.n && cfg.n_out <= cfg.n ==> net.wf(),
            deterministic::<A>() ==> net@ == initial_model::<A>(cfg, vocab),
    {
        let mut rng = seeded(cfg.seed ^ 0xA11CE);
        let embed_std = A::sqrt(A::over(Single::one(), A::of_count(cfg.n_in as u64)));
        let read_std = A::sqrt(A::over(Single::one(), A::of_count(cfg.n_out as u64)));
        let embed = gaussians::<A>(vocab * cfg.n_in, embed_std, &mut rng);
        let readout = gaussians::<A>(cfg.n_out * vocab, read_std, &mut rng);
        let bias_out = zeros(vocab);
        let mut topo_rng = seeded(cfg.seed);
        let topo = Topology::init_random::<A>(&cfg, &mut topo_rng);
        Network { cfg, topo, embed, readout, bias_out, vocab }
    }
}

// --- what holds of the model ------------------------------------------------

/// In `Hard` mode a neuron fires fully or not at all: fully where the magnitude
/// of its pre-activation exceeds the threshold.
pub proof fn law_hard_threshold<A: Arith>(p: Single, cfg: Config)
    requires
        cfg.gate == GateMode::Hard,
    ensures
        gate_of::<A>(p, cfg) == if less(cfg.theta, p.absolute()) {
            unit()
        } else {
            nought()
        },
        less(cfg.theta, p.absolute()) == less(cfg.theta, p.negated().absolute()),
{
}

/// The surrogate gradient: the slope does not depend on the mode.
pub proof fn law_slope_is_the_same_in_both_modes<A: Arith>(p: Single, cfg: Config, mode: GateMode)
    ensures
        gate_slope::<A>(p, cfg) == gate_slope::<A>(p, (Config { gate: mode, ..cfg })),
{
}

/// The slope is odd: at `-p` it is that at `p` negated, and at zero it is zero.
pub proof fn law_slope_is_odd<A: Arith>(p: Single, cfg: Config)
    requires
        subtracts::<A>(),
    ensures
        gate_sides::<A>(p.negated(), cfg) == (
            gate_sides::<A>(p, cfg).1,
            gate_sides::<A>(p, cfg).0,
        ),
        same_number(gate_slope::<A>(p.negated(), cfg), gate_slope::<A>(p, cfg).negated()),
        p.zero() && !cfg.theta.zero() && side_slope::<A>(gate_sides::<A>(p, cfg).0, cfg).finite()
            ==> gate_slope::<A>(p, cfg).zero(),
        p.zero() && cfg.theta.zero() && cfg.beta.finite() && side_slope::<A>(
            gate_sides::<A>(p, cfg).0,
            cfg,
        ).finite() && keeps_zero::<A>() && zeros_have_one_exponential::<A>() ==> gate_slope::<A>(
            p,
            cfg,
        ).zero(),
{
    law_negation(p, p);
    assert(p.negated().negated() == p);
    let (a, b) = gate_sides::<A>(p, cfg);
    let (sa, sb) = (side_slope::<A>(a, cfg), side_slope::<A>(b, cfg));
    assert(same_number(difference::<A>(sb, sa), difference::<A>(sa, sb).negated()));
    if p.zero() && !cfg.theta.zero() {
        assert(p.negated().zero());
        assert(difference::<A>(p, cfg.theta) == difference::<A>(p.negated(), cfg.theta));
    }
    if p.zero() && cfg.theta.zero() && cfg.beta.finite() && keeps_zero::<A>()
        && zeros_have_one_exponential::<A>() {
        let x = product::<A>(cfg.beta, difference::<A>(p, cfg.theta));
        let y = product::<A>(cfg.beta, difference::<A>(p.negated(), cfg.theta));
        assert(x.zero() && y.zero());
        assert(x.negated().zero() && y.negated().zero());
        assert(exponential::<A>(x.negated()) == exponential::<A>(y.negated()));
        assert(a == b);
    }
}

/// Where no source is active nothing arrives.
pub proof fn law_silence_sends_nothing<A: Arith>(
    g: Csr,
    start: Single,
    prev: Seq<Single>,
    j: int,
)
    requires
        forall|i: int| 0 <= i < prev.len() ==> (#[trigger] prev[i]).zero(),
        g.sources_below(prev.len()),
        g.edges() <= u32::MAX,
    ensures
        g.gathered::<A>(start, prev, j) == start,
{
    let into = g.into_neuron(j);
    lemma_edges_into(g.col_idx, j, g.edges() as int);
    let heard = |k: int| !prev[g.source(into[k] as int) as int].zero();
    let term = |k: int|
        product::<A>(g.weights[into[k] as int], prev[g.source(into[k] as int) as int]);
    assert forall|k: int| 0 <= k < into.len() implies !(#[trigger] heard(k)) by {
        assert(into[k] < g.edges());
        assert(g.source(into[k] as int) < prev.len());
    }
    lemma_nothing_counts::<A>(start, into.len() as int, heard, term);
}

proof fn lemma_nothing_counts<A: Arith>(
    start: Single,
    n: int,
    counts: spec_fn(int) -> bool,
    term: spec_fn(int) -> Single,
)
    requires
        forall|k: int| 0 <= k < n ==> !(#[trigger] counts(k)),
    ensures
        running_sum_where::<A>(start, n, counts, term) == start,
    decreases n,
{
    if n > 0 {
        assert(!counts(n - 1));
        lemma_nothing_counts::<A>(start, n - 1, counts, term);
    }
}

/// The states depend on the tokens so far alone: what comes later has no effect.
pub proof fn law_state_is_causal<A: Arith>(
    model: Model,
    x: Seq<u32>,
    y: Seq<u32>,
    init: Seq<Single>,
    t: int,
)
    requires
        0 <= t <= x.len(),
        t <= y.len(),
        x.take(t) == y.take(t),
    ensures
        model.carried::<A>(x, init, t) == model.carried::<A>(y, init, t),
    decreases t,
{
    if t > 0 {
        assert(x[t - 1] == x.take(t)[t - 1]);
        assert(y[t - 1] == y.take(t)[t - 1]);
        assert(x.take(t - 1) =~= x.take(t).take(t - 1));
        assert(y.take(t - 1) =~= y.take(t).take(t - 1));
        law_state_is_causal::<A>(model, x, y, init, t - 1);
    }
}

/// Running on from a carried state is as good as running through: the states
/// after `a + b` tokens are those after `b` more tokens from the state after `a`.
pub proof fn law_carried_state_joins_windows<A: Arith>(
    model: Model,
    seq: Seq<u32>,
    init: Seq<Single>,
    a: int,
    b: int,
)
    requires
        0 <= a,
        0 <= b,
        a + b <= seq.len(),
    ensures
        model.carried::<A>(seq, init, a + b) == model.carried::<A>(
            seq.skip(a),
            model.carried::<A>(seq, init, a),
            b,
        ),
    decreases b,
{
    if b > 0 {
        law_carried_state_joins_windows::<A>(model, seq, init, a, b - 1);
        assert(seq.skip(a)[b - 1] == seq[a + b - 1]);
    }
}

/// Running a window is taking its steps one by one: each starts from the state that
/// the step before left, and predicts from the state that it leaves; the loss is the
/// mean of what the steps' targets cost.
pub proof fn law_window_is_its_steps<A: Arith>(
    model: Model,
    seq: Seq<u32>,
    init: Seq<Single>,
    t: int,
)
    requires
        0 <= t < model.cfg.window,
    ensures
        ({
            let trace = model.window_trace::<A>(seq, init);
            let prev = if t == 0 {
                init
            } else {
                trace.state[t - 1]
            };
            &&& trace.pre[t] == model.pre_activations::<A>(seq[t], prev)
            &&& trace.state[t] == model.stepped::<A>(seq[t], prev)
            &&& trace.probs[t] == softmax::<A>(model.logits::<A>(trace.state[t]))
            &&& trace.inputs[t] == seq[t]
            &&& trace.targets[t] == seq[t + 1]
            &&& trace.loss == quotient::<A>(
                running_sum::<A>(
                    nought(),
                    model.cfg.window as int,
                    |s: int| surprise::<A>(trace.probs[s][trace.targets[s] as int]),
                ),
                counted::<A>(model.cfg.window as u64),
            )
        }),
{
    let trace = model.window_trace::<A>(seq, init);
    lemma_running_sum_ext::<A>(
        nought(),
        model.cfg.window as int,
        |s: int| surprise::<A>(model.predicted::<A>(seq, init, s)[seq[s + 1] as int]),
        |s: int| surprise::<A>(trace.probs[s][trace.targets[s] as int]),
    );
}

/// The sigmoid of `z` is one over one plus the exponential of minus `z`; and that of
/// minus `z` has the exponential of `z` in its place.
pub proof fn law_sigmoid<A: Arith>(z: Single)
    ensures
        sigmoid_of::<A>(z) == quotient::<A>(
            unit(),
            sum::<A>(unit(), exponential::<A>(z.negated())),
        ),
        sigmoid_of::<A>(z.negated()) == quotient::<A>(
            unit(),
            sum::<A>(unit(), exponential::<A>(z)),
        ),
{
    law_negation(z, z);
}

/// The soft gate opens on both sides: at `p` it is what a sigmoid of steepness beta
/// gives of the distance of `p` from theta, plus what it gives of that of minus `p`.
pub proof fn law_soft_gate_has_two_sides<A: Arith>(p: Single, cfg: Config)
    requires
        cfg.gate == GateMode::Soft,
    ensures
        gate_of::<A>(p, cfg) == sum::<A>(
            sigmoid_of::<A>(product::<A>(cfg.beta, difference::<A>(p, cfg.theta))),
            sigmoid_of::<A>(product::<A>(cfg.beta, difference::<A>(p.negated(), cfg.theta))),
        ),
{
}

/// Gates are even: they do not tell `p` from minus `p`.
pub proof fn law_gate_is_even<A: Arith>(p: Single, cfg: Config)
    requires
        adds_either_way::<A>(),
    ensures
        gate_of::<A>(p.negated(), cfg) == gate_of::<A>(p, cfg),
{
    law_negation(p, p);
    law_absolute(p);
}

/// The slope of the soft gate is that of its one side less that of the other, each
/// of them beta times the side times what it falls short of one.
pub proof fn law_gate_slope_is_that_of_its_sides<A: Arith>(
    p: Single,
    cfg: Config,
    a: Single,
    b: Single,
)
    requires
        a == sigmoid_of::<A>(product::<A>(cfg.beta, difference::<A>(p, cfg.theta))),
        b == sigmoid_of::<A>(product::<A>(cfg.beta, difference::<A>(p.negated(), cfg.theta))),
    ensures
        gate_of::<A>(p, (Config { gate: GateMode::Soft, ..cfg })) == sum::<A>(a, b),
        gate_slope::<A>(p, cfg) == difference::<A>(
            product::<A>(product::<A>(cfg.beta, a), difference::<A>(unit(), a)),
            product::<A>(product::<A>(cfg.beta, b), difference::<A>(unit(), b)),
        ),
{
}

/// The slope of the activation follows the product rule, with gating as in the forward
/// pass in either mode: what the activation multiplies with the hyperbolic tangent
/// is what its slope multiplies with that of the tangent.
pub proof fn law_slope_follows_the_product_rule<A: Arith>(p: Single, cfg: Config, other: Config)
    ensures
        activation::<A>(p, cfg) == product::<A>(
            gate_of::<A>(p, cfg),
            hyperbolic_tangent::<A>(p),
        ),
        activation_slope::<A>(p, cfg) == sum::<A>(
            product::<A>(gate_slope::<A>(p, cfg), hyperbolic_tangent::<A>(p)),
            product::<A>(
                gate_of::<A>(p, cfg),
                difference::<A>(
                    unit(),
                    product::<A>(hyperbolic_tangent::<A>(p), hyperbolic_tangent::<A>(p)),
                ),
            ),
        ),
        gate_of::<A>(p, cfg) == gate_of::<A>(p, other) && gate_slope::<A>(p, cfg)
            == gate_slope::<A>(p, other) ==> activation_slope::<A>(p, cfg)
            == activation_slope::<A>(p, other),
{
}

/// The slope of a neuron that fires, and that of one that does not, in `Hard` mode:
/// the tangent counts in full or not at all, and the surrogate slope of gating
/// counts in both cases.
pub proof fn law_slope_of_a_hard_neuron<A: Arith>(p: Single, cfg: Config)
    requires
        cfg.gate == GateMode::Hard,
    ensures
        ({
            let t = hyperbolic_tangent::<A>(p);
            let soft = Config { gate: GateMode::Soft, ..cfg };
            let rest = difference::<A>(unit(), product::<A>(t, t));
            &&& less(cfg.theta, p.absolute()) ==> activation_slope::<A>(p, cfg) == sum::<A>(
                product::<A>(gate_slope::<A>(p, soft), t),
                product::<A>(unit(), rest),
            )
            &&& !less(cfg.theta, p.absolute()) ==> activation_slope::<A>(p, cfg) == sum::<A>(
                product::<A>(gate_slope::<A>(p, soft), t),
                product::<A>(nought(), rest),
            )
            &&& gate_of::<A>(p, cfg) == gate_of::<A>(p, soft) ==> activation_slope::<A>(p, cfg)
                == activation_slope::<A>(p, soft)
        }),
{
}

/// The first of the largest is the peak.
proof fn lemma_peak(z: Seq<Single>, at: int, n: int)
    requires
        0 <= at < n <= z.len(),
        !z[at].nan(),
        forall|k: int| 0 <= k < n ==> (#[trigger] z[k]).nan() || at_most(z[k], z[at]),
        forall|k: int| 0 <= k < at ==> (#[trigger] z[k]).nan() || less(z[k], z[at]),
    ensures
        peak(z, n) == z[at],
    decreases n,
{
    if at < n - 1 {
        lemma_peak(z, at, n - 1);
    } else {
        lemma_below_peak(z, z[at], at);
    }
}

/// While all are below `m`, so is the peak, unless `m` is negative infinity.
proof fn lemma_below_peak(z: Seq<Single>, m: Single, n: int)
    requires
        0 <= n <= z.len(),
        !m.nan(),
        forall|k: int| 0 <= k < n ==> (#[trigger] z[k]).nan() || less(z[k], m),
    ensures
        less(peak(z, n), m) || (m == peak(z, n) && m == (Single { bits: NEG_INFINITY_BITS })),
    decreases n,
{
    if n > 0 {
        lemma_below_peak(z, m, n - 1);
    }
}

/// Probabilities are shares: of the exponentials of what each logit falls short of
/// the largest, `z[at]`, each is divided by their sum. Logits that are NaNs do not
/// count as the largest.
pub proof fn law_softmax_shares_exponentials<A: Arith>(z: Seq<Single>, at: int, i: int)
    requires
        0 <= at < z.len(),
        0 <= i < z.len(),
        !z[at].nan(),
        forall|k: int| 0 <= k < z.len() ==> (#[trigger] z[k]).nan() || at_most(z[k], z[at]),
        forall|k: int| 0 <= k < at ==> (#[trigger] z[k]).nan() || less(z[k], z[at]),
    ensures
        softmax::<A>(z).len() == z.len(),
        softmax::<A>(z)[i] == quotient::<A>(
            exponential::<A>(difference::<A>(z[i], z[at])),
            running_sum::<A>(
                nought(),
                z.len() as int,
                |k: int| exponential::<A>(difference::<A>(z[k], z[at])),
            ),
        ),
{
    lemma_peak(z, at, z.len() as int);
    lemma_running_sum_ext::<A>(
        nought(),
        z.len() as int,
        |k: int| weight_of::<A>(z, k),
        |k: int| exponential::<A>(difference::<A>(z[k], z[at])),
    );
}

/// Equal logits have equal probabilities.
pub proof fn law_equal_logits_are_equally_likely<A: Arith>(z: Seq<Single>, i: int, j: int)
    requires
        0 <= i < z.len(),
        0 <= j < z.len(),
        z[i] == z[j],
    ensures
        softmax::<A>(z)[i] == softmax::<A>(z)[j],
{
}

/// What a target costs is minus the logarithm of its probability, which is taken for
/// the floor of 1e-30 where it is below that or a NaN.
pub proof fn law_cost_is_the_logarithm<A: Arith>(p: Single)
    ensures
        ({
            let floor = Single { bits: 0x0da2_4260 };
            &&& at_most(floor, p) ==> surprise::<A>(p) == logarithm::<A>(p).negated()
            &&& !at_most(floor, p) ==> surprise::<A>(p) == logarithm::<A>(floor).negated()
        }),
{
}

/// One step of one neuron: input neurons start from the embedding of the token, all
/// others from zero; what arrives over the edges is added; and the activation of
/// the sum is the new state.
pub proof fn law_step_of_a_neuron<A: Arith>(model: Model, tok: u32, prev: Seq<Single>, j: int)
    requires
        0 <= j < model.cfg.n,
    ensures
        model.stepped::<A>(tok, prev).len() == model.cfg.n,
        model.pre_activations::<A>(tok, prev).len() == model.cfg.n,
        j < model.cfg.n_in ==> model.pre_activations::<A>(tok, prev)[j]
            == model.graph.gathered::<A>(
            sum::<A>(nought(), model.embed[tok * model.cfg.n_in + j]),
            prev,
            j,
        ),
        model.cfg.n_in <= j ==> model.pre_activations::<A>(tok, prev)[j]
            == model.graph.gathered::<A>(nought(), prev, j),
        model.stepped::<A>(tok, prev)[j] == activation::<A>(
            model.pre_activations::<A>(tok, prev)[j],
            model.cfg,
        ),
{
}

/// A logit is its bias plus, over the output neurons, readout times state: neurons
/// that are silent are passed over, which makes no difference.
pub proof fn law_logit_is_bias_plus_readout<A: Arith>(model: Model, state: Seq<Single>, c: int)
    requires
        keeps_zero::<A>(),
        absorbs_zero::<A>(),
        0 <= c < model.bias_out.len(),
        is_steady::<A>(model.bias_out[c]),
        forall|m: int|
            0 <= m < model.cfg.n_out ==> (#[trigger] model.readout[m * model.vocab + c]).finite(),
    ensures
        model.logits::<A>(state).len() == model.bias_out.len(),
        model.logits::<A>(state)[c] == running_sum::<A>(
            model.bias_out[c],
            model.cfg.n_out as int,
            |m: int|
                product::<A>(
                    model.readout[m * model.vocab + c],
                    state[model.cfg.n - model.cfg.n_out + m],
                ),
        ),
{
    let term = |m: int|
        product::<A>(
            model.readout[m * model.vocab + c],
            state[model.cfg.n - model.cfg.n_out + m],
        );
    let spoken = |m: int|
        product::<A>(model.readout[m * model.vocab + c], state[model.out_start() + m]);
    let heard = |m: int| !state[model.out_start() + m].zero();
    assert forall|m: int| 0 <= m < model.cfg.n_out && !#[trigger] heard(m) implies spoken(
        m,
    ).zero() by {
        assert(model.readout[m * model.vocab + c].finite());
    }
    lemma_zero_terms::<A>(model.bias_out[c], model.cfg.n_out as int, heard, spoken);
    lemma_running_sum_ext::<A>(model.bias_out[c], model.cfg.n_out as int, spoken, term);
}

/// A logit adds, one output neuron after the other, readout times state of those that
/// are not silent: `partial[m]` is what the first `m` of them make of the bias.
pub proof fn law_logit_adds_neuron_by_neuron<A: Arith>(
    model: Model,
    state: Seq<Single>,
    c: int,
    partial: Seq<Single>,
)
    requires
        0 <= c < model.bias_out.len(),
        partial.len() == model.cfg.n_out + 1,
        partial[0] == model.bias_out[c],
        forall|m: int|
            0 < m <= model.cfg.n_out ==> #[trigger] partial[m] == {
                let sv = state[model.cfg.n - model.cfg.n_out + m - 1];
                if sv.zero() {
                    partial[m - 1]
                } else {
                    sum::<A>(
                        partial[m - 1],
                        product::<A>(model.readout[(m - 1) * model.vocab + c], sv),
                    )
                }
            },
    ensures
        model.logits::<A>(state)[c] == partial.last(),
{
    let heard = |m: int| !state[model.out_start() + m].zero();
    let spoken = |m: int|
        product::<A>(model.readout[m * model.vocab + c], state[model.out_start() + m]);
    law_running_sum_passes_over_terms::<A>(model.cfg.n_out as int, heard, spoken, partial);
}

/// A new network draws embedding and readout one after the other from one generator,
/// seeded apart from that of the graph. Both have the variance of one over the
/// number of neurons that they go to or come from. The biases are zero.
pub proof fn law_parameters_are_consecutive_draws<A: Arith>(cfg: Config, vocab: usize, k: int)
    ensures
        ({
            let model = initial_model::<A>(cfg, vocab);
            let split = vocab * cfg.n_in;
            let draws = gaussian_draws::<A>(
                seeded_state(cfg.seed ^ 0xA11CE),
                split + cfg.n_out * vocab,
            ).0;
            &&& model.cfg == cfg
            &&& model.vocab == vocab
            &&& model.graph == initial_graph::<A>(cfg, seeded_state(cfg.seed)).0
            &&& model.embed.len() == split
            &&& model.readout.len() == cfg.n_out * vocab
            &&& model.bias_out.len() == vocab
            &&& 0 <= k < split ==> model.embed[k] == product::<A>(
                draws[k],
                root::<A>(quotient::<A>(unit(), counted::<A>(cfg.n_in as u64))),
            )
            &&& 0 <= k < cfg.n_out * vocab ==> model.readout[k] == product::<A>(
                draws[split + k],
                root::<A>(quotient::<A>(unit(), counted::<A>(cfg.n_out as u64))),
            )
            &&& 0 <= k < vocab ==> model.bias_out[k] == nought()
        }),
{
    let split = vocab * cfg.n_in;
    let rest = cfg.n_out * vocab;
    assert(0 <= split) by (nonlinear_arith)
        requires
            split == vocab * cfg.n_in,
    ;
    assert(0 <= rest) by (nonlinear_arith)
        requires
            rest == cfg.n_out * vocab,
    ;
    law_draws_go_on::<A>(seeded_state(cfg.seed ^ 0xA11CE), split, rest);
}

/// Where all logits are NaNs the largest is taken for negative infinity.
pub proof fn law_softmax_of_nans<A: Arith>(z: Seq<Single>, i: int)
    requires
        0 <= i < z.len(),
        forall|k: int| 0 <= k < z.len() ==> (#[trigger] z[k]).nan(),
    ensures
        softmax::<A>(z)[i] == ({
            let lowest = Single { bits: 0xff80_0000 };
            quotient::<A>(
                exponential::<A>(difference::<A>(z[i], lowest)),
                running_sum::<A>(
                    nought(),
                    z.len() as int,
                    |k: int| exponential::<A>(difference::<A>(z[k], lowest)),
                ),
            )
        }),
{
    let lowest = Single { bits: 0xff80_0000 };
    lemma_peak_of_nans(z, z.len() as int);
    lemma_running_sum_ext::<A>(
        nought(),
        z.len() as int,
        |k: int| weight_of::<A>(z, k),
        |k: int| exponential::<A>(difference::<A>(z[k], lowest)),
    );
}

proof fn lemma_peak_of_nans(z: Seq<Single>, n: int)
    requires
        0 <= n <= z.len(),
        forall|k: int| 0 <= k < n ==> (#[trigger] z[k]).nan(),
    ensures
        peak(z, n) == (Single { bits: 0xff80_0000 }),
    decreases n,
{
    if n > 0 {
        lemma_peak_of_nans(z, n - 1);
        assert(z[n - 1].nan());
    }
}

} // verus!
