//! Truncated backpropagation through time over a recorded [`Tape`].
//!
//! The cyclic graph unrolled over a window is acyclic: an edge delivers its
//! signal on the next step, so gradients flow both upstream (through edges within
//! a step) and backwards in time (into the previous step's state). Gating is
//! handled with a surrogate gradient: [`activate_grad`] uses the soft-gate
//! derivative regardless of gate mode.
use vstd::prelude::*;

use crate::arith::{
    counted, deterministic, difference, lemma_running_sum_ext, product, quotient, running_sum,
    running_sum_where, sum, zeros, Arith,
};
use crate::graph::{row_fits, Csr};
use crate::network::{
    activate_grad, activation_slope, lemma_cell, lemma_sources_below, rows_of, Model,
    Network, Tape, Trace,
};
use crate::parallel::{parallel_map, parallel_update};
use crate::scalar::{nought, unit, Single};

verus! {

pub struct Grads {
    /// Gradient per edge (parallel to `Topology::weights`).
    pub g_w: Vec<Single>,
    /// Gradient of the embedding, `vocab * n_in`.
    pub g_embed: Vec<Single>,
    /// Gradient of the readout, `n_out * vocab`.
    pub g_readout: Vec<Single>,
    /// Gradient of the output bias, `vocab`.
    pub g_bias: Vec<Single>,
    /// Gradient of the pre-activation per step (kept so that candidate edges can
    /// be scored). `window` entries each of length `n`.
    pub dpre: Vec<Vec<Single>>,
}

/// What gradients are.
#[verifier::ext_equal]
pub struct Slopes {
    pub g_w: Seq<Single>,
    pub g_embed: Seq<Single>,
    pub g_readout: Seq<Single>,
    pub g_bias: Seq<Single>,
    pub dpre: Seq<Seq<Single>>,
}

impl View for Grads {
    type V = Slopes;

    open spec fn view(&self) -> Slopes {
        Slopes {
            g_w: self.g_w@,
            g_embed: self.g_embed@,
            g_readout: self.g_readout@,
            g_bias: self.g_bias@,
            dpre: rows_of(self.dpre@),
        }
    }
}

impl Slopes {
    /// There is one gradient for each parameter of `model`.
    pub open spec fn fits(self, model: Model) -> bool {
        &&& self.g_w.len() == model.graph.edges()
        &&& self.g_embed.len() == model.vocab * model.cfg.n_in
        &&& self.g_readout.len() == model.cfg.n_out * model.vocab
        &&& self.g_bias.len() == model.vocab
        &&& self.dpre.len() == model.cfg.window
        &&& forall|t: int|
            0 <= t < model.cfg.window ==> #[trigger] self.dpre[t].len() == model.cfg.n
    }
}

impl Csr {
    /// What neuron `i` is charged over its out-edges for the gradients `d` of the
    /// neurons they end in.
    pub open spec fn charged<A: Arith>(self, d: Seq<Single>, i: int) -> Single {
        running_sum::<A>(
            nought(),
            self.degree(i),
            |k: int|
                product::<A>(
                    self.weights[self.row_start(i) + k],
                    d[self.col_idx[self.row_start(i) + k] as int],
                ),
        )
    }
}

impl Trace {
    /// The states from which step `t` was computed.
    pub open spec fn state_before(self, t: int) -> Seq<Single> {
        if t == 0 {
            self.state_init
        } else {
            self.state[t - 1]
        }
    }
}

impl Model {
    /// The gradient of the logit of token `c` at step `t`:
    /// `(probability - 1{c is the target}) / window`.
    pub open spec fn logit_grad<A: Arith>(self, trace: Trace, t: int, c: int) -> Single {
        let p = trace.probs[t][c];
        product::<A>(
            if c == trace.targets[t] {
                difference::<A>(p, unit())
            } else {
                p
            },
            quotient::<A>(unit(), counted::<A>(self.cfg.window as u64)),
        )
    }

    /// What output neuron `m` is charged for the logits of step `t`.
    pub open spec fn readout_charge<A: Arith>(self, trace: Trace, t: int, m: int) -> Single {
        running_sum::<A>(
            nought(),
            self.vocab,
            |c: int|
                product::<A>(self.readout[m * self.vocab + c], self.logit_grad::<A>(trace, t, c)),
        )
    }

    /// The gradient of the state of neuron `j` at step `t`: `future`, what the
    /// next step charges, plus what the readout does.
    pub open spec fn state_grad<A: Arith>(
        self,
        trace: Trace,
        t: int,
        future: Seq<Single>,
        j: int,
    ) -> Single {
        if j < self.out_start() {
            future[j]
        } else {
            sum::<A>(future[j], self.readout_charge::<A>(trace, t, j - self.out_start()))
        }
    }

    /// What the pre-activation gradients `d` of one step charge the states of the
    /// step before.
    pub open spec fn charges<A: Arith>(self, d: Seq<Single>) -> Seq<Single> {
        Seq::new(self.cfg.n as nat, |i: int| self.graph.charged::<A>(d, i))
    }

    /// The gradients of the pre-activations at step `t`, where the next step charges
    /// `future`.
    pub open spec fn pre_grads_given<A: Arith>(
        self,
        trace: Trace,
        t: int,
        future: Seq<Single>,
    ) -> Seq<Single> {
        Seq::new(
            self.cfg.n as nat,
            |j: int|
                product::<A>(
                    self.state_grad::<A>(trace, t, future, j),
                    activation_slope::<A>(trace.pre[t][j], self.cfg),
                ),
        )
    }

    /// What step `t + 1` charges the states of step `t`; nothing after the window.
    pub open spec fn future_grads<A: Arith>(self, trace: Trace, t: int) -> Seq<Single>
        decreases self.cfg.window - t,
    {
        if t + 1 < self.cfg.window {
            self.charges::<A>(
                self.pre_grads_given::<A>(
                    trace,
                    t + 1,
                    self.future_grads::<A>(trace, t + 1),
                ),
            )
        } else {
            Seq::new(self.cfg.n as nat, |i: int| nought())
        }
    }

    /// The gradients of the pre-activations at step `t`.
    pub open spec fn pre_grads<A: Arith>(self, trace: Trace, t: int) -> Seq<Single> {
        self.pre_grads_given::<A>(trace, t, self.future_grads::<A>(trace, t))
    }

    /// The step that is `k` steps from the end of the window.
    pub open spec fn from_end(self, k: int) -> int {
        self.cfg.window - 1 - k
    }

    /// The bias gradient of token `c` over the last `steps` steps, latest first.
    pub open spec fn bias_grad<A: Arith>(self, trace: Trace, c: int, steps: int) -> Single {
        running_sum::<A>(
            nought(),
            steps,
            |k: int| self.logit_grad::<A>(trace, self.from_end(k), c),
        )
    }

    /// The readout gradient from output neuron `m` to token `c`.
    pub open spec fn readout_grad<A: Arith>(
        self,
        trace: Trace,
        m: int,
        c: int,
        steps: int,
    ) -> Single {
        running_sum::<A>(
            nought(),
            steps,
            |k: int|
                product::<A>(
                    trace.state[self.from_end(k)][self.out_start() + m],
                    self.logit_grad::<A>(trace, self.from_end(k), c),
                ),
        )
    }

    /// The embedding gradient from token `tok` to input neuron `i`: over the steps
    /// at which the token was injected.
    pub open spec fn embed_grad<A: Arith>(
        self,
        trace: Trace,
        tok: int,
        i: int,
        steps: int,
    ) -> Single {
        running_sum_where::<A>(
            nought(),
            steps,
            |k: int| trace.inputs[self.from_end(k)] == tok,
            |k: int| self.pre_grads::<A>(trace, self.from_end(k))[i],
        )
    }

    /// The weight gradient of edge `e`.
    pub open spec fn weight_grad<A: Arith>(self, trace: Trace, e: int, steps: int) -> Single {
        running_sum::<A>(
            nought(),
            steps,
            |k: int|
                product::<A>(
                    trace.state_before(self.from_end(k))[self.graph.source(e) as int],
                    self.pre_grads::<A>(trace, self.from_end(k))[self.graph.col_idx[e] as int],
                ),
        )
    }

    /// The gradients of every parameter over one window.
    pub open spec fn gradients<A: Arith>(self, trace: Trace) -> Slopes {
        let w = self.cfg.window as int;
        let n_in = self.cfg.n_in as int;
        Slopes {
            g_w: Seq::new(self.graph.edges(), |e: int| self.weight_grad::<A>(trace, e, w)),
            g_embed: Seq::new(
                (self.vocab * n_in) as nat,
                |x: int| self.embed_grad::<A>(trace, x / n_in, x % n_in, w),
            ),
            g_readout: Seq::new(
                (self.cfg.n_out * self.vocab) as nat,
                |x: int| self.readout_grad::<A>(trace, x / self.vocab, x % self.vocab, w),
            ),
            g_bias: Seq::new(self.vocab as nat, |c: int| self.bias_grad::<A>(trace, c, w)),
            dpre: Seq::new(w as nat, |t: int| self.pre_grads::<A>(trace, t)),
        }
    }
}

/// Row and column of cell `x`, and back.
pub proof fn lemma_cell_of(x: int, rows: int, cols: int)
    requires
        0 <= x < rows * cols,
        0 <= rows,
        0 <= cols,
    ensures
        0 < cols,
        0 <= x / cols < rows,
        0 <= x % cols < cols,
        x == (x / cols) * cols + x % cols,
{
    assert(cols != 0) by {
        if cols == 0 {
            assert(rows * 0 == 0);
        }
    }
    vstd::arithmetic::div_mod::lemma_fundamental_div_mod(x, cols);
    assert(0 <= x % cols < cols) by (nonlinear_arith)
        requires
            0 < cols,
    ;
    assert(0 <= x / cols) by (nonlinear_arith)
        requires
            0 < cols,
            0 <= x,
    ;
    assert(x / cols < rows) by (nonlinear_arith)
        requires
            0 < cols,
            0 <= x,
            x < rows * cols,
            x == cols * (x / cols) + x % cols,
            0 <= x % cols,
    ;
    assert((x / cols) * cols == cols * (x / cols)) by (nonlinear_arith);
}

/// Two different cells of a table have different places.
pub proof fn lemma_cells_differ(row: int, col: int, row2: int, col2: int, cols: int)
    requires
        0 <= col < cols,
        0 <= col2 < cols,
        row * cols + col == row2 * cols + col2,
    ensures
        row == row2,
        col == col2,
{
    assert(row == row2) by (nonlinear_arith)
        requires
            0 <= col < cols,
            0 <= col2 < cols,
            row * cols + col == row2 * cols + col2,
    ;
}

impl Network {
    /// The gradients of the logits of step `t`.
    fn logit_grads<A: Arith>(&self, tape: &Tape, t: usize) -> (dlog: Vec<Single>)
        requires
            self.wf(),
            tape@.fits(self@),
            t < self.cfg.window,
        ensures
            dlog@.len() == self.vocab,
            deterministic::<A>() ==> forall|c: int|
                0 <= c < self.vocab ==> #[trigger] dlog@[c] == self@.logit_grad::<A>(
                    tape@,
                    t as int,
                    c,
                ),
    {
        let inv = A::over(Single::one(), A::of_count(self.cfg.window as u64));
        assert(tape@.probs[t as int].len() == self.vocab);
        assert(tape@.targets[t as int] < self.vocab);
        let probs = &tape.probs[t];
        let target: usize = tape.targets[t] as usize;
        let mut dlog: Vec<Single> = Vec::new();
        let mut c: usize = 0;
        while c < self.vocab
            invariant
                self.wf(),
                tape@.fits(self@),
                t < self.cfg.window,
                c <= self.vocab,
                probs@ == tape@.probs[t as int],
                probs@.len() == self.vocab,
                target == tape@.targets[t as int],
                dlog@.len() == c,
                deterministic::<A>() ==> inv == quotient::<A>(
                    unit(),
                    counted::<A>(self.cfg.window as u64),
                ),
                deterministic::<A>() ==> forall|q: int|
                    0 <= q < c ==> #[trigger] dlog@[q] == self@.logit_grad::<A>(
                        tape@,
                        t as int,
                        q,
                    ),
            decreases self.vocab - c,
        {
            let p = if c == target {
                A::minus(probs[c], Single::one())
            } else {
                probs[c]
            };
            dlog.push(A::times(p, inv));
            c += 1;
        }
        dlog
    }

    /// Adds step `t` to the readout gradients, and what the readout charges to the
    /// state gradients `ds`.
    fn readout_step<A: Arith>(
        &self,
        tape: &Tape,
        t: usize,
        dlog: &Vec<Single>,
        g_readout: &mut Vec<Single>,
        ds: &mut Vec<Single>,
    )
        requires
            self.wf(),
            tape@.fits(self@),
            t < self.cfg.window,
            dlog@.len() == self.vocab,
            old(g_readout)@.len() == self.cfg.n_out * self.vocab,
            old(ds)@.len() == self.cfg.n,
            deterministic::<A>() ==> forall|c: int|
                0 <= c < self.vocab ==> #[trigger] dlog@[c] == self@.logit_grad::<A>(
                    tape@,
                    t as int,
                    c,
                ),
        ensures
            final(g_readout)@.len() == old(g_readout)@.len(),
            final(ds)@.len() == old(ds)@.len(),
            deterministic::<A>() ==> forall|m: int, c: int|
                0 <= m < self.cfg.n_out && 0 <= c < self.vocab ==> #[trigger] final(g_readout)@[m
                    * self.vocab + c] == sum::<A>(
                    old(g_readout)@[m * self.vocab + c],
                    product::<A>(
                        tape@.state[t as int][self@.out_start() + m],
                        self@.logit_grad::<A>(tape@, t as int, c),
                    ),
                ),
            deterministic::<A>() ==> forall|j: int|
                0 <= j < self.cfg.n ==> #[trigger] final(ds)@[j] == self@.state_grad::<A>(
                    tape@,
                    t as int,
                    old(ds)@,
                    j,
                ),
    {
        let vocab = self.vocab;
        let base = self.cfg.out_start();
        let s_t = &tape.state[t];
        assert(s_t@ == tape@.state[t as int]);
        assert(tape@.state[t as int].len() == self.cfg.n);
        let ghost g_before = g_readout@;
        let ghost ds_before = ds@;
        let mut m: usize = 0;
        while m < self.cfg.n_out
            invariant
                self.wf(),
                tape@.fits(self@),
                t < self.cfg.window,
                vocab == self.vocab,
                base == self.cfg.n - self.cfg.n_out,
                s_t@ == tape@.state[t as int],
                s_t@.len() == self.cfg.n,
                dlog@.len() == vocab,
                m <= self.cfg.n_out,
                g_before.len() == self.cfg.n_out * vocab,
                g_readout@.len() == g_before.len(),
                ds_before.len() == self.cfg.n,
                ds@.len() == self.cfg.n,
                forall|j: int| 0 <= j < base || base + m <= j < self.cfg.n ==> #[trigger] ds@[j]
                    == ds_before[j],
                forall|x: int| m * vocab <= x < g_before.len() ==> #[trigger] g_readout@[x]
                    == g_before[x],
                deterministic::<A>() ==> forall|c: int|
                    0 <= c < vocab ==> #[trigger] dlog@[c] == self@.logit_grad::<A>(
                        tape@,
                        t as int,
                        c,
                    ),
                deterministic::<A>() ==> forall|j: int|
                    base <= j < base + m ==> #[trigger] ds@[j] == self@.state_grad::<A>(
                        tape@,
                        t as int,
                        ds_before,
                        j,
                    ),
                deterministic::<A>() ==> forall|q: int, c: int|
                    0 <= q < m && 0 <= c < vocab ==> #[trigger] g_readout@[q * vocab + c]
                        == sum::<A>(
                        g_before[q * vocab + c],
                        product::<A>(
                            s_t@[base + q],
                            self@.logit_grad::<A>(tape@, t as int, c),
                        ),
                    ),
            decreases self.cfg.n_out - m,
        {
            let sv = s_t[base + m];
            let mut acc = Single::zeroed();
            let ghost term = |c: int|
                product::<A>(
                    self@.readout[m * self@.vocab + c],
                    self@.logit_grad::<A>(tape@, t as int, c),
                );
            let ghost g_row = g_readout@;
            let mut c: usize = 0;
            while c < vocab
                invariant
                    self.wf(),
                    vocab == self.vocab,
                    dlog@.len() == vocab,
                    m < self.cfg.n_out,
                    c <= vocab,
                    g_row.len() == self.cfg.n_out * vocab,
                    g_readout@.len() == g_row.len(),
                    term == (|c: int|
                        product::<A>(
                            self@.readout[m * self@.vocab + c],
                            self@.logit_grad::<A>(tape@, t as int, c),
                        )),
                    forall|x: int|
                        0 <= x < g_row.len() && !(m * vocab <= x < m * vocab + c) ==> #[trigger]
                            g_readout@[x] == g_row[x],
                    deterministic::<A>() ==> forall|c: int|
                        0 <= c < vocab ==> #[trigger] dlog@[c] == self@.logit_grad::<A>(
                            tape@,
                            t as int,
                            c,
                        ),
                    deterministic::<A>() ==> acc == running_sum::<A>(nought(), c as int, term),
                    deterministic::<A>() ==> forall|x: int|
                        m * vocab <= x < m * vocab + c ==> #[trigger] g_readout@[x] == sum::<A>(
                            g_row[x],
                            product::<A>(
                                sv,
                                self@.logit_grad::<A>(tape@, t as int, x - m * vocab),
                            ),
                        ),
                decreases vocab - c,
            {
                proof {
                    lemma_cell(m as int, self.cfg.n_out as int, c as int, vocab as int);
                    assert(m * vocab + c < self.readout.len());
                    assert(m * vocab <= m * vocab + c);
                }
                let x: usize = m * vocab + c;
                g_readout.set(x, A::plus(g_readout[x], A::times(sv, dlog[c])));
                acc = A::plus(acc, A::times(self.readout[x], dlog[c]));
                c += 1;
            }
            ds.set(base + m, A::plus(ds[base + m], acc));
            proof {
                assert((m + 1) * vocab == m * vocab + vocab) by (nonlinear_arith);
                if deterministic::<A>() {
                    assert forall|q: int, c: int|
                        0 <= q < m + 1 && 0 <= c < vocab implies #[trigger] g_readout@[q * vocab
                        + c] == sum::<A>(
                        g_before[q * vocab + c],
                        product::<A>(
                            s_t@[base + q],
                            self@.logit_grad::<A>(tape@, t as int, c),
                        ),
                    ) by {
                        lemma_cell(q, self.cfg.n_out as int, c, vocab as int);
                        if q < m {
                            assert(q * vocab + c < m * vocab) by {
                                lemma_cell(q, m as int, c, vocab as int);
                            }
                            assert(g_row[q * vocab + c] == sum::<A>(
                                g_before[q * vocab + c],
                                product::<A>(
                                    s_t@[base + q],
                                    self@.logit_grad::<A>(tape@, t as int, c),
                                ),
                            ));
                        } else {
                            assert(g_row[q * vocab + c] == g_before[q * vocab + c]);
                        }
                    }
                }
            }
            m += 1;
        }
    }

    /// Adds the injected token of step `t` to the embedding gradients.
    fn embed_step<A: Arith>(&self, tok: u32, dpre: &Vec<Single>, g_embed: &mut Vec<Single>)
        requires
            self.wf(),
            self.cfg.n_in > 0 ==> tok < self.vocab,
            dpre@.len() == self.cfg.n,
            old(g_embed)@.len() == self.vocab * self.cfg.n_in,
        ensures
            final(g_embed)@.len() == old(g_embed)@.len(),
            deterministic::<A>() ==> forall|q: int, i: int|
                0 <= q < self.vocab && 0 <= i < self.cfg.n_in ==> #[trigger] final(g_embed)@[q
                    * self.cfg.n_in + i] == if q == tok {
                    sum::<A>(old(g_embed)@[q * self.cfg.n_in + i], dpre@[i])
                } else {
                    old(g_embed)@[q * self.cfg.n_in + i]
                },
    {
        let n_in = self.cfg.n_in;
        let ghost before = g_embed@;
        let mut i: usize = 0;
        while i < n_in
            invariant
                self.wf(),
                n_in > 0 ==> tok < self.vocab,
                n_in == self.cfg.n_in,
                dpre@.len() == self.cfg.n,
                i <= n_in,
                before.len() == self.vocab * n_in,
                g_embed@.len() == before.len(),
                forall|x: int|
                    0 <= x < before.len() && !(tok * n_in <= x < tok * n_in + i) ==> #[trigger]
                        g_embed@[x] == before[x],
                deterministic::<A>() ==> forall|x: int|
                    tok * n_in <= x < tok * n_in + i ==> #[trigger] g_embed@[x] == sum::<A>(
                        before[x],
                        dpre@[x - tok * n_in],
                    ),
            decreases n_in - i,
        {
            proof {
                lemma_cell(tok as int, self.vocab as int, i as int, n_in as int);
                assert(tok * n_in + i < self.embed.len());
            }
            let x: usize = tok as usize * n_in + i;
            g_embed.set(x, A::plus(g_embed[x], dpre[i]));
            i += 1;
        }
        proof {
            if deterministic::<A>() {
                assert forall|q: int, i: int|
                    0 <= q < self.vocab && 0 <= i < n_in implies #[trigger] g_embed@[q * n_in + i]
                    == if q == tok {
                    sum::<A>(before[q * n_in + i], dpre@[i])
                } else {
                    before[q * n_in + i]
                } by {
                    lemma_cell(q, self.vocab as int, i, n_in as int);
                    let x = q * n_in + i;
                    if q != tok && tok * n_in <= x < tok * n_in + n_in {
                        lemma_cells_differ(q, i, tok as int, x - tok * n_in, n_in as int);
                    }
                }
            }
        }
    }
}

impl Network {
    /// What the pre-activation gradients `dpre` charge neuron `i`.
    fn charge_one<A: Arith>(&self, i: usize, dpre: &Vec<Single>) -> (r: Single)
        requires
            self.wf(),
            i < self.cfg.n,
            dpre@.len() == self.cfg.n,
        ensures
            deterministic::<A>() ==> r == self@.graph.charged::<A>(dpre@, i as int),
    {
        let topo = &self.topo;
        let ghost term = |k: int|
            product::<A>(
                topo@.weights[topo@.row_start(i as int) + k],
                dpre@[topo@.col_idx[topo@.row_start(i as int) + k] as int],
            );
        assert(row_fits(topo.row_ptr@, topo@.edges(), i as int));
        let range = topo.out_range(i);
        let mut acc = Single::zeroed();
        let mut e: usize = range.start;
        while e < range.end
            invariant
                self.wf(),
                *topo == self.topo,
                i < self.cfg.n,
                dpre@.len() == self.cfg.n,
                range.start == topo.row_ptr@[i as int],
                range.end == topo.row_ptr@[i + 1],
                row_fits(topo.row_ptr@, topo@.edges(), i as int),
                range.start <= e,
                e <= range.end || e == range.start,
                term == (|k: int|
                    product::<A>(
                        topo@.weights[topo@.row_start(i as int) + k],
                        dpre@[topo@.col_idx[topo@.row_start(i as int) + k] as int],
                    )),
                deterministic::<A>() ==> acc == running_sum::<A>(
                    nought(),
                    e - range.start,
                    term,
                ),
            decreases range.end - e,
        {
            let ghost k = e - range.start;
            assert(topo.col_idx@[e as int] < topo.n);
            let j: usize = topo.col_idx[e] as usize;
            assert(term(k) == product::<A>(topo.weights@[e as int], dpre@[j as int]));
            acc = A::plus(acc, A::times(topo.weights[e], dpre[j]));
            e += 1;
        }
        assert(term =~= |k: int|
            product::<A>(
                self@.graph.weights[self@.graph.row_start(i as int) + k],
                dpre@[self@.graph.col_idx[self@.graph.row_start(i as int) + k] as int],
            ));
        acc
    }

    /// What the pre-activation gradients `dpre` charge the states before.
    fn charges<A: Arith>(&self, dpre: &Vec<Single>) -> (r: Vec<Single>)
        requires
            self.wf(),
            dpre@.len() == self.cfg.n,
        ensures
            r@.len() == self.cfg.n,
            deterministic::<A>() ==> r@ == self@.charges::<A>(dpre@),
    {
        let charge = |i: usize| -> (r: Single)
            requires
                i < self.cfg.n,
            ensures
                deterministic::<A>() ==> r == self@.graph.charged::<A>(dpre@, i as int),
            { self.charge_one::<A>(i, dpre) };
        let r = parallel_map(self.cfg.n, charge);
        proof {
            if deterministic::<A>() {
                assert forall|j: int| 0 <= j < r@.len() implies #[trigger] r@[j]
                    == self@.graph.charged::<A>(dpre@, j) by {
                    let u = j as usize;
                    assert(r@[u as int] == r@[j]);
                }
                assert(r@ =~= self@.charges::<A>(dpre@));
            }
        }
        r
    }

    /// The pre-activation gradients that the state gradients `ds` give.
    fn through_activation<A: Arith>(&self, ds: &Vec<Single>, pre: &Vec<Single>) -> (r: Vec<Single>)
        requires
            ds@.len() == self.cfg.n,
            pre@.len() == self.cfg.n,
        ensures
            r@.len() == self.cfg.n,
            deterministic::<A>() ==> forall|j: int|
                0 <= j < self.cfg.n ==> #[trigger] r@[j] == product::<A>(
                    ds@[j],
                    activation_slope::<A>(pre@[j], self.cfg),
                ),
    {
        let cfg = &self.cfg;
        let through = |j: usize| -> (r: Single)
            requires
                j < self.cfg.n,
            ensures
                deterministic::<A>() ==> r == product::<A>(
                    ds@[j as int],
                    activation_slope::<A>(pre@[j as int], self.cfg),
                ),
            { A::times(ds[j], activate_grad::<A>(pre[j], cfg)) };
        let r = parallel_map(self.cfg.n, through);
        proof {
            if deterministic::<A>() {
                assert forall|j: int| 0 <= j < r@.len() implies #[trigger] r@[j] == product::<A>(
                    ds@[j],
                    activation_slope::<A>(pre@[j], self.cfg),
                ) by {
                    let u = j as usize;
                    assert(r@[u as int] == r@[j]);
                }
            }
        }
        r
    }

    /// Adds one step to the weight gradients: source state times target gradient.
    fn weight_step<A: Arith>(
        &self,
        s_prev: &Vec<Single>,
        dpre: &Vec<Single>,
        g_w: &mut Vec<Single>,
    )
        requires
            self.wf(),
            self.topo@.sources_below(s_prev@.len()),
            dpre@.len() == self.cfg.n,
            old(g_w)@.len() == self.topo@.edges(),
        ensures
            final(g_w)@.len() == old(g_w)@.len(),
            deterministic::<A>() ==> forall|e: int|
                0 <= e < old(g_w)@.len() ==> #[trigger] final(g_w)@[e] == sum::<A>(
                    old(g_w)@[e],
                    product::<A>(
                        s_prev@[self.topo@.source(e) as int],
                        dpre@[self.topo.col_idx@[e] as int],
                    ),
                ),
    {
        let topo = &self.topo;
        let ghost before = g_w@;
        let add_edge = |e: usize, g: Single| -> (r: Single)
            requires
                e < self.topo@.edges(),
            ensures
                deterministic::<A>() ==> r == sum::<A>(
                    g,
                    product::<A>(
                        s_prev@[self.topo@.source(e as int) as int],
                        dpre@[self.topo.col_idx@[e as int] as int],
                    ),
                ),
            {
                assert(topo.edge_src@[e as int] == topo@.source(e as int));
                assert(topo@.source(e as int) < s_prev@.len());
                assert(topo.col_idx@[e as int] < topo.n);
                let src: usize = topo.edge_src[e] as usize;
                let j: usize = topo.col_idx[e] as usize;
                A::plus(g, A::times(s_prev[src], dpre[j]))
            };
        parallel_update(g_w, add_edge);
        proof {
            if deterministic::<A>() {
                assert forall|e: int| 0 <= e < before.len() implies #[trigger] g_w@[e] == sum::<A>(
                    before[e],
                    product::<A>(
                        s_prev@[self.topo@.source(e) as int],
                        dpre@[self.topo.col_idx@[e] as int],
                    ),
                ) by {
                    let u = e as usize;
                    assert(g_w@[u as int] == g_w@[e]);
                }
            }
        }
    }

    /// Backpropagates one window. Returns gradients for every trainable
    /// parameter. Gradients into `state_init` are dropped (truncation).
    pub fn backward<A: Arith>(&self, tape: &Tape) -> (grads: Grads)
        requires
            self.wf(),
            tape@.fits(self@),
        ensures
            grads@.fits(self@),
            deterministic::<A>() ==> grads@ == self@.gradients::<A>(tape@),
    {
        let n = self.cfg.n;
        let w = self.cfg.window;
        let vocab = self.vocab;
        let n_in = self.cfg.n_in;
        let mut g_w = zeros(self.topo.num_edges());
        let mut g_embed = zeros(self.embed.len());
        let mut g_readout = zeros(self.readout.len());
        let mut g_bias = zeros(vocab);
        let mut dpre_tape: Vec<Vec<Single>> = Vec::new();
        let mut k: usize = 0;
        while k < w
            invariant
                k <= w,
                dpre_tape@.len() == k,
            decreases w - k,
        {
            dpre_tape.push(Vec::new());
            k += 1;
        }
        // gradient into the current step's state arriving from the step after it
        let mut ds_future = zeros(n);
        proof {
            lemma_sources_below(self.topo);
            assert(self@.future_grads::<A>(tape@, w - 1) =~= ds_future@);
            assert forall|m: int, c: int|
                0 <= m < self.cfg.n_out && 0 <= c < vocab implies #[trigger] g_readout@[m * vocab
                + c] == nought() by {
                lemma_cell(m, self.cfg.n_out as int, c, vocab as int);
            }
            assert forall|q: int, i: int|
                0 <= q < vocab && 0 <= i < n_in implies #[trigger] g_embed@[q * n_in + i]
                == nought() by {
                lemma_cell(q, vocab as int, i, n_in as int);
            }
        }
        let ghost trace = tape@;
        let ghost model = self@;
        let mut t: usize = w;
        while t > 0
            invariant
                self.wf(),
                trace == tape@,
                model == self@,
                trace.fits(model),
                self.topo@.sources_below(n as nat),
                n == self.cfg.n,
                w == self.cfg.window,
                vocab == self.vocab,
                n_in == self.cfg.n_in,
                t <= w,
                g_w@.len() == self.topo@.edges(),
                g_embed@.len() == vocab * n_in,
                g_readout@.len() == self.cfg.n_out * vocab,
                g_bias@.len() == vocab,
                dpre_tape@.len() == w,
                ds_future@.len() == n,
                forall|k: int| t <= k < w ==> #[trigger] dpre_tape@[k]@.len() == n,
                deterministic::<A>() ==> ds_future@ == model.future_grads::<A>(trace, t - 1),
                deterministic::<A>() ==> forall|k: int|
                    t <= k < w ==> #[trigger] dpre_tape@[k]@ == model.pre_grads::<A>(trace, k),
                deterministic::<A>() ==> forall|c: int|
                    0 <= c < vocab ==> #[trigger] g_bias@[c] == model.bias_grad::<A>(
                        trace,
                        c,
                        w - t,
                    ),
                deterministic::<A>() ==> forall|m: int, c: int|
                    0 <= m < self.cfg.n_out && 0 <= c < vocab ==> #[trigger] g_readout@[m * vocab
                        + c] == model.readout_grad::<A>(trace, m, c, w - t),
                deterministic::<A>() ==> forall|q: int, i: int|
                    0 <= q < vocab && 0 <= i < n_in ==> #[trigger] g_embed@[q * n_in + i]
                        == model.embed_grad::<A>(trace, q, i, w - t),
                deterministic::<A>() ==> forall|e: int|
                    0 <= e < g_w@.len() ==> #[trigger] g_w@[e] == model.weight_grad::<A>(
                        trace,
                        e,
                        w - t,
                    ),
            decreases t,
        {
            let ghost done = w - t;
            t -= 1;
            assert(model.from_end(done) == t);
            let dlog = self.logit_grads::<A>(tape, t);
            let ghost bias_before = g_bias@;
            let mut c: usize = 0;
            while c < vocab
                invariant
                    c <= vocab,
                    dlog@.len() == vocab,
                    g_bias@.len() == vocab,
                    bias_before.len() == vocab,
                    forall|q: int| c <= q < vocab ==> #[trigger] g_bias@[q] == bias_before[q],
                    deterministic::<A>() ==> forall|q: int|
                        0 <= q < c ==> #[trigger] g_bias@[q] == sum::<A>(
                            bias_before[q],
                            dlog@[q],
                        ),
                decreases vocab - c,
            {
                g_bias.set(c, A::plus(g_bias[c], dlog[c]));
                c += 1;
            }
            let mut ds = ds_future;
            let ghost future = ds@;
            let ghost readout_before = g_readout@;
            self.readout_step::<A>(tape, t, &dlog, &mut g_readout, &mut ds);
            assert(trace.pre[t as int].len() == n);
            assert(n_in > 0 ==> trace.inputs[t as int] < vocab);
            let dpre = self.through_activation::<A>(&ds, &tape.pre[t]);
            proof {
                if deterministic::<A>() {
                    assert(dpre@ =~= model.pre_grads::<A>(trace, t as int));
                }
            }
            let ghost embed_before = g_embed@;
            self.embed_step::<A>(tape.inputs[t], &dpre, &mut g_embed);
            let ghost w_before = g_w@;
            let ds_prev = self.charges::<A>(&dpre);
            if t == 0 {
                self.weight_step::<A>(&tape.state_init, &dpre, &mut g_w);
            } else {
                assert(trace.state[t - 1].len() == n);
                self.weight_step::<A>(&tape.state[t - 1], &dpre, &mut g_w);
            }
            dpre_tape.set(t, dpre);
            ds_future = ds_prev;
            proof {
                if deterministic::<A>() {
                    assert forall|c: int| 0 <= c < vocab implies #[trigger] g_bias@[c]
                        == model.bias_grad::<A>(trace, c, w - t) by {
                        assert(bias_before[c] == model.bias_grad::<A>(trace, c, done));
                        assert(dlog@[c] == model.logit_grad::<A>(trace, t as int, c));
                    }
                    assert forall|m: int, c: int|
                        0 <= m < self.cfg.n_out && 0 <= c < vocab implies #[trigger] g_readout@[m
                        * vocab + c] == model.readout_grad::<A>(trace, m, c, w - t) by {
                        assert(readout_before[m * vocab + c] == model.readout_grad::<A>(
                            trace,
                            m,
                            c,
                            done,
                        ));
                    }
                    assert forall|q: int, i: int|
                        0 <= q < vocab && 0 <= i < n_in implies #[trigger] g_embed@[q * n_in + i]
                        == model.embed_grad::<A>(trace, q, i, w - t) by {
                        assert(embed_before[q * n_in + i] == model.embed_grad::<A>(
                            trace,
                            q,
                            i,
                            done,
                        ));
                    }
                    assert forall|e: int| 0 <= e < g_w@.len() implies #[trigger] g_w@[e]
                        == model.weight_grad::<A>(trace, e, w - t) by {
                        assert(w_before[e] == model.weight_grad::<A>(trace, e, done));
                    }
                }
            }
        }
        let grads = Grads { g_w, g_embed, g_readout, g_bias, dpre: dpre_tape };
        proof {
            if deterministic::<A>() {
                let slopes = model.gradients::<A>(trace);
                assert(grads@.g_w =~= slopes.g_w);
                assert(grads@.g_bias =~= slopes.g_bias);
                assert(grads@.dpre =~= slopes.dpre);
                assert forall|x: int| 0 <= x < grads@.g_embed.len() implies #[trigger]
                    grads@.g_embed[x] == slopes.g_embed[x] by {
                    lemma_cell_of(x, vocab as int, n_in as int);
                    assert(g_embed@[(x / n_in as int) * n_in + x % n_in as int] == g_embed@[x]);
                }
                assert(grads@.g_embed =~= slopes.g_embed);
                assert forall|x: int| 0 <= x < grads@.g_readout.len() implies #[trigger]
                    grads@.g_readout[x] == slopes.g_readout[x] by {
                    lemma_cell_of(x, self.cfg.n_out as int, vocab as int);
                    assert(g_readout@[(x / vocab as int) * vocab + x % vocab as int]
                        == g_readout@[x]);
                }
                assert(grads@.g_readout =~= slopes.g_readout);
            }
        }
        grads
    }
}

/// A token that was not injected during the last `steps` steps of a window gets
/// no embedding gradient from them.
pub proof fn law_absent_token_has_no_gradient<A: Arith>(
    model: Model,
    trace: Trace,
    tok: int,
    i: int,
    steps: int,
)
    requires
        steps <= model.cfg.window,
        forall|t: int|
            model.cfg.window - steps <= t < model.cfg.window ==> #[trigger] trace.inputs[t] != tok,
    ensures
        model.embed_grad::<A>(trace, tok, i, steps) == nought(),
    decreases steps,
{
    let injected = |k: int| trace.inputs[model.from_end(k)] == tok;
    let term = |k: int| model.pre_grads::<A>(trace, model.from_end(k))[i];
    if steps > 0 {
        law_absent_token_has_no_gradient::<A>(model, trace, tok, i, steps - 1);
        assert(trace.inputs[model.from_end(steps - 1)] != tok);
        assert(running_sum_where::<A>(nought(), steps, injected, term) == running_sum_where::<A>(
            nought(),
            steps - 1,
            injected,
            term,
        ));
    }
}

// --- what holds of gradients ------------------------------------------------

/// The gradient of a logit is its probability, less one for the target, divided by the
/// number of steps that the loss is the mean of.
pub proof fn law_logit_gradient_is_the_error<A: Arith>(
    model: Model,
    trace: Trace,
    t: int,
    c: int,
    share: Single,
)
    requires
        share == quotient::<A>(unit(), counted::<A>(model.cfg.window as u64)),
    ensures
        c == trace.targets[t] ==> model.logit_grad::<A>(trace, t, c) == product::<A>(
            difference::<A>(trace.probs[t][c], unit()),
            share,
        ),
        c != trace.targets[t] ==> model.logit_grad::<A>(trace, t, c) == product::<A>(
            trace.probs[t][c],
            share,
        ),
{
}

/// What neuron `j` is charged by the next step: over its out-edges, one after the
/// other, weight times the gradient of the neuron that the edge ends in.
pub open spec fn next_charge<A: Arith>(model: Model, slopes: Slopes, t: int, j: int) -> Single {
    let row = model.graph.row_ptr[j] as int;
    if t + 1 < model.cfg.window {
        running_sum::<A>(
            nought(),
            model.graph.degree(j),
            |k: int|
                product::<A>(
                    model.graph.weights[row + k],
                    slopes.dpre[t + 1][model.graph.col_idx[row + k] as int],
                ),
        )
    } else {
        nought()
    }
}

/// Gradients go back through time: that of a pre-activation is what the neuron's state
/// is charged, by the next step over its out-edges and, where it is read out, by the
/// logits; times the slope of its activation. Nothing is charged from beyond the
/// window.
pub proof fn law_gradients_go_back_through_time<A: Arith>(
    model: Model,
    trace: Trace,
    slopes: Slopes,
    t: int,
    j: int,
)
    requires
        slopes == model.gradients::<A>(trace),
        0 <= t < model.cfg.window,
        0 <= j < model.cfg.n,
    ensures
        slopes.dpre.len() == model.cfg.window,
        slopes.dpre[t].len() == model.cfg.n,
        ({
            let m = j - (model.cfg.n - model.cfg.n_out);
            let slope = activation_slope::<A>(trace.pre[t][j], model.cfg);
            let future = next_charge::<A>(model, slopes, t, j);
            &&& m < 0 ==> slopes.dpre[t][j] == product::<A>(future, slope)
            &&& 0 <= m ==> slopes.dpre[t][j] == product::<A>(
                sum::<A>(
                    future,
                    running_sum::<A>(
                        nought(),
                        model.vocab,
                        |c: int|
                            product::<A>(
                                model.readout[m * model.vocab + c],
                                model.logit_grad::<A>(trace, t, c),
                            ),
                    ),
                ),
                slope,
            )
        }),
{
    let future = model.future_grads::<A>(trace, t);
    if t + 1 < model.cfg.window {
        let next = model.pre_grads::<A>(trace, t + 1);
        let row = model.graph.row_ptr[j] as int;
        assert(slopes.dpre[t + 1] == next);
        assert(future[j] == model.graph.charged::<A>(next, j));
        lemma_running_sum_ext::<A>(
            nought(),
            model.graph.degree(j),
            |k: int|
                product::<A>(
                    model.graph.weights[model.graph.row_start(j) + k],
                    next[model.graph.col_idx[model.graph.row_start(j) + k] as int],
                ),
            |k: int|
                product::<A>(
                    model.graph.weights[row + k],
                    slopes.dpre[t + 1][model.graph.col_idx[row + k] as int],
                ),
        );
    }
    let m = j - (model.cfg.n - model.cfg.n_out);
    if 0 <= m {
        assert(m == j - model.out_start());
        lemma_running_sum_ext::<A>(
            nought(),
            model.vocab,
            |c: int|
                product::<A>(
                    model.readout[(j - model.out_start()) * model.vocab + c],
                    model.logit_grad::<A>(trace, t, c),
                ),
            |c: int|
                product::<A>(
                    model.readout[m * model.vocab + c],
                    model.logit_grad::<A>(trace, t, c),
                ),
        );
    }
}

/// Terms added from the last to the first: `partial[t]` holds those from `t` on.
proof fn lemma_backwards<A: Arith>(
    w: int,
    term: spec_fn(int) -> Single,
    partial: Seq<Single>,
    steps: int,
)
    requires
        0 <= steps <= w,
        partial.len() == w + 1,
        partial[w] == nought(),
        forall|t: int|
            0 <= t < w ==> #[trigger] partial[t] == sum::<A>(partial[t + 1], term(t)),
    ensures
        running_sum::<A>(nought(), steps, |k: int| term(w - 1 - k)) == partial[w - steps],
    decreases steps,
{
    if steps > 0 {
        lemma_backwards::<A>(w, term, partial, steps - 1);
        let t = w - steps;
        assert(partial[t] == sum::<A>(partial[t + 1], term(t)));
    }
}

/// The gradient of a bias adds up that of its logit, from the last step to the first:
/// `partial[t]` is the sum from step `t` on.
pub proof fn law_bias_gradient_adds_up_steps<A: Arith>(
    model: Model,
    trace: Trace,
    c: int,
    partial: Seq<Single>,
)
    requires
        0 <= c < model.vocab,
        partial.len() == model.cfg.window + 1,
        partial.last() == nought(),
        forall|t: int|
            0 <= t < model.cfg.window ==> #[trigger] partial[t] == sum::<A>(
                partial[t + 1],
                model.logit_grad::<A>(trace, t, c),
            ),
    ensures
        model.gradients::<A>(trace).g_bias.len() == model.vocab,
        model.gradients::<A>(trace).g_bias[c] == partial[0],
{
    let w = model.cfg.window as int;
    let term = |t: int| model.logit_grad::<A>(trace, t, c);
    lemma_backwards::<A>(w, term, partial, w);
    lemma_running_sum_ext::<A>(
        nought(),
        w,
        |k: int| model.logit_grad::<A>(trace, model.from_end(k), c),
        |k: int| term(w - 1 - k),
    );
}

/// The gradient of the readout from output neuron `m` to token `c` adds up, from the
/// last step to the first, the neuron's state times the gradient of the logit.
pub proof fn law_readout_gradient_adds_up_steps<A: Arith>(
    model: Model,
    trace: Trace,
    m: int,
    c: int,
    partial: Seq<Single>,
)
    requires
        0 <= m < model.cfg.n_out,
        0 <= c < model.vocab,
        partial.len() == model.cfg.window + 1,
        partial.last() == nought(),
        forall|t: int|
            0 <= t < model.cfg.window ==> #[trigger] partial[t] == sum::<A>(
                partial[t + 1],
                product::<A>(
                    trace.state[t][model.cfg.n - model.cfg.n_out + m],
                    model.logit_grad::<A>(trace, t, c),
                ),
            ),
    ensures
        model.gradients::<A>(trace).g_readout.len() == model.cfg.n_out * model.vocab,
        model.gradients::<A>(trace).g_readout[m * model.vocab + c] == partial[0],
{
    let w = model.cfg.window as int;
    let term = |t: int|
        product::<A>(
            trace.state[t][model.cfg.n - model.cfg.n_out + m],
            model.logit_grad::<A>(trace, t, c),
        );
    lemma_cell(m, model.cfg.n_out as int, c, model.vocab);
    vstd::arithmetic::div_mod::lemma_fundamental_div_mod_converse(
        m * model.vocab + c,
        model.vocab,
        m,
        c,
    );
    lemma_backwards::<A>(w, term, partial, w);
    lemma_running_sum_ext::<A>(
        nought(),
        w,
        |k: int|
            product::<A>(
                trace.state[model.from_end(k)][model.out_start() + m],
                model.logit_grad::<A>(trace, model.from_end(k), c),
            ),
        |k: int| term(w - 1 - k),
    );
}

/// The gradient of the embedding of `tok` at input neuron `i` adds up, from the last
/// step to the first, the gradients of the neuron's pre-activation at those steps at
/// which the token was injected.
pub proof fn law_embedding_gradient_adds_up_steps<A: Arith>(
    model: Model,
    trace: Trace,
    slopes: Slopes,
    tok: int,
    i: int,
    partial: Seq<Single>,
)
    requires
        slopes == model.gradients::<A>(trace),
        0 <= tok < model.vocab,
        0 <= i < model.cfg.n_in,
        partial.len() == model.cfg.window + 1,
        partial.last() == nought(),
        forall|t: int|
            0 <= t < model.cfg.window ==> #[trigger] partial[t] == if trace.inputs[t] == tok {
                sum::<A>(partial[t + 1], slopes.dpre[t][i])
            } else {
                partial[t + 1]
            },
    ensures
        slopes.g_embed.len() == model.vocab * model.cfg.n_in,
        slopes.g_embed[tok * model.cfg.n_in + i] == partial[0],
{
    let w = model.cfg.window as int;
    let n_in = model.cfg.n_in as int;
    lemma_cell(tok, model.vocab, i, n_in);
    vstd::arithmetic::div_mod::lemma_fundamental_div_mod_converse(tok * n_in + i, n_in, tok, i);
    let x = tok * n_in + i;
    assert(x / n_in == tok && x % n_in == i);
    assert(slopes.g_embed[x] == model.embed_grad::<A>(trace, x / n_in, x % n_in, w));
    assert(slopes.g_embed[x] == model.embed_grad::<A>(trace, tok, i, w));
    lemma_embed_grad_backwards::<A>(model, trace, tok, i, partial, w);
}

proof fn lemma_embed_grad_backwards<A: Arith>(
    model: Model,
    trace: Trace,
    tok: int,
    i: int,
    partial: Seq<Single>,
    steps: int,
)
    requires
        0 <= steps <= model.cfg.window,
        partial.len() == model.cfg.window + 1,
        partial.last() == nought(),
        forall|t: int|
            0 <= t < model.cfg.window ==> #[trigger] partial[t] == if trace.inputs[t] == tok {
                sum::<A>(partial[t + 1], model.pre_grads::<A>(trace, t)[i])
            } else {
                partial[t + 1]
            },
    ensures
        model.embed_grad::<A>(trace, tok, i, steps) == partial[model.cfg.window - steps],
    decreases steps,
{
    if steps > 0 {
        lemma_embed_grad_backwards::<A>(model, trace, tok, i, partial, steps - 1);
        let t = model.cfg.window - steps;
        assert(model.from_end(steps - 1) == t);
        assert(partial[t] == if trace.inputs[t] == tok {
            sum::<A>(partial[t + 1], model.pre_grads::<A>(trace, t)[i])
        } else {
            partial[t + 1]
        });
    }
}

/// The gradient of a weight adds up, from the last step to the first, what the edge's
/// source sent, its state before the step, times the gradient of the pre-activation
/// of the neuron that the edge ends in.
pub proof fn law_weight_gradient_adds_up_steps<A: Arith>(
    model: Model,
    trace: Trace,
    slopes: Slopes,
    e: int,
    partial: Seq<Single>,
)
    requires
        slopes == model.gradients::<A>(trace),
        0 <= e < model.graph.edges(),
        partial.len() == model.cfg.window + 1,
        partial.last() == nought(),
        forall|t: int|
            0 <= t < model.cfg.window ==> #[trigger] partial[t] == sum::<A>(
                partial[t + 1],
                product::<A>(
                    if t == 0 {
                        trace.state_init[model.graph.source(e) as int]
                    } else {
                        trace.state[t - 1][model.graph.source(e) as int]
                    },
                    slopes.dpre[t][model.graph.col_idx[e] as int],
                ),
            ),
    ensures
        slopes.g_w.len() == model.graph.edges(),
        slopes.g_w[e] == partial[0],
{
    let w = model.cfg.window as int;
    let term = |t: int|
        product::<A>(
            if t == 0 {
                trace.state_init[model.graph.source(e) as int]
            } else {
                trace.state[t - 1][model.graph.source(e) as int]
            },
            slopes.dpre[t][model.graph.col_idx[e] as int],
        );
    lemma_backwards::<A>(w, term, partial, w);
    lemma_running_sum_ext::<A>(
        nought(),
        w,
        |k: int|
            product::<A>(
                trace.state_before(model.from_end(k))[model.graph.source(e) as int],
                model.pre_grads::<A>(trace, model.from_end(k))[model.graph.col_idx[e] as int],
            ),
        |k: int| term(w - 1 - k),
    );
}

} // verus!
