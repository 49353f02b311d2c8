//! The training step (truncated BPTT and Adam, optional RigL), evaluation, and
//! text generation.
use rand::rngs::StdRng;
use std::collections::HashMap;
use vstd::prelude::*;
use vstd::slice::slice_subrange;

use crate::arith::{
    count_in, counted, deterministic, difference, product, quotient, sum, uniform_draw, zeros, Arith,
};
use crate::backprop::{Grads, Slopes};
use crate::config::Config;
use crate::data::{encoded, is_vocabulary_of, law_same_start_same_tokens};
use crate::graph::{are_distinct_others, initial_degree, Csr};
use crate::network::{
    copied, initial_model, lemma_sources_below, rows_of, softmax, softmax_ce, Model, Network, Tape,
    Trace,
};
use crate::optim::{clip_in_place, held_by, is_clipped, norm_of, scaled, Adam, Averages, Moment};
use crate::random::{generator_state, seeded, seeded_state};
use crate::rigl::{grown_in, law_degrees_add_up, rigl_step, NotANumber};
use crate::scalar::{
    at_most, clamped, less, nought, unit, Single, HUNDRED_BITS, NINE_TENTHS_BITS, ONE_BITS,
    TEN_TO_MINUS_6_BITS,
};
use crate::text::{chars_of, code, code_of, lemma_code, string_of};

verus! {

broadcast use vstd::std_specs::hash::group_hash_axioms;

// --- one optimizer step -----------------------------------------------------

/// Adam moment buffers for every trainable parameter array.
pub struct Moments {
    pub w: Moment,
    pub embed: Moment,
    pub readout: Moment,
    pub bias: Moment,
}

/// The buffers, as sequences.
#[verifier::ext_equal]
pub struct AllAverages {
    pub w: Averages,
    pub embed: Averages,
    pub readout: Averages,
    pub bias: Averages,
}

impl View for Moments {
    type V = AllAverages;

    open spec fn view(&self) -> AllAverages {
        AllAverages {
            w: self.w@,
            embed: self.embed@,
            readout: self.readout@,
            bias: self.bias@,
        }
    }
}

impl Averages {
    /// There are buffers for `len` parameters.
    pub open spec fn has(self, len: nat) -> bool {
        len <= self.m.len() && len <= self.v.len()
    }

    /// `len` zeros each.
    pub open spec fn zeroed(len: nat) -> Averages {
        Averages {
            m: Seq::new(len, |i: int| nought()),
            v: Seq::new(len, |i: int| nought()),
        }
    }
}

impl AllAverages {
    /// There are buffers for every parameter of `model`.
    pub open spec fn fits(self, model: Model) -> bool {
        &&& self.w.has(model.graph.weights.len())
        &&& self.embed.has(model.embed.len())
        &&& self.readout.has(model.readout.len())
        &&& self.bias.has(model.bias_out.len())
    }

    /// Zeros for every parameter of `model`.
    pub open spec fn zeroed(model: Model) -> AllAverages {
        AllAverages {
            w: Averages::zeroed(model.graph.edges()),
            embed: Averages::zeroed(model.embed.len()),
            readout: Averages::zeroed(model.readout.len()),
            bias: Averages::zeroed(model.bias_out.len()),
        }
    }
}

impl Moments {
    pub fn new(net: &Network) -> (mom: Moments)
        ensures
            mom@ == AllAverages::zeroed(net@),
    {
        let mom = Moments {
            w: Moment::zeros(net.topo.num_edges()),
            embed: Moment::zeros(net.embed.len()),
            readout: Moment::zeros(net.readout.len()),
            bias: Moment::zeros(net.bias_out.len()),
        };
        assert(mom@ =~= AllAverages::zeroed(net@));
        mom
    }
}

/// `arrays`, scaled down where their global norm exceeds `max_norm`.
pub open spec fn clipped_arrays<A: Arith>(arrays: Seq<Seq<Single>>, max_norm: Single) -> Seq<
    Seq<Single>,
> {
    let norm = norm_of::<A>(arrays);
    if is_clipped(norm, max_norm) {
        scaled::<A>(arrays, quotient::<A>(max_norm, norm))
    } else {
        arrays
    }
}

impl Slopes {
    /// The gradients of the parameters, array by array, scaled down where their
    /// global norm exceeds `max_norm`.
    pub open spec fn clipped<A: Arith>(self, max_norm: Single) -> Seq<Seq<Single>> {
        clipped_arrays::<A>(
            seq![self.g_w, self.g_embed, self.g_readout, self.g_bias],
            max_norm,
        )
    }
}

impl Model {
    /// The parameters after a step of `adam` with the gradients `g`.
    pub open spec fn updated<A: Arith>(
        self,
        adam: Adam,
        mom: AllAverages,
        g: Seq<Seq<Single>>,
    ) -> Model {
        Model {
            graph: Csr {
                weights: adam.stepped::<A>(self.graph.weights, g[0], mom.w),
                ..self.graph
            },
            embed: adam.stepped::<A>(self.embed, g[1], mom.embed),
            readout: adam.stepped::<A>(self.readout, g[2], mom.readout),
            bias_out: adam.stepped::<A>(self.bias_out, g[3], mom.bias),
            ..self
        }
    }

    /// The buffers after a step of `adam` with the gradients `g`.
    pub open spec fn averaged<A: Arith>(
        self,
        adam: Adam,
        mom: AllAverages,
        g: Seq<Seq<Single>>,
    ) -> AllAverages {
        AllAverages {
            w: adam.averaged::<A>(mom.w, g[0], self.graph.weights.len()),
            embed: adam.averaged::<A>(mom.embed, g[1], self.embed.len()),
            readout: adam.averaged::<A>(mom.readout, g[2], self.readout.len()),
            bias: adam.averaged::<A>(mom.bias, g[3], self.bias_out.len()),
        }
    }
}

impl Adam {
    /// The optimizer, one step on.
    pub open spec fn begun(self) -> Adam {
        Adam { t: (self.t + 1) as u64, ..self }
    }
}

/// Clips four gradient arrays together.
fn clip_all<A: Arith>(
    g_w: &mut Vec<Single>,
    g_embed: &mut Vec<Single>,
    g_readout: &mut Vec<Single>,
    g_bias: &mut Vec<Single>,
    max_norm: Single,
)
    ensures
        final(g_w)@.len() == old(g_w)@.len(),
        final(g_embed)@.len() == old(g_embed)@.len(),
        final(g_readout)@.len() == old(g_readout)@.len(),
        final(g_bias)@.len() == old(g_bias)@.len(),
        deterministic::<A>() ==> seq![
            final(g_w)@,
            final(g_embed)@,
            final(g_readout)@,
            final(g_bias)@,
        ] == clipped_arrays::<A>(
            seq![old(g_w)@, old(g_embed)@, old(g_readout)@, old(g_bias)@],
            max_norm,
        ),
{
    let ghost whole = seq![g_w@, g_embed@, g_readout@, g_bias@];
    let mut views: Vec<&mut [Single]> = Vec::new();
    views.push(g_w.as_mut_slice());
    views.push(g_embed.as_mut_slice());
    views.push(g_readout.as_mut_slice());
    views.push(g_bias.as_mut_slice());
    let ghost before = views@;
    assert(held_by(before) =~= whole);
    let _norm = clip_in_place::<A>(views.as_mut_slice(), max_norm);
    proof {
        assert(has_resolved(views));
        assert forall|k: int| 0 <= k < 4 implies (#[trigger] final(before[k])@) == views@[k]@
            && views@[k]@.len() == whole[k].len() by {
            assert(has_resolved(views@[k]));
            assert(final(views@[k])@ == final(before[k])@);
            assert(held_by(before)[k] == before[k]@);
        }
        let after = held_by(views@);
        assert(after[0] == final(before[0])@);
        assert(after[1] == final(before[1])@);
        assert(after[2] == final(before[2])@);
        assert(after[3] == final(before[3])@);
        assert(seq![g_w@, g_embed@, g_readout@, g_bias@] =~= after);
    }
}

/// Clips gradients globally, then takes one Adam step over every parameter array.
pub fn apply_update<A: Arith>(
    net: &mut Network,
    adam: &mut Adam,
    mom: &mut Moments,
    grads: &Grads,
    cfg: &Config,
)
    requires
        old(net).wf(),
        grads@.fits(old(net)@),
        old(mom)@.fits(old(net)@),
        old(adam).t < u64::MAX,
    ensures
        final(net).wf(),
        final(net).cfg == old(net).cfg,
        final(net).vocab == old(net).vocab,
        final(net)@.graph == (Csr { weights: final(net)@.graph.weights, ..old(net)@.graph }),
        final(mom)@.fits(final(net)@),
        *final(adam) == old(adam).begun(),
        deterministic::<A>() ==> ({
            let g = grads@.clipped::<A>(cfg.grad_clip);
            &&& final(net)@ == old(net)@.updated::<A>(old(adam).begun(), old(mom)@, g)
            &&& final(mom)@ == old(net)@.averaged::<A>(old(adam).begun(), old(mom)@, g)
        }),
{
    let ghost before = net@;
    let ghost mom_before = mom@;
    let mut g_w = copied(grads.g_w.as_slice());
    let mut g_embed = copied(grads.g_embed.as_slice());
    let mut g_readout = copied(grads.g_readout.as_slice());
    let mut g_bias = copied(grads.g_bias.as_slice());
    clip_all::<A>(&mut g_w, &mut g_embed, &mut g_readout, &mut g_bias, cfg.grad_clip);
    let ghost g = seq![g_w@, g_embed@, g_readout@, g_bias@];
    assert(deterministic::<A>() ==> g == grads@.clipped::<A>(cfg.grad_clip));
    adam.begin_step();
    adam.update::<A>(net.topo.weights.as_mut_slice(), g_w.as_slice(), &mut mom.w);
    adam.update::<A>(net.embed.as_mut_slice(), g_embed.as_slice(), &mut mom.embed);
    adam.update::<A>(net.readout.as_mut_slice(), g_readout.as_slice(), &mut mom.readout);
    adam.update::<A>(net.bias_out.as_mut_slice(), g_bias.as_slice(), &mut mom.bias);
    proof {
        if deterministic::<A>() {
            assert(net@ =~= before.updated::<A>(*adam, mom_before, g));
            assert(mom@ =~= before.averaged::<A>(*adam, mom_before, g));
        }
    }
}

// --- windows ----------------------------------------------------------------

/// How far one window of `size` tokens is from the next: all but one token, so
/// that the last token of a window, its final target, is the first of the next.
pub open spec fn stride(size: int) -> int {
    if size <= 1 {
        1
    } else {
        size - 1
    }
}

/// How many windows of `size` tokens `len` tokens are sliced into.
pub open spec fn window_count(len: int, size: int) -> int {
    if len <= 0 {
        0
    } else if size <= 1 {
        len
    } else {
        (len - 1) / (size - 1)
    }
}

/// The `k`-th of the windows of `size` tokens that `tokens` is sliced into.
pub open spec fn window_at(tokens: Seq<u32>, size: int, k: int) -> Seq<u32> {
    tokens.subrange(k * stride(size), k * stride(size) + size)
}

/// `tokens`, sliced into overlapping windows of `size`; what is left over at the
/// end is dropped.
pub open spec fn windows_in(tokens: Seq<u32>, size: int) -> Seq<Seq<u32>> {
    Seq::new(
        window_count(tokens.len() as int, size) as nat,
        |k: int| window_at(tokens, size, k),
    )
}

/// Slices, as a sequence of sequences.
pub open spec fn tokens_of(windows: Seq<&[u32]>) -> Seq<Seq<u32>> {
    Seq::new(windows.len(), |k: int| windows[k]@)
}

/// A window lies within the tokens.
proof fn lemma_window_fits(len: int, size: int, k: int)
    requires
        0 < size,
        0 <= k < window_count(len, size),
    ensures
        0 <= k * stride(size),
        k * stride(size) + size <= len,
{
    let d = stride(size);
    assert(0 <= k * d) by (nonlinear_arith)
        requires
            0 <= k,
            0 < d,
    ;
    if size > 1 {
        let count = (len - 1) / d;
        assert(k * d + d <= count * d) by (nonlinear_arith)
            requires
                k + 1 <= count,
                0 < d,
        ;
        assert(count * d <= len - 1) by (nonlinear_arith)
            requires
                count == (len - 1) / d,
                0 < d,
                0 <= len - 1,
        ;
    }
}

/// Slices `tokens` into overlapping windows of `size`.
pub fn overlapping<'a>(tokens: &'a [u32], size: usize) -> (windows: Vec<&'a [u32]>)
    requires
        size > 0,
    ensures
        tokens_of(windows@) == windows_in(tokens@, size as int),
{
    let mut windows: Vec<&'a [u32]> = Vec::new();
    let len = tokens.len();
    let step: usize = if size == 1 {
        1
    } else {
        size - 1
    };
    let count: usize = if len == 0 {
        0
    } else if size == 1 {
        len
    } else {
        (len - 1) / step
    };
    let mut start: usize = 0;
    let mut k: usize = 0;
    while k < count
        invariant
            size > 0,
            len == tokens@.len(),
            step == stride(size as int),
            count == window_count(len as int, size as int),
            k <= count,
            start == k * step,
            k > 0 ==> start <= len,
            windows@.len() == k,
            forall|q: int|
                0 <= q < k ==> #[trigger] windows@[q]@ == window_at(tokens@, size as int, q),
        decreases count - k,
    {
        proof {
            lemma_window_fits(len as int, size as int, k as int);
            assert((k + 1) * step == k * step + step) by (nonlinear_arith);
        }
        let window = slice_subrange(tokens, start, start + size);
        assert(window@ == window_at(tokens@, size as int, k as int));
        windows.push(window);
        start += step;
        k += 1;
    }
    assert(tokens_of(windows@) =~= windows_in(tokens@, size as int));
    windows
}

/// Windows are as long as asked for, and made of tokens of the text: window `k`
/// holds the tokens from `k * stride` on.
pub proof fn law_windows_are_slices(tokens: Seq<u32>, size: int, k: int, i: int)
    requires
        0 < size,
        0 <= k < windows_in(tokens, size).len(),
        0 <= i < size,
    ensures
        windows_in(tokens, size)[k].len() == size,
        0 <= k * stride(size) + i < tokens.len(),
        windows_in(tokens, size)[k][i] == tokens[k * stride(size) + i],
{
    lemma_window_fits(tokens.len() as int, size, k);
}

/// Windows overlap in one token: the last of a window, its final target, is the
/// first of the next window, from the same place in the text. So no two tokens
/// that follow one another are parted by a boundary.
pub proof fn law_windows_overlap(tokens: Seq<u32>, size: int, k: int)
    requires
        1 < size,
        0 <= k,
        k + 1 < windows_in(tokens, size).len(),
    ensures
        windows_in(tokens, size)[k].last() == windows_in(tokens, size)[k + 1].first(),
        k * stride(size) + (size - 1) == (k + 1) * stride(size),
{
    law_windows_are_slices(tokens, size, k, size - 1);
    law_windows_are_slices(tokens, size, k + 1, 0);
    assert((k + 1) * stride(size) == k * stride(size) + stride(size)) by (nonlinear_arith);
}

/// How many of `len` tokens are for training: `len * (1 - clamp(val_frac, 0, 0.9))`.
pub open spec fn training_cut<A: Arith>(len: u64, val_frac: Single) -> usize {
    let held_out = clamped(val_frac, nought(), Single { bits: NINE_TENTHS_BITS });
    count_in::<A>(product::<A>(counted::<A>(len), difference::<A>(unit(), held_out)))
}

/// How many of `len` tokens are for training.
pub fn cut_point<A: Arith>(len: usize, val_frac: Single) -> (cut: usize)
    ensures
        deterministic::<A>() ==> cut == training_cut::<A>(len as u64, val_frac),
{
    let held_out = val_frac.clamp(Single::zeroed(), Single { bits: NINE_TENTHS_BITS });
    A::to_count(A::times(A::of_count(len as u64), A::minus(Single::one(), held_out)))
}

/// The tokens, sliced into windows for training and, from `cut` on, for validation.
/// The boundary is a single contiguous cut, so no window straddles both sets.
pub fn split_windows<'a>(tokens: &'a [u32], cut: usize, size: usize) -> (r: (
    Vec<&'a [u32]>,
    Vec<&'a [u32]>,
))
    requires
        cut <= tokens@.len(),
        size > 0,
    ensures
        tokens_of(r.0@) == windows_in(tokens@.take(cut as int), size as int),
        tokens_of(r.1@) == windows_in(tokens@.skip(cut as int), size as int),
{
    let before = slice_subrange(tokens, 0, cut);
    let after = slice_subrange(tokens, cut, tokens.len());
    assert(before@ =~= tokens@.take(cut as int));
    assert(after@ =~= tokens@.skip(cut as int));
    (overlapping(before, size), overlapping(after, size))
}

// --- evaluation -------------------------------------------------------------

impl Model {
    /// The first `count` of `windows` can be run.
    pub open spec fn are_windows(self, windows: Seq<Seq<u32>>, count: int) -> bool {
        forall|k: int|
            0 <= k < windows.len() && k < count ==> self.is_window(#[trigger] windows[k])
    }

    /// The state before window `k`, carried from zero over the windows before.
    pub open spec fn state_at<A: Arith>(self, windows: Seq<Seq<u32>>, k: int) -> Seq<Single>
        decreases k,
    {
        if k <= 0 {
            silence(self.cfg.n as nat)
        } else {
            self.window_trace::<A>(
                windows[k - 1],
                self.state_at::<A>(windows, k - 1),
            ).state.last()
        }
    }

    /// The losses over the first `k` windows, added up.
    pub open spec fn losses<A: Arith>(self, windows: Seq<Seq<u32>>, k: int) -> Single
        decreases k,
    {
        if k <= 0 {
            nought()
        } else {
            sum::<A>(
                self.losses::<A>(windows, k - 1),
                self.window_trace::<A>(
                    windows[k - 1],
                    self.state_at::<A>(windows, k - 1),
                ).loss,
            )
        }
    }

    /// The mean loss over the first `max_windows` windows.
    pub open spec fn mean_loss<A: Arith>(
        self,
        windows: Seq<Seq<u32>>,
        max_windows: usize,
    ) -> Option<Single> {
        let count = if windows.len() < max_windows {
            windows.len() as int
        } else {
            max_windows as int
        };
        if windows.len() == 0 {
            None
        } else {
            Some(
                quotient::<A>(self.losses::<A>(windows, count), counted::<A>(count as u64)),
            )
        }
    }
}

/// Windows past the cap have no effect: the mean loss is that over the windows up to
/// the cap.
pub proof fn law_evaluation_is_capped<A: Arith>(
    model: Model,
    windows: Seq<Seq<u32>>,
    max_windows: usize,
)
    requires
        0 < max_windows,
    ensures
        ({
            let m = if windows.len() < max_windows {
                windows.len() as int
            } else {
                max_windows as int
            };
            model.mean_loss::<A>(windows, max_windows) == model.mean_loss::<A>(
                windows.take(m),
                m as usize,
            )
        }),
{
    let m = if windows.len() < max_windows {
        windows.len() as int
    } else {
        max_windows as int
    };
    lemma_losses_upto::<A>(model, windows, m, m);
}

proof fn lemma_losses_upto<A: Arith>(model: Model, windows: Seq<Seq<u32>>, m: int, k: int)
    requires
        k <= m <= windows.len(),
    ensures
        model.losses::<A>(windows, k) == model.losses::<A>(windows.take(m), k),
        model.state_at::<A>(windows, k) == model.state_at::<A>(windows.take(m), k),
    decreases k,
{
    if k > 0 {
        lemma_losses_upto::<A>(model, windows, m, k - 1);
    }
}

/// The state of `n` silent neurons.
pub open spec fn silence(n: nat) -> Seq<Single> {
    Seq::new(n, |i: int| nought())
}

/// Mean cross-entropy over held-out windows (forward only, no gradients). State
/// is carried across contiguous windows and reset at the start. Capped at
/// `max_windows` windows to keep evaluation cheap on large validation sets.
pub fn eval_loss<A: Arith>(net: &Network, windows: &[&[u32]], max_windows: usize) -> (r: Option<
    Single,
>)
    requires
        net.wf(),
        windows@.len() > 0 && max_windows > 0 ==> net.cfg.window > 0,
        net@.are_windows(tokens_of(windows@), max_windows as int),
    ensures
        r is None <==> windows@.len() == 0,
        deterministic::<A>() ==> r == net@.mean_loss::<A>(tokens_of(windows@), max_windows),
{
    let ghost all = tokens_of(windows@);
    if windows.len() == 0 {
        return None;
    }
    let count: usize = if windows.len() < max_windows {
        windows.len()
    } else {
        max_windows
    };
    let mut state = zeros(net.cfg.n);
    let mut acc = Single::zeroed();
    proof {
        lemma_sources_below(net.topo);
        assert(state@ =~= silence(net.cfg.n as nat));
    }
    let mut k: usize = 0;
    while k < count
        invariant
            net.wf(),
            count > 0 ==> net.cfg.window > 0,
            all == tokens_of(windows@),
            net@.are_windows(all, max_windows as int),
            count <= windows@.len(),
            count <= max_windows,
            k <= count,
            state@.len() == net.cfg.n,
            net.topo@.sources_below(net.cfg.n as nat),
            deterministic::<A>() ==> state@ == net@.state_at::<A>(all, k as int),
            deterministic::<A>() ==> acc == net@.losses::<A>(all, k as int),
        decreases count - k,
    {
        let window = windows[k];
        assert(all[k as int] == window@);
        let tape = net.run_window::<A>(window, state.as_slice());
        acc = A::plus(acc, tape.loss);
        let ghost trace = tape@;
        assert(trace.state[net.cfg.window - 1].len() == net.cfg.n);
        state = copied(tape.state[net.cfg.window - 1].as_slice());
        assert(state@ == trace.state.last());
        k += 1;
    }
    Some(A::over(acc, A::of_count(count as u64)))
}

// --- training ---------------------------------------------------------------

pub struct TrainOpts {
    pub corpus_path: String,
    pub out_path: String,
    pub steps: usize,
    pub log_every: usize,
    pub checkpoint_every: usize,
    /// Fraction of the corpus held out (from the end) for validation.
    pub val_frac: Single,
}

/// How many validation windows are run for a progress report.
pub const EVAL_WINDOWS: usize = 128;

/// A training run between two steps.
pub struct Trainer {
    pub net: Network,
    pub mom: Moments,
    pub adam: Adam,
    /// Carried to the next (contiguous) window.
    pub state: Vec<Single>,
    /// Losses since the last progress report, added up.
    pub loss_acc: Single,
    /// Shares of active neurons since the last progress report, added up.
    pub active_acc: Single,
    /// Steps since the last progress report.
    pub logged: usize,
}

/// Averages since the report before.
#[derive(Clone, Copy, Debug, PartialEq, Eq, Structural)]
pub struct Progress {
    pub train_loss: Single,
    pub val_loss: Option<Single>,
    pub active_percent: Single,
}

/// What is to be done after a step.
#[derive(Clone, Copy, Debug, PartialEq, Eq, Structural)]
pub struct Report {
    /// The churn of a rewiring that is to be logged.
    pub churn: Option<Single>,
    /// The progress, where it is to be logged.
    pub progress: Option<Progress>,
    /// A checkpoint is to be saved.
    pub save: bool,
}

/// What a trainer holds.
#[verifier::ext_equal]
pub struct Run {
    pub model: Model,
    pub mom: AllAverages,
    pub adam: Adam,
    pub state: Seq<Single>,
    pub loss_acc: Single,
    pub active_acc: Single,
    pub logged: int,
}

impl View for Trainer {
    type V = Run;

    open spec fn view(&self) -> Run {
        Run {
            model: self.net@,
            mom: self.mom@,
            adam: self.adam,
            state: self.state@,
            loss_acc: self.loss_acc,
            active_acc: self.active_acc,
            logged: self.logged as int,
        }
    }
}

/// How many of the first `n` of `xs` are not zero.
pub open spec fn active_in(xs: Seq<Single>, n: int) -> nat
    decreases n,
{
    if n <= 0 {
        0
    } else {
        active_in(xs, n - 1) + if xs[n - 1].zero() {
            0nat
        } else {
            1
        }
    }
}

/// How many states are not zero in the first `t` of `rows`.
pub open spec fn active_rows(rows: Seq<Seq<Single>>, t: int) -> nat
    decreases t,
{
    if t <= 0 {
        0
    } else {
        active_rows(rows, t - 1) + active_in(rows[t - 1], rows[t - 1].len() as int)
    }
}

/// A rewiring is due after `step`.
pub open spec fn rewires_after(cfg: Config, step: usize) -> bool {
    cfg.rigl_enabled && cfg.rigl_interval > 0 && step > 0 && step % cfg.rigl_interval == 0
}

/// A progress report is due after `step`.
pub open spec fn logs_after(opts: TrainOpts, step: usize) -> bool {
    step % opts.log_every == 0 && step > 0
}

/// A checkpoint is due after `step`.
pub open spec fn saves_after(opts: TrainOpts, step: usize) -> bool {
    opts.checkpoint_every > 0 && step > 0 && step % opts.checkpoint_every == 0
}

/// Inputs and outputs are among the neurons, and there are steps in a window,
/// whose states can be counted.
pub open spec fn is_runnable(cfg: Config) -> bool {
    &&& cfg.n_in <= cfg.n
    &&& cfg.n_out <= cfg.n
    &&& 1 <= cfg.window
    &&& cfg.n * cfg.window <= usize::MAX
}

impl Run {
    /// The run before its first step.
    pub open spec fn starting<A: Arith>(cfg: Config, vocab: usize) -> Run {
        let model = initial_model::<A>(cfg, vocab);
        Run {
            model,
            mom: AllAverages::zeroed(model),
            adam: Adam::configured(cfg),
            state: silence(cfg.n as nat),
            loss_acc: nought(),
            active_acc: nought(),
            logged: 0,
        }
    }

    /// The state that the window of index `wi` starts from: at each wrap it is
    /// reset.
    pub open spec fn starting_state(self, wi: int) -> Seq<Single> {
        if wi == 0 {
            Seq::new(self.state.len(), |i: int| nought())
        } else {
            self.state
        }
    }

    /// The forward pass of `step`: a contiguous walk through the windows.
    pub open spec fn forward<A: Arith>(self, windows: Seq<Seq<u32>>, step: usize) -> Trace {
        let wi = step as int % windows.len() as int;
        self.model.window_trace::<A>(windows[wi], self.starting_state(wi))
    }

    /// The share of active neurons in a window.
    pub open spec fn activity<A: Arith>(self, trace: Trace) -> Single {
        quotient::<A>(
            counted::<A>(active_rows(trace.state, trace.state.len() as int) as u64),
            product::<A>(
                counted::<A>(self.model.cfg.n as u64),
                counted::<A>(self.model.cfg.window as u64),
            ),
        )
    }

    /// The run after `trace` was learnt from.
    pub open spec fn learnt<A: Arith>(self, trace: Trace) -> Run {
        let adam = self.adam.begun();
        let g = self.model.gradients::<A>(trace).clipped::<A>(self.model.cfg.grad_clip);
        Run {
            model: self.model.updated::<A>(adam, self.mom, g),
            mom: self.model.averaged::<A>(adam, self.mom, g),
            adam,
            state: trace.state.last(),
            loss_acc: sum::<A>(self.loss_acc, trace.loss),
            active_acc: sum::<A>(self.active_acc, self.activity::<A>(trace)),
            logged: self.logged + 1,
        }
    }

    /// The run after its graph was rewired.
    pub open spec fn rewired<A: Arith>(self, trace: Trace, slopes: Slopes) -> Run {
        let g = self.model.graph;
        let plans = self.model.best_plans::<A>(trace, slopes, self.adam.t);
        Run {
            model: Model { graph: g.rewired(self.mom.w, plans), ..self.model },
            mom: AllAverages { w: g.rewired_moments(self.mom.w, plans), ..self.mom },
            ..self
        }
    }

    /// The churn of the rewiring.
    pub open spec fn churn<A: Arith>(self, trace: Trace, slopes: Slopes) -> Single {
        let plans = self.model.best_plans::<A>(trace, slopes, self.adam.t);
        quotient::<A>(
            counted::<A>(grown_in(plans, self.model.graph.n) as u64),
            counted::<A>(self.model.graph.edges() as u64),
        )
    }

    /// All weights and scores that a rewiring has to rank can be ranked.
    pub open spec fn can_rewire<A: Arith>(self, trace: Trace, slopes: Slopes) -> bool {
        forall|i: int|
            0 <= i < self.model.cfg.n ==> #[trigger] self.model.has_order::<A>(
                trace,
                slopes,
                self.adam.t,
                i,
            )
    }

    /// The run after learning and, where due, rewiring.
    pub open spec fn trained<A: Arith>(self, windows: Seq<Seq<u32>>, step: usize) -> Run {
        let trace = self.forward::<A>(windows, step);
        let run = self.learnt::<A>(trace);
        if rewires_after(self.model.cfg, step) {
            run.rewired::<A>(trace, self.model.gradients::<A>(trace))
        } else {
            run
        }
    }

    /// The averages since the last report.
    pub open spec fn progress<A: Arith>(self, val_windows: Seq<Seq<u32>>) -> Progress {
        let steps = counted::<A>(self.logged as u64);
        Progress {
            train_loss: quotient::<A>(self.loss_acc, steps),
            val_loss: self.model.mean_loss::<A>(val_windows, EVAL_WINDOWS),
            active_percent: quotient::<A>(
                product::<A>(Single { bits: HUNDRED_BITS }, self.active_acc),
                steps,
            ),
        }
    }

    /// The run after a report.
    pub open spec fn reported(self) -> Run {
        Run { loss_acc: nought(), active_acc: nought(), logged: 0, ..self }
    }

    /// The run after `step`.
    pub open spec fn after<A: Arith>(
        self,
        windows: Seq<Seq<u32>>,
        step: usize,
        opts: TrainOpts,
    ) -> Run {
        let run = self.trained::<A>(windows, step);
        if logs_after(opts, step) {
            run.reported()
        } else {
            run
        }
    }

    /// The run after the steps `0..steps`, none of which met a NaN.
    pub open spec fn after_steps<A: Arith>(
        self,
        windows: Seq<Seq<u32>>,
        opts: TrainOpts,
        steps: int,
    ) -> Run
        decreases steps,
    {
        if steps <= 0 {
            self
        } else {
            self.after_steps::<A>(windows, opts, steps - 1).after::<A>(
                windows,
                (steps - 1) as usize,
                opts,
            )
        }
    }

    /// The two runs hold the same parameters, buffers, optimizer and state; their
    /// logs may differ.
    pub open spec fn agrees(self, other: Run) -> bool {
        &&& self.model == other.model
        &&& self.mom == other.mom
        &&& self.adam == other.adam
        &&& self.state == other.state
    }

    /// What is to be done after `step`.
    pub open spec fn report<A: Arith>(
        self,
        windows: Seq<Seq<u32>>,
        val_windows: Seq<Seq<u32>>,
        step: usize,
        opts: TrainOpts,
    ) -> Report {
        let trace = self.forward::<A>(windows, step);
        let run = self.trained::<A>(windows, step);
        Report {
            churn: if rewires_after(self.model.cfg, step) && step % opts.log_every == 0 {
                Some(
                    self.learnt::<A>(trace).churn::<A>(
                        trace,
                        self.model.gradients::<A>(trace),
                    ),
                )
            } else {
                None
            },
            progress: if logs_after(opts, step) {
                Some(run.progress::<A>(val_windows))
            } else {
                None
            },
            save: saves_after(opts, step),
        }
    }
}

impl Trainer {
    /// The network is well formed, its rows are packed, and there are buffers for
    /// every parameter.
    pub open spec fn wf(self) -> bool {
        &&& self.net.wf()
        &&& self.net@.graph.is_packed()
        &&& self.mom@.fits(self.net@)
        &&& self.state@.len() == self.net.cfg.n
        &&& self.net.cfg.n * self.net.cfg.window <= usize::MAX
        &&& self.net.cfg.window > 0
    }

    /// Nothing was trained yet: a new network of `cfg`, its optimizer, and no
    /// activity. It can be stepped where the sizes allow for that.
    pub open spec fn is_fresh(self, cfg: Config, vocab: usize) -> bool {
        &&& self.net.cfg == cfg
        &&& self.net.vocab == vocab
        &&& self.net.topo.wf()
        &&& self.net.topo.n == cfg.n
        &&& self.net.embed@.len() == vocab * cfg.n_in
        &&& self.net.readout@.len() == cfg.n_out * vocab
        &&& self.net.bias_out@.len() == vocab
        &&& self.net@.graph.is_packed()
        &&& self.net@.graph.is_simple()
        &&& self.mom@ == AllAverages::zeroed(self.net@)
        &&& self.adam == Adam::configured(cfg)
        &&& self.state@ == silence(cfg.n as nat)
        &&& self.loss_acc == nought()
        &&& self.active_acc == nought()
        &&& self.logged == 0
        &&& is_runnable(cfg) ==> self.wf()
    }

    /// A run that starts from a new network.
    pub fn new<A: Arith>(cfg: Config, vocab: usize) -> (trainer: Trainer)
        requires
            1 <= cfg.n <= u32::MAX,
            cfg.n < usize::MAX,
            cfg.n * initial_degree(cfg) <= u32::MAX,
            vocab * cfg.n_in <= usize::MAX,
            cfg.n_out * vocab <= usize::MAX,
        ensures
            trainer.is_fresh(cfg, vocab),
            deterministic::<A>() ==> trainer@ == Run::starting::<A>(cfg, vocab),
    {
        let net = Network::new::<A>(cfg, vocab);
        let mom = Moments::new(&net);
        let adam = Adam::new(&cfg);
        let state = zeros(cfg.n);
        assert(state@ =~= silence(cfg.n as nat));
        let trainer = Trainer {
            net,
            mom,
            adam,
            state,
            loss_acc: Single::zeroed(),
            active_acc: Single::zeroed(),
            logged: 0,
        };
        assert(deterministic::<A>() ==> trainer@ =~= Run::starting::<A>(cfg, vocab));
        trainer
    }

    /// Whether steps can be taken.
    pub fn can_run(&self) -> (r: bool)
        ensures
            r == is_runnable(self.net.cfg),
    {
        let cfg = &self.net.cfg;
        cfg.n_in <= cfg.n && cfg.n_out <= cfg.n && 1 <= cfg.window && product_fits(
            cfg.n,
            cfg.window,
            usize::MAX,
        )
    }
}

/// How many of `xs` are not zero.
fn count_active(xs: &Vec<Single>) -> (count: usize)
    ensures
        count == active_in(xs@, xs@.len() as int),
        count <= xs@.len(),
{
    let mut count: usize = 0;
    let mut i: usize = 0;
    while i < xs.len()
        invariant
            i <= xs@.len(),
            count == active_in(xs@, i as int),
            count <= i,
        decreases xs.len() - i,
    {
        if !xs[i].is_zero() {
            count += 1;
        }
        i += 1;
    }
    count
}

/// How many states are not zero in the rows of a window.
fn count_active_rows(rows: &Vec<Vec<Single>>, n: usize) -> (count: usize)
    requires
        forall|t: int| 0 <= t < rows@.len() ==> (#[trigger] rows@[t])@.len() == n,
        n * rows@.len() <= usize::MAX,
    ensures
        count == active_rows(rows_of(rows@), rows@.len() as int),
{
    let ghost all = rows_of(rows@);
    let mut count: usize = 0;
    let mut t: usize = 0;
    while t < rows.len()
        invariant
            forall|t: int| 0 <= t < rows@.len() ==> (#[trigger] rows@[t])@.len() == n,
            n * rows@.len() <= usize::MAX,
            all == rows_of(rows@),
            t <= rows@.len(),
            count == active_rows(all, t as int),
            count <= n * t,
        decreases rows.len() - t,
    {
        let more = count_active(&rows[t]);
        proof {
            assert(all[t as int] == rows@[t as int]@);
            assert(n * t + n <= n * rows@.len()) by (nonlinear_arith)
                requires
                    t + 1 <= rows@.len(),
                    0 <= n,
            ;
            assert(n * (t + 1) == n * t + n) by (nonlinear_arith);
        }
        count += more;
        t += 1;
    }
    count
}

/// Being simple depends on the edges and not on their weights.
proof fn lemma_simple(g: Csr, h: Csr)
    requires
        h == (Csr { weights: h.weights, ..g }),
        g.is_simple(),
    ensures
        h.is_simple(),
{
    assert forall|i: int| 0 <= i < h.n implies are_distinct_others(#[trigger] h.targets(i), i) by {
        assert(h.targets(i) =~= g.targets(i));
        assert(are_distinct_others(g.targets(i), i));
    }
}

impl Trainer {
    /// Learns from one window: the state is reset where `wi` is the first index,
    /// the window is run and differentiated, and every parameter is updated.
    /// Returns the tape of the window and its gradients.
    fn learn<A: Arith>(&mut self, window: &[u32], wi: usize) -> (r: (Tape, Grads))
        requires
            old(self).wf(),
            old(self).net@.is_window(window@),
            old(self).adam.t < u64::MAX,
            old(self).logged < usize::MAX,
        ensures
            final(self).wf(),
            final(self).net.cfg == old(self).net.cfg,
            final(self).net.vocab == old(self).net.vocab,
            final(self).net@.graph == (Csr {
                weights: final(self).net@.graph.weights,
                ..old(self).net@.graph
            }),
            final(self).adam == old(self).adam.begun(),
            final(self).logged == old(self).logged + 1,
            final(self).net@.has_scores(r.0@, r.1@),
            deterministic::<A>() ==> ({
                let trace = old(self)@.model.window_trace::<A>(
                    window@,
                    old(self)@.starting_state(wi as int),
                );
                &&& r.0@ == trace
                &&& r.1@ == old(self)@.model.gradients::<A>(trace)
                &&& final(self)@ == old(self)@.learnt::<A>(trace)
            }),
    {
        let ghost run0 = self@;
        let cfg = self.net.cfg;
        if wi == 0 {
            self.state = zeros(self.state.len());
        }
        proof {
            lemma_sources_below(self.net.topo);
            assert(self.state@ =~= run0.starting_state(wi as int));
        }
        let tape = self.net.run_window::<A>(window, self.state.as_slice());
        let ghost trace = tape@;
        let grads = self.net.backward::<A>(&tape);
        assert forall|t: int| 0 <= t < tape.state@.len() implies (
        #[trigger] tape.state@[t])@.len() == cfg.n by {
            assert(trace.state[t].len() == cfg.n);
        }
        self.loss_acc = A::plus(self.loss_acc, tape.loss);
        let active = count_active_rows(&tape.state, cfg.n);
        self.active_acc = A::plus(
            self.active_acc,
            A::over(
                A::of_count(active as u64),
                A::times(A::of_count(cfg.n as u64), A::of_count(cfg.window as u64)),
            ),
        );
        apply_update::<A>(&mut self.net, &mut self.adam, &mut self.mom, &grads, &cfg);
        assert(trace.state[cfg.window - 1].len() == cfg.n);
        let carried = copied(tape.state[cfg.window - 1].as_slice());
        assert(carried@ == trace.state.last());
        self.state = carried;
        self.logged += 1;
        assert(deterministic::<A>() ==> self@ =~= run0.learnt::<A>(trace));
        (tape, grads)
    }

    /// Rewires the graph by what a window left. Returns the share of the edges that
    /// were rewired.
    fn rewire<A: Arith>(&mut self, tape: &Tape, grads: &Grads) -> (r: Result<Single, NotANumber>)
        requires
            old(self).wf(),
            old(self).net@.has_scores(tape@, grads@),
        ensures
            r is Err ==> *final(self) == *old(self),
            final(self).wf(),
            final(self).net.cfg == old(self).net.cfg,
            final(self).net.vocab == old(self).net.vocab,
            final(self).net@.graph.edges() == old(self).net@.graph.edges(),
            old(self).net@.graph.is_simple() ==> final(self).net@.graph.is_simple(),
            final(self).adam == old(self).adam,
            final(self).logged == old(self).logged,
            deterministic::<A>() ==> (r is Ok <==> old(self)@.can_rewire::<A>(tape@, grads@)),
            deterministic::<A>() ==> (r matches Ok(churn) ==> {
                &&& final(self)@ == old(self)@.rewired::<A>(tape@, grads@)
                &&& churn == old(self)@.churn::<A>(tape@, grads@)
            }),
    {
        let ghost run0 = self@;
        proof {
            law_degrees_add_up(self.net@.graph, self.net.cfg.n as int);
        }
        let r = rigl_step::<A>(&mut self.net, &mut self.mom.w, tape, grads, self.adam.t);
        assert(deterministic::<A>() && r is Ok ==> self@ =~= run0.rewired::<A>(tape@, grads@));
        r
    }

    /// The averages since the last report, which start anew.
    fn take_progress<A: Arith>(&mut self, val_windows: &[&[u32]]) -> (p: Progress)
        requires
            old(self).wf(),
            old(self).net@.are_windows(tokens_of(val_windows@), EVAL_WINDOWS as int),
        ensures
            final(self).wf(),
            final(self)@ == old(self)@.reported(),
            deterministic::<A>() ==> p == old(self)@.progress::<A>(tokens_of(val_windows@)),
    {
        let ghost run0 = self@;
        let steps = A::of_count(self.logged as u64);
        let train_loss = A::over(self.loss_acc, steps);
        let val_loss = eval_loss::<A>(&self.net, val_windows, EVAL_WINDOWS);
        let active_percent = A::over(
            A::times(Single { bits: HUNDRED_BITS }, self.active_acc),
            steps,
        );
        self.loss_acc = Single::zeroed();
        self.active_acc = Single::zeroed();
        self.logged = 0;
        assert(self@ =~= run0.reported());
        Progress { train_loss, val_loss, active_percent }
    }

    /// Trains on one window, the next in a contiguous walk through the windows,
    /// and rewires the graph where that is due. Returns what is to be logged and
    /// saved. An error means that a rewiring met a NaN.
    pub fn step<A: Arith>(
        &mut self,
        windows: &[&[u32]],
        val_windows: &[&[u32]],
        step: usize,
        opts: &TrainOpts,
    ) -> (r: Result<Report, NotANumber>)
        requires
            old(self).wf(),
            windows@.len() > 0,
            old(self).net@.are_windows(tokens_of(windows@), windows@.len() as int),
            old(self).net@.are_windows(tokens_of(val_windows@), EVAL_WINDOWS as int),
            opts.log_every > 0,
            old(self).adam.t < u64::MAX,
            old(self).logged < usize::MAX,
        ensures
            final(self).wf(),
            final(self).net.cfg == old(self).net.cfg,
            final(self).net.vocab == old(self).net.vocab,
            final(self).net@.graph.edges() == old(self).net@.graph.edges(),
            old(self).net@.graph.is_simple() ==> final(self).net@.graph.is_simple(),
            !rewires_after(old(self).net.cfg, step) ==> r is Ok && final(self).net@.graph == (Csr {
                weights: final(self).net@.graph.weights,
                ..old(self).net@.graph
            }),
            final(self).adam == old(self).adam.begun(),
            r matches Ok(report) ==> {
                &&& report.save == saves_after(*opts, step)
                &&& report.progress is Some <==> logs_after(*opts, step)
                &&& report.churn is Some <==> rewires_after(old(self).net.cfg, step) && step
                    % opts.log_every == 0
                &&& final(self).logged == if logs_after(*opts, step) {
                    0
                } else {
                    old(self).logged + 1
                }
            },
            deterministic::<A>() ==> (r is Ok <==> ({
                let trace = old(self)@.forward::<A>(tokens_of(windows@), step);
                rewires_after(old(self).net.cfg, step) ==> old(self)@.learnt::<A>(
                    trace,
                ).can_rewire::<A>(trace, old(self)@.model.gradients::<A>(trace))
            })),
            deterministic::<A>() ==> (r matches Ok(report) ==> {
                &&& final(self)@ == old(self)@.after::<A>(tokens_of(windows@), step, *opts)
                &&& report == old(self)@.report::<A>(
                    tokens_of(windows@),
                    tokens_of(val_windows@),
                    step,
                    *opts,
                )
            }),
    {
        let ghost run0 = self@;
        let ghost all = tokens_of(windows@);
        let cfg = self.net.cfg;
        let wi: usize = step % windows.len();
        let window = windows[wi];
        assert(all[wi as int] == window@);
        let (tape, grads) = self.learn::<A>(window, wi);
        let ghost trace = tape@;
        proof {
            if run0.model.graph.is_simple() {
                lemma_simple(run0.model.graph, self.net@.graph);
            }
        }
        let mut churn: Option<Single> = None;
        if cfg.rigl_enabled && cfg.rigl_interval > 0 && step > 0 && step % cfg.rigl_interval == 0 {
            match self.rewire::<A>(&tape, &grads) {
                Ok(rewired) => {
                    if step % opts.log_every == 0 {
                        churn = Some(rewired);
                    }
                },
                Err(e) => {
                    return Err(e);
                },
            }
        }
        assert(deterministic::<A>() ==> self@ == run0.trained::<A>(all, step));
        let mut progress: Option<Progress> = None;
        if step % opts.log_every == 0 && step > 0 {
            progress = Some(self.take_progress::<A>(val_windows));
        }
        let save = opts.checkpoint_every > 0 && step > 0 && step % opts.checkpoint_every == 0;
        Ok(Report { churn, progress, save })
    }
}

// --- setting up -------------------------------------------------------------

/// Why a run cannot start.
#[derive(Clone, Copy, Debug, PartialEq, Eq, Structural)]
pub enum SetupError {
    /// There are no input neurons or no output neurons.
    NoInputsOrOutputs,
    /// There are no neurons, or a size is too large.
    SizesOutOfRange,
    /// More tokens were to be trained on than there are.
    CutBeyondCorpus,
    /// There is not one training window.
    CorpusTooSmall,
}

/// There are neurons, and the parts of a network and the tokens of a window can be
/// counted.
pub open spec fn sizes_fit(cfg: Config, vocab: usize) -> bool {
    &&& 1 <= cfg.n <= u32::MAX
    &&& cfg.n < usize::MAX
    &&& cfg.n * initial_degree(cfg) <= u32::MAX
    &&& vocab * cfg.n_in <= usize::MAX
    &&& cfg.n_out * vocab <= usize::MAX
    &&& cfg.window < usize::MAX
}

/// Whether `a * b` is at most `limit`.
fn product_fits(a: usize, b: usize, limit: usize) -> (r: bool)
    ensures
        r == (a * b <= limit),
{
    assert(a * b <= u64::MAX * u64::MAX) by (nonlinear_arith)
        requires
            0 <= a <= u64::MAX,
            0 <= b <= u64::MAX,
    ;
    a as u128 * b as u128 <= limit as u128
}

/// Whether `cfg` and `vocab` have sizes that fit.
pub fn check_sizes(cfg: &Config, vocab: usize) -> (r: bool)
    ensures
        r == sizes_fit(*cfg, vocab),
{
    if cfg.n < 1 || cfg.n as u64 > u32::MAX as u64 || cfg.n == usize::MAX {
        return false;
    }
    let degree: usize = if cfg.k <= cfg.n - 1 {
        cfg.k
    } else {
        cfg.n - 1
    };
    product_fits(cfg.n, degree, u32::MAX as usize) && product_fits(vocab, cfg.n_in, usize::MAX)
        && product_fits(cfg.n_out, vocab, usize::MAX) && cfg.window < usize::MAX
}

/// Windows of tokens can be run.
proof fn lemma_windows_run(model: Model, tokens: Seq<u32>)
    requires
        model.are_tokens(tokens, tokens.len() as int),
    ensures
        model.are_windows(
            windows_in(tokens, model.cfg.window + 1),
            windows_in(tokens, model.cfg.window + 1).len() as int,
        ),
{
    let size = model.cfg.window + 1;
    let windows = windows_in(tokens, size);
    assert forall|k: int| 0 <= k < windows.len() implies model.is_window(
        #[trigger] windows[k],
    ) by {
        lemma_window_fits(tokens.len() as int, size, k);
        assert forall|t: int| 0 <= t < size implies #[trigger] windows[k][t] < model.vocab by {
            assert(windows[k][t] == tokens[k * stride(size) + t]);
        }
    }
}

impl Trainer {
    /// Sets up a run: a new network, and the windows of `tokens` for training and
    /// for validation.
    pub fn prepare<'a, A: Arith>(
        cfg: Config,
        vocab: usize,
        tokens: &'a [u32],
        val_frac: Single,
    ) -> (r: Result<(Trainer, Vec<&'a [u32]>, Vec<&'a [u32]>), SetupError>)
        requires
            forall|k: int| 0 <= k < tokens@.len() ==> #[trigger] tokens@[k] < vocab,
        ensures
            r == Err::<(Trainer, Vec<&'a [u32]>, Vec<&'a [u32]>), SetupError>(
                SetupError::NoInputsOrOutputs,
            ) <==> cfg.n_in < 1 || cfg.n_out < 1,
            r == Err::<(Trainer, Vec<&'a [u32]>, Vec<&'a [u32]>), SetupError>(
                SetupError::SizesOutOfRange,
            ) <==> cfg.n_in >= 1 && cfg.n_out >= 1 && !sizes_fit(cfg, vocab),
            deterministic::<A>() && cfg.n_in >= 1 && cfg.n_out >= 1 && sizes_fit(cfg, vocab) ==> ({
                let cut = training_cut::<A>(tokens@.len() as u64, val_frac) as int;
                let train = windows_in(tokens@.take(cut), cfg.window + 1);
                if cut > tokens@.len() {
                    r == Err::<(Trainer, Vec<&'a [u32]>, Vec<&'a [u32]>), SetupError>(
                        SetupError::CutBeyondCorpus,
                    )
                } else if train.len() == 0 {
                    r == Err::<(Trainer, Vec<&'a [u32]>, Vec<&'a [u32]>), SetupError>(
                        SetupError::CorpusTooSmall,
                    )
                } else {
                    r matches Ok((trainer, windows, val_windows)) && {
                        &&& trainer@ == Run::starting::<A>(cfg, vocab)
                        &&& tokens_of(windows@) == train
                        &&& tokens_of(val_windows@) == windows_in(
                            tokens@.skip(cut),
                            cfg.window + 1,
                        )
                    }
                }
            }),
            r matches Ok((trainer, windows, val_windows)) ==> {
                &&& trainer.is_fresh(cfg, vocab)
                &&& windows@.len() > 0
                &&& trainer.net@.are_windows(tokens_of(windows@), windows@.len() as int)
                &&& trainer.net@.are_windows(tokens_of(val_windows@), val_windows@.len() as int)
            },
    {
        if cfg.n_out < 1 || cfg.n_in < 1 {
            return Err(SetupError::NoInputsOrOutputs);
        }
        if !check_sizes(&cfg, vocab) {
            return Err(SetupError::SizesOutOfRange);
        }
        let trainer = Trainer::new::<A>(cfg, vocab);
        let cut = cut_point::<A>(tokens.len(), val_frac);
        if cut > tokens.len() {
            return Err(SetupError::CutBeyondCorpus);
        }
        let (windows, val_windows) = split_windows(tokens, cut, cfg.window + 1);
        proof {
            assert(tokens_of(windows@).len() == windows@.len());
            assert(tokens_of(val_windows@).len() == val_windows@.len());
            lemma_windows_run(trainer.net@, tokens@.take(cut as int));
            lemma_windows_run(trainer.net@, tokens@.skip(cut as int));
        }
        if windows.len() == 0 {
            return Err(SetupError::CorpusTooSmall);
        }
        Ok((trainer, windows, val_windows))
    }
}

// --- what holds of a run ----------------------------------------------------

/// What is trained does not depend on what is logged: two runs that agree still
/// agree after the same step on the same windows, whatever the options. Neither
/// validation windows nor the intervals of reports and checkpoints have a say.
pub proof fn law_options_do_not_reach_parameters<A: Arith>(
    a: Run,
    b: Run,
    windows: Seq<Seq<u32>>,
    step: usize,
    opts_a: TrainOpts,
    opts_b: TrainOpts,
)
    requires
        a.agrees(b),
    ensures
        a.after::<A>(windows, step, opts_a).agrees(b.after::<A>(windows, step, opts_b)),
{
    let wi = step as int % windows.len() as int;
    assert(a.starting_state(wi) =~= b.starting_state(wi));
}

/// The same of whole runs of any number of steps.
pub proof fn law_options_do_not_reach_runs<A: Arith>(
    a: Run,
    b: Run,
    windows: Seq<Seq<u32>>,
    opts_a: TrainOpts,
    opts_b: TrainOpts,
    steps: int,
)
    requires
        a.agrees(b),
    ensures
        a.after_steps::<A>(windows, opts_a, steps).agrees(
            b.after_steps::<A>(windows, opts_b, steps),
        ),
    decreases steps,
{
    if steps > 0 {
        law_options_do_not_reach_runs::<A>(a, b, windows, opts_a, opts_b, steps - 1);
        law_options_do_not_reach_parameters::<A>(
            a.after_steps::<A>(windows, opts_a, steps - 1),
            b.after_steps::<A>(windows, opts_b, steps - 1),
            windows,
            (steps - 1) as usize,
            opts_a,
            opts_b,
        );
    }
}

/// Held-out text does not reach training: two texts of the same characters that
/// agree up to the cut have the same vocabulary, and their training windows are
/// the same. So the same parameters come out of the same number of steps.
pub proof fn law_held_out_text_is_not_trained_on<A: Arith>(
    cfg: Config,
    x: Seq<char>,
    y: Seq<char>,
    vocab_x: Seq<char>,
    vocab_y: Seq<char>,
    cut: int,
    opts_x: TrainOpts,
    opts_y: TrainOpts,
    steps: int,
)
    requires
        is_vocabulary_of(vocab_x, x),
        is_vocabulary_of(vocab_y, y),
        forall|c: char| #[trigger] x.contains(c) <==> y.contains(c),
        0 <= cut <= x.len(),
        cut <= y.len(),
        x.take(cut) == y.take(cut),
    ensures
        vocab_x == vocab_y,
        windows_in(encoded(vocab_x, x).take(cut), cfg.window + 1) == windows_in(
            encoded(vocab_y, y).take(cut),
            cfg.window + 1,
        ),
        Run::starting::<A>(cfg, vocab_x.len() as usize).after_steps::<A>(
            windows_in(encoded(vocab_x, x).take(cut), cfg.window + 1),
            opts_x,
            steps,
        ).agrees(
            Run::starting::<A>(cfg, vocab_y.len() as usize).after_steps::<A>(
                windows_in(encoded(vocab_y, y).take(cut), cfg.window + 1),
                opts_y,
                steps,
            ),
        ),
{
    law_same_start_same_tokens(x, y, vocab_x, vocab_y, cut);
    let start = Run::starting::<A>(cfg, vocab_x.len() as usize);
    law_options_do_not_reach_runs::<A>(
        start,
        start,
        windows_in(encoded(vocab_x, x).take(cut), cfg.window + 1),
        opts_x,
        opts_y,
        steps,
    );
}

/// With rewiring disabled the topology is frozen: after any number of steps the
/// graph differs from that at the start in its weights alone.
pub proof fn law_topology_is_frozen<A: Arith>(
    run: Run,
    windows: Seq<Seq<u32>>,
    opts: TrainOpts,
    steps: int,
)
    requires
        !run.model.cfg.rigl_enabled,
    ensures
        ({
            let after = run.after_steps::<A>(windows, opts, steps).model;
            &&& after.cfg == run.model.cfg
            &&& after.graph == (Csr { weights: after.graph.weights, ..run.model.graph })
            &&& after.graph.weights.len() == run.model.graph.weights.len()
        }),
    decreases steps,
{
    if steps > 0 {
        law_topology_is_frozen::<A>(run, windows, opts, steps - 1);
    }
}

// --- generation -------------------------------------------------------------

pub struct GenOpts {
    pub ckpt_path: String,
    pub prompt: String,
    pub length: usize,
    pub temperature: Single,
    pub seed: u64,
}

/// The largest of the first `n` logits: the first of those that no earlier one is
/// below.
pub open spec fn best_logit(logits: Seq<Single>, n: int) -> int
    decreases n,
{
    if n <= 1 {
        0
    } else {
        let best = best_logit(logits, n - 1);
        if less(logits[best], logits[n - 1]) {
            n - 1
        } else {
            best
        }
    }
}

/// The first `n` of `probs`, added up.
pub open spec fn cumulated<A: Arith>(probs: Seq<Single>, n: int) -> Single
    decreases n,
{
    if n <= 0 {
        nought()
    } else {
        sum::<A>(cumulated::<A>(probs, n - 1), probs[n - 1])
    }
}

/// The first index from `from` on at which the cumulated probability reaches `r`,
/// or the last index.
pub open spec fn reached<A: Arith>(probs: Seq<Single>, r: Single, from: int) -> int
    decreases probs.len() - from,
{
    if from >= probs.len() {
        probs.len() - 1
    } else if at_most(r, cumulated::<A>(probs, from + 1)) {
        from
    } else {
        reached::<A>(probs, r, from + 1)
    }
}

/// Temperatures that make the choice greedy.
pub open spec fn is_greedy(temperature: Single) -> bool {
    at_most(temperature, Single { bits: TEN_TO_MINUS_6_BITS })
}

/// The token drawn from `logits` by a generator in `state`, and its state
/// afterwards.
pub open spec fn sampled<A: Arith>(
    logits: Seq<Single>,
    temperature: Single,
    state: Seq<u32>,
) -> (u32, Seq<u32>) {
    if is_greedy(temperature) {
        (best_logit(logits, logits.len() as int) as u32, state)
    } else {
        let probs = softmax::<A>(
            Seq::new(logits.len(), |i: int| quotient::<A>(logits[i], temperature)),
        );
        let (r, next) = uniform_draw::<A>(state, nought(), unit());
        (reached::<A>(probs, r, 0) as u32, next)
    }
}

/// Temperature sampling from logits.
pub fn sample<A: Arith>(logits: &[Single], temperature: Single, rng: &mut StdRng) -> (tok: u32)
    requires
        is_greedy(temperature) || logits@.len() > 0,
    ensures
        0 < logits@.len() <= u32::MAX ==> tok < logits@.len(),
        deterministic::<A>() ==> (tok, generator_state(*final(rng))) == sampled::<A>(
            logits@,
            temperature,
            generator_state(*old(rng)),
        ),
        is_greedy(temperature) ==> tok == best_logit(logits@, logits@.len() as int) as u32,
{
    let n = logits.len();
    if temperature.le(Single { bits: TEN_TO_MINUS_6_BITS }) {
        let mut best: usize = 0;
        let mut i: usize = 1;
        while i < n
            invariant
                n == logits@.len(),
                1 <= i,
                n > 0 ==> i <= n,
                n == 0 ==> i == 1,
                best < i,
                best == best_logit(logits@, i as int),
            decreases n - i,
        {
            if logits[best].lt(logits[i]) {
                best = i;
            }
            i += 1;
        }
        assert(best == best_logit(logits@, n as int));
        return best as u32;
    }
    let mut scaled_logits: Vec<Single> = Vec::new();
    let mut i: usize = 0;
    while i < n
        invariant
            n == logits@.len(),
            i <= n,
            scaled_logits@.len() == i,
            deterministic::<A>() ==> forall|k: int|
                0 <= k < i ==> #[trigger] scaled_logits@[k] == quotient::<A>(
                    logits@[k],
                    temperature,
                ),
        decreases n - i,
    {
        scaled_logits.push(A::over(logits[i], temperature));
        i += 1;
    }
    let ghost tempered = Seq::new(logits@.len(), |i: int| quotient::<A>(logits@[i], temperature));
    assert(deterministic::<A>() ==> scaled_logits@ =~= tempered);
    let (probs, _) = softmax_ce::<A>(scaled_logits.as_slice(), 0);
    let (r, next) = A::uniform(rng, Single::zeroed(), Single { bits: ONE_BITS });
    *rng = next;
    let mut acc = Single::zeroed();
    let mut i: usize = 0;
    while i < n
        invariant
            n == probs@.len(),
            i <= n,
            deterministic::<A>() ==> acc == cumulated::<A>(probs@, i as int),
            deterministic::<A>() ==> reached::<A>(probs@, r, 0) == reached::<A>(
                probs@,
                r,
                i as int,
            ),
            n == logits@.len(),
            !is_greedy(temperature),
            deterministic::<A>() ==> probs@ == softmax::<A>(tempered),
            tempered == Seq::new(
                logits@.len(),
                |i: int| quotient::<A>(logits@[i], temperature),
            ),
            deterministic::<A>() ==> (r, generator_state(*rng)) == uniform_draw::<A>(
                generator_state(*old(rng)),
                nought(),
                unit(),
            ),
        decreases n - i,
    {
        acc = A::plus(acc, probs[i]);
        if r.le(acc) {
            return i as u32;
        }
        i += 1;
    }
    (n - 1) as u32
}

/// The last place of `c` among the first `n` of `chars`: its token id.
pub open spec fn id_of(chars: Seq<char>, c: char, n: int) -> Option<u32>
    decreases n,
{
    if n <= 0 {
        None
    } else if chars[n - 1] == c {
        Some((n - 1) as u32)
    } else {
        id_of(chars, c, n - 1)
    }
}

impl Model {
    /// State and last token after the first `k` characters of a prompt were fed;
    /// those that are no tokens are passed over.
    pub open spec fn warmed<A: Arith>(self, chars: Seq<char>, prompt: Seq<char>, k: int) -> (
        Seq<Single>,
        u32,
    )
        decreases k,
    {
        if k <= 0 {
            (silence(self.cfg.n as nat), 0)
        } else {
            let (state, last) = self.warmed::<A>(chars, prompt, k - 1);
            match id_of(chars, prompt[k - 1], chars.len() as int) {
                Some(tok) => (self.stepped::<A>(tok, state), tok),
                None => (state, last),
            }
        }
    }

    /// The text generated in `k` steps after the prompt, with the state, the last
    /// token and the state of the generator.
    pub open spec fn sampling<A: Arith>(
        self,
        chars: Seq<char>,
        prompt: Seq<char>,
        temperature: Single,
        seed: u64,
        k: int,
    ) -> (Seq<char>, Seq<Single>, u32, Seq<u32>)
        decreases k,
    {
        if k <= 0 {
            let (state, last) = self.warmed::<A>(chars, prompt, prompt.len() as int);
            (prompt, state, last, seeded_state(seed))
        } else {
            let (text, state, last, rng) = self.sampling::<A>(
                chars,
                prompt,
                temperature,
                seed,
                k - 1,
            );
            let next = self.stepped::<A>(last, state);
            let (tok, rng_next) = sampled::<A>(self.logits::<A>(next), temperature, rng);
            (text.push(chars[tok as int]), next, tok, rng_next)
        }
    }
}

/// Token ids by scalar value.
fn index_chars(chars: &[char]) -> (ids: HashMap<u32, u32>)
    ensures
        forall|c: char|
            ids@.contains_key(#[trigger] code(c)) <==> id_of(chars@, c, chars@.len() as int) is Some,
        forall|c: char|
            ids@.contains_key(#[trigger] code(c)) ==> id_of(chars@, c, chars@.len() as int) == Some(
                ids@[code(c)],
            ),
{
    let mut ids: HashMap<u32, u32> = HashMap::new();
    let mut k: usize = 0;
    while k < chars.len()
        invariant
            k <= chars@.len(),
            forall|c: char|
                ids@.contains_key(#[trigger] code(c)) <==> id_of(chars@, c, k as int) is Some,
            forall|c: char|
                ids@.contains_key(#[trigger] code(c)) ==> id_of(chars@, c, k as int) == Some(
                    ids@[code(c)],
                ),
        decreases chars.len() - k,
    {
        let ghost before = ids@;
        let key = code_of(chars[k]);
        ids.insert(key, k as u32);
        proof {
            let here = chars@[k as int];
            lemma_code(here);
            assert forall|c: char|
                (ids@.contains_key(#[trigger] code(c)) <==> id_of(chars@, c, k + 1) is Some) && (
                ids@.contains_key(code(c)) ==> id_of(chars@, c, k + 1) == Some(
                    ids@[code(c)],
                )) by {
                lemma_code(c);
                if code(c) == key {
                    assert(c == here);
                } else {
                    assert(c != here);
                    assert(before.contains_key(code(c)) <==> id_of(chars@, c, k as int) is Some);
                }
            }
        }
        k += 1;
    }
    ids
}

proof fn lemma_id_of(chars: Seq<char>, c: char, n: int)
    requires
        0 <= n <= chars.len(),
        n <= u32::MAX,
    ensures
        id_of(chars, c, n) matches Some(id) ==> id < n && chars[id as int] == c,
    decreases n,
{
    if n > 0 {
        lemma_id_of(chars, c, n - 1);
    }
}

/// Generates text: warms up the state on the prompt, which is kept, then samples
/// one character after the other.
pub fn generate<A: Arith>(net: &Network, id_to_char: &[char], opts: &GenOpts) -> (out: String)
    requires
        net.wf(),
        id_to_char@.len() == net.vocab,
        net.vocab <= u32::MAX,
        opts.length > 0 ==> net.vocab > 0,
    ensures
        out@.len() == opts.prompt@.len() + opts.length,
        out@.take(opts.prompt@.len() as int) == opts.prompt@,
        forall|q: int|
            opts.prompt@.len() <= q < out@.len() ==> id_to_char@.contains(#[trigger] out@[q]),
        deterministic::<A>() ==> out@ == net@.sampling::<A>(
            id_to_char@,
            opts.prompt@,
            opts.temperature,
            opts.seed,
            opts.length as int,
        ).0,
{
    let ids = index_chars(id_to_char);
    let ghost chars = id_to_char@;
    let ghost prompt_chars = opts.prompt@;
    let mut rng = seeded(opts.seed);
    let mut state = zeros(net.cfg.n);
    let mut out: Vec<char> = Vec::new();
    let mut last_tok: u32 = 0;
    let prompt = chars_of(opts.prompt.as_str());
    proof {
        lemma_sources_below(net.topo);
        assert(state@ =~= silence(net.cfg.n as nat));
    }
    let mut k: usize = 0;
    while k < prompt.len()
        invariant
            net.wf(),
            chars == id_to_char@,
            chars.len() == net.vocab,
            net.vocab <= u32::MAX,
            net.topo@.sources_below(net.cfg.n as nat),
            forall|c: char|
                ids@.contains_key(#[trigger] code(c)) <==> id_of(
                    chars,
                    c,
                    chars.len() as int,
                ) is Some,
            forall|c: char|
                ids@.contains_key(#[trigger] code(c)) ==> id_of(chars, c, chars.len() as int)
                    == Some(ids@[code(c)]),
            prompt@ == prompt_chars,
            k <= prompt@.len(),
            out@ == prompt@.take(k as int),
            state@.len() == net.cfg.n,
            last_tok == 0 || last_tok < net.vocab,
            deterministic::<A>() ==> (state@, last_tok) == net@.warmed::<A>(
                chars,
                prompt_chars,
                k as int,
            ),
        decreases prompt.len() - k,
    {
        let ch = prompt[k];
        proof {
            lemma_code(ch);
            lemma_id_of(chars, ch, chars.len() as int);
            lemma_looked_up(ids@, chars, ch);
        }
        out.push(ch);
        match ids.get(&code_of(ch)) {
            Some(tok) => {
                let (s, _) = net.step_once::<A>(*tok, state.as_slice());
                state = s;
                last_tok = *tok;
            },
            None => {},
        }
        k += 1;
        assert(out@ =~= prompt@.take(k as int));
    }
    assert(prompt@.take(k as int) =~= prompt@);
    let mut n: usize = 0;
    while n < opts.length
        invariant
            net.wf(),
            chars == id_to_char@,
            chars.len() == net.vocab,
            net.vocab <= u32::MAX,
            opts.length > 0 ==> net.vocab > 0,
            net.topo@.sources_below(net.cfg.n as nat),
            prompt_chars == opts.prompt@,
            n <= opts.length,
            state@.len() == net.cfg.n,
            last_tok == 0 || last_tok < net.vocab,
            out@.len() == prompt_chars.len() + n,
            out@.take(prompt_chars.len() as int) == prompt_chars,
            forall|q: int| prompt_chars.len() <= q < out@.len() ==> chars.contains(#[trigger] out@[q]),
            deterministic::<A>() ==> (out@, state@, last_tok, generator_state(rng))
                == net@.sampling::<A>(
                chars,
                prompt_chars,
                opts.temperature,
                opts.seed,
                n as int,
            ),
        decreases opts.length - n,
    {
        let ghost before = out@;
        let (s, logits) = net.step_once::<A>(last_tok, state.as_slice());
        state = s;
        let tok = sample::<A>(logits.as_slice(), opts.temperature, &mut rng);
        out.push(id_to_char[tok as usize]);
        last_tok = tok;
        n += 1;
        assert forall|q: int| prompt_chars.len() <= q < out@.len() implies chars.contains(
            #[trigger] out@[q],
        ) by {
            if q == before.len() {
                assert(chars[tok as int] == out@[q]);
            } else {
                assert(out@[q] == before[q]);
            }
        }
        assert(out@.take(prompt_chars.len() as int) =~= before.take(prompt_chars.len() as int));
    }
    string_of(&out)
}

/// What the index says of a character.
proof fn lemma_looked_up(ids: Map<u32, u32>, chars: Seq<char>, c: char)
    requires
        forall|c: char|
            ids.contains_key(#[trigger] code(c)) <==> id_of(chars, c, chars.len() as int) is Some,
        forall|c: char|
            ids.contains_key(#[trigger] code(c)) ==> id_of(chars, c, chars.len() as int) == Some(
                ids[code(c)],
            ),
    ensures
        ids.contains_key(code(c)) <==> id_of(chars, c, chars.len() as int) is Some,
        ids.contains_key(code(c)) ==> id_of(chars, c, chars.len() as int) == Some(ids[code(c)]),
{
}

/// Of the first `k` characters of `prompt`, those that are tokens.
pub open spec fn known_chars(chars: Seq<char>, prompt: Seq<char>, k: int) -> Seq<char>
    decreases k,
{
    if k <= 0 {
        Seq::empty()
    } else if id_of(chars, prompt[k - 1], chars.len() as int) is Some {
        known_chars(chars, prompt, k - 1).push(prompt[k - 1])
    } else {
        known_chars(chars, prompt, k - 1)
    }
}

proof fn lemma_warmed_ext<A: Arith>(
    model: Model,
    chars: Seq<char>,
    x: Seq<char>,
    y: Seq<char>,
    k: int,
)
    requires
        forall|q: int| 0 <= q < k ==> #[trigger] x[q] == y[q],
    ensures
        model.warmed::<A>(chars, x, k) == model.warmed::<A>(chars, y, k),
    decreases k,
{
    if k > 0 {
        lemma_warmed_ext::<A>(model, chars, x, y, k - 1);
        assert(x[k - 1] == y[k - 1]);
    }
}

proof fn lemma_warmed_known<A: Arith>(model: Model, chars: Seq<char>, prompt: Seq<char>, k: int)
    requires
        0 <= k <= prompt.len(),
    ensures
        ({
            let known = known_chars(chars, prompt, k);
            model.warmed::<A>(chars, prompt, k) == model.warmed::<A>(
                chars,
                known,
                known.len() as int,
            )
        }),
    decreases k,
{
    if k > 0 {
        lemma_warmed_known::<A>(model, chars, prompt, k - 1);
        let before = known_chars(chars, prompt, k - 1);
        let known = known_chars(chars, prompt, k);
        if id_of(chars, prompt[k - 1], chars.len() as int) is Some {
            lemma_warmed_ext::<A>(model, chars, known, before, before.len() as int);
        }
    }
}

/// Characters of a prompt that are no tokens have no effect on what follows it: the
/// text generated is that after the prompt without them.
pub proof fn law_unknown_characters_are_passed_over<A: Arith>(
    model: Model,
    chars: Seq<char>,
    prompt: Seq<char>,
    temperature: Single,
    seed: u64,
    k: int,
)
    requires
        0 <= k,
    ensures
        ({
            let known = known_chars(chars, prompt, prompt.len() as int);
            let (x, x_state, x_last, x_rng) = model.sampling::<A>(
                chars,
                prompt,
                temperature,
                seed,
                k,
            );
            let (y, y_state, y_last, y_rng) = model.sampling::<A>(
                chars,
                known,
                temperature,
                seed,
                k,
            );
            &&& x.len() == prompt.len() + k
            &&& y.len() == known.len() + k
            &&& x.take(prompt.len() as int) == prompt
            &&& x.skip(prompt.len() as int) == y.skip(known.len() as int)
            &&& x_state == y_state
            &&& x_last == y_last
            &&& x_rng == y_rng
        }),
    decreases k,
{
    let known = known_chars(chars, prompt, prompt.len() as int);
    if k <= 0 {
        lemma_warmed_known::<A>(model, chars, prompt, prompt.len() as int);
        assert(prompt.skip(prompt.len() as int) =~= known.skip(known.len() as int));
        assert(prompt.take(prompt.len() as int) =~= prompt);
    } else {
        law_unknown_characters_are_passed_over::<A>(
            model,
            chars,
            prompt,
            temperature,
            seed,
            k - 1,
        );
        let x0 = model.sampling::<A>(chars, prompt, temperature, seed, k - 1).0;
        let y0 = model.sampling::<A>(chars, known, temperature, seed, k - 1).0;
        let x = model.sampling::<A>(chars, prompt, temperature, seed, k).0;
        let y = model.sampling::<A>(chars, known, temperature, seed, k).0;
        let p = prompt.len() as int;
        let q = known.len() as int;
        assert(x.take(p) =~= x0.take(p));
        assert(x.skip(p) =~= x0.skip(p).push(x.last()));
        assert(y.skip(q) =~= y0.skip(q).push(y.last()));
    }
}

/// Greedy text does not depend on the seed: nothing is drawn.
pub proof fn law_greedy_text_ignores_the_seed<A: Arith>(
    model: Model,
    chars: Seq<char>,
    prompt: Seq<char>,
    temperature: Single,
    a: u64,
    b: u64,
    k: int,
)
    requires
        is_greedy(temperature),
    ensures
        ({
            let (x, x_state, x_last, x_rng) = model.sampling::<A>(chars, prompt, temperature, a, k);
            let (y, y_state, y_last, y_rng) = model.sampling::<A>(chars, prompt, temperature, b, k);
            &&& x == y
            &&& x_state == y_state
            &&& x_last == y_last
            &&& x_rng == seeded_state(a)
            &&& y_rng == seeded_state(b)
        }),
    decreases k,
{
    if k > 0 {
        law_greedy_text_ignores_the_seed::<A>(model, chars, prompt, temperature, a, b, k - 1);
    }
}

/// Where no logit is a NaN, the greedy choice is the first of the largest.
pub proof fn law_greedy_choice_is_largest(logits: Seq<Single>, i: int)
    requires
        forall|k: int| 0 <= k < logits.len() ==> !(#[trigger] logits[k]).nan(),
        0 <= i < logits.len(),
    ensures
        0 <= best_logit(logits, logits.len() as int) < logits.len(),
        at_most(logits[i], logits[best_logit(logits, logits.len() as int)]),
        i < best_logit(logits, logits.len() as int) ==> less(
            logits[i],
            logits[best_logit(logits, logits.len() as int)],
        ),
{
    lemma_greedy(logits, logits.len() as int, i);
}

proof fn lemma_greedy(logits: Seq<Single>, n: int, i: int)
    requires
        forall|k: int| 0 <= k < logits.len() ==> !(#[trigger] logits[k]).nan(),
        0 <= i < n <= logits.len(),
    ensures
        0 <= best_logit(logits, n) < n,
        at_most(logits[i], logits[best_logit(logits, n)]),
        i < best_logit(logits, n) ==> less(logits[i], logits[best_logit(logits, n)]),
    decreases n,
{
    if n > 1 {
        if i < n - 1 {
            lemma_greedy(logits, n - 1, i);
        } else {
            lemma_greedy(logits, n - 1, 0);
        }
    }
}

// --- what holds of updates, evaluation and training -------------------------

/// Gradients are clipped together: where the norm of all arrays is above the limit,
/// every number of every array is multiplied by the limit over the norm; else all
/// stay as they are.
pub proof fn law_clipping_is_of_all_arrays_together<A: Arith>(
    arrays: Seq<Seq<Single>>,
    max_norm: Single,
    norm: Single,
    k: int,
    i: int,
)
    requires
        norm == norm_of::<A>(arrays),
        0 <= k < arrays.len(),
        0 <= i < arrays[k].len(),
    ensures
        clipped_arrays::<A>(arrays, max_norm).len() == arrays.len(),
        clipped_arrays::<A>(arrays, max_norm)[k].len() == arrays[k].len(),
        less(max_norm, norm) && less(nought(), norm) ==> clipped_arrays::<A>(arrays, max_norm)[k][i]
            == product::<A>(arrays[k][i], quotient::<A>(max_norm, norm)),
        !(less(max_norm, norm) && less(nought(), norm)) ==> clipped_arrays::<A>(arrays, max_norm)
            == arrays,
{
}

/// The gradients of all four parameter arrays are clipped together.
pub proof fn law_all_gradients_are_clipped<A: Arith>(slopes: Slopes, max_norm: Single)
    ensures
        slopes.clipped::<A>(max_norm) == clipped_arrays::<A>(
            seq![slopes.g_w, slopes.g_embed, slopes.g_readout, slopes.g_bias],
            max_norm,
        ),
{
}

/// One update takes the same step over each of the four parameter arrays, each with
/// its own gradients and moments, and leaves all else as it is.
pub proof fn law_update_steps_every_array<A: Arith>(
    model: Model,
    adam: Adam,
    mom: AllAverages,
    g: Seq<Seq<Single>>,
)
    requires
        g.len() == 4,
    ensures
        ({
            let after = model.updated::<A>(adam, mom, g);
            let moved = model.averaged::<A>(adam, mom, g);
            &&& after.graph.weights == adam.stepped::<A>(model.graph.weights, g[0], mom.w)
            &&& after.embed == adam.stepped::<A>(model.embed, g[1], mom.embed)
            &&& after.readout == adam.stepped::<A>(model.readout, g[2], mom.readout)
            &&& after.bias_out == adam.stepped::<A>(model.bias_out, g[3], mom.bias)
            &&& moved.w == adam.averaged::<A>(mom.w, g[0], model.graph.weights.len())
            &&& moved.embed == adam.averaged::<A>(mom.embed, g[1], model.embed.len())
            &&& moved.readout == adam.averaged::<A>(mom.readout, g[2], model.readout.len())
            &&& moved.bias == adam.averaged::<A>(mom.bias, g[3], model.bias_out.len())
            &&& after.cfg == model.cfg
            &&& after.vocab == model.vocab
            &&& after.graph == (Csr { weights: after.graph.weights, ..model.graph })
        }),
{
}

/// No array is updated differently from another: any two of them that hold the same
/// parameters, with the same gradients and moments, hold the same after the update,
/// and so do their buffers.
pub proof fn law_update_is_the_same_for_every_array<A: Arith>(
    model: Model,
    adam: Adam,
    mom: AllAverages,
    g: Seq<Seq<Single>>,
    a: int,
    b: int,
)
    requires
        g.len() == 4,
        0 <= a < 4,
        0 <= b < 4,
        ({
            let p = seq![model.graph.weights, model.embed, model.readout, model.bias_out];
            let m = seq![mom.w, mom.embed, mom.readout, mom.bias];
            p[a] == p[b] && g[a] == g[b] && m[a] == m[b]
        }),
    ensures
        ({
            let after = model.updated::<A>(adam, mom, g);
            let moved = model.averaged::<A>(adam, mom, g);
            let p = seq![after.graph.weights, after.embed, after.readout, after.bias_out];
            let m = seq![moved.w, moved.embed, moved.readout, moved.bias];
            p[a] == p[b] && m[a] == m[b]
        }),
{
    let p = seq![model.graph.weights, model.embed, model.readout, model.bias_out];
    let m = seq![mom.w, mom.embed, mom.readout, mom.bias];
    let after = model.updated::<A>(adam, mom, g);
    let moved = model.averaged::<A>(adam, mom, g);
    let q = seq![after.graph.weights, after.embed, after.readout, after.bias_out];
    let n = seq![moved.w, moved.embed, moved.readout, moved.bias];
    assert forall|k: int| 0 <= k < 4 implies #[trigger] q[k] == adam.stepped::<A>(
        p[k],
        g[k],
        m[k],
    ) && n[k] == adam.averaged::<A>(m[k], g[k], p[k].len()) by {
        assert(k == 0 || k == 1 || k == 2 || k == 3);
    }
    assert(q[a] == q[b]);
}

/// A step of the optimizer is counted, and its rates stay.
pub proof fn law_steps_are_counted(adam: Adam)
    requires
        adam.t < u64::MAX,
    ensures
        adam.begun().t == adam.t + 1,
        adam.begun() == (Adam { t: adam.begun().t, ..adam }),
{
}

/// Slicing goes on to the end: another window would reach past the last token.
pub proof fn law_windows_reach_the_end(tokens: Seq<u32>, size: int)
    requires
        1 < size,
    ensures
        ({
            let count = windows_in(tokens, size).len() as int;
            &&& count * (size - 1) + size > tokens.len()
            &&& 0 < count ==> (count - 1) * (size - 1) + size <= tokens.len()
            &&& size <= tokens.len() ==> 0 < count
        }),
{
    let len = tokens.len() as int;
    let count = windows_in(tokens, size).len() as int;
    if len > 0 {
        let s = size - 1;
        vstd::arithmetic::div_mod::lemma_fundamental_div_mod(len - 1, s);
        vstd::arithmetic::div_mod::lemma_div_pos_is_pos(len - 1, s);
        assert(0 <= (len - 1) % s < s) by {
            vstd::arithmetic::div_mod::lemma_mod_bound(len - 1, s);
        }
        assert(count == (len - 1) / s);
        assert(len - 1 == s * count + (len - 1) % s);
        assert(s * count == count * s) by (nonlinear_arith);
        assert((count - 1) * s == count * s - s) by (nonlinear_arith);
        if size <= len && count == 0 {
            assert(count * s == 0) by (nonlinear_arith)
                requires
                    count == 0,
            ;
        }
    } else {
        assert(count * (size - 1) == 0) by (nonlinear_arith)
            requires
                count == 0,
        ;
    }
}

/// The cut leaves for training what of the length the held-out fraction leaves; the
/// fraction is taken for zero where it is below, and for nine tenths where it is
/// above that.
pub proof fn law_cut_leaves_the_rest_for_training<A: Arith>(len: u64, val_frac: Single)
    ensures
        ({
            let most = Single { bits: 0x3f66_6666 };
            &&& at_most(nought(), val_frac) && at_most(val_frac, most) ==> training_cut::<A>(
                len,
                val_frac,
            ) == count_in::<A>(
                product::<A>(counted::<A>(len), difference::<A>(unit(), val_frac)),
            )
            &&& less(val_frac, nought()) ==> training_cut::<A>(len, val_frac) == training_cut::<A>(
                len,
                nought(),
            )
            &&& less(most, val_frac) ==> training_cut::<A>(len, val_frac) == training_cut::<A>(
                len,
                most,
            )
        }),
{
}

proof fn lemma_states_and_losses<A: Arith>(
    model: Model,
    windows: Seq<Seq<u32>>,
    states: Seq<Seq<Single>>,
    partial: Seq<Single>,
    m: int,
    k: int,
)
    requires
        0 <= k <= m,
        m < states.len(),
        m < partial.len(),
        states[0] == Seq::new(model.cfg.n as nat, |i: int| nought()),
        partial[0] == nought(),
        forall|q: int|
            0 < q <= m ==> #[trigger] states[q] == model.window_trace::<A>(
                windows[q - 1],
                states[q - 1],
            ).state.last(),
        forall|q: int|
            0 < q <= m ==> #[trigger] partial[q] == sum::<A>(
                partial[q - 1],
                model.window_trace::<A>(windows[q - 1], states[q - 1]).loss,
            ),
    ensures
        model.state_at::<A>(windows, k) == states[k],
        model.losses::<A>(windows, k) == partial[k],
    decreases k,
{
    if k > 0 {
        lemma_states_and_losses::<A>(model, windows, states, partial, m, k - 1);
        assert(states[k] == model.window_trace::<A>(
            windows[k - 1],
            states[k - 1],
        ).state.last());
        assert(partial[k] == sum::<A>(
            partial[k - 1],
            model.window_trace::<A>(windows[k - 1], states[k - 1]).loss,
        ));
    } else {
        assert(silence(model.cfg.n as nat) =~= states[0]);
    }
}

/// Evaluation runs window after window: the first from silence, each other from the
/// last state of the one before. The mean is the sum of their losses, `partial[m]`
/// over the first `m`, divided by their number.
pub proof fn law_evaluation_carries_the_state<A: Arith>(
    model: Model,
    windows: Seq<Seq<u32>>,
    max_windows: usize,
    states: Seq<Seq<Single>>,
    partial: Seq<Single>,
    m: int,
)
    requires
        0 < windows.len(),
        m <= windows.len() && m <= max_windows,
        m == windows.len() || m == max_windows,
        m < states.len(),
        m < partial.len(),
        states[0] == Seq::new(model.cfg.n as nat, |i: int| nought()),
        partial[0] == nought(),
        forall|q: int|
            0 < q <= m ==> #[trigger] states[q] == model.window_trace::<A>(
                windows[q - 1],
                states[q - 1],
            ).state.last(),
        forall|q: int|
            0 < q <= m ==> #[trigger] partial[q] == sum::<A>(
                partial[q - 1],
                model.window_trace::<A>(windows[q - 1], states[q - 1]).loss,
            ),
    ensures
        model.mean_loss::<A>(windows, max_windows) == Some(
            quotient::<A>(partial[m], counted::<A>(m as u64)),
        ),
{
    lemma_states_and_losses::<A>(model, windows, states, partial, m, m);
}

/// Active neurons are those whose state is not zero, counted over all steps.
pub proof fn law_activity_counts_states_that_are_not_zero(
    rows: Seq<Seq<Single>>,
    row: Seq<Single>,
    x: Single,
)
    ensures
        active_in(Seq::empty(), 0) == 0,
        active_in(row.push(x), row.len() as int + 1) == active_in(row, row.len() as int) + if x.zero() {
            0nat
        } else {
            1
        },
        active_rows(Seq::empty(), 0) == 0,
        active_rows(rows.push(row), rows.len() as int + 1) == active_rows(rows, rows.len() as int)
            + active_in(row, row.len() as int),
{
    lemma_active_in_prefix(row.push(x), row, row.len() as int);
    lemma_active_rows_prefix(rows.push(row), rows, rows.len() as int);
}

proof fn lemma_active_in_prefix(x: Seq<Single>, y: Seq<Single>, n: int)
    requires
        forall|i: int| 0 <= i < n ==> #[trigger] x[i] == y[i],
    ensures
        active_in(x, n) == active_in(y, n),
    decreases n,
{
    if n > 0 {
        lemma_active_in_prefix(x, y, n - 1);
        assert(x[n - 1] == y[n - 1]);
    }
}

proof fn lemma_active_rows_prefix(x: Seq<Seq<Single>>, y: Seq<Seq<Single>>, n: int)
    requires
        forall|i: int| 0 <= i < n ==> #[trigger] x[i] == y[i],
    ensures
        active_rows(x, n) == active_rows(y, n),
    decreases n,
{
    if n > 0 {
        lemma_active_rows_prefix(x, y, n - 1);
        assert(x[n - 1] == y[n - 1]);
    }
}

/// What is due after a step: rewiring, where enabled, progress and checkpoints after
/// the multiples of their intervals, of which zero is none. Nothing is due at an
/// interval of zero.
pub proof fn law_schedule_goes_by_multiples(
    cfg: Config,
    opts: TrainOpts,
    step: usize,
    every: usize,
    m: int,
    r: int,
)
    requires
        0 <= m,
        0 <= r < every,
        step == m * every + r,
    ensures
        cfg.rigl_interval == every ==> rewires_after(cfg, step) == (cfg.rigl_enabled && 0 < m && r
            == 0),
        opts.log_every == every ==> logs_after(opts, step) == (0 < m && r == 0),
        opts.checkpoint_every == every ==> saves_after(opts, step) == (0 < m && r == 0),
        cfg.rigl_interval == 0 ==> !rewires_after(cfg, step),
        opts.checkpoint_every == 0 ==> !saves_after(opts, step),
{
    vstd::arithmetic::div_mod::lemma_fundamental_div_mod_converse(
        step as int,
        every as int,
        m,
        r,
    );
    assert(0 < m ==> 0 < m * every) by (nonlinear_arith)
        requires
            0 < every,
    ;
    assert(m == 0 ==> m * every == 0) by (nonlinear_arith);
}

/// A run starts with a new network, with moments of zero for every parameter, an
/// optimizer as configured, silence, and nothing to report.
pub proof fn law_runs_start_afresh<A: Arith>(cfg: Config, vocab: usize, i: int)
    ensures
        ({
            let run = Run::starting::<A>(cfg, vocab);
            &&& run.model == initial_model::<A>(cfg, vocab)
            &&& run.mom.w.has(run.model.graph.edges())
            &&& run.mom.embed.has(run.model.embed.len())
            &&& run.mom.readout.has(run.model.readout.len())
            &&& run.mom.bias.has(run.model.bias_out.len())
            &&& 0 <= i < run.mom.w.m.len() ==> run.mom.w.m[i] == nought()
            &&& 0 <= i < run.mom.w.v.len() ==> run.mom.w.v[i] == nought()
            &&& 0 <= i < run.mom.embed.m.len() ==> run.mom.embed.m[i] == nought()
            &&& 0 <= i < run.mom.embed.v.len() ==> run.mom.embed.v[i] == nought()
            &&& 0 <= i < run.mom.readout.m.len() ==> run.mom.readout.m[i] == nought()
            &&& 0 <= i < run.mom.readout.v.len() ==> run.mom.readout.v[i] == nought()
            &&& 0 <= i < run.mom.bias.m.len() ==> run.mom.bias.m[i] == nought()
            &&& 0 <= i < run.mom.bias.v.len() ==> run.mom.bias.v[i] == nought()
            &&& run.adam == Adam::configured(cfg)
            &&& run.state.len() == cfg.n
            &&& 0 <= i < cfg.n ==> run.state[i] == nought()
            &&& run.loss_acc == nought()
            &&& run.active_acc == nought()
            &&& run.logged == 0
        }),
{
}

/// Training walks through the windows in their order and starts over at the end. The
/// first starts from silence, each other from the state of the run.
pub proof fn law_training_walks_through_the_windows<A: Arith>(
    run: Run,
    windows: Seq<Seq<u32>>,
    step: usize,
    round: int,
    wi: int,
)
    requires
        0 <= wi < windows.len(),
        0 <= round,
        step == round * windows.len() + wi,
    ensures
        wi == 0 ==> run.forward::<A>(windows, step) == run.model.window_trace::<A>(
            windows[0],
            Seq::new(run.state.len(), |i: int| nought()),
        ),
        wi > 0 ==> run.forward::<A>(windows, step) == run.model.window_trace::<A>(
            windows[wi],
            run.state,
        ),
{
    vstd::arithmetic::div_mod::lemma_fundamental_div_mod_converse(
        step as int,
        windows.len() as int,
        round,
        wi,
    );
}

/// What a window leaves: parameters and moments after an update by its clipped
/// gradients, its last state, and what it adds to the report, its loss and its share
/// of active states among all.
pub proof fn law_learning_from_a_window<A: Arith>(run: Run, trace: Trace)
    ensures
        ({
            let after = run.learnt::<A>(trace);
            let g = run.model.gradients::<A>(trace).clipped::<A>(run.model.cfg.grad_clip);
            let active = active_rows(trace.state, trace.state.len() as int);
            &&& after.adam == run.adam.begun()
            &&& after.model == run.model.updated::<A>(after.adam, run.mom, g)
            &&& after.mom == run.model.averaged::<A>(after.adam, run.mom, g)
            &&& after.state == trace.state.last()
            &&& after.loss_acc == sum::<A>(run.loss_acc, trace.loss)
            &&& after.active_acc == sum::<A>(
                run.active_acc,
                quotient::<A>(
                    counted::<A>(active as u64),
                    product::<A>(
                        counted::<A>(run.model.cfg.n as u64),
                        counted::<A>(run.model.cfg.window as u64),
                    ),
                ),
            )
            &&& after.logged == run.logged + 1
        }),
{
}

/// The state is carried: a window that is not the first starts from the last state of
/// the window before it, whatever was learnt, rewired or reported in between.
pub proof fn law_state_is_carried_to_the_next_window<A: Arith>(
    run: Run,
    windows: Seq<Seq<u32>>,
    step: usize,
    opts: TrainOpts,
)
    requires
        0 < windows.len(),
        step < usize::MAX,
    ensures
        ({
            let next = (step + 1) as usize;
            let after = run.after::<A>(windows, step, opts);
            let last = run.forward::<A>(windows, step).state.last();
            &&& after.state == last
            &&& next as int % windows.len() as int != 0 ==> after.forward::<A>(
                windows,
                next,
            ).state_init == last
            &&& next as int % windows.len() as int == 0 ==> after.forward::<A>(
                windows,
                next,
            ).state_init == Seq::new(last.len(), |i: int| nought())
        }),
{
}

/// Rewiring goes by the gradients of the window just run, as they were before the
/// update, and by the step that the optimizer then is at; it changes the graph and
/// the moments of its weights, and nothing else.
pub proof fn law_rewiring_follows_learning<A: Arith>(
    run: Run,
    windows: Seq<Seq<u32>>,
    step: usize,
)
    ensures
        ({
            let trace = run.forward::<A>(windows, step);
            let learnt = run.learnt::<A>(trace);
            let after = run.trained::<A>(windows, step);
            let plans = learnt.model.best_plans::<A>(
                trace,
                run.model.gradients::<A>(trace),
                learnt.adam.t,
            );
            &&& !rewires_after(run.model.cfg, step) ==> after == learnt
            &&& rewires_after(run.model.cfg, step) ==> after == (Run {
                model: Model {
                    graph: learnt.model.graph.rewired(learnt.mom.w, plans),
                    ..learnt.model
                },
                mom: AllAverages {
                    w: learnt.model.graph.rewired_moments(learnt.mom.w, plans),
                    ..learnt.mom
                },
                ..learnt
            })
        }),
{
}

/// What is reported after a step: of a rewiring the share of edges grown, where progress
/// is logged too; progress since the last report, where due, after which the sums
/// start anew; and that a checkpoint is due.
pub proof fn law_report_says_what_happened<A: Arith>(
    run: Run,
    windows: Seq<Seq<u32>>,
    val_windows: Seq<Seq<u32>>,
    step: usize,
    opts: TrainOpts,
)
    ensures
        ({
            let trace = run.forward::<A>(windows, step);
            let learnt = run.learnt::<A>(trace);
            let trained = run.trained::<A>(windows, step);
            let after = run.after::<A>(windows, step, opts);
            let report = run.report::<A>(windows, val_windows, step, opts);
            let count = counted::<A>(trained.logged as u64);
            let plans = learnt.model.best_plans::<A>(
                trace,
                run.model.gradients::<A>(trace),
                learnt.adam.t,
            );
            &&& after.agrees(trained)
            &&& logs_after(opts, step) ==> after.loss_acc == nought() && after.active_acc
                == nought() && after.logged == 0
            &&& !logs_after(opts, step) ==> after == trained && report.progress is None
            &&& logs_after(opts, step) ==> report.progress == Some(
                Progress {
                    train_loss: quotient::<A>(trained.loss_acc, count),
                    val_loss: trained.model.mean_loss::<A>(val_windows, 128),
                    active_percent: quotient::<A>(
                        product::<A>(Single { bits: 0x42c8_0000 }, trained.active_acc),
                        count,
                    ),
                },
            )
            &&& report.churn is Some <==> rewires_after(run.model.cfg, step) && step as int
                % opts.log_every as int == 0
            &&& report.churn is Some ==> report.churn == Some(
                quotient::<A>(
                    counted::<A>(grown_in(plans, learnt.model.graph.n) as u64),
                    counted::<A>(learnt.model.graph.edges() as u64),
                ),
            )
            &&& report.save == saves_after(opts, step)
        }),
{
}

// --- what holds of generation -----------------------------------------------

/// Choices are greedy at temperatures up to 1e-6: then the largest logit is taken and
/// nothing is drawn.
pub proof fn law_low_temperatures_are_greedy<A: Arith>(
    logits: Seq<Single>,
    temperature: Single,
    state: Seq<u32>,
)
    requires
        at_most(temperature, Single { bits: 0x3586_37bd }),
    ensures
        is_greedy(temperature),
        sampled::<A>(logits, temperature, state) == (
            best_logit(logits, logits.len() as int) as u32,
            state,
        ),
{
}

/// Above that a token is drawn: of the probabilities of the logits divided by the
/// temperature, with one number drawn from zero to one.
pub proof fn law_temperature_divides_the_logits<A: Arith>(
    logits: Seq<Single>,
    temperature: Single,
    tempered: Seq<Single>,
    state: Seq<u32>,
)
    requires
        !at_most(temperature, Single { bits: 0x3586_37bd }),
        tempered.len() == logits.len(),
        forall|i: int|
            0 <= i < logits.len() ==> #[trigger] tempered[i] == quotient::<A>(
                logits[i],
                temperature,
            ),
    ensures
        !is_greedy(temperature),
        ({
            let (r, next) = uniform_draw::<A>(state, nought(), unit());
            sampled::<A>(logits, temperature, state) == (
                reached::<A>(softmax::<A>(tempered), r, 0) as u32,
                next,
            )
        }),
{
    assert(tempered =~= Seq::new(
        logits.len(),
        |i: int| quotient::<A>(logits[i], temperature),
    ));
}

/// Sampling at a temperature is sampling at temperature one from logits divided by it,
/// with the same draw: wherever `tempered[i]` is `logits[i]` over the temperature, and
/// dividing it by one leaves it.
pub proof fn law_temperature_one_samples_the_divided_logits<A: Arith>(
    logits: Seq<Single>,
    temperature: Single,
    tempered: Seq<Single>,
    state: Seq<u32>,
)
    requires
        !at_most(temperature, Single { bits: 0x3586_37bd }),
        tempered.len() == logits.len(),
        forall|i: int|
            0 <= i < logits.len() ==> #[trigger] tempered[i] == quotient::<A>(
                logits[i],
                temperature,
            ),
        forall|i: int|
            0 <= i < logits.len() ==> quotient::<A>(#[trigger] tempered[i], unit()) == tempered[i],
    ensures
        sampled::<A>(logits, temperature, state) == sampled::<A>(tempered, unit(), state),
{
    assert(tempered =~= Seq::new(
        logits.len(),
        |i: int| quotient::<A>(logits[i], temperature),
    ));
    assert(tempered =~= Seq::new(tempered.len(), |i: int| quotient::<A>(tempered[i], unit())));
    assert(!is_greedy(unit()));
}

/// A token is the first at which the probabilities, added up in `partial`, reach the
/// number drawn.
pub proof fn law_first_to_reach_is_drawn<A: Arith>(
    probs: Seq<Single>,
    r: Single,
    partial: Seq<Single>,
    k: int,
)
    requires
        0 <= k < probs.len(),
        partial.len() == probs.len() + 1,
        partial[0] == nought(),
        forall|q: int|
            0 < q <= probs.len() ==> #[trigger] partial[q] == sum::<A>(
                partial[q - 1],
                probs[q - 1],
            ),
        forall|q: int| 0 < q <= k ==> !at_most(r, #[trigger] partial[q]),
    ensures
        at_most(r, partial[k + 1]) ==> reached::<A>(probs, r, 0) == k,
        k == probs.len() - 1 ==> reached::<A>(probs, r, 0) == k,
{
    lemma_reached_from::<A>(probs, r, partial, 0, k);
}

proof fn lemma_cumulated<A: Arith>(probs: Seq<Single>, partial: Seq<Single>, n: int)
    requires
        0 <= n <= probs.len(),
        partial.len() == probs.len() + 1,
        partial[0] == nought(),
        forall|q: int|
            0 < q <= probs.len() ==> #[trigger] partial[q] == sum::<A>(
                partial[q - 1],
                probs[q - 1],
            ),
    ensures
        cumulated::<A>(probs, n) == partial[n],
    decreases n,
{
    if n > 0 {
        lemma_cumulated::<A>(probs, partial, n - 1);
        assert(partial[n] == sum::<A>(partial[n - 1], probs[n - 1]));
    }
}

proof fn lemma_reached_from<A: Arith>(
    probs: Seq<Single>,
    r: Single,
    partial: Seq<Single>,
    from: int,
    k: int,
)
    requires
        0 <= from <= k < probs.len(),
        partial.len() == probs.len() + 1,
        partial[0] == nought(),
        forall|q: int|
            0 < q <= probs.len() ==> #[trigger] partial[q] == sum::<A>(
                partial[q - 1],
                probs[q - 1],
            ),
        forall|q: int| 0 < q <= k ==> !at_most(r, #[trigger] partial[q]),
    ensures
        at_most(r, partial[k + 1]) ==> reached::<A>(probs, r, from) == k,
        k == probs.len() - 1 ==> reached::<A>(probs, r, from) == k,
    decreases k - from,
{
    lemma_cumulated::<A>(probs, partial, from + 1);
    if from < k {
        lemma_reached_from::<A>(probs, r, partial, from + 1, k);
        assert(!at_most(r, partial[from + 1]));
    } else {
        reveal_with_fuel(reached, 2);
    }
}

/// The id of a character is the last place at which it stands in the vocabulary; a
/// character that does not stand there has none.
pub proof fn law_id_is_the_last_place(chars: Seq<char>, c: char, k: int)
    requires
        chars.len() <= u32::MAX,
    ensures
        0 <= k < chars.len() && chars[k] == c && (forall|q: int|
            k < q < chars.len() ==> #[trigger] chars[q] != c) ==> id_of(
            chars,
            c,
            chars.len() as int,
        ) == Some(k as u32),
        !chars.contains(c) ==> id_of(chars, c, chars.len() as int) is None,
{
    lemma_last_place(chars, c, k, chars.len() as int);
}

proof fn lemma_last_place(chars: Seq<char>, c: char, k: int, n: int)
    requires
        0 <= n <= chars.len() <= u32::MAX,
    ensures
        0 <= k < n && chars[k] == c && (forall|q: int| k < q < n ==> #[trigger] chars[q] != c)
            ==> id_of(chars, c, n) == Some(k as u32),
        !chars.contains(c) ==> id_of(chars, c, n) is None,
    decreases n,
{
    if n > 0 {
        lemma_last_place(chars, c, k, n - 1);
    }
}

/// A prompt is fed character by character, from silence: each that is a token is one
/// step of the network and becomes the last token.
pub proof fn law_prompt_warms_up_the_state<A: Arith>(
    model: Model,
    chars: Seq<char>,
    prompt: Seq<char>,
    k: int,
)
    requires
        0 <= k < prompt.len(),
    ensures
        model.warmed::<A>(chars, prompt, 0) == (
            Seq::new(model.cfg.n as nat, |i: int| nought()),
            0u32,
        ),
        match id_of(chars, prompt[k], chars.len() as int) {
            Some(tok) => model.warmed::<A>(chars, prompt, k + 1) == (
                model.stepped::<A>(tok, model.warmed::<A>(chars, prompt, k).0),
                tok,
            ),
            None => model.warmed::<A>(chars, prompt, k + 1) == model.warmed::<A>(
                chars,
                prompt,
                k,
            ),
        },
{
}

/// Generation feeds back what it generates: each step feeds the last token, samples the
/// next from the logits of the state that this leaves, and writes its character.
/// It starts from the prompt and a generator of the given seed.
pub proof fn law_generation_feeds_back<A: Arith>(
    model: Model,
    chars: Seq<char>,
    prompt: Seq<char>,
    temperature: Single,
    seed: u64,
    k: int,
)
    requires
        0 <= k,
    ensures
        ({
            let (text, state, last, rng) = model.sampling::<A>(chars, prompt, temperature, seed, k);
            let (longer, next, tok, after) = model.sampling::<A>(
                chars,
                prompt,
                temperature,
                seed,
                k + 1,
            );
            &&& next == model.stepped::<A>(last, state)
            &&& (tok, after) == sampled::<A>(model.logits::<A>(next), temperature, rng)
            &&& longer == text.push(chars[tok as int])
        }),
        ({
            let (text, state, last, rng) = model.sampling::<A>(chars, prompt, temperature, seed, 0);
            &&& text == prompt
            &&& (state, last) == model.warmed::<A>(chars, prompt, prompt.len() as int)
            &&& rng == seeded_state(seed)
        }),
{
}

/// Windows of one token are the tokens, one by one.
pub proof fn law_windows_of_one_token(tokens: Seq<u32>, k: int)
    requires
        0 <= k < tokens.len(),
    ensures
        windows_in(tokens, 1).len() == tokens.len(),
        windows_in(tokens, 1)[k] == seq![tokens[k]],
{
    assert(k * stride(1) == k) by (nonlinear_arith)
        requires
            stride(1) == 1,
    ;
    assert(windows_in(tokens, 1)[k] =~= seq![tokens[k]]);
}

} // verus!
