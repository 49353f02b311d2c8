//! How calls relate: what the functions of the library return, said of their results
//! and of one another's, whatever they compute it from.
use rand::rngs::StdRng;
use vstd::prelude::*;

use crate::arith::{
    counted, deterministic, difference, exponential, hyperbolic_tangent,
    law_running_sum_adds_one_by_one, lemma_running_sum_ext, logarithm, narrowed, product, quotient,
    raised, root, running_sum, sum, Arith,
};
use crate::backprop::{law_gradients_go_back_through_time, next_charge, Grads};
use crate::checkpoint::{
    is_savable, law_bytes_come_lowest_first, law_load_undoes_save, le_u64, load, put_f32, put_u32,
    put_u64, save, saved, LoadError, Reader,
};
use crate::config::{Config, GateMode};
use crate::data::{
    decoded, encoded, entropy, is_vocabulary_of, law_decode_undoes_encode,
    law_tokens_follow_the_text, Corpus,
};
use crate::graph::{
    edges_into, gaussian, gaussian_draw, initial_degree, initial_graph, is_csr, lemma_edges_into,
    lists_in_edges, Csr, Topology,
};
use crate::mlp::{
    grids_of, is_function, law_last_gradient_is_output_minus_target, law_layers_follow_one_another,
    law_training_descends, Algebra, Matrix, Mlp,
};
use crate::network::{
    activate, activate_grad, gate, gate_grad, initial_model, law_cost_is_the_logarithm,
    law_gate_slope_is_that_of_its_sides, law_hard_threshold, law_slope_follows_the_product_rule,
    law_softmax_shares_exponentials, law_window_is_its_steps, rows_of, sigmoid, softmax_ce,
    surprise, Model, Network, Tape,
};
use crate::optim::{
    clip_in_place, global_norm, held_by, law_adam_moves_each_parameter, norm_of, slices_of, Adam,
    Moment,
};
use crate::random::{generator_state, seeded_state};
use crate::rigl::{
    churn_fraction, counts_in_order, grown_in, law_rate_is_constant_after_the_decay, rigl_step,
    NotANumber,
};
use crate::scalar::{at_most, less, nought, unit, Single};
use crate::train::{
    apply_update, clipped_arrays, cut_point, eval_loss, generate, is_greedy, known_chars,
    law_evaluation_is_capped, law_greedy_text_ignores_the_seed,
    law_temperature_one_samples_the_divided_logits, law_unknown_characters_are_passed_over,
    overlapping, rewires_after, sample, sampled, split_windows, tokens_of, training_cut,
    windows_in, GenOpts, Moments, Report, Run, SetupError, TrainOpts, Trainer,
};

verus! {

// --- gates, activations and probabilities -----------------------------------

/// A sigmoid is one over one plus the exponential of minus its argument.
pub proof fn law_sigmoid_calls<A: Arith>(z: Single, r: Single)
    requires
        deterministic::<A>(),
        call_ensures(sigmoid::<A>, (z,), r),
    ensures
        r == quotient::<A>(unit(), sum::<A>(unit(), exponential::<A>(z.negated()))),
{
}

/// A gate and its slope, in terms of the sigmoids `a` and `b` of its two sides. In
/// `Hard` mode gating is all or nothing, and its slope the same as in `Soft` mode.
pub proof fn law_gate_calls<A: Arith>(
    p: Single,
    cfg: Config,
    a: Single,
    b: Single,
    g: Single,
    dg: Single,
)
    requires
        deterministic::<A>(),
        call_ensures(
            sigmoid::<A>,
            (product::<A>(cfg.beta, difference::<A>(p, cfg.theta)),),
            a,
        ),
        call_ensures(
            sigmoid::<A>,
            (product::<A>(cfg.beta, difference::<A>(p.negated(), cfg.theta)),),
            b,
        ),
        call_ensures(gate::<A>, (p, &cfg), g),
        call_ensures(gate_grad::<A>, (p, &cfg), dg),
    ensures
        cfg.gate == GateMode::Soft ==> g == sum::<A>(a, b),
        cfg.gate == GateMode::Hard && less(cfg.theta, p.absolute()) ==> g == unit(),
        cfg.gate == GateMode::Hard && !less(cfg.theta, p.absolute()) ==> g == nought(),
        dg == difference::<A>(
            product::<A>(product::<A>(cfg.beta, a), difference::<A>(unit(), a)),
            product::<A>(product::<A>(cfg.beta, b), difference::<A>(unit(), b)),
        ),
{
    law_gate_slope_is_that_of_its_sides::<A>(p, cfg, a, b);
    if cfg.gate == GateMode::Hard {
        law_hard_threshold::<A>(p, cfg);
    }
}

/// A neuron's output is what gating lets through of the hyperbolic tangent, and its
/// slope is that of this product, with gating as in the output, in either mode.
pub proof fn law_activation_calls<A: Arith>(
    p: Single,
    cfg: Config,
    g: Single,
    dg: Single,
    y: Single,
    dy: Single,
)
    requires
        deterministic::<A>(),
        call_ensures(gate::<A>, (p, &cfg), g),
        call_ensures(gate_grad::<A>, (p, &cfg), dg),
        call_ensures(activate::<A>, (p, &cfg), y),
        call_ensures(activate_grad::<A>, (p, &cfg), dy),
    ensures
        ({
            let t = hyperbolic_tangent::<A>(p);
            &&& y == product::<A>(g, t)
            &&& dy == sum::<A>(
                product::<A>(dg, t),
                product::<A>(g, difference::<A>(unit(), product::<A>(t, t))),
            )
        }),
{
    law_slope_follows_the_product_rule::<A>(p, cfg, cfg);
}

/// Two configurations that let through alike at `p`, and differ in their mode alone,
/// give the same output and the same slope there.
pub proof fn law_activation_calls_in_both_modes<A: Arith>(
    p: Single,
    cfg: Config,
    other: Config,
    g: Single,
    y: Single,
    z: Single,
    dy: Single,
    dz: Single,
)
    requires
        deterministic::<A>(),
        other == (Config { gate: other.gate, ..cfg }),
        call_ensures(gate::<A>, (p, &cfg), g),
        call_ensures(gate::<A>, (p, &other), g),
        call_ensures(activate::<A>, (p, &cfg), y),
        call_ensures(activate::<A>, (p, &other), z),
        call_ensures(activate_grad::<A>, (p, &cfg), dy),
        call_ensures(activate_grad::<A>, (p, &other), dz),
    ensures
        y == z,
        dy == dz,
{
    law_slope_follows_the_product_rule::<A>(p, cfg, other);
}

/// Probabilities are shares of exponentials, and the loss is minus the logarithm of the
/// probability of the target, which is taken for 1e-30 where it is not at least that.
pub proof fn law_softmax_calls<A: Arith>(
    logits: &[Single],
    target: u32,
    r: (Vec<Single>, Single),
    at: int,
    i: int,
)
    requires
        deterministic::<A>(),
        target < logits@.len(),
        call_ensures(softmax_ce::<A>, (logits, target), r),
        0 <= at < logits@.len(),
        0 <= i < logits@.len(),
        !logits@[at].nan(),
        forall|k: int|
            0 <= k < logits@.len() ==> (#[trigger] logits@[k]).nan() || at_most(
                logits@[k],
                logits@[at],
            ),
        forall|k: int|
            0 <= k < at ==> (#[trigger] logits@[k]).nan() || less(logits@[k], logits@[at]),
    ensures
        r.0@.len() == logits@.len(),
        r.0@[i] == quotient::<A>(
            exponential::<A>(difference::<A>(logits@[i], logits@[at])),
            running_sum::<A>(
                nought(),
                logits@.len() as int,
                |k: int| exponential::<A>(difference::<A>(logits@[k], logits@[at])),
            ),
        ),
        ({
            let p = r.0@[target as int];
            let floor = Single { bits: 0x0da2_4260 };
            &&& at_most(floor, p) ==> r.1 == logarithm::<A>(p).negated()
            &&& !at_most(floor, p) ==> r.1 == logarithm::<A>(floor).negated()
        }),
{
    law_softmax_shares_exponentials::<A>(logits@, at, i);
    law_cost_is_the_logarithm::<A>(r.0@[target as int]);
}

// --- windows and their gradients --------------------------------------------

/// Running a window is stepping through it: at each step the state is that of one step
/// from the state before, which is the activation of what was recorded before it, and
/// the probabilities are those of its logits.
pub proof fn law_window_calls<A: Arith>(
    net: Network,
    seq: &[u32],
    init: &[Single],
    tape: Tape,
    t: int,
    prev: &[Single],
    step: (Vec<Single>, Vec<Single>),
    logits: &[Single],
    shares: (Vec<Single>, Single),
)
    requires
        deterministic::<A>(),
        0 <= t < net.cfg.window,
        call_ensures(Network::run_window::<A>, (&net, seq, init), tape),
        prev@ == if t == 0 {
            init@
        } else {
            tape.state@[t - 1]@
        },
        call_ensures(Network::step_once::<A>, (&net, seq@[t], prev), step),
        logits@ == step.1@,
        call_ensures(softmax_ce::<A>, (logits, seq@[t + 1]), shares),
    ensures
        tape.state@.len() == net.cfg.window,
        tape.pre@.len() == net.cfg.window,
        tape.probs@.len() == net.cfg.window,
        tape.state_init@ == init@,
        tape.state@[t]@ == step.0@,
        tape.probs@[t]@ == shares.0@,
        tape.inputs@[t] == seq@[t],
        tape.targets@[t] == seq@[t + 1],
        forall|j: int, y: Single|
            0 <= j < net.cfg.n && #[trigger] call_ensures(
                activate::<A>,
                (tape.pre@[t]@[j], &net.cfg),
                y,
            ) ==> tape.state@[t]@[j] == y,
{
    law_window_is_its_steps::<A>(net@, seq@, init@, t);
    let trace = net@.window_trace::<A>(seq@, init@);
    assert(tape@ == trace);
    assert(tape.state@.len() == trace.state.len());
    assert(tape.pre@.len() == trace.pre.len());
    assert(tape.probs@.len() == trace.probs.len());
    assert(tape@.state[t] == tape.state@[t]@);
    assert(tape@.probs[t] == tape.probs@[t]@);
    assert(tape@.pre[t] == tape.pre@[t]@);
    if t > 0 {
        assert(tape@.state[t - 1] == tape.state@[t - 1]@);
    }
}

/// The loss of a window is the mean of what its targets cost, `partial[t]` being the sum
/// before step `t`.
pub proof fn law_window_loss_calls<A: Arith>(
    net: Network,
    seq: &[u32],
    init: &[Single],
    tape: Tape,
    partial: Seq<Single>,
)
    requires
        deterministic::<A>(),
        0 < net.cfg.window,
        call_ensures(Network::run_window::<A>, (&net, seq, init), tape),
        partial.len() == net.cfg.window + 1,
        partial[0] == nought(),
        forall|t: int|
            0 < t <= net.cfg.window ==> #[trigger] partial[t] == sum::<A>(
                partial[t - 1],
                surprise::<A>(tape.probs@[t - 1]@[tape.targets@[t - 1] as int]),
            ),
    ensures
        tape.loss == quotient::<A>(partial.last(), counted::<A>(net.cfg.window as u64)),
{
    law_window_is_its_steps::<A>(net@, seq@, init@, 0);
    let trace = net@.window_trace::<A>(seq@, init@);
    let w = net.cfg.window as int;
    assert(tape@ == trace);
    assert(tape.probs@.len() == trace.probs.len());
    let cost = |t: int| surprise::<A>(tape.probs@[t]@[tape.targets@[t] as int]);
    assert forall|t: int| 0 < t <= w implies #[trigger] partial[t] == sum::<A>(
        partial[t - 1],
        cost(t - 1),
    ) by {}
    law_running_sum_adds_one_by_one::<A>(w, cost, partial);
    assert forall|s: int| 0 <= s < w implies #[trigger] cost(s) == surprise::<A>(
        trace.probs[s][trace.targets[s] as int],
    ) by {
        assert(tape@.probs[s] == tape.probs@[s]@);
    }
    lemma_running_sum_ext::<A>(
        nought(),
        w,
        cost,
        |s: int| surprise::<A>(trace.probs[s][trace.targets[s] as int]),
    );
}

/// The logits of a step are those of the state that it leaves.
pub proof fn law_step_calls<A: Arith>(
    net: Network,
    tok: u32,
    prev: &[Single],
    step: (Vec<Single>, Vec<Single>),
    state: &[Single],
    logits: Vec<Single>,
)
    requires
        deterministic::<A>(),
        call_ensures(Network::step_once::<A>, (&net, tok, prev), step),
        state@ == step.0@,
        call_ensures(Network::logits::<A>, (&net, state), logits),
    ensures
        logits@ == step.1@,
        step.0@ == net@.stepped::<A>(tok, prev@),
        logits@ == net@.logits::<A>(state@),
{
}

/// Gradients are those of the model, and go back through time: that of a pre-activation
/// is what its neuron is charged times the slope of its activation.
pub proof fn law_backward_calls<A: Arith>(
    net: Network,
    tape: Tape,
    grads: Grads,
    t: int,
    j: int,
    slope: Single,
)
    requires
        deterministic::<A>(),
        call_ensures(Network::backward::<A>, (&net, &tape), grads),
        0 <= t < net.cfg.window,
        0 <= j < net.cfg.n,
        call_ensures(activate_grad::<A>, (tape@.pre[t][j], &net.cfg), slope),
    ensures
        grads@ == net@.gradients::<A>(tape@),
        ({
            let m = j - (net.cfg.n - net.cfg.n_out);
            let future = next_charge::<A>(net@, grads@, t, j);
            &&& m < 0 ==> grads@.dpre[t][j] == product::<A>(future, slope)
            &&& 0 <= m ==> grads@.dpre[t][j] == product::<A>(
                sum::<A>(
                    future,
                    running_sum::<A>(
                        nought(),
                        net.vocab as int,
                        |c: int|
                            product::<A>(
                                net@.readout[m * net@.vocab + c],
                                net@.logit_grad::<A>(tape@, t, c),
                            ),
                    ),
                ),
                slope,
            )
        }),
{
    law_gradients_go_back_through_time::<A>(net@, tape@, grads@, t, j);
}

// --- the optimizer ----------------------------------------------------------

/// A step of the optimizer moves parameter `i` against its first moment, relative to
/// the root of its second, both corrected for the number of steps.
pub proof fn law_update_calls<A: Arith>(
    adam: Adam,
    p: &mut [Single],
    g: &[Single],
    mom: &mut Moment,
    i: int,
)
    requires
        deterministic::<A>(),
        old(p)@.len() <= old(mom).m@.len(),
        old(p)@.len() <= old(mom).v@.len(),
        call_ensures(Adam::update::<A>, (&adam, p, g, mom), ()),
        0 <= i < old(p)@.len(),
    ensures
        ({
            let m = final(mom).m@[i];
            let v = final(mom).v@[i];
            let first = quotient::<A>(
                m,
                difference::<A>(unit(), raised::<A>(adam.b1, adam.t as i32)),
            );
            let second = quotient::<A>(
                v,
                difference::<A>(unit(), raised::<A>(adam.b2, adam.t as i32)),
            );
            &&& m == sum::<A>(
                product::<A>(adam.b1, old(mom).m@[i]),
                product::<A>(difference::<A>(unit(), adam.b1), g@[i]),
            )
            &&& v == sum::<A>(
                product::<A>(adam.b2, old(mom).v@[i]),
                product::<A>(product::<A>(difference::<A>(unit(), adam.b2), g@[i]), g@[i]),
            )
            &&& final(p)@[i] == difference::<A>(
                old(p)@[i],
                quotient::<A>(
                    product::<A>(adam.lr, first),
                    sum::<A>(root::<A>(second), adam.eps),
                ),
            )
        }),
{
    law_adam_moves_each_parameter::<A>(
        adam,
        old(p)@,
        g@,
        old(mom)@,
        i,
        sum::<A>(
            product::<A>(adam.b1, old(mom).m@[i]),
            product::<A>(difference::<A>(unit(), adam.b1), g@[i]),
        ),
        sum::<A>(
            product::<A>(adam.b2, old(mom).v@[i]),
            product::<A>(product::<A>(difference::<A>(unit(), adam.b2), g@[i]), g@[i]),
        ),
    );
}

/// Clipping scales every array by the limit over the norm, where the norm is above the
/// limit, and returns the norm before.
pub proof fn law_clip_calls<A: Arith>(
    arrays: &mut [&mut [Single]],
    views: &[&[Single]],
    max_norm: Single,
    norm: Single,
    before: Single,
)
    requires
        deterministic::<A>(),
        slices_of(views@) == held_by(old(arrays)@),
        call_ensures(global_norm::<A>, (views,), before),
        call_ensures(clip_in_place::<A>, (arrays, max_norm), norm),
    ensures
        norm == before,
        norm == norm_of::<A>(held_by(old(arrays)@)),
        held_by(final(arrays)@) == clipped_arrays::<A>(held_by(old(arrays)@), max_norm),
{
}

/// An update takes the same step over each of the four arrays: that of the optimizer
/// one step on, with the gradients of that array, clipped together with the others.
pub proof fn law_apply_update_calls<A: Arith>(
    net: &mut Network,
    adam: &mut Adam,
    mom: &mut Moments,
    grads: Grads,
    cfg: Config,
)
    requires
        deterministic::<A>(),
        old(adam).t < u64::MAX,
        call_ensures(apply_update::<A>, (net, adam, mom, &grads, &cfg), ()),
    ensures
        ({
            let g = clipped_arrays::<A>(
                seq![grads.g_w@, grads.g_embed@, grads.g_readout@, grads.g_bias@],
                cfg.grad_clip,
            );
            let a = *final(adam);
            &&& a == (Adam { t: (old(adam).t + 1) as u64, ..*old(adam) })
            &&& final(net).topo.weights@ == a.stepped::<A>(
                old(net).topo.weights@,
                g[0],
                old(mom).w@,
            )
            &&& final(net).embed@ == a.stepped::<A>(old(net).embed@, g[1], old(mom).embed@)
            &&& final(net).readout@ == a.stepped::<A>(old(net).readout@, g[2], old(mom).readout@)
            &&& final(net).bias_out@ == a.stepped::<A>(old(net).bias_out@, g[3], old(mom).bias@)
            &&& final(mom).w@ == a.averaged::<A>(
                old(mom).w@,
                g[0],
                old(net).topo.weights@.len(),
            )
            &&& final(mom).embed@ == a.averaged::<A>(
                old(mom).embed@,
                g[1],
                old(net).embed@.len(),
            )
            &&& final(mom).readout@ == a.averaged::<A>(
                old(mom).readout@,
                g[2],
                old(net).readout@.len(),
            )
            &&& final(mom).bias@ == a.averaged::<A>(
                old(mom).bias@,
                g[3],
                old(net).bias_out@.len(),
            )
            &&& final(net).cfg == old(net).cfg
            &&& final(net).topo.row_ptr@ == old(net).topo.row_ptr@
            &&& final(net).topo.col_idx@ == old(net).topo.col_idx@
        }),
{
    let before = old(net)@;
    let after = final(net)@;
    assert(after.graph.weights == final(net).topo.weights@);
    assert(after.graph == (Csr { weights: after.graph.weights, ..before.graph }));
    assert(after.graph.row_ptr == final(net).topo.row_ptr@);
    assert(after.graph.col_idx == final(net).topo.col_idx@);
}

// --- rewiring ---------------------------------------------------------------

/// From the end of the decay on the fraction to rewire does not depend on the step.
pub proof fn law_late_churn_calls<A: Arith>(cfg: Config, a: u64, b: u64, x: Single, y: Single)
    requires
        deterministic::<A>(),
        counts_in_order::<A>(),
        1 <= a,
        1 <= b,
        cfg.rigl_decay_steps <= a,
        cfg.rigl_decay_steps <= b,
        call_ensures(churn_fraction::<A>, (&cfg, a), x),
        call_ensures(churn_fraction::<A>, (&cfg, b), y),
    ensures
        x == y,
{
    law_rate_is_constant_after_the_decay::<A>(cfg, a, b);
}

/// Rewiring carries out the best plans, on edges and moments alike, and returns the share
/// of edges that were grown. Where it fails nothing is changed.
pub proof fn law_rewiring_calls<A: Arith>(
    net: &mut Network,
    wmom: &mut Moment,
    tape: Tape,
    grads: Grads,
    opt_step: u64,
    r: Result<Single, NotANumber>,
)
    requires
        deterministic::<A>(),
        call_ensures(rigl_step::<A>, (net, wmom, &tape, &grads, opt_step), r),
    ensures
        r is Err ==> *final(net) == *old(net) && *final(wmom) == *old(wmom),
        r matches Ok(churn) ==> {
            let g = old(net)@.graph;
            let plans = old(net)@.best_plans::<A>(tape@, grads@, opt_step);
            &&& final(net)@ == (Model {
                graph: g.rewired(old(wmom)@, plans),
                ..old(net)@
            })
            &&& final(wmom)@ == g.rewired_moments(old(wmom)@, plans)
            &&& churn == quotient::<A>(
                counted::<A>(grown_in(plans, g.n) as u64),
                counted::<A>(g.edges() as u64),
            )
        },
        r is Ok <==> forall|i: int|
            0 <= i < old(net).cfg.n ==> #[trigger] old(net)@.has_order::<A>(
                tape@,
                grads@,
                opt_step,
                i,
            ),
{
}

// --- training ---------------------------------------------------------------

/// A step of training: what becomes of the run and what is reported are those of the
/// model of a run. It fails only where a rewiring that is due cannot rank.
pub proof fn law_training_calls<A: Arith>(
    trainer: &mut Trainer,
    windows: &[&[u32]],
    val_windows: &[&[u32]],
    step: usize,
    opts: TrainOpts,
    r: Result<Report, NotANumber>,
)
    requires
        deterministic::<A>(),
        call_ensures(Trainer::step::<A>, (trainer, windows, val_windows, step, &opts), r),
    ensures
        ({
            let run = old(trainer)@;
            let trace = run.forward::<A>(tokens_of(windows@), step);
            let learnt = run.learnt::<A>(trace);
            r is Ok <==> !rewires_after(run.model.cfg, step) || forall|i: int|
                0 <= i < run.model.cfg.n ==> #[trigger] learnt.model.has_order::<A>(
                    trace,
                    run.model.gradients::<A>(trace),
                    learnt.adam.t,
                    i,
                )
        }),
        r matches Ok(report) ==> {
            &&& final(trainer)@ == old(trainer)@.after::<A>(tokens_of(windows@), step, opts)
            &&& report == old(trainer)@.report::<A>(
                tokens_of(windows@),
                tokens_of(val_windows@),
                step,
                opts,
            )
        },
{
}

/// Windows past the cap have no effect on an evaluation.
pub proof fn law_evaluation_calls<A: Arith>(
    net: Network,
    windows: &[&[u32]],
    first: &[&[u32]],
    max_windows: usize,
    m: usize,
    x: Option<Single>,
    y: Option<Single>,
)
    requires
        deterministic::<A>(),
        0 < max_windows,
        m <= windows@.len(),
        m <= max_windows,
        m == windows@.len() || m == max_windows,
        first@ == windows@.take(m as int),
        call_ensures(eval_loss::<A>, (&net, windows, max_windows), x),
        call_ensures(eval_loss::<A>, (&net, first, m), y),
    ensures
        x == y,
        x is None <==> windows@.len() == 0,
        x == net@.mean_loss::<A>(tokens_of(windows@), max_windows),
{
    law_evaluation_is_capped::<A>(net@, tokens_of(windows@), max_windows);
    assert(tokens_of(first@) =~= tokens_of(windows@).take(m as int));
}

/// Tokens before the cut are sliced into windows for training, those after it for
/// validation.
pub proof fn law_split_calls<A: Arith>(
    tokens: &[u32],
    before: &[u32],
    after: &[u32],
    val_frac: Single,
    cut: usize,
    size: usize,
    r: (Vec<&[u32]>, Vec<&[u32]>),
    x: Vec<&[u32]>,
    y: Vec<&[u32]>,
)
    requires
        deterministic::<A>(),
        call_ensures(cut_point::<A>, (tokens.len(), val_frac), cut),
        cut <= tokens@.len(),
        before@ == tokens@.take(cut as int),
        after@ == tokens@.skip(cut as int),
        call_ensures(split_windows, (tokens, cut, size), r),
        call_ensures(overlapping, (before, size), x),
        call_ensures(overlapping, (after, size), y),
    ensures
        cut == training_cut::<A>(tokens@.len() as u64, val_frac),
        tokens_of(r.0@) == tokens_of(x@),
        tokens_of(r.1@) == tokens_of(y@),
        tokens_of(x@) == windows_in(before@, size as int),
{
}

// --- generation -------------------------------------------------------------

/// Sampling at a temperature is sampling at temperature one from logits divided by it:
/// generators in the same state give the same token and end in the same state.
pub proof fn law_sampling_calls<A: Arith>(
    logits: &[Single],
    tempered: &[Single],
    temperature: Single,
    a: &mut StdRng,
    b: &mut StdRng,
    x: u32,
    y: u32,
)
    requires
        deterministic::<A>(),
        !at_most(temperature, Single { bits: 0x3586_37bd }),
        tempered@.len() == logits@.len(),
        forall|i: int|
            0 <= i < logits@.len() ==> #[trigger] tempered@[i] == quotient::<A>(
                logits@[i],
                temperature,
            ),
        forall|i: int|
            0 <= i < logits@.len() ==> quotient::<A>(#[trigger] tempered@[i], unit())
                == tempered@[i],
        generator_state(*old(a)) == generator_state(*old(b)),
        call_ensures(sample::<A>, (logits, temperature, a), x),
        call_ensures(sample::<A>, (tempered, unit(), b), y),
    ensures
        x == y,
        generator_state(*final(a)) == generator_state(*final(b)),
        (x, generator_state(*final(a))) == sampled::<A>(
            logits@,
            temperature,
            generator_state(*old(a)),
        ),
{
    law_temperature_one_samples_the_divided_logits::<A>(
        logits@,
        temperature,
        tempered@,
        generator_state(*old(a)),
    );
}

/// Generation: the prompt stays; what follows does not depend on those of its characters
/// that are no tokens; and greedy text does not depend on the seed.
pub proof fn law_generation_calls<A: Arith>(
    net: Network,
    chars: &[char],
    x: GenOpts,
    y: GenOpts,
    out: String,
    other: String,
)
    requires
        deterministic::<A>(),
        x.temperature == y.temperature,
        x.length == y.length,
        x.seed == y.seed || is_greedy(x.temperature),
        y.prompt@ == x.prompt@ || y.prompt@ == known_chars(
            chars@,
            x.prompt@,
            x.prompt@.len() as int,
        ),
        call_ensures(generate::<A>, (&net, chars, &x), out),
        call_ensures(generate::<A>, (&net, chars, &y), other),
    ensures
        out@.len() == x.prompt@.len() + x.length,
        out@.take(x.prompt@.len() as int) == x.prompt@,
        out@.skip(x.prompt@.len() as int) == other@.skip(y.prompt@.len() as int),
        out@ == net@.sampling::<A>(
            chars@,
            x.prompt@,
            x.temperature,
            x.seed,
            x.length as int,
        ).0,
{
    let k = x.length as int;
    if x.seed != y.seed {
        law_greedy_text_ignores_the_seed::<A>(
            net@,
            chars@,
            y.prompt@,
            x.temperature,
            x.seed,
            y.seed,
            k,
        );
    }
    law_unknown_characters_are_passed_over::<A>(
        net@,
        chars@,
        x.prompt@,
        x.temperature,
        x.seed,
        k,
    );
}

// --- new networks -----------------------------------------------------------

/// A new network is drawn from its seed: the same configuration gives the same network.
pub proof fn law_new_network_calls<A: Arith>(cfg: Config, vocab: usize, a: Network, b: Network)
    requires
        deterministic::<A>(),
        call_ensures(Network::new::<A>, (cfg, vocab), a),
        call_ensures(Network::new::<A>, (cfg, vocab), b),
    ensures
        a@ == b@,
        a@ == initial_model::<A>(cfg, vocab),
        a@.graph == initial_graph::<A>(cfg, seeded_state(cfg.seed)).0,
{
}

/// A new graph, the estimate of its radius and its rescaling are those of its model; a
/// draw is that of the generator's state.
pub proof fn law_graph_calls<A: Arith>(
    cfg: Config,
    rng: &mut StdRng,
    topo: Topology,
    g: &mut Topology,
    target: Single,
    iters: usize,
    other: &mut StdRng,
    rho: Single,
    third: &mut StdRng,
    x: Single,
)
    requires
        deterministic::<A>(),
        call_ensures(Topology::init_random::<A>, (&cfg, rng), topo),
        call_ensures(Topology::rescale_spectral_radius::<A>, (g, target), ()),
        call_ensures(Topology::spectral_radius::<A>, (&topo, iters, other), rho),
        call_ensures(gaussian::<A>, (third,), x),
    ensures
        (topo@, generator_state(*final(rng))) == initial_graph::<A>(
            cfg,
            generator_state(*old(rng)),
        ),
        final(g)@ == old(g)@.rescaled::<A>(target),
        (rho, generator_state(*final(other))) == topo@.radius_estimate::<A>(
            iters as int,
            generator_state(*old(other)),
        ),
        (x, generator_state(*final(third))) == gaussian_draw::<A>(generator_state(*old(third))),
{
}

// --- texts and checkpoints --------------------------------------------------

/// A corpus decodes what it encodes: of a text of its characters all, and of its own text
/// its tokens.
pub proof fn law_corpus_calls<A: Arith>(
    text: &str,
    corpus: Corpus,
    other: &str,
    ids: Vec<u32>,
    slice: &[u32],
    back: String,
    h: Single,
)
    requires
        deterministic::<A>(),
        call_ensures(Corpus::from_text, (text,), corpus),
        forall|k: int| 0 <= k < other@.len() ==> text@.contains(#[trigger] other@[k]),
        call_ensures(Corpus::encode, (&corpus, other), ids),
        slice@ == ids@,
        call_ensures(Corpus::decode, (&corpus, slice), back),
        call_ensures(Corpus::unigram_cross_entropy::<A>, (&corpus,), h),
    ensures
        is_vocabulary_of(corpus.id_to_char@, text@),
        back@ == other@,
        other@ == text@ ==> ids@ == corpus.tokens@,
        corpus.tokens@.len() == text@.len(),
        forall|k: int|
            0 <= k < text@.len() ==> corpus.id_to_char@[(#[trigger] corpus.tokens@[k]) as int]
                == text@[k],
        h == narrowed::<A>(
            entropy::<A>(corpus.tokens@, corpus.id_to_char@.len() as int),
        ),
{
    let vocab = corpus.id_to_char@;
    assert forall|k: int| 0 <= k < other@.len() implies vocab.contains(#[trigger] other@[k]) by {
        assert(text@.contains(other@[k]));
    }
    law_decode_undoes_encode(vocab, other@);
    assert forall|k: int| 0 <= k < text@.len() implies vocab.contains(#[trigger] text@[k]) by {
        assert(text@.contains(text@[k]));
    }
    law_tokens_follow_the_text(vocab, text@);
    law_decode_undoes_encode(vocab, text@);
    assert forall|k: int| 0 <= k < text@.len() implies vocab[(#[trigger] corpus.tokens@[k]) as int]
        == text@[k] by {
        assert(decoded(vocab, encoded(vocab, text@))[k] == text@[k]);
    }
}

/// What is saved is loaded again.
pub proof fn law_checkpoint_calls(
    net: Network,
    chars: &[char],
    bytes: Vec<u8>,
    slice: &[u8],
    r: Result<(Network, Vec<char>), LoadError>,
)
    requires
        is_savable(net@, chars@),
        call_ensures(save, (&net, chars), bytes),
        slice@ == bytes@,
        call_ensures(load, (slice,), r),
    ensures
        bytes@ == saved(net@, chars@),
        r matches Ok((other, names)) && other@ == net@ && names@ == chars@,
{
    law_load_undoes_save(net@, chars@, Seq::empty());
}

// --- the dense network ------------------------------------------------------

/// What comes out of a forward pass is the last that is cached, and the input the first.
/// In between, each neuron gives the sigmoid of its weighted sum. At the last layer
/// the gradient is output minus target, number by number.
pub proof fn law_mlp_calls<A: Arith, L: Algebra>(
    mlp: Mlp,
    x: Vec<Single>,
    target: Vec<Single>,
    y: Vec<Single>,
    cache: Vec<Vec<Single>>,
    grads: (Vec<Matrix>, Vec<Vec<Single>>),
    i: int,
)
    requires
        deterministic::<A>(),
        is_function::<L>(),
        mlp@.wf(),
        mlp@.takes(x@),
        0 < mlp@.depth(),
        call_ensures(Mlp::forward::<A, L>, (&mlp, x), y),
        call_ensures(Mlp::forward_with_cache::<A, L>, (&mlp, x), cache),
        call_ensures(Mlp::backpropagate::<A, L>, (&mlp, x, target), grads),
        0 <= i < y@.len(),
    ensures
        cache@.len() == mlp@.depth() + 1,
        cache@[0]@ == x@,
        cache@.last()@ == y@,
        target@.len() == y@.len() ==> grads.1@.last()@.len() == y@.len() && grads.1@.last()@[i]
            == difference::<A>(y@[i], target@[i]),
        target@.len() == 1 ==> grads.1@.last()@[i] == difference::<A>(y@[i], target@[0]),
{
    let depth = mlp@.depth();
    law_last_gradient_is_output_minus_target::<A, L>(mlp@, x@, target@, i);
    let last = mlp@.weights[depth - 1];
    if 0 < last.cols {
        law_layers_follow_one_another::<A, L>(mlp@, x@, depth - 1, 0);
    }
    assert(cache@[0]@ == mlp@.activated::<A, L>(x@, 0));
    assert(cache@[depth]@ == mlp@.activated::<A, L>(x@, depth));
    let slopes = mlp@.slopes::<A, L>(x@, target@);
    assert(rows_of(grads.1@) == slopes.biases);
    assert(grads.1@.len() == slopes.biases.len());
    assert(rows_of(grads.1@)[depth - 1] == grads.1@[depth - 1]@);
}

/// Training on an example takes from every weight and bias its gradient times the rate.
pub proof fn law_mlp_training_calls<A: Arith, L: Algebra>(
    mlp: &mut Mlp,
    x: Vec<Single>,
    target: Vec<Single>,
    lr: Single,
    grads: (Vec<Matrix>, Vec<Vec<Single>>),
    l: int,
    c: int,
)
    requires
        deterministic::<A>(),
        is_function::<L>(),
        old(mlp)@.wf(),
        call_ensures(Mlp::backpropagate::<A, L>, (&*old(mlp), x, target), grads),
        call_ensures(Mlp::train::<A, L>, (mlp, x, target, lr), ()),
        0 <= l < old(mlp)@.depth(),
    ensures
        0 <= c < old(mlp)@.weights[l].cells.len() ==> final(mlp)@.weights[l].cells[c]
            == difference::<A>(
            old(mlp)@.weights[l].cells[c],
            product::<A>(grads.0@[l].cells@[c], lr),
        ),
        0 <= c < old(mlp)@.biases[l].len() ==> final(mlp)@.biases[l][c] == difference::<A>(
            old(mlp)@.biases[l][c],
            product::<A>(grads.1@[l]@[c], lr),
        ),
{
    let slopes = old(mlp)@.slopes::<A, L>(x@, target@);
    law_training_descends::<A>(old(mlp)@, slopes, lr, l, c);
    assert(grids_of(grads.0@) == slopes.weights);
    assert(rows_of(grads.1@) == slopes.biases);
    assert(grads.0@.len() == slopes.weights.len());
    assert(grads.1@.len() == slopes.biases.len());
    assert(grids_of(grads.0@)[l] == grads.0@[l]@);
    assert(rows_of(grads.1@)[l] == grads.1@[l]@);
}

// --- words, graphs and set-ups ----------------------------------------------

/// Words are read as they are written, the lowest byte first, one behind the other: a
/// word at `at`, a number behind it, and a double word behind that.
pub proof fn law_word_calls(
    b: &mut Vec<u8>,
    v: u32,
    c: &mut Vec<u8>,
    x: Single,
    d: &mut Vec<u8>,
    w: u64,
)
    requires
        call_ensures(put_u32, (b, v), ()),
        call_ensures(put_f32, (c, x), ()),
        call_ensures(put_u64, (d, w), ()),
    ensures
        ({
            let n = old(b)@.len() as int;
            let after = final(b)@;
            &&& after.len() == n + 4
            &&& after.take(n) == old(b)@
            &&& v == after[n] + 0x100 * after[n + 1] + 0x1_0000 * after[n + 2] + 0x100_0000
                * after[n + 3]
        }),
        ({
            let n = old(c)@.len() as int;
            let after = final(c)@;
            &&& after.len() == n + 4
            &&& after.take(n) == old(c)@
            &&& x.bits == after[n] + 0x100 * after[n + 1] + 0x1_0000 * after[n + 2] + 0x100_0000
                * after[n + 3]
        }),
        ({
            let n = old(d)@.len() as int;
            let after = final(d)@;
            &&& after.len() == n + 8
            &&& after.take(n) == old(d)@
            &&& w % 0x1_0000_0000 == after[n] + 0x100 * after[n + 1] + 0x1_0000 * after[n + 2]
                + 0x100_0000 * after[n + 3]
            &&& w / 0x1_0000_0000 == after[n + 4] + 0x100 * after[n + 5] + 0x1_0000 * after[n + 6]
                + 0x100_0000 * after[n + 7]
        }),
{
    law_bytes_come_lowest_first(v, w);
    law_bytes_come_lowest_first(x.bits, w);
    law_bytes_come_lowest_first((w % 0x1_0000_0000) as u32, w);
    law_bytes_come_lowest_first((w / 0x1_0000_0000) as u32, w);
    assert(final(b)@.take(old(b)@.len() as int) =~= old(b)@);
    assert(final(c)@.take(old(c)@.len() as int) =~= old(c)@);
    assert(final(d)@.take(old(d)@.len() as int) =~= old(d)@);
    let all = le_u64(w);
    let low = all.take(4);
    let high = all.skip(4);
    assert(low[0] == all[0] && low[1] == all[1] && low[2] == all[2] && low[3] == all[3]);
    assert(high[0] == all[4] && high[1] == all[5] && high[2] == all[6] && high[3] == all[7]);
}

/// A reader gives the words at its place and moves behind them.
pub proof fn law_reader_calls<'a>(
    r: &mut Reader<'a>,
    v: u32,
    s: &mut Reader<'a>,
    w: u64,
    q: &mut Reader<'a>,
    x: Single,
)
    requires
        call_ensures(Reader::<'a>::u32, (r,), v),
        call_ensures(Reader::<'a>::u64, (s,), w),
        call_ensures(Reader::<'a>::single, (q,), x),
    ensures
        ({
            let b = old(r).buf@;
            let at = old(r).pos as int;
            &&& final(r).pos == at + 4
            &&& final(r).buf == old(r).buf
            &&& v == b[at] + 0x100 * b[at + 1] + 0x1_0000 * b[at + 2] + 0x100_0000 * b[at + 3]
        }),
        ({
            let b = old(s).buf@;
            let at = old(s).pos as int;
            &&& final(s).pos == at + 8
            &&& final(s).buf == old(s).buf
            &&& w % 0x1_0000_0000 == b[at] + 0x100 * b[at + 1] + 0x1_0000 * b[at + 2] + 0x100_0000
                * b[at + 3]
            &&& w / 0x1_0000_0000 == b[at + 4] + 0x100 * b[at + 5] + 0x1_0000 * b[at + 6]
                + 0x100_0000 * b[at + 7]
        }),
        ({
            let b = old(q).buf@;
            let at = old(q).pos as int;
            &&& final(q).pos == at + 4
            &&& final(q).buf == old(q).buf
            &&& x.bits == b[at] + 0x100 * b[at + 1] + 0x1_0000 * b[at + 2] + 0x100_0000 * b[at
                + 3]
        }),
{
}

/// A topology holds the arrays that it was made from, and knows where the edges of a
/// neuron stand.
pub proof fn law_topology_calls(
    n: usize,
    row_ptr: Vec<u32>,
    col_idx: Vec<u32>,
    weights: Vec<Single>,
    topo: Topology,
    i: usize,
    edges: usize,
    range: core::ops::Range<usize>,
    arrivals: core::ops::Range<usize>,
    k: int,
)
    requires
        is_csr(n as nat, row_ptr@, col_idx@),
        col_idx@.len() <= u32::MAX,
        weights@.len() == col_idx@.len(),
        call_ensures(Topology::from_csr, (n, row_ptr, col_idx, weights), topo),
        call_ensures(Topology::num_edges, (&topo,), edges),
        i < n,
        call_ensures(Topology::out_range, (&topo, i), range),
        call_ensures(Topology::in_range, (&topo, i), arrivals),
        arrivals.start <= k < arrivals.end,
    ensures
        topo.n == n,
        topo.row_ptr@ == row_ptr@,
        topo.col_idx@ == col_idx@,
        topo.weights@ == weights@,
        edges == col_idx@.len(),
        range.start == row_ptr@[i as int],
        range.end == row_ptr@[i + 1],
        topo.in_edge@[k] < col_idx@.len(),
        col_idx@[topo.in_edge@[k] as int] == i,
        forall|e: int|
            0 <= e < edges ==> #[trigger] topo.edge_src@[e] == topo@.source(e),
{
    let j = i as int;
    assert(lists_in_edges(topo.in_row_ptr@, topo.in_edge@, topo.col_idx@, j));
    let into = edges_into(topo.col_idx@, j, topo.col_idx@.len() as int);
    lemma_edges_into(topo.col_idx@, j, topo.col_idx@.len() as int);
    let at = k - arrivals.start;
    let slice = topo.in_edge@.subrange(arrivals.start as int, arrivals.end as int);
    assert(slice == into);
    assert(slice[at] == topo.in_edge@[k]);
    assert(into.contains(into[at]));
}

/// A run can be set up exactly if there are inputs and outputs, the sizes can be counted,
/// the cut lies in the text, and there is a window before it; and then it starts
/// afresh.
pub proof fn law_setup_calls<'a, A: Arith>(
    cfg: Config,
    vocab: usize,
    tokens: &'a [u32],
    val_frac: Single,
    r: Result<(Trainer, Vec<&'a [u32]>, Vec<&'a [u32]>), SetupError>,
    cut: usize,
    degree: int,
)
    requires
        deterministic::<A>(),
        call_ensures(Trainer::prepare::<A>, (cfg, vocab, tokens, val_frac), r),
        call_ensures(cut_point::<A>, (tokens.len(), val_frac), cut),
        degree <= cfg.k && degree <= cfg.n - 1,
        degree == cfg.k || degree == cfg.n - 1,
    ensures
        ({
            let fits = 1 <= cfg.n <= u32::MAX && cfg.n < usize::MAX && cfg.n * degree <= u32::MAX
                && vocab * cfg.n_in <= usize::MAX && cfg.n_out * vocab <= usize::MAX && cfg.window
                < usize::MAX;
            let windows = windows_in(tokens@.take(cut as int), cfg.window + 1);
            match r {
                Err(SetupError::NoInputsOrOutputs) => cfg.n_in == 0 || cfg.n_out == 0,
                Err(SetupError::SizesOutOfRange) => cfg.n_in > 0 && cfg.n_out > 0 && !fits,
                Err(SetupError::CutBeyondCorpus) => cfg.n_in > 0 && cfg.n_out > 0 && fits && cut
                    > tokens@.len(),
                Err(SetupError::CorpusTooSmall) => cfg.n_in > 0 && cfg.n_out > 0 && fits && cut
                    <= tokens@.len() && windows.len() == 0,
                Ok((trainer, train, val)) => {
                    &&& cfg.n_in > 0 && cfg.n_out > 0 && fits && cut <= tokens@.len()
                    &&& windows.len() > 0
                    &&& trainer@ == Run::starting::<A>(cfg, vocab)
                    &&& tokens_of(train@) == windows
                    &&& tokens_of(val@) == windows_in(
                        tokens@.skip(cut as int),
                        cfg.window + 1,
                    )
                },
            }
        }),
{
    assert(cfg.n >= 1 ==> initial_degree(cfg) == degree);
}

/// Numbers compare and change sign as their bit patterns say, of which NaNs are ordered
/// with nothing.
pub proof fn law_number_calls(x: Single, y: Single, lt: bool, le: bool, neg: Single, abs: Single)
    requires
        call_ensures(Single::lt, (x, y), lt),
        call_ensures(Single::le, (x, y), le),
        call_ensures(Single::neg, (x,), neg),
        call_ensures(Single::abs, (x,), abs),
    ensures
        lt ==> le,
        x.nan() || y.nan() ==> !lt && !le,
        !x.nan() && !y.nan() && x.bits < 0x8000_0000 && y.bits < 0x8000_0000 ==> lt == (x.bits
            < y.bits) && le == (x.bits <= y.bits),
        !x.nan() && !y.nan() && x.bits >= 0x8000_0000 && y.bits >= 0x8000_0000 ==> lt == (x.bits
            > y.bits) && le == (x.bits >= y.bits),
        neg.bits as int == (x.bits + 0x8000_0000) % 0x1_0000_0000,
        abs.bits as int == x.bits as int % 0x8000_0000,
{
}

} // verus!
