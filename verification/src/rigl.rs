//! RigL-style dynamic sparse training.
//!
//! Every `rigl_interval` optimizer steps, for each neuron the out-edges with the
//! smallest weight magnitude are pruned, and as many new edges are grown toward
//! the candidate targets whose (currently nonexistent) connection has the largest
//! gradient magnitude. Total edge count is held constant; new edges start at
//! weight 0 and inherit zeroed Adam moments. How many edges are rewired
//! cosine-decays to 0 over training.
use rand::rngs::StdRng;
use std::collections::HashSet;
use vstd::prelude::*;

use crate::arith::{
    cosine, count_in, counted, deterministic, law_running_sum_passes_over_terms, product, quotient,
    rounded, running_sum_where, sum, Arith,
};
use crate::backprop::{Grads, Slopes};
use crate::config::Config;
use crate::graph::{are_distinct_others, is_csr, row_fits, Csr, Topology};
use crate::network::{Model, Network, Tape, Trace};
use crate::optim::{Averages, Moment};
use crate::random::{draw_below, drawn_below, generator_state, seeded, seeded_state};
use crate::ranking::{is_ranking, law_ranking_is_stable_sort, outranks, ranking, ranking_of};
use crate::scalar::{
    bits_of, less, minimum, nought, unit, Single, HALF_BITS, INFINITY_BITS, ONE_BITS, PI_BITS,
    SIGN_BIT,
};

verus! {

broadcast use vstd::std_specs::hash::group_hash_axioms;

/// A weight or a score that had to be ranked is not a number.
#[derive(Clone, Copy, Debug, PartialEq, Eq, Structural)]
pub struct NotANumber;

/// Mixed into the seed of the generator that draws candidates.
pub const RIGL_SALT: u64 = 0x5164_1234;

/// `rigl_fraction * 0.5 * (1 + cos(pi * min(opt_step / rigl_decay_steps, 1)))`.
pub open spec fn churn_rate<A: Arith>(cfg: Config, opt_step: u64) -> Single {
    let steps = if cfg.rigl_decay_steps < 1 {
        1
    } else {
        cfg.rigl_decay_steps
    };
    let frac = minimum(
        quotient::<A>(counted::<A>(opt_step), counted::<A>(steps as u64)),
        unit(),
    );
    product::<A>(
        product::<A>(cfg.rigl_fraction, Single { bits: HALF_BITS }),
        sum::<A>(unit(), cosine::<A>(product::<A>(Single { bits: PI_BITS }, frac))),
    )
}

/// Fraction of edges to rewire at `opt_step`, cosine-decayed from
/// `cfg.rigl_fraction` to 0 over `cfg.rigl_decay_steps`.
pub fn churn_fraction<A: Arith>(cfg: &Config, opt_step: u64) -> (r: Single)
    ensures
        deterministic::<A>() ==> r == churn_rate::<A>(*cfg, opt_step),
{
    let steps: usize = if cfg.rigl_decay_steps < 1 {
        1
    } else {
        cfg.rigl_decay_steps
    };
    let frac = A::over(A::of_count(opt_step), A::of_count(steps as u64)).smaller(
        Single { bits: ONE_BITS },
    );
    A::times(
        A::times(cfg.rigl_fraction, Single { bits: HALF_BITS }),
        A::plus(
            Single { bits: ONE_BITS },
            A::cos(A::times(Single { bits: PI_BITS }, frac)),
        ),
    )
}

/// An edge of some neuron, with its Adam moments.
#[derive(Clone, Copy, Debug, PartialEq, Eq, Structural)]
pub struct Edge {
    pub target: u32,
    pub weight: Single,
    pub m: Single,
    pub v: Single,
}

/// An edge just grown: weight and moments are zero.
pub open spec fn new_edge(target: u32) -> Edge {
    Edge { target, weight: nought(), m: nought(), v: nought() }
}

/// What is to become of a neuron's out-edges: `churn` of them are pruned, and
/// edges to the neurons in `grown` take the place of the least of these.
#[verifier::ext_equal]
pub struct Plan {
    pub churn: int,
    pub grown: Seq<u32>,
}

impl Csr {
    /// Neuron `i` has an edge to `j`, or is `j`.
    pub open spec fn connected(self, i: int, j: u32) -> bool {
        self.targets(i).contains(j) || j == i
    }

    /// The neurons that `count` edges from `start` on end in.
    pub open spec fn first_targets(self, start: int, count: int) -> Seq<u32> {
        Seq::new(count as nat, |k: int| self.col_idx[start + k])
    }

    /// The out-degrees of the first `rows` neurons, added up.
    pub open spec fn degree_sum(self, rows: int) -> int
        decreases rows,
    {
        if rows <= 0 {
            0
        } else {
            self.degree_sum(rows - 1) + self.degree(rows - 1)
        }
    }

    /// The magnitudes by which the out-edges of neuron `i` are ranked.
    pub open spec fn weight_keys(self, i: int) -> Seq<u32> {
        Seq::new(
            self.degree(i) as nat,
            |k: int| self.weights[self.row_start(i) + k].mag() as u32,
        )
    }

    /// The out-edge of neuron `i` of rank `k`, the largest magnitude first.
    pub open spec fn ranked_edge(self, i: int, k: int) -> int {
        self.row_start(i) + ranking(self.weight_keys(i), self.degree(i))[k]
    }

    /// Edge `e` with its weight and moments.
    pub open spec fn kept_edge(self, mom: Averages, e: int) -> Edge {
        Edge {
            target: self.col_idx[e],
            weight: self.weights[e],
            m: mom.m[e],
            v: mom.v[e],
        }
    }

    /// The plan prunes no more edges than neuron `i` has and grows no more than it
    /// prunes; what it grows are edges to different neurons, none of them
    /// connected yet.
    pub open spec fn is_plan(self, i: int, plan: Plan) -> bool {
        &&& 0 <= plan.churn <= self.degree(i)
        &&& plan.grown.len() <= plan.churn
        &&& forall|c: int|
            0 <= c < plan.grown.len() ==> #[trigger] plan.grown[c] < self.n && !self.connected(
                i,
                plan.grown[c],
            )
        &&& forall|b: int, c: int|
            0 <= b < plan.grown.len() && 0 <= c < plan.grown.len() && b != c ==> plan.grown[b]
                != plan.grown[c]
    }

    /// A plan for each neuron.
    pub open spec fn are_plans(self, plans: Seq<Plan>) -> bool {
        &&& plans.len() == self.n
        &&& forall|i: int| 0 <= i < self.n ==> self.is_plan(i, #[trigger] plans[i])
    }

    /// The out-edges of neuron `i` as `plan` has them: the survivors, by
    /// descending magnitude; the grown edges; and the largest of the pruned
    /// edges, where fewer were grown than pruned.
    pub open spec fn rewired_row(self, mom: Averages, i: int, plan: Plan) -> Seq<Edge> {
        let keep = self.degree(i) - plan.churn;
        Seq::new(
            self.degree(i) as nat,
            |k: int|
                if k < keep {
                    self.kept_edge(mom, self.ranked_edge(i, k))
                } else if k < keep + plan.grown.len() {
                    new_edge(plan.grown[k - keep])
                } else {
                    self.kept_edge(mom, self.ranked_edge(i, k - plan.grown.len()))
                },
        )
    }

    /// The out-edges of the first `rows` neurons as `plans` have them.
    pub open spec fn rewired_rows(self, mom: Averages, plans: Seq<Plan>, rows: int) -> Seq<Edge>
        decreases rows,
    {
        if rows <= 0 {
            Seq::empty()
        } else {
            self.rewired_rows(mom, plans, rows - 1) + self.rewired_row(
                mom,
                rows - 1,
                plans[rows - 1],
            )
        }
    }

    /// The graph as `plans` have it.
    pub open spec fn rewired(self, mom: Averages, plans: Seq<Plan>) -> Csr {
        let edges = self.rewired_rows(mom, plans, self.n);
        Csr {
            n: self.n,
            row_ptr: Seq::new((self.n + 1) as nat, |i: int| self.degree_sum(i) as u32),
            col_idx: Seq::new(edges.len(), |e: int| edges[e].target),
            weights: Seq::new(edges.len(), |e: int| edges[e].weight),
        }
    }

    /// The moments as `plans` have them.
    pub open spec fn rewired_moments(self, mom: Averages, plans: Seq<Plan>) -> Averages {
        let edges = self.rewired_rows(mom, plans, self.n);
        Averages {
            m: Seq::new(edges.len(), |e: int| edges[e].m),
            v: Seq::new(edges.len(), |e: int| edges[e].v),
        }
    }

    /// The weights of neuron `i` can be ranked: none is a NaN, or there is none
    /// to compare it to.
    pub open spec fn has_ordered_weights(self, i: int) -> bool {
        self.degree(i) < 2 || forall|k: int|
            0 <= k < self.degree(i) ==> !(#[trigger] self.weights[self.row_start(i) + k]).nan()
    }

    /// Those of the first `c` draws, in order, that are neurons which `i` is not
    /// connected to and that were not drawn before.
    pub open spec fn fresh(self, i: int, draws: Seq<u32>, c: int) -> Seq<u32>
        decreases c,
    {
        if c <= 0 {
            Seq::empty()
        } else {
            let before = self.fresh(i, draws, c - 1);
            let j = draws[c - 1];
            if j >= self.n || self.connected(i, j) || before.contains(j) {
                before
            } else {
                before.push(j)
            }
        }
    }
}

/// `count` numbers below `bound` that a generator in `state` draws one after the
/// other, and its state afterwards.
pub open spec fn draws_below(state: Seq<u32>, bound: u32, count: int) -> (Seq<u32>, Seq<u32>)
    decreases count,
{
    if count <= 0 {
        (Seq::empty(), state)
    } else {
        let (drawn, next) = draws_below(state, bound, count - 1);
        let (j, after) = drawn_below(next, bound);
        (drawn.push(j), after)
    }
}

impl Model {
    /// The state of the generator before the candidates of neuron `i` are drawn.
    pub open spec fn candidate_state(self, opt_step: u64, i: int) -> Seq<u32>
        decreases i,
    {
        if i <= 0 {
            seeded_state(self.cfg.seed ^ RIGL_SALT ^ opt_step)
        } else {
            draws_below(
                self.candidate_state(opt_step, i - 1),
                self.cfg.n as u32,
                self.cfg.rigl_candidates as int,
            ).1
        }
    }

    /// The candidate targets of neuron `i`.
    pub open spec fn candidates(self, opt_step: u64, i: int) -> Seq<u32> {
        let draws = draws_below(
            self.candidate_state(opt_step, i),
            self.cfg.n as u32,
            self.cfg.rigl_candidates as int,
        ).0;
        self.graph.fresh(i, draws, draws.len() as int)
    }

    /// The magnitude of the gradient that an edge from `i` to `j` would have.
    pub open spec fn score<A: Arith>(self, trace: Trace, slopes: Slopes, i: int, j: u32) -> Single {
        running_sum_where::<A>(
            nought(),
            self.cfg.window as int,
            |t: int| !trace.state_before(t)[i].zero(),
            |t: int| product::<A>(trace.state_before(t)[i], slopes.dpre[t][j as int]),
        ).absolute()
    }

    /// The scores of the candidates `cand` of neuron `i`.
    pub open spec fn scores<A: Arith>(
        self,
        trace: Trace,
        slopes: Slopes,
        i: int,
        cand: Seq<u32>,
    ) -> Seq<Single> {
        Seq::new(cand.len(), |c: int| self.score::<A>(trace, slopes, i, cand[c]))
    }

    /// How many out-edges of neuron `i` are to be rewired, of the fraction `frac`:
    /// `min(round(frac * degree), degree)`.
    pub open spec fn churn_count<A: Arith>(self, frac: Single, i: int) -> int {
        let deg = self.graph.degree(i);
        let count = count_in::<A>(
            rounded::<A>(product::<A>(frac, counted::<A>(deg as u64))),
        );
        if count < deg {
            count as int
        } else {
            deg
        }
    }

    /// The plan for neuron `i`, of the fraction `frac`: edges are grown to those of
    /// the candidates `cand` that have the highest scores.
    pub open spec fn plan_for<A: Arith>(
        self,
        trace: Trace,
        slopes: Slopes,
        i: int,
        frac: Single,
        cand: Seq<u32>,
    ) -> Plan {
        let order = ranking(
            bits_of(self.scores::<A>(trace, slopes, i, cand)),
            cand.len() as int,
        );
        let churn = self.churn_count::<A>(frac, i);
        Plan {
            churn,
            grown: Seq::new(
                if churn < cand.len() {
                    churn as nat
                } else {
                    cand.len()
                },
                |c: int| cand[order[c] as int],
            ),
        }
    }

    /// The plan for neuron `i` at `opt_step`.
    pub open spec fn best_plan<A: Arith>(
        self,
        trace: Trace,
        slopes: Slopes,
        opt_step: u64,
        i: int,
    ) -> Plan {
        self.plan_for::<A>(
            trace,
            slopes,
            i,
            churn_rate::<A>(self.cfg, opt_step),
            self.candidates(opt_step, i),
        )
    }

    /// The plans for all neurons.
    pub open spec fn best_plans<A: Arith>(
        self,
        trace: Trace,
        slopes: Slopes,
        opt_step: u64,
    ) -> Seq<Plan> {
        Seq::new(
            self.cfg.n as nat,
            |i: int| self.best_plan::<A>(trace, slopes, opt_step, i),
        )
    }

    /// The weights and the scores of neuron `i` can be ranked.
    pub open spec fn has_order<A: Arith>(
        self,
        trace: Trace,
        slopes: Slopes,
        opt_step: u64,
        i: int,
    ) -> bool {
        self.graph.has_ordered_weights(i) && are_ordered(
            self.scores::<A>(trace, slopes, i, self.candidates(opt_step, i)),
        )
    }

    /// There are the states and gradients from which edges are scored.
    pub open spec fn has_scores(self, trace: Trace, slopes: Slopes) -> bool {
        let n = self.cfg.n;
        let w = self.cfg.window;
        &&& n <= trace.state_init.len()
        &&& w <= trace.state.len() + 1
        &&& w <= slopes.dpre.len()
        &&& forall|t: int| 0 <= t < w - 1 ==> n <= (#[trigger] trace.state[t]).len()
        &&& forall|t: int| 0 <= t < w ==> n <= (#[trigger] slopes.dpre[t]).len()
    }
}

/// None of `xs` is a NaN, or there is none to compare it to.
pub open spec fn are_ordered(xs: Seq<Single>) -> bool {
    xs.len() < 2 || forall|i: int| 0 <= i < xs.len() ==> !(#[trigger] xs[i]).nan()
}

/// The numbers of edges that `plans` grow in the first `rows` rows, added up.
pub open spec fn grown_in(plans: Seq<Plan>, rows: int) -> int
    decreases rows,
{
    if rows <= 0 {
        0
    } else {
        grown_in(plans, rows - 1) + plans[rows - 1].grown.len()
    }
}

// --- planning one neuron ----------------------------------------------------

/// The out-edges of neuron `i`, as positions in its row, by descending weight
/// magnitude.
fn row_order(topo: &Topology, i: usize) -> (r: Result<Vec<usize>, NotANumber>)
    requires
        topo.wf(),
        i < topo.n,
    ensures
        r is Ok <==> topo@.has_ordered_weights(i as int),
        r matches Ok(order) ==> order@ == ranking(
            topo@.weight_keys(i as int),
            topo@.degree(i as int),
        ) && is_ranking(topo@.weight_keys(i as int), topo@.degree(i as int), order@),
{
    let ghost g = topo@;
    assert(i < topo.row_ptr.len());
    assert(row_fits(topo.row_ptr@, g.edges(), i as int));
    let range = topo.out_range(i);
    let mut keys: Vec<u32> = Vec::new();
    let mut all_numbers = true;
    let mut e: usize = range.start;
    while e < range.end
        invariant
            topo.wf(),
            g == topo@,
            i < topo.n,
            range.start == g.row_start(i as int),
            range.start < range.end ==> range.end <= g.edges(),
            range.start < range.end ==> range.end - range.start == g.degree(i as int),
            range.start <= e,
            range.start < range.end ==> e <= range.end,
            range.start >= range.end ==> e == range.start,
            keys@.len() == e - range.start,
            forall|k: int|
                0 <= k < keys@.len() ==> #[trigger] keys@[k] == g.weights[g.row_start(i as int)
                    + k].mag(),
            all_numbers <==> forall|k: int|
                0 <= k < keys@.len() ==> !(#[trigger] g.weights[g.row_start(i as int) + k]).nan(),
        decreases range.end - e,
    {
        let key: u32 = topo.weights[e].magnitude();
        let ghost before = keys@;
        keys.push(key);
        if key > INFINITY_BITS {
            all_numbers = false;
        }
        e += 1;
        proof {
            let last = before.len() as int;
            assert(g.weights[g.row_start(i as int) + last].mag() == key);
            if all_numbers {
                assert forall|k: int| 0 <= k < keys@.len() implies !(
                #[trigger] g.weights[g.row_start(i as int) + k]).nan() by {
                    if k < last {
                        assert(before[k] == g.weights[g.row_start(i as int) + k].mag());
                    }
                }
            }
        }
    }
    assert(keys@ =~= g.weight_keys(i as int));
    if keys.len() >= 2 && !all_numbers {
        return Err(NotANumber);
    }
    Ok(ranking_of(&keys))
}

/// The targets of neuron `i`, and `i`.
fn connected_to(topo: &Topology, i: usize) -> (r: HashSet<u32>)
    requires
        topo.wf(),
        i < topo.n,
    ensures
        forall|j: u32| #[trigger] r@.contains(j) <==> topo@.connected(i as int, j),
{
    let ghost g = topo@;
    assert(i < topo.row_ptr.len());
    assert(row_fits(topo.row_ptr@, g.edges(), i as int));
    let range = topo.out_range(i);
    let mut r: HashSet<u32> = HashSet::new();
    let mut e: usize = range.start;
    while e < range.end
        invariant
            topo.wf(),
            g == topo@,
            range.start < range.end ==> range.end <= g.edges(),
            range.start <= e,
            range.start < range.end ==> e <= range.end,
            range.start >= range.end ==> e == range.start,
            forall|j: u32| #[trigger]
                r@.contains(j) <==> g.first_targets(range.start as int, e - range.start).contains(
                    j,
                ),
        decreases range.end - e,
    {
        let ghost before = g.first_targets(range.start as int, e - range.start);
        let j: u32 = topo.col_idx[e];
        r.insert(j);
        e += 1;
        proof {
            let upto = g.first_targets(range.start as int, e - range.start);
            assert(upto =~= before.push(j));
            assert forall|q: u32| #[trigger] upto.contains(q) <==> before.contains(q) || q
                == j by {
                if before.contains(q) {
                    let a = choose|a: int| 0 <= a < before.len() && before[a] == q;
                    assert(upto[a] == q);
                }
                if q == j {
                    assert(upto[before.len() as int] == q);
                }
            }
        }
    }
    assert(g.first_targets(range.start as int, e - range.start) =~= g.targets(i as int));
    r.insert(i as u32);
    r
}

/// Draws the candidate targets of neuron `i`.
fn draw_candidates(net: &Network, i: usize, rng: &mut StdRng) -> (cand: Vec<u32>)
    requires
        net.wf(),
        i < net.cfg.n,
    ensures
        ({
            let (draws, after) = draws_below(
                generator_state(*old(rng)),
                net.cfg.n as u32,
                net.cfg.rigl_candidates as int,
            );
            &&& cand@ == net@.graph.fresh(i as int, draws, draws.len() as int)
            &&& generator_state(*final(rng)) == after
        }),
        forall|c: int|
            0 <= c < cand@.len() ==> #[trigger] cand@[c] < net.cfg.n && !net@.graph.connected(
                i as int,
                cand@[c],
            ),
        forall|b: int, c: int|
            0 <= b < cand@.len() && 0 <= c < cand@.len() && b != c ==> cand@[b] != cand@[c],
{
    let n: u32 = net.cfg.n as u32;
    let ghost g = net@.graph;
    let ghost state = generator_state(*rng);
    let connected = connected_to(&net.topo, i);
    let mut tried: HashSet<u32> = HashSet::new();
    let mut cand: Vec<u32> = Vec::new();
    let mut k: usize = 0;
    while k < net.cfg.rigl_candidates
        invariant
            net.wf(),
            i < net.cfg.n,
            n == net.cfg.n,
            g == net@.graph,
            k <= net.cfg.rigl_candidates,
            forall|j: u32| #[trigger] connected@.contains(j) <==> g.connected(i as int, j),
            draws_below(state, n, k as int).0.len() == k,
            generator_state(*rng) == draws_below(state, n, k as int).1,
            cand@ == g.fresh(i as int, draws_below(state, n, k as int).0, k as int),
            forall|j: u32| #[trigger] tried@.contains(j) <==> cand@.contains(j),
            forall|c: int|
                0 <= c < cand@.len() ==> #[trigger] cand@[c] < n && !g.connected(
                    i as int,
                    cand@[c],
                ),
            forall|b: int, c: int|
                0 <= b < cand@.len() && 0 <= c < cand@.len() && b != c ==> cand@[b] != cand@[c],
        decreases net.cfg.rigl_candidates - k,
    {
        let ghost draws = draws_below(state, n, k as int).0;
        let ghost before = cand@;
        let j: u32 = draw_below(rng, n);
        proof {
            let next = draws_below(state, n, k + 1).0;
            assert(next == draws.push(j));
            lemma_fresh_prefix(g, i as int, next, draws, k as int);
            assert(next[k as int] == j);
        }
        if !connected.contains(&j) && tried.insert(j) {
            cand.push(j);
            proof {
                assert forall|q: u32| #[trigger] cand@.contains(q) <==> before.contains(q) || q
                    == j by {
                    if before.contains(q) {
                        let a = choose|a: int| 0 <= a < before.len() && before[a] == q;
                        assert(cand@[a] == q);
                    }
                    if q == j {
                        assert(cand@[before.len() as int] == q);
                    }
                }
                assert forall|b: int, c: int|
                    0 <= b < cand@.len() && 0 <= c < cand@.len() && b != c implies cand@[b]
                    != cand@[c] by {
                    if b == before.len() {
                        assert(before.contains(before[c]));
                    }
                    if c == before.len() {
                        assert(before.contains(before[b]));
                    }
                }
            }
        }
        k += 1;
    }
    cand
}

/// Candidates are neurons that `i` is not connected to, each once; a neuron that is
/// connected to all has none.
pub proof fn law_candidates_are_new(g: Csr, i: int, draws: Seq<u32>, c: int)
    ensures
        ({
            let cand = g.fresh(i, draws, c);
            &&& cand.len() <= c || cand.len() == 0
            &&& forall|a: int|
                0 <= a < cand.len() ==> #[trigger] cand[a] < g.n && !g.connected(i, cand[a])
            &&& forall|a: int, b: int|
                0 <= a < cand.len() && 0 <= b < cand.len() && a != b ==> cand[a] != cand[b]
            &&& (forall|j: u32| j < g.n ==> #[trigger] g.connected(i, j)) ==> cand.len() == 0
        }),
    decreases c,
{
    if c > 0 {
        law_candidates_are_new(g, i, draws, c - 1);
        let before = g.fresh(i, draws, c - 1);
        let cand = g.fresh(i, draws, c);
        assert forall|a: int, b: int|
            0 <= a < cand.len() && 0 <= b < cand.len() && a != b implies cand[a] != cand[b] by {
            if a == before.len() {
                assert(before.contains(before[b]));
            }
            if b == before.len() {
                assert(before.contains(before[a]));
            }
        }
    }
}

/// A neuron that is connected to all others, and has no weight that is a NaN, can be
/// ranked whatever is drawn: it has no candidates.
pub proof fn law_full_row_has_order<A: Arith>(
    model: Model,
    trace: Trace,
    slopes: Slopes,
    opt_step: u64,
    i: int,
)
    requires
        0 <= i < model.graph.n,
        is_csr(model.graph.n as nat, model.graph.row_ptr, model.graph.col_idx),
        model.graph.weights.len() == model.graph.edges(),
        forall|e: int|
            0 <= e < model.graph.edges() ==> !(#[trigger] model.graph.weights[e]).nan(),
        forall|j: u32| j < model.graph.n ==> #[trigger] model.graph.connected(i, j),
    ensures
        model.candidates(opt_step, i).len() == 0,
        model.has_order::<A>(trace, slopes, opt_step, i),
{
    let draws = draws_below(
        model.candidate_state(opt_step, i),
        model.cfg.n as u32,
        model.cfg.rigl_candidates as int,
    ).0;
    law_candidates_are_new(model.graph, i, draws, draws.len() as int);
    assert(row_fits(model.graph.row_ptr, model.graph.edges(), i));
}

/// What is fresh depends on the draws so far alone.
proof fn lemma_fresh_prefix(g: Csr, i: int, x: Seq<u32>, y: Seq<u32>, c: int)
    requires
        forall|k: int| 0 <= k < c ==> #[trigger] x[k] == y[k],
    ensures
        g.fresh(i, x, c) == g.fresh(i, y, c),
    decreases c,
{
    if c > 0 {
        lemma_fresh_prefix(g, i, x, y, c - 1);
        assert(x[c - 1] == y[c - 1]);
    }
}

/// The magnitude of the gradient that an edge from `i` to `j` would have:
/// the sum over the window of the state of `i` before each step times the
/// gradient of the pre-activation of `j` at that step.
fn score_edge<A: Arith>(net: &Network, tape: &Tape, grads: &Grads, i: usize, j: u32) -> (r: Single)
    requires
        net@.has_scores(tape@, grads@),
        i < net.cfg.n,
        j < net.cfg.n,
    ensures
        deterministic::<A>() ==> r == net@.score::<A>(tape@, grads@, i as int, j),
{
    let ghost trace = tape@;
    let ghost slopes = grads@;
    let ghost heard = |t: int| !trace.state_before(t)[i as int].zero();
    let ghost term = |t: int|
        product::<A>(trace.state_before(t)[i as int], slopes.dpre[t][j as int]);
    let w = net.cfg.window;
    let mut acc = Single::zeroed();
    let mut t: usize = 0;
    while t < w
        invariant
            w == net.cfg.window,
            t <= w,
            trace == tape@,
            slopes == grads@,
            net@.has_scores(trace, slopes),
            i < net.cfg.n,
            j < net.cfg.n,
            heard == (|t: int| !trace.state_before(t)[i as int].zero()),
            term == (|t: int|
                product::<A>(trace.state_before(t)[i as int], slopes.dpre[t][j as int])),
            deterministic::<A>() ==> acc == running_sum_where::<A>(
                nought(),
                t as int,
                heard,
                term,
            ),
        decreases w - t,
    {
        assert(slopes.dpre[t as int].len() >= net.cfg.n);
        let sp: Single = if t == 0 {
            tape.state_init[i]
        } else {
            assert(trace.state[t - 1].len() >= net.cfg.n);
            tape.state[t - 1][i]
        };
        assert(sp == trace.state_before(t as int)[i as int]);
        assert(heard(t as int) == !sp.zero());
        assert(term(t as int) == product::<A>(sp, slopes.dpre[t as int][j as int]));
        if !sp.is_zero() {
            acc = A::plus(acc, A::times(sp, grads.dpre[t][j as usize]));
        }
        t += 1;
    }
    acc.abs()
}

/// Plans the rewiring of neuron `i`: how many edges to prune, and the targets to
/// grow edges to.
fn plan_row<A: Arith>(
    net: &Network,
    tape: &Tape,
    grads: &Grads,
    frac: Single,
    i: usize,
    cand: &Vec<u32>,
) -> (r: Result<(usize, Vec<u32>), NotANumber>)
    requires
        net.wf(),
        net@.has_scores(tape@, grads@),
        i < net.cfg.n,
        forall|c: int|
            0 <= c < cand@.len() ==> #[trigger] cand@[c] < net.cfg.n && !net@.graph.connected(
                i as int,
                cand@[c],
            ),
        forall|b: int, c: int|
            0 <= b < cand@.len() && 0 <= c < cand@.len() && b != c ==> cand@[b] != cand@[c],
    ensures
        r matches Ok((churn, grown)) ==> net@.graph.is_plan(
            i as int,
            Plan { churn: churn as int, grown: grown@ },
        ),
        deterministic::<A>() ==> (r is Ok <==> are_ordered(
            net@.scores::<A>(tape@, grads@, i as int, cand@),
        )),
        deterministic::<A>() ==> (r matches Ok((churn, grown)) ==> (Plan {
            churn: churn as int,
            grown: grown@,
        }) == net@.plan_for::<A>(tape@, grads@, i as int, frac, cand@)),
{
    let ghost model = net@;
    let ghost g = net@.graph;
    let ghost scores = model.scores::<A>(tape@, grads@, i as int, cand@);
    assert(i < net.topo.row_ptr.len());
    let range = net.topo.out_range(i);
    let deg: usize = if range.start < range.end {
        range.end - range.start
    } else {
        0
    };
    let count: usize = A::to_count(A::round(A::times(frac, A::of_count(deg as u64))));
    let churn: usize = if count < deg {
        count
    } else {
        deg
    };
    assert(deterministic::<A>() ==> churn == model.churn_count::<A>(frac, i as int));
    let mut keys: Vec<u32> = Vec::new();
    let mut all_numbers = true;
    let mut c: usize = 0;
    while c < cand.len()
        invariant
            net@ == model,
            model.has_scores(tape@, grads@),
            i < net.cfg.n,
            forall|c: int| 0 <= c < cand@.len() ==> #[trigger] cand@[c] < net.cfg.n,
            scores == model.scores::<A>(tape@, grads@, i as int, cand@),
            c <= cand@.len(),
            keys@.len() == c,
            deterministic::<A>() ==> forall|k: int|
                0 <= k < c ==> #[trigger] keys@[k] == scores[k].bits && keys@[k] < SIGN_BIT,
            all_numbers <==> forall|k: int| 0 <= k < c ==> #[trigger] keys@[k] <= INFINITY_BITS,
        decreases cand.len() - c,
    {
        let score = score_edge::<A>(net, tape, grads, i, cand[c]);
        let key: u32 = score.bits;
        let ghost before = keys@;
        keys.push(key);
        if key > INFINITY_BITS {
            all_numbers = false;
        }
        assert(keys@[c as int] == key);
        proof {
            if deterministic::<A>() {
                assert(score == scores[c as int]);
            }
            if all_numbers {
                assert forall|k: int| 0 <= k < c + 1 implies #[trigger] keys@[k]
                    <= INFINITY_BITS by {
                    if k < c {
                        assert(before[k] == keys@[k]);
                    }
                }
            } else if key <= INFINITY_BITS {
                let k = choose|k: int| 0 <= k < c && #[trigger] before[k] > INFINITY_BITS;
                assert(keys@[k] == before[k]);
            }
        }
        c += 1;
    }
    proof {
        if deterministic::<A>() {
            assert(keys@ =~= bits_of(scores));
            assert(all_numbers <==> forall|k: int| 0 <= k < scores.len() ==> !(
            #[trigger] scores[k]).nan()) by {
                if all_numbers {
                    assert forall|k: int| 0 <= k < scores.len() implies !(
                    #[trigger] scores[k]).nan() by {
                        assert(keys@[k] == scores[k].bits);
                    }
                } else {
                    let k = choose|k: int|
                        0 <= k < keys@.len() && #[trigger] keys@[k] > INFINITY_BITS;
                    assert(keys@[k] == scores[k].bits);
                    assert(scores[k].nan());
                }
            }
        }
    }
    if keys.len() >= 2 && !all_numbers {
        return Err(NotANumber);
    }
    let order = ranking_of(&keys);
    let ghost grow_n: int = if churn < cand@.len() {
        churn as int
    } else {
        cand@.len() as int
    };
    let mut grown: Vec<u32> = Vec::new();
    while grown.len() < churn && grown.len() < cand.len()
        invariant
            is_ranking(keys@, cand@.len() as int, order@),
            grown@.len() <= grow_n,
            grow_n == if churn < cand@.len() {
                churn as int
            } else {
                cand@.len() as int
            },
            forall|k: int| 0 <= k < grown@.len() ==> #[trigger] grown@[k] == cand@[order@[k] as int],
        decreases grow_n - grown@.len(),
    {
        let at: usize = order[grown.len()];
        grown.push(cand[at]);
    }
    proof {
        let plan = Plan { churn: churn as int, grown: grown@ };
        assert forall|k: int| 0 <= k < grown@.len() implies #[trigger] plan.grown[k] < g.n
            && !g.connected(i as int, plan.grown[k]) by {
            assert(grown@[k] == cand@[order@[k] as int]);
        }
        assert forall|b: int, k: int|
            0 <= b < grown@.len() && 0 <= k < grown@.len() && b != k implies plan.grown[b]
            != plan.grown[k] by {
            assert(grown@[b] == cand@[order@[b] as int]);
            assert(grown@[k] == cand@[order@[k] as int]);
            if b < k {
                assert(outranks(keys@, order@[b], order@[k]));
            } else {
                assert(outranks(keys@, order@[k], order@[b]));
            }
        }
        if deterministic::<A>() {
            assert(plan.grown =~= model.plan_for::<A>(
                tape@,
                grads@,
                i as int,
                frac,
                cand@,
            ).grown);
        }
    }
    Ok((churn, grown))
}

/// Appends the out-edges of neuron `i` as planned.
fn push_row(
    topo: &Topology,
    wmom: &Moment,
    i: usize,
    order: &Vec<usize>,
    churn: usize,
    grown: &Vec<u32>,
    edges: &mut Vec<Edge>,
)
    requires
        topo.wf(),
        i < topo.n,
        topo@.edges() <= wmom.m@.len(),
        topo@.edges() <= wmom.v@.len(),
        is_ranking(topo@.weight_keys(i as int), topo@.degree(i as int), order@),
        order@ == ranking(topo@.weight_keys(i as int), topo@.degree(i as int)),
        churn <= topo@.degree(i as int),
        grown@.len() <= churn,
    ensures
        final(edges)@ == old(edges)@ + topo@.rewired_row(
            wmom@,
            i as int,
            Plan { churn: churn as int, grown: grown@ },
        ),
{
    let ghost before = edges@;
    let ghost g = topo@;
    let ghost plan = Plan { churn: churn as int, grown: grown@ };
    let ghost row = g.rewired_row(wmom@, i as int, plan);
    assert(row_fits(topo.row_ptr@, g.edges(), i as int));
    assert(i < topo.row_ptr.len());
    let range = topo.out_range(i);
    let start = range.start;
    let deg = order.len();
    let keep: usize = deg - churn;
    let grow_n = grown.len();
    let mut k: usize = 0;
    while k < deg
        invariant
            topo.wf(),
            g == topo@,
            g.edges() <= wmom.m@.len(),
            g.edges() <= wmom.v@.len(),
            plan == (Plan { churn: churn as int, grown: grown@ }),
            row == g.rewired_row(wmom@, i as int, plan),
            start == g.row_start(i as int),
            deg == g.degree(i as int),
            deg > 0 ==> start + deg <= g.edges(),
            is_ranking(g.weight_keys(i as int), deg as int, order@),
            order@ == ranking(g.weight_keys(i as int), deg as int),
            keep == deg - churn,
            grow_n == grown@.len(),
            grow_n <= churn <= deg,
            k <= deg,
            edges@ =~= before + row.take(k as int),
        decreases deg - k,
    {
        let edge: Edge = if keep <= k && k - keep < grow_n {
            let zero = Single::zeroed();
            Edge { target: grown[k - keep], weight: zero, m: zero, v: zero }
        } else {
            let rank: usize = if k < keep {
                k
            } else {
                k - grow_n
            };
            assert(order@[rank as int] < deg);
            assert(g.edges() == topo.col_idx.len());
            let e: usize = start + order[rank];
            assert(e == g.ranked_edge(i as int, rank as int));
            Edge {
                target: topo.col_idx[e],
                weight: topo.weights[e],
                m: wmom.m[e],
                v: wmom.v[e],
            }
        };
        assert(edge == row[k as int]);
        edges.push(edge);
        assert(row.take(k + 1) =~= row.take(k as int).push(row[k as int]));
        k += 1;
    }
    assert(row.take(k as int) =~= row);
}

// --- what rewiring keeps ----------------------------------------------------

/// Degrees add up: none is negative, and a sum over fewer rows is no larger.
pub proof fn lemma_degree_sum(g: Csr, a: int, b: int)
    requires
        0 <= a <= b,
    ensures
        0 <= g.degree_sum(a) <= g.degree_sum(b),
    decreases b,
{
    if a < b {
        lemma_degree_sum(g, a, b - 1);
    } else if b > 0 {
        lemma_degree_sum(g, a - 1, b - 1);
    }
}

/// In a packed graph the degrees add up to the number of edges.
pub proof fn law_degrees_add_up(g: Csr, rows: int)
    requires
        0 <= rows <= g.n,
        g.is_packed(),
    ensures
        g.degree_sum(rows) == g.row_ptr[rows],
        g.degree_sum(g.n) == g.edges(),
    decreases g.n - rows,
{
    lemma_degrees_upto(g, rows);
    lemma_degrees_upto(g, g.n);
}

proof fn lemma_degrees_upto(g: Csr, rows: int)
    requires
        0 <= rows <= g.n,
        g.is_packed(),
    ensures
        g.degree_sum(rows) == g.row_ptr[rows],
    decreases rows,
{
    if rows > 0 {
        lemma_degrees_upto(g, rows - 1);
        assert(g.row_ptr[rows - 1] <= g.row_ptr[rows]);
    }
}

/// The rewired rows stand one after the other.
proof fn lemma_rewired_len(g: Csr, mom: Averages, plans: Seq<Plan>, rows: int)
    requires
        0 <= rows,
    ensures
        g.rewired_rows(mom, plans, rows).len() == g.degree_sum(rows),
    decreases rows,
{
    if rows > 0 {
        lemma_rewired_len(g, mom, plans, rows - 1);
    }
}

/// Where the edges of row `i` stand.
pub proof fn lemma_rewired_at(g: Csr, mom: Averages, plans: Seq<Plan>, rows: int, i: int, k: int)
    requires
        0 <= i < rows,
        0 <= k < g.degree(i),
    ensures
        0 <= g.degree_sum(i) + k < g.degree_sum(rows),
        g.rewired_rows(mom, plans, rows)[g.degree_sum(i) + k] == g.rewired_row(
            mom,
            i,
            plans[i],
        )[k],
    decreases rows,
{
    lemma_rewired_len(g, mom, plans, rows - 1);
    lemma_degree_sum(g, i, rows - 1);
    if i < rows - 1 {
        lemma_rewired_at(g, mom, plans, rows - 1, i, k);
    }
}

/// Rows depend on the plans for them alone.
proof fn lemma_rewired_rows_prefix(
    g: Csr,
    mom: Averages,
    x: Seq<Plan>,
    y: Seq<Plan>,
    rows: int,
)
    requires
        forall|i: int| 0 <= i < rows ==> #[trigger] x[i] == y[i],
    ensures
        g.rewired_rows(mom, x, rows) == g.rewired_rows(mom, y, rows),
        grown_in(x, rows) == grown_in(y, rows),
    decreases rows,
{
    if rows > 0 {
        lemma_rewired_rows_prefix(g, mom, x, y, rows - 1);
        assert(x[rows - 1] == y[rows - 1]);
    }
}

/// The row that holds the `e`-th of all rewired edges.
proof fn lemma_row_of(g: Csr, rows: int, e: int) -> (i: int)
    requires
        0 <= rows,
        0 <= e < g.degree_sum(rows),
    ensures
        0 <= i < rows,
        g.degree_sum(i) <= e < g.degree_sum(i) + g.degree(i),
    decreases rows,
{
    if e < g.degree_sum(rows - 1) {
        lemma_row_of(g, rows - 1, e)
    } else {
        rows - 1
    }
}

/// A rewired row holds edges of the same neuron as they were, and new edges to
/// neurons that it was not connected to; the new ones have zero weight and zero
/// moments.
pub proof fn law_edges_are_kept_or_new(g: Csr, mom: Averages, i: int, plan: Plan, k: int)
    requires
        0 <= i < g.n,
        is_csr(g.n as nat, g.row_ptr, g.col_idx),
        g.is_plan(i, plan),
        0 <= k < g.degree(i),
        g.edges() <= usize::MAX,
    ensures
        ({
            let edge = g.rewired_row(mom, i, plan)[k];
            let keep = g.degree(i) - plan.churn;
            let new = keep <= k < keep + plan.grown.len();
            &&& new ==> edge == new_edge(edge.target) && !g.connected(i, edge.target)
                && edge.target < g.n
            &&& !new ==> exists|e: int|
                g.row_start(i) <= e < g.row_start(i) + g.degree(i) && edge == #[trigger] g.kept_edge(
                    mom,
                    e,
                ) && e < g.edges()
        }),
{
    let keep = g.degree(i) - plan.churn;
    let keys = g.weight_keys(i);
    assert(row_fits(g.row_ptr, g.edges(), i));
    law_ranking_is_stable_sort(keys, g.degree(i));
    let order = ranking(keys, g.degree(i));
    if k < keep {
        assert(order[k] < g.degree(i));
        let e = g.ranked_edge(i, k);
        assert(g.rewired_row(mom, i, plan)[k] == g.kept_edge(mom, e));
    } else if k < keep + plan.grown.len() {
        assert(plan.grown[k - keep] < g.n);
    } else {
        let q = k - plan.grown.len();
        assert(order[q] < g.degree(i));
        let e = g.ranked_edge(i, q);
        assert(g.rewired_row(mom, i, plan)[k] == g.kept_edge(mom, e));
    }
}

/// Rewiring keeps the edge budget: every neuron has as many out-edges as before,
/// and so has the graph. The rewired rows are packed.
pub proof fn law_edge_budget_is_constant(g: Csr, mom: Averages, plans: Seq<Plan>)
    requires
        0 <= g.n,
        is_csr(g.n as nat, g.row_ptr, g.col_idx),
        g.edges() <= u32::MAX,
        g.are_plans(plans),
        g.degree_sum(g.n) <= u32::MAX,
    ensures
        g.rewired(mom, plans).is_packed(),
        g.rewired(mom, plans).edges() == g.degree_sum(g.n),
        g.is_packed() ==> g.rewired(mom, plans).edges() == g.edges(),
        forall|i: int|
            0 <= i < g.n ==> #[trigger] g.rewired(mom, plans).degree(i) == g.degree(i),
        g.rewired_moments(mom, plans).m.len() == g.degree_sum(g.n),
        g.rewired_moments(mom, plans).v.len() == g.degree_sum(g.n),
        is_csr(
            g.n as nat,
            g.rewired(mom, plans).row_ptr,
            g.rewired(mom, plans).col_idx,
        ),
{
    let h = g.rewired(mom, plans);
    lemma_rewired_len(g, mom, plans, g.n);
    assert forall|i: int| 0 <= i <= g.n implies #[trigger] h.row_ptr[i] == g.degree_sum(i) by {
        lemma_degree_sum(g, i, g.n);
    }
    assert forall|i: int, j: int| 0 <= i <= j <= g.n implies #[trigger] h.row_ptr[i]
        <= #[trigger] h.row_ptr[j] by {
        lemma_degree_sum(g, i, j);
    }
    if g.is_packed() {
        law_degrees_add_up(g, g.n);
    }
    assert forall|i: int| 0 <= i < g.n implies #[trigger] h.degree(i) == g.degree(i) by {
        assert(h.row_ptr[i] == g.degree_sum(i));
        assert(h.row_ptr[i + 1] == g.degree_sum(i + 1));
    }
    assert forall|i: int| 0 <= i < g.n implies #[trigger] row_fits(
        h.row_ptr,
        h.col_idx.len(),
        i,
    ) by {
        assert(h.row_ptr[i + 1] <= h.row_ptr[g.n]);
    }
    assert forall|e: int| 0 <= e < h.edges() implies #[trigger] h.col_idx[e] < g.n by {
        let i = lemma_row_of(g, g.n, e);
        let k = e - g.degree_sum(i);
        assert(g.is_plan(i, plans[i]));
        law_edges_are_kept_or_new(g, mom, i, plans[i], k);
        lemma_rewired_at(g, mom, plans, g.n, i, k);
    }
    assert(is_csr(g.n as nat, h.row_ptr, h.col_idx));
}

/// Row `i` of the rewired graph holds the targets of the rewired row.
pub proof fn lemma_rewired_targets(g: Csr, mom: Averages, plans: Seq<Plan>, i: int)
    requires
        0 <= i < g.n,
        is_csr(g.n as nat, g.row_ptr, g.col_idx),
        g.edges() <= u32::MAX,
        g.are_plans(plans),
        g.degree_sum(g.n) <= u32::MAX,
    ensures
        g.rewired(mom, plans).targets(i).len() == g.degree(i),
        forall|k: int|
            0 <= k < g.degree(i) ==> #[trigger] g.rewired(mom, plans).targets(i)[k]
                == g.rewired_row(mom, i, plans[i])[k].target,
{
    let h = g.rewired(mom, plans);
    law_edge_budget_is_constant(g, mom, plans);
    lemma_rewired_len(g, mom, plans, g.n);
    lemma_degree_sum(g, i, g.n);
    assert(h.degree(i) == g.degree(i));
    assert forall|k: int| 0 <= k < g.degree(i) implies #[trigger] h.targets(i)[k]
        == g.rewired_row(mom, i, plans[i])[k].target by {
        lemma_rewired_at(g, mom, plans, g.n, i, k);
    }
}

/// Rewiring a graph without self-loops and without two edges from one neuron to
/// the same other gives such a graph.
pub proof fn law_rewiring_keeps_graph_simple(g: Csr, mom: Averages, plans: Seq<Plan>)
    requires
        0 <= g.n,
        is_csr(g.n as nat, g.row_ptr, g.col_idx),
        g.edges() <= u32::MAX,
        g.are_plans(plans),
        g.degree_sum(g.n) <= u32::MAX,
        g.is_simple(),
    ensures
        g.rewired(mom, plans).is_simple(),
{
    let h = g.rewired(mom, plans);
    assert forall|i: int| 0 <= i < h.n implies are_distinct_others(#[trigger] h.targets(i), i) by {
        let plan = plans[i];
        let deg = g.degree(i);
        let keep = deg - plan.churn;
        let grow = plan.grown.len() as int;
        let row = g.rewired_row(mom, i, plan);
        let keys = g.weight_keys(i);
        let order = ranking(keys, deg);
        assert(g.is_plan(i, plan));
        assert(row_fits(g.row_ptr, g.edges(), i));
        law_ranking_is_stable_sort(keys, deg);
        lemma_rewired_targets(g, mom, plans, i);
        assert(are_distinct_others(g.targets(i), i));
        assert forall|a: int| 0 <= a < deg && !(keep <= a < keep + grow) implies {
            let q = if a < keep {
                a
            } else {
                a - grow
            };
            (#[trigger] row[a]).target == g.targets(i)[order[q] as int] && order[q] < deg
        } by {
            let q = if a < keep {
                a
            } else {
                a - grow
            };
            assert(order[q] < deg);
        }
        assert forall|a: int| 0 <= a < deg && keep <= a < keep + grow implies (
        #[trigger] row[a]).target == plan.grown[a - keep] && !g.targets(i).contains(row[a].target)
            && row[a].target != i by {
            assert(plan.grown[a - keep] < g.n);
        }
        assert forall|a: int| 0 <= a < deg implies #[trigger] h.targets(i)[a] != i by {
            assert(h.targets(i)[a] == row[a].target);
        }
        assert forall|a: int, b: int| 0 <= a < deg && 0 <= b < deg && a != b implies h.targets(
            i,
        )[a] != h.targets(i)[b] by {
            assert(h.targets(i)[a] == row[a].target);
            assert(h.targets(i)[b] == row[b].target);
            let new_a = keep <= a < keep + grow;
            let new_b = keep <= b < keep + grow;
            if new_a && new_b {
                assert(plan.grown[a - keep] != plan.grown[b - keep]);
            } else if !new_a && !new_b {
                let p = if a < keep {
                    a
                } else {
                    a - grow
                };
                let q = if b < keep {
                    b
                } else {
                    b - grow
                };
                assert(p != q);
                if p < q {
                    assert(outranks(keys, order[p], order[q]));
                } else {
                    assert(outranks(keys, order[q], order[p]));
                }
                assert(g.targets(i)[order[p] as int] != g.targets(i)[order[q] as int]);
            } else if new_a {
                assert(g.targets(i).contains(row[b].target));
            } else {
                assert(g.targets(i).contains(row[a].target));
            }
        }
    }
}

/// The edges that survive have at least the magnitude of those that are pruned:
/// an earlier rank means a magnitude no smaller.
pub proof fn law_smallest_magnitudes_are_pruned(g: Csr, i: int, a: int, b: int)
    requires
        0 <= i < g.n,
        is_csr(g.n as nat, g.row_ptr, g.col_idx),
        g.edges() <= u32::MAX,
        0 <= a < b < g.degree(i),
    ensures
        g.weights[g.ranked_edge(i, b)].mag() <= g.weights[g.ranked_edge(i, a)].mag(),
        g.ranked_edge(i, a) != g.ranked_edge(i, b),
{
    let keys = g.weight_keys(i);
    let order = ranking(keys, g.degree(i));
    assert(row_fits(g.row_ptr, g.edges(), i));
    law_ranking_is_stable_sort(keys, g.degree(i));
    assert(outranks(keys, order[a], order[b]));
    assert(order[a] < g.degree(i) && order[b] < g.degree(i));
    assert(keys[order[a] as int] == g.weights[g.ranked_edge(i, a)].mag());
    assert(keys[order[b] as int] == g.weights[g.ranked_edge(i, b)].mag());
}

/// The out-edges of neuron `i`, by rank.
pub open spec fn ranked_edges(g: Csr, i: int) -> Seq<int> {
    Seq::new(g.degree(i) as nat, |k: int| g.ranked_edge(i, k))
}

/// The out-edges of neuron `i`.
pub open spec fn row_edges(g: Csr, i: int) -> Seq<int> {
    Seq::new(g.degree(i) as nat, |k: int| g.row_start(i) + k)
}

/// Ranking reorders: every out-edge has one rank.
pub proof fn law_ranks_reorder_a_row(g: Csr, i: int)
    requires
        0 <= g.degree(i) <= usize::MAX,
    ensures
        ranked_edges(g, i).to_multiset() == row_edges(g, i).to_multiset(),
{
    let keys = g.weight_keys(i);
    let deg = g.degree(i);
    let order = ranking(keys, deg);
    law_ranking_is_stable_sort(keys, deg);
    let x = ranked_edges(g, i);
    let y = row_edges(g, i);
    assert forall|a: int, b: int| 0 <= a < deg && 0 <= b < deg && a != b implies x[a] != x[b] by {
        if a < b {
            assert(outranks(keys, order[a], order[b]));
        } else {
            assert(outranks(keys, order[b], order[a]));
        }
    }
    x.lemma_multiset_has_no_duplicates();
    y.lemma_multiset_has_no_duplicates();
    x.to_multiset_ensures();
    y.to_multiset_ensures();
    assert forall|e: int| x.to_multiset().count(e) == y.to_multiset().count(e) by {
        if x.contains(e) {
            let k = choose|k: int| 0 <= k < x.len() && x[k] == e;
            assert(order[k] < deg);
            assert(y[order[k] as int] == e);
        }
        if y.contains(e) {
            let k = choose|k: int| 0 <= k < y.len() && y[k] == e;
            assert(order.contains(k as usize));
            let r = choose|r: int| 0 <= r < order.len() && order[r] == k as usize;
            assert(x[r] == e);
        }
        assert(x.contains(e) <==> y.contains(e));
        assert(x.contains(e) <==> x.to_multiset().count(e) > 0);
        assert(y.contains(e) <==> y.to_multiset().count(e) > 0);
        if x.contains(e) {
            assert(x.to_multiset().contains(e));
            assert(y.to_multiset().contains(e));
        }
    }
    assert(x.to_multiset() =~= y.to_multiset());
}

/// Where the churn has decayed to nothing, nothing is grown, and a row keeps its
/// edges with their weights and moments: it is only put in order of rank.
pub proof fn law_without_churn_rows_are_reordered(g: Csr, mom: Averages, i: int, plan: Plan)
    requires
        g.is_plan(i, plan),
        plan.churn == 0,
        g.degree(i) <= usize::MAX,
    ensures
        plan.grown.len() == 0,
        g.rewired_row(mom, i, plan) == ranked_edges(g, i).map_values(
            |e: int| g.kept_edge(mom, e),
        ),
        ranked_edges(g, i).to_multiset() == row_edges(g, i).to_multiset(),
{
    law_ranks_reorder_a_row(g, i);
    assert(g.rewired_row(mom, i, plan) =~= ranked_edges(g, i).map_values(
        |e: int| g.kept_edge(mom, e),
    ));
}

/// Where the fraction leaves no edge to rewire, the plan prunes and grows none.
pub proof fn law_no_churn_no_growth<A: Arith>(
    model: Model,
    trace: Trace,
    slopes: Slopes,
    i: int,
    frac: Single,
    cand: Seq<u32>,
)
    requires
        model.churn_count::<A>(frac, i) == 0,
    ensures
        model.plan_for::<A>(trace, slopes, i, frac, cand).churn == 0,
        model.plan_for::<A>(trace, slopes, i, frac, cand).grown.len() == 0,
{
}

/// Edges are grown to candidates of the highest scores: a candidate that is left
/// out scores no higher than one that is not.
pub proof fn law_highest_scores_are_grown<A: Arith>(
    model: Model,
    trace: Trace,
    slopes: Slopes,
    i: int,
    frac: Single,
    cand: Seq<u32>,
    c: int,
    b: int,
)
    requires
        cand.len() <= usize::MAX,
        0 <= c < model.plan_for::<A>(trace, slopes, i, frac, cand).grown.len(),
        0 <= b < cand.len(),
        !model.plan_for::<A>(trace, slopes, i, frac, cand).grown.contains(cand[b]),
    ensures
        model.score::<A>(trace, slopes, i, cand[b]).mag() <= model.score::<A>(
            trace,
            slopes,
            i,
            model.plan_for::<A>(trace, slopes, i, frac, cand).grown[c],
        ).mag(),
{
    let plan = model.plan_for::<A>(trace, slopes, i, frac, cand);
    let scores = model.scores::<A>(trace, slopes, i, cand);
    let keys = bits_of(scores);
    let n = cand.len() as int;
    let order = ranking(keys, n);
    law_ranking_is_stable_sort(keys, n);
    assert(order.contains(b as usize));
    let p = choose|p: int| 0 <= p < order.len() && order[p] == b as usize;
    if p < plan.grown.len() {
        assert(plan.grown[p] == cand[b]);
    }
    assert(outranks(keys, order[c], order[p]));
    assert(order[c] < n);
    assert(keys[order[c] as int] == scores[order[c] as int].bits);
    assert(keys[b] == scores[b].bits);
}

// --- the update -------------------------------------------------------------

/// Performs one prune/grow update in place. Returns the actual churn fraction
/// (edges rewired / total edges) for logging. Requires the most recent forward
/// tape and its gradients (for scoring candidate edges). Where a NaN stands among
/// weights or scores that have to be ranked, nothing is changed.
pub fn rigl_step<A: Arith>(
    net: &mut Network,
    wmom: &mut Moment,
    tape: &Tape,
    grads: &Grads,
    opt_step: u64,
) -> (r: Result<Single, NotANumber>)
    requires
        old(net).wf(),
        old(net)@.has_scores(tape@, grads@),
        old(net)@.graph.edges() <= old(wmom).m@.len(),
        old(net)@.graph.edges() <= old(wmom).v@.len(),
        old(net)@.graph.degree_sum(old(net).cfg.n as int) <= u32::MAX,
    ensures
        r is Err ==> *final(net) == *old(net) && *final(wmom) == *old(wmom),
        deterministic::<A>() ==> (r is Ok <==> forall|i: int|
            0 <= i < old(net).cfg.n ==> #[trigger] old(net)@.has_order::<A>(
                tape@,
                grads@,
                opt_step,
                i,
            )),
        r is Ok ==> forall|i: int|
            0 <= i < old(net).cfg.n ==> #[trigger] old(net)@.graph.has_ordered_weights(i),
        r is Ok ==> ({
            let g = old(net)@.graph;
            let h = final(net)@.graph;
            &&& final(net).wf()
            &&& final(net)@ == (Model { graph: h, ..old(net)@ })
            &&& h.is_packed()
            &&& h.edges() == g.degree_sum(g.n)
            &&& g.is_packed() ==> h.edges() == g.edges()
            &&& forall|i: int| 0 <= i < g.n ==> #[trigger] h.degree(i) == g.degree(i)
            &&& g.is_simple() ==> h.is_simple()
            &&& final(wmom).m@.len() == h.edges()
            &&& final(wmom).v@.len() == h.edges()
            &&& exists|plans: Seq<Plan>| #[trigger]
                g.are_plans(plans) && h == g.rewired(old(wmom)@, plans) && final(wmom)@
                    == g.rewired_moments(old(wmom)@, plans)
        }),
        deterministic::<A>() ==> (r matches Ok(churn) ==> ({
            let g = old(net)@.graph;
            let plans = old(net)@.best_plans::<A>(tape@, grads@, opt_step);
            &&& g.are_plans(plans)
            &&& final(net)@.graph == g.rewired(old(wmom)@, plans)
            &&& final(wmom)@ == g.rewired_moments(old(wmom)@, plans)
            &&& churn == quotient::<A>(
                counted::<A>(grown_in(plans, g.n) as u64),
                counted::<A>(g.edges() as u64),
            )
        })),
{
    let n = net.cfg.n;
    let ghost model = net@;
    let ghost g = net@.graph;
    let ghost mom = wmom@;
    let ghost mut plans: Seq<Plan> = Seq::empty();
    let ghost best = model.best_plans::<A>(tape@, grads@, opt_step);
    assert(n < net.topo.row_ptr.len());
    let frac = churn_fraction::<A>(&net.cfg, opt_step);
    let total_edges = net.topo.num_edges();
    let mut edges: Vec<Edge> = Vec::new();
    let mut new_row: Vec<u32> = Vec::new();
    new_row.push(0);
    let mut rng = seeded(net.cfg.seed ^ RIGL_SALT ^ opt_step);
    let mut rewired: usize = 0;
    let mut i: usize = 0;
    while i < n
        invariant
            *net == *old(net),
            *wmom == *old(wmom),
            net.wf(),
            n == net.cfg.n,
            model == net@,
            g == net@.graph,
            mom == wmom@,
            model.has_scores(tape@, grads@),
            g.edges() <= mom.m.len(),
            g.edges() <= mom.v.len(),
            g.degree_sum(n as int) <= u32::MAX,
            deterministic::<A>() ==> frac == churn_rate::<A>(model.cfg, opt_step),
            i <= n,
            generator_state(rng) == model.candidate_state(opt_step, i as int),
            plans.len() == i,
            forall|q: int| 0 <= q < i ==> g.is_plan(q, #[trigger] plans[q]),
            edges@ == g.rewired_rows(mom, plans, i as int),
            new_row@ == Seq::new((i + 1) as nat, |q: int| g.degree_sum(q) as u32),
            rewired == grown_in(plans, i as int),
            rewired <= g.degree_sum(i as int),
            forall|q: int| 0 <= q < i ==> #[trigger] g.has_ordered_weights(q),
            best == model.best_plans::<A>(tape@, grads@, opt_step),
            deterministic::<A>() ==> forall|q: int| 0 <= q < i ==> #[trigger] plans[q] == best[q],
            deterministic::<A>() ==> forall|q: int|
                0 <= q < i ==> #[trigger] model.has_order::<A>(tape@, grads@, opt_step, q),
        decreases n - i,
    {
        let order = match row_order(&net.topo, i) {
            Ok(order) => order,
            Err(e) => {
                assert(!model.has_order::<A>(tape@, grads@, opt_step, i as int));
                return Err(e);
            },
        };
        let cand = draw_candidates(net, i, &mut rng);
        assert(cand@ == model.candidates(opt_step, i as int));
        let (churn, grown) = match plan_row::<A>(net, tape, grads, frac, i, &cand) {
            Ok(plan) => plan,
            Err(e) => {
                assert(deterministic::<A>() ==> !model.has_order::<A>(
                    tape@,
                    grads@,
                    opt_step,
                    i as int,
                ));
                return Err(e);
            },
        };
        push_row(&net.topo, wmom, i, &order, churn, &grown, &mut edges);
        proof {
            let plan = Plan { churn: churn as int, grown: grown@ };
            let before = plans;
            plans = before.push(plan);
            lemma_rewired_rows_prefix(g, mom, plans, before, i as int);
            assert(plans[i as int] == plan);
            lemma_rewired_len(g, mom, plans, i + 1);
            lemma_degree_sum(g, i + 1, n as int);
            assert(edges@ == g.rewired_rows(mom, plans, i + 1));
            assert(edges.len() == g.degree_sum(i + 1));
        }
        rewired += grown.len();
        new_row.push(edges.len() as u32);
        i += 1;
        assert(new_row@ =~= Seq::new((i + 1) as nat, |q: int| g.degree_sum(q) as u32));
    }
    proof {
        assert(g.are_plans(plans));
        law_edge_budget_is_constant(g, mom, plans);
        if g.is_simple() {
            law_rewiring_keeps_graph_simple(g, mom, plans);
        }
        if deterministic::<A>() {
            assert(plans =~= best);
        }
    }
    let mut new_col: Vec<u32> = Vec::new();
    let mut new_w: Vec<Single> = Vec::new();
    let mut new_m: Vec<Single> = Vec::new();
    let mut new_v: Vec<Single> = Vec::new();
    let mut e: usize = 0;
    while e < edges.len()
        invariant
            e <= edges@.len(),
            new_col@ == Seq::new(e as nat, |k: int| edges@[k].target),
            new_w@ == Seq::new(e as nat, |k: int| edges@[k].weight),
            new_m@ == Seq::new(e as nat, |k: int| edges@[k].m),
            new_v@ == Seq::new(e as nat, |k: int| edges@[k].v),
        decreases edges.len() - e,
    {
        let edge = edges[e];
        new_col.push(edge.target);
        new_w.push(edge.weight);
        new_m.push(edge.m);
        new_v.push(edge.v);
        e += 1;
        assert(new_col@ =~= Seq::new(e as nat, |k: int| edges@[k].target));
        assert(new_w@ =~= Seq::new(e as nat, |k: int| edges@[k].weight));
        assert(new_m@ =~= Seq::new(e as nat, |k: int| edges@[k].m));
        assert(new_v@ =~= Seq::new(e as nat, |k: int| edges@[k].v));
    }
    proof {
        let h = g.rewired(mom, plans);
        assert(new_col@ =~= h.col_idx);
        assert(new_w@ =~= h.weights);
        assert(new_row@ =~= h.row_ptr);
        assert(new_m@ =~= g.rewired_moments(mom, plans).m);
        assert(new_v@ =~= g.rewired_moments(mom, plans).v);
    }
    net.topo = Topology::from_csr(n, new_row, new_col, new_w);
    wmom.m = new_m;
    wmom.v = new_v;
    assert(net@.graph =~= g.rewired(mom, plans));
    assert(wmom@ =~= g.rewired_moments(mom, plans));
    Ok(A::over(A::of_count(rewired as u64), A::of_count(total_edges as u64)))
}

// --- the rate, the candidates and the plans ---------------------------------

/// While the decay lasts, that is while the share `q` of it that is over is below one,
/// the rate falls with the cosine of half a turn times that share.
pub proof fn law_rate_falls_with_the_cosine<A: Arith>(cfg: Config, opt_step: u64, q: Single)
    requires
        q == quotient::<A>(
            counted::<A>(opt_step),
            counted::<A>(
                if cfg.rigl_decay_steps == 0 {
                    1
                } else {
                    cfg.rigl_decay_steps as u64
                },
            ),
        ),
        less(q, unit()),
    ensures
        churn_rate::<A>(cfg, opt_step) == product::<A>(
            product::<A>(cfg.rigl_fraction, Single { bits: 0x3f00_0000 }),
            sum::<A>(unit(), cosine::<A>(product::<A>(Single { bits: 0x4049_0fdb }, q))),
        ),
{
}

/// Once the decay is over the rate stays what it was at its end.
pub proof fn law_rate_stays_after_the_decay<A: Arith>(cfg: Config, opt_step: u64, q: Single)
    requires
        q == quotient::<A>(
            counted::<A>(opt_step),
            counted::<A>(
                if cfg.rigl_decay_steps == 0 {
                    1
                } else {
                    cfg.rigl_decay_steps as u64
                },
            ),
        ),
        !less(q, unit()),
    ensures
        churn_rate::<A>(cfg, opt_step) == product::<A>(
            product::<A>(cfg.rigl_fraction, Single { bits: 0x3f00_0000 }),
            sum::<A>(unit(), cosine::<A>(product::<A>(Single { bits: 0x4049_0fdb }, unit()))),
        ),
{
}

/// A number of steps divided by a smaller one, or by itself, is not below one.
pub open spec fn counts_in_order<A: Arith>() -> bool {
    forall|a: u64, b: u64|
        1 <= b <= a ==> !less(
            #[trigger] quotient::<A>(counted::<A>(a), counted::<A>(b)),
            unit(),
        )
}

/// From the end of the decay on the rate does not depend on the step.
pub proof fn law_rate_is_constant_after_the_decay<A: Arith>(cfg: Config, a: u64, b: u64)
    requires
        counts_in_order::<A>(),
        1 <= a,
        1 <= b,
        cfg.rigl_decay_steps <= a,
        cfg.rigl_decay_steps <= b,
    ensures
        churn_rate::<A>(cfg, a) == churn_rate::<A>(cfg, b),
{
    let steps: u64 = if cfg.rigl_decay_steps == 0 {
        1
    } else {
        cfg.rigl_decay_steps as u64
    };
    law_rate_stays_after_the_decay::<A>(
        cfg,
        a,
        quotient::<A>(counted::<A>(a), counted::<A>(steps)),
    );
    law_rate_stays_after_the_decay::<A>(
        cfg,
        b,
        quotient::<A>(counted::<A>(b), counted::<A>(steps)),
    );
}

/// The candidates are the neurons drawn that `i` is not connected to, all of them; and
/// later draws come behind earlier ones.
pub proof fn law_candidates_are_the_new_draws(g: Csr, i: int, draws: Seq<u32>, c: int, j: u32)
    requires
        0 <= c,
    ensures
        g.fresh(i, draws, c).contains(j) <==> j < g.n && !g.connected(i, j) && exists|k: int|
            0 <= k < c && #[trigger] draws[k] == j,
        g.fresh(i, draws, c).len() <= g.fresh(i, draws, c + 1).len(),
        g.fresh(i, draws, c + 1).take(g.fresh(i, draws, c).len() as int) == g.fresh(i, draws, c),
    decreases c,
{
    let before = g.fresh(i, draws, c);
    assert(g.fresh(i, draws, c + 1).take(before.len() as int) =~= before);
    if c > 0 {
        law_candidates_are_the_new_draws(g, i, draws, c - 1, j);
        let fewer = g.fresh(i, draws, c - 1);
        let drawn = draws[c - 1];
        if before.contains(j) && !fewer.contains(j) {
            let a = choose|a: int| 0 <= a < before.len() && before[a] == j;
            assert(before == fewer.push(drawn));
            if a < fewer.len() {
                assert(fewer[a] == j);
            }
            assert(draws[c - 1] == j);
        }
        if fewer.contains(j) {
            let a = choose|a: int| 0 <= a < fewer.len() && fewer[a] == j;
            assert(before[a] == j);
            let k = choose|k: int| 0 <= k < c - 1 && #[trigger] draws[k] == j;
            assert(draws[k] == j && 0 <= k < c);
        }
        if drawn == j && j < g.n && !g.connected(i, j) && !fewer.contains(j) {
            assert(before == fewer.push(j));
            assert(before[fewer.len() as int] == j);
        }
        if j < g.n && !g.connected(i, j) && exists|k: int| 0 <= k < c && #[trigger] draws[k] == j {
            let k = choose|k: int| 0 <= k < c && #[trigger] draws[k] == j;
            if k < c - 1 {
                assert(fewer.contains(j));
            }
        }
    }
}

/// Drawing goes on where it stopped, and one number is one draw.
pub proof fn law_draws_below_go_on(state: Seq<u32>, bound: u32, a: int, b: int)
    requires
        0 <= a,
        0 <= b,
    ensures
        ({
            let (xs, between) = draws_below(state, bound, a);
            let (ys, after) = draws_below(between, bound, b);
            &&& xs.len() == a
            &&& ys.len() == b
            &&& draws_below(state, bound, a + b) == (xs + ys, after)
        }),
        draws_below(state, bound, 1) == (
            seq![drawn_below(state, bound).0],
            drawn_below(state, bound).1,
        ),
    decreases a + b,
{
    reveal_with_fuel(draws_below, 2);
    assert(draws_below(state, bound, 1).0 =~= seq![drawn_below(state, bound).0]);
    let (xs, between) = draws_below(state, bound, a);
    let (ys, after) = draws_below(between, bound, b);
    if b > 0 {
        law_draws_below_go_on(state, bound, a, b - 1);
        assert(draws_below(state, bound, a + b).0 =~= xs + ys);
    } else {
        if a > 0 {
            law_draws_below_go_on(state, bound, a - 1, 0);
        }
        assert(xs + ys =~= xs);
    }
}

proof fn lemma_candidate_state(model: Model, opt_step: u64, i: int)
    requires
        0 <= i,
    ensures
        0 <= i * model.cfg.rigl_candidates,
        model.candidate_state(opt_step, i) == draws_below(
            seeded_state(model.cfg.seed ^ RIGL_SALT ^ opt_step),
            model.cfg.n as u32,
            i * model.cfg.rigl_candidates,
        ).1,
    decreases i,
{
    let c = model.cfg.rigl_candidates as int;
    if i > 0 {
        lemma_candidate_state(model, opt_step, i - 1);
        assert(i * c == (i - 1) * c + c) by (nonlinear_arith);
        law_draws_below_go_on(
            seeded_state(model.cfg.seed ^ RIGL_SALT ^ opt_step),
            model.cfg.n as u32,
            (i - 1) * c,
            c,
        );
    } else {
        assert(i * c == 0) by (nonlinear_arith)
            requires
                i == 0,
        ;
    }
}

/// All neurons draw from one stream of numbers below the number of neurons, which
/// depends on seed and step: neuron `i` takes its draws behind those of the neurons
/// before it.
pub proof fn law_candidates_come_from_one_stream(model: Model, opt_step: u64, i: int)
    requires
        0 <= i,
    ensures
        ({
            let c = model.cfg.rigl_candidates as int;
            let all = draws_below(
                seeded_state(model.cfg.seed ^ 0x5164_1234 ^ opt_step),
                model.cfg.n as u32,
                i * c + c,
            ).0;
            model.candidates(opt_step, i) == model.graph.fresh(i, all.skip(i * c), c)
        }),
{
    let c = model.cfg.rigl_candidates as int;
    let start = seeded_state(model.cfg.seed ^ RIGL_SALT ^ opt_step);
    let bound = model.cfg.n as u32;
    lemma_candidate_state(model, opt_step, i);
    law_draws_below_go_on(start, bound, i * c, c);
    let all = draws_below(start, bound, i * c + c).0;
    let mine = draws_below(model.candidate_state(opt_step, i), bound, c).0;
    assert(all.skip(i * c) =~= mine);
}

/// The score of an edge from `i` to `j` is the magnitude of the gradient that its weight
/// would have: over the steps of the window, what `i` would have sent times the
/// gradient of the pre-activation of `j`. `partial[t]` is the sum over the first `t`
/// steps; steps at which `i` was silent add nothing.
pub proof fn law_score_is_the_would_be_gradient<A: Arith>(
    model: Model,
    trace: Trace,
    slopes: Slopes,
    i: int,
    j: u32,
    partial: Seq<Single>,
)
    requires
        partial.len() == model.cfg.window + 1,
        partial[0] == nought(),
        forall|t: int|
            0 < t <= model.cfg.window ==> #[trigger] partial[t] == {
                let sent = if t == 1 {
                    trace.state_init[i]
                } else {
                    trace.state[t - 2][i]
                };
                if sent.zero() {
                    partial[t - 1]
                } else {
                    sum::<A>(partial[t - 1], product::<A>(sent, slopes.dpre[t - 1][j as int]))
                }
            },
    ensures
        model.score::<A>(trace, slopes, i, j) == partial.last().absolute(),
{
    let heard = |t: int| !trace.state_before(t)[i].zero();
    let term = |t: int| product::<A>(trace.state_before(t)[i], slopes.dpre[t][j as int]);
    law_running_sum_passes_over_terms::<A>(model.cfg.window as int, heard, term, partial);
}

/// As many edges are rewired as the rounded share of the degree, and at most all.
pub proof fn law_churn_is_a_share_of_the_degree<A: Arith>(
    model: Model,
    frac: Single,
    i: int,
    count: usize,
)
    requires
        count == count_in::<A>(
            rounded::<A>(product::<A>(frac, counted::<A>(model.graph.degree(i) as u64))),
        ),
    ensures
        0 <= model.churn_count::<A>(frac, i) <= model.graph.degree(i),
        count <= model.graph.degree(i) ==> model.churn_count::<A>(frac, i) == count,
        count > model.graph.degree(i) ==> model.churn_count::<A>(frac, i) == model.graph.degree(i),
{
}

/// A plan grows as many edges as it prunes, or one to each candidate where there are
/// fewer of them; what it grows are candidates, by descending score, and of equal
/// scores the candidate drawn first.
pub proof fn law_growth_is_by_score<A: Arith>(
    model: Model,
    trace: Trace,
    slopes: Slopes,
    i: int,
    frac: Single,
    cand: Seq<u32>,
    a: int,
    b: int,
)
    requires
        cand.len() <= usize::MAX,
        cand.no_duplicates(),
        0 <= a < b < model.plan_for::<A>(trace, slopes, i, frac, cand).grown.len(),
    ensures
        ({
            let plan = model.plan_for::<A>(trace, slopes, i, frac, cand);
            let x = model.score::<A>(trace, slopes, i, plan.grown[a]).mag();
            let y = model.score::<A>(trace, slopes, i, plan.grown[b]).mag();
            &&& plan.grown[a] != plan.grown[b]
            &&& cand.contains(plan.grown[a])
            &&& cand.contains(plan.grown[b])
            &&& x > y || (x == y && cand.index_of(plan.grown[a]) < cand.index_of(plan.grown[b]))
        }),
{
    let plan = model.plan_for::<A>(trace, slopes, i, frac, cand);
    let scores = model.scores::<A>(trace, slopes, i, cand);
    let keys = bits_of(scores);
    let n = cand.len() as int;
    let order = ranking(keys, n);
    law_ranking_is_stable_sort(keys, n);
    assert(outranks(keys, order[a], order[b]));
    assert(order[a] < n && order[b] < n);
    assert(plan.grown[a] == cand[order[a] as int]);
    assert(plan.grown[b] == cand[order[b] as int]);
    assert(keys[order[a] as int] == scores[order[a] as int].bits);
    assert(keys[order[b] as int] == scores[order[b] as int].bits);
    assert(cand[cand.index_of(plan.grown[a])] == plan.grown[a]);
    assert(cand[cand.index_of(plan.grown[b])] == plan.grown[b]);
}

/// How much is planned for each neuron: what the rate of the step leaves, of its own
/// candidates.
pub proof fn law_plans_follow_the_rate<A: Arith>(
    model: Model,
    trace: Trace,
    slopes: Slopes,
    opt_step: u64,
    i: int,
)
    requires
        0 <= i < model.cfg.n,
    ensures
        ({
            let plans = model.best_plans::<A>(trace, slopes, opt_step);
            let cand = model.candidates(opt_step, i);
            let churn = model.churn_count::<A>(churn_rate::<A>(model.cfg, opt_step), i);
            &&& plans.len() == model.cfg.n
            &&& plans[i].churn == churn
            &&& churn <= cand.len() ==> plans[i].grown.len() == churn
            &&& cand.len() < churn ==> plans[i].grown.len() == cand.len()
            &&& plans[i] == model.plan_for::<A>(
                trace,
                slopes,
                i,
                churn_rate::<A>(model.cfg, opt_step),
                cand,
            )
        }),
{
    law_churn_is_a_share_of_the_degree::<A>(
        model,
        churn_rate::<A>(model.cfg, opt_step),
        i,
        count_in::<A>(
            rounded::<A>(
                product::<A>(
                    churn_rate::<A>(model.cfg, opt_step),
                    counted::<A>(model.graph.degree(i) as u64),
                ),
            ),
        ),
    );
}

/// Ranks go by magnitude, the largest first, and among equal ones by place.
pub proof fn law_ranks_go_by_magnitude(g: Csr, i: int, a: int, b: int)
    requires
        0 <= i < g.n,
        is_csr(g.n as nat, g.row_ptr, g.col_idx),
        g.edges() <= u32::MAX,
        0 <= a < b < g.degree(i),
    ensures
        ({
            let x = g.ranked_edge(i, a);
            let y = g.ranked_edge(i, b);
            &&& g.row_ptr[i] <= x < g.row_ptr[i + 1]
            &&& g.row_ptr[i] <= y < g.row_ptr[i + 1]
            &&& g.weights[x].mag() > g.weights[y].mag() || (g.weights[x].mag()
                == g.weights[y].mag() && x < y)
        }),
{
    let keys = g.weight_keys(i);
    let order = ranking(keys, g.degree(i));
    assert(row_fits(g.row_ptr, g.edges(), i));
    law_ranking_is_stable_sort(keys, g.degree(i));
    assert(outranks(keys, order[a], order[b]));
    assert(order[a] < g.degree(i) && order[b] < g.degree(i));
    assert(keys[order[a] as int] == g.weights[g.ranked_edge(i, a)].mag());
    assert(keys[order[b] as int] == g.weights[g.ranked_edge(i, b)].mag());
}

/// A rewired row goes by rank: the survivors by descending magnitude, the edges grown,
/// and then the largest of those pruned. So what is dropped are the edges of the last
/// ranks, one for each that is grown. Weight and moments stay with an edge that is
/// kept, and are zero for one that is grown.
pub proof fn law_rewired_row_goes_by_rank(
    g: Csr,
    mom: Averages,
    i: int,
    plan: Plan,
    q: int,
)
    requires
        0 <= i < g.n,
        is_csr(g.n as nat, g.row_ptr, g.col_idx),
        g.edges() <= u32::MAX,
        g.is_plan(i, plan),
        0 <= q < g.degree(i),
    ensures
        ({
            let keep = g.degree(i) - plan.churn;
            let grow = plan.grown.len() as int;
            let row = g.rewired_row(mom, i, plan);
            let edge = g.kept_edge(mom, g.ranked_edge(i, q));
            &&& row.len() == g.degree(i)
            &&& edge.target == g.col_idx[g.ranked_edge(i, q)]
            &&& edge.weight == g.weights[g.ranked_edge(i, q)]
            &&& edge.m == mom.m[g.ranked_edge(i, q)]
            &&& edge.v == mom.v[g.ranked_edge(i, q)]
            &&& q < keep ==> row[q] == edge
            &&& keep <= q < g.degree(i) - grow ==> row[q + grow] == edge
            &&& 0 <= q - keep < grow ==> row[q].target == plan.grown[q - keep] && row[q].weight
                == nought() && row[q].m == nought() && row[q].v == nought()
        }),
{
}

/// Where an edge of the rewired graph stands: the rows follow one another, each as long
/// as it was, and weight and moments stand with their edge.
pub proof fn law_rewired_edges_keep_together(
    g: Csr,
    mom: Averages,
    plans: Seq<Plan>,
    i: int,
    k: int,
)
    requires
        0 <= i < g.n,
        0 <= k < g.degree(i),
        is_csr(g.n as nat, g.row_ptr, g.col_idx),
        g.edges() <= u32::MAX,
        g.are_plans(plans),
        g.degree_sum(g.n) <= u32::MAX,
    ensures
        ({
            let h = g.rewired(mom, plans);
            let moved = g.rewired_moments(mom, plans);
            let edge = g.rewired_row(mom, i, plans[i])[k];
            let e = h.row_ptr[i] + k;
            &&& h.n == g.n
            &&& h.row_ptr[0] == 0
            &&& h.row_ptr[i + 1] == h.row_ptr[i] + g.degree(i)
            &&& h.col_idx[e] == edge.target
            &&& h.weights[e] == edge.weight
            &&& moved.m[e] == edge.m
            &&& moved.v[e] == edge.v
        }),
{
    law_edge_budget_is_constant(g, mom, plans);
    lemma_rewired_at(g, mom, plans, g.n, i, k);
    lemma_rewired_len(g, mom, plans, g.n);
    lemma_degree_sum(g, i, g.n);
    lemma_degree_sum(g, i + 1, g.n);
}

/// What is reported as rewired is the number of edges grown, over all neurons.
pub proof fn law_rewired_is_what_was_grown(plans: Seq<Plan>, i: int)
    requires
        0 <= i < plans.len(),
    ensures
        grown_in(plans, 0) == 0,
        grown_in(plans, i + 1) == grown_in(plans, i) + plans[i].grown.len(),
{
}

/// Ranking fails at NaNs alone: a neuron can be rewired exactly if it has no weight that
/// is a NaN and no candidate that scores a NaN, or none to compare it to.
pub proof fn law_ranking_fails_at_nans_alone<A: Arith>(
    model: Model,
    trace: Trace,
    slopes: Slopes,
    opt_step: u64,
    i: int,
)
    ensures
        model.has_order::<A>(trace, slopes, opt_step, i) <==> {
            let g = model.graph;
            let cand = model.candidates(opt_step, i);
            &&& g.degree(i) <= 1 || forall|k: int|
                0 <= k < g.degree(i) ==> !(#[trigger] g.weights[g.row_ptr[i] + k]).nan()
            &&& cand.len() <= 1 || forall|c: int|
                0 <= c < cand.len() ==> !model.score::<A>(
                    trace,
                    slopes,
                    i,
                    #[trigger] cand[c],
                ).nan()
        },
{
    let g = model.graph;
    let cand = model.candidates(opt_step, i);
    let scores = model.scores::<A>(trace, slopes, i, cand);
    assert forall|c: int| 0 <= c < cand.len() implies #[trigger] scores[c] == model.score::<A>(
        trace,
        slopes,
        i,
        cand[c],
    ) by {}
    if g.has_ordered_weights(i) && g.degree(i) > 1 {
        assert forall|k: int| 0 <= k < g.degree(i) implies !(#[trigger] g.weights[g.row_ptr[i]
            + k]).nan() by {
            assert(!g.weights[g.row_start(i) + k].nan());
        }
    }
    if forall|k: int|
        0 <= k < g.degree(i) ==> !(#[trigger] g.weights[g.row_ptr[i] + k]).nan() {
        assert forall|k: int| 0 <= k < g.degree(i) implies !(#[trigger] g.weights[g.row_start(i)
            + k]).nan() by {
            assert(!g.weights[g.row_ptr[i] + k].nan());
        }
    }
    if are_ordered(scores) && cand.len() > 1 {
        assert forall|c: int| 0 <= c < cand.len() implies !model.score::<A>(
            trace,
            slopes,
            i,
            #[trigger] cand[c],
        ).nan() by {
            assert(!scores[c].nan());
        }
    }
    if forall|c: int|
        0 <= c < cand.len() ==> !model.score::<A>(trace, slopes, i, #[trigger] cand[c]).nan() {
        assert forall|c: int| 0 <= c < scores.len() implies !(#[trigger] scores[c]).nan() by {
            assert(!model.score::<A>(trace, slopes, i, cand[c]).nan());
        }
    }
}

/// A candidate that is left out ranks behind every one that is not: it scores less, or as
/// much and was drawn later.
pub proof fn law_left_out_candidates_rank_behind<A: Arith>(
    model: Model,
    trace: Trace,
    slopes: Slopes,
    i: int,
    frac: Single,
    cand: Seq<u32>,
    c: int,
    b: int,
)
    requires
        cand.len() <= usize::MAX,
        cand.no_duplicates(),
        0 <= c < model.plan_for::<A>(trace, slopes, i, frac, cand).grown.len(),
        0 <= b < cand.len(),
        !model.plan_for::<A>(trace, slopes, i, frac, cand).grown.contains(cand[b]),
    ensures
        ({
            let plan = model.plan_for::<A>(trace, slopes, i, frac, cand);
            let x = model.score::<A>(trace, slopes, i, plan.grown[c]).mag();
            let y = model.score::<A>(trace, slopes, i, cand[b]).mag();
            &&& cand.contains(plan.grown[c])
            &&& x > y || (x == y && cand.index_of(plan.grown[c]) < b)
        }),
{
    let plan = model.plan_for::<A>(trace, slopes, i, frac, cand);
    let scores = model.scores::<A>(trace, slopes, i, cand);
    let keys = bits_of(scores);
    let n = cand.len() as int;
    let order = ranking(keys, n);
    law_ranking_is_stable_sort(keys, n);
    assert(order.contains(b as usize));
    let p = choose|p: int| 0 <= p < order.len() && order[p] == b as usize;
    if p < plan.grown.len() {
        assert(plan.grown[p] == cand[b]);
    }
    assert(outranks(keys, order[c], order[p]));
    assert(order[c] < n);
    assert(plan.grown[c] == cand[order[c] as int]);
    assert(keys[order[c] as int] == scores[order[c] as int].bits);
    assert(keys[b] == scores[b].bits);
    assert(cand[cand.index_of(plan.grown[c])] == plan.grown[c]);
}

} // verus!
