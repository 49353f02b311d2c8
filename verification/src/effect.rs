//! What edges do: how signals and gradients travel over them, and what becomes of
//! the function that a network computes when edges of weight zero are exchanged.
use vstd::prelude::*;

use crate::arith::{
    absorbs_zero, is_steady, keeps_zero, law_running_sum_adds_one_by_one,
    law_running_sum_passes_over_terms, lemma_running_sum_ext, lemma_running_sum_where_ext, product,
    running_sum, running_sum_where, sum, Arith,
};
use crate::graph::{
    are_distinct_others, edges_into, is_csr, law_sources_own_disjoint_rows, row_fits, Csr,
};
use crate::network::{surprise, Model};
use crate::optim::Averages;
use crate::ranking::{law_ranking_is_stable_sort, outranks, ranking};
use crate::rigl::{
    law_degrees_add_up, law_edge_budget_is_constant, law_rewiring_keeps_graph_simple,
    lemma_degree_sum, lemma_rewired_at, lemma_rewired_targets, Plan,
};
use crate::scalar::{nought, Single};

verus! {

impl Csr {
    /// Neuron `i` has an edge to `j`.
    pub open spec fn has_link(self, i: int, j: u32) -> bool {
        self.targets(i).contains(j)
    }

    /// The weight of the edge from `i` to `j`.
    pub open spec fn link_weight(self, i: int, j: u32) -> Single {
        self.weights[self.row_start(i) + self.targets(i).index_of(j)]
    }

    /// `start`, plus what arrives at `j` from the first `rows` neurons, in their
    /// order.
    pub open spec fn arrivals<A: Arith>(
        self,
        start: Single,
        prev: Seq<Single>,
        j: u32,
        rows: int,
    ) -> Single
        decreases rows,
    {
        if rows <= 0 {
            start
        } else {
            let acc = self.arrivals::<A>(start, prev, j, rows - 1);
            let i = rows - 1;
            if self.has_link(i, j) && !prev[i].zero() {
                sum::<A>(acc, product::<A>(self.link_weight(i, j), prev[i]))
            } else {
                acc
            }
        }
    }

    /// `start`, plus what arrives at `j` over the first `upto` edges, in their order.
    pub open spec fn edge_sum<A: Arith>(
        self,
        start: Single,
        prev: Seq<Single>,
        j: u32,
        upto: int,
    ) -> Single
        decreases upto,
    {
        if upto <= 0 {
            start
        } else {
            let acc = self.edge_sum::<A>(start, prev, j, upto - 1);
            let e = upto - 1;
            let sv = prev[self.source(e) as int];
            if self.col_idx[e] == j && !sv.zero() {
                sum::<A>(acc, product::<A>(self.weights[e], sv))
            } else {
                acc
            }
        }
    }

    /// The rows are packed, without self-loops and without two edges from one neuron
    /// to the same other; and there is a weight per edge.
    pub open spec fn is_tidy(self) -> bool {
        &&& 0 <= self.n <= u32::MAX
        &&& self.is_packed()
        &&& self.is_simple()
        &&& self.edges() <= u32::MAX
        &&& self.weights.len() == self.edges()
        &&& is_csr(self.n as nat, self.row_ptr, self.col_idx)
    }

    /// From `i` to `j` the two graphs have edges of the same weight, or none, or one
    /// of them has an edge of weight zero.
    pub open spec fn links_alike(self, other: Csr, i: int, j: u32) -> bool {
        &&& self.has_link(i, j) && other.has_link(i, j) ==> self.link_weight(i, j)
            == other.link_weight(i, j)
        &&& self.has_link(i, j) && !other.has_link(i, j) ==> self.link_weight(i, j).zero()
        &&& !self.has_link(i, j) && other.has_link(i, j) ==> other.link_weight(i, j).zero()
    }

    /// The two graphs differ in edges of weight zero, and in the order of edges,
    /// alone.
    pub open spec fn is_like(self, other: Csr) -> bool {
        &&& self.n == other.n
        &&& forall|i: int, j: u32|
            0 <= i < self.n && j < self.n ==> #[trigger] self.links_alike(other, i, j)
    }
}

// --- sums by edge and by source ---------------------------------------------

/// The in-edges found so far are the first of all.
proof fn lemma_into_prefix(col_idx: Seq<u32>, j: int, m: int, upto: int)
    requires
        0 <= m <= upto,
    ensures
        edges_into(col_idx, j, m).len() <= edges_into(col_idx, j, upto).len(),
        forall|k: int|
            0 <= k < edges_into(col_idx, j, m).len() ==> #[trigger] edges_into(
                col_idx,
                j,
                upto,
            )[k] == edges_into(col_idx, j, m)[k],
    decreases upto,
{
    if m < upto {
        lemma_into_prefix(col_idx, j, m, upto - 1);
    }
}

/// Gathering goes through the edges in their order.
proof fn lemma_gathered_by_edge<A: Arith>(
    g: Csr,
    start: Single,
    prev: Seq<Single>,
    j: u32,
    upto: int,
)
    requires
        0 <= upto <= g.edges(),
        g.edges() <= u32::MAX,
    ensures
        ({
            let into = g.into_neuron(j as int);
            running_sum_where::<A>(
                start,
                edges_into(g.col_idx, j as int, upto).len() as int,
                |k: int| !prev[g.source(into[k] as int) as int].zero(),
                |k: int|
                    product::<A>(
                        g.weights[into[k] as int],
                        prev[g.source(into[k] as int) as int],
                    ),
            ) == g.edge_sum::<A>(start, prev, j, upto)
        }),
    decreases upto,
{
    let into = g.into_neuron(j as int);
    let heard = |k: int| !prev[g.source(into[k] as int) as int].zero();
    let term = |k: int|
        product::<A>(g.weights[into[k] as int], prev[g.source(into[k] as int) as int]);
    let found = edges_into(g.col_idx, j as int, upto);
    if upto > 0 {
        lemma_gathered_by_edge::<A>(g, start, prev, j, upto - 1);
        lemma_into_prefix(g.col_idx, j as int, upto, g.edges() as int);
        let before = edges_into(g.col_idx, j as int, upto - 1);
        let m = before.len() as int;
        assert(running_sum_where::<A>(start, m, heard, term) == g.edge_sum::<A>(
            start,
            prev,
            j,
            upto - 1,
        ));
        if g.col_idx[upto - 1] == j {
            assert(found == before.push((upto - 1) as u32));
            assert(found[m] == (upto - 1) as u32);
            assert(into[m] == found[m]);
            assert(into[m] as int == upto - 1);
            assert(heard(m) == !prev[g.source(upto - 1) as int].zero());
            assert(running_sum_where::<A>(start, m + 1, heard, term) == if heard(m) {
                sum::<A>(running_sum_where::<A>(start, m, heard, term), term(m))
            } else {
                running_sum_where::<A>(start, m, heard, term)
            });
        } else {
            assert(found == before);
        }
        assert(running_sum_where::<A>(start, found.len() as int, heard, term) == g.edge_sum::<A>(
            start,
            prev,
            j,
            upto,
        ));
    }
}

/// In row `i`, what arrives at `j` arrives over one edge.
proof fn lemma_row_sum<A: Arith>(
    g: Csr,
    start: Single,
    prev: Seq<Single>,
    j: u32,
    i: int,
    k: int,
)
    requires
        g.is_tidy(),
        0 <= i < g.n,
        0 <= k <= g.degree(i),
        g.edge_sum::<A>(start, prev, j, g.row_start(i)) == g.arrivals::<A>(start, prev, j, i),
    ensures
        g.edge_sum::<A>(start, prev, j, g.row_start(i) + k) == if g.targets(i).take(k).contains(j)
            && !prev[i].zero() {
            sum::<A>(
                g.arrivals::<A>(start, prev, j, i),
                product::<A>(g.link_weight(i, j), prev[i]),
            )
        } else {
            g.arrivals::<A>(start, prev, j, i)
        },
    decreases k,
{
    let targets = g.targets(i);
    assert(g.row_ptr[i] <= g.row_ptr[i + 1]);
    assert(g.row_ptr[i + 1] <= g.row_ptr[g.n]);
    if k > 0 {
        lemma_row_sum::<A>(g, start, prev, j, i, k - 1);
        let e = g.row_start(i) + k - 1;
        law_sources_own_disjoint_rows(g, i, e);
        assert(g.source(e) == i);
        assert(targets[k - 1] == g.col_idx[e]);
        assert(are_distinct_others(targets, i));
        let before = targets.take(k - 1);
        let upto = targets.take(k);
        assert(upto =~= before.push(targets[k - 1]));
        if targets[k - 1] == j {
            assert(upto[k - 1] == j);
            assert(!before.contains(j)) by {
                if before.contains(j) {
                    let q = choose|q: int| 0 <= q < before.len() && before[q] == j;
                    assert(targets[q] == targets[k - 1]);
                }
            }
            assert(targets.contains(j));
            let at = targets.index_of(j);
            assert(targets[at] == j);
            assert(at == k - 1);
        } else {
            assert(upto.contains(j) == before.contains(j)) by {
                if upto.contains(j) {
                    let q = choose|q: int| 0 <= q < upto.len() && upto[q] == j;
                    assert(before[q] == j);
                }
                if before.contains(j) {
                    let q = choose|q: int| 0 <= q < before.len() && before[q] == j;
                    assert(upto[q] == j);
                }
            }
        }
    } else {
        assert(targets.take(0) =~= Seq::<u32>::empty());
    }
}

/// The sum by edges is the sum by sources.
proof fn lemma_edge_sum<A: Arith>(g: Csr, start: Single, prev: Seq<Single>, j: u32, rows: int)
    requires
        g.is_tidy(),
        0 <= rows <= g.n,
    ensures
        g.edge_sum::<A>(start, prev, j, g.row_ptr[rows] as int) == g.arrivals::<A>(
            start,
            prev,
            j,
            rows,
        ),
    decreases rows,
{
    if rows > 0 {
        let i = rows - 1;
        lemma_edge_sum::<A>(g, start, prev, j, i);
        assert(g.row_ptr[i] <= g.row_ptr[i + 1]);
        lemma_row_sum::<A>(g, start, prev, j, i, g.degree(i));
        assert(g.targets(i).take(g.degree(i)) =~= g.targets(i));
        assert(g.row_start(i) + g.degree(i) == g.row_ptr[rows]);
    }
}

/// What arrives at a neuron arrives from the sources in their order, whatever the
/// order of the edges in each row.
pub proof fn law_gathering_goes_by_source<A: Arith>(
    g: Csr,
    start: Single,
    prev: Seq<Single>,
    j: u32,
)
    requires
        g.is_tidy(),
    ensures
        g.gathered::<A>(start, prev, j as int) == g.arrivals::<A>(start, prev, j, g.n),
{
    lemma_gathered_by_edge::<A>(g, start, prev, j, g.edges() as int);
    lemma_edge_sum::<A>(g, start, prev, j, g.n);
}

/// What arrives at a neuron arrives over the edges that end in it, in their order,
/// each with its weight times the state of the neuron that it starts in; silent
/// neurons send nothing.
pub proof fn law_gathering_goes_by_edge<A: Arith>(
    g: Csr,
    start: Single,
    prev: Seq<Single>,
    j: u32,
)
    requires
        g.edges() <= u32::MAX,
    ensures
        g.gathered::<A>(start, prev, j as int) == g.edge_sum::<A>(
            start,
            prev,
            j,
            g.edges() as int,
        ),
{
    lemma_gathered_by_edge::<A>(g, start, prev, j, g.edges() as int);
}

/// One term counts at most.
proof fn lemma_one_term<A: Arith>(
    start: Single,
    n: int,
    counts: spec_fn(int) -> bool,
    term: spec_fn(int) -> Single,
    at: int,
)
    requires
        0 <= at,
        forall|k: int| 0 <= k < n ==> #[trigger] counts(k) == (k == at),
    ensures
        running_sum_where::<A>(start, n, counts, term) == if at < n {
            sum::<A>(start, term(at))
        } else {
            start
        },
    decreases n,
{
    if n > 0 {
        lemma_one_term::<A>(start, n - 1, counts, term, at);
        assert(counts(n - 1) == (n - 1 == at));
    }
}

/// The weight matrix applied to `x` adds up, source by source, weight times `x` of
/// those that have an edge to `j`.
pub proof fn law_spread_goes_by_source<A: Arith>(g: Csr, x: Seq<Single>, j: u32, i: int)
    requires
        g.is_tidy(),
        j < g.n,
        0 <= i < g.n,
    ensures
        g.spread::<A>(x).len() == g.n,
        g.spread::<A>(x)[j as int] == g.spread_to::<A>(x, j as int, g.n),
        g.spread_to::<A>(x, j as int, 0) == nought(),
        g.has_link(i, j) ==> g.spread_to::<A>(x, j as int, i + 1) == sum::<A>(
            g.spread_to::<A>(x, j as int, i),
            product::<A>(g.link_weight(i, j), x[i]),
        ),
        !g.has_link(i, j) ==> g.spread_to::<A>(x, j as int, i + 1) == g.spread_to::<A>(
            x,
            j as int,
            i,
        ),
{
    let targets = g.targets(i);
    assert(are_distinct_others(targets, i));
    let at = if g.has_link(i, j) {
        targets.index_of(j)
    } else {
        g.degree(i)
    };
    let counts = |k: int| g.col_idx[g.row_start(i) + k] == j as int;
    let term = |k: int| product::<A>(g.weights[g.row_start(i) + k], x[i]);
    assert forall|k: int| 0 <= k < g.degree(i) implies #[trigger] counts(k) == (k == at) by {
        assert(targets[k] == g.col_idx[g.row_start(i) + k]);
        if g.has_link(i, j) {
            assert(targets[at] == j);
        } else if targets[k] == j {
            assert(targets.contains(j));
        }
    }
    let before = g.spread_to::<A>(x, j as int, i);
    lemma_one_term::<A>(before, g.degree(i), counts, term, at);
    let rows = i + 1;
    let last = rows - 1;
    let to = j as int;
    let row = |to: int| |k: int| g.col_idx[g.row_start(last) + k] == to;
    let lands = row(to);
    let sent = |k: int| product::<A>(g.weights[g.row_start(last) + k], x[last]);
    assert(g.spread_to::<A>(x, to, rows) == running_sum_where::<A>(
        before,
        g.degree(last),
        lands,
        sent,
    ));
    lemma_running_sum_where_ext::<A>(before, g.degree(i), lands, sent, counts, term);
}

proof fn lemma_spread_arrives<A: Arith>(g: Csr, x: Seq<Single>, j: u32, rows: int)
    requires
        keeps_zero::<A>(),
        absorbs_zero::<A>(),
        g.is_tidy(),
        j < g.n,
        0 <= rows <= g.n,
        forall|e: int| 0 <= e < g.edges() ==> (#[trigger] g.weights[e]).finite(),
    ensures
        g.spread_to::<A>(x, j as int, rows) == g.arrivals::<A>(nought(), x, j, rows),
        is_steady::<A>(g.arrivals::<A>(nought(), x, j, rows)),
    decreases rows,
{
    if rows > 0 {
        let i = rows - 1;
        lemma_spread_arrives::<A>(g, x, j, i);
        law_spread_goes_by_source::<A>(g, x, j, i);
        if g.has_link(i, j) && x[i].zero() {
            let k = g.targets(i).index_of(j);
            assert(g.targets(i)[k] == j);
            assert(row_fits(g.row_ptr, g.edges(), i));
            assert(g.weights[g.row_start(i) + k].finite());
            assert(product::<A>(g.link_weight(i, j), x[i]).zero());
        }
    }
}

/// The radius is estimated of the matrix that the forward pass applies: what the weight
/// matrix makes of `x` is what neurons gather from states `x`.
pub proof fn law_estimate_is_of_the_forward_pass<A: Arith>(g: Csr, x: Seq<Single>, j: u32)
    requires
        keeps_zero::<A>(),
        absorbs_zero::<A>(),
        g.is_tidy(),
        j < g.n,
        forall|e: int| 0 <= e < g.edges() ==> (#[trigger] g.weights[e]).finite(),
    ensures
        g.spread::<A>(x)[j as int] == g.gathered::<A>(nought(), x, j as int),
{
    lemma_spread_arrives::<A>(g, x, j, g.n);
    law_gathering_goes_by_source::<A>(g, nought(), x, j);
}

proof fn lemma_one_arrival<A: Arith>(
    g: Csr,
    start: Single,
    prev: Seq<Single>,
    i: int,
    j: u32,
    rows: int,
)
    requires
        0 <= i,
        !prev[i].zero(),
        forall|k: int| 0 <= k < rows && k != i ==> (#[trigger] prev[k]).zero(),
    ensures
        g.arrivals::<A>(start, prev, j, rows) == if i < rows && g.has_link(i, j) {
            sum::<A>(start, product::<A>(g.link_weight(i, j), prev[i]))
        } else {
            start
        },
    decreases rows,
{
    if rows > 0 {
        lemma_one_arrival::<A>(g, start, prev, i, j, rows - 1);
        if rows - 1 != i {
            assert(prev[rows - 1].zero());
        }
    }
}

proof fn lemma_one_charge<A: Arith>(g: Csr, d: Seq<Single>, i: int, at: int, k: int)
    requires
        keeps_zero::<A>(),
        absorbs_zero::<A>(),
        0 <= k <= g.degree(i),
        0 <= at,
        forall|q: int|
            0 <= q < g.degree(i) ==> (#[trigger] g.weights[g.row_start(i) + q]).finite(),
        forall|q: int|
            0 <= q < g.degree(i) && q != at ==> d[(#[trigger] g.col_idx[g.row_start(i)
                + q]) as int].zero(),
    ensures
        running_sum::<A>(
            nought(),
            k,
            |q: int|
                product::<A>(
                    g.weights[g.row_start(i) + q],
                    d[g.col_idx[g.row_start(i) + q] as int],
                ),
        ) == if at < k {
            sum::<A>(
                nought(),
                product::<A>(
                    g.weights[g.row_start(i) + at],
                    d[g.col_idx[g.row_start(i) + at] as int],
                ),
            )
        } else {
            nought()
        },
    decreases k,
{
    if k > 0 {
        lemma_one_charge::<A>(g, d, i, at, k - 1);
        let q = k - 1;
        if q != at {
            assert(g.weights[g.row_start(i) + q].finite());
            assert(d[g.col_idx[g.row_start(i) + q] as int].zero());
        }
    }
}

/// An edge charges back by the weight by which it carries forward: where neuron `i`
/// alone is active, neuron `j` gathers the weight of the edge from `i` to `j` times
/// its state; and where `j` alone has a gradient, `i` is charged the same weight
/// times that gradient. Without such an edge it is nothing both ways.
pub proof fn law_edges_charge_back_what_they_carry<A: Arith>(
    g: Csr,
    prev: Seq<Single>,
    d: Seq<Single>,
    i: int,
    j: u32,
)
    requires
        keeps_zero::<A>(),
        absorbs_zero::<A>(),
        g.is_tidy(),
        0 <= i < g.n,
        j < g.n,
        forall|e: int| 0 <= e < g.edges() ==> (#[trigger] g.weights[e]).finite(),
        !prev[i].zero(),
        forall|k: int| 0 <= k < g.n && k != i ==> (#[trigger] prev[k]).zero(),
        forall|k: int| 0 <= k < g.n && k != j ==> (#[trigger] d[k]).zero(),
    ensures
        g.has_link(i, j) ==> g.gathered::<A>(nought(), prev, j as int) == sum::<A>(
            nought(),
            product::<A>(g.link_weight(i, j), prev[i]),
        ),
        g.has_link(i, j) ==> g.charged::<A>(d, i) == sum::<A>(
            nought(),
            product::<A>(g.link_weight(i, j), d[j as int]),
        ),
        !g.has_link(i, j) ==> g.gathered::<A>(nought(), prev, j as int) == nought(),
        !g.has_link(i, j) ==> g.charged::<A>(d, i) == nought(),
{
    law_gathering_goes_by_source::<A>(g, nought(), prev, j);
    lemma_one_arrival::<A>(g, nought(), prev, i, j, g.n);
    let targets = g.targets(i);
    assert(are_distinct_others(targets, i));
    assert(row_fits(g.row_ptr, g.edges(), i));
    let at = if g.has_link(i, j) {
        targets.index_of(j)
    } else {
        g.degree(i)
    };
    assert(g.row_ptr[i] <= g.row_ptr[i + 1]);
    assert forall|q: int| 0 <= q < g.degree(i) && q != at implies d[(#[trigger] g.col_idx[g.row_start(
        i,
    ) + q]) as int].zero() by {
        assert(targets[q] == g.col_idx[g.row_start(i) + q]);
        assert(g.col_idx[g.row_start(i) + q] < g.n);
        if targets[q] == j {
            assert(targets.contains(j));
            assert(targets[at] == j);
        }
    }
    lemma_one_charge::<A>(g, d, i, at, g.degree(i));
    if g.has_link(i, j) {
        assert(targets[at] == j);
    }
}

/// What a neuron is charged adds up, over its out-edges in their order, weight times
/// the gradient of the neuron that the edge ends in: `partial[k]` is the sum over
/// the first `k`.
pub proof fn law_charges_add_up_edges<A: Arith>(
    g: Csr,
    d: Seq<Single>,
    i: int,
    partial: Seq<Single>,
)
    requires
        partial.len() == g.degree(i) + 1,
        partial[0] == nought(),
        forall|k: int|
            0 < k <= g.degree(i) ==> #[trigger] partial[k] == sum::<A>(
                partial[k - 1],
                product::<A>(
                    g.weights[g.row_ptr[i] + k - 1],
                    d[g.col_idx[g.row_ptr[i] + k - 1] as int],
                ),
            ),
    ensures
        g.charged::<A>(d, i) == partial.last(),
{
    let term = |k: int|
        product::<A>(
            g.weights[g.row_start(i) + k],
            d[g.col_idx[g.row_start(i) + k] as int],
        );
    assert forall|k: int| 0 < k <= g.degree(i) implies #[trigger] partial[k] == sum::<A>(
        partial[k - 1],
        term(k - 1),
    ) by {
        assert(g.row_start(i) + (k - 1) == g.row_ptr[i] + k - 1);
    }
    law_running_sum_adds_one_by_one::<A>(g.degree(i), term, partial);
}

// --- edges of weight zero ---------------------------------------------------

proof fn lemma_same_arrivals<A: Arith>(
    g: Csr,
    h: Csr,
    start: Single,
    prev: Seq<Single>,
    j: u32,
    rows: int,
)
    requires
        keeps_zero::<A>(),
        absorbs_zero::<A>(),
        g.is_like(h),
        0 <= rows <= g.n,
        j < g.n,
        is_steady::<A>(start),
        forall|i: int| 0 <= i < g.n ==> (#[trigger] prev[i]).finite(),
    ensures
        g.arrivals::<A>(start, prev, j, rows) == h.arrivals::<A>(start, prev, j, rows),
        is_steady::<A>(g.arrivals::<A>(start, prev, j, rows)),
    decreases rows,
{
    if rows > 0 {
        let i = rows - 1;
        lemma_same_arrivals::<A>(g, h, start, prev, j, i);
        let acc = g.arrivals::<A>(start, prev, j, i);
        assert(g.links_alike(h, i, j));
        assert(prev[i].finite());
        if g.has_link(i, j) && !h.has_link(i, j) {
            let term = product::<A>(g.link_weight(i, j), prev[i]);
            assert(term.zero());
            assert(sum::<A>(acc, term) == acc);
        }
        if !g.has_link(i, j) && h.has_link(i, j) {
            let term = product::<A>(h.link_weight(i, j), prev[i]);
            assert(term.zero());
            assert(sum::<A>(acc, term) == acc);
        }
    }
}

/// An edge of weight zero adds nothing: two graphs that differ in such edges, and in
/// the order of edges within their rows, gather the same from finite states.
pub proof fn law_zero_edges_add_nothing<A: Arith>(
    g: Csr,
    h: Csr,
    start: Single,
    prev: Seq<Single>,
    j: u32,
)
    requires
        keeps_zero::<A>(),
        absorbs_zero::<A>(),
        g.is_tidy(),
        h.is_tidy(),
        g.is_like(h),
        j < g.n,
        is_steady::<A>(start),
        forall|i: int| 0 <= i < g.n ==> (#[trigger] prev[i]).finite(),
    ensures
        g.gathered::<A>(start, prev, j as int) == h.gathered::<A>(start, prev, j as int),
{
    law_gathering_goes_by_source::<A>(g, start, prev, j);
    law_gathering_goes_by_source::<A>(h, start, prev, j);
    lemma_same_arrivals::<A>(g, h, start, prev, j, g.n);
}

// --- rewiring ---------------------------------------------------------------

/// The edges that `plans` drop for others all have weight zero.
pub open spec fn drops_zeros_alone(g: Csr, plans: Seq<Plan>) -> bool {
    forall|i: int, q: int|
        0 <= i < g.n && g.degree(i) - plans[i].grown.len() <= q < g.degree(i)
            ==> g.weights[#[trigger] g.ranked_edge(i, q)].zero()
}

/// Edge `k` of row `i` of the rewired graph.
proof fn lemma_rewired_edge(g: Csr, mom: Averages, plans: Seq<Plan>, i: int, k: int)
    requires
        g.is_tidy(),
        g.are_plans(plans),
        0 <= i < g.n,
        0 <= k < g.degree(i),
    ensures
        ({
            let h = g.rewired(mom, plans);
            let edge = g.rewired_row(mom, i, plans[i])[k];
            &&& h.targets(i).len() == g.degree(i)
            &&& h.targets(i)[k] == edge.target
            &&& h.weights[h.row_start(i) + k] == edge.weight
        }),
{
    law_degrees_add_up(g, g.n);
    lemma_rewired_targets(g, mom, plans, i);
    lemma_rewired_at(g, mom, plans, g.n, i, k);
    lemma_degree_sum(g, i, g.n);
    law_edge_budget_is_constant(g, mom, plans);
}

/// Of the edges from `i` to `j`, a rewired graph has what it should have.
proof fn lemma_rewired_links(g: Csr, mom: Averages, plans: Seq<Plan>, i: int, j: u32)
    requires
        g.is_tidy(),
        g.are_plans(plans),
        drops_zeros_alone(g, plans),
        g.rewired(mom, plans).is_simple(),
        0 <= i < g.n,
        j < g.n,
    ensures
        g.links_alike(g.rewired(mom, plans), i, j),
{
    let h = g.rewired(mom, plans);
    let plan = plans[i];
    let deg = g.degree(i);
    let keep = deg - plan.churn;
    let grow = plan.grown.len() as int;
    let row = g.rewired_row(mom, i, plan);
    let keys = g.weight_keys(i);
    let order = ranking(keys, deg);
    let mine = g.targets(i);
    let theirs = h.targets(i);
    assert(g.is_plan(i, plan));
    assert(row_fits(g.row_ptr, g.edges(), i));
    assert(are_distinct_others(mine, i));
    assert(are_distinct_others(theirs, i));
    law_ranking_is_stable_sort(keys, deg);
    law_degrees_add_up(g, g.n);
    lemma_rewired_targets(g, mom, plans, i);
    if g.has_link(i, j) {
        let p = mine.index_of(j);
        assert(mine[p] == j);
        assert(order.contains(p as usize));
        let q = order.index_of(p as usize);
        assert(order[q] == p);
        assert(g.ranked_edge(i, q) == g.row_start(i) + p);
        assert(g.link_weight(i, j) == g.weights[g.ranked_edge(i, q)]);
        if q < deg - grow {
            let k = if q < keep {
                q
            } else {
                q + grow
            };
            lemma_rewired_edge(g, mom, plans, i, k);
            assert(row[k] == g.kept_edge(mom, g.ranked_edge(i, q)));
            assert(theirs[k] == j);
            assert(theirs.contains(j));
            let at = theirs.index_of(j);
            assert(theirs[at] == j);
            assert(at == k);
        } else if h.has_link(i, j) {
            let k = theirs.index_of(j);
            assert(theirs[k] == j);
            lemma_rewired_edge(g, mom, plans, i, k);
            if keep <= k < keep + grow {
                assert(plan.grown[k - keep] == j);
                assert(g.connected(i, j));
            } else {
                let r = if k < keep {
                    k
                } else {
                    k - grow
                };
                assert(row[k] == g.kept_edge(mom, g.ranked_edge(i, r)));
                assert(order[r] < deg);
                assert(mine[order[r] as int] == j);
                assert(order[r] == p);
                assert(r < q);
                assert(outranks(keys, order[r], order[q]));
            }
        }
    } else if h.has_link(i, j) {
        let k = theirs.index_of(j);
        assert(theirs[k] == j);
        lemma_rewired_edge(g, mom, plans, i, k);
        if !(keep <= k < keep + grow) {
            let r = if k < keep {
                k
            } else {
                k - grow
            };
            assert(row[k] == g.kept_edge(mom, g.ranked_edge(i, r)));
            assert(order[r] < deg);
            assert(mine[order[r] as int] == j);
        }
    }
}

/// Where the edges that are dropped have weight zero, the rewired graph differs
/// from the graph in edges of weight zero alone.
pub proof fn law_rewiring_of_zero_edges(g: Csr, mom: Averages, plans: Seq<Plan>)
    requires
        g.is_tidy(),
        g.are_plans(plans),
        drops_zeros_alone(g, plans),
    ensures
        g.rewired(mom, plans).is_tidy(),
        g.is_like(g.rewired(mom, plans)),
{
    law_degrees_add_up(g, g.n);
    law_edge_budget_is_constant(g, mom, plans);
    law_rewiring_keeps_graph_simple(g, mom, plans);
    assert forall|i: int, j: u32| 0 <= i < g.n && j < g.n implies #[trigger] g.links_alike(
        g.rewired(mom, plans),
        i,
        j,
    ) by {
        lemma_rewired_links(g, mom, plans, i, j);
    }
}

// --- windows ----------------------------------------------------------------

/// The states that `model` passes through over a window of `seq` are finite, up to
/// the last.
pub open spec fn stays_finite<A: Arith>(model: Model, seq: Seq<u32>, init: Seq<Single>) -> bool {
    forall|t: int, i: int|
        0 <= t < model.cfg.window && 0 <= i < model.cfg.n ==> (#[trigger] model.carried::<A>(
            seq,
            init,
            t,
        )[i]).finite()
}

/// `model` with its graph replaced.
pub open spec fn with_graph(model: Model, graph: Csr) -> Model {
    Model { graph, ..model }
}

proof fn lemma_same_pre_activations<A: Arith>(
    model: Model,
    h: Csr,
    tok: u32,
    prev: Seq<Single>,
)
    requires
        keeps_zero::<A>(),
        absorbs_zero::<A>(),
        model.graph.n == model.cfg.n,
        model.graph.is_tidy(),
        h.is_tidy(),
        model.graph.is_like(h),
        forall|i: int| 0 <= i < model.cfg.n ==> (#[trigger] prev[i]).finite(),
    ensures
        with_graph(model, h).pre_activations::<A>(tok, prev) == model.pre_activations::<A>(
            tok,
            prev,
        ),
{
    let other = with_graph(model, h);
    let x = model.pre_activations::<A>(tok, prev);
    let y = other.pre_activations::<A>(tok, prev);
    assert forall|j: int| 0 <= j < model.cfg.n implies x[j] == y[j] by {
        let start = model.injected::<A>(tok, j);
        assert(start == other.injected::<A>(tok, j));
        assert(is_steady::<A>(start));
        law_zero_edges_add_nothing::<A>(model.graph, h, start, prev, j as u32);
    }
    assert(x =~= y);
}

proof fn lemma_same_carried<A: Arith>(
    model: Model,
    h: Csr,
    seq: Seq<u32>,
    init: Seq<Single>,
    t: int,
)
    requires
        keeps_zero::<A>(),
        absorbs_zero::<A>(),
        model.graph.n == model.cfg.n,
        model.graph.is_tidy(),
        h.is_tidy(),
        model.graph.is_like(h),
        stays_finite::<A>(model, seq, init),
        0 <= t <= model.cfg.window,
    ensures
        with_graph(model, h).carried::<A>(seq, init, t) == model.carried::<A>(seq, init, t),
    decreases t,
{
    if t > 0 {
        lemma_same_carried::<A>(model, h, seq, init, t - 1);
        let prev = model.carried::<A>(seq, init, t - 1);
        lemma_same_pre_activations::<A>(model, h, seq[t - 1], prev);
        let pre = model.pre_activations::<A>(seq[t - 1], prev);
        assert(with_graph(model, h).activations::<A>(pre) =~= model.activations::<A>(pre));
    }
}

/// What is predicted does not depend on the graph, given the states.
proof fn lemma_same_logits<A: Arith>(model: Model, h: Csr, state: Seq<Single>)
    ensures
        with_graph(model, h).logits::<A>(state) == model.logits::<A>(state),
{
    let other = with_graph(model, h);
    assert forall|c: int| 0 <= c < model.bias_out.len() implies #[trigger] other.logit::<A>(
        state,
        c,
    ) == model.logit::<A>(state, c) by {
        lemma_running_sum_where_ext::<A>(
            model.bias_out[c],
            model.cfg.n_out as int,
            |m: int| !state[other.out_start() + m].zero(),
            |m: int|
                product::<A>(other.readout[m * other.vocab + c], state[other.out_start() + m]),
            |m: int| !state[model.out_start() + m].zero(),
            |m: int|
                product::<A>(model.readout[m * model.vocab + c], state[model.out_start() + m]),
        );
    }
    assert(other.logits::<A>(state) =~= model.logits::<A>(state));
}

/// Graphs that differ in edges of weight zero alone compute the same: a window
/// leaves the same trace, its loss among it.
pub proof fn law_like_graphs_leave_one_trace<A: Arith>(
    model: Model,
    h: Csr,
    seq: Seq<u32>,
    init: Seq<Single>,
)
    requires
        keeps_zero::<A>(),
        absorbs_zero::<A>(),
        model.graph.n == model.cfg.n,
        model.graph.is_tidy(),
        h.is_tidy(),
        model.graph.is_like(h),
        stays_finite::<A>(model, seq, init),
    ensures
        with_graph(model, h).window_trace::<A>(seq, init) == model.window_trace::<A>(seq, init),
{
    let other = with_graph(model, h);
    let w = model.cfg.window as int;
    assert forall|t: int| 0 <= t <= w implies #[trigger] other.carried::<A>(seq, init, t)
        == model.carried::<A>(seq, init, t) by {
        lemma_same_carried::<A>(model, h, seq, init, t);
    }
    assert forall|t: int| 0 <= t < w implies #[trigger] other.predicted::<A>(seq, init, t)
        == model.predicted::<A>(seq, init, t) by {
        assert(other.carried::<A>(seq, init, t + 1) == model.carried::<A>(seq, init, t + 1));
        lemma_same_logits::<A>(model, h, model.carried::<A>(seq, init, t + 1));
    }
    let theirs = |t: int| surprise::<A>(other.predicted::<A>(seq, init, t)[seq[t + 1] as int]);
    let mine = |t: int| surprise::<A>(model.predicted::<A>(seq, init, t)[seq[t + 1] as int]);
    assert forall|t: int| 0 <= t < w implies #[trigger] theirs(t) == mine(t) by {
        assert(other.predicted::<A>(seq, init, t) == model.predicted::<A>(seq, init, t));
    }
    lemma_running_sum_ext::<A>(nought(), w, theirs, mine);
    let x = other.window_trace::<A>(seq, init);
    let y = model.window_trace::<A>(seq, init);
    assert forall|t: int| 0 <= t < w implies x.pre[t] == y.pre[t] by {
        let prev = model.carried::<A>(seq, init, t);
        assert(other.carried::<A>(seq, init, t) == prev);
        lemma_same_pre_activations::<A>(model, h, seq[t], prev);
    }
    assert forall|t: int| 0 <= t < w implies x.state[t] == y.state[t] by {
        assert(other.carried::<A>(seq, init, t + 1) == model.carried::<A>(seq, init, t + 1));
    }
    assert(x.state =~= y.state);
    assert(x.pre =~= y.pre);
    assert(x.probs =~= y.probs);
    assert(x.targets =~= y.targets);
    assert(x.inputs =~= y.inputs);
}

/// Rewiring leaves the function that the network computes as it is, where every
/// edge that is dropped had weight zero: the edges that are grown start at zero.
pub proof fn law_rewiring_keeps_the_function<A: Arith>(
    model: Model,
    mom: Averages,
    plans: Seq<Plan>,
    seq: Seq<u32>,
    init: Seq<Single>,
)
    requires
        keeps_zero::<A>(),
        absorbs_zero::<A>(),
        model.graph.n == model.cfg.n,
        model.graph.is_tidy(),
        model.graph.are_plans(plans),
        drops_zeros_alone(model.graph, plans),
        stays_finite::<A>(model, seq, init),
    ensures
        with_graph(model, model.graph.rewired(mom, plans)).window_trace::<A>(seq, init)
            == model.window_trace::<A>(seq, init),
{
    law_rewiring_of_zero_edges(model.graph, mom, plans);
    law_like_graphs_leave_one_trace::<A>(model, model.graph.rewired(mom, plans), seq, init);
}

/// The weight matrix applied to `x` adds up, row by row and edge by edge: from what the
/// rows before `i` make, `partial[k]` is what the first `k` edges of row `i` make of it,
/// of which those count that end in `j`.
pub proof fn law_spread_adds_up_edges<A: Arith>(
    g: Csr,
    x: Seq<Single>,
    j: int,
    i: int,
    partial: Seq<Single>,
)
    requires
        0 <= i < g.n,
        partial.len() == g.degree(i) + 1,
        partial[0] == g.spread_to::<A>(x, j, i),
        forall|k: int|
            0 < k <= g.degree(i) ==> #[trigger] partial[k] == if g.col_idx[g.row_ptr[i] + k - 1]
                == j {
                sum::<A>(
                    partial[k - 1],
                    product::<A>(g.weights[g.row_ptr[i] + k - 1], x[i]),
                )
            } else {
                partial[k - 1]
            },
    ensures
        g.spread_to::<A>(x, j, i + 1) == partial.last(),
        g.spread_to::<A>(x, j, 0) == nought(),
{
    let rows = i + 1;
    let last = rows - 1;
    let row = |to: int| |k: int| g.col_idx[g.row_start(last) + k] == to;
    let lands = row(j);
    let sent = |k: int| product::<A>(g.weights[g.row_start(last) + k], x[last]);
    assert(g.spread_to::<A>(x, j, rows) == running_sum_where::<A>(
        g.spread_to::<A>(x, j, i),
        g.degree(last),
        lands,
        sent,
    ));
    assert forall|k: int| 0 < k <= g.degree(i) implies #[trigger] partial[k] == if lands(k - 1) {
        sum::<A>(partial[k - 1], sent(k - 1))
    } else {
        partial[k - 1]
    } by {
        assert(g.row_start(last) + (k - 1) == g.row_ptr[i] + k - 1);
    }
    law_running_sum_passes_over_terms::<A>(g.degree(i), lands, sent, partial);
}

} // verus!
