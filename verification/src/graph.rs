//! Sparse topology in CSR (compressed sparse row) form, indexed by source
//! neuron. The out-edges of neuron `i` are the slice
//! `col_idx[row_ptr[i]..row_ptr[i + 1]]`, with matching weights in `weights`.
//!
//! Topology changes rebuild the arrays rather than editing them in place.
use rand::rngs::StdRng;
use vstd::prelude::*;

use crate::arith::{
    cosine, counted, deterministic, logarithm, product, quotient, root, running_sum,
    running_sum_where, sum, uniform_draw, zeros, Arith,
};
use crate::config::Config;
use crate::random::{generator_state, seeded, seeded_state, shuffle, shuffled};
use crate::scalar::{
    less, nought, unit, Single, MINUS_TWO_BITS, TAU_BITS, TEN_TO_MINUS_12_BITS,
    TEN_TO_MINUS_7_BITS, TEN_TO_MINUS_9_BITS,
};

verus! {

pub struct Topology {
    pub n: usize,
    // --- forward (out-edge) CSR, indexed by source ---
    pub row_ptr: Vec<u32>,
    pub col_idx: Vec<u32>,
    pub weights: Vec<Single>,
    // --- auxiliary structures for parallel execution ---
    /// Source neuron of each edge (parallel to `col_idx` and `weights`).
    pub edge_src: Vec<u32>,
    /// Transpose (in-edge) CSR indexed by target: the in-edges of neuron `j`
    /// are `in_edge[in_row_ptr[j]..in_row_ptr[j + 1]]`, each an index into the
    /// forward arrays.
    pub in_row_ptr: Vec<u32>,
    pub in_edge: Vec<u32>,
}

/// The row whose range holds edge `e`: the last such among the first `rows`,
/// or 0 where none does.
pub open spec fn source_of(row_ptr: Seq<u32>, rows: int, e: int) -> u32
    decreases rows,
{
    if rows <= 0 {
        0
    } else if row_ptr[rows - 1] <= e < row_ptr[rows as int] {
        (rows - 1) as u32
    } else {
        source_of(row_ptr, rows - 1, e)
    }
}

/// Those of the first `upto` edges that end in neuron `j`, in ascending order.
pub open spec fn edges_into(col_idx: Seq<u32>, j: int, upto: int) -> Seq<u32>
    decreases upto,
{
    if upto <= 0 {
        Seq::empty()
    } else {
        let before = edges_into(col_idx, j, upto - 1);
        if col_idx[upto - 1] == j {
            before.push((upto - 1) as u32)
        } else {
            before
        }
    }
}

/// How many of the first `upto` edges end in a neuron below `j`.
pub open spec fn targets_below(col_idx: Seq<u32>, j: int, upto: int) -> nat
    decreases upto,
{
    if upto <= 0 {
        0
    } else {
        targets_below(col_idx, j, upto - 1) + if col_idx[upto - 1] < j {
            1nat
        } else {
            0
        }
    }
}

/// Row `i`, unless empty, does not reach past the last of `edges` edges.
pub open spec fn row_fits(row_ptr: Seq<u32>, edges: nat, i: int) -> bool {
    row_ptr[i] < row_ptr[i + 1] ==> row_ptr[i + 1] <= edges
}

/// The arrays can be read as out-edge lists of `n` neurons: no row reaches past
/// the last edge, and every edge ends in a neuron.
pub open spec fn is_csr(n: nat, row_ptr: Seq<u32>, col_idx: Seq<u32>) -> bool {
    &&& n < row_ptr.len()
    &&& forall|i: int| 0 <= i < n ==> #[trigger] row_fits(row_ptr, col_idx.len(), i)
    &&& forall|e: int| 0 <= e < col_idx.len() ==> #[trigger] col_idx[e] < n
}

/// The source of each edge.
pub open spec fn sources(n: int, row_ptr: Seq<u32>, edges: nat) -> Seq<u32> {
    Seq::new(edges, |e: int| source_of(row_ptr, n, e))
}

/// Where the in-edges of each neuron start, and where the last one's end.
pub open spec fn in_starts(n: nat, col_idx: Seq<u32>) -> Seq<u32> {
    Seq::new(n + 1, |j: int| targets_below(col_idx, j, col_idx.len() as int) as u32)
}

/// The in-edge slice of neuron `j` holds the edges that end in it.
pub open spec fn lists_in_edges(
    in_row_ptr: Seq<u32>,
    in_edge: Seq<u32>,
    col_idx: Seq<u32>,
    j: int,
) -> bool {
    &&& in_row_ptr[j] <= in_row_ptr[j + 1] <= in_edge.len()
    &&& in_edge.subrange(in_row_ptr[j] as int, in_row_ptr[j + 1] as int) == edges_into(
        col_idx,
        j,
        col_idx.len() as int,
    )
}

/// No neuron is among `targets` twice, and `i` is not among them.
pub open spec fn are_distinct_others(targets: Seq<u32>, i: int) -> bool {
    &&& forall|a: int, b: int|
        0 <= a < targets.len() && 0 <= b < targets.len() && a != b ==> targets[a] != targets[b]
    &&& forall|a: int| 0 <= a < targets.len() ==> #[trigger] targets[a] != i
}

/// What a topology is: the out-edge lists of `n` neurons, and a weight per edge.
#[verifier::ext_equal]
pub struct Csr {
    pub n: int,
    pub row_ptr: Seq<u32>,
    pub col_idx: Seq<u32>,
    pub weights: Seq<Single>,
}

impl Csr {
    /// The number of edges.
    pub open spec fn edges(self) -> nat {
        self.col_idx.len()
    }

    /// The neuron that edge `e` starts in.
    pub open spec fn source(self, e: int) -> u32 {
        source_of(self.row_ptr, self.n, e)
    }

    /// The edges that end in neuron `j`, in ascending order.
    pub open spec fn into_neuron(self, j: int) -> Seq<u32> {
        edges_into(self.col_idx, j, self.edges() as int)
    }

    /// Where the out-edges of neuron `i` start.
    pub open spec fn row_start(self, i: int) -> int {
        self.row_ptr[i] as int
    }

    /// The number of out-edges of neuron `i`.
    pub open spec fn degree(self, i: int) -> int {
        if self.row_ptr[i] < self.row_ptr[i + 1] {
            self.row_ptr[i + 1] - self.row_ptr[i]
        } else {
            0
        }
    }

    /// The neurons that the out-edges of neuron `i` end in.
    pub open spec fn targets(self, i: int) -> Seq<u32> {
        Seq::new(self.degree(i) as nat, |k: int| self.col_idx[self.row_start(i) + k])
    }

    /// No self-loops, and no two edges from one neuron to the same other.
    pub open spec fn is_simple(self) -> bool {
        forall|i: int| 0 <= i < self.n ==> are_distinct_others(#[trigger] self.targets(i), i)
    }

    /// The rows follow one another and hold every edge: the first starts at 0,
    /// each ends where the next starts, and the last ends with the last edge.
    pub open spec fn is_packed(self) -> bool {
        &&& self.row_ptr.len() == self.n + 1
        &&& self.row_ptr[0] == 0
        &&& self.row_ptr[self.n] == self.edges()
        &&& forall|i: int, j: int|
            0 <= i <= j <= self.n ==> #[trigger] self.row_ptr[i] <= #[trigger] self.row_ptr[j]
    }
}

impl View for Topology {
    type V = Csr;

    open spec fn view(&self) -> Csr {
        Csr {
            n: self.n as int,
            row_ptr: self.row_ptr@,
            col_idx: self.col_idx@,
            weights: self.weights@,
        }
    }
}

impl Topology {
    /// The auxiliary arrays are those of the forward arrays: the source of each
    /// edge, and for each neuron the edges that end in it.
    pub open spec fn is_transposed(self) -> bool {
        &&& self.edge_src@ == sources(self.n as int, self.row_ptr@, self@.edges())
        &&& self.in_row_ptr@ == in_starts(self.n as nat, self.col_idx@)
        &&& self.in_edge@.len() == self@.edges()
        &&& forall|j: int|
            0 <= j < self.n ==> #[trigger] lists_in_edges(
                self.in_row_ptr@,
                self.in_edge@,
                self.col_idx@,
                j,
            )
    }

    /// What [`Topology::from_csr`] establishes.
    pub open spec fn wf(self) -> bool {
        &&& is_csr(self.n as nat, self.row_ptr@, self.col_idx@)
        &&& self.weights@.len() == self@.edges()
        &&& self@.edges() <= u32::MAX
        &&& self.n <= u32::MAX
        &&& self.is_transposed()
    }
}

/// In-edge lists hold edges that end in the neuron.
pub proof fn lemma_edges_into(col_idx: Seq<u32>, j: int, upto: int)
    requires
        0 <= upto <= col_idx.len(),
        upto <= u32::MAX,
    ensures
        edges_into(col_idx, j, upto).len() <= upto,
        forall|k: int|
            0 <= k < edges_into(col_idx, j, upto).len() ==> {
                let e = #[trigger] edges_into(col_idx, j, upto)[k];
                e < upto && col_idx[e as int] == j
            },
    decreases upto,
{
    if upto > 0 {
        lemma_edges_into(col_idx, j, upto - 1);
    }
}

proof fn lemma_edges_into_grows(col_idx: Seq<u32>, j: int, m: int, upto: int)
    requires
        0 <= m <= upto,
    ensures
        edges_into(col_idx, j, m).len() <= edges_into(col_idx, j, upto).len(),
    decreases upto,
{
    if m < upto {
        lemma_edges_into_grows(col_idx, j, m, upto - 1);
    }
}

proof fn lemma_targets_below_next(col_idx: Seq<u32>, j: int, upto: int)
    ensures
        targets_below(col_idx, j + 1, upto) == targets_below(col_idx, j, upto) + edges_into(
            col_idx,
            j,
            upto,
        ).len(),
    decreases upto,
{
    if upto > 0 {
        lemma_targets_below_next(col_idx, j, upto - 1);
    }
}

proof fn lemma_targets_below_ends(col_idx: Seq<u32>, n: int, upto: int)
    requires
        0 <= upto <= col_idx.len(),
        forall|e: int| 0 <= e < col_idx.len() ==> #[trigger] col_idx[e] < n,
    ensures
        targets_below(col_idx, 0, upto) == 0,
        targets_below(col_idx, n, upto) == upto,
    decreases upto,
{
    if upto > 0 {
        lemma_targets_below_ends(col_idx, n, upto - 1);
    }
}

proof fn lemma_targets_below_monotone(col_idx: Seq<u32>, i: int, j: int, upto: int)
    requires
        i <= j,
    ensures
        targets_below(col_idx, i, upto) <= targets_below(col_idx, j, upto),
    decreases upto,
{
    if upto > 0 {
        lemma_targets_below_monotone(col_idx, i, j, upto - 1);
    }
}

/// Every edge has a source among the rows.
pub proof fn lemma_source_of(row_ptr: Seq<u32>, rows: int, e: int)
    requires
        rows <= u32::MAX + 1,
    ensures
        rows > 0 ==> source_of(row_ptr, rows, e) < rows,
    decreases rows,
{
    reveal_with_fuel(source_of, 2);
    if rows > 0 {
        lemma_source_of(row_ptr, rows - 1, e);
    }
}

/// `0`, `n` times over.
fn zero_words(n: usize) -> (r: Vec<u32>)
    ensures
        r@ == Seq::new(n as nat, |i: int| 0u32),
{
    let mut r: Vec<u32> = Vec::new();
    for i in 0..n
        invariant
            r@ == Seq::new(i as nat, |i: int| 0u32),
    {
        r.push(0);
    }
    r
}

/// The source of each edge.
fn edge_sources(n: usize, row_ptr: &Vec<u32>, e: usize) -> (edge_src: Vec<u32>)
    requires
        n < row_ptr@.len(),
        n <= u32::MAX,
        forall|i: int| 0 <= i < n ==> #[trigger] row_fits(row_ptr@, e as nat, i),
    ensures
        edge_src@ == sources(n as int, row_ptr@, e as nat),
{
    let mut edge_src = zero_words(e);
    for i in 0..n
        invariant
            n < row_ptr@.len(),
            n <= u32::MAX,
            forall|i: int| 0 <= i < n ==> #[trigger] row_fits(row_ptr@, e as nat, i),
            edge_src@ == sources(i as int, row_ptr@, e as nat),
    {
        assert(row_fits(row_ptr@, e as nat, i as int));
        let start: usize = row_ptr[i] as usize;
        let end: usize = row_ptr[i + 1] as usize;
        let mut idx: usize = start;
        while idx < end
            invariant
                i < n < row_ptr@.len(),
                n <= u32::MAX,
                start == row_ptr@[i as int],
                end == row_ptr@[i + 1],
                start < end ==> end <= e,
                start <= idx,
                idx <= end || idx == start,
                edge_src@.len() == e,
                forall|k: int|
                    0 <= k < e ==> #[trigger] edge_src@[k] == if start <= k < idx {
                        i as u32
                    } else {
                        source_of(row_ptr@, i as int, k)
                    },
            decreases end - idx,
        {
            edge_src.set(idx, i as u32);
            idx += 1;
        }
        assert(edge_src@ =~= sources(i + 1, row_ptr@, e as nat));
    }
    edge_src
}

/// Where each neuron's in-edges start: in-degrees are counted, then summed.
fn in_row_starts(n: usize, col_idx: &Vec<u32>) -> (in_row_ptr: Vec<u32>)
    requires
        n <= u32::MAX,
        col_idx@.len() <= u32::MAX,
        n < usize::MAX,
        forall|e: int| 0 <= e < col_idx@.len() ==> #[trigger] col_idx@[e] < n,
    ensures
        in_row_ptr@ == in_starts(n as nat, col_idx@),
{
    let e = col_idx.len();
    let mut in_row_ptr = zero_words(n + 1);
    for edge in 0..e
        invariant
            e == col_idx@.len() <= u32::MAX,
            n < usize::MAX,
            forall|e: int| 0 <= e < col_idx@.len() ==> #[trigger] col_idx@[e] < n,
            in_row_ptr@.len() == n + 1,
            in_row_ptr@[0] == 0,
            forall|j: int|
                0 <= j < n ==> #[trigger] in_row_ptr@[j + 1] == edges_into(
                    col_idx@,
                    j,
                    edge as int,
                ).len(),
    {
        let j: usize = col_idx[edge] as usize;
        proof {
            lemma_edges_into(col_idx@, j as int, edge as int);
            assert(in_row_ptr@[j + 1] == edges_into(col_idx@, j as int, edge as int).len());
        }
        let ghost before = in_row_ptr@;
        let count: u32 = in_row_ptr[j + 1];
        in_row_ptr.set(j + 1, count + 1);
        assert forall|q: int| 0 <= q < n implies #[trigger] in_row_ptr@[q + 1] == edges_into(
            col_idx@,
            q,
            edge + 1,
        ).len() by {
            assert(before[q + 1] == edges_into(col_idx@, q, edge as int).len());
        }
    }
    proof {
        lemma_targets_below_ends(col_idx@, n as int, e as int);
    }
    for j in 0..n
        invariant
            e == col_idx@.len() <= u32::MAX,
            n < usize::MAX,
            forall|e: int| 0 <= e < col_idx@.len() ==> #[trigger] col_idx@[e] < n,
            in_row_ptr@.len() == n + 1,
            forall|q: int|
                0 <= q <= j ==> #[trigger] in_row_ptr@[q] == targets_below(col_idx@, q, e as int),
            forall|q: int|
                j <= q < n ==> #[trigger] in_row_ptr@[q + 1] == edges_into(
                    col_idx@,
                    q,
                    e as int,
                ).len(),
    {
        let ghost before = in_row_ptr@;
        proof {
            lemma_targets_below_next(col_idx@, j as int, e as int);
            lemma_targets_below_monotone(col_idx@, j + 1, n as int, e as int);
            lemma_targets_below_ends(col_idx@, n as int, e as int);
            assert(in_row_ptr@[j + 1] == edges_into(col_idx@, j as int, e as int).len());
        }
        let start: u32 = in_row_ptr[j];
        let count: u32 = in_row_ptr[j + 1];
        in_row_ptr.set(j + 1, count + start);
        assert forall|q: int| j + 1 <= q < n implies #[trigger] in_row_ptr@[q + 1] == edges_into(
            col_idx@,
            q,
            e as int,
        ).len() by {
            assert(before[q + 1] == edges_into(col_idx@, q, e as int).len());
        }
    }
    assert(in_row_ptr@ =~= in_starts(n as nat, col_idx@));
    in_row_ptr
}

/// Scatters the edge indices to the neurons they end in.
fn in_edges(n: usize, col_idx: &Vec<u32>, in_row_ptr: &Vec<u32>) -> (in_edge: Vec<u32>)
    requires
        n <= u32::MAX,
        col_idx@.len() <= u32::MAX,
        forall|e: int| 0 <= e < col_idx@.len() ==> #[trigger] col_idx@[e] < n,
        in_row_ptr@ == in_starts(n as nat, col_idx@),
    ensures
        in_edge@.len() == col_idx@.len(),
        forall|j: int|
            0 <= j < n ==> #[trigger] lists_in_edges(in_row_ptr@, in_edge@, col_idx@, j),
{
    let e = col_idx.len();
    let ghost starts = Seq::new(n as nat + 1, |j: int| targets_below(col_idx@, j, e as int));
    proof {
        lemma_targets_below_ends(col_idx@, n as int, e as int);
        assert forall|j: int| 0 <= j <= n implies starts[j] <= e && #[trigger] in_row_ptr@[j]
            == starts[j] by {
            lemma_targets_below_monotone(col_idx@, j, n as int, e as int);
        }
    }
    let mut in_edge = zero_words(e);
    let mut cursor = in_row_ptr.clone();
    assert(cursor@ =~= in_row_ptr@);
    let mut edge: usize = 0;
    while edge < e
        invariant
            edge <= e,
            e == col_idx@.len() <= u32::MAX,
            n <= u32::MAX,
            forall|e: int| 0 <= e < col_idx@.len() ==> #[trigger] col_idx@[e] < n,
            starts == Seq::new(n as nat + 1, |j: int| targets_below(col_idx@, j, e as int)),
            starts[n as int] == e,
            in_edge@.len() == e,
            cursor@.len() == n + 1,
            forall|j: int|
                0 <= j < n ==> #[trigger] cursor@[j] == starts[j] + edges_into(
                    col_idx@,
                    j,
                    edge as int,
                ).len(),
            forall|j: int, k: int|
                0 <= j < n && 0 <= k < edges_into(col_idx@, j, edge as int).len()
                    ==> in_edge@[starts[j] + k] == #[trigger] edges_into(
                    col_idx@,
                    j,
                    edge as int,
                )[k],
        decreases e - edge,
    {
        let j: usize = col_idx[edge] as usize;
        let at: u32 = cursor[j];
        proof {
            lemma_edges_into_grows(col_idx@, j as int, edge + 1, e as int);
            lemma_targets_below_next(col_idx@, j as int, e as int);
            lemma_targets_below_monotone(col_idx@, j + 1, n as int, e as int);
            assert(cursor@[j as int] == starts[j as int] + edges_into(
                col_idx@,
                j as int,
                edge as int,
            ).len());
            assert(at < starts[j + 1] <= starts[n as int]);
        }
        let ghost before = in_edge@;
        let ghost cursor_before = cursor@;
        in_edge.set(at as usize, edge as u32);
        cursor.set(j, at + 1);
        assert forall|q: int, k: int|
            0 <= q < n && 0 <= k < edges_into(col_idx@, q, edge + 1).len() implies in_edge@[
        starts[q] + k] == #[trigger] edges_into(col_idx@, q, edge + 1)[k] by {
            let row = edges_into(col_idx@, q, edge as int);
            lemma_edges_into_grows(col_idx@, q, edge + 1, e as int);
            lemma_targets_below_next(col_idx@, q, e as int);
            assert(starts[q + 1] == targets_below(col_idx@, q + 1, e as int));
            if q < j {
                lemma_targets_below_monotone(col_idx@, q + 1, j as int, e as int);
            }
            if q > j {
                lemma_targets_below_monotone(col_idx@, j + 1, q, e as int);
            }
            lemma_targets_below_monotone(col_idx@, q + 1, n as int, e as int);
            assert(starts[q] + k < starts[q + 1] <= e);
            if k < row.len() {
                assert(before[starts[q] + k] == row[k]);
                assert(starts[q] + k != at);
            } else {
                assert(q == j && k == row.len());
            }
        }
        assert forall|q: int| 0 <= q < n implies #[trigger] cursor@[q] == starts[q] + edges_into(
            col_idx@,
            q,
            edge + 1,
        ).len() by {
            assert(cursor_before[q] == starts[q] + edges_into(col_idx@, q, edge as int).len());
        }
        edge += 1;
    }
    assert forall|j: int| 0 <= j < n implies #[trigger] lists_in_edges(
        in_row_ptr@,
        in_edge@,
        col_idx@,
        j,
    ) by {
        lemma_targets_below_next(col_idx@, j, e as int);
        assert(in_row_ptr@[j] == starts[j] && in_row_ptr@[j + 1] == starts[j + 1]);
        assert(in_edge@.subrange(in_row_ptr@[j] as int, in_row_ptr@[j + 1] as int) =~= edges_into(
            col_idx@,
            j,
            e as int,
        ));
    }
    in_edge
}

impl Topology {
    /// Builds a topology from forward CSR arrays, computing the auxiliary
    /// transpose structures.
    pub fn from_csr(
        n: usize,
        row_ptr: Vec<u32>,
        col_idx: Vec<u32>,
        weights: Vec<Single>,
    ) -> (topo: Topology)
        requires
            is_csr(n as nat, row_ptr@, col_idx@),
            n <= u32::MAX,
            col_idx@.len() <= u32::MAX,
        ensures
            topo@ == (Csr {
                n: n as int,
                row_ptr: row_ptr@,
                col_idx: col_idx@,
                weights: weights@,
            }),
            topo.is_transposed(),
            weights@.len() == col_idx@.len() ==> topo.wf(),
    {
        assert(n < row_ptr.len());
        let edge_src = edge_sources(n, &row_ptr, col_idx.len());
        let in_row_ptr = in_row_starts(n, &col_idx);
        let in_edge = in_edges(n, &col_idx, &in_row_ptr);
        Topology { n, row_ptr, col_idx, weights, edge_src, in_row_ptr, in_edge }
    }

    pub fn num_edges(&self) -> (r: usize)
        ensures
            r == self@.edges(),
    {
        self.col_idx.len()
    }

    /// Out-edge slice range for neuron `i`.
    pub fn out_range(&self, i: usize) -> (r: core::ops::Range<usize>)
        requires
            i < usize::MAX,
            i + 1 < self.row_ptr@.len(),
        ensures
            r.start == self.row_ptr@[i as int],
            r.end == self.row_ptr@[i + 1],
    {
        self.row_ptr[i] as usize..self.row_ptr[i + 1] as usize
    }

    /// In-edge slice range for neuron `j` (indices into `in_edge`).
    pub fn in_range(&self, j: usize) -> (r: core::ops::Range<usize>)
        requires
            j < usize::MAX,
            j + 1 < self.in_row_ptr@.len(),
        ensures
            r.start == self.in_row_ptr@[j as int],
            r.end == self.in_row_ptr@[j + 1],
    {
        self.in_row_ptr[j] as usize..self.in_row_ptr[j + 1] as usize
    }
}

// --- random weights ---------------------------------------------------------

/// The standard-normal number that two uniform ones make (Box-Muller).
pub open spec fn box_muller<A: Arith>(u1: Single, u2: Single) -> Single {
    product::<A>(
        root::<A>(product::<A>(Single { bits: MINUS_TWO_BITS }, logarithm::<A>(u1))),
        cosine::<A>(product::<A>(Single { bits: TAU_BITS }, u2)),
    )
}

/// The standard-normal number that a generator in `state` gives, and its state
/// afterwards.
pub open spec fn gaussian_draw<A: Arith>(state: Seq<u32>) -> (Single, Seq<u32>) {
    let (u1, between) = uniform_draw::<A>(state, Single { bits: TEN_TO_MINUS_7_BITS }, unit());
    let (u2, after) = uniform_draw::<A>(between, nought(), unit());
    (box_muller::<A>(u1, u2), after)
}

/// The next `count` standard-normal numbers, and the state afterwards.
pub open spec fn gaussian_draws<A: Arith>(state: Seq<u32>, count: int) -> (Seq<Single>, Seq<u32>)
    decreases count,
{
    if count <= 0 {
        (Seq::empty(), state)
    } else {
        let (xs, between) = gaussian_draws::<A>(state, count - 1);
        let (x, after) = gaussian_draw::<A>(between);
        (xs.push(x), after)
    }
}

/// Standard-normal sample (Box-Muller).
pub fn gaussian<A: Arith>(rng: &mut StdRng) -> (x: Single)
    ensures
        deterministic::<A>() ==> (x, generator_state(*final(rng))) == gaussian_draw::<A>(
            generator_state(*old(rng)),
        ),
{
    let (u1, next) = A::uniform(rng, Single { bits: TEN_TO_MINUS_7_BITS }, Single::one());
    *rng = next;
    let (u2, next) = A::uniform(rng, Single::zeroed(), Single::one());
    *rng = next;
    let radius = A::sqrt(A::times(Single { bits: MINUS_TWO_BITS }, A::ln(u1)));
    A::times(radius, A::cos(A::times(Single { bits: TAU_BITS }, u2)))
}

/// The next `count` standard-normal samples, each times `scale`.
pub fn gaussians<A: Arith>(count: usize, scale: Single, rng: &mut StdRng) -> (xs: Vec<Single>)
    ensures
        xs@.len() == count,
        deterministic::<A>() ==> {
            let (drawn, after) = gaussian_draws::<A>(generator_state(*old(rng)), count as int);
            &&& xs@ == drawn.map_values(|x: Single| product::<A>(x, scale))
            &&& generator_state(*final(rng)) == after
        },
{
    let mut xs: Vec<Single> = Vec::new();
    let ghost state = generator_state(*rng);
    let mut i: usize = 0;
    while i < count
        invariant
            i <= count,
            xs@.len() == i,
            deterministic::<A>() ==> {
                let (drawn, after) = gaussian_draws::<A>(state, i as int);
                &&& drawn.len() == i
                &&& xs@ == drawn.map_values(|x: Single| product::<A>(x, scale))
                &&& generator_state(*rng) == after
            },
        decreases count - i,
    {
        let x = gaussian::<A>(rng);
        xs.push(A::times(x, scale));
        i += 1;
    }
    xs
}

// --- spectral radius --------------------------------------------------------

/// The L2 norm of a vector.
pub open spec fn length<A: Arith>(v: Seq<Single>) -> Single {
    root::<A>(running_sum::<A>(nought(), v.len() as int, |i: int| product::<A>(v[i], v[i])))
}

/// `v`, divided by its norm unless that is next to nothing.
pub open spec fn normalized<A: Arith>(v: Seq<Single>) -> Seq<Single> {
    if less(Single { bits: TEN_TO_MINUS_12_BITS }, length::<A>(v)) {
        v.map_values(|x: Single| quotient::<A>(x, length::<A>(v)))
    } else {
        v
    }
}

fn norm<A: Arith>(v: &Vec<Single>) -> (r: Single)
    ensures
        deterministic::<A>() ==> r == length::<A>(v@),
{
    let mut acc = Single::zeroed();
    let ghost term = |i: int| product::<A>(v@[i], v@[i]);
    let mut i: usize = 0;
    while i < v.len()
        invariant
            i <= v@.len(),
            term == (|i: int| product::<A>(v@[i], v@[i])),
            deterministic::<A>() ==> acc == running_sum::<A>(nought(), i as int, term),
        decreases v.len() - i,
    {
        acc = A::plus(acc, A::times(v[i], v[i]));
        i += 1;
    }
    A::sqrt(acc)
}

/// Every item of `v`, divided by `d`.
fn divided<A: Arith>(v: &Vec<Single>, d: Single) -> (r: Vec<Single>)
    ensures
        r@.len() == v@.len(),
        deterministic::<A>() ==> r@ == v@.map_values(|x: Single| quotient::<A>(x, d)),
{
    let mut r: Vec<Single> = Vec::new();
    let mut i: usize = 0;
    while i < v.len()
        invariant
            i <= v@.len(),
            r@.len() == i,
            deterministic::<A>() ==> forall|k: int|
                0 <= k < i ==> #[trigger] r@[k] == quotient::<A>(v@[k], d),
        decreases v.len() - i,
    {
        r.push(A::over(v[i], d));
        i += 1;
    }
    r
}

fn normalize<A: Arith>(v: &mut Vec<Single>)
    ensures
        final(v)@.len() == old(v)@.len(),
        deterministic::<A>() ==> final(v)@ == normalized::<A>(old(v)@),
{
    let n = norm::<A>(v);
    if (Single { bits: TEN_TO_MINUS_12_BITS }).lt(n) {
        *v = divided::<A>(v, n);
    }
}

impl Csr {
    /// The sum over the out-edges into `j` of the first `rows` neurons of weight
    /// times `x` at the source.
    pub open spec fn spread_to<A: Arith>(self, x: Seq<Single>, j: int, rows: int) -> Single
        decreases rows,
    {
        if rows <= 0 {
            nought()
        } else {
            let i = rows - 1;
            running_sum_where::<A>(
                self.spread_to::<A>(x, j, i),
                self.degree(i),
                |k: int| self.col_idx[self.row_start(i) + k] == j,
                |k: int| product::<A>(self.weights[self.row_start(i) + k], x[i]),
            )
        }
    }

    /// The weight matrix applied to `x`.
    pub open spec fn spread<A: Arith>(self, x: Seq<Single>) -> Seq<Single> {
        Seq::new(self.n as nat, |j: int| self.spread_to::<A>(x, j, self.n))
    }

    /// What `iters` rounds of power iteration from `x` make of the estimate
    /// `lambda`; a round that leaves next to nothing is the last.
    pub open spec fn power_iteration<A: Arith>(
        self,
        x: Seq<Single>,
        lambda: Single,
        iters: int,
    ) -> Single
        decreases iters,
    {
        if iters <= 0 {
            lambda
        } else {
            let y = self.spread::<A>(x);
            let size = length::<A>(y);
            if less(size, Single { bits: TEN_TO_MINUS_12_BITS }) {
                size
            } else {
                self.power_iteration::<A>(
                    y.map_values(|v: Single| quotient::<A>(v, size)),
                    size,
                    iters - 1,
                )
            }
        }
    }

    /// The spectral radius as `iters` rounds estimate it, from a start that a
    /// generator in `state` draws; and the state afterwards.
    pub open spec fn radius_estimate<A: Arith>(self, iters: int, state: Seq<u32>) -> (
        Single,
        Seq<u32>,
    ) {
        let (start, after) = gaussian_draws::<A>(state, self.n);
        (self.power_iteration::<A>(normalized::<A>(start), nought(), iters), after)
    }

    /// The weights scaled so that the estimated spectral radius becomes `target`.
    pub open spec fn rescaled<A: Arith>(self, target: Single) -> Csr {
        let (rho, _) = self.radius_estimate::<A>(50, seeded_state(0xC0FFEE));
        if less(Single { bits: TEN_TO_MINUS_9_BITS }, rho) {
            let s = quotient::<A>(target, rho);
            Csr { weights: self.weights.map_values(|w: Single| product::<A>(w, s)), ..self }
        } else {
            self
        }
    }
}

impl Topology {
    /// Applies the weight matrix to `x`.
    fn spread_once<A: Arith>(&self, x: &Vec<Single>) -> (y: Vec<Single>)
        requires
            self.wf(),
            x@.len() == self.n,
        ensures
            y@.len() == self.n,
            deterministic::<A>() ==> y@ == self@.spread::<A>(x@),
    {
        let mut y = zeros(self.n);
        let mut i: usize = 0;
        while i < self.n
            invariant
                self.wf(),
                x@.len() == self.n,
                i <= self.n,
                y@.len() == self.n,
                deterministic::<A>() ==> forall|j: int|
                    0 <= j < self.n ==> #[trigger] y@[j] == self@.spread_to::<A>(x@, j, i as int),
            decreases self.n - i,
        {
            let xi = x[i];
            assert(row_fits(self.row_ptr@, self@.edges(), i as int));
            let range = self.out_range(i);
            let ghost row = |j: int| |k: int| self.col_idx@[self@.row_start(i as int) + k] == j;
            let ghost term = |k: int|
                product::<A>(self.weights@[self@.row_start(i as int) + k], x@[i as int]);
            let mut e: usize = range.start;
            while e < range.end
                invariant
                    self.wf(),
                    x@.len() == self.n,
                    i < self.n,
                    xi == x@[i as int],
                    range.start == self.row_ptr@[i as int],
                    range.end == self.row_ptr@[i + 1],
                    row_fits(self.row_ptr@, self@.edges(), i as int),
                    range.start <= e,
                    e <= range.end || e == range.start,
                    y@.len() == self.n,
                    row == (|j: int|
                        |k: int| self.col_idx@[self@.row_start(i as int) + k] == j),
                    term == (|k: int|
                        product::<A>(self.weights@[self@.row_start(i as int) + k], x@[i as int])),
                    deterministic::<A>() ==> forall|j: int|
                        0 <= j < self.n ==> #[trigger] y@[j] == running_sum_where::<A>(
                            self@.spread_to::<A>(x@, j, i as int),
                            e - range.start,
                            row(j),
                            term,
                        ),
                decreases range.end - e,
            {
                let j: usize = self.col_idx[e] as usize;
                let ghost before = y@;
                y.set(j, A::plus(y[j], A::times(self.weights[e], xi)));
                e += 1;
                assert(deterministic::<A>() ==> forall|q: int|
                    0 <= q < self.n ==> #[trigger] y@[q] == running_sum_where::<A>(
                        self@.spread_to::<A>(x@, q, i as int),
                        e - range.start,
                        row(q),
                        term,
                    )) by {
                    if deterministic::<A>() {
                        assert forall|q: int| 0 <= q < self.n implies #[trigger] y@[q]
                            == running_sum_where::<A>(
                            self@.spread_to::<A>(x@, q, i as int),
                            e - range.start,
                            row(q),
                            term,
                        ) by {
                            let k = e - 1 - range.start;
                            assert(before[q] == running_sum_where::<A>(
                                self@.spread_to::<A>(x@, q, i as int),
                                k,
                                row(q),
                                term,
                            ));
                            assert(row(q)(k) == (self.col_idx@[e - 1] == q));
                            assert(term(k) == product::<A>(self.weights@[e - 1], xi));
                        }
                    }
                }
            }
            i += 1;
        }
        proof {
            if deterministic::<A>() {
                assert(y@ =~= self@.spread::<A>(x@));
            }
        }
        y
    }

    /// Estimates the spectral radius (largest absolute eigenvalue) by power
    /// iteration on the sparse weight matrix.
    pub fn spectral_radius<A: Arith>(&self, iters: usize, rng: &mut StdRng) -> (rho: Single)
        requires
            self.wf(),
        ensures
            deterministic::<A>() ==> (rho, generator_state(*final(rng))) == self@.radius_estimate::<
                A,
            >(iters as int, generator_state(*old(rng))),
    {
        let n = self.n;
        let ghost state = generator_state(*rng);
        let mut x: Vec<Single> = Vec::new();
        let mut i: usize = 0;
        while i < n
            invariant
                n == self.n,
                i <= n,
                x@.len() == i,
                deterministic::<A>() ==> (x@, generator_state(*rng)) == gaussian_draws::<A>(
                    state,
                    i as int,
                ),
            decreases n - i,
        {
            let drawn = gaussian::<A>(rng);
            x.push(drawn);
            i += 1;
        }
        normalize::<A>(&mut x);
        let ghost start = x@;
        let mut lambda = Single::zeroed();
        let mut done: usize = 0;
        while done < iters
            invariant_except_break
                deterministic::<A>() ==> self@.power_iteration::<A>(start, nought(), iters as int)
                    == self@.power_iteration::<A>(x@, lambda, iters - done),
            invariant
                self.wf(),
                n == self.n,
                done <= iters,
                x@.len() == n,
            ensures
                deterministic::<A>() ==> lambda == self@.power_iteration::<A>(
                    start,
                    nought(),
                    iters as int,
                ),
            decreases iters - done,
        {
            let y = self.spread_once::<A>(&x);
            lambda = norm::<A>(&y);
            if lambda.lt(Single { bits: TEN_TO_MINUS_12_BITS }) {
                break ;
            }
            x = divided::<A>(&y, lambda);
            done += 1;
        }
        lambda
    }

    /// Rescales all weights so that the estimated spectral radius equals `target`.
    pub fn rescale_spectral_radius<A: Arith>(&mut self, target: Single)
        requires
            old(self).wf(),
        ensures
            final(self).wf(),
            final(self).n == old(self).n,
            final(self).row_ptr@ == old(self).row_ptr@,
            final(self).col_idx@ == old(self).col_idx@,
            final(self).edge_src@ == old(self).edge_src@,
            final(self).in_row_ptr@ == old(self).in_row_ptr@,
            final(self).in_edge@ == old(self).in_edge@,
            deterministic::<A>() ==> final(self)@ == old(self)@.rescaled::<A>(target),
    {
        let mut rng = seeded(0xC0FFEE);
        let rho = self.spectral_radius::<A>(50, &mut rng);
        if (Single { bits: TEN_TO_MINUS_9_BITS }).lt(rho) {
            let s = A::over(target, rho);
            let mut weights: Vec<Single> = Vec::new();
            let mut e: usize = 0;
            while e < self.weights.len()
                invariant
                    e <= self.weights@.len(),
                    weights@.len() == e,
                    deterministic::<A>() ==> forall|k: int|
                        0 <= k < e ==> #[trigger] weights@[k] == product::<A>(self.weights@[k], s),
                decreases self.weights.len() - e,
            {
                weights.push(A::times(self.weights[e], s));
                e += 1;
            }
            self.weights = weights;
            proof {
                if deterministic::<A>() {
                    assert(self@ =~= old(self)@.rescaled::<A>(target));
                }
            }
        }
    }
}

// --- random wiring ----------------------------------------------------------

/// The numbers `0..n`.
pub open spec fn neurons(n: nat) -> Seq<u32> {
    Seq::new(n, |i: int| i as u32)
}

/// Holds of every neuron but `i`.
pub open spec fn other_than(i: int) -> spec_fn(u32) -> bool {
    |t: u32| t != i
}

/// The first `k` of `candidates` other than `i`.
pub open spec fn chosen_targets(candidates: Seq<u32>, i: int, k: int) -> Seq<u32> {
    candidates.filter(other_than(i)).take(k)
}

/// A random graph in the making.
pub struct Wiring {
    /// The neurons, in the order of the last shuffle.
    pub candidates: Seq<u32>,
    /// The generator's state.
    pub state: Seq<u32>,
    pub col_idx: Seq<u32>,
    pub weights: Seq<Single>,
}

/// The first `rows` neurons of `n` wired up: each shuffles the candidates, takes
/// the first `k` but itself, and draws a weight for each of them.
pub open spec fn wired<A: Arith>(n: nat, k: int, scale: Single, state: Seq<u32>, rows: int) -> Wiring
    decreases rows,
{
    if rows <= 0 {
        Wiring {
            candidates: neurons(n),
            state,
            col_idx: Seq::empty(),
            weights: Seq::empty(),
        }
    } else {
        let before = wired::<A>(n, k, scale, state, rows - 1);
        let (candidates, between) = shuffled(before.state, before.candidates);
        let (drawn, after) = gaussian_draws::<A>(between, k);
        Wiring {
            candidates,
            state: after,
            col_idx: before.col_idx + chosen_targets(candidates, rows - 1, k),
            weights: before.weights + drawn.map_values(|x: Single| product::<A>(x, scale)),
        }
    }
}

/// The number of out-edges that a new neuron gets: `k`, or all others where
/// there are fewer.
pub open spec fn initial_degree(cfg: Config) -> int {
    if cfg.k <= cfg.n - 1 {
        cfg.k as int
    } else {
        cfg.n - 1
    }
}

/// The standard deviation of a new weight.
pub open spec fn initial_scale<A: Arith>(cfg: Config) -> Single {
    root::<A>(quotient::<A>(unit(), counted::<A>(initial_degree(cfg) as u64)))
}

/// The rows of `n` neurons with `k` out-edges each.
pub open spec fn even_rows(n: nat, k: int) -> Seq<u32> {
    Seq::new(n + 1, |i: int| (i * k) as u32)
}

/// The random graph that `cfg` and a generator in `state` give, scaled to the
/// configured spectral radius; and the state afterwards.
pub open spec fn initial_graph<A: Arith>(cfg: Config, state: Seq<u32>) -> (Csr, Seq<u32>) {
    let k = initial_degree(cfg);
    let wiring = wired::<A>(cfg.n as nat, k, initial_scale::<A>(cfg), state, cfg.n as int);
    let unscaled = Csr {
        n: cfg.n as int,
        row_ptr: even_rows(cfg.n as nat, k),
        col_idx: wiring.col_idx,
        weights: wiring.weights,
    };
    (unscaled.rescaled::<A>(cfg.spectral_radius), wiring.state)
}

/// A reordering of distinct items holds distinct items, and the same ones.
proof fn lemma_reordered(a: Seq<u32>, b: Seq<u32>)
    requires
        a.to_multiset() == b.to_multiset(),
        a.no_duplicates(),
    ensures
        b.no_duplicates(),
        b.len() == a.len(),
        forall|x: u32| a.contains(x) == b.contains(x),
{
    broadcast use vstd::seq_lib::group_to_multiset_ensures;

    a.lemma_multiset_has_no_duplicates();
    assert forall|x: u32| b.to_multiset().contains(x) implies b.to_multiset().count(x) == 1 by {
        assert(a.to_multiset().contains(x));
    }
    b.lemma_multiset_has_no_duplicates_conv();
    assert forall|x: u32| a.contains(x) == b.contains(x) by {
        assert(a.contains(x) <==> a.to_multiset().count(x) > 0);
        assert(b.contains(x) <==> b.to_multiset().count(x) > 0);
    }
    assert(a.len() == a.to_multiset().len());
    assert(b.len() == b.to_multiset().len());
}

/// The first `k` candidates other than `i`.
fn pick_targets(candidates: &Vec<u32>, i: usize, k: usize) -> (r: Vec<u32>)
    requires
        candidates@.no_duplicates(),
        k < candidates@.len(),
    ensures
        r@ == chosen_targets(candidates@, i as int, k as int),
        r@.len() == k,
        are_distinct_others(r@, i as int),
        forall|a: int| 0 <= a < r@.len() ==> candidates@.contains(#[trigger] r@[a]),
{
    let ghost other = other_than(i as int);
    let mut r: Vec<u32> = Vec::new();
    let mut idx: usize = 0;
    proof {
        reveal(Seq::filter);
        assert(candidates@.take(0).filter(other) =~= Seq::<u32>::empty());
    }
    while r.len() < k
        invariant
            other == other_than(i as int),
            candidates@.no_duplicates(),
            k < candidates@.len(),
            r@.len() <= k,
            r@.len() <= idx <= r@.len() + 1,
            idx <= candidates@.len(),
            idx == r@.len() + 1 ==> exists|a: int| 0 <= a < idx && #[trigger] candidates@[a] == i,
            r@ == candidates@.take(idx as int).filter(other),
            are_distinct_others(r@, i as int),
            forall|a: int|
                0 <= a < r@.len() ==> candidates@.take(idx as int).contains(#[trigger] r@[a]),
        decreases candidates@.len() - idx,
    {
        let t: u32 = candidates[idx];
        assert(idx < candidates.len());
        let ghost before = r@;
        proof {
            reveal(Seq::filter);
            assert(candidates@.take(idx + 1).drop_last() =~= candidates@.take(idx as int));
            assert(candidates@.take(idx + 1).last() == t);
            assert forall|a: int| 0 <= a < r@.len() implies #[trigger] r@[a] != t by {
                assert(candidates@.take(idx as int).contains(r@[a]));
                let b = choose|b: int|
                    0 <= b < idx && candidates@.take(idx as int)[b] == r@[a];
                assert(candidates@[b] == r@[a]);
            }
        }
        idx += 1;
        if t as usize != i {
            r.push(t);
        } else {
            assert(candidates@[idx - 1] == i);
        }
        assert forall|a: int| 0 <= a < r@.len() implies candidates@.take(idx as int).contains(
            #[trigger] r@[a],
        ) by {
            if a < before.len() {
                let b = choose|b: int|
                    0 <= b < idx - 1 && #[trigger] candidates@[b] == before[a];
                assert(candidates@.take(idx as int)[b] == r@[a]);
            } else {
                assert(candidates@.take(idx as int)[idx - 1] == r@[a]);
            }
        }
    }
    proof {
        let head = candidates@.take(idx as int);
        let tail = candidates@.skip(idx as int);
        assert(head + tail =~= candidates@);
        Seq::filter_distributes_over_add(head, tail, other);
        assert(r@ =~= chosen_targets(candidates@, i as int, k as int));
        assert forall|a: int| 0 <= a < r@.len() implies candidates@.contains(#[trigger] r@[a]) by {
            let b = choose|b: int| 0 <= b < idx && candidates@.take(idx as int)[b] == r@[a];
            assert(candidates@[b] == r@[a]);
        }
    }
    r
}

/// Row `i` of a table with `k` columns.
spec fn table_row(cells: Seq<u32>, k: int, i: int) -> Seq<u32> {
    cells.subrange(i * k, i * k + k)
}

proof fn lemma_table_rows(rows: int, k: int, i: int)
    requires
        0 <= i < rows,
        0 <= k,
    ensures
        0 <= i * k,
        i * k + k == (i + 1) * k,
        (i + 1) * k <= rows * k,
{
    assert(0 <= i * k) by (nonlinear_arith)
        requires
            0 <= i,
            0 <= k,
    ;
    assert(i * k + k == (i + 1) * k) by (nonlinear_arith);
    assert((i + 1) * k <= rows * k) by (nonlinear_arith)
        requires
            i + 1 <= rows,
            0 <= k,
    ;
}

/// Wires up `n` neurons with `k` random out-edges each. Returns the targets and
/// the weights, row by row.
fn wire<A: Arith>(n: usize, k: usize, scale: Single, rng: &mut StdRng) -> (r: (
    Vec<u32>,
    Vec<Single>,
))
    requires
        k < n <= u32::MAX,
        n * k <= u32::MAX,
    ensures
        r.0@.len() == n * k,
        r.1@.len() == n * k,
        forall|e: int| 0 <= e < r.0@.len() ==> #[trigger] r.0@[e] < n,
        forall|i: int|
            0 <= i < n ==> are_distinct_others(#[trigger] table_row(r.0@, k as int, i), i),
        deterministic::<A>() ==> {
            let wiring = wired::<A>(
                n as nat,
                k as int,
                scale,
                generator_state(*old(rng)),
                n as int,
            );
            &&& r.0@ == wiring.col_idx
            &&& r.1@ == wiring.weights
            &&& generator_state(*final(rng)) == wiring.state
        },
{
    let ghost state = generator_state(*rng);
    let mut col_idx: Vec<u32> = Vec::new();
    let mut weights: Vec<Single> = Vec::new();
    let mut candidates: Vec<u32> = Vec::new();
    let mut c: usize = 0;
    while c < n
        invariant
            c <= n <= u32::MAX,
            candidates@ == neurons(c as nat),
        decreases n - c,
    {
        candidates.push(c as u32);
        c += 1;
        assert(candidates@ =~= neurons(c as nat));
    }
    let mut i: usize = 0;
    while i < n
        invariant
            i <= n <= u32::MAX,
            k < n,
            n * k <= u32::MAX,
            col_idx@.len() == i * k,
            weights@.len() == i * k,
            candidates@.to_multiset() == neurons(n as nat).to_multiset(),
            forall|e: int| 0 <= e < col_idx@.len() ==> #[trigger] col_idx@[e] < n,
            forall|q: int|
                0 <= q < i ==> are_distinct_others(
                    #[trigger] table_row(col_idx@, k as int, q),
                    q,
                ),
            deterministic::<A>() ==> ({
                let wiring = wired::<A>(n as nat, k as int, scale, state, i as int);
                &&& candidates@ == wiring.candidates
                &&& generator_state(*rng) == wiring.state
                &&& col_idx@ == wiring.col_idx
                &&& weights@ == wiring.weights
            }),
        decreases n - i,
    {
        proof {
            lemma_table_rows(n as int, k as int, i as int);
        }
        shuffle(&mut candidates, rng);
        proof {
            lemma_reordered(neurons(n as nat), candidates@);
        }
        let mut targets = pick_targets(&candidates, i, k);
        let mut drawn = gaussians::<A>(k, scale, rng);
        let ghost before = col_idx@;
        let ghost row = targets@;
        proof {
            assert forall|a: int| 0 <= a < row.len() implies #[trigger] row[a] < n by {
                assert(neurons(n as nat).contains(row[a]));
            }
        }
        col_idx.append(&mut targets);
        weights.append(&mut drawn);
        proof {
            assert(table_row(col_idx@, k as int, i as int) =~= row);
            assert forall|q: int| 0 <= q < i + 1 implies are_distinct_others(
                #[trigger] table_row(col_idx@, k as int, q),
                q,
            ) by {
                if q < i {
                    lemma_table_rows(i as int, k as int, q);
                    assert(table_row(col_idx@, k as int, q) =~= table_row(before, k as int, q));
                }
            }
        }
        i += 1;
    }
    (col_idx, weights)
}

/// The rows of `n` neurons with `k` out-edges each.
fn even_row_ptr(n: usize, k: usize) -> (row_ptr: Vec<u32>)
    requires
        n * k <= u32::MAX,
        n < usize::MAX,
    ensures
        row_ptr@ == even_rows(n as nat, k as int),
{
    let mut row_ptr: Vec<u32> = Vec::new();
    let mut i: usize = 0;
    let mut at: u32 = 0;
    row_ptr.push(0);
    assert(0 * k == 0);
    while i < n
        invariant
            i <= n,
            n * k <= u32::MAX,
            at == i * k,
            row_ptr@.len() == i + 1,
            forall|q: int| 0 <= q <= i ==> #[trigger] row_ptr@[q] == q * k,
        decreases n - i,
    {
        proof {
            lemma_table_rows(n as int, k as int, i as int);
        }
        at = at + k as u32;
        row_ptr.push(at);
        i += 1;
    }
    assert(row_ptr@ =~= even_rows(n as nat, k as int));
    row_ptr
}

/// Rows of `k` out-edges each, with distinct targets, make a packed simple graph.
proof fn lemma_even_graph(g: Csr, k: int)
    requires
        0 <= g.n,
        0 <= k,
        g.n * k <= u32::MAX,
        g.row_ptr == even_rows(g.n as nat, k),
        g.edges() == g.n * k,
        forall|e: int| 0 <= e < g.edges() ==> #[trigger] g.col_idx[e] < g.n,
        forall|i: int|
            0 <= i < g.n ==> are_distinct_others(#[trigger] table_row(g.col_idx, k, i), i),
    ensures
        is_csr(g.n as nat, g.row_ptr, g.col_idx),
        g.is_packed(),
        g.is_simple(),
        forall|i: int| 0 <= i < g.n ==> #[trigger] g.degree(i) == k,
{
    assert forall|i: int| 0 <= i <= g.n implies #[trigger] g.row_ptr[i] == i * k by {
        assert(0 <= i * k <= g.n * k) by (nonlinear_arith)
            requires
                0 <= i <= g.n,
                0 <= k,
        ;
    }
    assert(0 * k == 0);
    assert forall|i: int, j: int| 0 <= i <= j <= g.n implies #[trigger] g.row_ptr[i]
        <= #[trigger] g.row_ptr[j] by {
        assert(i * k <= j * k) by (nonlinear_arith)
            requires
                i <= j,
                0 <= k,
        ;
    }
    assert forall|i: int| 0 <= i < g.n implies #[trigger] row_fits(
        g.row_ptr,
        g.edges(),
        i,
    ) by {
        assert(g.row_ptr[i + 1] <= g.row_ptr[g.n]);
    }
    assert forall|i: int| 0 <= i < g.n implies #[trigger] g.degree(i) == k by {
        lemma_table_rows(g.n, k, i);
        assert(g.row_ptr[i] == i * k);
        assert(g.row_ptr[i + 1] == (i + 1) * k);
    }
    assert forall|i: int| 0 <= i < g.n implies are_distinct_others(
        #[trigger] g.targets(i),
        i,
    ) by {
        lemma_table_rows(g.n, k, i);
        assert(g.degree(i) == k);
        assert(g.row_ptr[i] == i * k);
        assert(g.row_start(i) == i * k);
        let row = table_row(g.col_idx, k, i);
        assert(row.len() == k);
        assert forall|q: int| 0 <= q < k implies #[trigger] g.targets(i)[q] == row[q] by {
            assert(row[q] == g.col_idx[i * k + q]);
        }
        assert(g.targets(i) =~= row);
    }
}

impl Topology {
    /// Initializes a random sparse graph: each neuron gets `k` distinct out-edges
    /// (no self-loops), weights of variance `1 / k`, then globally rescaled so
    /// that the spectral radius matches the configured target.
    pub fn init_random<A: Arith>(cfg: &Config, rng: &mut StdRng) -> (topo: Topology)
        requires
            1 <= cfg.n <= u32::MAX,
            cfg.n < usize::MAX,
            cfg.n * initial_degree(*cfg) <= u32::MAX,
        ensures
            topo.wf(),
            topo.n == cfg.n,
            topo.row_ptr@ == even_rows(cfg.n as nat, initial_degree(*cfg)),
            topo@.is_packed(),
            topo@.is_simple(),
            topo@.edges() == cfg.n * initial_degree(*cfg),
            forall|i: int| 0 <= i < cfg.n ==> #[trigger] topo@.degree(i) == initial_degree(*cfg),
            deterministic::<A>() ==> (topo@, generator_state(*final(rng))) == initial_graph::<A>(
                *cfg,
                generator_state(*old(rng)),
            ),
    {
        let n = cfg.n;
        let k: usize = if cfg.k <= n - 1 {
            cfg.k
        } else {
            n - 1
        };
        let scale = A::sqrt(A::over(Single::one(), A::of_count(k as u64)));
        let (col_idx, weights) = wire::<A>(n, k, scale, rng);
        let row_ptr = even_row_ptr(n, k);
        proof {
            lemma_even_graph(
                Csr {
                    n: n as int,
                    row_ptr: row_ptr@,
                    col_idx: col_idx@,
                    weights: weights@,
                },
                k as int,
            );
        }
        let mut topo = Topology::from_csr(n, row_ptr, col_idx, weights);
        topo.rescale_spectral_radius::<A>(cfg.spectral_radius);
        proof {
            lemma_even_graph(topo@, k as int);
        }
        topo
    }
}

/// An edge arrives at one neuron only, its target, and once: the in-edge list of
/// `j` holds `e` exactly if `e` ends in `j`, and is strictly ascending.
pub proof fn law_every_edge_arrives_once(col_idx: Seq<u32>, j: int, e: u32)
    requires
        col_idx.len() <= u32::MAX,
        e < col_idx.len(),
    ensures
        edges_into(col_idx, j, col_idx.len() as int).contains(e) <==> col_idx[e as int] == j,
        forall|a: int, b: int|
            0 <= a < b < edges_into(col_idx, j, col_idx.len() as int).len() ==> edges_into(
                col_idx,
                j,
                col_idx.len() as int,
            )[a] < edges_into(col_idx, j, col_idx.len() as int)[b],
{
    lemma_arrivals(col_idx, j, e, col_idx.len() as int);
}

proof fn lemma_arrivals(col_idx: Seq<u32>, j: int, e: u32, upto: int)
    requires
        0 <= upto <= col_idx.len(),
        upto <= u32::MAX,
    ensures
        edges_into(col_idx, j, upto).contains(e) <==> e < upto && col_idx[e as int] == j,
        forall|a: int, b: int|
            0 <= a < b < edges_into(col_idx, j, upto).len() ==> edges_into(col_idx, j, upto)[a]
                < edges_into(col_idx, j, upto)[b],
    decreases upto,
{
    if upto > 0 {
        lemma_arrivals(col_idx, j, e, upto - 1);
        lemma_edges_into(col_idx, j, upto - 1);
        let before = edges_into(col_idx, j, upto - 1);
        let all = edges_into(col_idx, j, upto);
        if before.contains(e) {
            let k = choose|k: int| 0 <= k < before.len() && before[k] == e;
            assert(all[k] == e);
        }
        if all.contains(e) {
            let k = choose|k: int| 0 <= k < all.len() && all[k] == e;
            if k < before.len() {
                assert(before[k] == e);
            }
        }
        if e == upto - 1 && col_idx[e as int] == j {
            assert(all[before.len() as int] == e);
        }
    }
}

/// In a packed graph every neuron owns a range of edges of its own: edge `e`
/// starts in `i` exactly if it lies in the row of `i`.
pub proof fn law_sources_own_disjoint_rows(g: Csr, i: int, e: int)
    requires
        0 <= g.n <= u32::MAX,
        g.is_packed(),
        0 <= i < g.n,
        0 <= e < g.edges(),
    ensures
        g.source(e) == i <==> g.row_ptr[i] <= e < g.row_ptr[i + 1],
{
    lemma_owner(g, g.n, i, e);
}

proof fn lemma_owner(g: Csr, rows: int, i: int, e: int)
    requires
        0 <= rows <= g.n <= u32::MAX,
        g.is_packed(),
        0 <= i < rows,
        0 <= e < g.row_ptr[rows],
    ensures
        source_of(g.row_ptr, rows, e) == i <==> g.row_ptr[i] <= e < g.row_ptr[i + 1],
    decreases rows,
{
    if g.row_ptr[rows - 1] <= e {
        if i < rows - 1 {
            assert(g.row_ptr[i + 1] <= g.row_ptr[rows - 1]);
        }
    } else if i < rows - 1 {
        lemma_owner(g, rows - 1, i, e);
    } else if rows > 1 {
        lemma_source_of(g.row_ptr, rows - 1, e);
    } else {
        assert(g.row_ptr[0] == 0);
    }
}

// --- what holds of draws, estimates and new graphs --------------------------

/// A standard-normal number takes two uniform ones, the first of them not below 1e-7:
/// with `u1` and then `u2` drawn, it is the root of minus two times the logarithm of
/// `u1`, times the cosine of `u2` full turns.
pub proof fn law_gaussian_takes_two_draws<A: Arith>(
    state: Seq<u32>,
    u1: Single,
    between: Seq<u32>,
    u2: Single,
    after: Seq<u32>,
)
    requires
        uniform_draw::<A>(state, Single { bits: 0x33d6_bf95 }, unit()) == (u1, between),
        uniform_draw::<A>(between, nought(), unit()) == (u2, after),
    ensures
        gaussian_draw::<A>(state) == (
            product::<A>(
                root::<A>(product::<A>(Single { bits: 0xc000_0000 }, logarithm::<A>(u1))),
                cosine::<A>(product::<A>(Single { bits: 0x40c9_0fdb }, u2)),
            ),
            after,
        ),
{
}

/// Drawing goes on where it stopped: `a + b` numbers are `a` numbers and then `b` more;
/// one number is one draw.
pub proof fn law_draws_go_on<A: Arith>(state: Seq<u32>, a: int, b: int)
    requires
        0 <= a,
        0 <= b,
    ensures
        ({
            let (xs, between) = gaussian_draws::<A>(state, a);
            let (ys, after) = gaussian_draws::<A>(between, b);
            &&& xs.len() == a
            &&& ys.len() == b
            &&& gaussian_draws::<A>(state, a + b) == (xs + ys, after)
        }),
        gaussian_draws::<A>(state, 1) == (
            seq![gaussian_draw::<A>(state).0],
            gaussian_draw::<A>(state).1,
        ),
    decreases a + b,
{
    reveal_with_fuel(gaussian_draws, 2);
    assert(gaussian_draws::<A>(state, 1).0 =~= seq![gaussian_draw::<A>(state).0]);
    let (xs, between) = gaussian_draws::<A>(state, a);
    let (ys, after) = gaussian_draws::<A>(between, b);
    if b > 0 {
        law_draws_go_on::<A>(state, a, b - 1);
        let (zs, last) = gaussian_draws::<A>(between, b - 1);
        assert(gaussian_draws::<A>(state, a + b).0 =~= xs + ys);
    } else {
        if a > 0 {
            law_draws_go_on::<A>(state, a - 1, 0);
        }
        assert(xs + ys =~= xs);
    }
}

/// Normalizing divides every number by the root of the sum of their squares, unless
/// that is not above 1e-12.
pub proof fn law_normalizing_divides_by_the_length<A: Arith>(v: Seq<Single>, size: Single)
    requires
        size == root::<A>(
            running_sum::<A>(nought(), v.len() as int, |i: int| product::<A>(v[i], v[i])),
        ),
    ensures
        normalized::<A>(v).len() == v.len(),
        less(Single { bits: 0x2b8c_bccc }, size) ==> forall|i: int|
            0 <= i < v.len() ==> #[trigger] normalized::<A>(v)[i] == quotient::<A>(v[i], size),
        !less(Single { bits: 0x2b8c_bccc }, size) ==> normalized::<A>(v) == v,
{
}

/// Power iteration returns the length of what the weight matrix makes of the last of
/// its vectors: each vector is what the matrix makes of the one before, divided by
/// its length, and no length but the last is below 1e-12. What was estimated before
/// the first round does not count.
pub proof fn law_estimate_is_the_last_length<A: Arith>(
    g: Csr,
    xs: Seq<Seq<Single>>,
    lambda: Single,
    iters: int,
    last: int,
)
    requires
        0 <= last < xs.len(),
        last < iters,
        forall|k: int| 0 <= k <= last ==> #[trigger] xs[k].len() == g.n,
        forall|k: int|
            0 <= k < last ==> !less(
                length::<A>(g.spread::<A>(#[trigger] xs[k])),
                Single { bits: 0x2b8c_bccc },
            ),
        forall|k: int, i: int|
            0 < k <= last && 0 <= i < g.n ==> #[trigger] xs[k][i] == quotient::<A>(
                g.spread::<A>(xs[k - 1])[i],
                length::<A>(g.spread::<A>(xs[k - 1])),
            ),
        last == iters - 1 || less(
            length::<A>(g.spread::<A>(xs[last])),
            Single { bits: 0x2b8c_bccc },
        ),
    ensures
        g.power_iteration::<A>(xs[0], lambda, iters) == length::<A>(g.spread::<A>(xs[last])),
    decreases last,
{
    let y = g.spread::<A>(xs[0]);
    let size = length::<A>(y);
    if last > 0 {
        assert(!less(length::<A>(g.spread::<A>(xs[0])), Single { bits: 0x2b8c_bccc }));
        let next = y.map_values(|v: Single| quotient::<A>(v, size));
        assert(xs[1] =~= next) by {
            assert(xs[1].len() == g.n);
        }
        let rest = xs.skip(1);
        assert forall|k: int| 0 <= k < last - 1 implies !less(
            length::<A>(g.spread::<A>(#[trigger] rest[k])),
            Single { bits: 0x2b8c_bccc },
        ) by {
            assert(rest[k] == xs[k + 1]);
        }
        assert forall|k: int, i: int| 0 < k <= last - 1 && 0 <= i < g.n implies #[trigger] rest[k][i]
            == quotient::<A>(
            g.spread::<A>(rest[k - 1])[i],
            length::<A>(g.spread::<A>(rest[k - 1])),
        ) by {
            assert(rest[k - 1] == xs[k]);
            assert(rest[k] == xs[k + 1]);
            assert(xs[k + 1][i] == quotient::<A>(
                g.spread::<A>(xs[k])[i],
                length::<A>(g.spread::<A>(xs[k])),
            ));
        }
        law_estimate_is_the_last_length::<A>(g, rest, size, iters - 1, last - 1);
        assert(rest[last - 1] == xs[last]);
    } else {
        reveal_with_fuel(Csr::power_iteration, 2);
    }
}

/// The estimate starts from standard-normal numbers, one per neuron, normalized; of no
/// rounds it is zero.
pub proof fn law_estimate_starts_from_draws<A: Arith>(g: Csr, iters: int, state: Seq<u32>)
    ensures
        g.radius_estimate::<A>(iters, state).0 == g.power_iteration::<A>(
            normalized::<A>(gaussian_draws::<A>(state, g.n).0),
            nought(),
            iters,
        ),
        g.radius_estimate::<A>(iters, state).1 == gaussian_draws::<A>(state, g.n).1,
        g.radius_estimate::<A>(0, state).0 == nought(),
{
}

/// Rescaling multiplies every weight by what the target is to the estimate of fifty
/// rounds, and leaves the edges; an estimate that is not above 1e-9 leaves the
/// weights too.
pub proof fn law_rescaling_multiplies_every_weight<A: Arith>(g: Csr, target: Single, rho: Single)
    requires
        rho == g.radius_estimate::<A>(50, seeded_state(0xC0FFEE)).0,
    ensures
        g.rescaled::<A>(target) == (Csr { weights: g.rescaled::<A>(target).weights, ..g }),
        g.rescaled::<A>(target).weights.len() == g.weights.len(),
        less(Single { bits: 0x3089_705f }, rho) ==> forall|e: int|
            0 <= e < g.weights.len() ==> #[trigger] g.rescaled::<A>(target).weights[e]
                == product::<A>(g.weights[e], quotient::<A>(target, rho)),
        !less(Single { bits: 0x3089_705f }, rho) ==> g.rescaled::<A>(target) == g,
{
}

/// Of candidates that are all different, the chosen ones are the first `k` in their
/// order; where `i` stands among them, at `p`, it is passed over.
pub proof fn law_chosen_targets_pass_over_one(candidates: Seq<u32>, i: int, p: int, k: int)
    requires
        candidates.no_duplicates(),
        0 <= p < candidates.len(),
        candidates[p] == i,
        0 <= k < candidates.len(),
    ensures
        chosen_targets(candidates, i, k).len() == k,
        forall|a: int|
            0 <= a < k && a < p ==> #[trigger] chosen_targets(candidates, i, k)[a]
                == candidates[a],
        forall|a: int|
            0 <= a < k && p <= a ==> #[trigger] chosen_targets(candidates, i, k)[a]
                == candidates[a + 1],
{
    let others = candidates.filter(other_than(i));
    let want = candidates.take(p) + candidates.skip(p + 1);
    assert(candidates =~= candidates.take(p) + (seq![candidates[p]] + candidates.skip(p + 1)));
    assert(others =~= want) by {
        lemma_filter_keeps(candidates.take(p), i);
        lemma_filter_keeps(candidates.skip(p + 1), i);
        Seq::filter_distributes_over_add(
            candidates.take(p),
            seq![candidates[p]] + candidates.skip(p + 1),
            other_than(i),
        );
        Seq::filter_distributes_over_add(
            seq![candidates[p]],
            candidates.skip(p + 1),
            other_than(i),
        );
        reveal_with_fuel(Seq::filter, 2);
        assert(seq![candidates[p]].drop_last() =~= Seq::<u32>::empty());
        assert(seq![candidates[p]].filter(other_than(i)) =~= Seq::<u32>::empty());
    }
}

/// Filtering keeps everything where `i` does not occur.
proof fn lemma_filter_keeps(xs: Seq<u32>, i: int)
    requires
        forall|a: int| 0 <= a < xs.len() ==> #[trigger] xs[a] != i,
    ensures
        xs.filter(other_than(i)) == xs,
    decreases xs.len(),
{
    reveal(Seq::filter);
    if xs.len() > 0 {
        lemma_filter_keeps(xs.drop_last(), i);
        assert(xs.last() != i);
        assert(xs =~= xs.drop_last().push(xs.last()));
    }
}

/// Wiring up one more neuron: the candidates are shuffled on from their last order,
/// the first `k` others become its targets, and as many standard-normal numbers,
/// drawn after the shuffle, become their weights, scaled.
pub proof fn law_wiring_of_one_neuron<A: Arith>(
    n: nat,
    k: int,
    scale: Single,
    state: Seq<u32>,
    i: int,
)
    requires
        0 <= i,
        0 <= k,
    ensures
        ({
            let before = wired::<A>(n, k, scale, state, i);
            let after = wired::<A>(n, k, scale, state, i + 1);
            let (candidates, between) = shuffled(before.state, before.candidates);
            let (drawn, last) = gaussian_draws::<A>(between, k);
            &&& after.candidates == candidates
            &&& after.state == last
            &&& after.col_idx == before.col_idx + chosen_targets(candidates, i, k)
            &&& after.weights.len() == before.weights.len() + k
            &&& after.weights.take(before.weights.len() as int) == before.weights
            &&& forall|a: int|
                0 <= a < k ==> #[trigger] after.weights[before.weights.len() + a] == product::<A>(
                    drawn[a],
                    scale,
                )
        }),
        wired::<A>(n, k, scale, state, 0).candidates == Seq::new(n, |a: int| a as u32),
        wired::<A>(n, k, scale, state, 0).state == state,
        wired::<A>(n, k, scale, state, 0).col_idx.len() == 0,
        wired::<A>(n, k, scale, state, 0).weights.len() == 0,
{
    let before = wired::<A>(n, k, scale, state, i);
    let after = wired::<A>(n, k, scale, state, i + 1);
    let (candidates, between) = shuffled(before.state, before.candidates);
    law_draws_go_on::<A>(between, k, 0);
    assert(after.weights.take(before.weights.len() as int) =~= before.weights);
}

/// A new graph gives every neuron as many targets as configured, or all others where
/// there are fewer, by wiring up one neuron after the other with weights of the
/// variance of one over that number; and is scaled to the configured radius.
pub proof fn law_new_graph_is_wired_and_scaled<A: Arith>(cfg: Config, state: Seq<u32>, k: int)
    requires
        1 <= cfg.n,
        k <= cfg.k && k <= cfg.n - 1,
        k == cfg.k || k == cfg.n - 1,
    ensures
        ({
            let (g, after) = initial_graph::<A>(cfg, state);
            let wiring = wired::<A>(
                cfg.n as nat,
                k,
                root::<A>(quotient::<A>(unit(), counted::<A>(k as u64))),
                state,
                cfg.n as int,
            );
            let rows = Seq::new((cfg.n + 1) as nat, |i: int| (i * k) as u32);
            let unscaled = Csr {
                n: cfg.n as int,
                row_ptr: rows,
                col_idx: wiring.col_idx,
                weights: wiring.weights,
            };
            &&& g == unscaled.rescaled::<A>(cfg.spectral_radius)
            &&& after == wiring.state
        }),
{
    assert(initial_degree(cfg) == k);
    assert(even_rows(cfg.n as nat, k) =~= Seq::new((cfg.n + 1) as nat, |i: int| (i * k) as u32));
}

/// Arrays are out-edge lists exactly if there is a row for each neuron, no row that is
/// not empty reaches past the last edge, and no edge past the last neuron. Rows need
/// not follow one another.
pub proof fn law_out_edge_lists(n: nat, row_ptr: Seq<u32>, col_idx: Seq<u32>)
    ensures
        is_csr(n, row_ptr, col_idx) <==> {
            &&& n + 1 <= row_ptr.len()
            &&& forall|i: int|
                0 <= i < n ==> row_ptr[i + 1] <= col_idx.len() || row_ptr[i + 1]
                    <= #[trigger] row_ptr[i]
            &&& forall|e: int| 0 <= e < col_idx.len() ==> #[trigger] col_idx[e] < n
        },
{
    if is_csr(n, row_ptr, col_idx) {
        assert forall|i: int| 0 <= i < n implies row_ptr[i + 1] <= col_idx.len() || row_ptr[i + 1]
            <= #[trigger] row_ptr[i] by {
            assert(row_fits(row_ptr, col_idx.len(), i));
        }
    }
    if n + 1 <= row_ptr.len() && (forall|i: int|
        0 <= i < n ==> row_ptr[i + 1] <= col_idx.len() || row_ptr[i + 1] <= #[trigger] row_ptr[i])
        && (forall|e: int| 0 <= e < col_idx.len() ==> #[trigger] col_idx[e] < n) {
        assert forall|i: int| 0 <= i < n implies #[trigger] row_fits(
            row_ptr,
            col_idx.len(),
            i,
        ) by {
            assert(row_ptr[i + 1] <= col_idx.len() || row_ptr[i + 1] <= row_ptr[i]);
        }
    }
}

/// A neuron has as many out-edges as its row is long, and they are those in its row; in
/// a simple graph none of them leads back to it, and no two to the same neuron.
pub proof fn law_rows_are_out_edges(g: Csr, i: int, e: int, f: int)
    requires
        0 <= i < g.n,
        g.row_ptr[i] <= e < g.row_ptr[i + 1],
        g.row_ptr[i] <= f < g.row_ptr[i + 1],
    ensures
        g.degree(i) == g.row_ptr[i + 1] - g.row_ptr[i],
        g.targets(i).len() == g.degree(i),
        g.targets(i)[e - g.row_ptr[i]] == g.col_idx[e],
        g.is_simple() ==> g.col_idx[e] != i,
        g.is_simple() && e != f ==> g.col_idx[e] != g.col_idx[f],
{
    let targets = g.targets(i);
    assert(targets[e - g.row_ptr[i]] == g.col_idx[e]);
    assert(targets[f - g.row_ptr[i]] == g.col_idx[f]);
    if g.is_simple() {
        assert(are_distinct_others(targets, i));
    }
}

} // verus!
