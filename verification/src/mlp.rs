//! A small dense network: fully connected layers with sigmoid activations,
//! trained by gradient descent.
use itertools::Itertools;
use vstd::prelude::*;

use crate::arith::{
    deterministic, difference, exponential, keeps_zero, product, quotient, subtracts, sum, Arith,
};
use crate::backprop::{lemma_cell_of, lemma_cells_differ};
use crate::network::{copied, lemma_cell, rows_of, sigmoid, sigmoid_of};
use crate::scalar::{nought, unit, Single};

verus! {

// --- matrices ---------------------------------------------------------------

/// A table of numbers, row-major.
pub struct Matrix {
    pub rows: usize,
    pub cols: usize,
    pub cells: Vec<Single>,
}

/// What a matrix is.
#[verifier::ext_equal]
pub struct Grid {
    pub rows: int,
    pub cols: int,
    pub cells: Seq<Single>,
}

impl View for Matrix {
    type V = Grid;

    open spec fn view(&self) -> Grid {
        Grid { rows: self.rows as int, cols: self.cols as int, cells: self.cells@ }
    }
}

impl Grid {
    pub open spec fn wf(self) -> bool {
        self.cells.len() == self.rows * self.cols
    }
}

/// Inner products, whose order of additions is left to the implementation, and
/// random numbers.
pub trait Algebra {
    /// The products of column `j` of `w` and `x`, added up.
    fn column_dot(w: &Matrix, j: usize, x: &Vec<Single>) -> Single;

    /// The products of row `i` of `w` and `d`, added up.
    fn row_dot(w: &Matrix, i: usize, d: &Vec<Single>) -> Single;

    /// A number drawn anew from `0..1`.
    fn random() -> Single;
}

/// The inner product of column `j` of `w` and `x`.
pub open spec fn column_product<L: Algebra>(w: Grid, j: usize, x: Seq<Single>) -> Single {
    let (a, b, r) = choose|a: Matrix, b: Vec<Single>, r: Single| #[trigger]
        call_ensures(L::column_dot, (&a, j, &b), r) && a@ == w && b@ == x;
    r
}

/// The inner product of row `i` of `w` and `d`.
pub open spec fn row_product<L: Algebra>(w: Grid, i: usize, d: Seq<Single>) -> Single {
    let (a, b, r) = choose|a: Matrix, b: Vec<Single>, r: Single| #[trigger]
        call_ensures(L::row_dot, (&a, i, &b), r) && a@ == w && b@ == d;
    r
}

/// Inner products are the same whenever they are of the same numbers.
pub open spec fn is_function<L: Algebra>() -> bool {
    &&& forall|a: Matrix, j: usize, b: Vec<Single>, r: Single| #[trigger]
        call_ensures(L::column_dot, (&a, j, &b), r) ==> r == column_product::<L>(a@, j, b@)
    &&& forall|a: Matrix, i: usize, b: Vec<Single>, r: Single| #[trigger]
        call_ensures(L::row_dot, (&a, i, &b), r) ==> r == row_product::<L>(a@, i, b@)
}

// --- the model --------------------------------------------------------------

pub struct Mlp {
    pub weights: Vec<Matrix>,
    pub biases: Vec<Vec<Single>>,
}

/// Matrices, as grids.
pub open spec fn grids_of(v: Seq<Matrix>) -> Seq<Grid> {
    Seq::new(v.len(), |l: int| v[l]@)
}

/// What an MLP is.
#[verifier::ext_equal]
pub struct Layers {
    pub weights: Seq<Grid>,
    pub biases: Seq<Seq<Single>>,
}

impl View for Mlp {
    type V = Layers;

    open spec fn view(&self) -> Layers {
        Layers { weights: grids_of(self.weights@), biases: rows_of(self.biases@) }
    }
}

/// `a - b`, number by number; a single number on either side is taken for as
/// many as there are on the other.
pub open spec fn gap<A: Arith>(a: Seq<Single>, b: Seq<Single>) -> Seq<Single> {
    Seq::new(
        gap_len(a.len(), b.len()),
        |i: int|
            difference::<A>(
                a[if a.len() == 1 {
                    0
                } else {
                    i
                }],
                b[if b.len() == 1 {
                    0
                } else {
                    i
                }],
            ),
    )
}

/// The length of a difference.
pub open spec fn gap_len(a: nat, b: nat) -> nat {
    if a == 1 {
        b
    } else {
        a
    }
}

/// A difference can be taken.
pub open spec fn have_gap(a: nat, b: nat) -> bool {
    a == b || a == 1 || b == 1
}

/// The matrix product of the column `a` and the row `d`.
pub open spec fn outer_product<A: Arith>(a: Seq<Single>, d: Seq<Single>) -> Grid {
    Grid {
        rows: a.len() as int,
        cols: d.len() as int,
        cells: Seq::new(
            (a.len() * d.len()) as nat,
            |x: int|
                sum::<A>(
                    nought(),
                    product::<A>(a[x / d.len() as int], d[x % d.len() as int]),
                ),
        ),
    }
}

/// `xs - ds * lr`, number by number.
pub open spec fn descended<A: Arith>(xs: Seq<Single>, ds: Seq<Single>, lr: Single) -> Seq<Single> {
    Seq::new(xs.len(), |i: int| difference::<A>(xs[i], product::<A>(ds[i], lr)))
}

impl Layers {
    /// The number of layers.
    pub open spec fn depth(self) -> int {
        self.weights.len() as int
    }

    /// Each layer takes what the one before it gives.
    pub open spec fn wf(self) -> bool {
        &&& self.biases.len() == self.weights.len()
        &&& forall|l: int| 0 <= l < self.depth() ==> (#[trigger] self.weights[l]).wf()
        &&& forall|l: int|
            0 <= l < self.depth() ==> self.biases[l].len() == (#[trigger] self.weights[l]).cols
        &&& forall|l: int|
            0 <= l < self.depth() - 1 ==> self.weights[l + 1].rows == (
            #[trigger] self.weights[l]).cols
    }

    /// `x` can be fed in.
    pub open spec fn takes(self, x: Seq<Single>) -> bool {
        self.depth() > 0 ==> x.len() == self.weights[0].rows
    }

    /// What layer `l` makes of `x`.
    pub open spec fn layer<A: Arith, L: Algebra>(self, l: int, x: Seq<Single>) -> Seq<Single> {
        let w = self.weights[l];
        Seq::new(
            w.cols as nat,
            |j: int|
                sigmoid_of::<A>(
                    sum::<A>(column_product::<L>(w, j as usize, x), self.biases[l][j]),
                ),
        )
    }

    /// What the first `l` layers make of `x`.
    pub open spec fn activated<A: Arith, L: Algebra>(self, x: Seq<Single>, l: int) -> Seq<Single>
        decreases l,
    {
        if l <= 0 {
            x
        } else {
            self.layer::<A, L>(l - 1, self.activated::<A, L>(x, l - 1))
        }
    }

    /// The length of what comes out.
    pub open spec fn out_len(self, x: Seq<Single>) -> nat {
        if self.depth() == 0 {
            x.len()
        } else {
            self.weights[self.depth() - 1].cols as nat
        }
    }

    /// The gradient at the input of the activation of layer `l`.
    pub open spec fn delta<A: Arith, L: Algebra>(
        self,
        x: Seq<Single>,
        target: Seq<Single>,
        l: int,
    ) -> Seq<Single>
        decreases self.depth() - l,
    {
        if l >= self.depth() - 1 {
            gap::<A>(self.activated::<A, L>(x, self.depth()), target)
        } else {
            let above = self.delta::<A, L>(x, target, l + 1);
            let a = self.activated::<A, L>(x, l + 1);
            Seq::new(
                a.len(),
                |i: int|
                    product::<A>(
                        row_product::<L>(self.weights[l + 1], i as usize, above),
                        product::<A>(a[i], difference::<A>(unit(), a[i])),
                    ),
            )
        }
    }

    /// The gradients of weights and biases.
    pub open spec fn slopes<A: Arith, L: Algebra>(
        self,
        x: Seq<Single>,
        target: Seq<Single>,
    ) -> Layers {
        Layers {
            weights: Seq::new(
                self.depth() as nat,
                |l: int|
                    outer_product::<A>(
                        self.activated::<A, L>(x, l),
                        self.delta::<A, L>(x, target, l),
                    ),
            ),
            biases: Seq::new(self.depth() as nat, |l: int| self.delta::<A, L>(x, target, l)),
        }
    }

    /// Weights and biases after one step down the gradients `d`.
    pub open spec fn trained<A: Arith>(self, d: Layers, lr: Single) -> Layers {
        Layers {
            weights: Seq::new(
                self.depth() as nat,
                |l: int|
                    (Grid {
                        cells: descended::<A>(self.weights[l].cells, d.weights[l].cells, lr),
                        ..self.weights[l]
                    }),
            ),
            biases: Seq::new(
                self.biases.len(),
                |l: int| descended::<A>(self.biases[l], d.biases[l], lr),
            ),
        }
    }
}

/// An inner product of finite numbers with zeros is zero.
pub open spec fn dots_keep_zero<L: Algebra>() -> bool {
    forall|w: Grid, i: usize, d: Seq<Single>|
        w.wf() && i < w.rows && d.len() == w.cols && w.is_finite() && are_zero(d) ==> (
        #[trigger] row_product::<L>(w, i, d)).zero()
}

impl Grid {
    pub open spec fn is_finite(self) -> bool {
        forall|x: int| 0 <= x < self.cells.len() ==> (#[trigger] self.cells[x]).finite()
    }
}

/// All of `xs` are zero.
pub open spec fn are_zero(xs: Seq<Single>) -> bool {
    forall|i: int| 0 <= i < xs.len() ==> (#[trigger] xs[i]).zero()
}

impl Layers {
    /// The weights can be indexed; they, the activations that `x` gives and the
    /// slopes at these are finite.
    pub open spec fn is_finite_at<A: Arith, L: Algebra>(self, x: Seq<Single>) -> bool {
        &&& forall|l: int|
            0 <= l < self.depth() ==> (#[trigger] self.weights[l]).is_finite()
                && self.weights[l].rows <= usize::MAX
        &&& forall|l: int, i: int|
            0 <= l <= self.depth() && 0 <= i < self.activated::<A, L>(x, l).len() ==> {
                let a = #[trigger] self.activated::<A, L>(x, l)[i];
                a.finite() && product::<A>(a, difference::<A>(unit(), a)).finite()
            }
    }
}

/// Where the target is what comes out, every gradient is zero.
pub proof fn law_no_gradient_where_target_is_met<A: Arith, L: Algebra>(
    layers: Layers,
    x: Seq<Single>,
    l: int,
)
    requires
        subtracts::<A>(),
        keeps_zero::<A>(),
        dots_keep_zero::<L>(),
        layers.wf(),
        layers.takes(x),
        layers.is_finite_at::<A, L>(x),
        0 <= l < layers.depth(),
    ensures
        ({
            let target = layers.activated::<A, L>(x, layers.depth());
            let slopes = layers.slopes::<A, L>(x, target);
            are_zero(slopes.weights[l].cells) && are_zero(slopes.biases[l])
        }),
{
    let target = layers.activated::<A, L>(x, layers.depth());
    let a = layers.activated::<A, L>(x, l);
    let d = layers.delta::<A, L>(x, target, l);
    lemma_no_delta::<A, L>(layers, x, l);
    let cells = outer_product::<A>(a, d).cells;
    assert forall|c: int| 0 <= c < cells.len() implies (#[trigger] cells[c]).zero() by {
        lemma_cell_of(c, a.len() as int, d.len() as int);
        let (i, j) = (c / d.len() as int, c % d.len() as int);
        assert(a[i].finite());
        assert(d[j].zero());
        assert(product::<A>(a[i], d[j]).zero());
    }
}

proof fn lemma_no_delta<A: Arith, L: Algebra>(layers: Layers, x: Seq<Single>, l: int)
    requires
        subtracts::<A>(),
        keeps_zero::<A>(),
        dots_keep_zero::<L>(),
        layers.wf(),
        layers.takes(x),
        layers.is_finite_at::<A, L>(x),
        0 <= l < layers.depth(),
    ensures
        ({
            let target = layers.activated::<A, L>(x, layers.depth());
            let d = layers.delta::<A, L>(x, target, l);
            are_zero(d) && d.len() == layers.weights[l].cols
        }),
    decreases layers.depth() - l,
{
    let target = layers.activated::<A, L>(x, layers.depth());
    let d = layers.delta::<A, L>(x, target, l);
    assert(layers.weights[l].wf());
    assert(layers.biases[l].len() == layers.weights[l].cols);
    if l == layers.depth() - 1 {
        assert forall|i: int| 0 <= i < d.len() implies (#[trigger] d[i]).zero() by {
            assert(target[i].finite());
            assert(difference::<A>(target[i], target[i]).zero());
        }
    } else {
        lemma_no_delta::<A, L>(layers, x, l + 1);
        let above = layers.delta::<A, L>(x, target, l + 1);
        let a = layers.activated::<A, L>(x, l + 1);
        assert(layers.weights[l + 1].rows == layers.weights[l].cols);
        assert(layers.weights[l + 1].wf());
        assert(layers.biases[l].len() == layers.weights[l].cols);
        assert forall|i: int| 0 <= i < d.len() implies (#[trigger] d[i]).zero() by {
            assert(layers.weights[l + 1].is_finite());
            assert(a[i].finite());
            assert(row_product::<L>(layers.weights[l + 1], i as usize, above).zero());
        }
    }
}

/// `itertools::tuple_windows` over pairs: each item with the one after it.
#[verifier::external_body]
fn adjacent(topology: &[usize]) -> (pairs: Vec<(usize, usize)>)
    ensures
        pairs@.len() == if topology@.len() == 0 {
            0
        } else {
            topology@.len() - 1
        },
        forall|l: int|
            0 <= l < pairs@.len() ==> #[trigger] pairs@[l] == (topology@[l], topology@[l + 1]),
{
    topology.iter().copied().tuple_windows().collect()
}

/// Each of `xs` was drawn.
pub open spec fn are_random<L: Algebra>(xs: Seq<Single>) -> bool {
    forall|i: int| 0 <= i < xs.len() ==> call_ensures(L::random, (), #[trigger] xs[i])
}

/// `n` random numbers.
fn random_numbers<L: Algebra>(n: usize) -> (r: Vec<Single>)
    ensures
        r@.len() == n,
        are_random::<L>(r@),
{
    let mut r: Vec<Single> = Vec::new();
    let mut i: usize = 0;
    while i < n
        invariant
            i <= n,
            r@.len() == i,
            are_random::<L>(r@),
        decreases n - i,
    {
        r.push(L::random());
        i += 1;
    }
    r
}

impl Mlp {
    /// Layers of the given sizes, with random weights and biases: between two
    /// sizes that follow one another there is a layer.
    pub fn new<L: Algebra>(topology: &[usize]) -> (mlp: Mlp)
        requires
            forall|l: int|
                0 <= l < topology@.len() - 1 ==> #[trigger] topology@[l] * topology@[l + 1]
                    <= usize::MAX,
        ensures
            mlp@.wf(),
            mlp@.depth() == if topology@.len() == 0 {
                0
            } else {
                topology@.len() - 1
            },
            forall|l: int|
                0 <= l < mlp@.depth() ==> (#[trigger] mlp@.weights[l]).rows == topology@[l]
                    && mlp@.weights[l].cols == topology@[l + 1],
            forall|l: int|
                0 <= l < mlp@.depth() ==> are_random::<L>((#[trigger] mlp@.weights[l]).cells)
                    && are_random::<L>(mlp@.biases[l]),
    {
        let pairs = adjacent(topology);
        let mut weights: Vec<Matrix> = Vec::new();
        let mut biases: Vec<Vec<Single>> = Vec::new();
        let mut l: usize = 0;
        while l < pairs.len()
            invariant
                l <= pairs@.len(),
                pairs@.len() == if topology@.len() == 0 {
                    0
                } else {
                    topology@.len() - 1
                },
                forall|l: int|
                    0 <= l < pairs@.len() ==> #[trigger] pairs@[l] == (
                        topology@[l],
                        topology@[l + 1],
                    ),
                forall|l: int|
                    0 <= l < topology@.len() - 1 ==> #[trigger] topology@[l] * topology@[l + 1]
                        <= usize::MAX,
                weights@.len() == l,
                biases@.len() == l,
                forall|q: int|
                    0 <= q < l ==> (#[trigger] weights@[q])@.wf() && weights@[q].rows
                        == topology@[q] && weights@[q].cols == topology@[q + 1] && are_random::<L>(
                        weights@[q].cells@,
                    ),
                forall|q: int|
                    0 <= q < l ==> (#[trigger] biases@[q])@.len() == topology@[q + 1]
                        && are_random::<L>(biases@[q]@),
            decreases pairs.len() - l,
        {
            let (rows, cols) = pairs[l];
            assert(topology@[l as int] * topology@[l + 1] <= usize::MAX);
            let cells = random_numbers::<L>(rows * cols);
            weights.push(Matrix { rows, cols, cells });
            biases.push(random_numbers::<L>(cols));
            l += 1;
        }
        let mlp = Mlp { weights, biases };
        proof {
            assert forall|q: int| 0 <= q < mlp@.depth() implies (#[trigger] mlp@.weights[q]).wf()
                && mlp@.biases[q].len() == mlp@.weights[q].cols && mlp@.weights[q].rows
                == topology@[q] && mlp@.weights[q].cols == topology@[q + 1] && are_random::<L>(
                mlp@.weights[q].cells,
            ) && are_random::<L>(mlp@.biases[q]) by {
                assert(weights@[q]@.wf());
                assert(biases@[q]@.len() == topology@[q + 1]);
            }
            assert forall|q: int| 0 <= q < mlp@.depth() - 1 implies mlp@.weights[q + 1].rows == (
            #[trigger] mlp@.weights[q]).cols by {
                assert(weights@[q + 1]@.wf());
                assert(weights@[q]@.wf());
            }
        }
        mlp
    }

    /// What layer `l` makes of `x`.
    fn layer<A: Arith, L: Algebra>(&self, l: usize, x: &Vec<Single>) -> (r: Vec<Single>)
        requires
            self@.wf(),
            l < self@.depth(),
            x@.len() == self@.weights[l as int].rows,
        ensures
            r@.len() == self@.weights[l as int].cols,
            deterministic::<A>() && is_function::<L>() ==> r@ == self@.layer::<A, L>(
                l as int,
                x@,
            ),
    {
        let ghost w0 = self@.weights[l as int];
        assert(w0 == self.weights@[l as int]@);
        assert(self@.biases[l as int].len() == w0.cols);
        let w = &self.weights[l];
        let b = &self.biases[l];
        let mut r: Vec<Single> = Vec::new();
        let mut j: usize = 0;
        while j < w.cols
            invariant
                w@ == w0,
                b@.len() == w.cols,
                b@ == self@.biases[l as int],
                w0 == self@.weights[l as int],
                j <= w.cols,
                r@.len() == j,
                deterministic::<A>() && is_function::<L>() ==> forall|q: int|
                    0 <= q < j ==> #[trigger] r@[q] == self@.layer::<A, L>(l as int, x@)[q],
            decreases w.cols - j,
        {
            let z = A::plus(L::column_dot(w, j, x), b[j]);
            let a = sigmoid::<A>(z);
            r.push(a);
            j += 1;
        }
        assert(deterministic::<A>() && is_function::<L>() ==> r@ =~= self@.layer::<A, L>(
            l as int,
            x@,
        ));
        r
    }

    pub fn forward<A: Arith, L: Algebra>(&self, x: Vec<Single>) -> (r: Vec<Single>)
        requires
            self@.wf(),
            self@.takes(x@),
        ensures
            r@.len() == self@.out_len(x@),
            deterministic::<A>() && is_function::<L>() ==> r@ == self@.activated::<A, L>(
                x@,
                self@.depth(),
            ),
    {
        let ghost x0 = x@;
        let mut acc = x;
        let mut l: usize = 0;
        while l < self.weights.len()
            invariant
                self@.wf(),
                self@.takes(x0),
                l <= self@.depth(),
                l == 0 ==> acc@ == x0,
                l > 0 ==> acc@.len() == self@.weights[l - 1].cols,
                deterministic::<A>() && is_function::<L>() ==> acc@ == self@.activated::<A, L>(
                    x0,
                    l as int,
                ),
            decreases self.weights.len() - l,
        {
            acc = self.layer::<A, L>(l, &acc);
            l += 1;
        }
        acc
    }

    /// As [`Mlp::forward`], with what comes in and what each layer gives.
    pub fn forward_with_cache<A: Arith, L: Algebra>(&self, x: Vec<Single>) -> (cache: Vec<
        Vec<Single>,
    >)
        requires
            self@.wf(),
            self@.takes(x@),
        ensures
            cache@.len() == self@.depth() + 1,
            cache@[0]@ == x@,
            forall|l: int|
                0 <= l < self@.depth() ==> (#[trigger] cache@[l])@.len() == self@.weights[l].rows,
            cache@[self@.depth()]@.len() == self@.out_len(x@),
            deterministic::<A>() && is_function::<L>() ==> forall|l: int|
                0 <= l <= self@.depth() ==> (#[trigger] cache@[l])@ == self@.activated::<A, L>(
                    x@,
                    l,
                ),
    {
        let ghost x0 = x@;
        let mut cache: Vec<Vec<Single>> = Vec::new();
        cache.push(x);
        let mut l: usize = 0;
        while l < self.weights.len()
            invariant
                self@.wf(),
                self@.takes(x0),
                l <= self@.depth(),
                cache@.len() == l + 1,
                cache@[0]@ == x0,
                forall|q: int|
                    0 <= q < l ==> (#[trigger] cache@[q])@.len() == self@.weights[q].rows,
                l > 0 ==> cache@[l as int]@.len() == self@.weights[l - 1].cols,
                deterministic::<A>() && is_function::<L>() ==> forall|q: int|
                    0 <= q <= l ==> (#[trigger] cache@[q])@ == self@.activated::<A, L>(x0, q),
            decreases self.weights.len() - l,
        {
            let z = self.layer::<A, L>(l, &cache[l]);
            cache.push(z);
            l += 1;
        }
        cache
    }
}

/// `a - b`, number by number.
fn minus_all<A: Arith>(a: &Vec<Single>, b: &Vec<Single>) -> (r: Vec<Single>)
    requires
        have_gap(a@.len(), b@.len()),
    ensures
        r@.len() == gap_len(a@.len(), b@.len()),
        deterministic::<A>() ==> r@ == gap::<A>(a@, b@),
{
    let n: usize = if a.len() == 1 {
        b.len()
    } else {
        a.len()
    };
    let mut r: Vec<Single> = Vec::new();
    let mut i: usize = 0;
    while i < n
        invariant
            have_gap(a@.len(), b@.len()),
            n == gap_len(a@.len(), b@.len()),
            i <= n,
            r@.len() == i,
            deterministic::<A>() ==> forall|q: int|
                0 <= q < i ==> #[trigger] r@[q] == gap::<A>(a@, b@)[q],
        decreases n - i,
    {
        let p: usize = if a.len() == 1 {
            0
        } else {
            i
        };
        let q: usize = if b.len() == 1 {
            0
        } else {
            i
        };
        r.push(A::minus(a[p], b[q]));
        i += 1;
    }
    assert(deterministic::<A>() ==> r@ =~= gap::<A>(a@, b@));
    r
}

/// The matrix product of the column `a` and the row `d`.
fn outer<A: Arith>(a: &Vec<Single>, d: &Vec<Single>) -> (r: Matrix)
    requires
        a@.len() * d@.len() <= usize::MAX,
    ensures
        r@.wf(),
        r@.rows == a@.len(),
        r@.cols == d@.len(),
        deterministic::<A>() ==> r@ == outer_product::<A>(a@, d@),
{
    let rows = a.len();
    let cols = d.len();
    let ghost full = outer_product::<A>(a@, d@).cells;
    let mut cells: Vec<Single> = Vec::new();
    let mut i: usize = 0;
    assert(0 * cols == 0);
    while i < rows
        invariant
            rows == a@.len(),
            cols == d@.len(),
            full == outer_product::<A>(a@, d@).cells,
            i <= rows,
            cells@.len() == i * cols,
            deterministic::<A>() ==> forall|x: int|
                0 <= x < cells@.len() ==> #[trigger] cells@[x] == full[x],
        decreases rows - i,
    {
        let mut j: usize = 0;
        while j < cols
            invariant
                rows == a@.len(),
                cols == d@.len(),
                full == outer_product::<A>(a@, d@).cells,
                i < rows,
                j <= cols,
                cells@.len() == i * cols + j,
                deterministic::<A>() ==> forall|x: int|
                    0 <= x < cells@.len() ==> #[trigger] cells@[x] == full[x],
            decreases cols - j,
        {
            proof {
                let x = i * cols + j;
                lemma_cell(i as int, rows as int, j as int, cols as int);
                lemma_cell_of(x, rows as int, cols as int);
                lemma_cells_differ(
                    x / cols as int,
                    x % cols as int,
                    i as int,
                    j as int,
                    cols as int,
                );
            }
            cells.push(A::plus(Single::zeroed(), A::times(a[i], d[j])));
            j += 1;
        }
        i += 1;
        assert((i - 1) * cols + cols == i * cols) by (nonlinear_arith)
            requires
                i >= 1,
        ;
    }
    let r = Matrix { rows, cols, cells };
    assert(deterministic::<A>() ==> r@ =~= outer_product::<A>(a@, d@));
    r
}

impl Mlp {
    /// The gradient one layer further down: `w` times `delta`, times the slope of
    /// the activations `a`.
    fn routed<A: Arith, L: Algebra>(w: &Matrix, delta: &Vec<Single>, a: &Vec<Single>) -> (r: Vec<
        Single,
    >)
        requires
            a@.len() == w.rows,
            delta@.len() == w.cols,
        ensures
            r@.len() == a@.len(),
            deterministic::<A>() && is_function::<L>() ==> forall|i: int|
                0 <= i < a@.len() ==> #[trigger] r@[i] == product::<A>(
                    row_product::<L>(w@, i as usize, delta@),
                    product::<A>(a@[i], difference::<A>(unit(), a@[i])),
                ),
    {
        let mut r: Vec<Single> = Vec::new();
        let mut i: usize = 0;
        while i < a.len()
            invariant
                i <= a@.len(),
                a@.len() == w.rows,
                delta@.len() == w.cols,
                r@.len() == i,
                deterministic::<A>() && is_function::<L>() ==> forall|q: int|
                    0 <= q < i ==> #[trigger] r@[q] == product::<A>(
                        row_product::<L>(w@, q as usize, delta@),
                        product::<A>(a@[q], difference::<A>(unit(), a@[q])),
                    ),
            decreases a.len() - i,
        {
            let slope = A::times(a[i], A::minus(Single::one(), a[i]));
            r.push(A::times(L::row_dot(w, i, delta), slope));
            i += 1;
        }
        r
    }

    /// The gradients of weights and biases for one example.
    pub fn backpropagate<A: Arith, L: Algebra>(&self, x: Vec<Single>, target: Vec<Single>) -> (r: (
        Vec<Matrix>,
        Vec<Vec<Single>>,
    ))
        requires
            self@.wf(),
            self@.takes(x@),
            have_gap(self@.out_len(x@), target@.len()),
            self@.depth() >= 2 ==> gap_len(self@.out_len(x@), target@.len()) == self@.out_len(x@),
            self@.depth() == 1 ==> self@.weights[0].rows * gap_len(
                self@.out_len(x@),
                target@.len(),
            ) <= usize::MAX,
        ensures
            r.0@.len() == self@.depth(),
            r.1@.len() == self@.depth(),
            gap_len(self@.out_len(x@), target@.len()) == self@.out_len(x@) ==> forall|l: int|
                0 <= l < self@.depth() ==> (#[trigger] r.0@[l])@.wf() && r.0@[l].rows
                    == self@.weights[l].rows && r.0@[l].cols == self@.weights[l].cols,
            gap_len(self@.out_len(x@), target@.len()) == self@.out_len(x@) ==> forall|l: int|
                0 <= l < self@.depth() ==> (#[trigger] r.1@[l])@.len() == self@.weights[l].cols,
            deterministic::<A>() && is_function::<L>() ==> (Layers {
                weights: grids_of(r.0@),
                biases: rows_of(r.1@),
            }) == self@.slopes::<A, L>(x@, target@),
    {
        let ghost x0 = x@;
        let ghost t0 = target@;
        let ghost exact = deterministic::<A>() && is_function::<L>();
        let ghost top = gap_len(self@.out_len(x0), t0.len());
        let cache = self.forward_with_cache::<A, L>(x);
        let depth = self.weights.len();
        let mut d_weights: Vec<Matrix> = Vec::new();
        let mut d_biases: Vec<Vec<Single>> = Vec::new();
        let mut l: usize = 0;
        while l < depth
            invariant
                l <= depth,
                d_weights@.len() == l,
                d_biases@.len() == l,
            decreases depth - l,
        {
            d_weights.push(Matrix { rows: 0, cols: 0, cells: Vec::new() });
            d_biases.push(Vec::new());
            l += 1;
        }
        assert(cache@[depth as int]@.len() == self@.out_len(x0));
        let mut delta = minus_all::<A>(&cache[depth], &target);
        assert(exact ==> cache@[depth as int]@ == self@.activated::<A, L>(x0, depth as int));
        let mut layer: usize = depth;
        while layer > 0
            invariant
                self@.wf(),
                self@.takes(x0),
                depth == self@.depth(),
                layer <= depth,
                exact == (deterministic::<A>() && is_function::<L>()),
                top == gap_len(self@.out_len(x0), t0.len()),
                depth >= 2 ==> top == self@.out_len(x0),
                depth == 1 ==> self@.weights[0].rows * top <= usize::MAX,
                cache@.len() == depth + 1,
                forall|q: int|
                    0 <= q < depth ==> (#[trigger] cache@[q])@.len() == self@.weights[q].rows,
                exact ==> forall|q: int|
                    0 <= q <= depth ==> (#[trigger] cache@[q])@ == self@.activated::<A, L>(x0, q),
                d_weights@.len() == depth,
                d_biases@.len() == depth,
                delta@.len() == if layer == depth {
                    top
                } else if layer > 0 {
                    self@.weights[layer - 1].cols as nat
                } else {
                    delta@.len()
                },
                layer > 0 ==> exact ==> delta@ == self@.delta::<A, L>(x0, t0, layer - 1),
                top == self@.out_len(x0) ==> forall|q: int|
                    layer <= q < depth ==> (#[trigger] d_weights@[q])@.wf() && d_weights@[q].rows
                        == self@.weights[q].rows && d_weights@[q].cols == self@.weights[q].cols,
                top == self@.out_len(x0) ==> forall|q: int|
                    layer <= q < depth ==> (#[trigger] d_biases@[q])@.len()
                        == self@.weights[q].cols,
                exact ==> forall|q: int|
                    layer <= q < depth ==> (#[trigger] d_weights@[q])@ == outer_product::<A>(
                        self@.activated::<A, L>(x0, q),
                        self@.delta::<A, L>(x0, t0, q),
                    ),
                exact ==> forall|q: int|
                    layer <= q < depth ==> (#[trigger] d_biases@[q])@ == self@.delta::<A, L>(
                        x0,
                        t0,
                        q,
                    ),
            decreases layer,
        {
            layer -= 1;
            let a_prev = &cache[layer];
            let ghost w = self@.weights[layer as int];
            assert(w == self.weights@[layer as int]@);
            assert(a_prev@.len() == w.rows);
            proof {
                assert(w.wf());
                assert(w.cells.len() == self.weights@[layer as int].cells.len());
                if depth >= 2 {
                    assert(delta@.len() == w.cols);
                }
            }
            let d_weight = outer::<A>(a_prev, &delta);
            let d_bias = copied(delta.as_slice());
            d_weights.set(layer, d_weight);
            d_biases.set(layer, d_bias);
            if layer > 0 {
                assert(self@.weights[layer - 1].cols == w.rows);
                let below = Mlp::routed::<A, L>(&self.weights[layer], &delta, a_prev);
                proof {
                    if exact {
                        assert(below@ =~= self@.delta::<A, L>(x0, t0, layer - 1));
                    }
                }
                delta = below;
            }
        }
        proof {
            if exact {
                let slopes = self@.slopes::<A, L>(x0, t0);
                assert(grids_of(d_weights@) =~= slopes.weights);
                assert(rows_of(d_biases@) =~= slopes.biases);
            }
        }
        (d_weights, d_biases)
    }

    /// One step of gradient descent on one example.
    pub fn train<A: Arith, L: Algebra>(&mut self, x: Vec<Single>, target: Vec<Single>, lr: Single)
        requires
            old(self)@.wf(),
            old(self)@.takes(x@),
            have_gap(old(self)@.out_len(x@), target@.len()),
            old(self)@.depth() > 0 ==> gap_len(old(self)@.out_len(x@), target@.len()) == old(
                self,
            )@.out_len(x@),
        ensures
            final(self)@.wf(),
            final(self)@.depth() == old(self)@.depth(),
            forall|l: int|
                0 <= l < old(self)@.depth() ==> (#[trigger] final(self)@.weights[l]).rows
                    == old(self)@.weights[l].rows && final(self)@.weights[l].cols
                    == old(self)@.weights[l].cols,
            deterministic::<A>() && is_function::<L>() ==> final(self)@ == old(self)@.trained::<A>(
                old(self)@.slopes::<A, L>(x@, target@),
                lr,
            ),
    {
        let ghost before = self@;
        let ghost exact = deterministic::<A>() && is_function::<L>();
        proof {
            if before.depth() == 1 {
                assert(before.weights[0].wf());
                assert(before.weights[0].cells.len() == self.weights@[0].cells.len());
            }
        }
        let (d_weights, d_biases) = self.backpropagate::<A, L>(x, target);
        let ghost d = Layers { weights: grids_of(d_weights@), biases: rows_of(d_biases@) };
        let mut l: usize = 0;
        let depth = self.weights.len();
        while l < depth
            invariant
                before.wf(),
                depth == before.depth(),
                l <= depth,
                d == (Layers { weights: grids_of(d_weights@), biases: rows_of(d_biases@) }),
                d_weights@.len() == depth,
                d_biases@.len() == depth,
                forall|q: int|
                    0 <= q < depth ==> (#[trigger] d_weights@[q])@.wf() && d_weights@[q].rows
                        == before.weights[q].rows && d_weights@[q].cols == before.weights[q].cols,
                forall|q: int|
                    0 <= q < depth ==> (#[trigger] d_biases@[q])@.len() == before.weights[q].cols,
                self.weights@.len() == depth,
                self.biases@.len() == depth,
                forall|q: int|
                    l <= q < depth ==> (#[trigger] self.weights@[q])@ == before.weights[q],
                forall|q: int|
                    l <= q < depth ==> (#[trigger] self.biases@[q])@ == before.biases[q],
                forall|q: int|
                    0 <= q < l ==> (#[trigger] self.weights@[q])@.wf() && self.weights@[q].rows
                        == before.weights[q].rows && self.weights@[q].cols
                        == before.weights[q].cols,
                forall|q: int|
                    0 <= q < l ==> (#[trigger] self.biases@[q])@.len() == before.weights[q].cols,
                deterministic::<A>() ==> forall|q: int|
                    0 <= q < l ==> (#[trigger] self.weights@[q])@ == before.trained::<A>(
                        d,
                        lr,
                    ).weights[q],
                deterministic::<A>() ==> forall|q: int|
                    0 <= q < l ==> (#[trigger] self.biases@[q])@ == before.trained::<A>(
                        d,
                        lr,
                    ).biases[q],
            decreases depth - l,
        {
            assert(before.weights[l as int].wf());
            assert(before.biases[l as int].len() == before.weights[l as int].cols);
            assert(self.weights@[l as int]@ == before.weights[l as int]);
            assert(self.biases@[l as int]@ == before.biases[l as int]);
            assert(d_weights@[l as int]@.wf());
            assert(d_biases@[l as int]@.len() == before.weights[l as int].cols);
            assert(d.weights[l as int] == d_weights@[l as int]@);
            assert(d.biases[l as int] == d_biases@[l as int]@);
            let rows = self.weights[l].rows;
            let cols = self.weights[l].cols;
            let cells = descend::<A>(&self.weights[l].cells, &d_weights[l].cells, lr);
            let weight = Matrix { rows, cols, cells };
            assert(deterministic::<A>() ==> weight@ =~= before.trained::<A>(
                d,
                lr,
            ).weights[l as int]);
            let bias = descend::<A>(&self.biases[l], &d_biases[l], lr);
            self.weights.set(l, weight);
            self.biases.set(l, bias);
            l += 1;
        }
        proof {
            assert forall|q: int| 0 <= q < depth implies (#[trigger] self@.weights[q]).wf()
                && self@.weights[q].rows == before.weights[q].rows && self@.weights[q].cols
                == before.weights[q].cols && self@.biases[q].len() == self@.weights[q].cols by {
                assert(self.weights@[q]@.wf());
                assert(self.biases@[q]@.len() == before.weights[q].cols);
            }
            assert forall|q: int| 0 <= q < depth - 1 implies self@.weights[q + 1].rows == (
            #[trigger] self@.weights[q]).cols by {
                assert(self.weights@[q]@.wf());
                assert(self.weights@[q + 1]@.wf());
                assert(before.weights[q + 1].rows == before.weights[q].cols);
            }
            if exact {
                assert(self@.weights =~= before.trained::<A>(d, lr).weights);
                assert(self@.biases =~= before.trained::<A>(d, lr).biases);
            }
        }
    }
}

/// `xs - ds * lr`, number by number.
fn descend<A: Arith>(xs: &Vec<Single>, ds: &Vec<Single>, lr: Single) -> (r: Vec<Single>)
    requires
        xs@.len() == ds@.len(),
    ensures
        r@.len() == xs@.len(),
        deterministic::<A>() ==> r@ == descended::<A>(xs@, ds@, lr),
{
    let mut r: Vec<Single> = Vec::new();
    let mut i: usize = 0;
    while i < xs.len()
        invariant
            i <= xs@.len(),
            xs@.len() == ds@.len(),
            r@.len() == i,
            deterministic::<A>() ==> forall|q: int|
                0 <= q < i ==> #[trigger] r@[q] == descended::<A>(xs@, ds@, lr)[q],
        decreases xs.len() - i,
    {
        r.push(A::minus(xs[i], A::times(ds[i], lr)));
        i += 1;
    }
    assert(deterministic::<A>() ==> r@ =~= descended::<A>(xs@, ds@, lr));
    r
}

// --- what holds of layers and their gradients -------------------------------

/// A layer gives, of each of its neurons, the sigmoid of its bias added to the inner
/// product of its column of weights and what the layer before gives. The first layer
/// takes the input.
pub proof fn law_layers_follow_one_another<A: Arith, L: Algebra>(
    layers: Layers,
    x: Seq<Single>,
    l: int,
    j: int,
)
    requires
        0 <= l < layers.depth(),
        0 <= j < layers.weights[l].cols,
    ensures
        layers.activated::<A, L>(x, 0) == x,
        layers.activated::<A, L>(x, l + 1).len() == layers.weights[l].cols,
        ({
            let z = sum::<A>(
                column_product::<L>(
                    layers.weights[l],
                    j as usize,
                    layers.activated::<A, L>(x, l),
                ),
                layers.biases[l][j],
            );
            layers.activated::<A, L>(x, l + 1)[j] == quotient::<A>(
                unit(),
                sum::<A>(unit(), exponential::<A>(z.negated())),
            )
        }),
{
}

/// At the last layer the gradient is output minus target, number by number: so it is
/// above zero where the output is above the target. A single number on either side
/// stands against each on the other.
pub proof fn law_last_gradient_is_output_minus_target<A: Arith, L: Algebra>(
    layers: Layers,
    x: Seq<Single>,
    target: Seq<Single>,
    i: int,
)
    requires
        0 < layers.depth(),
    ensures
        ({
            let y = layers.activated::<A, L>(x, layers.depth());
            let d = layers.slopes::<A, L>(x, target).biases.last();
            &&& y.len() == target.len() ==> d.len() == y.len()
            &&& y.len() == target.len() && 0 <= i < y.len() ==> d[i] == difference::<A>(
                y[i],
                target[i],
            )
            &&& target.len() == 1 && 0 <= i < y.len() ==> d.len() == y.len() && d[i]
                == difference::<A>(y[i], target[0])
            &&& y.len() == 1 && 0 <= i < target.len() ==> d.len() == target.len() && d[i]
                == difference::<A>(y[0], target[i])
        }),
{
    let d = layers.slopes::<A, L>(x, target).biases.last();
    assert(d == layers.delta::<A, L>(x, target, layers.depth() - 1));
}

/// Gradients go back through the layers: that of a neuron is the inner product of its
/// row of weights, in the layer above, and the gradients there, times the slope of
/// its sigmoid, which is what it gives times what that falls short of one.
pub proof fn law_gradients_go_back_through_layers<A: Arith, L: Algebra>(
    layers: Layers,
    x: Seq<Single>,
    target: Seq<Single>,
    l: int,
    i: int,
)
    requires
        0 <= l < layers.depth() - 1,
        0 <= i < layers.weights[l].cols,
    ensures
        ({
            let a = layers.activated::<A, L>(x, l + 1)[i];
            let slopes = layers.slopes::<A, L>(x, target);
            &&& slopes.biases.len() == layers.depth()
            &&& slopes.biases[l].len() == layers.weights[l].cols
            &&& slopes.biases[l][i] == product::<A>(
                row_product::<L>(layers.weights[l + 1], i as usize, slopes.biases[l + 1]),
                product::<A>(a, difference::<A>(unit(), a)),
            )
        }),
{
}

/// The gradient of a weight is what its input gives times the gradient of the neuron
/// that it leads to.
pub proof fn law_weight_gradient_is_input_times_gradient<A: Arith, L: Algebra>(
    layers: Layers,
    x: Seq<Single>,
    target: Seq<Single>,
    l: int,
    i: int,
    j: int,
)
    requires
        0 <= l < layers.depth(),
        0 <= i < layers.activated::<A, L>(x, l).len(),
        0 <= j < layers.slopes::<A, L>(x, target).biases[l].len(),
    ensures
        ({
            let slopes = layers.slopes::<A, L>(x, target);
            let a = layers.activated::<A, L>(x, l);
            let d = slopes.biases[l];
            &&& slopes.weights.len() == layers.depth()
            &&& slopes.weights[l].rows == a.len()
            &&& slopes.weights[l].cols == d.len()
            &&& slopes.weights[l].cells.len() == a.len() * d.len()
            &&& slopes.weights[l].cells[i * d.len() + j] == sum::<A>(
                nought(),
                product::<A>(a[i], d[j]),
            )
        }),
{
    let slopes = layers.slopes::<A, L>(x, target);
    let a = layers.activated::<A, L>(x, l);
    let d = slopes.biases[l];
    let cols = d.len() as int;
    lemma_cell(i, a.len() as int, j, cols);
    vstd::arithmetic::div_mod::lemma_fundamental_div_mod_converse(i * cols + j, cols, i, j);
    assert(d == layers.delta::<A, L>(x, target, l));
    let cell = i * cols + j;
    assert(cell / cols == i && cell % cols == j);
    assert(slopes.weights[l] == outer_product::<A>(a, d));
}

/// A step of training takes from every weight and every bias its gradient times the
/// rate, and from nothing else.
pub proof fn law_training_descends<A: Arith>(layers: Layers, d: Layers, lr: Single, l: int, c: int)
    requires
        0 <= l < layers.depth(),
        layers.biases.len() == layers.weights.len(),
    ensures
        ({
            let after = layers.trained::<A>(d, lr);
            &&& after.weights.len() == layers.weights.len()
            &&& after.biases.len() == layers.biases.len()
            &&& after.weights[l].rows == layers.weights[l].rows
            &&& after.weights[l].cols == layers.weights[l].cols
            &&& after.weights[l].cells.len() == layers.weights[l].cells.len()
            &&& after.biases[l].len() == layers.biases[l].len()
            &&& 0 <= c < layers.weights[l].cells.len() ==> after.weights[l].cells[c]
                == difference::<A>(
                layers.weights[l].cells[c],
                product::<A>(d.weights[l].cells[c], lr),
            )
            &&& 0 <= c < layers.biases[l].len() ==> after.biases[l][c] == difference::<A>(
                layers.biases[l][c],
                product::<A>(d.biases[l][c], lr),
            )
        }),
{
}

} // verus!
