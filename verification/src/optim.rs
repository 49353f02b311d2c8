//! Adam optimizer over flat parameter arrays, plus global-norm gradient
//! clipping. Parameters and their gradients are kept as parallel vectors; Adam
//! maintains first and second moment buffers of the same shape.
use vstd::prelude::*;

use crate::arith::{
    deterministic, difference, narrowed, product, quotient, raised, root, sum, wide_product,
    wide_root, wide_sum, widened, zeros, Arith,
};
use crate::config::Config;
use crate::scalar::{at_most, less, nought, unit, wide_nought, Double, Single};

verus! {

/// First and second moment buffers for one parameter array.
pub struct Moment {
    pub m: Vec<Single>,
    pub v: Vec<Single>,
}

pub struct Adam {
    pub b1: Single,
    pub b2: Single,
    pub eps: Single,
    pub lr: Single,
    /// Global step count (shared bias correction across all arrays).
    pub t: u64,
}

/// The buffers, as sequences.
#[verifier::ext_equal]
pub struct Averages {
    pub m: Seq<Single>,
    pub v: Seq<Single>,
}

impl View for Moment {
    type V = Averages;

    open spec fn view(&self) -> Averages {
        Averages { m: self.m@, v: self.v@ }
    }
}

/// `beta * m + (1 - beta) * g`.
pub open spec fn first_moment<A: Arith>(beta: Single, m: Single, g: Single) -> Single {
    sum::<A>(product::<A>(beta, m), product::<A>(difference::<A>(unit(), beta), g))
}

/// `beta * v + (1 - beta) * g * g`.
pub open spec fn second_moment<A: Arith>(beta: Single, v: Single, g: Single) -> Single {
    sum::<A>(
        product::<A>(beta, v),
        product::<A>(product::<A>(difference::<A>(unit(), beta), g), g),
    )
}

/// `1 - beta^t`.
pub open spec fn bias_correction<A: Arith>(beta: Single, t: u64) -> Single {
    difference::<A>(unit(), raised::<A>(beta, t as i32))
}

impl Adam {
    /// An optimizer as `cfg` has it, before its first step.
    pub open spec fn configured(cfg: Config) -> Adam {
        Adam { b1: cfg.adam_beta1, b2: cfg.adam_beta2, eps: cfg.adam_eps, lr: cfg.lr, t: 0 }
    }

    /// The parameter `p` after a step with the moments `m` and `v`.
    pub open spec fn moved<A: Arith>(self, p: Single, m: Single, v: Single) -> Single {
        let mhat = quotient::<A>(m, bias_correction::<A>(self.b1, self.t));
        let vhat = quotient::<A>(v, bias_correction::<A>(self.b2, self.t));
        difference::<A>(
            p,
            quotient::<A>(
                product::<A>(self.lr, mhat),
                sum::<A>(root::<A>(vhat), self.eps),
            ),
        )
    }

    /// The buffers after a step over `count` parameters with the gradients `g`.
    pub open spec fn averaged<A: Arith>(self, old: Averages, g: Seq<Single>, count: nat) -> Averages {
        Averages {
            m: Seq::new(
                old.m.len(),
                |i: int|
                    if i < count {
                        first_moment::<A>(self.b1, old.m[i], g[i])
                    } else {
                        old.m[i]
                    },
            ),
            v: Seq::new(
                old.v.len(),
                |i: int|
                    if i < count {
                        second_moment::<A>(self.b2, old.v[i], g[i])
                    } else {
                        old.v[i]
                    },
            ),
        }
    }

    /// The parameters `p` after a step with the gradients `g`.
    pub open spec fn stepped<A: Arith>(self, p: Seq<Single>, g: Seq<Single>, old: Averages) -> Seq<
        Single,
    > {
        let new = self.averaged::<A>(old, g, p.len());
        Seq::new(p.len(), |i: int| self.moved::<A>(p[i], new.m[i], new.v[i]))
    }
}

impl Moment {
    pub fn zeros(len: usize) -> (mom: Moment)
        ensures
            mom.m@ == Seq::new(len as nat, |i: int| nought()),
            mom.v@ == Seq::new(len as nat, |i: int| nought()),
    {
        Moment { m: zeros(len), v: zeros(len) }
    }
}

impl Adam {
    pub fn new(cfg: &Config) -> (adam: Adam)
        ensures
            adam == Adam::configured(*cfg),
    {
        Adam { b1: cfg.adam_beta1, b2: cfg.adam_beta2, eps: cfg.adam_eps, lr: cfg.lr, t: 0 }
    }

    /// Updates one parameter array in place. Call [`Adam::begin_step`] once per
    /// optimizer step before updating the arrays so that bias correction uses a
    /// consistent `t`.
    pub fn update<A: Arith>(&self, p: &mut [Single], g: &[Single], mom: &mut Moment)
        requires
            old(p)@.len() <= g@.len(),
            old(p)@.len() <= old(mom).m@.len(),
            old(p)@.len() <= old(mom).v@.len(),
        ensures
            final(p)@.len() == old(p)@.len(),
            final(mom).m@.len() == old(mom).m@.len(),
            final(mom).v@.len() == old(mom).v@.len(),
            deterministic::<A>() ==> {
                &&& final(p)@ == self.stepped::<A>(old(p)@, g@, old(mom)@)
                &&& final(mom)@ == self.averaged::<A>(old(mom)@, g@, old(p)@.len())
            },
    {
        let ghost p0 = p@;
        let ghost mom0 = mom@;
        let ghost new = self.averaged::<A>(mom0, g@, p0.len());
        let bc1 = A::minus(Single::one(), A::power(self.b1, self.t as i32));
        let bc2 = A::minus(Single::one(), A::power(self.b2, self.t as i32));
        let mut i: usize = 0;
        while i < p.len()
            invariant
                i <= p@.len(),
                p@.len() == p0.len(),
                p0.len() <= g@.len(),
                p0.len() <= mom0.m.len(),
                p0.len() <= mom0.v.len(),
                mom.m@.len() == mom0.m.len(),
                mom.v@.len() == mom0.v.len(),
                new == self.averaged::<A>(mom0, g@, p0.len()),
                deterministic::<A>() ==> bc1 == bias_correction::<A>(self.b1, self.t),
                deterministic::<A>() ==> bc2 == bias_correction::<A>(self.b2, self.t),
                forall|k: int| i <= k < p0.len() ==> #[trigger] p@[k] == p0[k],
                forall|k: int| i <= k < mom0.m.len() ==> #[trigger] mom.m@[k] == mom0.m[k],
                forall|k: int| i <= k < mom0.v.len() ==> #[trigger] mom.v@[k] == mom0.v[k],
                deterministic::<A>() ==> forall|k: int|
                    0 <= k < i ==> #[trigger] mom.m@[k] == new.m[k],
                deterministic::<A>() ==> forall|k: int|
                    0 <= k < i ==> #[trigger] mom.v@[k] == new.v[k],
                deterministic::<A>() ==> forall|k: int|
                    0 <= k < i ==> #[trigger] p@[k] == self.moved::<A>(
                        p0[k],
                        new.m[k],
                        new.v[k],
                    ),
            decreases p.len() - i,
        {
            let gi = g[i];
            let m = A::plus(
                A::times(self.b1, mom.m[i]),
                A::times(A::minus(Single::one(), self.b1), gi),
            );
            let v = A::plus(
                A::times(self.b2, mom.v[i]),
                A::times(A::times(A::minus(Single::one(), self.b2), gi), gi),
            );
            mom.m.set(i, m);
            mom.v.set(i, v);
            let mhat = A::over(m, bc1);
            let vhat = A::over(v, bc2);
            let step = A::over(A::times(self.lr, mhat), A::plus(A::sqrt(vhat), self.eps));
            let moved = A::minus(p[i], step);
            p[i] = moved;
            i += 1;
        }
        proof {
            if deterministic::<A>() {
                assert(p@ =~= self.stepped::<A>(p0, g@, mom0));
                assert(mom@.m =~= new.m);
                assert(mom@.v =~= new.v);
            }
        }
    }

    pub fn begin_step(&mut self)
        requires
            old(self).t < u64::MAX,
        ensures
            *final(self) == (Adam { t: (old(self).t + 1) as u64, ..*old(self) }),
    {
        self.t += 1;
    }
}

/// `start`, plus the squares of the first `n` of `xs`, added from the left.
pub open spec fn squares_in<A: Arith>(start: Double, xs: Seq<Single>, n: int) -> Double
    decreases n,
{
    if n <= 0 {
        start
    } else {
        let x = widened::<A>(xs[n - 1]);
        wide_sum::<A>(squares_in::<A>(start, xs, n - 1), wide_product::<A>(x, x))
    }
}

/// The squares of the first `k` arrays, added up array by array.
pub open spec fn squares_of<A: Arith>(arrays: Seq<Seq<Single>>, k: int) -> Double
    decreases k,
{
    if k <= 0 {
        wide_nought()
    } else {
        squares_in::<A>(
            squares_of::<A>(arrays, k - 1),
            arrays[k - 1],
            arrays[k - 1].len() as int,
        )
    }
}

/// The square root of the sum of squares.
pub open spec fn norm_of<A: Arith>(arrays: Seq<Seq<Single>>) -> Single {
    narrowed::<A>(wide_root::<A>(squares_of::<A>(arrays, arrays.len() as int)))
}

/// Slices, as a sequence of sequences.
pub open spec fn slices_of(s: Seq<&[Single]>) -> Seq<Seq<Single>> {
    Seq::new(s.len(), |k: int| s[k]@)
}

/// L2 norm across several gradient arrays treated as one long vector.
pub fn global_norm<A: Arith>(arrays: &[&[Single]]) -> (norm: Single)
    ensures
        deterministic::<A>() ==> norm == norm_of::<A>(slices_of(arrays@)),
{
    let ghost all = slices_of(arrays@);
    let mut total = Double { bits: 0 };
    let mut k: usize = 0;
    while k < arrays.len()
        invariant
            k <= arrays@.len(),
            all == slices_of(arrays@),
            deterministic::<A>() ==> total == squares_of::<A>(all, k as int),
        decreases arrays.len() - k,
    {
        let a = arrays[k];
        let ghost start = total;
        let mut i: usize = 0;
        while i < a.len()
            invariant
                i <= a@.len(),
                deterministic::<A>() ==> total == squares_in::<A>(start, a@, i as int),
            decreases a.len() - i,
        {
            let x = A::widen(a[i]);
            total = A::wide_plus(total, A::wide_times(x, x));
            i += 1;
        }
        assert(all[k as int] == a@);
        k += 1;
    }
    A::narrow(A::wide_sqrt(total))
}

/// Whether gradients of norm `norm` are scaled down.
pub open spec fn is_clipped(norm: Single, max_norm: Single) -> bool {
    less(max_norm, norm) && less(nought(), norm)
}

/// `arrays`, scaled by `s`.
pub open spec fn scaled<A: Arith>(arrays: Seq<Seq<Single>>, s: Single) -> Seq<Seq<Single>> {
    Seq::new(
        arrays.len(),
        |k: int| Seq::new(arrays[k].len(), |i: int| product::<A>(arrays[k][i], s)),
    )
}

/// What mutable slices hold, as a sequence of sequences.
pub open spec fn held_by(s: Seq<&mut [Single]>) -> Seq<Seq<Single>> {
    Seq::new(s.len(), |k: int| s[k]@)
}

/// Scales all gradient arrays by `max_norm / norm` if the global norm exceeds
/// `max_norm`. Returns the norm from before (useful for logging).
pub fn clip_in_place<A: Arith>(arrays: &mut [&mut [Single]], max_norm: Single) -> (norm: Single)
    ensures
        deterministic::<A>() ==> norm == norm_of::<A>(held_by(old(arrays)@)),
        final(arrays)@.len() == old(arrays)@.len(),
        forall|k: int|
            0 <= k < old(arrays)@.len() ==> (#[trigger] final(arrays)@[k]@).len()
                == old(arrays)@[k]@.len(),
        forall|k: int|
            0 <= k < old(arrays)@.len() ==> (#[trigger] final(final(arrays)@[k])@)
                == final(old(arrays)@[k])@,
        !is_clipped(norm, max_norm) ==> held_by(final(arrays)@) == held_by(old(arrays)@),
        is_clipped(norm, max_norm) && deterministic::<A>() ==> held_by(final(arrays)@) == scaled::<
            A,
        >(held_by(old(arrays)@), quotient::<A>(max_norm, norm)),
{
    let ghost before = held_by(arrays@);
    let n = arrays.len();
    let norm = norm_of_all::<A>(arrays);
    if max_norm.lt(norm) && Single::zeroed().lt(norm) {
        let s = A::over(max_norm, norm);
        let mut k: usize = 0;
        while k < n
            invariant
                k <= n,
                n == arrays@.len(),
                n == old(arrays)@.len(),
                before == held_by(old(arrays)@),
                forall|q: int| k <= q < n ==> (#[trigger] arrays@[q]@) == before[q],
                forall|q: int| 0 <= q < n ==> (#[trigger] arrays@[q]@).len() == before[q].len(),
                forall|q: int|
                    0 <= q < n ==> (#[trigger] final(arrays@[q])@) == final(old(arrays)@[q])@,
                deterministic::<A>() ==> forall|q: int, i: int|
                    0 <= q < k && 0 <= i < before[q].len() ==> #[trigger] arrays@[q]@[i]
                        == product::<A>(before[q][i], s),
            decreases n - k,
        {
            let ghost so_far = arrays@;
            scale_all::<A>(&mut *arrays[k], s);
            proof {
                assert(so_far[k as int]@ == before[k as int]);
                assert(arrays@[k as int]@.len() == before[k as int].len());
                assert(final(arrays@[k as int])@ == final(so_far[k as int])@);
            }
            k += 1;
        }
        proof {
            if deterministic::<A>() {
                let after = scaled::<A>(before, quotient::<A>(max_norm, norm));
                assert forall|q: int| 0 <= q < n implies #[trigger] held_by(arrays@)[q]
                    == after[q] by {
                    assert(arrays@[q]@.len() == before[q].len());
                    assert(held_by(arrays@)[q] =~= after[q]);
                }
                assert(held_by(arrays@) =~= after);
            }
        }
    }
    norm
}

/// Multiplies each of `xs` by `s`.
fn scale_all<A: Arith>(xs: &mut [Single], s: Single)
    ensures
        final(xs)@.len() == old(xs)@.len(),
        deterministic::<A>() ==> forall|i: int|
            0 <= i < old(xs)@.len() ==> #[trigger] final(xs)@[i] == product::<A>(old(xs)@[i], s),
{
    let ghost before = xs@;
    let n = xs.len();
    let mut i: usize = 0;
    while i < n
        invariant
            i <= n,
            n == xs@.len(),
            n == before.len(),
            forall|k: int| i <= k < n ==> #[trigger] xs@[k] == before[k],
            deterministic::<A>() ==> forall|k: int|
                0 <= k < i ==> #[trigger] xs@[k] == product::<A>(before[k], s),
        decreases n - i,
    {
        let x = A::times(xs[i], s);
        xs[i] = x;
        i += 1;
    }
}

/// The global norm of what mutable slices hold.
fn norm_of_all<A: Arith>(arrays: &[&mut [Single]]) -> (norm: Single)
    ensures
        deterministic::<A>() ==> norm == norm_of::<A>(held_by(arrays@)),
{
    let mut views: Vec<&[Single]> = Vec::new();
    let mut k: usize = 0;
    while k < arrays.len()
        invariant
            k <= arrays@.len(),
            views@.len() == k,
            forall|q: int| 0 <= q < k ==> (#[trigger] views@[q]@) == arrays@[q]@,
        decreases arrays.len() - k,
    {
        views.push(&*arrays[k]);
        k += 1;
    }
    assert(slices_of(views@) =~= held_by(arrays@));
    global_norm::<A>(views.as_slice())
}

/// The norm of several arrays is that of all their numbers in one: it does not
/// depend on how the numbers are divided over the arrays.
pub proof fn law_norm_is_of_one_long_vector<A: Arith>(arrays: Seq<Seq<Single>>)
    ensures
        norm_of::<A>(arrays) == norm_of::<A>(seq![arrays.flatten()]),
{
    let one = seq![arrays.flatten()];
    reveal_with_fuel(squares_of, 2);
    assert(squares_of::<A>(one, 1) == squares_in::<A>(
        wide_nought(),
        arrays.flatten(),
        arrays.flatten().len() as int,
    ));
    lemma_squares_of_flatten::<A>(arrays, arrays.len() as int);
    assert(arrays.take(arrays.len() as int) =~= arrays);
}

proof fn lemma_squares_of_flatten<A: Arith>(arrays: Seq<Seq<Single>>, k: int)
    requires
        0 <= k <= arrays.len(),
    ensures
        squares_of::<A>(arrays, k) == squares_in::<A>(
            wide_nought(),
            arrays.take(k).flatten(),
            arrays.take(k).flatten().len() as int,
        ),
    decreases k,
{
    let upto = arrays.take(k);
    if k == 0 {
        assert(upto =~= Seq::<Seq<Single>>::empty());
        assert(upto.flatten() =~= Seq::<Single>::empty()) by {
            reveal(Seq::flatten);
        }
    } else {
        let before = arrays.take(k - 1);
        lemma_squares_of_flatten::<A>(arrays, k - 1);
        assert(upto.drop_last() =~= before);
        assert(upto.last() == arrays[k - 1]);
        upto.lemma_flatten_and_flatten_alt_are_equivalent();
        before.lemma_flatten_and_flatten_alt_are_equivalent();
        assert(upto.flatten() == before.flatten() + arrays[k - 1]) by {
            reveal(Seq::flatten_alt);
        }
        lemma_squares_in_concat::<A>(
            wide_nought(),
            before.flatten(),
            arrays[k - 1],
            arrays[k - 1].len() as int,
        );
    }
}

proof fn lemma_squares_in_concat<A: Arith>(
    start: Double,
    xs: Seq<Single>,
    ys: Seq<Single>,
    n: int,
)
    requires
        0 <= n <= ys.len(),
    ensures
        squares_in::<A>(start, xs + ys, xs.len() + n) == squares_in::<A>(
            squares_in::<A>(start, xs, xs.len() as int),
            ys,
            n,
        ),
    decreases n,
{
    if n > 0 {
        lemma_squares_in_concat::<A>(start, xs, ys, n - 1);
        assert((xs + ys)[xs.len() + n - 1] == ys[n - 1]);
    } else {
        lemma_squares_in_prefix::<A>(start, xs + ys, xs, xs.len() as int);
    }
}

proof fn lemma_squares_in_prefix<A: Arith>(start: Double, xs: Seq<Single>, ys: Seq<Single>, n: int)
    requires
        forall|i: int| 0 <= i < n ==> #[trigger] xs[i] == ys[i],
    ensures
        squares_in::<A>(start, xs, n) == squares_in::<A>(start, ys, n),
    decreases n,
{
    if n > 0 {
        lemma_squares_in_prefix::<A>(start, xs, ys, n - 1);
        assert(xs[n - 1] == ys[n - 1]);
    }
}

// --- what holds of a step and of clipping -----------------------------------

/// A step moves each parameter by itself: its moments are moved toward the gradient
/// and toward its square, each by what its beta falls short of one; both are corrected
/// for their start at zero; and the parameter moves against the first, relative to
/// the root of the second, at the learning rate.
pub proof fn law_adam_moves_each_parameter<A: Arith>(
    adam: Adam,
    p: Seq<Single>,
    g: Seq<Single>,
    old: Averages,
    i: int,
    m: Single,
    v: Single,
)
    requires
        0 <= i < p.len(),
        p.len() <= old.m.len(),
        p.len() <= old.v.len(),
        m == sum::<A>(
            product::<A>(adam.b1, old.m[i]),
            product::<A>(difference::<A>(unit(), adam.b1), g[i]),
        ),
        v == sum::<A>(
            product::<A>(adam.b2, old.v[i]),
            product::<A>(product::<A>(difference::<A>(unit(), adam.b2), g[i]), g[i]),
        ),
    ensures
        adam.averaged::<A>(old, g, p.len()).m[i] == m,
        adam.averaged::<A>(old, g, p.len()).v[i] == v,
        adam.stepped::<A>(p, g, old).len() == p.len(),
        ({
            let first = quotient::<A>(
                m,
                difference::<A>(unit(), raised::<A>(adam.b1, adam.t as i32)),
            );
            let second = quotient::<A>(
                v,
                difference::<A>(unit(), raised::<A>(adam.b2, adam.t as i32)),
            );
            adam.stepped::<A>(p, g, old)[i] == difference::<A>(
                p[i],
                quotient::<A>(
                    product::<A>(adam.lr, first),
                    sum::<A>(root::<A>(second), adam.eps),
                ),
            )
        }),
{
}

/// Parameters do not mix: what becomes of parameter `i` depends on it, its gradient and
/// its moments, and on nothing else in the arrays; buffers without a parameter stay.
pub proof fn law_parameters_do_not_mix<A: Arith>(
    adam: Adam,
    p: Seq<Single>,
    g: Seq<Single>,
    old: Averages,
    q: Seq<Single>,
    h: Seq<Single>,
    other: Averages,
    i: int,
    j: int,
)
    requires
        0 <= i < p.len(),
        p.len() <= old.m.len(),
        p.len() <= old.v.len(),
        0 <= j < q.len(),
        q.len() <= other.m.len(),
        q.len() <= other.v.len(),
        p[i] == q[j],
        g[i] == h[j],
        old.m[i] == other.m[j],
        old.v[i] == other.v[j],
    ensures
        adam.stepped::<A>(p, g, old)[i] == adam.stepped::<A>(q, h, other)[j],
        adam.averaged::<A>(old, g, p.len()).m[i] == adam.averaged::<A>(other, h, q.len()).m[j],
        adam.averaged::<A>(old, g, p.len()).v[i] == adam.averaged::<A>(other, h, q.len()).v[j],
        adam.averaged::<A>(old, g, p.len()).m.len() == old.m.len(),
        adam.averaged::<A>(old, g, p.len()).v.len() == old.v.len(),
        adam.averaged::<A>(old, g, p.len()).m.skip(p.len() as int) == old.m.skip(p.len() as int),
        adam.averaged::<A>(old, g, p.len()).v.skip(p.len() as int) == old.v.skip(p.len() as int),
{
    let new = adam.averaged::<A>(old, g, p.len());
    assert(new.m.skip(p.len() as int) =~= old.m.skip(p.len() as int));
    assert(new.v.skip(p.len() as int) =~= old.v.skip(p.len() as int));
}

/// A new optimizer has the configured rates and has taken no step.
pub proof fn law_optimizer_is_as_configured(cfg: Config)
    ensures
        ({
            let adam = Adam::configured(cfg);
            &&& adam.b1 == cfg.adam_beta1
            &&& adam.b2 == cfg.adam_beta2
            &&& adam.eps == cfg.adam_eps
            &&& adam.lr == cfg.lr
            &&& adam.t == 0
        }),
{
}

/// The norm is the root of the sum of the squares, all in double precision:
/// `partial[k]` is the sum over the first `k` numbers.
pub proof fn law_norm_is_the_root_of_squares<A: Arith>(xs: Seq<Single>, partial: Seq<Double>)
    requires
        partial.len() == xs.len() + 1,
        partial[0] == wide_nought(),
        forall|k: int|
            0 < k <= xs.len() ==> #[trigger] partial[k] == wide_sum::<A>(
                partial[k - 1],
                wide_product::<A>(widened::<A>(xs[k - 1]), widened::<A>(xs[k - 1])),
            ),
    ensures
        norm_of::<A>(seq![xs]) == narrowed::<A>(wide_root::<A>(partial.last())),
{
    reveal_with_fuel(squares_of, 2);
    lemma_squares_add_up::<A>(xs, partial, xs.len() as int);
}

proof fn lemma_squares_add_up<A: Arith>(xs: Seq<Single>, partial: Seq<Double>, n: int)
    requires
        0 <= n <= xs.len(),
        partial.len() == xs.len() + 1,
        partial[0] == wide_nought(),
        forall|k: int|
            0 < k <= xs.len() ==> #[trigger] partial[k] == wide_sum::<A>(
                partial[k - 1],
                wide_product::<A>(widened::<A>(xs[k - 1]), widened::<A>(xs[k - 1])),
            ),
    ensures
        squares_in::<A>(wide_nought(), xs, n) == partial[n],
    decreases n,
{
    if n > 0 {
        lemma_squares_add_up::<A>(xs, partial, n - 1);
        assert(partial[n] == wide_sum::<A>(
            partial[n - 1],
            wide_product::<A>(widened::<A>(xs[n - 1]), widened::<A>(xs[n - 1])),
        ));
    }
}

/// Gradients are scaled down exactly if their norm is above the limit and above zero.
pub proof fn law_large_norms_are_clipped(norm: Single, max_norm: Single)
    ensures
        at_most(norm, max_norm) ==> !is_clipped(norm, max_norm),
        less(max_norm, norm) && less(nought(), norm) ==> is_clipped(norm, max_norm),
        norm.nan() || norm.zero() ==> !is_clipped(norm, max_norm),
        max_norm.nan() ==> !is_clipped(norm, max_norm),
{
}

/// Scaling multiplies every number of every array by the one factor.
pub proof fn law_scaling_is_by_one_factor<A: Arith>(
    arrays: Seq<Seq<Single>>,
    factor: Single,
    k: int,
    i: int,
)
    requires
        0 <= k < arrays.len(),
        0 <= i < arrays[k].len(),
    ensures
        scaled::<A>(arrays, factor).len() == arrays.len(),
        scaled::<A>(arrays, factor)[k].len() == arrays[k].len(),
        scaled::<A>(arrays, factor)[k][i] == product::<A>(arrays[k][i], factor),
{
}

} // verus!
