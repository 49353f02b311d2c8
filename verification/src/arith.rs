//! The rounding operations, as a parameter of everything that computes.
//!
//! The model is written against the trait [`Arith`] and says nothing about how
//! an operation rounds. A contract that names a value says which operations were
//! applied to which operands and in which order; it holds for every arithmetic
//! that is [`deterministic`], that is, whose operations return the same result
//! whenever they are given the same operands.
use rand::rngs::StdRng;
use vstd::prelude::*;

use crate::random::generator_state;
use crate::scalar::{nought, same_number, Double, Single};

verus! {

/// The operations on single and double precision numbers that round.
pub trait Arith {
    /// The number nearest to `n`.
    fn of_count(n: u64) -> Single;

    /// The integer part of `x`: 0 below zero and for a NaN, and the largest
    /// integer where `x` is beyond it.
    fn to_count(x: Single) -> usize;

    fn plus(x: Single, y: Single) -> Single;

    fn minus(x: Single, y: Single) -> Single;

    fn times(x: Single, y: Single) -> Single;

    fn over(x: Single, y: Single) -> Single;

    fn sqrt(x: Single) -> Single;

    fn exp(x: Single) -> Single;

    fn ln(x: Single) -> Single;

    fn cos(x: Single) -> Single;

    fn tanh(x: Single) -> Single;

    /// The nearest integer, ties away from zero.
    fn round(x: Single) -> Single;

    /// `x` to the power of `n`.
    fn power(x: Single, n: i32) -> Single;

    fn widen(x: Single) -> Double;

    fn narrow(x: Double) -> Single;

    /// The double nearest to `n`.
    fn wide_of_count(n: u64) -> Double;

    fn wide_plus(x: Double, y: Double) -> Double;

    fn wide_minus(x: Double, y: Double) -> Double;

    fn wide_times(x: Double, y: Double) -> Double;

    fn wide_over(x: Double, y: Double) -> Double;

    fn wide_sqrt(x: Double) -> Double;

    fn wide_ln(x: Double) -> Double;

    /// A number drawn from `lo..hi`, and the generator afterwards.
    fn uniform(rng: &StdRng, lo: Single, hi: Single) -> (Single, StdRng);
}

/// The number nearest to `n`.
pub open spec fn counted<A: Arith>(n: u64) -> Single {
    choose|r: Single| call_ensures(A::of_count, (n,), r)
}

/// The integer part of `x`.
pub open spec fn count_in<A: Arith>(x: Single) -> usize {
    choose|r: usize| call_ensures(A::to_count, (x,), r)
}

/// `x + y`.
pub open spec fn sum<A: Arith>(x: Single, y: Single) -> Single {
    choose|r: Single| call_ensures(A::plus, (x, y), r)
}

/// `x - y`.
pub open spec fn difference<A: Arith>(x: Single, y: Single) -> Single {
    choose|r: Single| call_ensures(A::minus, (x, y), r)
}

/// `x * y`.
pub open spec fn product<A: Arith>(x: Single, y: Single) -> Single {
    choose|r: Single| call_ensures(A::times, (x, y), r)
}

/// `x / y`.
pub open spec fn quotient<A: Arith>(x: Single, y: Single) -> Single {
    choose|r: Single| call_ensures(A::over, (x, y), r)
}

/// The square root of `x`.
pub open spec fn root<A: Arith>(x: Single) -> Single {
    choose|r: Single| call_ensures(A::sqrt, (x,), r)
}

/// E to the power of `x`.
pub open spec fn exponential<A: Arith>(x: Single) -> Single {
    choose|r: Single| call_ensures(A::exp, (x,), r)
}

/// The natural logarithm of `x`.
pub open spec fn logarithm<A: Arith>(x: Single) -> Single {
    choose|r: Single| call_ensures(A::ln, (x,), r)
}

/// The cosine of `x`.
pub open spec fn cosine<A: Arith>(x: Single) -> Single {
    choose|r: Single| call_ensures(A::cos, (x,), r)
}

/// The hyperbolic tangent of `x`.
pub open spec fn hyperbolic_tangent<A: Arith>(x: Single) -> Single {
    choose|r: Single| call_ensures(A::tanh, (x,), r)
}

/// The nearest integer, ties away from zero, to `x`.
pub open spec fn rounded<A: Arith>(x: Single) -> Single {
    choose|r: Single| call_ensures(A::round, (x,), r)
}

/// `x` to the power of `n`.
pub open spec fn raised<A: Arith>(x: Single, n: i32) -> Single {
    choose|r: Single| call_ensures(A::power, (x, n), r)
}

/// `x` as a double.
pub open spec fn widened<A: Arith>(x: Single) -> Double {
    choose|r: Double| call_ensures(A::widen, (x,), r)
}

/// The single nearest to `x`.
pub open spec fn narrowed<A: Arith>(x: Double) -> Single {
    choose|r: Single| call_ensures(A::narrow, (x,), r)
}

/// The double nearest to `n`.
pub open spec fn wide_counted<A: Arith>(n: u64) -> Double {
    choose|r: Double| call_ensures(A::wide_of_count, (n,), r)
}

/// `x + y`, of doubles.
pub open spec fn wide_sum<A: Arith>(x: Double, y: Double) -> Double {
    choose|r: Double| call_ensures(A::wide_plus, (x, y), r)
}

/// `x - y`, of doubles.
pub open spec fn wide_difference<A: Arith>(x: Double, y: Double) -> Double {
    choose|r: Double| call_ensures(A::wide_minus, (x, y), r)
}

/// `x * y`, of doubles.
pub open spec fn wide_product<A: Arith>(x: Double, y: Double) -> Double {
    choose|r: Double| call_ensures(A::wide_times, (x, y), r)
}

/// `x / y`, of doubles.
pub open spec fn wide_quotient<A: Arith>(x: Double, y: Double) -> Double {
    choose|r: Double| call_ensures(A::wide_over, (x, y), r)
}

/// The square root of the double `x`.
pub open spec fn wide_root<A: Arith>(x: Double) -> Double {
    choose|r: Double| call_ensures(A::wide_sqrt, (x,), r)
}

/// The natural logarithm of the double `x`.
pub open spec fn wide_logarithm<A: Arith>(x: Double) -> Double {
    choose|r: Double| call_ensures(A::wide_ln, (x,), r)
}

/// What a generator in `state` draws from `lo..hi`, and its state afterwards.
pub open spec fn uniform_draw<A: Arith>(state: Seq<u32>, lo: Single, hi: Single) -> (
    Single,
    Seq<u32>,
) {
    let (rng, r) = choose|rng: StdRng, r: (Single, StdRng)| #[trigger]
        call_ensures(A::uniform, (&rng, lo, hi), r) && generator_state(rng) == state;
    (r.0, generator_state(r.1))
}

/// Every operation returns the same result whenever it is given the same
/// operands; a draw depends on the generator's state and the range alone.
pub open spec fn deterministic<A: Arith>() -> bool {
    &&& forall|n: u64, r: Single| #[trigger] call_ensures(A::of_count, (n,), r) ==>
        r == counted::<A>(n)
    &&& forall|x: Single, r: usize| #[trigger] call_ensures(A::to_count, (x,), r) ==>
        r == count_in::<A>(x)
    &&& forall|x: Single, y: Single, r: Single| #[trigger] call_ensures(A::plus, (x, y), r) ==>
        r == sum::<A>(x, y)
    &&& forall|x: Single, y: Single, r: Single| #[trigger] call_ensures(A::minus, (x, y), r) ==>
        r == difference::<A>(x, y)
    &&& forall|x: Single, y: Single, r: Single| #[trigger] call_ensures(A::times, (x, y), r) ==>
        r == product::<A>(x, y)
    &&& forall|x: Single, y: Single, r: Single| #[trigger] call_ensures(A::over, (x, y), r) ==>
        r == quotient::<A>(x, y)
    &&& forall|x: Single, r: Single| #[trigger] call_ensures(A::sqrt, (x,), r) ==>
        r == root::<A>(x)
    &&& forall|x: Single, r: Single| #[trigger] call_ensures(A::exp, (x,), r) ==>
        r == exponential::<A>(x)
    &&& forall|x: Single, r: Single| #[trigger] call_ensures(A::ln, (x,), r) ==>
        r == logarithm::<A>(x)
    &&& forall|x: Single, r: Single| #[trigger] call_ensures(A::cos, (x,), r) ==>
        r == cosine::<A>(x)
    &&& forall|x: Single, r: Single| #[trigger] call_ensures(A::tanh, (x,), r) ==>
        r == hyperbolic_tangent::<A>(x)
    &&& forall|x: Single, r: Single| #[trigger] call_ensures(A::round, (x,), r) ==>
        r == rounded::<A>(x)
    &&& forall|x: Single, n: i32, r: Single| #[trigger] call_ensures(A::power, (x, n), r) ==>
        r == raised::<A>(x, n)
    &&& forall|x: Single, r: Double| #[trigger] call_ensures(A::widen, (x,), r) ==>
        r == widened::<A>(x)
    &&& forall|x: Double, r: Single| #[trigger] call_ensures(A::narrow, (x,), r) ==>
        r == narrowed::<A>(x)
    &&& forall|n: u64, r: Double| #[trigger] call_ensures(A::wide_of_count, (n,), r) ==>
        r == wide_counted::<A>(n)
    &&& forall|x: Double, y: Double, r: Double| #[trigger] call_ensures(A::wide_plus, (x, y), r) ==>
        r == wide_sum::<A>(x, y)
    &&& forall|x: Double, y: Double, r: Double| #[trigger] call_ensures(A::wide_minus, (x, y), r) ==>
        r == wide_difference::<A>(x, y)
    &&& forall|x: Double, y: Double, r: Double| #[trigger] call_ensures(A::wide_times, (x, y), r) ==>
        r == wide_product::<A>(x, y)
    &&& forall|x: Double, y: Double, r: Double| #[trigger] call_ensures(A::wide_over, (x, y), r) ==>
        r == wide_quotient::<A>(x, y)
    &&& forall|x: Double, r: Double| #[trigger] call_ensures(A::wide_sqrt, (x,), r) ==>
        r == wide_root::<A>(x)
    &&& forall|x: Double, r: Double| #[trigger] call_ensures(A::wide_ln, (x,), r) ==>
        r == wide_logarithm::<A>(x)
    &&& forall|rng: StdRng, lo: Single, hi: Single, r: (Single, StdRng)| #[trigger]
        call_ensures(A::uniform, (&rng, lo, hi), r) ==>
        (r.0, generator_state(r.1)) == uniform_draw::<A>(
            generator_state(rng), lo, hi)
}

/// Subtraction behaves as such: exchanging the operands negates the result, a
/// finite number less itself is zero, zero less zero is zero, and which of the two
/// zeros something other than zero is taken from makes no difference.
pub open spec fn subtracts<A: Arith>() -> bool {
    &&& forall|x: Single, y: Single|
        same_number(#[trigger] difference::<A>(x, y), difference::<A>(y, x).negated())
    &&& forall|x: Single| x.finite() ==> (#[trigger] difference::<A>(x, x)).zero()
    &&& forall|x: Single, y: Single|
        x.zero() && y.zero() ==> (#[trigger] difference::<A>(x, y)).zero()
    &&& forall|x: Single, y: Single, z: Single|
        x.zero() && y.zero() && !z.zero() ==> #[trigger] difference::<A>(x, z)
            == #[trigger] difference::<A>(y, z)
}

/// Zero behaves as such: a finite number times zero is zero, and so is the sum of
/// zeros.
pub open spec fn keeps_zero<A: Arith>() -> bool {
    &&& forall|x: Single, y: Single|
        x.finite() && y.zero() ==> (#[trigger] product::<A>(x, y)).zero()
    &&& forall|x: Single, y: Single|
        x.zero() && y.finite() ==> (#[trigger] product::<A>(x, y)).zero()
    &&& forall|x: Single, y: Single|
        x.zero() && y.zero() ==> (#[trigger] sum::<A>(x, y)).zero()
}

/// Adding zero leaves `x` as it is.
pub open spec fn is_steady<A: Arith>(x: Single) -> bool {
    forall|z: Single| z.zero() ==> #[trigger] sum::<A>(x, z) == x
}

/// Adding zero leaves sums as they are, if they start from zero.
pub open spec fn absorbs_zero<A: Arith>() -> bool {
    &&& is_steady::<A>(nought())
    &&& forall|x: Single, y: Single| is_steady::<A>(x) ==> is_steady::<A>(#[trigger] sum::<A>(x, y))
}

/// The two zeros have one exponential.
pub open spec fn zeros_have_one_exponential<A: Arith>() -> bool {
    forall|x: Single, y: Single|
        x.zero() && y.zero() ==> #[trigger] exponential::<A>(x) == #[trigger] exponential::<A>(y)
}

/// `start + term(0) + term(1) + ... + term(n - 1)`, added from the left.
pub open spec fn running_sum<A: Arith>(
    start: Single,
    n: int,
    term: spec_fn(int) -> Single,
) -> Single
    decreases n,
{
    if n <= 0 {
        start
    } else {
        sum::<A>(running_sum::<A>(start, n - 1, term), term(n - 1))
    }
}

/// As [`running_sum`], over those terms only for which `counts` holds.
pub open spec fn running_sum_where<A: Arith>(
    start: Single,
    n: int,
    counts: spec_fn(int) -> bool,
    term: spec_fn(int) -> Single,
) -> Single
    decreases n,
{
    if n <= 0 {
        start
    } else if counts(n - 1) {
        sum::<A>(running_sum_where::<A>(start, n - 1, counts, term), term(n - 1))
    } else {
        running_sum_where::<A>(start, n - 1, counts, term)
    }
}

/// The sum depends on the first `n` terms alone.
pub proof fn lemma_running_sum_ext<A: Arith>(
    start: Single,
    n: int,
    f: spec_fn(int) -> Single,
    g: spec_fn(int) -> Single,
)
    requires
        forall|i: int| 0 <= i < n ==> #[trigger] f(i) == g(i),
    ensures
        running_sum::<A>(start, n, f) == running_sum::<A>(start, n, g),
    decreases n,
{
    if n > 0 {
        lemma_running_sum_ext::<A>(start, n - 1, f, g);
        assert(f(n - 1) == g(n - 1));
    }
}

/// The sum depends on which of the first `n` terms count, and on those, alone.
pub proof fn lemma_running_sum_where_ext<A: Arith>(
    start: Single,
    n: int,
    counts: spec_fn(int) -> bool,
    f: spec_fn(int) -> Single,
    also_counts: spec_fn(int) -> bool,
    g: spec_fn(int) -> Single,
)
    requires
        forall|i: int| 0 <= i < n ==> #[trigger] counts(i) == also_counts(i),
        forall|i: int| 0 <= i < n ==> #[trigger] f(i) == g(i),
    ensures
        running_sum_where::<A>(start, n, counts, f) == running_sum_where::<A>(
            start,
            n,
            also_counts,
            g,
        ),
    decreases n,
{
    if n > 0 {
        lemma_running_sum_where_ext::<A>(start, n - 1, counts, f, also_counts, g);
        assert(counts(n - 1) == also_counts(n - 1));
        assert(f(n - 1) == g(n - 1));
    }
}

/// `0.0`, `n` times over.
pub fn zeros(n: usize) -> (r: Vec<Single>)
    ensures
        r@ == Seq::new(n as nat, |i: int| nought()),
{
    let mut r: Vec<Single> = Vec::new();
    for i in 0..n
        invariant
            r@ == Seq::new(i as nat, |i: int| nought()),
    {
        r.push(Single { bits: 0 });
    }
    r
}

/// Adding does not depend on which operand comes first.
pub open spec fn adds_either_way<A: Arith>() -> bool {
    forall|x: Single, y: Single| #[trigger] sum::<A>(x, y) == sum::<A>(y, x)
}

/// A running sum adds one term after the other: it is the last of the partial sums,
/// each of which is the one before plus the next term.
pub proof fn law_running_sum_adds_one_by_one<A: Arith>(
    n: int,
    term: spec_fn(int) -> Single,
    partial: Seq<Single>,
)
    requires
        0 <= n < partial.len(),
        forall|k: int|
            0 < k <= n ==> #[trigger] partial[k] == sum::<A>(partial[k - 1], term(k - 1)),
    ensures
        running_sum::<A>(partial[0], n, term) == partial[n],
    decreases n,
{
    if n > 0 {
        law_running_sum_adds_one_by_one::<A>(n - 1, term, partial);
        assert(partial[n] == sum::<A>(partial[n - 1], term(n - 1)));
    }
}

/// A running sum over some of the terms adds those, one after the other.
pub proof fn law_running_sum_passes_over_terms<A: Arith>(
    n: int,
    counts: spec_fn(int) -> bool,
    term: spec_fn(int) -> Single,
    partial: Seq<Single>,
)
    requires
        0 <= n < partial.len(),
        forall|k: int|
            0 < k <= n ==> #[trigger] partial[k] == if counts(k - 1) {
                sum::<A>(partial[k - 1], term(k - 1))
            } else {
                partial[k - 1]
            },
    ensures
        running_sum_where::<A>(partial[0], n, counts, term) == partial[n],
    decreases n,
{
    if n > 0 {
        law_running_sum_passes_over_terms::<A>(n - 1, counts, term, partial);
        assert(partial[n] == if counts(n - 1) {
            sum::<A>(partial[n - 1], term(n - 1))
        } else {
            partial[n - 1]
        });
    }
}

/// Passing over terms that are zero makes no difference.
pub proof fn lemma_zero_terms<A: Arith>(
    start: Single,
    n: int,
    counts: spec_fn(int) -> bool,
    term: spec_fn(int) -> Single,
)
    requires
        absorbs_zero::<A>(),
        is_steady::<A>(start),
        forall|k: int| 0 <= k < n && !#[trigger] counts(k) ==> term(k).zero(),
    ensures
        running_sum_where::<A>(start, n, counts, term) == running_sum::<A>(start, n, term),
        is_steady::<A>(running_sum::<A>(start, n, term)),
    decreases n,
{
    if n > 0 {
        lemma_zero_terms::<A>(start, n - 1, counts, term);
        if !counts(n - 1) {
            assert(term(n - 1).zero());
        }
    }
}

} // verus!
