//! The pseudo-random generator, from the `rand` crate.
//!
//! A generator is opaque; its state is named, and so is what each call makes of
//! that state, so that a draw is known to depend on the state and the arguments
//! and on nothing else.
use rand::rngs::StdRng;
use rand::seq::SliceRandom;
use rand::{Rng, SeedableRng};
use vstd::prelude::*;

verus! {

/// `rand::rngs::StdRng`, opaque.
#[verifier::external_type_specification]
#[verifier::external_body]
pub struct ExStdRng(StdRng);

/// What a generator holds: the words of its state.
pub uninterp spec fn generator_state(rng: StdRng) -> Seq<u32>;

/// The state of a generator that was just made from `seed`.
pub uninterp spec fn seeded_state(seed: u64) -> Seq<u32>;

/// What a generator in `state` draws from `0..bound`, and its state afterwards.
pub uninterp spec fn drawn_below(state: Seq<u32>, bound: u32) -> (u32, Seq<u32>);

/// The order into which a generator in `state` shuffles `items`, and its state
/// afterwards.
pub uninterp spec fn shuffled(state: Seq<u32>, items: Seq<u32>) -> (Seq<u32>, Seq<u32>);

/// `StdRng::seed_from_u64`: a new generator, whose state depends on the seed alone.
#[verifier::external_body]
pub(crate) fn seeded(seed: u64) -> (rng: StdRng)
    ensures
        generator_state(rng) == seeded_state(seed),
{
    StdRng::seed_from_u64(seed)
}

/// `Rng::gen_range` over `0..bound`: a number below the bound, which like the
/// generator's next state depends on its state and the bound alone. It panics on
/// an empty range.
#[verifier::external_body]
pub(crate) fn draw_below(rng: &mut StdRng, bound: u32) -> (drawn: u32)
    requires
        bound > 0,
    ensures
        drawn < bound,
        (drawn, generator_state(*final(rng))) == drawn_below(generator_state(*old(rng)), bound),
{
    rng.gen_range(0..bound)
}

/// `SliceRandom::shuffle`: reorders the items. The order, like the generator's
/// next state, depends on its state and the items alone.
#[verifier::external_body]
pub(crate) fn shuffle(items: &mut Vec<u32>, rng: &mut StdRng)
    ensures
        final(items)@.to_multiset() == old(items)@.to_multiset(),
        (final(items)@, generator_state(*final(rng))) == shuffled(
            generator_state(*old(rng)),
            old(items)@,
        ),
{
    items.shuffle(rng)
}

} // verus!
