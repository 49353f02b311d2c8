//! Work handed out to threads item by item, through the `rayon` crate.
use rayon::prelude::{
    IndexedParallelIterator, IntoParallelIterator, IntoParallelRefMutIterator, ParallelIterator,
};
use vstd::prelude::*;

use crate::scalar::Single;

verus! {

/// `rayon`'s parallel `map` over `0..n`, collected: item `i` is what `f` returned
/// for `i`.
#[verifier::external_body]
pub(crate) fn parallel_map<F: Fn(usize) -> Single + Sync + Send>(n: usize, f: F) -> (r: Vec<Single>)
    requires
        forall|i: usize| i < n ==> #[trigger] call_requires(f, (i,)),
    ensures
        r@.len() == n,
        forall|i: usize| i < n ==> call_ensures(f, (i,), #[trigger] r@[i as int]),
{
    (0..n).into_par_iter().map(f).collect()
}

/// `rayon`'s parallel `for_each` over the items of a vector and their indices:
/// item `i` becomes what `f` returned for `i` and the item as it was.
#[verifier::external_body]
pub(crate) fn parallel_update<F: Fn(usize, Single) -> Single + Sync + Send>(
    items: &mut Vec<Single>,
    f: F,
)
    requires
        forall|i: usize|
            i < old(items)@.len() ==> #[trigger] call_requires(f, (i, old(items)@[i as int])),
    ensures
        final(items)@.len() == old(items)@.len(),
        forall|i: usize|
            i < old(items)@.len() ==> call_ensures(
                f,
                (i, old(items)@[i as int]),
                #[trigger] final(items)@[i as int],
            ),
{
    items.par_iter_mut().enumerate().for_each(|(i, item)| *item = f(i, *item))
}

} // verus!
