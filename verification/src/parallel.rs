//! Work handed out item by item to the threads of the `rayon` pool.
use rayon::iter::IntoParallelIterator;
use rayon::iter::ParallelIterator;
use vstd::prelude::*;

verus! {

/// `ParallelIterator::map` over the range `0..n`, gathered with `collect`.
///
/// The contract claims what `rayon` documents of an indexed iterator: `f` is called once for each
/// index, and the results stand in the order of the indices.
#[verifier::external_body]
pub(crate) fn map_indices<T: Send, P: Fn(usize) -> T + Sync + Send>(n: usize, f: P) -> (r: Vec<T>)
    requires
        forall|i: usize| i < n ==> call_requires(f, (i,)),
    ensures
        r@.len() == n,
        forall|i: int| 0 <= i < n ==> call_ensures(f, (i as usize,), #[trigger] r@[i]),
{
    (0..n).into_par_iter().map(f).collect()
}

} // verus!
