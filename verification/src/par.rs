//! Parallel evaluation of independent per-element work.

use vstd::prelude::*;
use rayon::iter::IndexedParallelIterator;
use rayon::iter::IntoParallelRefIterator;
use rayon::iter::ParallelIterator;

verus! {

/// Relies on rayon 1.12: `par_iter().map(f).collect_into_vec(..)` applies
/// `f` to every element independently and stores the results in the input's
/// order.  Each output element is therefore a possible result of `f` on the
/// corresponding input element.
#[verifier::external_body]
pub(crate) fn par_map<T: Sync, U: Send, F: Fn(&T) -> U + Send + Sync>(v: &Vec<T>, f: F) -> (r:
    Vec<U>)
    requires
        forall|i: int| 0 <= i < v@.len() ==> call_requires(f, (&v@[i],)),
    ensures
        r@.len() == v@.len(),
        forall|i: int| 0 <= i < v@.len() ==> call_ensures(f, (&v@[i],), #[trigger] r@[i]),
{
    let mut out = Vec::new();
    v.par_iter().map(|t| f(t)).collect_into_vec(&mut out);
    out
}

} // verus!
