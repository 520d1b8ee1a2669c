//! Work spread over threads by the `rayon` crate.

use rayon::iter::{IntoParallelRefIterator, ParallelIterator};
use vstd::prelude::*;

verus! {

/// `rayon`'s parallel iterator over a slice, mapped and collected into a `Result`: either every
/// call succeeded, and the results stand in the order of the items; or the error of one of
/// the calls that failed, not necessarily the first, is returned. Nothing is said of the
/// threads that do the work, nor of what happens where none can be started.
#[verifier::external_body]
pub(crate) fn try_map<A, B, E, F>(items: &[A], call: F) -> (result: Result<Vec<B>, E>) where
    A: Sync,
    B: Send,
    E: Send,
    F: Fn(&A) -> Result<B, E> + Sync + Send,

    requires
        forall|i: int| 0 <= i < items@.len() ==> call_requires(call, (&#[trigger] items@[i],)),
    ensures
        match result {
            Ok(outputs) => outputs@.len() == items@.len() && forall|i: int|
                0 <= i < items@.len() ==> call_ensures(
                    call,
                    (&items@[i],),
                    Ok::<B, E>(#[trigger] outputs@[i]),
                ),
            Err(error) => exists|i: int|
                0 <= i < items@.len() && call_ensures(
                    call,
                    (&#[trigger] items@[i],),
                    Err::<B, E>(error),
                ),
        },
{
    items.par_iter().map(call).collect()
}

} // verus!
