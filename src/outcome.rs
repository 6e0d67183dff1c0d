//! How the single outcome of a query reaches a caller that waits for it.
use vstd::prelude::*;

verus! {

/// Turns what a one-shot delivery slot yielded into the query's outcome.
///
/// `Some(outcome)` is what the completion handler published, handed on unchanged.
/// `None` means that the publishing side went away without ever publishing; the
/// caller then gets `Err(cancelled)` instead of a panic or a wait without end.
pub fn settle_delivery<T, E>(delivered: Option<Result<T, E>>, cancelled: E) -> (r: Result<T, E>)
    ensures
        delivered matches Some(outcome) ==> r == outcome,
        delivered is None ==> r == Err::<T, E>(cancelled),
{
    match delivered {
        Some(outcome) => outcome,
        None => Err(cancelled),
    }
}

} // verus!
