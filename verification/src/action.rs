use vstd::prelude::*;

verus! {

/// A decision returned by a classification function handed to
/// [`crate::Scanner::scan`], directing the advancement of the cursor and the
/// return of translated values.
#[derive(Debug, PartialEq, Clone)]
pub enum Action<T> {
    /// If the next iteration returns no decision, return `T` without
    /// advancing the cursor any further.
    Request(T),

    /// If the next iteration returns no decision, fail: longer input is
    /// mandatory for any valid result from this branch.
    Require,

    /// Immediately advance the cursor and return `T`.
    Return(T),
}

} // verus!
