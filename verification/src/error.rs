use vstd::prelude::*;

verus! {

/// A failure reported by [`crate::Scanner::scan`]. Both kinds are terminal
/// for the call that produced them; neither corrupts the scanner beyond the
/// documented advance-up-to-the-failure-point semantics.
#[derive(Debug, PartialEq, Clone)]
pub enum Error {
    /// The input was exhausted while a `Require` obligation was outstanding.
    EndOfLine,

    /// A character that cannot extend the current required match was found
    /// at the indicated cursor position.
    Character(usize),
}

} // verus!
