//! A single-character-lookahead scanning primitive for hand-written lexers
//! and parsers.
//!
//! A [`Scanner`] holds an input decomposed into characters together with a
//! cursor that only ever moves forward. Besides the single-step operations
//! (`peek`, `pop`, `take`, `transform`), the [`Scanner::scan`] driver feeds a
//! caller-supplied classification function successively longer prefixes of
//! the remaining input and resolves its decisions ([`Action`]) into either a
//! matched value or a positioned failure ([`Error`]).

mod action;
mod error;
mod scanner;

pub use action::Action;
pub use error::Error;
pub use scanner::Scanner;
pub use scanner::classifier_answers;
pub use scanner::continuing_trace;
pub use scanner::is_prefix_from;
pub use scanner::lemma_scan_empty_input;
pub use scanner::lemma_scan_returns_first;
pub use scanner::lemma_take_unmatched_twice;
pub use scanner::pending_after;
pub use scanner::require_after;
pub use scanner::scan_exit;
pub use scanner::scan_outcome;
pub use scanner::take_matches;
pub use scanner::take_next;
