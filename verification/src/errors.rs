//! Fatal conditions that abort an engine operation.

use vstd::prelude::*;

verus! {

/// A reward-engine operation failed; the caller must discard the
/// operation's effects, as the engine promises nothing beyond
/// well-formedness of its state after an error.
#[derive(Clone, Copy, Debug, PartialEq, Eq, Structural)]
pub enum Error {
    /// A range query referenced an accrual epoch with no recorded
    /// per-share value: epoch continuity was broken upstream.
    IndexConsistencyViolation,
    /// A product, sum or narrowing needed by the accrual arithmetic
    /// exceeds the representable range.
    ArithmeticOverflow,
}

} // verus!
