//! Cooperative cancellation for a scan session.
//!
//! A token is a settable flag: once set it stays set, `cancel` is idempotent,
//! and the scanner checks it at each recursive entry point. A cancelled
//! session can never be resumed; a new scan takes a fresh token.

use vstd::prelude::*;

verus! {

pub struct CancellationToken {
    cancelled: bool,
}

impl CancellationToken {
    /// True iff cancellation has been requested on this token.
    pub closed spec fn spec_is_cancelled(&self) -> bool {
        self.cancelled
    }

    pub fn new() -> (token: CancellationToken)
        ensures
            !token.spec_is_cancelled(),
    {
        CancellationToken { cancelled: false }
    }

    /// Request cancellation. Idempotent: cancelling twice is the same as once.
    pub fn cancel(&mut self)
        ensures
            final(self).spec_is_cancelled(),
    {
        self.cancelled = true;
    }

    pub fn is_cancelled(&self) -> (r: bool)
        ensures
            r == self.spec_is_cancelled(),
    {
        self.cancelled
    }
}

} // verus!
