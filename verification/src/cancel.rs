//! Cooperative cancellation. Each solve call takes its own token, so
//! independent searches cannot interfere with one another; the searching
//! side polls the token at a coarse interval while another thread may set
//! it at any time. No contract constrains the value read: the solver must
//! be correct whatever the poll returns.

use vstd::prelude::*;

verus! {

use core::sync::atomic::{AtomicBool, Ordering};

/// A per-solve cancellation signal. Setting it is idempotent and carries no
/// acknowledgement; it only affects a search that polls this very token.
pub struct CancelToken {
    flag: AtomicBool,
}

impl CancelToken {
    /// A fresh token, not yet cancelled.
    pub fn new() -> CancelToken {
        CancelToken { flag: AtomicBool::new(false) }
    }

    /// Request that the search polling this token stop at its next poll.
    pub fn cancel(&self) {
        self.flag.store(true, Ordering::SeqCst);
    }

    /// Poll the token. The result reflects a racing `cancel`, so nothing is
    /// known about it statically.
    pub fn is_cancelled(&self) -> bool {
        self.flag.load(Ordering::SeqCst)
    }
}

} // verus!
