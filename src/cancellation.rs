use std::sync::atomic::{AtomicBool, Ordering};
use std::sync::Arc;
use vstd::prelude::*;

verus! {

/// A flag shared between threads: once cancelled, it stays cancelled. Another
/// thread may cancel it at any time, so a read says nothing about the next one.
#[derive(Clone)]
pub struct CancellationToken {
    token: Arc<AtomicBool>,
}

impl CancellationToken {
    /// A token that nobody has cancelled yet.
    pub fn new() -> Self {
        CancellationToken { token: Arc::new(AtomicBool::new(false)) }
    }

    /// Whether some holder of the token has cancelled it.
    pub fn is_cancelled(&self) -> bool {
        self.token.load(Ordering::SeqCst)
    }

    /// Cancels the token for every holder.
    pub fn cancel(&self) {
        self.token.store(true, Ordering::SeqCst);
    }
}

} // verus!
