//! The slot the current snapshot lives in: a lock-free atomic swap, so
//! readers never block and never see a half-built snapshot. Verus cannot
//! look inside the atomics, so the slot is held behind trusted accessors
//! that only let well-formed snapshots in.

use vstd::prelude::*;
use std::sync::Arc;
use arc_swap::ArcSwap;
use crate::config::OptimizedConfig;

verus! {

/// Holds the currently published snapshot behind an atomic pointer swap.
#[verifier::external_body]
pub struct ConfigStore {
    inner: ArcSwap<OptimizedConfig>,
}

impl ConfigStore {
    /// Relies on arc_swap::ArcSwap::from_pointee: the store starts out
    /// holding the given snapshot.
    #[verifier::external_body]
    pub fn new(initial: OptimizedConfig) -> (r: ConfigStore)
        requires
            initial.wf(),
    {
        ConfigStore { inner: ArcSwap::from_pointee(initial) }
    }

    /// Relies on arc_swap::ArcSwap::store: atomically replaces the
    /// snapshot readers see, whole; an in-flight reader keeps the one it
    /// already holds.
    #[verifier::external_body]
    pub fn publish(&self, snapshot: OptimizedConfig)
        requires
            snapshot.wf(),
    {
        self.inner.store(Arc::new(snapshot));
    }

    /// Relies on arc_swap::ArcSwap::load_full: hands back one whole
    /// snapshot that `new` or `publish` put in — both admit only
    /// well-formed snapshots, so whatever comes back is well-formed.
    #[verifier::external_body]
    pub fn current(&self) -> (r: Arc<OptimizedConfig>)
        ensures
            (*r).wf(),
    {
        self.inner.load_full()
    }
}

} // verus!
