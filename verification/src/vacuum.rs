//! The standalone vacuum operation: evict ledger records older than the
//! configured retention window.

use vstd::prelude::*;

use crate::config::AppConfig;
use crate::storage::{cutoff, retained, Storage};

verus! {

/// A vacuum run bound to a configuration.
pub struct Vacuum {
    pub config: AppConfig,
}

impl Vacuum {
    pub fn new(config: &AppConfig) -> (v: Self)
        ensures
            v.config.purge_after_days == config.purge_after_days,
    {
        Vacuum { config: config.clone() }
    }

    /// Evict everything older than the retention window from the store,
    /// against the given clock reading; returns the number removed.
    pub fn run(&self, storage: &mut Storage, now: i64) -> (removed: usize)
        ensures
            final(storage).records@ == retained(
                old(storage).records@,
                cutoff(self.config.purge_after_days as int, now as int),
            ),
            removed == old(storage).records@.len() - final(storage).records@.len(),
    {
        storage.vacuum_at(self.config.purge_after_days, now)
    }
}

} // verus!
