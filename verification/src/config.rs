//! Run configuration.
//!
//! Built once at startup from whatever the process environment holds and
//! passed by value into the components, so that no component reads ambient
//! state itself.

use vstd::prelude::*;

verus! {

/// The knobs of one run: how long each client waits between its requests,
/// and how many received records lie between persisted checkpoints.
#[derive(Clone, Copy, Debug, PartialEq, Eq, Structural)]
pub struct RunConfig {
    pub cooldown_ms: u64,
    pub batch_size: usize,
}

impl RunConfig {
    pub open spec fn wf(self) -> bool {
        self.batch_size >= 1
    }

    /// The reference defaults: 1.1 s between requests, 250 records per
    /// checkpoint flush.
    pub fn standard() -> (r: RunConfig)
        ensures
            r == (RunConfig { cooldown_ms: 1100u64, batch_size: 250usize }),
            r.wf(),
    {
        RunConfig { cooldown_ms: 1100, batch_size: 250 }
    }
}

} // verus!
