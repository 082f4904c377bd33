//! Names and samples of the intent metrics.
//!
//! The histograms live with the process; what is recorded in them is decided
//! here.

use vstd::prelude::*;

verus! {

/// Intents of one fanned batch.
pub const BATCH_SIZE_METRIC_NAME: &'static str = "kiseki_intent_put_batch_size";

/// Time that an intent waits for its batch.
pub const COALESCE_WAIT_METRIC_NAME: &'static str = "kiseki_intent_coalesce_wait_seconds";

/// Submissions of one store commit.
pub const COMMIT_BATCH_SIZE_METRIC_NAME: &'static str = "kiseki_intent_commit_batch_size";

/// Walks that ended short and asked every peer at once.
pub const TOPUP_RESCUE_METRIC_NAME: &'static str = "kiseki_intent_topup_rescue_total";

/// Such walks that reached their acknowledgements after all.
pub const TOPUP_RESCUE_SAVED_METRIC_NAME: &'static str = "kiseki_intent_topup_rescue_saved_total";

/// The largest size that a histogram records: two to the fifty-second, below
/// which every whole number has an exact sample.
pub const MAX_SAMPLE: u64 = 0x10_0000_0000_0000;

/// The sample of a size, if the histogram has been registered.
pub open spec fn size_sample(registered: bool, n: nat) -> Option<u64> {
    if !registered {
        None
    } else if n < MAX_SAMPLE {
        Some(n as u64)
    } else {
        Some(MAX_SAMPLE)
    }
}

/// What to record for a fanned batch of `n` intents: nothing before the
/// histogram is registered.
pub fn observe_intent_put_batch_size(registered: bool, n: usize) -> (r: Option<u64>)
    ensures
        r == size_sample(registered, n as nat),
{
    let size: u64 = n as u64;
    if !registered {
        None
    } else if size < MAX_SAMPLE {
        Some(size)
    } else {
        Some(MAX_SAMPLE)
    }
}

/// What to record for a store commit of `n` submissions.
pub fn observe_commit_batch_size(registered: bool, n: usize) -> (r: Option<u64>)
    ensures
        r == size_sample(registered, n as nat),
{
    observe_intent_put_batch_size(registered, n)
}

} // verus!
