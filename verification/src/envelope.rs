//! The messages that travel between a caller, the dispatcher and a worker.

use vstd::prelude::*;

verus! {

/// One generation request, as a worker receives it.
///
/// `reply_tx` is the handle for the job's one reply. Its type is the
/// runtime's choice; the library only carries it from the caller to the
/// worker and hands it back with the reply, and never copies it.
#[derive(Debug)]
pub struct InferenceJob<R> {
    pub prompt: String,
    pub session_id: String,
    pub sample_len: usize,
    pub reply_tx: R,
}

/// The text a worker hands back for one job. Where the engine failed, the
/// text is a diagnostic that names the worker and the failure.
#[derive(Debug)]
pub struct InferenceResult(pub String);

impl InferenceResult {
    /// The reply as an owned string.
    pub fn to_string(&self) -> (text: String)
        ensures
            text@ == self.0@,
    {
        self.0.clone()
    }
}

/// What the dispatcher asks of its runtime: put `job` on the queue of
/// worker number `worker`.
#[derive(Debug)]
pub struct Dispatch<R> {
    pub worker: usize,
    pub job: InferenceJob<R>,
}

} // verus!
