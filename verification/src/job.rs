use vstd::prelude::*;

verus! {

/// How a job behaves on the worker that runs it: it either returns
/// normally, or it terminates the worker's thread abnormally. This is the
/// only aspect of an opaque, run-once callable that the pool's own logic
/// can observe, so it is all the model keeps of one.
#[derive(Clone, Copy, Debug, PartialEq, Eq, Structural)]
pub enum JobKind {
    /// The job runs to completion and returns to the worker's loop.
    Completes,
    /// The job brings its worker down before returning.
    Fails,
}

/// One submitted unit of work. The pool hands out the identifier at
/// submission time, so distinct submissions carry distinct identifiers.
#[derive(Clone, Copy, Debug, PartialEq, Eq, Structural)]
pub struct Job {
    /// Identifier assigned by the pool, unique among all submissions.
    pub id: u64,
    /// What running this job does to its worker.
    pub kind: JobKind,
}

/// Returned when a job is submitted through a handle whose sending side
/// has already been dropped: the pool no longer admits work.
#[derive(Clone, Copy, Debug, PartialEq, Eq, Structural)]
pub struct SubmissionError;

} // verus!
