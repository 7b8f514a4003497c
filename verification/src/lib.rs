//! A fixed-size, self-healing worker-pool model.
//!
//! The pool owns an unbounded FIFO queue of jobs and a fixed number of
//! workers. Each worker repeatedly takes the next queued job and runs it;
//! a job either completes normally or tears its worker down abnormally.
//! A per-worker sentinel stays armed for as long as the worker may still
//! run jobs, so an armed sentinel at teardown time identifies an abnormal
//! exit, and the pool answers it by standing up a fresh worker: the number
//! of live workers is invariant across failures. Dropping the handle stops
//! admission of new jobs; workers drain what is queued and exit cleanly.
//!
//! Everything here is the pool's decision logic, stated over plain values
//! and verified. The operating-system shell around it (threads, a real
//! channel, a mutex on the receiving end) performs each action this model
//! prescribes and feeds the observed event back in.

pub mod job;
pub mod pool;
pub mod worker;

pub use job::Job;
pub use job::JobKind;
pub use job::SubmissionError;
pub use pool::SharedQueueThreadPool;
pub use pool::StepEvent;
pub use worker::Sentinel;
pub use worker::Worker;
pub use worker::WorkerPhase;
