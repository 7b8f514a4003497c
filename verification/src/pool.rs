use vstd::prelude::*;

use crate::job::Job;
use crate::job::JobKind;
use crate::job::SubmissionError;
use crate::worker::Sentinel;
use crate::worker::Worker;
use crate::worker::WorkerPhase;
use crate::worker::count_executing;
use crate::worker::count_live;
use crate::worker::lemma_count_executing_bounds;
use crate::worker::lemma_count_executing_push;
use crate::worker::lemma_count_executing_zero;
use crate::worker::lemma_count_executing_update;
use crate::worker::lemma_count_live_bounds;
use crate::worker::lemma_count_live_positive_has_live;
use crate::worker::lemma_count_live_push;
use crate::worker::lemma_count_live_update;
use crate::worker::lemma_count_live_zero;

verus! {

/// What one scheduling step of a worker did. The running system reports
/// the same events: a dequeue, a job's return, a job's abnormal
/// termination (answered by a respawn within the same step), a clean exit
/// on the closed queue, or nothing — the worker blocked or was already
/// gone.
#[derive(Clone, Copy, Debug, PartialEq, Eq, Structural)]
pub enum StepEvent {
    /// The worker took the job with this identifier off the queue.
    Dequeued(u64),
    /// The job with this identifier ran to completion.
    Completed(u64),
    /// The job with this identifier tore the worker down; a replacement
    /// was spawned in its place.
    Crashed(u64),
    /// The worker saw the queue closed, disarmed its guard and exited.
    Exited,
    /// Nothing happened: the worker blocks on an open, empty queue, or
    /// has already terminated.
    Parked,
}

/// The pool: a FIFO queue of submitted jobs shared by a fixed number of
/// workers, together with the two histories that the outside can observe
/// — which jobs completed, and which brought a worker down.
///
/// The sending side of the queue is the handle the constructor returns;
/// `sender_alive` records whether that handle still exists. Workers only
/// observe the queue as closed once the handle is gone and the queue is
/// empty.
pub struct SharedQueueThreadPool {
    threads: u32,
    sender_alive: bool,
    next_id: u64,
    pending: Vec<Job>,
    workers: Vec<Worker>,
    executed: Vec<u64>,
    failed: Vec<u64>,
}

impl SharedQueueThreadPool {
    /// The size the pool was constructed with, and keeps.
    pub closed spec fn thread_count(self) -> u32 {
        self.threads
    }

    /// Whether the handle owning the queue's sending side still exists.
    pub closed spec fn sender_alive(self) -> bool {
        self.sender_alive
    }

    /// How many jobs have ever been submitted; also the next identifier.
    pub closed spec fn submitted(self) -> u64 {
        self.next_id
    }

    /// The queued jobs, oldest first.
    pub closed spec fn pending(self) -> Seq<Job> {
        self.pending@
    }

    /// Every worker the pool ever started, replacements included;
    /// terminated ones keep their record.
    pub closed spec fn workers(self) -> Seq<Worker> {
        self.workers@
    }

    /// Identifiers of the jobs that ran to completion, in completion
    /// order.
    pub closed spec fn executed(self) -> Seq<u64> {
        self.executed@
    }

    /// Identifiers of the jobs that terminated their worker abnormally.
    pub closed spec fn failed(self) -> Seq<u64> {
        self.failed@
    }

    /// Every job identifier the pool is holding anywhere is below
    /// `next_id`, so a fresh identifier collides with nothing.
    spec fn ids_bounded(self) -> bool {
        &&& forall|a: int|
            0 <= a < self.pending@.len() ==> (#[trigger] self.pending@[a]).id < self.next_id
        &&& forall|a: int| 0 <= a < self.executed@.len() ==> #[trigger] self.executed@[a] < self.next_id
        &&& forall|a: int| 0 <= a < self.failed@.len() ==> #[trigger] self.failed@[a] < self.next_id
        &&& forall|i: int|
            0 <= i < self.workers@.len() && (#[trigger] self.workers@[i]).is_executing()
                ==> self.workers@[i].job().id < self.next_id
    }

    /// Each identifier occurs at most once across the queue, the workers'
    /// frames and the two histories: a job is in one place at a time, is
    /// never delivered twice, and never retires twice.
    spec fn ids_distinct(self) -> bool {
        &&& forall|a: int, b: int|
            0 <= a < b < self.pending@.len()
                ==> (#[trigger] self.pending@[a]).id != (#[trigger] self.pending@[b]).id
        &&& forall|a: int, b: int|
            0 <= a < b < self.executed@.len()
                ==> #[trigger] self.executed@[a] != #[trigger] self.executed@[b]
        &&& forall|a: int, b: int|
            0 <= a < b < self.failed@.len()
                ==> #[trigger] self.failed@[a] != #[trigger] self.failed@[b]
        &&& forall|i: int, j: int|
            0 <= i < j < self.workers@.len() && (#[trigger] self.workers@[i]).is_executing()
                && (#[trigger] self.workers@[j]).is_executing()
                ==> self.workers@[i].job().id != self.workers@[j].job().id
        &&& forall|a: int, b: int|
            0 <= a < self.pending@.len() && 0 <= b < self.executed@.len()
                ==> (#[trigger] self.pending@[a]).id != #[trigger] self.executed@[b]
        &&& forall|a: int, b: int|
            0 <= a < self.pending@.len() && 0 <= b < self.failed@.len()
                ==> (#[trigger] self.pending@[a]).id != #[trigger] self.failed@[b]
        &&& forall|a: int, b: int|
            0 <= a < self.executed@.len() && 0 <= b < self.failed@.len()
                ==> #[trigger] self.executed@[a] != #[trigger] self.failed@[b]
        &&& forall|i: int, a: int|
            0 <= i < self.workers@.len() && (#[trigger] self.workers@[i]).is_executing() && 0 <= a
                < self.pending@.len() ==> self.workers@[i].job().id != (
            #[trigger] self.pending@[a]).id
        &&& forall|i: int, a: int|
            0 <= i < self.workers@.len() && (#[trigger] self.workers@[i]).is_executing() && 0 <= a
                < self.executed@.len() ==> self.workers@[i].job().id != #[trigger] self.executed@[a]
        &&& forall|i: int, a: int|
            0 <= i < self.workers@.len() && (#[trigger] self.workers@[i]).is_executing() && 0 <= a
                < self.failed@.len() ==> self.workers@[i].job().id != #[trigger] self.failed@[a]
    }

    /// The pool's invariant. Every constructor establishes it and every
    /// operation preserves it:
    /// - the pool was built for at least one worker;
    /// - each worker's guard is armed while the worker is live;
    /// - while the handle exists, exactly `threads` workers are live —
    ///   abnormal terminations are answered by a respawn in the same
    ///   step, so the count never drifts;
    /// - once the handle is gone the count only drops below `threads`
    ///   after the queue has drained, so queued jobs always have a
    ///   worker left to run them;
    /// - job identifiers are unique across the whole pool and below the
    ///   submission counter.
    pub closed spec fn wf(self) -> bool {
        &&& self.threads >= 1
        &&& forall|i: int| 0 <= i < self.workers@.len() ==> (#[trigger] self.workers@[i]).wf()
        &&& self.sender_alive ==> count_live(self.workers@) == self.threads as int
        &&& !self.sender_alive && count_live(self.workers@) < self.threads as int
            ==> self.pending@.len() == 0
        &&& self.ids_bounded()
        &&& self.ids_distinct()
    }

    /// Stand up one fresh worker: idle, with an armed guard. In the
    /// running system this is a thread spawn; everything the model sees
    /// of it is one more live worker sharing the same queue.
    fn create_worker(&mut self)
        ensures
            final(self).workers() == old(self).workers().push(final(self).workers().last()),
            final(self).workers().last().phase is Idle,
            final(self).workers().last().sentinel.armed(),
            final(self).threads == old(self).threads,
            final(self).sender_alive == old(self).sender_alive,
            final(self).next_id == old(self).next_id,
            final(self).pending == old(self).pending,
            final(self).executed == old(self).executed,
            final(self).failed == old(self).failed,
    {
        let w = Worker::new();
        self.workers.push(w);
    }

    /// Build a pool of `threads` workers. Construction spawns exactly
    /// `threads` workers, each idle with an armed guard, and hands back
    /// the pool with its sending side open and nothing queued, executed
    /// or failed yet.
    pub fn new(threads: u32) -> (pool: SharedQueueThreadPool)
        requires
            threads >= 1,
        ensures
            pool.wf(),
            pool.thread_count() == threads,
            pool.sender_alive(),
            pool.submitted() == 0,
            pool.pending() == Seq::<Job>::empty(),
            pool.executed() == Seq::<u64>::empty(),
            pool.failed() == Seq::<u64>::empty(),
            pool.workers().len() == threads,
            count_live(pool.workers()) == threads as int,
            forall|i: int|
                0 <= i < pool.workers().len() ==> (#[trigger] pool.workers()[i]).phase is Idle
                    && pool.workers()[i].sentinel.armed(),
    {
        let mut pool = SharedQueueThreadPool {
            threads,
            sender_alive: true,
            next_id: 0,
            pending: Vec::new(),
            workers: Vec::new(),
            executed: Vec::new(),
            failed: Vec::new(),
        };
        let mut k: u32 = 0;
        while k < threads
            invariant
                k <= threads,
                pool.workers@.len() == k,
                count_live(pool.workers@) == k as int,
                forall|i: int|
                    0 <= i < pool.workers@.len() ==> (#[trigger] pool.workers@[i]).phase is Idle
                        && pool.workers@[i].sentinel.armed(),
                pool.threads == threads,
                pool.sender_alive,
                pool.next_id == 0,
                pool.pending@ == Seq::<Job>::empty(),
                pool.executed@ == Seq::<u64>::empty(),
                pool.failed@ == Seq::<u64>::empty(),
            decreases threads - k,
        {
            let ghost before = pool.workers@;
            pool.create_worker();
            proof {
                lemma_count_live_push(before, pool.workers@.last());
            }
            k = k + 1;
        }
        pool
    }

    /// Submit one job. While the handle is alive this always succeeds —
    /// the queue is unbounded, so submission never blocks on worker
    /// availability — and the job joins the back of the queue under a
    /// fresh identifier, which is returned. Once the sending side is
    /// gone, submission fails with `SubmissionError` and changes nothing.
    pub fn spawn(&mut self, kind: JobKind) -> (r: Result<u64, SubmissionError>)
        requires
            old(self).wf(),
            old(self).submitted() < u64::MAX,
        ensures
            final(self).wf(),
            final(self).thread_count() == old(self).thread_count(),
            final(self).sender_alive() == old(self).sender_alive(),
            final(self).workers() == old(self).workers(),
            final(self).executed() == old(self).executed(),
            final(self).failed() == old(self).failed(),
            r is Ok <==> old(self).sender_alive(),
            match r {
                Ok(id) => {
                    &&& id == old(self).submitted()
                    &&& final(self).submitted() == old(self).submitted() + 1
                    &&& final(self).pending() == old(self).pending().push((Job { id, kind }))
                },
                Err(_) => *final(self) == *old(self),
            },
    {
        if self.sender_alive {
            let id = self.next_id;
            self.next_id = self.next_id + 1;
            self.pending.push(Job { id, kind });
            Ok(id)
        } else {
            Err(SubmissionError)
        }
    }

    /// Drop the pool's handle: the queue's sending side is gone, no new
    /// job will be admitted, and workers will observe closure once the
    /// queue is empty. Nothing already queued or running is affected.
    pub fn drop_handle(&mut self)
        requires
            old(self).wf(),
        ensures
            final(self).wf(),
            !final(self).sender_alive(),
            final(self).thread_count() == old(self).thread_count(),
            final(self).submitted() == old(self).submitted(),
            final(self).pending() == old(self).pending(),
            final(self).workers() == old(self).workers(),
            final(self).executed() == old(self).executed(),
            final(self).failed() == old(self).failed(),
    {
        self.sender_alive = false;
    }

    /// Let worker `i` take its next step, and report what it did.
    ///
    /// - An idle worker on a non-empty queue takes the front job —
    ///   exactly one worker holds the receiving end at a time, so this is
    ///   the only way a job leaves the queue, and each job is delivered
    ///   to exactly one worker.
    /// - An idle worker on an empty, closed queue disarms its guard and
    ///   exits cleanly: the live count drops by one and no replacement is
    ///   made.
    /// - A worker running a completing job returns to idle and the job's
    ///   identifier joins the executed history.
    /// - A worker running a failing job is torn down with its guard still
    ///   armed; the guard answers by spawning a replacement within the
    ///   same step, so the live count is unchanged across the failure.
    /// - Otherwise nothing happens: the worker blocks on an open, empty
    ///   queue, or has already terminated.
    pub fn step_worker(&mut self, i: usize) -> (ev: StepEvent)
        requires
            old(self).wf(),
            i < old(self).workers().len(),
        ensures
            final(self).wf(),
            final(self).thread_count() == old(self).thread_count(),
            final(self).sender_alive() == old(self).sender_alive(),
            final(self).submitted() == old(self).submitted(),
            step_describes(*old(self), *final(self), i as int, ev),
    {
        let w = self.workers[i];
        match w.phase {
            WorkerPhase::Idle => {
                if self.pending.len() > 0 {
                    let job = self.pending.remove(0);
                    self.workers.set(
                        i,
                        Worker { phase: WorkerPhase::Executing(job), sentinel: w.sentinel },
                    );
                    proof {
                        assert(self.pending@ =~= old(self).pending@.drop_first());
                        lemma_count_live_update(old(self).workers@, i as int, self.workers@[i as int]);
                        lemma_count_executing_update(
                            old(self).workers@,
                            i as int,
                            self.workers@[i as int],
                        );
                    }
                    StepEvent::Dequeued(job.id)
                } else if !self.sender_alive {
                    let mut s = w.sentinel;
                    s.cancel();
                    self.workers.set(i, Worker { phase: WorkerPhase::Terminated, sentinel: s });
                    proof {
                        lemma_count_live_update(old(self).workers@, i as int, self.workers@[i as int]);
                        lemma_count_executing_update(
                            old(self).workers@,
                            i as int,
                            self.workers@[i as int],
                        );
                    }
                    StepEvent::Exited
                } else {
                    StepEvent::Parked
                }
            },
            WorkerPhase::Executing(job) => {
                match job.kind {
                    JobKind::Completes => {
                        self.executed.push(job.id);
                        self.workers.set(
                            i,
                            Worker { phase: WorkerPhase::Idle, sentinel: w.sentinel },
                        );
                        proof {
                            lemma_count_live_update(
                                old(self).workers@,
                                i as int,
                                self.workers@[i as int],
                            );
                            lemma_count_executing_update(
                                old(self).workers@,
                                i as int,
                                self.workers@[i as int],
                            );
                        }
                        StepEvent::Completed(job.id)
                    },
                    JobKind::Fails => {
                        self.failed.push(job.id);
                        self.workers.set(
                            i,
                            Worker { phase: WorkerPhase::Terminated, sentinel: w.sentinel },
                        );
                        let ghost mid = self.workers@;
                        self.create_worker();
                        proof {
                            lemma_count_live_update(old(self).workers@, i as int, mid[i as int]);
                            lemma_count_executing_update(old(self).workers@, i as int, mid[i as int]);
                            lemma_count_live_push(mid, self.workers@.last());
                            lemma_count_executing_push(mid, self.workers@.last());
                        }
                        StepEvent::Crashed(job.id)
                    },
                }
            },
            WorkerPhase::Terminated => StepEvent::Parked,
        }
    }

    /// The job is still on its way: queued, or running on some worker.
    pub open spec fn job_waiting_or_running(self, j: Job) -> bool {
        self.pending().contains(j) || exists|i: int|
            0 <= i < self.workers().len() && (#[trigger] self.workers()[i]).is_executing()
                && self.workers()[i].job() == j
    }

    /// The job has retired the way its kind dictates: into the executed
    /// history if it completes, into the failed history if it brings its
    /// worker down.
    pub open spec fn job_retired(self, j: Job) -> bool {
        match j.kind {
            JobKind::Completes => self.executed().contains(j.id),
            JobKind::Fails => self.failed().contains(j.id),
        }
    }

    /// The pool still accounts for the job, one way or the other.
    pub open spec fn job_tracked(self, j: Job) -> bool {
        self.job_waiting_or_running(j) || self.job_retired(j)
    }

    /// Worker `i` would do something if stepped: it is running a job, or
    /// it is idle with either a job to take or a closed queue to observe.
    pub open spec fn runnable_at(self, i: int) -> bool {
        ||| self.workers()[i].is_executing()
        ||| (self.workers()[i].phase is Idle && (self.pending().len() > 0
            || !self.sender_alive()))
    }

    /// Find a worker with a step to take, if any is left.
    fn find_runnable(&self) -> (r: Option<usize>)
        ensures
            match r {
                Some(i) => i < self.workers().len() && self.runnable_at(i as int),
                None => forall|i: int|
                    0 <= i < self.workers().len() ==> !(#[trigger] self.runnable_at(i)),
            },
    {
        let n = self.workers.len();
        let mut k: usize = 0;
        while k < n
            invariant
                n == self.workers().len(),
                k <= n,
                forall|i: int| 0 <= i < k ==> !(#[trigger] self.runnable_at(i)),
            decreases n - k,
        {
            let w = self.workers[k];
            let go = match w.phase {
                WorkerPhase::Executing(_) => true,
                WorkerPhase::Idle => self.pending.len() > 0 || !self.sender_alive,
                WorkerPhase::Terminated => false,
            };
            if go {
                return Some(k);
            }
            k = k + 1;
        }
        None
    }

    /// Run the pool until it is quiescent: the queue is empty and no
    /// worker is mid-job. Every job that was queued or in flight when the
    /// call was made has retired by then — completing jobs into the
    /// executed history, failing jobs into the failed history — and none
    /// was lost or delivered twice on the way. While the handle is alive
    /// the workers then block on the open queue, still at full strength;
    /// once the handle is gone they observe closure and all exit, and the
    /// live count returns to zero.
    pub fn drain(&mut self)
        requires
            old(self).wf(),
        ensures
            final(self).wf(),
            final(self).thread_count() == old(self).thread_count(),
            final(self).sender_alive() == old(self).sender_alive(),
            final(self).submitted() == old(self).submitted(),
            final(self).pending().len() == 0,
            forall|i: int|
                0 <= i < final(self).workers().len()
                    ==> !(#[trigger] final(self).workers()[i]).is_executing(),
            final(self).sender_alive()
                ==> count_live(final(self).workers()) == final(self).thread_count() as int,
            !final(self).sender_alive() ==> count_live(final(self).workers()) == 0,
            old(self).executed().is_prefix_of(final(self).executed()),
            old(self).failed().is_prefix_of(final(self).failed()),
            forall|j: Job|
                #[trigger] old(self).job_waiting_or_running(j) ==> final(self).job_retired(j),
            final(self).executed().len() + final(self).failed().len() == old(self).executed().len()
                + old(self).failed().len() + old(self).pending().len() + count_executing(
                old(self).workers(),
            ),
    {
        let ghost init = *self;
        loop
            invariant
                self.wf(),
                self.thread_count() == init.thread_count(),
                self.sender_alive() == init.sender_alive(),
                self.submitted() == init.submitted(),
                init.executed().is_prefix_of(self.executed()),
                init.failed().is_prefix_of(self.failed()),
                forall|j: Job| #[trigger] init.job_waiting_or_running(j) ==> self.job_tracked(j),
                self.executed().len() + self.failed().len() + self.pending().len()
                    + count_executing(self.workers()) == init.executed().len()
                    + init.failed().len() + init.pending().len() + count_executing(init.workers()),
            ensures
                self.wf(),
                self.thread_count() == init.thread_count(),
                self.sender_alive() == init.sender_alive(),
                self.submitted() == init.submitted(),
                init.executed().is_prefix_of(self.executed()),
                init.failed().is_prefix_of(self.failed()),
                self.pending().len() == 0,
                forall|i: int|
                    0 <= i < self.workers().len() ==> !(#[trigger] self.workers()[i]).is_executing(),
                !self.sender_alive() ==> count_live(self.workers()) == 0,
                forall|j: Job| #[trigger] init.job_waiting_or_running(j) ==> self.job_retired(j),
                self.executed().len() + self.failed().len() == init.executed().len()
                    + init.failed().len() + init.pending().len() + count_executing(init.workers()),
            decreases 3 * self.pending().len() + 2 * count_executing(self.workers()) + count_live(
                self.workers(),
            ),
        {
            proof {
                lemma_count_live_bounds(self.workers@);
                lemma_count_executing_bounds(self.workers@);
            }
            let next = self.find_runnable();
            match next {
                None => {
                    proof {
                        if self.pending@.len() > 0 {
                            if count_live(self.workers@) > 0 {
                                lemma_count_live_positive_has_live(self.workers@);
                                let i = choose|i: int|
                                    0 <= i < self.workers@.len() && (
                                    #[trigger] self.workers@[i]).live();
                                assert(self.runnable_at(i));
                            }
                        }
                        if !self.sender_alive {
                            assert(forall|i: int|
                                0 <= i < self.workers@.len() ==> !(#[trigger] self.workers@[i]).live())
                                by {
                                assert(forall|i: int|
                                    0 <= i < self.workers@.len() && (
                                    #[trigger] self.workers@[i]).live() ==> self.runnable_at(i));
                            }
                            lemma_count_live_zero(self.workers@);
                        }
                        assert(forall|i: int|
                            0 <= i < self.workers@.len() ==> !(#[trigger] self.workers@[
                            i]).is_executing()) by {
                            assert(forall|i: int|
                                0 <= i < self.workers@.len() && (#[trigger] self.workers@[
                                i]).is_executing() ==> self.runnable_at(i));
                        }
                        lemma_count_executing_zero(self.workers@);
                        assert forall|j: Job| #[trigger] init.job_waiting_or_running(j)
                            implies self.job_retired(j) by {
                            if self.job_waiting_or_running(j) {
                                if self.pending().contains(j) {
                                    let a = choose|a: int|
                                        0 <= a < self.pending().len() && self.pending()[a] == j;
                                    assert(false);
                                }
                            }
                        }
                    }
                    break ;
                },
                Some(i) => {
                    let ghost prev = *self;
                    let ghost m0: int = 3 * prev.pending().len() + 2 * count_executing(
                        prev.workers(),
                    ) + count_live(prev.workers());
                    let ev = self.step_worker(i);
                    proof {
                        self.lemma_step_keeps_tracking(prev, init, i as int, ev);
                        assert(prev.runnable_at(i as int));
                        match ev {
                            StepEvent::Parked => {
                                assert(false);
                            },
                            _ => {},
                        }
                        lemma_count_live_bounds(self.workers@);
                        lemma_count_executing_bounds(self.workers@);
                        assert(0 <= 3 * self.pending().len() + 2 * count_executing(self.workers())
                            + count_live(self.workers()) < m0);
                    }
                },
            }
        }
    }

    /// A successful submission leaves the job on its way: `spawn` puts it
    /// at the back of the queue, so the pool accounts it as waiting, and
    /// a drain from here retires it — its side effect is eventually
    /// observed, and by `lemma_exactly_once` observed only once.
    pub proof fn lemma_submitted_job_waiting(self, pre: SharedQueueThreadPool, j: Job)
        requires
            self.pending() == pre.pending().push(j),
        ensures
            self.job_waiting_or_running(j),
    {
        assert(self.pending()[pre.pending().len() as int] == j);
        assert(self.pending().contains(j));
    }

    /// No job is delivered or retired twice. The executed and failed
    /// histories carry no duplicate identifier and share none; no two
    /// workers are ever running the same job at the same time; and a job
    /// some worker is running is neither still queued nor already
    /// retired. This is an invariant of the pool: every operation
    /// preserves it.
    pub proof fn lemma_exactly_once(self)
        requires
            self.wf(),
        ensures
            forall|a: int, b: int|
                0 <= a < b < self.executed().len()
                    ==> #[trigger] self.executed()[a] != #[trigger] self.executed()[b],
            forall|a: int, b: int|
                0 <= a < b < self.failed().len()
                    ==> #[trigger] self.failed()[a] != #[trigger] self.failed()[b],
            forall|a: int, b: int|
                0 <= a < self.executed().len() && 0 <= b < self.failed().len()
                    ==> #[trigger] self.executed()[a] != #[trigger] self.failed()[b],
            forall|i: int, j: int|
                0 <= i < j < self.workers().len() && (#[trigger] self.workers()[i]).is_executing()
                    && (#[trigger] self.workers()[j]).is_executing()
                    ==> self.workers()[i].job().id != self.workers()[j].job().id,
            forall|i: int, a: int|
                0 <= i < self.workers().len() && (#[trigger] self.workers()[i]).is_executing()
                    && 0 <= a < self.pending().len() ==> self.workers()[i].job().id != (
                #[trigger] self.pending()[a]).id,
            forall|i: int, a: int|
                0 <= i < self.workers().len() && (#[trigger] self.workers()[i]).is_executing()
                    && 0 <= a < self.executed().len() ==> self.workers()[i].job().id != (
                #[trigger] self.executed()[a]),
            forall|i: int, a: int|
                0 <= i < self.workers().len() && (#[trigger] self.workers()[i]).is_executing()
                    && 0 <= a < self.failed().len() ==> self.workers()[i].job().id != (
                #[trigger] self.failed()[a]),
            forall|a: int, b: int|
                0 <= a < b < self.pending().len()
                    ==> (#[trigger] self.pending()[a]).id != (#[trigger] self.pending()[b]).id,
    {
    }

    /// How many workers are currently live.
    pub fn live_workers(&self) -> (n: usize)
        ensures
            n as int == count_live(self.workers()),
    {
        let mut k: usize = 0;
        let mut n: usize = 0;
        while k < self.workers.len()
            invariant
                k <= self.workers@.len(),
                n <= k,
                n as int == count_live(self.workers@.subrange(0, k as int)),
            decreases self.workers@.len() - k,
        {
            let w = self.workers[k];
            let live = match w.phase {
                WorkerPhase::Terminated => false,
                _ => true,
            };
            proof {
                assert(self.workers@.subrange(0, k as int + 1).drop_last() =~= self.workers@
                    .subrange(0, k as int));
                assert(self.workers@.subrange(0, k as int + 1).last() == self.workers@[k as int]);
            }
            if live {
                n = n + 1;
            }
            k = k + 1;
        }
        proof {
            assert(self.workers@.subrange(0, self.workers@.len() as int) =~= self.workers@);
        }
        n
    }

    /// How many workers the pool ever started, replacements included.
    pub fn worker_count(&self) -> (n: usize)
        ensures
            n == self.workers().len(),
    {
        self.workers.len()
    }

    /// How many jobs are still queued.
    pub fn pending_count(&self) -> (n: usize)
        ensures
            n == self.pending().len(),
    {
        self.pending.len()
    }

    /// How many jobs have run to completion.
    pub fn executed_count(&self) -> (n: usize)
        ensures
            n == self.executed().len(),
    {
        self.executed.len()
    }

    /// How many jobs terminated their worker abnormally.
    pub fn failed_count(&self) -> (n: usize)
        ensures
            n == self.failed().len(),
    {
        self.failed.len()
    }

    /// Whether the handle owning the sending side still exists.
    pub fn handle_alive(&self) -> (r: bool)
        ensures
            r == self.sender_alive(),
    {
        self.sender_alive
    }

    /// Whether the job with this identifier has run to completion.
    pub fn was_executed(&self, id: u64) -> (r: bool)
        ensures
            r == self.executed().contains(id),
    {
        let mut k: usize = 0;
        while k < self.executed.len()
            invariant
                k <= self.executed@.len(),
                forall|a: int| 0 <= a < k ==> #[trigger] self.executed@[a] != id,
            decreases self.executed@.len() - k,
        {
            if self.executed[k] == id {
                return true;
            }
            k = k + 1;
        }
        false
    }

    /// One scheduling step never loses a job: whatever the pool accounted
    /// for before the step, it still accounts for after it.
    proof fn lemma_step_keeps_tracking(
        self,
        prev: SharedQueueThreadPool,
        init: SharedQueueThreadPool,
        i: int,
        ev: StepEvent,
    )
        requires
            prev.wf(),
            0 <= i < prev.workers().len(),
            forall|j: Job| #[trigger] init.job_waiting_or_running(j) ==> prev.job_tracked(j),
            step_describes(prev, self, i, ev),
        ensures
            forall|j: Job| #[trigger] init.job_waiting_or_running(j) ==> self.job_tracked(j),
            init.executed().is_prefix_of(prev.executed()) ==> init.executed().is_prefix_of(
                self.executed(),
            ),
            init.failed().is_prefix_of(prev.failed()) ==> init.failed().is_prefix_of(
                self.failed(),
            ),
    {
        assert forall|j: Job| #[trigger] init.job_waiting_or_running(j) implies self.job_tracked(
            j,
        ) by {
            assert(prev.job_tracked(j));
            lemma_step_tracks_one(prev, self, i, ev, j);
        }
        match ev {
            StepEvent::Completed(id) => {
                if init.executed().is_prefix_of(prev.executed()) {
                    assert(init.executed() =~= self.executed().subrange(
                        0,
                        init.executed().len() as int,
                    ));
                }
            },
            StepEvent::Crashed(id) => {
                if init.failed().is_prefix_of(prev.failed()) {
                    assert(init.failed() =~= self.failed().subrange(
                        0,
                        init.failed().len() as int,
                    ));
                }
            },
            _ => {},
        }
    }
}

/// What one scheduling step does, by the event it reports: how the pool
/// `cur` after worker `i` stepped relates to the pool `prev` before.
pub open spec fn step_describes(
    prev: SharedQueueThreadPool,
    cur: SharedQueueThreadPool,
    i: int,
    ev: StepEvent,
) -> bool {
    match ev {
        StepEvent::Dequeued(id) => {
            &&& prev.workers()[i].phase is Idle
            &&& prev.pending().len() > 0
            &&& id == prev.pending()[0].id
            &&& cur.pending() == prev.pending().drop_first()
            &&& cur.workers() == prev.workers().update(
                i,
                (Worker {
                    phase: WorkerPhase::Executing(prev.pending()[0]),
                    sentinel: prev.workers()[i].sentinel,
                }),
            )
            &&& cur.executed() == prev.executed()
            &&& cur.failed() == prev.failed()
            &&& count_live(cur.workers()) == count_live(prev.workers())
            &&& count_executing(cur.workers()) == count_executing(prev.workers()) + 1
        },
        StepEvent::Completed(id) => {
            &&& prev.workers()[i].is_executing()
            &&& prev.workers()[i].job().kind is Completes
            &&& id == prev.workers()[i].job().id
            &&& cur.pending() == prev.pending()
            &&& cur.workers() == prev.workers().update(
                i,
                (Worker { phase: WorkerPhase::Idle, sentinel: prev.workers()[i].sentinel }),
            )
            &&& cur.executed() == prev.executed().push(id)
            &&& cur.failed() == prev.failed()
            &&& count_live(cur.workers()) == count_live(prev.workers())
            &&& count_executing(cur.workers()) == count_executing(prev.workers()) - 1
        },
        StepEvent::Crashed(id) => {
            &&& prev.workers()[i].is_executing()
            &&& prev.workers()[i].job().kind is Fails
            &&& id == prev.workers()[i].job().id
            &&& cur.pending() == prev.pending()
            &&& cur.executed() == prev.executed()
            &&& cur.failed() == prev.failed().push(id)
            &&& cur.workers().len() == prev.workers().len() + 1
            &&& cur.workers()[i].phase is Terminated
            &&& cur.workers()[i].sentinel.armed()
            &&& cur.workers().last().phase is Idle
            &&& cur.workers().last().sentinel.armed()
            &&& forall|j: int|
                0 <= j < prev.workers().len() && j != i ==> cur.workers()[j] == prev.workers()[j]
            &&& count_live(cur.workers()) == count_live(prev.workers())
            &&& count_executing(cur.workers()) == count_executing(prev.workers()) - 1
        },
        StepEvent::Exited => {
            &&& prev.workers()[i].phase is Idle
            &&& prev.pending().len() == 0
            &&& !prev.sender_alive()
            &&& cur.pending() == prev.pending()
            &&& cur.executed() == prev.executed()
            &&& cur.failed() == prev.failed()
            &&& cur.workers().len() == prev.workers().len()
            &&& cur.workers()[i].phase is Terminated
            &&& !cur.workers()[i].sentinel.armed()
            &&& forall|j: int|
                0 <= j < prev.workers().len() && j != i ==> cur.workers()[j] == prev.workers()[j]
            &&& count_live(cur.workers()) == count_live(prev.workers()) - 1
            &&& count_executing(cur.workers()) == count_executing(prev.workers())
        },
        StepEvent::Parked => {
            &&& cur == prev
            &&& (prev.workers()[i].phase is Terminated || (prev.workers()[i].phase is Idle
                && prev.pending().len() == 0 && prev.sender_alive()))
        },
    }
}

/// A single job's account survives a single step: if the pool tracked the
/// job before, it tracks it after.
proof fn lemma_step_tracks_one(
    prev: SharedQueueThreadPool,
    cur: SharedQueueThreadPool,
    i: int,
    ev: StepEvent,
    j: Job,
)
    requires
        prev.wf(),
        0 <= i < prev.workers().len(),
        step_describes(prev, cur, i, ev),
        prev.job_tracked(j),
    ensures
        cur.job_tracked(j),
{
    match ev {
        StepEvent::Dequeued(id) => {
            if prev.pending().contains(j) {
                let a = choose|a: int| 0 <= a < prev.pending().len() && prev.pending()[a] == j;
                if a == 0 {
                    assert(cur.workers()[i].is_executing() && cur.workers()[i].job() == j);
                } else {
                    assert(cur.pending()[a - 1] == j);
                    assert(cur.pending().contains(j));
                }
            } else if prev.job_waiting_or_running(j) {
                let k = choose|k: int|
                    0 <= k < prev.workers().len() && (#[trigger] prev.workers()[k]).is_executing()
                        && prev.workers()[k].job() == j;
                assert(cur.workers()[k].is_executing() && cur.workers()[k].job() == j);
            } else {
                assert(cur.job_retired(j));
            }
        },
        StepEvent::Completed(id) => {
            if prev.job_waiting_or_running(j) {
                if prev.pending().contains(j) {
                    assert(cur.pending().contains(j));
                } else {
                    let k = choose|k: int|
                        0 <= k < prev.workers().len() && (
                        #[trigger] prev.workers()[k]).is_executing() && prev.workers()[k].job()
                            == j;
                    if k == i {
                        assert(cur.executed()[prev.executed().len() as int] == j.id);
                        assert(cur.executed().contains(j.id));
                    } else {
                        assert(cur.workers()[k].is_executing() && cur.workers()[k].job() == j);
                    }
                }
            } else {
                if j.kind is Completes {
                    let a = choose|a: int|
                        0 <= a < prev.executed().len() && prev.executed()[a] == j.id;
                    assert(cur.executed()[a] == j.id);
                    assert(cur.executed().contains(j.id));
                }
            }
        },
        StepEvent::Crashed(id) => {
            if prev.job_waiting_or_running(j) {
                if prev.pending().contains(j) {
                    assert(cur.pending().contains(j));
                } else {
                    let k = choose|k: int|
                        0 <= k < prev.workers().len() && (
                        #[trigger] prev.workers()[k]).is_executing() && prev.workers()[k].job()
                            == j;
                    if k == i {
                        assert(cur.failed()[prev.failed().len() as int] == j.id);
                        assert(cur.failed().contains(j.id));
                    } else {
                        assert(cur.workers()[k].is_executing() && cur.workers()[k].job() == j);
                    }
                }
            } else {
                if j.kind is Fails {
                    let a = choose|a: int| 0 <= a < prev.failed().len() && prev.failed()[a] == j.id;
                    assert(cur.failed()[a] == j.id);
                    assert(cur.failed().contains(j.id));
                }
            }
        },
        StepEvent::Exited => {
            if prev.job_waiting_or_running(j) {
                if prev.pending().contains(j) {
                    assert(cur.pending().contains(j));
                } else {
                    let k = choose|k: int|
                        0 <= k < prev.workers().len() && (
                        #[trigger] prev.workers()[k]).is_executing() && prev.workers()[k].job()
                            == j;
                    assert(cur.workers()[k].is_executing() && cur.workers()[k].job() == j);
                }
            }
        },
        StepEvent::Parked => {},
    }
}

} // verus!
