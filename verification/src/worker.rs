use vstd::prelude::*;

use crate::job::Job;

verus! {

/// The per-worker recovery guard. It is armed from the moment its worker
/// starts and stays armed through every job execution; the worker disarms
/// it only on the clean exit path, after observing that the queue is
/// closed. Teardown with the guard still armed therefore identifies an
/// abnormal exit, and is what triggers the respawn of a replacement
/// worker.
#[derive(Clone, Copy, Debug)]
pub struct Sentinel {
    active: bool,
}

impl Sentinel {
    /// True while teardown of the guard would respawn a worker.
    pub closed spec fn armed(self) -> bool {
        self.active
    }

    /// A fresh guard is armed: until the worker deliberately disarms it,
    /// any teardown counts as abnormal.
    pub fn new() -> (s: Sentinel)
        ensures
            s.armed(),
    {
        Sentinel { active: true }
    }

    /// Disarm the guard. A worker calls this immediately before its
    /// normal exit, so that no replacement is spawned for a clean
    /// shutdown.
    pub fn cancel(&mut self)
        ensures
            !final(self).armed(),
    {
        self.active = false;
    }

    /// Reports whether teardown would respawn; the unverified shell asks
    /// this from the guard's destructor.
    pub fn is_armed(&self) -> (r: bool)
        ensures
            r == self.armed(),
    {
        self.active
    }
}

/// Where a worker stands in its loop.
#[derive(Clone, Copy, Debug)]
pub enum WorkerPhase {
    /// Waiting for exclusive access to the queue's receiving end.
    Idle,
    /// Running the job it dequeued, outside the queue lock.
    Executing(Job),
    /// Exited, either cleanly after the queue closed or abnormally.
    Terminated,
}

/// One worker: its phase and its recovery guard.
#[derive(Clone, Copy, Debug)]
pub struct Worker {
    /// Where the worker stands in its loop.
    pub phase: WorkerPhase,
    /// The worker's recovery guard.
    pub sentinel: Sentinel,
}

impl Worker {
    /// A worker is live until it terminates.
    pub open spec fn live(self) -> bool {
        !(self.phase is Terminated)
    }

    /// The worker is currently running a job.
    pub open spec fn is_executing(self) -> bool {
        self.phase is Executing
    }

    /// The job the worker is running.
    pub open spec fn job(self) -> Job
        recommends
            self.is_executing(),
    {
        self.phase->Executing_0
    }

    /// A live worker's guard is armed: disarming happens only on the way
    /// out.
    pub open spec fn wf(self) -> bool {
        self.live() ==> self.sentinel.armed()
    }

    /// A fresh worker starts idle, with an armed guard.
    pub fn new() -> (w: Worker)
        ensures
            w.wf(),
            w.phase is Idle,
            w.sentinel.armed(),
    {
        Worker { phase: WorkerPhase::Idle, sentinel: Sentinel::new() }
    }
}

/// How many of the workers are live.
pub open spec fn count_live(ws: Seq<Worker>) -> int
    decreases ws.len(),
{
    if ws.len() == 0 {
        0
    } else {
        count_live(ws.drop_last()) + if ws.last().live() {
            1int
        } else {
            0int
        }
    }
}

/// How many of the workers are executing a job.
pub open spec fn count_executing(ws: Seq<Worker>) -> int
    decreases ws.len(),
{
    if ws.len() == 0 {
        0
    } else {
        count_executing(ws.drop_last()) + if ws.last().is_executing() {
            1int
        } else {
            0int
        }
    }
}

pub proof fn lemma_count_live_bounds(ws: Seq<Worker>)
    ensures
        0 <= count_live(ws) <= ws.len(),
    decreases ws.len(),
{
    if ws.len() > 0 {
        lemma_count_live_bounds(ws.drop_last());
    }
}

pub proof fn lemma_count_executing_bounds(ws: Seq<Worker>)
    ensures
        0 <= count_executing(ws) <= ws.len(),
    decreases ws.len(),
{
    if ws.len() > 0 {
        lemma_count_executing_bounds(ws.drop_last());
    }
}

pub proof fn lemma_count_live_push(ws: Seq<Worker>, w: Worker)
    ensures
        count_live(ws.push(w)) == count_live(ws) + if w.live() {
            1int
        } else {
            0int
        },
{
    assert(ws.push(w).drop_last() =~= ws);
}

pub proof fn lemma_count_executing_push(ws: Seq<Worker>, w: Worker)
    ensures
        count_executing(ws.push(w)) == count_executing(ws) + if w.is_executing() {
            1int
        } else {
            0int
        },
{
    assert(ws.push(w).drop_last() =~= ws);
}

pub proof fn lemma_count_live_update(ws: Seq<Worker>, i: int, w: Worker)
    requires
        0 <= i < ws.len(),
    ensures
        count_live(ws.update(i, w)) == count_live(ws) - (if ws[i].live() {
            1int
        } else {
            0int
        }) + (if w.live() {
            1int
        } else {
            0int
        }),
    decreases ws.len(),
{
    if i == ws.len() - 1 {
        assert(ws.update(i, w).drop_last() =~= ws.drop_last());
    } else {
        assert(ws.update(i, w).drop_last() =~= ws.drop_last().update(i, w));
        lemma_count_live_update(ws.drop_last(), i, w);
    }
}

pub proof fn lemma_count_executing_update(ws: Seq<Worker>, i: int, w: Worker)
    requires
        0 <= i < ws.len(),
    ensures
        count_executing(ws.update(i, w)) == count_executing(ws) - (if ws[i].is_executing() {
            1int
        } else {
            0int
        }) + (if w.is_executing() {
            1int
        } else {
            0int
        }),
    decreases ws.len(),
{
    if i == ws.len() - 1 {
        assert(ws.update(i, w).drop_last() =~= ws.drop_last());
    } else {
        assert(ws.update(i, w).drop_last() =~= ws.drop_last().update(i, w));
        lemma_count_executing_update(ws.drop_last(), i, w);
    }
}

pub proof fn lemma_count_live_zero(ws: Seq<Worker>)
    requires
        forall|i: int| 0 <= i < ws.len() ==> !(#[trigger] ws[i]).live(),
    ensures
        count_live(ws) == 0,
    decreases ws.len(),
{
    if ws.len() > 0 {
        lemma_count_live_zero(ws.drop_last());
    }
}

pub proof fn lemma_count_executing_zero(ws: Seq<Worker>)
    requires
        forall|i: int| 0 <= i < ws.len() ==> !(#[trigger] ws[i]).is_executing(),
    ensures
        count_executing(ws) == 0,
    decreases ws.len(),
{
    if ws.len() > 0 {
        lemma_count_executing_zero(ws.drop_last());
    }
}

pub proof fn lemma_count_live_positive_has_live(ws: Seq<Worker>)
    requires
        count_live(ws) > 0,
    ensures
        exists|i: int| 0 <= i < ws.len() && (#[trigger] ws[i]).live(),
    decreases ws.len(),
{
    if ws.last().live() {
        assert(ws[ws.len() - 1].live());
    } else {
        lemma_count_live_positive_has_live(ws.drop_last());
        let i = choose|i: int| 0 <= i < ws.drop_last().len() && (#[trigger] ws.drop_last()[i]).live();
        assert(ws[i].live());
    }
}

} // verus!
