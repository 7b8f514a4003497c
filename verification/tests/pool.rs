use shared_queue_pool::JobKind;
use shared_queue_pool::Sentinel;
use shared_queue_pool::SharedQueueThreadPool;
use shared_queue_pool::StepEvent;
use shared_queue_pool::SubmissionError;

#[test]
fn construction_spawns_requested_workers() {
    for n in 1u32..6 {
        let pool = SharedQueueThreadPool::new(n);
        assert_eq!(pool.live_workers(), n as usize);
        assert_eq!(pool.worker_count(), n as usize);
        assert_eq!(pool.pending_count(), 0);
        assert_eq!(pool.executed_count(), 0);
        assert_eq!(pool.failed_count(), 0);
        assert!(pool.handle_alive());
    }
}

#[test]
fn hundred_jobs_all_executed_exactly_once() {
    let mut pool = SharedQueueThreadPool::new(4);
    let mut ids = Vec::new();
    for _ in 0..100 {
        ids.push(pool.spawn(JobKind::Completes).unwrap());
    }
    pool.drain();
    assert_eq!(pool.executed_count(), 100);
    assert_eq!(pool.failed_count(), 0);
    assert_eq!(pool.pending_count(), 0);
    for id in ids {
        assert!(pool.was_executed(id));
    }
    // The handle is still alive, so the pool is still at full strength.
    assert_eq!(pool.live_workers(), 4);
}

#[test]
fn distinct_submissions_get_distinct_ids() {
    let mut pool = SharedQueueThreadPool::new(2);
    let mut ids = Vec::new();
    for _ in 0..20 {
        ids.push(pool.spawn(JobKind::Completes).unwrap());
    }
    for a in 0..ids.len() {
        for b in 0..a {
            assert_ne!(ids[a], ids[b]);
        }
    }
}

#[test]
fn failing_job_respawns_worker_and_pool_keeps_working() {
    let mut pool = SharedQueueThreadPool::new(2);
    pool.spawn(JobKind::Fails).unwrap();
    let mut ids = Vec::new();
    for _ in 0..10 {
        ids.push(pool.spawn(JobKind::Completes).unwrap());
    }
    pool.drain();
    assert_eq!(pool.live_workers(), 2);
    assert_eq!(pool.executed_count(), 10);
    assert_eq!(pool.failed_count(), 1);
    for id in ids {
        assert!(pool.was_executed(id));
    }
}

#[test]
fn crash_step_replaces_the_worker_within_the_step() {
    let mut pool = SharedQueueThreadPool::new(1);
    let bad = pool.spawn(JobKind::Fails).unwrap();
    assert_eq!(pool.step_worker(0), StepEvent::Dequeued(bad));
    assert_eq!(pool.step_worker(0), StepEvent::Crashed(bad));
    // The dead worker keeps its record; a fresh one stands in its place.
    assert_eq!(pool.worker_count(), 2);
    assert_eq!(pool.live_workers(), 1);
    // The replacement does the work from then on.
    let good = pool.spawn(JobKind::Completes).unwrap();
    assert_eq!(pool.step_worker(1), StepEvent::Dequeued(good));
    assert_eq!(pool.step_worker(1), StepEvent::Completed(good));
    assert!(pool.was_executed(good));
    assert!(!pool.was_executed(bad));
}

#[test]
fn each_job_goes_to_exactly_one_worker() {
    let mut pool = SharedQueueThreadPool::new(2);
    let first = pool.spawn(JobKind::Completes).unwrap();
    let second = pool.spawn(JobKind::Completes).unwrap();
    // Delivery is FIFO and one worker at a time holds the receiving end:
    // the second worker to ask gets the second job, never the first again.
    assert_eq!(pool.step_worker(0), StepEvent::Dequeued(first));
    assert_eq!(pool.step_worker(1), StepEvent::Dequeued(second));
    // With the queue empty and the handle alive, idle workers only block.
    assert_eq!(pool.step_worker(0), StepEvent::Completed(first));
    assert_eq!(pool.step_worker(0), StepEvent::Parked);
    assert_eq!(pool.step_worker(1), StepEvent::Completed(second));
    assert_eq!(pool.executed_count(), 2);
    assert!(pool.was_executed(first));
    assert!(pool.was_executed(second));
}

#[test]
fn queued_jobs_survive_handle_drop() {
    let mut pool = SharedQueueThreadPool::new(3);
    let mut ids = Vec::new();
    for _ in 0..5 {
        ids.push(pool.spawn(JobKind::Completes).unwrap());
    }
    pool.drop_handle();
    pool.drain();
    // Nothing already queued was lost on the drain path...
    assert_eq!(pool.executed_count(), 5);
    for id in ids {
        assert!(pool.was_executed(id));
    }
    // ...and once the queue emptied, every worker exited.
    assert_eq!(pool.live_workers(), 0);
    assert_eq!(pool.pending_count(), 0);
}

#[test]
fn inflight_job_completes_after_handle_drop() {
    let mut pool = SharedQueueThreadPool::new(1);
    let id = pool.spawn(JobKind::Completes).unwrap();
    // The job is already on a worker when the handle goes away.
    assert_eq!(pool.step_worker(0), StepEvent::Dequeued(id));
    pool.drop_handle();
    pool.drain();
    assert!(pool.was_executed(id));
    assert_eq!(pool.live_workers(), 0);
}

#[test]
fn submit_after_handle_drop_fails() {
    let mut pool = SharedQueueThreadPool::new(1);
    pool.drop_handle();
    assert_eq!(pool.spawn(JobKind::Completes), Err(SubmissionError));
    assert_eq!(pool.pending_count(), 0);
    assert_eq!(pool.executed_count(), 0);
    // The failure is reported, nothing blocks, and the pool is unchanged:
    // a later attempt answers the same way.
    assert_eq!(pool.spawn(JobKind::Fails), Err(SubmissionError));
}

#[test]
fn workers_exit_cleanly_on_closed_queue() {
    let mut pool = SharedQueueThreadPool::new(2);
    pool.drop_handle();
    assert_eq!(pool.step_worker(0), StepEvent::Exited);
    assert_eq!(pool.live_workers(), 1);
    assert_eq!(pool.step_worker(1), StepEvent::Exited);
    assert_eq!(pool.live_workers(), 0);
    // A terminated worker never acts again.
    assert_eq!(pool.step_worker(0), StepEvent::Parked);
    // No respawn happened: clean exits disarm the guard first.
    assert_eq!(pool.worker_count(), 2);
}

#[test]
fn drain_with_live_handle_keeps_workers_blocked() {
    let mut pool = SharedQueueThreadPool::new(3);
    pool.drain();
    assert_eq!(pool.live_workers(), 3);
    assert_eq!(pool.executed_count(), 0);
    assert!(pool.handle_alive());
}

#[test]
fn sentinel_starts_armed_and_cancel_disarms() {
    let s = Sentinel::new();
    assert!(s.is_armed());
    let mut s = Sentinel::new();
    s.cancel();
    assert!(!s.is_armed());
}
