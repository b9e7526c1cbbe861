use nea::index::{BucketIndex, IoResources, QueueIndex};
use nea::queue::{ComplexQueue, NextStep, QueueSlot, QueueSlotState, Refcount};

const IO: IoResources = IoResources {
    tcp_streams: 1,
    http_connections: 4,
    http2_futures: 0,
};

fn slot(index: u32) -> QueueIndex {
    QueueIndex { identifier: 0, index }
}

fn bucket(index: u32) -> BucketIndex {
    BucketIndex { identifier: 0, index }
}

#[test]
fn a_slot_is_claimed_once() {
    let mut slot = QueueSlot::empty();
    assert!(slot.is_empty());
    assert!(slot.try_process().is_err());

    let before = slot.mark_enqueued();
    assert_eq!(
        before,
        QueueSlotState {
            is_enqueued: false,
            is_in_progress: false
        }
    );
    assert!(slot.try_process().is_ok());
    assert!(slot.try_process().is_err());
    assert!(!slot.is_empty());
}

#[test]
fn a_slot_that_is_enqueued_while_it_runs_goes_again() {
    let mut slot = QueueSlot::empty();
    slot.mark_enqueued();
    slot.try_process().unwrap();
    let before = slot.mark_enqueued();
    assert!(before.is_in_progress && !before.is_enqueued);

    assert_eq!(slot.finish(), NextStep::GoAgain);
    assert_eq!(slot.finish(), NextStep::Done);
    assert!(slot.is_empty());
}

#[test]
fn jobs_come_out_in_order_and_once() {
    let mut slot = QueueSlot::empty();
    assert!(slot.add_job(63));
    assert!(slot.add_job(0));
    assert!(slot.add_job(17));
    assert!(!slot.add_job(17));

    assert_eq!(slot.dequeue(), Some(0));
    assert_eq!(slot.dequeue(), Some(17));
    assert_eq!(slot.dequeue(), Some(63));
    assert_eq!(slot.dequeue(), None);
}

#[test]
fn clearing_the_flags_keeps_the_jobs() {
    let mut slot = QueueSlot::empty();
    slot.add_job(3);
    slot.mark_enqueued();
    slot.mark_empty();
    assert!(slot.is_empty());
    assert_eq!(slot.dequeue(), Some(3));
}

#[test]
fn a_counter_counts() {
    let mut count = Refcount::new();
    assert_eq!(count.wait_active(), None);
    assert_eq!(count.increment_active(), 1);
    assert_eq!(count.increment_active(), 2);
    assert_eq!(count.decrement_active(), 1);
    assert_eq!(count.wait_active(), Some(1));
    assert_eq!(count.load(), 1);
}

#[test]
fn a_woken_bucket_is_claimed_by_one_worker() {
    let mut queue = ComplexQueue::with_capacity(3, IO);
    assert_eq!(queue.bucket_count(), 3);
    assert_eq!(queue.try_dequeue(), None);

    // the input stream of bucket one, then one of its connections
    assert!(queue.initial_enqueue(slot(5)));
    assert!(!queue.wake(slot(7)));
    assert_eq!(queue.load_jobs_available(), 1);
    assert_eq!(queue.wait_jobs_available(), Some(1));

    assert_eq!(queue.try_dequeue(), Some(bucket(1)));
    assert_eq!(queue.try_dequeue(), None);
    assert_eq!(queue.wait_jobs_available(), None);

    assert_eq!(queue.dequeue_job(bucket(1)), Some(0));
    assert_eq!(queue.dequeue_job(bucket(1)), Some(2));
    assert_eq!(queue.dequeue_job(bucket(1)), None);
    assert_eq!(queue.done_with_bucket(bucket(1)), NextStep::Done);
}

#[test]
fn a_wake_up_of_a_running_bucket_is_not_lost() {
    let mut queue = ComplexQueue::with_capacity(2, IO);
    queue.initial_enqueue(slot(0));
    assert_eq!(queue.try_dequeue(), Some(bucket(0)));
    assert_eq!(queue.dequeue_job(bucket(0)), Some(0));

    // nobody else is woken for it: the worker that runs the bucket goes again
    assert!(!queue.wake(slot(0)));
    assert_eq!(queue.load_jobs_available(), 0);
    assert_eq!(queue.done_with_bucket(bucket(0)), NextStep::GoAgain);
    assert_eq!(queue.dequeue_job(bucket(0)), Some(0));
    assert_eq!(queue.done_with_bucket(bucket(0)), NextStep::Done);
}

#[test]
fn waking_a_job_twice_wakes_one_worker() {
    let mut queue = ComplexQueue::with_capacity(2, IO);
    assert!(queue.wake(slot(6)));
    assert!(!queue.wake(slot(6)));
    assert_eq!(queue.load_jobs_available(), 1);
}

#[test]
fn a_range_is_empty_until_one_of_its_slots_is_enqueued() {
    let mut queue = ComplexQueue::with_capacity(4, IO);
    assert!(queue.is_range_empty(slot(0)..slot(4)));
    queue.wake(slot(10));
    assert!(!queue.is_range_empty(slot(0)..slot(4)));
    assert!(queue.is_range_empty(slot(0)..slot(2)));
    assert!(!queue.is_range_empty(slot(2)..slot(3)));
    assert!(queue.is_range_empty(slot(3)..slot(4)));
}

#[test]
fn a_worker_sleeps_until_a_bucket_waits() {
    let mut queue = ComplexQueue::with_capacity(2, IO);
    assert_eq!(queue.blocking_dequeue(), None);
    queue.wake(slot(6));
    assert_eq!(queue.blocking_dequeue(), Some(bucket(1)));
    assert_eq!(queue.blocking_dequeue(), None);
}

#[test]
fn woken_jobs_come_out_in_order() {
    let mut queue = ComplexQueue::with_capacity(3, IO);
    for index in [13, 8, 5, 9, 8] {
        queue.initial_enqueue(slot(index));
    }
    assert_eq!(queue.blocking_dequeue(), Some(bucket(1)));
    assert_eq!(queue.dequeue_job(bucket(1)), Some(0));
    assert_eq!(queue.dequeue_job(bucket(1)), Some(3));
    assert_eq!(queue.dequeue_job(bucket(1)), Some(4));
    assert_eq!(queue.dequeue_job(bucket(1)), None);
    assert_eq!(queue.blocking_dequeue(), Some(bucket(2)));
    assert_eq!(queue.dequeue_job(bucket(2)), Some(3));
}
