use nea::executor::{Admission, Slot};
use nea::index::{BucketIndex, ConnectionIndex, Http2FutureIndex, IoIndex, IoResources, QueueIndex};
use nea::queue::QueueSlotState;
use nea::runtime::executor::{next_event, Executor, RunAction, RunEvent};
use nea::runtime::queue::{ComplexQueue, DequeueStep, DoneWithItem};
use nea::runtime::refcount::{Refcount, EMPTY, RESERVED};
use nea::runtime::server::Nea;

const IO: IoResources = IoResources {
    tcp_streams: 1,
    http_connections: 1,
    http2_futures: 2,
};

fn slot(index: u32) -> QueueIndex {
    QueueIndex { identifier: 0, index }
}

fn bucket(index: u32) -> BucketIndex {
    BucketIndex { identifier: 0, index }
}

fn executor() -> Executor<&'static str, &'static str, &'static str> {
    Executor::get_or_init(None, 2, IO)
}

fn poll_of(index: u32, io_index: IoIndex) -> RunAction {
    RunAction::Poll {
        queue_index: slot(index),
        io_index,
    }
}

fn polled(index: u32, is_ready: bool) -> RunEvent {
    RunEvent::Polled {
        queue_index: slot(index),
        is_ready,
    }
}

#[test]
fn refcounts_pass_through_a_reservation() {
    let mut refcount = Refcount::new();
    assert_eq!(refcount.load(), EMPTY);
    assert_eq!(refcount.try_reserve(), Ok(()));
    assert_eq!(refcount.load(), RESERVED);
    assert_eq!(refcount.try_reserve(), Err(()));
    refcount.claim();
    assert_eq!(refcount.load(), 0);
    assert_eq!(refcount.incref(), 1);
    assert_eq!(refcount.incref(), 2);
    assert_eq!(refcount.fetch_sub(), 2);
    assert_eq!(refcount.decref(), 0);
    assert_eq!(refcount.load(), EMPTY);
}

#[test]
fn the_search_for_work_goes_around() {
    let mut queue = ComplexQueue::with_capacity(4);
    assert_eq!(queue.capacity(), 4);
    assert!(queue.wait_active());
    for i in [0u32, 2, 3] {
        assert_eq!(queue.enqueue(slot(i)), Ok(true));
    }
    assert_eq!(queue.try_dequeue(), Some(slot(0)));
    assert_eq!(queue.try_dequeue(), Some(slot(2)));
    queue.enqueue(slot(1)).unwrap();
    // the search goes on behind slot two
    assert_eq!(queue.try_dequeue(), Some(slot(3)));
    assert_eq!(queue.try_dequeue(), Some(slot(1)));
    assert_eq!(queue.try_dequeue(), None);
}

#[test]
fn an_item_that_is_enqueued_while_it_runs_goes_again() {
    let mut queue = ComplexQueue::with_capacity(2);
    queue.enqueue(slot(1)).unwrap();
    assert_eq!(queue.blocking_dequeue(), DequeueStep::Run(slot(1)));
    assert_eq!(queue.enqueue(slot(1)), Ok(false));
    assert_eq!(queue.blocking_dequeue(), DequeueStep::Sleep);
    assert_eq!(queue.done_with_item(slot(1)), DoneWithItem::GoAgain);
    assert_eq!(queue.done_with_item(slot(1)), DoneWithItem::Done);
    assert_eq!(
        queue.state(slot(1)),
        QueueSlotState {
            is_enqueued: false,
            is_in_progress: false
        }
    );
}

#[test]
fn what_is_enqueued_twice_is_counted_once() {
    let mut queue = ComplexQueue::with_capacity(1);
    assert_eq!(queue.enqueue(slot(0)), Ok(true));
    assert_eq!(queue.enqueue(slot(0)), Ok(false));
    assert_eq!(queue.load_active(), 1);
    assert_eq!(queue.blocking_dequeue(), DequeueStep::Run(slot(0)));
    assert_eq!(queue.load_active(), 0);
    assert_eq!(queue.blocking_dequeue(), DequeueStep::Sleep);
}

#[test]
fn what_is_cleared_is_not_counted() {
    let mut queue = ComplexQueue::with_capacity(3);
    queue.enqueue(slot(0)).unwrap();
    queue.enqueue(slot(1)).unwrap();
    assert_eq!(queue.blocking_dequeue(), DequeueStep::Run(slot(0)));
    queue.clear(0);
    assert_eq!(queue.load_active(), 1);
    queue.clear(1);
    queue.clear(2);
    assert_eq!(queue.load_active(), 0);
    assert_eq!(queue.blocking_dequeue(), DequeueStep::Sleep);
}

#[test]
fn a_request_that_is_over_leaves_nothing_to_do() {
    let mut executor = executor();
    executor.try_claim();
    executor.execute(bucket(0), "request");
    // an HTTP/2 slot of the bucket is woken for nothing, and still waits when the request ends
    executor.inner.wake(slot(3));
    assert_eq!(
        executor.inner.run(RunEvent::LookForWork),
        poll_of(0, IoIndex::InputStream(bucket(0)))
    );
    assert_eq!(executor.inner.active(), 1);
    assert_eq!(executor.inner.run(polled(0, true)), RunAction::LookForWork);
    assert_eq!(executor.inner.active(), 0);
    assert_eq!(executor.inner.run(RunEvent::LookForWork), RunAction::Sleep);
}

#[test]
fn a_request_runs_to_its_end() {
    let mut executor = executor();
    assert_eq!(executor.try_claim(), Some(bucket(0)));
    assert!(executor.execute(bucket(0), "request"));
    assert_eq!(
        executor.inner.run(RunEvent::LookForWork),
        poll_of(0, IoIndex::InputStream(bucket(0)))
    );
    assert_eq!(executor.inner.task(bucket(0)).unwrap().fut, "request");
    assert_eq!(executor.inner.run(polled(0, false)), RunAction::LookForWork);
    assert_eq!(executor.inner.run(RunEvent::LookForWork), RunAction::Sleep);

    assert!(executor.inner.wake(slot(0)));
    executor.inner.run(RunEvent::LookForWork);
    // woken while it runs
    assert!(!executor.inner.wake(slot(0)));
    assert_eq!(executor.inner.run(polled(0, false)), RunAction::GoOn(slot(0)));
    assert_eq!(
        executor.inner.run(RunEvent::GoOn(slot(0))),
        poll_of(0, IoIndex::InputStream(bucket(0)))
    );
    assert!(executor.inner.is_possible(polled(0, true)));
    assert_eq!(executor.inner.run(polled(0, true)), RunAction::LookForWork);
    assert_eq!(executor.inner.refcount(bucket(0)), EMPTY);
    assert!(executor.inner.task(bucket(0)).is_none());
    assert_eq!(executor.try_claim(), Some(bucket(0)));
}

#[test]
fn an_http2_future_keeps_the_request() {
    let mut executor = executor();
    executor.try_claim();
    executor.try_claim();
    executor.execute(bucket(1), "request");
    executor.inner.run(RunEvent::LookForWork);

    assert_eq!(executor.inner.spawn_http2_future(bucket(1), "first"), Some(true));
    assert_eq!(executor.inner.spawn_http2_future(bucket(1), "second"), Some(true));
    assert_eq!(executor.inner.spawn_http2_future(bucket(1), "third"), None);
    assert_eq!(executor.inner.refcount(bucket(1)), 3);

    // the input stream is done, the request is not
    assert_eq!(executor.inner.run(polled(4, true)), RunAction::LookForWork);
    assert_eq!(executor.inner.refcount(bucket(1)), 2);
    assert!(executor.inner.task(bucket(1)).is_some());

    let first = Http2FutureIndex { identifier: 0, index: 2 };
    assert_eq!(
        executor.inner.run(RunEvent::LookForWork),
        poll_of(6, IoIndex::Http2Future(first))
    );
    assert!(matches!(executor.inner.http2_future(first), Slot::Occupied("first")));
    executor.inner.run(polled(6, true));
    assert!(matches!(executor.inner.http2_future(first), Slot::Empty));
    executor.inner.run(RunEvent::LookForWork);
    executor.inner.run(polled(7, true));
    assert_eq!(executor.inner.refcount(bucket(1)), EMPTY);
    assert!(executor.inner.task(bucket(1)).is_none());
}

#[test]
fn a_connection_is_reserved_and_polled() {
    let mut executor = executor();
    executor.try_claim();
    executor.execute(bucket(0), "request");
    let here = BucketIndex { identifier: 3, index: 0 };
    let (connection, queue_index) = executor.inner.reserve_connection(here).unwrap();
    assert_eq!(connection, ConnectionIndex { identifier: 3, index: 0 });
    assert_eq!(queue_index, QueueIndex { identifier: 3, index: 1 });
    assert_eq!(executor.inner.reserve_connection(here), None);
    assert!(executor.inner.populate_connection(connection, "connection"));

    executor.inner.run(RunEvent::LookForWork);
    executor.inner.run(polled(0, false));
    assert_eq!(
        executor.inner.run(RunEvent::LookForWork),
        poll_of(1, IoIndex::HttpConnection(ConnectionIndex { identifier: 0, index: 0 }))
    );
    executor.inner.run(polled(1, true));
    assert!(matches!(executor.inner.connection(connection), Slot::Empty));
    // the end of a connection does not end the request
    assert_eq!(executor.inner.refcount(bucket(0)), 1);
}

#[test]
fn wake_ups_for_nothing_are_told_apart() {
    let mut executor = executor();
    executor.inner.wake(slot(1));
    assert_eq!(executor.inner.run(RunEvent::LookForWork), RunAction::RaceCondition(slot(1)));
    executor.inner.wake(slot(2));
    assert_eq!(executor.inner.run(RunEvent::LookForWork), RunAction::NoFuture(slot(2)));
    executor.inner.wake(slot(4));
    assert_eq!(executor.inner.run(RunEvent::LookForWork), RunAction::RaceCondition(slot(4)));
    assert_eq!(executor.inner.active(), 0);
}

#[test]
fn a_task_answers_to_its_own_identifier() {
    let mut executor = executor();
    executor.try_claim();
    executor.execute(BucketIndex { identifier: 8, index: 0 }, "request");
    assert_eq!(executor.inner.run(RunEvent::LookForWork), RunAction::RaceCondition(slot(0)));
}

#[test]
fn events_of_slots_that_do_not_run_are_impossible() {
    let mut executor = executor();
    assert!(!executor.inner.is_possible(polled(0, true)));
    assert!(!executor.inner.is_possible(polled(100, false)));
    assert!(!executor.inner.is_possible(RunEvent::GoOn(slot(1))));
    executor.inner.wake(slot(2));
    executor.inner.run(RunEvent::LookForWork);
    assert!(executor.inner.is_possible(polled(2, true)));
}

#[test]
fn requests_are_admitted_until_the_buckets_are_used_up() {
    let mut executor = executor();
    assert_eq!(executor.inner.io_resources(), IO);
    assert_eq!(
        executor.accept(),
        Admission::Admitted {
            bucket_index: bucket(0),
            queue_index: slot(0)
        }
    );
    assert_eq!(
        executor.accept(),
        Admission::Admitted {
            bucket_index: bucket(1),
            queue_index: slot(4)
        }
    );
    assert_eq!(executor.accept(), Admission::Refused);
    executor.type_hint(1);
    assert_eq!(Nea::new(5).handler, 5);
}

#[test]
fn queue_slots_belong_to_buckets() {
    let mut executor = executor();
    assert_eq!(executor.inner.bucket_count(), 2);
    assert!(executor.inner.is_item(slot(7)));
    assert!(!executor.inner.is_item(slot(8)));
    assert_eq!(executor.inner.active(), 0);
    executor.inner.wake(slot(7));
    assert_eq!(executor.inner.active(), 1);
}

#[test]
fn a_missing_future_counts_as_done() {
    assert_eq!(next_event(RunAction::NoFuture(slot(3)), false), Some(polled(3, true)));
    let poll = poll_of(0, IoIndex::InputStream(bucket(0)));
    assert_eq!(next_event(poll, false), Some(polled(0, false)));
    assert_eq!(next_event(poll, true), Some(polled(0, true)));
    assert_eq!(next_event(RunAction::GoOn(slot(1)), false), Some(RunEvent::GoOn(slot(1))));
    assert_eq!(next_event(RunAction::Sleep, false), Some(RunEvent::LookForWork));
    assert_eq!(next_event(RunAction::LookForWork, false), Some(RunEvent::LookForWork));
    assert_eq!(next_event(RunAction::RaceCondition(slot(1)), false), None);
}
