use nea::error_response::error_response;
use nea::executor::{
    is_handler_panic, Admission, BucketAction, BucketEvent, CleanupReason, DoneWithBucket,
    Executor, HandlerError, JobResult, Slot, WorkerStep,
};
use nea::index::{BucketIndex, ConnectionIndex, IoIndex, IoResources, QueueIndex};
use nea::shared::allocator::{Layout, ServerAlloc};

const IO: IoResources = IoResources {
    tcp_streams: 1,
    http_connections: 2,
    http2_futures: 0,
};

fn executor(bucket_count: usize) -> Executor<&'static str, &'static str> {
    Executor::get_or_init(None, bucket_count, IO)
}

fn memory(bucket_count: usize) -> ServerAlloc {
    let mut memory = ServerAlloc::new(0x10_0000);
    memory.initialize_buckets(0x100_0000, bucket_count, 1024);
    memory
}

fn bucket(index: u32) -> BucketIndex {
    BucketIndex { identifier: 0, index }
}

fn poll_input(index: u32) -> BucketAction {
    BucketAction::Poll {
        queue_index: QueueIndex { identifier: 0, index: index * 3 },
        io_index: IoIndex::InputStream(bucket(index)),
    }
}

fn input_polled(index: u32, result: JobResult) -> BucketEvent {
    BucketEvent::Polled {
        io_index: IoIndex::InputStream(bucket(index)),
        result,
    }
}

#[test]
fn a_request_runs_and_frees_its_bucket() {
    let mut executor = executor(2);
    let mut memory = memory(2);

    assert_eq!(executor.try_claim(), Some(bucket(0)));
    assert!(executor.execute(7, bucket(0), "request"));
    assert_eq!(executor.inner.future(bucket(0)), Some(&"request"));

    assert_eq!(executor.inner.try_dequeue(), Some(bucket(0)));
    assert_eq!(executor.inner.try_dequeue(), None);
    let action = executor.inner.run_bucket(&mut memory, bucket(0), BucketEvent::Begin);
    assert_eq!(action, poll_input(0));

    memory
        .try_allocate_in_bucket(Layout::from_size_align(1024, 1).unwrap(), 0)
        .unwrap();
    let action = executor.inner.run_bucket(
        &mut memory,
        bucket(0),
        input_polled(0, JobResult::Ready),
    );
    assert_eq!(action, BucketAction::Done(DoneWithBucket::Forever));
    assert_eq!(executor.inner.future(bucket(0)), None);
    assert_eq!(executor.inner.refcount(bucket(0)), 0);
    assert_eq!(
        executor.inner.after_bucket(bucket(0), DoneWithBucket::Forever),
        WorkerStep::NextBucket
    );

    // bucket and memory serve the next request
    assert_eq!(executor.try_claim(), Some(bucket(0)));
    assert_eq!(
        memory.try_allocate_in_bucket(Layout::from_size_align(1024, 1).unwrap(), 0),
        Some(0x100_0000)
    );
}

#[test]
fn requests_are_refused_when_all_buckets_are_in_use() {
    let mut executor = executor(2);
    assert_eq!(
        executor.accept(),
        Admission::Admitted {
            bucket_index: bucket(0),
            queue_index: QueueIndex { identifier: 0, index: 0 }
        }
    );
    assert_eq!(
        executor.accept(),
        Admission::Admitted {
            bucket_index: bucket(1),
            queue_index: QueueIndex { identifier: 0, index: 3 }
        }
    );
    assert_eq!(executor.accept(), Admission::Refused);
    assert_eq!(executor.try_claim(), None);
}

#[test]
fn a_pending_request_is_run_again_when_it_is_woken() {
    let mut executor = executor(1);
    let mut memory = memory(1);
    executor.try_claim();
    executor.execute(7, bucket(0), "request");
    executor.inner.try_dequeue();
    executor.inner.run_bucket(&mut memory, bucket(0), BucketEvent::Begin);
    let action = executor.inner.run_bucket(
        &mut memory,
        bucket(0),
        input_polled(0, JobResult::Pending),
    );
    assert_eq!(action, BucketAction::Done(DoneWithBucket::ForNow));

    // woken while the worker still holds the bucket
    assert!(!executor.inner.wake(QueueIndex { identifier: 0, index: 0 }));
    assert_eq!(
        executor.inner.after_bucket(bucket(0), DoneWithBucket::ForNow),
        WorkerStep::RunAgain
    );
    let action = executor.inner.run_bucket(&mut memory, bucket(0), BucketEvent::Begin);
    assert_eq!(action, poll_input(0));
    executor.inner.run_bucket(&mut memory, bucket(0), input_polled(0, JobResult::Pending));
    assert_eq!(
        executor.inner.after_bucket(bucket(0), DoneWithBucket::ForNow),
        WorkerStep::NextBucket
    );

    // woken while no worker holds it
    assert!(executor.inner.wake(QueueIndex { identifier: 0, index: 0 }));
    assert_eq!(executor.inner.try_dequeue(), Some(bucket(0)));
}

#[test]
fn a_request_that_runs_out_of_memory_is_cancelled_alone() {
    let mut executor = executor(2);
    let mut memory = memory(2);
    executor.try_claim();
    executor.execute(7, bucket(0), "greedy");
    executor.try_claim();
    executor.execute(8, bucket(1), "modest");
    executor.inner.try_dequeue();
    executor.inner.run_bucket(&mut memory, bucket(0), BucketEvent::Begin);

    let action = executor.inner.run_bucket(
        &mut memory,
        bucket(0),
        input_polled(0, JobResult::OutOfMemory),
    );
    assert_eq!(
        action,
        BucketAction::SendError {
            fd: 7,
            reason: CleanupReason::OutOfMemory
        }
    );
    let action = executor.inner.run_bucket(
        &mut memory,
        bucket(0),
        BucketEvent::ErrorSent(CleanupReason::OutOfMemory),
    );
    assert_eq!(action, BucketAction::Done(DoneWithBucket::OutOfMemory));
    assert_eq!(
        executor.inner.after_bucket(bucket(0), DoneWithBucket::OutOfMemory),
        WorkerStep::RunAgain
    );

    assert_eq!(executor.inner.refcount(bucket(0)), 0);
    assert_eq!(executor.inner.future(bucket(0)), None);
    assert_eq!(executor.inner.refcount(bucket(1)), 1);
    assert_eq!(executor.inner.future(bucket(1)), Some(&"modest"));
}

#[test]
fn a_request_that_panics_is_cancelled() {
    let mut executor = executor(1);
    let mut memory = memory(1);
    executor.try_claim();
    executor.execute(9, bucket(0), "request");
    executor.inner.try_dequeue();
    executor.inner.run_bucket(&mut memory, bucket(0), BucketEvent::Begin);
    let action = executor.inner.run_bucket(
        &mut memory,
        bucket(0),
        input_polled(0, JobResult::Panicked),
    );
    assert_eq!(
        action,
        BucketAction::SendError {
            fd: 9,
            reason: CleanupReason::Panic
        }
    );
    let action = executor.inner.run_bucket(
        &mut memory,
        bucket(0),
        BucketEvent::ErrorSent(CleanupReason::Panic),
    );
    assert_eq!(action, BucketAction::Done(DoneWithBucket::Panic));
    assert_eq!(executor.try_claim(), Some(bucket(0)));
}

#[test]
fn a_connection_keeps_the_bucket_in_use() {
    let mut executor = executor(2);
    let mut memory = memory(2);
    executor.try_claim();
    executor.try_claim();
    executor.execute(7, bucket(1), "request");

    let (connection, queue_index) = executor.inner.reserve_connection(bucket(1)).unwrap();
    assert_eq!(connection, ConnectionIndex { identifier: 0, index: 2 });
    assert_eq!(queue_index, QueueIndex { identifier: 0, index: 4 });
    assert_eq!(executor.inner.refcount(bucket(1)), 2);
    assert!(matches!(executor.inner.connection(connection), Slot::Reserved));
    // the bucket waits for a worker already
    assert!(!executor.inner.populate_connection(connection, "connection"));
    assert!(matches!(
        executor.inner.connection(connection),
        Slot::Occupied("connection")
    ));

    assert_eq!(executor.inner.try_dequeue(), Some(bucket(1)));
    let action = executor.inner.run_bucket(&mut memory, bucket(1), BucketEvent::Begin);
    assert_eq!(action, poll_input(1));
    let action = executor.inner.run_bucket(
        &mut memory,
        bucket(1),
        input_polled(1, JobResult::Ready),
    );
    assert_eq!(
        action,
        BucketAction::Poll {
            queue_index: QueueIndex { identifier: 0, index: 4 },
            io_index: IoIndex::HttpConnection(connection),
        }
    );
    let action = executor.inner.run_bucket(
        &mut memory,
        bucket(1),
        BucketEvent::Polled {
            io_index: IoIndex::HttpConnection(connection),
            result: JobResult::Ready,
        },
    );
    assert_eq!(action, BucketAction::Done(DoneWithBucket::Forever));
    assert!(matches!(executor.inner.connection(connection), Slot::Empty));
}

#[test]
fn wake_ups_after_death_are_ignored() {
    let mut executor = executor(1);
    let mut memory = memory(1);
    executor.try_claim();
    executor.execute(7, bucket(0), "request");
    executor.inner.try_dequeue();
    executor.inner.run_bucket(&mut memory, bucket(0), BucketEvent::Begin);
    // a connection that is gone, and one that is still being set up
    executor.inner.wake(QueueIndex { identifier: 0, index: 2 });
    let action = executor.inner.run_bucket(
        &mut memory,
        bucket(0),
        input_polled(0, JobResult::Pending),
    );
    assert_eq!(action, BucketAction::Done(DoneWithBucket::ForNow));

    let (connection, queue_index) = executor.inner.reserve_connection(bucket(0)).unwrap();
    executor.inner.wake(queue_index);
    let action = executor.inner.run_bucket(
        &mut memory,
        bucket(0),
        input_polled(0, JobResult::Pending),
    );
    assert_eq!(action, BucketAction::ReservedConnection(connection));
}

#[test]
fn connections_are_numbered_and_limited() {
    let mut executor = executor(1);
    executor.try_claim();
    let (first, _) = executor.inner.reserve_connection(bucket(0)).unwrap();
    let (second, _) = executor.inner.reserve_connection(bucket(0)).unwrap();
    assert_eq!(first, ConnectionIndex { identifier: 0, index: 0 });
    assert_eq!(second, ConnectionIndex { identifier: 1, index: 1 });
    assert_eq!(executor.inner.reserve_connection(bucket(0)), None);
}

#[test]
fn an_existing_executor_is_kept() {
    let mut first = executor(3);
    first.try_claim();
    let mut second = Executor::get_or_init(Some(first), 3, IO);
    assert_eq!(second.try_claim(), Some(bucket(1)));
}

#[test]
fn a_client_that_is_gone_is_no_panic() {
    assert!(!is_handler_panic(Ok(())));
    assert!(!is_handler_panic(Err(HandlerError::NotConnected)));
    assert!(is_handler_panic(Err(HandlerError::Other)));
}

#[test]
fn cancelled_requests_get_a_proper_error() {
    assert_eq!(
        error_response(CleanupReason::OutOfMemory),
        b"HTTP/1.1 500 Internal Server Error\r\nContent-Type: text/plain\r\n\r\nInternal Server Error: Out of Memory\r\n".to_vec()
    );
    assert_eq!(
        error_response(CleanupReason::Panic),
        b"HTTP/1.1 500 Internal Server Error\r\nContent-Type: text/plain\r\n\r\nInternal Server Error: Panic\r\n".to_vec()
    );
}

#[test]
fn a_wake_up_of_a_cancelled_request_counts_as_a_panic() {
    let mut executor = executor(1);
    let mut memory = memory(1);
    executor.try_claim();
    executor.execute(7, bucket(0), "request");
    executor.inner.try_dequeue();
    executor.inner.run_bucket(&mut memory, bucket(0), BucketEvent::Begin);
    executor.inner.wake(QueueIndex { identifier: 0, index: 0 });
    executor.inner.run_bucket(&mut memory, bucket(0), input_polled(0, JobResult::OutOfMemory));
    executor.inner.run_bucket(
        &mut memory,
        bucket(0),
        BucketEvent::ErrorSent(CleanupReason::OutOfMemory),
    );
    let action = executor.inner.run_bucket(&mut memory, bucket(0), BucketEvent::Begin);
    assert_eq!(
        action,
        BucketAction::SendError {
            fd: 7,
            reason: CleanupReason::Panic
        }
    );
}

#[test]
fn free_buckets_hold_nothing() {
    let mut executor = executor(1);
    let mut memory = memory(1);
    executor.try_claim();
    executor.execute(7, bucket(0), "request");
    let (connection, _) = executor.inner.reserve_connection(bucket(0)).unwrap();
    executor.inner.populate_connection(connection, "connection");
    assert_eq!(executor.inner.refcount(bucket(0)), 2);

    executor.inner.try_dequeue();
    executor.inner.run_bucket(&mut memory, bucket(0), BucketEvent::Begin);
    executor.inner.run_bucket(&mut memory, bucket(0), input_polled(0, JobResult::Ready));
    assert_eq!(executor.inner.refcount(bucket(0)), 1);
    executor.inner.run_bucket(
        &mut memory,
        bucket(0),
        BucketEvent::Polled {
            io_index: IoIndex::HttpConnection(connection),
            result: JobResult::Ready,
        },
    );
    assert_eq!(executor.inner.refcount(bucket(0)), 0);
    assert_eq!(executor.inner.future(bucket(0)), None);
    assert!(matches!(executor.inner.connection(connection), Slot::Empty));
}

#[test]
fn impossible_jobs_and_events_are_told_apart() {
    let mut executor = executor(2);
    assert_eq!(executor.inner.bucket_count(), 2);
    assert!(executor.inner.is_job(QueueIndex { identifier: 0, index: 5 }));
    assert!(!executor.inner.is_job(QueueIndex { identifier: 0, index: 6 }));

    assert!(executor.inner.is_possible(bucket(0), BucketEvent::Begin));
    assert!(!executor.inner.is_possible(bucket(0), input_polled(1, JobResult::Pending)));
    assert!(!executor.inner.is_possible(bucket(0), input_polled(0, JobResult::Ready)));
    executor.try_claim();
    executor.execute(7, bucket(0), "request");
    assert!(executor.inner.is_possible(bucket(0), input_polled(0, JobResult::Ready)));
    let connection = |index| BucketEvent::Polled {
        io_index: IoIndex::HttpConnection(ConnectionIndex { identifier: 0, index }),
        result: JobResult::Panicked,
    };
    assert!(!executor.inner.is_possible(bucket(0), connection(0)));
    assert!(!executor.inner.is_possible(bucket(0), connection(2)));
}
