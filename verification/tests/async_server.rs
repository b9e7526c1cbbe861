use nea::async_server::executor::Executor;
use nea::async_server::handler::{
    answer, page, roc_handler, Cmd, Handler, HandlerAction, HandlerEvent, Model, Msg,
};
use nea::async_server::queue::{ComplexQueue, QueueSlot};
use nea::index::{BucketIndex, ConnectionIndex, Http2FutureIndex, IoIndex, IoResources, QueueIndex};
use nea::queue::QueueSlotState;
use nea::runtime::executor::{RunAction, RunEvent};
use nea::runtime::queue::{DequeueStep, DoneWithItem};
use nea::shared::allocator::{Layout, ServerAlloc};

const IO: IoResources = IoResources {
    tcp_streams: 1,
    http_connections: 1,
    http2_futures: 1,
};

fn slot(index: u32) -> QueueIndex {
    QueueIndex { identifier: 0, index }
}

fn bucket(index: u32) -> BucketIndex {
    BucketIndex { identifier: 0, index }
}

fn executor() -> Executor<&'static str, &'static str, &'static str> {
    Executor::get_or_init(None, 2, IO)
}

fn memory() -> ServerAlloc {
    let mut memory = ServerAlloc::new(0x10_0000);
    memory.initialize_buckets(0x100_0000, 2, 1024);
    memory
}

fn polled(index: u32, is_ready: bool) -> RunEvent {
    RunEvent::Polled {
        queue_index: slot(index),
        is_ready,
    }
}

fn poll_of(index: u32, io_index: IoIndex) -> RunAction {
    RunAction::Poll {
        queue_index: slot(index),
        io_index,
    }
}

#[test]
fn slot_flags_are_set_and_cleared() {
    let mut slot = QueueSlot::empty();
    assert!(slot.is_empty());
    slot.mark_in_progress();
    assert!(slot.is_in_progress() && !slot.is_enqueued());
    assert!(!slot.mark_enqueued().is_enqueued);
    assert!(slot.is_enqueued());
    assert_eq!(slot.try_process(), Err(()));
    assert_eq!(
        slot.clear_in_progress(),
        QueueSlotState {
            is_enqueued: true,
            is_in_progress: true
        }
    );
    assert_eq!(slot.try_process(), Ok(()));
    assert!(!slot.clear_enqueued().is_enqueued);
    slot.mark_empty();
    assert!(slot.is_empty());
}

#[test]
fn waiting_slots_are_counted() {
    let mut queue = ComplexQueue::with_capacity(3);
    assert_eq!(queue.capacity(), 3);
    assert_eq!(queue.wait_jobs_available(), None);
    assert_eq!(queue.enqueue(slot(2)), Ok(true));
    assert_eq!(queue.enqueue(slot(2)), Ok(false));
    assert_eq!(queue.enqueue(slot(1)), Ok(true));
    assert_eq!(queue.load_jobs_available(), 2);
    assert_eq!(queue.blocking_dequeue(), DequeueStep::Run(slot(1)));
    assert_eq!(queue.enqueue(slot(1)), Ok(false));
    assert_eq!(queue.done_with_item(slot(1)), DoneWithItem::GoAgain);
    assert_eq!(queue.done_with_item(slot(1)), DoneWithItem::Done);
    queue.give_up(slot(1));
    assert_eq!(queue.try_dequeue(), Some(slot(2)));
    queue.done_with_item_forever(slot(2));
    assert_eq!(queue.blocking_dequeue(), DequeueStep::Sleep);
    assert_eq!(queue.try_dequeue(), None);
}

#[test]
fn the_last_job_wipes_the_memory() {
    let mut executor = executor();
    let mut memory = memory();
    assert_eq!(executor.try_claim(), Some(bucket(0)));
    assert!(executor.execute(bucket(0), "request"));
    assert_eq!(
        executor.inner.run_worker(&mut memory, RunEvent::LookForWork),
        poll_of(0, IoIndex::InputStream(bucket(0)))
    );
    let whole = Layout::from_size_align(1024, 1).unwrap();
    memory.try_allocate_in_bucket(whole, 0).unwrap();
    // woken while it runs
    executor.inner.wake(slot(0));
    assert_eq!(
        executor.inner.run_worker(&mut memory, polled(0, false)),
        RunAction::GoOn(slot(0))
    );
    assert_eq!(memory.try_allocate_in_bucket(whole, 0), None);
    executor.inner.run_worker(&mut memory, RunEvent::GoOn(slot(0)));
    assert_eq!(
        executor.inner.run_worker(&mut memory, polled(0, true)),
        RunAction::LookForWork
    );
    assert_eq!(executor.inner.refcount(bucket(0)), 0);
    assert_eq!(executor.inner.future(bucket(0)), None);
    assert_eq!(memory.try_allocate_in_bucket(whole, 0), Some(0x100_0000));
    assert_eq!(
        executor.inner.run_worker(&mut memory, RunEvent::LookForWork),
        RunAction::Sleep
    );
}

#[test]
fn connections_and_futures_keep_the_bucket() {
    let mut executor = executor();
    let mut memory = memory();
    executor.try_claim();
    executor.execute(bucket(0), "request");
    let (connection, queue_index) = executor.inner.reserve_connection(bucket(0)).unwrap();
    assert_eq!(connection, ConnectionIndex { identifier: 0, index: 0 });
    assert_eq!(queue_index, slot(1));
    assert!(executor.inner.populate_connection(connection, "connection"));
    assert_eq!(executor.inner.connection(connection), Some(&"connection"));
    assert_eq!(executor.inner.spawn_http2_future(bucket(0), "future"), Some(true));
    assert_eq!(executor.inner.spawn_http2_future(bucket(0), "more"), None);
    assert_eq!(executor.inner.refcount(bucket(0)), 3);
    // all places are taken, but the bucket is kept in use all the same
    assert_eq!(executor.inner.reserve_connection(bucket(0)), None);
    assert_eq!(executor.inner.refcount(bucket(0)), 4);

    for index in 0..3u32 {
        executor.inner.run_worker(&mut memory, RunEvent::LookForWork);
        executor.inner.run_worker(&mut memory, polled(index, true));
    }
    assert_eq!(executor.inner.refcount(bucket(0)), 1);
    assert_eq!(executor.inner.connection(connection), None);
    let future = Http2FutureIndex { identifier: 0, index: 0 };
    assert_eq!(executor.inner.http2_future(future), None);
}

#[test]
fn late_http2_futures_are_tolerated() {
    let mut executor = executor();
    let mut memory = memory();
    executor.inner.wake(slot(2));
    assert_eq!(
        executor.inner.run_worker(&mut memory, RunEvent::LookForWork),
        RunAction::NoFuture(slot(2))
    );
    assert!(executor.inner.is_possible(polled(2, true)));
    executor.inner.run_worker(&mut memory, polled(2, true));
    assert_eq!(executor.inner.refcount(bucket(0)), 0);
    executor.inner.wake(slot(1));
    assert_eq!(
        executor.inner.run_worker(&mut memory, RunEvent::LookForWork),
        RunAction::RaceCondition(slot(1))
    );
    assert!(!executor.inner.is_possible(polled(1, true)));
    assert!(!executor.inner.is_possible(polled(0, false)));
}

#[test]
fn there_are_as_many_requests_as_buckets() {
    let mut executor = executor();
    assert_eq!(executor.try_claim(), Some(bucket(0)));
    assert_eq!(executor.try_claim(), Some(bucket(1)));
    assert_eq!(executor.try_claim(), None);
}

#[test]
fn a_late_future_that_is_woken_again_waits_and_is_counted() {
    let mut executor = executor();
    let mut memory = memory();
    executor.inner.wake(slot(2));
    executor.inner.run_worker(&mut memory, RunEvent::LookForWork);
    assert!(!executor.inner.wake(slot(2)));
    assert_eq!(executor.inner.available(), 0);
    executor.inner.run_worker(&mut memory, polled(2, true));
    assert_eq!(executor.inner.available(), 1);
    assert_eq!(
        executor.inner.run_worker(&mut memory, RunEvent::LookForWork),
        RunAction::NoFuture(slot(2))
    );
}

#[test]
fn every_call_on_the_queue_is_counted() {
    let mut queue = ComplexQueue::with_capacity(2);
    assert_eq!(queue.capacity(), 2);
    assert_eq!(queue.try_dequeue(), None);
    queue.enqueue(slot(1)).unwrap();
    queue.enqueue(slot(1)).unwrap();
    assert_eq!(queue.load_jobs_available(), 1);
    assert_eq!(queue.try_dequeue(), Some(slot(1)));
    queue.enqueue(slot(1)).unwrap();
    assert_eq!(queue.load_jobs_available(), 0);
    queue.give_up(slot(1));
    assert_eq!(queue.load_jobs_available(), 1);
    assert_eq!(queue.try_dequeue(), Some(slot(1)));
    assert_eq!(queue.done_with_item(slot(1)), DoneWithItem::Done);
    queue.done_with_item_forever(slot(1));
    assert_eq!(queue.load_jobs_available(), 0);
}

#[test]
fn the_application_reads_answers_and_ends() {
    let (model, cmd) = roc_handler(Model::Initial, Msg::Nothing);
    assert_eq!(model, Model::Initial);
    assert!(matches!(cmd, Cmd::Read));
    let (model, cmd) = roc_handler(model, Msg::Read(vec![1, 2]));
    assert_eq!(model, Model::Writing);
    match cmd {
        Cmd::Write(buf) => assert_eq!(
            buf,
            b"HTTP/1.1 200 OK\r\nContent-Type: text/html\r\n\r\n<html>foobar</html>".to_vec()
        ),
        _ => panic!("no answer"),
    }
    assert!(matches!(roc_handler(model, Msg::Nothing), (Model::Writing, Cmd::Done)));
    assert!(matches!(roc_handler(model, Msg::Read(vec![])), (Model::Writing, Cmd::Done)));
}

#[test]
fn a_handler_writes_until_nothing_remains() {
    let mut handler = Handler::new();
    assert_eq!(handler.step(HandlerEvent::Begin), HandlerAction::Read);
    assert_eq!(handler.step(HandlerEvent::Read(b"GET".to_vec())), HandlerAction::Write);
    let length = handler.response().len();
    assert_eq!(length, 63);
    assert_eq!(handler.remaining(), 63);
    assert_eq!(handler.step(HandlerEvent::Written(60)), HandlerAction::Write);
    assert_eq!(handler.remaining(), 3);
    assert_eq!(handler.step(HandlerEvent::Written(3)), HandlerAction::Done);
}

#[test]
fn pages_show_the_request_and_are_cut_off() {
    assert_eq!(
        answer("caf\u{e9}".as_bytes()),
        Some(
            "HTTP/1.1 200 OK\r\nContent-Type: text/html\r\n\r\n<html>caf\u{e9}</html>"
                .as_bytes()
                .to_vec()
        )
    );
    assert_eq!(answer(&[0xFF]), None);
    let long = page(&"x".repeat(2000));
    assert_eq!(long.len(), 1024);
    assert_eq!(&long[..17], b"HTTP/1.1 200 OK\r\n");
    assert_eq!(long[1023], b'x');
}

#[test]
fn jobs_belong_to_buckets() {
    let mut executor = executor();
    assert_eq!(executor.inner.bucket_count(), 2);
    assert!(executor.inner.is_job(slot(5)));
    assert!(!executor.inner.is_job(slot(6)));
    assert_eq!(executor.inner.bucket_of(slot(5)), bucket(1));
    assert_eq!(executor.inner.available(), 0);
    executor.inner.wake(slot(5));
    assert_eq!(executor.inner.available(), 1);
}
