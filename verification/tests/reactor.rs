use nea::index::{IoResources, QueueIndex};
use nea::reactor::{read_length, Direction, Event, IoStep, PollOutcome, Reactor};
use nea::runtime::reactor::Reactor as NumberedReactor;

const IO: IoResources = IoResources {
    tcp_streams: 1,
    http_connections: 1,
    http2_futures: 0,
};

fn reactor() -> Reactor<&'static str> {
    Reactor::get_or_init(None, 2, IO)
}

fn event(token: usize, is_readable: bool, is_writable: bool) -> Event {
    Event { token, is_readable, is_writable }
}

fn slot(index: u32) -> QueueIndex {
    QueueIndex { identifier: 5, index }
}

#[test]
fn tokens_carry_the_queue_index() {
    let mut reactor = reactor();
    assert_eq!(reactor.capacity(), 4);
    assert!(!reactor.has_source(slot(2)));
    assert_eq!(reactor.register(slot(2)), 0x5_0000_0002);
    assert!(reactor.has_source(slot(2)));
    reactor.deregister(0x5_0000_0002);
    assert!(!reactor.has_source(slot(2)));
}

#[test]
fn a_waiting_task_is_woken_by_its_direction() {
    let mut reactor = reactor();
    let token = reactor.register(slot(1));
    assert_eq!(reactor.poll_io(token, Direction::Read, "reader", false), IoStep::Pending);
    assert_eq!(reactor.poll_io(token, Direction::Write, "writer", false), IoStep::Pending);
    assert_eq!(reactor.interest(token, Direction::Read), Some(&"reader"));

    let wakers = reactor.poll(PollOutcome::Events(vec![event(token, true, false)])).unwrap();
    assert_eq!(wakers, vec!["reader"]);
    assert_eq!(reactor.interest(token, Direction::Read), None);
    assert_eq!(reactor.poll_io(token, Direction::Read, "reader", false), IoStep::Try);
    assert_eq!(reactor.poll_io(token, Direction::Write, "writer", false), IoStep::Pending);

    // readiness stays until an attempt would have blocked
    assert_eq!(reactor.poll_io(token, Direction::Read, "reader", false), IoStep::Try);
    reactor.clear_trigger(token, Direction::Read);
    assert_eq!(reactor.poll_io(token, Direction::Read, "reader", false), IoStep::Pending);

    let wakers = reactor.poll(PollOutcome::Events(vec![event(token, true, true)])).unwrap();
    assert_eq!(wakers, vec!["reader", "writer"]);
}

#[test]
fn reports_are_kept_for_who_asks_later() {
    let mut reactor = reactor();
    let token = reactor.register(slot(0));
    let wakers = reactor.poll(PollOutcome::Events(vec![event(token, false, true)])).unwrap();
    assert!(wakers.is_empty());
    assert_eq!(reactor.poll_io(token, Direction::Write, "writer", false), IoStep::Try);
}

#[test]
fn the_right_waker_is_kept_and_a_wrong_one_replaced() {
    let mut reactor = reactor();
    let token = reactor.register(slot(0));
    reactor.poll_io(token, Direction::Read, "old", false);
    reactor.poll_io(token, Direction::Read, "new", true);
    assert_eq!(reactor.interest(token, Direction::Read), Some(&"old"));
    reactor.poll_io(token, Direction::Read, "new", false);
    assert_eq!(reactor.interest(token, Direction::Read), Some(&"new"));
}

#[test]
fn events_of_closed_sockets_are_skipped() {
    let mut reactor = reactor();
    let open = reactor.register(slot(1));
    reactor.poll_io(open, Direction::Read, "reader", false);
    let closed = 3;
    let wakers = reactor
        .poll(PollOutcome::Events(vec![event(closed, true, true), event(open, true, false)]))
        .unwrap();
    assert_eq!(wakers, vec!["reader"]);
    assert_eq!(reactor.poll_io(closed, Direction::Read, "late", false), IoStep::Pending);
}

fn failure() -> std::io::Error {
    std::io::Error::new(std::io::ErrorKind::PermissionDenied, "no")
}

#[test]
fn an_interruption_is_no_error() {
    let mut reactor = reactor();
    assert!(reactor.poll(PollOutcome::Interrupted).unwrap().is_empty());
    let error = reactor.poll(PollOutcome::Failed(failure())).unwrap_err();
    assert_eq!(error.kind(), std::io::ErrorKind::PermissionDenied);
    let mut numbered: NumberedReactor<&str> = NumberedReactor::get(None);
    assert!(numbered.poll(PollOutcome::Interrupted).unwrap().is_empty());
    let error = numbered.poll(PollOutcome::Failed(failure())).unwrap_err();
    assert_eq!(error.kind(), std::io::ErrorKind::PermissionDenied);
}

#[test]
fn an_attempt_that_would_block_is_made_again() {
    let mut reactor = reactor();
    let token = reactor.register(slot(1));
    reactor.poll(PollOutcome::Events(vec![event(token, true, true)])).unwrap();
    assert!(!reactor.after_attempt(token, Direction::Read, false));
    assert_eq!(reactor.poll_io(token, Direction::Read, "reader", false), IoStep::Try);
    assert!(reactor.after_attempt(token, Direction::Read, true));
    assert_eq!(reactor.poll_io(token, Direction::Read, "reader", false), IoStep::Pending);
    assert_eq!(reactor.poll_io(token, Direction::Write, "writer", false), IoStep::Try);

    let mut numbered: NumberedReactor<&str> = NumberedReactor::get(None);
    let token = numbered.register();
    numbered.poll(PollOutcome::Events(vec![event(token, true, true)])).unwrap();
    assert!(!numbered.after_attempt(token, Direction::Read, false));
    assert_eq!(numbered.poll_io(token, Direction::Read, "reader", false), IoStep::Try);
    assert!(numbered.after_attempt(token, Direction::Read, true));
    assert_eq!(numbered.poll_io(token, Direction::Read, "reader", false), IoStep::Pending);
    assert_eq!(numbered.poll_io(token, Direction::Write, "writer", false), IoStep::Try);
}

#[test]
fn reads_are_limited() {
    assert_eq!(read_length(0), 0);
    assert_eq!(read_length(1023), 1023);
    assert_eq!(read_length(5000), 1024);
}

#[test]
fn sockets_are_numbered_one_after_the_other() {
    let mut reactor: NumberedReactor<&str> = NumberedReactor::get(None);
    assert_eq!(reactor.register(), 0);
    assert_eq!(reactor.register(), 1);
    assert!(reactor.has_source(1));
    reactor.deregister(1);
    assert!(!reactor.has_source(1));
    assert_eq!(reactor.register(), 2);
    let mut kept = NumberedReactor::get(Some(reactor));
    assert_eq!(kept.register(), 3);
}

#[test]
fn a_numbered_reader_wakes_the_writer_too() {
    let mut reactor: NumberedReactor<&str> = NumberedReactor::get(None);
    let token = reactor.register();
    let other = reactor.register();
    assert_eq!(reactor.poll_io(token, Direction::Write, "writer", false), IoStep::Pending);
    assert_eq!(reactor.poll_io(other, Direction::Read, "other", false), IoStep::Pending);

    let wakers = reactor.poll(PollOutcome::Events(vec![event(token, false, true)])).unwrap();
    assert!(wakers.is_empty());
    let wakers = reactor
        .poll(PollOutcome::Events(vec![event(token, true, false), event(99, true, true)]))
        .unwrap();
    assert_eq!(wakers, vec!["writer"]);
    assert_eq!(reactor.poll_io(token, Direction::Write, "writer", false), IoStep::Try);
    reactor.clear_trigger(token, Direction::Write);
    assert_eq!(reactor.poll_io(token, Direction::Write, "writer", false), IoStep::Pending);
    assert_eq!(reactor.interest(other, Direction::Read), Some(&"other"));
}
