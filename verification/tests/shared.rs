use nea::shared::backoff::{Backoff, Snooze};
use nea::shared::indexer::Indexer;
use nea::shared::queue::{lap_size, pop_step, push_step, LockFreeQueue, PopStep, PushStep};
use nea::shared::setjmp_longjmp::{longjmp_value, JumpBuf, SetJmp};

#[test]
fn items_come_out_in_the_order_they_went_in() {
    let mut queue: LockFreeQueue<u32, 3> = LockFreeQueue::new();
    assert_eq!(queue.dequeue(), None);
    for round in 0..50u32 {
        assert_eq!(queue.enqueue(round), Ok(()));
        assert_eq!(queue.enqueue(round + 100), Ok(()));
        assert_eq!(queue.dequeue(), Some(round));
        assert_eq!(queue.dequeue(), Some(round + 100));
    }
    assert_eq!(queue.dequeue(), None);
}

#[test]
fn a_full_queue_hands_the_item_back() {
    let mut queue: LockFreeQueue<String, 2> = LockFreeQueue::new();
    assert_eq!(queue.enqueue("a".to_string()), Ok(()));
    assert_eq!(queue.enqueue("b".to_string()), Ok(()));
    assert_eq!(queue.enqueue("c".to_string()), Err("c".to_string()));
    assert_eq!(queue.dequeue(), Some("a".to_string()));
    assert_eq!(queue.enqueue("d".to_string()), Ok(()));
    assert_eq!(queue.dequeue(), Some("b".to_string()));
    assert_eq!(queue.dequeue(), Some("d".to_string()));
}

#[test]
fn a_queue_of_one_works() {
    let mut queue: LockFreeQueue<u8, 1> = LockFreeQueue::new();
    for i in 0..10u8 {
        assert_eq!(queue.enqueue(i), Ok(()));
        assert_eq!(queue.enqueue(99), Err(99));
        assert_eq!(queue.dequeue(), Some(i));
        assert_eq!(queue.dequeue(), None);
    }
}

#[test]
fn laps_are_powers_of_two_with_room_to_spare() {
    assert_eq!(lap_size(1), 2);
    assert_eq!(lap_size(3), 4);
    assert_eq!(lap_size(4), 8);
    assert_eq!(lap_size(16), 32);
}

#[test]
fn threads_decide_by_the_stamp() {
    // a free slot: the tail moves on, and the stamp tells that the slot is filled
    assert_eq!(push_step(0, 0, 4, 3), PushStep::Claim { new_tail: 1, stamp: 1 });
    // the last slot: the tail moves to the next lap
    assert_eq!(push_step(2, 2, 4, 3), PushStep::Claim { new_tail: 4, stamp: 3 });
    // filled one lap ago
    assert_eq!(push_step(4, 1, 4, 3), PushStep::Full);
    // somebody else is about to fill it
    assert_eq!(push_step(0, 1, 4, 3), PushStep::Snooze);

    assert_eq!(pop_step(0, 1, 1, 4, 3), PopStep::Claim { new_head: 1, stamp: 4 });
    assert_eq!(pop_step(2, 3, 4, 4, 3), PopStep::Claim { new_head: 4, stamp: 6 });
    assert_eq!(pop_step(0, 0, 0, 4, 3), PopStep::Empty);
    assert_eq!(pop_step(0, 0, 1, 4, 3), PopStep::Spin);
    assert_eq!(pop_step(0, 4, 4, 4, 3), PopStep::Snooze);
}

#[test]
fn waiting_grows_up_to_a_limit() {
    let mut backoff = Backoff::new();
    let spins: Vec<u32> = (0..9).map(|_| backoff.spin()).collect();
    assert_eq!(spins, vec![1, 2, 4, 8, 16, 32, 64, 64, 64]);
}

#[test]
fn waiting_ends_in_yielding() {
    let mut backoff = Backoff::default();
    for step in 0..7u32 {
        assert_eq!(backoff.snooze(), Snooze::Spun(1 << step));
    }
    for _ in 0..20 {
        assert_eq!(backoff.snooze(), Snooze::Yield);
    }
}

#[test]
fn places_are_exclusive_and_reused() {
    let mut indexer = Indexer::new();
    assert_eq!(indexer.insert(3), None);
    indexer.initialize(2);
    assert_eq!(indexer.insert(3), Some(0));
    assert_eq!(indexer.insert(-1), Some(1));
    assert_eq!(indexer.insert(5), None);
    indexer.remove(0);
    assert_eq!(indexer.insert(5), Some(0));
    assert_eq!(indexer.insert(6), None);
}

#[test]
fn descriptor_zero_does_not_hold_a_place() {
    let mut indexer = Indexer::new();
    indexer.initialize(1);
    assert_eq!(indexer.insert(0), Some(0));
    assert_eq!(indexer.insert(7), Some(0));
    assert_eq!(indexer.insert(8), None);
}

#[test]
fn a_jump_never_looks_like_a_call() {
    assert_eq!(SetJmp::from_return_value(0), SetJmp::Called);
    assert_eq!(SetJmp::from_return_value(7), SetJmp::Jumped(7));
    assert_eq!(longjmp_value(0), 1);
    assert_eq!(longjmp_value(5), 5);
    assert_eq!(JumpBuf::new().0, [0; 8]);
}

#[test]
fn a_consumer_sleeps_until_there_is_an_item() {
    let mut queue: LockFreeQueue<u32, 2> = LockFreeQueue::new();
    assert_eq!(queue.blocking_dequeue(), None);
    assert_eq!(queue.enqueue(5), Ok(()));
    assert_eq!(queue.blocking_dequeue(), Some(5));
    assert_eq!(queue.blocking_dequeue(), None);
}
