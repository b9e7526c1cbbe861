//! A bounded first-in first-out queue, and the back-off of threads that contend for it.
//!
//! A position in the queue is a lap number and an index into the buffer. The index takes the low
//! bits, the lap number the high ones; the lap number wraps around. Every slot carries a stamp
//! that tells whose turn it is: a slot that can be written in some lap has the position of that
//! lap as its stamp, and a slot that can be read has the position at which it was written, plus
//! one.
use crate::bits;
use vstd::arithmetic::div_mod;
use vstd::arithmetic::power2;
use vstd::prelude::*;

verus! {

/// How many values a machine word has.
pub open spec fn word_count() -> int {
    usize::MAX + 1
}

/// The smallest power of two above `capacity`: the distance between two laps.
pub open spec fn is_lap_size(one_lap: int, capacity: int) -> bool {
    &&& power2::is_pow2(one_lap)
    &&& capacity < one_lap <= 2 * capacity
    &&& one_lap < word_count()
}

/// The index of a position.
pub open spec fn index_of(position: int, one_lap: int) -> int {
    position % one_lap
}

/// The lap of a position, as the position of its index zero.
pub open spec fn lap_of(position: int, one_lap: int) -> int {
    position - position % one_lap
}

/// The lap after `lap`.
pub open spec fn lap_after(lap: int, one_lap: int) -> int {
    if lap + one_lap == word_count() {
        0
    } else {
        lap + one_lap
    }
}

/// The position after `position` in a buffer of `capacity` slots.
pub open spec fn position_after(position: int, one_lap: int, capacity: int) -> int {
    if index_of(position, one_lap) + 1 < capacity {
        position + 1
    } else {
        lap_after(lap_of(position, one_lap), one_lap)
    }
}

/// What a thread that wants to write does next, after it has read the tail and the stamp of the
/// slot that the tail points at.
#[derive(Debug, Clone, Copy, PartialEq, Eq, Structural)]
pub enum PushStep {
    /// Move the tail to `new_tail`; if no other thread moved it first, write the item and set the
    /// stamp.
    Claim { new_tail: usize, stamp: usize },
    /// The queue is full.
    Full,
    /// The stamp is about to change: back off, and look at the tail again.
    Snooze,
}

/// What a thread that wants to read does next, after it has read the head, the stamp of the slot
/// that the head points at, and the tail.
#[derive(Debug, Clone, Copy, PartialEq, Eq, Structural)]
pub enum PopStep {
    /// Move the head to `new_head`; if no other thread moved it first, take the item and set the
    /// stamp.
    Claim { new_head: usize, stamp: usize },
    /// The queue is empty.
    Empty,
    /// An item is being written: spin, and look at the head again.
    Spin,
    /// The stamp is about to change: back off, and look at the head again.
    Snooze,
}

/// A position in a well-formed queue has room for the index behind it.
pub open spec fn is_position(position: int, one_lap: int, capacity: int) -> bool {
    0 <= position < word_count() && index_of(position, one_lap) < capacity
}

/// A lap ends before the words do.
proof fn lemma_lap_fits(position: int, one_lap: int, capacity: int)
    requires
        0 < capacity,
        is_lap_size(one_lap, capacity),
        0 <= position < word_count(),
    ensures
        0 <= lap_of(position, one_lap),
        lap_of(position, one_lap) + one_lap <= word_count(),
        lap_of(position, one_lap) % one_lap == 0,
        0 <= index_of(position, one_lap) < one_lap,
{
    let e = bits::lemma_exponent(one_lap);
    bits::lemma_word_is_power_of_two();
    power2::lemma_pow2_adds(e, (usize::BITS - e) as nat);
    let laps = power2::pow2((usize::BITS - e) as nat) as int;
    let lap = position / one_lap;
    div_mod::lemma_fundamental_div_mod(position, one_lap);
    assert(one_lap * laps == word_count());
    assert(lap < laps && lap >= 0) by (nonlinear_arith)
        requires
            one_lap * lap + position % one_lap == position,
            0 <= position < one_lap * laps,
            one_lap > 0,
            0 <= position % one_lap < one_lap,
    ;
    assert(one_lap * lap + one_lap <= one_lap * laps && one_lap * lap >= 0) by (nonlinear_arith)
        requires
            0 <= lap < laps,
            one_lap > 0,
    ;
    div_mod::lemma_mod_multiples_basic(lap, one_lap);
    assert(lap * one_lap == one_lap * lap) by (nonlinear_arith);
}

/// The lap and the index of a position that is put together from both.
proof fn lemma_position_parts(lap: int, index: int, one_lap: int)
    requires
        0 < one_lap,
        0 <= index < one_lap,
        lap % one_lap == 0,
    ensures
        index_of(lap + index, one_lap) == index,
        lap_of(lap + index, one_lap) == lap,
{
    div_mod::lemma_fundamental_div_mod(lap, one_lap);
    let n = lap / one_lap;
    assert(one_lap * n == n * one_lap) by (nonlinear_arith);
    div_mod::lemma_fundamental_div_mod_converse(lap + index, one_lap, n, index);
}

/// Where the next lap starts.
proof fn lemma_next_lap(position: int, one_lap: int, capacity: int)
    requires
        0 < capacity,
        is_lap_size(one_lap, capacity),
        0 <= position < word_count(),
    ensures
        ({
            let next = lap_after(lap_of(position, one_lap), one_lap);
            &&& 0 <= next
            &&& next + one_lap <= word_count()
            &&& next % one_lap == 0
        }),
{
    lemma_lap_fits(position, one_lap, capacity);
    let lap = lap_of(position, one_lap);
    let next = lap_after(lap, one_lap);
    if next != 0 {
        assert((lap + one_lap) % one_lap == 0) by {
            div_mod::lemma_mod_add_multiples_vanish(lap, one_lap);
        }
        lemma_lap_fits(next, one_lap, capacity);
    }
}

/// Moves a position on by one.
fn advance(position: usize, one_lap: usize, capacity: usize) -> (next: usize)
    requires
        0 < capacity,
        is_lap_size(one_lap as int, capacity as int),
        is_position(position as int, one_lap as int, capacity as int),
    ensures
        next == position_after(position as int, one_lap as int, capacity as int),
{
    proof {
        bits::lemma_mask_is_remainder(position, one_lap);
        lemma_lap_fits(position as int, one_lap as int, capacity as int);
    }
    let index: usize = position & (one_lap - 1);
    let lap: usize = position & !(one_lap - 1);
    if index + 1 < capacity {
        // Same lap, incremented index.
        position + 1
    } else {
        // One lap forward, index wraps around to zero.
        lap.wrapping_add(one_lap)
    }
}

/// Decides what a thread that wants to write does next.
pub fn push_step(tail: usize, stamp: usize, one_lap: usize, capacity: usize) -> (step: PushStep)
    requires
        0 < capacity,
        is_lap_size(one_lap as int, capacity as int),
        is_position(tail as int, one_lap as int, capacity as int),
    ensures
        tail + 1 <= usize::MAX,
        step == if tail == stamp {
            PushStep::Claim {
                new_tail: position_after(tail as int, one_lap as int, capacity as int) as usize,
                stamp: (tail + 1) as usize,
            }
        } else if (stamp + one_lap) % word_count() == tail + 1 {
            PushStep::Full
        } else {
            PushStep::Snooze
        },
{
    proof {
        lemma_lap_fits(tail as int, one_lap as int, capacity as int);
    }
    if tail == stamp {
        PushStep::Claim { new_tail: advance(tail, one_lap, capacity), stamp: tail + 1 }
    } else if stamp.wrapping_add(one_lap) == tail + 1 {
        PushStep::Full
    } else {
        PushStep::Snooze
    }
}

/// Decides what a thread that wants to read does next.
pub fn pop_step(
    head: usize,
    stamp: usize,
    tail: usize,
    one_lap: usize,
    capacity: usize,
) -> (step: PopStep)
    requires
        0 < capacity,
        is_lap_size(one_lap as int, capacity as int),
        is_position(head as int, one_lap as int, capacity as int),
    ensures
        head + 1 <= usize::MAX,
        step == if head + 1 == stamp {
            PopStep::Claim {
                new_head: position_after(head as int, one_lap as int, capacity as int) as usize,
                stamp: ((head + one_lap) % word_count()) as usize,
            }
        } else if stamp == head {
            if tail == head {
                PopStep::Empty
            } else {
                PopStep::Spin
            }
        } else {
            PopStep::Snooze
        },
{
    proof {
        lemma_lap_fits(head as int, one_lap as int, capacity as int);
    }
    if head + 1 == stamp {
        PopStep::Claim {
            new_head: advance(head, one_lap, capacity),
            stamp: head.wrapping_add(one_lap),
        }
    } else if stamp == head {
        if tail == head {
            PopStep::Empty
        } else {
            PopStep::Spin
        }
    } else {
        PopStep::Snooze
    }
}

/// The distance between two laps for a buffer of the given capacity.
pub fn lap_size(capacity: usize) -> (one_lap: usize)
    requires
        0 < capacity <= isize::MAX,
    ensures
        is_lap_size(one_lap as int, capacity as int),
{
    let mut one_lap: usize = 1;
    proof {
        reveal(power2::is_pow2);
    }
    while one_lap <= capacity
        invariant
            capacity <= isize::MAX,
            0 < capacity,
            power2::is_pow2(one_lap as int),
            1 <= one_lap <= 2 * capacity,
        decreases 2 * capacity - one_lap,
    {
        proof {
            reveal(power2::is_pow2);
        }
        one_lap = one_lap * 2;
    }
    one_lap
}

#[derive(Debug)]
struct Slot<T> {
    stamp: usize,
    value: Option<T>,
}

/// The items after one more was added, if there was room for it.
pub open spec fn enqueued<T>(items: Seq<T>, capacity: int, item: T) -> Seq<T> {
    if items.len() < capacity {
        items.push(item)
    } else {
        items
    }
}

/// The items after the one at the front was taken, if there was one.
pub open spec fn dequeued<T>(items: Seq<T>) -> Seq<T> {
    if items.len() > 0 {
        items.drop_first()
    } else {
        items
    }
}

/// A first-in first-out queue of at most `N` items.
#[derive(Debug)]
pub struct LockFreeQueue<T, const N: usize> {
    buffer: Vec<Slot<T>>,
    head: usize,
    tail: usize,
    one_lap: usize,
}

/// The buffer index `steps` behind `start`.
spec fn around(start: int, steps: int, capacity: int) -> int {
    if start + steps < capacity {
        start + steps
    } else {
        start + steps - capacity
    }
}

impl<T, const N: usize> LockFreeQueue<T, N> {
    spec fn lap(&self) -> int {
        self.one_lap as int
    }

    spec fn first(&self) -> int {
        index_of(self.head as int, self.lap())
    }

    spec fn last(&self) -> int {
        index_of(self.tail as int, self.lap())
    }

    spec fn head_lap(&self) -> int {
        lap_of(self.head as int, self.lap())
    }

    spec fn tail_lap(&self) -> int {
        lap_of(self.tail as int, self.lap())
    }

    /// Head and tail are in the same lap.
    spec fn same_lap(&self) -> bool {
        self.head_lap() == self.tail_lap()
    }

    spec fn item_count(&self) -> int {
        if self.same_lap() {
            self.last() - self.first()
        } else {
            N - self.first() + self.last()
        }
    }

    spec fn is_occupied(&self, i: int) -> bool {
        if self.same_lap() {
            self.first() <= i < self.last()
        } else {
            self.first() <= i || i < self.last()
        }
    }

    spec fn expected_stamp(&self, i: int) -> int {
        if self.is_occupied(i) {
            (if i < self.last() {
                self.tail_lap()
            } else {
                self.head_lap()
            }) + i + 1
        } else if i < self.last() {
            lap_after(self.tail_lap(), self.lap()) + i
        } else {
            self.tail_lap() + i
        }
    }

    spec fn slot_wf(&self, i: int) -> bool {
        &&& self.buffer@[i].value is Some <==> self.is_occupied(i)
        &&& self.buffer@[i].stamp == self.expected_stamp(i)
    }

    /// The stamps fit to head and tail, and exactly the slots between head and tail hold an item.
    pub closed spec fn wf(&self) -> bool {
        &&& 0 < N
        &&& is_lap_size(self.lap(), N as int)
        &&& self.buffer@.len() == N
        &&& self.first() < N
        &&& self.last() < N
        &&& if self.same_lap() {
            self.first() <= self.last()
        } else {
            &&& self.tail_lap() == lap_after(self.head_lap(), self.lap())
            &&& self.last() <= self.first()
        }
        &&& forall|i: int| 0 <= i < N ==> #[trigger] self.slot_wf(i)
    }

    pub fn new() -> (queue: Self)
        requires
            0 < N <= isize::MAX,
        ensures
            queue.wf(),
            queue@ == Seq::<T>::empty(),
    {
        let one_lap: usize = lap_size(N);
        let mut buffer: Vec<Slot<T>> = Vec::new();
        let mut i: usize = 0;
        while i < N
            invariant
                i <= N,
                buffer@.len() == i,
                forall|j: int|
                    0 <= j < i ==> (#[trigger] buffer@[j]).stamp == j && buffer@[j].value is None,
            decreases N - i,
        {
            buffer.push(Slot { stamp: i, value: None });
            i = i + 1;
        }
        let queue = LockFreeQueue { buffer, head: 0, tail: 0, one_lap };
        proof {
            div_mod::lemma_small_mod(0, one_lap as nat);
            assert forall|i: int| 0 <= i < N implies #[trigger] queue.slot_wf(i) by {
                assert(queue.buffer@[i].stamp == i);
            }
            assert(queue@ =~= Seq::<T>::empty());
        }
        queue
    }

    /// Adds an item at the end, or gives it back if the queue is full.
    pub fn enqueue(&mut self, item: T) -> (result: Result<(), T>)
        requires
            old(self).wf(),
        ensures
            final(self).wf(),
            old(self)@.len() <= N,
            result == if old(self)@.len() < N {
                Ok::<(), T>(())
            } else {
                Err::<(), T>(item)
            },
            final(self)@ == enqueued(old(self)@, N as int, item),
    {
        let tail: usize = self.tail;
        let one_lap: usize = self.one_lap;
        proof {
            bits::lemma_mask_is_remainder(tail, one_lap);
            lemma_lap_fits(self.tail as int, self.lap(), N as int);
            lemma_lap_fits(self.head as int, self.lap(), N as int);
            lemma_next_lap(self.tail as int, self.lap(), N as int);
            assert(self.slot_wf(self.last()));
        }
        let index: usize = tail & (one_lap - 1);
        let stamp: usize = self.buffer[index].stamp;
        match push_step(tail, stamp, one_lap, N) {
            PushStep::Claim { new_tail, stamp: new_stamp } => {
                self.tail = new_tail;
                self.buffer[index].value = Some(item);
                self.buffer[index].stamp = new_stamp;
                proof {
                    self.lemma_pushed(old(self), item);
                }
                Ok(())
            },
            PushStep::Full => {
                Err(item)
            },
            PushStep::Snooze => {
                proof {
                    assert(false);
                }
                Err(item)
            },
        }
    }

    /// Takes the item at the front.
    pub fn dequeue(&mut self) -> (item: Option<T>)
        requires
            old(self).wf(),
        ensures
            final(self).wf(),
            item == if old(self)@.len() > 0 {
                Some(old(self)@.first())
            } else {
                None::<T>
            },
            final(self)@ == dequeued(old(self)@),
    {
        let head: usize = self.head;
        let one_lap: usize = self.one_lap;
        proof {
            bits::lemma_mask_is_remainder(head, one_lap);
            lemma_lap_fits(self.tail as int, self.lap(), N as int);
            lemma_lap_fits(self.head as int, self.lap(), N as int);
            lemma_next_lap(self.head as int, self.lap(), N as int);
            assert(self.slot_wf(self.first()));
        }
        let index: usize = head & (one_lap - 1);
        let stamp: usize = self.buffer[index].stamp;
        match pop_step(head, stamp, self.tail, one_lap, N) {
            PopStep::Claim { new_head, stamp: new_stamp } => {
                self.head = new_head;
                let item = self.buffer[index].value.take();
                self.buffer[index].stamp = new_stamp;
                proof {
                    self.lemma_popped(old(self));
                }
                item
            },
            PopStep::Empty => None,
            _ => {
                proof {
                    assert(false);
                }
                None
            },
        }
    }

    /// Takes the item at the front. If there is none the caller has to sleep until it is woken,
    /// and try again.
    pub fn blocking_dequeue(&mut self) -> (item: Option<T>)
        requires
            old(self).wf(),
        ensures
            final(self).wf(),
            item == if old(self)@.len() > 0 {
                Some(old(self)@.first())
            } else {
                None::<T>
            },
            final(self)@ == dequeued(old(self)@),
    {
        self.dequeue()
    }

    proof fn lemma_pushed(&self, before: &Self, item: T)
        requires
            before.wf(),
            before.item_count() < N,
            self.head == before.head,
            self.one_lap == before.one_lap,
            self.tail == position_after(before.tail as int, before.lap(), N as int),
            self.buffer@.len() == N,
            self.buffer@[before.last()].value == Some(item),
            self.buffer@[before.last()].stamp == before.tail + 1,
            forall|i: int|
                0 <= i < N && i != before.last() ==> self.buffer@[i] == before.buffer@[i],
        ensures
            self.wf(),
            self@ == before@.push(item),
    {
        let lap = before.lap();
        lemma_lap_fits(before.tail as int, lap, N as int);
        lemma_lap_fits(before.head as int, lap, N as int);
        lemma_next_lap(before.tail as int, lap, N as int);
        lemma_next_lap(before.head as int, lap, N as int);
        if before.last() + 1 < N {
            lemma_position_parts(before.tail_lap(), before.last() + 1, lap);
        } else {
            lemma_position_parts(lap_after(before.tail_lap(), lap), 0, lap);
        }
        assert forall|i: int| 0 <= i < N implies #[trigger] self.slot_wf(i) by {
            assert(before.slot_wf(i));
        }
        assert(self.item_count() == before.item_count() + 1);
        assert(self@ =~= before@.push(item));
    }

    proof fn lemma_popped(&self, before: &Self)
        requires
            before.wf(),
            before.item_count() > 0,
            self.tail == before.tail,
            self.one_lap == before.one_lap,
            self.head == position_after(before.head as int, before.lap(), N as int),
            self.buffer@.len() == N,
            self.buffer@[before.first()].value is None,
            self.buffer@[before.first()].stamp == (before.head + before.lap()) % word_count(),
            forall|i: int|
                0 <= i < N && i != before.first() ==> self.buffer@[i] == before.buffer@[i],
        ensures
            self.wf(),
            self@ == before@.drop_first(),
    {
        let lap = before.lap();
        lemma_lap_fits(before.tail as int, lap, N as int);
        lemma_lap_fits(before.head as int, lap, N as int);
        lemma_next_lap(before.tail as int, lap, N as int);
        lemma_next_lap(before.head as int, lap, N as int);
        if before.first() + 1 < N {
            lemma_position_parts(before.head_lap(), before.first() + 1, lap);
        } else {
            lemma_position_parts(lap_after(before.head_lap(), lap), 0, lap);
        }
        assert((before.head + lap) % word_count() == lap_after(before.head_lap(), lap)
            + before.first()) by {
            let next = lap_after(before.head_lap(), lap) + before.first();
            div_mod::lemma_small_mod(next as nat, word_count() as nat);
            if before.head_lap() + lap == word_count() {
                div_mod::lemma_mod_add_multiples_vanish(next, word_count());
            }
        }
        assert forall|i: int| 0 <= i < N implies #[trigger] self.slot_wf(i) by {
            assert(before.slot_wf(i));
        }
        assert(self.item_count() == before.item_count() - 1);
        assert(self@ =~= before@.drop_first());
    }
}

impl<T, const N: usize> View for LockFreeQueue<T, N> {
    type V = Seq<T>;

    /// The items, oldest first.
    closed spec fn view(&self) -> Seq<T> {
        Seq::new(
            self.item_count() as nat,
            |k: int| self.buffer@[around(self.first(), k, N as int)].value->0,
        )
    }
}

/// One call on a queue.
pub enum Call<T> {
    Enqueue(T),
    Dequeue,
}

/// What a series of calls on a new queue comes to.
#[verifier::ext_equal]
pub struct History<T> {
    /// What the queue holds.
    pub items: Seq<T>,
    /// The items that were accepted, in the order of the calls.
    pub accepted: Seq<T>,
    /// How many items were taken.
    pub taken: nat,
}

/// What a series of calls on a new queue comes to.
pub open spec fn history<T>(capacity: int, calls: Seq<Call<T>>) -> History<T>
    decreases calls.len(),
{
    if calls.len() == 0 {
        History { items: Seq::empty(), accepted: Seq::empty(), taken: 0 }
    } else {
        let before = history(capacity, calls.drop_last());
        match calls.last() {
            Call::Enqueue(item) => History {
                items: enqueued(before.items, capacity, item),
                accepted: if before.items.len() < capacity {
                    before.accepted.push(item)
                } else {
                    before.accepted
                },
                ..before
            },
            Call::Dequeue => History {
                items: dequeued(before.items),
                taken: if before.items.len() > 0 {
                    before.taken + 1
                } else {
                    before.taken
                },
                ..before
            },
        }
    }
}

/// First in, first out: whatever calls are made, the queue holds the accepted items that were not
/// taken yet, oldest first. So the next item to be taken is the oldest of them, nothing is lost,
/// and nothing comes out twice.
pub proof fn law_first_in_first_out<T>(capacity: nat, calls: Seq<Call<T>>)
    ensures
        ({
            let h = history(capacity as int, calls);
            &&& h.taken <= h.accepted.len()
            &&& h.items == h.accepted.skip(h.taken as int)
            &&& h.items.len() <= capacity
            &&& h.taken < h.accepted.len() ==> h.items.len() > 0 && h.items.first()
                == h.accepted[h.taken as int]
            &&& h.taken == h.accepted.len() ==> h.items == Seq::<T>::empty()
        }),
    decreases calls.len(),
{
    let h = history(capacity as int, calls);
    if calls.len() > 0 {
        law_first_in_first_out(capacity, calls.drop_last());
    }
    assert(h.items =~= h.accepted.skip(h.taken as int));
}

/// The items of a new queue after so many were offered.
pub open spec fn filled<T>(capacity: int, offered: Seq<T>) -> Seq<T>
    decreases offered.len(),
{
    if offered.len() == 0 {
        Seq::empty()
    } else {
        enqueued(filled(capacity, offered.drop_last()), capacity, offered.last())
    }
}

/// Every place of a queue can be used: a new queue takes as many items as it has places for, and
/// not one more.
pub proof fn law_every_place_is_usable<T>(capacity: nat, offered: Seq<T>)
    ensures
        offered.len() <= capacity ==> filled(capacity as int, offered) == offered,
        offered.len() > capacity ==> filled(capacity as int, offered) == offered.take(
            capacity as int,
        ),
        filled(capacity as int, offered).len() < capacity <==> offered.len() < capacity,
    decreases offered.len(),
{
    if offered.len() > 0 {
        let shorter = offered.drop_last();
        law_every_place_is_usable(capacity, shorter);
        if offered.len() <= capacity {
            assert(filled(capacity as int, offered) =~= offered);
        } else {
            assert(shorter.take(capacity as int) =~= offered.take(capacity as int));
            if shorter.len() == capacity {
                assert(shorter =~= offered.take(capacity as int));
            }
        }
    } else {
        assert(filled(capacity as int, offered) =~= offered);
    }
}

/// A queue that is not full takes an item at its end, and a full one none. The item at the front is
/// the one that leaves, and the others keep their order.
pub proof fn law_items_join_behind_and_leave_in_front<T>(
    items: Seq<T>,
    capacity: int,
    item: T,
    i: int,
)
    requires
        0 <= i < items.len() <= capacity,
    ensures
        enqueued(items, capacity, item)[i] == items[i],
        items.len() < capacity ==> enqueued(items, capacity, item).len() == items.len() + 1
            && enqueued(items, capacity, item)[items.len() as int] == item,
        items.len() == capacity ==> enqueued(items, capacity, item).len() == items.len(),
        dequeued(items).len() == items.len() - 1,
        i > 0 ==> dequeued(items)[i - 1] == items[i],
        dequeued(Seq::<T>::empty()).len() == 0,
        0 < capacity ==> enqueued(Seq::<T>::empty(), capacity, item) == seq![item],
{
    assert(Seq::<T>::empty().push(item) =~= seq![item]);
}

/// Positions go around the buffer: the index grows by one up to the last place and begins again at
/// zero, and the lap changes exactly there.
pub proof fn law_positions_go_around(position: int, one_lap: int, capacity: int)
    requires
        0 < capacity,
        is_lap_size(one_lap, capacity),
        is_position(position, one_lap, capacity),
    ensures
        ({
            let next = position_after(position, one_lap, capacity);
            let index = position % one_lap;
            &&& is_position(next, one_lap, capacity)
            &&& index + 1 < capacity ==> next == position + 1 && next % one_lap == index + 1
            &&& index + 1 == capacity ==> next % one_lap == 0 && (next == position - index + one_lap
                || next == 0 && position - index + one_lap == usize::MAX + 1)
        }),
{
    lemma_lap_fits(position, one_lap, capacity);
    lemma_next_lap(position, one_lap, capacity);
    let index = index_of(position, one_lap);
    let lap = lap_of(position, one_lap);
    let next = position_after(position, one_lap, capacity);
    if index + 1 < capacity {
        lemma_position_parts(lap, index + 1, one_lap);
    } else {
        assert(next % one_lap == 0);
    }
}

/// Laps are as near to each other as the bits of an index let them be: their distance is the
/// smallest power of two above the capacity.
pub proof fn law_laps_are_close(one_lap: int, capacity: int, other: int)
    requires
        0 < capacity,
        is_lap_size(one_lap, capacity),
        power2::is_pow2(other),
        capacity < other,
    ensures
        capacity < one_lap <= other,
{
    let e = bits::lemma_exponent(one_lap);
    let f = bits::lemma_exponent(other);
    if f < e {
        power2::lemma_pow2_strictly_increases(f, e);
        if f + 1 < e {
            power2::lemma_pow2_strictly_increases(f + 1, e);
        }
        power2::lemma_pow2_unfold(f + 1);
        assert(2 * other <= one_lap);
    } else if e < f {
        power2::lemma_pow2_strictly_increases(e, f);
    }
}

} // verus!
