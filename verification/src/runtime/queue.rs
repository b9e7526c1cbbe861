//! A queue with one slot for everything that can be woken.
use crate::bits;
use crate::counting;
use crate::index::QueueIndex;
use crate::queue::{QueueSlotState, ENQUEUED_BIT, IN_PROGRESS_BIT};
use vstd::prelude::*;

verus! {

/// What a worker does after it has run a slot.
#[derive(Debug, Clone, Copy, PartialEq, Eq, Structural)]
pub enum DoneWithItem {
    Done,
    /// The slot was enqueued again while it ran.
    GoAgain,
}

/// What a worker that looks for work does next.
#[derive(Debug, Clone, Copy, PartialEq, Eq, Structural)]
pub enum DequeueStep {
    /// Sleep until something is enqueued.
    Sleep,
    /// Run this slot.
    Run(QueueIndex),
}

/// The meaning of the two bits of a slot.
pub open spec fn state_of(flags: u8) -> QueueSlotState {
    QueueSlotState { is_enqueued: flags & ENQUEUED_BIT != 0, is_in_progress: flags
        & IN_PROGRESS_BIT != 0 }
}

/// The slot waits for a worker.
pub open spec fn waits(state: QueueSlotState) -> bool {
    state.is_enqueued && !state.is_in_progress
}

pub open spec fn is_waiting() -> spec_fn(QueueSlotState) -> bool {
    |state: QueueSlotState| waits(state)
}

pub open spec fn idle() -> QueueSlotState {
    QueueSlotState { is_enqueued: false, is_in_progress: false }
}

/// A worker runs the slot.
pub open spec fn running() -> QueueSlotState {
    QueueSlotState { is_enqueued: false, is_in_progress: true }
}

/// The place that is `steps` behind `cursor`, in a circle of `len` places.
pub open spec fn place(cursor: int, steps: int, len: int) -> int {
    if cursor + steps < len {
        cursor + steps
    } else {
        cursor + steps - len
    }
}

/// `i` is the first place, from `cursor` on and around, that waits for a worker.
pub open spec fn is_first_waiting(slots: Seq<QueueSlotState>, cursor: int, i: int) -> bool {
    exists|steps: int|
        {
            &&& 0 <= steps < slots.len()
            &&& i == #[trigger] place(cursor, steps, slots.len() as int)
            &&& waits(slots[i])
            &&& forall|other: int|
                0 <= other < steps ==> !waits(
                    slots[#[trigger] place(cursor, other, slots.len() as int)],
                )
        }
}

/// No place waits for a worker.
pub open spec fn none_waits(slots: Seq<QueueSlotState>) -> bool {
    forall|i: int| 0 <= i < slots.len() ==> !waits(#[trigger] slots[i])
}

#[derive(Debug)]
pub struct ComplexQueue {
    queue: Vec<u8>,
    index: usize,
    /// number of currently enqueued items
    active: u32,
}

impl ComplexQueue {
    pub closed spec fn slots(&self) -> Seq<QueueSlotState> {
        Seq::new(self.queue@.len(), |i: int| state_of(self.queue@[i]))
    }

    /// Where the next search for work begins.
    pub closed spec fn cursor(&self) -> int {
        self.index as int
    }

    /// The number that workers look at before they sleep.
    pub closed spec fn active(&self) -> int {
        self.active as int
    }

    /// The counter is the number of slots that wait for a worker.
    pub closed spec fn wf(&self) -> bool {
        &&& self.queue@.len() < u32::MAX
        &&& self.index <= self.queue@.len()
        &&& self.queue@.len() > 0 ==> self.index < self.queue@.len()
        &&& forall|i: int| 0 <= i < self.queue@.len() ==> #[trigger] self.queue@[i] <= 3
        &&& self.active == counting::count(self.slots(), is_waiting())
    }

    /// What a sound queue can be relied on for.
    pub proof fn lemma_bounds(&self)
        requires
            self.wf(),
        ensures
            self.slots().len() < u32::MAX,
            0 <= self.active() <= self.slots().len(),
            0 <= self.cursor() <= self.slots().len(),
            self.slots().len() > 0 ==> self.cursor() < self.slots().len(),
            self.active() == counting::count(self.slots(), is_waiting()),
    {
        counting::lemma_count_at_most_len(self.slots(), is_waiting());
    }

    pub fn with_capacity(capacity: usize) -> (queue: Self)
        requires
            capacity < u32::MAX,
        ensures
            queue.wf(),
            queue.slots() == Seq::new(capacity as nat, |i: int| idle()),
            queue.active() == 0,
            queue.cursor() == 0,
    {
        let mut queue: Vec<u8> = Vec::new();
        while queue.len() < capacity
            invariant
                queue.len() <= capacity,
                forall|i: int| 0 <= i < queue@.len() ==> #[trigger] queue@[i] == 0,
            decreases capacity - queue.len(),
        {
            queue.push(0);
        }
        let result = ComplexQueue { queue, index: 0, active: 0 };
        proof {
            bits::lemma_two_flags(0);
            counting::lemma_count_zero(result.slots(), is_waiting());
        }
        result
    }

    pub fn capacity(&self) -> (capacity: usize)
        ensures
            capacity == self.slots().len(),
    {
        self.queue.len()
    }

    /// The state of a slot.
    pub fn state(&self, index: QueueIndex) -> (state: QueueSlotState)
        requires
            index.index < self.slots().len(),
        ensures
            state == self.slots()[index.index as int],
    {
        let flags: u8 = self.queue[index.index as usize];
        QueueSlotState {
            is_enqueued: flags & ENQUEUED_BIT != 0,
            is_in_progress: flags & IN_PROGRESS_BIT != 0,
        }
    }

    pub fn load_active(&self) -> (active: u32)
        ensures
            active == self.active(),
    {
        self.active
    }

    /// Slot `i`, and nothing else, has the value `flags` now.
    proof fn lemma_updated(&self, before: &Self, i: int, flags: u8)
        requires
            0 <= i < before.queue@.len(),
            self.queue@ == before.queue@.update(i, flags),
        ensures
            self.slots() == before.slots().update(i, state_of(flags)),
            counting::count(self.slots(), is_waiting()) == counting::count(
                before.slots(),
                is_waiting(),
            ) - (if waits(before.slots()[i]) {
                1int
            } else {
                0int
            }) + (if waits(state_of(flags)) {
                1int
            } else {
                0int
            }),
    {
        assert(self.slots() =~= before.slots().update(i, state_of(flags)));
        counting::lemma_count_update(before.slots(), is_waiting(), i, state_of(flags));
    }

    /// Counts one more slot.
    fn increment_active(&mut self)
        requires
            old(self).active() < u32::MAX,
        ensures
            final(self).slots() == old(self).slots(),
            final(self).cursor() == old(self).cursor(),
            final(self).active() == old(self).active() + 1,
            final(self).queue@ == old(self).queue@,
    {
        self.active = self.active + 1;
    }

    /// Counts one slot less.
    fn decrement_active(&mut self)
        requires
            old(self).active() > 0,
        ensures
            final(self).slots() == old(self).slots(),
            final(self).cursor() == old(self).cursor(),
            final(self).active() == old(self).active() - 1,
            final(self).queue@ == old(self).queue@,
    {
        self.active = self.active - 1;
    }

    /// Whether a worker that looks for work has to sleep.
    pub fn wait_active(&self) -> (sleep: bool)
        ensures
            sleep == (self.active() == 0),
    {
        self.active == 0
    }

    /// Enqueues a slot. The result is always `Ok`; it tells whether a sleeping worker has to be
    /// woken.
    pub fn enqueue(&mut self, index: QueueIndex) -> (wake_one: Result<bool, QueueIndex>)
        requires
            old(self).wf(),
            index.index < old(self).slots().len(),
        ensures
            final(self).wf(),
            final(self).cursor() == old(self).cursor(),
            ({
                let before = old(self).slots()[index.index as int];
                &&& wake_one == Ok::<bool, QueueIndex>(before == idle())
                &&& final(self).slots() == old(self).slots().update(
                    index.index as int,
                    QueueSlotState { is_enqueued: true, ..before },
                )
                &&& final(self).active() == old(self).active() + if before == idle() {
                    1int
                } else {
                    0int
                }
            }),
    {
        let i: usize = index.index as usize;
        proof {
            self.lemma_bounds();
        }
        // The counter goes up before the slot is marked: a worker that claims the slot in between
        // then always finds something to count down.
        self.increment_active();
        let value: u8 = self.queue[i];
        self.queue[i] = value | ENQUEUED_BIT;
        proof {
            bits::lemma_two_flags(value);
            bits::lemma_two_flags(value | ENQUEUED_BIT);
            self.lemma_updated(old(self), i as int, value | ENQUEUED_BIT);
        }
        // if the slot is already enqueued or in progress, don't increment the active count
        let new_active = value == 0;
        if !new_active {
            self.decrement_active();
        }
        Ok(new_active)
    }

    /// A worker has run a slot.
    #[must_use]
    pub fn done_with_item(&mut self, index: QueueIndex) -> (done: DoneWithItem)
        requires
            old(self).wf(),
            index.index < old(self).slots().len(),
            old(self).slots()[index.index as int].is_in_progress,
        ensures
            final(self).wf(),
            final(self).cursor() == old(self).cursor(),
            final(self).active() == old(self).active(),
            ({
                let before = old(self).slots()[index.index as int];
                &&& done == if before.is_enqueued {
                    DoneWithItem::GoAgain
                } else {
                    DoneWithItem::Done
                }
                &&& final(self).slots() == old(self).slots().update(
                    index.index as int,
                    if before.is_enqueued {
                        running()
                    } else {
                        idle()
                    },
                )
            }),
    {
        let i: usize = index.index as usize;
        let value: u8 = self.queue[i];
        proof {
            bits::lemma_two_flags(value);
            bits::lemma_two_flags(0);
            bits::lemma_two_flags(IN_PROGRESS_BIT);
        }
        if value & ENQUEUED_BIT != 0 {
            // this slot got enqueued while we were processing it
            // slot must be processed again
            self.queue[i] = IN_PROGRESS_BIT;
            proof {
                self.lemma_updated(old(self), i as int, IN_PROGRESS_BIT);
            }
            DoneWithItem::GoAgain
        } else {
            self.queue[i] = 0;
            proof {
                self.lemma_updated(old(self), i as int, 0);
            }
            DoneWithItem::Done
        }
    }

    /// Empties a slot, whatever it is about. A slot that waited is not counted any more.
    pub fn clear(&mut self, index: usize)
        requires
            old(self).wf(),
            index < old(self).slots().len(),
        ensures
            final(self).wf(),
            final(self).cursor() == old(self).cursor(),
            final(self).active() == old(self).active() - if waits(old(self).slots()[index as int]) {
                1int
            } else {
                0int
            },
            final(self).slots() == old(self).slots().update(index as int, idle()),
    {
        let value: u8 = self.queue[index];
        self.queue[index] = 0;
        proof {
            bits::lemma_two_flags(0);
            bits::lemma_two_flags(value);
            self.lemma_updated(old(self), index as int, 0);
        }
        if value == ENQUEUED_BIT {
            self.decrement_active();
        }
    }

    /// Claims the next slot that waits for a worker. The search begins where the last one ended.
    pub fn try_dequeue(&mut self) -> (claimed: Option<QueueIndex>)
        requires
            old(self).wf(),
        ensures
            final(self).wf(),
            match claimed {
                None => {
                    &&& none_waits(old(self).slots())
                    &&& final(self).slots() == old(self).slots()
                    &&& final(self).cursor() == old(self).cursor()
                    &&& final(self).active() == old(self).active()
                },
                Some(index) => {
                    let i = index.index as int;
                    &&& index.identifier == 0
                    &&& i < old(self).slots().len()
                    &&& is_first_waiting(old(self).slots(), old(self).cursor(), i)
                    &&& final(self).slots() == old(self).slots().update(i, running())
                    &&& final(self).cursor() == i
                    &&& final(self).active() == old(self).active() - 1
                },
            },
    {
        let index: usize = self.index;
        let len: usize = self.queue.len();
        let mut i: usize = 0;
        while i < len
            invariant
                *self == *old(self),
                self.wf(),
                index == self.cursor(),
                len == self.slots().len(),
                i <= len,
                forall|other: int|
                    0 <= other < i ==> !waits(
                        self.slots()[#[trigger] place(index as int, other, len as int)],
                    ),
            decreases len - i,
        {
            let new_index: usize = if i < len - index {
                index + i
            } else {
                i - (len - index)
            };
            assert(new_index == place(index as int, i as int, len as int));
            proof {
                bits::lemma_two_flags(self.queue@[new_index as int]);
            }
            if self.queue[new_index] == ENQUEUED_BIT {
                self.queue[new_index] = IN_PROGRESS_BIT;
                self.index = new_index;
                proof {
                    bits::lemma_two_flags(IN_PROGRESS_BIT);
                    self.lemma_updated(old(self), new_index as int, IN_PROGRESS_BIT);
                    counting::lemma_count_positive(
                        old(self).slots(),
                        is_waiting(),
                        new_index as int,
                    );
                }
                self.decrement_active();
                return Some(QueueIndex { index: new_index as u32, identifier: 0 });
            }
            i = i + 1;
        }
        proof {
            assert forall|k: int| 0 <= k < self.slots().len() implies !waits(
                #[trigger] self.slots()[k],
            ) by {
                let steps = if k >= index {
                    k - index
                } else {
                    k - index + len
                };
                assert(place(index as int, steps, len as int) == k);
            }
        }
        None
    }

    /// One look for work. A worker sleeps exactly if no slot waits.
    pub fn blocking_dequeue(&mut self) -> (step: DequeueStep)
        requires
            old(self).wf(),
        ensures
            final(self).wf(),
            match step {
                DequeueStep::Sleep => {
                    &&& old(self).active() == 0
                    &&& none_waits(old(self).slots())
                    &&& final(self).slots() == old(self).slots()
                    &&& final(self).cursor() == old(self).cursor()
                    &&& final(self).active() == old(self).active()
                },
                DequeueStep::Run(index) => {
                    let i = index.index as int;
                    &&& index.identifier == 0
                    &&& i < old(self).slots().len()
                    &&& is_first_waiting(old(self).slots(), old(self).cursor(), i)
                    &&& final(self).slots() == old(self).slots().update(i, running())
                    &&& final(self).cursor() == i
                    &&& final(self).active() == old(self).active() - 1
                },
            },
    {
        if self.wait_active() {
            proof {
                assert forall|i: int| 0 <= i < self.slots().len() implies !waits(
                    #[trigger] self.slots()[i],
                ) by {
                    if waits(self.slots()[i]) {
                        counting::lemma_count_positive(self.slots(), is_waiting(), i);
                    }
                }
            }
            return DequeueStep::Sleep;
        }
        match self.try_dequeue() {
            None => {
                // something is counted, so something waits
                proof {
                    counting::lemma_count_zero(old(self).slots(), is_waiting());
                }
                DequeueStep::Sleep
            },
            Some(index) => DequeueStep::Run(index),
        }
    }
}

/// The number that workers look at is the number of slots that wait for one.
pub proof fn law_waiting_slots_are_counted(queue: ComplexQueue)
    requires
        queue.wf(),
    ensures
        queue.active() == counting::count(queue.slots(), is_waiting()),
{
}

/// No wake-up is lost: as long as a slot waits for a worker, a worker that looks for work does not
/// sleep. When none waits, it sleeps.
pub proof fn law_workers_sleep_when_nothing_waits(queue: ComplexQueue)
    requires
        queue.wf(),
    ensures
        queue.active() == 0 <==> none_waits(queue.slots()),
{
    if none_waits(queue.slots()) {
        counting::lemma_count_zero(queue.slots(), is_waiting());
    } else {
        let i = choose|i: int| 0 <= i < queue.slots().len() && waits(#[trigger] queue.slots()[i]);
        counting::lemma_count_positive(queue.slots(), is_waiting(), i);
    }
}

/// Which slot is claimed next is determined by the slots and the place of the last claim.
pub proof fn law_next_claim_is_determined(slots: Seq<QueueSlotState>, cursor: int, a: int, b: int)
    requires
        0 <= cursor < slots.len(),
        0 <= a < slots.len(),
        0 <= b < slots.len(),
        is_first_waiting(slots, cursor, a),
        is_first_waiting(slots, cursor, b),
    ensures
        a == b,
{
    let len = slots.len() as int;
    let i = choose|steps: int|
        {
            &&& 0 <= steps < slots.len()
            &&& a == #[trigger] place(cursor, steps, slots.len() as int)
            &&& waits(slots[a])
            &&& forall|other: int|
                0 <= other < steps ==> !waits(
                    slots[#[trigger] place(cursor, other, slots.len() as int)],
                )
        };
    let j = choose|steps: int|
        {
            &&& 0 <= steps < slots.len()
            &&& b == #[trigger] place(cursor, steps, slots.len() as int)
            &&& waits(slots[b])
            &&& forall|other: int|
                0 <= other < steps ==> !waits(
                    slots[#[trigger] place(cursor, other, slots.len() as int)],
                )
        };
    if i < j {
        assert(!waits(slots[place(cursor, i, len)]));
    } else if j < i {
        assert(!waits(slots[place(cursor, j, len)]));
    }
}

/// A slot is idle if it is neither enqueued nor in progress, running if it is in progress alone, and
/// waits if it is enqueued alone.
pub proof fn law_slots_wait_or_run(state: QueueSlotState)
    ensures
        waits(state) <==> state.is_enqueued && !state.is_in_progress,
        is_waiting()(state) <==> state.is_enqueued && !state.is_in_progress,
        state == idle() <==> !state.is_enqueued && !state.is_in_progress,
        state == running() <==> !state.is_enqueued && state.is_in_progress,
{
}

/// How far a place lies from another, going around in a circle of `len` places.
pub open spec fn distance(from: int, to: int, len: int) -> int {
    if to >= from {
        to - from
    } else {
        to - from + len
    }
}

/// The slot that is claimed next is enqueued and not in progress, and none that is lies nearer to
/// the place of the last claim, going around. There is such a slot unless none waits.
pub proof fn law_the_nearest_waiting_slot_is_claimed(
    slots: Seq<QueueSlotState>,
    cursor: int,
    i: int,
    other: int,
)
    requires
        0 <= cursor < slots.len(),
        0 <= i < slots.len(),
        0 <= other < slots.len(),
    ensures
        is_first_waiting(slots, cursor, i) ==> slots[i].is_enqueued && !slots[i].is_in_progress,
        is_first_waiting(slots, cursor, i) && slots[other].is_enqueued
            && !slots[other].is_in_progress ==> distance(cursor, i, slots.len() as int) <= distance(
            cursor,
            other,
            slots.len() as int,
        ),
        none_waits(slots) ==> !(slots[other].is_enqueued && !slots[other].is_in_progress),
        !none_waits(slots) ==> exists|j: int|
            0 <= j < slots.len() && #[trigger] is_first_waiting(slots, cursor, j),
{
    let len = slots.len() as int;
    if is_first_waiting(slots, cursor, i) && waits(slots[other]) {
        let steps = choose|steps: int|
            {
                &&& 0 <= steps < slots.len()
                &&& i == #[trigger] place(cursor, steps, slots.len() as int)
                &&& waits(slots[i])
                &&& forall|other: int|
                    0 <= other < steps ==> !waits(
                        slots[#[trigger] place(cursor, other, slots.len() as int)],
                    )
            };
        let d = distance(cursor, other, len);
        assert(place(cursor, d, len) == other);
        assert(distance(cursor, i, len) == steps);
    }
    if !none_waits(slots) {
        let k = choose|k: int| 0 <= k < slots.len() && waits(#[trigger] slots[k]);
        assert(place(cursor, distance(cursor, k, len), len) == k);
        lemma_some_slot_is_first(slots, cursor, distance(cursor, k, len));
    }
}

proof fn lemma_some_slot_is_first(slots: Seq<QueueSlotState>, cursor: int, steps: int)
    requires
        0 <= cursor < slots.len(),
        0 <= steps < slots.len(),
        waits(slots[place(cursor, steps, slots.len() as int)]),
    ensures
        exists|j: int| 0 <= j < slots.len() && #[trigger] is_first_waiting(slots, cursor, j),
    decreases steps,
{
    let len = slots.len() as int;
    if forall|other: int|
        0 <= other < steps ==> !waits(slots[#[trigger] place(cursor, other, len)]) {
        let j = place(cursor, steps, len);
        assert(is_first_waiting(slots, cursor, j));
    } else {
        let other = choose|other: int|
            0 <= other < steps && waits(slots[#[trigger] place(cursor, other, len)]);
        lemma_some_slot_is_first(slots, cursor, other);
    }
}

} // verus!
