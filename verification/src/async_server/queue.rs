//! A queue with one slot for everything that can be woken, and a count of those that wait.
use crate::bits;
use crate::counting;
use crate::index::QueueIndex;
use crate::queue::{QueueSlotState, Refcount, ENQUEUED_BIT, IN_PROGRESS_BIT};
use crate::runtime::queue;
use crate::runtime::queue::{DequeueStep, DoneWithItem};
use vstd::prelude::*;

verus! {

/// The two flags of a slot.
#[derive(Debug)]
pub struct QueueSlot(u8);

impl View for QueueSlot {
    type V = QueueSlotState;

    closed spec fn view(&self) -> QueueSlotState {
        queue::state_of(self.0)
    }
}

impl QueueSlot {
    /// No bits but the two flags are in use.
    pub closed spec fn wf(&self) -> bool {
        self.0 <= 3
    }

    pub fn empty() -> (slot: Self)
        ensures
            slot.wf(),
            slot@ == queue::idle(),
    {
        proof {
            bits::lemma_two_flags(0);
        }
        QueueSlot(0)
    }

    pub fn is_empty(&self) -> (result: bool)
        requires
            self.wf(),
        ensures
            result == (self@ == queue::idle()),
    {
        proof {
            bits::lemma_two_flags(self.0);
        }
        self.0 == 0
    }

    pub fn is_enqueued(&self) -> (result: bool)
        ensures
            result == self@.is_enqueued,
    {
        self.0 & ENQUEUED_BIT != 0
    }

    pub fn is_in_progress(&self) -> (result: bool)
        ensures
            result == self@.is_in_progress,
    {
        self.0 & IN_PROGRESS_BIT != 0
    }

    pub fn mark_empty(&mut self)
        ensures
            final(self).wf(),
            final(self)@ == queue::idle(),
    {
        proof {
            bits::lemma_two_flags(0);
        }
        self.0 = 0;
    }

    /// Claims a slot for a worker. This works only on a slot that waits for one.
    pub fn try_process(&mut self) -> (result: Result<(), ()>)
        requires
            old(self).wf(),
        ensures
            final(self).wf(),
            result is Ok <==> queue::waits(old(self)@),
            final(self)@ == if queue::waits(old(self)@) {
                queue::running()
            } else {
                old(self)@
            },
    {
        proof {
            bits::lemma_two_flags(self.0);
            bits::lemma_two_flags(IN_PROGRESS_BIT);
        }
        if self.0 == ENQUEUED_BIT {
            self.0 = IN_PROGRESS_BIT;
            Ok(())
        } else {
            Err(())
        }
    }

    /// Sets a flag, and tells what the flags were before.
    pub fn mark_enqueued(&mut self) -> (before: QueueSlotState)
        requires
            old(self).wf(),
        ensures
            final(self).wf(),
            before == old(self)@,
            final(self)@ == (QueueSlotState { is_enqueued: true, ..old(self)@ }),
    {
        let before = self.state();
        proof {
            bits::lemma_two_flags(self.0);
            bits::lemma_two_flags(self.0 | ENQUEUED_BIT);
        }
        self.0 = self.0 | ENQUEUED_BIT;
        before
    }

    pub fn mark_in_progress(&mut self)
        requires
            old(self).wf(),
        ensures
            final(self).wf(),
            final(self)@ == (QueueSlotState { is_in_progress: true, ..old(self)@ }),
    {
        proof {
            bits::lemma_two_flags(self.0);
            bits::lemma_two_flags(self.0 | IN_PROGRESS_BIT);
        }
        self.0 = self.0 | IN_PROGRESS_BIT;
    }

    /// Clears a flag, and tells what the flags were before.
    pub fn clear_enqueued(&mut self) -> (before: QueueSlotState)
        requires
            old(self).wf(),
        ensures
            final(self).wf(),
            before == old(self)@,
            final(self)@ == (QueueSlotState { is_enqueued: false, ..old(self)@ }),
    {
        let before = self.state();
        proof {
            bits::lemma_two_flags(self.0);
            bits::lemma_two_flags(self.0 & !ENQUEUED_BIT);
        }
        self.0 = self.0 & !ENQUEUED_BIT;
        before
    }

    /// Clears a flag, and tells what the flags were before.
    pub fn clear_in_progress(&mut self) -> (before: QueueSlotState)
        requires
            old(self).wf(),
        ensures
            final(self).wf(),
            before == old(self)@,
            final(self)@ == (QueueSlotState { is_in_progress: false, ..old(self)@ }),
    {
        let before = self.state();
        proof {
            bits::lemma_two_flags(self.0);
            bits::lemma_two_flags(self.0 & !IN_PROGRESS_BIT);
        }
        self.0 = self.0 & !IN_PROGRESS_BIT;
        before
    }

    fn state(&self) -> (state: QueueSlotState)
        ensures
            state == self@,
    {
        QueueSlotState {
            is_enqueued: self.is_enqueued(),
            is_in_progress: self.is_in_progress(),
        }
    }
}

/// The slots, and the number that workers look at before they sleep.
#[verifier::ext_equal]
pub struct QueueView {
    pub slots: Seq<QueueSlotState>,
    pub available: int,
}

impl QueueView {
    /// A queue that nothing was enqueued in.
    pub open spec fn fresh(capacity: nat) -> Self {
        QueueView { slots: Seq::new(capacity, |i: int| queue::idle()), available: 0 }
    }

    /// A slot was enqueued. It is counted if it neither waited already nor runs at the moment.
    pub open spec fn enqueued(self, i: int) -> Self {
        QueueView {
            slots: self.slots.update(i, QueueSlotState { is_enqueued: true, ..self.slots[i] }),
            available: self.available + if self.slots[i] == queue::idle() {
                1int
            } else {
                0int
            },
        }
    }

    /// `i` is the first slot that waits for a worker.
    pub open spec fn is_first_waiting(self, i: int) -> bool {
        &&& 0 <= i < self.slots.len()
        &&& queue::waits(self.slots[i])
        &&& forall|j: int| 0 <= j < i ==> !queue::waits(#[trigger] self.slots[j])
    }

    /// A worker has claimed a slot.
    pub open spec fn claimed(self, i: int) -> Self {
        QueueView {
            slots: self.slots.update(i, queue::running()),
            available: self.available - 1,
        }
    }

    /// A worker has run a slot, and keeps it.
    pub open spec fn kept(self, i: int) -> Self {
        QueueView { slots: self.slots.update(i, queue::running()), ..self }
    }

    /// A worker has emptied the slot that it ran.
    pub open spec fn emptied(self, i: int) -> Self {
        QueueView { slots: self.slots.update(i, queue::idle()), ..self }
    }

    /// A worker has given up a slot. If it was enqueued in the meantime it waits again.
    pub open spec fn given_up(self, i: int) -> Self {
        QueueView {
            slots: self.slots.update(i, QueueSlotState { is_in_progress: false, ..self.slots[i] }),
            available: self.available + if self.slots[i].is_enqueued {
                1int
            } else {
                0int
            },
        }
    }
}

#[derive(Debug)]
pub struct ComplexQueue {
    queue: Vec<QueueSlot>,
    /// number of currently enqueued items
    jobs_in_queue: Refcount,
}

impl View for ComplexQueue {
    type V = QueueView;

    closed spec fn view(&self) -> QueueView {
        QueueView {
            slots: Seq::new(self.queue@.len(), |i: int| self.queue@[i]@),
            available: self.jobs_in_queue@,
        }
    }
}

impl ComplexQueue {
    pub open spec fn slots(&self) -> Seq<QueueSlotState> {
        self@.slots
    }

    /// The number that workers look at before they sleep.
    pub open spec fn available(&self) -> int {
        self@.available
    }

    /// The counter is the number of slots that wait for a worker. Slots whose number does not fit
    /// into 32 bits are never used.
    pub closed spec fn wf(&self) -> bool {
        &&& forall|i: int|
            u32::MAX < i < self.queue@.len() ==> (#[trigger] self.queue@[i])@ == queue::idle()
        &&& forall|i: int| 0 <= i < self.queue@.len() ==> #[trigger] self.queue@[i].wf()
        &&& self.jobs_in_queue@ == counting::count(self.slots(), queue::is_waiting())
    }

    /// What a sound queue can be relied on for.
    pub proof fn lemma_bounds(&self)
        requires
            self.wf(),
        ensures
            0 <= self.available() <= self.slots().len(),
            self.available() == counting::count(self.slots(), queue::is_waiting()),
    {
        counting::lemma_count_at_most_len(self.slots(), queue::is_waiting());
    }

    pub fn with_capacity(capacity: usize) -> (queue: Self)
        ensures
            queue.wf(),
            queue@ == QueueView::fresh(capacity as nat),
    {
        let mut queue: Vec<QueueSlot> = Vec::new();
        while queue.len() < capacity
            invariant
                queue.len() <= capacity,
                forall|i: int|
                    0 <= i < queue@.len() ==> (#[trigger] queue@[i]).wf() && queue@[i]@
                        == queue::idle(),
            decreases capacity - queue.len(),
        {
            queue.push(QueueSlot::empty());
        }
        let result = ComplexQueue { queue, jobs_in_queue: Refcount::new() };
        proof {
            counting::lemma_count_zero(result.slots(), queue::is_waiting());
        }
        result
    }

    pub fn capacity(&self) -> (capacity: usize)
        ensures
            capacity == self.slots().len(),
    {
        self.queue.len()
    }

    /// The state of a slot.
    pub fn state(&self, index: QueueIndex) -> (state: QueueSlotState)
        requires
            index.index < self.slots().len(),
        ensures
            state == self.slots()[index.index as int],
    {
        self.queue[index.index as usize].state()
    }

    fn increment_jobs_available(&mut self) -> (available: u32)
        requires
            old(self).available() < u32::MAX,
        ensures
            final(self).slots() == old(self).slots(),
            final(self).queue@ == old(self).queue@,
            final(self).available() == old(self).available() + 1,
            available == final(self).available(),
    {
        self.jobs_in_queue.increment_active()
    }

    fn decrement_jobs_available(&mut self) -> (available: u32)
        requires
            old(self).available() > 0,
        ensures
            final(self).slots() == old(self).slots(),
            final(self).queue@ == old(self).queue@,
            final(self).available() == old(self).available() - 1,
            available == final(self).available(),
    {
        self.jobs_in_queue.decrement_active()
    }

    pub fn load_jobs_available(&self) -> (available: u32)
        ensures
            available == self.available(),
    {
        self.jobs_in_queue.load()
    }

    /// The number of counted slots, or `None` if the caller has to sleep.
    pub fn wait_jobs_available(&self) -> (available: Option<u32>)
        ensures
            available == if self.available() == 0 {
                None
            } else {
                Some(self.available() as u32)
            },
    {
        self.jobs_in_queue.wait_active()
    }

    /// Slot `i`, and nothing else, has the state `state` now.
    proof fn lemma_updated(&self, before: &Self, i: int, state: QueueSlotState)
        requires
            0 <= i < before.queue@.len(),
            self.queue@.len() == before.queue@.len(),
            self.queue@[i]@ == state,
            forall|j: int|
                0 <= j < self.queue@.len() && j != i ==> self.queue@[j] == before.queue@[j],
        ensures
            self.slots() == before.slots().update(i, state),
            counting::count(self.slots(), queue::is_waiting()) == counting::count(
                before.slots(),
                queue::is_waiting(),
            ) - (if queue::waits(before.slots()[i]) {
                1int
            } else {
                0int
            }) + (if queue::waits(state) {
                1int
            } else {
                0int
            }),
    {
        assert(self.slots() =~= before.slots().update(i, state));
        counting::lemma_count_update(before.slots(), queue::is_waiting(), i, state);
    }

    /// Whether one more slot can be counted with 32 bits. In a queue that has fewer slots than that
    /// there is always room.
    pub open spec fn can_count(&self) -> bool {
        self.slots().len() < u32::MAX || self.available() < u32::MAX
    }

    /// Enqueues a slot. The result is always `Ok`; it tells whether a sleeping worker has to be
    /// woken.
    pub fn enqueue(&mut self, index: QueueIndex) -> (wake_one: Result<bool, QueueIndex>)
        requires
            old(self).wf(),
            old(self).can_count(),
            index.index < old(self).slots().len(),
        ensures
            final(self).wf(),
            wake_one == Ok::<bool, QueueIndex>(
                old(self).slots()[index.index as int] == queue::idle(),
            ),
            final(self)@ == old(self)@.enqueued(index.index as int),
    {
        let i: usize = index.index as usize;
        proof {
            self.lemma_bounds();
            assert(self.queue@[i as int].wf());
        }
        // eagerly increment (but don't wake anyone yet). This is to prevent race conditions
        // between marking the slot as enqueued and updating the count of enqueued slots.
        self.increment_jobs_available();
        let old_slot_state = self.queue[i].mark_enqueued();
        proof {
            self.lemma_updated(
                old(self),
                i as int,
                QueueSlotState { is_enqueued: true, ..old(self).slots()[i as int] },
            );
        }
        if !old_slot_state.is_enqueued && !old_slot_state.is_in_progress {
            // this is a new job, notify a worker
            Ok(true)
        } else {
            // the job was already enqueued, revert
            self.decrement_jobs_available();
            Ok(false)
        }
    }

    /// A worker has run a slot, and keeps it.
    #[must_use]
    pub fn done_with_item(&mut self, index: QueueIndex) -> (done: DoneWithItem)
        requires
            old(self).wf(),
            index.index < old(self).slots().len(),
            old(self).slots()[index.index as int].is_in_progress,
        ensures
            final(self).wf(),
            done == if old(self).slots()[index.index as int].is_enqueued {
                DoneWithItem::GoAgain
            } else {
                DoneWithItem::Done
            },
            final(self)@ == old(self)@.kept(index.index as int),
    {
        let i: usize = index.index as usize;
        assert(self.queue@[i as int].wf());
        let old_slot_state = self.queue[i].clear_enqueued();
        proof {
            self.lemma_updated(old(self), i as int, queue::running());
        }
        if old_slot_state.is_enqueued {
            // slot got enqueued while processing; process it again
            DoneWithItem::GoAgain
        } else {
            DoneWithItem::Done
        }
    }

    /// A worker that runs a slot empties it.
    pub fn done_with_item_forever(&mut self, index: QueueIndex)
        requires
            old(self).wf(),
            index.index < old(self).slots().len(),
            old(self).slots()[index.index as int].is_in_progress,
        ensures
            final(self).wf(),
            final(self)@ == old(self)@.emptied(index.index as int),
    {
        let i: usize = index.index as usize;
        self.queue[i].mark_empty();
        proof {
            self.lemma_updated(old(self), i as int, queue::idle());
        }
    }

    /// A worker gives up a slot. A slot that was enqueued in the meantime waits again, and is
    /// counted.
    pub fn give_up(&mut self, index: QueueIndex)
        requires
            old(self).wf(),
            old(self).can_count(),
            index.index < old(self).slots().len(),
            old(self).slots()[index.index as int].is_in_progress,
        ensures
            final(self).wf(),
            final(self)@ == old(self)@.given_up(index.index as int),
    {
        let i: usize = index.index as usize;
        assert(self.queue@[i as int].wf());
        proof {
            self.lemma_bounds();
        }
        let old_slot_state = self.queue[i].clear_in_progress();
        proof {
            self.lemma_updated(
                old(self),
                i as int,
                QueueSlotState { is_in_progress: false, ..old(self).slots()[i as int] },
            );
        }
        if old_slot_state.is_enqueued {
            self.increment_jobs_available();
        }
    }

    /// Claims the first slot that waits for a worker.
    pub fn try_dequeue(&mut self) -> (claimed: Option<QueueIndex>)
        requires
            old(self).wf(),
        ensures
            final(self).wf(),
            match claimed {
                None => queue::none_waits(old(self).slots()) && final(self)@ == old(self)@,
                Some(index) => {
                    &&& index.identifier == 0
                    &&& old(self)@.is_first_waiting(index.index as int)
                    &&& final(self)@ == old(self)@.claimed(index.index as int)
                },
            },
    {
        let len: usize = self.queue.len();
        let mut i: usize = 0;
        while i < len
            invariant
                i <= len,
                len == self.queue.len(),
                self.wf(),
                self.slots() == old(self).slots(),
                self.available() == old(self).available(),
                forall|j: int| 0 <= j < i ==> !queue::waits(#[trigger] old(self).slots()[j]),
            decreases len - i,
        {
            assert(self.queue@[i as int].wf());
            let ghost before = *self;
            // find a task that is enqueued but not yet in progress
            let claim = self.queue[i].try_process();
            if claim.is_ok() {
                proof {
                    counting::lemma_count_positive(
                        before.slots(),
                        queue::is_waiting(),
                        i as int,
                    );
                    self.lemma_updated(&before, i as int, queue::running());
                }
                self.decrement_jobs_available();
                return Some(QueueIndex { index: i as u32, identifier: 0 });
            }
            // either
            //
            // - the slot is empty
            // - the slot is not enqueued
            // - the slot is already in progress
            proof {
                self.lemma_updated(&before, i as int, before.slots()[i as int]);
                assert(self.slots() =~= before.slots());
            }
            i = i + 1;
        }
        None
    }

    /// One look for work. A worker sleeps exactly if no slot waits.
    pub fn blocking_dequeue(&mut self) -> (step: DequeueStep)
        requires
            old(self).wf(),
        ensures
            final(self).wf(),
            match step {
                DequeueStep::Sleep => {
                    &&& old(self).available() == 0
                    &&& queue::none_waits(old(self).slots())
                    &&& final(self)@ == old(self)@
                },
                DequeueStep::Run(index) => {
                    &&& old(self).available() > 0
                    &&& index.identifier == 0
                    &&& old(self)@.is_first_waiting(index.index as int)
                    &&& final(self)@ == old(self)@.claimed(index.index as int)
                },
            },
    {
        proof {
            law_workers_sleep_when_nothing_waits(*self);
        }
        match self.wait_jobs_available() {
            None => DequeueStep::Sleep,
            Some(_) => match self.try_dequeue() {
                // something is counted, so something waits
                None => DequeueStep::Sleep,
                Some(index) => DequeueStep::Run(index),
            },
        }
    }
}

/// The number that workers look at is the number of slots that wait for one.
pub proof fn law_waiting_slots_are_counted(queue: ComplexQueue)
    requires
        queue.wf(),
    ensures
        queue.available() == counting::count(queue.slots(), queue::is_waiting()),
{
}

/// No wake-up is lost: as long as a slot waits for a worker, a worker that looks for work does not
/// sleep. When none waits, it sleeps.
pub proof fn law_workers_sleep_when_nothing_waits(queue: ComplexQueue)
    requires
        queue.wf(),
    ensures
        queue.available() == 0 <==> queue::none_waits(queue.slots()),
{
    if queue::none_waits(queue.slots()) {
        counting::lemma_count_zero(queue.slots(), queue::is_waiting());
    } else {
        let i = choose|i: int|
            0 <= i < queue.slots().len() && queue::waits(#[trigger] queue.slots()[i]);
        counting::lemma_count_positive(queue.slots(), queue::is_waiting(), i);
    }
}

/// One call on a queue.
pub enum Call {
    Enqueue(int),
    /// A claim of the first slot that waits.
    Claim(int),
    /// A claim that finds nothing.
    FindNothing,
    Keep(int),
    Empty(int),
    GiveUp(int),
}

impl QueueView {
    /// Whether the call can be made, and ends so.
    pub open spec fn allows(self, call: Call) -> bool {
        match call {
            Call::Enqueue(i) => 0 <= i < self.slots.len(),
            Call::Claim(i) => self.is_first_waiting(i),
            Call::FindNothing => queue::none_waits(self.slots),
            Call::Keep(i) | Call::Empty(i) | Call::GiveUp(i) => 0 <= i < self.slots.len()
                && self.slots[i].is_in_progress,
        }
    }

    /// The queue after a call.
    pub open spec fn after(self, call: Call) -> Self {
        match call {
            Call::Enqueue(i) => self.enqueued(i),
            Call::Claim(i) => self.claimed(i),
            Call::FindNothing => self,
            Call::Keep(i) => self.kept(i),
            Call::Empty(i) => self.emptied(i),
            Call::GiveUp(i) => self.given_up(i),
        }
    }
}

/// A new queue after a series of calls.
pub open spec fn after_calls(capacity: nat, calls: Seq<Call>) -> QueueView
    decreases calls.len(),
{
    if calls.len() == 0 {
        QueueView::fresh(capacity)
    } else {
        after_calls(capacity, calls.drop_last()).after(calls.last())
    }
}

/// Every call of a series can be made.
pub open spec fn can_be_made(capacity: nat, calls: Seq<Call>) -> bool
    decreases calls.len(),
{
    calls.len() > 0 ==> {
        &&& can_be_made(capacity, calls.drop_last())
        &&& after_calls(capacity, calls.drop_last()).allows(calls.last())
    }
}

/// Whatever calls are made on a new queue, the number that workers look at is the number of slots
/// that wait for one.
pub proof fn law_every_call_is_counted(capacity: nat, calls: Seq<Call>)
    requires
        can_be_made(capacity, calls),
    ensures
        after_calls(capacity, calls).slots.len() == capacity,
        after_calls(capacity, calls).available == counting::count(
            after_calls(capacity, calls).slots,
            queue::is_waiting(),
        ),
    decreases calls.len(),
{
    let waiting = queue::is_waiting();
    if calls.len() == 0 {
        counting::lemma_count_zero(QueueView::fresh(capacity).slots, waiting);
    } else {
        law_every_call_is_counted(capacity, calls.drop_last());
        let before = after_calls(capacity, calls.drop_last());
        let after = after_calls(capacity, calls);
        match calls.last() {
            Call::Enqueue(i) | Call::Claim(i) | Call::Keep(i) | Call::Empty(i) | Call::GiveUp(i) => {
                counting::lemma_count_update(before.slots, waiting, i, after.slots[i]);
            },
            Call::FindNothing => {},
        }
    }
}

/// A new queue has the capacity that was asked for, every slot is idle, nothing is counted, and
/// there is nothing to claim.
pub proof fn law_new_queues_are_idle(capacity: nat, i: int)
    ensures
        QueueView::fresh(capacity).slots.len() == capacity,
        0 <= i < capacity ==> QueueView::fresh(capacity).slots[i] == queue::idle(),
        QueueView::fresh(capacity).available == 0,
        queue::none_waits(QueueView::fresh(capacity).slots),
        !QueueView::fresh(capacity).is_first_waiting(i),
{
}

/// Every call changes at most one slot, and counts it exactly if it begins or ceases to wait: an
/// enqueued slot waits unless it did already or runs, a claimed slot waits no more, and a slot that
/// is given up waits again if it was enqueued while it ran.
pub proof fn law_slots_change_hands(queue: QueueView, i: int, other: int)
    requires
        0 <= i < queue.slots.len(),
        0 <= other < queue.slots.len(),
        other != i,
    ensures
        ({
            let slot = queue.slots[i];
            let after = queue.enqueued(i);
            &&& after.slots.len() == queue.slots.len() && after.slots[other] == queue.slots[other]
            &&& after.slots[i].is_enqueued
            &&& after.slots[i].is_in_progress == slot.is_in_progress
            &&& slot.is_enqueued || slot.is_in_progress ==> after.available == queue.available
            &&& !slot.is_enqueued && !slot.is_in_progress ==> after.available == queue.available + 1
        }),
        ({
            let after = queue.claimed(i);
            &&& after.slots.len() == queue.slots.len() && after.slots[other] == queue.slots[other]
            &&& !after.slots[i].is_enqueued && after.slots[i].is_in_progress
            &&& after.available == queue.available - 1
        }),
        ({
            let after = queue.kept(i);
            &&& after.slots.len() == queue.slots.len() && after.slots[other] == queue.slots[other]
            &&& !after.slots[i].is_enqueued && after.slots[i].is_in_progress
            &&& after.available == queue.available
        }),
        ({
            let after = queue.emptied(i);
            &&& after.slots.len() == queue.slots.len() && after.slots[other] == queue.slots[other]
            &&& !after.slots[i].is_enqueued && !after.slots[i].is_in_progress
            &&& after.available == queue.available
        }),
        ({
            let slot = queue.slots[i];
            let after = queue.given_up(i);
            &&& after.slots.len() == queue.slots.len() && after.slots[other] == queue.slots[other]
            &&& !after.slots[i].is_in_progress
            &&& after.slots[i].is_enqueued == slot.is_enqueued
            &&& slot.is_enqueued ==> after.available == queue.available + 1
            &&& !slot.is_enqueued ==> after.available == queue.available
        }),
{
}

/// The slot that is claimed is the lowest that is enqueued and not in progress.
pub proof fn law_the_lowest_waiting_slot_is_claimed(queue: QueueView, i: int, other: int)
    requires
        queue.is_first_waiting(i),
    ensures
        0 <= i < queue.slots.len(),
        queue.slots[i].is_enqueued,
        !queue.slots[i].is_in_progress,
        0 <= other < queue.slots.len() && queue.slots[other].is_enqueued
            && !queue.slots[other].is_in_progress ==> i <= other,
{
}

/// A slot that was enqueued is claimed once, whatever happens to other slots meanwhile: after the
/// claim it does not wait until it is enqueued again and its worker is done with it.
pub proof fn law_an_enqueued_slot_is_claimed_once(queue: QueueView, i: int)
    requires
        0 <= i < queue.slots.len(),
    ensures
        !queue.claimed(i).is_first_waiting(i),
        !queue.claimed(i).enqueued(i).is_first_waiting(i),
        !queue.claimed(i).given_up(i).is_first_waiting(i),
        queue.claimed(i).enqueued(i).given_up(i).slots[i].is_enqueued,
        !queue.claimed(i).enqueued(i).given_up(i).slots[i].is_in_progress,
{
}

} // verus!
