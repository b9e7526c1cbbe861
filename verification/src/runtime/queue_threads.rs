//! What holds of the queue when many threads use it at once.
//!
//! Enqueueing a slot takes up to three steps, claiming or clearing one two: each step is one
//! operation on the slot or on the counter. The steps of different threads may come in any order.
use crate::counting;
use crate::queue::QueueSlotState;
use crate::runtime::queue;
use vstd::prelude::*;

verus! {

/// The slots and the counter, with the steps that threads have begun and not finished.
pub struct Machine {
    pub slots: Seq<QueueSlotState>,
    /// The number that workers look at before they sleep.
    pub active: int,
    /// Threads that have counted a slot, and not marked it yet.
    pub counted: nat,
    /// Threads that found the slot in use already, and have to count down again.
    pub reverting: nat,
    /// Threads that have claimed or emptied a slot that waited, and not counted it down yet.
    pub releasing: nat,
}

/// One operation of one thread.
pub enum Step {
    /// A thread counts a slot that it wants to enqueue.
    Count,
    /// The thread marks the slot as enqueued.
    Mark { slot: int },
    /// The thread takes its counting back, because the slot was in use already.
    Revert,
    /// A worker claims a slot.
    Claim { slot: int },
    /// The worker has run the slot.
    Done { slot: int },
    /// The request that a slot belongs to is over.
    Clear { slot: int },
    /// A thread counts a slot down that does not wait any more.
    CountDown,
}

impl Machine {
    /// A queue that nobody has touched.
    pub open spec fn initial(capacity: nat) -> Machine {
        Machine {
            slots: Seq::new(capacity, |i: int| queue::idle()),
            active: 0,
            counted: 0,
            reverting: 0,
            releasing: 0,
        }
    }

    pub open spec fn holds(self, slot: int) -> bool {
        0 <= slot < self.slots.len()
    }

    /// Whether some thread can take the step.
    pub open spec fn enabled(self, step: Step) -> bool {
        match step {
            Step::Count => true,
            Step::Mark { slot } => self.holds(slot) && self.counted > 0,
            Step::Revert => self.reverting > 0,
            Step::Claim { slot } => self.holds(slot) && queue::waits(self.slots[slot]),
            Step::Done { slot } => self.holds(slot) && self.slots[slot].is_in_progress,
            Step::Clear { slot } => self.holds(slot),
            Step::CountDown => self.releasing > 0,
        }
    }

    /// The machine after the step.
    pub open spec fn after(self, step: Step) -> Machine {
        match step {
            Step::Count => Machine { active: self.active + 1, counted: self.counted + 1, ..self },
            Step::Mark { slot } => Machine {
                slots: self.slots.update(
                    slot,
                    QueueSlotState { is_enqueued: true, ..self.slots[slot] },
                ),
                counted: (self.counted - 1) as nat,
                reverting: if self.slots[slot] == queue::idle() {
                    self.reverting
                } else {
                    self.reverting + 1
                },
                ..self
            },
            Step::Revert => Machine {
                active: self.active - 1,
                reverting: (self.reverting - 1) as nat,
                ..self
            },
            Step::Claim { slot } => Machine {
                slots: self.slots.update(slot, queue::running()),
                releasing: self.releasing + 1,
                ..self
            },
            Step::Done { slot } => Machine {
                slots: self.slots.update(
                    slot,
                    if self.slots[slot].is_enqueued {
                        queue::running()
                    } else {
                        queue::idle()
                    },
                ),
                ..self
            },
            Step::Clear { slot } => Machine {
                slots: self.slots.update(slot, queue::idle()),
                releasing: if queue::waits(self.slots[slot]) {
                    self.releasing + 1
                } else {
                    self.releasing
                },
                ..self
            },
            Step::CountDown => Machine {
                active: self.active - 1,
                releasing: (self.releasing - 1) as nat,
                ..self
            },
        }
    }

    /// One thread takes one step.
    pub open spec fn next(self, other: Machine) -> bool {
        exists|step: Step| #[trigger] self.enabled(step) && other == self.after(step)
    }

    /// The counter is the number of waiting slots, apart from those threads that are between two
    /// steps.
    pub open spec fn inv(self) -> bool {
        self.active == counting::count(self.slots, queue::is_waiting()) + self.counted
            + self.reverting + self.releasing
    }
}

/// The invariant holds of a queue that nobody has touched.
pub proof fn law_initially_sound(capacity: nat)
    ensures
        Machine::initial(capacity).inv(),
{
    counting::lemma_count_zero(Machine::initial(capacity).slots, queue::is_waiting());
}

/// Whatever step any thread takes, the invariant stays.
pub proof fn law_every_step_is_sound(m: Machine, n: Machine)
    requires
        m.inv(),
        m.next(n),
    ensures
        n.inv(),
{
    let step = choose|step: Step| #[trigger] m.enabled(step) && n == m.after(step);
    let waiting = queue::is_waiting();
    match step {
        Step::Mark { slot } => {
            counting::lemma_count_update(m.slots, waiting, slot, n.slots[slot]);
        },
        Step::Claim { slot } => {
            counting::lemma_count_update(m.slots, waiting, slot, n.slots[slot]);
        },
        Step::Done { slot } => {
            counting::lemma_count_update(m.slots, waiting, slot, n.slots[slot]);
        },
        Step::Clear { slot } => {
            counting::lemma_count_update(m.slots, waiting, slot, n.slots[slot]);
        },
        _ => {},
    }
}

/// Counting down never goes below zero, in whatever order the threads take their steps.
pub proof fn law_counter_never_underflows(m: Machine)
    requires
        m.inv(),
        m.enabled(Step::Revert) || m.enabled(Step::CountDown),
    ensures
        m.active > 0,
{
}

/// No wake-up is lost: while a slot waits for a worker, the counter is positive.
pub proof fn law_no_lost_wake_up(m: Machine, slot: int)
    requires
        m.inv(),
        m.holds(slot),
        queue::waits(m.slots[slot]),
    ensures
        m.active > 0,
{
    counting::lemma_count_positive(m.slots, queue::is_waiting(), slot);
}

/// When all threads have finished what they began, the counter is the number of waiting slots. So
/// workers sleep when nothing waits.
pub proof fn law_counter_at_rest(m: Machine)
    requires
        m.inv(),
        m.counted == 0,
        m.reverting == 0,
        m.releasing == 0,
    ensures
        m.active == counting::count(m.slots, queue::is_waiting()),
        m.active == 0 ==> queue::none_waits(m.slots),
{
    if !queue::none_waits(m.slots) {
        let i = choose|i: int| m.holds(i) && queue::waits(#[trigger] m.slots[i]);
        counting::lemma_count_positive(m.slots, queue::is_waiting(), i);
    }
}

/// Two workers never run the same slot: a slot that is run cannot be claimed.
pub proof fn law_one_worker_per_slot(m: Machine, slot: int)
    requires
        m.holds(slot),
        m.slots[slot].is_in_progress,
    ensures
        !m.enabled(Step::Claim { slot }),
{
}

} // verus!
