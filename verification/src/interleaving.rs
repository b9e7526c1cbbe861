//! What holds of the queue when many threads use it at once.
//!
//! Waking a job and claiming a bucket take several steps: each step is one operation on one slot
//! or on the counter, and the steps of different threads may come in any order. The machine below
//! has one transition for each of them, built from the same functions on slots that the
//! operations of [`crate::queue`] are specified with.
use crate::counting;
use crate::queue;
use crate::queue::SlotView;
use vstd::prelude::*;

verus! {

/// How far the worker that holds a bucket has come.
pub enum Phase {
    /// No worker holds the bucket.
    Free,
    /// A worker takes jobs from the bucket.
    Draining,
    /// The worker takes no more jobs, and is about to give the bucket up.
    Leaving,
}

/// The slots and the counter, with the steps that threads have begun and not finished.
pub struct Machine {
    pub slots: Seq<SlotView>,
    /// The workers, one place per bucket.
    pub phases: Seq<Phase>,
    pub available: int,
    /// Per bucket: threads that have added a job, and not counted it yet.
    pub announced: Seq<nat>,
    /// Per bucket: threads that have counted their job, and not marked the slot yet.
    pub counted: Seq<nat>,
    /// Threads that found the slot marked already, and have to count down again.
    pub reverting: nat,
    /// Workers that have claimed a bucket, and not counted it down yet.
    pub claiming: nat,
}

/// One operation of one thread.
pub enum Step {
    /// A thread adds a job that was not there.
    AddJob { bucket: int, offset: int },
    /// A thread wakes a job that is there already. It has nothing more to do.
    AddKnownJob { bucket: int, offset: int },
    /// The thread counts the bucket.
    Count { bucket: int },
    /// The thread marks the bucket as enqueued.
    Mark { bucket: int },
    /// The thread takes its counting back.
    Revert,
    /// A worker claims a bucket.
    Claim { bucket: int },
    /// The worker counts the bucket down.
    CountDown,
    /// The worker takes a job. It was the first one when the worker looked.
    TakeJob { bucket: int, offset: int },
    /// The worker finds no more jobs.
    FindNothing { bucket: int },
    /// The request of the bucket is over, and the worker leaves whatever jobs there are.
    Abandon { bucket: int },
    /// The worker gives the bucket up, or finds that it has to go on.
    Finish { bucket: int },
}

impl Machine {
    pub open spec fn holds(self, bucket: int) -> bool {
        0 <= bucket < self.slots.len()
    }

    /// A queue that nobody has touched.
    pub open spec fn initial(buckets: nat) -> Machine {
        Machine {
            slots: Seq::new(buckets, |i: int| SlotView::fresh()),
            phases: Seq::new(buckets, |i: int| Phase::Free),
            available: 0,
            announced: Seq::new(buckets, |i: int| 0nat),
            counted: Seq::new(buckets, |i: int| 0nat),
            reverting: 0,
            claiming: 0,
        }
    }

    /// Whether some thread can take the step.
    pub open spec fn enabled(self, step: Step) -> bool {
        match step {
            Step::AddJob { bucket, offset } => self.holds(bucket)
                && !self.slots[bucket].jobs.contains(offset),
            Step::AddKnownJob { bucket, offset } => self.holds(bucket)
                && self.slots[bucket].jobs.contains(offset),
            Step::Count { bucket } => self.holds(bucket) && self.announced[bucket] > 0,
            Step::Mark { bucket } => self.holds(bucket) && self.counted[bucket] > 0,
            Step::Revert => self.reverting > 0,
            Step::Claim { bucket } => self.holds(bucket) && self.slots[bucket].ready(),
            Step::CountDown => self.claiming > 0,
            Step::TakeJob { bucket, offset } => self.holds(bucket) && self.phases[bucket]
                is Draining && self.slots[bucket].jobs.contains(offset),
            Step::FindNothing { bucket } => self.holds(bucket) && self.phases[bucket] is Draining
                && self.slots[bucket].jobs == Set::<int>::empty(),
            Step::Abandon { bucket } => self.holds(bucket) && self.phases[bucket] is Draining,
            Step::Finish { bucket } => self.holds(bucket) && self.phases[bucket] is Leaving,
        }
    }

    /// The machine after the step.
    pub open spec fn after(self, step: Step) -> Machine {
        match step {
            Step::AddJob { bucket, offset } => Machine {
                slots: self.slots.update(bucket, self.slots[bucket].add_job(offset)),
                announced: self.announced.update(bucket, self.announced[bucket] + 1),
                ..self
            },
            Step::AddKnownJob { bucket, offset } => Machine {
                slots: self.slots.update(bucket, self.slots[bucket].add_job(offset)),
                ..self
            },
            Step::Count { bucket } => Machine {
                available: self.available + 1,
                announced: self.announced.update(bucket, (self.announced[bucket] - 1) as nat),
                counted: self.counted.update(bucket, self.counted[bucket] + 1),
                ..self
            },
            Step::Mark { bucket } => {
                let before = self.slots[bucket].flags();
                Machine {
                    slots: self.slots.update(bucket, self.slots[bucket].mark_enqueued()),
                    counted: self.counted.update(bucket, (self.counted[bucket] - 1) as nat),
                    reverting: if before.is_enqueued || before.is_in_progress {
                        self.reverting + 1
                    } else {
                        self.reverting
                    },
                    ..self
                }
            },
            Step::Revert => Machine {
                available: self.available - 1,
                reverting: (self.reverting - 1) as nat,
                ..self
            },
            Step::Claim { bucket } => Machine {
                slots: self.slots.update(bucket, self.slots[bucket].claim()),
                phases: self.phases.update(bucket, Phase::Draining),
                claiming: self.claiming + 1,
                ..self
            },
            Step::CountDown => Machine {
                available: self.available - 1,
                claiming: (self.claiming - 1) as nat,
                ..self
            },
            Step::TakeJob { bucket, offset } => Machine {
                slots: self.slots.update(bucket, self.slots[bucket].take_job(offset)),
                ..self
            },
            Step::FindNothing { bucket } => Machine {
                phases: self.phases.update(bucket, Phase::Leaving),
                ..self
            },
            Step::Abandon { bucket } => Machine {
                phases: self.phases.update(bucket, Phase::Leaving),
                ..self
            },
            Step::Finish { bucket } => Machine {
                slots: self.slots.update(bucket, self.slots[bucket].finish()),
                phases: self.phases.update(
                    bucket,
                    if self.slots[bucket].enqueued {
                        Phase::Draining
                    } else {
                        Phase::Free
                    },
                ),
                ..self
            },
        }
    }

    /// One thread takes one step.
    pub open spec fn next(self, other: Machine) -> bool {
        exists|step: Step| #[trigger] self.enabled(step) && other == self.after(step)
    }

    /// The counter is the number of waiting buckets, apart from those threads that are between
    /// two steps.
    pub open spec fn counter_is_exact(self) -> bool {
        self.available == counting::count(self.slots, queue::is_ready()) + counting::sum(
            self.counted,
        ) + self.reverting + self.claiming
    }

    /// A bucket is marked as being processed exactly while a worker holds it.
    pub open spec fn bucket_held(self, bucket: int) -> bool {
        self.slots[bucket].in_progress <==> !(self.phases[bucket] is Free)
    }

    /// Somebody will see to the jobs of a bucket: it is marked, or a worker is taking its jobs,
    /// or a thread is on the way to mark it.
    pub open spec fn bucket_served(self, bucket: int) -> bool {
        self.slots[bucket].jobs == Set::<int>::empty() || self.slots[bucket].enqueued
            || self.phases[bucket] is Draining || self.announced[bucket] + self.counted[bucket] > 0
    }

    pub open spec fn inv(self) -> bool {
        &&& self.phases.len() == self.slots.len()
        &&& self.announced.len() == self.slots.len()
        &&& self.counted.len() == self.slots.len()
        &&& self.counter_is_exact()
        &&& forall|bucket: int|
            0 <= bucket < self.slots.len() ==> #[trigger] self.bucket_held(bucket)
    }

    /// Somebody will see to every job.
    pub open spec fn served(self) -> bool {
        forall|bucket: int| self.holds(bucket) ==> #[trigger] self.bucket_served(bucket)
    }
}

/// The invariant holds of a queue that nobody has touched.
pub proof fn law_initially_sound(buckets: nat)
    ensures
        Machine::initial(buckets).inv(),
        Machine::initial(buckets).served(),
{
    let m = Machine::initial(buckets);
    counting::lemma_count_zero(m.slots, queue::is_ready());
    lemma_sum_of_zeros(buckets);
}

proof fn lemma_sum_of_zeros(n: nat)
    ensures
        counting::sum(Seq::new(n, |i: int| 0nat)) == 0,
    decreases n,
{
    let s = Seq::new(n, |i: int| 0nat);
    if n > 0 {
        lemma_sum_of_zeros((n - 1) as nat);
        assert(s.drop_last() =~= Seq::new((n - 1) as nat, |i: int| 0nat));
    }
}

proof fn lemma_step_preserves(m: Machine, step: Step)
    requires
        m.inv(),
        m.enabled(step),
    ensures
        m.after(step).inv(),
        m.served() && !(step is Abandon) ==> m.after(step).served(),
{
    let n = m.after(step);
    let ready = queue::is_ready();
    match step {
        Step::AddJob { bucket, offset } => {
            counting::lemma_count_update(m.slots, ready, bucket, m.slots[bucket].add_job(offset));
        },
        Step::AddKnownJob { bucket, offset } => {
            counting::lemma_count_update(m.slots, ready, bucket, m.slots[bucket].add_job(offset));
        },
        Step::Count { bucket } => {
            counting::lemma_sum_update(m.counted, bucket, m.counted[bucket] + 1);
        },
        Step::Mark { bucket } => {
            counting::lemma_count_update(m.slots, ready, bucket, m.slots[bucket].mark_enqueued());
            counting::lemma_sum_update(m.counted, bucket, (m.counted[bucket] - 1) as nat);
        },
        Step::Revert => {},
        Step::Claim { bucket } => {
            counting::lemma_count_update(m.slots, ready, bucket, m.slots[bucket].claim());
        },
        Step::CountDown => {},
        Step::TakeJob { bucket, offset } => {
            counting::lemma_count_update(m.slots, ready, bucket, m.slots[bucket].take_job(offset));
        },
        Step::FindNothing { bucket } => {},
        Step::Abandon { bucket } => {},
        Step::Finish { bucket } => {
            assert(m.bucket_held(bucket));
            counting::lemma_count_update(m.slots, ready, bucket, m.slots[bucket].finish());
        },
    }
    assert forall|bucket: int| 0 <= bucket < n.slots.len() implies #[trigger] n.bucket_held(
        bucket,
    ) by {
        assert(m.bucket_held(bucket));
    }
    if m.served() && !(step is Abandon) {
        assert forall|bucket: int| n.holds(bucket) implies #[trigger] n.bucket_served(bucket) by {
            assert(m.bucket_served(bucket));
            assert(m.bucket_held(bucket));
        }
    }
}

/// Whatever step any thread takes, the invariant stays.
pub proof fn law_every_step_is_sound(m: Machine, n: Machine)
    requires
        m.inv(),
        m.next(n),
    ensures
        n.inv(),
{
    let step = choose|step: Step| #[trigger] m.enabled(step) && n == m.after(step);
    lemma_step_preserves(m, step);
}

/// Every job stays served by every step, but for a worker that abandons a bucket because its
/// request is over.
pub proof fn law_jobs_stay_served(m: Machine, step: Step)
    requires
        m.inv(),
        m.served(),
        m.enabled(step),
        !(step is Abandon),
    ensures
        m.after(step).served(),
{
    lemma_step_preserves(m, step);
}

/// Counting down never goes below zero, in whatever order the threads take their steps.
pub proof fn law_counter_never_underflows(m: Machine)
    requires
        m.inv(),
        m.enabled(Step::Revert) || m.enabled(Step::CountDown),
    ensures
        m.available > 0,
{
}

/// While a bucket waits, the counter is positive: no worker goes to sleep over it.
pub proof fn law_waiting_bucket_keeps_workers_awake(m: Machine, bucket: int)
    requires
        m.inv(),
        m.holds(bucket),
        m.slots[bucket].ready(),
    ensures
        m.available > 0,
{
    counting::lemma_count_positive(m.slots, queue::is_ready(), bucket);
}

/// When all threads have finished what they began, the counter is the number of waiting buckets.
pub proof fn law_counter_at_rest(m: Machine)
    requires
        m.inv(),
        m.reverting == 0,
        m.claiming == 0,
        forall|bucket: int| m.holds(bucket) ==> #[trigger] m.counted[bucket] == 0,
    ensures
        m.available == counting::count(m.slots, queue::is_ready()),
{
    lemma_zeros_sum(m.counted);
}

proof fn lemma_zeros_sum(s: Seq<nat>)
    requires
        forall|i: int| 0 <= i < s.len() ==> #[trigger] s[i] == 0,
    ensures
        counting::sum(s) == 0,
    decreases s.len(),
{
    if s.len() > 0 {
        lemma_zeros_sum(s.drop_last());
    }
}

/// Two workers never hold the same bucket: a bucket that is held cannot be claimed.
pub proof fn law_one_worker_per_bucket(m: Machine, bucket: int)
    requires
        m.inv(),
        m.holds(bucket),
        !(m.phases[bucket] is Free),
    ensures
        !m.enabled(Step::Claim { bucket }),
{
    assert(m.bucket_held(bucket));
}

/// No wake-up is lost: once the threads that woke jobs of a bucket have finished, a bucket with
/// jobs is being drained or is enqueued. An enqueued bucket that nobody holds can be claimed, and
/// a worker that tries to leave an enqueued bucket goes back to draining it.
pub proof fn law_no_lost_wake_up(m: Machine, bucket: int)
    requires
        m.inv(),
        m.served(),
        m.holds(bucket),
        m.slots[bucket].jobs != Set::<int>::empty(),
        m.announced[bucket] == 0,
        m.counted[bucket] == 0,
    ensures
        m.phases[bucket] is Draining || m.slots[bucket].enqueued,
        m.phases[bucket] is Free ==> m.enabled(Step::Claim { bucket }),
        m.phases[bucket] is Leaving ==> m.after(Step::Finish { bucket }).phases[bucket]
            is Draining,
{
    assert(m.bucket_served(bucket));
    assert(m.bucket_held(bucket));
}

} // verus!
