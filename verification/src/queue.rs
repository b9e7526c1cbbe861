//! The queue of buckets that have work to do.
//!
//! Every bucket has one slot. A slot remembers which jobs of its bucket were woken, whether the
//! bucket waits for a worker, and whether a worker is busy with it.
use crate::bits;
use crate::counting;
use crate::index::{BucketIndex, IoResources, QueueIndex};
use std::ops::Range;
use vstd::prelude::*;

verus! {

pub const ENQUEUED_BIT: u8 = 1;

pub const IN_PROGRESS_BIT: u8 = 2;

/// The two flags of a slot.
#[derive(Debug, Clone, Copy, PartialEq, Eq, Structural)]
pub struct QueueSlotState {
    pub is_enqueued: bool,
    pub is_in_progress: bool,
}

/// The slot of one bucket.
#[derive(Debug)]
pub struct QueueSlot {
    flags: u8,
    jobs: u64,
}

/// What a slot means: its two flags, and the offsets of the jobs that were woken.
pub struct SlotView {
    pub enqueued: bool,
    pub in_progress: bool,
    pub jobs: Set<int>,
}

impl SlotView {
    /// The slot of a bucket that nothing was ever enqueued for.
    pub open spec fn fresh() -> SlotView {
        SlotView { enqueued: false, in_progress: false, jobs: Set::empty() }
    }

    /// The bucket waits for a worker.
    pub open spec fn ready(self) -> bool {
        self.enqueued && !self.in_progress
    }

    pub open spec fn flags(self) -> QueueSlotState {
        QueueSlotState { is_enqueued: self.enqueued, is_in_progress: self.in_progress }
    }

    /// One more job was woken.
    pub open spec fn add_job(self, offset: int) -> SlotView {
        SlotView { jobs: self.jobs.insert(offset), ..self }
    }

    /// The bucket asks for a worker.
    pub open spec fn mark_enqueued(self) -> SlotView {
        SlotView { enqueued: true, ..self }
    }

    /// A worker claims the bucket.
    pub open spec fn claim(self) -> SlotView {
        SlotView { enqueued: false, in_progress: true, ..self }
    }

    /// A worker takes one job.
    pub open spec fn take_job(self, offset: int) -> SlotView {
        SlotView { jobs: self.jobs.remove(offset), ..self }
    }

    /// `offset` is the job that is taken next.
    pub open spec fn is_next_job(self, offset: int) -> bool {
        &&& self.jobs.contains(offset)
        &&& forall|other: int| self.jobs.contains(other) ==> offset <= other
    }

    /// A worker is done with the bucket. If the bucket was enqueued in the meantime the worker
    /// keeps it, otherwise it gives it up.
    pub open spec fn finish(self) -> SlotView {
        if self.enqueued {
            SlotView { enqueued: false, ..self }
        } else {
            SlotView { in_progress: false, ..self }
        }
    }

    /// Waking a job: it is added, and if it was not there already the bucket asks for a worker.
    pub open spec fn wake_job(self, offset: int) -> SlotView {
        if self.jobs.contains(offset) {
            self
        } else {
            self.add_job(offset).mark_enqueued()
        }
    }
}

impl View for QueueSlot {
    type V = SlotView;

    closed spec fn view(&self) -> SlotView {
        SlotView {
            enqueued: self.flags & ENQUEUED_BIT != 0,
            in_progress: self.flags & IN_PROGRESS_BIT != 0,
            jobs: bits::bit_set(self.jobs),
        }
    }
}

impl QueueSlot {
    /// No bits but the two flags are in use.
    pub closed spec fn wf(&self) -> bool {
        self.flags <= 3
    }

    pub fn empty() -> (slot: Self)
        ensures
            slot.wf(),
            slot@ == SlotView::fresh(),
    {
        proof {
            bits::lemma_two_flags(0);
            bits::lemma_no_bits(0);
        }
        Self { flags: 0, jobs: 0 }
    }

    /// Whether the bucket neither waits for a worker nor is held by one.
    pub fn is_empty(&self) -> (result: bool)
        requires
            self.wf(),
        ensures
            result == (!self@.enqueued && !self@.in_progress),
    {
        proof {
            bits::lemma_two_flags(self.flags);
        }
        self.flags == 0
    }

    /// Clears both flags. The woken jobs stay.
    pub fn mark_empty(&mut self)
        ensures
            final(self).wf(),
            final(self)@ == (SlotView { enqueued: false, in_progress: false, ..old(self)@ }),
    {
        proof {
            bits::lemma_two_flags(0);
        }
        self.flags = 0;
    }

    /// Claims the bucket for a worker. This works only on a bucket that waits for one.
    pub fn try_process(&mut self) -> (result: Result<(), ()>)
        requires
            old(self).wf(),
        ensures
            final(self).wf(),
            result is Ok <==> old(self)@.ready(),
            final(self)@ == if old(self)@.ready() {
                old(self)@.claim()
            } else {
                old(self)@
            },
    {
        proof {
            bits::lemma_two_flags(self.flags);
            bits::lemma_two_flags(IN_PROGRESS_BIT);
        }
        if self.flags == ENQUEUED_BIT {
            self.flags = IN_PROGRESS_BIT;
            Ok(())
        } else {
            Err(())
        }
    }

    /// Makes the bucket ask for a worker, and tells what its flags were before.
    pub fn mark_enqueued(&mut self) -> (before: QueueSlotState)
        requires
            old(self).wf(),
        ensures
            final(self).wf(),
            before == old(self)@.flags(),
            final(self)@ == old(self)@.mark_enqueued(),
    {
        let old_flags: u8 = self.flags;
        self.flags = old_flags | ENQUEUED_BIT;
        proof {
            bits::lemma_two_flags(old_flags);
            bits::lemma_two_flags(self.flags);
        }
        QueueSlotState {
            is_enqueued: old_flags & ENQUEUED_BIT != 0,
            is_in_progress: old_flags & IN_PROGRESS_BIT != 0,
        }
    }

    /// Adds a job, and tells whether it was not there before.
    pub fn add_job(&mut self, bucket_offset: usize) -> (is_new: bool)
        requires
            old(self).wf(),
            bucket_offset < 64,
        ensures
            final(self).wf(),
            is_new == !old(self)@.jobs.contains(bucket_offset as int),
            final(self)@ == old(self)@.add_job(bucket_offset as int),
    {
        let mask: u64 = 1u64 << (bucket_offset as u64);
        let old_jobs: u64 = self.jobs;
        self.jobs = old_jobs | mask;
        proof {
            bits::lemma_set_bit(old_jobs, bucket_offset as u64);
        }
        old_jobs & mask == 0
    }

    /// Takes the woken job with the lowest offset.
    pub fn dequeue(&mut self) -> (job: Option<usize>)
        requires
            old(self).wf(),
        ensures
            final(self).wf(),
            job is None <==> old(self)@.jobs == Set::<int>::empty(),
            match job {
                None => final(self)@ == old(self)@,
                Some(offset) => {
                    &&& offset < 64
                    &&& old(self)@.is_next_job(offset as int)
                    &&& final(self)@ == old(self)@.take_job(offset as int)
                },
            },
    {
        let value: u64 = self.jobs;
        proof {
            bits::lemma_no_bits(value);
        }
        if value == 0 {
            return None;
        }
        proof {
            bits::lemma_lowest_bit(value);
        }
        let index: u32 = value.trailing_zeros();
        let mask: u64 = 1u64 << (index as u64);
        self.jobs = value & !mask;
        proof {
            bits::lemma_clear_bit(value, index as u64);
        }
        Some(index as usize)
    }

    /// The worker that holds the bucket is done with it.
    pub fn finish(&mut self) -> (next: NextStep)
        requires
            old(self).wf(),
            old(self)@.in_progress,
        ensures
            final(self).wf(),
            next == if old(self)@.enqueued {
                NextStep::GoAgain
            } else {
                NextStep::Done
            },
            final(self)@ == old(self)@.finish(),
    {
        proof {
            bits::lemma_two_flags(self.flags);
            bits::lemma_two_flags(0);
            bits::lemma_two_flags(IN_PROGRESS_BIT);
        }
        if self.flags == ENQUEUED_BIT + IN_PROGRESS_BIT {
            self.flags = IN_PROGRESS_BIT;
            NextStep::GoAgain
        } else {
            self.flags = 0;
            NextStep::Done
        }
    }
}

/// What a worker does after it is done with a bucket.
#[derive(Debug, Clone, Copy, PartialEq, Eq, Structural)]
pub enum NextStep {
    /// The element is no longer in the queue
    Done,
    /// The element was enqueued again while it was processed
    GoAgain,
}

/// A counter of waiting jobs.
#[derive(Debug)]
pub struct Refcount {
    active: u32,
}

impl View for Refcount {
    type V = int;

    closed spec fn view(&self) -> int {
        self.active as int
    }
}

impl Refcount {
    pub fn new() -> (refcount: Self)
        ensures
            refcount@ == 0,
    {
        Self { active: 0 }
    }

    pub fn load(&self) -> (active: u32)
        ensures
            active == self@,
    {
        self.active
    }

    pub fn increment_active(&mut self) -> (active: u32)
        requires
            old(self)@ < u32::MAX,
        ensures
            final(self)@ == old(self)@ + 1,
            active == final(self)@,
    {
        self.active = self.active + 1;
        self.active
    }

    pub fn decrement_active(&mut self) -> (active: u32)
        requires
            old(self)@ > 0,
        ensures
            final(self)@ == old(self)@ - 1,
            active == final(self)@,
    {
        self.active = self.active - 1;
        self.active
    }

    /// The number of waiting jobs, or `None` if the caller has to sleep until it is woken.
    pub fn wait_active(&self) -> (active: Option<u32>)
        ensures
            active == if self@ == 0 {
                None
            } else {
                Some(self@ as u32)
            },
    {
        if self.active == 0 {
            None
        } else {
            Some(self.active)
        }
    }
}

/// The slots of all buckets, and the number of buckets that wait for a worker.
#[derive(Debug)]
pub struct ComplexQueue {
    queue: Vec<QueueSlot>,
    jobs_in_queue: Refcount,
    io_resources: IoResources,
}

/// The buckets that wait for a worker are counted.
pub open spec fn is_ready() -> spec_fn(SlotView) -> bool {
    |slot: SlotView| slot.ready()
}

impl ComplexQueue {
    /// The slots, one per bucket.
    pub closed spec fn slots(&self) -> Seq<SlotView> {
        Seq::new(self.queue@.len(), |i: int| self.queue@[i]@)
    }

    /// The number that workers look at before they sleep.
    pub closed spec fn available(&self) -> int {
        self.jobs_in_queue@
    }

    pub closed spec fn resources(&self) -> IoResources {
        self.io_resources
    }

    /// Every slot is sound, its jobs belong to the bucket, and the counter is the number of
    /// buckets that wait for a worker.
    pub closed spec fn wf(&self) -> bool {
        &&& self.io_resources.wf()
        &&& self.queue@.len() < u32::MAX
        &&& forall|i: int| 0 <= i < self.queue@.len() ==> #[trigger] self.queue@[i].wf()
        &&& jobs_in_range(self.slots(), self.io_resources.slots())
        &&& self.jobs_in_queue@ == counting::count(self.slots(), is_ready())
    }

    pub fn with_capacity(number_of_buckets: usize, io_resources: IoResources) -> (queue: Self)
        requires
            io_resources.wf(),
            number_of_buckets < u32::MAX,
        ensures
            queue.wf(),
            queue.resources() == io_resources,
            queue.available() == 0,
            queue.slots() == Seq::new(number_of_buckets as nat, |i: int| SlotView::fresh()),
    {
        let mut queue: Vec<QueueSlot> = Vec::new();
        while queue.len() < number_of_buckets
            invariant
                queue.len() <= number_of_buckets,
                forall|i: int|
                    0 <= i < queue@.len() ==> (#[trigger] queue@[i]).wf() && queue@[i]@
                        == SlotView::fresh(),
            decreases number_of_buckets - queue.len(),
        {
            queue.push(QueueSlot::empty());
        }
        let result = Self { queue, jobs_in_queue: Refcount::new(), io_resources };
        proof {
            counting::lemma_count_zero(result.slots(), is_ready());
        }
        result
    }

    pub fn bucket_count(&self) -> (count: usize)
        ensures
            count == self.slots().len(),
    {
        self.queue.len()
    }

    /// The bucket's slot, and nothing else, has the value `slot` now; the counter follows.
    proof fn lemma_updated(&self, before: &Self, bucket: int, slot: SlotView)
        requires
            0 <= bucket < before.queue@.len(),
            self.queue@.len() == before.queue@.len(),
            self.queue@[bucket]@ == slot,
            forall|i: int|
                0 <= i < self.queue@.len() && i != bucket ==> self.queue@[i] == before.queue@[i],
        ensures
            self.slots() == before.slots().update(bucket, slot),
            counting::count(self.slots(), is_ready()) == counting::count(before.slots(), is_ready()) - (
            if before.slots()[bucket].ready() {
                1int
            } else {
                0int
            }) + (if slot.ready() {
                1int
            } else {
                0int
            }),
    {
        assert(self.slots() =~= before.slots().update(bucket, slot));
        counting::lemma_count_update(before.slots(), is_ready(), bucket, slot);
    }

    /// The number of buckets that wait for a worker is never more than there are buckets.
    proof fn lemma_available_bounded(&self)
        requires
            self.wf(),
        ensures
            0 <= self.available() < u32::MAX,
    {
        counting::lemma_count_at_most_len(self.slots(), is_ready());
    }

    /// When the counter is zero no bucket waits for a worker.
    pub proof fn lemma_nothing_available(&self)
        requires
            self.wf(),
            self.available() == 0,
        ensures
            forall|i: int| 0 <= i < self.slots().len() ==> !(#[trigger] self.slots()[i]).ready(),
    {
        assert forall|i: int| 0 <= i < self.slots().len() implies !(
        #[trigger] self.slots()[i]).ready() by {
            if self.slots()[i].ready() {
                counting::lemma_count_positive(self.slots(), is_ready(), i);
            }
        }
    }

    pub fn load_jobs_available(&self) -> (available: u32)
        ensures
            available == self.available(),
    {
        self.jobs_in_queue.load()
    }

    /// The number of buckets that wait for a worker, or `None` if the caller has to sleep.
    pub fn wait_jobs_available(&self) -> (available: Option<u32>)
        ensures
            available == if self.available() == 0 {
                None
            } else {
                Some(self.available() as u32)
            },
    {
        self.jobs_in_queue.wait_active()
    }

    /// Whether none of the slots in a range waits for a worker or is held by one.
    pub fn is_range_empty(&self, range: Range<QueueIndex>) -> (result: bool)
        requires
            self.wf(),
            range.start.index <= range.end.index <= self.slots().len(),
        ensures
            result <==> forall|i: int|
                range.start.index <= i < range.end.index ==> !(#[trigger] self.slots()[i]).enqueued
                    && !self.slots()[i].in_progress,
    {
        let end: usize = range.end.index as usize;
        let mut i: usize = range.start.index as usize;
        while i < end
            invariant
                self.wf(),
                range.start.index <= i <= end,
                end == range.end.index,
                end <= self.queue.len(),
                forall|j: int|
                    range.start.index <= j < i ==> !(#[trigger] self.slots()[j]).enqueued
                        && !self.slots()[j].in_progress,
            decreases end - i,
        {
            if !self.queue[i].is_empty() {
                assert(self.slots()[i as int].enqueued || self.slots()[i as int].in_progress);
                return false;
            }
            i = i + 1;
        }
        true
    }

    /// Wake an existing task by putting it back into the queue. The result tells whether a
    /// sleeping worker has to be woken.
    pub fn wake(&mut self, queue_index: QueueIndex) -> (wake_one: bool)
        requires
            old(self).wf(),
            old(self).resources().bucket_of(queue_index.index as int) < old(self).slots().len(),
            old(self).resources().offset_of(queue_index.index as int) < 64,
        ensures
            final(self).wf(),
            final(self).resources() == old(self).resources(),
            ({
                let bucket = old(self).resources().bucket_of(queue_index.index as int);
                let offset = old(self).resources().offset_of(queue_index.index as int);
                let before = old(self).slots()[bucket];
                let after = before.wake_job(offset);
                &&& final(self).slots() == old(self).slots().update(bucket, after)
                &&& wake_one == (after.ready() && !before.ready())
                &&& final(self).available() == old(self).available() + if wake_one {
                    1int
                } else {
                    0int
                }
            }),
    {
        self.initial_enqueue(queue_index)
    }

    /// The first enqueue of a task. Must NOT be used to wake an existing task! The result tells
    /// whether a sleeping worker has to be woken.
    pub fn initial_enqueue(&mut self, queue_index: QueueIndex) -> (wake_one: bool)
        requires
            old(self).wf(),
            old(self).resources().bucket_of(queue_index.index as int) < old(self).slots().len(),
            old(self).resources().offset_of(queue_index.index as int) < 64,
        ensures
            final(self).wf(),
            final(self).resources() == old(self).resources(),
            ({
                let bucket = old(self).resources().bucket_of(queue_index.index as int);
                let offset = old(self).resources().offset_of(queue_index.index as int);
                let before = old(self).slots()[bucket];
                let after = before.wake_job(offset);
                &&& final(self).slots() == old(self).slots().update(bucket, after)
                &&& wake_one == (after.ready() && !before.ready())
                &&& final(self).available() == old(self).available() + if wake_one {
                    1int
                } else {
                    0int
                }
            }),
    {
        let bucket_index = queue_index.to_bucket_index(self.io_resources);
        let bucket_offset: usize = (queue_index.index % (self.io_resources.per_bucket()
            as u32)) as usize;
        self.helper(bucket_index, bucket_offset)
    }

    /// Wakes the job with the given offset in a bucket.
    fn helper(&mut self, bucket_index: BucketIndex, bucket_offset: usize) -> (wake_one: bool)
        requires
            old(self).wf(),
            bucket_index.index < old(self).slots().len(),
            bucket_offset < 64,
            bucket_offset < old(self).resources().slots(),
        ensures
            final(self).wf(),
            final(self).resources() == old(self).resources(),
            ({
                let bucket = bucket_index.index as int;
                let before = old(self).slots()[bucket];
                let after = before.wake_job(bucket_offset as int);
                &&& final(self).slots() == old(self).slots().update(bucket, after)
                &&& wake_one == (after.ready() && !before.ready())
                &&& final(self).available() == old(self).available() + if wake_one {
                    1int
                } else {
                    0int
                }
            }),
    {
        let bucket: usize = bucket_index.index as usize;
        let ghost before = old(self).slots()[bucket as int];
        proof {
            assert(self.queue@[bucket as int].wf());
            self.lemma_available_bounded();
        }
        let is_new = self.queue[bucket].add_job(bucket_offset);
        if !is_new {
            proof {
                assert(before.jobs.insert(bucket_offset as int) =~= before.jobs);
                self.lemma_updated(old(self), bucket as int, before);
            }
            return false;
        }
        // The counter goes up before the slot is marked: a worker that claims the slot in between
        // then always finds something to count down.
        self.jobs_in_queue.increment_active();
        let old_slot_state = self.queue[bucket].mark_enqueued();
        proof {
            self.lemma_updated(old(self), bucket as int, before.wake_job(bucket_offset as int));
        }
        if !old_slot_state.is_enqueued && !old_slot_state.is_in_progress {
            // this is a new job, notify a worker
            true
        } else {
            // the job was already enqueued, revert
            self.jobs_in_queue.decrement_active();
            false
        }
    }

    /// The worker that holds a bucket is done with it, for now or for good.
    #[must_use]
    pub fn done_with_bucket(&mut self, bucket_index: BucketIndex) -> (next: NextStep)
        requires
            old(self).wf(),
            bucket_index.index < old(self).slots().len(),
            old(self).slots()[bucket_index.index as int].in_progress,
        ensures
            final(self).wf(),
            final(self).resources() == old(self).resources(),
            final(self).available() == old(self).available(),
            next == if old(self).slots()[bucket_index.index as int].enqueued {
                NextStep::GoAgain
            } else {
                NextStep::Done
            },
            final(self).slots() == old(self).slots().update(
                bucket_index.index as int,
                old(self).slots()[bucket_index.index as int].finish(),
            ),
    {
        let bucket: usize = bucket_index.index as usize;
        assert(self.queue@[bucket as int].wf());
        let next = self.queue[bucket].finish();
        proof {
            self.lemma_updated(
                old(self),
                bucket as int,
                old(self).slots()[bucket as int].finish(),
            );
        }
        next
    }

    /// Takes the next job of a bucket.
    pub fn dequeue_job(&mut self, bucket_index: BucketIndex) -> (job: Option<usize>)
        requires
            old(self).wf(),
            bucket_index.index < old(self).slots().len(),
        ensures
            final(self).wf(),
            final(self).resources() == old(self).resources(),
            final(self).available() == old(self).available(),
            job is None <==> old(self).slots()[bucket_index.index as int].jobs == Set::<
                int,
            >::empty(),
            match job {
                None => final(self).slots() == old(self).slots(),
                Some(offset) => {
                    let before = old(self).slots()[bucket_index.index as int];
                    &&& offset < 64
                    &&& offset < old(self).resources().slots()
                    &&& before.is_next_job(offset as int)
                    &&& final(self).slots() == old(self).slots().update(
                        bucket_index.index as int,
                        before.take_job(offset as int),
                    )
                },
            },
    {
        let bucket: usize = bucket_index.index as usize;
        let ghost before = old(self).slots()[bucket as int];
        assert(self.queue@[bucket as int].wf());
        let job = self.queue[bucket].dequeue();
        proof {
            match job {
                None => {
                    self.lemma_updated(old(self), bucket as int, before);
                    assert(self.slots() =~= old(self).slots());
                },
                Some(offset) => {
                    self.lemma_updated(old(self), bucket as int, before.take_job(offset as int));
                },
            }
        }
        job
    }

    /// Claims the first bucket that waits for a worker.
    pub fn try_dequeue(&mut self) -> (claimed: Option<BucketIndex>)
        requires
            old(self).wf(),
        ensures
            final(self).wf(),
            final(self).resources() == old(self).resources(),
            claimed is None <==> old(self).available() == 0,
            match claimed {
                None => final(self).slots() == old(self).slots() && final(self).available()
                    == old(self).available(),
                Some(bucket) => {
                    let i = bucket.index as int;
                    &&& bucket.identifier == 0
                    &&& i < old(self).slots().len()
                    &&& old(self).slots()[i].ready()
                    &&& forall|j: int| 0 <= j < i ==> !(#[trigger] old(self).slots()[j]).ready()
                    &&& final(self).slots() == old(self).slots().update(
                        i,
                        old(self).slots()[i].claim(),
                    )
                    &&& final(self).available() == old(self).available() - 1
                },
            },
    {
        let len: usize = self.queue.len();
        let mut i: usize = 0;
        while i < len
            invariant
                i <= len,
                len == self.queue.len(),
                self.wf(),
                self.resources() == old(self).resources(),
                self.slots() == old(self).slots(),
                self.available() == old(self).available(),
                forall|j: int| 0 <= j < i ==> !(#[trigger] old(self).slots()[j]).ready(),
            decreases len - i,
        {
            assert(self.queue@[i as int].wf());
            let ghost before = *self;
            // find a task that is enqueued but not yet in progress
            let claim = self.queue[i].try_process();
            if claim.is_ok() {
                proof {
                    assert(before.slots()[i as int].ready());
                    counting::lemma_count_positive(before.slots(), is_ready(), i as int);
                    self.lemma_updated(&before, i as int, before.slots()[i as int].claim());
                }
                self.jobs_in_queue.decrement_active();
                return Some(BucketIndex { index: i as u32, identifier: 0 });
            }
            proof {
                self.lemma_updated(&before, i as int, before.slots()[i as int]);
                assert(self.slots() =~= before.slots());
            }
            i = i + 1;
        }
        proof {
            counting::lemma_count_zero(self.slots(), is_ready());
        }
        None
    }

    /// Claims the first bucket that waits for a worker. If there is none the caller has to sleep
    /// until it is woken, and try again.
    pub fn blocking_dequeue(&mut self) -> (claimed: Option<BucketIndex>)
        requires
            old(self).wf(),
        ensures
            final(self).wf(),
            final(self).resources() == old(self).resources(),
            claimed is None <==> old(self).available() == 0,
            match claimed {
                None => final(self).slots() == old(self).slots() && final(self).available()
                    == old(self).available(),
                Some(bucket) => {
                    let i = bucket.index as int;
                    &&& bucket.identifier == 0
                    &&& i < old(self).slots().len()
                    &&& old(self).slots()[i].ready()
                    &&& forall|j: int| 0 <= j < i ==> !(#[trigger] old(self).slots()[j]).ready()
                    &&& final(self).slots() == old(self).slots().update(
                        i,
                        old(self).slots()[i].claim(),
                    )
                    &&& final(self).available() == old(self).available() - 1
                },
            },
    {
        match self.wait_jobs_available() {
            None => None,
            Some(_) => self.try_dequeue(),
        }
    }
}

/// Every woken job has an offset that a bucket has a place for.
pub open spec fn jobs_in_range(slots: Seq<SlotView>, per_bucket: int) -> bool {
    forall|i: int, offset: int|
        0 <= i < slots.len() && #[trigger] slots[i].jobs.contains(offset) ==> 0 <= offset
            < per_bucket
}

/// The slots after a series of queue slots was woken, one after the other.
pub open spec fn all_woken(slots: Seq<SlotView>, io: IoResources, indices: Seq<int>) -> Seq<SlotView>
    decreases indices.len(),
{
    if indices.len() == 0 {
        slots
    } else {
        let earlier = all_woken(slots, io, indices.drop_last());
        let bucket = io.bucket_of(indices.last());
        earlier.update(bucket, earlier[bucket].wake_job(io.offset_of(indices.last())))
    }
}

/// Some of the queue slots is the one at an offset of a bucket.
pub open spec fn is_among(io: IoResources, indices: Seq<int>, bucket: int, offset: int) -> bool {
    exists|k: int|
        0 <= k < indices.len() && io.bucket_of(#[trigger] indices[k]) == bucket && io.offset_of(
            indices[k],
        ) == offset
}

/// Every woken job is remembered once, and exactly the buckets with a woken job wait for a worker.
pub proof fn law_woken_jobs_wait(bucket_count: nat, io: IoResources, indices: Seq<int>)
    requires
        forall|k: int|
            0 <= k < indices.len() ==> 0 <= io.bucket_of(#[trigger] indices[k]) < bucket_count,
    ensures
        ({
            let slots = all_woken(
                Seq::new(bucket_count, |i: int| SlotView::fresh()),
                io,
                indices,
            );
            &&& slots.len() == bucket_count
            &&& forall|bucket: int, offset: int|
                0 <= bucket < bucket_count ==> (#[trigger] slots[bucket].jobs.contains(offset)
                    <==> is_among(io, indices, bucket, offset))
            &&& forall|bucket: int|
                0 <= bucket < bucket_count ==> ((#[trigger] slots[bucket]).ready()
                    <==> slots[bucket].jobs != Set::<int>::empty())
            &&& forall|bucket: int|
                0 <= bucket < bucket_count ==> !(#[trigger] slots[bucket]).in_progress
        }),
    decreases indices.len(),
{
    let fresh = Seq::new(bucket_count, |i: int| SlotView::fresh());
    let slots = all_woken(fresh, io, indices);
    if indices.len() > 0 {
        let shorter = indices.drop_last();
        let last = indices.last();
        assert forall|k: int| 0 <= k < shorter.len() implies 0 <= io.bucket_of(
            #[trigger] shorter[k],
        ) < bucket_count by {
            assert(shorter[k] == indices[k]);
        }
        law_woken_jobs_wait(bucket_count, io, shorter);
        let earlier = all_woken(fresh, io, shorter);
        assert(0 <= io.bucket_of(indices[indices.len() - 1]) < bucket_count);
        assert forall|bucket: int, offset: int| 0 <= bucket < bucket_count implies (
        #[trigger] slots[bucket].jobs.contains(offset) <==> is_among(io, indices, bucket, offset)) by {
            assert(earlier[bucket].jobs.contains(offset) <==> is_among(
                io,
                shorter,
                bucket,
                offset,
            ));
            if is_among(io, shorter, bucket, offset) {
                let k = choose|k: int|
                    0 <= k < shorter.len() && io.bucket_of(#[trigger] shorter[k]) == bucket
                        && io.offset_of(shorter[k]) == offset;
                assert(indices[k] == shorter[k]);
            }
            if is_among(io, indices, bucket, offset) {
                let k = choose|k: int|
                    0 <= k < indices.len() && io.bucket_of(#[trigger] indices[k]) == bucket
                        && io.offset_of(indices[k]) == offset;
                if k < shorter.len() {
                    assert(shorter[k] == indices[k]);
                }
            }
            if bucket == io.bucket_of(last) && offset == io.offset_of(last) {
                assert(indices[indices.len() - 1] == last);
            }
        }
        assert forall|bucket: int| 0 <= bucket < bucket_count implies {
            &&& (#[trigger] slots[bucket]).ready() <==> slots[bucket].jobs != Set::<int>::empty()
            &&& !slots[bucket].in_progress
        } by {
            assert(earlier[bucket].ready() <==> earlier[bucket].jobs != Set::<int>::empty());
            assert(!earlier[bucket].in_progress);
            if bucket == io.bucket_of(last) {
                assert(slots[bucket].jobs.contains(io.offset_of(last)));
            }
        }
    } else {
        assert forall|bucket: int, offset: int| 0 <= bucket < bucket_count implies (
        #[trigger] slots[bucket].jobs.contains(offset) <==> is_among(io, indices, bucket, offset)) by {
            assert(slots[bucket] == SlotView::fresh());
        }
    }
}

/// The lowest bucket with a woken job is claimed first.
pub proof fn law_lowest_bucket_is_claimed_first(
    bucket_count: nat,
    io: IoResources,
    indices: Seq<int>,
    claimed: int,
)
    requires
        forall|k: int|
            0 <= k < indices.len() ==> 0 <= io.bucket_of(#[trigger] indices[k]) < bucket_count,
        0 <= claimed < bucket_count,
        ({
            let slots = all_woken(
                Seq::new(bucket_count, |i: int| SlotView::fresh()),
                io,
                indices,
            );
            &&& slots[claimed].ready()
            &&& forall|j: int| 0 <= j < claimed ==> !(#[trigger] slots[j]).ready()
        }),
    ensures
        forall|k: int| 0 <= k < indices.len() ==> claimed <= io.bucket_of(#[trigger] indices[k]),
        exists|k: int| 0 <= k < indices.len() && io.bucket_of(#[trigger] indices[k]) == claimed,
{
    let slots = all_woken(Seq::new(bucket_count, |i: int| SlotView::fresh()), io, indices);
    law_woken_jobs_wait(bucket_count, io, indices);
    assert forall|k: int| 0 <= k < indices.len() implies claimed <= io.bucket_of(
        #[trigger] indices[k],
    ) by {
        let bucket = io.bucket_of(indices[k]);
        assert(is_among(io, indices, bucket, io.offset_of(indices[k])));
        assert(slots[bucket].jobs.contains(io.offset_of(indices[k])));
    }
    let offset = slots[claimed].jobs.choose();
    assert(slots[claimed].jobs.contains(offset)) by {
        if forall|o: int| !slots[claimed].jobs.contains(o) {
            assert(slots[claimed].jobs =~= Set::<int>::empty());
        }
    }
    assert(is_among(io, indices, claimed, offset));
}

/// A slot after a series of jobs was taken from it.
pub open spec fn after_taking(slot: SlotView, order: Seq<int>) -> SlotView
    decreases order.len(),
{
    if order.len() == 0 {
        slot
    } else {
        after_taking(slot, order.drop_last()).take_job(order.last())
    }
}

/// A series of jobs was taken from a slot, each one when it was the next.
pub open spec fn is_taken_in(slot: SlotView, order: Seq<int>) -> bool
    decreases order.len(),
{
    order.len() > 0 ==> {
        &&& is_taken_in(slot, order.drop_last())
        &&& after_taking(slot, order.drop_last()).is_next_job(order.last())
    }
}

/// The jobs of a bucket come out ascending, each once. When there is no next job, all of them have
/// come out.
pub proof fn law_jobs_come_out_in_order(slot: SlotView, order: Seq<int>)
    requires
        is_taken_in(slot, order),
    ensures
        forall|i: int, j: int| 0 <= i < j < order.len() ==> order[i] < order[j],
        forall|offset: int| #[trigger]
            after_taking(slot, order).jobs.contains(offset) <==> slot.jobs.contains(offset)
                && !order.contains(offset),
        forall|i: int| 0 <= i < order.len() ==> slot.jobs.contains(#[trigger] order[i]),
        forall|i: int, offset: int|
            0 <= i < order.len() && #[trigger] after_taking(slot, order).jobs.contains(offset)
                ==> #[trigger] order[i] < offset,
        after_taking(slot, order).jobs == Set::<int>::empty() ==> forall|offset: int| #[trigger]
            slot.jobs.contains(offset) ==> order.contains(offset),
    decreases order.len(),
{
    if order.len() > 0 {
        let shorter = order.drop_last();
        let last = order.last();
        law_jobs_come_out_in_order(slot, shorter);
        let before = after_taking(slot, shorter);
        let after = after_taking(slot, order);
        assert(before.jobs.contains(last));
        assert forall|i: int| 0 <= i < shorter.len() implies #[trigger] shorter[i] == order[i] by {}
        assert forall|offset: int| #[trigger] after.jobs.contains(offset) <==> slot.jobs.contains(
            offset,
        ) && !order.contains(offset) by {
            if shorter.contains(offset) {
                let i = choose|i: int| 0 <= i < shorter.len() && shorter[i] == offset;
                assert(order[i] == offset);
            }
            if order.contains(offset) {
                let i = choose|i: int| 0 <= i < order.len() && order[i] == offset;
                if i < shorter.len() {
                    assert(shorter[i] == offset);
                }
            }
            assert(order[order.len() - 1] == last);
            assert(before.jobs.contains(offset) <==> slot.jobs.contains(offset)
                && !shorter.contains(offset));
        }
        assert forall|i: int, j: int| 0 <= i < j < order.len() implies order[i] < order[j] by {
            if j < shorter.len() {
                assert(shorter[i] < shorter[j]);
            } else {
                assert(shorter[i] < last);
            }
        }
        assert forall|i: int| 0 <= i < order.len() implies slot.jobs.contains(
            #[trigger] order[i],
        ) by {
            if i < shorter.len() {
                assert(slot.jobs.contains(shorter[i]));
            }
        }
        assert forall|i: int, offset: int|
            0 <= i < order.len() && #[trigger] after.jobs.contains(
                offset,
            ) implies #[trigger] order[i] < offset by {
            assert(before.jobs.contains(offset));
            if i < shorter.len() {
                assert(shorter[i] < offset);
            }
        }
    }
    if after_taking(slot, order).jobs == Set::<int>::empty() {
        assert forall|offset: int| #[trigger] slot.jobs.contains(offset) implies order.contains(
            offset,
        ) by {
            assert(!after_taking(slot, order).jobs.contains(offset));
        }
    }
}

/// Claiming, taking jobs and finishing: a bucket that waits is enqueued and held by nobody; the
/// worker that claims it holds it alone; jobs are only ever added by waking and removed by taking,
/// one at a time; and a worker that is done gives the bucket up exactly if it was not enqueued in
/// the meantime.
pub proof fn law_slots_change_hands(slot: SlotView, offset: int, other: int)
    ensures
        slot.ready() <==> slot.enqueued && !slot.in_progress,
        !slot.claim().enqueued && slot.claim().in_progress && slot.claim().jobs == slot.jobs,
        !slot.claim().ready(),
        slot.is_next_job(offset) && slot.jobs.contains(other) ==> offset <= other,
        slot.is_next_job(offset) ==> slot.jobs.contains(offset),
        slot.jobs.contains(offset) && (forall|o: int| slot.jobs.contains(o) ==> offset <= o)
            ==> slot.is_next_job(offset),
        slot.take_job(offset).jobs.contains(other) <==> slot.jobs.contains(other) && other
            != offset,
        slot.take_job(offset).enqueued == slot.enqueued,
        slot.take_job(offset).in_progress == slot.in_progress,
        slot.in_progress ==> slot.finish().in_progress == slot.enqueued && !slot.finish().enqueued,
        slot.finish().jobs == slot.jobs,
        slot.wake_job(offset).jobs.contains(other) <==> slot.jobs.contains(other) || other
            == offset,
        slot.wake_job(offset).in_progress == slot.in_progress,
        slot.wake_job(offset).enqueued <==> slot.enqueued || !slot.jobs.contains(offset),
        slot.add_job(offset).jobs.contains(other) <==> slot.jobs.contains(other) || other == offset,
        slot.add_job(offset).flags() == slot.flags(),
        slot.mark_enqueued().enqueued && slot.mark_enqueued().in_progress == slot.in_progress
            && slot.mark_enqueued().jobs == slot.jobs,
        slot.flags().is_enqueued == slot.enqueued && slot.flags().is_in_progress
            == slot.in_progress,
        !SlotView::fresh().enqueued && !SlotView::fresh().in_progress
            && !SlotView::fresh().jobs.contains(offset),
{
}

/// Waking and taking are each other's inverse: a job that was not woken is gone again after it was
/// woken and taken, and a bucket that is drained has no job left.
pub proof fn law_a_woken_job_is_taken_once(slot: SlotView, offset: int)
    requires
        !slot.jobs.contains(offset),
    ensures
        slot.wake_job(offset).take_job(offset).jobs == slot.jobs,
        slot.wake_job(offset).wake_job(offset) == slot.wake_job(offset),
{
    assert(slot.wake_job(offset).take_job(offset).jobs =~= slot.jobs);
}

} // verus!
