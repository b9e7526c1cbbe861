//! The executor: which requests are in flight, and what a worker does next.
//!
//! Polling a future is the caller's business: the executor says what to poll, and is told whether
//! it is done.
use crate::counting;
use crate::executor;
use crate::executor::{Admission, Slot};
use crate::index;
use crate::index::{
    BucketIndex, ConnectionIndex, Http2FutureIndex, IoIndex, IoResources, QueueIndex,
};
use crate::queue::QueueSlotState;
use crate::runtime::queue;
use crate::runtime::queue::{ComplexQueue, DequeueStep, DoneWithItem};
use crate::runtime::refcount::{Refcount, EMPTY, RESERVED};
use vstd::prelude::*;

verus! {

/// What a request runs, and the identifier of the wake-ups that are meant for it.
#[derive(Debug)]
pub struct Task<F> {
    pub fut: F,
    pub identifier: u32,
}

/// What has happened to a worker.
#[derive(Debug, Clone, Copy, PartialEq, Eq, Structural)]
pub enum RunEvent {
    /// It has nothing to do.
    LookForWork,
    /// It goes on with a slot that it has claimed.
    GoOn(QueueIndex),
    /// It has polled what a slot stands for.
    Polled { queue_index: QueueIndex, is_ready: bool },
}

/// What a worker does next.
#[derive(Debug, Clone, Copy, PartialEq, Eq, Structural)]
pub enum RunAction {
    /// Sleep until something is enqueued.
    Sleep,
    /// Look for work again.
    LookForWork,
    /// Poll what a slot stands for.
    Poll { queue_index: QueueIndex, io_index: IoIndex },
    /// A slot was woken for an HTTP/2 future that is gone. It counts as one that is done.
    NoFuture(QueueIndex),
    /// A slot was woken for something that is not there.
    RaceCondition(QueueIndex),
    /// Go on with the same slot: it was woken while it ran.
    GoOn(QueueIndex),
}

/// What happens to a worker when it has done what it was told to, or `None` if it must stop:
/// something was woken that is not there. `is_ready` is what came of polling, if it was told to
/// poll. An HTTP/2 future that is gone counts as one that is done.
pub open spec fn event_after(action: RunAction, is_ready: bool) -> Option<RunEvent> {
    match action {
        RunAction::Sleep => Some(RunEvent::LookForWork),
        RunAction::LookForWork => Some(RunEvent::LookForWork),
        RunAction::Poll { queue_index, .. } => Some(RunEvent::Polled { queue_index, is_ready }),
        RunAction::NoFuture(queue_index) => Some(RunEvent::Polled { queue_index, is_ready: true }),
        RunAction::RaceCondition(_) => None,
        RunAction::GoOn(queue_index) => Some(RunEvent::GoOn(queue_index)),
    }
}

/// What happens to a worker when it has done what it was told to.
pub fn next_event(action: RunAction, is_ready: bool) -> (event: Option<RunEvent>)
    ensures
        event == event_after(action, is_ready),
{
    match action {
        RunAction::Sleep | RunAction::LookForWork => Some(RunEvent::LookForWork),
        RunAction::Poll { queue_index, .. } => Some(RunEvent::Polled { queue_index, is_ready }),
        RunAction::NoFuture(queue_index) => Some(RunEvent::Polled { queue_index, is_ready: true }),
        RunAction::RaceCondition(_) => None,
        RunAction::GoOn(queue_index) => Some(RunEvent::GoOn(queue_index)),
    }
}

/// The state of the executor. `F` is what a request runs, `C` a connection that it opened, and
/// `H` what such a connection runs.
#[derive(Debug)]
pub struct Inner<F, C, H> {
    io_resources: IoResources,
    refcounts: Vec<Refcount>,
    futures: Vec<Option<Task<F>>>,
    connections: Vec<Slot<C>>,
    http2_futures: Vec<Slot<H>>,
    queue: ComplexQueue,
}

#[derive(Debug)]
pub struct Executor<F, C, H> {
    pub inner: Inner<F, C, H>,
}

/// The state of the executor, as sequences.
#[verifier::ext_equal]
pub struct InnerView<F, C, H> {
    pub io: IoResources,
    pub refcounts: Seq<u32>,
    pub futures: Seq<Option<Task<F>>>,
    pub connections: Seq<Slot<C>>,
    pub http2_futures: Seq<Slot<H>>,
    pub slots: Seq<QueueSlotState>,
    pub active: int,
    pub cursor: int,
}

/// Whether place `i` of a table with `width` places per bucket belongs to a bucket.
pub open spec fn belongs_to(width: int, bucket: int, i: int) -> bool {
    bucket * width <= i < (bucket + 1) * width
}

/// A table in which the places of one bucket are empty.
pub open spec fn emptied<T>(table: Seq<Slot<T>>, width: int, bucket: int) -> Seq<Slot<T>> {
    Seq::new(
        table.len(),
        |i: int|
            if belongs_to(width, bucket, i) {
                Slot::Empty
            } else {
                table[i]
            },
    )
}

/// `i` is the first place of a bucket that is empty.
pub open spec fn is_first_empty<T>(table: Seq<Slot<T>>, width: int, bucket: int, i: int) -> bool {
    &&& belongs_to(width, bucket, i)
    &&& table[i] is Empty
    &&& forall|j: int| bucket * width <= j < i ==> !(#[trigger] table[j] is Empty)
}

/// No place of a bucket is empty.
pub open spec fn none_empty<T>(table: Seq<Slot<T>>, width: int, bucket: int) -> bool {
    forall|i: int| belongs_to(width, bucket, i) ==> !(#[trigger] table[i] is Empty)
}

/// `bucket` is the first that nothing keeps in use.
pub open spec fn is_first_free(refcounts: Seq<u32>, bucket: int) -> bool {
    &&& 0 <= bucket < refcounts.len()
    &&& refcounts[bucket] == EMPTY
    &&& forall|i: int| 0 <= i < bucket ==> #[trigger] refcounts[i] != EMPTY
}

/// Every bucket is in use.
pub open spec fn all_in_use(refcounts: Seq<u32>) -> bool {
    forall|i: int| 0 <= i < refcounts.len() ==> #[trigger] refcounts[i] != EMPTY
}

/// No slot that stands for nothing is in use.
pub open spec fn slots_make_sense(io: IoResources, slots: Seq<QueueSlotState>) -> bool {
    forall|i: int|
        0 <= i < slots.len() && IoIndex::is_unassigned(io, i) ==> #[trigger] slots[i]
            == queue::idle()
}

impl<F, C, H> InnerView<F, C, H> {
    /// The state before the first request.
    pub open spec fn fresh(bucket_count: nat, io: IoResources) -> Self {
        InnerView {
            io,
            refcounts: Seq::new(bucket_count, |i: int| EMPTY),
            futures: Seq::new((bucket_count * io.slots()) as nat, |i: int| None::<Task<F>>),
            connections: Seq::new(
                (bucket_count * io.http_connections) as nat,
                |i: int| Slot::<C>::Empty,
            ),
            http2_futures: Seq::new(
                (bucket_count * io.http2_futures) as nat,
                |i: int| Slot::<H>::Empty,
            ),
            slots: Seq::new((bucket_count * io.slots()) as nat, |i: int| queue::idle()),
            active: 0,
            cursor: 0,
        }
    }

    pub open spec fn bucket_count(self) -> int {
        self.refcounts.len() as int
    }

    /// A slot was woken. It is counted if it neither waited already nor runs at the moment.
    pub open spec fn enqueued(self, i: int) -> Self {
        InnerView {
            slots: self.slots.update(i, QueueSlotState { is_enqueued: true, ..self.slots[i] }),
            active: self.active + if self.slots[i] == queue::idle() {
                1int
            } else {
                0int
            },
            ..self
        }
    }

    /// A worker has run a slot.
    pub open spec fn item_done(self, i: int) -> Self {
        InnerView {
            slots: self.slots.update(
                i,
                if self.slots[i].is_enqueued {
                    queue::running()
                } else {
                    queue::idle()
                },
            ),
            ..self
        }
    }

    /// The slots after those of one bucket were emptied.
    pub open spec fn slots_without(self, bucket: int) -> Seq<QueueSlotState> {
        Seq::new(
            self.slots.len(),
            |i: int|
                if belongs_to(self.io.slots(), bucket, i) {
                    queue::idle()
                } else {
                    self.slots[i]
                },
        )
    }

    /// How many slots of a bucket wait for a worker.
    pub open spec fn waiting_in(self, bucket: int) -> int {
        counting::count(
            self.slots.subrange(bucket * self.io.slots(), (bucket + 1) * self.io.slots()),
            queue::is_waiting(),
        ) as int
    }

    /// A request is over: everything that it held is gone, its bucket empty, and those of its
    /// slots that waited are not counted any more. Nothing else has changed.
    pub open spec fn removed(self, bucket: int) -> Self {
        InnerView {
            refcounts: self.refcounts.update(bucket, EMPTY),
            futures: self.futures.update(bucket, None),
            connections: emptied(self.connections, self.io.http_connections as int, bucket),
            http2_futures: emptied(self.http2_futures, self.io.http2_futures as int, bucket),
            slots: self.slots_without(bucket),
            active: self.active - self.waiting_in(bucket),
            ..self
        }
    }

    /// How many tasks a bucket has left without one of them.
    pub open spec fn tasks_left(self, bucket: int) -> int {
        if self.refcounts[bucket] == 0 {
            0
        } else {
            self.refcounts[bucket] - 1
        }
    }

    /// One task of a bucket is done. With the last one the request is over.
    pub open spec fn released(self, bucket: int) -> Self {
        if self.refcounts[bucket] == 1 {
            self.removed(bucket)
        } else {
            InnerView {
                refcounts: self.refcounts.update(
                    bucket,
                    if self.refcounts[bucket] == 0 {
                        u32::MAX
                    } else {
                        (self.refcounts[bucket] - 1) as u32
                    },
                ),
                ..self
            }
        }
    }

    /// A worker gives up a slot after one task of its bucket is done. If none is left there is no
    /// slot to give up.
    pub open spec fn task_done(self, bucket: int, i: int) -> Self {
        if self.tasks_left(bucket) != 0 {
            self.released(bucket).item_done(i)
        } else {
            self.released(bucket)
        }
    }

    /// What a slot stands for was polled.
    pub open spec fn polled(self, queue_index: QueueIndex, is_ready: bool) -> Self {
        let i = queue_index.index as int;
        let bucket = self.io.bucket_of(i);
        if !is_ready {
            self.item_done(i)
        } else {
            match IoIndex::meaning(self.io, queue_index) {
                IoIndex::HttpConnection(connection) => (InnerView {
                    connections: self.connections.update(connection.index as int, Slot::Empty),
                    ..self
                }).item_done(i),
                IoIndex::Http2Future(future) => (InnerView {
                    http2_futures: self.http2_futures.update(future.index as int, Slot::Empty),
                    ..self
                }).task_done(bucket, i),
                _ => self.task_done(bucket, i),
            }
        }
    }

    /// Whether polling what a slot stands for ended the last task of its bucket.
    pub open spec fn ends_request(self, queue_index: QueueIndex, is_ready: bool) -> bool {
        &&& is_ready
        &&& !(IoIndex::meaning(self.io, queue_index) is HttpConnection)
        &&& self.tasks_left(self.io.bucket_of(queue_index.index as int)) == 0
    }

    /// A request that is over has a future to drop.
    pub open spec fn can_release(self, bucket: int) -> bool {
        self.refcounts[bucket] == 1 ==> self.futures[bucket] is Some
    }

    /// What a worker does with a slot that it has claimed.
    pub open spec fn next_action(self, queue_index: QueueIndex) -> RunAction {
        let io_index = IoIndex::meaning(self.io, queue_index);
        let poll = RunAction::Poll { queue_index, io_index };
        match io_index {
            IoIndex::HttpConnection(connection) => if self.connections[connection.index as int]
                is Occupied {
                poll
            } else {
                RunAction::RaceCondition(queue_index)
            },
            IoIndex::Http2Future(future) => if self.http2_futures[future.index as int]
                is Occupied {
                poll
            } else {
                RunAction::NoFuture(queue_index)
            },
            _ => match self.futures[self.io.bucket_of(queue_index.index as int)] {
                Some(task) => if task.identifier == queue_index.identifier {
                    poll
                } else {
                    RunAction::RaceCondition(queue_index)
                },
                None => RunAction::RaceCondition(queue_index),
            },
        }
    }

    /// A worker has claimed slot `i`.
    pub open spec fn claimed(self, i: int) -> Self {
        InnerView {
            slots: self.slots.update(i, queue::running()),
            active: self.active - 1,
            cursor: i,
            ..self
        }
    }

    /// Whether an event can happen in this state.
    pub open spec fn can_happen(self, event: RunEvent) -> bool {
        match event {
            RunEvent::LookForWork => true,
            RunEvent::GoOn(queue_index) => {
                &&& queue_index.index < self.slots.len()
                &&& self.slots[queue_index.index as int].is_in_progress
            },
            RunEvent::Polled { queue_index, is_ready } => {
                &&& queue_index.index < self.slots.len()
                &&& self.slots[queue_index.index as int].is_in_progress
                &&& is_ready && !(IoIndex::meaning(self.io, queue_index) is HttpConnection)
                    ==> self.can_release(self.io.bucket_of(queue_index.index as int))
            },
        }
    }

    /// The step of a worker: what it does after an event, and what has changed.
    pub open spec fn step(self, event: RunEvent, action: RunAction, after: Self) -> bool {
        match event {
            RunEvent::LookForWork => if queue::none_waits(self.slots) {
                after == self && action == RunAction::Sleep
            } else {
                exists|i: int|
                    {
                        &&& 0 <= i < self.slots.len()
                        &&& queue::is_first_waiting(self.slots, self.cursor, i)
                        &&& after == #[trigger] self.claimed(i)
                        &&& action == self.next_action(
                            QueueIndex { index: i as u32, identifier: 0 },
                        )
                    }
            },
            RunEvent::GoOn(queue_index) => {
                &&& after == self
                &&& action == self.next_action(queue_index)
            },
            RunEvent::Polled { queue_index, is_ready } => {
                &&& after == self.polled(queue_index, is_ready)
                &&& action == if !self.ends_request(queue_index, is_ready)
                    && self.slots[queue_index.index as int].is_enqueued {
                    RunAction::GoOn(queue_index)
                } else {
                    RunAction::LookForWork
                }
            },
        }
    }
}

impl<F, C, H> View for Inner<F, C, H> {
    type V = InnerView<F, C, H>;

    closed spec fn view(&self) -> InnerView<F, C, H> {
        InnerView {
            io: self.io_resources,
            refcounts: Seq::new(self.refcounts@.len(), |i: int| self.refcounts@[i]@),
            futures: self.futures@,
            connections: self.connections@,
            http2_futures: self.http2_futures@,
            slots: self.queue.slots(),
            active: self.queue.active(),
            cursor: self.queue.cursor(),
        }
    }
}

impl<F, C, H> Inner<F, C, H> {
    /// The tables have the sizes that the number of buckets calls for, and the queue is sound.
    pub closed spec fn wf(&self) -> bool {
        let n = self.refcounts@.len() as int;
        &&& self.io_resources.wf()
        &&& self.queue.wf()
        &&& n * self.io_resources.slots() < u32::MAX
        &&& self.futures@.len() == n * self.io_resources.slots()
        &&& self.connections@.len() == n * self.io_resources.http_connections
        &&& self.http2_futures@.len() == n * self.io_resources.http2_futures
        &&& self.queue.slots().len() == n * self.io_resources.slots()
        &&& slots_make_sense(self.io_resources, self.queue.slots())
    }

    /// What a sound executor can be relied on for.
    pub proof fn lemma_sizes(&self)
        requires
            self.wf(),
        ensures
            self@.io.wf(),
            self@.bucket_count() * self@.io.slots() < u32::MAX,
            self@.bucket_count() <= self@.futures.len(),
            self@.futures.len() == self@.bucket_count() * self@.io.slots(),
            self@.connections.len() == self@.bucket_count() * self@.io.http_connections,
            self@.http2_futures.len() == self@.bucket_count() * self@.io.http2_futures,
            self@.connections.len() <= u32::MAX,
            self@.http2_futures.len() <= u32::MAX,
            self@.slots.len() == self@.bucket_count() * self@.io.slots(),
            slots_make_sense(self@.io, self@.slots),
            self@.active == counting::count(self@.slots, queue::is_waiting()),
            0 <= self@.cursor <= self@.slots.len(),
    {
        self.queue.lemma_bounds();
        let n = self.refcounts@.len() as int;
        lemma_widths(n, self.io_resources);
    }

    /// An executor without requests.
    pub fn new(bucket_count: usize, io_resources: IoResources) -> (inner: Self)
        requires
            io_resources.wf(),
            bucket_count * io_resources.slots() < u32::MAX,
        ensures
            inner.wf(),
            inner@ == InnerView::<F, C, H>::fresh(bucket_count as nat, io_resources),
    {
        proof {
            lemma_widths(bucket_count as int, io_resources);
        }
        let queue_capacity: usize = bucket_count * io_resources.per_bucket();
        let connection_count: usize = bucket_count * io_resources.http_connections;
        let http2_future_count: usize = bucket_count * io_resources.http2_futures;
        let mut refcounts: Vec<Refcount> = Vec::new();
        while refcounts.len() < bucket_count
            invariant
                refcounts.len() <= bucket_count,
                forall|i: int| 0 <= i < refcounts@.len() ==> (#[trigger] refcounts@[i])@ == EMPTY,
            decreases bucket_count - refcounts.len(),
        {
            refcounts.push(Refcount::new());
        }
        let mut futures: Vec<Option<Task<F>>> = Vec::new();
        while futures.len() < queue_capacity
            invariant
                futures.len() <= queue_capacity,
                forall|i: int|
                    0 <= i < futures@.len() ==> #[trigger] futures@[i] == None::<Task<F>>,
            decreases queue_capacity - futures.len(),
        {
            futures.push(None);
        }
        let connections: Vec<Slot<C>> = empty_slots(connection_count);
        let http2_futures: Vec<Slot<H>> = empty_slots(http2_future_count);
        let queue = ComplexQueue::with_capacity(queue_capacity);
        let inner = Inner {
            io_resources,
            refcounts,
            futures,
            connections,
            http2_futures,
            queue,
        };
        proof {
            let expected = InnerView::<F, C, H>::fresh(bucket_count as nat, io_resources);
            assert(inner@.refcounts =~= expected.refcounts);
            assert(inner@.futures =~= expected.futures);
            assert(inner@.connections =~= expected.connections);
            assert(inner@.http2_futures =~= expected.http2_futures);
            assert(inner@.slots =~= expected.slots);
        }
        inner
    }

    /// Claims an empty bucket for a request.
    pub fn try_claim(&mut self) -> (claimed: Option<BucketIndex>)
        requires
            old(self).wf(),
        ensures
            final(self).wf(),
            match claimed {
                None => all_in_use(old(self)@.refcounts) && final(self)@ == old(self)@,
                Some(bucket) => {
                    &&& bucket.identifier == 0
                    &&& is_first_free(old(self)@.refcounts, bucket.index as int)
                    &&& final(self)@ == (InnerView {
                        refcounts: old(self)@.refcounts.update(bucket.index as int, 0),
                        ..old(self)@
                    })
                },
            },
    {
        proof {
            self.lemma_sizes();
        }
        let mut i: usize = 0;
        while i < self.refcounts.len()
            invariant
                i <= self.refcounts.len(),
                self.refcounts.len() <= u32::MAX,
                self@ == old(self)@,
                self.wf(),
                forall|j: int| 0 <= j < i ==> #[trigger] self@.refcounts[j] != EMPTY,
            decreases self.refcounts.len() - i,
        {
            let ghost before = self@;
            let reserved = self.refcounts[i].try_reserve();
            if reserved.is_ok() {
                self.refcounts[i].claim();
                assert(self@.refcounts =~= before.refcounts.update(i as int, 0));
                return Some(BucketIndex { identifier: 0, index: i as u32 });
            }
            assert(self@.refcounts =~= before.refcounts);
            i = i + 1;
        }
        None
    }

    /// Puts a request into the bucket that it claimed.
    pub fn set(&mut self, index: BucketIndex, value: Task<F>)
        requires
            old(self).wf(),
            index.index < old(self)@.bucket_count(),
            old(self)@.refcounts[index.index as int] == 0,
            old(self)@.futures[index.index as int] is None,
        ensures
            final(self).wf(),
            final(self)@ == (InnerView {
                refcounts: old(self)@.refcounts.update(index.index as int, 1),
                futures: old(self)@.futures.update(index.index as int, Some(value)),
                ..old(self)@
            }),
    {
        proof {
            self.lemma_sizes();
        }
        self.refcounts[index.index as usize].incref();
        self.futures[index.index as usize] = Some(value);
        assert(self@.refcounts =~= old(self)@.refcounts.update(index.index as int, 1));
    }

    /// Enqueues a slot, and tells whether a sleeping worker has to be woken.
    pub fn wake(&mut self, queue_index: QueueIndex) -> (wake_one: bool)
        requires
            old(self).wf(),
            queue_index.index < old(self)@.slots.len(),
            !IoIndex::is_unassigned(old(self)@.io, queue_index.index as int),
        ensures
            final(self).wf(),
            wake_one == (old(self)@.slots[queue_index.index as int] == queue::idle()),
            final(self)@ == old(self)@.enqueued(queue_index.index as int),
    {
        match self.queue.enqueue(queue_index) {
            Ok(wake_one) => wake_one,
            Err(_) => false,
        }
    }

    /// The task of a request, for polling.
    pub fn task(&self, bucket_index: BucketIndex) -> (task: Option<&Task<F>>)
        requires
            self.wf(),
            bucket_index.index < self@.bucket_count(),
        ensures
            match task {
                None => self@.futures[bucket_index.index as int] is None,
                Some(task) => self@.futures[bucket_index.index as int] == Some(*task),
            },
    {
        proof {
            self.lemma_sizes();
        }
        self.futures[bucket_index.index as usize].as_ref()
    }

    /// A connection, for polling.
    pub fn connection(&self, connection_index: ConnectionIndex) -> (slot: &Slot<C>)
        requires
            connection_index.index < self@.connections.len(),
        ensures
            *slot == self@.connections[connection_index.index as int],
    {
        &self.connections[connection_index.index as usize]
    }

    /// An HTTP/2 future, for polling.
    pub fn http2_future(&self, future_index: Http2FutureIndex) -> (slot: &Slot<H>)
        requires
            future_index.index < self@.http2_futures.len(),
        ensures
            *slot == self@.http2_futures[future_index.index as int],
    {
        &self.http2_futures[future_index.index as usize]
    }

    /// How many tasks keep a bucket in use.
    pub fn refcount(&self, bucket_index: BucketIndex) -> (count: u32)
        requires
            bucket_index.index < self@.bucket_count(),
        ensures
            count == self@.refcounts[bucket_index.index as int],
    {
        self.refcounts[bucket_index.index as usize].load()
    }

    /// How many slots are counted as waiting for a worker.
    pub fn active(&self) -> (active: u32)
        ensures
            active == self@.active,
    {
        self.queue.load_active()
    }

    pub fn io_resources(&self) -> (io_resources: IoResources)
        ensures
            io_resources == self@.io,
    {
        self.io_resources
    }

    pub fn bucket_count(&self) -> (count: usize)
        ensures
            count == self@.bucket_count(),
    {
        self.refcounts.len()
    }

    /// Whether a queue slot exists, and stands for something.
    pub fn is_item(&self, queue_index: QueueIndex) -> (result: bool)
        requires
            self.wf(),
        ensures
            result == (queue_index.index < self@.slots.len() && !IoIndex::is_unassigned(
                self@.io,
                queue_index.index as int,
            )),
    {
        let offset: u32 = queue_index.index % (self.io_resources.per_bucket() as u32);
        (queue_index.index as usize) < self.queue.capacity() && (offset == 0
            || self.io_resources.tcp_streams <= offset as usize)
    }

    /// Whether an event can happen.
    pub fn is_possible(&self, event: RunEvent) -> (result: bool)
        requires
            self.wf(),
        ensures
            result == self@.can_happen(event),
    {
        proof {
            self.lemma_sizes();
        }
        match event {
            RunEvent::LookForWork => true,
            RunEvent::GoOn(queue_index) => {
                (queue_index.index as usize) < self.queue.capacity() && self.queue.state(
                    queue_index,
                ).is_in_progress
            },
            RunEvent::Polled { queue_index, is_ready } => {
                if queue_index.index as usize >= self.queue.capacity() || !self.queue.state(
                    queue_index,
                ).is_in_progress {
                    return false;
                }
                if !is_ready {
                    return true;
                }
                proof {
                    self.lemma_slot(queue_index);
                }
                match IoIndex::from_index(self.io_resources, queue_index) {
                    IoIndex::HttpConnection(_) => true,
                    _ => {
                        let bucket_index = queue_index.to_bucket_index(self.io_resources);
                        self.refcount(bucket_index) != 1 || self.task(bucket_index).is_some()
                    },
                }
            },
        }
    }

    /// What a slot that is in use stands for is in the tables.
    proof fn lemma_slot(&self, queue_index: QueueIndex)
        requires
            self.wf(),
            queue_index.index < self@.slots.len(),
            self@.slots[queue_index.index as int] != queue::idle(),
        ensures
            !IoIndex::is_unassigned(self@.io, queue_index.index as int),
            0 <= self@.io.bucket_of(queue_index.index as int) < self@.bucket_count(),
            match IoIndex::meaning(self@.io, queue_index) {
                IoIndex::InputStream(bucket) => bucket.index == self@.io.bucket_of(
                    queue_index.index as int,
                ),
                IoIndex::HttpConnection(connection) => connection.index < self@.connections.len(),
                IoIndex::Http2Future(future) => future.index < self@.http2_futures.len(),
                IoIndex::CustomStream(_) => false,
            },
    {
        self.lemma_sizes();
        lemma_table_place(self@.io, self@.bucket_count(), queue_index);
    }

    /// One step of a worker.
    pub fn run(&mut self, event: RunEvent) -> (action: RunAction)
        requires
            old(self).wf(),
            old(self)@.can_happen(event),
        ensures
            final(self).wf(),
            old(self)@.step(event, action, final(self)@),
    {
        match event {
            RunEvent::LookForWork => self.look_for_work(),
            RunEvent::GoOn(queue_index) => self.next_action(queue_index),
            RunEvent::Polled { queue_index, is_ready } => {
                proof {
                    self.lemma_slot(queue_index);
                    self.lemma_sizes();
                }
                let done_with_item = match IoIndex::from_index(self.io_resources, queue_index) {
                    IoIndex::HttpConnection(connection_index) => {
                        if is_ready {
                            self.connections[connection_index.index as usize] = Slot::Empty;
                        }
                        self.queue.done_with_item(queue_index)
                    },
                    IoIndex::Http2Future(future_index) => {
                        if is_ready {
                            self.http2_futures[future_index.index as usize] = Slot::Empty;
                            self.task_done(queue_index)
                        } else {
                            // keep the future in the slab
                            self.queue.done_with_item(queue_index)
                        }
                    },
                    _ => {
                        if is_ready {
                            self.task_done(queue_index)
                        } else {
                            // keep the future in the slab
                            self.queue.done_with_item(queue_index)
                        }
                    },
                };
                // the queue index may have been enqueued again while we processed it.
                match done_with_item {
                    DoneWithItem::Done => RunAction::LookForWork,
                    DoneWithItem::GoAgain => RunAction::GoOn(queue_index),
                }
            },
        }
    }

    /// Claims the next slot that waits for a worker.
    fn look_for_work(&mut self) -> (action: RunAction)
        requires
            old(self).wf(),
        ensures
            final(self).wf(),
            old(self)@.step(RunEvent::LookForWork, action, final(self)@),
    {
        let ghost before = self@;
        match self.queue.blocking_dequeue() {
            DequeueStep::Sleep => RunAction::Sleep,
            DequeueStep::Run(queue_index) => {
                let ghost i = queue_index.index as int;
                proof {
                    assert(queue::waits(before.slots[i]));
                    assert(self@ =~= before.claimed(i));
                }
                self.next_action(queue_index)
            },
        }
    }

    /// What a worker does with a slot that it has claimed.
    fn next_action(&self, queue_index: QueueIndex) -> (action: RunAction)
        requires
            self.wf(),
            queue_index.index < self@.slots.len(),
            self@.slots[queue_index.index as int].is_in_progress,
        ensures
            action == self@.next_action(queue_index),
    {
        proof {
            self.lemma_slot(queue_index);
        }
        let io_index = IoIndex::from_index(self.io_resources, queue_index);
        let can_poll = match io_index {
            IoIndex::HttpConnection(connection_index) => match self.connection(connection_index) {
                Slot::Empty | Slot::Reserved => return RunAction::RaceCondition(queue_index),
                Slot::Occupied(_) => true,
            },
            IoIndex::Http2Future(future_index) => match self.http2_future(future_index) {
                Slot::Empty | Slot::Reserved => return RunAction::NoFuture(queue_index),
                Slot::Occupied(_) => true,
            },
            _ => match self.task(queue_index.to_bucket_index(self.io_resources)) {
                None => false,
                Some(task) => task.identifier == queue_index.identifier,
            },
        };
        if can_poll {
            RunAction::Poll { queue_index, io_index }
        } else {
            RunAction::RaceCondition(queue_index)
        }
    }

    /// One task of a bucket is done. The slot that it ran in is given up, unless the request is
    /// over.
    fn task_done(&mut self, queue_index: QueueIndex) -> (done: DoneWithItem)
        requires
            old(self).wf(),
            queue_index.index < old(self)@.slots.len(),
            old(self)@.slots[queue_index.index as int].is_in_progress,
            old(self)@.can_release(old(self)@.io.bucket_of(queue_index.index as int)),
        ensures
            final(self).wf(),
            ({
                let i = queue_index.index as int;
                let bucket = old(self)@.io.bucket_of(i);
                &&& final(self)@ == old(self)@.task_done(bucket, i)
                &&& done == if old(self)@.tasks_left(bucket) != 0 && old(self)@.slots[i].is_enqueued {
                    DoneWithItem::GoAgain
                } else {
                    DoneWithItem::Done
                }
            }),
    {
        proof {
            self.lemma_slot(queue_index);
        }
        let bucket_index = queue_index.to_bucket_index(self.io_resources);
        let new_rc: u32 = self.decref(bucket_index);
        if new_rc != 0 {
            self.queue.done_with_item(queue_index)
        } else {
            DoneWithItem::Done
        }
    }

    /// One task of a bucket is done. Tells how many are left.
    pub fn decref(&mut self, index: BucketIndex) -> (count: u32)
        requires
            old(self).wf(),
            index.index < old(self)@.bucket_count(),
            old(self)@.can_release(index.index as int),
        ensures
            final(self).wf(),
            count == old(self)@.tasks_left(index.index as int),
            final(self)@ == old(self)@.released(index.index as int),
    {
        let ghost before = self@;
        // value was one, so after subtracting 1, it will be zero, and we can free this slot
        let old: u32 = self.refcounts[index.index as usize].fetch_sub();
        assert(self@.refcounts =~= before.refcounts.update(
            index.index as int,
            if old == 0 {
                u32::MAX
            } else {
                (old - 1) as u32
            },
        ));
        if old == 1 {
            // handler is done, free up its spot in the slab
            self.remove(index);
            assert(self@ =~= before.removed(index.index as int));
        }
        old.saturating_sub(1)
    }

    /// Drops everything that a request held, and empties its bucket.
    pub fn remove(&mut self, index: BucketIndex)
        requires
            old(self).wf(),
            index.index < old(self)@.bucket_count(),
            old(self)@.refcounts[index.index as int] <= 1,
            old(self)@.futures[index.index as int] is Some,
        ensures
            final(self).wf(),
            final(self)@ == old(self)@.removed(index.index as int),
    {
        let ghost before = self@;
        let ghost bucket = index.index as int;
        proof {
            self.lemma_sizes();
            executor::lemma_ranges(before.bucket_count(), before.io.slots(), bucket);
            executor::lemma_ranges(before.bucket_count(), before.io.http_connections as int, bucket);
            executor::lemma_ranges(before.bucket_count(), before.io.http2_futures as int, bucket);
        }
        self.futures[index.index as usize] = None;
        // will drop/clean up the TCP connections
        let connections = self.io_resources.http_connections(index);
        empty_range(&mut self.connections, connections.start, connections.end);
        let http2_futures = self.io_resources.http2_futures(index);
        empty_range(&mut self.http2_futures, http2_futures.start, http2_futures.end);
        let slots = self.io_resources.queue_slots(index);
        self.clear_slots(slots.start, slots.end);
        self.refcounts[index.index as usize].decref();
        proof {
            let expected = before.removed(bucket);
            assert(self@.refcounts =~= expected.refcounts);
            assert(self@.connections =~= expected.connections);
            assert(self@.http2_futures =~= expected.http2_futures);
            assert(self@.slots =~= expected.slots);
            assert(self@ =~= expected);
        }
    }

    /// Empties a range of queue slots.
    fn clear_slots(&mut self, start: usize, end: usize)
        requires
            old(self).wf(),
            start <= end <= old(self)@.slots.len(),
        ensures
            final(self).wf(),
            final(self)@ == (InnerView {
                slots: Seq::new(
                    old(self)@.slots.len(),
                    |i: int|
                        if start <= i < end {
                            queue::idle()
                        } else {
                            old(self)@.slots[i]
                        },
                ),
                active: old(self)@.active - counting::count(
                    old(self)@.slots.subrange(start as int, end as int),
                    queue::is_waiting(),
                ),
                ..old(self)@
            }),
            final(self).refcounts == old(self).refcounts,
    {
        let ghost before = self@;
        let mut i: usize = start;
        assert(before.slots.subrange(start as int, start as int) =~= Seq::empty());
        while i < end
            invariant
                start <= i <= end,
                end <= before.slots.len(),
                self.wf(),
                before == old(self)@,
                self.refcounts == old(self).refcounts,
                self@ == (InnerView { slots: self@.slots, active: self@.active, ..before }),
                self@.active == before.active - counting::count(
                    before.slots.subrange(start as int, i as int),
                    queue::is_waiting(),
                ),
                self@.slots.len() == before.slots.len(),
                forall|j: int|
                    0 <= j < before.slots.len() ==> #[trigger] self@.slots[j] == if start <= j < i {
                        queue::idle()
                    } else {
                        before.slots[j]
                    },
            decreases end - i,
        {
            proof {
                let cleared = before.slots.subrange(start as int, i + 1);
                assert(cleared.drop_last() =~= before.slots.subrange(start as int, i as int));
                assert(cleared.last() == before.slots[i as int]);
                assert(self@.slots[i as int] == before.slots[i as int]);
            }
            self.queue.clear(i);
            i = i + 1;
        }
        assert(self@.slots =~= Seq::new(
            before.slots.len(),
            |i: int|
                if start <= i < end {
                    queue::idle()
                } else {
                    before.slots[i]
                },
        ));
    }
}

impl<F, C, H> Inner<F, C, H> {
    /// Reserves a place for a connection that a request opens. The result is the place and its
    /// queue slot, or `None` if all places of the bucket are taken.
    pub fn reserve_connection(&mut self, bucket_index: BucketIndex) -> (reserved: Option<
        (ConnectionIndex, QueueIndex),
    >)
        requires
            old(self).wf(),
            bucket_index.index < old(self)@.bucket_count(),
        ensures
            final(self).wf(),
            ({
                let before = old(self)@;
                let bucket = bucket_index.index as int;
                let width = before.io.http_connections as int;
                match reserved {
                    None => none_empty(before.connections, width, bucket) && final(self)@ == before,
                    Some((connection, queue_index)) => {
                        &&& is_first_empty(
                            before.connections,
                            width,
                            bucket,
                            connection.index as int,
                        )
                        &&& connection.identifier == bucket_index.identifier
                        &&& queue_index.identifier == bucket_index.identifier
                        &&& queue_index.index == QueueIndex::of_connection(before.io, connection)
                        &&& final(self)@ == (InnerView {
                            connections: before.connections.update(
                                connection.index as int,
                                Slot::Reserved,
                            ),
                            ..before
                        })
                    },
                }
            }),
    {
        let ghost before = self@;
        proof {
            self.lemma_sizes();
            executor::lemma_ranges(
                before.bucket_count(),
                before.io.http_connections as int,
                bucket_index.index as int,
            );
        }
        let indices = self.io_resources.http_connections(bucket_index);
        match first_empty(&self.connections, indices.start, indices.end) {
            None => None,
            Some(i) => {
                self.connections[i] = Slot::Reserved;
                let connection_index = ConnectionIndex {
                    identifier: bucket_index.identifier,
                    index: i as u32,
                };
                proof {
                    lemma_connection_place(
                        before.io,
                        before.bucket_count(),
                        bucket_index.index as int,
                        connection_index,
                    );
                }
                let queue_index = QueueIndex::from_connection_index(
                    self.io_resources,
                    connection_index,
                );
                Some((connection_index, queue_index))
            },
        }
    }

    /// Puts a connection into its place, and enqueues its slot. The result tells whether a
    /// sleeping worker has to be woken.
    pub fn populate_connection(&mut self, connection_index: ConnectionIndex, connection: C) -> (
    wake_one: bool)
        requires
            old(self).wf(),
            connection_index.index < old(self)@.connections.len(),
        ensures
            final(self).wf(),
            ({
                let populated = InnerView {
                    connections: old(self)@.connections.update(
                        connection_index.index as int,
                        Slot::Occupied(connection),
                    ),
                    ..old(self)@
                };
                let i = QueueIndex::of_connection(old(self)@.io, connection_index);
                &&& 0 <= i < old(self)@.slots.len()
                &&& wake_one == (old(self)@.slots[i] == queue::idle())
                &&& final(self)@ == populated.enqueued(i)
            }),
    {
        proof {
            self.lemma_sizes();
            let width = self@.io.http_connections as int;
            lemma_bucket_of_place(self@.bucket_count(), width, connection_index.index as int);
            lemma_connection_place(
                self@.io,
                self@.bucket_count(),
                connection_index.index as int / width,
                connection_index,
            );
        }
        self.connections[connection_index.index as usize] = Slot::Occupied(connection);
        let queue_index = QueueIndex::from_connection_index(self.io_resources, connection_index);
        self.wake(queue_index)
    }

    /// Starts what a connection of a bucket runs. The result tells whether a sleeping worker has
    /// to be woken; it is `None` if all places of the bucket are taken.
    pub fn spawn_http2_future(&mut self, bucket_index: BucketIndex, future: H) -> (wake_one: Option<
        bool,
    >)
        requires
            old(self).wf(),
            bucket_index.index < old(self)@.bucket_count(),
            old(self)@.refcounts[bucket_index.index as int] < u32::MAX,
        ensures
            final(self).wf(),
            ({
                let before = old(self)@;
                let bucket = bucket_index.index as int;
                let width = before.io.http2_futures as int;
                match wake_one {
                    None => none_empty(before.http2_futures, width, bucket) && final(self)@
                        == before,
                    Some(wake_one) => exists|place: Http2FutureIndex|
                        {
                            let i = QueueIndex::of_http2_future(before.io, place);
                            &&& #[trigger] is_first_empty(
                                before.http2_futures,
                                width,
                                bucket,
                                place.index as int,
                            )
                            &&& 0 <= i < before.slots.len()
                            &&& wake_one == (before.slots[i] == queue::idle())
                            &&& final(self)@ == (InnerView {
                                http2_futures: before.http2_futures.update(
                                    place.index as int,
                                    Slot::Occupied(future),
                                ),
                                refcounts: before.refcounts.update(
                                    bucket,
                                    (before.refcounts[bucket] + 1) as u32,
                                ),
                                ..before
                            }).enqueued(i)
                        },
                }
            }),
    {
        let ghost before = self@;
        proof {
            self.lemma_sizes();
            executor::lemma_ranges(
                before.bucket_count(),
                before.io.http2_futures as int,
                bucket_index.index as int,
            );
        }
        let indices = self.io_resources.http2_futures(bucket_index);
        match first_empty(&self.http2_futures, indices.start, indices.end) {
            None => None,
            Some(i) => {
                self.http2_futures[i] = Slot::Occupied(future);
                let http2_future_index = Http2FutureIndex {
                    identifier: bucket_index.identifier,
                    index: i as u32,
                };
                proof {
                    lemma_http2_future_place(
                        before.io,
                        before.bucket_count(),
                        bucket_index.index as int,
                        http2_future_index,
                    );
                }
                let queue_index = QueueIndex::from_http2_future_index(
                    self.io_resources,
                    http2_future_index,
                );
                self.refcounts[bucket_index.index as usize].incref();
                proof {
                    assert(self@.refcounts =~= before.refcounts.update(
                        bucket_index.index as int,
                        (before.refcounts[bucket_index.index as int] + 1) as u32,
                    ));
                    assert(is_first_empty(
                        before.http2_futures,
                        before.io.http2_futures as int,
                        bucket_index.index as int,
                        http2_future_index.index as int,
                    ));
                }
                Some(self.wake(queue_index))
            },
        }
    }
}

/// The first empty place in a range.
fn first_empty<T>(table: &Vec<Slot<T>>, start: usize, end: usize) -> (place: Option<usize>)
    requires
        start <= end <= table@.len(),
    ensures
        match place {
            None => forall|i: int| start <= i < end ==> !(#[trigger] table@[i] is Empty),
            Some(place) => {
                &&& start <= place < end
                &&& table@[place as int] is Empty
                &&& forall|i: int| start <= i < place ==> !(#[trigger] table@[i] is Empty)
            },
        },
{
    let mut i: usize = start;
    while i < end
        invariant
            start <= i <= end,
            end <= table@.len(),
            forall|j: int| start <= j < i ==> !(#[trigger] table@[j] is Empty),
        decreases end - i,
    {
        if let Slot::Empty = &table[i] {
            return Some(i);
        }
        i = i + 1;
    }
    None
}

/// The bucket that a place of a table belongs to.
pub(crate) proof fn lemma_bucket_of_place(n: int, width: int, i: int)
    requires
        0 <= n,
        0 <= width,
        0 <= i < n * width,
    ensures
        width > 0,
        0 <= i / width < n,
        belongs_to(width, i / width, i),
{
    assert(width > 0) by (nonlinear_arith)
        requires
            0 <= i < n * width,
            n >= 0,
            width >= 0,
    ;
    vstd::arithmetic::div_mod::lemma_fundamental_div_mod(i, width);
    let bucket = i / width;
    assert(0 <= bucket < n && bucket * width <= i < (bucket + 1) * width) by (nonlinear_arith)
        requires
            i == width * bucket + i % width,
            0 <= i % width < width,
            0 <= i < n * width,
            width > 0,
    ;
}

/// The queue slot of a connection belongs to the same bucket.
pub(crate) proof fn lemma_connection_place(
    io: IoResources,
    n: int,
    bucket: int,
    connection: ConnectionIndex,
)
    requires
        io.wf(),
        0 <= bucket < n,
        n * io.slots() <= u32::MAX,
        belongs_to(io.http_connections as int, bucket, connection.index as int),
    ensures
        io.http_connections > 0,
        0 <= QueueIndex::of_connection(io, connection) < n * io.slots(),
        io.bucket_of(QueueIndex::of_connection(io, connection)) == bucket,
        !IoIndex::is_unassigned(io, QueueIndex::of_connection(io, connection)),
{
    let width = io.http_connections as int;
    executor::lemma_ranges(n, width, bucket);
    executor::lemma_ranges(n, io.slots(), bucket);
    vstd::arithmetic::div_mod::lemma_fundamental_div_mod_converse(
        connection.index as int,
        width,
        bucket,
        connection.index - bucket * width,
    );
    index::law_connection_round_trip(io, connection);
}

/// The queue slot of an HTTP/2 future belongs to the same bucket.
pub(crate) proof fn lemma_http2_future_place(
    io: IoResources,
    n: int,
    bucket: int,
    future: Http2FutureIndex,
)
    requires
        io.wf(),
        0 <= bucket < n,
        n * io.slots() <= u32::MAX,
        belongs_to(io.http2_futures as int, bucket, future.index as int),
    ensures
        io.http2_futures > 0,
        0 <= QueueIndex::of_http2_future(io, future) < n * io.slots(),
        io.bucket_of(QueueIndex::of_http2_future(io, future)) == bucket,
        !IoIndex::is_unassigned(io, QueueIndex::of_http2_future(io, future)),
{
    let width = io.http2_futures as int;
    executor::lemma_ranges(n, width, bucket);
    executor::lemma_ranges(n, io.slots(), bucket);
    vstd::arithmetic::div_mod::lemma_fundamental_div_mod_converse(
        future.index as int,
        width,
        bucket,
        future.index - bucket * width,
    );
    index::law_http2_future_round_trip(io, future);
}

impl<F, C, H> Executor<F, C, H> {
    pub open spec fn wf(&self) -> bool {
        self.inner.wf()
    }

    /// The executor that exists already, or a new one without requests. Both must have the same
    /// resources per bucket.
    pub fn get_or_init(
        existing: Option<Self>,
        bucket_count: usize,
        io_resources: IoResources,
    ) -> (executor: Self)
        requires
            match existing {
                Some(executor) => executor.wf() && executor.inner@.io == io_resources,
                None => io_resources.wf() && bucket_count * io_resources.slots() < u32::MAX,
            },
        ensures
            executor.wf(),
            match existing {
                Some(existing) => executor == existing,
                None => executor.inner@ == InnerView::<F, C, H>::fresh(
                    bucket_count as nat,
                    io_resources,
                ),
            },
    {
        match existing {
            Some(executor) => executor,
            None => Executor { inner: Inner::new(bucket_count, io_resources) },
        }
    }

    /// Fixes what kind of handler the executor is for. It has no effect.
    pub fn type_hint<G>(&self, _hint: G) {
    }

    pub fn try_claim(&mut self) -> (claimed: Option<BucketIndex>)
        requires
            old(self).wf(),
        ensures
            final(self).wf(),
            match claimed {
                None => all_in_use(old(self).inner@.refcounts) && final(self).inner@
                    == old(self).inner@,
                Some(bucket) => {
                    &&& bucket.identifier == 0
                    &&& is_first_free(old(self).inner@.refcounts, bucket.index as int)
                    &&& final(self).inner@ == (InnerView {
                        refcounts: old(self).inner@.refcounts.update(bucket.index as int, 0),
                        ..old(self).inner@
                    })
                },
            },
    {
        self.inner.try_claim()
    }

    /// Starts a request in the bucket that it claimed, and tells whether a sleeping worker has to
    /// be woken.
    pub fn execute(&mut self, index: BucketIndex, fut: F) -> (wake_one: bool)
        requires
            old(self).wf(),
            index.index < old(self).inner@.bucket_count(),
            old(self).inner@.refcounts[index.index as int] == 0,
            old(self).inner@.futures[index.index as int] is None,
        ensures
            final(self).wf(),
            ({
                let before = old(self).inner@;
                let bucket = index.index as int;
                let i = QueueIndex::of_bucket(before.io, index);
                &&& 0 <= i < before.slots.len()
                &&& wake_one == (before.slots[i] == queue::idle())
                &&& final(self).inner@ == (InnerView {
                    refcounts: before.refcounts.update(bucket, 1),
                    futures: before.futures.update(
                        bucket,
                        Some(Task { fut, identifier: index.identifier }),
                    ),
                    ..before
                }).enqueued(i)
            }),
    {
        proof {
            self.inner.lemma_sizes();
            executor::lemma_ranges(
                self.inner@.bucket_count(),
                self.inner@.io.slots(),
                index.index as int,
            );
            index::law_bucket_round_trip(self.inner@.io, index);
        }
        let task = Task { fut, identifier: index.identifier };
        self.inner.set(index, task);
        let queue_index = QueueIndex::from_bucket_index(self.inner.io_resources, index);
        self.inner.wake(queue_index)
    }
}

impl<F, C, H> Executor<F, C, H> {
    /// Admits a new connection if a bucket is empty.
    pub fn accept(&mut self) -> (admission: Admission)
        requires
            old(self).wf(),
        ensures
            final(self).wf(),
            match admission {
                Admission::Refused => all_in_use(old(self).inner@.refcounts)
                    && final(self).inner@ == old(self).inner@,
                Admission::Admitted { bucket_index, queue_index } => {
                    &&& bucket_index.identifier == 0
                    &&& is_first_free(old(self).inner@.refcounts, bucket_index.index as int)
                    &&& queue_index.identifier == 0
                    &&& queue_index.index == QueueIndex::of_bucket(old(self).inner@.io, bucket_index)
                    &&& final(self).inner@ == (InnerView {
                        refcounts: old(self).inner@.refcounts.update(bucket_index.index as int, 0),
                        ..old(self).inner@
                    })
                },
            },
    {
        match self.inner.try_claim() {
            None => Admission::Refused,
            Some(bucket_index) => {
                proof {
                    self.inner.lemma_sizes();
                    executor::lemma_ranges(
                        self.inner@.bucket_count(),
                        self.inner@.io.slots(),
                        bucket_index.index as int,
                    );
                }
                let queue_index = QueueIndex::from_bucket_index(
                    self.inner.io_resources,
                    bucket_index,
                );
                Admission::Admitted { bucket_index, queue_index }
            },
        }
    }
}

/// A request that is over harms no other: the other buckets keep everything.
pub proof fn law_removal_is_local<F, C, H>(state: InnerView<F, C, H>, bucket: int, other: int)
    requires
        0 <= bucket < state.bucket_count(),
        0 <= other < state.bucket_count(),
        bucket != other,
        state.io.wf(),
        state.futures.len() == state.bucket_count() * state.io.slots(),
        state.connections.len() == state.bucket_count() * state.io.http_connections,
        state.http2_futures.len() == state.bucket_count() * state.io.http2_futures,
        state.slots.len() == state.bucket_count() * state.io.slots(),
    ensures
        ({
            let after = state.removed(bucket);
            &&& after.refcounts[other] == state.refcounts[other]
            &&& after.futures[other] == state.futures[other]
            &&& forall|i: int|
                belongs_to(state.io.http_connections as int, other, i)
                    ==> #[trigger] after.connections[i] == state.connections[i]
            &&& forall|i: int|
                belongs_to(state.io.http2_futures as int, other, i)
                    ==> #[trigger] after.http2_futures[i] == state.http2_futures[i]
            &&& forall|i: int|
                belongs_to(state.io.slots(), other, i) ==> #[trigger] after.slots[i]
                    == state.slots[i]
        }),
{
    let n = state.bucket_count();
    lemma_widths(n, state.io);
    lemma_apart(n, state.io.http_connections as int, bucket, other);
    lemma_apart(n, state.io.http2_futures as int, bucket, other);
    lemma_apart(n, state.io.slots(), bucket, other);
}

/// No place belongs to two buckets.
pub(crate) proof fn lemma_apart(n: int, width: int, bucket: int, other: int)
    requires
        0 <= bucket < n,
        0 <= other < n,
        bucket != other,
        0 <= width,
    ensures
        forall|i: int| #[trigger]
            belongs_to(width, other, i) ==> 0 <= i < n * width && !belongs_to(width, bucket, i),
{
    executor::lemma_ranges(n, width, bucket);
    executor::lemma_ranges(n, width, other);
    if other < bucket {
        assert((other + 1) * width <= bucket * width) by (nonlinear_arith)
            requires
                other + 1 <= bucket,
                width >= 0,
        ;
    } else {
        assert((bucket + 1) * width <= other * width) by (nonlinear_arith)
            requires
                bucket + 1 <= other,
                width >= 0,
        ;
    }
}

/// Whether exactly the buckets with a count of tasks hold a request.
pub open spec fn is_consistent<F, C, H>(state: InnerView<F, C, H>) -> bool {
    forall|b: int|
        0 <= b < state.refcounts.len() ==> (0 < #[trigger] state.refcounts[b] < RESERVED
            <==> state.futures[b] is Some)
}

/// As long as no slot is woken for an HTTP/2 future that is gone, exactly the buckets with a count
/// of tasks hold a request. So a request that is over always has a future to drop, and its bucket
/// is empty afterwards.
pub proof fn law_requests_are_counted<F, C, H>(
    state: InnerView<F, C, H>,
    bucket: int,
    task: Task<F>,
)
    requires
        0 <= bucket < state.bucket_count() <= state.futures.len(),
        is_consistent(state),
    ensures
        is_first_free(state.refcounts, bucket) ==> is_consistent(
            (InnerView { refcounts: state.refcounts.update(bucket, 0), ..state }),
        ),
        state.refcounts[bucket] == 0 ==> state.futures[bucket] is None && is_consistent(
            (InnerView {
                refcounts: state.refcounts.update(bucket, 1),
                futures: state.futures.update(bucket, Some(task)),
                ..state
            }),
        ),
        0 < state.refcounts[bucket] < RESERVED ==> {
            &&& state.can_release(bucket)
            &&& is_consistent(state.released(bucket))
            &&& state.tasks_left(bucket) == 0 ==> !all_in_use(state.released(bucket).refcounts)
                && state.released(bucket).futures[bucket] is None
        },
{
    if 0 < state.refcounts[bucket] < RESERVED {
        let after = state.released(bucket);
        assert forall|b: int| 0 <= b < after.refcounts.len() implies (0
            < #[trigger] after.refcounts[b] < RESERVED <==> after.futures[b] is Some) by {
            assert(0 < state.refcounts[b] < RESERVED <==> state.futures[b] is Some);
        }
        if state.tasks_left(bucket) == 0 {
            assert(after.refcounts[bucket] == EMPTY);
        }
    }
    let claimed = state.refcounts.update(bucket, 0);
    assert forall|b: int| 0 <= b < claimed.len() && is_first_free(
        state.refcounts,
        bucket,
    ) implies (0 < #[trigger] claimed[b] < RESERVED <==> state.futures[b] is Some) by {
        assert(0 < state.refcounts[b] < RESERVED <==> state.futures[b] is Some);
    }
    let started = state.refcounts.update(bucket, 1);
    let futures = state.futures.update(bucket, Some(task));
    assert forall|b: int| 0 <= b < started.len() && state.refcounts[bucket] == 0 implies (0
        < #[trigger] started[b] < RESERVED <==> futures[b] is Some) by {
        assert(0 < state.refcounts[b] < RESERVED <==> state.futures[b] is Some);
    }
}

/// How many requests are in flight.
pub open spec fn in_flight(refcounts: Seq<u32>) -> nat {
    counting::count(refcounts, |count: u32| count != EMPTY)
}

/// Never more requests are in flight than there are buckets; each claim adds one, and a claim is
/// refused exactly when there are as many as buckets.
pub proof fn law_requests_are_bounded(refcounts: Seq<u32>, bucket: int)
    ensures
        in_flight(refcounts) <= refcounts.len(),
        is_first_free(refcounts, bucket) ==> in_flight(refcounts.update(bucket, 0)) == in_flight(
            refcounts,
        ) + 1,
        all_in_use(refcounts) <==> in_flight(refcounts) == refcounts.len(),
{
    let used = |count: u32| count != EMPTY;
    counting::lemma_count_at_most_len(refcounts, used);
    counting::lemma_count_full(refcounts, used);
    if all_in_use(refcounts) {
        assert forall|i: int| 0 <= i < refcounts.len() implies used(#[trigger] refcounts[i]) by {}
    }
    if in_flight(refcounts) == refcounts.len() {
        assert forall|i: int| 0 <= i < refcounts.len() implies #[trigger] refcounts[i] != EMPTY by {
            assert(used(refcounts[i]));
        }
    }
    if is_first_free(refcounts, bucket) {
        counting::lemma_count_update(refcounts, used, bucket, 0u32);
    }
}

/// A bucket that was claimed is not claimed again as long as it is in use.
pub proof fn law_claims_are_exclusive(
    refcounts: Seq<u32>,
    bucket: int,
    later: Seq<u32>,
    other: int,
)
    requires
        is_first_free(refcounts, bucket),
        later.len() == refcounts.len(),
        later[bucket] != EMPTY,
        is_first_free(later, other),
    ensures
        other != bucket,
{
}

/// Empties a range of places.
fn empty_range<T>(table: &mut Vec<Slot<T>>, start: usize, end: usize)
    requires
        start <= end <= old(table)@.len(),
    ensures
        final(table)@ == Seq::new(
            old(table)@.len(),
            |i: int|
                if start <= i < end {
                    Slot::Empty
                } else {
                    old(table)@[i]
                },
        ),
{
    let mut i: usize = start;
    while i < end
        invariant
            start <= i <= end,
            end <= table@.len(),
            table@.len() == old(table)@.len(),
            forall|j: int|
                0 <= j < table@.len() ==> #[trigger] table@[j] == if start <= j < i {
                    Slot::Empty
                } else {
                    old(table)@[j]
                },
        decreases end - i,
    {
        table[i] = Slot::Empty;
        i = i + 1;
    }
    assert(table@ =~= Seq::new(
        old(table)@.len(),
        |i: int|
            if start <= i < end {
                Slot::Empty
            } else {
                old(table)@[i]
            },
    ));
}

/// A queue slot stands for something that every table has a place for.
pub(crate) proof fn lemma_table_place(io: IoResources, n: int, queue_index: QueueIndex)
    requires
        io.wf(),
        queue_index.index < n * io.slots() <= u32::MAX,
        !IoIndex::is_unassigned(io, queue_index.index as int),
    ensures
        0 <= io.bucket_of(queue_index.index as int) < n,
        match IoIndex::meaning(io, queue_index) {
            IoIndex::InputStream(bucket) => bucket.index == io.bucket_of(queue_index.index as int),
            IoIndex::HttpConnection(connection) => belongs_to(
                io.http_connections as int,
                io.bucket_of(queue_index.index as int),
                connection.index as int,
            ) && connection.index < n * io.http_connections,
            IoIndex::Http2Future(future) => belongs_to(
                io.http2_futures as int,
                io.bucket_of(queue_index.index as int),
                future.index as int,
            ) && future.index < n * io.http2_futures,
            IoIndex::CustomStream(_) => false,
        },
{
    let i = queue_index.index as int;
    let bucket = io.bucket_of(i);
    let offset = io.offset_of(i);
    vstd::arithmetic::div_mod::lemma_fundamental_div_mod(i, io.slots());
    assert(0 <= bucket < n) by (nonlinear_arith)
        requires
            i == io.slots() * bucket + offset,
            0 <= offset < io.slots(),
            0 <= i < n * io.slots(),
    ;
    executor::lemma_ranges(n, io.http_connections as int, bucket);
    executor::lemma_ranges(n, io.http2_futures as int, bucket);
    lemma_widths(n, io);
    lemma_widths(bucket + 1, io);
}

/// So many empty places.
fn empty_slots<T>(count: usize) -> (slots: Vec<Slot<T>>)
    ensures
        slots@ == Seq::new(count as nat, |i: int| Slot::<T>::Empty),
{
    let mut slots: Vec<Slot<T>> = Vec::new();
    while slots.len() < count
        invariant
            slots.len() <= count,
            forall|i: int| 0 <= i < slots@.len() ==> #[trigger] slots@[i] == Slot::<T>::Empty,
        decreases count - slots.len(),
    {
        slots.push(Slot::Empty);
    }
    assert(slots@ =~= Seq::new(count as nat, |i: int| Slot::<T>::Empty));
    slots
}

/// No table has more places than the queue.
pub(crate) proof fn lemma_widths(n: int, io: IoResources)
    requires
        0 <= n,
        io.wf(),
    ensures
        n <= n * io.slots(),
        0 <= n * io.http_connections <= n * io.slots(),
        0 <= n * io.http2_futures <= n * io.slots(),
{
    assert(n <= n * io.slots() && 0 <= n * io.http_connections <= n * io.slots() && 0 <= n
        * io.http2_futures <= n * io.slots()) by (nonlinear_arith)
        requires
            0 <= n,
            1 <= io.slots(),
            0 <= io.http_connections <= io.slots(),
            0 <= io.http2_futures <= io.slots(),
    ;
}

/// A worker that was told to sleep or to look for work looks for work. One that was told to poll
/// reports what came of it, with the same slot; a future that is gone is reported as done. Only a
/// race condition stops it.
pub proof fn law_workers_report_what_they_did(
    queue_index: QueueIndex,
    io_index: IoIndex,
    is_ready: bool,
)
    ensures
        event_after(RunAction::Sleep, is_ready) == Some(RunEvent::LookForWork),
        event_after(RunAction::LookForWork, is_ready) == Some(RunEvent::LookForWork),
        event_after(RunAction::Poll { queue_index, io_index }, is_ready) matches Some(
            RunEvent::Polled { queue_index: reported, is_ready: result },
        ) && reported == queue_index && result == is_ready,
        event_after(RunAction::NoFuture(queue_index), is_ready) matches Some(
            RunEvent::Polled { queue_index: reported, is_ready: result },
        ) && reported == queue_index && result,
        event_after(RunAction::GoOn(queue_index), is_ready) == Some(RunEvent::GoOn(queue_index)),
        event_after(RunAction::RaceCondition(queue_index), is_ready) is None,
{
}

impl<F, C, H> InnerView<F, C, H> {
    /// The tables have the sizes that the number of buckets calls for.
    pub open spec fn has_right_sizes(self) -> bool {
        let n = self.bucket_count();
        &&& self.io.wf()
        &&& self.slots.len() == n * self.io.slots() < u32::MAX
        &&& self.futures.len() == self.slots.len()
        &&& self.connections.len() == n * self.io.http_connections
        &&& self.http2_futures.len() == n * self.io.http2_futures
    }
}

/// Where a slot stands, and that its number is one of a queue slot.
proof fn lemma_slot_number<F, C, H>(
    state: InnerView<F, C, H>,
    identifier: u32,
    bucket: int,
    offset: int,
)
    requires
        state.has_right_sizes(),
        0 <= bucket < state.bucket_count(),
        0 <= offset < state.io.slots(),
        offset == 0 || state.io.tcp_streams <= offset,
    ensures
        ({
            let io = state.io;
            let number = bucket * io.slots() + offset;
            let meaning = IoIndex::meaning(io, QueueIndex { identifier, index: number as u32 });
            &&& 0 <= number < state.slots.len()
            &&& bucket < state.futures.len()
            &&& io.bucket_of(number) == bucket
            &&& match meaning {
                IoIndex::InputStream(index) => offset == 0 && index.index == bucket,
                IoIndex::HttpConnection(index) => 0 < offset < io.tcp_streams + io.http_connections
                    && index.index == bucket * io.http_connections + (offset - io.tcp_streams)
                    && index.index < state.connections.len(),
                IoIndex::Http2Future(index) => 0 < offset && io.tcp_streams + io.http_connections
                    <= offset && index.index == bucket * io.http2_futures + (offset - io.tcp_streams
                    - io.http_connections) && index.index < state.http2_futures.len(),
                IoIndex::CustomStream(_) => false,
            }
        }),
{
    let io = state.io;
    let n = state.bucket_count();
    let number = bucket * io.slots() + offset;
    assert(0 <= bucket * io.slots() && bucket * io.slots() + io.slots() <= n * io.slots() && bucket
        < n * io.slots()) by (nonlinear_arith)
        requires
            0 <= bucket < n,
            io.slots() >= 1,
    ;
    index::law_slots_are_laid_out_in_order(io, identifier, bucket, offset);
    lemma_table_place(io, n, QueueIndex { identifier, index: number as u32 });
}

/// A connection that is done frees its place, and nothing else: it keeps no bucket in use. Its slot
/// is still in progress exactly if it was woken while it ran.
pub proof fn law_finished_connections_free_their_place<F, C, H>(
    state: InnerView<F, C, H>,
    identifier: u32,
    bucket: int,
    offset: int,
)
    requires
        state.has_right_sizes(),
        0 <= bucket < state.bucket_count(),
        0 < offset,
        state.io.tcp_streams <= offset < state.io.tcp_streams + state.io.http_connections,
    ensures
        ({
            let io = state.io;
            let number = bucket * io.slots() + offset;
            let place = bucket * io.http_connections + (offset - io.tcp_streams);
            let queue_index = QueueIndex { identifier, index: number as u32 };
            let after = state.polled(queue_index, true);
            &&& after.io == io
            &&& after.connections.len() == state.connections.len()
            &&& after.connections[place] is Empty
            &&& forall|i: int|
                0 <= i < state.connections.len() && i != place ==> #[trigger] after.connections[i]
                    == state.connections[i]
            &&& after.refcounts == state.refcounts
            &&& after.futures == state.futures
            &&& after.http2_futures == state.http2_futures
            &&& after.active == state.active
            &&& after.cursor == state.cursor
            &&& after.slots.len() == state.slots.len()
            &&& forall|i: int|
                0 <= i < state.slots.len() && i != number ==> #[trigger] after.slots[i]
                    == state.slots[i]
            &&& !after.slots[number].is_enqueued
            &&& after.slots[number].is_in_progress == state.slots[number].is_enqueued
            &&& !state.ends_request(queue_index, true)
        }),
{
    lemma_slot_number(state, identifier, bucket, offset);
}

/// A task that is done while others of its bucket are left frees its own place, and one task less
/// keeps the bucket in use. Nothing else changes.
pub proof fn law_finished_tasks_leave_the_others<F, C, H>(
    state: InnerView<F, C, H>,
    identifier: u32,
    bucket: int,
    offset: int,
)
    requires
        state.has_right_sizes(),
        0 <= bucket < state.bucket_count(),
        0 <= offset < state.io.slots(),
        offset == 0 || state.io.tcp_streams + state.io.http_connections <= offset,
        state.refcounts[bucket] > 1,
    ensures
        ({
            let io = state.io;
            let number = bucket * io.slots() + offset;
            let place = bucket * io.http2_futures + (offset - io.tcp_streams - io.http_connections);
            let queue_index = QueueIndex { identifier, index: number as u32 };
            let after = state.polled(queue_index, true);
            &&& after.io == io
            &&& after.refcounts.len() == state.refcounts.len()
            &&& after.refcounts[bucket] == state.refcounts[bucket] - 1
            &&& forall|i: int|
                0 <= i < state.refcounts.len() && i != bucket ==> #[trigger] after.refcounts[i]
                    == state.refcounts[i]
            &&& after.futures == state.futures
            &&& after.connections == state.connections
            &&& after.http2_futures.len() == state.http2_futures.len()
            &&& offset > 0 ==> after.http2_futures[place] is Empty
            &&& forall|i: int|
                0 <= i < state.http2_futures.len() && (offset == 0 || i != place)
                    ==> #[trigger] after.http2_futures[i] == state.http2_futures[i]
            &&& after.active == state.active
            &&& after.cursor == state.cursor
            &&& after.slots.len() == state.slots.len()
            &&& forall|i: int|
                0 <= i < state.slots.len() && i != number ==> #[trigger] after.slots[i]
                    == state.slots[i]
            &&& !after.slots[number].is_enqueued
            &&& after.slots[number].is_in_progress == state.slots[number].is_enqueued
            &&& !state.ends_request(queue_index, true)
        }),
{
    lemma_slot_number(state, identifier, bucket, offset);
}

/// With the last task of a bucket the request is over: the bucket is empty, holds no future, no
/// connection and no HTTP/2 future, and none of its slots is enqueued or in progress.
pub proof fn law_finished_requests_leave_nothing<F, C, H>(
    state: InnerView<F, C, H>,
    identifier: u32,
    bucket: int,
    offset: int,
    i: int,
)
    requires
        state.has_right_sizes(),
        0 <= bucket < state.bucket_count(),
        0 <= offset < state.io.slots(),
        offset == 0 || state.io.tcp_streams + state.io.http_connections <= offset,
        state.refcounts[bucket] == 1,
        0 <= i,
    ensures
        ({
            let io = state.io;
            let number = bucket * io.slots() + offset;
            let queue_index = QueueIndex { identifier, index: number as u32 };
            let after = state.polled(queue_index, true);
            &&& after.io == io
            &&& after.refcounts[bucket] == u32::MAX
            &&& after.futures[bucket] is None
            &&& i < io.http_connections ==> after.connections[bucket * io.http_connections + i]
                is Empty
            &&& i < io.http2_futures ==> after.http2_futures[bucket * io.http2_futures + i]
                is Empty
            &&& i < io.slots() ==> !after.slots[bucket * io.slots() + i].is_enqueued
                && !after.slots[bucket * io.slots() + i].is_in_progress
            &&& state.ends_request(queue_index, true)
        }),
{
    let io = state.io;
    let n = state.bucket_count();
    lemma_slot_number(state, identifier, bucket, offset);
    executor::lemma_ranges(n, io.http_connections as int, bucket);
    executor::lemma_ranges(n, io.http2_futures as int, bucket);
    executor::lemma_ranges(n, io.slots(), bucket);
}

/// Ending a request changes nothing of the other buckets, and nothing but the count of what waited
/// in its own slots.
pub proof fn law_ended_requests_touch_only_their_bucket<F, C, H>(
    state: InnerView<F, C, H>,
    bucket: int,
    i: int,
)
    requires
        state.has_right_sizes(),
        0 <= bucket < state.bucket_count(),
        0 <= i,
    ensures
        ({
            let io = state.io;
            let after = state.removed(bucket);
            &&& after.io == io
            &&& after.refcounts.len() == state.refcounts.len()
            &&& after.futures.len() == state.futures.len()
            &&& after.connections.len() == state.connections.len()
            &&& after.http2_futures.len() == state.http2_futures.len()
            &&& after.slots.len() == state.slots.len()
            &&& after.cursor == state.cursor
            &&& i < state.refcounts.len() && i != bucket ==> after.refcounts[i]
                == state.refcounts[i]
            &&& i < state.futures.len() && i != bucket ==> after.futures[i] == state.futures[i]
            &&& i < state.connections.len() && !(bucket * io.http_connections <= i < bucket
                * io.http_connections + io.http_connections) ==> after.connections[i]
                == state.connections[i]
            &&& i < state.http2_futures.len() && !(bucket * io.http2_futures <= i < bucket
                * io.http2_futures + io.http2_futures) ==> after.http2_futures[i]
                == state.http2_futures[i]
            &&& i < state.slots.len() && !(bucket * io.slots() <= i < bucket * io.slots()
                + io.slots()) ==> after.slots[i] == state.slots[i]
            &&& state.active - after.active == counting::count(
                state.slots.subrange(bucket * io.slots(), bucket * io.slots() + io.slots()),
                queue::is_waiting(),
            )
        }),
{
    let io = state.io;
    lemma_slot_number(state, 0, bucket, 0);
    assert((bucket + 1) * io.http_connections == bucket * io.http_connections + io.http_connections
        && (bucket + 1) * io.http2_futures == bucket * io.http2_futures + io.http2_futures && (bucket
        + 1) * io.slots() == bucket * io.slots() + io.slots()) by (nonlinear_arith);
}

/// A task that is not done stays, with everything else. Its slot is still in progress exactly if it
/// was woken while it ran, and then its worker goes on with it.
pub proof fn law_unfinished_tasks_stay<F, C, H>(
    state: InnerView<F, C, H>,
    queue_index: QueueIndex,
    action: RunAction,
    after: InnerView<F, C, H>,
    other: int,
)
    requires
        queue_index.index < state.slots.len(),
        0 <= other < state.slots.len(),
        other != queue_index.index,
        state.step(RunEvent::Polled { queue_index, is_ready: false }, action, after),
    ensures
        ({
            let i = queue_index.index as int;
            &&& after.io == state.io
            &&& after.futures == state.futures
            &&& after.connections == state.connections
            &&& after.http2_futures == state.http2_futures
            &&& after.refcounts == state.refcounts
            &&& after.active == state.active
            &&& after.cursor == state.cursor
            &&& after.slots.len() == state.slots.len()
            &&& after.slots[other] == state.slots[other]
            &&& !after.slots[i].is_enqueued
            &&& after.slots[i].is_in_progress == state.slots[i].is_enqueued
            &&& state.slots[i].is_enqueued ==> action == RunAction::GoOn(queue_index)
            &&& !state.slots[i].is_enqueued ==> action == RunAction::LookForWork
        }),
{
}

/// A worker that has polled something which is done goes on with its slot exactly if the slot was
/// woken while it ran and the request is not over.
pub proof fn law_woken_slots_are_run_again<F, C, H>(
    state: InnerView<F, C, H>,
    identifier: u32,
    bucket: int,
    offset: int,
    action: RunAction,
    after: InnerView<F, C, H>,
)
    requires
        state.has_right_sizes(),
        0 <= bucket < state.bucket_count(),
        0 <= offset < state.io.slots(),
        offset == 0 || state.io.tcp_streams <= offset,
        ({
            let number = (bucket * state.io.slots() + offset) as u32;
            let queue_index = QueueIndex { identifier, index: number };
            state.step(RunEvent::Polled { queue_index, is_ready: true }, action, after)
        }),
    ensures
        ({
            let io = state.io;
            let number = bucket * io.slots() + offset;
            let queue_index = QueueIndex { identifier, index: number as u32 };
            let is_connection = 0 < offset < io.tcp_streams + io.http_connections;
            &&& after == state.polled(queue_index, true)
            &&& if state.slots[number].is_enqueued && (is_connection || state.refcounts[bucket]
                > 1) {
                action == RunAction::GoOn(queue_index)
            } else {
                action == RunAction::LookForWork
            }
        }),
{
    lemma_slot_number(state, identifier, bucket, offset);
}

/// What a worker has claimed is polled exactly if it is there, and a request only if the wake-up
/// was meant for it. What is missing is reported: an HTTP/2 future as one that is gone, anything
/// else as a race condition.
pub proof fn law_claimed_slots_are_polled<F, C, H>(
    state: InnerView<F, C, H>,
    identifier: u32,
    bucket: int,
    offset: int,
)
    requires
        state.has_right_sizes(),
        0 <= bucket < state.bucket_count(),
        0 <= offset < state.io.slots(),
        offset == 0 || state.io.tcp_streams <= offset,
    ensures
        ({
            let io = state.io;
            let number = bucket * io.slots() + offset;
            let queue_index = QueueIndex { identifier, index: number as u32 };
            let is_there = if offset == 0 {
                state.futures[bucket] matches Some(task) && task.identifier == identifier
            } else if offset < io.tcp_streams + io.http_connections {
                state.connections[bucket * io.http_connections + (offset - io.tcp_streams)]
                    is Occupied
            } else {
                state.http2_futures[bucket * io.http2_futures + (offset - io.tcp_streams
                    - io.http_connections)] is Occupied
            };
            let action = state.next_action(queue_index);
            &&& is_there ==> (action matches RunAction::Poll { queue_index: polled, io_index }
                && polled == queue_index && io_index == IoIndex::meaning(io, queue_index))
            &&& !is_there && 0 < offset && io.tcp_streams + io.http_connections <= offset ==> action
                == RunAction::NoFuture(queue_index)
            &&& !is_there && (offset == 0 || offset < io.tcp_streams + io.http_connections)
                ==> action == RunAction::RaceCondition(queue_index)
        }),
{
    lemma_slot_number(state, identifier, bucket, offset);
}

/// A worker that looks for work sleeps exactly if no slot is enqueued without being in progress.
/// Otherwise it claims such a slot, and none lies nearer to the place of the last claim, going
/// around. It changes nothing but that slot, the count and the place.
pub proof fn law_workers_claim_the_nearest_waiting_slot<F, C, H>(
    state: InnerView<F, C, H>,
    action: RunAction,
    after: InnerView<F, C, H>,
    other: int,
)
    requires
        0 <= state.cursor < state.slots.len(),
        0 <= other < state.slots.len(),
        state.step(RunEvent::LookForWork, action, after),
    ensures
        action == RunAction::Sleep ==> after == state && !(state.slots[other].is_enqueued
            && !state.slots[other].is_in_progress),
        state.slots[other].is_enqueued && !state.slots[other].is_in_progress ==> {
            let i = after.cursor;
            let len = state.slots.len() as int;
            &&& 0 <= i < len
            &&& state.slots[i].is_enqueued && !state.slots[i].is_in_progress
            &&& queue::distance(state.cursor, i, len) <= queue::distance(state.cursor, other, len)
            &&& after.slots.len() == len
            &&& !after.slots[i].is_enqueued && after.slots[i].is_in_progress
            &&& other != i ==> after.slots[other] == state.slots[other]
            &&& after.active == state.active - 1
            &&& action == state.next_action(QueueIndex { index: i as u32, identifier: 0 })
        },
        after.futures == state.futures,
        after.connections == state.connections,
        after.http2_futures == state.http2_futures,
        after.refcounts == state.refcounts,
        after.io == state.io,
{
    if !queue::none_waits(state.slots) {
        let i = choose|i: int|
            {
                &&& 0 <= i < state.slots.len()
                &&& queue::is_first_waiting(state.slots, state.cursor, i)
                &&& after == #[trigger] state.claimed(i)
                &&& action == state.next_action(QueueIndex { index: i as u32, identifier: 0 })
            };
        queue::law_the_nearest_waiting_slot_is_claimed(state.slots, state.cursor, i, other);
    } else {
        assert(!queue::waits(state.slots[other]));
    }
}

/// A worker that goes on with a slot changes nothing.
pub proof fn law_workers_go_on<F, C, H>(
    state: InnerView<F, C, H>,
    queue_index: QueueIndex,
    action: RunAction,
    after: InnerView<F, C, H>,
)
    requires
        state.step(RunEvent::GoOn(queue_index), action, after),
    ensures
        after == state,
        action == state.next_action(queue_index),
{
}

/// Waking a slot enqueues it, whatever it is about, and touches nothing else. It is counted exactly
/// if it was neither enqueued nor in progress.
pub proof fn law_wake_ups_are_remembered<F, C, H>(state: InnerView<F, C, H>, i: int, other: int)
    requires
        0 <= i < state.slots.len(),
        0 <= other < state.slots.len(),
        other != i,
    ensures
        ({
            let after = state.enqueued(i);
            &&& after.slots.len() == state.slots.len()
            &&& after.slots[i].is_enqueued
            &&& after.slots[i].is_in_progress == state.slots[i].is_in_progress
            &&& after.slots[other] == state.slots[other]
            &&& after.active - state.active == if !state.slots[i].is_enqueued
                && !state.slots[i].is_in_progress {
                1int
            } else {
                0int
            }
            &&& after.futures == state.futures
            &&& after.connections == state.connections
            &&& after.http2_futures == state.http2_futures
            &&& after.refcounts == state.refcounts
            &&& after.io == state.io
            &&& after.cursor == state.cursor
        }),
{
}

/// One task less keeps a bucket in use. With the last the request is over, and a bucket without
/// tasks is taken for empty.
pub proof fn law_tasks_keep_a_bucket_in_use<F, C, H>(state: InnerView<F, C, H>, bucket: int)
    requires
        0 <= bucket < state.bucket_count() <= state.futures.len(),
    ensures
        ({
            let after = state.released(bucket);
            &&& state.refcounts[bucket] > 1 ==> after.refcounts[bucket] == state.refcounts[bucket]
                - 1 && state.tasks_left(bucket) == state.refcounts[bucket] - 1
            &&& state.refcounts[bucket] <= 1 ==> after.refcounts[bucket] == u32::MAX
                && state.tasks_left(bucket) == 0
            &&& state.refcounts[bucket] != 1 ==> {
                &&& after.futures == state.futures
                &&& after.connections == state.connections
                &&& after.http2_futures == state.http2_futures
                &&& after.slots == state.slots
                &&& after.active == state.active
            }
            &&& state.refcounts[bucket] == 1 ==> after.futures[bucket] is None
            &&& forall|i: int|
                0 <= i < state.refcounts.len() && i != bucket ==> #[trigger] after.refcounts[i]
                    == state.refcounts[i]
            &&& state.can_release(bucket) <==> state.refcounts[bucket] != 1
                || state.futures[bucket] is Some
        }),
{
}

/// A place for a connection or a future is the lowest of its bucket that is empty, and there is none
/// exactly if no place of the bucket is.
pub proof fn law_the_lowest_empty_place_is_used<T>(
    table: Seq<Slot<T>>,
    width: int,
    bucket: int,
    i: int,
    other: int,
)
    requires
        bucket * width <= other < bucket * width + width,
    ensures
        is_first_empty(table, width, bucket, i) ==> bucket * width <= i < bucket * width + width
            && table[i] is Empty,
        is_first_empty(table, width, bucket, i) && table[other] is Empty ==> i <= other,
        none_empty(table, width, bucket) ==> !(table[other] is Empty),
        (forall|j: int|
            bucket * width <= j < bucket * width + width ==> !(#[trigger] table[j] is Empty))
            ==> none_empty(table, width, bucket),
{
    assert((bucket + 1) * width == bucket * width + width) by (nonlinear_arith);
    assert(belongs_to(width, bucket, other));
}

/// A request gets the lowest bucket that is empty, and is refused exactly if none is.
pub proof fn law_the_lowest_empty_bucket_is_claimed(refcounts: Seq<u32>, bucket: int, other: int)
    requires
        0 <= other < refcounts.len(),
    ensures
        is_first_free(refcounts, bucket) ==> 0 <= bucket < refcounts.len() && refcounts[bucket]
            == u32::MAX,
        refcounts[other] == u32::MAX ==> !all_in_use(refcounts) && (is_first_free(
            refcounts,
            bucket,
        ) ==> bucket <= other),
        !all_in_use(refcounts) ==> refcounts.contains(u32::MAX),
{
}

/// A new executor has a slot for every resource of every bucket; all of them are idle, and no bucket
/// holds anything or is in use.
pub proof fn law_new_executors_hold_nothing<F, C, H>(bucket_count: nat, io: IoResources, i: int)
    requires
        io.wf(),
    ensures
        ({
            let state = InnerView::<F, C, H>::fresh(bucket_count, io);
            let slots = io.tcp_streams + io.http_connections + io.http2_futures;
            &&& state.io == io
            &&& state.active == 0
            &&& state.cursor == 0
            &&& state.refcounts.len() == bucket_count
            &&& state.slots.len() == bucket_count * slots
            &&& state.futures.len() == bucket_count * slots
            &&& state.connections.len() == bucket_count * io.http_connections
            &&& state.http2_futures.len() == bucket_count * io.http2_futures
            &&& 0 <= i < bucket_count ==> state.refcounts[i] == u32::MAX
            &&& 0 <= i < state.slots.len() ==> !state.slots[i].is_enqueued
                && !state.slots[i].is_in_progress && state.futures[i] is None
            &&& 0 <= i < state.connections.len() ==> state.connections[i] is Empty
            &&& 0 <= i < state.http2_futures.len() ==> state.http2_futures[i] is Empty
        }),
{
    index::lemma_product_nonnegative(bucket_count as int, io.slots());
    index::lemma_product_nonnegative(bucket_count as int, io.http_connections as int);
    index::lemma_product_nonnegative(bucket_count as int, io.http2_futures as int);
}

/// A worker can always look for work, and go on with a slot that is in progress. What it polled was
/// in progress; a task that is done leaves a future to drop if it was the last of its bucket.
pub proof fn law_possible_events<F, C, H>(
    state: InnerView<F, C, H>,
    identifier: u32,
    bucket: int,
    offset: int,
)
    requires
        state.has_right_sizes(),
        0 <= bucket < state.bucket_count(),
        0 <= offset < state.io.slots(),
        offset == 0 || state.io.tcp_streams <= offset,
    ensures
        state.can_happen(RunEvent::LookForWork),
        ({
            let io = state.io;
            let number = bucket * io.slots() + offset;
            let queue_index = QueueIndex { identifier, index: number as u32 };
            let is_connection = 0 < offset < io.tcp_streams + io.http_connections;
            let slot = state.slots[number];
            &&& state.can_happen(RunEvent::GoOn(queue_index)) <==> slot.is_in_progress
            &&& state.can_happen(RunEvent::Polled { queue_index, is_ready: false })
                <==> slot.is_in_progress
            &&& state.can_happen(RunEvent::Polled { queue_index, is_ready: true })
                <==> slot.is_in_progress && (is_connection || state.refcounts[bucket] != 1
                || state.futures[bucket] is Some)
        }),
{
    lemma_slot_number(state, identifier, bucket, offset);
}

/// A task that ends in a bucket without tasks frees its own place and leaves the bucket empty. All
/// else stays, its queue slot among it, and no worker goes on with it.
pub proof fn law_stray_tasks_free_their_place<F, C, H>(
    state: InnerView<F, C, H>,
    identifier: u32,
    bucket: int,
    offset: int,
)
    requires
        state.has_right_sizes(),
        0 <= bucket < state.bucket_count(),
        0 <= offset < state.io.slots(),
        offset == 0 || state.io.tcp_streams + state.io.http_connections <= offset,
        state.refcounts[bucket] == 0,
    ensures
        ({
            let io = state.io;
            let number = bucket * io.slots() + offset;
            let place = bucket * io.http2_futures + (offset - io.tcp_streams - io.http_connections);
            let queue_index = QueueIndex { identifier, index: number as u32 };
            let after = state.polled(queue_index, true);
            &&& after.io == io
            &&& after.refcounts[bucket] == u32::MAX
            &&& forall|i: int|
                0 <= i < state.refcounts.len() && i != bucket ==> #[trigger] after.refcounts[i]
                    == state.refcounts[i]
            &&& after.futures == state.futures
            &&& after.connections == state.connections
            &&& after.slots == state.slots
            &&& after.active == state.active
            &&& after.cursor == state.cursor
            &&& offset > 0 ==> after.http2_futures[place] is Empty
            &&& forall|i: int|
                0 <= i < state.http2_futures.len() && (offset == 0 || i != place)
                    ==> #[trigger] after.http2_futures[i] == state.http2_futures[i]
            &&& state.ends_request(queue_index, true)
        }),
{
    lemma_slot_number(state, identifier, bucket, offset);
}

} // verus!
