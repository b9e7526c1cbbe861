//! The executor: which requests are in flight, and what a worker does next.
//!
//! Polling a future is the caller's business: the executor says what to poll, and is told whether
//! it is done.
use crate::async_server::queue::ComplexQueue;
use crate::counting;
use crate::executor;
use crate::index;
use crate::index::{
    BucketIndex, ConnectionIndex, Http2FutureIndex, IoIndex, IoResources, QueueIndex,
};
use crate::queue::QueueSlotState;
use crate::runtime;
use crate::runtime::executor::{RunAction, RunEvent};
use crate::runtime::queue;
use crate::runtime::queue::{DequeueStep, DoneWithItem};
use crate::shared::allocator::ServerAlloc;
use vstd::prelude::*;

verus! {

/// The state of the executor. `F` is what a request runs, `C` a connection that it opened, and
/// `H` what such a connection runs.
#[derive(Debug)]
pub struct Inner<F, C, H> {
    /// How many queue slots are there per bucket
    io_resources: IoResources,
    /// number of active queue slots for each bucket
    refcounts: Vec<u8>,
    futures: Vec<Option<F>>,
    connections: Vec<Option<C>>,
    http2_futures: Vec<Option<H>>,
    queue: ComplexQueue,
}

#[derive(Debug)]
pub struct Executor<F, C, H> {
    pub inner: Inner<F, C, H>,
}

/// The state of the executor, as sequences.
#[verifier::ext_equal]
pub struct InnerView<F, C, H> {
    pub io: IoResources,
    pub refcounts: Seq<u8>,
    pub futures: Seq<Option<F>>,
    pub connections: Seq<Option<C>>,
    pub http2_futures: Seq<Option<H>>,
    pub slots: Seq<QueueSlotState>,
    pub available: int,
}

/// `i` is the first place of a bucket that holds nothing.
pub open spec fn is_first_vacant<T>(table: Seq<Option<T>>, width: int, bucket: int, i: int) -> bool {
    &&& runtime::executor::belongs_to(width, bucket, i)
    &&& table[i] is None
    &&& forall|j: int| bucket * width <= j < i ==> !(#[trigger] table[j] is None)
}

/// Every place of a bucket holds something.
pub open spec fn none_vacant<T>(table: Seq<Option<T>>, width: int, bucket: int) -> bool {
    forall|i: int|
        runtime::executor::belongs_to(width, bucket, i) ==> !(#[trigger] table[i] is None)
}

impl<F, C, H> InnerView<F, C, H> {
    /// The state before the first request.
    pub open spec fn fresh(bucket_count: nat, io: IoResources) -> Self {
        let capacity = (bucket_count * io.slots()) as nat;
        InnerView {
            io,
            refcounts: Seq::new(bucket_count, |i: int| 0u8),
            futures: Seq::new(capacity, |i: int| None::<F>),
            connections: Seq::new(
                (bucket_count * io.http_connections) as nat,
                |i: int| None::<C>,
            ),
            http2_futures: Seq::new(
                (bucket_count * io.http2_futures) as nat,
                |i: int| None::<H>,
            ),
            slots: Seq::new(capacity, |i: int| queue::idle()),
            available: 0,
        }
    }

    pub open spec fn bucket_count(self) -> int {
        self.refcounts.len() as int
    }

    /// A slot was woken. It is counted if it neither waited already nor runs at the moment.
    pub open spec fn enqueued(self, i: int) -> Self {
        InnerView {
            slots: self.slots.update(i, QueueSlotState { is_enqueued: true, ..self.slots[i] }),
            available: self.available + if self.slots[i] == queue::idle() {
                1int
            } else {
                0int
            },
            ..self
        }
    }

    /// A worker has claimed slot `i`.
    pub open spec fn claimed(self, i: int) -> Self {
        InnerView {
            slots: self.slots.update(i, queue::running()),
            available: self.available - 1,
            ..self
        }
    }

    /// A worker has run a slot, and there is more to do.
    pub open spec fn item_pending(self, i: int) -> Self {
        InnerView {
            slots: self.slots.update(
                i,
                if self.slots[i].is_enqueued {
                    queue::running()
                } else {
                    queue::idle()
                },
            ),
            ..self
        }
    }

    /// What a slot ran is dropped.
    pub open spec fn dropped(self, queue_index: QueueIndex) -> Self {
        match IoIndex::meaning(self.io, queue_index) {
            IoIndex::HttpConnection(connection) => InnerView {
                connections: self.connections.update(connection.index as int, None),
                ..self
            },
            IoIndex::Http2Future(future) => InnerView {
                http2_futures: self.http2_futures.update(future.index as int, None),
                ..self
            },
            _ => InnerView {
                futures: self.futures.update(self.io.bucket_of(queue_index.index as int), None),
                ..self
            },
        }
    }

    /// One job less keeps the bucket in use, and the slot that it ran in is empty. If none kept
    /// it in use already, the slot is only given up: if it was woken in the meantime it waits again.
    pub open spec fn released(self, bucket: int, i: int) -> Self {
        if self.refcounts[bucket] == 0 {
            InnerView {
                slots: self.slots.update(
                    i,
                    QueueSlotState { is_in_progress: false, ..self.slots[i] },
                ),
                available: self.available + if self.slots[i].is_enqueued {
                    1int
                } else {
                    0int
                },
                ..self
            }
        } else {
            InnerView {
                refcounts: self.refcounts.update(bucket, (self.refcounts[bucket] - 1) as u8),
                slots: self.slots.update(i, queue::idle()),
                ..self
            }
        }
    }

    /// What a slot stands for was polled.
    pub open spec fn polled(self, queue_index: QueueIndex, is_ready: bool) -> Self {
        let i = queue_index.index as int;
        if is_ready {
            self.dropped(queue_index).released(self.io.bucket_of(i), i)
        } else {
            self.item_pending(i)
        }
    }

    /// Whether polling what a slot stands for ended the last job of its bucket.
    pub open spec fn ends_request(self, queue_index: QueueIndex, is_ready: bool) -> bool {
        is_ready && self.refcounts[self.io.bucket_of(queue_index.index as int)] == 1
    }

    /// What a worker does with a slot that it has claimed.
    pub open spec fn next_action(self, queue_index: QueueIndex) -> RunAction {
        let io_index = IoIndex::meaning(self.io, queue_index);
        let poll = RunAction::Poll { queue_index, io_index };
        match io_index {
            IoIndex::HttpConnection(connection) => if self.connections[connection.index as int]
                is Some {
                poll
            } else {
                RunAction::RaceCondition(queue_index)
            },
            IoIndex::Http2Future(future) => if self.http2_futures[future.index as int] is Some {
                poll
            } else {
                RunAction::NoFuture(queue_index)
            },
            _ => if self.futures[self.io.bucket_of(queue_index.index as int)] is Some {
                poll
            } else {
                RunAction::RaceCondition(queue_index)
            },
        }
    }

    /// Whether an event can happen in this state. A job that is done kept its bucket in use, and
    /// is not woken any more, unless it was the last one. An HTTP/2 future may be done after its
    /// bucket.
    pub open spec fn can_happen(self, event: RunEvent) -> bool {
        match event {
            RunEvent::LookForWork => true,
            RunEvent::GoOn(queue_index) => {
                &&& queue_index.index < self.slots.len()
                &&& self.slots[queue_index.index as int].is_in_progress
            },
            RunEvent::Polled { queue_index, is_ready } => {
                let i = queue_index.index as int;
                let refcount = self.refcounts[self.io.bucket_of(i)];
                &&& i < self.slots.len()
                &&& self.slots[i].is_in_progress
                &&& is_ready ==> {
                    &&& refcount > 1 ==> !self.slots[i].is_enqueued
                    &&& match IoIndex::meaning(self.io, queue_index) {
                        IoIndex::HttpConnection(connection) => refcount > 0
                            && self.connections[connection.index as int] is Some,
                        IoIndex::Http2Future(_) => true,
                        _ => refcount > 0 && self.futures[self.io.bucket_of(i)] is Some,
                    }
                }
            },
        }
    }

    /// The step of a worker: what it does after an event, and what has changed.
    pub open spec fn step(self, event: RunEvent, action: RunAction, after: Self) -> bool {
        match event {
            RunEvent::LookForWork => if self.available == 0 {
                after == self && action == RunAction::Sleep
            } else {
                exists|i: int|
                    {
                        &&& 0 <= i < self.slots.len()
                        &&& queue::waits(self.slots[i])
                        &&& forall|j: int|
                            0 <= j < i ==> !queue::waits(#[trigger] self.slots[j])
                        &&& after == #[trigger] self.claimed(i)
                        &&& action == self.next_action(
                            QueueIndex { index: i as u32, identifier: 0 },
                        )
                    }
            },
            RunEvent::GoOn(queue_index) => {
                &&& after == self
                &&& action == self.next_action(queue_index)
            },
            RunEvent::Polled { queue_index, is_ready } => {
                &&& after == self.polled(queue_index, is_ready)
                &&& action == if !is_ready && self.slots[queue_index.index as int].is_enqueued {
                    RunAction::GoOn(queue_index)
                } else {
                    RunAction::LookForWork
                }
            },
        }
    }
}

impl<F, C, H> View for Inner<F, C, H> {
    type V = InnerView<F, C, H>;

    closed spec fn view(&self) -> InnerView<F, C, H> {
        InnerView {
            io: self.io_resources,
            refcounts: self.refcounts@,
            futures: self.futures@,
            connections: self.connections@,
            http2_futures: self.http2_futures@,
            slots: self.queue.slots(),
            available: self.queue.available(),
        }
    }
}

impl<F, C, H> Inner<F, C, H> {
    /// The tables have the sizes that the number of buckets calls for, and the queue is sound.
    pub closed spec fn wf(&self) -> bool {
        let n = self.refcounts@.len() as int;
        &&& self.io_resources.wf()
        &&& self.queue.wf()
        &&& self.queue.slots().len() == n * self.io_resources.slots() < u32::MAX
        &&& self.futures@.len() == self.queue.slots().len()
        &&& self.connections@.len() == n * self.io_resources.http_connections
        &&& self.http2_futures@.len() == n * self.io_resources.http2_futures
        &&& runtime::executor::slots_make_sense(self.io_resources, self.queue.slots())
    }

    /// What a sound executor can be relied on for.
    pub proof fn lemma_sizes(&self)
        requires
            self.wf(),
        ensures
            self@.io.wf(),
            self@.refcounts.len() == self@.bucket_count(),
            self@.bucket_count() <= self@.slots.len(),
            self@.slots.len() == self@.bucket_count() * self@.io.slots(),
            self@.slots.len() < u32::MAX,
            self@.futures.len() == self@.slots.len(),
            self@.connections.len() == self@.bucket_count() * self@.io.http_connections,
            self@.http2_futures.len() == self@.bucket_count() * self@.io.http2_futures,
            self@.connections.len() <= self@.slots.len(),
            self@.http2_futures.len() <= self@.slots.len(),
            runtime::executor::slots_make_sense(self@.io, self@.slots),
            self@.available == counting::count(self@.slots, queue::is_waiting()),
    {
        self.queue.lemma_bounds();
        runtime::executor::lemma_widths(self@.bucket_count(), self.io_resources);
    }

    /// An executor without requests.
    pub fn new(bucket_count: usize, io_resources: IoResources) -> (inner: Self)
        requires
            io_resources.wf(),
            bucket_count * io_resources.slots() < u32::MAX,
        ensures
            inner.wf(),
            inner@ == InnerView::<F, C, H>::fresh(bucket_count as nat, io_resources),
    {
        proof {
            runtime::executor::lemma_widths(bucket_count as int, io_resources);
        }
        let queue_capacity: usize = bucket_count * io_resources.per_bucket();
        let connection_count: usize = bucket_count * io_resources.http_connections;
        let http2_future_count: usize = bucket_count * io_resources.http2_futures;
        let mut refcounts: Vec<u8> = Vec::new();
        while refcounts.len() < bucket_count
            invariant
                refcounts.len() <= bucket_count,
                forall|i: int| 0 <= i < refcounts@.len() ==> #[trigger] refcounts@[i] == 0,
            decreases bucket_count - refcounts.len(),
        {
            refcounts.push(0);
        }
        let futures: Vec<Option<F>> = vacant_places(queue_capacity);
        let connections: Vec<Option<C>> = vacant_places(connection_count);
        let http2_futures: Vec<Option<H>> = vacant_places(http2_future_count);
        let queue = ComplexQueue::with_capacity(queue_capacity);
        let inner = Inner {
            io_resources,
            refcounts,
            futures,
            connections,
            http2_futures,
            queue,
        };
        proof {
            let expected = InnerView::<F, C, H>::fresh(bucket_count as nat, io_resources);
            assert(inner@.refcounts =~= expected.refcounts);
            assert(inner@.slots =~= expected.slots);
            assert(inner@ =~= expected);
        }
        inner
    }

    /// Claims a bucket that no job keeps in use.
    pub fn try_claim(&mut self) -> (claimed: Option<BucketIndex>)
        requires
            old(self).wf(),
        ensures
            final(self).wf(),
            match claimed {
                None => executor::all_in_use(old(self)@.refcounts) && final(self)@ == old(self)@,
                Some(bucket) => {
                    &&& bucket.identifier == 0
                    &&& executor::is_first_free(old(self)@.refcounts, bucket.index as int)
                    &&& final(self)@ == (InnerView {
                        refcounts: old(self)@.refcounts.update(bucket.index as int, 1),
                        ..old(self)@
                    })
                },
            },
    {
        proof {
            self.lemma_sizes();
        }
        let mut i: usize = 0;
        while i < self.refcounts.len()
            invariant
                i <= self.refcounts.len(),
                self.refcounts.len() <= u32::MAX,
                *self == *old(self),
                self.wf(),
                forall|j: int| 0 <= j < i ==> #[trigger] self.refcounts@[j] != 0,
            decreases self.refcounts.len() - i,
        {
            if self.refcounts[i] == 0 {
                self.refcounts[i] = 1;
                return Some(BucketIndex { identifier: 0, index: i as u32 });
            }
            i = i + 1;
        }
        None
    }

    /// Puts a request into the bucket that it claimed.
    pub fn set(&mut self, index: BucketIndex, fut: F)
        requires
            old(self).wf(),
            index.index < old(self)@.futures.len(),
            old(self)@.futures[index.index as int] is None,
        ensures
            final(self).wf(),
            final(self)@ == (InnerView {
                futures: old(self)@.futures.update(index.index as int, Some(fut)),
                ..old(self)@
            }),
    {
        // NOTE try_claim already set the refcount of this slot to 1
        self.futures[index.index as usize] = Some(fut);
    }

    /// Enqueues a slot, and tells whether a sleeping worker has to be woken.
    pub fn wake(&mut self, queue_index: QueueIndex) -> (wake_one: bool)
        requires
            old(self).wf(),
            queue_index.index < old(self)@.slots.len(),
            !IoIndex::is_unassigned(old(self)@.io, queue_index.index as int),
        ensures
            final(self).wf(),
            wake_one == (old(self)@.slots[queue_index.index as int] == queue::idle()),
            final(self)@ == old(self)@.enqueued(queue_index.index as int),
    {
        match self.queue.enqueue(queue_index) {
            Ok(wake_one) => wake_one,
            Err(_) => false,
        }
    }

    /// The future of a request, for polling.
    pub fn future(&self, bucket_index: BucketIndex) -> (future: Option<&F>)
        requires
            bucket_index.index < self@.futures.len(),
        ensures
            match future {
                None => self@.futures[bucket_index.index as int] is None,
                Some(future) => self@.futures[bucket_index.index as int] == Some(*future),
            },
    {
        self.futures[bucket_index.index as usize].as_ref()
    }

    /// A connection, for polling.
    pub fn connection(&self, connection_index: ConnectionIndex) -> (connection: Option<&C>)
        requires
            connection_index.index < self@.connections.len(),
        ensures
            match connection {
                None => self@.connections[connection_index.index as int] is None,
                Some(connection) => self@.connections[connection_index.index as int] == Some(
                    *connection,
                ),
            },
    {
        self.connections[connection_index.index as usize].as_ref()
    }

    /// An HTTP/2 future, for polling.
    pub fn http2_future(&self, future_index: Http2FutureIndex) -> (future: Option<&H>)
        requires
            future_index.index < self@.http2_futures.len(),
        ensures
            match future {
                None => self@.http2_futures[future_index.index as int] is None,
                Some(future) => self@.http2_futures[future_index.index as int] == Some(*future),
            },
    {
        self.http2_futures[future_index.index as usize].as_ref()
    }

    /// How many jobs keep a bucket in use.
    pub fn refcount(&self, bucket_index: BucketIndex) -> (count: u8)
        requires
            bucket_index.index < self@.bucket_count(),
        ensures
            count == self@.refcounts[bucket_index.index as int],
    {
        self.refcounts[bucket_index.index as usize]
    }

    pub fn bucket_count(&self) -> (count: usize)
        ensures
            count == self@.bucket_count(),
    {
        self.refcounts.len()
    }

    /// The bucket that a queue slot belongs to.
    pub fn bucket_of(&self, queue_index: QueueIndex) -> (bucket_index: BucketIndex)
        requires
            self.wf(),
        ensures
            bucket_index.identifier == queue_index.identifier,
            bucket_index.index == self@.io.bucket_of(queue_index.index as int),
    {
        queue_index.to_bucket_index(self.io_resources)
    }

    /// How many slots are counted as waiting for a worker.
    pub fn available(&self) -> (available: u32)
        ensures
            available == self@.available,
    {
        self.queue.load_jobs_available()
    }

    /// Whether a queue slot exists, and stands for something.
    pub fn is_job(&self, queue_index: QueueIndex) -> (result: bool)
        requires
            self.wf(),
        ensures
            result == (queue_index.index < self@.slots.len() && !IoIndex::is_unassigned(
                self@.io,
                queue_index.index as int,
            )),
    {
        let offset: u32 = queue_index.index % (self.io_resources.per_bucket() as u32);
        (queue_index.index as usize) < self.queue.capacity() && (offset == 0
            || self.io_resources.tcp_streams <= offset as usize)
    }

    /// What a slot that is in use stands for is in the tables.
    proof fn lemma_slot(&self, queue_index: QueueIndex)
        requires
            self.wf(),
            queue_index.index < self@.slots.len(),
            self@.slots[queue_index.index as int] != queue::idle(),
        ensures
            !IoIndex::is_unassigned(self@.io, queue_index.index as int),
            0 <= self@.io.bucket_of(queue_index.index as int) < self@.bucket_count(),
            match IoIndex::meaning(self@.io, queue_index) {
                IoIndex::InputStream(bucket) => bucket.index == self@.io.bucket_of(
                    queue_index.index as int,
                ),
                IoIndex::HttpConnection(connection) => connection.index < self@.connections.len(),
                IoIndex::Http2Future(future) => future.index < self@.http2_futures.len(),
                IoIndex::CustomStream(_) => false,
            },
    {
        self.lemma_sizes();
        runtime::executor::lemma_table_place(self@.io, self@.bucket_count(), queue_index);
    }
}

impl<F, C, H> Inner<F, C, H> {
    /// One step of a worker. The memory of a bucket is wiped when its last job is done.
    pub fn run_worker(&mut self, memory: &mut ServerAlloc, event: RunEvent) -> (action: RunAction)
        requires
            old(self).wf(),
            old(memory).wf(),
            old(self)@.bucket_count() <= old(memory).buckets().len(),
            old(self)@.can_happen(event),
        ensures
            final(self).wf(),
            final(memory).wf(),
            old(self)@.step(event, action, final(self)@),
            final(memory).arena() == old(memory).arena(),
            match event {
                RunEvent::Polled { queue_index, is_ready } => if old(self)@.ends_request(
                    queue_index,
                    is_ready,
                ) {
                    executor::memory_wiped(
                        *old(memory),
                        *final(memory),
                        old(self)@.io.bucket_of(queue_index.index as int),
                    )
                } else {
                    final(memory).buckets() == old(memory).buckets()
                },
                _ => final(memory).buckets() == old(memory).buckets(),
            },
    {
        match event {
            RunEvent::LookForWork => self.look_for_work(),
            RunEvent::GoOn(queue_index) => self.next_action(queue_index),
            RunEvent::Polled { queue_index, is_ready } => {
                if is_ready {
                    self.drop_job(queue_index);
                    self.release(memory, queue_index);
                    RunAction::LookForWork
                } else {
                    match self.queue.done_with_item(queue_index) {
                        DoneWithItem::Done => {
                            proof {
                                assert(self.queue.slots()[queue_index.index as int]
                                    == queue::running());
                            }
                            self.queue.give_up(queue_index);
                            proof {
                                self.lemma_gave_up(old(self), queue_index);
                            }
                            RunAction::LookForWork
                        },
                        DoneWithItem::GoAgain => {
                            proof {
                                let i = queue_index.index as int;
                                old(self).lemma_slot(queue_index);
                                assert(self@ =~= old(self)@.item_pending(i));
                            }
                            RunAction::GoOn(queue_index)
                        },
                    }
                }
            },
        }
    }

    /// A slot that was given up is idle.
    proof fn lemma_gave_up(&self, before: &Self, queue_index: QueueIndex)
        requires
            before.wf(),
            queue_index.index < before@.slots.len(),
            before@.slots[queue_index.index as int] == queue::running(),
            self.queue.wf(),
            self.queue.available() == before.queue.available(),
            self.queue.slots() == before.queue.slots().update(
                queue_index.index as int,
                queue::running(),
            ).update(queue_index.index as int, queue::idle()),
            self.io_resources == before.io_resources,
            self.refcounts == before.refcounts,
            self.futures == before.futures,
            self.connections == before.connections,
            self.http2_futures == before.http2_futures,
        ensures
            self.wf(),
            self@ == before@.item_pending(queue_index.index as int),
    {
        before.lemma_slot(queue_index);
        assert(self@.slots =~= before@.item_pending(queue_index.index as int).slots);
        assert(self@ =~= before@.item_pending(queue_index.index as int));
    }

    /// Claims the next slot that waits for a worker.
    fn look_for_work(&mut self) -> (action: RunAction)
        requires
            old(self).wf(),
        ensures
            final(self).wf(),
            old(self)@.step(RunEvent::LookForWork, action, final(self)@),
    {
        let ghost before = self@;
        match self.queue.blocking_dequeue() {
            DequeueStep::Run(queue_index) => {
                let ghost i = queue_index.index as int;
                assert(self@ =~= before.claimed(i));
                self.next_action(queue_index)
            },
            _ => RunAction::Sleep,
        }
    }

    /// What a worker does with a slot that it has claimed.
    fn next_action(&self, queue_index: QueueIndex) -> (action: RunAction)
        requires
            self.wf(),
            queue_index.index < self@.slots.len(),
            self@.slots[queue_index.index as int].is_in_progress,
        ensures
            action == self@.next_action(queue_index),
    {
        proof {
            self.lemma_slot(queue_index);
            self.lemma_sizes();
        }
        let io_index = IoIndex::from_index(self.io_resources, queue_index);
        let can_poll = match io_index {
            IoIndex::HttpConnection(connection_index) => self.connection(
                connection_index,
            ).is_some(),
            IoIndex::Http2Future(future_index) => if self.http2_future(future_index).is_some() {
                true
            } else {
                return RunAction::NoFuture(queue_index);
            },
            _ => self.future(queue_index.to_bucket_index(self.io_resources)).is_some(),
        };
        if can_poll {
            RunAction::Poll { queue_index, io_index }
        } else {
            RunAction::RaceCondition(queue_index)
        }
    }

    /// Drops what a slot ran.
    fn drop_job(&mut self, queue_index: QueueIndex)
        requires
            old(self).wf(),
            queue_index.index < old(self)@.slots.len(),
            old(self)@.slots[queue_index.index as int].is_in_progress,
        ensures
            final(self).wf(),
            final(self)@ == old(self)@.dropped(queue_index),
    {
        proof {
            self.lemma_slot(queue_index);
            self.lemma_sizes();
        }
        match IoIndex::from_index(self.io_resources, queue_index) {
            IoIndex::HttpConnection(connection_index) => {
                self.connections[connection_index.index as usize] = None;
            },
            IoIndex::Http2Future(future_index) => {
                self.http2_futures[future_index.index as usize] = None;
            },
            _ => {
                let bucket_index = queue_index.to_bucket_index(self.io_resources);
                self.futures[bucket_index.index as usize] = None;
            },
        }
    }

    /// One job less keeps a bucket in use. With the last one its memory is wiped.
    fn release(&mut self, memory: &mut ServerAlloc, queue_index: QueueIndex)
        requires
            old(self).wf(),
            old(memory).wf(),
            old(self)@.bucket_count() <= old(memory).buckets().len(),
            queue_index.index < old(self)@.slots.len(),
            old(self)@.slots[queue_index.index as int].is_in_progress,
            old(self)@.refcounts[old(self)@.io.bucket_of(queue_index.index as int)] > 1 ==> !old(
                self,
            )@.slots[queue_index.index as int].is_enqueued,
        ensures
            final(self).wf(),
            final(memory).wf(),
            final(memory).arena() == old(memory).arena(),
            ({
                let i = queue_index.index as int;
                let bucket = old(self)@.io.bucket_of(i);
                &&& final(self)@ == old(self)@.released(bucket, i)
                &&& if old(self)@.refcounts[bucket] == 1 {
                    executor::memory_wiped(*old(memory), *final(memory), bucket)
                } else {
                    final(memory).buckets() == old(memory).buckets()
                }
            }),
    {
        let ghost before = self@;
        proof {
            self.lemma_slot(queue_index);
            self.lemma_sizes();
        }
        let bucket: usize = queue_index.to_bucket_index(self.io_resources).index as usize;
        let ghost i = queue_index.index as int;
        match self.refcounts[bucket] {
            0 => {
                // for some reason this can happen with http2 futures
                self.queue.give_up(queue_index);
            },
            1 => {
                // clear the memory
                memory.clear_bucket(bucket);
                self.queue.done_with_item_forever(queue_index);
                self.refcounts[bucket] = 0;
            },
            count => {
                self.refcounts[bucket] = count - 1;
                let _ = self.queue.done_with_item(queue_index);
                self.queue.give_up(queue_index);
                assert(self@.slots =~= before.slots.update(i, queue::idle()));
            },
        }
        assert(self@ =~= before.released(bucket as int, i));
    }

    /// Whether an event can happen.
    pub fn is_possible(&self, event: RunEvent) -> (result: bool)
        requires
            self.wf(),
        ensures
            result == self@.can_happen(event),
    {
        proof {
            self.lemma_sizes();
        }
        match event {
            RunEvent::LookForWork => true,
            RunEvent::GoOn(queue_index) => {
                (queue_index.index as usize) < self.queue.capacity() && self.queue.state(
                    queue_index,
                ).is_in_progress
            },
            RunEvent::Polled { queue_index, is_ready } => {
                if queue_index.index as usize >= self.queue.capacity() {
                    return false;
                }
                let state = self.queue.state(queue_index);
                if !state.is_in_progress {
                    return false;
                }
                if !is_ready {
                    return true;
                }
                proof {
                    self.lemma_slot(queue_index);
                }
                let bucket_index = queue_index.to_bucket_index(self.io_resources);
                let refcount: u8 = self.refcount(bucket_index);
                if refcount > 1 && state.is_enqueued {
                    return false;
                }
                match IoIndex::from_index(self.io_resources, queue_index) {
                    IoIndex::HttpConnection(connection_index) => refcount > 0 && self.connection(
                        connection_index,
                    ).is_some(),
                    IoIndex::Http2Future(_) => true,
                    _ => refcount > 0 && self.future(bucket_index).is_some(),
                }
            },
        }
    }

    /// Finds a place for a connection that a request opens, and keeps the bucket in use. The
    /// result is the place and its queue slot, or `None` if all places of the bucket are taken.
    pub fn reserve_connection(&mut self, bucket_index: BucketIndex) -> (reserved: Option<
        (ConnectionIndex, QueueIndex),
    >)
        requires
            old(self).wf(),
            bucket_index.index < old(self)@.bucket_count(),
            0 < old(self)@.refcounts[bucket_index.index as int] < u8::MAX,
        ensures
            final(self).wf(),
            ({
                let bucket = bucket_index.index as int;
                let width = old(self)@.io.http_connections as int;
                &&& final(self)@ == (InnerView {
                    refcounts: old(self)@.refcounts.update(
                        bucket,
                        (old(self)@.refcounts[bucket] + 1) as u8,
                    ),
                    ..old(self)@
                })
                &&& match reserved {
                    None => none_vacant(old(self)@.connections, width, bucket),
                    Some((connection, queue_index)) => {
                        &&& is_first_vacant(
                            old(self)@.connections,
                            width,
                            bucket,
                            connection.index as int,
                        )
                        &&& connection.identifier == bucket_index.identifier
                        &&& queue_index.identifier == bucket_index.identifier
                        &&& queue_index.index == QueueIndex::of_connection(
                            old(self)@.io,
                            connection,
                        )
                    },
                }
            }),
    {
        proof {
            self.lemma_sizes();
            executor::lemma_ranges(
                self@.bucket_count(),
                self@.io.http_connections as int,
                bucket_index.index as int,
            );
        }
        let bucket: usize = bucket_index.index as usize;
        self.refcounts[bucket] = self.refcounts[bucket] + 1;
        let indices = self.io_resources.http_connections(bucket_index);
        match first_vacant(&self.connections, indices.start, indices.end) {
            None => None,
            Some(i) => {
                let connection_index = ConnectionIndex {
                    identifier: bucket_index.identifier,
                    index: i as u32,
                };
                proof {
                    runtime::executor::lemma_connection_place(
                        self@.io,
                        self@.bucket_count(),
                        bucket as int,
                        connection_index,
                    );
                }
                let queue_index = QueueIndex::from_connection_index(
                    self.io_resources,
                    connection_index,
                );
                Some((connection_index, queue_index))
            },
        }
    }

    /// Puts a connection into its place, and enqueues its slot. The result tells whether a
    /// sleeping worker has to be woken.
    pub fn populate_connection(&mut self, connection_index: ConnectionIndex, connection: C) -> (
    wake_one: bool)
        requires
            old(self).wf(),
            connection_index.index < old(self)@.connections.len(),
        ensures
            final(self).wf(),
            ({
                let populated = InnerView {
                    connections: old(self)@.connections.update(
                        connection_index.index as int,
                        Some(connection),
                    ),
                    ..old(self)@
                };
                let i = QueueIndex::of_connection(old(self)@.io, connection_index);
                &&& 0 <= i < old(self)@.slots.len()
                &&& wake_one == (old(self)@.slots[i] == queue::idle())
                &&& final(self)@ == populated.enqueued(i)
            }),
    {
        proof {
            self.lemma_sizes();
            let width = self@.io.http_connections as int;
            runtime::executor::lemma_bucket_of_place(
                self@.bucket_count(),
                width,
                connection_index.index as int,
            );
            runtime::executor::lemma_connection_place(
                self@.io,
                self@.bucket_count(),
                connection_index.index as int / width,
                connection_index,
            );
        }
        self.connections[connection_index.index as usize] = Some(connection);
        let queue_index = QueueIndex::from_connection_index(self.io_resources, connection_index);
        self.wake(queue_index)
    }

    /// Starts what a connection of a bucket runs. The result tells whether a sleeping worker has
    /// to be woken; it is `None` if all places of the bucket are taken.
    pub fn spawn_http2_future(&mut self, bucket_index: BucketIndex, future: H) -> (wake_one: Option<
        bool,
    >)
        requires
            old(self).wf(),
            bucket_index.index < old(self)@.bucket_count(),
            0 < old(self)@.refcounts[bucket_index.index as int] < u8::MAX,
        ensures
            final(self).wf(),
            ({
                let before = old(self)@;
                let bucket = bucket_index.index as int;
                let width = before.io.http2_futures as int;
                match wake_one {
                    None => none_vacant(before.http2_futures, width, bucket) && final(self)@
                        == before,
                    Some(wake_one) => exists|place: Http2FutureIndex|
                        {
                            let i = QueueIndex::of_http2_future(before.io, place);
                            &&& #[trigger] is_first_vacant(
                                before.http2_futures,
                                width,
                                bucket,
                                place.index as int,
                            )
                            &&& 0 <= i < before.slots.len()
                            &&& wake_one == (before.slots[i] == queue::idle())
                            &&& final(self)@ == (InnerView {
                                http2_futures: before.http2_futures.update(
                                    place.index as int,
                                    Some(future),
                                ),
                                refcounts: before.refcounts.update(
                                    bucket,
                                    (before.refcounts[bucket] + 1) as u8,
                                ),
                                ..before
                            }).enqueued(i)
                        },
                }
            }),
    {
        let ghost before = self@;
        proof {
            self.lemma_sizes();
            executor::lemma_ranges(
                before.bucket_count(),
                before.io.http2_futures as int,
                bucket_index.index as int,
            );
        }
        let indices = self.io_resources.http2_futures(bucket_index);
        match first_vacant(&self.http2_futures, indices.start, indices.end) {
            None => None,
            Some(i) => {
                let bucket: usize = bucket_index.index as usize;
                self.refcounts[bucket] = self.refcounts[bucket] + 1;
                self.http2_futures[i] = Some(future);
                let http2_future_index = Http2FutureIndex {
                    identifier: bucket_index.identifier,
                    index: i as u32,
                };
                proof {
                    runtime::executor::lemma_http2_future_place(
                        before.io,
                        before.bucket_count(),
                        bucket as int,
                        http2_future_index,
                    );
                    assert(is_first_vacant(
                        before.http2_futures,
                        before.io.http2_futures as int,
                        bucket as int,
                        http2_future_index.index as int,
                    ));
                }
                let queue_index = QueueIndex::from_http2_future_index(
                    self.io_resources,
                    http2_future_index,
                );
                Some(self.wake(queue_index))
            },
        }
    }
}

/// The first place in a range that holds nothing.
fn first_vacant<T>(table: &Vec<Option<T>>, start: usize, end: usize) -> (place: Option<usize>)
    requires
        start <= end <= table@.len(),
    ensures
        match place {
            None => forall|i: int| start <= i < end ==> !(#[trigger] table@[i] is None),
            Some(place) => {
                &&& start <= place < end
                &&& table@[place as int] is None
                &&& forall|i: int| start <= i < place ==> !(#[trigger] table@[i] is None)
            },
        },
{
    let mut i: usize = start;
    while i < end
        invariant
            start <= i <= end,
            end <= table@.len(),
            forall|j: int| start <= j < i ==> !(#[trigger] table@[j] is None),
        decreases end - i,
    {
        if table[i].is_none() {
            return Some(i);
        }
        i = i + 1;
    }
    None
}

impl<F, C, H> Executor<F, C, H> {
    pub open spec fn wf(&self) -> bool {
        self.inner.wf()
    }

    /// The executor that exists already, or a new one without requests. Both must have the same
    /// resources per bucket.
    pub fn get_or_init(
        existing: Option<Self>,
        bucket_count: usize,
        io_resources: IoResources,
    ) -> (executor: Self)
        requires
            match existing {
                Some(executor) => executor.wf() && executor.inner@.io == io_resources,
                None => io_resources.wf() && bucket_count * io_resources.slots() < u32::MAX,
            },
        ensures
            executor.wf(),
            match existing {
                Some(existing) => executor == existing,
                None => executor.inner@ == InnerView::<F, C, H>::fresh(
                    bucket_count as nat,
                    io_resources,
                ),
            },
    {
        match existing {
            Some(executor) => executor,
            None => Executor { inner: Inner::new(bucket_count, io_resources) },
        }
    }

    pub fn try_claim(&mut self) -> (claimed: Option<BucketIndex>)
        requires
            old(self).wf(),
        ensures
            final(self).wf(),
            match claimed {
                None => executor::all_in_use(old(self).inner@.refcounts) && final(self).inner@
                    == old(self).inner@,
                Some(bucket) => {
                    &&& bucket.identifier == 0
                    &&& executor::is_first_free(old(self).inner@.refcounts, bucket.index as int)
                    &&& final(self).inner@ == (InnerView {
                        refcounts: old(self).inner@.refcounts.update(bucket.index as int, 1),
                        ..old(self).inner@
                    })
                },
            },
    {
        self.inner.try_claim()
    }

    /// Starts a request in the bucket that it claimed, and tells whether a sleeping worker has to
    /// be woken.
    pub fn execute(&mut self, index: BucketIndex, fut: F) -> (wake_one: bool)
        requires
            old(self).wf(),
            index.index < old(self).inner@.bucket_count(),
            old(self).inner@.futures[index.index as int] is None,
        ensures
            final(self).wf(),
            ({
                let before = old(self).inner@;
                let i = QueueIndex::of_bucket(before.io, index);
                &&& 0 <= i < before.slots.len()
                &&& wake_one == (before.slots[i] == queue::idle())
                &&& final(self).inner@ == (InnerView {
                    futures: before.futures.update(index.index as int, Some(fut)),
                    ..before
                }).enqueued(i)
            }),
    {
        proof {
            self.inner.lemma_sizes();
            executor::lemma_ranges(
                self.inner@.bucket_count(),
                self.inner@.io.slots(),
                index.index as int,
            );
            index::law_bucket_round_trip(self.inner@.io, index);
        }
        self.inner.set(index, fut);
        let queue_index = QueueIndex::from_bucket_index(self.inner.io_resources, index);
        self.inner.wake(queue_index)
    }
}

/// A job that is done changes nothing of another bucket.
pub proof fn law_jobs_are_local<F, C, H>(
    state: InnerView<F, C, H>,
    queue_index: QueueIndex,
    is_ready: bool,
    other: int,
)
    requires
        state.io.wf(),
        0 <= other < state.bucket_count(),
        queue_index.index < state.slots.len(),
        !IoIndex::is_unassigned(state.io, queue_index.index as int),
        other != state.io.bucket_of(queue_index.index as int),
        state.slots.len() == state.bucket_count() * state.io.slots() <= u32::MAX,
        state.futures.len() == state.slots.len(),
        state.connections.len() == state.bucket_count() * state.io.http_connections,
        state.http2_futures.len() == state.bucket_count() * state.io.http2_futures,
    ensures
        ({
            let after = state.polled(queue_index, is_ready);
            &&& after.refcounts[other] == state.refcounts[other]
            &&& after.futures[other] == state.futures[other]
            &&& forall|i: int|
                runtime::executor::belongs_to(state.io.http_connections as int, other, i)
                    ==> #[trigger] after.connections[i] == state.connections[i]
            &&& forall|i: int|
                runtime::executor::belongs_to(state.io.http2_futures as int, other, i)
                    ==> #[trigger] after.http2_futures[i] == state.http2_futures[i]
            &&& forall|i: int|
                0 <= i < state.slots.len() && state.io.bucket_of(i) == other
                    ==> #[trigger] after.slots[i] == state.slots[i]
        }),
{
    let n = state.bucket_count();
    let bucket = state.io.bucket_of(queue_index.index as int);
    runtime::executor::lemma_table_place(state.io, n, queue_index);
    runtime::executor::lemma_widths(n, state.io);
    runtime::executor::lemma_apart(n, state.io.http_connections as int, bucket, other);
    runtime::executor::lemma_apart(n, state.io.http2_futures as int, bucket, other);
}

/// Never more requests are in flight than there are buckets, and a claim is refused exactly when
/// there are as many.
pub proof fn law_requests_are_bounded<F, C, H>(state: InnerView<F, C, H>, bucket: int)
    ensures
        executor::in_flight(state.refcounts) <= state.bucket_count(),
        executor::is_first_free(state.refcounts, bucket) ==> 0 <= bucket < state.bucket_count()
            && executor::in_flight(state.refcounts.update(bucket, 1)) == executor::in_flight(
            state.refcounts,
        ) + 1,
        executor::all_in_use(state.refcounts) <==> executor::in_flight(state.refcounts)
            == state.bucket_count(),
{
    executor::law_requests_are_bounded(state.refcounts, bucket);
}

/// Whether everything that waits for a worker is counted.
pub open spec fn is_exact<F, C, H>(state: InnerView<F, C, H>) -> bool {
    state.available == counting::count(state.slots, queue::is_waiting())
}

/// No wake-up is lost: every step keeps the count of waiting slots exact, so that a worker never
/// sleeps while a slot waits.
pub proof fn law_every_wake_up_is_counted<F, C, H>(
    state: InnerView<F, C, H>,
    queue_index: QueueIndex,
    is_ready: bool,
)
    requires
        queue_index.index < state.slots.len(),
        is_exact(state),
    ensures
        is_exact(state.enqueued(queue_index.index as int)),
        queue::waits(state.slots[queue_index.index as int]) ==> state.available > 0 && is_exact(
            state.claimed(queue_index.index as int),
        ),
        state.slots[queue_index.index as int].is_in_progress ==> is_exact(
            state.polled(queue_index, is_ready),
        ),
{
    let i = queue_index.index as int;
    let waiting = queue::is_waiting();
    let slot = state.slots[i];
    counting::lemma_count_update(
        state.slots,
        waiting,
        i,
        QueueSlotState { is_enqueued: true, ..slot },
    );
    counting::lemma_count_update(state.slots, waiting, i, queue::running());
    counting::lemma_count_update(state.slots, waiting, i, queue::idle());
    counting::lemma_count_update(
        state.slots,
        waiting,
        i,
        QueueSlotState { is_in_progress: false, ..slot },
    );
    if queue::waits(slot) {
        counting::lemma_count_positive(state.slots, waiting, i);
    }
}

/// So many places that hold nothing.
fn vacant_places<T>(count: usize) -> (places: Vec<Option<T>>)
    ensures
        places@ == Seq::new(count as nat, |i: int| None::<T>),
{
    let mut places: Vec<Option<T>> = Vec::new();
    while places.len() < count
        invariant
            places.len() <= count,
            forall|i: int| 0 <= i < places@.len() ==> #[trigger] places@[i] == None::<T>,
        decreases count - places.len(),
    {
        places.push(None);
    }
    assert(places@ =~= Seq::new(count as nat, |i: int| None::<T>));
    places
}

impl<F, C, H> InnerView<F, C, H> {
    /// The tables have the sizes that the number of buckets calls for.
    pub open spec fn has_right_sizes(self) -> bool {
        let n = self.bucket_count();
        &&& self.io.wf()
        &&& self.slots.len() == n * self.io.slots() < u32::MAX
        &&& self.futures.len() == self.slots.len()
        &&& self.connections.len() == n * self.io.http_connections
        &&& self.http2_futures.len() == n * self.io.http2_futures
    }
}

/// Where a slot stands, and that its number is one of a queue slot.
proof fn lemma_slot_number<F, C, H>(
    state: InnerView<F, C, H>,
    identifier: u32,
    bucket: int,
    offset: int,
)
    requires
        state.has_right_sizes(),
        0 <= bucket < state.bucket_count(),
        0 <= offset < state.io.slots(),
        offset == 0 || state.io.tcp_streams <= offset,
    ensures
        ({
            let io = state.io;
            let number = bucket * io.slots() + offset;
            let meaning = IoIndex::meaning(io, QueueIndex { identifier, index: number as u32 });
            &&& 0 <= number < state.slots.len()
            &&& bucket < state.futures.len()
            &&& io.bucket_of(number) == bucket
            &&& match meaning {
                IoIndex::InputStream(index) => offset == 0 && index.index == bucket,
                IoIndex::HttpConnection(index) => 0 < offset < io.tcp_streams + io.http_connections
                    && index.index == bucket * io.http_connections + (offset - io.tcp_streams)
                    && index.index < state.connections.len(),
                IoIndex::Http2Future(index) => 0 < offset && io.tcp_streams + io.http_connections
                    <= offset && index.index == bucket * io.http2_futures + (offset - io.tcp_streams
                    - io.http_connections) && index.index < state.http2_futures.len(),
                IoIndex::CustomStream(_) => false,
            }
        }),
{
    let io = state.io;
    let n = state.bucket_count();
    let number = bucket * io.slots() + offset;
    assert(0 <= bucket * io.slots() && bucket * io.slots() + io.slots() <= n * io.slots() && bucket
        < n * io.slots()) by (nonlinear_arith)
        requires
            0 <= bucket < n,
            io.slots() >= 1,
    ;
    index::law_slots_are_laid_out_in_order(io, identifier, bucket, offset);
    runtime::executor::lemma_table_place(
        io,
        n,
        QueueIndex { identifier, index: number as u32 },
    );
}

/// A job that is done is dropped, and nothing else is: neither another job of its bucket nor
/// anything of another bucket. One job less keeps the bucket in use, and the slot is empty. If none
/// kept it in use, a slot that was woken meanwhile waits again.
pub proof fn law_finished_jobs_drop_only_their_own<F, C, H>(
    state: InnerView<F, C, H>,
    identifier: u32,
    bucket: int,
    offset: int,
)
    requires
        state.has_right_sizes(),
        0 <= bucket < state.bucket_count(),
        0 <= offset < state.io.slots(),
        offset == 0 || state.io.tcp_streams <= offset,
    ensures
        ({
            let io = state.io;
            let number = bucket * io.slots() + offset;
            let is_connection = 0 < offset < io.tcp_streams + io.http_connections;
            let is_http2_future = 0 < offset && io.tcp_streams + io.http_connections <= offset;
            let connection = bucket * io.http_connections + (offset - io.tcp_streams);
            let future = bucket * io.http2_futures + (offset - io.tcp_streams
                - io.http_connections);
            let after = state.polled(QueueIndex { identifier, index: number as u32 }, true);
            &&& after.io == io
            &&& after.futures.len() == state.futures.len()
            &&& after.connections.len() == state.connections.len()
            &&& after.http2_futures.len() == state.http2_futures.len()
            &&& after.refcounts.len() == state.refcounts.len()
            &&& after.slots.len() == state.slots.len()
            &&& offset == 0 ==> after.futures[bucket] is None
            &&& is_connection ==> after.connections[connection] is None
            &&& is_http2_future ==> after.http2_futures[future] is None
            &&& forall|i: int|
                0 <= i < state.futures.len() && !(offset == 0 && i == bucket)
                    ==> #[trigger] after.futures[i] == state.futures[i]
            &&& forall|i: int|
                0 <= i < state.connections.len() && !(is_connection && i == connection)
                    ==> #[trigger] after.connections[i] == state.connections[i]
            &&& forall|i: int|
                0 <= i < state.http2_futures.len() && !(is_http2_future && i == future)
                    ==> #[trigger] after.http2_futures[i] == state.http2_futures[i]
            &&& forall|i: int|
                0 <= i < state.refcounts.len() && i != bucket ==> #[trigger] after.refcounts[i]
                    == state.refcounts[i]
            &&& forall|i: int|
                0 <= i < state.slots.len() && i != number ==> #[trigger] after.slots[i]
                    == state.slots[i]
            &&& !after.slots[number].is_in_progress
            &&& state.refcounts[bucket] > 0 ==> {
                &&& after.refcounts[bucket] == state.refcounts[bucket] - 1
                &&& !after.slots[number].is_enqueued
                &&& after.available == state.available
            }
            &&& state.refcounts[bucket] == 0 ==> {
                &&& after.refcounts[bucket] == 0
                &&& after.slots[number].is_enqueued == state.slots[number].is_enqueued
                &&& after.available - state.available == if state.slots[number].is_enqueued {
                    1int
                } else {
                    0int
                }
            }
            &&& state.ends_request(QueueIndex { identifier, index: number as u32 }, true)
                <==> state.refcounts[bucket] == 1
        }),
{
    lemma_slot_number(state, identifier, bucket, offset);
}

/// A job that is not done stays, with everything else. Its slot is still in progress exactly if it
/// was woken while it ran, and then its worker goes on with it.
pub proof fn law_unfinished_jobs_stay<F, C, H>(
    state: InnerView<F, C, H>,
    queue_index: QueueIndex,
    action: RunAction,
    after: InnerView<F, C, H>,
    other: int,
)
    requires
        queue_index.index < state.slots.len(),
        0 <= other < state.slots.len(),
        other != queue_index.index,
        state.step(RunEvent::Polled { queue_index, is_ready: false }, action, after),
    ensures
        ({
            let i = queue_index.index as int;
            &&& after.io == state.io
            &&& after.futures == state.futures
            &&& after.connections == state.connections
            &&& after.http2_futures == state.http2_futures
            &&& after.refcounts == state.refcounts
            &&& after.available == state.available
            &&& after.slots.len() == state.slots.len()
            &&& after.slots[other] == state.slots[other]
            &&& !after.slots[i].is_enqueued
            &&& after.slots[i].is_in_progress == state.slots[i].is_enqueued
            &&& state.slots[i].is_enqueued ==> action == RunAction::GoOn(queue_index)
            &&& !state.slots[i].is_enqueued ==> action == RunAction::LookForWork
            &&& !state.ends_request(queue_index, false)
        }),
{
}

/// A job that a worker has claimed is polled exactly if it is there. What is missing is reported:
/// an HTTP/2 future as one that is gone, anything else as a race condition.
pub proof fn law_claimed_jobs_are_polled<F, C, H>(
    state: InnerView<F, C, H>,
    identifier: u32,
    bucket: int,
    offset: int,
)
    requires
        state.has_right_sizes(),
        0 <= bucket < state.bucket_count(),
        0 <= offset < state.io.slots(),
        offset == 0 || state.io.tcp_streams <= offset,
    ensures
        ({
            let io = state.io;
            let number = bucket * io.slots() + offset;
            let queue_index = QueueIndex { identifier, index: number as u32 };
            let is_there = if offset == 0 {
                state.futures[bucket] is Some
            } else if offset < io.tcp_streams + io.http_connections {
                state.connections[bucket * io.http_connections + (offset - io.tcp_streams)] is Some
            } else {
                state.http2_futures[bucket * io.http2_futures + (offset - io.tcp_streams
                    - io.http_connections)] is Some
            };
            let action = state.next_action(queue_index);
            &&& is_there ==> (action matches RunAction::Poll { queue_index: polled, io_index }
                && polled == queue_index && io_index == IoIndex::meaning(io, queue_index))
            &&& !is_there && 0 < offset && io.tcp_streams + io.http_connections <= offset ==> action
                == RunAction::NoFuture(queue_index)
            &&& !is_there && (offset == 0 || offset < io.tcp_streams + io.http_connections)
                ==> action == RunAction::RaceCondition(queue_index)
        }),
{
    lemma_slot_number(state, identifier, bucket, offset);
}

/// A worker that looks for work sleeps exactly if nothing is counted, and otherwise claims the
/// lowest slot that is enqueued and not in progress. It changes nothing but that slot.
pub proof fn law_workers_claim_the_lowest_waiting_slot<F, C, H>(
    state: InnerView<F, C, H>,
    action: RunAction,
    after: InnerView<F, C, H>,
)
    requires
        state.step(RunEvent::LookForWork, action, after),
    ensures
        state.available == 0 ==> action == RunAction::Sleep && after == state,
        state.available != 0 ==> exists|i: int|
            {
                &&& 0 <= i < state.slots.len()
                &&& (#[trigger] state.slots[i]).is_enqueued && !state.slots[i].is_in_progress
                &&& forall|j: int|
                    0 <= j < i ==> !((#[trigger] state.slots[j]).is_enqueued
                        && !state.slots[j].is_in_progress)
                &&& forall|j: int|
                    0 <= j < state.slots.len() && j != i ==> #[trigger] after.slots[j]
                        == state.slots[j]
                &&& after.slots.len() == state.slots.len()
                &&& !after.slots[i].is_enqueued && after.slots[i].is_in_progress
                &&& after.available == state.available - 1
                &&& action == state.next_action(QueueIndex { index: i as u32, identifier: 0 })
            },
        after.futures == state.futures,
        after.connections == state.connections,
        after.http2_futures == state.http2_futures,
        after.refcounts == state.refcounts,
        after.io == state.io,
{
    if state.available != 0 {
        let i = choose|i: int|
            {
                &&& 0 <= i < state.slots.len()
                &&& queue::waits(state.slots[i])
                &&& forall|j: int| 0 <= j < i ==> !queue::waits(#[trigger] state.slots[j])
                &&& after == #[trigger] state.claimed(i)
                &&& action == state.next_action(QueueIndex { index: i as u32, identifier: 0 })
            };
        assert(state.slots[i].is_enqueued);
    }
}

/// A worker that goes on with a slot changes nothing, and one that has polled a job which is done
/// looks for work.
pub proof fn law_workers_go_on<F, C, H>(
    state: InnerView<F, C, H>,
    queue_index: QueueIndex,
    action: RunAction,
    after: InnerView<F, C, H>,
)
    ensures
        state.step(RunEvent::GoOn(queue_index), action, after) ==> after == state && action
            == state.next_action(queue_index),
        state.step(RunEvent::Polled { queue_index, is_ready: true }, action, after) ==> action
            == RunAction::LookForWork && after == state.polled(queue_index, true),
{
}

/// Waking a slot enqueues it, whatever it is about, and touches nothing else. It is counted exactly
/// if it was neither enqueued nor in progress.
pub proof fn law_wake_ups_are_remembered<F, C, H>(
    state: InnerView<F, C, H>,
    i: int,
    other: int,
)
    requires
        0 <= i < state.slots.len(),
        0 <= other < state.slots.len(),
        other != i,
    ensures
        ({
            let after = state.enqueued(i);
            &&& after.slots.len() == state.slots.len()
            &&& after.slots[i].is_enqueued
            &&& after.slots[i].is_in_progress == state.slots[i].is_in_progress
            &&& after.slots[other] == state.slots[other]
            &&& after.available - state.available == if !state.slots[i].is_enqueued
                && !state.slots[i].is_in_progress {
                1int
            } else {
                0int
            }
            &&& after.futures == state.futures
            &&& after.connections == state.connections
            &&& after.http2_futures == state.http2_futures
            &&& after.refcounts == state.refcounts
            &&& after.io == state.io
        }),
{
}

/// A place for a connection or a future is the lowest of its bucket that holds nothing, and there is
/// none exactly if all places of the bucket hold something.
pub proof fn law_the_lowest_vacant_place_is_used<T>(
    table: Seq<Option<T>>,
    width: int,
    bucket: int,
    i: int,
    other: int,
)
    requires
        bucket * width <= other < bucket * width + width,
    ensures
        is_first_vacant(table, width, bucket, i) ==> bucket * width <= i < bucket * width + width
            && table[i] is None,
        is_first_vacant(table, width, bucket, i) && table[other] is None ==> i <= other,
        none_vacant(table, width, bucket) ==> table[other] is Some,
        (forall|j: int| bucket * width <= j < bucket * width + width ==> #[trigger] table[j] is Some)
            ==> none_vacant(table, width, bucket),
{
    assert((bucket + 1) * width == bucket * width + width) by (nonlinear_arith);
    assert(runtime::executor::belongs_to(width, bucket, other));
}

/// A new executor has a slot for every resource of every bucket; all of them are idle, and no bucket
/// holds anything or is in use.
pub proof fn law_new_executors_hold_nothing<F, C, H>(bucket_count: nat, io: IoResources, i: int)
    requires
        io.wf(),
    ensures
        ({
            let state = InnerView::<F, C, H>::fresh(bucket_count, io);
            let slots = io.tcp_streams + io.http_connections + io.http2_futures;
            &&& state.io == io
            &&& state.available == 0
            &&& state.refcounts.len() == bucket_count
            &&& state.slots.len() == bucket_count * slots
            &&& state.futures.len() == bucket_count * slots
            &&& state.connections.len() == bucket_count * io.http_connections
            &&& state.http2_futures.len() == bucket_count * io.http2_futures
            &&& 0 <= i < bucket_count ==> state.refcounts[i] == 0
            &&& 0 <= i < state.slots.len() ==> !state.slots[i].is_enqueued
                && !state.slots[i].is_in_progress && state.futures[i] is None
            &&& 0 <= i < state.connections.len() ==> state.connections[i] is None
            &&& 0 <= i < state.http2_futures.len() ==> state.http2_futures[i] is None
        }),
{
    index::lemma_product_nonnegative(bucket_count as int, io.slots());
    index::lemma_product_nonnegative(bucket_count as int, io.http_connections as int);
    index::lemma_product_nonnegative(bucket_count as int, io.http2_futures as int);
}

/// A worker can always look for work, and go on with a slot that is in progress. What it polled was
/// in progress; it can be done only if it is there and keeps its bucket in use, unless it is an
/// HTTP/2 future, and only if it was not woken again, unless it was the last.
pub proof fn law_possible_events<F, C, H>(
    state: InnerView<F, C, H>,
    identifier: u32,
    bucket: int,
    offset: int,
)
    requires
        state.has_right_sizes(),
        0 <= bucket < state.bucket_count(),
        0 <= offset < state.io.slots(),
        offset == 0 || state.io.tcp_streams <= offset,
    ensures
        state.can_happen(RunEvent::LookForWork),
        ({
            let io = state.io;
            let number = bucket * io.slots() + offset;
            let queue_index = QueueIndex { identifier, index: number as u32 };
            let slot = state.slots[number];
            let count = state.refcounts[bucket];
            &&& state.can_happen(RunEvent::GoOn(queue_index)) <==> slot.is_in_progress
            &&& state.can_happen(RunEvent::Polled { queue_index, is_ready: false })
                <==> slot.is_in_progress
            &&& state.can_happen(RunEvent::Polled { queue_index, is_ready: true }) <==> {
                &&& slot.is_in_progress
                &&& !slot.is_enqueued || count <= 1
                &&& offset == 0 ==> count > 0 && state.futures[bucket] is Some
                &&& 0 < offset < io.tcp_streams + io.http_connections ==> count > 0
                    && state.connections[bucket * io.http_connections + (offset - io.tcp_streams)]
                    is Some
            }
        }),
{
    lemma_slot_number(state, identifier, bucket, offset);
}

} // verus!
