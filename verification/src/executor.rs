//! The executor: which requests are in flight, and what a worker does next.
//!
//! A request claims a bucket and puts its future into it. Workers take buckets from the queue and
//! run their jobs. Polling a future and writing to a socket is the caller's business: the
//! executor says what to poll or send, and is told how it ended.
use crate::counting;
use crate::index;
use crate::index::{
    BucketIndex, ConnectionIndex, Http2FutureIndex, IoIndex, IoResources, QueueIndex,
};
use crate::queue;
use crate::queue::{ComplexQueue, NextStep, SlotView};
use crate::shared::allocator::{Bucket, ServerAlloc};
use vstd::prelude::*;

verus! {

/// A place for something that takes a while to set up.
#[derive(Debug)]
pub enum Slot<T> {
    Empty,
    Reserved,
    Occupied(T),
}

/// Why a worker stops running a bucket.
#[derive(Debug, Clone, Copy, PartialEq, Eq, Structural)]
pub enum DoneWithBucket {
    /// There is no more work at the moment.
    ForNow,
    /// The request is done, and the bucket free again.
    Forever,
    /// The request used up its memory, and was cancelled.
    OutOfMemory,
    /// The request handler panicked, and was cancelled.
    Panic,
}

/// Why a request is cancelled.
#[derive(Debug, Clone, Copy, PartialEq, Eq, Structural)]
pub enum CleanupReason {
    OutOfMemory,
    Panic,
}

/// How polling a job ended.
#[derive(Debug, Clone, Copy, PartialEq, Eq, Structural)]
pub enum JobResult {
    Pending,
    Ready,
    /// The application ran out of memory.
    OutOfMemory,
    /// The application panicked.
    Panicked,
}

/// What has happened to the bucket that a worker runs.
#[derive(Debug, Clone, Copy, PartialEq, Eq, Structural)]
pub enum BucketEvent {
    /// The worker has claimed the bucket.
    Begin,
    /// A job was polled.
    Polled { io_index: IoIndex, result: JobResult },
    /// The client of a cancelled request was told so.
    ErrorSent(CleanupReason),
}

/// What a worker has to do for the bucket that it runs.
#[derive(Debug, Clone, Copy, PartialEq, Eq, Structural)]
pub enum BucketAction {
    /// Poll a job.
    Poll { queue_index: QueueIndex, io_index: IoIndex },
    /// A job was woken for a connection that is still being set up. This must not happen.
    ReservedConnection(ConnectionIndex),
    /// Tell the client on this socket that its request is cancelled.
    SendError { fd: i32, reason: CleanupReason },
    /// Stop running the bucket.
    Done(DoneWithBucket),
}

/// What a worker does after it has stopped running a bucket.
#[derive(Debug, Clone, Copy, PartialEq, Eq, Structural)]
pub enum WorkerStep {
    /// Run the same bucket again.
    RunAgain,
    /// Wait for another bucket.
    NextBucket,
}

/// The state of the executor. `F` is what a request runs, and `C` a connection that it opened.
#[derive(Debug)]
pub struct Inner<F, C> {
    /// How many queue slots are there per bucket
    io_resources: IoResources,
    /// number of active queue slots for each bucket
    refcounts: Vec<u8>,
    futures: Vec<Option<F>>,
    tcp_streams: Vec<i32>,
    connections: Vec<Slot<C>>,
    queue: ComplexQueue,
    /// The identifier of the next connection.
    next_identifier: u32,
}

#[derive(Debug)]
pub struct Executor<F, C> {
    pub inner: Inner<F, C>,
}

/// The state of the executor, as sequences.
#[verifier::ext_equal]
pub struct InnerView<F, C> {
    pub io: IoResources,
    /// Per bucket: how many jobs keep it in use. A bucket with none is free.
    pub refcounts: Seq<u8>,
    /// Per bucket: the future of its request.
    pub futures: Seq<Option<F>>,
    /// Per bucket: the socket of its request.
    pub tcp_streams: Seq<i32>,
    pub connections: Seq<Slot<C>>,
    /// Per bucket: its slot in the queue.
    pub slots: Seq<SlotView>,
    pub next_identifier: u32,
}

/// Whether the queue slot at this offset of a bucket can have a job: it is the input stream or a
/// connection, and a slot of the queue has a bit for it.
pub open spec fn is_job_offset(io: IoResources, offset: int) -> bool {
    &&& 0 <= offset < 64
    &&& offset < io.tcp_streams + io.http_connections
    &&& (offset == 0 || io.tcp_streams <= offset)
}

/// Every woken job is one that a bucket can have.
pub open spec fn jobs_make_sense(io: IoResources, slots: Seq<SlotView>) -> bool {
    forall|bucket: int, offset: int|
        0 <= bucket < slots.len() && #[trigger] slots[bucket].jobs.contains(offset)
            ==> is_job_offset(io, offset)
}

proof fn lemma_jobs_update(io: IoResources, slots: Seq<SlotView>, i: int, slot: SlotView)
    requires
        jobs_make_sense(io, slots),
        0 <= i < slots.len(),
        forall|offset: int| #[trigger]
            slot.jobs.contains(offset) ==> slots[i].jobs.contains(offset) || is_job_offset(
                io,
                offset,
            ),
    ensures
        jobs_make_sense(io, slots.update(i, slot)),
{
    let after = slots.update(i, slot);
    assert forall|bucket: int, offset: int|
        0 <= bucket < after.len() && #[trigger] after[bucket].jobs.contains(
            offset,
        ) implies is_job_offset(io, offset) by {
        if bucket == i {
            assert(slot.jobs.contains(offset));
        } else {
            assert(slots[bucket].jobs.contains(offset));
        }
    }
}

/// `bucket` is the first free one.
pub open spec fn is_first_free(refcounts: Seq<u8>, bucket: int) -> bool {
    &&& 0 <= bucket < refcounts.len()
    &&& refcounts[bucket] == 0
    &&& forall|i: int| 0 <= i < bucket ==> #[trigger] refcounts[i] != 0
}

/// Every bucket is in use.
pub open spec fn all_in_use(refcounts: Seq<u8>) -> bool {
    forall|i: int| 0 <= i < refcounts.len() ==> #[trigger] refcounts[i] != 0
}

impl<F, C> InnerView<F, C> {
    /// The state before the first request.
    pub open spec fn fresh(bucket_count: nat, io: IoResources) -> Self {
        InnerView {
            io,
            refcounts: Seq::new(bucket_count, |i: int| 0u8),
            futures: Seq::new((bucket_count * io.slots()) as nat, |i: int| None::<F>),
            tcp_streams: Seq::new(bucket_count, |i: int| 0i32),
            connections: Seq::new(
                (bucket_count * io.http_connections) as nat,
                |i: int| Slot::<C>::Empty,
            ),
            slots: Seq::new(bucket_count, |i: int| SlotView::fresh()),
            next_identifier: 0,
        }
    }

    pub open spec fn bucket_count(self) -> int {
        self.refcounts.len() as int
    }

    /// The first of the connections of a bucket.
    pub open spec fn connections_start(self, bucket: int) -> int {
        bucket * self.io.http_connections
    }

    pub open spec fn is_connection_of(self, bucket: int, i: int) -> bool {
        self.connections_start(bucket) <= i < self.connections_start(bucket + 1)
    }

    /// What a job of a bucket stands for.
    pub open spec fn job(self, bucket: int, offset: int) -> (QueueIndex, IoIndex) {
        let queue_index = QueueIndex {
            identifier: 0,
            index: (bucket * self.io.slots() + offset) as u32,
        };
        (queue_index, IoIndex::meaning(self.io, queue_index))
    }

    /// The job is for a connection that is gone. Such a wake-up is ignored.
    pub open spec fn is_after_death(self, bucket: int, offset: int) -> bool {
        self.job(bucket, offset).1 matches IoIndex::HttpConnection(connection)
            && self.connections[connection.index as int] is Empty
    }

    /// The job is for a connection that is still being set up.
    pub open spec fn is_reserved(self, bucket: int, offset: int) -> bool {
        self.job(bucket, offset).1 matches IoIndex::HttpConnection(connection)
            && self.connections[connection.index as int] is Reserved
    }

    /// The job is for a request that is gone. Such a wake-up counts as a panic of the request.
    pub open spec fn is_orphaned(self, bucket: int, offset: int) -> bool {
        self.job(bucket, offset).1 is InputStream && self.futures[bucket] is None
    }

    /// `offset` is the first job of the bucket that is not ignored.
    pub open spec fn is_next_job(self, bucket: int, offset: int) -> bool {
        &&& self.slots[bucket].jobs.contains(offset)
        &&& !self.is_after_death(bucket, offset)
        &&& forall|other: int| #[trigger]
            self.slots[bucket].jobs.contains(other) && other < offset ==> self.is_after_death(
                bucket,
                other,
            )
    }

    /// Whether every job of the bucket is ignored.
    pub open spec fn no_job_left(self, bucket: int) -> bool {
        forall|other: int| #[trigger]
            self.slots[bucket].jobs.contains(other) ==> self.is_after_death(bucket, other)
    }

    /// All jobs of the bucket up to `offset` were taken.
    pub open spec fn jobs_taken(self, bucket: int, offset: int) -> Self {
        InnerView {
            slots: self.slots.update(
                bucket,
                SlotView {
                    jobs: self.slots[bucket].jobs.filter(|other: int| other > offset),
                    ..self.slots[bucket]
                },
            ),
            ..self
        }
    }

    /// All jobs of the bucket were taken.
    pub open spec fn all_jobs_taken(self, bucket: int) -> Self {
        InnerView {
            slots: self.slots.update(
                bucket,
                SlotView { jobs: Set::empty(), ..self.slots[bucket] },
            ),
            ..self
        }
    }

    /// A job was woken.
    pub open spec fn woken(self, index: int) -> Self {
        let bucket = self.io.bucket_of(index);
        InnerView {
            slots: self.slots.update(
                bucket,
                self.slots[bucket].wake_job(self.io.offset_of(index)),
            ),
            ..self
        }
    }

    /// Whether waking a job makes its bucket wait for a worker.
    pub open spec fn wakes_a_worker(self, index: int) -> bool {
        let bucket = self.io.bucket_of(index);
        self.woken(index).slots[bucket].ready() && !self.slots[bucket].ready()
    }

    /// The polled job has ended, and what it ran is dropped.
    pub open spec fn job_ended(self, io_index: IoIndex) -> Self {
        match io_index {
            IoIndex::InputStream(bucket) => InnerView {
                futures: self.futures.update(bucket.index as int, None),
                ..self
            },
            IoIndex::HttpConnection(connection) => InnerView {
                connections: self.connections.update(connection.index as int, Slot::Empty),
                ..self
            },
            _ => self,
        }
    }

    /// One job less keeps the bucket in use.
    pub open spec fn released(self, bucket: int) -> Self {
        InnerView {
            refcounts: self.refcounts.update(bucket, (self.refcounts[bucket] - 1) as u8),
            ..self
        }
    }

    /// The bucket after its request was cancelled: no future, no connections, free again. Nothing
    /// else has changed.
    pub open spec fn cleaned_up(self, bucket: int) -> Self {
        InnerView {
            refcounts: self.refcounts.update(bucket, 0),
            futures: self.futures.update(bucket, None),
            connections: Seq::new(
                self.connections.len(),
                |i: int|
                    if self.is_connection_of(bucket, i) {
                        Slot::Empty
                    } else {
                        self.connections[i]
                    },
            ),
            ..self
        }
    }

    /// Connection `i` is the first of its bucket that can be reserved.
    pub open spec fn is_first_empty_connection(self, bucket: int, i: int) -> bool {
        &&& self.is_connection_of(bucket, i)
        &&& self.connections[i] is Empty
        &&& forall|j: int|
            self.connections_start(bucket) <= j < i ==> !(#[trigger] self.connections[j] is Empty)
    }

    /// A job of the bucket is about to start. A bucket that is done already stays done.
    pub open spec fn retained(self, bucket: int) -> Self {
        if self.refcounts[bucket] == 0 {
            self
        } else {
            InnerView {
                refcounts: self.refcounts.update(bucket, (self.refcounts[bucket] + 1) as u8),
                ..self
            }
        }
    }

    /// A job that can be polled belongs to the bucket.
    pub open spec fn is_job_of(self, bucket: int, io_index: IoIndex) -> bool {
        match io_index {
            IoIndex::InputStream(input) => input.index == bucket,
            IoIndex::HttpConnection(connection) => self.is_connection_of(
                bucket,
                connection.index as int,
            ),
            _ => false,
        }
    }
}

/// The number of connections is a whole number of buckets, and the ranges of two buckets are
/// apart.
pub(crate) proof fn lemma_ranges(n: int, width: int, bucket: int)
    requires
        0 <= bucket < n,
        0 <= width,
    ensures
        0 <= bucket * width <= (bucket + 1) * width <= n * width,
        (bucket + 1) * width == bucket * width + width,
{
    assert(0 <= bucket * width && (bucket + 1) * width == bucket * width + width && (bucket + 1)
        * width <= n * width) by (nonlinear_arith)
        requires
            0 <= bucket < n,
            0 <= width,
    ;
}

impl<F, C> View for Inner<F, C> {
    type V = InnerView<F, C>;

    closed spec fn view(&self) -> InnerView<F, C> {
        InnerView {
            io: self.io_resources,
            refcounts: self.refcounts@,
            futures: self.futures@,
            tcp_streams: self.tcp_streams@,
            connections: self.connections@,
            slots: self.queue.slots(),
            next_identifier: self.next_identifier,
        }
    }
}

impl<F, C> Inner<F, C> {
    /// The tables have the sizes that the number of buckets calls for, the queue is sound, and
    /// only input streams and connections have jobs.
    pub closed spec fn wf(&self) -> bool {
        let n = self.refcounts@.len() as int;
        &&& self.io_resources.wf()
        &&& self.queue.wf()
        &&& self.queue.resources() == self.io_resources
        &&& self.queue.slots().len() == n
        &&& n < u32::MAX
        &&& n * self.io_resources.slots() <= u32::MAX
        &&& self.futures@.len() == n * self.io_resources.slots()
        &&& self.tcp_streams@.len() == n
        &&& self.connections@.len() == n * self.io_resources.http_connections
        &&& jobs_make_sense(self.io_resources, self.queue.slots())
    }

    /// What a sound executor can be relied on for.
    pub proof fn lemma_sizes(&self)
        requires
            self.wf(),
        ensures
            self@.io.wf(),
            self@.slots.len() == self@.bucket_count(),
            self@.bucket_count() * self@.io.slots() <= u32::MAX,
            self@.futures.len() == self@.bucket_count() * self@.io.slots(),
            self@.futures.len() >= self@.bucket_count(),
            self@.tcp_streams.len() == self@.bucket_count(),
            self@.connections.len() == self@.bucket_count() * self@.io.http_connections,
            jobs_make_sense(self@.io, self@.slots),
    {
        assert(self.refcounts@.len() * self.io_resources.slots() >= self.refcounts@.len())
            by (nonlinear_arith)
            requires
                self.refcounts@.len() >= 0,
                self.io_resources.slots() >= 1,
        ;
    }

    /// The number of the queue slot for a job of a bucket, and what it stands for.
    proof fn lemma_job(&self, bucket: int, offset: int)
        requires
            self.wf(),
            0 <= bucket < self@.bucket_count(),
            is_job_offset(self@.io, offset),
        ensures
            0 <= bucket * self@.io.slots() + offset <= u32::MAX,
            self@.io.bucket_of(bucket * self@.io.slots() + offset) == bucket,
            self@.io.offset_of(bucket * self@.io.slots() + offset) == offset,
            offset == 0 ==> (self@.job(bucket, offset).1 matches IoIndex::InputStream(input)
                && input.index == bucket && input.identifier == 0),
            offset != 0 ==> (self@.job(bucket, offset).1 matches IoIndex::HttpConnection(connection)
                && connection.index == self@.connections_start(bucket) + offset
                - self@.io.tcp_streams && self@.is_connection_of(bucket, connection.index as int)
                && connection.index < self@.connections.len()),
    {
        lemma_ranges(self@.bucket_count(), self@.io.slots(), bucket);
        lemma_ranges(self@.bucket_count(), self@.io.http_connections as int, bucket);
        index::lemma_slot_parts(self@.io, bucket, offset);
        assert(bucket * self@.io.http_connections <= bucket * self@.io.slots())
            by (nonlinear_arith)
            requires
                0 <= bucket,
                self@.io.http_connections <= self@.io.slots(),
        ;
    }

    /// An executor without requests.
    pub fn new(bucket_count: usize, io_resources: IoResources) -> (inner: Self)
        requires
            io_resources.wf(),
            bucket_count < u32::MAX,
            bucket_count * io_resources.slots() <= u32::MAX,
        ensures
            inner.wf(),
            inner@ == InnerView::<F, C>::fresh(bucket_count as nat, io_resources),
    {
        proof {
            assert(0 <= bucket_count * io_resources.http_connections <= bucket_count
                * io_resources.slots()) by (nonlinear_arith)
                requires
                    0 <= bucket_count,
                    0 <= io_resources.http_connections <= io_resources.slots(),
            ;
        }
        let queue_capacity: usize = bucket_count * io_resources.per_bucket();
        let connection_count: usize = bucket_count * io_resources.http_connections;
        let mut futures: Vec<Option<F>> = Vec::new();
        while futures.len() < queue_capacity
            invariant
                futures.len() <= queue_capacity,
                forall|i: int| 0 <= i < futures@.len() ==> #[trigger] futures@[i] == None::<F>,
            decreases queue_capacity - futures.len(),
        {
            futures.push(None);
        }
        let mut connections: Vec<Slot<C>> = Vec::new();
        while connections.len() < connection_count
            invariant
                connections.len() <= connection_count,
                forall|i: int|
                    0 <= i < connections@.len() ==> #[trigger] connections@[i] == Slot::<C>::Empty,
            decreases connection_count - connections.len(),
        {
            connections.push(Slot::Empty);
        }
        let mut refcounts: Vec<u8> = Vec::new();
        let mut tcp_streams: Vec<i32> = Vec::new();
        while refcounts.len() < bucket_count
            invariant
                refcounts.len() <= bucket_count,
                tcp_streams.len() == refcounts.len(),
                forall|i: int| 0 <= i < refcounts@.len() ==> #[trigger] refcounts@[i] == 0,
                forall|i: int| 0 <= i < tcp_streams@.len() ==> #[trigger] tcp_streams@[i] == 0,
            decreases bucket_count - refcounts.len(),
        {
            refcounts.push(0);
            tcp_streams.push(0);
        }
        let queue = ComplexQueue::with_capacity(bucket_count, io_resources);
        let inner = Inner {
            io_resources,
            refcounts,
            futures,
            tcp_streams,
            connections,
            queue,
            next_identifier: 0,
        };
        proof {
            assert(inner@.refcounts =~= Seq::new(bucket_count as nat, |i: int| 0u8));
            assert(inner@.futures =~= Seq::new(
                (bucket_count * io_resources.slots()) as nat,
                |i: int| None::<F>,
            ));
            assert(inner@.tcp_streams =~= Seq::new(bucket_count as nat, |i: int| 0i32));
            assert(inner@.connections =~= Seq::new(
                (bucket_count * io_resources.http_connections) as nat,
                |i: int| Slot::<C>::Empty,
            ));
        }
        inner
    }

    /// Claims a free bucket for a request.
    pub fn try_claim(&mut self) -> (claimed: Option<BucketIndex>)
        requires
            old(self).wf(),
        ensures
            final(self).wf(),
            match claimed {
                None => all_in_use(old(self)@.refcounts) && final(self)@ == old(self)@,
                Some(bucket) => {
                    &&& bucket.identifier == 0
                    &&& is_first_free(old(self)@.refcounts, bucket.index as int)
                    &&& final(self)@ == (InnerView {
                        refcounts: old(self)@.refcounts.update(bucket.index as int, 1),
                        ..old(self)@
                    })
                },
            },
    {
        let mut i: usize = 0;
        while i < self.refcounts.len()
            invariant
                i <= self.refcounts.len(),
                *self == *old(self),
                self.wf(),
                forall|j: int| 0 <= j < i ==> #[trigger] self.refcounts@[j] != 0,
            decreases self.refcounts.len() - i,
        {
            if self.refcounts[i] == 0 {
                self.refcounts[i] = 1;
                return Some(BucketIndex { identifier: 0, index: i as u32 });
            }
            i = i + 1;
        }
        None
    }

    /// Puts a request into the bucket that it claimed.
    pub fn set(&mut self, fd: i32, index: BucketIndex, fut: F)
        requires
            old(self).wf(),
            index.index < old(self)@.bucket_count(),
            old(self)@.futures[index.index as int] is None,
        ensures
            final(self).wf(),
            final(self)@ == (InnerView {
                futures: old(self)@.futures.update(index.index as int, Some(fut)),
                tcp_streams: old(self)@.tcp_streams.update(index.index as int, fd),
                ..old(self)@
            }),
    {
        proof {
            self.lemma_sizes();
        }
        // NOTE try_claim already set the refcount of this slot to 1
        self.futures[index.index as usize] = Some(fut);
        self.tcp_streams[index.index as usize] = fd;
    }

    /// Wakes a job, and tells whether a sleeping worker has to be woken.
    pub fn wake(&mut self, queue_index: QueueIndex) -> (wake_one: bool)
        requires
            old(self).wf(),
            old(self)@.io.bucket_of(queue_index.index as int) < old(self)@.bucket_count(),
            is_job_offset(old(self)@.io, old(self)@.io.offset_of(queue_index.index as int)),
        ensures
            final(self).wf(),
            wake_one == old(self)@.wakes_a_worker(queue_index.index as int),
            final(self)@ == old(self)@.woken(queue_index.index as int),
    {
        proof {
            let bucket = self@.io.bucket_of(queue_index.index as int);
            assert(bucket >= 0) by (nonlinear_arith)
                requires
                    bucket == queue_index.index as int / self@.io.slots(),
                    self@.io.slots() > 0,
            ;
            lemma_jobs_update(
                self@.io,
                self@.slots,
                bucket,
                self@.slots[bucket].wake_job(self@.io.offset_of(queue_index.index as int)),
            );
        }
        self.queue.wake(queue_index)
    }

    /// The future of a request, for polling.
    pub fn future(&self, bucket_index: BucketIndex) -> (future: Option<&F>)
        requires
            self.wf(),
            bucket_index.index < self@.bucket_count(),
        ensures
            match future {
                None => self@.futures[bucket_index.index as int] is None,
                Some(future) => self@.futures[bucket_index.index as int] == Some(*future),
            },
    {
        proof {
            self.lemma_sizes();
        }
        self.futures[bucket_index.index as usize].as_ref()
    }

    /// A connection, for polling.
    pub fn connection(&self, connection_index: ConnectionIndex) -> (slot: &Slot<C>)
        requires
            connection_index.index < self@.connections.len(),
        ensures
            *slot == self@.connections[connection_index.index as int],
    {
        &self.connections[connection_index.index as usize]
    }

    /// How many jobs keep a bucket in use.
    pub fn refcount(&self, bucket_index: BucketIndex) -> (count: u8)
        requires
            bucket_index.index < self@.bucket_count(),
        ensures
            count == self@.refcounts[bucket_index.index as int],
    {
        self.refcounts[bucket_index.index as usize]
    }

    pub fn bucket_count(&self) -> (count: usize)
        ensures
            count == self@.bucket_count(),
    {
        self.refcounts.len()
    }

    /// Whether a queue slot belongs to a bucket, and can have a job.
    pub fn is_job(&self, queue_index: QueueIndex) -> (result: bool)
        requires
            self.wf(),
        ensures
            result == (self@.io.bucket_of(queue_index.index as int) < self@.bucket_count()
                && is_job_offset(self@.io, self@.io.offset_of(queue_index.index as int))),
    {
        let io = self.io_resources;
        let per_bucket: u32 = io.per_bucket() as u32;
        let bucket: usize = (queue_index.index / per_bucket) as usize;
        let offset: usize = (queue_index.index % per_bucket) as usize;
        bucket < self.refcounts.len() && offset < 64 && offset < io.tcp_streams
            + io.http_connections && (offset == 0 || io.tcp_streams <= offset)
    }

    /// Whether an event can happen to a bucket.
    pub fn is_possible(&self, bucket_index: BucketIndex, event: BucketEvent) -> (result: bool)
        requires
            self.wf(),
            bucket_index.index < self@.bucket_count(),
        ensures
            result == self@.can_happen(bucket_index.index as int, event),
    {
        let (io_index, job_result) = match event {
            BucketEvent::Polled { io_index, result } => (io_index, result),
            _ => return true,
        };
        proof {
            self.lemma_sizes();
            lemma_ranges(
                self@.bucket_count(),
                self@.io.http_connections as int,
                bucket_index.index as int,
            );
            assert(self@.bucket_count() * self@.io.http_connections <= self@.bucket_count()
                * self@.io.slots()) by (nonlinear_arith)
                requires
                    self@.bucket_count() >= 0,
                    self@.io.http_connections <= self@.io.slots(),
            ;
        }
        let range = self.io_resources.http_connections(bucket_index);
        let (is_job_of, can_end) = match io_index {
            IoIndex::InputStream(input) => {
                if input.index != bucket_index.index {
                    return false;
                }
                (true, self.future(bucket_index).is_some())
            },
            IoIndex::HttpConnection(connection) => {
                if (connection.index as usize) < range.start || range.end <= (
                connection.index as usize) {
                    return false;
                }
                let is_occupied = match self.connection(connection) {
                    Slot::Occupied(_) => true,
                    _ => false,
                };
                (true, is_occupied)
            },
            _ => (false, false),
        };
        match job_result {
            JobResult::Ready => is_job_of && can_end && self.refcount(bucket_index) > 0,
            JobResult::Panicked => match io_index {
                IoIndex::InputStream(_) => is_job_of,
                _ => false,
            },
            _ => is_job_of,
        }
    }

    /// Takes jobs from the bucket until one is found that is not ignored.
    fn next_job(&mut self, bucket_index: BucketIndex) -> (action: BucketAction)
        requires
            old(self).wf(),
            bucket_index.index < old(self)@.bucket_count(),
        ensures
            final(self).wf(),
            old(self)@.next_action(bucket_index.index as int, action, final(self)@),
    {
        let ghost start = self@;
        let ghost b = bucket_index.index as int;
        let ghost jobs = start.slots[b].jobs;
        let ghost mut last: int = -1;
        proof {
            self.lemma_sizes();
            assert(jobs.filter(|other: int| other > last) =~= jobs);
            assert(start.slots.update(
                b,
                SlotView {
                    jobs: jobs.filter(|other: int| other > last),
                    ..start.slots[b]
                },
            ) =~= start.slots);
        }
        loop
            invariant
                self.wf(),
                b == bucket_index.index,
                b < start.bucket_count(),
                jobs == start.slots[b].jobs,
                start.slots.len() == start.bucket_count(),
                self@ == start.jobs_taken(b, last),
                forall|other: int| #[trigger]
                    jobs.contains(other) ==> is_job_offset(start.io, other),
                forall|other: int| #[trigger]
                    jobs.contains(other) && other <= last ==> start.is_after_death(b, other),
                start == old(self)@,
                -1 <= last <= 64,
            decreases 64 - last,
        {
            let ghost before = self@;
            match self.queue.dequeue_job(bucket_index) {
                None => {
                    proof {
                        assert forall|other: int| #[trigger]
                            jobs.contains(other) implies start.is_after_death(b, other) by {
                            if other > last {
                                assert(before.slots[b].jobs.contains(other));
                            }
                        }
                        assert(before.slots[b].jobs =~= Set::<int>::empty());
                        assert(self@ =~= start.all_jobs_taken(b));
                    }
                    return BucketAction::Done(DoneWithBucket::ForNow);
                },
                Some(bucket_offset) => {
                    let ghost taken = bucket_offset as int;
                    proof {
                        assert(before.slots[b].jobs.contains(taken));
                        assert(jobs.contains(taken) && taken > last);
                        assert forall|other: int| jobs.contains(other) && last < other implies taken
                            <= other by {
                            assert(before.slots[b].jobs.contains(other));
                        }
                        assert(before.slots[b].jobs.remove(taken) =~= jobs.filter(
                            |other: int| other > taken,
                        ));
                        assert(self@ =~= start.jobs_taken(b, taken));
                        lemma_jobs_update(
                            before.io,
                            before.slots,
                            b,
                            before.slots[b].take_job(taken),
                        );
                        assert(self.wf());
                        self.lemma_job(b, taken);
                    }
                    let queue_index = QueueIndex {
                        index: bucket_index.index * (self.io_resources.per_bucket() as u32)
                            + bucket_offset as u32,
                        identifier: 0,
                    };
                    let io_index = IoIndex::from_index(self.io_resources, queue_index);
                    match io_index {
                        IoIndex::HttpConnection(connection_index) => {
                            match &self.connections[connection_index.index as usize] {
                                // some wake-ups come after the task is complete
                                Slot::Empty => {
                                    proof {
                                        last = taken;
                                    }
                                    continue;
                                },
                                Slot::Reserved => {
                                    assert(start.is_next_job(b, taken));
                                    return BucketAction::ReservedConnection(connection_index);
                                },
                                Slot::Occupied(_) => {},
                            }
                        },
                        _ => {
                            proof {
                                self.lemma_sizes();
                            }
                            // input stream race condition
                            if self.futures[bucket_index.index as usize].is_none() {
                                assert(start.is_next_job(b, taken));
                                return BucketAction::SendError {
                                    fd: self.tcp_streams[bucket_index.index as usize],
                                    reason: CleanupReason::Panic,
                                };
                            }
                        },
                    }
                    assert(start.is_next_job(b, taken));
                    return BucketAction::Poll { queue_index, io_index };
                },
            }
        }
    }
}

impl<F, C> InnerView<F, C> {
    /// What a worker has to do for a bucket that it runs, and the state that it leaves behind.
    pub open spec fn next_action(self, bucket: int, action: BucketAction, after: Self) -> bool {
        match action {
            BucketAction::Done(done) => {
                &&& done == DoneWithBucket::ForNow
                &&& self.no_job_left(bucket)
                &&& after == self.all_jobs_taken(bucket)
            },
            BucketAction::Poll { queue_index, io_index } => exists|offset: int|
                {
                    &&& #[trigger] self.is_next_job(bucket, offset)
                    &&& !self.is_reserved(bucket, offset)
                    &&& !self.is_orphaned(bucket, offset)
                    &&& (queue_index, io_index) == self.job(bucket, offset)
                    &&& after == self.jobs_taken(bucket, offset)
                },
            BucketAction::ReservedConnection(connection) => exists|offset: int|
                {
                    &&& #[trigger] self.is_next_job(bucket, offset)
                    &&& self.is_reserved(bucket, offset)
                    &&& self.job(bucket, offset).1 == IoIndex::HttpConnection(connection)
                    &&& after == self.jobs_taken(bucket, offset)
                },
            BucketAction::SendError { fd, reason } => exists|offset: int|
                {
                    &&& #[trigger] self.is_next_job(bucket, offset)
                    &&& self.is_orphaned(bucket, offset)
                    &&& fd == self.tcp_streams[bucket]
                    &&& reason == CleanupReason::Panic
                    &&& after == self.jobs_taken(bucket, offset)
                },
        }
    }
}

impl<F, C> Inner<F, C> {
    /// Runs one step of a bucket: takes in what has happened, and says what the worker does next.
    pub fn run_bucket(
        &mut self,
        memory: &mut ServerAlloc,
        bucket_index: BucketIndex,
        event: BucketEvent,
    ) -> (action: BucketAction)
        requires
            old(self).wf(),
            old(memory).wf(),
            bucket_index.index < old(self)@.bucket_count(),
            bucket_index.index < old(memory).buckets().len(),
            old(self)@.can_happen(bucket_index.index as int, event),
        ensures
            final(self).wf(),
            final(memory).wf(),
            final(memory).arena() == old(memory).arena(),
            ({
                let bucket = bucket_index.index as int;
                let before = old(self)@;
                let after = final(self)@;
                match event {
                    BucketEvent::Begin => {
                        &&& before.next_action(bucket, action, after)
                        &&& final(memory).buckets() == old(memory).buckets()
                    },
                    BucketEvent::Polled { io_index, result } => match result {
                        JobResult::Pending => {
                            &&& before.next_action(bucket, action, after)
                            &&& final(memory).buckets() == old(memory).buckets()
                        },
                        JobResult::Ready => {
                            let released = before.job_ended(io_index).released(bucket);
                            if before.refcounts[bucket] == 1 {
                                &&& action == BucketAction::Done(DoneWithBucket::Forever)
                                &&& after == released
                                &&& memory_wiped(*old(memory), *final(memory), bucket)
                            } else {
                                &&& released.next_action(bucket, action, after)
                                &&& final(memory).buckets() == old(memory).buckets()
                            }
                        },
                        JobResult::OutOfMemory => {
                            &&& action == BucketAction::SendError {
                                fd: before.tcp_streams[bucket],
                                reason: CleanupReason::OutOfMemory,
                            }
                            &&& after == before
                            &&& final(memory).buckets() == old(memory).buckets()
                        },
                        JobResult::Panicked => {
                            &&& action == BucketAction::SendError {
                                fd: before.tcp_streams[bucket],
                                reason: CleanupReason::Panic,
                            }
                            &&& after == before
                            &&& final(memory).buckets() == old(memory).buckets()
                        },
                    },
                    BucketEvent::ErrorSent(reason) => {
                        &&& action == BucketAction::Done(
                            match reason {
                                CleanupReason::OutOfMemory => DoneWithBucket::OutOfMemory,
                                CleanupReason::Panic => DoneWithBucket::Panic,
                            },
                        )
                        &&& after == before.cleaned_up(bucket)
                        &&& memory_wiped(*old(memory), *final(memory), bucket)
                    },
                }
            }),
    {
        match event {
            BucketEvent::Begin => self.next_job(bucket_index),
            BucketEvent::Polled { io_index, result } => match result {
                JobResult::Pending => {
                    // done with this queue index, but another job in this bucket may be ready for
                    // processing
                    self.next_job(bucket_index)
                },
                JobResult::Ready => {
                    self.end_job(io_index);
                    if self.release(memory, bucket_index) {
                        BucketAction::Done(DoneWithBucket::Forever)
                    } else {
                        self.next_job(bucket_index)
                    }
                },
                JobResult::OutOfMemory => {
                    proof {
                        self.lemma_sizes();
                    }
                    BucketAction::SendError {
                        fd: self.tcp_streams[bucket_index.index as usize],
                        reason: CleanupReason::OutOfMemory,
                    }
                },
                JobResult::Panicked => {
                    proof {
                        self.lemma_sizes();
                    }
                    BucketAction::SendError {
                        fd: self.tcp_streams[bucket_index.index as usize],
                        reason: CleanupReason::Panic,
                    }
                },
            },
            BucketEvent::ErrorSent(reason) => {
                self.cleanup_bucket(memory, bucket_index);
                match reason {
                    CleanupReason::OutOfMemory => BucketAction::Done(DoneWithBucket::OutOfMemory),
                    CleanupReason::Panic => BucketAction::Done(DoneWithBucket::Panic),
                }
            },
        }
    }

    /// Drops what a finished job ran.
    fn end_job(&mut self, io_index: IoIndex)
        requires
            old(self).wf(),
            old(self)@.can_end(io_index),
        ensures
            final(self).wf(),
            final(self)@ == old(self)@.job_ended(io_index),
    {
        match io_index {
            IoIndex::InputStream(bucket_index) => {
                self.futures[bucket_index.index as usize] = None;
            },
            IoIndex::HttpConnection(connection_index) => {
                self.connections[connection_index.index as usize] = Slot::Empty;
            },
            _ => {},
        }
    }

    /// One job less keeps the bucket in use. With the last one its memory is wiped and the bucket
    /// is free again.
    fn release(&mut self, memory: &mut ServerAlloc, bucket_index: BucketIndex) -> (is_free: bool)
        requires
            old(self).wf(),
            old(memory).wf(),
            bucket_index.index < old(self)@.bucket_count(),
            bucket_index.index < old(memory).buckets().len(),
            old(self)@.refcounts[bucket_index.index as int] > 0,
        ensures
            final(self).wf(),
            final(memory).wf(),
            final(memory).arena() == old(memory).arena(),
            final(self)@ == old(self)@.released(bucket_index.index as int),
            is_free == (old(self)@.refcounts[bucket_index.index as int] == 1),
            if is_free {
                memory_wiped(*old(memory), *final(memory), bucket_index.index as int)
            } else {
                final(memory).buckets() == old(memory).buckets()
            },
    {
        let bucket: usize = bucket_index.index as usize;
        if self.refcounts[bucket] == 1 {
            // clear the memory before anyone else can claim the bucket
            memory.clear_bucket(bucket);
            self.refcounts[bucket] = 0;
            true
        } else {
            self.refcounts[bucket] = self.refcounts[bucket] - 1;
            false
        }
    }

    /// Cancels the request of a bucket: drops all it holds, wipes its memory, and frees the
    /// bucket for the next request.
    pub fn cleanup_bucket(&mut self, memory: &mut ServerAlloc, bucket_index: BucketIndex)
        requires
            old(self).wf(),
            old(memory).wf(),
            bucket_index.index < old(self)@.bucket_count(),
            bucket_index.index < old(memory).buckets().len(),
        ensures
            final(self).wf(),
            final(memory).wf(),
            final(memory).arena() == old(memory).arena(),
            final(self)@ == old(self)@.cleaned_up(bucket_index.index as int),
            memory_wiped(*old(memory), *final(memory), bucket_index.index as int),
    {
        let bucket: usize = bucket_index.index as usize;
        let ghost before = self@;
        proof {
            self.lemma_sizes();
            lemma_ranges(before.bucket_count(), before.io.http_connections as int, bucket as int);
            assert(before.bucket_count() * before.io.http_connections <= before.bucket_count()
                * before.io.slots()) by (nonlinear_arith)
                requires
                    before.bucket_count() >= 0,
                    before.io.http_connections <= before.io.slots(),
            ;
        }
        // drop all the http connections
        let range = self.io_resources.http_connections(bucket_index);
        let end: usize = range.end;
        let mut i: usize = range.start;
        while i < end
            invariant
                self.wf(),
                range.start <= i <= end,
                end <= self.connections.len(),
                end == range.end,
                self@.io == before.io,
                self@.refcounts == before.refcounts,
                self@.futures == before.futures,
                self@.tcp_streams == before.tcp_streams,
                self@.slots == before.slots,
                self@.next_identifier == before.next_identifier,
                self@.connections.len() == before.connections.len(),
                forall|j: int|
                    0 <= j < self@.connections.len() ==> #[trigger] self@.connections[j]
                        == if range.start <= j < i {
                        Slot::Empty
                    } else {
                        before.connections[j]
                    },
            decreases end - i,
        {
            self.connections[i] = Slot::Empty;
            i = i + 1;
        }
        // drop the main future
        self.futures[bucket] = None;
        // clean up the memory
        memory.clear_bucket(bucket);
        // signals that this bucket is now free for the next request
        self.refcounts[bucket] = 0;
        proof {
            let expected = before.cleaned_up(bucket as int);
            assert(self@.connections =~= expected.connections);
            assert(self@ =~= expected);
        }
    }

    /// Decides what a worker does after it has stopped running a bucket. A worker whose request
    /// was cancelled looks for more work in the same bucket.
    pub fn after_bucket(&mut self, bucket_index: BucketIndex, done: DoneWithBucket) -> (step:
        WorkerStep)
        requires
            old(self).wf(),
            bucket_index.index < old(self)@.bucket_count(),
            old(self)@.slots[bucket_index.index as int].in_progress,
        ensures
            final(self).wf(),
            match done {
                DoneWithBucket::Forever | DoneWithBucket::ForNow => {
                    let slot = old(self)@.slots[bucket_index.index as int];
                    &&& step == if slot.enqueued {
                        WorkerStep::RunAgain
                    } else {
                        WorkerStep::NextBucket
                    }
                    &&& final(self)@ == (InnerView {
                        slots: old(self)@.slots.update(bucket_index.index as int, slot.finish()),
                        ..old(self)@
                    })
                },
                DoneWithBucket::OutOfMemory | DoneWithBucket::Panic => {
                    &&& step == WorkerStep::RunAgain
                    &&& final(self)@ == old(self)@
                },
            },
    {
        match done {
            DoneWithBucket::Forever | DoneWithBucket::ForNow => {
                proof {
                    let bucket = bucket_index.index as int;
                    lemma_jobs_update(
                        self@.io,
                        self@.slots,
                        bucket,
                        self@.slots[bucket].finish(),
                    );
                }
                match self.queue.done_with_bucket(bucket_index) {
                    NextStep::Done => WorkerStep::NextBucket,
                    NextStep::GoAgain => WorkerStep::RunAgain,
                }
            },
            DoneWithBucket::OutOfMemory | DoneWithBucket::Panic => WorkerStep::RunAgain,
        }
    }

    /// Claims the next bucket for a worker, or tells that the worker has to sleep.
    pub fn try_dequeue(&mut self) -> (claimed: Option<BucketIndex>)
        requires
            old(self).wf(),
        ensures
            final(self).wf(),
            match claimed {
                None => {
                    &&& final(self)@ == old(self)@
                    &&& forall|i: int|
                        0 <= i < old(self)@.slots.len() ==> !(#[trigger] old(self)@.slots[i]).ready()
                },
                Some(bucket) => {
                    let i = bucket.index as int;
                    &&& bucket.identifier == 0
                    &&& i < old(self)@.bucket_count()
                    &&& old(self)@.slots[i].ready()
                    &&& forall|j: int| 0 <= j < i ==> !(#[trigger] old(self)@.slots[j]).ready()
                    &&& final(self)@ == (InnerView {
                        slots: old(self)@.slots.update(i, old(self)@.slots[i].claim()),
                        ..old(self)@
                    })
                },
            },
    {
        let ghost before = self.queue;
        let claimed = self.queue.blocking_dequeue();
        proof {
            match claimed {
                None => before.lemma_nothing_available(),
                Some(bucket) => lemma_jobs_update(
                    self.io_resources,
                    before.slots(),
                    bucket.index as int,
                    before.slots()[bucket.index as int].claim(),
                ),
            }
        }
        claimed
    }

    /// Reserves a place for a connection that a request opens. The result is the place and its
    /// queue slot, or `None` if all places of the bucket are taken.
    pub fn reserve_connection(&mut self, bucket_index: BucketIndex) -> (reserved: Option<
        (ConnectionIndex, QueueIndex),
    >)
        requires
            old(self).wf(),
            bucket_index.index < old(self)@.bucket_count(),
            old(self)@.refcounts[bucket_index.index as int] < u8::MAX,
        ensures
            final(self).wf(),
            ({
                let bucket = bucket_index.index as int;
                let retained = old(self)@.retained(bucket);
                match reserved {
                    None => {
                        &&& forall|i: int|
                            retained.is_connection_of(bucket, i) ==> !(
                            #[trigger] retained.connections[i] is Empty)
                        &&& final(self)@ == retained
                    },
                    Some((connection, queue_index)) => {
                        &&& retained.is_first_empty_connection(bucket, connection.index as int)
                        &&& connection.identifier == retained.next_identifier
                        &&& queue_index.identifier == connection.identifier
                        &&& queue_index.index == QueueIndex::of_connection(retained.io, connection)
                        &&& final(self)@ == (InnerView {
                            connections: retained.connections.update(
                                connection.index as int,
                                Slot::Reserved,
                            ),
                            next_identifier: if retained.next_identifier == u32::MAX {
                                0
                            } else {
                                (retained.next_identifier + 1) as u32
                            },
                            ..retained
                        })
                    },
                }
            }),
    {
        let bucket: usize = bucket_index.index as usize;
        let ghost retained = self@.retained(bucket as int);
        proof {
            self.lemma_sizes();
            lemma_ranges(
                retained.bucket_count(),
                retained.io.http_connections as int,
                bucket as int,
            );
            assert(retained.bucket_count() * retained.io.http_connections
                <= retained.bucket_count() * retained.io.slots()) by (nonlinear_arith)
                requires
                    retained.bucket_count() >= 0,
                    retained.io.http_connections <= retained.io.slots(),
            ;
        }
        if self.refcounts[bucket] != 0 {
            self.refcounts[bucket] = self.refcounts[bucket] + 1;
        }
        let indices = self.io_resources.http_connections(bucket_index);
        let end: usize = indices.end;
        let mut i: usize = indices.start;
        while i < end
            invariant
                self.wf(),
                self@ == retained,
                retained == old(self)@.retained(bucket as int),
                indices.start <= i <= end,
                end == indices.end,
                end <= self.connections.len(),
                end <= u32::MAX,
                bucket == bucket_index.index,
                bucket < retained.bucket_count(),
                indices.start == retained.connections_start(bucket as int),
                indices.end == retained.connections_start(bucket + 1),
                forall|j: int|
                    indices.start <= j < i ==> !(#[trigger] retained.connections[j] is Empty),
            decreases end - i,
        {
            let is_empty = match &self.connections[i] {
                Slot::Empty => true,
                _ => false,
            };
            if is_empty {
                let identifier: u32 = self.next_identifier;
                self.connections[i] = Slot::Reserved;
                self.next_identifier = identifier.wrapping_add(1);
                let connection_index = ConnectionIndex { identifier, index: i as u32 };
                proof {
                    retained.lemma_connection_slot(bucket as int, connection_index);
                }
                let queue_index = QueueIndex::from_connection_index(
                    self.io_resources,
                    connection_index,
                );
                return Some((connection_index, queue_index));
            }
            i = i + 1;
        }
        None
    }

    /// Puts a connection into the place that was reserved for it, and wakes its job. The result
    /// tells whether a sleeping worker has to be woken.
    pub fn populate_connection(&mut self, connection_index: ConnectionIndex, connection: C) -> (
    wake_one: bool)
        requires
            old(self).wf(),
            connection_index.index < old(self)@.connections.len(),
            old(self)@.connections[connection_index.index as int] is Reserved,
            is_job_offset(
                old(self)@.io,
                old(self)@.io.offset_of(QueueIndex::of_connection(old(self)@.io, connection_index)),
            ),
        ensures
            final(self).wf(),
            ({
                let populated = InnerView {
                    connections: old(self)@.connections.update(
                        connection_index.index as int,
                        Slot::Occupied(connection),
                    ),
                    ..old(self)@
                };
                let index = QueueIndex::of_connection(old(self)@.io, connection_index);
                &&& wake_one == populated.wakes_a_worker(index)
                &&& final(self)@ == populated.woken(index)
            }),
    {
        let ghost before = self@;
        proof {
            self.lemma_sizes();
            before.lemma_connection_bucket(connection_index);
            let bucket = connection_index.index as int / before.io.http_connections as int;
            before.lemma_connection_slot(bucket, connection_index);
            index::law_connection_round_trip(before.io, connection_index);
        }
        self.connections[connection_index.index as usize] = Slot::Occupied(connection);
        let queue_index = QueueIndex::from_connection_index(self.io_resources, connection_index);
        self.wake(queue_index)
    }
}

/// The memory of one bucket was wiped, and that of the others left alone.
pub open spec fn memory_wiped(before: ServerAlloc, after: ServerAlloc, bucket: int) -> bool {
    after.buckets() == before.buckets().update(bucket, before.buckets()[bucket].cleared())
}

impl<F, C> InnerView<F, C> {
    /// What a job ran is there to be dropped.
    pub open spec fn can_end(self, io_index: IoIndex) -> bool {
        match io_index {
            IoIndex::InputStream(bucket) => {
                &&& bucket.index < self.futures.len()
                &&& self.futures[bucket.index as int] is Some
            },
            IoIndex::HttpConnection(connection) => {
                &&& connection.index < self.connections.len()
                &&& self.connections[connection.index as int] is Occupied
            },
            _ => false,
        }
    }

    /// What can happen to a bucket that a worker runs. A panic is only ever caught in the input
    /// stream, and a job that ends is one that kept the bucket in use.
    pub open spec fn can_happen(self, bucket: int, event: BucketEvent) -> bool {
        match event {
            BucketEvent::Polled { io_index, result } => {
                &&& self.is_job_of(bucket, io_index)
                &&& result is Ready ==> self.can_end(io_index) && self.refcounts[bucket] > 0
                &&& result is Panicked ==> io_index is InputStream
            },
            _ => true,
        }
    }

    /// The queue slot of a connection of a bucket has a number.
    proof fn lemma_connection_slot(self, bucket: int, connection: ConnectionIndex)
        requires
            self.io.wf(),
            0 <= bucket < self.bucket_count(),
            self.bucket_count() * self.io.slots() <= u32::MAX,
            self.is_connection_of(bucket, connection.index as int),
        ensures
            self.io.http_connections > 0,
            connection.index as int / self.io.http_connections as int == bucket,
            0 <= QueueIndex::of_connection(self.io, connection) <= u32::MAX,
            self.io.bucket_of(QueueIndex::of_connection(self.io, connection)) == bucket,
    {
        let per = self.io.http_connections as int;
        lemma_ranges(self.bucket_count(), per, bucket);
        lemma_ranges(self.bucket_count(), self.io.slots(), bucket);
        let within = connection.index - bucket * per;
        vstd::arithmetic::div_mod::lemma_fundamental_div_mod_converse(
            connection.index as int,
            per,
            bucket,
            within,
        );
        index::law_connection_round_trip(self.io, connection);
    }

    /// Every connection belongs to a bucket.
    proof fn lemma_connection_bucket(self, connection: ConnectionIndex)
        requires
            connection.index < self.connections.len(),
            self.connections.len() == self.bucket_count() * self.io.http_connections,
        ensures
            ({
                let bucket = connection.index as int / self.io.http_connections as int;
                &&& 0 <= bucket < self.bucket_count()
                &&& self.is_connection_of(bucket, connection.index as int)
            }),
    {
        let per = self.io.http_connections as int;
        let n = self.bucket_count();
        assert(per > 0) by (nonlinear_arith)
            requires
                connection.index < n * per,
                n >= 0,
                per >= 0,
        ;
        vstd::arithmetic::div_mod::lemma_fundamental_div_mod(connection.index as int, per);
        let bucket = connection.index as int / per;
        assert(0 <= bucket < n && bucket * per <= connection.index < (bucket + 1) * per)
            by (nonlinear_arith)
            requires
                connection.index == per * bucket + connection.index as int % per,
                0 <= connection.index as int % per < per,
                0 <= connection.index < n * per,
                per > 0,
        ;
    }
}

/// What becomes of a new connection to the server.
#[derive(Debug, Clone, Copy, PartialEq, Eq, Structural)]
pub enum Admission {
    /// All buckets are in use: the connection is shut down.
    Refused,
    /// The connection is served in this bucket; its socket is registered under the queue index.
    Admitted { bucket_index: BucketIndex, queue_index: QueueIndex },
}

impl<F, C> Executor<F, C> {
    pub open spec fn wf(&self) -> bool {
        self.inner.wf()
    }

    /// The executor that exists already, or a new one without requests. Both must have the same
    /// resources per bucket.
    pub fn get_or_init(
        existing: Option<Self>,
        bucket_count: usize,
        io_resources: IoResources,
    ) -> (executor: Self)
        requires
            match existing {
                Some(executor) => executor.wf() && executor.inner@.io == io_resources,
                None => {
                    &&& io_resources.wf()
                    &&& bucket_count < u32::MAX
                    &&& bucket_count * io_resources.slots() <= u32::MAX
                },
            },
        ensures
            executor.wf(),
            match existing {
                Some(existing) => executor == existing,
                None => executor.inner@ == InnerView::<F, C>::fresh(
                    bucket_count as nat,
                    io_resources,
                ),
            },
    {
        match existing {
            Some(executor) => executor,
            None => Executor { inner: Inner::new(bucket_count, io_resources) },
        }
    }

    pub fn try_claim(&mut self) -> (claimed: Option<BucketIndex>)
        requires
            old(self).wf(),
        ensures
            final(self).wf(),
            match claimed {
                None => all_in_use(old(self).inner@.refcounts) && final(self).inner@
                    == old(self).inner@,
                Some(bucket) => {
                    &&& bucket.identifier == 0
                    &&& is_first_free(old(self).inner@.refcounts, bucket.index as int)
                    &&& final(self).inner@ == (InnerView {
                        refcounts: old(self).inner@.refcounts.update(bucket.index as int, 1),
                        ..old(self).inner@
                    })
                },
            },
    {
        self.inner.try_claim()
    }

    /// Starts a request in the bucket that it claimed, and tells whether a sleeping worker has to
    /// be woken.
    pub fn execute(&mut self, fd: i32, bucket_index: BucketIndex, fut: F) -> (wake_one: bool)
        requires
            old(self).wf(),
            bucket_index.index < old(self).inner@.bucket_count(),
            old(self).inner@.futures[bucket_index.index as int] is None,
            is_job_offset(old(self).inner@.io, 0),
        ensures
            final(self).wf(),
            ({
                let before = old(self).inner@;
                let bucket = bucket_index.index as int;
                let started = InnerView {
                    futures: before.futures.update(bucket, Some(fut)),
                    tcp_streams: before.tcp_streams.update(bucket, fd),
                    ..before
                };
                let index = QueueIndex::of_bucket(before.io, bucket_index);
                &&& wake_one == started.wakes_a_worker(index)
                &&& final(self).inner@ == started.woken(index)
            }),
    {
        proof {
            self.inner.lemma_sizes();
            lemma_ranges(
                self.inner@.bucket_count(),
                self.inner@.io.slots(),
                bucket_index.index as int,
            );
            index::law_bucket_round_trip(self.inner@.io, bucket_index);
        }
        self.inner.set(fd, bucket_index, fut);
        let queue_index = QueueIndex::from_bucket_index(self.inner.io_resources, bucket_index);
        self.inner.wake(queue_index)
    }

    /// Admits a new connection if a bucket is free.
    pub fn accept(&mut self) -> (admission: Admission)
        requires
            old(self).wf(),
        ensures
            final(self).wf(),
            match admission {
                Admission::Refused => all_in_use(old(self).inner@.refcounts)
                    && final(self).inner@ == old(self).inner@,
                Admission::Admitted { bucket_index, queue_index } => {
                    &&& bucket_index.identifier == 0
                    &&& is_first_free(old(self).inner@.refcounts, bucket_index.index as int)
                    &&& queue_index.identifier == 0
                    &&& queue_index.index == QueueIndex::of_bucket(old(self).inner@.io, bucket_index)
                    &&& final(self).inner@ == (InnerView {
                        refcounts: old(self).inner@.refcounts.update(bucket_index.index as int, 1),
                        ..old(self).inner@
                    })
                },
            },
    {
        match self.inner.try_claim() {
            None => Admission::Refused,
            Some(bucket_index) => {
                proof {
                    self.inner.lemma_sizes();
                    lemma_ranges(
                        self.inner@.bucket_count(),
                        self.inner@.io.slots(),
                        bucket_index.index as int,
                    );
                }
                let queue_index = QueueIndex::from_bucket_index(
                    self.inner.io_resources,
                    bucket_index,
                );
                Admission::Admitted { bucket_index, queue_index }
            },
        }
    }
}

/// How a request handler failed.
#[derive(Debug, Clone, Copy, PartialEq, Eq, Structural)]
pub enum HandlerError {
    /// The client is gone.
    NotConnected,
    Other,
}

/// Whether the outcome of a request handler has to be treated as a panic. A client that is gone
/// is no reason to.
pub fn is_handler_panic(result: Result<(), HandlerError>) -> (panics: bool)
    ensures
        panics == (result == Err::<(), HandlerError>(HandlerError::Other)),
{
    match result {
        Ok(()) => false,
        Err(HandlerError::NotConnected) => false,
        Err(HandlerError::Other) => true,
    }
}

/// A cancelled request harms no other: the other buckets keep their jobs, futures, sockets,
/// connections and memory.
pub proof fn law_cancelling_is_local<F, C>(
    state: InnerView<F, C>,
    memory_before: ServerAlloc,
    memory_after: ServerAlloc,
    bucket: int,
    other: int,
)
    requires
        0 <= bucket < state.bucket_count() <= memory_before.buckets().len(),
        0 <= other < state.bucket_count(),
        bucket != other,
        state.has_right_sizes(),
        memory_wiped(memory_before, memory_after, bucket),
    ensures
        ({
            let after = state.cleaned_up(bucket);
            &&& after.refcounts[other] == state.refcounts[other]
            &&& after.futures[other] == state.futures[other]
            &&& after.tcp_streams[other] == state.tcp_streams[other]
            &&& after.slots[other] == state.slots[other]
            &&& forall|i: int|
                state.is_connection_of(other, i) ==> #[trigger] after.connections[i]
                    == state.connections[i]
        }),
        memory_after.buckets()[other] == memory_before.buckets()[other],
{
    let per = state.io.http_connections as int;
    lemma_ranges(state.bucket_count(), per, other);
    let after = state.cleaned_up(bucket);
    assert forall|i: int| state.is_connection_of(other, i) implies #[trigger] after.connections[i]
        == state.connections[i] by {
        lemma_buckets_are_apart(per, bucket, other, i);
    }
}

/// A bucket whose request was cancelled is free: nothing of the request is left in it, and a new
/// request is not refused.
pub proof fn law_cancelled_bucket_is_free<F, C>(state: InnerView<F, C>, bucket: int)
    requires
        0 <= bucket < state.bucket_count(),
        state.futures.len() >= state.bucket_count(),
    ensures
        ({
            let after = state.cleaned_up(bucket);
            &&& after.refcounts[bucket] == 0
            &&& after.futures[bucket] is None
            &&& !all_in_use(after.refcounts)
        }),
{
    assert(state.cleaned_up(bucket).refcounts[bucket] == 0);
}

/// A bucket that was claimed is not claimed again as long as it is in use.
pub proof fn law_claims_are_exclusive(refcounts: Seq<u8>, bucket: int, later: Seq<u8>, other: int)
    requires
        is_first_free(refcounts, bucket),
        later.len() == refcounts.len(),
        later[bucket] != 0,
        is_first_free(later, other),
    ensures
        other != bucket,
{
}

/// How many requests are in flight.
pub open spec fn in_flight(refcounts: Seq<u8>) -> nat {
    counting::count(refcounts, |count: u8| count != 0)
}

/// Never more requests are in flight than there are buckets; each claim adds one, and a claim is
/// refused exactly when there are as many as buckets.
pub proof fn law_requests_are_bounded(refcounts: Seq<u8>, bucket: int)
    ensures
        in_flight(refcounts) <= refcounts.len(),
        is_first_free(refcounts, bucket) ==> in_flight(refcounts.update(bucket, 1)) == in_flight(
            refcounts,
        ) + 1,
        all_in_use(refcounts) <==> in_flight(refcounts) == refcounts.len(),
{
    let used = |count: u8| count != 0;
    counting::lemma_count_at_most_len(refcounts, used);
    counting::lemma_count_full(refcounts, used);
    if all_in_use(refcounts) {
        assert forall|i: int| 0 <= i < refcounts.len() implies used(#[trigger] refcounts[i]) by {}
    }
    if in_flight(refcounts) == refcounts.len() {
        assert forall|i: int| 0 <= i < refcounts.len() implies #[trigger] refcounts[i] != 0 by {
            assert(used(refcounts[i]));
        }
    }
    if is_first_free(refcounts, bucket) {
        counting::lemma_count_update(refcounts, used, bucket, 1u8);
    }
}

/// The counts after the first `claims` buckets were claimed.
pub open spec fn first_claimed(bucket_count: nat, claims: int) -> Seq<u8> {
    Seq::new(
        bucket_count,
        |i: int|
            if i < claims {
                1u8
            } else {
                0u8
            },
    )
}

/// Buckets are given out in order, until there are none: as long as none is released, claim number
/// `claims` gets the bucket with that number, and is refused when there are no more.
pub proof fn law_buckets_are_given_out_in_order(bucket_count: nat, claims: int, bucket: int)
    requires
        0 <= claims,
    ensures
        is_first_free(first_claimed(bucket_count, claims), bucket) <==> bucket == claims
            < bucket_count,
        all_in_use(first_claimed(bucket_count, claims)) <==> bucket_count <= claims,
        claims < bucket_count ==> first_claimed(bucket_count, claims).update(claims, 1)
            == first_claimed(bucket_count, claims + 1),
        first_claimed(bucket_count, 0) == Seq::new(bucket_count, |i: int| 0u8),
{
    let refcounts = first_claimed(bucket_count, claims);
    if claims < bucket_count {
        assert(refcounts[claims] == 0);
        assert(refcounts.update(claims, 1) =~= first_claimed(bucket_count, claims + 1));
        if is_first_free(refcounts, bucket) && claims < bucket {
            assert(refcounts[claims] != 0);
        }
    }
    assert(first_claimed(bucket_count, 0) =~= Seq::new(bucket_count, |i: int| 0u8));
}

impl<F, C> InnerView<F, C> {
    /// The tables have the sizes that the number of buckets calls for.
    pub open spec fn has_right_sizes(self) -> bool {
        &&& self.futures.len() >= self.bucket_count()
        &&& self.connections.len() == self.bucket_count() * self.io.http_connections
    }

    /// The connections of a bucket.
    pub open spec fn connections_of(self, bucket: int) -> Seq<Slot<C>> {
        self.connections.subrange(
            self.connections_start(bucket),
            self.connections_start(bucket + 1),
        )
    }

    /// How many jobs a bucket holds: its future, and the connections that are in use or reserved.
    pub open spec fn held(self, bucket: int) -> int {
        counting::count(self.connections_of(bucket), is_in_use::<C>()) + if self.futures[bucket] is Some {
            1int
        } else {
            0int
        }
    }

    /// The count of a bucket is right. A bucket that was claimed, and whose request has not
    /// started yet, is counted for that request.
    pub open spec fn is_counted(self, bucket: int, is_starting: bool) -> bool {
        if is_starting {
            self.futures[bucket] is None && self.refcounts[bucket] == self.held(bucket) + 1
        } else {
            self.refcounts[bucket] == self.held(bucket)
        }
    }

    /// The counts of all buckets are right. The requests of the buckets in `starting` have not
    /// started yet.
    pub open spec fn all_jobs_are_counted(self, starting: Set<int>) -> bool {
        forall|bucket: int|
            0 <= bucket < self.bucket_count() ==> #[trigger] self.is_counted(
                bucket,
                starting.contains(bucket),
            )
    }

    /// The counts of all other buckets are right.
    pub open spec fn others_are_counted(self, bucket: int, starting: Set<int>) -> bool {
        forall|other: int|
            0 <= other < self.bucket_count() && other != bucket ==> #[trigger] self.is_counted(
                other,
                starting.contains(other),
            )
    }

    /// Only what belongs to one bucket differs.
    pub open spec fn differs_only_in(self, before: Self, bucket: int) -> bool {
        &&& self.io == before.io
        &&& self.bucket_count() == before.bucket_count()
        &&& self.futures.len() == before.futures.len()
        &&& self.connections.len() == before.connections.len()
        &&& forall|other: int|
            0 <= other < before.bucket_count() && other != bucket ==> #[trigger] self.refcounts[other]
                == before.refcounts[other]
        &&& forall|other: int|
            0 <= other < before.bucket_count() && other != bucket ==> #[trigger] self.futures[other]
                == before.futures[other]
        &&& forall|i: int|
            0 <= i < before.connections.len() && !before.is_connection_of(bucket, i)
                ==> #[trigger] self.connections[i] == before.connections[i]
    }

    /// What happens to one bucket leaves the counts of the others right.
    proof fn lemma_counted_elsewhere(self, after: Self, bucket: int, starting: Set<int>, later: Set<int>)
        requires
            0 <= bucket < self.bucket_count(),
            self.has_right_sizes(),
            after.differs_only_in(self, bucket),
            self.others_are_counted(bucket, starting),
            forall|other: int| other != bucket ==> starting.contains(other) == later.contains(other),
        ensures
            after.others_are_counted(bucket, later),
            after.is_counted(bucket, later.contains(bucket)) ==> after.all_jobs_are_counted(later),
    {
        let per = self.io.http_connections as int;
        assert forall|other: int|
            0 <= other < after.bucket_count() && other != bucket implies #[trigger] after.is_counted(
            other,
            later.contains(other),
        ) by {
            assert(self.is_counted(other, starting.contains(other)));
            lemma_ranges(self.bucket_count(), per, other);
            assert forall|i: int| self.is_connection_of(other, i) implies !self.is_connection_of(
                bucket,
                i,
            ) by {
                lemma_buckets_are_apart(per, bucket, other, i);
            }
            assert(after.connections_of(other) =~= self.connections_of(other));
            assert(after.refcounts[other] == self.refcounts[other]);
            assert(after.futures[other] == self.futures[other]);
        }
    }

    /// Putting something into one place of a bucket changes what it holds by that place alone.
    proof fn lemma_held_update(self, bucket: int, i: int, slot: Slot<C>)
        requires
            0 <= bucket < self.bucket_count(),
            self.has_right_sizes(),
            self.is_connection_of(bucket, i),
        ensures
            ({
                let after = InnerView { connections: self.connections.update(i, slot), ..self };
                after.held(bucket) == self.held(bucket) - (if self.connections[i] is Empty {
                    0int
                } else {
                    1int
                }) + (if slot is Empty {
                    0int
                } else {
                    1int
                })
            }),
            !(self.connections[i] is Empty) ==> self.held(bucket) > 0,
    {
        let per = self.io.http_connections as int;
        lemma_ranges(self.bucket_count(), per, bucket);
        let start = self.connections_start(bucket);
        let after = InnerView { connections: self.connections.update(i, slot), ..self };
        let places = self.connections_of(bucket);
        assert(after.connections_of(bucket) =~= places.update(i - start, slot));
        counting::lemma_count_update(places, is_in_use::<C>(), i - start, slot);
        if !(self.connections[i] is Empty) {
            assert(places[i - start] == self.connections[i]);
            counting::lemma_count_positive(places, is_in_use::<C>(), i - start);
        }
    }
}

/// The places that hold or will hold something.
pub open spec fn is_in_use<C>() -> spec_fn(Slot<C>) -> bool {
    |slot: Slot<C>| !(slot is Empty)
}

/// No place belongs to two buckets.
proof fn lemma_buckets_are_apart(per: int, bucket: int, other: int, i: int)
    requires
        0 <= per,
        bucket != other,
        other * per <= i < (other + 1) * per,
    ensures
        !(bucket * per <= i < (bucket + 1) * per),
{
    if other < bucket {
        assert((other + 1) * per <= bucket * per) by (nonlinear_arith)
            requires
                other + 1 <= bucket,
                per >= 0,
        ;
    } else {
        assert((bucket + 1) * per <= other * per) by (nonlinear_arith)
            requires
                bucket + 1 <= other,
                per >= 0,
        ;
    }
}

/// A free bucket holds nothing of an earlier request: no future, and no connection.
pub proof fn law_free_buckets_hold_nothing<F, C>(
    state: InnerView<F, C>,
    starting: Set<int>,
    bucket: int,
)
    requires
        0 <= bucket < state.bucket_count(),
        state.has_right_sizes(),
        state.all_jobs_are_counted(starting),
        state.refcounts[bucket] == 0,
    ensures
        !starting.contains(bucket),
        state.futures[bucket] is None,
        forall|i: int| state.is_connection_of(bucket, i) ==> #[trigger] state.connections[i] is Empty,
{
    assert(state.is_counted(bucket, starting.contains(bucket)));
    lemma_ranges(state.bucket_count(), state.io.http_connections as int, bucket);
    let start = state.connections_start(bucket);
    let places = state.connections_of(bucket);
    assert forall|i: int| state.is_connection_of(bucket, i) implies #[trigger] state.connections[i] is Empty by {
        assert(places[i - start] == state.connections[i]);
        if !(places[i - start] is Empty) {
            counting::lemma_count_positive(places, is_in_use::<C>(), i - start);
        }
    }
}

/// Before the first request the counts are right.
pub proof fn law_jobs_are_counted_at_first<F, C>(bucket_count: nat, io: IoResources)
    requires
        io.wf(),
    ensures
        InnerView::<F, C>::fresh(bucket_count, io).has_right_sizes(),
        InnerView::<F, C>::fresh(bucket_count, io).all_jobs_are_counted(Set::empty()),
{
    let state = InnerView::<F, C>::fresh(bucket_count, io);
    assert(bucket_count <= bucket_count * io.slots() && 0 <= bucket_count * io.http_connections)
        by (nonlinear_arith)
        requires
            1 <= io.slots(),
            0 <= io.http_connections,
            0 <= bucket_count,
    ;
    assert forall|bucket: int| 0 <= bucket < state.bucket_count() implies #[trigger] state.is_counted(
        bucket,
        false,
    ) by {
        lemma_ranges(state.bucket_count(), io.http_connections as int, bucket);
        counting::lemma_count_zero(state.connections_of(bucket), is_in_use::<C>());
    }
}

/// The counts stay right when a request claims a bucket and when it starts. The bucket of a
/// request that starts holds no other request.
pub proof fn law_starting_requests_are_counted<F, C>(
    state: InnerView<F, C>,
    starting: Set<int>,
    bucket: int,
    fd: i32,
    fut: F,
)
    requires
        0 <= bucket < state.bucket_count(),
        state.has_right_sizes(),
        state.all_jobs_are_counted(starting),
    ensures
        is_first_free(state.refcounts, bucket) ==> (InnerView {
            refcounts: state.refcounts.update(bucket, 1),
            ..state
        }).all_jobs_are_counted(starting.insert(bucket)),
        starting.contains(bucket) ==> state.futures[bucket] is None && (InnerView {
            futures: state.futures.update(bucket, Some(fut)),
            tcp_streams: state.tcp_streams.update(bucket, fd),
            ..state
        }).all_jobs_are_counted(starting.remove(bucket)),
{
    assert(state.is_counted(bucket, starting.contains(bucket)));
    if is_first_free(state.refcounts, bucket) {
        let claimed = InnerView { refcounts: state.refcounts.update(bucket, 1), ..state };
        law_free_buckets_hold_nothing(state, starting, bucket);
        state.lemma_counted_elsewhere(claimed, bucket, starting, starting.insert(bucket));
        assert(claimed.connections_of(bucket) =~= state.connections_of(bucket));
    }
    if starting.contains(bucket) {
        let started = InnerView {
            futures: state.futures.update(bucket, Some(fut)),
            tcp_streams: state.tcp_streams.update(bucket, fd),
            ..state
        };
        state.lemma_counted_elsewhere(started, bucket, starting, starting.remove(bucket));
        assert(started.connections_of(bucket) =~= state.connections_of(bucket));
    }
}

/// The counts stay right when a request opens a connection: when a place is reserved for it, and
/// when the connection is put there.
pub proof fn law_opened_connections_are_counted<F, C>(
    state: InnerView<F, C>,
    starting: Set<int>,
    bucket: int,
    i: int,
    connection: C,
)
    requires
        0 <= bucket < state.bucket_count(),
        state.has_right_sizes(),
        state.all_jobs_are_counted(starting),
        state.is_connection_of(bucket, i),
    ensures
        0 < state.refcounts[bucket] < u8::MAX && state.connections[i] is Empty ==> (InnerView {
            connections: state.connections.update(i, Slot::Reserved),
            ..state.retained(bucket)
        }).all_jobs_are_counted(starting),
        state.connections[i] is Reserved ==> (InnerView {
            connections: state.connections.update(i, Slot::Occupied(connection)),
            ..state
        }).all_jobs_are_counted(starting),
{
    assert(state.is_counted(bucket, starting.contains(bucket)));
    lemma_ranges(state.bucket_count(), state.io.http_connections as int, bucket);
    if 0 < state.refcounts[bucket] < u8::MAX && state.connections[i] is Empty {
        let reserved = InnerView {
            connections: state.connections.update(i, Slot::Reserved),
            ..state.retained(bucket)
        };
        state.lemma_held_update(bucket, i, Slot::Reserved);
        state.lemma_counted_elsewhere(reserved, bucket, starting, starting);
    }
    if state.connections[i] is Reserved {
        let populated = InnerView {
            connections: state.connections.update(i, Slot::Occupied(connection)),
            ..state
        };
        state.lemma_held_update(bucket, i, Slot::Occupied(connection));
        state.lemma_counted_elsewhere(populated, bucket, starting, starting);
    }
}

/// The counts stay right when a job ends, and a job that ends is one that kept its bucket in use.
/// Waking jobs and taking them from the queue has no influence on the counts.
pub proof fn law_ended_jobs_are_counted<F, C>(
    state: InnerView<F, C>,
    starting: Set<int>,
    bucket: int,
    io_index: IoIndex,
    slots: Seq<SlotView>,
)
    requires
        0 <= bucket < state.bucket_count(),
        state.has_right_sizes(),
        state.all_jobs_are_counted(starting),
        state.is_job_of(bucket, io_index),
    ensures
        state.can_end(io_index) ==> state.refcounts[bucket] > 0 && state.job_ended(
            io_index,
        ).released(bucket).all_jobs_are_counted(starting),
        (InnerView { slots, ..state }).all_jobs_are_counted(starting),
{
    assert(state.is_counted(bucket, starting.contains(bucket)));
    lemma_ranges(state.bucket_count(), state.io.http_connections as int, bucket);
    if state.can_end(io_index) {
        let after = state.job_ended(io_index).released(bucket);
        match io_index {
            IoIndex::HttpConnection(connection) => {
                let i = connection.index as int;
                state.lemma_held_update(bucket, i, Slot::Empty);
                assert(state.job_ended(io_index).held(bucket) == state.held(bucket) - 1);
                assert(after.held(bucket) == state.job_ended(io_index).held(bucket));
            },
            _ => {
                assert(after.connections_of(bucket) =~= state.connections_of(bucket));
            },
        }
        state.lemma_counted_elsewhere(after, bucket, starting, starting);
    }
    let woken = InnerView { slots, ..state };
    assert forall|b: int| 0 <= b < woken.bucket_count() implies #[trigger] woken.is_counted(
        b,
        starting.contains(b),
    ) by {
        assert(state.is_counted(b, starting.contains(b)));
        assert(woken.connections_of(b) =~= state.connections_of(b));
    }
}

/// The counts are right after a request was cancelled, whatever the state of its bucket was.
pub proof fn law_cancelling_restores_the_counts<F, C>(
    state: InnerView<F, C>,
    starting: Set<int>,
    bucket: int,
)
    requires
        0 <= bucket < state.bucket_count(),
        state.has_right_sizes(),
        state.others_are_counted(bucket, starting),
        !starting.contains(bucket),
    ensures
        state.cleaned_up(bucket).all_jobs_are_counted(starting),
{
    let after = state.cleaned_up(bucket);
    lemma_ranges(state.bucket_count(), state.io.http_connections as int, bucket);
    state.lemma_counted_elsewhere(after, bucket, starting, starting);
    counting::lemma_count_zero(after.connections_of(bucket), is_in_use::<C>());
}

/// A bucket whose request is done is free: the next request is not refused, and finds the memory
/// unused. The memory of the other buckets is left alone.
pub proof fn law_finished_bucket_is_free<F, C>(
    state: InnerView<F, C>,
    io_index: IoIndex,
    before: ServerAlloc,
    after: ServerAlloc,
    bucket: int,
    other: int,
)
    requires
        0 <= bucket < state.bucket_count(),
        bucket < before.buckets().len(),
        0 <= other < before.buckets().len(),
        state.refcounts[bucket] == 1,
        memory_wiped(before, after, bucket),
    ensures
        state.job_ended(io_index).released(bucket).refcounts[bucket] == 0,
        !all_in_use(state.job_ended(io_index).released(bucket).refcounts),
        after.buckets()[bucket] == before.buckets()[bucket].cleared(),
        other != bucket ==> after.buckets()[other] == before.buckets()[other],
{
    assert(state.job_ended(io_index).released(bucket).refcounts[bucket] == 0);
}

/// The number of the queue slot at an offset of a bucket.
pub open spec fn slot_number(io: IoResources, bucket: int, offset: int) -> int {
    bucket * (io.tcp_streams + io.http_connections + io.http2_futures) + offset
}

/// The place of the connection whose job has an offset of a bucket.
pub open spec fn connection_place(io: IoResources, bucket: int, offset: int) -> int {
    bucket * io.http_connections + (offset - io.tcp_streams)
}

/// No woken job is lost: running a bucket hands every job to be polled, or leaves it where it is.
/// A job is only ever taken without being polled if there is nothing to poll: its connection is
/// gone, or still being set up, or the request of the bucket is gone. What is handed out belongs
/// to the bucket, and is there to be polled.
pub proof fn law_woken_jobs_are_not_dropped<F, C>(
    inner: Inner<F, C>,
    bucket: int,
    action: BucketAction,
    after: InnerView<F, C>,
)
    requires
        inner.wf(),
        0 <= bucket < inner@.refcounts.len(),
        inner@.next_action(bucket, action, after),
    ensures
        ({
            let state = inner@;
            let place = |offset: int| connection_place(state.io, bucket, offset);
            &&& forall|offset: int| #[trigger]
                state.slots[bucket].jobs.contains(offset) ==> {
                    ||| after.slots[bucket].jobs.contains(offset)
                    ||| (action matches BucketAction::Poll { queue_index, .. } && queue_index.index
                        == slot_number(state.io, bucket, offset))
                    ||| offset != 0 && state.connections[place(offset)] is Empty
                    ||| offset != 0 && state.connections[place(offset)] is Reserved && (action
                        matches BucketAction::ReservedConnection(connection) && connection.index
                        == place(offset))
                    ||| offset == 0 && state.futures[bucket] is None && action
                        is SendError
                }
            &&& forall|offset: int| #[trigger]
                after.slots[bucket].jobs.contains(offset)
                    ==> state.slots[bucket].jobs.contains(offset)
            &&& action is Done ==> action == BucketAction::Done(DoneWithBucket::ForNow)
                && forall|offset: int| !(#[trigger] after.slots[bucket].jobs.contains(offset))
            &&& action matches BucketAction::Poll { queue_index, io_index } ==> exists|offset: int|
                {
                    &&& #[trigger] state.slots[bucket].jobs.contains(offset)
                    &&& !after.slots[bucket].jobs.contains(offset)
                    &&& queue_index.index == slot_number(state.io, bucket, offset)
                    &&& queue_index.identifier == 0
                    &&& match io_index {
                        IoIndex::InputStream(input) => offset == 0 && input.index == bucket
                            && input.identifier == 0 && state.futures[bucket] is Some,
                        IoIndex::HttpConnection(connection) => offset != 0 && connection.index
                            == place(offset) && connection.identifier == 0
                            && state.connections[place(offset)] is Occupied,
                        _ => false,
                    }
                }
        }),
{
    let state = inner@;
    inner.lemma_sizes();
    assert forall|offset: int| #[trigger] state.slots[bucket].jobs.contains(offset) implies {
        &&& is_job_offset(state.io, offset)
        &&& state.job(bucket, offset).0.index == slot_number(state.io, bucket, offset)
        &&& offset == 0 ==> (state.job(bucket, offset).1 matches IoIndex::InputStream(input)
            && input.index == bucket)
        &&& offset != 0 ==> (state.job(bucket, offset).1 matches IoIndex::HttpConnection(connection)
            && connection.index == connection_place(state.io, bucket, offset))
    } by {
        inner.lemma_job(bucket, offset);
    }
    match action {
        BucketAction::Done(_) => {},
        BucketAction::Poll { queue_index, io_index } => {
            let taken = choose|offset: int|
                {
                    &&& #[trigger] state.is_next_job(bucket, offset)
                    &&& !state.is_reserved(bucket, offset)
                    &&& !state.is_orphaned(bucket, offset)
                    &&& (queue_index, io_index) == state.job(bucket, offset)
                    &&& after == state.jobs_taken(bucket, offset)
                };
            assert(state.slots[bucket].jobs.contains(taken));
        },
        _ => {},
    }
}

/// Running a bucket has no influence on anything but its own woken jobs.
pub proof fn law_running_takes_jobs_only<F, C>(
    state: InnerView<F, C>,
    bucket: int,
    action: BucketAction,
    after: InnerView<F, C>,
)
    requires
        0 <= bucket < state.slots.len(),
        state.next_action(bucket, action, after),
    ensures
        after.io == state.io,
        after.refcounts == state.refcounts,
        after.futures == state.futures,
        after.tcp_streams == state.tcp_streams,
        after.connections == state.connections,
        after.next_identifier == state.next_identifier,
        after.slots.len() == state.slots.len(),
        after.slots[bucket].enqueued == state.slots[bucket].enqueued,
        after.slots[bucket].in_progress == state.slots[bucket].in_progress,
        forall|other: int|
            0 <= other < state.slots.len() && other != bucket ==> #[trigger] after.slots[other]
                == state.slots[other],
{
}

/// The jobs of a bucket are polled in ascending order: what is left after one was handed out has a
/// higher number.
pub proof fn law_jobs_are_polled_in_order<F, C>(
    inner: Inner<F, C>,
    bucket: int,
    queue_index: QueueIndex,
    io_index: IoIndex,
    after: InnerView<F, C>,
    offset: int,
)
    requires
        inner.wf(),
        0 <= bucket < inner@.refcounts.len(),
        inner@.next_action(bucket, BucketAction::Poll { queue_index, io_index }, after),
        after.slots[bucket].jobs.contains(offset),
    ensures
        queue_index.index < slot_number(inner@.io, bucket, offset),
{
    let state = inner@;
    inner.lemma_sizes();
    let taken = choose|offset: int|
        {
            &&& #[trigger] state.is_next_job(bucket, offset)
            &&& !state.is_reserved(bucket, offset)
            &&& !state.is_orphaned(bucket, offset)
            &&& (queue_index, io_index) == state.job(bucket, offset)
            &&& after == state.jobs_taken(bucket, offset)
        };
    assert(state.slots[bucket].jobs.contains(taken));
    inner.lemma_job(bucket, taken);
}

/// The buckets that wait for a worker.
pub open spec fn waiting_buckets(slots: Seq<SlotView>) -> nat {
    counting::count(slots, |slot: SlotView| slot.enqueued && !slot.in_progress)
}

/// A wake-up reaches a worker: whichever job of a bucket is woken for the first time while the
/// bucket neither waits nor runs, a worker has to be woken. One more bucket waits exactly if a
/// wake-up is reported.
pub proof fn law_wake_ups_reach_a_worker<F, C>(state: InnerView<F, C>, index: int)
    requires
        0 <= index / state.io.slots() < state.slots.len(),
    ensures
        ({
            let bucket = index / state.io.slots();
            let offset = index % state.io.slots();
            let slot = state.slots[bucket];
            &&& !slot.enqueued && !slot.in_progress && !slot.jobs.contains(offset)
                ==> state.wakes_a_worker(index)
            &&& state.wakes_a_worker(index) ==> !slot.enqueued && !slot.in_progress
            &&& waiting_buckets(state.woken(index).slots) == waiting_buckets(state.slots) + if state.wakes_a_worker(
                index,
            ) {
                1int
            } else {
                0int
            }
        }),
{
    let bucket = index / state.io.slots();
    counting::lemma_count_update(
        state.slots,
        |slot: SlotView| slot.enqueued && !slot.in_progress,
        bucket,
        state.woken(index).slots[bucket],
    );
}

/// A woken job is remembered, and its bucket is enqueued unless the job was woken already. Nothing
/// else changes: no other job, no other bucket, and no request.
pub proof fn law_wake_ups_are_remembered<F, C>(state: InnerView<F, C>, index: int, other: int)
    requires
        0 <= index / state.io.slots() < state.slots.len(),
        0 <= other < state.slots.len(),
    ensures
        ({
            let bucket = index / state.io.slots();
            let offset = index % state.io.slots();
            let before = state.slots[bucket];
            let after = state.woken(index);
            &&& after.slots.len() == state.slots.len()
            &&& after.slots[bucket].jobs.contains(offset)
            &&& forall|o: int|
                o != offset ==> (#[trigger] after.slots[bucket].jobs.contains(o)
                    <==> before.jobs.contains(o))
            &&& after.slots[bucket].in_progress == before.in_progress
            &&& after.slots[bucket].enqueued <==> before.enqueued || !before.jobs.contains(offset)
            &&& other != bucket ==> after.slots[other] == state.slots[other]
            &&& after == (InnerView { slots: after.slots, ..state })
        }),
{
}

/// A job that ends drops what it ran, and nothing else; its bucket is kept in use by one job less.
pub proof fn law_ended_jobs_drop_only_their_own<F, C>(
    state: InnerView<F, C>,
    bucket: int,
    io_index: IoIndex,
)
    requires
        0 <= bucket < state.refcounts.len(),
        state.refcounts[bucket] > 0,
        match io_index {
            IoIndex::InputStream(input) => input.index < state.futures.len(),
            IoIndex::HttpConnection(connection) => connection.index < state.connections.len(),
            _ => false,
        },
    ensures
        ({
            let after = state.job_ended(io_index).released(bucket);
            &&& after.refcounts.len() == state.refcounts.len()
            &&& after.refcounts[bucket] == state.refcounts[bucket] - 1
            &&& forall|b: int|
                0 <= b < state.refcounts.len() && b != bucket ==> #[trigger] after.refcounts[b]
                    == state.refcounts[b]
            &&& after.futures.len() == state.futures.len()
            &&& forall|b: int|
                0 <= b < state.futures.len() ==> #[trigger] after.futures[b] == (if io_index
                    matches IoIndex::InputStream(input) && input.index == b {
                    None
                } else {
                    state.futures[b]
                })
            &&& after.connections.len() == state.connections.len()
            &&& forall|i: int|
                0 <= i < state.connections.len() ==> #[trigger] after.connections[i] == (
                if io_index matches IoIndex::HttpConnection(connection) && connection.index == i {
                    Slot::Empty
                } else {
                    state.connections[i]
                })
            &&& after.tcp_streams == state.tcp_streams
            &&& after.slots == state.slots
            &&& after.io == state.io
            &&& after.next_identifier == state.next_identifier
        }),
{
}

/// Wiping the memory of a bucket makes all of it available again, at the same place, and leaves
/// the memory of the other buckets alone.
pub proof fn law_wiping_frees_one_bucket(
    before: ServerAlloc,
    after: ServerAlloc,
    bucket: int,
    other: int,
)
    requires
        0 <= bucket < before.buckets().len(),
        0 <= other < before.buckets().len(),
        memory_wiped(before, after, bucket),
    ensures
        after.buckets().len() == before.buckets().len(),
        after.buckets()[bucket].start == before.buckets()[bucket].start,
        after.buckets()[bucket].size == before.buckets()[bucket].size,
        after.buckets()[bucket].remaining == before.buckets()[bucket].size,
        other != bucket ==> after.buckets()[other] == before.buckets()[other],
{
}

/// A cancelled request leaves nothing behind: its future and all its connections are gone, and its
/// bucket is free. Its socket and its woken jobs stay, and so does everything else.
pub proof fn law_cancelling_empties_the_bucket<F, C>(state: InnerView<F, C>, bucket: int, i: int)
    requires
        0 <= bucket < state.refcounts.len() <= state.futures.len(),
        0 <= i < state.connections.len(),
    ensures
        ({
            let after = state.cleaned_up(bucket);
            let width = state.io.http_connections as int;
            &&& after.refcounts[bucket] == 0
            &&& after.futures[bucket] is None
            &&& after.connections.len() == state.connections.len()
            &&& after.connections[i] == if bucket * width <= i < bucket * width + width {
                Slot::Empty
            } else {
                state.connections[i]
            }
            &&& forall|b: int|
                0 <= b < state.refcounts.len() && b != bucket ==> #[trigger] after.refcounts[b]
                    == state.refcounts[b]
            &&& forall|b: int|
                0 <= b < state.futures.len() && b != bucket ==> #[trigger] after.futures[b]
                    == state.futures[b]
            &&& after.refcounts.len() == state.refcounts.len()
            &&& after.futures.len() == state.futures.len()
            &&& after.tcp_streams == state.tcp_streams
            &&& after.slots == state.slots
            &&& after.io == state.io
            &&& after.next_identifier == state.next_identifier
        }),
{
    lemma_ranges(state.refcounts.len() as int, state.io.http_connections as int, bucket);
}

/// A connection that is opened keeps its bucket in use, unless the request is over already. It
/// gets the first empty place of its own bucket.
pub proof fn law_connections_get_a_place_of_their_bucket<F, C>(
    state: InnerView<F, C>,
    bucket: int,
    i: int,
    j: int,
)
    requires
        0 <= bucket < state.refcounts.len(),
        state.refcounts[bucket] < u8::MAX,
    ensures
        ({
            let width = state.io.http_connections as int;
            let after = state.retained(bucket);
            &&& after == (InnerView { refcounts: after.refcounts, ..state })
            &&& after.refcounts.len() == state.refcounts.len()
            &&& after.refcounts[bucket] == if state.refcounts[bucket] == 0 {
                0
            } else {
                state.refcounts[bucket] + 1
            }
            &&& forall|b: int|
                0 <= b < state.refcounts.len() && b != bucket ==> #[trigger] after.refcounts[b]
                    == state.refcounts[b]
            &&& state.is_first_empty_connection(bucket, i) ==> bucket * width <= i < bucket * width
                + width && state.connections[i] is Empty
            &&& state.is_first_empty_connection(bucket, i) && bucket * width <= j < bucket * width
                + width && state.connections[j] is Empty ==> i <= j
            &&& bucket * width <= j < bucket * width + width <==> state.is_connection_of(bucket, j)
        }),
{
    lemma_ranges(state.refcounts.len() as int, state.io.http_connections as int, bucket);
}

/// A new executor holds nothing: all buckets are free, and no job was woken.
pub proof fn law_new_executors_hold_nothing<F, C>(bucket_count: nat, io: IoResources)
    requires
        io.wf(),
    ensures
        ({
            let state = InnerView::<F, C>::fresh(bucket_count, io);
            &&& state.io == io
            &&& state.next_identifier == 0
            &&& forall|b: int| 0 <= b < bucket_count ==> #[trigger] state.tcp_streams[b] == 0
            &&& state.refcounts.len() == bucket_count
            &&& state.tcp_streams.len() == bucket_count
            &&& state.slots.len() == bucket_count
            &&& state.connections.len() == bucket_count * io.http_connections
            &&& state.futures.len() == bucket_count * io.slots()
            &&& forall|b: int| 0 <= b < bucket_count ==> #[trigger] state.refcounts[b] == 0
            &&& forall|b: int|
                0 <= b < state.futures.len() ==> #[trigger] state.futures[b] == None::<F>
            &&& forall|i: int|
                0 <= i < state.connections.len() ==> #[trigger] state.connections[i] is Empty
            &&& forall|b: int|
                0 <= b < bucket_count ==> !(#[trigger] state.slots[b]).enqueued
                    && !state.slots[b].in_progress && state.slots[b].jobs == Set::<int>::empty()
        }),
{
    assert(0 <= bucket_count * io.http_connections && 0 <= bucket_count * io.slots())
        by (nonlinear_arith)
        requires
            0 <= bucket_count,
            0 <= io.http_connections,
            0 <= io.slots(),
    ;
}

/// Nothing is reported without a cause: a request is cancelled only if its input stream was woken
/// and its future is gone, and then its own client is told; a connection is reported as being set
/// up only if its job was woken and it is. Either way the job was taken.
pub proof fn law_reports_have_a_cause<F, C>(
    inner: Inner<F, C>,
    bucket: int,
    action: BucketAction,
    after: InnerView<F, C>,
)
    requires
        inner.wf(),
        0 <= bucket < inner@.refcounts.len(),
        inner@.next_action(bucket, action, after),
    ensures
        action matches BucketAction::SendError { fd, reason } ==> {
            &&& reason is Panic
            &&& fd == inner@.tcp_streams[bucket]
            &&& inner@.slots[bucket].jobs.contains(0)
            &&& inner@.futures[bucket] is None
            &&& !after.slots[bucket].jobs.contains(0)
        },
        action matches BucketAction::ReservedConnection(connection) ==> exists|offset: int|
            {
                &&& #[trigger] inner@.slots[bucket].jobs.contains(offset)
                &&& offset != 0
                &&& connection.index == connection_place(inner@.io, bucket, offset)
                &&& inner@.connections[connection.index as int] is Reserved
                &&& !after.slots[bucket].jobs.contains(offset)
            },
{
    let state = inner@;
    inner.lemma_sizes();
    match action {
        BucketAction::SendError { fd, reason } => {
            let taken = choose|offset: int|
                {
                    &&& #[trigger] state.is_next_job(bucket, offset)
                    &&& state.is_orphaned(bucket, offset)
                    &&& fd == state.tcp_streams[bucket]
                    &&& reason == CleanupReason::Panic
                    &&& after == state.jobs_taken(bucket, offset)
                };
            assert(state.slots[bucket].jobs.contains(taken));
            inner.lemma_job(bucket, taken);
        },
        BucketAction::ReservedConnection(connection) => {
            let taken = choose|offset: int|
                {
                    &&& #[trigger] state.is_next_job(bucket, offset)
                    &&& state.is_reserved(bucket, offset)
                    &&& state.job(bucket, offset).1 == IoIndex::HttpConnection(connection)
                    &&& after == state.jobs_taken(bucket, offset)
                };
            assert(state.slots[bucket].jobs.contains(taken));
            inner.lemma_job(bucket, taken);
        },
        _ => {},
    }
}

/// A request gets the lowest bucket that no job keeps in use, and is refused exactly if there is
/// none.
pub proof fn law_the_lowest_free_bucket_is_claimed(refcounts: Seq<u8>, bucket: int, other: int)
    requires
        0 <= other < refcounts.len(),
    ensures
        is_first_free(refcounts, bucket) ==> 0 <= bucket < refcounts.len() && refcounts[bucket]
            == 0,
        refcounts[other] == 0 ==> !all_in_use(refcounts) && (is_first_free(refcounts, bucket)
            ==> bucket <= other),
        !all_in_use(refcounts) ==> refcounts.contains(0),
{
}

/// The input stream and every connection of a bucket can have a job, as far as a slot of the queue
/// has a bit for them; what is set aside for other streams cannot, nor can an HTTP/2 future.
pub proof fn law_streams_and_connections_have_jobs(io: IoResources, offset: int)
    ensures
        io.tcp_streams + io.http_connections > 0 ==> is_job_offset(io, 0),
        io.tcp_streams <= offset < io.tcp_streams + io.http_connections && offset < 64
            ==> is_job_offset(io, offset),
        0 < offset < io.tcp_streams ==> !is_job_offset(io, offset),
        io.tcp_streams + io.http_connections <= offset ==> !is_job_offset(io, offset),
        offset < 0 || 64 <= offset ==> !is_job_offset(io, offset),
{
}

/// A job that was polled is one of the bucket that ran: the input stream of the bucket, or one of
/// its connections.
pub proof fn law_buckets_own_their_jobs<F, C>(state: InnerView<F, C>, bucket: int)
    requires
        0 <= bucket < state.refcounts.len(),
    ensures
        forall|input: BucketIndex| #[trigger]
            state.is_job_of(bucket, IoIndex::InputStream(input)) <==> input.index == bucket,
        forall|connection: ConnectionIndex| #[trigger]
            state.is_job_of(bucket, IoIndex::HttpConnection(connection)) <==> bucket
                * state.io.http_connections <= connection.index < bucket * state.io.http_connections
                + state.io.http_connections,
        forall|future: Http2FutureIndex| !(#[trigger] state.is_job_of(
            bucket,
            IoIndex::Http2Future(future),
        )),
{
    lemma_ranges(state.refcounts.len() as int, state.io.http_connections as int, bucket);
}

/// A bucket can always begin, and its client can always have been told. A job of the bucket can
/// always stay pending or run out of memory; it can end only if it is there and keeps the bucket in
/// use, and a panic is caught in the input stream only.
pub proof fn law_possible_events<F, C>(
    state: InnerView<F, C>,
    bucket: int,
    input: BucketIndex,
    connection: ConnectionIndex,
    reason: CleanupReason,
)
    requires
        0 <= bucket < state.refcounts.len() <= state.futures.len(),
        input.index == bucket,
        bucket * state.io.http_connections <= connection.index < bucket * state.io.http_connections
            + state.io.http_connections <= state.connections.len(),
    ensures
        state.can_happen(bucket, BucketEvent::Begin),
        state.can_happen(bucket, BucketEvent::ErrorSent(reason)),
        ({
            let stream = IoIndex::InputStream(input);
            let other = IoIndex::HttpConnection(connection);
            let happens = |io_index: IoIndex, result: JobResult|
                state.can_happen(bucket, BucketEvent::Polled { io_index, result });
            &&& happens(stream, JobResult::Pending) && happens(other, JobResult::Pending)
            &&& happens(stream, JobResult::OutOfMemory) && happens(other, JobResult::OutOfMemory)
            &&& happens(stream, JobResult::Panicked) && !happens(other, JobResult::Panicked)
            &&& happens(stream, JobResult::Ready) <==> state.futures[bucket] is Some
                && state.refcounts[bucket] > 0
            &&& happens(other, JobResult::Ready) <==> state.connections[connection.index as int]
                is Occupied && state.refcounts[bucket] > 0
        }),
{
    lemma_ranges(state.refcounts.len() as int, state.io.http_connections as int, bucket);
}

} // verus!
