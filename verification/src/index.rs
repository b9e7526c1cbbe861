//! The numbering of queue slots.
//!
//! A bucket owns a fixed number of consecutive queue slots. Inside a bucket the slots are laid
//! out as first the TCP streams (slot zero is the input stream of the request), then the HTTP
//! connections, then the HTTP/2 futures.
use std::ops::Range;
use vstd::arithmetic::div_mod;
use vstd::prelude::*;

verus! {

/// How many I/O objects of each kind a bucket can hold.
#[derive(Debug, Clone, Copy, PartialEq, Eq, Structural)]
pub struct IoResources {
    pub tcp_streams: usize,
    pub http_connections: usize,
    pub http2_futures: usize,
}

#[derive(Debug, Clone, Copy, PartialEq, Eq, Structural)]
pub struct ConnectionIndex {
    pub identifier: u32,
    pub index: u32,
}

#[derive(Debug, Clone, Copy, PartialEq, Eq, Structural)]
pub struct Http2FutureIndex {
    pub identifier: u32,
    pub index: u32,
}

#[derive(Debug, Clone, Copy, PartialEq, Eq, Structural)]
pub struct BucketIndex {
    pub identifier: u32,
    pub index: u32,
}

#[derive(Debug, Clone, Copy, PartialEq, Eq, Structural)]
pub struct QueueIndex {
    pub identifier: u32,
    pub index: u32,
}

/// What a queue slot stands for.
#[derive(Debug, Clone, Copy, PartialEq, Eq, Structural)]
pub enum IoIndex {
    /// The input stream of a bucket.
    InputStream(BucketIndex),
    CustomStream(usize),
    /// An index into the global vector of HTTP connections.
    HttpConnection(ConnectionIndex),
    /// An index into the global vector of HTTP/2 futures.
    Http2Future(Http2FutureIndex),
}

impl IoResources {
    /// The number of queue slots of one bucket.
    pub open spec fn slots(self) -> int {
        self.tcp_streams + self.http_connections + self.http2_futures
    }

    /// A bucket has at least one slot, and its slots can be numbered with 32 bits.
    pub open spec fn wf(self) -> bool {
        1 <= self.slots() <= u32::MAX
    }

    /// The bucket that the queue slot `index` belongs to.
    pub open spec fn bucket_of(self, index: int) -> int {
        index / self.slots()
    }

    /// The place of the queue slot `index` inside its bucket.
    pub open spec fn offset_of(self, index: int) -> int {
        index % self.slots()
    }

    #[inline]
    pub fn per_bucket(self) -> (count: usize)
        requires
            self.slots() <= usize::MAX,
        ensures
            count == self.slots(),
    {
        self.tcp_streams + self.http_connections + self.http2_futures
    }

    /// The HTTP connections of a bucket, as a range of the global vector of connections.
    pub fn http_connections(self, bucket_index: BucketIndex) -> (range: Range<usize>)
        requires
            (bucket_index.index + 1) * self.http_connections <= usize::MAX,
        ensures
            range.start == bucket_index.index * self.http_connections,
            range.end == (bucket_index.index + 1) * self.http_connections,
    {
        proof {
            lemma_one_more(bucket_index.index as int, self.http_connections as int);
        }
        let start: usize = bucket_index.index as usize * self.http_connections;
        start..(start + self.http_connections)
    }

    /// The HTTP/2 futures of a bucket, as a range of the global vector of futures.
    pub fn http2_futures(self, bucket_index: BucketIndex) -> (range: Range<usize>)
        requires
            (bucket_index.index + 1) * self.http2_futures <= usize::MAX,
        ensures
            range.start == bucket_index.index * self.http2_futures,
            range.end == (bucket_index.index + 1) * self.http2_futures,
    {
        proof {
            lemma_one_more(bucket_index.index as int, self.http2_futures as int);
        }
        let start: usize = bucket_index.index as usize * self.http2_futures;
        start..(start + self.http2_futures)
    }

    /// The queue slots of a bucket.
    pub fn queue_slots(self, bucket_index: BucketIndex) -> (range: Range<usize>)
        requires
            self.slots() <= usize::MAX,
            (bucket_index.index + 1) * self.slots() <= usize::MAX,
        ensures
            range.start == bucket_index.index * self.slots(),
            range.end == (bucket_index.index + 1) * self.slots(),
    {
        proof {
            lemma_one_more(bucket_index.index as int, self.slots());
        }
        let start: usize = bucket_index.index as usize * self.per_bucket();
        start..(start + self.per_bucket())
    }
}

impl Default for IoResources {
    fn default() -> (resources: Self)
        ensures
            resources == (IoResources { tcp_streams: 1, http_connections: 0, http2_futures: 0 }),
    {
        IoResources { tcp_streams: 1, http_connections: 0, http2_futures: 0 }
    }
}

impl QueueIndex {
    /// The queue slot of the input stream of a bucket.
    pub open spec fn of_bucket(io: IoResources, bucket: BucketIndex) -> int {
        bucket.index * io.slots()
    }

    /// The queue slot of an HTTP connection.
    pub open spec fn of_connection(io: IoResources, connection: ConnectionIndex) -> int {
        connection.index as int / io.http_connections as int * io.slots() + io.tcp_streams
            + connection.index as int % io.http_connections as int
    }

    /// The queue slot of an HTTP/2 future.
    pub open spec fn of_http2_future(io: IoResources, future: Http2FutureIndex) -> int {
        future.index as int / io.http2_futures as int * io.slots() + io.tcp_streams
            + io.http_connections + future.index as int % io.http2_futures as int
    }

    /// The connection that a queue slot stands for.
    pub open spec fn connection_of(io: IoResources, index: int) -> int {
        io.bucket_of(index) * io.http_connections + (io.offset_of(index) - io.tcp_streams)
    }

    /// The HTTP/2 future that a queue slot stands for.
    pub open spec fn http2_future_of(io: IoResources, index: int) -> int {
        io.bucket_of(index) * io.http2_futures + (io.offset_of(index) - io.tcp_streams
            - io.http_connections)
    }

    pub fn to_bucket_index(&self, io_resources: IoResources) -> (bucket: BucketIndex)
        requires
            io_resources.wf(),
        ensures
            bucket.identifier == self.identifier,
            bucket.index == io_resources.bucket_of(self.index as int),
    {
        BucketIndex {
            identifier: self.identifier,
            index: self.index / (io_resources.per_bucket() as u32),
        }
    }

    /// The slot must lie behind the TCP streams of its bucket.
    pub fn to_connection_index(&self, io_resources: IoResources) -> (connection: ConnectionIndex)
        requires
            io_resources.wf(),
            io_resources.offset_of(self.index as int) >= io_resources.tcp_streams,
        ensures
            connection.identifier == self.identifier,
            connection.index == QueueIndex::connection_of(io_resources, self.index as int),
    {
        let per_bucket: u32 = io_resources.per_bucket() as u32;
        let bucket_index: u32 = self.index / per_bucket;
        let connection: u32 = self.index % per_bucket - io_resources.tcp_streams as u32;
        proof {
            lemma_part_fits(
                self.index as int,
                per_bucket as int,
                io_resources.http_connections as int,
                io_resources.tcp_streams as int,
            );
        }
        ConnectionIndex {
            identifier: self.identifier,
            index: bucket_index * (io_resources.http_connections as u32) + connection,
        }
    }

    /// The slot must lie behind the TCP streams and HTTP connections of its bucket.
    pub fn to_http2_future_index(&self, io_resources: IoResources) -> (future: Http2FutureIndex)
        requires
            io_resources.wf(),
            io_resources.offset_of(self.index as int) >= io_resources.tcp_streams
                + io_resources.http_connections,
        ensures
            future.identifier == self.identifier,
            future.index == QueueIndex::http2_future_of(io_resources, self.index as int),
    {
        let per_bucket: u32 = io_resources.per_bucket() as u32;
        let bucket_index: u32 = self.index / per_bucket;
        let connection: u32 = self.index % per_bucket - (io_resources.tcp_streams
            + io_resources.http_connections) as u32;
        proof {
            lemma_part_fits(
                self.index as int,
                per_bucket as int,
                io_resources.http2_futures as int,
                io_resources.tcp_streams + io_resources.http_connections,
            );
        }
        Http2FutureIndex {
            identifier: self.identifier,
            index: bucket_index * (io_resources.http2_futures as u32) + connection,
        }
    }

    pub fn from_bucket_index(io_resources: IoResources, bucket_index: BucketIndex) -> (queue_index:
        Self)
        requires
            io_resources.slots() <= u32::MAX,
            QueueIndex::of_bucket(io_resources, bucket_index) <= u32::MAX,
        ensures
            queue_index.identifier == bucket_index.identifier,
            queue_index.index == QueueIndex::of_bucket(io_resources, bucket_index),
    {
        Self {
            identifier: bucket_index.identifier,
            index: bucket_index.index * (io_resources.per_bucket() as u32),
        }
    }

    pub fn from_connection_index(
        io_resources: IoResources,
        connection_index: ConnectionIndex,
    ) -> (queue_index: Self)
        requires
            io_resources.wf(),
            io_resources.http_connections > 0,
            QueueIndex::of_connection(io_resources, connection_index) <= u32::MAX,
        ensures
            queue_index.identifier == connection_index.identifier,
            queue_index.index == QueueIndex::of_connection(io_resources, connection_index),
    {
        let per_bucket: u32 = io_resources.per_bucket() as u32;
        let bucket_index: u32 = connection_index.index / (io_resources.http_connections as u32);
        let connection: u32 = connection_index.index % (io_resources.http_connections as u32);
        proof {
            lemma_product_nonnegative(bucket_index as int, per_bucket as int);
        }
        let queue_index: u32 = bucket_index * per_bucket + io_resources.tcp_streams as u32
            + connection;

        Self { identifier: connection_index.identifier, index: queue_index }
    }

    pub fn from_http2_future_index(
        io_resources: IoResources,
        connection_index: Http2FutureIndex,
    ) -> (queue_index: Self)
        requires
            io_resources.wf(),
            io_resources.http2_futures > 0,
            QueueIndex::of_http2_future(io_resources, connection_index) <= u32::MAX,
        ensures
            queue_index.identifier == connection_index.identifier,
            queue_index.index == QueueIndex::of_http2_future(io_resources, connection_index),
    {
        let per_bucket: u32 = io_resources.per_bucket() as u32;
        let bucket_index: u32 = connection_index.index / (io_resources.http2_futures as u32);
        let connection: u32 = connection_index.index % (io_resources.http2_futures as u32);
        proof {
            lemma_product_nonnegative(bucket_index as int, per_bucket as int);
        }
        let queue_index: u32 = bucket_index * per_bucket + io_resources.tcp_streams as u32
            + io_resources.http_connections as u32 + connection;

        Self { identifier: connection_index.identifier, index: queue_index }
    }

    /// The machine word that carries this index through a waker: the slot number in the low half,
    /// the identifier in the high half.
    pub open spec fn word(self) -> int {
        self.identifier * 0x1_0000_0000 + self.index
    }

    /// Packs the index into one machine word of 64 bits.
    pub fn to_usize(self) -> (word: usize)
        requires
            usize::BITS == 64,
        ensures
            word == self.word(),
    {
        (self.identifier as u64 * 0x1_0000_0000u64 + self.index as u64) as usize
    }

    /// Unpacks what [`QueueIndex::to_usize`] packed.
    pub fn from_usize(word: usize) -> (queue_index: Self)
        requires
            usize::BITS == 64,
        ensures
            queue_index.word() == word,
    {
        let word: u64 = word as u64;
        Self { identifier: (word / 0x1_0000_0000u64) as u32, index: (word % 0x1_0000_0000u64) as u32 }
    }
}

impl IoIndex {
    /// Slots that are set aside for further TCP streams stand for nothing.
    pub open spec fn is_unassigned(resources: IoResources, index: int) -> bool {
        1 <= resources.offset_of(index) < resources.tcp_streams
    }

    /// What a queue slot stands for: slot zero of a bucket is its input stream, the slots behind
    /// the TCP streams are HTTP connections, and those behind the connections HTTP/2 futures.
    pub open spec fn meaning(resources: IoResources, queue_index: QueueIndex) -> IoIndex {
        let index = queue_index.index as int;
        let offset = resources.offset_of(index);
        let identifier = queue_index.identifier;
        if offset == 0 {
            IoIndex::InputStream(
                BucketIndex { identifier, index: resources.bucket_of(index) as u32 },
            )
        } else if offset < resources.tcp_streams + resources.http_connections {
            IoIndex::HttpConnection(
                ConnectionIndex {
                    identifier,
                    index: QueueIndex::connection_of(resources, index) as u32,
                },
            )
        } else {
            IoIndex::Http2Future(
                Http2FutureIndex {
                    identifier,
                    index: QueueIndex::http2_future_of(resources, index) as u32,
                },
            )
        }
    }

    pub fn from_index(resources: IoResources, queue_index: QueueIndex) -> (io_index: Self)
        requires
            resources.wf(),
            !IoIndex::is_unassigned(resources, queue_index.index as int),
        ensures
            io_index == IoIndex::meaning(resources, queue_index),
    {
        let offset: u32 = queue_index.index % (resources.per_bucket() as u32);
        let http_connections_end: usize = resources.tcp_streams + resources.http_connections;

        if offset == 0 {
            IoIndex::InputStream(queue_index.to_bucket_index(resources))
        } else if (offset as usize) < http_connections_end {
            IoIndex::HttpConnection(queue_index.to_connection_index(resources))
        } else {
            IoIndex::Http2Future(queue_index.to_http2_future_index(resources))
        }
    }
}

proof fn lemma_one_more(n: int, width: int)
    by (nonlinear_arith)
    requires
        n >= 0,
        width >= 0,
    ensures
        n * width + width == (n + 1) * width,
        0 <= n * width <= (n + 1) * width,
{
}

pub(crate) proof fn lemma_product_nonnegative(a: int, b: int)
    by (nonlinear_arith)
    requires
        a >= 0,
        b >= 0,
    ensures
        a * b >= 0,
{
}

/// An index in a table with `part` entries per bucket is no larger than the queue index that it
/// comes from, because `part` is no larger than a whole bucket.
proof fn lemma_part_fits(index: int, per_bucket: int, part: int, before: int)
    requires
        index >= 0,
        0 <= part,
        0 <= before,
        0 < per_bucket,
        part + before <= per_bucket,
    ensures
        0 <= index / per_bucket * part,
        index / per_bucket * part + (index % per_bucket - before) <= index,
{
    div_mod::lemma_fundamental_div_mod(index, per_bucket);
    let bucket = index / per_bucket;
    assert(bucket >= 0) by (nonlinear_arith)
        requires
            bucket == index / per_bucket,
            index >= 0,
            per_bucket > 0,
    ;
    assert(0 <= bucket * part <= per_bucket * bucket) by (nonlinear_arith)
        requires
            bucket >= 0,
            0 <= part <= per_bucket,
    ;
}

/// The bucket and offset of a slot number are determined by the place it was computed from.
pub(crate) proof fn lemma_slot_parts(io: IoResources, bucket: int, offset: int)
    requires
        io.wf(),
        0 <= offset < io.slots(),
    ensures
        io.bucket_of(bucket * io.slots() + offset) == bucket,
        io.offset_of(bucket * io.slots() + offset) == offset,
{
    div_mod::lemma_fundamental_div_mod_converse(bucket * io.slots() + offset, io.slots(), bucket, offset);
}

/// Going from a bucket to its queue slot and back gives the bucket again.
pub proof fn law_bucket_round_trip(io: IoResources, bucket: BucketIndex)
    requires
        io.wf(),
    ensures
        io.bucket_of(QueueIndex::of_bucket(io, bucket)) == bucket.index,
        io.offset_of(QueueIndex::of_bucket(io, bucket)) == 0,
{
    lemma_slot_parts(io, bucket.index as int, 0);
}

/// Going from a connection to its queue slot and back gives the connection again.
pub proof fn law_connection_round_trip(io: IoResources, connection: ConnectionIndex)
    requires
        io.wf(),
        io.http_connections > 0,
    ensures
        QueueIndex::connection_of(io, QueueIndex::of_connection(io, connection))
            == connection.index,
        io.bucket_of(QueueIndex::of_connection(io, connection)) == connection.index as int
            / io.http_connections as int,
        io.tcp_streams <= io.offset_of(QueueIndex::of_connection(io, connection))
            < io.tcp_streams + io.http_connections,
{
    let per = io.http_connections as int;
    div_mod::lemma_fundamental_div_mod(connection.index as int, per);
    let bucket = connection.index as int / per;
    let within = connection.index as int % per;
    lemma_slot_parts(io, bucket, io.tcp_streams + within);
    assert(bucket * per == per * bucket) by (nonlinear_arith);
}

/// Going from an HTTP/2 future to its queue slot and back gives the future again.
pub proof fn law_http2_future_round_trip(io: IoResources, future: Http2FutureIndex)
    requires
        io.wf(),
        io.http2_futures > 0,
    ensures
        QueueIndex::http2_future_of(io, QueueIndex::of_http2_future(io, future)) == future.index,
        io.bucket_of(QueueIndex::of_http2_future(io, future)) == future.index as int
            / io.http2_futures as int,
        io.tcp_streams + io.http_connections <= io.offset_of(
            QueueIndex::of_http2_future(io, future),
        ) < io.slots(),
{
    let per = io.http2_futures as int;
    div_mod::lemma_fundamental_div_mod(future.index as int, per);
    let bucket = future.index as int / per;
    let within = future.index as int % per;
    lemma_slot_parts(io, bucket, io.tcp_streams + io.http_connections + within);
    assert(bucket * per == per * bucket) by (nonlinear_arith);
}

/// A queue slot of a connection is found again from the connection that it stands for.
pub proof fn law_queue_connection_round_trip(io: IoResources, index: u32, connection:
    ConnectionIndex)
    requires
        io.wf(),
        io.tcp_streams <= io.offset_of(index as int) < io.tcp_streams + io.http_connections,
        connection.index == QueueIndex::connection_of(io, index as int),
    ensures
        QueueIndex::of_connection(io, connection) == index,
{
    let per = io.http_connections as int;
    let bucket = io.bucket_of(index as int);
    let within = io.offset_of(index as int) - io.tcp_streams;
    div_mod::lemma_fundamental_div_mod_converse(bucket * per + within, per, bucket, within);
    div_mod::lemma_fundamental_div_mod(index as int, io.slots());
    assert(io.slots() * bucket == bucket * io.slots()) by (nonlinear_arith);
}

/// A queue slot of an HTTP/2 future is found again from the future that it stands for.
pub proof fn law_queue_http2_future_round_trip(io: IoResources, index: u32, future:
    Http2FutureIndex)
    requires
        io.wf(),
        io.tcp_streams + io.http_connections <= io.offset_of(index as int),
        future.index == QueueIndex::http2_future_of(io, index as int),
    ensures
        QueueIndex::of_http2_future(io, future) == index,
{
    let per = io.http2_futures as int;
    let bucket = io.bucket_of(index as int);
    let within = io.offset_of(index as int) - (io.tcp_streams + io.http_connections);
    div_mod::lemma_fundamental_div_mod(index as int, io.slots());
    assert(0 <= io.offset_of(index as int) < io.slots());
    div_mod::lemma_fundamental_div_mod_converse(bucket * per + within, per, bucket, within);
    assert(io.slots() * bucket == bucket * io.slots()) by (nonlinear_arith);
}

/// The queue slot of a bucket stands for the input stream of that bucket.
pub proof fn law_bucket_slot_is_input_stream(io: IoResources, queue_index: QueueIndex, bucket:
    BucketIndex)
    requires
        io.wf(),
        queue_index.index == QueueIndex::of_bucket(io, bucket),
        queue_index.identifier == bucket.identifier,
    ensures
        !IoIndex::is_unassigned(io, queue_index.index as int),
        IoIndex::meaning(io, queue_index) == IoIndex::InputStream(bucket),
{
    law_bucket_round_trip(io, bucket);
}

/// The queue slot of a connection stands for that connection, as long as slot zero of a bucket
/// is set aside for its input stream.
pub proof fn law_connection_slot_is_connection(
    io: IoResources,
    queue_index: QueueIndex,
    connection: ConnectionIndex,
)
    requires
        io.wf(),
        io.tcp_streams > 0,
        io.http_connections > 0,
        queue_index.index == QueueIndex::of_connection(io, connection),
        queue_index.identifier == connection.identifier,
    ensures
        !IoIndex::is_unassigned(io, queue_index.index as int),
        IoIndex::meaning(io, queue_index) == IoIndex::HttpConnection(connection),
{
    law_connection_round_trip(io, connection);
}

/// The queue slot of an HTTP/2 future stands for that future, as long as slot zero of a bucket
/// is set aside for its input stream.
pub proof fn law_http2_future_slot_is_http2_future(
    io: IoResources,
    queue_index: QueueIndex,
    future: Http2FutureIndex,
)
    requires
        io.wf(),
        io.tcp_streams > 0,
        io.http2_futures > 0,
        queue_index.index == QueueIndex::of_http2_future(io, future),
        queue_index.identifier == future.identifier,
    ensures
        !IoIndex::is_unassigned(io, queue_index.index as int),
        IoIndex::meaning(io, queue_index) == IoIndex::Http2Future(future),
{
    law_http2_future_round_trip(io, future);
}

/// The queue slots of two buckets never overlap, and a slot lies in exactly the range of its
/// bucket.
pub proof fn law_buckets_partition_the_slots(io: IoResources, index: u32, bucket: BucketIndex)
    requires
        io.wf(),
    ensures
        bucket.index * io.slots() <= index < (bucket.index + 1) * io.slots() <==> io.bucket_of(
            index as int,
        ) == bucket.index,
{
    let n = io.slots();
    let b = bucket.index as int;
    div_mod::lemma_fundamental_div_mod(index as int, n);
    lemma_one_more(b, n);
    if b * n <= index < (b + 1) * n {
        lemma_slot_parts(io, b, index - b * n);
    }
    if io.bucket_of(index as int) == b {
        assert(n * b == b * n) by (nonlinear_arith);
    }
}

/// An index survives the trip through a machine word, in both directions, and two different
/// indices never share a word.
pub proof fn law_word_round_trip(a: QueueIndex, b: QueueIndex)
    ensures
        a.word() == b.word() <==> a == b,
        0 <= a.word() <= u64::MAX,
{
}

/// The queue slots of a bucket follow each other: the input stream, the slots that are set aside for
/// further TCP streams, the HTTP connections of the bucket in their order, and its HTTP/2 futures in
/// theirs.
pub proof fn law_slots_are_laid_out_in_order(
    io: IoResources,
    identifier: u32,
    bucket: int,
    offset: int,
)
    requires
        io.wf(),
        0 <= bucket,
        0 <= offset < io.tcp_streams + io.http_connections + io.http2_futures,
        bucket * (io.tcp_streams + io.http_connections + io.http2_futures) + offset <= u32::MAX,
    ensures
        ({
            let streams = io.tcp_streams as int;
            let connections = io.http_connections as int;
            let number = bucket * (streams + connections + io.http2_futures) + offset;
            let meaning = IoIndex::meaning(io, QueueIndex { identifier, index: number as u32 });
            &&& io.bucket_of(number) == bucket
            &&& io.offset_of(number) == offset
            &&& IoIndex::is_unassigned(io, number) <==> 0 < offset < streams
            &&& offset == 0 ==> (meaning matches IoIndex::InputStream(index) && index.index
                == bucket && index.identifier == identifier)
            &&& 0 < offset && streams <= offset < streams + connections ==> (
            meaning matches IoIndex::HttpConnection(index) && index.index == bucket * connections
                + (offset - streams) && index.identifier == identifier)
            &&& 0 < offset && streams + connections <= offset ==> (
            meaning matches IoIndex::Http2Future(index) && index.index == bucket * io.http2_futures
                + (offset - streams - connections) && index.identifier == identifier)
        }),
{
    let number = bucket * io.slots() + offset;
    lemma_slot_parts(io, bucket, offset);
    div_mod::lemma_fundamental_div_mod(number, io.slots());
    lemma_part_fits(number, io.slots(), io.http_connections as int, io.tcp_streams as int);
    lemma_part_fits(
        number,
        io.slots(),
        io.http2_futures as int,
        io.tcp_streams + io.http_connections,
    );
    assert(bucket <= bucket * io.slots()) by (nonlinear_arith)
        requires
            bucket >= 0,
            io.slots() >= 1,
    ;
}

/// Buckets, connections and futures have the slots that the layout of a bucket gives them.
pub proof fn law_slots_are_found_by_bucket_and_place(
    io: IoResources,
    identifier: u32,
    bucket: u32,
    place: int,
)
    requires
        io.wf(),
        0 <= place,
    ensures
        ({
            let slots = io.tcp_streams + io.http_connections + io.http2_futures;
            &&& QueueIndex::of_bucket(io, BucketIndex { identifier, index: bucket }) == bucket
                * slots
            &&& place < io.http_connections && bucket * io.http_connections + place <= u32::MAX
                ==> QueueIndex::of_connection(
                io,
                ConnectionIndex {
                    identifier,
                    index: (bucket * io.http_connections + place) as u32,
                },
            ) == bucket * slots + io.tcp_streams + place
            &&& place < io.http2_futures && bucket * io.http2_futures + place <= u32::MAX
                ==> QueueIndex::of_http2_future(
                io,
                Http2FutureIndex {
                    identifier,
                    index: (bucket * io.http2_futures + place) as u32,
                },
            ) == bucket * slots + io.tcp_streams + io.http_connections + place
        }),
{
    lemma_product_nonnegative(bucket as int, io.http_connections as int);
    lemma_product_nonnegative(bucket as int, io.http2_futures as int);
    if place < io.http_connections {
        div_mod::lemma_fundamental_div_mod_converse(
            bucket * io.http_connections + place,
            io.http_connections as int,
            bucket as int,
            place,
        );
    }
    if place < io.http2_futures {
        div_mod::lemma_fundamental_div_mod_converse(
            bucket * io.http2_futures + place,
            io.http2_futures as int,
            bucket as int,
            place,
        );
    }
}

/// A word holds both halves of an index, apart from each other.
pub proof fn law_words_hold_both_halves(queue_index: QueueIndex)
    ensures
        queue_index.word() % 0x1_0000_0000 == queue_index.index,
        queue_index.word() / 0x1_0000_0000 == queue_index.identifier,
{
}

} // verus!
