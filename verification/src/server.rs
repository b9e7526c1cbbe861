//! A server whose workers handle one request after the other.
use crate::executor;
use crate::shared::allocator::ServerAlloc;
use crate::shared::indexer;
use crate::shared::indexer::Indexer;
use vstd::prelude::*;
use vstd::string::StrSliceExecFns;
use vstd::utf8;

verus! {

/// How many accepted connections wait for a worker at most.
pub const QUEUE_SIZE: usize = 16;

pub const NUMBER_OF_BUCKETS: usize = 64;

pub const BUCKET_SIZE: usize = 8192;

/// The size of the buffer that requests are read into.
pub const BUFFER_SIZE: usize = 1024;

/// What was read from a client.
#[derive(Debug)]
pub enum Input {
    /// The application is called with this text.
    Text(String),
    /// The client gets this reply.
    Refused(Vec<u8>),
}

/// Decides about what was read from a client: the application gets text only.
pub fn read_input(bytes: &[u8]) -> (input: Input)
    ensures
        match input {
            Input::Text(text) => utf8::valid_utf8(bytes@) && text@ == utf8::decode_utf8(bytes@),
            Input::Refused(reply) => !utf8::valid_utf8(bytes@) && reply@ == utf8::encode_utf8(
                "internal server error"@,
            ),
        },
{
    match core::str::from_utf8(bytes) {
        Ok(text) => Input::Text(text.to_owned()),
        Err(_) => Input::Refused("internal server error".as_bytes_vec()),
    }
}

/// The reply to a client: what the application gave, or that it panicked.
pub fn reply(response: Option<&str>) -> (reply: Vec<u8>)
    ensures
        reply@ == utf8::encode_utf8(
            match response {
                Some(response) => response@,
                None => "a request handler hit a panic"@,
            },
        ),
{
    match response {
        Some(response) => response.as_bytes_vec(),
        None => "a request handler hit a panic".as_bytes_vec(),
    }
}

/// How serving a client ended.
#[derive(Debug, Clone, Copy, PartialEq, Eq, Structural)]
pub enum StreamOutcome {
    /// The connection was shut down, whether the application answered or ran out of memory.
    ShutDown,
    /// Reading, writing or shutting down failed.
    Failed,
}

/// What a worker does next.
#[derive(Debug, Clone, Copy, PartialEq, Eq, Structural)]
pub enum WorkerStep {
    /// Wait for the next connection.
    NextStream,
    /// Stop working. The bucket stays claimed.
    Stop,
}

/// Claims a bucket for a connection. There is none if all places are taken.
pub fn claim_bucket(places: &mut Indexer, fd: i32) -> (bucket_index: Option<usize>)
    ensures
        match bucket_index {
            Some(index) => {
                &&& indexer::is_first_free(old(places)@, index as int)
                &&& final(places)@ == old(places)@.update(index as int, indexer::handle_of(fd as int))
            },
            None => indexer::is_full(old(places)@) && final(places)@ == old(places)@,
        },
{
    places.insert(fd)
}

/// Decides what a worker does after it has served a client. The bucket is emptied, and marked as
/// available again.
pub fn after_stream(
    memory: &mut ServerAlloc,
    places: &mut Indexer,
    bucket_index: usize,
    outcome: StreamOutcome,
) -> (step: WorkerStep)
    requires
        old(memory).wf(),
        bucket_index < old(memory).buckets().len(),
        bucket_index < old(places)@.len(),
    ensures
        final(memory).wf(),
        final(memory).arena() == old(memory).arena(),
        match outcome {
            StreamOutcome::ShutDown => {
                &&& step == WorkerStep::NextStream
                &&& executor::memory_wiped(*old(memory), *final(memory), bucket_index as int)
                &&& final(places)@ == old(places)@.update(bucket_index as int, 0)
            },
            StreamOutcome::Failed => {
                &&& step == WorkerStep::Stop
                &&& final(memory).buckets() == old(memory).buckets()
                &&& final(places)@ == old(places)@
            },
        },
{
    match outcome {
        StreamOutcome::ShutDown => {
            memory.clear_bucket(bucket_index);
            places.remove(bucket_index);
            WorkerStep::NextStream
        },
        StreamOutcome::Failed => WorkerStep::Stop,
    }
}

} // verus!
