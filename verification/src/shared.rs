//! What all servers share: the memory of the buckets, the table of open sockets, the queue of
//! accepted connections, and the buffer for jumps out of a request handler.
pub mod allocator;
pub mod queue;
pub mod queue_threads;
pub mod backoff;
pub mod indexer;
/// The state that is saved for jumps out of a request handler.
///
/// The libc crate does not expose these because it is too unsafe.
pub mod setjmp_longjmp;
