//! A runtime in which every queue slot is enqueued and run on its own.
pub mod executor;
pub mod queue;
pub mod queue_threads;
pub mod reactor;
pub mod refcount;
pub mod server;
