//! A server in which every queue slot is enqueued and run on its own, and every request has its
//! own memory.
pub mod executor;
pub mod handler;
pub mod queue;
