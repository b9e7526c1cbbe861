//! Scheduling, memory and protocol logic of a web server with predictable memory use.
//!
//! Every request runs in a bucket: a fixed region of memory together with a fixed number of
//! queue slots. The modules below decide which bucket a request gets, which job of a bucket runs
//! next, where its memory comes from and what is sent back; waiting, polling and socket
//! input/output are left to the program around the library.
pub mod arena;
pub mod async_server;
pub mod benchmarks;
pub mod bits;
pub mod config;
pub mod counting;
pub mod error_response;
pub mod executor;
pub mod index;
pub mod interleaving;
pub mod log;
pub mod queue;
pub mod reactor;
pub mod roc_app;
pub mod runner;
pub mod runtime;
pub mod server;
pub mod shared;
pub mod text;
pub mod uri;
