//! A server on top of another runtime, for comparison.
pub mod error;
pub mod request;
pub mod response;
pub mod server;
