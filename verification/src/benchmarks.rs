//! The request handlers that the server is measured with, and a server to compare it to.
pub mod rust_nea;
pub mod rust_tokio;
