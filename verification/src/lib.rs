//! Vortex: the verified core of a thread-per-core HTTP server.
//!
//! The crate holds what the server computes and decides: request parsing,
//! response assembly, HTML rendering, buffer and slot bookkeeping, and the
//! per-worker event handling. Sockets, clocks and io_uring stay outside and
//! talk to it in plain values.

pub mod app;
pub mod bufring;
pub mod bytes;
pub mod connections;
pub mod date;
pub mod db;
pub mod dbpool;
pub mod digits;
pub mod filetable;
pub mod fortunes;
pub mod parser;
pub mod pipeline;
pub mod response;
pub mod server;
pub mod state;
pub mod template;
pub mod token;
pub mod worker;
