//! A small Redis-like in-memory store: the RESP wire format, the store, and the
//! handler that turns received bytes into replies.
pub mod db;
pub mod executor;
pub mod framing;
pub mod number;
pub mod parser;
pub mod server;
pub mod session;
pub mod text;
