//! A small in-memory key-value store holding JSON-object values, with two
//! wire front ends: an HTTP adapter and a RESP (Redis-style) adapter.
//!
//! The store maps byte-string keys to byte strings that hold JSON-object
//! text. Both adapters decode a request from bytes, apply a protocol-neutral
//! command to the store, and encode the outcome back to bytes. Network I/O
//! and task scheduling live outside this crate; everything here is pure
//! computation over byte buffers and the store.

pub mod command;
pub mod http;
pub mod jsontext;
pub mod num;
pub mod resp;
pub mod server;
pub mod store;
pub mod util;
