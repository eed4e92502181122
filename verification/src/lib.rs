//! A Server List Ping responder: the wire codec, the packet framing and the
//! per-connection session logic that let a host show up as a running server
//! in a game client's server browser.
//!
//! The crate performs no I/O. Bytes received from a peer are handed in, bytes
//! to send are handed back, and every function is total on untrusted input.
//!
//! The modules, leaves first:
//!
//! - `varint` and `endian`: the integers of the wire format;
//! - `frame`: the messages and their layout in a packet body;
//! - `transport`: packets on a byte stream;
//! - `session`: the transition table of a session;
//! - `worker`: the handler of one connection;
//! - `stream` and `dialogue`: what holds of whole connections.
//!
//! Everything is proved but one fact about the standard library, which is
//! taken on trust: that `String::from_utf8` accepts exactly the byte strings
//! that are valid UTF-8, and keeps their bytes.

pub mod dialogue;
pub mod endian;
pub mod error;
pub mod frame;
pub mod phase;
pub mod session;
pub mod stream;
pub mod transport;
pub mod varint;
pub mod worker;
