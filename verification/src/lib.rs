//! Verified core of a small state-sharing game server.
//!
//! Clients log into named sessions, publish opaque (tagged) state blobs and
//! receive the states of the other peers in their session. This crate holds
//! the wire protocol (length-prefixed strings and buffers, the message codec)
//! and the session bookkeeping, each with its contract. The network loop,
//! the HTTP calls to the session manager and the command line live in `app/`.

pub mod endian;
pub mod buffer;
pub mod text;
pub mod pascal;
pub mod codec;
pub mod server;
pub mod connection;
pub mod manager;
pub mod test_stream;
