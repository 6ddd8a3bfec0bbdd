//! Client side of a small JSON-over-WebSocket telemetry protocol.
//!
//! The server assigns each client an unsigned identifier through a
//! `welcome` message; the client greets the server when the socket opens,
//! acknowledges the identifier it was given, and thereafter tags every
//! cursor-position report with that identifier.
//!
//! This crate holds the wire format and the handshake rules; opening the
//! socket and moving text frames in and out of it is the embedder's job.

pub mod channel;
pub mod wire;
