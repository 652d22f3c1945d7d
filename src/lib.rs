//! Connection registry and message routing for a WebRTC signaling relay.
//!
//! The library is a state machine: every operation takes the registry and an
//! event (a new connection, an inbound frame, a timer tick, a close) and
//! computes the next registry, whose per-connection outbound queues say what
//! each peer is to receive. The transport that runs the tasks and writes the
//! frames stands outside it.
pub mod bitrate;
pub mod config;
pub mod laws;
pub mod liveness;
pub mod message;
pub mod model;
pub mod registry;
pub mod router;
