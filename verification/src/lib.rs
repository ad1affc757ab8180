//! Coordination core for a cluster of redundant bot instances that share a
//! single broadcast channel: membership tracking, leader election, the
//! heartbeat scheduler's per-tick decisions, and the inbound message
//! dispatcher.  All state transitions are pure functions of the current
//! state, the received message, and a caller-supplied clock reading, so the
//! whole protocol is verified here; transports, stores and timers live
//! outside the library and only carry values in and out.

pub mod cluster;
pub mod dice;
pub mod protocol;
pub mod scheduler;
pub mod utils;
