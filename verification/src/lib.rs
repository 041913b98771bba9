//! A real-time event broker.
//!
//! Clients hold long-lived connections, subscribe to named channels, and
//! receive every event published onto those channels. A channel is either
//! *stateless* (events are only forwarded to current subscribers) or
//! *stateful* (the most recent event is additionally retained and replayed
//! to every newly joining subscriber). A periodic heartbeat is published on
//! a reserved broadcast channel.
//!
//! The broker registry, the per-connection actor bookkeeping, and the
//! fan-out of deliveries are all verified; transport, configuration loading
//! and timers live outside this crate and talk to it through plain values.

pub mod event;
pub mod bus;
pub mod conn;
pub mod heartbeat;
pub mod laws;
