//! An in-memory publish/subscribe message broker with per-subscriber
//! acknowledgement, negative acknowledgement and timeout redelivery.
pub mod broker;
pub mod clock;
pub mod keyed;
pub mod laws;
pub mod protocol;
pub mod signal;
