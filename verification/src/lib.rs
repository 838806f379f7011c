//! A TCP forwarding proxy core: ordered destination failover and a
//! bidirectional byte-relay state machine.
//!
//! The library holds the verified logic of the proxy: parsing and validating
//! textual socket endpoints, choosing the first reachable destination from an
//! ordered list, and the relay state machine that copies bytes between an
//! inbound and an outbound stream until either side closes or errors. The
//! surrounding program drives sockets and feeds events into these state
//! machines.

pub mod addr;
pub mod failover;
pub mod relay;
pub mod session;

pub use failover::DestinationSelector;
