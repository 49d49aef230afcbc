//! A small secure-aggregation protocol: clients average a stream of prices,
//! sign `"<id>:<average>"` with their ed25519 key, and one aggregator checks
//! each signature before folding the value into a global average.
//!
//! Prices are fixed-point: an integer count of 10^-8 units.
pub mod aggregator;
pub mod client;
pub mod crypto;
pub mod deadline;
pub mod identity;
pub mod message;
pub mod price;
