//! A line-oriented chat relay core: a single broker owns the registry of
//! connected peers and routes addressed text lines to their writer queues.
//!
//! The modules here hold the decision logic of the relay: protocol parsing,
//! the broker's registry state machine, and the event and action types that
//! tie them to the I/O layer around the library.

pub mod broker;
pub mod protocol;
pub mod types;
