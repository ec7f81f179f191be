//! A two-tier data-distribution pipeline: a distributer reads a table of
//! network-flow records in pages, fans each batch out to a pool of registered
//! processor endpoints over a length-prefixed binary wire format, and each
//! processor validates and retains the records it receives.
//!
//! This crate holds the verified core: the record model and its validity
//! predicate, the batch byte codec, the wire framing, the control-command
//! grammar, the endpoint registry with its round-robin cursor, the producer
//! state machine, and the paged-scan arithmetic. The unverified shell around
//! it (sockets, the relational store, timers) lives outside the library and
//! exchanges plain values with it.

pub mod codec;
pub mod control;
pub mod flow;
pub mod payload;
pub mod producer;
pub mod registry;
pub mod scan;
pub mod wire;
