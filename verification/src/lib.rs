//! A verified core for a line-delimited JSON "is this number prime?" service.
//!
//! `oracle` decides primality of a number received on the wire; `protocol`
//! validates requests, renders the exact response lines, and drives one
//! connection's request/response state machine.

pub mod oracle;
pub mod protocol;
