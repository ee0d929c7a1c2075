//! Authoritative nameserver core for a private overlay network.
//!
//! The library synchronizes hostname-to-address mappings from a membership
//! snapshot into an authoritative zone, derives forward and reverse records,
//! routes reverse queries by subnet, and encodes and decodes the narrow DNS
//! wire subset the responder serves. All record computation, lookup and
//! replacement logic is verified; sockets, timers and the process entry
//! point live outside the library.

pub mod config;
pub mod hostname;
pub mod ip;
pub mod record;
pub mod revname;
pub mod sync;
pub mod wire;
pub mod ptr;
pub mod zone;
