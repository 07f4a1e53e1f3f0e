//! Kāhui: communities hosted by their members.
//!
//! The verified core of the protocol. Identities, content-addressed signed
//! events, their canonical byte encoding, version-vector frontiers, the
//! store's key layout and insertion rules, invites and the wire formats all
//! live here as ordinary Rust with contracts that Verus checks.

pub mod desktop;
pub mod net;
pub mod node;
pub mod proto;
pub mod session;
pub mod store;
pub mod text;
