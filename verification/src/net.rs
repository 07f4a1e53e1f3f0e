//! The peer-to-peer layer's own logic: invites, what goes over the wire,
//! which addresses are worth handing out, and what to tell somebody whose
//! router will not open a port.

pub mod ip;
pub mod addrs;
pub mod behaviour;
pub mod discovery;
pub mod invite;
pub mod wire;
pub mod peer;
pub mod portmap;
pub mod punch;
