//! The protocol with no IO in it: identities, events, frontiers and their
//! canonical encoding.

pub mod codec;
pub mod event;
pub mod frontier;
pub mod identity;
pub mod ids;
