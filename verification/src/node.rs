//! A running node's decisions: where the next event goes, what to do with
//! an event that arrives, what to answer a peer asking for history, and what
//! to tell the user.
//!
//! Authoring is the one place a node writes to its own chain, and getting it
//! wrong is unrecoverable: a gap makes the event unacceptable to every peer,
//! and a reused sequence number is indistinguishable from equivocation. So
//! the position is derived from the stored log every time, never from a
//! counter that a crash could desynchronise.

pub mod engine;
pub mod network;
pub mod orphans;

use vstd::prelude::*;

use crate::proto::event::ChainTip;
use crate::proto::frontier::{frontier_map, pairs_max, sorted_keys};
use crate::proto::ids::{ChannelId, CommunityId, EventId, UserId};
use crate::store::log::{chain_pairs, head_of, heads_at, lamport_max};
use crate::store::{MemStore, Store, StoreError};

verus! {

/// Whether peers can dial this node, when the operator says so rather than
/// waiting for peers to work it out.
#[derive(Clone, Copy, Debug, PartialEq, Eq, Structural)]
pub enum Reachability {
    /// Anybody can dial us.
    Direct,
    /// A router is in the way; go and find a member to relay.
    BehindNat,
}

/// A message, ready to show.
#[derive(Debug)]
pub struct Message {
    pub id: EventId,
    pub community: CommunityId,
    pub channel: ChannelId,
    pub author: UserId,
    /// The author's display name at the time it is rendered, or a short form
    /// of their id if their join has not been seen yet.
    pub author_name: String,
    pub body: String,
    /// The author's wall clock. Advisory: shown, never used for ordering.
    pub timestamp_ms: u64,
    /// Position in the causal order. This is what actually orders the
    /// channel.
    pub lamport: u64,
}

/// Everything a node reports about itself.
#[derive(Debug)]
pub struct Status {
    pub user: UserId,
    pub display_name: String,
    pub peer_id: String,
    pub listen_addrs: Vec<String>,
    pub connected_peers: Vec<String>,
    pub communities: Vec<CommunityStatus>,
}

#[derive(Debug)]
pub struct CommunityStatus {
    pub id: CommunityId,
    pub name: String,
    /// Total events held. Two nodes reporting the same number for the same
    /// community are almost certainly in sync.
    pub events: u64,
    pub members: usize,
    pub channels: usize,
}

/// Something the node learned. Broadcast to every subscriber.
#[derive(Debug)]
pub enum NodeEvent {
    /// A listening address became available.
    Listening { addr: String },
    PeerConnected { peer: String },
    PeerDisconnected { peer: String },
    /// A message became visible, whether typed here or received from a peer.
    Message(Message),
    /// Somebody joined, or changed their display name.
    Membership { community: CommunityId, user: UserId, display_name: String },
    ChannelCreated { community: CommunityId, channel: ChannelId, name: String },
    CommunityCreated { community: CommunityId, name: String },
    /// A sync round with `peer` applied `applied` events not held before.
    Synced { peer: String, community: CommunityId, applied: usize },
    /// Something went wrong that did not stop the node.
    Warning { message: String },
    Stopped,
}

/// The tip `tip` reads from a log: the author's next position, their head,
/// one past the community's clock, and the heads in author order.
pub open spec fn tip_from(
    events: Seq<crate::proto::event::SignedEventModel>,
    community: Seq<u8>,
    author: Seq<u8>,
    t: ChainTip,
) -> bool {
    let f = pairs_max(chain_pairs(events, community));
    let next = if f.contains_key(author) { f[author] + 1 } else { 0 };
    &&& t.next_seq == next
    &&& (next == 0 ==> t.prev_self is None)
    &&& (next != 0 ==> match head_of(events, community, author) {
        None => t.prev_self is None,
        Some((_, id)) => t.prev_self matches Some(x) && x@ == id,
    })
    &&& t.next_lamport == if lamport_max(events, community) == u64::MAX {
        u64::MAX
    } else {
        (lamport_max(events, community) + 1) as u64
    }
    &&& exists|p: Seq<(Seq<u8>, u64)>|
        sorted_keys(p) && frontier_map(p) == f && t.parents@.map_values(|id: EventId| id@) == heads_at(
            events,
            community,
            p,
        )
}

/// Works out the author's next position in a community.
///
/// Reads three things from the store: how far this author's own chain has
/// got, how high the community's Lamport clock has climbed, and which events
/// are currently heads. Together they place the next event after everything
/// this node has seen, in a way every other node will agree with.
pub fn tip(store: &MemStore, community: &CommunityId, author: &UserId) -> (r: Result<ChainTip, StoreError>)
    ensures
        r matches Ok(t) && tip_from(store.events(), community@, author@, t),
{
    let frontier = match store.frontier(community) {
        Ok(f) => f,
        Err(e) => return Err(e),
    };
    let next_seq = frontier.next_seq(author);
    let prev_self = if next_seq == 0 {
        None
    } else {
        match store.chain_head(community, author) {
            Ok(h) => h,
            Err(e) => return Err(e),
        }
    };
    let lamport = match store.max_lamport(community) {
        Ok(l) => l,
        Err(e) => return Err(e),
    };
    let parents = match store.heads(community) {
        Ok(h) => h,
        Err(e) => return Err(e),
    };
    Ok(ChainTip { next_seq, prev_self, next_lamport: lamport.saturating_add(1), parents })
}

/// The tip for a community that does not exist yet.
pub fn genesis_tip() -> (t: ChainTip)
    ensures
        t.next_seq == 0,
        t.prev_self is None,
        t.next_lamport == 1,
        t.parents@.len() == 0,
{
    ChainTip::genesis()
}

/// Wall clock in milliseconds since the Unix epoch, or zero if the clock is
/// before it. Only ever used to stamp events for display: ordering comes
/// from Lamport clocks, so a node with a wrong clock cannot reorder anybody's
/// history. Nothing is promised of the value.
#[verifier::external_body]
pub fn now_ms() -> u64 {
    std::time::SystemTime::now().duration_since(std::time::UNIX_EPOCH).map(|d| d.as_millis() as u64).unwrap_or(0)
}

} // verus!
