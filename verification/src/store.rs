//! Every node keeps its own complete copy of the communities it belongs to.
//! There is no shared database, so this module is the whole of Kāhui's
//! persistence model: an append-only event log plus the views needed to
//! serve it back as channels, members and history.
//!
//! [`Store::put_event`] is the only way in, and it refuses anything it cannot
//! fully verify: a bad signature, a sequence gap in the author's chain, a
//! second event at a sequence already taken, or an event for a community
//! whose genesis this node has never seen. Rejections are not failures: they
//! are how a node discovers it is behind, and [`StoreError::needs_sync`] tells
//! the caller which ones to answer by asking a peer for the missing history.

pub mod history;
pub mod keys;
pub mod log;
pub mod order;
pub mod peers;
pub mod views;


use vstd::prelude::*;

use crate::proto::event::{SignedEvent, SignedEventModel, ValidationError};
use crate::proto::frontier::{frontier_map, pairs_max, sorted_keys, total_of, Frontier};
use crate::proto::ids::{ChannelId, CommunityId, EventId, UserId};
use crate::store::history::{
    arranged, causal_keys, channel_messages, community_events, events_view, law_frontier_total_counts_the_community, uncovered,
};
use crate::store::log::{chain_pairs, head_of, heads_at, holds_id, id_of, lamport_max, put_result, EventLog};
use crate::store::order::is_stable_sort;
use crate::store::peers::{meta_put_result, peer_keys, peers_view, remembered, rows_of, LocalState, PeerModel};
use crate::store::views::{
    channel_keys, channel_list, channel_rows, channel_summaries_view, channel_summary, community_keys, member_list, community_rows, has_member,
    member_at, member_keys, member_rows, member_summaries_view, member_summary, sorted_rows, summaries_view,
    ChannelRow, MemberRow,
};

verus! {

/// Why the store refused an event, or could not answer.
#[derive(Debug, PartialEq, Eq)]
pub enum StoreError {
    /// The event is not internally valid. Always the sender's fault.
    Invalid(ValidationError),
    /// The author's chain has a hole: nothing is held at `needed_seq`.
    MissingPrev { author: String, seq: u64, needed_seq: u64 },
    /// An event for a community whose genesis was never seen, so there is
    /// nothing to anchor it to.
    UnknownCommunity(String),
    /// `prev_self` points somewhere other than the event held at `seq - 1`.
    ChainMismatch { author: String, seq: u64 },
    /// Two different events signed by the same author claim the same
    /// sequence. This is provable misbehaviour, not a race.
    Equivocation { author: String, seq: u64 },
    /// The storage backend failed.
    Backend(String),
    /// A stored record could not be read back.
    Corrupt(String),
}

impl StoreError {
    /// True when the rejection means "this node is behind", rather than
    /// "this event is bad".
    ///
    /// The node answers these by asking the peer that sent the event for the
    /// history it is missing, then replaying the event.
    pub fn needs_sync(&self) -> (b: bool)
        ensures
            b == (self is MissingPrev || self is UnknownCommunity),
    {
        match self {
            StoreError::MissingPrev { .. } => true,
            StoreError::UnknownCommunity(_) => true,
            _ => false,
        }
    }
}

/// Whether [`Store::put_event`] actually changed anything.
///
/// Gossip and sync routinely deliver the same event twice; `Duplicate` is
/// the normal, quiet outcome, and the caller uses it to avoid
/// re-broadcasting.
#[derive(Debug, Clone, Copy, PartialEq, Eq, Structural)]
pub enum Inserted {
    New,
    Duplicate,
}

impl Inserted {
    pub fn is_new(self) -> (b: bool)
        ensures
            b == (self is New),
    {
        self == Inserted::New
    }
}

#[derive(Debug, PartialEq, Eq)]
pub struct CommunitySummary {
    pub id: CommunityId,
    pub name: String,
    pub description: String,
    pub founder: UserId,
    pub created_ms: u64,
}

#[derive(Debug, PartialEq, Eq)]
pub struct ChannelSummary {
    pub id: ChannelId,
    pub name: String,
    pub topic: String,
    pub creator: UserId,
    pub created_ms: u64,
}

#[derive(Debug, PartialEq, Eq)]
pub struct MemberSummary {
    pub id: UserId,
    pub display_name: String,
    pub joined_ms: u64,
}

/// A peer seen in a community, remembered so it can be dialled again after
/// a restart.
///
/// This is what lets a node rejoin without anyone's help: the addresses live
/// next to the history, not in a directory service.
#[derive(Debug, PartialEq, Eq)]
pub struct PeerRecord {
    /// libp2p peer id, in its binary form.
    pub peer_id: Vec<u8>,
    /// Multiaddresses, most recently advertised first.
    pub addrs: Vec<String>,
    pub last_seen_ms: u64,
}

/// A batch of events answering a sync request.
#[derive(Debug)]
pub struct Delta {
    /// In causal order: apply them front to back.
    pub events: Vec<SignedEvent>,
    /// False when `limit` cut the batch short and the peer should ask again.
    pub complete: bool,
}

impl Delta {
    pub fn is_empty(&self) -> (b: bool)
        ensures
            b == (self.events@.len() == 0),
    {
        self.events.len() == 0
    }

    pub fn len(&self) -> (n: usize)
        ensures
            n == self.events@.len(),
    {
        self.events.len()
    }
}

/// A node's local view of the communities it belongs to.
///
/// The storage engine is the part that cannot be shared across platforms, so
/// this is a trait: [`MemStore`] holds the verified
/// semantics, and a platform persists what it hands out.
pub trait Store {
    /// Verifies and appends an event, updating every view at once.
    fn put_event(&mut self, event: &SignedEvent) -> Result<Inserted, StoreError>;

    fn get_event(&self, id: &EventId) -> Result<Option<SignedEvent>, StoreError>;

    fn has_event(&self, id: &EventId) -> Result<bool, StoreError>;

    /// What this node holds for `community`, as one sequence number per
    /// author.
    fn frontier(&self, community: &CommunityId) -> Result<Frontier, StoreError>;

    /// Events held that `have` does not cover, in causal order and capped at
    /// `limit`, plus whether that was all of them.
    fn delta(&self, community: &CommunityId, have: &Frontier, limit: usize) -> Result<Delta, StoreError>;

    /// Highest Lamport value seen in this community.
    fn max_lamport(&self, community: &CommunityId) -> Result<u64, StoreError>;

    /// The last event in one author's chain.
    fn chain_head(&self, community: &CommunityId, author: &UserId) -> Result<Option<EventId>, StoreError>;

    /// The latest event from each author: the causal context a new event
    /// cites.
    fn heads(&self, community: &CommunityId) -> Result<Vec<EventId>, StoreError>;

    fn communities(&self) -> Result<Vec<CommunitySummary>, StoreError>;

    fn community(&self, id: &CommunityId) -> Result<Option<CommunitySummary>, StoreError>;

    fn channels(&self, community: &CommunityId) -> Result<Vec<ChannelSummary>, StoreError>;

    fn members(&self, community: &CommunityId) -> Result<Vec<MemberSummary>, StoreError>;

    /// One member, for resolving the display name on an incoming message.
    fn member(&self, community: &CommunityId, user: &UserId) -> Result<Option<MemberSummary>, StoreError>;

    /// The most recent `limit` messages in a channel, oldest first.
    fn channel_history(&self, community: &CommunityId, channel: &ChannelId, limit: usize) -> Result<
        Vec<SignedEvent>,
        StoreError,
    >;

    /// Peers last seen in this community, for reconnecting after a restart.
    fn peers(&self, community: &CommunityId) -> Result<Vec<PeerRecord>, StoreError>;

    fn remember_peer(&mut self, community: &CommunityId, peer: &PeerRecord) -> Result<(), StoreError>;

    /// Reachable nodes willing to relay, most recently seen first.
    fn relays(&self) -> Result<Vec<PeerRecord>, StoreError>;

    fn remember_relay(&mut self, peer: &PeerRecord) -> Result<(), StoreError>;

    /// Node-local settings that are not part of the replicated log.
    fn meta_get(&self, key: &str) -> Result<Option<Vec<u8>>, StoreError>;

    fn meta_put(&mut self, key: &str, value: &[u8]) -> Result<(), StoreError>;
}

/// A store that keeps everything in memory: the log and what a node keeps
/// beside it. A platform that persists state writes down what goes in and
/// replays it on start.
pub struct MemStore {
    log: EventLog,
    local: LocalState,
}

impl MemStore {
    #[verifier::type_invariant]
    spec fn log_wf(&self) -> bool {
        self.log.wf()
    }

    /// The accepted events, oldest first.
    pub closed spec fn events(&self) -> Seq<SignedEventModel> {
        self.log.log()
    }

    /// What the node keeps beside its log.
    pub closed spec fn peer_table(&self) -> Seq<(Seq<u8>, PeerModel)> {
        self.local.peer_table()
    }

    pub closed spec fn relay_table(&self) -> Seq<PeerModel> {
        self.local.relay_table()
    }

    pub closed spec fn meta_table(&self) -> Seq<(Seq<char>, Seq<u8>)> {
        self.local.meta_table()
    }

    pub fn new() -> (s: MemStore)
        ensures
            s.events() == Seq::<SignedEventModel>::empty(),
            s.peer_table().len() == 0,
            s.relay_table().len() == 0,
            s.meta_table().len() == 0,
    {
        MemStore { log: EventLog::new(), local: LocalState::new() }
    }
}

impl Store for MemStore {
    fn put_event(&mut self, event: &SignedEvent) -> (r: Result<Inserted, StoreError>)
        ensures
            put_result(old(self).events(), event@, r, final(self).events()),
            final(self).peer_table() == old(self).peer_table(),
            final(self).relay_table() == old(self).relay_table(),
            final(self).meta_table() == old(self).meta_table(),
    {
        proof {
            use_type_invariant(&*self);
        }
        let mut log = EventLog::new();
        std::mem::swap(&mut log, &mut self.log);
        let r = log.put_event(event);
        self.log = log;
        r
    }

    fn get_event(&self, id: &EventId) -> (r: Result<Option<SignedEvent>, StoreError>)
        ensures
            r matches Ok(found) && (found is Some <==> holds_id(self.events(), id@)) && (found matches Some(e)
                ==> id_of(e@) == id@ && self.events().contains(e@)),
    {
        proof {
            use_type_invariant(self);
            assert(self.events() == self.log.log());
        }
        Ok(self.log.get_event(id))
    }

    fn has_event(&self, id: &EventId) -> (r: Result<bool, StoreError>)
        ensures
            r == Ok::<bool, StoreError>(holds_id(self.events(), id@)),
    {
        proof {
            use_type_invariant(self);
            assert(self.events() == self.log.log());
        }
        Ok(self.log.has_event(id))
    }

    fn frontier(&self, community: &CommunityId) -> (r: Result<Frontier, StoreError>)
        ensures
            r matches Ok(f) && f@ == pairs_max(chain_pairs(self.events(), community@)),
            r matches Ok(f) && forall|a: Seq<u8>| #[trigger] f@.contains_key(a) ==> f@[a] < u64::MAX,
            r matches Ok(f) && total_of(f.pairs()) == community_events(self.events(), community@).len(),
    {
        proof {
            use_type_invariant(self);
            assert(self.events() == self.log.log());
            self.log.law_log_is_chained();
            assert forall|a: Seq<u8>| #[trigger] pairs_max(chain_pairs(self.events(), community@)).contains_key(a)
                implies pairs_max(chain_pairs(self.events(), community@))[a] < u64::MAX by {
                self.log.lemma_chain_has_room(community@, a);
            }
        }
        let f = self.log.frontier(community);
        proof {
            law_frontier_total_counts_the_community(self.events(), community@, f.pairs());
        }
        Ok(f)
    }

    fn delta(&self, community: &CommunityId, have: &Frontier, limit: usize) -> (r: Result<Delta, StoreError>)
        ensures
            r matches Ok(d) && exists|o: Seq<int>|
                is_stable_sort(causal_keys(community_events(self.events(), community@)), o) && ({
                    let cand = uncovered(arranged(community_events(self.events(), community@), o), have@);
                    &&& d.complete == (cand.len() <= limit)
                    &&& events_view(d.events@) == cand.take(if cand.len() <= limit { cand.len() as int } else { limit as int })
                }),
    {
        proof {
            use_type_invariant(self);
            assert(self.events() == self.log.log());
        }
        Ok(self.log.delta(community, have, limit))
    }

    fn max_lamport(&self, community: &CommunityId) -> (r: Result<u64, StoreError>)
        ensures
            r == Ok::<u64, StoreError>(lamport_max(self.events(), community@)),
    {
        proof {
            use_type_invariant(self);
            assert(self.events() == self.log.log());
        }
        Ok(self.log.max_lamport(community))
    }

    fn chain_head(&self, community: &CommunityId, author: &UserId) -> (r: Result<Option<EventId>, StoreError>)
        ensures
            r matches Ok(h) && match head_of(self.events(), community@, author@) {
                None => h is None,
                Some((_, id)) => h matches Some(x) && x@ == id,
            },
    {
        proof {
            use_type_invariant(self);
            assert(self.events() == self.log.log());
        }
        Ok(self.log.chain_head(community, author))
    }

    fn heads(&self, community: &CommunityId) -> (r: Result<Vec<EventId>, StoreError>)
        ensures
            r matches Ok(v) && exists|p: Seq<(Seq<u8>, u64)>|
                sorted_keys(p) && frontier_map(p) == pairs_max(chain_pairs(self.events(), community@))
                    && v@.map_values(|id: EventId| id@) == heads_at(self.events(), community@, p),
    {
        proof {
            use_type_invariant(self);
            assert(self.events() == self.log.log());
        }
        Ok(self.log.heads(community))
    }

    fn communities(&self) -> (r: Result<Vec<CommunitySummary>, StoreError>)
        ensures
            r matches Ok(v) && sorted_rows(
                community_rows(self.events()),
                community_keys(community_rows(self.events())),
                summaries_view(v@),
            ),
    {
        proof {
            use_type_invariant(self);
            assert(self.events() == self.log.log());
        }
        Ok(self.log.communities())
    }

    fn community(&self, id: &CommunityId) -> (r: Result<Option<CommunitySummary>, StoreError>)
        ensures
            r matches Ok(found) && match found {
                None => forall|i: int|
                    0 <= i < community_rows(self.events()).len() ==> (#[trigger] community_rows(self.events())[i]).id != id@,
                Some(c) => exists|i: int|
                    0 <= i < community_rows(self.events()).len() && #[trigger] community_rows(self.events())[i] == c@
                        && c@.id == id@ && forall|j: int| 0 <= j < i ==> (#[trigger] community_rows(self.events())[j]).id != id@,
            },
    {
        proof {
            use_type_invariant(self);
            assert(self.events() == self.log.log());
        }
        Ok(self.log.community(id))
    }

    fn channels(&self, community: &CommunityId) -> (r: Result<Vec<ChannelSummary>, StoreError>)
        ensures
            r matches Ok(v) && sorted_rows(
                channel_list(channel_rows(self.events(), community@)),
                channel_keys(channel_rows(self.events(), community@)),
                channel_summaries_view(v@),
            ),
    {
        proof {
            use_type_invariant(self);
            assert(self.events() == self.log.log());
        }
        let v = self.log.channels(community);
        proof {
            assert(channel_list(channel_rows(self.events(), community@)) =~= channel_rows(self.events(), community@).map_values(
                |c: ChannelRow| channel_summary(c),
            ));
        }
        Ok(v)
    }

    fn members(&self, community: &CommunityId) -> (r: Result<Vec<MemberSummary>, StoreError>)
        ensures
            r matches Ok(v) && sorted_rows(
                member_list(member_rows(self.events(), community@)),
                member_keys(member_rows(self.events(), community@)),
                member_summaries_view(v@),
            ),
    {
        proof {
            use_type_invariant(self);
            assert(self.events() == self.log.log());
        }
        let v = self.log.members(community);
        proof {
            assert(member_list(member_rows(self.events(), community@)) =~= member_rows(self.events(), community@).map_values(
                |m: MemberRow| member_summary(m),
            ));
        }
        Ok(v)
    }

    fn member(&self, community: &CommunityId, user: &UserId) -> (r: Result<Option<MemberSummary>, StoreError>)
        ensures
            r matches Ok(found) && (found is Some <==> has_member(member_rows(self.events(), community@), user@)) && (
            found matches Some(m) ==> m@ == member_summary(
                member_rows(self.events(), community@)[member_at(member_rows(self.events(), community@), user@)],
            )),
    {
        proof {
            use_type_invariant(self);
            assert(self.events() == self.log.log());
        }
        Ok(self.log.member(community, user))
    }

    fn channel_history(&self, community: &CommunityId, channel: &ChannelId, limit: usize) -> (r: Result<
        Vec<SignedEvent>,
        StoreError,
    >)
        ensures
            r matches Ok(v) && exists|o: Seq<int>|
                is_stable_sort(causal_keys(channel_messages(self.events(), community@, channel@)), o) && ({
                    let sorted = arranged(channel_messages(self.events(), community@, channel@), o);
                    events_view(v@) == sorted.skip(if sorted.len() <= limit { 0 } else { sorted.len() - limit })
                }),
    {
        proof {
            use_type_invariant(self);
            assert(self.events() == self.log.log());
        }
        Ok(self.log.channel_history(community, channel, limit))
    }

    fn peers(&self, community: &CommunityId) -> (r: Result<Vec<PeerRecord>, StoreError>)
        ensures
            r matches Ok(v) && sorted_rows(
                rows_of(self.peer_table(), community@),
                peer_keys(rows_of(self.peer_table(), community@)),
                peers_view(v@),
            ),
    {
        proof {
            assert(self.peer_table() == self.local.peer_table());
        }
        Ok(self.local.peers(community))
    }

    fn remember_peer(&mut self, community: &CommunityId, peer: &PeerRecord) -> (r: Result<(), StoreError>)
        ensures
            r is Ok,
            final(self).peer_table() == remembered(old(self).peer_table(), community@, peer@),
            final(self).events() == old(self).events(),
            final(self).relay_table() == old(self).relay_table(),
            final(self).meta_table() == old(self).meta_table(),
    {
        proof {
            use_type_invariant(&*self);
        }
        let mut local = LocalState::new();
        std::mem::swap(&mut local, &mut self.local);
        local.remember_peer(community, peer);
        self.local = local;
        Ok(())
    }

    fn relays(&self) -> (r: Result<Vec<PeerRecord>, StoreError>)
        ensures
            r matches Ok(v) && sorted_rows(self.relay_table(), peer_keys(self.relay_table()), peers_view(v@)),
    {
        proof {
            assert(self.relay_table() == self.local.relay_table());
        }
        Ok(self.local.relays())
    }

    fn remember_relay(&mut self, peer: &PeerRecord) -> (r: Result<(), StoreError>)
        ensures
            r is Ok,
            final(self).relay_table() == crate::store::peers::relay_remembered(old(self).relay_table(), peer@),
            final(self).events() == old(self).events(),
            final(self).peer_table() == old(self).peer_table(),
            final(self).meta_table() == old(self).meta_table(),
    {
        proof {
            use_type_invariant(&*self);
        }
        let mut local = LocalState::new();
        std::mem::swap(&mut local, &mut self.local);
        local.remember_relay(peer);
        self.local = local;
        Ok(())
    }

    fn meta_get(&self, key: &str) -> (r: Result<Option<Vec<u8>>, StoreError>)
        ensures
            r matches Ok(found) && ({
                let t = self.meta_table();
                match found {
                    None => forall|i: int| 0 <= i < t.len() ==> (#[trigger] t[i]).0 != key@,
                    Some(v) => exists|i: int|
                        0 <= i < t.len() && (#[trigger] t[i]).0 == key@ && t[i].1 == v@ && forall|j: int|
                            0 <= j < i ==> (#[trigger] t[j]).0 != key@,
                }
            }),
    {
        proof {
            assert(self.meta_table() == self.local.meta_table());
        }
        Ok(self.local.meta_get(key))
    }

    fn meta_put(&mut self, key: &str, value: &[u8]) -> (r: Result<(), StoreError>)
        ensures
            r is Ok,
            final(self).meta_table() == meta_put_result(old(self).meta_table(), key@, value@),
            final(self).events() == old(self).events(),
            final(self).peer_table() == old(self).peer_table(),
            final(self).relay_table() == old(self).relay_table(),
    {
        proof {
            use_type_invariant(&*self);
        }
        let mut local = LocalState::new();
        std::mem::swap(&mut local, &mut self.local);
        local.meta_put(key, value);
        self.local = local;
        Ok(())
    }
}

} // verus!
