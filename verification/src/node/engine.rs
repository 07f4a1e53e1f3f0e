//! The node's state and the decisions it makes on it.
//!
//! Everything a node does with its own history stands here: authoring into
//! its chain, founding and joining communities, taking events from peers and
//! holding back the ones that arrive early, and answering a peer that asks
//! what it is missing. What goes in and out over the network is left to the
//! platform around it: each operation hands back what to show and what to
//! send, and the platform delivers it.

use vstd::prelude::*;

use crate::net::invite::{strings_view, peers_view, Invite, InviteError, InvitePeer, InvitePeerModel};
use crate::net::peer::{is_peer_id, peer_id_of, peer_id_text, peer_of_user};
use crate::proto::identity::bs58_text;
use crate::store::peers::{copy_strings, peer_keys, peers_view as records_view, rows_of, PeerModel};
use crate::store::views::MemberSummaryRow;
use crate::node::orphans::{lemma_split_parked, parked_after, waiting_on, OrphanBuffer};
use crate::net::wire::{
    community_from_topic, enc_gossip, topic_name, topic_of, GossipMessage, GossipModel, Presence, PresenceModel, SyncRequest,
    SyncResponse, MAX_SYNC_BATCH,
};
use crate::net::addrs::{dialable, dialable_addrs, is_circuit, is_circuit_addr, offered, public_addrs};
use crate::net::discovery::{relay_key, relay_key_bytes, KAD_PROTOCOL};
use crate::net::portmap::{claim_mapped_port, claimed};
use crate::net::discovery::{multiaddr_text, parse_multiaddr};
use crate::node::Status;
use crate::node::Reachability;
use crate::node::network::{
    acts_view, add_peer, add_text, candidates_view, has_peer, has_protocol, peers_seq, put_candidate, remove_peer, remove_text,
    set_candidate, with_all, with_item, without_item,
    ActModel, NetAction, NetEvent, NetModel, NetState, RELAY_HOP_PROTOCOL, RELAY_MEMORY, RELAY_TARGET, SYNC_FANOUT,
};
use crate::store::PeerRecord;
use crate::node::{now_ms, tip, tip_from, CommunityStatus, Message, NodeEvent};
use crate::proto::frontier::{frontier_map, pairs_max, sorted_keys, total_of};
use crate::store::log::chain_pairs;
use crate::store::views::{channel_rows, community_keys, community_rows, sorted_rows, CommunityRow};
use crate::store::history::{community_events, uncovered};
use crate::proto::event::{
    ids_view, is_created_event, opt_id_view, preimage_of, ChainTip, Event, Payload,
    PayloadModel, SignedEvent, SignedEventModel,
};
use crate::proto::identity::{ed25519_signature, user_of, Identity, IdentityError};
use crate::proto::ids::{ChannelId, CommunityId, EventId, UserId, hex_encode};
use crate::store::history::{arranged, causal_keys, channel_messages, events_view};

use crate::store::order::is_stable_sort;
use crate::store::log::{
    admission, community_in, head_of, holds_id, id_of, knows_community, lemma_frontier_value_held, lemma_head_is_max,
    lemma_held_below_max, put_result, slot_index, slot_taken, slots_unique, in_slot, };
use crate::proto::event::is_genesis_payload;
use crate::store::views::{has_member, member_at, member_rows};
use crate::store::{Inserted, MemStore, Store, StoreError};

verus! {

/// Why a node could not do what it was asked.
#[derive(Debug)]
pub enum NodeError {
    Store(StoreError),
    Invite(InviteError),
    Identity(IdentityError),
    /// This node does not know the community.
    UnknownCommunity(CommunityId),
    /// No channel by that name.
    UnknownChannel(String),
    /// The node is not running.
    NotRunning,
    /// Timed out waiting for the node.
    Timeout,
    Engine(String),
}

/// The name a node shows for a user in a community: the one they last set,
/// or a short form of their id if their join has not been seen yet.
pub open spec fn name_in(events: Seq<SignedEventModel>, c: Seq<u8>, u: Seq<u8>) -> Seq<char> {
    let rows = member_rows(events, c);
    if has_member(rows, u) {
        rows[member_at(rows, u)].display_name
    } else {
        hex_encode(u.subrange(0, 4))
    }
}

/// `m` shows message event `e` of `community`, its author called `name`.
pub open spec fn shows_message(m: Message, community: Seq<u8>, e: SignedEventModel, name: Seq<char>) -> bool {
    match e.event.payload {
        PayloadModel::Message { channel, body } => {
            &&& m.id@ == id_of(e)
            &&& m.community@ == community
            &&& m.channel@ == channel
            &&& m.author@ == e.event.author
            &&& m.author_name@ == name
            &&& m.body@ == body
            &&& m.timestamp_ms == e.event.timestamp_ms
            &&& m.lamport == e.event.lamport
        },
        _ => false,
    }
}

/// What a user interface is told when event `e` of `community` is stored.
pub open spec fn announcement(ev: NodeEvent, community: Seq<u8>, e: SignedEventModel, name: Seq<char>) -> bool {
    match e.event.payload {
        PayloadModel::Message { .. } => ev matches NodeEvent::Message(m) && shows_message(m, community, e, name),
        PayloadModel::Join { display_name } => ev matches NodeEvent::Membership { community: c, user, display_name: d }
            && c@ == community && user@ == e.event.author && d@ == display_name,
        PayloadModel::SetDisplayName { display_name } => ev matches NodeEvent::Membership {
            community: c,
            user,
            display_name: d,
        } && c@ == community && user@ == e.event.author && d@ == display_name,
        PayloadModel::CreateChannel { channel, name: n, .. } => ev matches NodeEvent::ChannelCreated {
            community: c,
            channel: ch,
            name: d,
        } && c@ == community && ch@ == channel && d@ == n,
        PayloadModel::CreateCommunity { name: n, .. } => ev matches NodeEvent::CommunityCreated { community: c, name: d }
            && c@ == community && d@ == n,
    }
}

/// `e` is an event the holder of `secret` writes next into `community` with
/// `payload`, reading its position from `events`.
#[verifier::opaque]
pub open spec fn authored_as(
    events: Seq<SignedEventModel>,
    secret: Seq<u8>,
    community: Seq<u8>,
    payload: PayloadModel,
    e: SignedEventModel,
) -> bool {
    exists|t: ChainTip, ts: u64|
        tip_from(events, community, user_of(secret), t) && #[trigger] is_created_event(
            e.event,
            user_of(secret),
            community,
            t.next_seq,
            opt_id_view(t.prev_self),
            t.next_lamport,
            ids_view(t.parents@),
            ts,
            payload,
        ) && e.signature == ed25519_signature(secret, preimage_of(e.event))
}

/// The store took `e` from `before` to `after`, and `r` reports it: the
/// event when the store accepted it or already held it, else the store's
/// reason.
#[verifier::opaque]
pub open spec fn stored_with(
    before: Seq<SignedEventModel>,
    e: SignedEventModel,
    after: Seq<SignedEventModel>,
    r: Result<SignedEvent, NodeError>,
) -> bool {
    exists|pr: Result<Inserted, StoreError>|
        #[trigger] put_result(before, e, pr, after) && match r {
            Ok(s) => s@ == e && pr is Ok,
            Err(err) => pr matches Err(x) && err == NodeError::Store(x),
        }
}

/// The store took `e` from `before` to `after` and said yes: it accepted
/// the event, or already held it.
#[verifier::opaque]
pub open spec fn accepted(before: Seq<SignedEventModel>, e: SignedEventModel, after: Seq<SignedEventModel>) -> bool {
    exists|pr: Result<Inserted, StoreError>| #[trigger] put_result(before, e, pr, after) && pr is Ok
}

/// An event written by the holder of `secret` is theirs and says what they
/// meant it to.
proof fn lemma_authored_fields(
    events: Seq<SignedEventModel>,
    secret: Seq<u8>,
    community: Seq<u8>,
    payload: PayloadModel,
    e: SignedEventModel,
)
    requires
        authored_as(events, secret, community, payload, e),
    ensures
        e.event.author == user_of(secret),
        e.event.payload == payload,
{
    reveal(authored_as);
}

/// Storing an event leaves the log as it was or appends that event.
proof fn lemma_stored_appends(
    before: Seq<SignedEventModel>,
    e: SignedEventModel,
    after: Seq<SignedEventModel>,
    r: Result<SignedEvent, NodeError>,
)
    requires
        stored_with(before, e, after, r),
    ensures
        after == before || after == before.push(e),
{
    reveal(stored_with);
}

/// `es` is what the holder of `secret` wrote in turn, into `communities`,
/// each with `payload`, taking the log through `logs`.
pub open spec fn wrote_each(
    logs: Seq<Seq<SignedEventModel>>,
    es: Seq<SignedEventModel>,
    secret: Seq<u8>,
    communities: Seq<Seq<u8>>,
    payload: PayloadModel,
) -> bool {
    &&& logs.len() == es.len() + 1
    &&& es.len() == communities.len()
    &&& forall|i: int|
        0 <= i < es.len() ==> authored_as(logs[i], secret, communities[i], payload, #[trigger] es[i]) && accepted(
            logs[i],
            es[i],
            logs[i + 1],
        )
}

/// The writes `es` took the log through `logs` in turn: the store accepted
/// every one but the last, and answered the last with `x`.
pub open spec fn stopped_at_last(logs: Seq<Seq<SignedEventModel>>, es: Seq<SignedEventModel>, x: NodeError) -> bool {
    &&& es.len() >= 1
    &&& logs.len() == es.len() + 1
    &&& forall|i: int| 0 <= i < es.len() - 1 ==> accepted(logs[i], #[trigger] es[i], logs[i + 1])
    &&& stored_with(logs[es.len() - 1], es.last(), logs[es.len() as int], Err::<SignedEvent, NodeError>(x))
}

/// Where the `i`th write of a founding goes: the genesis names no
/// community yet, the rest go into the one it founds, `c`.
pub open spec fn founding_into(i: int, c: Seq<u8>) -> Seq<u8> {
    if i == 0 {
        crate::proto::ids::zero_bytes()
    } else {
        c
    }
}

/// What the `i`th write of a founding says: the genesis, the founder's
/// join, then the `#general` channel.
pub open spec fn founding_payload(
    i: int,
    c: Seq<u8>,
    name: Seq<char>,
    description: Seq<char>,
    member_name: Seq<char>,
) -> PayloadModel {
    if i == 0 {
        PayloadModel::CreateCommunity { name, description }
    } else if i == 1 {
        PayloadModel::Join { display_name: member_name }
    } else {
        PayloadModel::CreateChannel {
            channel: crate::proto::ids::channel_id_of(c, "general"@),
            name: "general"@,
            topic: "Everything else"@,
        }
    }
}

/// `evs` tells the user of each of `es`, as written into `logs` in turn.
pub open spec fn announced_each(
    logs: Seq<Seq<SignedEventModel>>,
    es: Seq<SignedEventModel>,
    evs: Seq<NodeEvent>,
) -> bool {
    &&& evs.len() == es.len()
    &&& forall|i: int|
        0 <= i < es.len() ==> announcement(
            #[trigger] evs[i],
            community_in(es[i]),
            es[i],
            name_in(logs[i + 1], community_in(es[i]), es[i].event.author),
        )
}

/// A join this node (`me`) wrote.
pub open spec fn own_join(e: SignedEventModel, me: Seq<u8>) -> bool {
    e.event.author == me && e.event.payload is Join
}

/// `after` is `before` with events appended, each one taken from `parked`
/// or a join this node (`me`) wrote.
pub open spec fn grew_from(
    before: Seq<SignedEventModel>,
    parked: Seq<(Seq<u8>, SignedEventModel)>,
    me: Seq<u8>,
    after: Seq<SignedEventModel>,
) -> bool {
    &&& before.len() <= after.len()
    &&& after.take(before.len() as int) == before
    &&& forall|i: int|
        #![trigger after[i]]
        before.len() <= i < after.len() ==> own_join(after[i], me) || exists|k: int|
            0 <= k < parked.len() && (#[trigger] parked[k]).1 == after[i]
}

/// Joins written after growing from `parked` keep the growth of that kind.
proof fn lemma_grew_then_joined(
    a: Seq<SignedEventModel>,
    parked: Seq<(Seq<u8>, SignedEventModel)>,
    me: Seq<u8>,
    b: Seq<SignedEventModel>,
    c: Seq<SignedEventModel>,
)
    requires
        grew_from(a, parked, me, b),
        grew_from(b, seq![], me, c),
    ensures
        grew_from(a, parked, me, c),
{
    assert(c.take(a.len() as int) =~= b.take(a.len() as int));
    assert forall|i: int|
        #![trigger c[i]]
        a.len() <= i < c.len() implies own_join(c[i], me) || exists|k: int|
            0 <= k < parked.len() && (#[trigger] parked[k]).1 == c[i] by {
        if i < b.len() {
            assert(c[i] == b[i]);
        } else {
            let none: Seq<(Seq<u8>, SignedEventModel)> = seq![];
            assert(own_join(c[i], me) || exists|k: int| 0 <= k < none.len() && (#[trigger] none[k]).1 == c[i]);
        }
    }
}

/// Every name in `after` is in `before`.
pub open spec fn shrank(before: Seq<Seq<u8>>, after: Seq<Seq<u8>>) -> bool {
    forall|x: Seq<u8>| #[trigger] after.contains(x) ==> before.contains(x)
}

/// `after` is `before` with events appended, each one taken from `parked`.
pub open spec fn grew_from_parked(
    before: Seq<SignedEventModel>,
    parked: Seq<(Seq<u8>, SignedEventModel)>,
    after: Seq<SignedEventModel>,
) -> bool {
    &&& before.len() <= after.len()
    &&& after.take(before.len() as int) == before
    &&& forall|i: int|
        #![trigger after[i]]
        before.len() <= i < after.len() ==> exists|k: int| 0 <= k < parked.len() && (#[trigger] parked[k]).1 == after[i]
}

/// What became of an event offered to the node.
#[derive(Debug)]
pub enum Ingested {
    /// Stored and shown, along with anything that was waiting for it.
    New,
    /// Already held; nothing to do.
    Duplicate,
    /// Early: held back until what comes before it arrives. `ask_sync` says
    /// whether to ask the peer that sent it for that history.
    Parked { community: CommunityId, ask_sync: bool },
    /// Refused.
    Rejected(StoreError),
}

/// Everything a channel's history holds is a message in that channel.
proof fn lemma_channel_messages(log: Seq<SignedEventModel>, c: Seq<u8>, ch: Seq<u8>)
    ensures
        forall|i: int|
            0 <= i < channel_messages(log, c, ch).len() ==> (#[trigger] channel_messages(log, c, ch)[i]).event.payload is Message,
    decreases log.len(),
{
    if log.len() > 0 {
        lemma_channel_messages(log.drop_last(), c, ch);
    }
}

/// A user community id is known: its genesis is held.
pub open spec fn has_community_row(events: Seq<SignedEventModel>, c: Seq<u8>) -> bool {
    exists|i: int|
        0 <= i < crate::store::views::community_rows(events).len() && (#[trigger] crate::store::views::community_rows(
            events,
        )[i]).id == c
}

/// `s` without `c`.
pub open spec fn without(s: Seq<Seq<u8>>, c: Seq<u8>) -> Seq<Seq<u8>>
    decreases s.len(),
{
    if s.len() == 0 {
        seq![]
    } else {
        let rest = without(s.drop_last(), c);
        if s.last() == c {
            rest
        } else {
            rest.push(s.last())
        }
    }
}

/// Taking a name out leaves no copy of it.
proof fn lemma_without_drops(s: Seq<Seq<u8>>, c: Seq<u8>)
    ensures
        !without(s, c).contains(c),
    decreases s.len(),
{
    if s.len() > 0 {
        let rest = s.drop_last();
        lemma_without_drops(rest, c);
        if without(s, c).contains(c) {
            let k = choose|k: int| 0 <= k < without(s, c).len() && without(s, c)[k] == c;
            if s.last() != c && k == without(rest, c).len() {
            } else {
                assert(without(rest, c)[k] == c);
            }
        }
    }
}

/// Taking a name out keeps only names that were there.
proof fn lemma_without_shrinks(s: Seq<Seq<u8>>, c: Seq<u8>)
    ensures
        shrank(s, without(s, c)),
    decreases s.len(),
{
    if s.len() > 0 {
        let rest = s.drop_last();
        lemma_without_shrinks(rest, c);
        assert forall|x: Seq<u8>| #[trigger] without(s, c).contains(x) implies s.contains(x) by {
            if without(s, c) == without(rest, c).push(s.last()) && x == s.last() {
                assert(s[s.len() - 1] == x);
            } else {
                if without(s, c) == without(rest, c).push(s.last()) {
                    let k = choose|k: int| 0 <= k < without(s, c).len() && without(s, c)[k] == x;
                    assert(without(rest, c)[k] == x);
                }
                assert(without(rest, c).contains(x));
                let k = choose|k: int| 0 <= k < rest.len() && rest[k] == x;
                assert(s[k] == x);
            }
        }
    }
}

/// The members of a community, as a member list shows them.
pub open spec fn member_summaries_of(events: Seq<SignedEventModel>, c: Seq<u8>) -> Seq<MemberSummaryRow> {
    member_rows(events, c).map_values(|m: crate::store::views::MemberRow| crate::store::views::member_summary(m))
}

/// Members named in an invite, beyond this node.
pub const INVITE_PEERS: usize = 3;

/// The first `INVITE_PEERS` of a list.
pub open spec fn first_few<T>(s: Seq<T>) -> Seq<T> {
    if s.len() <= INVITE_PEERS {
        s
    } else {
        s.take(INVITE_PEERS as int)
    }
}

/// `acc` with each member of `ms` that has a peer id and an address.
pub open spec fn with_members(acc: Seq<InvitePeerModel>, ms: Seq<PeerModel>) -> Seq<InvitePeerModel>
    decreases ms.len(),
{
    if ms.len() == 0 {
        acc
    } else {
        let a = with_members(acc, ms.drop_last());
        let m = ms.last();
        if is_peer_id(m.peer_id) && m.addrs.len() > 0 {
            a.push(InvitePeerModel { peer_id: bs58_text(m.peer_id), addrs: m.addrs })
        } else {
            a
        }
    }
}

/// `acc` with each relay of `rs` that has a peer id and an address and is
/// not named already.
pub open spec fn with_relays(acc: Seq<InvitePeerModel>, rs: Seq<PeerModel>) -> Seq<InvitePeerModel>
    decreases rs.len(),
{
    if rs.len() == 0 {
        acc
    } else {
        let a = with_relays(acc, rs.drop_last());
        let m = rs.last();
        if is_peer_id(m.peer_id) && m.addrs.len() > 0 && !(exists|i: int|
            0 <= i < a.len() && (#[trigger] a[i]).peer_id == bs58_text(m.peer_id)) {
            a.push(InvitePeerModel { peer_id: bs58_text(m.peer_id), addrs: m.addrs })
        } else {
            a
        }
    }
}

/// The members whose peer id is among `connected`, in order.
pub open spec fn online(ms: Seq<MemberSummaryRow>, connected: Seq<Seq<u8>>) -> Seq<Seq<u8>>
    decreases ms.len(),
{
    if ms.len() == 0 {
        seq![]
    } else {
        let rest = online(ms.drop_last(), connected);
        let m = ms.last();
        if peer_of_user(m.id) matches Some(p) && connected.contains(p) {
            rest.push(m.id)
        } else {
            rest
        }
    }
}

/// Whether a user's peer id is among the connected peers.
pub open spec fn peer_connected(u: Seq<u8>, connected: Seq<Seq<u8>>) -> bool {
    peer_of_user(u) is Some && connected.contains(peer_of_user(u)->Some_0)
}

/// `idx` picks, in rising order, members of `ms` whose ids are `ids`.
pub open spec fn picked_in_order(ids: Seq<Seq<u8>>, ms: Seq<MemberSummaryRow>, idx: Seq<int>) -> bool {
    &&& idx.len() == ids.len()
    &&& forall|k: int| 0 <= k < idx.len() ==> 0 <= #[trigger] idx[k] < ms.len() && ms[idx[k]].id == ids[k]
    &&& forall|k1: int, k2: int| 0 <= k1 < k2 < idx.len() ==> #[trigger] idx[k1] < #[trigger] idx[k2]
}

/// The members reported online come in member-list order, each once for
/// each place it holds in the list.
pub proof fn law_online_keeps_member_order(ms: Seq<MemberSummaryRow>, connected: Seq<Seq<u8>>)
    ensures
        exists|idx: Seq<int>| picked_in_order(online(ms, connected), ms, idx),
    decreases ms.len(),
{
    if ms.len() == 0 {
        assert(picked_in_order(online(ms, connected), ms, Seq::<int>::empty()));
    } else {
        let rest = ms.drop_last();
        let m = ms.last();
        law_online_keeps_member_order(rest, connected);
        let r = online(rest, connected);
        let o = online(ms, connected);
        let ir = choose|idx: Seq<int>| picked_in_order(r, rest, idx);
        assert forall|k: int| 0 <= k < ir.len() implies 0 <= #[trigger] ir[k] < ms.len() && ms[ir[k]].id == r[k] by {
            assert(ms[ir[k]] == rest[ir[k]]);
        }
        if o == r {
            assert(picked_in_order(o, ms, ir));
        } else {
            assert(o == r.push(m.id));
            let io = ir.push(ms.len() - 1);
            assert forall|k: int| 0 <= k < io.len() implies 0 <= #[trigger] io[k] < ms.len() && ms[io[k]].id == o[k] by {
                if k < ir.len() {
                    assert(io[k] == ir[k]);
                }
            }
            assert forall|k1: int, k2: int| 0 <= k1 < k2 < io.len() implies #[trigger] io[k1] < #[trigger] io[k2] by {
                if k2 < ir.len() {
                    assert(io[k1] == ir[k1] && io[k2] == ir[k2]);
                } else {
                    assert(io[k1] == ir[k1]);
                }
            }
            assert(picked_in_order(o, ms, io));
        }
    }
}

/// A member is reported online exactly when it is in the member list and
/// its peer id is among the connected peers; everyone reported is one.
pub proof fn law_online_is_every_connected_member(ms: Seq<MemberSummaryRow>, connected: Seq<Seq<u8>>, u: Seq<u8>)
    ensures
        online(ms, connected).contains(u) <==> (peer_connected(u, connected) && exists|i: int|
            0 <= i < ms.len() && (#[trigger] ms[i]).id == u),
        online(ms, connected).len() <= ms.len(),
    decreases ms.len(),
{
    if ms.len() > 0 {
        let rest = ms.drop_last();
        let m = ms.last();
        law_online_is_every_connected_member(rest, connected, u);
        let o = online(ms, connected);
        let r = online(rest, connected);
        if o.contains(u) {
            let k = choose|k: int| 0 <= k < o.len() && o[k] == u;
            if k < r.len() && o == r.push(m.id) {
                assert(r[k] == u);
                assert(r.contains(u));
            }
            if o == r {
                assert(r[k] == u);
            }
            if r.contains(u) {
                let i = choose|i: int| 0 <= i < rest.len() && (#[trigger] rest[i]).id == u;
                assert(ms[i] == rest[i]);
            } else {
                assert(ms[ms.len() - 1].id == u);
            }
        }
        if peer_connected(u, connected) && exists|i: int| 0 <= i < ms.len() && (#[trigger] ms[i]).id == u {
            let i = choose|i: int| 0 <= i < ms.len() && (#[trigger] ms[i]).id == u;
            if i < rest.len() {
                assert(rest[i] == ms[i]);
                let k = choose|k: int| 0 <= k < r.len() && r[k] == u;
                if o == r.push(m.id) {
                    assert(o[k] == u);
                }
            } else {
                assert(o[r.len() as int] == u);
            }
        }
    }
}

/// The invite peers a member becomes: its peer id in text and its
/// addresses.
pub open spec fn invite_peer_of(m: PeerModel) -> InvitePeerModel {
    InvitePeerModel { peer_id: bs58_text(m.peer_id), addrs: m.addrs }
}

/// A member an invite can name: one with a valid peer id and an address.
pub open spec fn dialable_member(m: PeerModel) -> bool {
    is_peer_id(m.peer_id) && m.addrs.len() > 0
}

/// An invite names, after the peers it starts from, exactly the remembered
/// members that have a valid peer id and at least one address, each with
/// its addresses, in order: every one of them, and no member without an
/// address.
pub proof fn law_invite_names_the_dialable_members(acc: Seq<InvitePeerModel>, ms: Seq<PeerModel>)
    ensures
        with_members(acc, ms).len() >= acc.len(),
        with_members(acc, ms).take(acc.len() as int) == acc,
        forall|j: int|
            acc.len() <= j < with_members(acc, ms).len() ==> (#[trigger] with_members(acc, ms)[j]).addrs.len() > 0
                && exists|i: int|
                0 <= i < ms.len() && dialable_member(ms[i]) && with_members(acc, ms)[j] == #[trigger] invite_peer_of(ms[i]),
        forall|i: int|
            0 <= i < ms.len() && dialable_member(#[trigger] ms[i]) ==> exists|j: int|
                acc.len() <= j < with_members(acc, ms).len() && with_members(acc, ms)[j] == invite_peer_of(ms[i]),
    decreases ms.len(),
{
    if ms.len() == 0 {
        assert(acc.take(acc.len() as int) =~= acc);
    } else {
        let rest = ms.drop_last();
        let m = ms.last();
        law_invite_names_the_dialable_members(acc, rest);
        let a = with_members(acc, rest);
        let w = with_members(acc, ms);
        if dialable_member(m) {
            assert(w == a.push(invite_peer_of(m)));
            assert(w.take(acc.len() as int) =~= a.take(acc.len() as int));
        } else {
            assert(w == a);
        }
        assert forall|j: int| acc.len() <= j < w.len() implies (#[trigger] w[j]).addrs.len() > 0 && exists|i: int|
            0 <= i < ms.len() && dialable_member(ms[i]) && w[j] == #[trigger] invite_peer_of(ms[i]) by {
            if j < a.len() {
                assert(w[j] == a[j]);
                let i = choose|i: int| 0 <= i < rest.len() && dialable_member(rest[i]) && a[j] == #[trigger] invite_peer_of(rest[i]);
                assert(ms[i] == rest[i]);
            } else {
                assert(w[j] == invite_peer_of(ms[ms.len() - 1]));
            }
        }
        assert forall|i: int| 0 <= i < ms.len() && dialable_member(#[trigger] ms[i]) implies exists|j: int|
            acc.len() <= j < w.len() && w[j] == invite_peer_of(ms[i]) by {
            if i < rest.len() {
                assert(rest[i] == ms[i]);
                assert(dialable_member(rest[i]));
                let j = choose|j: int| acc.len() <= j < a.len() && a[j] == invite_peer_of(rest[i]);
                assert(w[j] == a[j]);
            } else {
                assert(w[a.len() as int] == invite_peer_of(m));
            }
        }
    }
}

/// Adding members never takes away the peers an invite starts from.
proof fn lemma_with_members_grows(acc: Seq<InvitePeerModel>, ms: Seq<PeerModel>)
    ensures
        with_members(acc, ms).len() >= acc.len(),
    decreases ms.len(),
{
    if ms.len() > 0 {
        lemma_with_members_grows(acc, ms.drop_last());
    }
}

/// `idx` picks, in rising order, dialable members of `ms` that the entries
/// `added` name.
pub open spec fn named_in_order(added: Seq<InvitePeerModel>, ms: Seq<PeerModel>, idx: Seq<int>) -> bool {
    &&& idx.len() == added.len()
    &&& forall|k: int|
        0 <= k < idx.len() ==> 0 <= #[trigger] idx[k] < ms.len() && dialable_member(ms[idx[k]]) && added[k]
            == invite_peer_of(ms[idx[k]])
    &&& forall|k1: int, k2: int| 0 <= k1 < k2 < idx.len() ==> #[trigger] idx[k1] < #[trigger] idx[k2]
}

/// The members an invite adds come in the order they were remembered, each
/// once.
pub proof fn law_invite_keeps_member_order(acc: Seq<InvitePeerModel>, ms: Seq<PeerModel>)
    ensures
        exists|idx: Seq<int>| named_in_order(with_members(acc, ms).skip(acc.len() as int), ms, idx),
    decreases ms.len(),
{
    if ms.len() == 0 {
        assert(with_members(acc, ms).skip(acc.len() as int) =~= Seq::<InvitePeerModel>::empty());
        assert(named_in_order(with_members(acc, ms).skip(acc.len() as int), ms, Seq::<int>::empty()));
    } else {
        let rest = ms.drop_last();
        let m = ms.last();
        law_invite_keeps_member_order(acc, rest);
        lemma_with_members_grows(acc, rest);
        let ar = with_members(acc, rest).skip(acc.len() as int);
        let aw = with_members(acc, ms).skip(acc.len() as int);
        let ir = choose|idx: Seq<int>| named_in_order(ar, rest, idx);
        assert forall|k: int| 0 <= k < ir.len() implies 0 <= #[trigger] ir[k] < ms.len() && dialable_member(ms[ir[k]]) && ar[k]
            == invite_peer_of(ms[ir[k]]) by {
            assert(ms[ir[k]] == rest[ir[k]]);
        }
        if dialable_member(m) {
            assert(aw =~= ar.push(invite_peer_of(m)));
            let io = ir.push(ms.len() - 1);
            assert forall|k: int| 0 <= k < io.len() implies 0 <= #[trigger] io[k] < ms.len() && dialable_member(ms[io[k]])
                && aw[k] == invite_peer_of(ms[io[k]]) by {
                if k < ir.len() {
                    assert(io[k] == ir[k] && aw[k] == ar[k]);
                }
            }
            assert forall|k1: int, k2: int| 0 <= k1 < k2 < io.len() implies #[trigger] io[k1] < #[trigger] io[k2] by {
                if k2 < ir.len() {
                    assert(io[k1] == ir[k1] && io[k2] == ir[k2]);
                } else {
                    assert(io[k1] == ir[k1]);
                }
            }
            assert(named_in_order(aw, ms, io));
        } else {
            assert(aw == ar);
            assert(named_in_order(aw, ms, ir));
        }
    }
}

/// The relays an invite adds have addresses too, and every relay with a
/// valid peer id and an address is named in it, by that peer id.
pub proof fn law_invite_names_the_dialable_relays(acc: Seq<InvitePeerModel>, rs: Seq<PeerModel>)
    ensures
        with_relays(acc, rs).len() >= acc.len(),
        with_relays(acc, rs).take(acc.len() as int) == acc,
        forall|j: int|
            acc.len() <= j < with_relays(acc, rs).len() ==> (#[trigger] with_relays(acc, rs)[j]).addrs.len() > 0,
        forall|i: int|
            0 <= i < rs.len() && dialable_member(#[trigger] rs[i]) ==> exists|j: int|
                0 <= j < with_relays(acc, rs).len() && with_relays(acc, rs)[j].peer_id == bs58_text(rs[i].peer_id),
    decreases rs.len(),
{
    if rs.len() == 0 {
        assert(acc.take(acc.len() as int) =~= acc);
    } else {
        let rest = rs.drop_last();
        let m = rs.last();
        law_invite_names_the_dialable_relays(acc, rest);
        let a = with_relays(acc, rest);
        let w = with_relays(acc, rs);
        let named = exists|i: int| 0 <= i < a.len() && (#[trigger] a[i]).peer_id == bs58_text(m.peer_id);
        if dialable_member(m) && !named {
            assert(w == a.push(invite_peer_of(m)));
            assert(w.take(acc.len() as int) =~= a.take(acc.len() as int));
        } else {
            assert(w == a);
        }
        assert forall|j: int| acc.len() <= j < w.len() implies (#[trigger] w[j]).addrs.len() > 0 by {
            if j < a.len() {
                assert(w[j] == a[j]);
            }
        }
        assert forall|i: int| 0 <= i < rs.len() && dialable_member(#[trigger] rs[i]) implies exists|j: int|
            0 <= j < w.len() && w[j].peer_id == bs58_text(rs[i].peer_id) by {
            if i < rest.len() {
                assert(rest[i] == rs[i]);
                assert(dialable_member(rest[i]));
                let j = choose|j: int| 0 <= j < a.len() && a[j].peer_id == bs58_text(rest[i].peer_id);
                assert(w[j] == a[j]);
            } else if named {
                let j = choose|j: int| 0 <= j < a.len() && (#[trigger] a[j]).peer_id == bs58_text(m.peer_id);
                assert(w[j] == a[j]);
            } else {
                assert(w[a.len() as int].peer_id == bs58_text(m.peer_id));
            }
        }
    }
}

/// The community a topic names, as `community_from_topic` reads it.
pub open spec fn community_from_topic_spec(topic: Seq<char>) -> Option<Seq<u8>> {
    if !crate::text::has_prefix(topic, crate::net::wire::TOPIC_PREFIX@) {
        None
    } else {
        match crate::proto::ids::spec_from_hex(topic.skip(crate::net::wire::TOPIC_PREFIX@.len() as int)) {
            Ok(b) => Some(b),
            Err(_) => None,
        }
    }
}

/// What a gossip message came to.
#[derive(Debug)]
pub enum Gossiped {
    /// Not on a community topic, or not a message this node can read.
    Ignored,
    /// An event, and what became of it.
    Event(Ingested),
    /// Another member said where they are: dial them there if not already
    /// connected.
    Dial { peer: Vec<u8>, addrs: Vec<String> },
    /// An announcement with nobody to dial: this node's own, or from a key
    /// that has no peer id.
    Noted,
}

/// The addresses among `addrs` that parse, as their canonical text.
pub open spec fn parsed_addrs(addrs: Seq<Seq<char>>) -> Seq<Seq<char>>
    decreases addrs.len(),
{
    if addrs.len() == 0 {
        seq![]
    } else {
        let rest = parsed_addrs(addrs.drop_last());
        match multiaddr_text(addrs.last()) {
            Some(t) => rest.push(t),
            None => rest,
        }
    }
}

/// Key under which a node keeps the display name its operator chose.
pub const META_DISPLAY_NAME: &'static str = "identity.display_name";

/// Key under which a node keeps its secret key.
pub const META_IDENTITY: &'static str = "identity.secret";

/// The meta value held under `key`: the first entry with that key.
pub open spec fn meta_value(t: Seq<(Seq<char>, Seq<u8>)>, key: Seq<char>) -> Option<Seq<u8>> {
    if exists|i: int| 0 <= i < t.len() && (#[trigger] t[i]).0 == key {
        let i = choose|i: int|
            0 <= i < t.len() && (#[trigger] t[i]).0 == key && forall|j: int| 0 <= j < i ==> (#[trigger] t[j]).0 != key;
        Some(t[i].1)
    } else {
        None
    }
}

/// Reads the node's keypair from beside its log, generating one on first
/// run.
///
/// The key lives beside the history it signs. Nothing is registered
/// anywhere, and copying a node's data copies the identity with it.
pub fn load_or_create_identity(store: &mut MemStore) -> (r: Result<Identity, NodeError>)
    ensures
        final(store).events() == old(store).events(),
        match meta_value(old(store).meta_table(), META_IDENTITY@) {
            Some(v) => final(store).meta_table() == old(store).meta_table() && (v.len() == 32 <==> r is Ok) && (r matches Ok(
                id,
            ) ==> id@ == v) && (r is Err ==> r matches Err(NodeError::Identity(_))),
            None => r matches Ok(id) && id@.len() == 32 && final(store).meta_table()
                == crate::store::peers::meta_put_result(old(store).meta_table(), META_IDENTITY@, id@),
        },
{
    let found = match store.meta_get(META_IDENTITY) {
        Ok(f) => f,
        Err(e) => return Err(NodeError::Store(e)),
    };
    proof {
        lemma_meta_value(old(store).meta_table(), META_IDENTITY@);
    }
    match found {
        Some(secret) => match Identity::from_secret(secret.as_slice()) {
            Ok(id) => Ok(id),
            Err(e) => Err(NodeError::Identity(e)),
        },
        None => {
            let identity = Identity::generate();
            let secret = identity.secret_bytes();
            match store.meta_put(META_IDENTITY, &secret) {
                Ok(()) => {},
                Err(e) => return Err(NodeError::Store(e)),
            }
            Ok(identity)
        },
    }
}

proof fn lemma_meta_value(t: Seq<(Seq<char>, Seq<u8>)>, key: Seq<char>)
    ensures
        meta_value(t, key) is None <==> forall|i: int| 0 <= i < t.len() ==> (#[trigger] t[i]).0 != key,
        forall|i: int|
            0 <= i < t.len() && (#[trigger] t[i]).0 == key && (forall|j: int| 0 <= j < i ==> (#[trigger] t[j]).0 != key)
                ==> meta_value(t, key) == Some(t[i].1),
{
    assert forall|i: int|
        0 <= i < t.len() && (#[trigger] t[i]).0 == key && (forall|j: int| 0 <= j < i ==> (#[trigger] t[j]).0 != key)
            implies meta_value(t, key) == Some(t[i].1) by {
        let k = choose|k: int|
            0 <= k < t.len() && (#[trigger] t[k]).0 == key && forall|j: int| 0 <= j < k ==> (#[trigger] t[j]).0 != key;
        if k < i {
            assert(t[k].0 != key);
        } else if i < k {
            assert(t[i].0 != key);
        }
    }
}

/// The name a node goes by: the one configured, else the one kept from
/// last time, else one made from its own id. A configured or made-up name
/// is kept for next time.
pub fn resolve_display_name(store: &mut MemStore, identity: &Identity, configured: Option<String>) -> (r: Result<
    String,
    NodeError,
>)
    ensures
        final(store).events() == old(store).events(),
        match configured {
            Some(name) => r matches Ok(s) && s@ == name@ && final(store).meta_table()
                == crate::store::peers::meta_put_result(
                old(store).meta_table(),
                META_DISPLAY_NAME@,
                vstd::utf8::encode_utf8(name@),
            ),
            None => match meta_value(old(store).meta_table(), META_DISPLAY_NAME@) {
                Some(v) => r matches Ok(s) && s@ == crate::text::lossy_text(v) && final(store).meta_table() == old(
                    store,
                ).meta_table(),
                None => r matches Ok(s) && s@ == "kahui-"@ + hex_encode(user_of(identity@).subrange(0, 4))
                    && final(store).meta_table() == crate::store::peers::meta_put_result(
                    old(store).meta_table(),
                    META_DISPLAY_NAME@,
                    vstd::utf8::encode_utf8(s@),
                ),
            },
        },
{
    if let Some(name) = configured {
        match store.meta_put(META_DISPLAY_NAME, name.as_str().as_bytes()) {
            Ok(()) => {},
            Err(e) => return Err(NodeError::Store(e)),
        }
        return Ok(name);
    }
    let found = match store.meta_get(META_DISPLAY_NAME) {
        Ok(f) => f,
        Err(e) => return Err(NodeError::Store(e)),
    };
    proof {
        lemma_meta_value(old(store).meta_table(), META_DISPLAY_NAME@);
    }
    match found {
        Some(stored) => Ok(crate::text::string_from_utf8_lossy(stored.as_slice())),
        None => {
            let mut generated = "kahui-".to_owned();
            let short = identity.user_id().short();
            crate::text::append_str(&mut generated, short.as_str());
            match store.meta_put(META_DISPLAY_NAME, generated.as_str().as_bytes()) {
                Ok(()) => {},
                Err(e) => return Err(NodeError::Store(e)),
            }
            Ok(generated)
        },
    }
}

/// An event a node writes into a community it holds always extends its own
/// chain: its position is free, the position before it is held, and it
/// names the event held there. So the store never refuses it for its place
/// in the chain; the only checks left are the event's own validity and
/// whether an identical event is already held.
pub proof fn law_authored_event_extends_chain(
    events: Seq<SignedEventModel>,
    secret: Seq<u8>,
    community: Seq<u8>,
    payload: PayloadModel,
    e: SignedEventModel,
)
    requires
        slots_unique(events),
        knows_community(events, community),
        !is_genesis_payload(payload),
        authored_as(events, secret, community, payload, e),
    ensures
        admission(events, e) is Accept || admission(events, e) is Duplicate,
{
    reveal(authored_as);
    let me = user_of(secret);
    let t = choose|t: ChainTip, ts: u64|
        tip_from(events, community, me, t) && #[trigger] is_created_event(
            e.event,
            me,
            community,
            t.next_seq,
            opt_id_view(t.prev_self),
            t.next_lamport,
            ids_view(t.parents@),
            ts,
            payload,
        ) && e.signature == ed25519_signature(secret, preimage_of(e.event));
    let f = pairs_max(chain_pairs(events, community));
    let n = e.event.seq;
    assert(community_in(e) == community);
    if !holds_id(events, id_of(e)) {
        // The position is free.
        if slot_taken(events, community, me, n as int) {
            lemma_held_below_max(events, community, me, n as int);
        }
        if n > 0 {
            assert(f.contains_key(me));
            lemma_frontier_value_held(events, community, me);
            assert(n - 1 == f[me]);
            lemma_head_is_max(events, community, me);
            let (hn, hid) = head_of(events, community, me).unwrap();
            let j = choose|j: int|
                0 <= j < events.len() && #[trigger] in_slot(events[j], community, me, hn as int) && id_of(events[j]) == hid;
            let i = slot_index(events, community, me, n - 1);
            assert(in_slot(events[i], community, me, n - 1));
            if i < j {
                assert(!in_slot(events[i], community_in(events[j]), events[j].event.author, events[j].event.seq as int));
            } else if j < i {
                assert(!in_slot(events[j], community_in(events[i]), events[i].event.author, events[i].event.seq as int));
            }
        }
    }
}

/// How many of `outs` are `New`.
pub open spec fn count_new(outs: Seq<Ingested>) -> nat
    decreases outs.len(),
{
    if outs.len() == 0 {
        0
    } else {
        count_new(outs.drop_last()) + if outs.last() is New {
            1nat
        } else {
            0nat
        }
    }
}

/// `v` is where this node stands in each community `events` hold, in the
/// order the community list gives: name, member and channel counts, and how
/// many events it holds (saturating).
pub open spec fn statuses_of(events: Seq<SignedEventModel>, v: Seq<CommunityStatus>) -> bool {
    exists|sums: Seq<CommunityRow>|
        #[trigger] sorted_rows(community_rows(events), community_keys(community_rows(events)), sums)
            && v.len() == sums.len() && forall|i: int|
            0 <= i < sums.len() ==> {
                &&& (#[trigger] v[i]).id@ == sums[i].id
                &&& v[i].name@ == sums[i].name
                &&& v[i].members == member_rows(events, sums[i].id).len()
                &&& v[i].channels == channel_rows(events, sums[i].id).len()
                &&& exists|p: Seq<(Seq<u8>, u64)>|
                    sorted_keys(p) && frontier_map(p) == pairs_max(chain_pairs(events, sums[i].id))
                        && v[i].events == if total_of(p) <= u64::MAX {
                        total_of(p)
                    } else {
                        u64::MAX as int
                    }
            }
}

/// A running node's state: who it is, what it holds, and what it has to
/// tell the world.
pub struct Engine {
    identity: Identity,
    me: UserId,
    display_name: String,
    store: MemStore,
    joined: Vec<CommunityId>,
    pending_joins: Vec<CommunityId>,
    orphans: OrphanBuffer,
    /// Notifications for the user, oldest first.
    outbox: Vec<NodeEvent>,
    /// Events this node wrote, to gossip to its communities.
    outgoing: Vec<SignedEvent>,
    /// Joins that have been settled, with how, for whoever asked to join.
    settled: Vec<(CommunityId, Result<CommunityId, NodeError>)>,
    /// What this node knows of the network.
    net: NetState,
}

impl Engine {
    pub closed spec fn secret(&self) -> Seq<u8> {
        self.identity@
    }

    pub closed spec fn me(&self) -> Seq<u8> {
        self.me@
    }

    pub closed spec fn name(&self) -> Seq<char> {
        self.display_name@
    }

    pub closed spec fn events(&self) -> Seq<SignedEventModel> {
        self.store.events()
    }

    pub closed spec fn store_view(&self) -> MemStore {
        self.store
    }

    pub closed spec fn joined(&self) -> Seq<Seq<u8>> {
        self.joined@.map_values(|c: CommunityId| c@)
    }

    pub closed spec fn pending(&self) -> Seq<Seq<u8>> {
        self.pending_joins@.map_values(|c: CommunityId| c@)
    }

    pub closed spec fn parked(&self) -> Seq<(Seq<u8>, SignedEventModel)> {
        self.orphans.parked()
    }

    pub closed spec fn outbox(&self) -> Seq<NodeEvent> {
        self.outbox@
    }

    pub closed spec fn outgoing(&self) -> Seq<SignedEventModel> {
        events_view(self.outgoing@)
    }

    pub closed spec fn settled(&self) -> Seq<(CommunityId, Result<CommunityId, NodeError>)> {
        self.settled@
    }

    pub closed spec fn net(&self) -> NetModel {
        self.net@
    }

    pub closed spec fn wf(&self) -> bool {
        &&& self.orphans.wf()
        &&& self.me@ == user_of(self.identity@)
    }

    /// A node with `identity`, calling itself `display_name`, over what
    /// `store` holds.
    pub fn new(identity: Identity, display_name: String, store: MemStore) -> (e: Engine)
        ensures
            e.wf(),
            e.secret() == identity@,
            e.me() == user_of(identity@),
            e.name() == display_name@,
            e.events() == store.events(),
            e.store_view() == store,
            e.joined().len() == 0,
            e.pending().len() == 0,
            e.parked().len() == 0,
            e.outbox().len() == 0,
            e.outgoing().len() == 0,
            e.settled().len() == 0,
            e.net().reachability is None && !e.net().fixed && e.net().listen.len() == 0 && e.net().external.len() == 0
                && e.net().connected.len() == 0 && e.net().candidates.len() == 0 && e.net().relayed_by.len() == 0
                && e.net().via.len() == 0 && e.net().mapped_port is None,
    {
        let me = identity.user_id();
        let e = Engine {
            identity,
            me,
            display_name,
            store,
            joined: Vec::new(),
            pending_joins: Vec::new(),
            orphans: OrphanBuffer::new(),
            outbox: Vec::new(),
            outgoing: Vec::new(),
            settled: Vec::new(),
            net: NetState::new(None),
        };
        assert(e.outgoing() =~= Seq::<SignedEventModel>::empty());
        e
    }

    /// This node's identity in the event log.
    pub fn user(&self) -> (u: UserId)
        ensures
            u@ == self.me(),
    {
        self.me
    }

    /// The name this node goes by.
    pub fn display_name(&self) -> (s: &String)
        ensures
            s@ == self.name(),
    {
        &self.display_name
    }

    /// What the node holds.
    pub fn store(&self) -> (s: &MemStore)
        ensures
            *s == self.store_view(),
    {
        &self.store
    }

    /// Takes the notifications gathered so far, oldest first.
    pub fn take_events(&mut self) -> (v: Vec<NodeEvent>)
        requires
            old(self).wf(),
        ensures
            final(self).wf(),
            v@ == old(self).outbox(),
            final(self).outbox().len() == 0,
            final(self).events() == old(self).events(),
            final(self).outgoing() == old(self).outgoing(),
    {
        let mut v: Vec<NodeEvent> = Vec::new();
        std::mem::swap(&mut v, &mut self.outbox);
        v
    }

    /// Takes the events written here since last asked, to gossip them.
    /// Hands over the joins settled since the last call, with how each
    /// went, and forgets them.
    pub fn take_settled(&mut self) -> (v: Vec<(CommunityId, Result<CommunityId, NodeError>)>)
        requires
            old(self).wf(),
        ensures
            final(self).wf(),
            v@ == old(self).settled(),
            final(self).settled().len() == 0,
            final(self).events() == old(self).events(),
            final(self).outbox() == old(self).outbox(),
            final(self).outgoing() == old(self).outgoing(),
            final(self).pending() == old(self).pending(),
    {
        let mut v: Vec<(CommunityId, Result<CommunityId, NodeError>)> = Vec::new();
        std::mem::swap(&mut v, &mut self.settled);
        v
    }

    pub fn take_outgoing(&mut self) -> (v: Vec<SignedEvent>)
        requires
            old(self).wf(),
        ensures
            final(self).wf(),
            events_view(v@) == old(self).outgoing(),
            final(self).outgoing().len() == 0,
            final(self).events() == old(self).events(),
            final(self).outbox() == old(self).outbox(),
    {
        let mut v: Vec<SignedEvent> = Vec::new();
        std::mem::swap(&mut v, &mut self.outgoing);
        assert(events_view(self.outgoing@) =~= Seq::<SignedEventModel>::empty());
        v
    }

    /// How a user is shown in a community.
    pub fn display_name_of(&self, community: &CommunityId, user: &UserId) -> (s: String)
        ensures
            s@ == name_in(self.events(), community@, user@),
    {
        match self.store.member(community, user) {
            Ok(Some(member)) => member.display_name,
            // A message can legitimately arrive before its sender's join
            // does; a short id is a better placeholder than a blank.
            _ => user.short(),
        }
    }

    /// What to show for a stored event.
    pub fn announce(&self, community: &CommunityId, event: &SignedEvent) -> (ev: NodeEvent)
        ensures
            announcement(ev, community@, event@, name_in(self.events(), community@, event@.event.author)),
    {
        let author = event.author();
        match event.payload() {
            Payload::Message { channel, body } => NodeEvent::Message(
                Message {
                    id: event.id(),
                    community: *community,
                    channel: *channel,
                    author,
                    author_name: self.display_name_of(community, &author),
                    body: body.clone(),
                    timestamp_ms: event.event.timestamp_ms,
                    lamport: event.event.lamport,
                },
            ),
            Payload::Join { display_name } => NodeEvent::Membership {
                community: *community,
                user: author,
                display_name: display_name.clone(),
            },
            Payload::SetDisplayName { display_name } => NodeEvent::Membership {
                community: *community,
                user: author,
                display_name: display_name.clone(),
            },
            Payload::CreateChannel { channel, name, .. } => NodeEvent::ChannelCreated {
                community: *community,
                channel: *channel,
                name: name.clone(),
            },
            Payload::CreateCommunity { name, .. } => NodeEvent::CommunityCreated {
                community: *community,
                name: name.clone(),
            },
        }
    }

    /// Tells the user about a stored event.
    pub fn emit_for(&mut self, community: &CommunityId, event: &SignedEvent)
        requires
            old(self).wf(),
        ensures
            final(self).net() == old(self).net(),
            final(self).wf(),
            final(self).outbox().len() == old(self).outbox().len() + 1,
            final(self).outbox().take(old(self).outbox().len() as int) == old(self).outbox(),
            announcement(
                final(self).outbox().last(),
                community@,
                event@,
                name_in(old(self).events(), community@, event@.event.author),
            ),
            final(self).events() == old(self).events(),
            final(self).store_view() == old(self).store_view(),
            final(self).outgoing() == old(self).outgoing(),
            final(self).settled() == old(self).settled(),
            final(self).parked() == old(self).parked(),
            final(self).joined() == old(self).joined(),
            final(self).pending() == old(self).pending(),
            final(self).secret() == old(self).secret(),
            final(self).me() == old(self).me(),
            final(self).name() == old(self).name(),
    {
        let ev = self.announce(community, event);
        let ghost before = self.outbox@;
        self.outbox.push(ev);
        assert(self.outbox@.take(before.len() as int) =~= before);
    }
    /// Everything outside the log stays as it was.
    pub open spec fn same_state(&self, other: &Engine) -> bool {
        &&& other.wf()
        &&& other.secret() == self.secret()
        &&& other.me() == self.me()
        &&& other.name() == self.name()
        &&& other.joined() == self.joined()
        &&& other.pending() == self.pending()
        &&& other.parked() == self.parked()
        &&& other.store_view().meta_table() == self.store_view().meta_table()
        &&& other.store_view().peer_table() == self.store_view().peer_table()
        &&& other.store_view().relay_table() == self.store_view().relay_table()
        &&& other.settled() == self.settled()
        &&& other.net() == self.net()
    }

    /// What `author` leaves behind once `e` was written with result `r`.
    pub open spec fn authored_step(
        &self,
        after: &Engine,
        community: Seq<u8>,
        payload: PayloadModel,
        e: SignedEventModel,
        r: Result<SignedEvent, NodeError>,
    ) -> bool {
        &&& self.same_state(after)
        &&& authored_as(self.events(), self.secret(), community, payload, e)
        &&& stored_with(self.events(), e, after.events(), r)
        &&& if r is Ok {
            &&& after.outbox().len() == self.outbox().len() + 1
            &&& after.outbox().take(self.outbox().len() as int) == self.outbox()
            &&& announcement(
                after.outbox().last(),
                community_in(e),
                e,
                name_in(after.events(), community_in(e), e.event.author),
            )
            &&& after.outgoing() == self.outgoing().push(e)
        } else {
            &&& after.outbox() == self.outbox()
            &&& after.outgoing() == self.outgoing()
        }
    }

    /// Writes the next event of this node's own chain: reads where the
    /// chain stands, signs, stores, tells the user, and queues it for gossip.
    ///
    /// Pass a zero community id to found a community.
    pub fn author(&mut self, community: CommunityId, payload: Payload) -> (r: Result<SignedEvent, NodeError>)
        requires
            old(self).wf(),
        ensures
            exists|e: SignedEventModel| #[trigger] old(self).authored_step(final(self), community@, payload@, e, r),
            old(self).same_state(final(self)),
            r matches Ok(s) ==> authored_as(old(self).events(), old(self).secret(), community@, payload@, s@),
            r matches Ok(s) ==> accepted(old(self).events(), s@, final(self).events()),
            r matches Ok(s) ==> final(self).outgoing() == old(self).outgoing().push(s@),
            r matches Ok(s) ==> final(self).outbox().len() == old(self).outbox().len() + 1,
            r matches Ok(s) ==> final(self).outbox().take(old(self).outbox().len() as int) == old(self).outbox(),
            r matches Ok(s) ==> announcement(
                final(self).outbox().last(),
                community_in(s@),
                s@,
                name_in(final(self).events(), community_in(s@), s@.event.author),
            ),
            r matches Err(x) ==> x is Store,
    {
        let ghost payload_view = payload@;
        let t = match tip(&self.store, &community, &self.me) {
            Ok(t) => t,
            Err(e) => return Err(NodeError::Store(e)),
        };
        let now = now_ms();
        let event = Event::create(&self.identity, community, &t, now, payload);
        let ghost e = event@;
        let ghost before = self.events();
        assert(is_created_event(
            e.event,
            user_of(self.identity@),
            community@,
            t.next_seq,
            opt_id_view(t.prev_self),
            t.next_lamport,
            ids_view(t.parents@),
            now,
            payload_view,
        ));
        assert(authored_as(before, self.secret(), community@, payload_view, e)) by {
            reveal(authored_as);
        }
        let put = self.store.put_event(&event);
        match put {
            Err(err) => {
                let r = Err(NodeError::Store(err));
                assert(put_result(before, e, put, self.events()));
                assert(stored_with(before, e, self.events(), r)) by {
                    reveal(stored_with);
                }
                assert(old(self).authored_step(self, community@, payload_view, e, r));
                r
            },
            Ok(_) => {
                let resolved = event.community_id();
                self.emit_for(&resolved, &event);
                let ghost sent = self.outgoing();
                self.outgoing.push(event.clone());
                assert(self.outgoing() =~= sent.push(e));
                let r = Ok(event);
                assert(put_result(before, e, put, self.events()));
                assert(stored_with(before, e, self.events(), r)) by {
                    reveal(stored_with);
                }
                assert(accepted(before, e, self.events())) by {
                    reveal(accepted);
                }
                assert(old(self).authored_step(self, community@, payload_view, e, r));
                r
            },
        }
    }

    /// Opens a channel in a community. Its id follows from the community
    /// and the name.
    pub fn create_channel(&mut self, community: CommunityId, name: String, topic: String) -> (r: Result<
        ChannelId,
        NodeError,
    >)
        requires
            old(self).wf(),
        ensures
            exists|e: SignedEventModel, w: Result<SignedEvent, NodeError>|
                #[trigger] old(self).authored_step(
                    final(self),
                    community@,
                    PayloadModel::CreateChannel {
                        channel: crate::proto::ids::channel_id_of(community@, name@),
                        name: name@,
                        topic: topic@,
                    },
                    e,
                    w,
                ) && (r is Ok <==> w is Ok) && (r matches Ok(ch) ==> ch@ == crate::proto::ids::channel_id_of(
                    community@,
                    name@,
                )) && (w matches Err(x) ==> r == Err::<ChannelId, NodeError>(x)),
    {
        let channel = ChannelId::derive(&community, name.as_str());
        let w = self.author(community, Payload::CreateChannel { channel, name, topic });
        match w {
            Ok(_) => Ok(channel),
            Err(x) => Err(x),
        }
    }

    /// Writes a message to a channel.
    pub fn post(&mut self, community: CommunityId, channel: ChannelId, body: String) -> (r: Result<
        EventId,
        NodeError,
    >)
        requires
            old(self).wf(),
        ensures
            exists|e: SignedEventModel, w: Result<SignedEvent, NodeError>|
                #[trigger] old(self).authored_step(
                    final(self),
                    community@,
                    PayloadModel::Message { channel: channel@, body: body@ },
                    e,
                    w,
                ) && (r is Ok <==> w is Ok) && (r matches Ok(id) ==> w matches Ok(s) && id@ == id_of(s@)) && (w matches Err(x) ==> r
                    == Err::<EventId, NodeError>(x)),
    {
        let w = self.author(community, Payload::Message { channel, body });
        match w {
            Ok(event) => Ok(event.id()),
            Err(x) => Err(x),
        }
    }
    /// Whether this node takes part in a community.
    pub fn takes_part_in(&self, community: &CommunityId) -> (b: bool)
        ensures
            b == self.joined().contains(community@),
    {
        let ghost j = self.joined();
        let mut i: usize = 0;
        while i < self.joined.len()
            invariant
                j == self.joined@.map_values(|c: CommunityId| c@),
                j.len() == self.joined@.len(),
                i <= j.len(),
                forall|k: int| 0 <= k < i ==> j[k] != community@,
            decreases j.len() - i,
        {
            if self.joined[i] == *community {
                assert(j[i as int] == community@);
                return true;
            }
            i += 1;
        }
        false
    }

    /// Adds a community to those this node takes part in.
    fn join_set(&mut self, community: CommunityId)
        requires
            old(self).wf(),
        ensures
            final(self).wf(),
            final(self).joined() == if old(self).joined().contains(community@) {
                old(self).joined()
            } else {
                old(self).joined().push(community@)
            },
            final(self).events() == old(self).events(),
            final(self).store_view() == old(self).store_view(),
            final(self).outbox() == old(self).outbox(),
            final(self).outgoing() == old(self).outgoing(),
            final(self).parked() == old(self).parked(),
            final(self).pending() == old(self).pending(),
            final(self).secret() == old(self).secret(),
            final(self).me() == old(self).me(),
            final(self).name() == old(self).name(),
    {
        if self.takes_part_in(&community) {
            return;
        }
        let ghost j = self.joined();
        self.joined.push(community);
        assert(self.joined() =~= j.push(community@));
    }

    /// Founds a community: the genesis event, this node's own membership,
    /// and a `#general` channel.
    ///
    /// The founder joins like anybody else. There is no owner flag, because
    /// there is nothing for one to unlock.
    #[verifier::rlimit(80)]
    pub fn create_community(&mut self, name: String, description: String) -> (r: Result<CommunityId, NodeError>)
        requires
            old(self).wf(),
        ensures
            final(self).wf(),
            final(self).secret() == old(self).secret(),
            final(self).name() == old(self).name(),
            final(self).parked() == old(self).parked(),
            r is Err ==> r matches Err(NodeError::Store(_)),
            r matches Ok(c) ==> exists|logs: Seq<Seq<SignedEventModel>>, es: Seq<SignedEventModel>|
                #![trigger logs.len(), es.len()]
                {
                    &&& logs.len() == 4
                    &&& es.len() == 3
                    &&& logs[0] == old(self).events()
                    &&& logs[3] == final(self).events()
                    &&& authored_as(
                        logs[0],
                        old(self).secret(),
                        crate::proto::ids::zero_bytes(),
                        PayloadModel::CreateCommunity { name: name@, description: description@ },
                        es[0],
                    )
                    &&& c@ == community_in(es[0])
                    &&& authored_as(logs[1], old(self).secret(), c@, PayloadModel::Join { display_name: old(self).name() }, es[1])
                    &&& authored_as(
                        logs[2],
                        old(self).secret(),
                        c@,
                        PayloadModel::CreateChannel {
                            channel: crate::proto::ids::channel_id_of(c@, "general"@),
                            name: "general"@,
                            topic: "Everything else"@,
                        },
                        es[2],
                    )
                    &&& forall|i: int| 0 <= i < 3 ==> accepted(logs[i], es[i], logs[i + 1])
                    &&& final(self).outgoing() == old(self).outgoing() + es
                    &&& final(self).outbox().take(old(self).outbox().len() as int) == old(self).outbox()
                    &&& announced_each(logs, es, final(self).outbox().skip(old(self).outbox().len() as int))
                },
            r matches Ok(c) ==> final(self).joined() == if old(self).joined().contains(c@) {
                old(self).joined()
            } else {
                old(self).joined().push(c@)
            },
            r matches Err(x) ==> exists|logs: Seq<Seq<SignedEventModel>>, es: Seq<SignedEventModel>|
                #![trigger logs.len(), es.len()]
                {
                    &&& es.len() <= 3
                    &&& stopped_at_last(logs, es, x)
                    &&& logs[0] == old(self).events()
                    &&& logs[es.len() as int] == final(self).events()
                    &&& forall|i: int|
                        0 <= i < es.len() ==> authored_as(
                            logs[i],
                            old(self).secret(),
                            founding_into(i, community_in(es[0])),
                            founding_payload(i, community_in(es[0]), name@, description@, old(self).name()),
                            #[trigger] es[i],
                        )
                    &&& final(self).outgoing() == old(self).outgoing() + es.drop_last()
                    &&& final(self).outbox().take(old(self).outbox().len() as int) == old(self).outbox()
                    &&& announced_each(logs, es.drop_last(), final(self).outbox().skip(old(self).outbox().len() as int))
                    &&& final(self).joined() == if es.len() == 1 || old(self).joined().contains(community_in(es[0])) {
                        old(self).joined()
                    } else {
                        old(self).joined().push(community_in(es[0]))
                    }
                },
    {
        let ghost l0 = self.events();
        let ghost s0 = self.outgoing();
        let ghost b0 = self.outbox();
        let ghost j0 = self.joined();
        let ghost secret = self.secret();
        let ghost pre0: Engine = *self;
        let ghost p0 = PayloadModel::CreateCommunity { name: name@, description: description@ };
        let zero = CommunityId::zero();
        let w0 = self.author(zero, Payload::CreateCommunity { name, description });
        let genesis = match w0 {
            Ok(g) => g,
            Err(x) => {
                proof {
                    let e = choose|e: SignedEventModel| #[trigger] pre0.authored_step(&*self, zero@, p0, e, w0);
                    let logs = seq![l0, self.events()];
                    let es = seq![e];
                    assert(es.drop_last() =~= Seq::<SignedEventModel>::empty());
                    assert(s0 + es.drop_last() =~= s0);
                    assert(self.outbox().take(b0.len() as int) =~= b0);
                    assert(self.outbox().skip(b0.len() as int) =~= Seq::<NodeEvent>::empty());
                    assert(founding_payload(0, community_in(es[0]), name@, description@, old(self).name()) == p0);
                    assert(stopped_at_last(logs, es, x));
                    assert(logs.len() == 2 && es.len() == 1);
                }
                return Err(x);
            },
        };
        let community = genesis.community_id();
        let ghost l1 = self.events();
        let ghost b1 = self.outbox();
        let ghost s1 = self.outgoing();
        self.join_set(community);
        let ghost j1 = self.joined();
        let joined_name = self.display_name.clone();
        let ghost pre1: Engine = *self;
        let ghost p1 = PayloadModel::Join { display_name: joined_name@ };
        let w1 = self.author(community, Payload::Join { display_name: joined_name });
        let join = match w1 {
            Ok(j) => j,
            Err(x) => {
                proof {
                    let e = choose|e: SignedEventModel| #[trigger] pre1.authored_step(&*self, community@, p1, e, w1);
                    let logs = seq![l0, l1, self.events()];
                    let es = seq![genesis@, e];
                    assert(es.drop_last() =~= seq![genesis@]);
                    assert(s0 + es.drop_last() =~= s1);
                    assert(self.outbox() == b1);
                    assert(b1.take(b0.len() as int) =~= b0);
                    assert(b1.skip(b0.len() as int) =~= seq![b1.last()]);
                    assert(founding_payload(1, community_in(es[0]), name@, description@, old(self).name()) == p1);
                    assert(forall|i: int| 0 <= i < es.len() - 1 ==> accepted(logs[i], #[trigger] es[i], logs[i + 1]));
                    assert(stopped_at_last(logs, es, x));
                    assert(forall|i: int|
                        0 <= i < es.len() ==> authored_as(
                            logs[i],
                            old(self).secret(),
                            founding_into(i, community_in(es[0])),
                            founding_payload(i, community_in(es[0]), name@, description@, old(self).name()),
                            #[trigger] es[i],
                        ));
                    assert(announced_each(logs, es.drop_last(), self.outbox().skip(b0.len() as int)));
                    assert(logs.len() == 3 && es.len() == 2);
                }
                return Err(x);
            },
        };
        let ghost l2 = self.events();
        let ghost b2 = self.outbox();
        let ghost s2 = self.outgoing();
        let general = "general".to_owned();
        let channel = ChannelId::derive(&community, general.as_str());
        let topic = "Everything else".to_owned();
        let ghost pre2: Engine = *self;
        let ghost p2 = PayloadModel::CreateChannel { channel: channel@, name: general@, topic: topic@ };
        let w2 = self.author(community, Payload::CreateChannel { channel, name: general, topic });
        let made = match w2 {
            Ok(h) => h,
            Err(x) => {
                proof {
                    let e = choose|e: SignedEventModel| #[trigger] pre2.authored_step(&*self, community@, p2, e, w2);
                    let logs = seq![l0, l1, l2, self.events()];
                    let es = seq![genesis@, join@, e];
                    assert(es.drop_last() =~= seq![genesis@, join@]);
                    assert(s0 + es.drop_last() =~= s2);
                    assert(self.outbox() == b2);
                    assert(b2.take(b0.len() as int) =~= b0) by {
                        assert(b2.take(b1.len() as int) == b1);
                        assert(b2.take(b0.len() as int) =~= b1.take(b0.len() as int));
                    }
                    assert(b2.skip(b0.len() as int) =~= seq![b1.last(), b2.last()]);
                    assert(founding_payload(2, community_in(es[0]), name@, description@, old(self).name()) == p2);
                    assert(forall|i: int| 0 <= i < es.len() - 1 ==> accepted(logs[i], #[trigger] es[i], logs[i + 1]));
                    assert(stopped_at_last(logs, es, x));
                    assert(forall|i: int|
                        0 <= i < es.len() ==> authored_as(
                            logs[i],
                            old(self).secret(),
                            founding_into(i, community_in(es[0])),
                            founding_payload(i, community_in(es[0]), name@, description@, old(self).name()),
                            #[trigger] es[i],
                        ));
                    assert(announced_each(logs, es.drop_last(), self.outbox().skip(b0.len() as int)));
                    assert(logs.len() == 4 && es.len() == 3);
                }
                return Err(x);
            },
        };
        let ghost l3 = self.events();
        proof {
            let logs = seq![l0, l1, l2, l3];
            let es = seq![genesis@, join@, made@];
            assert(accepted(logs[0], es[0], logs[1]));
            assert(accepted(logs[1], es[1], logs[2]));
            assert(accepted(logs[2], es[2], logs[3]));
            assert(self.outgoing() =~= s0 + es);
            assert(logs.len() == 4 && es.len() == 3);
            let evs = self.outbox().skip(b0.len() as int);
            assert(self.outbox().take(b0.len() as int) =~= b0);
            assert(evs[0] == b1.last());
            assert(evs[1] == b2.last());
            assert(evs[2] == self.outbox().last());
            assert(announced_each(logs, es, evs));
        }
        Ok(community)
    }
    /// Changes the name this node goes by: kept beside the log for the next
    /// start, and announced in every community the node takes part in.
    pub fn set_display_name(&mut self, display_name: String) -> (r: Result<(), NodeError>)
        requires
            old(self).wf(),
        ensures
            final(self).wf(),
            final(self).name() == display_name@,
            final(self).secret() == old(self).secret(),
            final(self).joined() == old(self).joined(),
            final(self).parked() == old(self).parked(),
            final(self).store_view().meta_table() == crate::store::peers::meta_put_result(
                old(self).store_view().meta_table(),
                META_DISPLAY_NAME@,
                vstd::utf8::encode_utf8(display_name@),
            ),
            r is Err ==> r matches Err(NodeError::Store(_)),
            r is Ok ==> exists|logs: Seq<Seq<SignedEventModel>>, es: Seq<SignedEventModel>|
                #![trigger logs.len(), es.len()]
                {
                    &&& wrote_each(
                        logs,
                        es,
                        old(self).secret(),
                        old(self).joined(),
                        PayloadModel::SetDisplayName { display_name: display_name@ },
                    )
                    &&& logs[0] == old(self).events()
                    &&& logs[es.len() as int] == final(self).events()
                    &&& final(self).outgoing() == old(self).outgoing() + es
                    &&& final(self).outbox().take(old(self).outbox().len() as int) == old(self).outbox()
                    &&& announced_each(logs, es, final(self).outbox().skip(old(self).outbox().len() as int))
                },
            r matches Err(x) ==> exists|logs: Seq<Seq<SignedEventModel>>, es: Seq<SignedEventModel>|
                #![trigger logs.len(), es.len()]
                {
                    &&& es.len() <= old(self).joined().len()
                    &&& stopped_at_last(logs, es, x)
                    &&& logs[0] == old(self).events()
                    &&& logs[es.len() as int] == final(self).events()
                    &&& forall|i: int|
                        0 <= i < es.len() ==> authored_as(
                            logs[i],
                            old(self).secret(),
                            old(self).joined()[i],
                            PayloadModel::SetDisplayName { display_name: display_name@ },
                            #[trigger] es[i],
                        )
                    &&& final(self).outgoing() == old(self).outgoing() + es.drop_last()
                    &&& final(self).outbox().take(old(self).outbox().len() as int) == old(self).outbox()
                    &&& announced_each(logs, es.drop_last(), final(self).outbox().skip(old(self).outbox().len() as int))
                },
    {
        self.display_name = display_name.clone();
        match self.store.meta_put(META_DISPLAY_NAME, display_name.as_str().as_bytes()) {
            Ok(()) => {},
            Err(e) => return Err(NodeError::Store(e)),
        }
        let ghost secret = self.secret();
        let ghost j = self.joined();
        let ghost s0 = self.outgoing();
        let ghost b0 = self.outbox();
        let ghost pay = PayloadModel::SetDisplayName { display_name: display_name@ };
        let ghost meta = self.store_view().meta_table();
        let ghost mut logs: Seq<Seq<SignedEventModel>> = seq![self.events()];
        let ghost mut es: Seq<SignedEventModel> = seq![];
        let n = self.joined.len();
        let mut i: usize = 0;
        while i < n
            invariant
                self.wf(),
                n == j.len(),
                i <= n,
                self.secret() == secret,
                secret == old(self).secret(),
                j == old(self).joined(),
                self.joined() == j,
                self.name() == display_name@,
                self.parked() == old(self).parked(),
                self.store_view().meta_table() == meta,
                meta == crate::store::peers::meta_put_result(
                    old(self).store_view().meta_table(),
                    META_DISPLAY_NAME@,
                    vstd::utf8::encode_utf8(display_name@),
                ),
                pay == (PayloadModel::SetDisplayName { display_name: display_name@ }),
                logs.len() == i + 1,
                es.len() == i,
                logs[0] == old(self).events(),
                logs[i as int] == self.events(),
                self.outgoing() == s0 + es,
                b0 == old(self).outbox(),
                s0 == old(self).outgoing(),
                b0.len() <= self.outbox().len(),
                self.outbox().take(b0.len() as int) == b0,
                announced_each(logs, es, self.outbox().skip(b0.len() as int)),
                forall|k: int|
                    0 <= k < i ==> authored_as(logs[k], secret, j[k], pay, #[trigger] es[k]) && accepted(
                        logs[k],
                        es[k],
                        logs[k + 1],
                    ),
            decreases n - i,
        {
            let community = self.joined[i];
            assert(j[i as int] == community@);
            let ghost before = self.events();
            let ghost bx = self.outbox();
            let ghost pre: Engine = *self;
            let w = self.author(community, Payload::SetDisplayName { display_name: display_name.clone() });
            match w {
                Ok(e) => {
                    proof {
                        let old_logs = logs;
                        let old_es = es;
                        let old_evs = bx.skip(b0.len() as int);
                        assert(self.outbox().take(b0.len() as int) =~= b0) by {
                            assert(self.outbox().take(bx.len() as int) == bx);
                            assert(self.outbox().take(b0.len() as int) =~= bx.take(b0.len() as int));
                        }
                        assert(self.outbox().skip(b0.len() as int) =~= old_evs.push(self.outbox().last()));
                        logs = logs.push(self.events());
                        es = es.push(e@);
                        assert(self.outgoing() =~= s0 + es);
                        assert(authored_as(before, secret, j[i as int], pay, e@));
                        assert forall|k: int|
                            0 <= k < i + 1 implies authored_as(logs[k], secret, j[k], pay, #[trigger] es[k]) && accepted(
                            logs[k],
                            es[k],
                            logs[k + 1],
                        ) by {
                            if k < i {
                                assert(logs[k] == old_logs[k] && es[k] == old_es[k] && logs[k + 1] == old_logs[k + 1]);
                            } else {
                                assert(logs[k] == before && es[k] == e@ && logs[k + 1] == self.events());
                            }
                        }
                        let evs = self.outbox().skip(b0.len() as int);
                        assert forall|k: int| 0 <= k < es.len() implies announcement(
                            #[trigger] evs[k],
                            community_in(es[k]),
                            es[k],
                            name_in(logs[k + 1], community_in(es[k]), es[k].event.author),
                        ) by {
                            if k < i {
                                assert(evs[k] == old_evs[k]);
                                assert(logs[k + 1] == old_logs[k + 1] && es[k] == old_es[k]);
                            } else {
                                assert(evs[k] == self.outbox().last());
                                assert(logs[k + 1] == self.events() && es[k] == e@);
                            }
                        }
                    }
                },
                Err(x) => {
                    proof {
                        let e = choose|e: SignedEventModel| #[trigger] pre.authored_step(&*self, community@, pay, e, w);
                        let logs2 = logs.push(self.events());
                        let es2 = es.push(e);
                        assert(es2.drop_last() =~= es);
                        assert(self.outbox() == bx);
                        assert forall|k: int| 0 <= k < es2.len() - 1 implies accepted(logs2[k], #[trigger] es2[k], logs2[k + 1]) by {
                            assert(logs2[k] == logs[k] && es2[k] == es[k] && logs2[k + 1] == logs[k + 1]);
                        }
                        assert(logs2[i as int] == before);
                        assert(stopped_at_last(logs2, es2, x));
                        assert forall|k: int| 0 <= k < es2.len() implies authored_as(logs2[k], secret, j[k], pay, #[trigger] es2[k]) by {
                            if k < i {
                                assert(logs2[k] == logs[k] && es2[k] == es[k]);
                            }
                        }
                        let evs = self.outbox().skip(b0.len() as int);
                        assert forall|k: int| 0 <= k < es.len() implies announcement(
                            #[trigger] evs[k],
                            community_in(es[k]),
                            es[k],
                            name_in(logs2[k + 1], community_in(es[k]), es[k].event.author),
                        ) by {
                            assert(logs2[k + 1] == logs[k + 1]);
                        }
                        assert(announced_each(logs2, es2.drop_last(), evs));
                        assert(logs2.len() == es2.len() + 1);
                    }
                    return Err(x);
                },
            }
            i += 1;
        }
        proof {
            assert(wrote_each(logs, es, secret, j, pay));
            assert(logs.len() == i + 1 && es.len() == i);
        }
        Ok(())
    }
    /// What `ingest` leaves behind when event `e` came to `r`.
    pub open spec fn ingest_step(&self, after: &Engine, e: SignedEventModel, from_peer: bool, r: Ingested) -> bool {
        exists|pr: Result<Inserted, StoreError>, mid: Seq<SignedEventModel>|
            #[trigger] put_result(self.events(), e, pr, mid) && match r {
                Ingested::New => {
                    &&& pr == Ok::<Inserted, StoreError>(Inserted::New)
                    &&& grew_from(mid, self.parked(), self.me(), after.events())
                    &&& forall|y: (Seq<u8>, SignedEventModel)| #[trigger] after.parked().contains(y) ==> self.parked().contains(y)
                    &&& shrank(self.pending(), after.pending())
                    &&& grew_from(self.outgoing(), seq![], self.me(), after.outgoing())
                },
                Ingested::Duplicate => pr == Ok::<Inserted, StoreError>(Inserted::Duplicate) && after.events() == mid
                    && after.parked() == self.parked() && after.pending() == self.pending() && after.outgoing()
                    == self.outgoing(),
                Ingested::Parked { community, ask_sync } => (pr matches Err(x) && (x is MissingPrev
                    || x is UnknownCommunity)) && community@ == community_in(e) && ask_sync == from_peer
                    && after.events() == mid && after.parked() == parked_after(self.parked(), e) && after.pending()
                    == self.pending() && after.outgoing() == self.outgoing(),
                Ingested::Rejected(x) => pr == Err::<Inserted, StoreError>(x) && !(x is MissingPrev || x is UnknownCommunity)
                    && after.events() == mid && after.parked() == self.parked() && after.pending() == self.pending()
                    && after.outgoing() == self.outgoing(),
            }
    }

    /// Applies anything that was waiting on `id`, and anything waiting on
    /// those in turn, settling any join waiting on a community whose history
    /// that completes.
    pub fn resolve_dependents(&mut self, id: EventId)
        requires
            old(self).wf(),
        ensures
            final(self).net() == old(self).net(),
            final(self).wf(),
            final(self).secret() == old(self).secret(),
            final(self).me() == old(self).me(),
            final(self).name() == old(self).name(),
            final(self).joined() == old(self).joined(),
            shrank(old(self).pending(), final(self).pending()),
            grew_from(old(self).outgoing(), seq![], old(self).me(), final(self).outgoing()),
            old(self).outbox().len() <= final(self).outbox().len(),
            final(self).outbox().take(old(self).outbox().len() as int) == old(self).outbox(),
            old(self).settled().len() <= final(self).settled().len(),
            final(self).settled().take(old(self).settled().len() as int) == old(self).settled(),
            grew_from(old(self).events(), old(self).parked(), old(self).me(), final(self).events()),
            forall|y: (Seq<u8>, SignedEventModel)| #[trigger] final(self).parked().contains(y) ==> old(self).parked().contains(y),
    {
        let ghost p0 = self.parked();
        let ghost l0 = self.events();
        let ghost b0 = self.outbox();
        let ghost s0 = self.outgoing();
        let ghost t0 = self.settled();
        let ghost w0 = self.pending();
        let ghost me = self.me();
        assert(self.events().take(l0.len() as int) =~= l0);
        assert(self.outgoing().take(s0.len() as int) =~= s0);
        assert(self.settled().take(t0.len() as int) =~= t0);
        if self.orphans.len() == 0 {
            return;
        }
        let mut queue: Vec<EventId> = Vec::new();
        queue.push(id);
        while queue.len() > 0
            invariant
                self.wf(),
                self.secret() == old(self).secret(),
                self.me() == old(self).me(),
                self.name() == old(self).name(),
                self.joined() == old(self).joined(),
                me == old(self).me(),
                self.net() == old(self).net(),
                p0 == old(self).parked(),
                l0 == old(self).events(),
                b0 == old(self).outbox(),
                s0 == old(self).outgoing(),
                t0 == old(self).settled(),
                w0 == old(self).pending(),
                shrank(w0, self.pending()),
                grew_from(s0, seq![], me, self.outgoing()),
                b0.len() <= self.outbox().len(),
                self.outbox().take(b0.len() as int) == b0,
                t0.len() <= self.settled().len(),
                self.settled().take(t0.len() as int) == t0,
                grew_from(l0, p0, me, self.events()),
                forall|y: (Seq<u8>, SignedEventModel)| #[trigger] self.parked().contains(y) ==> p0.contains(y),
            decreases self.parked().len() + queue@.len(),
        {
            let dependency = queue.pop().unwrap();
            let ghost cur = self.parked();
            let ghost q1 = queue@.len();
            let taken = self.orphans.take(&dependency);
            proof {
                lemma_split_parked(cur, dependency@);
                assert forall|k: int| 0 <= k < taken@.len() implies #[trigger] p0.contains((dependency@, taken@[k]@)) by {
                    assert(events_view(taken@)[k] == taken@[k]@);
                    assert(waiting_on(cur, dependency@).contains(taken@[k]@));
                    assert(cur.contains((dependency@, taken@[k]@)));
                }
            }
            let mut j: usize = 0;
            while j < taken.len()
                invariant
                    self.wf(),
                    self.secret() == old(self).secret(),
                    self.me() == old(self).me(),
                    self.name() == old(self).name(),
                    self.joined() == old(self).joined(),
                    me == old(self).me(),
                    self.net() == old(self).net(),
                    p0 == old(self).parked(),
                    l0 == old(self).events(),
                    b0 == old(self).outbox(),
                    s0 == old(self).outgoing(),
                    t0 == old(self).settled(),
                    w0 == old(self).pending(),
                    shrank(w0, self.pending()),
                    grew_from(s0, seq![], me, self.outgoing()),
                    b0.len() <= self.outbox().len(),
                    self.outbox().take(b0.len() as int) == b0,
                    t0.len() <= self.settled().len(),
                    self.settled().take(t0.len() as int) == t0,
                    grew_from(l0, p0, me, self.events()),
                    forall|y: (Seq<u8>, SignedEventModel)| #[trigger] self.parked().contains(y) ==> p0.contains(y),
                    self.parked().len() + taken@.len() == cur.len(),
                    queue@.len() <= q1 + j,
                    j <= taken@.len(),
                    forall|k: int| 0 <= k < taken@.len() ==> #[trigger] p0.contains((dependency@, taken@[k]@)),
                decreases taken@.len() - j,
            {
                let event = &taken[j];
                let unblocked = event.id();
                let community = event.community_id();
                let ghost before = self.events();
                let ghost outs = self.outbox();
                let put = self.store.put_event(event);
                let is_new = match put {
                    Ok(Inserted::New) => true,
                    _ => false,
                };
                if is_new {
                    proof {
                        let after = self.events();
                        assert(after == before.push(event@));
                        assert(p0.contains((dependency@, event@)));
                        let k = choose|k: int| 0 <= k < p0.len() && p0[k] == (dependency@, event@);
                        assert forall|i: int|
                            #![trigger after[i]]
                            l0.len() <= i < after.len() implies own_join(after[i], me) || exists|k: int|
                            0 <= k < p0.len() && (#[trigger] p0[k]).1 == after[i] by {
                            if i < before.len() {
                                assert(after[i] == before[i]);
                            } else {
                                assert(p0[k].1 == after[i]);
                            }
                        }
                        assert(after.take(l0.len() as int) =~= before.take(l0.len() as int));
                    }
                    self.emit_for(&community, event);
                    proof {
                        assert(self.outbox().take(b0.len() as int) =~= outs.take(b0.len() as int));
                    }
                    let ghost e1 = self.events();
                    let ghost o1 = self.outgoing();
                    let ghost x1 = self.outbox();
                    let ghost y1 = self.settled();
                    let ghost v1 = self.pending();
                    self.settle_join(community);
                    proof {
                        lemma_grew_then_joined(l0, p0, me, e1, self.events());
                        lemma_grew_then_joined(s0, seq![], me, o1, self.outgoing());
                        assert(self.outbox().take(b0.len() as int) =~= x1.take(b0.len() as int));
                        assert(self.settled().take(t0.len() as int) =~= y1.take(t0.len() as int));
                        assert forall|x: Seq<u8>| #[trigger] self.pending().contains(x) implies w0.contains(x) by {
                            assert(v1.contains(x));
                        }
                    }
                    queue.push(unblocked);
                } else {
                    assert(self.events() == before);
                }
                j += 1;
            }
        }
    }

    /// Verifies and stores one event, whatever its source, and applies
    /// whatever was waiting for it. An early event is held back, and the
    /// sender asked for what comes before it.
    pub fn ingest(&mut self, event: SignedEvent, from_peer: bool) -> (r: Ingested)
        requires
            old(self).wf(),
        ensures
            final(self).net() == old(self).net(),
            final(self).wf(),
            final(self).secret() == old(self).secret(),
            final(self).me() == old(self).me(),
            final(self).name() == old(self).name(),
            final(self).joined() == old(self).joined(),
            old(self).ingest_step(final(self), event@, from_peer, r),
    {
        let community = event.community_id();
        let id = event.id();
        let ghost l0 = self.events();
        let put = self.store.put_event(&event);
        let ghost mid = self.events();
        assert(put_result(l0, event@, put, mid));
        match put {
            Ok(Inserted::New) => {
                self.emit_for(&community, &event);
                let ghost s0 = self.outgoing();
                let ghost w0 = self.pending();
                let ghost p0 = self.parked();
                let ghost me = self.me();
                self.resolve_dependents(id);
                let ghost e1 = self.events();
                let ghost o1 = self.outgoing();
                let ghost v1 = self.pending();
                self.settle_join(community);
                proof {
                    lemma_grew_then_joined(mid, p0, me, e1, self.events());
                    lemma_grew_then_joined(s0, seq![], me, o1, self.outgoing());
                    assert forall|x: Seq<u8>| #[trigger] self.pending().contains(x) implies w0.contains(x) by {
                        assert(v1.contains(x));
                    }
                }
                Ingested::New
            },
            Ok(Inserted::Duplicate) => Ingested::Duplicate,
            Err(err) => {
                if err.needs_sync() {
                    self.orphans.park(event);
                    Ingested::Parked { community, ask_sync: from_peer }
                } else {
                    Ingested::Rejected(err)
                }
            },
        }
    }
    /// The most recent `limit` messages of a channel, oldest first, ready
    /// to show.
    pub fn history(&self, community: CommunityId, channel: ChannelId, limit: usize) -> (r: Result<Vec<Message>, NodeError>)
        ensures
            r matches Ok(v) && exists|o: Seq<int>|
                is_stable_sort(causal_keys(channel_messages(self.events(), community@, channel@)), o) && ({
                    let sorted = arranged(channel_messages(self.events(), community@, channel@), o);
                    let shown = sorted.skip(if sorted.len() <= limit { 0 } else { sorted.len() - limit });
                    &&& v@.len() == shown.len()
                    &&& forall|i: int|
                        0 <= i < shown.len() ==> shows_message(
                            #[trigger] v@[i],
                            community@,
                            shown[i],
                            name_in(self.events(), community@, shown[i].event.author),
                        )
                }),
    {
        let events = match self.store.channel_history(&community, &channel, limit) {
            Ok(v) => v,
            Err(e) => return Err(NodeError::Store(e)),
        };
        let ghost all = channel_messages(self.events(), community@, channel@);
        proof {
            lemma_channel_messages(self.events(), community@, channel@);
        }
        let ghost o = choose|o: Seq<int>|
            is_stable_sort(causal_keys(all), o) && ({
                let sorted = arranged(all, o);
                events_view(events@) == sorted.skip(if sorted.len() <= limit { 0 } else { sorted.len() - limit })
            });
        let ghost sorted = arranged(all, o);
        let ghost shown = sorted.skip(if sorted.len() <= limit { 0 } else { sorted.len() - limit });
        assert(causal_keys(all).len() == all.len());
        assert forall|i: int| 0 <= i < shown.len() implies (#[trigger] shown[i]).event.payload is Message by {
            let k = if sorted.len() <= limit { 0 } else { sorted.len() - limit };
            assert(shown[i] == sorted[i + k]);
            assert(0 <= o[i + k] < all.len());
            assert(sorted[i + k] == all[o[i + k]]);
        }
        let mut out: Vec<Message> = Vec::new();
        let mut i: usize = 0;
        while i < events.len()
            invariant
                events_view(events@) == shown,
                i <= events@.len(),
                out@.len() == i,
                forall|k: int| 0 <= k < shown.len() ==> (#[trigger] shown[k]).event.payload is Message,
                forall|k: int|
                    0 <= k < i ==> shows_message(
                        #[trigger] out@[k],
                        community@,
                        shown[k],
                        name_in(self.events(), community@, shown[k].event.author),
                    ),
            decreases events@.len() - i,
        {
            let event = &events[i];
            assert(shown[i as int] == event@);
            match event.payload() {
                Payload::Message { channel: ch, body } => {
                    let author = event.author();
                    let m = Message {
                        id: event.id(),
                        community,
                        channel: *ch,
                        author,
                        author_name: self.display_name_of(&community, &author),
                        body: body.clone(),
                        timestamp_ms: event.event.timestamp_ms,
                        lamport: event.event.lamport,
                    };
                    out.push(m);
                },
                _ => {
                    assert(false);
                },
            }
            i += 1;
        }
        Ok(out)
    }

    /// Whether a join is waiting on `community`.
    fn is_pending(&self, community: &CommunityId) -> (b: bool)
        ensures
            b == self.pending().contains(community@),
    {
        let ghost j = self.pending();
        let mut i: usize = 0;
        while i < self.pending_joins.len()
            invariant
                j == self.pending_joins@.map_values(|c: CommunityId| c@),
                j.len() == self.pending_joins@.len(),
                i <= j.len(),
                forall|k: int| 0 <= k < i ==> j[k] != community@,
            decreases j.len() - i,
        {
            if self.pending_joins[i] == *community {
                assert(j[i as int] == community@);
                return true;
            }
            i += 1;
        }
        false
    }

    /// Drops `community` from the joins waiting.
    fn clear_pending(&mut self, community: &CommunityId)
        requires
            old(self).wf(),
        ensures
            final(self).net() == old(self).net(),
            final(self).wf(),
            final(self).pending() == without(old(self).pending(), community@),
            final(self).events() == old(self).events(),
            final(self).store_view() == old(self).store_view(),
            final(self).outbox() == old(self).outbox(),
            final(self).outgoing() == old(self).outgoing(),
            final(self).settled() == old(self).settled(),
            final(self).parked() == old(self).parked(),
            final(self).joined() == old(self).joined(),
            final(self).secret() == old(self).secret(),
            final(self).me() == old(self).me(),
            final(self).name() == old(self).name(),
    {
        let ghost j = self.pending();
        let mut kept: Vec<CommunityId> = Vec::new();
        let mut i: usize = 0;
        while i < self.pending_joins.len()
            invariant
                j == self.pending_joins@.map_values(|c: CommunityId| c@),
                j.len() == self.pending_joins@.len(),
                i <= j.len(),
                kept@.map_values(|c: CommunityId| c@) == without(j.take(i as int), community@),
            decreases j.len() - i,
        {
            assert(j.take(i + 1).drop_last() =~= j.take(i as int));
            let c = self.pending_joins[i];
            let ghost before = kept@;
            if c != *community {
                kept.push(c);
                assert(kept@.map_values(|c: CommunityId| c@) =~= before.map_values(|c: CommunityId| c@).push(c@));
            }
            i += 1;
        }
        assert(j.take(j.len() as int) =~= j);
        self.pending_joins = kept;
    }

    /// Announces membership once enough of a community is held to verify
    /// it. Answers `None` while there is nothing to do: no join is waiting
    /// on the community, or its genesis has not arrived.
    ///
    /// Waiting matters: the join event has to sit at the end of a chain
    /// actually seen, and its Lamport clock has to reflect real history.
    pub fn try_complete_join(&mut self, community: CommunityId) -> (r: Option<Result<CommunityId, NodeError>>)
        requires
            old(self).wf(),
        ensures
            final(self).net() == old(self).net(),
            final(self).wf(),
            final(self).secret() == old(self).secret(),
            final(self).me() == old(self).me(),
            final(self).name() == old(self).name(),
            final(self).joined() == old(self).joined(),
            final(self).parked() == old(self).parked(),
            final(self).settled() == old(self).settled(),
            old(self).outbox().len() <= final(self).outbox().len(),
            final(self).outbox().take(old(self).outbox().len() as int) == old(self).outbox(),
            r is None <==> !(old(self).pending().contains(community@) && has_community_row(old(self).events(), community@)),
            r is None ==> final(self).events() == old(self).events() && final(self).pending() == old(self).pending()
                && final(self).outbox() == old(self).outbox() && final(self).outgoing() == old(self).outgoing(),
            r is Some ==> final(self).pending() == without(old(self).pending(), community@),
            r is Some && has_member(member_rows(old(self).events(), community@), old(self).me()) ==> r == Some(
                Ok::<CommunityId, NodeError>(community),
            ) && final(self).events() == old(self).events() && final(self).outgoing() == old(self).outgoing(),
            r is Some && !has_member(member_rows(old(self).events(), community@), old(self).me()) ==> exists|
                e: SignedEventModel,
                w: Result<SignedEvent, NodeError>,
            |
                #![trigger authored_as(old(self).events(), old(self).secret(), community@, PayloadModel::Join { display_name: old(self).name() }, e), stored_with(old(self).events(), e, final(self).events(), w)]
                authored_as(
                    old(self).events(),
                    old(self).secret(),
                    community@,
                    PayloadModel::Join { display_name: old(self).name() },
                    e,
                ) && stored_with(old(self).events(), e, final(self).events(), w) && (w is Ok ==> r == Some(
                    Ok::<CommunityId, NodeError>(community),
                ) && final(self).outgoing() == old(self).outgoing().push(e)) && (w matches Err(x) ==> r == Some(
                    Err::<CommunityId, NodeError>(x),
                ) && final(self).outgoing() == old(self).outgoing()),
    {
        if !self.is_pending(&community) {
            return None;
        }
        match self.store.community(&community) {
            Ok(Some(_)) => {},
            _ => {
                return None;
            },
        }
        let me = self.me;
        let already_member = match self.store.member(&community, &me) {
            Ok(Some(_)) => true,
            _ => false,
        };
        let outcome = if already_member {
            Ok(community)
        } else {
            let name = self.display_name.clone();
            match self.author(community, Payload::Join { display_name: name }) {
                Ok(_) => Ok(community),
                Err(x) => Err(x),
            }
        };
        self.clear_pending(&community);
        Some(outcome)
    }

    /// Settles a join waiting on `community`, if there is one and the
    /// community's history is in, and queues how it went for whoever asked.
    fn settle_join(&mut self, community: CommunityId)
        requires
            old(self).wf(),
        ensures
            final(self).net() == old(self).net(),
            final(self).wf(),
            final(self).secret() == old(self).secret(),
            final(self).me() == old(self).me(),
            final(self).name() == old(self).name(),
            final(self).joined() == old(self).joined(),
            final(self).parked() == old(self).parked(),
            shrank(old(self).pending(), final(self).pending()),
            grew_from(old(self).events(), seq![], old(self).me(), final(self).events()),
            grew_from(old(self).outgoing(), seq![], old(self).me(), final(self).outgoing()),
            old(self).outbox().len() <= final(self).outbox().len(),
            final(self).outbox().take(old(self).outbox().len() as int) == old(self).outbox(),
            !(old(self).pending().contains(community@) && has_community_row(old(self).events(), community@)) ==> {
                &&& final(self).events() == old(self).events()
                &&& final(self).pending() == old(self).pending()
                &&& final(self).settled() == old(self).settled()
                &&& final(self).outgoing() == old(self).outgoing()
                &&& final(self).outbox() == old(self).outbox()
            },
            old(self).pending().contains(community@) && has_community_row(old(self).events(), community@) ==> {
                &&& final(self).pending() == without(old(self).pending(), community@)
                &&& final(self).settled().len() == old(self).settled().len() + 1
                &&& final(self).settled().take(old(self).settled().len() as int) == old(self).settled()
                &&& final(self).settled().last().0 == community
            },
    {
        let ghost l0 = self.events();
        let ghost s0 = self.outgoing();
        let ghost b0 = self.outbox();
        let ghost me = self.me();
        let ghost p0 = self.pending();
        proof {
            lemma_without_shrinks(p0, community@);
        }
        match self.try_complete_join(community) {
            Some(outcome) => {
                proof {
                    if l0 != self.events() || s0 != self.outgoing() {
                        let (e, w) = choose|e: SignedEventModel, w: Result<SignedEvent, NodeError>|
                            authored_as(l0, old(self).secret(), community@, PayloadModel::Join { display_name: old(self).name() }, e)
                                && stored_with(l0, e, self.events(), w) && (w is Ok ==> outcome == Ok::<CommunityId, NodeError>(community)
                                && self.outgoing() == s0.push(e)) && (w matches Err(x) ==> outcome == Err::<CommunityId, NodeError>(x));
                        lemma_authored_fields(l0, old(self).secret(), community@, PayloadModel::Join { display_name: old(self).name() }, e);
                        lemma_stored_appends(l0, e, self.events(), w);
                    }
                    assert(self.events().take(l0.len() as int) =~= l0);
                    assert(self.outgoing().take(s0.len() as int) =~= s0);
                }
                let ghost t0 = self.settled@;
                self.settled.push((community, outcome));
                assert(self.settled@.take(t0.len() as int) =~= t0);
            },
            None => {
                assert(self.events().take(l0.len() as int) =~= l0);
                assert(self.outgoing().take(s0.len() as int) =~= s0);
                assert(self.outbox().take(b0.len() as int) =~= b0);
            },
        }
    }

    /// Starts joining a community. The answer comes once the community's
    /// history has arrived and been verified; until then this answers
    /// `None` and the join waits.
    pub fn begin_join(&mut self, community: CommunityId) -> (r: Option<Result<CommunityId, NodeError>>)
        requires
            old(self).wf(),
        ensures
            final(self).wf(),
            final(self).secret() == old(self).secret(),
            final(self).joined() == if old(self).joined().contains(community@) {
                old(self).joined()
            } else {
                old(self).joined().push(community@)
            },
            r is None <==> !has_community_row(old(self).events(), community@),
            r is None ==> final(self).pending().contains(community@) && final(self).events() == old(self).events(),
            r is Some ==> !final(self).pending().contains(community@),
            final(self).outbox().take(old(self).outbox().len() as int) == old(self).outbox(),
            r is Some && has_member(member_rows(old(self).events(), community@), old(self).me()) ==> r == Some(
                Ok::<CommunityId, NodeError>(community),
            ) && final(self).events() == old(self).events() && final(self).outgoing() == old(self).outgoing(),
            r is Some && !has_member(member_rows(old(self).events(), community@), old(self).me()) ==> exists|
                e: SignedEventModel,
                w: Result<SignedEvent, NodeError>,
            |
                #![trigger authored_as(old(self).events(), old(self).secret(), community@, PayloadModel::Join { display_name: old(self).name() }, e), stored_with(old(self).events(), e, final(self).events(), w)]
                authored_as(
                    old(self).events(),
                    old(self).secret(),
                    community@,
                    PayloadModel::Join { display_name: old(self).name() },
                    e,
                ) && stored_with(old(self).events(), e, final(self).events(), w) && (w is Ok ==> r == Some(
                    Ok::<CommunityId, NodeError>(community),
                ) && final(self).outgoing() == old(self).outgoing().push(e)) && (w matches Err(x) ==> r == Some(
                    Err::<CommunityId, NodeError>(x),
                ) && final(self).outgoing() == old(self).outgoing()),
    {
        self.join_set(community);
        if !self.is_pending(&community) {
            let ghost p = self.pending();
            self.pending_joins.push(community);
            assert(self.pending() =~= p.push(community@));
            assert(self.pending()[p.len() as int] == community@);
        }
        assert(self.pending().contains(community@));
        let ghost waiting = self.pending();
        let r = self.try_complete_join(community);
        proof {
            if r is Some {
                lemma_without_drops(waiting, community@);
            }
        }
        r
    }
    /// Answers another node's request for history.
    ///
    /// Served to anyone who asks. Every event is signed, so a requester does
    /// not have to trust the answer, and withholding gains nothing: any
    /// other member serves the same history.
    pub fn serve_sync(&self, request: SyncRequest) -> (r: SyncResponse)
        ensures
            ({
                let SyncRequest::GetDelta { community, have, limit } = request;
                let cap: int = if limit == 0 { 1 } else if limit > MAX_SYNC_BATCH { MAX_SYNC_BATCH as int } else {
                    limit as int
                };
                if !has_community_row(self.events(), community@) {
                    r is UnknownCommunity
                } else {
                    r matches SyncResponse::Delta { events, complete } && exists|o: Seq<int>|
                        is_stable_sort(causal_keys(community_events(self.events(), community@)), o) && ({
                            let cand = uncovered(arranged(community_events(self.events(), community@), o), have@);
                            &&& complete == (cand.len() <= cap)
                            &&& events_view(events@) == cand.take(if cand.len() <= cap { cand.len() as int } else { cap })
                        })
                }
            }),
    {
        let SyncRequest::GetDelta { community, have, limit } = request;
        match self.store.community(&community) {
            Ok(Some(_)) => {},
            _ => {
                return SyncResponse::UnknownCommunity;
            },
        }
        let asked = limit as usize;
        let cap = if asked < 1 { 1 } else if asked > MAX_SYNC_BATCH { MAX_SYNC_BATCH } else { asked };
        match self.store.delta(&community, &have, cap) {
            Ok(delta) => SyncResponse::Delta { events: delta.events, complete: delta.complete },
            Err(_) => SyncResponse::UnknownCommunity,
        }
    }

    /// Total events a community holds by its frontier, or `u64::MAX` if
    /// that does not fit.
    fn events_held(&self, community: &CommunityId) -> (n: u64)
        ensures
            exists|p: Seq<(Seq<u8>, u64)>|
                sorted_keys(p) && frontier_map(p) == pairs_max(chain_pairs(self.events(), community@)) && n == if total_of(
                    p,
                ) <= u64::MAX {
                    total_of(p)
                } else {
                    u64::MAX as int
                },
    {
        let f = match self.store.frontier(community) {
            Ok(f) => f,
            Err(_) => {
                return 0;
            },
        };
        let entries = f.iter();
        let ghost p = entries@.map_values(|q: (UserId, u64)| (q.0@, q.1));
        let mut total: u64 = 0;
        let mut i: usize = 0;
        while i < entries.len()
            invariant
                p == entries@.map_values(|q: (UserId, u64)| (q.0@, q.1)),
                p.len() == entries@.len(),
                i <= p.len(),
                total == if total_of(p.take(i as int)) <= u64::MAX {
                    total_of(p.take(i as int))
                } else {
                    u64::MAX as int
                },
            decreases p.len() - i,
        {
            assert(p.take(i + 1).drop_last() =~= p.take(i as int));
            assert(p[i as int] == (entries@[i as int].0@, entries@[i as int].1));
            let step = entries[i].1;
            if total == u64::MAX {
            } else if step >= u64::MAX - total {
                total = u64::MAX;
            } else {
                total = total + step + 1;
            }
            i += 1;
        }
        assert(p.take(p.len() as int) =~= p);
        total
    }

    /// Where this node stands in each community it holds.
    pub fn community_statuses(&self) -> (r: Result<Vec<CommunityStatus>, NodeError>)
        ensures
            r matches Ok(v) && statuses_of(self.events(), v@),
    {
        let summaries = match self.store.communities() {
            Ok(v) => v,
            Err(e) => return Err(NodeError::Store(e)),
        };
        let ghost sums = crate::store::views::summaries_view(summaries@);
        let mut out: Vec<CommunityStatus> = Vec::new();
        let mut i: usize = 0;
        while i < summaries.len()
            invariant
                sums == crate::store::views::summaries_view(summaries@),
                i <= summaries@.len(),
                out@.len() == i,
                forall|k: int|
                    0 <= k < i ==> {
                        &&& (#[trigger] out@[k]).id@ == sums[k].id
                        &&& out@[k].name@ == sums[k].name
                        &&& out@[k].members == member_rows(self.events(), sums[k].id).len()
                        &&& out@[k].channels == channel_rows(self.events(), sums[k].id).len()
                        &&& exists|p: Seq<(Seq<u8>, u64)>|
                            sorted_keys(p) && frontier_map(p) == pairs_max(chain_pairs(self.events(), sums[k].id))
                                && out@[k].events == if total_of(p) <= u64::MAX {
                                total_of(p)
                            } else {
                                u64::MAX as int
                            }
                    },
            decreases summaries@.len() - i,
        {
            let summary = &summaries[i];
            assert(sums[i as int] == summary@);
            let id = summary.id;
            let events = self.events_held(&id);
            let members = match self.store.members(&id) {
                Ok(m) => m,
                Err(e) => return Err(NodeError::Store(e)),
            };
            let channels = match self.store.channels(&id) {
                Ok(c) => c,
                Err(e) => return Err(NodeError::Store(e)),
            };
            let status = CommunityStatus {
                id,
                name: summary.name.clone(),
                events,
                members: members.len(),
                channels: channels.len(),
            };
            out.push(status);
            i += 1;
        }
        proof {
            let o = choose|o: Seq<int>|
                is_stable_sort(community_keys(community_rows(self.events())), o) && sums.len() == o.len() && forall|j: int|
                    0 <= j < o.len() ==> sums[j] == community_rows(self.events())[#[trigger] o[j]];
            assert(sorted_rows(community_rows(self.events()), community_keys(community_rows(self.events())), sums));
        }
        Ok(out)
    }
    /// Builds an invite naming this node and, where it knows them, other
    /// members, plus reachable nodes that can act as a way into the
    /// network.
    ///
    /// Naming several members is the point: an invite that only worked
    /// while its author was online would put the founder back at the centre
    /// of something that is not supposed to have one.
    pub fn make_invite(&self, community: CommunityId, local_peer: String, public_addrs: Vec<String>) -> (r: Result<
        Invite,
        NodeError,
    >)
        ensures
            !has_community_row(self.events(), community@) ==> (r matches Err(NodeError::UnknownCommunity(c)) && c
                == community),
            has_community_row(self.events(), community@) ==> (r matches Ok(inv) && exists|
                ms: Seq<PeerModel>,
                rs: Seq<PeerModel>,
                k: int,
            |
                #![trigger with_relays(with_members(seq![InvitePeerModel { peer_id: local_peer@, addrs: crate::net::invite::strings_view(public_addrs@) }], first_few(ms)), first_few(rs)), crate::store::views::community_rows(self.events())[k]]
                {
                    &&& sorted_rows(
                        rows_of(self.store_view().peer_table(), community@),
                        peer_keys(rows_of(self.store_view().peer_table(), community@)),
                        ms,
                    )
                    &&& sorted_rows(
                        self.store_view().relay_table(),
                        peer_keys(self.store_view().relay_table()),
                        rs,
                    )
                    &&& 0 <= k < crate::store::views::community_rows(self.events()).len()
                    &&& crate::store::views::community_rows(self.events())[k].id == community@
                    &&& forall|j: int| 0 <= j < k ==> (#[trigger] crate::store::views::community_rows(self.events())[j]).id != community@
                    &&& inv@ == (crate::net::invite::InviteModel {
                        version: crate::net::invite::INVITE_VERSION,
                        community: community@,
                        name: crate::store::views::community_rows(self.events())[k].name,
                        peers: with_relays(
                            with_members(
                                seq![InvitePeerModel { peer_id: local_peer@, addrs: crate::net::invite::strings_view(public_addrs@) }],
                                first_few(ms),
                            ),
                            first_few(rs),
                        ),
                    })
                }),
    {
        let summary = match self.store.community(&community) {
            Ok(Some(s)) => s,
            _ => return Err(NodeError::UnknownCommunity(community)),
        };
        let ghost local = InvitePeerModel { peer_id: local_peer@, addrs: crate::net::invite::strings_view(public_addrs@) };
        let mut peers: Vec<InvitePeer> = Vec::new();
        peers.push(InvitePeer { peer_id: local_peer, addrs: public_addrs });
        assert(peers_view(peers@) =~= seq![local]);
        let members = match self.store.peers(&community) {
            Ok(v) => v,
            Err(_) => Vec::new(),
        };
        let ghost ms = records_view(members@);
        let mn = if members.len() < INVITE_PEERS { members.len() } else { INVITE_PEERS };
        let ghost fm = first_few(ms);
        assert(fm.len() == mn);
        let mut i: usize = 0;
        while i < mn
            invariant
                ms == records_view(members@),
                fm == first_few(ms),
                fm.len() == mn,
                mn <= members@.len(),
                i <= mn,
                peers_view(peers@) == with_members(seq![local], fm.take(i as int)),
            decreases mn - i,
        {
            assert(fm.take(i + 1).drop_last() =~= fm.take(i as int));
            assert(fm[i as int] == members@[i as int]@);
            let record = &members[i];
            match peer_id_text(record.peer_id.as_slice()) {
                Some(text) => {
                    if record.addrs.len() > 0 {
                        let ghost before = peers_view(peers@);
                        peers.push(InvitePeer { peer_id: text, addrs: copy_strings(&record.addrs) });
                        assert(peers_view(peers@) =~= before.push(InvitePeerModel { peer_id: text@, addrs: record@.addrs }));
                    }
                },
                None => {},
            }
            i += 1;
        }
        assert(fm.take(mn as int) =~= fm);
        let relays = match self.store.relays() {
            Ok(v) => v,
            Err(_) => Vec::new(),
        };
        let ghost rs = records_view(relays@);
        let ghost named = peers_view(peers@);
        let rn = if relays.len() < INVITE_PEERS { relays.len() } else { INVITE_PEERS };
        let ghost fr = first_few(rs);
        assert(fr.len() == rn);
        let mut i: usize = 0;
        while i < rn
            invariant
                rs == records_view(relays@),
                fr == first_few(rs),
                fr.len() == rn,
                rn <= relays@.len(),
                i <= rn,
                peers_view(peers@) == with_relays(named, fr.take(i as int)),
            decreases rn - i,
        {
            assert(fr.take(i + 1).drop_last() =~= fr.take(i as int));
            assert(fr[i as int] == relays@[i as int]@);
            let record = &relays[i];
            match peer_id_text(record.peer_id.as_slice()) {
                Some(text) => {
                    if record.addrs.len() > 0 {
                        let ghost before = peers_view(peers@);
                        let mut known = false;
                        let mut j: usize = 0;
                        while j < peers.len()
                            invariant
                                before == peers_view(peers@),
                                j <= peers@.len(),
                                known == exists|x: int| 0 <= x < j && (#[trigger] before[x]).peer_id == text@,
                            decreases peers@.len() - j,
                        {
                            assert(before[j as int] == peers@[j as int]@);
                            if peers[j].peer_id == text {
                                known = true;
                            }
                            j += 1;
                        }
                        if !known {
                            peers.push(InvitePeer { peer_id: text, addrs: copy_strings(&record.addrs) });
                            assert(peers_view(peers@) =~= before.push(InvitePeerModel { peer_id: text@, addrs: record@.addrs }));
                        }
                    }
                },
                None => {},
            }
            i += 1;
        }
        assert(fr.take(rn as int) =~= fr);
        let inv = Invite::new(community, summary.name, peers);
        proof {
            let k = choose|k: int|
                0 <= k < crate::store::views::community_rows(self.events()).len() && #[trigger] crate::store::views::community_rows(self.events())[k] == summary@
                    && summary@.id == community@ && forall|j: int| 0 <= j < k ==> (#[trigger] crate::store::views::community_rows(self.events())[j]).id != community@;
            assert(crate::store::views::community_rows(self.events())[k].id == community@);
        }
        Ok(inv)
    }

    /// Members this node currently holds a connection to, given the peer
    /// ids it is connected to.
    ///
    /// Presence is first-hand only: there is no server keeping a roster,
    /// so a node can report who it can reach and nothing more.
    pub fn online_members(&self, community: &CommunityId, connected: &Vec<Vec<u8>>) -> (r: Result<Vec<UserId>, NodeError>)
        ensures
            r matches Ok(v) && exists|ms: Seq<MemberSummaryRow>|
                #[trigger] sorted_rows(
                    member_summaries_of(self.events(), community@),
                    crate::store::views::member_keys(member_rows(self.events(), community@)),
                    ms,
                ) && v@.map_values(|u: UserId| u@) == online(ms, connected@.map_values(|b: Vec<u8>| b@)),
    {
        let members = match self.store.members(community) {
            Ok(v) => v,
            Err(e) => return Err(NodeError::Store(e)),
        };
        let ghost ms = crate::store::views::member_summaries_view(members@);
        let ghost conn = connected@.map_values(|b: Vec<u8>| b@);
        let mut out: Vec<UserId> = Vec::new();
        let mut i: usize = 0;
        while i < members.len()
            invariant
                ms == crate::store::views::member_summaries_view(members@),
                conn == connected@.map_values(|b: Vec<u8>| b@),
                i <= members@.len(),
                out@.map_values(|u: UserId| u@) == online(ms.take(i as int), conn),
            decreases members@.len() - i,
        {
            assert(ms.take(i + 1).drop_last() =~= ms.take(i as int));
            assert(ms[i as int] == members@[i as int]@);
            let id = members[i].id;
            match peer_id_of(&id) {
                Some(p) => {
                    let mut found = false;
                    let mut j: usize = 0;
                    while j < connected.len()
                        invariant
                            conn == connected@.map_values(|b: Vec<u8>| b@),
                            j <= connected@.len(),
                            found == exists|x: int| 0 <= x < j && conn[x] == p@,
                        decreases connected@.len() - j,
                    {
                        assert(conn[j as int] == connected@[j as int]@);
                        if crate::store::order::bytes_eq(connected[j].as_slice(), p.as_slice()) {
                            found = true;
                        }
                        j += 1;
                    }
                    assert(found == conn.contains(p@));
                    if found {
                        let ghost before = out@;
                        out.push(id);
                        assert(out@.map_values(|u: UserId| u@) =~= before.map_values(|u: UserId| u@).push(id@));
                    }
                },
                None => {},
            }
            i += 1;
        }
        assert(ms.take(ms.len() as int) =~= ms);
        assert(sorted_rows(
            member_summaries_of(self.events(), community@),
            crate::store::views::member_keys(member_rows(self.events(), community@)),
            ms,
        ));
        Ok(out)
    }
    /// Writes a different identity beside the log, for the next start.
    ///
    /// Only while nothing has been signed under the current one: after
    /// that, the node's own chain is the old identity's, and quietly
    /// continuing it under a new key would produce events that verify
    /// against nobody.
    pub fn replace_identity(&mut self, phrase: &str) -> (r: Result<(), NodeError>)
        requires
            old(self).wf(),
        ensures
            final(self).wf(),
            final(self).events() == old(self).events(),
            final(self).secret() == old(self).secret(),
            community_rows(old(self).events()).len() > 0 ==> (r matches Err(NodeError::Engine(_)))
                && final(self).store_view().meta_table() == old(self).store_view().meta_table(),
            community_rows(old(self).events()).len() == 0 ==> match r {
                Ok(()) => exists|secret: Seq<u8>|
                    #![trigger crate::store::peers::meta_put_result(old(self).store_view().meta_table(), META_IDENTITY@, secret)]
                    {
                        &&& secret.len() == 32
                        &&& final(self).store_view().meta_table() == crate::store::peers::meta_put_result(
                            old(self).store_view().meta_table(),
                            META_IDENTITY@,
                            secret,
                        )
                        &&& forall|s2: Seq<u8>|
                            s2.len() == 32 && crate::text::trimmed(phrase@)
                                == #[trigger] crate::proto::identity::backup_phrase_of(s2) ==> secret == s2
                    },
                Err(e) => e is Identity && final(self).store_view().meta_table() == old(self).store_view().meta_table(),
            },
            community_rows(old(self).events()).len() == 0 && (exists|s: Seq<u8>|
                s.len() == 32 && crate::text::trimmed(phrase@) == #[trigger] crate::proto::identity::backup_phrase_of(s))
                ==> r is Ok,
    {
        let held = match self.store.communities() {
            Ok(v) => v,
            Err(e) => return Err(NodeError::Store(e)),
        };
        proof {
            let o = choose|o: Seq<int>|
                is_stable_sort(community_keys(community_rows(self.events())), o) && crate::store::views::summaries_view(held@).len() == o.len() && forall|j: int|
                    0 <= j < o.len() ==> crate::store::views::summaries_view(held@)[j] == community_rows(self.events())[#[trigger] o[j]];
        }
        if held.len() > 0 {
            return Err(NodeError::Engine(
                "This device already belongs to a community, and the messages it has sent are signed by its current identity. Restore a key onto a fresh install instead.".to_owned(),
            ));
        }
        let restored = match Identity::from_backup_phrase(phrase) {
            Ok(id) => id,
            Err(e) => return Err(NodeError::Identity(e)),
        };
        let secret = restored.secret_bytes();
        match self.store.meta_put(META_IDENTITY, &secret) {
            Ok(()) => {},
            Err(e) => return Err(NodeError::Store(e)),
        }
        proof {
            assert forall|s2: Seq<u8>|
                s2.len() == 32 && crate::text::trimmed(phrase@) == #[trigger] crate::proto::identity::backup_phrase_of(
                    s2,
                ) implies secret@ == s2 by {}
            assert(self.store_view().meta_table() == crate::store::peers::meta_put_result(
                old(self).store_view().meta_table(),
                META_IDENTITY@,
                secret@,
            ));
        }
        Ok(())
    }
    /// Learns where another member is, so the community meshes itself
    /// rather than staying a star around whoever invited everybody. Answers
    /// the peer to dial and where, if there is anybody to dial.
    pub fn handle_presence(&mut self, community: CommunityId, presence: Presence) -> (r: Option<(Vec<u8>, Vec<String>)>)
        requires
            old(self).wf(),
        ensures
            final(self).net() == old(self).net(),
            final(self).wf(),
            final(self).events() == old(self).events(),
            final(self).secret() == old(self).secret(),
            final(self).joined() == old(self).joined(),
            final(self).parked() == old(self).parked(),
            final(self).outbox() == old(self).outbox(),
            final(self).outgoing() == old(self).outgoing(),
            presence.user@ == old(self).me() || crate::net::peer::peer_of_user(presence.user@) is None ==> r is None
                && final(self).store_view().peer_table() == old(self).store_view().peer_table(),
            !(presence.user@ == old(self).me() || crate::net::peer::peer_of_user(presence.user@) is None) ==> (r matches Some(
                (peer, addrs),
            ) && Some(peer@) == crate::net::peer::peer_of_user(presence.user@) && strings_view(addrs@) == parsed_addrs(
                strings_view(presence.addrs@),
            ) && exists|seen: u64|
                final(self).store_view().peer_table() == crate::store::peers::remembered(
                    old(self).store_view().peer_table(),
                    community@,
                    PeerModel { peer_id: peer@, addrs: strings_view(addrs@), last_seen_ms: seen },
                )),
    {
        if presence.user == self.me {
            return None;
        }
        let peer = match peer_id_of(&presence.user) {
            Some(p) => p,
            None => return None,
        };
        let ghost given = strings_view(presence.addrs@);
        let mut addrs: Vec<String> = Vec::new();
        let mut i: usize = 0;
        while i < presence.addrs.len()
            invariant
                given == strings_view(presence.addrs@),
                i <= given.len(),
                strings_view(addrs@) == parsed_addrs(given.take(i as int)),
            decreases given.len() - i,
        {
            assert(given.take(i + 1).drop_last() =~= given.take(i as int));
            assert(given[i as int] == presence.addrs@[i as int]@);
            match parse_multiaddr(presence.addrs[i].as_str()) {
                Some(a) => {
                    let ghost a0 = addrs@;
                    addrs.push(a);
                    assert(strings_view(addrs@) =~= strings_view(a0).push(addrs@.last()@));
                },
                None => {},
            }
            i += 1;
        }
        assert(given.take(given.len() as int) =~= given);
        let seen = now_ms();
        let record = PeerRecord {
            peer_id: vstd::slice::slice_to_vec(peer.as_slice()),
            addrs: copy_strings(&addrs),
            last_seen_ms: seen,
        };
        let ghost before = self.store_view().peer_table();
        match self.store.remember_peer(&community, &record) {
            _ => {},
        }
        assert(record@ == (PeerModel { peer_id: peer@, addrs: strings_view(addrs@), last_seen_ms: seen }));
        assert(self.store_view().peer_table() == crate::store::peers::remembered(before, community@, record@));
        assert(before == old(self).store_view().peer_table());
        assert(strings_view(addrs@) == parsed_addrs(strings_view(presence.addrs@)));
        assert(self.store_view().peer_table() == crate::store::peers::remembered(
            old(self).store_view().peer_table(),
            community@,
            PeerModel { peer_id: peer@, addrs: strings_view(addrs@), last_seen_ms: seen },
        ));
        assert(exists|t: u64|
            self.store_view().peer_table() == crate::store::peers::remembered(
                old(self).store_view().peer_table(),
                community@,
                PeerModel { peer_id: peer@, addrs: strings_view(addrs@), last_seen_ms: t },
            ));
        let result = Some((peer, addrs));
        assert(result matches Some((p, a)) && Some(p@) == crate::net::peer::peer_of_user(presence.user@) && strings_view(
            a@,
        ) == parsed_addrs(strings_view(presence.addrs@)) && exists|t: u64|
            self.store_view().peer_table() == crate::store::peers::remembered(
                old(self).store_view().peer_table(),
                community@,
                PeerModel { peer_id: p@, addrs: strings_view(a@), last_seen_ms: t },
            ));
        result
    }

    /// What reading `data` off `topic` leaves behind, answering `r`.
    pub open spec fn gossip_step(&self, after: &Engine, topic: Seq<char>, data: Seq<u8>, r: Gossiped) -> bool {
        match community_from_topic_spec(topic) {
            None => r is Ignored && after.events() == self.events(),
            Some(c) => match crate::proto::codec::whole(
                crate::net::wire::take_gossip(data),
                data.len(),
            ) {
                Err(_) => r is Ignored && after.events() == self.events(),
                Ok(GossipModel::Event(e)) => r matches Gossiped::Event(x) && self.ingest_step(
                    after,
                    e,
                    true,
                    x,
                ),
                Ok(GossipModel::Presence(p)) => after.events() == self.events() && if p.user == self.me() || crate::net::peer::peer_of_user(p.user) is None {
                    r is Noted
                } else {
                    r matches Gossiped::Dial { peer, addrs } && Some(peer@) == crate::net::peer::peer_of_user(p.user)
                        && strings_view(addrs@) == parsed_addrs(p.addrs) && exists|seen: u64|
                        after.store_view().peer_table() == crate::store::peers::remembered(
                            self.store_view().peer_table(),
                            c,
                            PeerModel { peer_id: peer@, addrs: strings_view(addrs@), last_seen_ms: seen },
                        )
                },
            },
        }
    }

    /// What to make of a message on a community's topic.
    #[verifier::spinoff_prover]
    #[verifier::rlimit(40)]
    pub fn on_gossip(&mut self, topic: &str, data: &[u8]) -> (r: Gossiped)
        requires
            old(self).wf(),
        ensures
            final(self).net() == old(self).net(),
            final(self).wf(),
            final(self).secret() == old(self).secret(),
            final(self).joined() == old(self).joined(),
            old(self).gossip_step(final(self), topic@, data@, r),
    {
        let community = match community_from_topic(topic) {
            Some(c) => c,
            None => return Gossiped::Ignored,
        };
        match GossipMessage::decode(data) {
            Ok(GossipMessage::Event(event)) => Gossiped::Event(self.ingest(*event, true)),
            Ok(GossipMessage::Presence(presence)) => match self.handle_presence(community, presence) {
                Some((peer, addrs)) => Gossiped::Dial { peer, addrs },
                None => Gossiped::Noted,
            },
            Err(_) => Gossiped::Ignored,
        }
    }

    /// Applies a peer's answer to a sync request. Answers how many events
    /// were new, and whether to ask again: only when the batch was cut short
    /// and it made progress, so a peer that keeps sending refused events
    /// cannot spin the node.
    pub fn on_sync_response(&mut self, peer: String, community: CommunityId, events: Vec<SignedEvent>, complete: bool) -> (r: (usize, bool))
        requires
            old(self).wf(),
        ensures
            final(self).wf(),
            final(self).secret() == old(self).secret(),
            final(self).joined() == old(self).joined(),
            r.1 == (r.0 > 0 && !complete),
            exists|steps: Seq<Engine>, outs: Seq<Ingested>|
                #![trigger steps.len(), outs.len()]
                {
                    &&& steps.len() == events@.len() + 1
                    &&& outs.len() == events@.len()
                    &&& steps[0] == *old(self)
                    &&& forall|i: int|
                        0 <= i < outs.len() ==> steps[i].ingest_step(&steps[i + 1], events@[i]@, true, #[trigger] outs[i])
                    &&& r.0 == count_new(outs)
                    &&& final(self).events() == steps.last().events()
                    &&& final(self).parked() == steps.last().parked()
                    &&& final(self).store_view() == steps.last().store_view()
                    &&& final(self).outbox() == if r.0 > 0 {
                        steps.last().outbox().push(
                            NodeEvent::Synced { peer, community, applied: r.0 },
                        )
                    } else {
                        steps.last().outbox()
                    }
                },
    {
        let mut applied: usize = 0;
        let mut i: usize = 0;
        let ghost mut steps: Seq<Engine> = seq![*self];
        let ghost mut outs: Seq<Ingested> = seq![];
        while i < events.len()
            invariant
                self.wf(),
                self.secret() == old(self).secret(),
                self.joined() == old(self).joined(),
                i <= events@.len(),
                steps.len() == i + 1,
                outs.len() == i,
                steps[0] == *old(self),
                steps.last() == *self,
                applied == count_new(outs),
                applied <= i,
                forall|k: int|
                    0 <= k < outs.len() ==> steps[k].ingest_step(&steps[k + 1], events@[k]@, true, #[trigger] outs[k]),
            decreases events@.len() - i,
        {
            let e = events[i].clone();
            let ghost before = *self;
            let got = self.ingest(e, true);
            proof {
                let s0 = steps;
                let o0 = outs;
                steps = steps.push(*self);
                outs = outs.push(got);
                assert(outs.drop_last() =~= o0);
                assert forall|k: int|
                    0 <= k < outs.len() implies steps[k].ingest_step(&steps[k + 1], events@[k]@, true, #[trigger] outs[k]) by {
                    if k < i {
                        assert(steps[k] == s0[k] && steps[k + 1] == s0[k + 1] && outs[k] == o0[k]);
                    } else {
                        assert(steps[k] == before && steps[k + 1] == *self && outs[k] == got);
                    }
                }
            }
            match got {
                Ingested::New => {
                    applied += 1;
                },
                _ => {},
            }
            i += 1;
        }
        let ghost last = *self;
        if applied > 0 {
            self.outbox.push(NodeEvent::Synced { peer, community, applied });
        }
        proof {
            assert(steps.len() == events@.len() + 1 && outs.len() == events@.len());
        }
        (applied, applied > 0 && !complete)
    }

    /// What to ask a peer for a community this node takes part in: every
    /// event past what it holds, in batches.
    pub fn sync_request(&self, community: CommunityId) -> (r: Option<SyncRequest>)
        ensures
            !self.joined().contains(community@) ==> r is None,
            self.joined().contains(community@) ==> (r matches Some(SyncRequest::GetDelta { community: c, have, limit })
                && c == community && have@ == pairs_max(chain_pairs(self.events(), community@)) && limit
                == MAX_SYNC_BATCH),
    {
        if !self.takes_part_in(&community) {
            return None;
        }
        let have = match self.store.frontier(&community) {
            Ok(f) => f,
            Err(_) => return None,
        };
        Some(SyncRequest::GetDelta { community, have, limit: 128 })
    }

    /// The announcement telling a community where to find this node, or
    /// `None` when it has no address worth announcing.
    pub fn presence_for(&self, community: &CommunityId, addrs: Vec<String>, punch: Vec<String>) -> (r: Option<
        GossipMessage,
    >)
        ensures
            addrs@.len() == 0 ==> r is None,
            addrs@.len() > 0 ==> (r matches Some(GossipMessage::Presence(p)) && p.user@ == self.me() && p.addrs
                == addrs && p.punch == punch && exists|q: Seq<(Seq<u8>, u64)>|
                sorted_keys(q) && frontier_map(q) == pairs_max(chain_pairs(self.events(), community@))
                    && p.event_count == if total_of(q) <= u64::MAX {
                    total_of(q)
                } else {
                    u64::MAX as int
                }),
    {
        if addrs.len() == 0 {
            return None;
        }
        let event_count = self.events_held(community);
        Some(GossipMessage::Presence(Presence { user: self.me, addrs, punch, event_count, announced_at_ms: now_ms() }))
    }

    /// Everything the node reports about itself, given what only the
    /// network knows: its peer id, its addresses, and who it is connected
    /// to.
    pub fn status(&self, peer_id: String, listen_addrs: Vec<String>, connected_peers: Vec<String>) -> (r: Result<
        Status,
        NodeError,
    >)
        ensures
            r matches Ok(st) && st.user@ == self.me() && st.display_name@ == self.name() && st.peer_id == peer_id
                && st.listen_addrs == listen_addrs && st.connected_peers == connected_peers && statuses_of(
                self.events(),
                st.communities@,
            ),
    {
        let communities = match self.community_statuses() {
            Ok(v) => v,
            Err(e) => return Err(e),
        };
        Ok(Status {
            user: self.me,
            display_name: self.display_name.clone(),
            peer_id,
            listen_addrs,
            connected_peers,
            communities,
        })
    }
}

// -- the network --------------------------------------------------------------------

/// The presence announcement to community `c`: on its topic, saying that
/// `me` is at `addrs`.
pub open spec fn presence_publish(a: ActModel, c: Seq<u8>, me: Seq<u8>, addrs: Seq<Seq<char>>) -> bool {
    a matches ActModel::Publish { topic, data } && topic == topic_of(c) && exists|p: PresenceModel|
        data == enc_gossip(GossipModel::Presence(p)) && p.user == me && p.addrs == addrs && p.punch.len() == 0
}

/// Where a node with this network state says it can be reached.
pub open spec fn announced_addrs(n: NetModel) -> Seq<Seq<char>> {
    offered(n.listen + n.external)
}

/// One announcement to each community in `joined`, or none when there is
/// no address to announce.
pub open spec fn announcements(acts: Seq<ActModel>, joined: Seq<Seq<u8>>, me: Seq<u8>, addrs: Seq<Seq<char>>) -> bool {
    if addrs.len() == 0 {
        acts.len() == 0
    } else {
        &&& acts.len() == joined.len()
        &&& forall|i: int| 0 <= i < joined.len() ==> presence_publish(#[trigger] acts[i], joined[i], me, addrs)
    }
}

/// The request asking `peer` for what comes after what `events` hold of
/// community `c`.
pub open spec fn sync_act(peer: Seq<u8>, c: Seq<u8>, events: Seq<SignedEventModel>) -> ActModel {
    ActModel::RequestSync { peer, community: c, have: pairs_max(chain_pairs(events, c)), limit: MAX_SYNC_BATCH as u32 }
}

/// A sync request to `peer` for each community in `joined`.
pub open spec fn sync_acts(peer: Seq<u8>, joined: Seq<Seq<u8>>, events: Seq<SignedEventModel>) -> Seq<ActModel> {
    joined.map_values(|c: Seq<u8>| sync_act(peer, c, events))
}

impl Engine {
    fn sync_act_for(&self, peer: &[u8], community: CommunityId) -> (a: NetAction)
        requires
            self.joined().contains(community@),
        ensures
            a@ == sync_act(peer@, community@, self.events()),
    {
        let request = self.sync_request(community);
        NetAction::RequestSync { peer: vstd::slice::slice_to_vec(peer), request: request.unwrap() }
    }

    /// A sync request to `peer` for every community this node takes part in.
    fn sync_all(&self, peer: &[u8]) -> (v: Vec<NetAction>)
        ensures
            acts_view(v@) == sync_acts(peer@, self.joined(), self.events()),
    {
        let ghost j = self.joined();
        let mut v: Vec<NetAction> = Vec::new();
        let mut i: usize = 0;
        while i < self.joined.len()
            invariant
                j == self.joined(),
                j.len() == self.joined@.len(),
                i <= j.len(),
                acts_view(v@) == sync_acts(peer@, j.take(i as int), self.events()),
            decreases j.len() - i,
        {
            let c = self.joined[i];
            assert(j[i as int] == c@);
            assert(j.contains(c@));
            let a = self.sync_act_for(peer, c);
            let ghost v0 = acts_view(v@);
            v.push(a);
            assert(acts_view(v@) =~= v0.push(a@));
            assert(sync_acts(peer@, j.take(i + 1), self.events()) =~= sync_acts(peer@, j.take(i as int), self.events()).push(
                sync_act(peer@, j[i as int], self.events()),
            ));
            i += 1;
        }
        assert(j.take(j.len() as int) =~= j);
        v
    }

    /// Where this node says it can be reached.
    fn announced(&self) -> (v: Vec<String>)
        ensures
            strings_view(v@) == announced_addrs(self.net()),
    {
        let mut all = copy_strings(&self.net.listen);
        let mut i: usize = 0;
        let ghost l = strings_view(self.net.listen@);
        let ghost x = strings_view(self.net.external@);
        while i < self.net.external.len()
            invariant
                l == strings_view(self.net.listen@),
                x == strings_view(self.net.external@),
                i <= x.len(),
                strings_view(all@) == l + x.take(i as int),
            decreases x.len() - i,
        {
            let ghost a0 = strings_view(all@);
            all.push(self.net.external[i].clone());
            assert(x[i as int] == self.net.external@[i as int]@);
            assert(strings_view(all@) =~= a0.push(x[i as int]));
            assert(l + x.take(i + 1) =~= (l + x.take(i as int)).push(x[i as int]));
            i += 1;
        }
        assert(x.take(x.len() as int) =~= x);
        public_addrs(&all)
    }

    /// Tells every community this node takes part in where to find it.
    fn announce_all(&self) -> (v: Vec<NetAction>)
        ensures
            announcements(acts_view(v@), self.joined(), self.me(), announced_addrs(self.net())),
    {
        let addrs = self.announced();
        let ghost av = strings_view(addrs@);
        let ghost j = self.joined();
        let mut v: Vec<NetAction> = Vec::new();
        if addrs.len() == 0 {
            return v;
        }
        let mut i: usize = 0;
        while i < self.joined.len()
            invariant
                j == self.joined(),
                j.len() == self.joined@.len(),
                av == announced_addrs(self.net()),
                av == strings_view(addrs@),
                addrs@.len() > 0,
                i <= j.len(),
                v@.len() == i,
                forall|k: int| 0 <= k < i ==> presence_publish(#[trigger] acts_view(v@)[k], j[k], self.me(), av),
            decreases j.len() - i,
        {
            let c = self.joined[i];
            assert(j[i as int] == c@);
            match self.presence_for(&c, copy_strings(&addrs), Vec::new()) {
                Some(message) => {
                    let data = message.encode();
                    let topic = topic_name(&c);
                    let ghost v0 = v@;
                    v.push(NetAction::Publish { topic, data });
                    proof {
                        match message {
                            GossipMessage::Presence(p) => {
                                assert(presence_publish(acts_view(v@)[i as int], j[i as int], self.me(), av)) by {
                                    assert(p@.punch.len() == 0);
                                }
                            },
                            _ => {},
                        }
                        assert forall|k: int| 0 <= k < i + 1 implies presence_publish(
                            #[trigger] acts_view(v@)[k],
                            j[k],
                            self.me(),
                            av,
                        ) by {
                            if k < i {
                                assert(acts_view(v@)[k] == acts_view(v0)[k]);
                            }
                        }
                    }
                },
                None => {
                    return v;
                },
            }
            i += 1;
        }
        v
    }
}

/// The members to ask to carry for us, in candidate order: connected, with
/// somewhere to reach them, not asked already, and no more than
/// `RELAY_TARGET` asked in all.
pub open spec fn relay_picks(
    cands: Seq<(Seq<u8>, Seq<Seq<char>>)>,
    connected: Seq<Seq<u8>>,
    via: Seq<Seq<u8>>,
) -> Seq<(Seq<u8>, Seq<Seq<char>>)>
    decreases cands.len(),
{
    if cands.len() == 0 {
        seq![]
    } else {
        let rest = relay_picks(cands.drop_last(), connected, via);
        let c = cands.last();
        let asked = via + rest.map_values(|x: (Seq<u8>, Seq<Seq<char>>)| x.0);
        if asked.len() < RELAY_TARGET && c.1.len() > 0 && !asked.contains(c.0) && connected.contains(c.0) {
            rest.push(c)
        } else {
            rest
        }
    }
}

pub open spec fn listen_acts(picks: Seq<(Seq<u8>, Seq<Seq<char>>)>) -> Seq<ActModel> {
    picks.map_values(|x: (Seq<u8>, Seq<Seq<char>>)| ActModel::ListenVia { relay: x.0, addrs: x.1 })
}

/// Looking for members to carry for us: only while behind a router.
pub open spec fn seek_model(n: NetModel) -> (NetModel, Seq<ActModel>) {
    if n.reachability == Some(Reachability::BehindNat) {
        let picks = relay_picks(n.candidates, n.connected, n.via);
        (
            NetModel { via: n.via + picks.map_values(|x: (Seq<u8>, Seq<Seq<char>>)| x.0), ..n },
            listen_acts(picks),
        )
    } else {
        (n, seq![])
    }
}

/// What settling on being reachable (`Some(Direct)`), not (`Some(BehindNat)`)
/// or unknown (`None`) does to the network state, before the node tells
/// its communities: nothing when the operator fixed it or nothing changed;
/// behind a router, ask members to carry for us; reachable, give the
/// reservations back and offer to carry for others.
pub open spec fn reach_model(n: NetModel, next: Option<Reachability>) -> (NetModel, Seq<ActModel>) {
    if n.fixed || next == n.reachability {
        (n, seq![])
    } else {
        let m = NetModel { reachability: next, ..n };
        match next {
            Some(Reachability::BehindNat) => seek_model(m),
            Some(Reachability::Direct) => (
                NetModel { via: seq![], relayed_by: seq![], ..m },
                seq![ActModel::ReleaseRelays, ActModel::DhtProvide(relay_key_bytes())],
            ),
            None => (m, seq![]),
        }
    }
}

/// Settling on `next`: the state and first actions `reach_model` gives, then,
/// when anything changed, an announcement to every community.
pub open spec fn reach_step(
    joined: Seq<Seq<u8>>,
    me: Seq<u8>,
    n: NetModel,
    next: Option<Reachability>,
    after: NetModel,
    acts: Seq<ActModel>,
) -> bool {
    let (m, first) = reach_model(n, next);
    &&& after == m
    &&& acts.take(first.len() as int) == first
    &&& first.len() <= acts.len()
    &&& if n.fixed || next == n.reachability {
        acts.len() == 0
    } else {
        announcements(acts.skip(first.len() as int), joined, me, announced_addrs(m))
    }
}

impl Engine {
    /// Everything outside the network state stays as it was.
    pub open spec fn same_but_net(&self, other: &Engine) -> bool {
        &&& other.wf()
        &&& other.events() == self.events()
        &&& other.store_view() == self.store_view()
        &&& other.joined() == self.joined()
        &&& other.pending() == self.pending()
        &&& other.parked() == self.parked()
        &&& other.outbox() == self.outbox()
        &&& other.outgoing() == self.outgoing()
        &&& other.settled() == self.settled()
        &&& other.secret() == self.secret()
        &&& other.me() == self.me()
        &&& other.name() == self.name()
    }

    /// Asks connected members to carry for us, while behind a router.
    fn seek_relay(&mut self) -> (v: Vec<NetAction>)
        requires
            old(self).wf(),
        ensures
            old(self).same_but_net(final(self)),
            (final(self).net(), acts_view(v@)) == seek_model(old(self).net()),
    {
        let mut v: Vec<NetAction> = Vec::new();
        let behind = match self.net.reachability {
            Some(Reachability::BehindNat) => true,
            _ => false,
        };
        if !behind {
            assert(acts_view(v@) =~= Seq::<ActModel>::empty());
            return v;
        }
        let ghost n0 = self.net();
        let ghost cands = n0.candidates;
        let mut i: usize = 0;
        while i < self.net.candidates.len()
            invariant
                old(self).same_but_net(self),
                n0 == old(self).net(),
                cands == n0.candidates,
                cands == candidates_view(self.net.candidates@),
                i <= cands.len(),
                self.net() == (NetModel {
                    via: n0.via + relay_picks(cands.take(i as int), n0.connected, n0.via).map_values(
                        |x: (Seq<u8>, Seq<Seq<char>>)| x.0,
                    ),
                    ..n0
                }),
                acts_view(v@) == listen_acts(relay_picks(cands.take(i as int), n0.connected, n0.via)),
            decreases cands.len() - i,
        {
            assert(cands.take(i + 1).drop_last() =~= cands.take(i as int));
            assert(cands.take(i + 1).last() == cands[i as int]);
            assert(cands[i as int] == (self.net.candidates@[i as int].0@, strings_view(self.net.candidates@[i as int].1@)));
            let ghost rest = relay_picks(cands.take(i as int), n0.connected, n0.via);
            let take = self.net.via.len() < RELAY_TARGET && self.net.candidates[i].1.len() > 0 && !has_peer(
                &self.net.via,
                self.net.candidates[i].0.as_slice(),
            ) && has_peer(&self.net.connected, self.net.candidates[i].0.as_slice());
            if take {
                let relay = self.net.candidates[i].0.clone();
                let addrs = copy_strings(&self.net.candidates[i].1);
                let ghost via0 = peers_seq(self.net.via@);
                self.net.via.push(relay.clone());
                assert(peers_seq(self.net.via@) =~= via0.push(relay@));
                let ghost a0 = acts_view(v@);
                v.push(NetAction::ListenVia { relay, addrs });
                assert(acts_view(v@) =~= a0.push(ActModel::ListenVia { relay: cands[i as int].0, addrs: cands[i as int].1 }));
                assert(rest.push(cands[i as int]).map_values(|x: (Seq<u8>, Seq<Seq<char>>)| x.0) =~= rest.map_values(
                    |x: (Seq<u8>, Seq<Seq<char>>)| x.0,
                ).push(cands[i as int].0));
                assert(n0.via + rest.push(cands[i as int]).map_values(|x: (Seq<u8>, Seq<Seq<char>>)| x.0) =~= (n0.via
                    + rest.map_values(|x: (Seq<u8>, Seq<Seq<char>>)| x.0)).push(cands[i as int].0));
                assert(listen_acts(rest.push(cands[i as int])) =~= listen_acts(rest).push(
                    ActModel::ListenVia { relay: cands[i as int].0, addrs: cands[i as int].1 },
                ));
            }
            i += 1;
        }
        assert(cands.take(cands.len() as int) =~= cands);
        v
    }
}

impl Engine {
    /// Acts on a change of reachability, whatever established it.
    fn reach_to(&mut self, next: Option<Reachability>) -> (v: Vec<NetAction>)
        requires
            old(self).wf(),
        ensures
            old(self).same_but_net(final(self)),
            reach_step(old(self).joined(), old(self).me(), old(self).net(), next, final(self).net(), acts_view(v@)),
    {
        let same = match (next, self.net.reachability) {
            (None, None) => true,
            (Some(Reachability::Direct), Some(Reachability::Direct)) => true,
            (Some(Reachability::BehindNat), Some(Reachability::BehindNat)) => true,
            _ => false,
        };
        proof {
            if same {
                assert(next == self.net.reachability);
            }
        }
        if self.net.fixed || same {
            let v: Vec<NetAction> = Vec::new();
            assert(acts_view(v@) =~= Seq::<ActModel>::empty());
            assert(reach_model(self.net(), next) == (self.net(), Seq::<ActModel>::empty()));
            assert(acts_view(v@).take(0) =~= Seq::<ActModel>::empty());
            return v;
        }
        let ghost n0 = self.net();
        self.net.reachability = next;
        let mut v: Vec<NetAction> = match next {
            Some(Reachability::BehindNat) => self.seek_relay(),
            Some(Reachability::Direct) => {
                self.net.via = Vec::new();
                self.net.relayed_by = Vec::new();
                let mut w: Vec<NetAction> = Vec::new();
                w.push(NetAction::ReleaseRelays);
                w.push(NetAction::DhtProvide(relay_key()));
                w
            },
            None => Vec::new(),
        };
        let ghost first = acts_view(v@);
        proof {
            let (m, f) = reach_model(n0, next);
            assert(self.net().via =~= m.via);
            assert(self.net().relayed_by =~= m.relayed_by);
            assert(self.net() == m);
            assert(first =~= f);
        }
        let mut more = self.announce_all();
        let ghost said = acts_view(more@);
        let ghost v0 = v@;
        v.append(&mut more);
        proof {
            assert(acts_view(v@).take(first.len() as int) =~= first);
            assert(acts_view(v@).skip(first.len() as int) =~= said);
        }
        v
    }
}

/// `t` with a record of `m` added in each community of `cs`, in turn.
pub open spec fn remember_in(t: Seq<(Seq<u8>, PeerModel)>, cs: Seq<Seq<u8>>, m: PeerModel) -> Seq<(Seq<u8>, PeerModel)>
    decreases cs.len(),
{
    if cs.len() == 0 {
        t
    } else {
        crate::store::peers::remembered(remember_in(t, cs.drop_last(), m), cs.last(), m)
    }
}

impl Engine {
    /// Everything but the network state, the store and the outbox stays as
    /// it was.
    pub open spec fn rest_kept(&self, other: &Engine) -> bool {
        &&& other.wf()
        &&& other.events() == self.events()
        &&& other.joined() == self.joined()
        &&& other.pending() == self.pending()
        &&& other.parked() == self.parked()
        &&& other.outgoing() == self.outgoing()
        &&& other.settled() == self.settled()
        &&& other.secret() == self.secret()
        &&& other.me() == self.me()
        &&& other.name() == self.name()
    }

    /// The outbox gained `ev`, and nothing else.
    pub open spec fn told(&self, other: &Engine, ev: NodeEvent) -> bool {
        &&& other.outbox().len() == self.outbox().len() + 1
        &&& other.outbox().take(self.outbox().len() as int) == self.outbox()
        &&& other.outbox().last() == ev
    }

    /// A new listening address is kept, and a relay circuit among them is
    /// offered to others as a way in; the user is told.
    pub open spec fn listening_step(&self, addr: Seq<char>, after: &Engine, acts: Seq<ActModel>) -> bool {
        let n = self.net();
        let circuit = is_circuit_addr(addr);
        &&& self.rest_kept(after)
        &&& after.store_view() == self.store_view()
        &&& after.net() == (NetModel {
            listen: with_item(n.listen, addr),
            external: if circuit { with_item(n.external, addr) } else { n.external },
            ..n
        })
        &&& acts == if circuit { seq![ActModel::AddExternal(addr)] } else { Seq::<ActModel>::empty() }
        &&& after.outbox().len() == self.outbox().len() + 1
        &&& after.outbox().take(self.outbox().len() as int) == self.outbox()
        &&& after.outbox().last() matches NodeEvent::Listening { addr: a } && a@ == addr
    }

    fn on_listening(&mut self, addr: String) -> (v: Vec<NetAction>)
        requires
            old(self).wf(),
        ensures
            old(self).listening_step(addr@, final(self), acts_view(v@)),
    {
        add_text(&mut self.net.listen, addr.as_str());
        let mut v: Vec<NetAction> = Vec::new();
        if is_circuit(addr.as_str()) {
            add_text(&mut self.net.external, addr.as_str());
            v.push(NetAction::AddExternal(addr.clone()));
            assert(acts_view(v@) =~= seq![ActModel::AddExternal(addr@)]);
        } else {
            assert(acts_view(v@) =~= Seq::<ActModel>::empty());
        }
        let ghost b0 = self.outbox();
        self.outbox.push(NodeEvent::Listening { addr });
        assert(self.outbox().take(b0.len() as int) =~= b0);
        v
    }

    /// A connection came up: where the peer was reached is remembered in
    /// every community taken part in; on the first connection to it the user
    /// is told, and the peer is asked for everything this node is missing in
    /// each of them.
    pub open spec fn connected_step(
        &self,
        peer: Seq<u8>,
        remote: Seq<char>,
        first: bool,
        after: &Engine,
        acts: Seq<ActModel>,
    ) -> bool {
        let n = self.net();
        &&& self.rest_kept(after)
        &&& after.store_view().events() == self.store_view().events()
        &&& after.store_view().relay_table() == self.store_view().relay_table()
        &&& after.store_view().meta_table() == self.store_view().meta_table()
        &&& exists|seen: u64|
            after.store_view().peer_table() == remember_in(
                self.store_view().peer_table(),
                self.joined(),
                PeerModel { peer_id: peer, addrs: seq![remote], last_seen_ms: seen },
            )
        &&& after.net() == (NetModel { connected: with_item(n.connected, peer), ..n })
        &&& acts == if first { sync_acts(peer, self.joined(), self.events()) } else { Seq::<ActModel>::empty() }
        &&& if first && is_peer_id(peer) {
            &&& after.outbox().len() == self.outbox().len() + 1
            &&& after.outbox().take(self.outbox().len() as int) == self.outbox()
            &&& after.outbox().last() matches NodeEvent::PeerConnected { peer: t } && t@ == bs58_text(peer)
        } else {
            after.outbox() == self.outbox()
        }
    }

    fn on_connected(&mut self, peer: Vec<u8>, remote: String, first: bool) -> (v: Vec<NetAction>)
        requires
            old(self).wf(),
        ensures
            old(self).connected_step(peer@, remote@, first, final(self), acts_view(v@)),
    {
        add_peer(&mut self.net.connected, peer.as_slice());
        let seen = now_ms();
        let mut addrs: Vec<String> = Vec::new();
        addrs.push(remote.clone());
        let record = PeerRecord { peer_id: peer.clone(), addrs, last_seen_ms: seen };
        let ghost m = PeerModel { peer_id: peer@, addrs: seq![remote@], last_seen_ms: seen };
        assert(record@ == m) by {
            assert(record@.addrs =~= seq![remote@]);
        }
        let ghost t0 = self.store_view().peer_table();
        let ghost j = self.joined();
        let mut i: usize = 0;
        while i < self.joined.len()
            invariant
                old(self).rest_kept(self),
                self.net() == (NetModel { connected: with_item(old(self).net().connected, peer@), ..old(self).net() }),
                self.outbox() == old(self).outbox(),
                self.store_view().events() == old(self).store_view().events(),
                self.store_view().relay_table() == old(self).store_view().relay_table(),
                self.store_view().meta_table() == old(self).store_view().meta_table(),
                j == self.joined(),
                j.len() == self.joined@.len(),
                t0 == old(self).store_view().peer_table(),
                record@ == m,
                i <= j.len(),
                self.store_view().peer_table() == remember_in(t0, j.take(i as int), m),
            decreases j.len() - i,
        {
            let c = self.joined[i];
            assert(j[i as int] == c@);
            let _ = self.store.remember_peer(&c, &record);
            assert(j.take(i + 1).drop_last() =~= j.take(i as int));
            i += 1;
        }
        assert(j.take(j.len() as int) =~= j);
        if !first {
            let v: Vec<NetAction> = Vec::new();
            assert(acts_view(v@) =~= Seq::<ActModel>::empty());
            return v;
        }
        match peer_id_text(peer.as_slice()) {
            Some(t) => {
                let ghost b0 = self.outbox();
                self.outbox.push(NodeEvent::PeerConnected { peer: t });
                assert(self.outbox().take(b0.len() as int) =~= b0);
            },
            None => {},
        }
        self.sync_all(peer.as_slice())
    }

    /// The last connection to a peer closed; the user is told.
    pub open spec fn disconnected_step(&self, peer: Seq<u8>, after: &Engine, acts: Seq<ActModel>) -> bool {
        let n = self.net();
        &&& self.rest_kept(after)
        &&& after.store_view() == self.store_view()
        &&& after.net() == (NetModel { connected: without_item(n.connected, peer), ..n })
        &&& acts.len() == 0
        &&& if is_peer_id(peer) {
            &&& after.outbox().len() == self.outbox().len() + 1
            &&& after.outbox().take(self.outbox().len() as int) == self.outbox()
            &&& after.outbox().last() matches NodeEvent::PeerDisconnected { peer: t } && t@ == bs58_text(peer)
        } else {
            after.outbox() == self.outbox()
        }
    }

    fn on_disconnected(&mut self, peer: Vec<u8>) -> (v: Vec<NetAction>)
        requires
            old(self).wf(),
        ensures
            old(self).disconnected_step(peer@, final(self), acts_view(v@)),
    {
        remove_peer(&mut self.net.connected, peer.as_slice());
        match peer_id_text(peer.as_slice()) {
            Some(t) => {
                let ghost b0 = self.outbox();
                self.outbox.push(NodeEvent::PeerDisconnected { peer: t });
                assert(self.outbox().take(b0.len() as int) =~= b0);
            },
            None => {},
        }
        Vec::new()
    }
}

/// What a gossip message asks of the network: dial a member who said
/// where they are and is not connected yet; ask whoever relayed an early
/// event for what comes before it.
pub open spec fn gossip_acts(
    r: Gossiped,
    source: Seq<u8>,
    connected: Seq<Seq<u8>>,
    joined: Seq<Seq<u8>>,
    events: Seq<SignedEventModel>,
) -> Seq<ActModel> {
    match r {
        Gossiped::Dial { peer, addrs } => if connected.contains(peer@) {
            Seq::<ActModel>::empty()
        } else {
            seq![ActModel::Dial { peer: peer@, addrs: strings_view(addrs@) }]
        },
        Gossiped::Event(Ingested::Parked { community, ask_sync }) => if ask_sync && joined.contains(community@) {
            seq![sync_act(source, community@, events)]
        } else {
            Seq::<ActModel>::empty()
        },
        _ => Seq::<ActModel>::empty(),
    }
}

/// An announcement to community `c` alone, or none when there is no address
/// to announce.
pub open spec fn announcement_to(acts: Seq<ActModel>, c: Seq<u8>, me: Seq<u8>, addrs: Seq<Seq<char>>) -> bool {
    if addrs.len() == 0 {
        acts.len() == 0
    } else {
        acts.len() == 1 && presence_publish(acts[0], c, me, addrs)
    }
}

impl Engine {
    pub open spec fn gossip_event_step(
        &self,
        source: Seq<u8>,
        topic: Seq<char>,
        data: Seq<u8>,
        after: &Engine,
        acts: Seq<ActModel>,
    ) -> bool {
        &&& after.wf()
        &&& after.net() == self.net()
        &&& after.joined() == self.joined()
        &&& after.secret() == self.secret()
        &&& exists|r: Gossiped|
            #[trigger] self.gossip_step(after, topic, data, r) && acts == gossip_acts(
                r,
                source,
                self.net().connected,
                after.joined(),
                after.events(),
            )
    }

    fn on_gossip_event(&mut self, source: Vec<u8>, topic: String, data: Vec<u8>) -> (v: Vec<NetAction>)
        requires
            old(self).wf(),
        ensures
            old(self).gossip_event_step(source@, topic@, data@, final(self), acts_view(v@)),
    {
        let r = self.on_gossip(topic.as_str(), data.as_slice());
        let mut v: Vec<NetAction> = Vec::new();
        match &r {
            Gossiped::Dial { peer, addrs } => {
                if !has_peer(&self.net.connected, peer.as_slice()) {
                    v.push(NetAction::Dial { peer: peer.clone(), addrs: copy_strings(addrs) });
                }
            },
            Gossiped::Event(Ingested::Parked { community, ask_sync }) => {
                if *ask_sync && self.takes_part_in(community) {
                    let a = self.sync_act_for(source.as_slice(), *community);
                    v.push(a);
                }
            },
            _ => {},
        }
        proof {
            assert(acts_view(v@) =~= gossip_acts(r, source@, self.net().connected, self.joined(), self.events()));
            assert(old(self).gossip_step(self, topic@, data@, r));
        }
        v
    }

    /// Somebody subscribed to a community's topic: when it is one this node
    /// takes part in, it tells them where it is and asks them for anything
    /// it is missing.
    pub open spec fn subscribed_step(&self, peer: Seq<u8>, topic: Seq<char>, after: &Engine, acts: Seq<ActModel>) -> bool {
        &&& self.rest_kept(after)
        &&& after.store_view() == self.store_view()
        &&& after.net() == self.net()
        &&& after.outbox() == self.outbox()
        &&& match community_from_topic_spec(topic) {
            Some(c) => if self.joined().contains(c) {
                &&& acts.len() >= 1
                &&& acts.last() == sync_act(peer, c, self.events())
                &&& announcement_to(acts.drop_last(), c, self.me(), announced_addrs(self.net()))
            } else {
                acts.len() == 0
            },
            None => acts.len() == 0,
        }
    }

    fn on_subscribed(&mut self, peer: Vec<u8>, topic: String) -> (v: Vec<NetAction>)
        requires
            old(self).wf(),
        ensures
            old(self).subscribed_step(peer@, topic@, final(self), acts_view(v@)),
    {
        let mut v: Vec<NetAction> = Vec::new();
        let community = match community_from_topic(topic.as_str()) {
            Some(c) => c,
            None => return v,
        };
        if !self.takes_part_in(&community) {
            return v;
        }
        let addrs = self.announced();
        if addrs.len() > 0 {
            match self.presence_for(&community, addrs, Vec::new()) {
                Some(message) => {
                    let data = message.encode();
                    let topic = topic_name(&community);
                    v.push(NetAction::Publish { topic, data });
                    proof {
                        match message {
                            GossipMessage::Presence(p) => {
                                assert(presence_publish(acts_view(v@)[0], community@, self.me(), announced_addrs(self.net())));
                            },
                            _ => {},
                        }
                    }
                },
                None => {},
            }
        }
        let ghost pre = acts_view(v@);
        let a = self.sync_act_for(peer.as_slice(), community);
        v.push(a);
        assert(acts_view(v@).drop_last() =~= pre);
        v
    }
}

/// The addresses remembered for a relay candidate, or none.
pub open spec fn candidate_addrs(cands: Seq<(Seq<u8>, Seq<Seq<char>>)>, peer: Seq<u8>) -> Seq<Seq<char>>
    decreases cands.len(),
{
    if cands.len() == 0 {
        seq![]
    } else if cands.last().0 == peer {
        cands.last().1
    } else {
        candidate_addrs(cands.drop_last(), peer)
    }
}

/// Dials to each of `rs` not connected already, in order.
pub open spec fn relay_dials(rs: Seq<PeerModel>, connected: Seq<Seq<u8>>) -> Seq<ActModel>
    decreases rs.len(),
{
    if rs.len() == 0 {
        seq![]
    } else {
        let rest = relay_dials(rs.drop_last(), connected);
        let r = rs.last();
        if connected.contains(r.peer_id) {
            rest
        } else {
            rest.push(ActModel::Dial { peer: r.peer_id, addrs: r.addrs })
        }
    }
}

/// A sync request to each of `peers` for each community in `cs`.
pub open spec fn anti_entropy_acts(cs: Seq<Seq<u8>>, peers: Seq<Seq<u8>>, events: Seq<SignedEventModel>) -> Seq<ActModel>
    decreases cs.len(),
{
    if cs.len() == 0 {
        seq![]
    } else {
        anti_entropy_acts(cs.drop_last(), peers, events) + peers.map_values(|p: Seq<u8>| sync_act(p, cs.last(), events))
    }
}

impl Engine {
    fn candidate_addrs_of(&self, peer: &[u8]) -> (v: Vec<String>)
        ensures
            strings_view(v@) == candidate_addrs(self.net().candidates, peer@),
    {
        let ghost cs = self.net().candidates;
        let mut i: usize = self.net.candidates.len();
        assert(cs.take(i as int) =~= cs);
        while i > 0
            invariant
                cs == candidates_view(self.net.candidates@),
                i <= cs.len(),
                candidate_addrs(cs, peer@) == candidate_addrs(cs.take(i as int), peer@),
            decreases i,
        {
            assert(cs.take(i as int).drop_last() =~= cs.take(i - 1));
            assert(cs.take(i as int).last() == cs[i - 1]);
            assert(cs[i - 1] == (self.net.candidates@[i - 1].0@, strings_view(self.net.candidates@[i - 1].1@)));
            if crate::node::network::same_bytes(self.net.candidates[i - 1].0.as_slice(), peer) {
                return copy_strings(&self.net.candidates[i - 1].1);
            }
            i -= 1;
        }
        assert(cs.take(0) =~= Seq::<(Seq<u8>, Seq<Seq<char>>)>::empty());
        Vec::new()
    }

    /// A member agreed to carry for us: it is kept for good, with where to
    /// reach it, and every community is told where to find us now.
    pub open spec fn relay_accepted_step(&self, relay: Seq<u8>, after: &Engine, acts: Seq<ActModel>) -> bool {
        let n = self.net();
        &&& self.rest_kept(after)
        &&& after.outbox() == self.outbox()
        &&& after.store_view().events() == self.store_view().events()
        &&& after.store_view().peer_table() == self.store_view().peer_table()
        &&& after.store_view().meta_table() == self.store_view().meta_table()
        &&& if n.relayed_by.contains(relay) {
            &&& after.net() == n
            &&& after.store_view().relay_table() == self.store_view().relay_table()
            &&& acts.len() == 0
        } else {
            let addrs = candidate_addrs(n.candidates, relay);
            &&& after.net() == (NetModel { relayed_by: n.relayed_by.push(relay), ..n })
            &&& if addrs.len() > 0 {
                exists|seen: u64|
                    after.store_view().relay_table() == crate::store::peers::relay_remembered(
                        self.store_view().relay_table(),
                        PeerModel { peer_id: relay, addrs, last_seen_ms: seen },
                    )
            } else {
                after.store_view().relay_table() == self.store_view().relay_table()
            }
            &&& announcements(acts, self.joined(), self.me(), announced_addrs(after.net()))
        }
    }

    #[verifier::spinoff_prover]
    #[verifier::rlimit(40)]
    fn on_relay_accepted(&mut self, relay: Vec<u8>) -> (v: Vec<NetAction>)
        requires
            old(self).wf(),
        ensures
            old(self).relay_accepted_step(relay@, final(self), acts_view(v@)),
    {
        if has_peer(&self.net.relayed_by, relay.as_slice()) {
            let v: Vec<NetAction> = Vec::new();
            assert(acts_view(v@) =~= Seq::<ActModel>::empty());
            return v;
        }
        let ghost r0 = peers_seq(self.net.relayed_by@);
        self.net.relayed_by.push(relay.clone());
        assert(peers_seq(self.net.relayed_by@) =~= r0.push(relay@));
        let addrs = self.candidate_addrs_of(relay.as_slice());
        if addrs.len() > 0 {
            let record = PeerRecord { peer_id: relay.clone(), addrs, last_seen_ms: now_ms() };
            let _ = self.store.remember_relay(&record);
        }
        self.announce_all()
    }

    /// The periodic announcement: every community is told where to find
    /// us; while nobody carries for us, the relays remembered from earlier
    /// runs (the most recently seen first, at most `RELAY_MEMORY`) that are
    /// not connected are dialled; then members are asked to carry for us if
    /// we are behind a router.
    pub open spec fn presence_tick_step(&self, after: &Engine, acts: Seq<ActModel>) -> bool {
        let n = self.net();
        let (m, seek) = seek_model(n);
        &&& self.rest_kept(after)
        &&& after.outbox() == self.outbox()
        &&& after.store_view() == self.store_view()
        &&& after.net() == m
        &&& exists|k: int, dials: Seq<ActModel>|
            #![trigger acts.take(k), dials.len()]
            0 <= k <= acts.len() && announcements(acts.take(k), self.joined(), self.me(), announced_addrs(n))
                && acts.skip(k) == dials + seek && if n.relayed_by.len() == 0 {
                exists|rs: Seq<PeerModel>|
                    sorted_rows(
                        self.store_view().relay_table(),
                        crate::store::peers::peer_keys(self.store_view().relay_table()),
                        rs,
                    ) && dials == relay_dials(
                        if rs.len() <= RELAY_MEMORY {
                            rs
                        } else {
                            rs.take(RELAY_MEMORY as int)
                        },
                        n.connected,
                    )
            } else {
                dials.len() == 0
            }
    }

    fn relay_dials_of(&self, rs: &Vec<PeerRecord>) -> (v: Vec<NetAction>)
        ensures
            acts_view(v@) == relay_dials(
                if records_view(rs@).len() <= RELAY_MEMORY {
                    records_view(rs@)
                } else {
                    records_view(rs@).take(RELAY_MEMORY as int)
                },
                self.net().connected,
            ),
    {
        let ghost all = records_view(rs@);
        let n: usize = if rs.len() <= RELAY_MEMORY { rs.len() } else { RELAY_MEMORY };
        let ghost upto = if all.len() <= RELAY_MEMORY { all } else { all.take(RELAY_MEMORY as int) };
        assert(upto =~= all.take(n as int));
        let mut v: Vec<NetAction> = Vec::new();
        let mut i: usize = 0;
        while i < n
            invariant
                all == records_view(rs@),
                n <= all.len(),
                i <= n,
                acts_view(v@) == relay_dials(all.take(i as int), self.net().connected),
            decreases n - i,
        {
            assert(all.take(i + 1).drop_last() =~= all.take(i as int));
            assert(all[i as int] == rs@[i as int]@);
            if !has_peer(&self.net.connected, rs[i].peer_id.as_slice()) {
                let ghost v0 = acts_view(v@);
                v.push(NetAction::Dial { peer: rs[i].peer_id.clone(), addrs: copy_strings(&rs[i].addrs) });
                assert(acts_view(v@) =~= v0.push(ActModel::Dial { peer: all[i as int].peer_id, addrs: all[i as int].addrs }));
            }
            i += 1;
        }
        v
    }

    fn on_presence_tick(&mut self) -> (v: Vec<NetAction>)
        requires
            old(self).wf(),
        ensures
            old(self).presence_tick_step(final(self), acts_view(v@)),
    {
        let mut v = self.announce_all();
        let ghost k = v@.len() as int;
        let ghost said = acts_view(v@);
        let mut dials: Vec<NetAction> = Vec::new();
        if self.net.relayed_by.len() == 0 {
            let rs = match self.store.relays() {
                Ok(rs) => rs,
                Err(_) => Vec::new(),
            };
            dials = self.relay_dials_of(&rs);
        }
        let ghost d = acts_view(dials@);
        let mut seek = self.seek_relay();
        let ghost sk = acts_view(seek@);
        v.append(&mut dials);
        v.append(&mut seek);
        proof {
            assert(acts_view(v@).take(k) =~= said);
            assert(acts_view(v@).skip(k) =~= d + sk);
        }
        v
    }

    /// The periodic catch-up: the first `SYNC_FANOUT` connected peers are
    /// asked, for each community taken part in, for anything missed.
    pub open spec fn anti_entropy_step(&self, after: &Engine, acts: Seq<ActModel>) -> bool {
        let peers = self.net().connected;
        &&& self.rest_kept(after)
        &&& after.outbox() == self.outbox()
        &&& after.store_view() == self.store_view()
        &&& after.net() == self.net()
        &&& acts == anti_entropy_acts(
            self.joined(),
            if peers.len() <= SYNC_FANOUT { peers } else { peers.take(SYNC_FANOUT as int) },
            self.events(),
        )
    }

    fn on_anti_entropy_tick(&self) -> (v: Vec<NetAction>)
        ensures
            acts_view(v@) == anti_entropy_acts(
                self.joined(),
                if self.net().connected.len() <= SYNC_FANOUT {
                    self.net().connected
                } else {
                    self.net().connected.take(SYNC_FANOUT as int)
                },
                self.events(),
            ),
    {
        let ghost all = self.net().connected;
        let k: usize = if self.net.connected.len() <= SYNC_FANOUT { self.net.connected.len() } else { SYNC_FANOUT };
        let ghost peers = if all.len() <= SYNC_FANOUT { all } else { all.take(SYNC_FANOUT as int) };
        assert(peers =~= all.take(k as int));
        let ghost j = self.joined();
        let mut v: Vec<NetAction> = Vec::new();
        let mut i: usize = 0;
        while i < self.joined.len()
            invariant
                j == self.joined(),
                j.len() == self.joined@.len(),
                all == peers_seq(self.net.connected@),
                k <= all.len(),
                peers == all.take(k as int),
                i <= j.len(),
                acts_view(v@) == anti_entropy_acts(j.take(i as int), peers, self.events()),
            decreases j.len() - i,
        {
            let c = self.joined[i];
            assert(j[i as int] == c@);
            assert(j.contains(c@));
            let ghost v0 = acts_view(v@);
            let mut q: usize = 0;
            while q < k
                invariant
                    j == self.joined(),
                    j.contains(c@),
                    all == peers_seq(self.net.connected@),
                    k <= all.len(),
                    peers == all.take(k as int),
                    q <= k,
                    acts_view(v@) == v0 + peers.take(q as int).map_values(|p: Seq<u8>| sync_act(p, c@, self.events())),
                decreases k - q,
            {
                assert(all[q as int] == self.net.connected@[q as int]@);
                let a = self.sync_act_for(self.net.connected[q].as_slice(), c);
                let ghost w0 = acts_view(v@);
                v.push(a);
                assert(acts_view(v@) =~= w0.push(a@));
                assert(peers.take(q + 1).map_values(|p: Seq<u8>| sync_act(p, c@, self.events())) =~= peers.take(q as int).map_values(
                    |p: Seq<u8>| sync_act(p, c@, self.events()),
                ).push(sync_act(peers[q as int], c@, self.events())));
                q += 1;
            }
            assert(peers.take(k as int) =~= peers);
            assert(j.take(i + 1).drop_last() =~= j.take(i as int));
            assert(j.take(i + 1).last() == c@);
            i += 1;
        }
        assert(j.take(j.len() as int) =~= j);
        v
    }
}

/// What a port the router opened without naming our address, and how a
/// peer sees us, lead to: nothing, or the addresses they make offered to
/// others, the mapped port forgotten, and the node taken to be reachable.
pub open spec fn claim_part(
    joined: Seq<Seq<u8>>,
    me: Seq<u8>,
    n: NetModel,
    observed: Seq<char>,
    n2: NetModel,
    acts: Seq<ActModel>,
) -> bool {
    match claimed(n.mapped_port, observed) {
        None => n2 == n && acts.len() == 0,
        Some(addrs) => {
            let n1 = NetModel { mapped_port: None, external: with_all(n.external, addrs), ..n };
            &&& addrs.len() <= acts.len()
            &&& acts.take(addrs.len() as int) == addrs.map_values(|a: Seq<char>| ActModel::AddExternal(a))
            &&& reach_step(joined, me, n1, Some(Reachability::Direct), n2, acts.skip(addrs.len() as int))
        },
    }
}

pub open spec fn dht_adds(peer: Seq<u8>, addrs: Seq<Seq<char>>) -> Seq<ActModel> {
    addrs.map_values(|a: Seq<char>| ActModel::DhtAdd { peer, addr: a })
}

/// After the claim: a peer that can carry for others becomes a relay
/// candidate, reachable where it can be dialled, and members are asked to
/// carry for us if need be; then, once reachable, how the peer sees us is
/// offered to others.
pub open spec fn identified_tail(
    n2: NetModel,
    peer: Seq<u8>,
    d: Seq<Seq<char>>,
    relays: bool,
    observed: Seq<char>,
    after: NetModel,
    acts: Seq<ActModel>,
) -> bool {
    let (n3, seek) = if relays && d.len() > 0 {
        seek_model(NetModel { candidates: set_candidate(n2.candidates, peer, d), ..n2 })
    } else {
        (n2, Seq::<ActModel>::empty())
    };
    if n3.reachability == Some(Reachability::Direct) {
        after == (NetModel { external: with_item(n3.external, observed), ..n3 }) && acts == seek.push(
            ActModel::AddExternal(observed),
        )
    } else {
        after == n3 && acts == seek
    }
}

impl Engine {
    /// A peer said what it listens on, what it speaks and how it sees us.
    /// One that keeps the hash table goes into it at each address it can be
    /// dialled on; a port the router opened is claimed at the address the
    /// peer sees; one that can carry for others becomes a relay candidate.
    pub open spec fn identified_step(
        &self,
        peer: Seq<u8>,
        listen: Seq<Seq<char>>,
        protocols: Seq<Seq<char>>,
        observed: Seq<char>,
        after: &Engine,
        acts: Seq<ActModel>,
    ) -> bool {
        let d = dialable_addrs(listen);
        let dht = if protocols.contains(KAD_PROTOCOL@) { dht_adds(peer, d) } else { Seq::<ActModel>::empty() };
        &&& self.rest_kept(after)
        &&& after.outbox() == self.outbox()
        &&& after.store_view() == self.store_view()
        &&& dht.len() <= acts.len()
        &&& acts.take(dht.len() as int) == dht
        &&& exists|n2: NetModel, j: int, k: int|
            #![trigger claim_part(self.joined(), self.me(), self.net(), observed, n2, acts.subrange(j, k))]
            j == dht.len() && j <= k <= acts.len() && claim_part(
                self.joined(),
                self.me(),
                self.net(),
                observed,
                n2,
                acts.subrange(j, k),
            ) && identified_tail(
                n2,
                peer,
                d,
                protocols.contains(RELAY_HOP_PROTOCOL@),
                observed,
                after.net(),
                acts.skip(k),
            )
    }

    fn claim(&mut self, observed: &str) -> (v: Vec<NetAction>)
        requires
            old(self).wf(),
        ensures
            old(self).same_but_net(final(self)),
            claim_part(old(self).joined(), old(self).me(), old(self).net(), observed@, final(self).net(), acts_view(v@)),
    {
        let mut v: Vec<NetAction> = Vec::new();
        match claim_mapped_port(self.net.mapped_port, observed) {
            None => {
                assert(acts_view(v@) =~= Seq::<ActModel>::empty());
                v
            },
            Some(addrs) => {
                let ghost av = strings_view(addrs@);
                let ghost n0 = self.net();
                self.net.mapped_port = None;
                let mut i: usize = 0;
                while i < addrs.len()
                    invariant
                        old(self).same_but_net(self),
                        n0 == old(self).net(),
                        av == strings_view(addrs@),
                        i <= av.len(),
                        self.net() == (NetModel { mapped_port: None, external: with_all(n0.external, av.take(i as int)), ..n0 }),
                        acts_view(v@) == av.take(i as int).map_values(|a: Seq<char>| ActModel::AddExternal(a)),
                    decreases av.len() - i,
                {
                    assert(av.take(i + 1).drop_last() =~= av.take(i as int));
                    assert(av[i as int] == addrs@[i as int]@);
                    add_text(&mut self.net.external, addrs[i].as_str());
                    let ghost v0 = acts_view(v@);
                    v.push(NetAction::AddExternal(addrs[i].clone()));
                    assert(acts_view(v@) =~= v0.push(ActModel::AddExternal(av[i as int])));
                    assert(av.take(i + 1).map_values(|a: Seq<char>| ActModel::AddExternal(a)) =~= av.take(i as int).map_values(
                        |a: Seq<char>| ActModel::AddExternal(a),
                    ).push(ActModel::AddExternal(av[i as int])));
                    i += 1;
                }
                assert(av.take(av.len() as int) =~= av);
                let ghost first = acts_view(v@);
                let mut more = self.reach_to(Some(Reachability::Direct));
                let ghost m = acts_view(more@);
                v.append(&mut more);
                assert(acts_view(v@).take(av.len() as int) =~= first);
                assert(acts_view(v@).skip(av.len() as int) =~= m);
                v
            },
        }
    }

    fn on_identified(&mut self, peer: Vec<u8>, listen_addrs: Vec<String>, protocols: Vec<String>, observed: String) -> (v:
        Vec<NetAction>)
        requires
            old(self).wf(),
        ensures
            old(self).identified_step(
                peer@,
                strings_view(listen_addrs@),
                strings_view(protocols@),
                observed@,
                final(self),
                acts_view(v@),
            ),
    {
        let d = dialable(&listen_addrs);
        let ghost dv = strings_view(d@);
        let mut v: Vec<NetAction> = Vec::new();
        if has_protocol(&protocols, KAD_PROTOCOL) {
            let mut i: usize = 0;
            while i < d.len()
                invariant
                    dv == strings_view(d@),
                    i <= dv.len(),
                    acts_view(v@) == dht_adds(peer@, dv.take(i as int)),
                decreases dv.len() - i,
            {
                assert(dv[i as int] == d@[i as int]@);
                let ghost v0 = acts_view(v@);
                v.push(NetAction::DhtAdd { peer: peer.clone(), addr: d[i].clone() });
                assert(acts_view(v@) =~= v0.push(ActModel::DhtAdd { peer: peer@, addr: dv[i as int] }));
                assert(dht_adds(peer@, dv.take(i + 1)) =~= dht_adds(peer@, dv.take(i as int)).push(
                    ActModel::DhtAdd { peer: peer@, addr: dv[i as int] },
                ));
                i += 1;
            }
            assert(dv.take(dv.len() as int) =~= dv);
        } else {
            assert(acts_view(v@) =~= Seq::<ActModel>::empty());
        }
        let ghost dht = acts_view(v@);
        let ghost s0 = *self;
        let mut claimed_acts = self.claim(observed.as_str());
        let ghost ca = acts_view(claimed_acts@);
        let ghost n2 = self.net();
        v.append(&mut claimed_acts);
        let ghost k = acts_view(v@).len() as int;
        let relays = has_protocol(&protocols, RELAY_HOP_PROTOCOL);
        let mut seek: Vec<NetAction> = Vec::new();
        if relays && d.len() > 0 {
            put_candidate(&mut self.net.candidates, peer.as_slice(), copy_strings(&d));
            assert(self.net() == (NetModel { candidates: set_candidate(n2.candidates, peer@, dv), ..n2 }));
            seek = self.seek_relay();
        } else {
            assert(acts_view(seek@) =~= Seq::<ActModel>::empty());
        }
        let ghost sk = acts_view(seek@);
        v.append(&mut seek);
        let direct = match self.net.reachability {
            Some(Reachability::Direct) => true,
            _ => false,
        };
        if direct {
            add_text(&mut self.net.external, observed.as_str());
            v.push(NetAction::AddExternal(observed));
        }
        proof {
            let all = acts_view(v@);
            assert(all.take(dht.len() as int) =~= dht);
            assert(all.subrange(dht.len() as int, k) =~= ca);
            if direct {
                assert(all.skip(k) =~= sk.push(ActModel::AddExternal(observed@)));
            } else {
                assert(all.skip(k) =~= sk);
            }
            assert(claim_part(s0.joined(), s0.me(), s0.net(), observed@, n2, all.subrange(dht.len() as int, k)));
            assert(identified_tail(n2, peer@, dv, relays, observed@, self.net(), all.skip(k)));
            assert(dht.len() <= k <= all.len());
        }
        v
    }
}

impl Engine {
    /// The router opened a port at `addr`: it is offered to others, and the
    /// node is reachable.
    pub open spec fn router_opened_step(&self, addr: Seq<char>, after: &Engine, acts: Seq<ActModel>) -> bool {
        let n = self.net();
        &&& self.rest_kept(after)
        &&& after.outbox() == self.outbox()
        &&& after.store_view() == self.store_view()
        &&& acts.len() >= 1
        &&& acts[0] == ActModel::AddExternal(addr)
        &&& reach_step(
            self.joined(),
            self.me(),
            NetModel { external: with_item(n.external, addr), ..n },
            Some(Reachability::Direct),
            after.net(),
            acts.skip(1),
        )
    }

    /// The router took the port at `addr` back: it is no longer offered, and
    /// whether the node is reachable is unknown again.
    pub open spec fn router_expired_step(&self, addr: Seq<char>, after: &Engine, acts: Seq<ActModel>) -> bool {
        let n = self.net();
        &&& self.rest_kept(after)
        &&& after.outbox() == self.outbox()
        &&& after.store_view() == self.store_view()
        &&& acts.len() >= 1
        &&& acts[0] == ActModel::RemoveExternal(addr)
        &&& reach_step(
            self.joined(),
            self.me(),
            NetModel { external: without_item(n.external, addr), ..n },
            None,
            after.net(),
            acts.skip(1),
        )
    }

    fn on_router(&mut self, addr: String, opened: bool) -> (v: Vec<NetAction>)
        requires
            old(self).wf(),
        ensures
            opened ==> old(self).router_opened_step(addr@, final(self), acts_view(v@)),
            !opened ==> old(self).router_expired_step(addr@, final(self), acts_view(v@)),
    {
        let mut v: Vec<NetAction> = Vec::new();
        let mut more = if opened {
            add_text(&mut self.net.external, addr.as_str());
            v.push(NetAction::AddExternal(addr));
            self.reach_to(Some(Reachability::Direct))
        } else {
            remove_text(&mut self.net.external, addr.as_str());
            v.push(NetAction::RemoveExternal(addr));
            self.reach_to(None)
        };
        let ghost m = acts_view(more@);
        v.append(&mut more);
        assert(acts_view(v@).skip(1) =~= m);
        v
    }
}

/// What the node does with something the network reports.
pub open spec fn net_step(before: &Engine, event: NetEvent, after: &Engine, acts: Seq<ActModel>) -> bool {
    match event {
        NetEvent::Listening { addr } => before.listening_step(addr@, after, acts),
        NetEvent::Connected { peer, remote, first } => before.connected_step(peer@, remote@, first, after, acts),
        NetEvent::Disconnected { peer } => before.disconnected_step(peer@, after, acts),
        NetEvent::Gossip { source, topic, data } => before.gossip_event_step(source@, topic@, data@, after, acts),
        NetEvent::Subscribed { peer, topic } => before.subscribed_step(peer@, topic@, after, acts),
        NetEvent::SyncFailed { .. } => {
            &&& before.rest_kept(after)
            &&& after.outbox() == before.outbox()
            &&& after.store_view() == before.store_view()
            &&& after.net() == before.net()
            &&& acts.len() == 0
        },
        NetEvent::Identified { peer, listen_addrs, protocols, observed } => before.identified_step(
            peer@,
            strings_view(listen_addrs@),
            strings_view(protocols@),
            observed@,
            after,
            acts,
        ),
        NetEvent::MappedWithoutAddress { port } => {
            &&& before.rest_kept(after)
            &&& after.outbox() == before.outbox()
            &&& after.store_view() == before.store_view()
            &&& after.net() == (NetModel { mapped_port: Some(port), ..before.net() })
            &&& acts.len() == 0
        },
        NetEvent::RouterOpened { addr } => before.router_opened_step(addr@, after, acts),
        NetEvent::RouterExpired { addr } => before.router_expired_step(addr@, after, acts),
        NetEvent::Reachability(r) => {
            &&& before.same_but_net(after)
            &&& reach_step(before.joined(), before.me(), before.net(), r, after.net(), acts)
        },
        NetEvent::RelayAccepted { relay } => before.relay_accepted_step(relay@, after, acts),
        NetEvent::PresenceTick => before.presence_tick_step(after, acts),
        NetEvent::AntiEntropyTick => before.anti_entropy_step(after, acts),
    }
}

impl Engine {
    /// Acts on something the network reports: what the node keeps changes,
    /// and the answer says what to ask of the network in turn. The transport
    /// is driven from outside; this is where the decisions are.
    pub fn on_net_event(&mut self, event: NetEvent) -> (actions: Vec<NetAction>)
        requires
            old(self).wf(),
        ensures
            final(self).wf(),
            net_step(old(self), event, final(self), acts_view(actions@)),
    {
        match event {
            NetEvent::Listening { addr } => self.on_listening(addr),
            NetEvent::Connected { peer, remote, first } => self.on_connected(peer, remote, first),
            NetEvent::Disconnected { peer } => self.on_disconnected(peer),
            NetEvent::Gossip { source, topic, data } => self.on_gossip_event(source, topic, data),
            NetEvent::Subscribed { peer, topic } => self.on_subscribed(peer, topic),
            NetEvent::SyncFailed { .. } => {
                let v: Vec<NetAction> = Vec::new();
                v
            },
            NetEvent::Identified { peer, listen_addrs, protocols, observed } => self.on_identified(
                peer,
                listen_addrs,
                protocols,
                observed,
            ),
            NetEvent::MappedWithoutAddress { port } => {
                self.net.mapped_port = Some(port);
                let v: Vec<NetAction> = Vec::new();
                v
            },
            NetEvent::RouterOpened { addr } => self.on_router(addr, true),
            NetEvent::RouterExpired { addr } => self.on_router(addr, false),
            NetEvent::Reachability(r) => self.reach_to(r),
            NetEvent::RelayAccepted { relay } => self.on_relay_accepted(relay),
            NetEvent::PresenceTick => self.on_presence_tick(),
            NetEvent::AntiEntropyTick => self.on_anti_entropy_tick(),
        }
    }

    /// The operator said whether this node can be dialled; peers' guesses
    /// no longer change it.
    pub fn state_reachability(&mut self, stated: Reachability) -> (v: Vec<NetAction>)
        requires
            old(self).wf(),
        ensures
            old(self).same_but_net(final(self)),
            final(self).net().fixed,
            reach_step(
                old(self).joined(),
                old(self).me(),
                NetModel { fixed: false, ..old(self).net() },
                Some(stated),
                NetModel { fixed: false, ..final(self).net() },
                acts_view(v@),
            ),
    {
        self.net.fixed = false;
        let v = self.reach_to(Some(stated));
        self.net.fixed = true;
        v
    }
}

} // verus!
