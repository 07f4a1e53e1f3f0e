//! What actually goes over the wire.
//!
//! Two channels, doing two different jobs:
//!
//! * **Gossip** carries new events to everyone who is online right now. It is
//!   best-effort: a node that is asleep, or behind a dropped packet, simply
//!   misses it.
//! * **Sync** is a direct request/response between two peers that repairs
//!   whatever gossip missed.
//!
//! Neither is authoritative, because neither has to be: every event carries
//! its author's signature, so a node can accept history from any peer without
//! trusting that peer at all.

use vstd::prelude::*;

use crate::net::invite::{enc_str_fn, put_strings, read_strings, strings_view, take_str_fn};
use crate::proto::codec::{
    enc_bytes, enc_list, lemma_skip_skip, put_bytes, put_varint, read_fixed32, read_u32, read_u64, take_fixed,
    take_list, take_u32, take_u64, varint, whole, CodecError, DecodeError,
};
use crate::proto::event::{enc_signed, put_signed, read_signed, take_signed, SignedEvent, SignedEventModel};
use crate::proto::frontier::Frontier;
use crate::proto::ids::{hex_encode, lemma_hash32_len, spec_from_hex, CommunityId, Hash32, UserId};
use crate::text::{append_str, has_prefix, strip_prefix_text};

verus! {

broadcast use {lemma_hash32_len, lemma_skip_skip, vstd::string::to_string_from_display_ensures_for_str};

/// Direct sync protocol id, negotiated per stream.
pub const SYNC_PROTOCOL: &'static str = "/kahui/sync/1.0.0";

/// Gossip topics are namespaced by this prefix and the community id, so a
/// node only ever sees traffic for communities it has joined.
pub const TOPIC_PREFIX: &'static str = "/kahui/community/1.0.0/";

/// Largest number of events in one sync response.
///
/// Caps the work a peer can ask another to do in a single round trip; a node
/// with more to send says so and the requester asks again.
pub const MAX_SYNC_BATCH: usize = 128;

/// A message published to a community's gossip topic.
#[derive(Debug)]
pub enum GossipMessage {
    /// A freshly authored event, on its way to everyone currently online.
    Event(Box<SignedEvent>),
    /// "I am here, at these addresses."
    Presence(Presence),
}

/// Periodic "still here" announcement.
///
/// This is how a community meshes itself. Members initially know only
/// whoever invited them; presence tells everyone else where to find them.
#[derive(Debug)]
pub struct Presence {
    /// Who is announcing. Their peer id follows from this.
    pub user: UserId,
    /// Multiaddresses to reach them on, as strings.
    pub addrs: Vec<String>,
    /// Where this member's own router currently maps them: not dialable out
    /// of the blue, but what two members aim at when they punch through.
    pub punch: Vec<String>,
    /// How many events they hold. A cheap hint that we may be behind.
    pub event_count: u64,
    /// When this announcement was made, by the sender's clock. Present so
    /// that repeated announcements differ and are not dropped as already
    /// seen.
    pub announced_at_ms: u64,
}

/// Asks a peer for history.
#[derive(Debug)]
pub enum SyncRequest {
    /// "Here is everything I have. Send me what I am missing."
    GetDelta { community: CommunityId, have: Frontier, limit: u32 },
}

/// A peer's answer.
#[derive(Debug)]
pub enum SyncResponse {
    Delta {
        /// In causal order: apply front to back.
        events: Vec<SignedEvent>,
        /// False when the batch was truncated and the requester should ask
        /// again with an updated frontier.
        complete: bool,
    },
    /// The peer cannot serve this community. Not an error worth retrying.
    UnknownCommunity,
}

impl SyncResponse {
    pub fn event_count(&self) -> (n: usize)
        ensures
            n == match self {
                SyncResponse::Delta { events, .. } => events@.len(),
                SyncResponse::UnknownCommunity => 0,
            },
    {
        match self {
            SyncResponse::Delta { events, .. } => events.len(),
            SyncResponse::UnknownCommunity => 0,
        }
    }
}

pub struct PresenceModel {
    pub user: Seq<u8>,
    pub addrs: Seq<Seq<char>>,
    pub punch: Seq<Seq<char>>,
    pub event_count: u64,
    pub announced_at_ms: u64,
}

pub enum GossipModel {
    Event(SignedEventModel),
    Presence(PresenceModel),
}

impl View for Presence {
    type V = PresenceModel;

    open spec fn view(&self) -> PresenceModel {
        PresenceModel {
            user: self.user@,
            addrs: strings_view(self.addrs@),
            punch: strings_view(self.punch@),
            event_count: self.event_count,
            announced_at_ms: self.announced_at_ms,
        }
    }
}

impl View for GossipMessage {
    type V = GossipModel;

    open spec fn view(&self) -> GossipModel {
        match self {
            GossipMessage::Event(e) => GossipModel::Event((**e)@),
            GossipMessage::Presence(p) => GossipModel::Presence(p@),
        }
    }
}

pub open spec fn enc_presence(p: PresenceModel) -> Seq<u8> {
    enc_bytes(p.user) + enc_list(p.addrs, enc_str_fn()) + enc_list(p.punch, enc_str_fn()) + varint(
        p.event_count as nat,
    ) + varint(p.announced_at_ms as nat)
}

/// The canonical bytes of a gossip message: the variant's index, then its
/// contents.
pub open spec fn enc_gossip(g: GossipModel) -> Seq<u8> {
    match g {
        GossipModel::Event(e) => varint(0) + enc_signed(e),
        GossipModel::Presence(p) => varint(1) + enc_presence(p),
    }
}

#[verifier::opaque]
pub open spec fn take_presence(b: Seq<u8>) -> Result<(PresenceModel, nat), DecodeError> {
    match take_fixed(b, 32) {
        Err(e) => Err(e),
        Ok((user, n1)) => match take_list(b.skip(n1 as int), take_str_fn()) {
            Err(e) => Err(e),
            Ok((addrs, n2)) => match take_list(b.skip((n1 + n2) as int), take_str_fn()) {
                Err(e) => Err(e),
                Ok((punch, n3)) => match take_u64(b.skip((n1 + n2 + n3) as int)) {
                    Err(e) => Err(e),
                    Ok((event_count, n4)) => match take_u64(b.skip((n1 + n2 + n3 + n4) as int)) {
                        Err(e) => Err(e),
                        Ok((announced_at_ms, n5)) => Ok((
                            PresenceModel { user, addrs, punch, event_count, announced_at_ms },
                            n1 + n2 + n3 + n4 + n5,
                        )),
                    },
                },
            },
        },
    }
}

pub open spec fn take_gossip(b: Seq<u8>) -> Result<(GossipModel, nat), DecodeError> {
    match take_u32(b) {
        Err(e) => Err(e),
        Ok((tag, n)) => if tag == 0 {
            match take_signed(b.skip(n as int)) {
                Ok((e, m)) => Ok((GossipModel::Event(e), n + m)),
                Err(e) => Err(e),
            }
        } else if tag == 1 {
            match take_presence(b.skip(n as int)) {
                Ok((p, m)) => Ok((GossipModel::Presence(p), n + m)),
                Err(e) => Err(e),
            }
        } else {
            Err(DecodeError::Custom)
        },
    }
}

fn put_presence(out: &mut Vec<u8>, p: &Presence)
    ensures
        final(out)@ == old(out)@ + enc_presence(p@),
{
    let ghost before = out@;
    put_bytes(out, p.user.as_bytes().as_slice());
    put_strings(out, &p.addrs);
    put_strings(out, &p.punch);
    put_varint(out, p.event_count);
    put_varint(out, p.announced_at_ms);
    assert(out@ =~= before + enc_presence(p@));
}

#[verifier::rlimit(40)]
fn read_presence(b: &[u8], pos: usize) -> (r: Result<(Presence, usize), DecodeError>)
    requires
        pos <= b@.len(),
    ensures
        match r {
            Ok((v, p)) => take_presence(b@.skip(pos as int)) == Ok::<(PresenceModel, nat), DecodeError>((v@, (p - pos) as nat)) && pos < p <= b@.len(),
            Err(e) => take_presence(b@.skip(pos as int)) == Err::<(PresenceModel, nat), DecodeError>(e),
        },
{
    proof {
        reveal(take_presence);
    }
    let (user, p1) = match read_fixed32(b, pos) {
        Ok(v) => v,
        Err(e) => return Err(e),
    };
    let (addrs, p2) = match read_strings(b, p1) {
        Ok(v) => v,
        Err(e) => return Err(e),
    };
    let (punch, p3) = match read_strings(b, p2) {
        Ok(v) => v,
        Err(e) => return Err(e),
    };
    let (event_count, p4) = match read_u64(b, p3) {
        Ok(v) => v,
        Err(e) => return Err(e),
    };
    let (announced_at_ms, p5) = match read_u64(b, p4) {
        Ok(v) => v,
        Err(e) => return Err(e),
    };
    Ok((Presence { user: UserId(Hash32::from_bytes(user)), addrs, punch, event_count, announced_at_ms }, p5))
}

impl GossipMessage {
    pub fn encode(&self) -> (out: Vec<u8>)
        ensures
            out@ == enc_gossip(self@),
    {
        let mut out: Vec<u8> = Vec::new();
        match self {
            GossipMessage::Event(e) => {
                put_varint(&mut out, 0);
                put_signed(&mut out, e);
            },
            GossipMessage::Presence(p) => {
                put_varint(&mut out, 1);
                put_presence(&mut out, p);
            },
        }
        assert(out@ =~= enc_gossip(self@));
        out
    }

    /// Reads a gossip message, refusing trailing bytes.
    pub fn decode(bytes: &[u8]) -> (r: Result<GossipMessage, CodecError>)
        ensures
            match r {
                Ok(g) => whole(take_gossip(bytes@), bytes@.len()) == Ok::<GossipModel, CodecError>(g@),
                Err(e) => whole(take_gossip(bytes@), bytes@.len()) == Err::<GossipModel, CodecError>(e),
            },
    {
        assert(bytes@.skip(0) =~= bytes@);
        let (tag, p) = match read_u32(bytes, 0) {
            Ok(v) => v,
            Err(e) => return Err(CodecError::Decode(e)),
        };
        let (message, q) = if tag == 0 {
            match read_signed(bytes, p) {
                Ok((e, q)) => (GossipMessage::Event(Box::new(e)), q),
                Err(e) => return Err(CodecError::Decode(e)),
            }
        } else if tag == 1 {
            match read_presence(bytes, p) {
                Ok((pr, q)) => (GossipMessage::Presence(pr), q),
                Err(e) => return Err(CodecError::Decode(e)),
            }
        } else {
            return Err(CodecError::Decode(DecodeError::Custom));
        };
        if q != bytes.len() {
            return Err(CodecError::TrailingBytes(bytes.len() - q));
        }
        Ok(message)
    }
}

/// A community's gossip topic: the prefix, then the id in hex.
pub open spec fn topic_of(community: Seq<u8>) -> Seq<char> {
    TOPIC_PREFIX@ + hex_encode(community)
}

/// The gossip topic name for a community.
pub fn topic_name(community: &CommunityId) -> (s: String)
    ensures
        s@ == topic_of(community@),
{
    let mut s = TOPIC_PREFIX.to_string();
    let hex = community.to_hex();
    append_str(&mut s, hex.as_str());
    s
}

/// Recovers the community from a topic name.
///
/// Gossip arrives tagged with its topic, which is how a node tells which
/// community a presence announcement is about. Returns `None` for topics
/// that are not ours, so unrelated traffic on a shared network is ignored
/// rather than misfiled.
pub fn community_from_topic(topic: &str) -> (r: Option<CommunityId>)
    ensures
        !has_prefix(topic@, TOPIC_PREFIX@) ==> r is None,
        has_prefix(topic@, TOPIC_PREFIX@) ==> match spec_from_hex(topic@.skip(TOPIC_PREFIX@.len() as int)) {
            Ok(b) => r matches Some(c) && c@ == b,
            Err(_) => r is None,
        },
{
    let rest = match strip_prefix_text(topic, TOPIC_PREFIX) {
        Some(rest) => rest,
        None => return None,
    };
    match CommunityId::from_hex(rest) {
        Ok(c) => Some(c),
        Err(_) => None,
    }
}

/// A topic names the community it carries: reading the community back out
/// of its topic name gives the same community.
pub proof fn law_topic_names_its_community(community: Seq<u8>)
    requires
        community.len() == 32,
    ensures
        has_prefix(topic_of(community), TOPIC_PREFIX@),
        spec_from_hex(topic_of(community).skip(TOPIC_PREFIX@.len() as int)) == Ok::<Seq<u8>, crate::proto::ids::IdError>(
            community,
        ),
{
    let t = topic_of(community);
    assert(t.subrange(0, TOPIC_PREFIX@.len() as int) =~= TOPIC_PREFIX@);
    assert(t.skip(TOPIC_PREFIX@.len() as int) =~= hex_encode(community));
    crate::proto::ids::law_hex_roundtrip(community);
}

/// A presence announcement that can be written down: a 32-byte user and
/// lists that fit their length prefix.
pub open spec fn presence_wf(p: PresenceModel) -> bool {
    &&& p.user.len() == 32
    &&& p.addrs.len() < 0x1_0000_0000_0000_0000
    &&& p.punch.len() < 0x1_0000_0000_0000_0000
    &&& forall|i: int| 0 <= i < p.addrs.len() ==> crate::net::invite::fits(#[trigger] p.addrs[i])
    &&& forall|i: int| 0 <= i < p.punch.len() ==> crate::net::invite::fits(#[trigger] p.punch[i])
}

pub open spec fn gossip_wf(g: GossipModel) -> bool {
    match g {
        GossipModel::Event(e) => crate::proto::event::signed_wf(e),
        GossipModel::Presence(p) => presence_wf(p),
    }
}

#[verifier::rlimit(60)]
proof fn lemma_presence_roundtrip(p: PresenceModel, rest: Seq<u8>)
    requires
        presence_wf(p),
    ensures
        take_presence(enc_presence(p) + rest) == Ok::<(PresenceModel, nat), DecodeError>((p, enc_presence(p).len())),
{
    reveal(take_presence);
    let b = enc_presence(p) + rest;
    let s5 = varint(p.announced_at_ms as nat) + rest;
    let s4 = varint(p.event_count as nat) + s5;
    let s3 = enc_list(p.punch, enc_str_fn()) + s4;
    let s2 = enc_list(p.addrs, enc_str_fn()) + s3;
    assert(b =~= enc_bytes(p.user) + s2);
    crate::proto::codec::lemma_fixed_roundtrip(p.user, s2, 32);
    assert(b.skip(enc_bytes(p.user).len() as int) =~= s2);
    let wf = |c: Seq<char>| crate::net::invite::fits(c);
    assert forall|x: Seq<char>, r: Seq<u8>| wf(x) implies #[trigger] take_str_fn()(enc_str_fn()(x) + r)
        == Ok::<(Seq<char>, nat), DecodeError>((x, enc_str_fn()(x).len())) by {
        crate::proto::codec::lemma_str_roundtrip(x, r);
    }
    crate::proto::codec::lemma_list_roundtrip(p.addrs, s3, enc_str_fn(), take_str_fn(), wf);
    let n2 = enc_bytes(p.user).len() + enc_list(p.addrs, enc_str_fn()).len();
    assert(b.skip(n2 as int) =~= s3);
    crate::proto::codec::lemma_list_roundtrip(p.punch, s4, enc_str_fn(), take_str_fn(), wf);
    let n3 = n2 + enc_list(p.punch, enc_str_fn()).len();
    assert(b.skip(n3 as int) =~= s4);
    crate::proto::codec::lemma_u64_roundtrip(p.event_count, s5);
    let n4 = n3 + varint(p.event_count as nat).len();
    assert(b.skip(n4 as int) =~= s5);
    crate::proto::codec::lemma_u64_roundtrip(p.announced_at_ms, rest);
}

/// Reading the encoding of a gossip message gives it back, with whatever
/// followed it untouched.
proof fn lemma_gossip_roundtrip(g: GossipModel, rest: Seq<u8>)
    requires
        gossip_wf(g),
    ensures
        take_gossip(enc_gossip(g) + rest) == Ok::<(GossipModel, nat), DecodeError>((g, enc_gossip(g).len())),
{
    match g {
        GossipModel::Event(e) => {
            crate::proto::event::lemma_signed_roundtrip(e, rest);
            crate::proto::codec::lemma_u32_roundtrip(0, enc_signed(e) + rest);
            assert(varint(0u32 as nat) =~= varint(0));
            assert(enc_gossip(g) + rest =~= varint(0) + (enc_signed(e) + rest));
            assert((varint(0) + (enc_signed(e) + rest)).skip(varint(0).len() as int) =~= enc_signed(e) + rest);
        },
        GossipModel::Presence(p) => {
            lemma_presence_roundtrip(p, rest);
            crate::proto::codec::lemma_u32_roundtrip(1, enc_presence(p) + rest);
            assert(varint(1u32 as nat) =~= varint(1));
            assert(enc_gossip(g) + rest =~= varint(1) + (enc_presence(p) + rest));
            assert((varint(1) + (enc_presence(p) + rest)).skip(varint(1).len() as int) =~= enc_presence(p) + rest);
        },
    }
}

/// What goes on a community's topic reads back as what was sent: for
/// every message that can be written down, decoding its bytes gives it
/// back whole.
pub proof fn law_gossip_roundtrip(g: GossipModel)
    requires
        gossip_wf(g),
    ensures
        whole(take_gossip(enc_gossip(g)), enc_gossip(g).len()) == Ok::<GossipModel, CodecError>(g),
{
    assert(enc_gossip(g) + Seq::<u8>::empty() =~= enc_gossip(g));
    lemma_gossip_roundtrip(g, Seq::<u8>::empty());
}

/// A gossip message with one more byte after it is refused, the refusal
/// saying one byte was left over.
pub proof fn law_gossip_refuses_one_more_byte(g: GossipModel, x: u8)
    requires
        gossip_wf(g),
    ensures
        whole(take_gossip(enc_gossip(g).push(x)), enc_gossip(g).push(x).len()) == Err::<GossipModel, CodecError>(
            CodecError::TrailingBytes(1),
        ),
{
    assert(enc_gossip(g).push(x) =~= enc_gossip(g) + seq![x]);
    lemma_gossip_roundtrip(g, seq![x]);
}

/// Announcements are told apart: two presences that differ in when they
/// were announced, and in nothing else, are written as different bytes, so
/// a repeated announcement is not taken for one already seen.
pub proof fn law_announcements_are_distinguishable(p1: PresenceModel, p2: PresenceModel)
    requires
        presence_wf(p1),
        presence_wf(p2),
        p1.announced_at_ms != p2.announced_at_ms,
    ensures
        enc_gossip(GossipModel::Presence(p1)) != enc_gossip(GossipModel::Presence(p2)),
{
    law_gossip_roundtrip(GossipModel::Presence(p1));
    law_gossip_roundtrip(GossipModel::Presence(p2));
}

} // verus!
