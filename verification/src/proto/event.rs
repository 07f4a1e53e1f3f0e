//! The event: the only unit of state.
//!
//! Everything a community is (its name, channels, members and every message)
//! is an append-only sequence of signed events. Each author keeps one
//! hash-chained log per community: `seq` counts up from zero and `prev_self`
//! points at the author's previous event. `lamport` and `parents` capture
//! causality across authors, giving every node the same display order.

use vstd::prelude::*;
use vstd::utf8::encode_utf8;

use crate::proto::codec::{
    after, enc_bytes, lemma_take_seq_step, lemma_take_seq_fail, lemma_fixed_roundtrip, lemma_str_roundtrip, lemma_u32_roundtrip,
    lemma_u16_roundtrip, lemma_u64_roundtrip, lemma_list_roundtrip, enc_list, enc_seq, enc_str, lemma_enc_seq_push, lemma_skip_skip, put_bytes, put_str,
    read_fixed32, read_fixed64, read_option_tag, read_string, read_u16, read_u32, read_u64, take_option_tag, whole,
    put_varint, take_fixed, take_list, take_seq, take_str, take_u16, take_u32, take_u64, varint,
    CodecError, DecodeError,
};
use crate::proto::identity::{self, ed25519_accepts, ed25519_signature, Identity, SignatureBytes};
use crate::proto::ids::{
    blake3_of, bytes_less, hex_encode, channel_id_of, lemma_bytes_less_total, lemma_bytes_less_transitive,
    lemma_hash32_len, ChannelId, CommunityId, EventId, Hash32,
    UserId,
};
use crate::text::{trim_text, trimmed};

verus! {

broadcast use {lemma_hash32_len, lemma_skip_skip};

/// Wire format version. Bumped only for breaking changes to [`Event`].
pub const PROTOCOL_VERSION: u16 = 1;
/// Longest message body, in bytes of UTF-8.
pub const MAX_BODY_BYTES: usize = 4096;
/// Longest community, channel or display name, in bytes of UTF-8.
pub const MAX_NAME_BYTES: usize = 64;
/// Longest channel topic or community description, in bytes of UTF-8.
pub const MAX_TOPIC_BYTES: usize = 512;
/// Largest causal parent set carried by one event.
pub const MAX_PARENTS: usize = 32;

/// Domain separation tag, prefixed to every signing preimage so a Kāhui
/// signature can never be replayed for another protocol: `kahui.event.v1\0`.
pub open spec fn event_domain() -> Seq<u8> {
    seq![107u8, 97, 104, 117, 105, 46, 101, 118, 101, 110, 116, 46, 118, 49, 0]
}

/// What an event actually says.
#[derive(Debug, PartialEq, Eq)]
pub enum Payload {
    /// Genesis. Brings a community into existence; its event id becomes
    /// the community id.
    CreateCommunity { name: String, description: String },
    /// Opens a channel. `channel` must equal `ChannelId::derive(community, name)`.
    CreateChannel { channel: ChannelId, name: String, topic: String },
    /// Announces membership.
    Join { display_name: String },
    /// Changes the author's display name.
    SetDisplayName { display_name: String },
    /// A chat message.
    Message { channel: ChannelId, body: String },
}

/// A payload as values: text as characters, ids as bytes.
pub enum PayloadModel {
    CreateCommunity { name: Seq<char>, description: Seq<char> },
    CreateChannel { channel: Seq<u8>, name: Seq<char>, topic: Seq<char> },
    Join { display_name: Seq<char> },
    SetDisplayName { display_name: Seq<char> },
    Message { channel: Seq<u8>, body: Seq<char> },
}

impl View for Payload {
    type V = PayloadModel;

    open spec fn view(&self) -> PayloadModel {
        match self {
            Payload::CreateCommunity { name, description } => PayloadModel::CreateCommunity {
                name: name@,
                description: description@,
            },
            Payload::CreateChannel { channel, name, topic } => PayloadModel::CreateChannel {
                channel: channel@,
                name: name@,
                topic: topic@,
            },
            Payload::Join { display_name } => PayloadModel::Join { display_name: display_name@ },
            Payload::SetDisplayName { display_name } => PayloadModel::SetDisplayName {
                display_name: display_name@,
            },
            Payload::Message { channel, body } => PayloadModel::Message { channel: channel@, body: body@ },
        }
    }
}

impl Payload {
    /// Short tag used in logs and in the JSON event stream.
    pub fn kind(&self) -> (k: &'static str)
        ensures
            k@ == kind_of(self@),
    {
        proof {
            reveal_strlit("create_community");
            reveal_strlit("create_channel");
            reveal_strlit("join");
            reveal_strlit("set_display_name");
            reveal_strlit("message");
        }
        match self {
            Payload::CreateCommunity { .. } => "create_community",
            Payload::CreateChannel { .. } => "create_channel",
            Payload::Join { .. } => "join",
            Payload::SetDisplayName { .. } => "set_display_name",
            Payload::Message { .. } => "message",
        }
    }
}

/// The tag each kind of payload goes by.
pub open spec fn kind_of(p: PayloadModel) -> Seq<char> {
    match p {
        PayloadModel::CreateCommunity { .. } => "create_community"@,
        PayloadModel::CreateChannel { .. } => "create_channel"@,
        PayloadModel::Join { .. } => "join"@,
        PayloadModel::SetDisplayName { .. } => "set_display_name"@,
        PayloadModel::Message { .. } => "message"@,
    }
}

/// An unsigned event body.
#[derive(Debug, PartialEq, Eq)]
pub struct Event {
    pub version: u16,
    /// Zero for a genesis event, which cannot reference its own id.
    pub community: CommunityId,
    pub author: UserId,
    /// Position in the author's per-community chain, from zero.
    pub seq: u64,
    /// The author's previous event, or `None` at `seq == 0`.
    pub prev_self: Option<EventId>,
    /// Logical clock: one greater than every event the author had seen.
    pub lamport: u64,
    /// Causal context: the heads the author had observed when authoring.
    pub parents: Vec<EventId>,
    /// Wall clock at the author, in milliseconds since the Unix epoch.
    /// Displayed, never used for ordering.
    pub timestamp_ms: u64,
    pub payload: Payload,
}

/// An event as values.
pub struct EventModel {
    pub version: u16,
    pub community: Seq<u8>,
    pub author: Seq<u8>,
    pub seq: u64,
    pub prev_self: Option<Seq<u8>>,
    pub lamport: u64,
    pub parents: Seq<Seq<u8>>,
    pub timestamp_ms: u64,
    pub payload: PayloadModel,
}

pub open spec fn opt_id_view(o: Option<EventId>) -> Option<Seq<u8>> {
    match o {
        Some(id) => Some(id@),
        None => None,
    }
}

pub open spec fn ids_view(v: Seq<EventId>) -> Seq<Seq<u8>> {
    v.map_values(|id: EventId| id@)
}

impl View for Event {
    type V = EventModel;

    open spec fn view(&self) -> EventModel {
        EventModel {
            version: self.version,
            community: self.community@,
            author: self.author@,
            seq: self.seq,
            prev_self: opt_id_view(self.prev_self),
            lamport: self.lamport,
            parents: ids_view(self.parents@),
            timestamp_ms: self.timestamp_ms,
            payload: self.payload@,
        }
    }
}

/// An event plus the author's signature over it. This is what nodes
/// gossip, store and sync.
#[derive(Debug, PartialEq, Eq)]
pub struct SignedEvent {
    pub event: Event,
    pub signature: SignatureBytes,
}

pub struct SignedEventModel {
    pub event: EventModel,
    pub signature: Seq<u8>,
}

impl View for SignedEvent {
    type V = SignedEventModel;

    open spec fn view(&self) -> SignedEventModel {
        SignedEventModel { event: self.event@, signature: self.signature@ }
    }
}

impl Clone for Payload {
    fn clone(&self) -> (p: Payload)
        ensures
            p@ == self@,
    {
        match self {
            Payload::CreateCommunity { name, description } => Payload::CreateCommunity {
                name: name.clone(),
                description: description.clone(),
            },
            Payload::CreateChannel { channel, name, topic } => Payload::CreateChannel {
                channel: *channel,
                name: name.clone(),
                topic: topic.clone(),
            },
            Payload::Join { display_name } => Payload::Join { display_name: display_name.clone() },
            Payload::SetDisplayName { display_name } => Payload::SetDisplayName {
                display_name: display_name.clone(),
            },
            Payload::Message { channel, body } => Payload::Message { channel: *channel, body: body.clone() },
        }
    }
}

/// A copy of a list of ids.
pub fn copy_ids(ids: &Vec<EventId>) -> (out: Vec<EventId>)
    ensures
        out@ == ids@,
{
    let mut out: Vec<EventId> = Vec::new();
    let mut i: usize = 0;
    while i < ids.len()
        invariant
            i <= ids@.len(),
            out@ == ids@.take(i as int),
        decreases ids@.len() - i,
    {
        out.push(ids[i]);
        i += 1;
        assert(out@ =~= ids@.take(i as int));
    }
    assert(out@ =~= ids@);
    out
}

impl Clone for Event {
    fn clone(&self) -> (e: Event)
        ensures
            e@ == self@,
    {
        Event {
            version: self.version,
            community: self.community,
            author: self.author,
            seq: self.seq,
            prev_self: self.prev_self,
            lamport: self.lamport,
            parents: copy_ids(&self.parents),
            timestamp_ms: self.timestamp_ms,
            payload: self.payload.clone(),
        }
    }
}

impl Clone for SignedEvent {
    fn clone(&self) -> (s: SignedEvent)
        ensures
            s@ == self@,
    {
        SignedEvent { event: self.event.clone(), signature: self.signature }
    }
}

// -- the canonical encoding ------------------------------------------------------

/// How an identifier is written: a byte string.
pub open spec fn enc_id_fn() -> spec_fn(Seq<u8>) -> Seq<u8> {
    |id: Seq<u8>| enc_bytes(id)
}

pub open spec fn take_id_fn() -> spec_fn(Seq<u8>) -> Result<(Seq<u8>, nat), DecodeError> {
    |b: Seq<u8>| take_fixed(b, 32)
}

pub open spec fn enc_opt_id(o: Option<Seq<u8>>) -> Seq<u8> {
    match o {
        None => seq![0u8],
        Some(id) => seq![1u8] + enc_bytes(id),
    }
}

pub open spec fn enc_payload(p: PayloadModel) -> Seq<u8> {
    match p {
        PayloadModel::CreateCommunity { name, description } => varint(0) + enc_str(name) + enc_str(description),
        PayloadModel::CreateChannel { channel, name, topic } => varint(1) + enc_bytes(channel) + enc_str(name)
            + enc_str(topic),
        PayloadModel::Join { display_name } => varint(2) + enc_str(display_name),
        PayloadModel::SetDisplayName { display_name } => varint(3) + enc_str(display_name),
        PayloadModel::Message { channel, body } => varint(4) + enc_bytes(channel) + enc_str(body),
    }
}

/// The canonical bytes of an event: its fields in declaration order.
pub open spec fn enc_event(e: EventModel) -> Seq<u8> {
    varint(e.version as nat) + enc_bytes(e.community) + enc_bytes(e.author) + varint(e.seq as nat) + enc_opt_id(
        e.prev_self,
    ) + varint(e.lamport as nat) + enc_list(e.parents, enc_id_fn()) + varint(e.timestamp_ms as nat)
        + enc_payload(e.payload)
}

pub open spec fn enc_signed(s: SignedEventModel) -> Seq<u8> {
    enc_event(s.event) + enc_bytes(s.signature)
}

/// The exact bytes that get hashed and signed: the domain tag, then the
/// canonical encoding.
pub open spec fn preimage_of(e: EventModel) -> Seq<u8> {
    event_domain() + enc_event(e)
}

/// An event's content address.
pub open spec fn event_id_of(e: EventModel) -> Seq<u8> {
    blake3_of(preimage_of(e))
}

fn put_id(out: &mut Vec<u8>, id: &[u8; 32])
    ensures
        final(out)@ == old(out)@ + enc_bytes(id@),
{
    put_bytes(out, id.as_slice());
}

fn put_payload(out: &mut Vec<u8>, p: &Payload)
    ensures
        final(out)@ == old(out)@ + enc_payload(p@),
{
    let ghost before = out@;
    match p {
        Payload::CreateCommunity { name, description } => {
            put_varint(out, 0);
            put_str(out, name.as_str());
            put_str(out, description.as_str());
        },
        Payload::CreateChannel { channel, name, topic } => {
            put_varint(out, 1);
            put_id(out, channel.as_bytes());
            put_str(out, name.as_str());
            put_str(out, topic.as_str());
        },
        Payload::Join { display_name } => {
            put_varint(out, 2);
            put_str(out, display_name.as_str());
        },
        Payload::SetDisplayName { display_name } => {
            put_varint(out, 3);
            put_str(out, display_name.as_str());
        },
        Payload::Message { channel, body } => {
            put_varint(out, 4);
            put_id(out, channel.as_bytes());
            put_str(out, body.as_str());
        },
    }
    assert(out@ =~= before + enc_payload(p@));
}

/// Appends a list of ids.
pub fn put_ids(out: &mut Vec<u8>, ids: &Vec<EventId>)
    ensures
        final(out)@ == old(out)@ + enc_list(ids_view(ids@), enc_id_fn()),
{
    let ghost before = out@;
    let ghost s = ids_view(ids@);
    put_varint(out, ids.len() as u64);
    let mut i: usize = 0;
    while i < ids.len()
        invariant
            i <= ids@.len(),
            s == ids_view(ids@),
            out@ == before + varint(ids@.len() as nat) + enc_seq(s.take(i as int), enc_id_fn()),
        decreases ids@.len() - i,
    {
        proof {
            lemma_enc_seq_push(s, i as int, enc_id_fn());
        }
        put_id(out, ids[i].as_bytes());
        i += 1;
        assert(out@ =~= before + varint(ids@.len() as nat) + enc_seq(s.take(i as int), enc_id_fn()));
    }
    assert(s.take(ids@.len() as int) =~= s);
    assert(out@ =~= before + enc_list(s, enc_id_fn()));
}

fn put_event(out: &mut Vec<u8>, e: &Event)
    ensures
        final(out)@ == old(out)@ + enc_event(e@),
{
    let ghost before = out@;
    put_varint(out, e.version as u64);
    put_id(out, e.community.as_bytes());
    put_id(out, e.author.as_bytes());
    put_varint(out, e.seq);
    match &e.prev_self {
        None => out.push(0),
        Some(id) => {
            out.push(1);
            put_id(out, id.as_bytes());
        },
    }
    put_varint(out, e.lamport);
    put_ids(out, &e.parents);
    put_varint(out, e.timestamp_ms);
    put_payload(out, &e.payload);
    assert(out@ =~= before + enc_event(e@));
}


// -- validation -----------------------------------------------------------------

#[derive(Clone, Debug, PartialEq, Eq)]
pub enum ValidationError {
    UnsupportedVersion { found: u16 },
    /// The signature does not verify for the author whose short id this is.
    BadSignature(String),
    IdMismatch,
    /// A genesis event must have seq 0, no prev_self, and a zero community.
    MalformedGenesis,
    MissingCommunity,
    MissingPrevSelf { seq: u64 },
    UnexpectedPrevSelf,
    ZeroLamport,
    Empty { field: &'static str },
    TooLong { field: &'static str, len: usize, max: usize },
    TooManyParents(usize),
    ChannelIdMismatch,
}

/// True when the payload founds a community.
pub open spec fn is_genesis_payload(p: PayloadModel) -> bool {
    p is CreateCommunity
}

/// The check one text field gets: present if required, and not too many
/// bytes of UTF-8.
pub open spec fn text_check(field: &'static str, value: Seq<char>, max: usize, required: bool) -> Result<(), ValidationError> {
    if required && trimmed(value).len() == 0 {
        Err(ValidationError::Empty { field })
    } else if encode_utf8(value).len() > max {
        Err(ValidationError::TooLong { field, len: encode_utf8(value).len() as usize, max })
    } else {
        Ok(())
    }
}

/// Both checks in order: the first failure, or success.
pub open spec fn then_check(a: Result<(), ValidationError>, b: Result<(), ValidationError>) -> Result<(), ValidationError> {
    match a {
        Ok(()) => b,
        Err(e) => Err(e),
    }
}

/// The checks on what the payload says.
pub open spec fn payload_check(community: Seq<u8>, p: PayloadModel) -> Result<(), ValidationError> {
    match p {
        PayloadModel::CreateCommunity { name, description } => then_check(
            text_check("community name", name, MAX_NAME_BYTES, true),
            text_check("description", description, MAX_TOPIC_BYTES, false),
        ),
        PayloadModel::CreateChannel { channel, name, topic } => then_check(
            text_check("channel name", name, MAX_NAME_BYTES, true),
            then_check(
                text_check("topic", topic, MAX_TOPIC_BYTES, false),
                if channel != channel_id_of(community, name) {
                    Err(ValidationError::ChannelIdMismatch)
                } else {
                    Ok(())
                },
            ),
        ),
        PayloadModel::Join { display_name } => text_check("display name", display_name, MAX_NAME_BYTES, true),
        PayloadModel::SetDisplayName { display_name } => text_check(
            "display name",
            display_name,
            MAX_NAME_BYTES,
            true,
        ),
        PayloadModel::Message { body, .. } => text_check("message body", body, MAX_BODY_BYTES, true),
    }
}

/// Structural validity, needing no knowledge of other events.
pub open spec fn shape_check(e: EventModel) -> Result<(), ValidationError> {
    if e.version != PROTOCOL_VERSION {
        Err(ValidationError::UnsupportedVersion { found: e.version })
    } else if e.lamport == 0 {
        Err(ValidationError::ZeroLamport)
    } else if e.parents.len() > MAX_PARENTS {
        Err(ValidationError::TooManyParents(e.parents.len() as usize))
    } else if is_genesis_payload(e.payload) {
        if e.seq != 0 || e.prev_self is Some || e.community != crate::proto::ids::zero_bytes() {
            Err(ValidationError::MalformedGenesis)
        } else {
            payload_check(e.community, e.payload)
        }
    } else if e.community == crate::proto::ids::zero_bytes() {
        Err(ValidationError::MissingCommunity)
    } else if e.seq == 0 && e.prev_self is Some {
        Err(ValidationError::UnexpectedPrevSelf)
    } else if e.seq > 0 && e.prev_self is None {
        Err(ValidationError::MissingPrevSelf { seq: e.seq })
    } else {
        payload_check(e.community, e.payload)
    }
}

/// A message with a well-formed header is refused for its body only when
/// the body is blank or longer than `MAX_BODY_BYTES` bytes of UTF-8: any
/// other body, up to that limit, passes the shape check, and a longer one
/// is refused as too long with that limit.
pub proof fn law_message_bodies_up_to_the_limit_pass(e: EventModel, channel: Seq<u8>, body: Seq<char>)
    requires
        e.version == PROTOCOL_VERSION,
        e.lamport > 0,
        e.parents.len() <= MAX_PARENTS,
        e.community != crate::proto::ids::zero_bytes(),
        (e.seq == 0) == (e.prev_self is None),
        e.payload == (PayloadModel::Message { channel, body }),
    ensures
        trimmed(body).len() > 0 && encode_utf8(body).len() <= MAX_BODY_BYTES ==> shape_check(e) is Ok,
        trimmed(body).len() == 0 ==> shape_check(e) == Err::<(), ValidationError>(
            ValidationError::Empty { field: "message body" },
        ),
        trimmed(body).len() > 0 && encode_utf8(body).len() > MAX_BODY_BYTES ==> shape_check(e) == Err::<(), ValidationError>(
            ValidationError::TooLong { field: "message body", len: encode_utf8(body).len() as usize, max: MAX_BODY_BYTES },
        ),
{
}

fn check_text(field: &'static str, value: &str, max: usize, required: bool) -> (r: Result<(), ValidationError>)
    ensures
        r == text_check(field, value@, max, required),
{
    if required && trim_text(value).is_empty() {
        return Err(ValidationError::Empty { field });
    }
    let len = value.as_bytes().len();
    if len > max {
        return Err(ValidationError::TooLong { field, len, max });
    }
    Ok(())
}

impl Event {
    /// The exact bytes that get hashed and signed.
    pub fn preimage(&self) -> (out: Vec<u8>)
        ensures
            out@ == preimage_of(self@),
    {
        let mut out: Vec<u8> = Vec::new();
        out.extend_from_slice(&[107u8, 97, 104, 117, 105, 46, 101, 118, 101, 110, 116, 46, 118, 49, 0]);
        assert(out@ =~= event_domain());
        put_event(&mut out, self);
        out
    }

    /// Content address of this event.
    pub fn id(&self) -> (id: EventId)
        ensures
            id@ == event_id_of(self@),
    {
        let pre = self.preimage();
        EventId(Hash32::digest(pre.as_slice()))
    }

    /// Signs the event, producing the form that travels over the wire.
    pub fn sign(self, identity: &Identity) -> (signed: SignedEvent)
        ensures
            signed.event == self,
            signed.signature@ == ed25519_signature(identity@, preimage_of(self@)),
    {
        let pre = self.preimage();
        let signature = identity.sign(pre.as_slice());
        SignedEvent { event: self, signature }
    }

    /// True when this event founds a community.
    pub fn is_genesis(&self) -> (g: bool)
        ensures
            g == is_genesis_payload(self.payload@),
    {
        match self.payload {
            Payload::CreateCommunity { .. } => true,
            _ => false,
        }
    }

    /// The community this event belongs to. A genesis event belongs to the
    /// community it creates, whose id is the event's own id.
    pub fn community_id(&self) -> (c: CommunityId)
        ensures
            c@ == community_of(self@),
    {
        if self.is_genesis() {
            CommunityId::from(self.id())
        } else {
            self.community
        }
    }

    /// Deterministic total order, consistent with causality: the Lamport
    /// clock, tie-broken by the event id.
    pub fn order_key(&self) -> (k: (u64, EventId))
        ensures
            k.0 == self.lamport,
            k.1@ == event_id_of(self@),
    {
        (self.lamport, self.id())
    }

    /// Structural checks that need no knowledge of other events.
    pub fn validate_shape(&self) -> (r: Result<(), ValidationError>)
        ensures
            r == shape_check(self@),
    {
        if self.version != PROTOCOL_VERSION {
            return Err(ValidationError::UnsupportedVersion { found: self.version });
        }
        if self.lamport == 0 {
            return Err(ValidationError::ZeroLamport);
        }
        if self.parents.len() > MAX_PARENTS {
            return Err(ValidationError::TooManyParents(self.parents.len()));
        }
        if self.is_genesis() {
            if self.seq != 0 || self.prev_self.is_some() || !self.community.is_zero() {
                return Err(ValidationError::MalformedGenesis);
            }
        } else {
            if self.community.is_zero() {
                return Err(ValidationError::MissingCommunity);
            }
            if self.seq == 0 && self.prev_self.is_some() {
                return Err(ValidationError::UnexpectedPrevSelf);
            }
            if self.seq > 0 && self.prev_self.is_none() {
                return Err(ValidationError::MissingPrevSelf { seq: self.seq });
            }
        }
        match &self.payload {
            Payload::CreateCommunity { name, description } => {
                check_text("community name", name.as_str(), MAX_NAME_BYTES, true)?;
                check_text("description", description.as_str(), MAX_TOPIC_BYTES, false)?;
            },
            Payload::CreateChannel { channel, name, topic } => {
                check_text("channel name", name.as_str(), MAX_NAME_BYTES, true)?;
                check_text("topic", topic.as_str(), MAX_TOPIC_BYTES, false)?;
                // The id is a pure function of the community and the name,
                // so a peer cannot smuggle a message into an unrelated
                // channel by mislabelling it.
                let expected = ChannelId::derive(&self.community, name.as_str());
                if *channel != expected {
                    return Err(ValidationError::ChannelIdMismatch);
                }
            },
            Payload::Join { display_name } => {
                check_text("display name", display_name.as_str(), MAX_NAME_BYTES, true)?;
            },
            Payload::SetDisplayName { display_name } => {
                check_text("display name", display_name.as_str(), MAX_NAME_BYTES, true)?;
            },
            Payload::Message { body, .. } => {
                check_text("message body", body.as_str(), MAX_BODY_BYTES, true)?;
            },
        }
        Ok(())
    }
}

/// The community an event belongs to.
pub open spec fn community_of(e: EventModel) -> Seq<u8> {
    if is_genesis_payload(e.payload) {
        event_id_of(e)
    } else {
        e.community
    }
}


// -- authoring ------------------------------------------------------------------

/// Everything an author needs to know about a community in order to append
/// to it: where their own chain ended, and what they had seen.
#[derive(Clone, Debug, PartialEq, Eq, Default)]
pub struct ChainTip {
    /// Sequence number the next event will carry.
    pub next_seq: u64,
    /// The author's most recent event, or `None` if they have not written.
    pub prev_self: Option<EventId>,
    /// One greater than the highest Lamport value this node has seen.
    pub next_lamport: u64,
    /// The latest event from each author, as observed right now.
    pub parents: Vec<EventId>,
}

impl ChainTip {
    /// The tip for a community that does not exist yet.
    pub fn genesis() -> (tip: ChainTip)
        ensures
            tip.next_seq == 0,
            tip.prev_self is None,
            tip.next_lamport == 1,
            tip.parents@.len() == 0,
    {
        ChainTip { next_seq: 0, prev_self: None, next_lamport: 1, parents: Vec::new() }
    }
}

/// Every earlier item sorts strictly before every later one.
pub open spec fn strictly_sorted(s: Seq<Seq<u8>>) -> bool {
    forall|i: int, j: int| 0 <= i < j < s.len() ==> bytes_less(#[trigger] s[i], #[trigger] s[j])
}

/// The parent list an event carries, given the heads its author saw: the
/// distinct heads in byte order, cut to the first [`MAX_PARENTS`].
pub open spec fn is_parent_list(p: Seq<Seq<u8>>, heads: Seq<Seq<u8>>) -> bool {
    &&& strictly_sorted(p)
    &&& p.len() <= MAX_PARENTS
    &&& forall|i: int| 0 <= i < p.len() ==> heads.contains(#[trigger] p[i])
    &&& forall|x: Seq<u8>|
        #![trigger heads.contains(x)]
        heads.contains(x) && !p.contains(x) ==> p.len() == MAX_PARENTS && forall|i: int|
            0 <= i < p.len() ==> bytes_less(#[trigger] p[i], x)
}

/// Inserts `id` into a strictly sorted list unless it is already there.
fn insert_sorted(out: &mut Vec<EventId>, id: EventId)
    requires
        strictly_sorted(ids_view(old(out)@)),
        forall|i: int| 0 <= i < old(out)@.len() ==> (#[trigger] old(out)@[i])@.len() == 32,
    ensures
        strictly_sorted(ids_view(final(out)@)),
        forall|i: int| 0 <= i < final(out)@.len() ==> (#[trigger] final(out)@[i])@.len() == 32,
        forall|x: Seq<u8>| ids_view(final(out)@).contains(x) <==> (ids_view(old(out)@).contains(x) || x == id@),
{
    let ghost before = ids_view(out@);
    let mut k: usize = 0;
    while k < out.len()
        invariant
            k <= out@.len(),
            out@ == old(out)@,
            before == ids_view(out@),
            strictly_sorted(before),
            forall|i: int| 0 <= i < out@.len() ==> (#[trigger] out@[i])@.len() == 32,
            forall|i: int| 0 <= i < k ==> bytes_less(#[trigger] before[i], id@),
        ensures
            k < out@.len() ==> !bytes_less(before[k as int], id@),
        decreases out@.len() - k,
    {
        if !out[k].0.less_than(&id.0) {
            break;
        }
        k += 1;
    }
    if k < out.len() && out[k] == id {
        assert(before[k as int] == id@);
        return;
    }
    proof {
        if k < out@.len() {
            lemma_bytes_less_total(before[k as int], id@);
            assert(before[k as int] == out@[k as int]@);
            assert(bytes_less(id@, before[k as int]));
        }
    }
    out.insert(k, id);
    proof {
        let now = ids_view(out@);
        assert(now =~= before.insert(k as int, id@));
        assert forall|i: int, j: int| 0 <= i < j < now.len() implies bytes_less(#[trigger] now[i], #[trigger] now[j]) by {
            if j < k {
            } else if i < k && j == k {
            } else if i < k && j > k {
                assert(now[j] == before[j - 1]);
                if j - 1 > k {
                    lemma_bytes_less_transitive(now[i], before[k as int], before[j - 1]);
                }
            } else if i == k {
                assert(now[j] == before[j - 1]);
                if j - 1 > k {
                    lemma_bytes_less_transitive(id@, before[k as int], before[j - 1]);
                }
            } else {
                assert(now[i] == before[i - 1]);
                assert(now[j] == before[j - 1]);
            }
        }
        assert forall|x: Seq<u8>| now.contains(x) <==> (before.contains(x) || x == id@) by {
            if now.contains(x) {
                let i = choose|i: int| 0 <= i < now.len() && now[i] == x;
                if i < k {
                    assert(before[i] == x);
                } else if i > k {
                    assert(before[i - 1] == x);
                }
            }
            if before.contains(x) {
                let i = choose|i: int| 0 <= i < before.len() && before[i] == x;
                if i < k {
                    assert(now[i] == x);
                } else {
                    assert(now[i + 1] == x);
                }
            }
            if x == id@ {
                assert(now[k as int] == x);
            }
        }
    }
}

/// The distinct ids of `ids`, in byte order, cut to the first [`MAX_PARENTS`].
fn parent_list(ids: &Vec<EventId>) -> (out: Vec<EventId>)
    ensures
        is_parent_list(ids_view(out@), ids_view(ids@)),
{
    let mut out: Vec<EventId> = Vec::new();
    let ghost heads = ids_view(ids@);
    let mut i: usize = 0;
    while i < ids.len()
        invariant
            i <= ids@.len(),
            heads == ids_view(ids@),
            strictly_sorted(ids_view(out@)),
            forall|j: int| 0 <= j < out@.len() ==> (#[trigger] out@[j])@.len() == 32,
            forall|x: Seq<u8>| ids_view(out@).contains(x) <==> heads.take(i as int).contains(x),
        decreases ids@.len() - i,
    {
        insert_sorted(&mut out, ids[i]);
        proof {
            let next = heads.take(i + 1);
            let prev = heads.take(i as int);
            assert forall|x: Seq<u8>| next.contains(x) <==> (prev.contains(x) || x == heads[i as int]) by {
                if next.contains(x) {
                    let j = choose|j: int| 0 <= j < next.len() && next[j] == x;
                    if j < i {
                        assert(prev[j] == x);
                    }
                }
                if prev.contains(x) {
                    let j = choose|j: int| 0 <= j < prev.len() && prev[j] == x;
                    assert(next[j] == x);
                }
                if x == heads[i as int] {
                    assert(next[i as int] == x);
                }
            }
        }
        i += 1;
    }
    assert(heads.take(ids@.len() as int) =~= heads);
    let ghost full = ids_view(out@);
    if out.len() > MAX_PARENTS {
        out.truncate(MAX_PARENTS);
    }
    proof {
        let p = ids_view(out@);
        assert(p =~= full.take(p.len() as int));
        assert forall|k: int| 0 <= k < p.len() implies heads.contains(#[trigger] p[k]) by {
            assert(full.contains(full[k]));
        }
        assert forall|x: Seq<u8>| #![trigger heads.contains(x)] heads.contains(x) && !p.contains(x) implies p.len() == MAX_PARENTS
            && forall|k: int| 0 <= k < p.len() ==> bytes_less(#[trigger] p[k], x) by {
            assert(full.contains(x));
            let j = choose|j: int| 0 <= j < full.len() && full[j] == x;
            if j < p.len() {
                assert(p[j] == x);
            }
            assert forall|k: int| 0 <= k < p.len() implies bytes_less(#[trigger] p[k], x) by {
                assert(p[k] == full[k]);
            }
        }
    }
    out
}

/// The event `create` builds: the author's next position, the tip's clock
/// (never below one), and the parent list the tip's heads give.
pub open spec fn is_created_event(
    e: EventModel,
    author: Seq<u8>,
    community: Seq<u8>,
    next_seq: u64,
    prev_self: Option<Seq<u8>>,
    next_lamport: u64,
    heads: Seq<Seq<u8>>,
    timestamp_ms: u64,
    payload: PayloadModel,
) -> bool {
    &&& e.version == PROTOCOL_VERSION
    &&& e.community == community
    &&& e.author == author
    &&& e.seq == next_seq
    &&& e.prev_self == prev_self
    &&& e.lamport == if next_lamport == 0 { 1 } else { next_lamport }
    &&& is_parent_list(e.parents, heads)
    &&& e.timestamp_ms == timestamp_ms
    &&& e.payload == payload
}

impl Event {
    /// Builds and signs the author's next event.
    ///
    /// Pass a zero community id when the payload founds a community, since a
    /// genesis event cannot name the community it is about to create. The
    /// parent set is deduplicated, put in byte order and cut to
    /// [`MAX_PARENTS`], so event size does not grow with membership.
    pub fn create(
        identity: &Identity,
        community: CommunityId,
        tip: &ChainTip,
        timestamp_ms: u64,
        payload: Payload,
    ) -> (signed: SignedEvent)
        ensures
            is_created_event(
                signed.event@,
                identity::user_of(identity@),
                community@,
                tip.next_seq,
                opt_id_view(tip.prev_self),
                tip.next_lamport,
                ids_view(tip.parents@),
                timestamp_ms,
                payload@,
            ),
            signed.signature@ == ed25519_signature(identity@, preimage_of(signed.event@)),
    {
        let parents = parent_list(&tip.parents);
        let lamport = if tip.next_lamport == 0 { 1 } else { tip.next_lamport };
        let event = Event {
            version: PROTOCOL_VERSION,
            community,
            author: identity.user_id(),
            seq: tip.next_seq,
            prev_self: tip.prev_self,
            lamport,
            parents,
            timestamp_ms,
            payload,
        };
        event.sign(identity)
    }
}


// -- decoding -------------------------------------------------------------------

/// An optional identifier: its tag, then the identifier if there is one.
pub open spec fn take_opt_id(b: Seq<u8>) -> Result<(Option<Seq<u8>>, nat), DecodeError> {
    match take_option_tag(b) {
        Err(e) => Err(e),
        Ok((present, n)) => if !present {
            Ok((None, n))
        } else {
            match take_fixed(b.skip(n as int), 32) {
                Ok((id, m)) => Ok((Some(id), n + m)),
                Err(e) => Err(e),
            }
        },
    }
}

/// Two text fields one after the other.
pub open spec fn take_two_str(b: Seq<u8>) -> Result<((Seq<char>, Seq<char>), nat), DecodeError> {
    match take_str(b) {
        Err(e) => Err(e),
        Ok((x, n)) => match take_str(b.skip(n as int)) {
            Ok((y, m)) => Ok(((x, y), n + m)),
            Err(e) => Err(e),
        },
    }
}

/// An identifier followed by text.
pub open spec fn take_id_str(b: Seq<u8>) -> Result<((Seq<u8>, Seq<char>), nat), DecodeError> {
    match take_fixed(b, 32) {
        Err(e) => Err(e),
        Ok((id, n)) => match take_str(b.skip(n as int)) {
            Ok((x, m)) => Ok(((id, x), n + m)),
            Err(e) => Err(e),
        },
    }
}

/// What follows the tag of each kind of payload.
#[verifier::opaque]
pub open spec fn take_payload_body(tag: u32, b: Seq<u8>) -> Result<(PayloadModel, nat), DecodeError> {
    if tag == 0 {
        match take_two_str(b) {
            Ok(((name, description), n)) => Ok((PayloadModel::CreateCommunity { name, description }, n)),
            Err(e) => Err(e),
        }
    } else if tag == 1 {
        match take_id_str(b) {
            Err(e) => Err(e),
            Ok(((channel, name), n)) => match take_str(b.skip(n as int)) {
                Ok((topic, m)) => Ok((PayloadModel::CreateChannel { channel, name, topic }, n + m)),
                Err(e) => Err(e),
            },
        }
    } else if tag == 2 {
        match take_str(b) {
            Ok((display_name, n)) => Ok((PayloadModel::Join { display_name }, n)),
            Err(e) => Err(e),
        }
    } else if tag == 3 {
        match take_str(b) {
            Ok((display_name, n)) => Ok((PayloadModel::SetDisplayName { display_name }, n)),
            Err(e) => Err(e),
        }
    } else if tag == 4 {
        match take_id_str(b) {
            Ok(((channel, body), n)) => Ok((PayloadModel::Message { channel, body }, n)),
            Err(e) => Err(e),
        }
    } else {
        Err(DecodeError::Custom)
    }
}

/// A payload: the variant's index as a varint, then its fields.
pub open spec fn take_payload(b: Seq<u8>) -> Result<(PayloadModel, nat), DecodeError> {
    match take_u32(b) {
        Err(e) => Err(e),
        Ok((tag, n)) => match take_payload_body(tag, b.skip(n as int)) {
            Ok((p, m)) => Ok((p, n + m)),
            Err(e) => Err(e),
        },
    }
}

/// The fields of an event up to and including `prev_self`.
#[verifier::opaque]
pub open spec fn take_event_head(b: Seq<u8>) -> Result<((u16, Seq<u8>, Seq<u8>, u64, Option<Seq<u8>>), nat), DecodeError> {
    match take_u16(b) {
        Err(e) => Err(e),
        Ok((version, n1)) => match take_fixed(b.skip(n1 as int), 32) {
            Err(e) => Err(e),
            Ok((community, n2)) => match take_fixed(b.skip((n1 + n2) as int), 32) {
                Err(e) => Err(e),
                Ok((author, n3)) => match take_u64(b.skip((n1 + n2 + n3) as int)) {
                    Err(e) => Err(e),
                    Ok((seq, n4)) => match take_opt_id(b.skip((n1 + n2 + n3 + n4) as int)) {
                        Err(e) => Err(e),
                        Ok((prev_self, n5)) => Ok(((version, community, author, seq, prev_self), n1 + n2 + n3 + n4 + n5)),
                    },
                },
            },
        },
    }
}

/// The fields of an event after `prev_self`.
#[verifier::opaque]
pub open spec fn take_event_tail(b: Seq<u8>) -> Result<((u64, Seq<Seq<u8>>, u64, PayloadModel), nat), DecodeError> {
    match take_u64(b) {
        Err(e) => Err(e),
        Ok((lamport, n1)) => match take_list(b.skip(n1 as int), take_id_fn()) {
            Err(e) => Err(e),
            Ok((parents, n2)) => match take_u64(b.skip((n1 + n2) as int)) {
                Err(e) => Err(e),
                Ok((timestamp_ms, n3)) => match take_payload(b.skip((n1 + n2 + n3) as int)) {
                    Err(e) => Err(e),
                    Ok((payload, n4)) => Ok(((lamport, parents, timestamp_ms, payload), n1 + n2 + n3 + n4)),
                },
            },
        },
    }
}

/// An event, read field by field in declaration order.
pub open spec fn take_event(b: Seq<u8>) -> Result<(EventModel, nat), DecodeError> {
    match take_event_head(b) {
        Err(e) => Err(e),
        Ok(((version, community, author, seq, prev_self), n)) => match take_event_tail(b.skip(n as int)) {
            Err(e) => Err(e),
            Ok(((lamport, parents, timestamp_ms, payload), m)) => Ok((
                EventModel { version, community, author, seq, prev_self, lamport, parents, timestamp_ms, payload },
                n + m,
            )),
        },
    }
}

/// A signed event: the event, then the signature.
pub open spec fn take_signed(b: Seq<u8>) -> Result<(SignedEventModel, nat), DecodeError> {
    match take_event(b) {
        Err(e) => Err(e),
        Ok((event, n)) => match take_fixed(b.skip(n as int), 64) {
            Ok((signature, m)) => Ok((SignedEventModel { event, signature }, n + m)),
            Err(e) => Err(e),
        },
    }
}

/// Reads an optional identifier.
fn read_opt_id(b: &[u8], pos: usize) -> (r: Result<(Option<EventId>, usize), DecodeError>)
    requires
        pos <= b@.len(),
    ensures
        match r {
            Ok((v, p)) => take_opt_id(b@.skip(pos as int)) == Ok::<(Option<Seq<u8>>, nat), DecodeError>((opt_id_view(v), (p - pos) as nat)) && pos < p <= b@.len(),
            Err(e) => take_opt_id(b@.skip(pos as int)) == Err::<(Option<Seq<u8>>, nat), DecodeError>(e),
        },
{
    let (present, p) = match read_option_tag(b, pos) {
        Ok(x) => x,
        Err(e) => return Err(e),
    };
    if !present {
        return Ok((None, p));
    }
    match read_fixed32(b, p) {
        Ok((id, q)) => Ok((Some(EventId(Hash32::from_bytes(id))), q)),
        Err(e) => Err(e),
    }
}

/// Reads a text field that is followed by another.
fn read_two_str(b: &[u8], pos: usize) -> (r: Result<((String, String), usize), DecodeError>)
    requires
        pos <= b@.len(),
    ensures
        match r {
            Ok(((x, y), p)) => take_two_str(b@.skip(pos as int)) == Ok::<((Seq<char>, Seq<char>), nat), DecodeError>(((x@, y@), (p - pos) as nat)) && pos < p <= b@.len(),
            Err(e) => take_two_str(b@.skip(pos as int)) == Err::<((Seq<char>, Seq<char>), nat), DecodeError>(e),
        },
{
    let (x, p) = match read_string(b, pos) {
        Ok(v) => v,
        Err(e) => return Err(e),
    };
    match read_string(b, p) {
        Ok((y, q)) => Ok(((x, y), q)),
        Err(e) => Err(e),
    }
}

/// Reads an identifier followed by text.
fn read_id_str(b: &[u8], pos: usize) -> (r: Result<((ChannelId, String), usize), DecodeError>)
    requires
        pos <= b@.len(),
    ensures
        match r {
            Ok(((id, x), p)) => take_id_str(b@.skip(pos as int)) == Ok::<((Seq<u8>, Seq<char>), nat), DecodeError>(((id@, x@), (p - pos) as nat)) && pos < p <= b@.len(),
            Err(e) => take_id_str(b@.skip(pos as int)) == Err::<((Seq<u8>, Seq<char>), nat), DecodeError>(e),
        },
{
    let (id, p) = match read_fixed32(b, pos) {
        Ok(v) => v,
        Err(e) => return Err(e),
    };
    match read_string(b, p) {
        Ok((x, q)) => Ok(((ChannelId(Hash32::from_bytes(id)), x), q)),
        Err(e) => Err(e),
    }
}

/// Reads a payload.
fn read_payload(b: &[u8], pos: usize) -> (r: Result<(Payload, usize), DecodeError>)
    requires
        pos <= b@.len(),
    ensures
        match r {
            Ok((v, p)) => take_payload(b@.skip(pos as int)) == Ok::<(PayloadModel, nat), DecodeError>((v@, (p - pos) as nat)) && pos < p <= b@.len(),
            Err(e) => take_payload(b@.skip(pos as int)) == Err::<(PayloadModel, nat), DecodeError>(e),
        },
{
    proof {
        reveal(take_payload_body);
    }
    let (tag, p) = match read_u32(b, pos) {
        Ok(v) => v,
        Err(e) => return Err(e),
    };
    if tag == 0 {
        match read_two_str(b, p) {
            Ok(((name, description), q)) => Ok((Payload::CreateCommunity { name, description }, q)),
            Err(e) => Err(e),
        }
    } else if tag == 1 {
        let ((channel, name), q) = match read_id_str(b, p) {
            Ok(v) => v,
            Err(e) => return Err(e),
        };
        match read_string(b, q) {
            Ok((topic, t)) => Ok((Payload::CreateChannel { channel, name, topic }, t)),
            Err(e) => Err(e),
        }
    } else if tag == 2 {
        match read_string(b, p) {
            Ok((display_name, q)) => Ok((Payload::Join { display_name }, q)),
            Err(e) => Err(e),
        }
    } else if tag == 3 {
        match read_string(b, p) {
            Ok((display_name, q)) => Ok((Payload::SetDisplayName { display_name }, q)),
            Err(e) => Err(e),
        }
    } else if tag == 4 {
        match read_id_str(b, p) {
            Ok(((channel, body), q)) => Ok((Payload::Message { channel, body }, q)),
            Err(e) => Err(e),
        }
    } else {
        Err(DecodeError::Custom)
    }
}

/// Reads a list of identifiers.
#[verifier::rlimit(60)]
fn read_ids(b: &[u8], pos: usize) -> (r: Result<(Vec<EventId>, usize), DecodeError>)
    requires
        pos <= b@.len(),
    ensures
        match r {
            Ok((v, p)) => take_list(b@.skip(pos as int), take_id_fn()) == Ok::<(Seq<Seq<u8>>, nat), DecodeError>((ids_view(v@), (p - pos) as nat)) && pos < p <= b@.len(),
            Err(e) => take_list(b@.skip(pos as int), take_id_fn()) == Err::<(Seq<Seq<u8>>, nat), DecodeError>(e),
        },
{
    let (k, p0) = match read_u64(b, pos) {
        Ok(v) => v,
        Err(e) => return Err(e),
    };
    let ghost dec = take_id_fn();
    let ghost whole_list = take_seq(b@.skip(p0 as int), k as nat, dec);
    assert(b@.skip(pos as int).skip((p0 - pos) as int) == b@.skip(p0 as int));
    let mut out: Vec<EventId> = Vec::new();
    let mut p = p0;
    let mut i: u64 = 0;
    assert(ids_view(out@) =~= Seq::<Seq<u8>>::empty());
    while i < k
        invariant
            pos < p0 <= p <= b@.len(),
            i <= k,
            dec == take_id_fn(),
            whole_list == take_seq(b@.skip(p0 as int), k as nat, dec),
            take_list(b@.skip(pos as int), dec) == after(Seq::<Seq<u8>>::empty(), (p0 - pos) as nat, whole_list),
            after(Seq::<Seq<u8>>::empty(), (p0 - pos) as nat, whole_list) == after(
                ids_view(out@),
                (p - pos) as nat,
                take_seq(b@.skip(p as int), (k - i) as nat, dec),
            ),
        decreases k - i,
    {
        let ghost here = b@.skip(p as int);
        let ghost left = (k - i) as nat;
        match read_fixed32(b, p) {
            Ok((id, q)) => {
                proof {
                    lemma_take_seq_step(here, left, dec, id@, (q - p) as nat);
                    assert(here.skip((q - p) as int) == b@.skip(q as int));
                }
                let ghost before = ids_view(out@);
                out.push(EventId(Hash32::from_bytes(id)));
                assert(ids_view(out@) =~= before.push(id@));
                p = q;
                i += 1;
            },
            Err(e) => {
                proof {
                    lemma_take_seq_fail(here, left, dec, e);
                }
                return Err(e);
            },
        }
    }
    assert(Seq::<Seq<u8>>::empty() + ids_view(out@) =~= ids_view(out@));
    Ok((out, p))
}

/// Reads the fields of an event up to `prev_self`.
fn read_event_head(b: &[u8], pos: usize) -> (r: Result<((u16, [u8; 32], [u8; 32], u64, Option<EventId>), usize), DecodeError>)
    requires
        pos <= b@.len(),
    ensures
        match r {
            Ok(((version, community, author, seq, prev_self), p)) => take_event_head(b@.skip(pos as int)) == Ok::<((u16, Seq<u8>, Seq<u8>, u64, Option<Seq<u8>>), nat), DecodeError>(
                ((version, community@, author@, seq, opt_id_view(prev_self)), (p - pos) as nat),
            ) && pos < p <= b@.len(),
            Err(e) => take_event_head(b@.skip(pos as int)) == Err::<((u16, Seq<u8>, Seq<u8>, u64, Option<Seq<u8>>), nat), DecodeError>(e),
        },
{
    proof {
        reveal(take_event_head);
    }
    let (version, p1) = match read_u16(b, pos) {
        Ok(v) => v,
        Err(e) => return Err(e),
    };
    let (community, p2) = match read_fixed32(b, p1) {
        Ok(v) => v,
        Err(e) => return Err(e),
    };
    let (author, p3) = match read_fixed32(b, p2) {
        Ok(v) => v,
        Err(e) => return Err(e),
    };
    let (seq, p4) = match read_u64(b, p3) {
        Ok(v) => v,
        Err(e) => return Err(e),
    };
    match read_opt_id(b, p4) {
        Ok((prev_self, p5)) => Ok(((version, community, author, seq, prev_self), p5)),
        Err(e) => Err(e),
    }
}

/// Reads the fields of an event after `prev_self`.
fn read_event_tail(b: &[u8], pos: usize) -> (r: Result<((u64, Vec<EventId>, u64, Payload), usize), DecodeError>)
    requires
        pos <= b@.len(),
    ensures
        match r {
            Ok(((lamport, parents, timestamp_ms, payload), p)) => take_event_tail(b@.skip(pos as int)) == Ok::<((u64, Seq<Seq<u8>>, u64, PayloadModel), nat), DecodeError>(
                ((lamport, ids_view(parents@), timestamp_ms, payload@), (p - pos) as nat),
            ) && pos < p <= b@.len(),
            Err(e) => take_event_tail(b@.skip(pos as int)) == Err::<((u64, Seq<Seq<u8>>, u64, PayloadModel), nat), DecodeError>(e),
        },
{
    proof {
        reveal(take_event_tail);
    }
    let (lamport, q1) = match read_u64(b, pos) {
        Ok(v) => v,
        Err(e) => return Err(e),
    };
    let (parents, q2) = match read_ids(b, q1) {
        Ok(v) => v,
        Err(e) => return Err(e),
    };
    let (timestamp_ms, q3) = match read_u64(b, q2) {
        Ok(v) => v,
        Err(e) => return Err(e),
    };
    match read_payload(b, q3) {
        Ok((payload, q4)) => Ok(((lamport, parents, timestamp_ms, payload), q4)),
        Err(e) => Err(e),
    }
}

/// Reads an event.
fn read_event(b: &[u8], pos: usize) -> (r: Result<(Event, usize), DecodeError>)
    requires
        pos <= b@.len(),
    ensures
        match r {
            Ok((v, p)) => take_event(b@.skip(pos as int)) == Ok::<(EventModel, nat), DecodeError>((v@, (p - pos) as nat)) && pos < p <= b@.len(),
            Err(e) => take_event(b@.skip(pos as int)) == Err::<(EventModel, nat), DecodeError>(e),
        },
{
    let ((version, community, author, seq, prev_self), p) = match read_event_head(b, pos) {
        Ok(v) => v,
        Err(e) => return Err(e),
    };
    let ((lamport, parents, timestamp_ms, payload), q) = match read_event_tail(b, p) {
        Ok(v) => v,
        Err(e) => return Err(e),
    };
    let event = Event {
        version,
        community: CommunityId(Hash32::from_bytes(community)),
        author: UserId(Hash32::from_bytes(author)),
        seq,
        prev_self,
        lamport,
        parents,
        timestamp_ms,
        payload,
    };
    Ok((event, q))
}

impl SignedEvent {
    pub fn id(&self) -> (id: EventId)
        ensures
            id@ == event_id_of(self.event@),
    {
        self.event.id()
    }

    pub fn author(&self) -> (a: UserId)
        ensures
            a == self.event.author,
    {
        self.event.author
    }

    pub fn seq(&self) -> (n: u64)
        ensures
            n == self.event.seq,
    {
        self.event.seq
    }

    pub fn community_id(&self) -> (c: CommunityId)
        ensures
            c@ == community_of(self.event@),
    {
        self.event.community_id()
    }

    pub fn payload(&self) -> (p: &Payload)
        ensures
            *p == self.event.payload,
    {
        &self.event.payload
    }

    pub fn order_key(&self) -> (k: (u64, EventId))
        ensures
            k.0 == self.event.lamport,
            k.1@ == event_id_of(self.event@),
    {
        self.event.order_key()
    }

    /// Full standalone validation: structure, then signature.
    ///
    /// Every event is checked here before it touches the store, no matter
    /// which peer handed it over. Causal checks that need neighbouring events
    /// (does `prev_self` exist? is `seq` contiguous?) belong to the store.
    pub fn verify(&self) -> (r: Result<(), ValidationError>)
        ensures
            match shape_check(self.event@) {
                Err(e) => r == Err::<(), ValidationError>(e),
                Ok(()) => if ed25519_accepts(self.event.author@, preimage_of(self.event@), self.signature@) {
                    r is Ok
                } else {
                    (r matches Err(ValidationError::BadSignature(s)) && s@ == hex_encode(self.event.author@.subrange(0, 4)))
                },
            },
    {
        match self.event.validate_shape() {
            Ok(()) => {},
            Err(e) => return Err(e),
        }
        let preimage = self.event.preimage();
        if !identity::verify(&self.event.author, preimage.as_slice(), &self.signature) {
            return Err(ValidationError::BadSignature(self.event.author.short()));
        }
        Ok(())
    }

    /// Checks that a claimed id matches, without recomputing it twice.
    pub fn verify_id(&self, expected: &EventId) -> (r: Result<(), ValidationError>)
        ensures
            r == if event_id_of(self.event@) == expected@ {
                Ok::<(), ValidationError>(())
            } else {
                Err(ValidationError::IdMismatch)
            },
    {
        if self.id() != *expected {
            return Err(ValidationError::IdMismatch);
        }
        Ok(())
    }

    /// The canonical bytes of this signed event.
    pub fn encode(&self) -> (out: Vec<u8>)
        ensures
            out@ == enc_signed(self@),
    {
        let mut out: Vec<u8> = Vec::new();
        put_event(&mut out, &self.event);
        put_bytes(&mut out, self.signature.as_slice());
        assert(out@ =~= enc_signed(self@));
        out
    }

    /// Reads a signed event, refusing trailing bytes so that a peer cannot
    /// pad an event to change its id while keeping it decodable.
    pub fn decode(bytes: &[u8]) -> (r: Result<SignedEvent, CodecError>)
        ensures
            match r {
                Ok(s) => whole(take_signed(bytes@), bytes@.len()) == Ok::<SignedEventModel, CodecError>(s@),
                Err(e) => whole(take_signed(bytes@), bytes@.len()) == Err::<SignedEventModel, CodecError>(e),
            },
    {
        assert(bytes@.skip(0) =~= bytes@);
        let (event, p) = match read_event(bytes, 0) {
            Ok(v) => v,
            Err(e) => return Err(CodecError::Decode(e)),
        };
        let (signature, q) = match read_fixed64(bytes, p) {
            Ok(v) => v,
            Err(e) => return Err(CodecError::Decode(e)),
        };
        if q != bytes.len() {
            return Err(CodecError::TrailingBytes(bytes.len() - q));
        }
        Ok(SignedEvent { event, signature })
    }
}

/// Appends a signed event.
pub(crate) fn put_signed(out: &mut Vec<u8>, s: &SignedEvent)
    ensures
        final(out)@ == old(out)@ + enc_signed(s@),
{
    let ghost before = out@;
    put_event(out, &s.event);
    put_bytes(out, s.signature.as_slice());
    assert(out@ =~= before + enc_signed(s@));
}

/// Reads a signed event at `pos`.
pub(crate) fn read_signed(b: &[u8], pos: usize) -> (r: Result<(SignedEvent, usize), DecodeError>)
    requires
        pos <= b@.len(),
    ensures
        match r {
            Ok((v, p)) => take_signed(b@.skip(pos as int)) == Ok::<(SignedEventModel, nat), DecodeError>((v@, (p - pos) as nat)) && pos < p <= b@.len(),
            Err(e) => take_signed(b@.skip(pos as int)) == Err::<(SignedEventModel, nat), DecodeError>(e),
        },
{
    let (event, p) = match read_event(b, pos) {
        Ok(v) => v,
        Err(e) => return Err(e),
    };
    match read_fixed64(b, p) {
        Ok((signature, q)) => Ok((SignedEvent { event, signature }, q)),
        Err(e) => Err(e),
    }
}

// -- the encoding round-trips ----------------------------------------------------

/// Text short enough for its length to be written as a `u64`.
pub open spec fn text_fits(c: Seq<char>) -> bool {
    encode_utf8(c).len() < 0x1_0000_0000_0000_0000
}

/// A payload whose identifiers are 32 bytes and whose text fits.
pub open spec fn payload_wf(p: PayloadModel) -> bool {
    match p {
        PayloadModel::CreateCommunity { name, description } => text_fits(name) && text_fits(description),
        PayloadModel::CreateChannel { channel, name, topic } => channel.len() == 32 && text_fits(name)
            && text_fits(topic),
        PayloadModel::Join { display_name } => text_fits(display_name),
        PayloadModel::SetDisplayName { display_name } => text_fits(display_name),
        PayloadModel::Message { channel, body } => channel.len() == 32 && text_fits(body),
    }
}

/// An event that its exec form could hold: 32-byte identifiers, a parent
/// list and text whose lengths fit.
pub open spec fn event_wf(e: EventModel) -> bool {
    &&& e.community.len() == 32
    &&& e.author.len() == 32
    &&& (e.prev_self matches Some(id) ==> id.len() == 32)
    &&& e.parents.len() < 0x1_0000_0000_0000_0000
    &&& forall|i: int| 0 <= i < e.parents.len() ==> (#[trigger] e.parents[i]).len() == 32
    &&& payload_wf(e.payload)
}

pub open spec fn signed_wf(s: SignedEventModel) -> bool {
    event_wf(s.event) && s.signature.len() == 64
}

/// The fields up to `prev_self`, encoded.
pub open spec fn enc_event_head(e: EventModel) -> Seq<u8> {
    varint(e.version as nat) + enc_bytes(e.community) + enc_bytes(e.author) + varint(e.seq as nat) + enc_opt_id(
        e.prev_self,
    )
}

/// The fields after `prev_self`, encoded.
pub open spec fn enc_event_tail(e: EventModel) -> Seq<u8> {
    varint(e.lamport as nat) + enc_list(e.parents, enc_id_fn()) + varint(e.timestamp_ms as nat) + enc_payload(
        e.payload,
    )
}

/// Skipping what was put in front gives back what followed it.
proof fn lemma_skip_front(x: Seq<u8>, y: Seq<u8>)
    ensures
        (x + y).skip(x.len() as int) == y,
{
    assert((x + y).skip(x.len() as int) =~= y);
}

proof fn lemma_opt_id_roundtrip(o: Option<Seq<u8>>, rest: Seq<u8>)
    requires
        o matches Some(id) ==> id.len() == 32,
    ensures
        take_opt_id(enc_opt_id(o) + rest) == Ok::<(Option<Seq<u8>>, nat), DecodeError>((o, enc_opt_id(o).len())),
{
    match o {
        None => {},
        Some(id) => {
            let b = enc_opt_id(o) + rest;
            assert(b =~= seq![1u8] + (enc_bytes(id) + rest));
            lemma_skip_front(seq![1u8], enc_bytes(id) + rest);
            lemma_fixed_roundtrip(id, rest, 32);
        },
    }
}

/// What follows a payload's tag.
pub open spec fn enc_payload_body(p: PayloadModel) -> Seq<u8> {
    match p {
        PayloadModel::CreateCommunity { name, description } => enc_str(name) + enc_str(description),
        PayloadModel::CreateChannel { channel, name, topic } => enc_bytes(channel) + enc_str(name) + enc_str(topic),
        PayloadModel::Join { display_name } => enc_str(display_name),
        PayloadModel::SetDisplayName { display_name } => enc_str(display_name),
        PayloadModel::Message { channel, body } => enc_bytes(channel) + enc_str(body),
    }
}

/// A payload's variant index.
pub open spec fn payload_tag(p: PayloadModel) -> u32 {
    match p {
        PayloadModel::CreateCommunity { .. } => 0,
        PayloadModel::CreateChannel { .. } => 1,
        PayloadModel::Join { .. } => 2,
        PayloadModel::SetDisplayName { .. } => 3,
        PayloadModel::Message { .. } => 4,
    }
}

proof fn lemma_two_str_roundtrip(x: Seq<char>, y: Seq<char>, rest: Seq<u8>)
    requires
        text_fits(x),
        text_fits(y),
    ensures
        take_two_str(enc_str(x) + enc_str(y) + rest) == Ok::<((Seq<char>, Seq<char>), nat), DecodeError>(
            ((x, y), (enc_str(x) + enc_str(y)).len()),
        ),
{
    assert(enc_str(x) + enc_str(y) + rest =~= enc_str(x) + (enc_str(y) + rest));
    lemma_str_roundtrip(x, enc_str(y) + rest);
    lemma_skip_front(enc_str(x), enc_str(y) + rest);
    lemma_str_roundtrip(y, rest);
}

proof fn lemma_id_str_roundtrip(id: Seq<u8>, x: Seq<char>, rest: Seq<u8>)
    requires
        id.len() == 32,
        text_fits(x),
    ensures
        take_id_str(enc_bytes(id) + enc_str(x) + rest) == Ok::<((Seq<u8>, Seq<char>), nat), DecodeError>(
            ((id, x), (enc_bytes(id) + enc_str(x)).len()),
        ),
{
    assert(enc_bytes(id) + enc_str(x) + rest =~= enc_bytes(id) + (enc_str(x) + rest));
    lemma_fixed_roundtrip(id, enc_str(x) + rest, 32);
    lemma_skip_front(enc_bytes(id), enc_str(x) + rest);
    lemma_str_roundtrip(x, rest);
}

proof fn lemma_payload_body_roundtrip(p: PayloadModel, rest: Seq<u8>)
    requires
        payload_wf(p),
    ensures
        take_payload_body(payload_tag(p), enc_payload_body(p) + rest) == Ok::<(PayloadModel, nat), DecodeError>(
            (p, enc_payload_body(p).len()),
        ),
{
    reveal(take_payload_body);
    match p {
        PayloadModel::CreateCommunity { name, description } => {
            lemma_two_str_roundtrip(name, description, rest);
        },
        PayloadModel::CreateChannel { channel, name, topic } => {
            let head = enc_bytes(channel) + enc_str(name);
            assert(enc_payload_body(p) + rest =~= head + (enc_str(topic) + rest));
            assert(enc_payload_body(p) + rest =~= head + enc_str(topic) + rest);
            lemma_id_str_roundtrip(channel, name, enc_str(topic) + rest);
            lemma_skip_front(head, enc_str(topic) + rest);
            lemma_str_roundtrip(topic, rest);
        },
        PayloadModel::Join { display_name } => {
            lemma_str_roundtrip(display_name, rest);
        },
        PayloadModel::SetDisplayName { display_name } => {
            lemma_str_roundtrip(display_name, rest);
        },
        PayloadModel::Message { channel, body } => {
            lemma_id_str_roundtrip(channel, body, rest);
        },
    }
}

proof fn lemma_payload_roundtrip(p: PayloadModel, rest: Seq<u8>)
    requires
        payload_wf(p),
    ensures
        take_payload(enc_payload(p) + rest) == Ok::<(PayloadModel, nat), DecodeError>((p, enc_payload(p).len())),
{
    let tag = payload_tag(p);
    let body = enc_payload_body(p) + rest;
    assert(enc_payload(p) =~= varint(tag as nat) + enc_payload_body(p));
    assert(enc_payload(p) + rest =~= varint(tag as nat) + body);
    lemma_u32_roundtrip(tag, body);
    lemma_skip_front(varint(tag as nat), body);
    lemma_payload_body_roundtrip(p, rest);
}

proof fn lemma_event_head_roundtrip(e: EventModel, rest: Seq<u8>)
    requires
        event_wf(e),
    ensures
        take_event_head(enc_event_head(e) + rest) == Ok::<((u16, Seq<u8>, Seq<u8>, u64, Option<Seq<u8>>), nat), DecodeError>(
            ((e.version, e.community, e.author, e.seq, e.prev_self), enc_event_head(e).len()),
        ),
{
    reveal(take_event_head);
    let a = varint(e.version as nat);
    let c = enc_bytes(e.community);
    let u = enc_bytes(e.author);
    let q = varint(e.seq as nat);
    let o = enc_opt_id(e.prev_self);
    let s5 = o + rest;
    let s4 = q + s5;
    let s3 = u + s4;
    let s2 = c + s3;
    let s1 = a + s2;
    assert(enc_event_head(e) + rest =~= s1);
    lemma_u16_roundtrip(e.version, s2);
    lemma_skip_front(a, s2);
    lemma_fixed_roundtrip(e.community, s3, 32);
    lemma_skip_front(c, s3);
    lemma_fixed_roundtrip(e.author, s4, 32);
    lemma_skip_front(u, s4);
    lemma_u64_roundtrip(e.seq, s5);
    lemma_skip_front(q, s5);
    lemma_opt_id_roundtrip(e.prev_self, rest);
    assert(s1.skip(a.len() as int).skip(c.len() as int) == s3);
    assert(s1.skip((a.len() + c.len()) as int) == s3);
    assert(s1.skip((a.len() + c.len() + u.len()) as int) == s4);
    assert(s1.skip((a.len() + c.len() + u.len() + q.len()) as int) == s5);
}

proof fn lemma_event_tail_roundtrip(e: EventModel, rest: Seq<u8>)
    requires
        event_wf(e),
    ensures
        take_event_tail(enc_event_tail(e) + rest) == Ok::<((u64, Seq<Seq<u8>>, u64, PayloadModel), nat), DecodeError>(
            ((e.lamport, e.parents, e.timestamp_ms, e.payload), enc_event_tail(e).len()),
        ),
{
    reveal(take_event_tail);
    let l = varint(e.lamport as nat);
    let g = enc_list(e.parents, enc_id_fn());
    let t = varint(e.timestamp_ms as nat);
    let y = enc_payload(e.payload);
    let s4 = y + rest;
    let s3 = t + s4;
    let s2 = g + s3;
    let s1 = l + s2;
    assert(enc_event_tail(e) + rest =~= s1);
    lemma_u64_roundtrip(e.lamport, s2);
    lemma_skip_front(l, s2);
    let wf = |x: Seq<u8>| x.len() == 32;
    assert forall|x: Seq<u8>, r: Seq<u8>| wf(x) implies #[trigger] take_id_fn()(enc_id_fn()(x) + r)
        == Ok::<(Seq<u8>, nat), DecodeError>((x, enc_id_fn()(x).len())) by {
        lemma_fixed_roundtrip(x, r, 32);
    }
    lemma_list_roundtrip(e.parents, s3, enc_id_fn(), take_id_fn(), wf);
    lemma_skip_front(g, s3);
    lemma_u64_roundtrip(e.timestamp_ms, s4);
    lemma_skip_front(t, s4);
    lemma_payload_roundtrip(e.payload, rest);
    assert(s1.skip(l.len() as int).skip(g.len() as int) == s3);
    assert(s1.skip((l.len() + g.len()) as int) == s3);
    assert(s1.skip((l.len() + g.len() + t.len()) as int) == s4);
}

/// Reading the encoding of an event gives the event back, with whatever
/// followed it untouched.
pub proof fn lemma_event_roundtrip(e: EventModel, rest: Seq<u8>)
    requires
        event_wf(e),
    ensures
        take_event(enc_event(e) + rest) == Ok::<(EventModel, nat), DecodeError>((e, enc_event(e).len())),
{
    let h = enc_event_head(e);
    let t = enc_event_tail(e) + rest;
    assert(enc_event(e) =~= h + enc_event_tail(e));
    assert(enc_event(e) + rest =~= h + t);
    lemma_event_head_roundtrip(e, t);
    lemma_skip_front(h, t);
    lemma_event_tail_roundtrip(e, rest);
}

/// Decoding what encoding wrote gives the same signed event back, for every
/// signed event with well-formed identifiers and signature.
pub proof fn law_decode_inverts_encode(s: SignedEventModel)
    requires
        signed_wf(s),
    ensures
        whole(take_signed(enc_signed(s)), enc_signed(s).len()) == Ok::<SignedEventModel, CodecError>(s),
{
    let sig = enc_bytes(s.signature);
    lemma_event_roundtrip(s.event, sig);
    lemma_skip_front(enc_event(s.event), sig);
    assert(sig =~= sig + Seq::<u8>::empty());
    lemma_fixed_roundtrip(s.signature, Seq::<u8>::empty(), 64);
}

/// Reading the encoding of a signed event gives it back, with whatever
/// followed it untouched.
pub proof fn lemma_signed_roundtrip(s: SignedEventModel, rest: Seq<u8>)
    requires
        signed_wf(s),
    ensures
        take_signed(enc_signed(s) + rest) == Ok::<(SignedEventModel, nat), DecodeError>((s, enc_signed(s).len())),
{
    let sig = enc_bytes(s.signature);
    assert(enc_signed(s) + rest =~= enc_event(s.event) + (sig + rest));
    lemma_event_roundtrip(s.event, sig + rest);
    lemma_skip_front(enc_event(s.event), sig + rest);
    lemma_fixed_roundtrip(s.signature, rest, 64);
}

/// Padding never gives a second form of an event: its encoding with one
/// more byte after it is refused, and the refusal says one byte was left
/// over.
pub proof fn law_one_more_byte_is_refused(s: SignedEventModel, x: u8)
    requires
        signed_wf(s),
    ensures
        whole(take_signed(enc_signed(s).push(x)), enc_signed(s).push(x).len()) == Err::<SignedEventModel, CodecError>(
            CodecError::TrailingBytes(1),
        ),
{
    assert(enc_signed(s).push(x) =~= enc_signed(s) + seq![x]);
    lemma_signed_roundtrip(s, seq![x]);
}

} // verus!
