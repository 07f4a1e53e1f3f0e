//! Invites: the only bootstrap step in the system.
//!
//! Joining a community needs two things: its id, and at least one member who
//! is currently reachable. An invite is exactly that, encoded as a string
//! someone can paste into a chat window.
//!
//! There is no invite server and no redemption step. The string is a hint
//! about where to look, not a credential: everything it points at is verified
//! against signatures once fetched, so a forged invite gets you a community
//! that fails to validate, not a compromised one.

use vstd::prelude::*;
use vstd::utf8::encode_utf8;

use crate::net::ip::{addr_is_global, addr_is_global_spec};
use crate::proto::codec::{
    lemma_fixed_roundtrip, lemma_list_roundtrip, lemma_str_roundtrip,
    after, enc_bytes, enc_list, lemma_skip_skip, enc_seq, enc_str, lemma_enc_seq_push, lemma_take_seq_fail, lemma_take_seq_step,
    put_bytes, put_str, put_varint, read_byte, read_fixed32, read_string, read_u64, take_byte, take_fixed,
    take_list, take_seq, take_str, varint, whole, CodecError, DecodeError,
};
use crate::proto::identity::{bs58_decode, bs58_encode, bs58_text, is_base58_char, Base58Error};
use crate::proto::ids::{lemma_hash32_len, CommunityId, EventId, Hash32};
use crate::text::{append_str, has_prefix, is_space, strip_prefix_text, trim_back, trim_front, trim_text, trimmed};

verus! {

broadcast use {lemma_hash32_len, lemma_skip_skip, vstd::string::to_string_from_display_ensures_for_str};

/// Prefix that makes an invite recognisable in the middle of a chat log.
pub const INVITE_PREFIX: &'static str = "kahui1";

/// URL scheme the desktop app registers, so an invite can be a link somebody
/// clicks rather than a code they copy.
pub const LINK_SCHEME: &'static str = "kahui";

/// What a full invite link looks like: `kahui://join/kahui1...`
pub const LINK_PREFIX: &'static str = "kahui://join/";

/// Format version, so future invites can carry more without older clients
/// misreading them.
pub const INVITE_VERSION: u8 = 1;

#[derive(Debug, PartialEq, Eq)]
pub enum InviteError {
    /// An invite starts with [`INVITE_PREFIX`].
    MissingPrefix,
    /// The text after the prefix is not base58.
    BadBase58(Base58Error),
    /// The decoded bytes are not an invite.
    Malformed(CodecError),
    /// A version this client does not understand.
    UnsupportedVersion { found: u8 },
    /// The invite names no peers to connect to.
    NoPeers,
}

/// One member who was reachable when the invite was made.
#[derive(Debug, PartialEq, Eq)]
pub struct InvitePeer {
    /// libp2p peer id, as text.
    pub peer_id: String,
    /// Multiaddresses, without the trailing `/p2p/<peer>` component: the
    /// dialer appends it from `peer_id`.
    pub addrs: Vec<String>,
}

/// Everything needed to find and verify a community.
#[derive(Debug, PartialEq, Eq)]
pub struct Invite {
    /// Format version; [`Invite::new`] sets [`INVITE_VERSION`].
    pub version: u8,
    /// The community's id, which is also the hash of its genesis event.
    pub community: CommunityId,
    /// Display name, so a user can see what they are joining before they do.
    pub name: String,
    /// Members to try. More than one means the invite outlives any single
    /// node.
    pub peers: Vec<InvitePeer>,
}

pub struct InvitePeerModel {
    pub peer_id: Seq<char>,
    pub addrs: Seq<Seq<char>>,
}

pub struct InviteModel {
    pub version: u8,
    pub community: Seq<u8>,
    pub name: Seq<char>,
    pub peers: Seq<InvitePeerModel>,
}

pub open spec fn strings_view(v: Seq<String>) -> Seq<Seq<char>> {
    v.map_values(|s: String| s@)
}

impl View for InvitePeer {
    type V = InvitePeerModel;

    open spec fn view(&self) -> InvitePeerModel {
        InvitePeerModel { peer_id: self.peer_id@, addrs: strings_view(self.addrs@) }
    }
}

pub open spec fn peers_view(v: Seq<InvitePeer>) -> Seq<InvitePeerModel> {
    v.map_values(|p: InvitePeer| p@)
}

impl View for Invite {
    type V = InviteModel;

    open spec fn view(&self) -> InviteModel {
        InviteModel {
            version: self.version,
            community: self.community@,
            name: self.name@,
            peers: peers_view(self.peers@),
        }
    }
}

// -- encoding ---------------------------------------------------------------------

pub open spec fn enc_str_fn() -> spec_fn(Seq<char>) -> Seq<u8> {
    |c: Seq<char>| enc_str(c)
}

pub open spec fn take_str_fn() -> spec_fn(Seq<u8>) -> Result<(Seq<char>, nat), DecodeError> {
    |b: Seq<u8>| take_str(b)
}

pub open spec fn enc_peer(p: InvitePeerModel) -> Seq<u8> {
    enc_str(p.peer_id) + enc_list(p.addrs, enc_str_fn())
}

pub open spec fn enc_peer_fn() -> spec_fn(InvitePeerModel) -> Seq<u8> {
    |p: InvitePeerModel| enc_peer(p)
}

#[verifier::opaque]
pub open spec fn take_peer(b: Seq<u8>) -> Result<(InvitePeerModel, nat), DecodeError> {
    match take_str(b) {
        Err(e) => Err(e),
        Ok((peer_id, n)) => match take_list(b.skip(n as int), take_str_fn()) {
            Ok((addrs, m)) => Ok((InvitePeerModel { peer_id, addrs }, n + m)),
            Err(e) => Err(e),
        },
    }
}

pub open spec fn take_peer_fn() -> spec_fn(Seq<u8>) -> Result<(InvitePeerModel, nat), DecodeError> {
    |b: Seq<u8>| take_peer(b)
}

/// The canonical bytes of an invite: the version as one raw byte, then the
/// community id, the name and the peers.
pub open spec fn enc_invite(v: InviteModel) -> Seq<u8> {
    seq![v.version] + enc_bytes(v.community) + enc_str(v.name) + enc_list(v.peers, enc_peer_fn())
}

/// Reads an invite's fields in order.
#[verifier::opaque]
pub open spec fn take_invite(b: Seq<u8>) -> Result<(InviteModel, nat), DecodeError> {
    match take_byte(b) {
        Err(e) => Err(e),
        Ok((version, n1)) => match take_fixed(b.skip(n1 as int), 32) {
            Err(e) => Err(e),
            Ok((community, n2)) => match take_str(b.skip((n1 + n2) as int)) {
                Err(e) => Err(e),
                Ok((name, n3)) => match take_list(b.skip((n1 + n2 + n3) as int), take_peer_fn()) {
                    Err(e) => Err(e),
                    Ok((peers, n4)) => Ok((InviteModel { version, community, name, peers }, n1 + n2 + n3 + n4)),
                },
            },
        },
    }
}

/// No peer, or no peer with an address.
pub open spec fn nowhere_to_connect(peers: Seq<InvitePeerModel>) -> bool {
    peers.len() == 0 || forall|i: int| 0 <= i < peers.len() ==> (#[trigger] peers[i]).addrs.len() == 0
}

/// What the decoded bytes of an invite give.
pub open spec fn invite_from_bytes(b: Seq<u8>) -> Result<InviteModel, InviteError> {
    match whole(take_invite(b), b.len()) {
        Err(e) => Err(InviteError::Malformed(e)),
        Ok(v) => if v.version != INVITE_VERSION {
            Err(InviteError::UnsupportedVersion { found: v.version })
        } else if nowhere_to_connect(v.peers) {
            Err(InviteError::NoPeers)
        } else {
            Ok(v)
        },
    }
}

/// The base58 body of invite text: surrounding whitespace trimmed, the link
/// prefix dropped if there is one, then the code prefix, which must be there.
pub open spec fn invite_body(text: Seq<char>) -> Option<Seq<char>> {
    let t = trimmed(text);
    let t = if has_prefix(t, LINK_PREFIX@) { t.skip(LINK_PREFIX@.len() as int) } else { t };
    if has_prefix(t, INVITE_PREFIX@) {
        Some(t.skip(INVITE_PREFIX@.len() as int))
    } else {
        None
    }
}

/// The text of an invite.
pub open spec fn invite_text(v: InviteModel) -> Seq<char> {
    INVITE_PREFIX@ + bs58_text(enc_invite(v))
}

pub(crate) fn put_strings(out: &mut Vec<u8>, v: &Vec<String>)
    ensures
        final(out)@ == old(out)@ + enc_list(strings_view(v@), enc_str_fn()),
{
    let ghost before = out@;
    let ghost s = strings_view(v@);
    put_varint(out, v.len() as u64);
    let mut i: usize = 0;
    while i < v.len()
        invariant
            i <= v@.len(),
            s == strings_view(v@),
            out@ == before + varint(v@.len() as nat) + enc_seq(s.take(i as int), enc_str_fn()),
        decreases v@.len() - i,
    {
        proof {
            lemma_enc_seq_push(s, i as int, enc_str_fn());
        }
        put_str(out, v[i].as_str());
        i += 1;
        assert(out@ =~= before + varint(v@.len() as nat) + enc_seq(s.take(i as int), enc_str_fn()));
    }
    assert(s.take(v@.len() as int) =~= s);
    assert(out@ =~= before + enc_list(s, enc_str_fn()));
}

fn put_peers(out: &mut Vec<u8>, v: &Vec<InvitePeer>)
    ensures
        final(out)@ == old(out)@ + enc_list(peers_view(v@), enc_peer_fn()),
{
    let ghost before = out@;
    let ghost s = peers_view(v@);
    put_varint(out, v.len() as u64);
    let mut i: usize = 0;
    while i < v.len()
        invariant
            i <= v@.len(),
            s == peers_view(v@),
            out@ == before + varint(v@.len() as nat) + enc_seq(s.take(i as int), enc_peer_fn()),
        decreases v@.len() - i,
    {
        proof {
            lemma_enc_seq_push(s, i as int, enc_peer_fn());
        }
        let ghost mid = out@;
        put_str(out, v[i].peer_id.as_str());
        put_strings(out, &v[i].addrs);
        assert(out@ =~= mid + enc_peer(s[i as int]));
        i += 1;
        assert(out@ =~= before + varint(v@.len() as nat) + enc_seq(s.take(i as int), enc_peer_fn()));
    }
    assert(s.take(v@.len() as int) =~= s);
    assert(out@ =~= before + enc_list(s, enc_peer_fn()));
}

/// Reads a list of strings.
#[verifier::rlimit(60)]
pub(crate) fn read_strings(b: &[u8], pos: usize) -> (r: Result<(Vec<String>, usize), DecodeError>)
    requires
        pos <= b@.len(),
    ensures
        match r {
            Ok((v, p)) => take_list(b@.skip(pos as int), take_str_fn()) == Ok::<(Seq<Seq<char>>, nat), DecodeError>((strings_view(v@), (p - pos) as nat)) && pos < p <= b@.len(),
            Err(e) => take_list(b@.skip(pos as int), take_str_fn()) == Err::<(Seq<Seq<char>>, nat), DecodeError>(e),
        },
{
    let (k, p0) = match read_u64(b, pos) {
        Ok(v) => v,
        Err(e) => return Err(e),
    };
    let ghost dec = take_str_fn();
    let ghost whole_list = take_seq(b@.skip(p0 as int), k as nat, dec);
    assert(b@.skip(pos as int).skip((p0 - pos) as int) == b@.skip(p0 as int));
    let mut out: Vec<String> = Vec::new();
    let mut p = p0;
    let mut i: u64 = 0;
    assert(strings_view(out@) =~= Seq::<Seq<char>>::empty());
    while i < k
        invariant
            pos < p0 <= p <= b@.len(),
            i <= k,
            dec == take_str_fn(),
            whole_list == take_seq(b@.skip(p0 as int), k as nat, dec),
            take_list(b@.skip(pos as int), dec) == after(Seq::<Seq<char>>::empty(), (p0 - pos) as nat, whole_list),
            after(Seq::<Seq<char>>::empty(), (p0 - pos) as nat, whole_list) == after(
                strings_view(out@),
                (p - pos) as nat,
                take_seq(b@.skip(p as int), (k - i) as nat, dec),
            ),
        decreases k - i,
    {
        let ghost here = b@.skip(p as int);
        let ghost left = (k - i) as nat;
        match read_string(b, p) {
            Ok((s, q)) => {
                proof {
                    lemma_take_seq_step(here, left, dec, s@, (q - p) as nat);
                    assert(here.skip((q - p) as int) == b@.skip(q as int));
                }
                let ghost before = strings_view(out@);
                out.push(s);
                assert(strings_view(out@) =~= before.push(s@));
                p = q;
                i += 1;
            },
            Err(e) => {
                proof {
                    lemma_take_seq_fail(here, left, dec, e);
                }
                return Err(e);
            },
        }
    }
    assert(Seq::<Seq<char>>::empty() + strings_view(out@) =~= strings_view(out@));
    Ok((out, p))
}

/// Reads one peer.
fn read_peer(b: &[u8], pos: usize) -> (r: Result<(InvitePeer, usize), DecodeError>)
    requires
        pos <= b@.len(),
    ensures
        match r {
            Ok((v, p)) => take_peer(b@.skip(pos as int)) == Ok::<(InvitePeerModel, nat), DecodeError>((v@, (p - pos) as nat)) && pos < p <= b@.len(),
            Err(e) => take_peer(b@.skip(pos as int)) == Err::<(InvitePeerModel, nat), DecodeError>(e),
        },
{
    proof {
        reveal(take_peer);
    }
    let (peer_id, p) = match read_string(b, pos) {
        Ok(v) => v,
        Err(e) => return Err(e),
    };
    match read_strings(b, p) {
        Ok((addrs, q)) => Ok((InvitePeer { peer_id, addrs }, q)),
        Err(e) => Err(e),
    }
}

/// Reads a list of peers.
#[verifier::rlimit(60)]
fn read_peers(b: &[u8], pos: usize) -> (r: Result<(Vec<InvitePeer>, usize), DecodeError>)
    requires
        pos <= b@.len(),
    ensures
        match r {
            Ok((v, p)) => take_list(b@.skip(pos as int), take_peer_fn()) == Ok::<(Seq<InvitePeerModel>, nat), DecodeError>((peers_view(v@), (p - pos) as nat)) && pos < p <= b@.len(),
            Err(e) => take_list(b@.skip(pos as int), take_peer_fn()) == Err::<(Seq<InvitePeerModel>, nat), DecodeError>(e),
        },
{
    let (k, p0) = match read_u64(b, pos) {
        Ok(v) => v,
        Err(e) => return Err(e),
    };
    let ghost dec = take_peer_fn();
    let ghost whole_list = take_seq(b@.skip(p0 as int), k as nat, dec);
    assert(b@.skip(pos as int).skip((p0 - pos) as int) == b@.skip(p0 as int));
    let mut out: Vec<InvitePeer> = Vec::new();
    let mut p = p0;
    let mut i: u64 = 0;
    assert(peers_view(out@) =~= Seq::<InvitePeerModel>::empty());
    while i < k
        invariant
            pos < p0 <= p <= b@.len(),
            i <= k,
            dec == take_peer_fn(),
            whole_list == take_seq(b@.skip(p0 as int), k as nat, dec),
            take_list(b@.skip(pos as int), dec) == after(Seq::<InvitePeerModel>::empty(), (p0 - pos) as nat, whole_list),
            after(Seq::<InvitePeerModel>::empty(), (p0 - pos) as nat, whole_list) == after(
                peers_view(out@),
                (p - pos) as nat,
                take_seq(b@.skip(p as int), (k - i) as nat, dec),
            ),
        decreases k - i,
    {
        let ghost here = b@.skip(p as int);
        let ghost left = (k - i) as nat;
        match read_peer(b, p) {
            Ok((peer, q)) => {
                proof {
                    lemma_take_seq_step(here, left, dec, peer@, (q - p) as nat);
                    assert(here.skip((q - p) as int) == b@.skip(q as int));
                }
                let ghost before = peers_view(out@);
                let ghost pv = peer@;
                out.push(peer);
                assert(peers_view(out@) =~= before.push(pv));
                p = q;
                i += 1;
            },
            Err(e) => {
                proof {
                    lemma_take_seq_fail(here, left, dec, e);
                }
                return Err(e);
            },
        }
    }
    assert(Seq::<InvitePeerModel>::empty() + peers_view(out@) =~= peers_view(out@));
    Ok((out, p))
}

/// Reads an invite's fields from the start of `bytes`.
fn read_invite_fields(bytes: &[u8]) -> (r: Result<((u8, [u8; 32], String, Vec<InvitePeer>), usize), DecodeError>)
    ensures
        match r {
            Ok(((version, community, name, peers), p)) => take_invite(bytes@) == Ok::<(InviteModel, nat), DecodeError>(
                (InviteModel { version, community: community@, name: name@, peers: peers_view(peers@) }, p as nat),
            ) && p <= bytes@.len(),
            Err(e) => take_invite(bytes@) == Err::<(InviteModel, nat), DecodeError>(e),
        },
{
    proof {
        reveal(take_invite);
    }
    assert(bytes@.skip(0) =~= bytes@);
    let (version, p1) = match read_byte(bytes, 0) {
        Ok(v) => v,
        Err(e) => return Err(e),
    };
    let (community, p2) = match read_fixed32(bytes, p1) {
        Ok(v) => v,
        Err(e) => return Err(e),
    };
    let (name, p3) = match read_string(bytes, p2) {
        Ok(v) => v,
        Err(e) => return Err(e),
    };
    match read_peers(bytes, p3) {
        Ok((peers, p4)) => Ok(((version, community, name, peers), p4)),
        Err(e) => Err(e),
    }
}

impl Invite {
    pub fn new(community: CommunityId, name: String, peers: Vec<InvitePeer>) -> (i: Invite)
        ensures
            i@ == (InviteModel { version: INVITE_VERSION, community: community@, name: name@, peers: peers_view(peers@) }),
            i.community == community,
            i.name == name,
            i.peers == peers,
    {
        Invite { version: INVITE_VERSION, community, name, peers }
    }

    /// The genesis event this invite promises. Fetching it and finding a
    /// different hash means the invite or the peer is lying.
    pub fn expected_genesis(&self) -> (e: EventId)
        ensures
            e@ == self.community@,
    {
        EventId(self.community.0)
    }

    /// The canonical bytes of this invite.
    pub fn to_bytes(&self) -> (out: Vec<u8>)
        ensures
            out@ == enc_invite(self@),
    {
        let mut out: Vec<u8> = Vec::new();
        out.push(self.version);
        put_bytes(&mut out, self.community.as_bytes().as_slice());
        put_str(&mut out, self.name.as_str());
        put_peers(&mut out, &self.peers);
        assert(out@ =~= enc_invite(self@));
        out
    }

    /// Reads an invite from its canonical bytes, refusing versions this
    /// client does not understand and invites with nowhere to connect.
    pub fn from_bytes(bytes: &[u8]) -> (r: Result<Invite, InviteError>)
        ensures
            match r {
                Ok(i) => invite_from_bytes(bytes@) == Ok::<InviteModel, InviteError>(i@),
                Err(e) => invite_from_bytes(bytes@) == Err::<InviteModel, InviteError>(e),
            },
    {
        let ((version, community, name, peers), p4) = match read_invite_fields(bytes) {
            Ok(v) => v,
            Err(e) => return Err(InviteError::Malformed(CodecError::Decode(e))),
        };
        if p4 != bytes.len() {
            return Err(InviteError::Malformed(CodecError::TrailingBytes(bytes.len() - p4)));
        }
        if version != INVITE_VERSION {
            return Err(InviteError::UnsupportedVersion { found: version });
        }
        let mut any = false;
        let mut i: usize = 0;
        while i < peers.len()
            invariant
                i <= peers@.len(),
                any == exists|j: int| 0 <= j < i && (#[trigger] peers_view(peers@)[j]).addrs.len() > 0,
            decreases peers@.len() - i,
        {
            assert(peers_view(peers@)[i as int] == peers@[i as int]@);
            if peers[i].addrs.len() > 0 {
                any = true;
            }
            i += 1;
        }
        if !any {
            return Err(InviteError::NoPeers);
        }
        Ok(Invite { version, community: CommunityId(Hash32::from_bytes(community)), name, peers })
    }

    /// Encodes to a single pasteable token.
    ///
    /// base58 rather than base64: no `+`, `/` or `=` to get mangled by chat
    /// clients, and no characters that look alike when read aloud.
    pub fn encode(&self) -> (s: String)
        ensures
            s@ == invite_text(self@),
            forall|i: int| INVITE_PREFIX@.len() <= i < s@.len() ==> is_base58_char(#[trigger] s@[i]),
    {
        let bytes = self.to_bytes();
        let body = bs58_encode(bytes.as_slice());
        let mut s = INVITE_PREFIX.to_string();
        append_str(&mut s, body.as_str());
        proof {
            crate::proto::identity::lemma_bs58_text_in_alphabet(bytes@);
        }
        assert forall|i: int| INVITE_PREFIX@.len() <= i < s@.len() implies is_base58_char(#[trigger] s@[i]) by {
            assert(s@[i] == body@[i - INVITE_PREFIX@.len()]);
        }
        s
    }

    /// The same invite as a clickable link.
    pub fn to_link(&self) -> (s: String)
        ensures
            s@ == LINK_PREFIX@ + invite_text(self@),
    {
        let code = self.encode();
        let mut s = LINK_PREFIX.to_string();
        append_str(&mut s, code.as_str());
        s
    }

    /// Reads an invite from a code or a link.
    ///
    /// Both forms are accepted because both end up in front of people: a code
    /// pasted into a chat, and a `kahui://` link clicked in a browser.
    pub fn decode(text: &str) -> (r: Result<Invite, InviteError>)
        ensures
            invite_body(text@) is None <==> r == Err::<Invite, InviteError>(InviteError::MissingPrefix),
            forall|bytes: Seq<u8>|
                invite_body(text@) == Some(bs58_text(bytes)) ==> match r {
                    Ok(i) => invite_from_bytes(bytes) == Ok::<InviteModel, InviteError>(i@),
                    Err(e) => invite_from_bytes(bytes) == Err::<InviteModel, InviteError>(e),
                },
    {
        let t = trim_text(text);
        let t = match strip_prefix_text(t, LINK_PREFIX) {
            Some(rest) => rest,
            None => t,
        };
        let body = match strip_prefix_text(t, INVITE_PREFIX) {
            Some(rest) => rest,
            None => return Err(InviteError::MissingPrefix),
        };
        let bytes = match bs58_decode(body) {
            Ok(b) => b,
            Err(e) => return Err(InviteError::BadBase58(e)),
        };
        Invite::from_bytes(bytes.as_slice())
    }

    /// Whether anybody outside the minter's own network could use this.
    ///
    /// An invite is only as good as the addresses in it. A node behind a
    /// router with no relay has nothing but private and loopback addresses to
    /// offer, which work on its own network and nowhere else.
    pub fn reachable_beyond_lan(&self) -> (b: bool)
        ensures
            b == exists|i: int, j: int|
                0 <= i < self.peers@.len() && 0 <= j < self.peers@[i].addrs@.len() && addr_is_global_spec(
                    #[trigger] self.peers@[i].addrs@[j]@,
                ),
    {
        let mut i: usize = 0;
        while i < self.peers.len()
            invariant
                i <= self.peers@.len(),
                forall|a: int, j: int|
                    0 <= a < i && 0 <= j < self.peers@[a].addrs@.len() ==> !addr_is_global_spec(#[trigger] self.peers@[a].addrs@[j]@),
            decreases self.peers@.len() - i,
        {
            let peer = &self.peers[i];
            let mut j: usize = 0;
            while j < peer.addrs.len()
                invariant
                    i < self.peers@.len(),
                    *peer == self.peers@[i as int],
                    j <= peer.addrs@.len(),
                    forall|a: int, k: int|
                        0 <= a < i && 0 <= k < self.peers@[a].addrs@.len() ==> !addr_is_global_spec(#[trigger] self.peers@[a].addrs@[k]@),
                    forall|k: int| 0 <= k < j ==> !addr_is_global_spec(#[trigger] peer.addrs@[k]@),
                decreases peer.addrs@.len() - j,
            {
                if addr_is_global(peer.addrs[j].as_str()) {
                    return true;
                }
                j += 1;
            }
            i += 1;
        }
        false
    }

    /// Dialable multiaddresses, with the peer id appended so libp2p can
    /// verify it is talking to who it expected.
    pub fn dial_addresses(&self) -> (v: Vec<String>)
        ensures
            strings_view(v@) == dial_list(peers_view(self.peers@)),
    {
        let ghost ps = peers_view(self.peers@);
        let mut out: Vec<String> = Vec::new();
        let mut i: usize = 0;
        while i < self.peers.len()
            invariant
                i <= self.peers@.len(),
                ps == peers_view(self.peers@),
                strings_view(out@) == dial_list(ps.take(i as int)),
            decreases self.peers@.len() - i,
        {
            let peer = &self.peers[i];
            assert(ps[i as int] == peer@);
            assert(ps.take(i + 1).drop_last() =~= ps.take(i as int));
            let ghost base = strings_view(out@);
            let mut j: usize = 0;
            while j < peer.addrs.len()
                invariant
                    j <= peer.addrs@.len(),
                    strings_view(out@) == base + dial_peer(peer@.peer_id, strings_view(peer.addrs@).take(j as int)),
                decreases peer.addrs@.len() - j,
            {
                let mut s = peer.addrs[j].clone();
                append_str(&mut s, "/p2p/");
                append_str(&mut s, peer.peer_id.as_str());
                let ghost o0 = out@;
                out.push(s);
                assert(strings_view(peer.addrs@).take(j + 1).drop_last() =~= strings_view(peer.addrs@).take(j as int));
                assert(strings_view(out@) =~= strings_view(o0).push(s@));
                j += 1;
            }
            assert(strings_view(peer.addrs@).take(peer.addrs@.len() as int) =~= strings_view(peer.addrs@));
            i += 1;
        }
        assert(ps.take(self.peers@.len() as int) =~= ps);
        out
    }
}

/// Each address of one peer with its id appended.
pub open spec fn dial_peer(peer_id: Seq<char>, addrs: Seq<Seq<char>>) -> Seq<Seq<char>>
    decreases addrs.len(),
{
    if addrs.len() == 0 {
        seq![]
    } else {
        dial_peer(peer_id, addrs.drop_last()).push(addrs.last() + "/p2p/"@ + peer_id)
    }
}

/// Every peer's dialable addresses, peer by peer.
pub open spec fn dial_list(peers: Seq<InvitePeerModel>) -> Seq<Seq<char>>
    decreases peers.len(),
{
    if peers.len() == 0 {
        seq![]
    } else {
        dial_list(peers.drop_last()) + dial_peer(peers.last().peer_id, peers.last().addrs)
    }
}

// -- what an invite promises ----------------------------------------------------------

/// Text short enough for its length to be written as a `u64`.
pub open spec fn fits(c: Seq<char>) -> bool {
    encode_utf8(c).len() < 0x1_0000_0000_0000_0000
}

/// An invite that can be written down: a 32-byte id, and text and lists
/// whose lengths fit.
pub open spec fn invite_wf(v: InviteModel) -> bool {
    &&& v.community.len() == 32
    &&& fits(v.name)
    &&& v.peers.len() < 0x1_0000_0000_0000_0000
    &&& forall|i: int| 0 <= i < v.peers.len() ==> peer_wf(#[trigger] v.peers[i])
}

pub open spec fn peer_wf(p: InvitePeerModel) -> bool {
    &&& fits(p.peer_id)
    &&& p.addrs.len() < 0x1_0000_0000_0000_0000
    &&& forall|j: int| 0 <= j < p.addrs.len() ==> fits(#[trigger] p.addrs[j])
}

proof fn lemma_peer_roundtrip(p: InvitePeerModel, rest: Seq<u8>)
    requires
        peer_wf(p),
    ensures
        take_peer(enc_peer(p) + rest) == Ok::<(InvitePeerModel, nat), DecodeError>((p, enc_peer(p).len())),
{
    reveal(take_peer);
    let tail = enc_list(p.addrs, enc_str_fn()) + rest;
    assert(enc_peer(p) + rest =~= enc_str(p.peer_id) + tail);
    lemma_str_roundtrip(p.peer_id, tail);
    assert((enc_str(p.peer_id) + tail).skip(enc_str(p.peer_id).len() as int) =~= tail);
    let wf = |c: Seq<char>| fits(c);
    assert forall|x: Seq<char>, r: Seq<u8>| wf(x) implies #[trigger] take_str_fn()(enc_str_fn()(x) + r)
        == Ok::<(Seq<char>, nat), DecodeError>((x, enc_str_fn()(x).len())) by {
        lemma_str_roundtrip(x, r);
    }
    lemma_list_roundtrip(p.addrs, rest, enc_str_fn(), take_str_fn(), wf);
}

proof fn lemma_invite_bytes_roundtrip(v: InviteModel)
    requires
        invite_wf(v),
    ensures
        take_invite(enc_invite(v)) == Ok::<(InviteModel, nat), DecodeError>((v, enc_invite(v).len())),
{
    reveal(take_invite);
    let b = enc_invite(v);
    let s4 = enc_list(v.peers, enc_peer_fn());
    let s3 = enc_str(v.name) + s4;
    let s2 = enc_bytes(v.community) + s3;
    assert(b =~= seq![v.version] + s2);
    assert(b.skip(1) =~= s2);
    lemma_fixed_roundtrip(v.community, s3, 32);
    assert(b.skip((1 + enc_bytes(v.community).len()) as int) =~= s3);
    lemma_str_roundtrip(v.name, s4);
    assert(b.skip((1 + enc_bytes(v.community).len() + enc_str(v.name).len()) as int) =~= s4);
    let wf = |p: InvitePeerModel| peer_wf(p);
    assert forall|x: InvitePeerModel, r: Seq<u8>| wf(x) implies #[trigger] take_peer_fn()(enc_peer_fn()(x) + r)
        == Ok::<(InvitePeerModel, nat), DecodeError>((x, enc_peer_fn()(x).len())) by {
        lemma_peer_roundtrip(x, r);
    }
    assert(s4 =~= s4 + Seq::<u8>::empty());
    lemma_list_roundtrip(v.peers, Seq::<u8>::empty(), enc_peer_fn(), take_peer_fn(), wf);
}

/// Text that starts with a non-space and ends with a non-space is already
/// trimmed.
proof fn lemma_trimmed_when_bare(t: Seq<char>)
    requires
        t.len() > 0,
        !is_space(t[0]),
        !is_space(t.last()),
    ensures
        trimmed(t) == t,
{
    assert(trim_front(t) == t);
    assert(trim_back(t) == t);
}

/// An invite's text, and the same text as a link, both read back as the
/// invite: what `encode` writes, `decode` reads, for every invite that names
/// somewhere to connect.
pub proof fn law_invite_roundtrip(v: InviteModel, text: Seq<char>)
    requires
        invite_wf(v),
        v.version == INVITE_VERSION,
        !nowhere_to_connect(v.peers),
        text == invite_text(v),
    ensures
        invite_body(text) == Some(bs58_text(enc_invite(v))),
        invite_body(LINK_PREFIX@ + text) == Some(bs58_text(enc_invite(v))),
        invite_from_bytes(enc_invite(v)) == Ok::<InviteModel, InviteError>(v),
{
    reveal_strlit("kahui1");
    reveal_strlit("kahui://join/");
    let body = bs58_text(enc_invite(v));
    lemma_invite_bytes_roundtrip(v);
    crate::proto::identity::lemma_bs58_text_in_alphabet(enc_invite(v));
    assert forall|i: int| INVITE_PREFIX@.len() <= i < text.len() implies is_base58_char(#[trigger] text[i]) by {
        assert(text[i] == body[i - INVITE_PREFIX@.len()]);
    }
    // The code form.
    assert(text[0] == 'k');
    let last = text.len() - 1;
    if last >= 6 {
        assert(is_base58_char(text[last]));
    } else {
        assert(text[last] == '1');
    }
    lemma_trimmed_when_bare(text);
    assert(text.subrange(0, 6) =~= INVITE_PREFIX@);
    assert(!has_prefix(text, LINK_PREFIX@)) by {
        if text.len() >= 13 {
            assert(text.subrange(0, 13)[5] == text[5]);
            assert(text[5] == '1');
        }
    }
    assert(text.skip(6) =~= body);
    // The link form.
    let link = LINK_PREFIX@ + text;
    assert(link[0] == 'k');
    assert(link.last() == text.last());
    lemma_trimmed_when_bare(link);
    assert(link.subrange(0, 13) =~= LINK_PREFIX@);
    assert(link.skip(13) =~= text);
}

/// Whitespace around an invite's text or link changes nothing: the body
/// read from it is the same, so it decodes to the same invite.
pub proof fn law_invite_survives_whitespace(v: InviteModel, lead: Seq<char>, trail: Seq<char>)
    requires
        invite_wf(v),
        v.version == INVITE_VERSION,
        !nowhere_to_connect(v.peers),
        forall|i: int| 0 <= i < lead.len() ==> is_space(#[trigger] lead[i]),
        forall|i: int| 0 <= i < trail.len() ==> is_space(#[trigger] trail[i]),
    ensures
        invite_body(lead + invite_text(v) + trail) == Some(bs58_text(enc_invite(v))),
        invite_body(lead + (LINK_PREFIX@ + invite_text(v)) + trail) == Some(bs58_text(enc_invite(v))),
{
    let text = invite_text(v);
    law_invite_roundtrip(v, text);
    reveal_strlit("kahui1");
    reveal_strlit("kahui://join/");
    crate::proto::identity::lemma_bs58_text_in_alphabet(enc_invite(v));
    let body = bs58_text(enc_invite(v));
    assert(text[0] == 'k');
    let last = text.len() - 1;
    if last >= 6 {
        assert(text[last] == body[last - 6]);
        assert(is_base58_char(text[last]));
    } else {
        assert(text[last] == '1');
    }
    crate::text::lemma_trimmed_ignores_spaces(lead, text, trail);
    lemma_trimmed_when_bare(text);
    let link = LINK_PREFIX@ + text;
    assert(link[0] == 'k');
    assert(link.last() == text.last());
    crate::text::lemma_trimmed_ignores_spaces(lead, link, trail);
    lemma_trimmed_when_bare(link);
}

} // verus!
