//! Bridging member identities and network identities.
//!
//! A member has exactly one keypair. Its public half is their user id in the
//! event log and, in libp2p's encoding, their peer id on the network: one
//! key, two views. So membership is a routing table: a node that holds a
//! community's events can work out the peer id of every member from their
//! events alone.

use vstd::prelude::*;

use crate::proto::identity::bs58_text;
use crate::proto::ids::UserId;

verus! {

/// The peer id bytes libp2p derives from a 32-byte Ed25519 public key, or
/// `None` when the bytes are not a point on the curve.
pub uninterp spec fn peer_of_user(user: Seq<u8>) -> Option<Seq<u8>>;

/// Whether libp2p reads some bytes as a peer id.
pub uninterp spec fn is_peer_id(bytes: Seq<u8>) -> bool;

/// The bytes in front of the key in a peer id made from an Ed25519 key:
/// an identity multihash (code 0, length 36) of the key's protobuf form
/// (key type 1, then 32 bytes of data).
pub open spec fn ed25519_peer_prefix() -> Seq<u8> {
    seq![0x00u8, 0x24, 0x08, 0x01, 0x12, 0x20]
}

/// The libp2p peer id of a member, in its binary form.
///
/// Calls `ed25519::PublicKey::try_from_bytes` and
/// `PeerId::from_public_key`. Whether the key decodes (is a point on the
/// curve) is named, not stated; when it does, libp2p's source inlines the
/// 36-byte protobuf form of the key as an identity multihash, so the peer id
/// is a fixed prefix and then the key. Roughly half of all 32-byte strings
/// decode, so a peer id says nothing about whether anybody holds the
/// matching secret; that is what signatures are for.
#[verifier::external_body]
pub fn peer_id_of(user: &UserId) -> (r: Option<Vec<u8>>)
    ensures
        match r {
            None => peer_of_user(user@) is None,
            Some(b) => peer_of_user(user@) == Some(b@) && b@ == ed25519_peer_prefix() + user@,
        },
{
    let key = libp2p::identity::ed25519::PublicKey::try_from_bytes(user.as_bytes()).ok()?;
    Some(libp2p::PeerId::from_public_key(&libp2p::identity::PublicKey::from(key)).to_bytes())
}

/// A peer id's text form, if the bytes are one.
///
/// Calls `PeerId::from_bytes` and then `to_string`, which in libp2p's
/// source is `bs58::encode` of the same bytes. Which byte strings parse is
/// named, not stated.
#[verifier::external_body]
pub fn peer_id_text(bytes: &[u8]) -> (r: Option<String>)
    ensures
        r is Some <==> is_peer_id(bytes@),
        r matches Some(t) ==> t@ == bs58_text(bytes@),
{
    libp2p::PeerId::from_bytes(bytes).ok().map(|p| p.to_string())
}

} // verus!
