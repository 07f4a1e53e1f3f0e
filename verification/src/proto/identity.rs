//! Member identity: a single Ed25519 keypair.
//!
//! One keypair does two jobs. Its public half is the [`UserId`] that signs
//! events, and the same 32 secret bytes seed the transport keypair. There is
//! no account and no server to ask: an identity is created offline and is
//! valid the moment it exists.

use ed25519_dalek::{Signer, Verifier};
use rand::RngCore;
use vstd::prelude::*;

use crate::proto::ids::UserId;
use crate::text::{has_prefix, is_space, push_char, strip_prefix_text, trim_text, trimmed};

verus! {

/// Length of a raw Ed25519 secret seed.
pub const SECRET_LEN: usize = 32;
/// Length of a raw Ed25519 signature.
pub const SIGNATURE_LEN: usize = 64;

/// A signature over an event preimage.
pub type SignatureBytes = [u8; 64];

/// The Ed25519 public key that belongs to a 32-byte secret seed.
pub uninterp spec fn ed25519_public(secret: Seq<u8>) -> Seq<u8>;

/// The Ed25519 signature a secret seed makes over a message. Ed25519
/// signing is deterministic, so this is a function of the two.
pub uninterp spec fn ed25519_signature(secret: Seq<u8>, message: Seq<u8>) -> Seq<u8>;

/// Whether a signature over a message checks out against a public key.
pub uninterp spec fn ed25519_accepts(public: Seq<u8>, message: Seq<u8>, signature: Seq<u8>) -> bool;

/// Calls `SigningKey::from_bytes(..).verifying_key().to_bytes()`: the
/// public key of a seed, which the contract names and does not describe.
#[verifier::external_body]
fn ed25519_public_key(secret: &[u8; 32]) -> (public: [u8; 32])
    ensures
        public@ == ed25519_public(secret@),
{
    ed25519_dalek::SigningKey::from_bytes(secret).verifying_key().to_bytes()
}

/// Calls `Signer::sign` on the `SigningKey` of a seed. The signature is
/// named, not described.
#[verifier::external_body]
fn ed25519_sign(secret: &[u8; 32], message: &[u8]) -> (signature: [u8; 64])
    ensures
        signature@ == ed25519_signature(secret@, message@),
{
    ed25519_dalek::SigningKey::from_bytes(secret).sign(message).to_bytes()
}

/// Calls `VerifyingKey::from_bytes` and then `Verifier::verify`. A key that
/// is not a curve point verifies nothing. The one fact stated beyond the
/// name is Ed25519's correctness: a signature that a seed made over a
/// message verifies against that seed's public key.
#[verifier::external_body]
fn ed25519_verify(public: &[u8; 32], message: &[u8], signature: &[u8; 64]) -> (ok: bool)
    ensures
        ok == ed25519_accepts(public@, message@, signature@),
        forall|secret: Seq<u8>|
            secret.len() == 32 && public@ == ed25519_public(secret) && signature@ == ed25519_signature(
                secret,
                message@,
            ) ==> ok,
{
    match ed25519_dalek::VerifyingKey::from_bytes(public) {
        Ok(key) => key.verify(message, &ed25519_dalek::Signature::from_bytes(signature)).is_ok(),
        Err(_) => false,
    }
}

/// Fills a seed from the operating system's random number generator. The
/// bytes are random, so the contract says nothing about them.
#[verifier::external_body]
fn random_seed() -> (seed: [u8; 32]) {
    let mut seed = [0u8; 32];
    rand::rngs::OsRng.fill_bytes(&mut seed);
    seed
}

/// Digit `d` (below 58) of the Bitcoin base58 alphabet
/// `123456789ABCDEFGHJKLMNPQRSTUVWXYZabcdefghijkmnopqrstuvwxyz`.
pub open spec fn base58_digit(d: int) -> char {
    let code = if d < 9 {
        49 + d
    } else if d < 17 {
        65 + (d - 9)
    } else if d < 22 {
        74 + (d - 17)
    } else if d < 33 {
        80 + (d - 22)
    } else if d < 44 {
        97 + (d - 33)
    } else {
        109 + (d - 44)
    };
    code as char
}

/// The bytes read as one big-endian number.
pub open spec fn big_endian(bytes: Seq<u8>) -> nat
    decreases bytes.len(),
{
    if bytes.len() == 0 {
        0
    } else {
        big_endian(bytes.drop_last()) * 256 + bytes.last() as nat
    }
}

/// A number's base58 digits, most significant first, with no leading zero
/// digit (and none at all for zero).
pub open spec fn base58_digits(n: nat) -> Seq<char>
    decreases n,
{
    if n == 0 {
        seq![]
    } else {
        base58_digits(n / 58).push(base58_digit((n % 58) as int))
    }
}

/// How many zero bytes the bytes start with.
pub open spec fn leading_zeros(bytes: Seq<u8>) -> nat
    decreases bytes.len(),
{
    if bytes.len() > 0 && bytes[0] == 0 {
        1 + leading_zeros(bytes.skip(1))
    } else {
        0
    }
}

/// The base58 text (Bitcoin alphabet) of some bytes: a `1` for each leading
/// zero byte, then the digits of the big-endian number the bytes spell.
#[verifier::opaque]
pub open spec fn bs58_text(bytes: Seq<u8>) -> Seq<char> {
    Seq::new(leading_zeros(bytes), |i: int| '1') + base58_digits(big_endian(bytes))
}

/// The Bitcoin base58 alphabet: digits 1-9, letters without `I`, `O`, `l`.
pub open spec fn is_base58_char(c: char) -> bool {
    ||| '1' <= c <= '9'
    ||| ('A' <= c <= 'Z' && c != 'I' && c != 'O')
    ||| ('a' <= c <= 'z' && c != 'l')
}

/// Every digit is a character of the alphabet.
proof fn lemma_digit_in_alphabet(d: int)
    requires
        0 <= d < 58,
    ensures
        is_base58_char(base58_digit(d)),
{
}

/// A number's digits are all characters of the alphabet.
proof fn lemma_digits_in_alphabet(n: nat)
    ensures
        forall|i: int| 0 <= i < base58_digits(n).len() ==> is_base58_char(#[trigger] base58_digits(n)[i]),
    decreases n,
{
    if n > 0 {
        lemma_digits_in_alphabet(n / 58);
        lemma_digit_in_alphabet((n % 58) as int);
        let s = base58_digits(n);
        assert forall|i: int| 0 <= i < s.len() implies is_base58_char(#[trigger] s[i]) by {
            if i < s.len() - 1 {
                assert(s[i] == base58_digits(n / 58)[i]);
            }
        }
    }
}

/// Base58 text uses only the base58 alphabet.
pub proof fn lemma_bs58_text_in_alphabet(bytes: Seq<u8>)
    ensures
        forall|i: int| 0 <= i < bs58_text(bytes).len() ==> is_base58_char(#[trigger] bs58_text(bytes)[i]),
{
    reveal(bs58_text);
    let ones = Seq::new(leading_zeros(bytes), |i: int| '1');
    let digits = base58_digits(big_endian(bytes));
    lemma_digits_in_alphabet(big_endian(bytes));
    assert forall|i: int| 0 <= i < bs58_text(bytes).len() implies is_base58_char(#[trigger] bs58_text(bytes)[i]) by {
        if i < ones.len() {
            assert(bs58_text(bytes)[i] == ones[i]);
        } else {
            assert(bs58_text(bytes)[i] == digits[i - ones.len()]);
        }
    }
}

/// Calls `bs58::encode(..).into_string()`: the base58 text of the bytes.
#[verifier::external_body]
pub(crate) fn bs58_encode(bytes: &[u8]) -> (text: String)
    ensures
        text@ == bs58_text(bytes@),
{
    bs58::encode(bytes).into_string()
}

/// Why text is not base58.
#[derive(Clone, Copy, Debug, PartialEq, Eq, Structural)]
pub enum Base58Error {
    BufferTooSmall,
    /// A character outside the alphabet, and its byte index.
    InvalidCharacter { character: char, index: usize },
    /// A multi-byte character, and its byte index.
    NonAsciiCharacter { index: usize },
    Other,
}

/// Calls `bs58::decode(..).into_vec()`. What is stated is that it undoes
/// `bs58_encode`: the text of some bytes decodes to those bytes. Which
/// error other text gets, and what text not made by the encoder decodes
/// to, is left unsaid.
#[verifier::external_body]
pub(crate) fn bs58_decode(text: &str) -> (r: Result<Vec<u8>, Base58Error>)
    ensures
        forall|bytes: Seq<u8>| text@ == bs58_text(bytes) ==> r is Ok && r->Ok_0@ == bytes,
{
    match bs58::decode(text).into_vec() {
        Ok(v) => Ok(v),
        Err(bs58::decode::Error::BufferTooSmall) => Err(Base58Error::BufferTooSmall),
        Err(bs58::decode::Error::InvalidCharacter { character, index }) => Err(
            Base58Error::InvalidCharacter { character, index },
        ),
        Err(bs58::decode::Error::NonAsciiCharacter { index }) => Err(
            Base58Error::NonAsciiCharacter { index },
        ),
        Err(_) => Err(Base58Error::Other),
    }
}

/// Prefix on a backed-up key, so it is recognisable and hard to confuse
/// with an invite.
pub const KEY_PREFIX: &'static str = "kahuikey1";

/// The characters of [`KEY_PREFIX`].
pub open spec fn key_prefix() -> Seq<char> {
    seq!['k', 'a', 'h', 'u', 'i', 'k', 'e', 'y', '1']
}

#[derive(Clone, Copy, Debug, PartialEq, Eq, Structural)]
pub enum IdentityError {
    /// A secret key must be 32 bytes; this one was this long.
    BadSecretLength(usize),
    BadPublicKey,
    /// The text does not start with `kahuikey1`.
    NotAKey,
    BadBase58(Base58Error),
}

/// A keypair capable of authoring events, held as its 32-byte seed.
///
/// Cloneable so the node can hand copies to background tasks; the secret
/// never leaves the process, and it is deliberately not `Debug`.
#[derive(Clone, Copy)]
pub struct Identity {
    secret: [u8; 32],
}

impl View for Identity {
    type V = Seq<u8>;

    /// The secret seed.
    closed spec fn view(&self) -> Seq<u8> {
        self.secret@
    }
}

/// The user id of the member whose secret seed is `secret`.
pub open spec fn user_of(secret: Seq<u8>) -> Seq<u8> {
    ed25519_public(secret)
}

/// The backup phrase for a secret seed.
pub open spec fn backup_phrase_of(secret: Seq<u8>) -> Seq<char> {
    key_prefix() + bs58_text(secret)
}

impl Identity {
    /// Creates a brand new identity from the operating system CSPRNG.
    pub fn generate() -> (id: Identity)
        ensures
            id@.len() == 32,
    {
        Identity { secret: random_seed() }
    }

    /// Restores an identity from its 32 secret bytes.
    pub fn from_secret(seed: &[u8]) -> (r: Result<Identity, IdentityError>)
        ensures
            r is Ok <==> seed@.len() == 32,
            r matches Ok(id) ==> id@ == seed@,
            r matches Err(e) ==> e == IdentityError::BadSecretLength(seed@.len() as usize),
    {
        if seed.len() != 32 {
            return Err(IdentityError::BadSecretLength(seed.len()));
        }
        let mut secret = [0u8; 32];
        let mut i: usize = 0;
        while i < 32
            invariant
                i <= 32,
                seed@.len() == 32,
                forall|j: int| 0 <= j < i ==> secret@[j] == seed@[j],
            decreases 32 - i,
        {
            secret[i] = seed[i];
            i += 1;
        }
        assert(secret@ =~= seed@);
        Ok(Identity { secret })
    }

    /// The 32 secret bytes. Only ever written to the node's own store.
    pub fn secret_bytes(&self) -> (b: [u8; 32])
        ensures
            b@ == self@,
            self@.len() == 32,
    {
        self.secret
    }

    /// This identity's public id.
    /// Every identity's secret seed is 32 bytes.
    pub proof fn lemma_seed_is_32_bytes(id: Identity)
        ensures
            id@.len() == 32,
    {
        assert(id.secret@.len() == 32);
    }

    pub fn user_id(&self) -> (u: UserId)
        ensures
            u@ == user_of(self@),
    {
        UserId::from_bytes(ed25519_public_key(&self.secret))
    }

    pub fn sign(&self, message: &[u8]) -> (sig: SignatureBytes)
        ensures
            sig@ == ed25519_signature(self@, message@),
    {
        ed25519_sign(&self.secret, message)
    }

    /// The identity as a single line of text, for writing down.
    ///
    /// This is the identity, not a hint about where to find it: whoever
    /// holds it can post as you, in every community you belong to.
    pub fn to_backup_phrase(&self) -> (phrase: String)
        ensures
            phrase@ == backup_phrase_of(self@),
            forall|i: int| key_prefix().len() <= i < phrase@.len() ==> is_base58_char(#[trigger] phrase@[i]),
    {
        let mut out = String::new();
        push_char(&mut out, 'k');
        push_char(&mut out, 'a');
        push_char(&mut out, 'h');
        push_char(&mut out, 'u');
        push_char(&mut out, 'i');
        push_char(&mut out, 'k');
        push_char(&mut out, 'e');
        push_char(&mut out, 'y');
        push_char(&mut out, '1');
        assert(out@ =~= key_prefix());
        let body = bs58_encode(self.secret.as_slice());
        out.append(body.as_str());
        proof {
            lemma_bs58_text_in_alphabet(self.secret@);
            assert forall|i: int| key_prefix().len() <= i < out@.len() implies is_base58_char(#[trigger] out@[i]) by {
                assert(out@[i] == body@[i - key_prefix().len()]);
            }
        }
        out
    }

    /// Restores an identity from [`Identity::to_backup_phrase`], ignoring
    /// surrounding whitespace.
    pub fn from_backup_phrase(text: &str) -> (r: Result<Identity, IdentityError>)
        ensures
            !has_prefix(trimmed(text@), key_prefix()) ==> r == Err::<Identity, IdentityError>(
                IdentityError::NotAKey,
            ),
            forall|secret: Seq<u8>|
                secret.len() == 32 && trimmed(text@) == #[trigger] backup_phrase_of(secret) ==> (r matches Ok(id)
                    && id@ == secret),
    {
        let trimmed_text = trim_text(text);
        let prefix = KEY_PREFIX;
        proof {
            reveal_strlit("kahuikey1");
            assert(prefix@ =~= key_prefix());
            assert forall|secret: Seq<u8>|
                trimmed(text@) == #[trigger] backup_phrase_of(secret) implies has_prefix(trimmed(text@), prefix@) by {
                assert((key_prefix() + bs58_text(secret)).subrange(0, 9) =~= key_prefix());
            }
        }
        let body = match strip_prefix_text(trimmed_text, prefix) {
            Some(body) => body,
            None => return Err(IdentityError::NotAKey),
        };
        proof {
            assert forall|secret: Seq<u8>|
                trimmed(text@) == #[trigger] backup_phrase_of(secret) implies body@ == bs58_text(secret) by {
                assert(trimmed(text@).skip(9) =~= bs58_text(secret));
            }
        }
        let bytes = match bs58_decode(body) {
            Ok(bytes) => bytes,
            Err(e) => return Err(IdentityError::BadBase58(e)),
        };
        Identity::from_secret(bytes.as_slice())
    }
}

/// Checks `signature` over `message` against `author`.
///
/// Returns `false` rather than erroring for a malformed public key, because
/// a peer sending garbage is an untrusted-input case, not a programming
/// error.
pub fn verify(author: &UserId, message: &[u8], signature: &SignatureBytes) -> (ok: bool)
    ensures
        ok == ed25519_accepts(author@, message@, signature@),
        forall|secret: Seq<u8>|
            secret.len() == 32 && author@ == user_of(secret) && signature@ == ed25519_signature(secret, message@)
                ==> ok,
{
    ed25519_verify(author.as_bytes(), message, signature)
}

/// A phrase made by `to_backup_phrase` has no whitespace at either end, so
/// trimming leaves it alone.
pub proof fn lemma_phrase_is_trimmed(phrase: Seq<char>)
    requires
        has_prefix(phrase, key_prefix()),
        forall|i: int| key_prefix().len() <= i < phrase.len() ==> is_base58_char(#[trigger] phrase[i]),
    ensures
        trimmed(phrase) == phrase,
{
    assert(phrase[0] == 'k') by {
        assert(phrase.subrange(0, 9)[0] == phrase[0]);
    }
    assert(crate::text::trim_front(phrase) == phrase);
    let last = phrase.len() - 1;
    if last >= 9 {
        assert(is_base58_char(phrase[last]));
    } else {
        assert(phrase.subrange(0, 9)[last] == phrase[last]);
    }
    assert(!is_space(phrase.last()));
    assert(crate::text::trim_back(phrase) == phrase);
}

/// Law: a backup phrase restores the identity it was made from, including
/// when it is pasted with whitespace around it.
pub proof fn law_backup_phrase_restores(secret: Seq<u8>, phrase: Seq<char>)
    requires
        secret.len() == 32,
        phrase == backup_phrase_of(secret),
        forall|i: int| key_prefix().len() <= i < phrase.len() ==> is_base58_char(#[trigger] phrase[i]),
    ensures
        trimmed(phrase) == backup_phrase_of(secret),
{
    assert(phrase.subrange(0, 9) =~= key_prefix());
    lemma_phrase_is_trimmed(phrase);
}

} // verus!
