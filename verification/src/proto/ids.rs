//! Fixed-width 32-byte identifiers used throughout the protocol.
//!
//! Every identifier is 32 bytes. A [`UserId`] is a raw Ed25519 public key;
//! every other id is a BLAKE3-256 digest.

use vstd::prelude::*;

use vstd::utf8::encode_utf8;

use crate::text::{lowercase_of, lowercase_text, push_char, trim_text, trimmed};

verus! {

/// The BLAKE3-256 digest of a byte string.
pub uninterp spec fn blake3_of(data: Seq<u8>) -> Seq<u8>;

/// Calls `blake3::hash`. The contract names the digest and claims nothing
/// else about it: the result is the 32-byte BLAKE3 hash of exactly `data`.
#[verifier::external_body]
pub(crate) fn blake3_hash(data: &[u8]) -> (out: [u8; 32])
    ensures
        out@ == blake3_of(data@),
{
    *blake3::hash(data).as_bytes()
}

/// A raw 32-byte value. The building block for every id type.
#[derive(Clone, Copy, Eq, Hash, PartialOrd, Ord, Default, Debug)]
pub struct Hash32([u8; 32]);

impl View for Hash32 {
    type V = Seq<u8>;

    closed spec fn view(&self) -> Seq<u8> {
        self.0@
    }
}

fn bytes_equal(a: &[u8; 32], b: &[u8; 32]) -> (r: bool)
    ensures
        r == (a@ == b@),
{
    let mut i: usize = 0;
    while i < 32
        invariant
            i <= 32,
            forall|j: int| 0 <= j < i ==> a@[j] == b@[j],
        decreases 32 - i,
    {
        if a[i] != b[i] {
            return false;
        }
        i += 1;
    }
    assert(a@ =~= b@);
    true
}

impl PartialEq for Hash32 {
    fn eq(&self, other: &Hash32) -> (r: bool) {
        bytes_equal(&self.0, &other.0)
    }
}

impl vstd::std_specs::cmp::PartialEqSpecImpl for Hash32 {
    open spec fn obeys_eq_spec() -> bool {
        true
    }

    open spec fn eq_spec(&self, other: &Hash32) -> bool {
        self@ == other@
    }
}

impl Hash32 {
    pub fn zero() -> (h: Hash32)
        ensures
            h@ == zero_bytes(),
    {
        let h = Hash32([0u8; 32]);
        assert(h@ =~= zero_bytes());
        h
    }

    pub fn from_bytes(bytes: [u8; 32]) -> (h: Hash32)
        ensures
            h@ == bytes@,
    {
        Hash32(bytes)
    }

    pub fn as_bytes(&self) -> (b: &[u8; 32])
        ensures
            b@ == self@,
    {
        &self.0
    }

    pub fn to_bytes(self) -> (b: [u8; 32])
        ensures
            b@ == self@,
    {
        self.0
    }

    pub fn is_zero(&self) -> (z: bool)
        ensures
            z == (self@ == zero_bytes()),
    {
        let mut i: usize = 0;
        while i < 32
            invariant
                i <= 32,
                forall|j: int| 0 <= j < i ==> self.0@[j] == 0,
            decreases 32 - i,
        {
            if self.0[i] != 0 {
                return false;
            }
            i += 1;
        }
        assert(self@ =~= zero_bytes());
        true
    }

    /// BLAKE3-256 of `data`.
    pub fn digest(data: &[u8]) -> (h: Hash32)
        ensures
            h@ == blake3_of(data@),
    {
        Hash32(blake3_hash(data))
    }

    /// Lowercase hex, two digits per byte.
    pub fn to_hex(self) -> (s: String)
        ensures
            s@ == hex_encode(self@),
    {
        hex_of(self.0.as_slice(), 32)
    }

    /// The first eight hex digits. Enough to eyeball, never used for
    /// equality.
    pub fn short(&self) -> (s: String)
        ensures
            s@ == hex_encode(self@.subrange(0, 4)),
    {
        hex_of(self.0.as_slice(), 4)
    }

    /// Parses 64 hex digits, after trimming surrounding whitespace.
    pub fn from_hex(s: &str) -> (r: Result<Hash32, IdError>)
        ensures
            result_matches(r, spec_from_hex(s@)),
    {
        let s = trim_text(s);
        let bytes = s.as_bytes();
        let len = bytes.len();
        if len != 64 {
            return Err(IdError::BadLength(len));
        }
        match decode_hex32(bytes) {
            Ok(out) => Ok(Hash32(out)),
            Err(e) => Err(IdError::BadHex(e)),
        }
    }

    pub fn try_from_slice(bytes: &[u8]) -> (r: Option<Hash32>)
        ensures
            r is Some <==> bytes@.len() == 32,
            r matches Some(h) ==> h@ == bytes@,
    {
        if bytes.len() != 32 {
            return None;
        }
        let mut out = [0u8; 32];
        let mut i: usize = 0;
        while i < 32
            invariant
                i <= 32,
                bytes@.len() == 32,
                forall|j: int| 0 <= j < i ==> out@[j] == bytes@[j],
            decreases 32 - i,
        {
            out[i] = bytes[i];
            i += 1;
        }
        assert(out@ =~= bytes@);
        Some(Hash32(out))
    }
}

/// Every `Hash32` holds exactly 32 bytes.
pub broadcast proof fn lemma_hash32_len(h: Hash32)
    ensures
        #[trigger] h@.len() == 32,
{
}

/// Thirty-two zero bytes.
pub open spec fn zero_bytes() -> Seq<u8> {
    Seq::new(32, |i: int| 0u8)
}

/// The lowercase hex digit for a nibble.
pub open spec fn hex_digit(n: int) -> char {
    if n < 10 {
        (48 + n) as char
    } else {
        (87 + n) as char
    }
}

/// Lowercase hex, two digits per byte, high nibble first.
pub open spec fn hex_encode(b: Seq<u8>) -> Seq<char> {
    Seq::new(
        2 * b.len(),
        |i: int|
            if i % 2 == 0 {
                hex_digit(b[i / 2] as int / 16)
            } else {
                hex_digit(b[i / 2] as int % 16)
            },
    )
}

/// The value of one hex digit, upper or lower case.
pub open spec fn hex_value(c: u8) -> Option<u8> {
    if 48 <= c <= 57 {
        Some((c - 48) as u8)
    } else if 97 <= c <= 102 {
        Some((c - 87) as u8)
    } else if 65 <= c <= 70 {
        Some((c - 55) as u8)
    } else {
        None
    }
}

/// Why text is not hex.
#[derive(Clone, Copy, Debug, PartialEq, Eq, Structural)]
pub enum HexError {
    /// A character that is not a hex digit, as the byte it was, and where.
    InvalidHexCharacter { c: char, index: usize },
    OddLength,
    InvalidStringLength,
}

/// Error returned when parsing an identifier from text.
#[derive(Clone, Copy, Debug, PartialEq, Eq, Structural)]
pub enum IdError {
    /// The trimmed text is this many bytes long, not 64.
    BadLength(usize),
    BadHex(HexError),
}

/// True when every byte in `b` is a hex digit.
pub open spec fn all_hex(b: Seq<u8>) -> bool {
    forall|i: int| 0 <= i < b.len() ==> (#[trigger] hex_value(b[i])) is Some
}

/// The position of the first byte in `b` that is not a hex digit.
pub open spec fn first_non_hex(b: Seq<u8>) -> int {
    choose|j: int| 0 <= j < b.len() && hex_value(b[j]) is None && all_hex(b.subrange(0, j))
}

/// The bytes that 2n hex digits spell.
pub open spec fn hex_decoded(b: Seq<u8>) -> Seq<u8> {
    Seq::new(
        b.len() / 2,
        |i: int| (hex_value(b[2 * i])->0 * 16 + hex_value(b[2 * i + 1])->0) as u8,
    )
}

/// What `Hash32::from_hex` makes of some text.
pub open spec fn spec_from_hex(text: Seq<char>) -> Result<Seq<u8>, IdError> {
    let b = vstd::utf8::encode_utf8(trimmed(text));
    if b.len() != 64 {
        Err(IdError::BadLength(b.len() as usize))
    } else if all_hex(b) {
        Ok(hex_decoded(b))
    } else {
        let j = first_non_hex(b);
        Err(IdError::BadHex(HexError::InvalidHexCharacter { c: b[j] as char, index: j as usize }))
    }
}

/// A parse result agrees with its specification: the same error, or a
/// value whose bytes are the specified ones.
pub open spec fn result_matches<T: View<V = Seq<u8>>>(
    r: Result<T, IdError>,
    s: Result<Seq<u8>, IdError>,
) -> bool {
    match r {
        Ok(v) => s == Ok::<Seq<u8>, IdError>(v@),
        Err(e) => s == Err::<Seq<u8>, IdError>(e),
    }
}

fn hex_digit_char(n: u8) -> (c: char)
    requires
        n < 16,
    ensures
        c == hex_digit(n as int),
{
    if n < 10 {
        (48 + n) as char
    } else {
        (87 + n) as char
    }
}

/// Lowercase hex of the first `n` bytes.
fn hex_of(bytes: &[u8], n: usize) -> (s: String)
    requires
        n <= bytes@.len(),
    ensures
        s@ == hex_encode(bytes@.subrange(0, n as int)),
{
    let mut s = String::new();
    let mut i: usize = 0;
    let ghost target = hex_encode(bytes@.subrange(0, n as int));
    while i < n
        invariant
            i <= n,
            n <= bytes@.len(),
            target == hex_encode(bytes@.subrange(0, n as int)),
            s@ =~= target.subrange(0, 2 * i as int),
        decreases n - i,
    {
        let b = bytes[i];
        push_char(&mut s, hex_digit_char(b / 16));
        push_char(&mut s, hex_digit_char(b % 16));
        i += 1;
        assert(s@ =~= target.subrange(0, 2 * i as int));
    }
    s
}

fn hex_value_of(c: u8) -> (r: Option<u8>)
    ensures
        r == hex_value(c),
{
    if 48 <= c && c <= 57 {
        Some(c - 48)
    } else if 97 <= c && c <= 102 {
        Some(c - 87)
    } else if 65 <= c && c <= 70 {
        Some(c - 55)
    } else {
        None
    }
}

/// Decodes exactly 64 hex digits, reporting the first one that is not.
fn decode_hex32(b: &[u8]) -> (r: Result<[u8; 32], HexError>)
    requires
        b@.len() == 64,
    ensures
        r matches Ok(a) ==> all_hex(b@) && a@ == hex_decoded(b@),
        r matches Err(e) ==> !all_hex(b@) && e == (HexError::InvalidHexCharacter {
            c: b@[first_non_hex(b@)] as char,
            index: first_non_hex(b@) as usize,
        }),
        r is Ok <==> all_hex(b@),
{
    let mut out = [0u8; 32];
    let mut i: usize = 0;
    while i < 32
        invariant
            i <= 32,
            b@.len() == 64,
            all_hex(b@.subrange(0, 2 * i as int)),
            forall|j: int| 0 <= j < i ==> out@[j] == hex_decoded(b@)[j],
        decreases 32 - i,
    {
        let hi = match hex_value_of(b[2 * i]) {
            Some(v) => v,
            None => {
                proof { lemma_first_non_hex(b@, 2 * i as int); }
                return Err(HexError::InvalidHexCharacter { c: b[2 * i] as char, index: 2 * i });
            }
        };
        assert(all_hex(b@.subrange(0, 2 * i + 1))) by {
            assert forall|k: int| 0 <= k < 2 * i + 1 implies (#[trigger] hex_value(b@.subrange(0, 2 * i + 1)[k])) is Some by {
                if k < 2 * i {
                    assert(b@.subrange(0, 2 * i + 1)[k] == b@.subrange(0, 2 * i as int)[k]);
                }
            }
        }
        let lo = match hex_value_of(b[2 * i + 1]) {
            Some(v) => v,
            None => {
                proof { lemma_first_non_hex(b@, 2 * i + 1); }
                return Err(HexError::InvalidHexCharacter { c: b[2 * i + 1] as char, index: 2 * i + 1 });
            }
        };
        assert(all_hex(b@.subrange(0, 2 * i + 2))) by {
            assert forall|k: int| 0 <= k < 2 * i + 2 implies (#[trigger] hex_value(b@.subrange(0, 2 * i + 2)[k])) is Some by {
                if k < 2 * i + 1 {
                    assert(b@.subrange(0, 2 * i + 2)[k] == b@.subrange(0, 2 * i + 1)[k]);
                }
            }
        }
        out[i] = hi * 16 + lo;
        i += 1;
    }
    assert(b@.subrange(0, 64) =~= b@);
    assert(out@ =~= hex_decoded(b@));
    Ok(out)
}

/// When the first `j` bytes are hex digits and byte `j` is not, `j` is the
/// first byte that is not.
proof fn lemma_first_non_hex(b: Seq<u8>, j: int)
    requires
        0 <= j < b.len(),
        hex_value(b[j]) is None,
        all_hex(b.subrange(0, j)),
    ensures
        first_non_hex(b) == j,
        !all_hex(b),
{
    let k = first_non_hex(b);
    assert(0 <= k < b.len() && hex_value(b[k]) is None && all_hex(b.subrange(0, k)));
    if k < j {
        assert(b.subrange(0, j)[k] == b[k]);
    } else if k > j {
        assert(b.subrange(0, k)[j] == b[j]);
    }
}

/// A member identity: their raw Ed25519 public key.
#[derive(Clone, Copy, Eq, Hash, PartialOrd, Ord, Default, Debug)]
pub struct UserId(pub Hash32);

impl View for UserId {
    type V = Seq<u8>;

    open spec fn view(&self) -> Seq<u8> {
        self.0@
    }
}

impl PartialEq for UserId {
    fn eq(&self, other: &UserId) -> (r: bool) {
        self.0 == other.0
    }
}

impl vstd::std_specs::cmp::PartialEqSpecImpl for UserId {
    open spec fn obeys_eq_spec() -> bool {
        true
    }

    open spec fn eq_spec(&self, other: &UserId) -> bool {
        self@ == other@
    }
}

impl UserId {
    pub fn zero() -> (id: UserId)
        ensures
            id@ == zero_bytes(),
    {
        UserId(Hash32::zero())
    }

    pub fn from_bytes(bytes: [u8; 32]) -> (id: UserId)
        ensures
            id@ == bytes@,
    {
        UserId(Hash32::from_bytes(bytes))
    }

    pub fn as_bytes(&self) -> (b: &[u8; 32])
        ensures
            b@ == self@,
    {
        self.0.as_bytes()
    }

    pub fn is_zero(&self) -> (z: bool)
        ensures
            z == (self@ == zero_bytes()),
    {
        self.0.is_zero()
    }

    pub fn to_hex(self) -> (s: String)
        ensures
            s@ == hex_encode(self@),
    {
        self.0.to_hex()
    }

    pub fn short(&self) -> (s: String)
        ensures
            s@ == hex_encode(self@.subrange(0, 4)),
    {
        self.0.short()
    }

    pub fn from_hex(s: &str) -> (r: Result<UserId, IdError>)
        ensures
            result_matches(r, spec_from_hex(s@)),
    {
        match Hash32::from_hex(s) {
            Ok(h) => Ok(UserId(h)),
            Err(e) => Err(e),
        }
    }

    pub fn try_from_slice(bytes: &[u8]) -> (r: Option<UserId>)
        ensures
            r is Some <==> bytes@.len() == 32,
            r matches Some(id) ==> id@ == bytes@,
    {
        match Hash32::try_from_slice(bytes) {
            Some(h) => Some(UserId(h)),
            None => None,
        }
    }
}

/// Content address of a single signed event.
#[derive(Clone, Copy, Eq, Hash, PartialOrd, Ord, Default, Debug)]
pub struct EventId(pub Hash32);

impl View for EventId {
    type V = Seq<u8>;

    open spec fn view(&self) -> Seq<u8> {
        self.0@
    }
}

impl PartialEq for EventId {
    fn eq(&self, other: &EventId) -> (r: bool) {
        self.0 == other.0
    }
}

impl vstd::std_specs::cmp::PartialEqSpecImpl for EventId {
    open spec fn obeys_eq_spec() -> bool {
        true
    }

    open spec fn eq_spec(&self, other: &EventId) -> bool {
        self@ == other@
    }
}

impl EventId {
    pub fn zero() -> (id: EventId)
        ensures
            id@ == zero_bytes(),
    {
        EventId(Hash32::zero())
    }

    pub fn from_bytes(bytes: [u8; 32]) -> (id: EventId)
        ensures
            id@ == bytes@,
    {
        EventId(Hash32::from_bytes(bytes))
    }

    pub fn as_bytes(&self) -> (b: &[u8; 32])
        ensures
            b@ == self@,
    {
        self.0.as_bytes()
    }

    pub fn is_zero(&self) -> (z: bool)
        ensures
            z == (self@ == zero_bytes()),
    {
        self.0.is_zero()
    }

    pub fn to_hex(self) -> (s: String)
        ensures
            s@ == hex_encode(self@),
    {
        self.0.to_hex()
    }

    pub fn short(&self) -> (s: String)
        ensures
            s@ == hex_encode(self@.subrange(0, 4)),
    {
        self.0.short()
    }

    pub fn from_hex(s: &str) -> (r: Result<EventId, IdError>)
        ensures
            result_matches(r, spec_from_hex(s@)),
    {
        match Hash32::from_hex(s) {
            Ok(h) => Ok(EventId(h)),
            Err(e) => Err(e),
        }
    }

    pub fn try_from_slice(bytes: &[u8]) -> (r: Option<EventId>)
        ensures
            r is Some <==> bytes@.len() == 32,
            r matches Some(id) ==> id@ == bytes@,
    {
        match Hash32::try_from_slice(bytes) {
            Some(h) => Some(EventId(h)),
            None => None,
        }
    }
}

/// A community, what Discord would call a server. Equal to the `EventId`
/// of its genesis event.
#[derive(Clone, Copy, Eq, Hash, PartialOrd, Ord, Default, Debug)]
pub struct CommunityId(pub Hash32);

impl View for CommunityId {
    type V = Seq<u8>;

    open spec fn view(&self) -> Seq<u8> {
        self.0@
    }
}

impl PartialEq for CommunityId {
    fn eq(&self, other: &CommunityId) -> (r: bool) {
        self.0 == other.0
    }
}

impl vstd::std_specs::cmp::PartialEqSpecImpl for CommunityId {
    open spec fn obeys_eq_spec() -> bool {
        true
    }

    open spec fn eq_spec(&self, other: &CommunityId) -> bool {
        self@ == other@
    }
}

impl CommunityId {
    pub fn zero() -> (id: CommunityId)
        ensures
            id@ == zero_bytes(),
    {
        CommunityId(Hash32::zero())
    }

    pub fn from_bytes(bytes: [u8; 32]) -> (id: CommunityId)
        ensures
            id@ == bytes@,
    {
        CommunityId(Hash32::from_bytes(bytes))
    }

    pub fn as_bytes(&self) -> (b: &[u8; 32])
        ensures
            b@ == self@,
    {
        self.0.as_bytes()
    }

    pub fn is_zero(&self) -> (z: bool)
        ensures
            z == (self@ == zero_bytes()),
    {
        self.0.is_zero()
    }

    pub fn to_hex(self) -> (s: String)
        ensures
            s@ == hex_encode(self@),
    {
        self.0.to_hex()
    }

    pub fn short(&self) -> (s: String)
        ensures
            s@ == hex_encode(self@.subrange(0, 4)),
    {
        self.0.short()
    }

    pub fn from_hex(s: &str) -> (r: Result<CommunityId, IdError>)
        ensures
            result_matches(r, spec_from_hex(s@)),
    {
        match Hash32::from_hex(s) {
            Ok(h) => Ok(CommunityId(h)),
            Err(e) => Err(e),
        }
    }

    pub fn try_from_slice(bytes: &[u8]) -> (r: Option<CommunityId>)
        ensures
            r is Some <==> bytes@.len() == 32,
            r matches Some(id) ==> id@ == bytes@,
    {
        match Hash32::try_from_slice(bytes) {
            Some(h) => Some(CommunityId(h)),
            None => None,
        }
    }
}

/// A channel within a community. Derived from the community id and the
/// channel name so every member computes the same value.
#[derive(Clone, Copy, Eq, Hash, PartialOrd, Ord, Default, Debug)]
pub struct ChannelId(pub Hash32);

impl View for ChannelId {
    type V = Seq<u8>;

    open spec fn view(&self) -> Seq<u8> {
        self.0@
    }
}

impl PartialEq for ChannelId {
    fn eq(&self, other: &ChannelId) -> (r: bool) {
        self.0 == other.0
    }
}

impl vstd::std_specs::cmp::PartialEqSpecImpl for ChannelId {
    open spec fn obeys_eq_spec() -> bool {
        true
    }

    open spec fn eq_spec(&self, other: &ChannelId) -> bool {
        self@ == other@
    }
}

impl ChannelId {
    pub fn zero() -> (id: ChannelId)
        ensures
            id@ == zero_bytes(),
    {
        ChannelId(Hash32::zero())
    }

    pub fn from_bytes(bytes: [u8; 32]) -> (id: ChannelId)
        ensures
            id@ == bytes@,
    {
        ChannelId(Hash32::from_bytes(bytes))
    }

    pub fn as_bytes(&self) -> (b: &[u8; 32])
        ensures
            b@ == self@,
    {
        self.0.as_bytes()
    }

    pub fn is_zero(&self) -> (z: bool)
        ensures
            z == (self@ == zero_bytes()),
    {
        self.0.is_zero()
    }

    pub fn to_hex(self) -> (s: String)
        ensures
            s@ == hex_encode(self@),
    {
        self.0.to_hex()
    }

    pub fn short(&self) -> (s: String)
        ensures
            s@ == hex_encode(self@.subrange(0, 4)),
    {
        self.0.short()
    }

    pub fn from_hex(s: &str) -> (r: Result<ChannelId, IdError>)
        ensures
            result_matches(r, spec_from_hex(s@)),
    {
        match Hash32::from_hex(s) {
            Ok(h) => Ok(ChannelId(h)),
            Err(e) => Err(e),
        }
    }

    pub fn try_from_slice(bytes: &[u8]) -> (r: Option<ChannelId>)
        ensures
            r is Some <==> bytes@.len() == 32,
            r matches Some(id) ==> id@ == bytes@,
    {
        match Hash32::try_from_slice(bytes) {
            Some(h) => Some(ChannelId(h)),
            None => None,
        }
    }
}

/// The domain tag hashed in front of every channel id.
pub open spec fn channel_domain() -> Seq<u8> {
    seq![107u8, 97, 104, 117, 105, 46, 99, 104, 97, 110, 110, 101, 108, 46, 118, 49, 0]
}

/// The id of the channel called `name` in `community`: BLAKE3 over the
/// domain tag, the community id and the UTF-8 of the lowercased name.
pub open spec fn channel_id_of(community: Seq<u8>, name: Seq<char>) -> Seq<u8> {
    blake3_of(channel_domain() + community + encode_utf8(lowercase_of(name)))
}

impl ChannelId {
    /// Channel ids are deterministic, so two members who independently
    /// create `#general` produce the same id and their events merge into one
    /// channel instead of forking it.
    pub fn derive(community: &CommunityId, name: &str) -> (id: ChannelId)
        ensures
            id@ == channel_id_of(community@, name@),
    {
        let mut buf: Vec<u8> = Vec::new();
        buf.extend_from_slice(&[107u8, 97, 104, 117, 105, 46, 99, 104, 97, 110, 110, 101, 108, 46, 118, 49, 0]);
        buf.extend_from_slice(community.as_bytes());
        let lower = lowercase_text(name);
        buf.extend_from_slice(lower.as_str().as_bytes());
        assert(buf@ =~= channel_domain() + community@ + encode_utf8(lowercase_of(name@)));
        ChannelId(Hash32::digest(buf.as_slice()))
    }
}

impl From<EventId> for CommunityId {
    fn from(id: EventId) -> (c: CommunityId) {
        CommunityId(id.0)
    }
}

impl vstd::std_specs::convert::FromSpecImpl<EventId> for CommunityId {
    open spec fn obeys_from_spec() -> bool {
        true
    }

    open spec fn from_spec(id: EventId) -> CommunityId {
        CommunityId(id.0)
    }
}

/// The digit for a nibble is ASCII, and reads back as the nibble.
proof fn lemma_hex_digit(n: int)
    requires
        0 <= n < 16,
    ensures
        '\0' <= hex_digit(n) <= '\u{7f}',
        hex_value(hex_digit(n) as u8) == Some(n as u8),
        !crate::text::is_space(hex_digit(n)),
{
}

/// Reading the hex of 32 bytes gives the bytes back: `from_hex` undoes
/// `to_hex`.
pub proof fn law_hex_roundtrip(b: Seq<u8>)
    requires
        b.len() == 32,
    ensures
        spec_from_hex(hex_encode(b)) == Ok::<Seq<u8>, IdError>(b),
{
    let t = hex_encode(b);
    assert forall|i: int| 0 <= i < t.len() implies '\0' <= #[trigger] t[i] <= '\u{7f}' && hex_value(t[i] as u8) == Some(
        (if i % 2 == 0 { b[i / 2] as int / 16 } else { b[i / 2] as int % 16 }) as u8,
    ) by {
        if i % 2 == 0 {
            lemma_hex_digit(b[i / 2] as int / 16);
        } else {
            lemma_hex_digit(b[i / 2] as int % 16);
        }
    }
    assert(vstd::utf8::is_ascii_chars(t));
    lemma_hex_digit(b[0] as int / 16);
    lemma_hex_digit(b[31] as int % 16);
    assert(crate::text::trim_front(t) == t);
    assert(crate::text::trim_back(t) == t);
    let e = vstd::utf8::encode_utf8(crate::text::trimmed(t));
    vstd::utf8::is_ascii_chars_encode_utf8(t);
    assert(e.len() == 64);
    assert forall|i: int| 0 <= i < e.len() implies (#[trigger] hex_value(e[i])) is Some by {
        assert(e[i] == t[i] as u8);
    }
    assert forall|i: int| 0 <= i < 32 implies #[trigger] hex_decoded(e)[i] == b[i] by {
        assert(e[2 * i] == t[2 * i] as u8);
        assert(e[2 * i + 1] == t[2 * i + 1] as u8);
        assert((2 * i) % 2 == 0 && (2 * i) / 2 == i);
        assert((2 * i + 1) % 2 == 1 && (2 * i + 1) / 2 == i);
        let x = b[i] as int;
        assert(x / 16 * 16 + x % 16 == x);
    }
    assert(hex_decoded(e) =~= b);
}

// -- byte order ---------------------------------------------------------------

/// Lexicographic order on byte strings, the order `Ord` gives `[u8; 32]`.
pub open spec fn bytes_less(a: Seq<u8>, b: Seq<u8>) -> bool
    decreases a.len(),
{
    if a.len() == 0 {
        b.len() > 0
    } else if b.len() == 0 {
        false
    } else if a[0] < b[0] {
        true
    } else if a[0] > b[0] {
        false
    } else {
        bytes_less(a.drop_first(), b.drop_first())
    }
}

pub proof fn lemma_bytes_less_irreflexive(a: Seq<u8>)
    ensures
        !bytes_less(a, a),
    decreases a.len(),
{
    if a.len() > 0 {
        lemma_bytes_less_irreflexive(a.drop_first());
    }
}

pub proof fn lemma_bytes_less_transitive(a: Seq<u8>, b: Seq<u8>, c: Seq<u8>)
    requires
        bytes_less(a, b),
        bytes_less(b, c),
    ensures
        bytes_less(a, c),
    decreases a.len(),
{
    if a.len() > 0 && b.len() > 0 && c.len() > 0 && a[0] == b[0] && b[0] == c[0] {
        lemma_bytes_less_transitive(a.drop_first(), b.drop_first(), c.drop_first());
    }
}

/// Any two different byte strings are ordered one way or the other.
pub proof fn lemma_bytes_less_total(a: Seq<u8>, b: Seq<u8>)
    ensures
        a == b || bytes_less(a, b) || bytes_less(b, a),
    decreases a.len(),
{
    if a.len() > 0 && b.len() > 0 && a[0] == b[0] {
        lemma_bytes_less_total(a.drop_first(), b.drop_first());
        if a.drop_first() == b.drop_first() {
            assert(a =~= seq![a[0]] + a.drop_first());
            assert(b =~= seq![b[0]] + b.drop_first());
        }
    } else if a.len() == 0 && b.len() == 0 {
        assert(a =~= b);
    }
}

pub proof fn lemma_bytes_less_asymmetric(a: Seq<u8>, b: Seq<u8>)
    ensures
        bytes_less(a, b) ==> !bytes_less(b, a),
{
    if bytes_less(a, b) && bytes_less(b, a) {
        lemma_bytes_less_transitive(a, b, a);
        lemma_bytes_less_irreflexive(a);
    }
}

/// Compares two byte strings of the same length.
pub fn slice_less(a: &[u8], b: &[u8]) -> (r: bool)
    requires
        a@.len() == b@.len(),
    ensures
        r == bytes_less(a@, b@),
{
    let n = a.len();
    let mut i: usize = 0;
    assert(a@.skip(0) =~= a@);
    assert(b@.skip(0) =~= b@);
    while i < n
        invariant
            i <= n,
            n == a@.len(),
            n == b@.len(),
            bytes_less(a@, b@) == bytes_less(a@.skip(i as int), b@.skip(i as int)),
        decreases n - i,
    {
        if a[i] < b[i] {
            return true;
        }
        if a[i] > b[i] {
            return false;
        }
        assert(a@.skip(i as int).drop_first() =~= a@.skip(i + 1));
        assert(b@.skip(i as int).drop_first() =~= b@.skip(i + 1));
        i += 1;
    }
    false
}

impl Hash32 {
    /// Whether this hash sorts before `other`, byte by byte.
    pub fn less_than(&self, other: &Hash32) -> (r: bool)
        ensures
            r == bytes_less(self@, other@),
    {
        slice_less(self.0.as_slice(), other.0.as_slice())
    }
}

} // verus!
