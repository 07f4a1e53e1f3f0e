//! Composite key layout.
//!
//! Every key is a fixed-length concatenation of 32-byte ids and big-endian
//! integers. Fixed width plus big-endian means byte order equals logical
//! order, so an ordinary range scan over a key prefix returns exactly the rows
//! wanted, already sorted.

use vstd::prelude::*;

use crate::proto::ids::{bytes_less, lemma_bytes_less_irreflexive, lemma_hash32_len, ChannelId, CommunityId, EventId, UserId};
use crate::store::StoreError;

verus! {

broadcast use lemma_hash32_len;

pub const ID_LEN: usize = 32;
pub const SEQ_LEN: usize = 8;

/// `community || author || seq`
pub const CHAIN_KEY_LEN: usize = 72;
/// `community || lamport || event`
pub const ORDER_KEY_LEN: usize = 72;
/// `author || seq`
pub const ORDER_VALUE_LEN: usize = 40;
/// `community || channel || lamport || event`
pub const CHANNEL_KEY_LEN: usize = 104;
/// `community || (channel | user)`
pub const PAIR_KEY_LEN: usize = 64;

// -- big-endian integers ---------------------------------------------------------

/// `n` as `w` bytes, most significant first.
pub open spec fn be_bytes(n: nat, w: nat) -> Seq<u8>
    decreases w,
{
    if w == 0 {
        seq![]
    } else {
        be_bytes(n / 256, (w - 1) as nat).push((n % 256) as u8)
    }
}

/// The number that big-endian bytes spell.
pub open spec fn from_be(s: Seq<u8>) -> nat
    decreases s.len(),
{
    if s.len() == 0 {
        0
    } else {
        from_be(s.drop_last()) * 256 + (s.last() as nat)
    }
}

pub open spec fn pow256(w: nat) -> nat
    decreases w,
{
    if w == 0 {
        1
    } else {
        256 * pow256((w - 1) as nat)
    }
}

/// The eight bytes of a `u64`, most significant first.
pub open spec fn be64(n: u64) -> Seq<u8> {
    be_bytes(n as nat, 8)
}

/// `n` bytes of value `b`.
pub open spec fn filled(b: u8, n: nat) -> Seq<u8> {
    Seq::new(n, |_i: int| b)
}

pub proof fn lemma_be_len(n: nat, w: nat)
    ensures
        be_bytes(n, w).len() == w,
    decreases w,
{
    if w > 0 {
        lemma_be_len(n / 256, (w - 1) as nat);
    }
}

/// Reading back what `be_bytes` wrote gives the number, when it fits.
pub proof fn lemma_be_roundtrip(n: nat, w: nat)
    requires
        n < pow256(w),
    ensures
        from_be(be_bytes(n, w)) == n,
    decreases w,
{
    if w > 0 {
        assert(n / 256 < pow256((w - 1) as nat));
        lemma_be_roundtrip(n / 256, (w - 1) as nat);
        let s = be_bytes(n, w);
        assert(s.drop_last() =~= be_bytes(n / 256, (w - 1) as nat));
    }
}

proof fn lemma_from_be_bound(s: Seq<u8>)
    ensures
        from_be(s) < pow256(s.len()),
    decreases s.len(),
{
    if s.len() > 0 {
        lemma_from_be_bound(s.drop_last());
    }
}

proof fn lemma_pow256_8()
    ensures
        pow256(8) == 0x1_0000_0000_0000_0000,
{
    reveal_with_fuel(pow256, 9);
}

/// Two strings agree when their first bytes and the rest agree.
proof fn lemma_eq_by_first(x: Seq<u8>, y: Seq<u8>)
    requires
        x.len() == y.len(),
        x.len() > 0,
        x[0] == y[0],
        x.drop_first() == y.drop_first(),
    ensures
        x == y,
{
    assert forall|i: int| 0 <= i < x.len() implies x[i] == y[i] by {
        if i > 0 {
            assert(x[i] == x.drop_first()[i - 1]);
            assert(y[i] == y.drop_first()[i - 1]);
        }
    }
    assert(x =~= y);
}

/// Appending one byte to each of two equal-length strings: the first
/// difference decides, and the new bytes only break a tie.
pub proof fn lemma_bytes_less_push(x: Seq<u8>, y: Seq<u8>, c: u8, d: u8)
    requires
        x.len() == y.len(),
    ensures
        bytes_less(x.push(c), y.push(d)) <==> (bytes_less(x, y) || (x == y && c < d)),
    decreases x.len(),
{
    if x.len() > 0 {
        assert(x.push(c).drop_first() =~= x.drop_first().push(c));
        assert(y.push(d).drop_first() =~= y.drop_first().push(d));
        assert(x.push(c)[0] == x[0]);
        assert(y.push(d)[0] == y[0]);
        lemma_bytes_less_push(x.drop_first(), y.drop_first(), c, d);
        if x[0] == y[0] && x.drop_first() == y.drop_first() {
            lemma_eq_by_first(x, y);
        }
        if x == y {
            assert(x.drop_first() == y.drop_first());
        }
    } else {
        assert(x =~= y);
        assert(x.push(c).drop_first() =~= x);
        assert(y.push(d).drop_first() =~= y);
        assert(x.push(c)[0] == c);
        assert(y.push(d)[0] == d);
    }
}

/// Big-endian bytes of equal width sort as the numbers do.
pub proof fn lemma_be_order(a: nat, b: nat, w: nat)
    requires
        a < pow256(w),
        b < pow256(w),
    ensures
        bytes_less(be_bytes(a, w), be_bytes(b, w)) <==> a < b,
    decreases w,
{
    if w == 0 {
    } else {
        let w1 = (w - 1) as nat;
        lemma_be_len(a / 256, w1);
        lemma_be_len(b / 256, w1);
        lemma_be_order(a / 256, b / 256, w1);
        lemma_bytes_less_push(be_bytes(a / 256, w1), be_bytes(b / 256, w1), (a % 256) as u8, (b % 256) as u8);
        if be_bytes(a / 256, w1) == be_bytes(b / 256, w1) {
            lemma_be_roundtrip(a / 256, w1);
            lemma_be_roundtrip(b / 256, w1);
        }
        if a / 256 == b / 256 {
            assert(be_bytes(a / 256, w1) == be_bytes(b / 256, w1));
        }
        assert(a < b <==> (a / 256 < b / 256 || (a / 256 == b / 256 && a % 256 < b % 256))) by (nonlinear_arith);
    }
}

/// A shared prefix does not decide the order.
pub proof fn lemma_bytes_less_common_prefix(p: Seq<u8>, x: Seq<u8>, y: Seq<u8>)
    ensures
        bytes_less(p + x, p + y) <==> bytes_less(x, y),
    decreases p.len(),
{
    if p.len() > 0 {
        assert((p + x).drop_first() =~= p.drop_first() + x);
        assert((p + y).drop_first() =~= p.drop_first() + y);
        lemma_bytes_less_common_prefix(p.drop_first(), x, y);
    } else {
        assert(p + x =~= x);
        assert(p + y =~= y);
    }
}

/// When two prefixes of equal length differ, they decide the order
/// whatever follows.
pub proof fn lemma_bytes_less_prefix_decides(x: Seq<u8>, y: Seq<u8>, s: Seq<u8>, t: Seq<u8>)
    requires
        x.len() == y.len(),
        x != y,
    ensures
        bytes_less(x + s, y + t) <==> bytes_less(x, y),
    decreases x.len(),
{
    if x.len() == 0 {
        assert(x =~= y);
    } else if x[0] != y[0] {
    } else {
        assert((x + s).drop_first() =~= x.drop_first() + s);
        assert((y + t).drop_first() =~= y.drop_first() + t);
        if x.drop_first() == y.drop_first() {
            lemma_eq_by_first(x, y);
        }
        lemma_bytes_less_prefix_decides(x.drop_first(), y.drop_first(), s, t);
    }
}

/// All zeros sort first among strings of their length, and all `0xff` last.
pub proof fn lemma_filled_extremes(x: Seq<u8>)
    ensures
        x == filled(0, x.len()) || bytes_less(filled(0, x.len()), x),
        x == filled(0xff, x.len()) || bytes_less(x, filled(0xff, x.len())),
    decreases x.len(),
{
    if x.len() > 0 {
        lemma_filled_extremes(x.drop_first());
        assert(filled(0, x.len()).drop_first() =~= filled(0, (x.len() - 1) as nat));
        assert(filled(0xff, x.len()).drop_first() =~= filled(0xff, (x.len() - 1) as nat));
        if x[0] == 0 && x.drop_first() == filled(0, (x.len() - 1) as nat) {
            lemma_eq_by_first(x, filled(0, x.len()));
        }
        if x[0] == 0xff && x.drop_first() == filled(0xff, (x.len() - 1) as nat) {
            lemma_eq_by_first(x, filled(0xff, x.len()));
        }
    } else {
        assert(x =~= filled(0, 0));
        assert(x =~= filled(0xff, 0));
    }
}

// -- building keys ---------------------------------------------------------------

/// A `u64` as eight big-endian bytes.
pub fn be64_bytes(n: u64) -> (b: [u8; 8])
    ensures
        b@ == be64(n),
{
    let mut out = [0u8; 8];
    let mut v: u64 = n;
    let mut k: usize = 0;
    proof {
        lemma_be_len(n as nat, 8);
    }
    while k < 8
        invariant
            k <= 8,
            out@.len() == 8,
            be_bytes(n as nat, 8) == be_bytes(v as nat, (8 - k) as nat) + out@.subrange(8 - k, 8),
        decreases 8 - k,
    {
        let ghost before = out@;
        proof {
            assert(be_bytes(v as nat, (8 - k) as nat) == be_bytes((v / 256) as nat, (7 - k) as nat).push((v % 256) as u8));
        }
        out[7 - k] = (v % 256) as u8;
        assert(out@.subrange(7 - k, 8) =~= seq![(v % 256) as u8] + before.subrange(8 - k, 8));
        v = v / 256;
        k += 1;
        assert(be_bytes(n as nat, 8) =~= be_bytes(v as nat, (8 - k) as nat) + out@.subrange(8 - k, 8));
    }
    assert(out@.subrange(0, 8) =~= out@);
    out
}

/// Reads eight big-endian bytes.
pub fn read_be64(b: &[u8]) -> (n: u64)
    requires
        b@.len() == 8,
    ensures
        n == from_be(b@),
{
    let mut v: u64 = 0;
    let mut j: usize = 0;
    while j < 8
        invariant
            j <= 8,
            b@.len() == 8,
            v == from_be(b@.take(j as int)),
        decreases 8 - j,
    {
        proof {
            lemma_from_be_bound(b@.take(j as int));
            reveal_with_fuel(pow256, 9);
            assert(b@.take(j + 1).drop_last() =~= b@.take(j as int));
        }
        v = v * 256 + b[j] as u64;
        j += 1;
    }
    assert(b@.take(8) =~= b@);
    v
}

/// Copies `part` into `out` at `at`.
fn write_at<const N: usize>(out: &mut [u8; N], at: usize, part: &[u8])
    requires
        at + part@.len() <= N,
        old(out)@.len() == N,
    ensures
        final(out)@ == old(out)@.subrange(0, at as int) + part@ + old(out)@.subrange(at + part@.len(), N as int),
{
    let ghost start = out@;
    let mut i: usize = 0;
    while i < part.len()
        invariant
            i <= part@.len(),
            at + part@.len() <= N,
            out@.len() == N,
            start.len() == N,
            out@ == start.subrange(0, at as int) + part@.subrange(0, i as int) + start.subrange(at + i, N as int),
        decreases part@.len() - i,
    {
        out[at + i] = part[i];
        i += 1;
        assert(out@ =~= start.subrange(0, at as int) + part@.subrange(0, i as int) + start.subrange(at + i, N as int));
    }
    assert(part@.subrange(0, i as int) =~= part@);
}

/// The chain key's bytes.
pub open spec fn chain_key(community: Seq<u8>, author: Seq<u8>, seq: u64) -> Seq<u8> {
    community + author + be64(seq)
}

/// The order key's bytes.
pub open spec fn order_key(community: Seq<u8>, lamport: u64, event: Seq<u8>) -> Seq<u8> {
    community + be64(lamport) + event
}

/// The order value's bytes.
pub open spec fn order_value_bytes(author: Seq<u8>, seq: u64) -> Seq<u8> {
    author + be64(seq)
}

/// The channel log key's bytes.
pub open spec fn channel_log_key(community: Seq<u8>, channel: Seq<u8>, lamport: u64, event: Seq<u8>) -> Seq<u8> {
    community + channel + be64(lamport) + event
}

pub fn chain(community: &CommunityId, author: &UserId, seq: u64) -> (k: [u8; 72])
    ensures
        k@ == chain_key(community@, author@, seq),
{
    let mut out = [0u8; 72];
    let s = be64_bytes(seq);
    proof {
        lemma_be_len(seq as nat, 8);
    }
    write_at(&mut out, 0, community.as_bytes().as_slice());
    write_at(&mut out, 32, author.as_bytes().as_slice());
    write_at(&mut out, 64, s.as_slice());
    assert(out@ =~= chain_key(community@, author@, seq));
    out
}

/// Inclusive bounds covering every chain entry in a community.
pub fn chain_bounds(community: &CommunityId) -> (b: ([u8; 72], [u8; 72]))
    ensures
        b.0@ == community@ + filled(0, 40),
        b.1@ == community@ + filled(0xff, 40),
{
    let mut lo = [0u8; 72];
    let mut hi = [0xffu8; 72];
    write_at(&mut lo, 0, community.as_bytes().as_slice());
    write_at(&mut hi, 0, community.as_bytes().as_slice());
    assert(lo@ =~= community@ + filled(0, 40));
    assert(hi@ =~= community@ + filled(0xff, 40));
    (lo, hi)
}

/// Inclusive bounds covering one author's chain within a community.
pub fn chain_author_bounds(community: &CommunityId, author: &UserId) -> (b: ([u8; 72], [u8; 72]))
    ensures
        b.0@ == chain_key(community@, author@, 0),
        b.1@ == chain_key(community@, author@, u64::MAX),
{
    (chain(community, author, 0), chain(community, author, u64::MAX))
}

pub fn order(community: &CommunityId, lamport: u64, event: &EventId) -> (k: [u8; 72])
    ensures
        k@ == order_key(community@, lamport, event@),
{
    let mut out = [0u8; 72];
    let l = be64_bytes(lamport);
    proof {
        lemma_be_len(lamport as nat, 8);
    }
    write_at(&mut out, 0, community.as_bytes().as_slice());
    write_at(&mut out, 32, l.as_slice());
    write_at(&mut out, 40, event.as_bytes().as_slice());
    assert(out@ =~= order_key(community@, lamport, event@));
    out
}

pub fn order_bounds(community: &CommunityId) -> (b: ([u8; 72], [u8; 72]))
    ensures
        b.0@ == order_key(community@, 0, filled(0, 32)),
        b.1@ == order_key(community@, u64::MAX, filled(0xff, 32)),
{
    let zero = EventId::zero();
    let top = EventId::from_bytes([0xffu8; 32]);
    assert(zero@ =~= filled(0, 32));
    assert(top@ =~= filled(0xff, 32));
    (order(community, 0, &zero), order(community, u64::MAX, &top))
}

pub fn order_value(author: &UserId, seq: u64) -> (v: [u8; 40])
    ensures
        v@ == order_value_bytes(author@, seq),
{
    let mut out = [0u8; 40];
    let s = be64_bytes(seq);
    proof {
        lemma_be_len(seq as nat, 8);
    }
    write_at(&mut out, 0, author.as_bytes().as_slice());
    write_at(&mut out, 32, s.as_slice());
    assert(out@ =~= order_value_bytes(author@, seq));
    out
}

/// Splits an order-index value back into the author and sequence it points
/// at.
pub fn parse_order_value(bytes: &[u8]) -> (r: Option<(UserId, u64)>)
    ensures
        r is Some <==> bytes@.len() == 40,
        r matches Some((a, s)) ==> a@ == bytes@.subrange(0, 32) && s == from_be(bytes@.subrange(32, 40)),
{
    if bytes.len() != 40 {
        return None;
    }
    let author = match UserId::try_from_slice(&bytes[0..32]) {
        Some(a) => a,
        None => return None,
    };
    let seq = read_be64(&bytes[32..40]);
    Some((author, seq))
}

/// Recovers the author and sequence from a chain key, for frontier scans.
pub fn parse_chain_key(bytes: &[u8]) -> (r: Option<(UserId, u64)>)
    ensures
        r is Some <==> bytes@.len() == 72,
        r matches Some((a, s)) ==> a@ == bytes@.subrange(32, 64) && s == from_be(bytes@.subrange(64, 72)),
{
    if bytes.len() != 72 {
        return None;
    }
    let author = match UserId::try_from_slice(&bytes[32..64]) {
        Some(a) => a,
        None => return None,
    };
    let seq = read_be64(&bytes[64..72]);
    Some((author, seq))
}

pub fn channel_log(community: &CommunityId, channel: &ChannelId, lamport: u64, event: &EventId) -> (k: [u8; 104])
    ensures
        k@ == channel_log_key(community@, channel@, lamport, event@),
{
    let mut out = [0u8; 104];
    let l = be64_bytes(lamport);
    proof {
        lemma_be_len(lamport as nat, 8);
    }
    write_at(&mut out, 0, community.as_bytes().as_slice());
    write_at(&mut out, 32, channel.as_bytes().as_slice());
    write_at(&mut out, 64, l.as_slice());
    write_at(&mut out, 72, event.as_bytes().as_slice());
    assert(out@ =~= channel_log_key(community@, channel@, lamport, event@));
    out
}

pub fn channel_log_bounds(community: &CommunityId, channel: &ChannelId) -> (b: ([u8; 104], [u8; 104]))
    ensures
        b.0@ == channel_log_key(community@, channel@, 0, filled(0, 32)),
        b.1@ == channel_log_key(community@, channel@, u64::MAX, filled(0xff, 32)),
{
    let zero = EventId::zero();
    let top = EventId::from_bytes([0xffu8; 32]);
    assert(zero@ =~= filled(0, 32));
    assert(top@ =~= filled(0xff, 32));
    (channel_log(community, channel, 0, &zero), channel_log(community, channel, u64::MAX, &top))
}

/// `community || second`, used for the channel, member and peer indexes.
pub fn pair(community: &CommunityId, second: &[u8; 32]) -> (k: [u8; 64])
    ensures
        k@ == community@ + second@,
{
    let mut out = [0u8; 64];
    write_at(&mut out, 0, community.as_bytes().as_slice());
    write_at(&mut out, 32, second.as_slice());
    assert(out@ =~= community@ + second@);
    out
}

pub fn pair_bounds(community: &CommunityId) -> (b: ([u8; 64], [u8; 64]))
    ensures
        b.0@ == community@ + filled(0, 32),
        b.1@ == community@ + filled(0xff, 32),
{
    let mut lo = [0u8; 64];
    let mut hi = [0xffu8; 64];
    write_at(&mut lo, 0, community.as_bytes().as_slice());
    write_at(&mut hi, 0, community.as_bytes().as_slice());
    assert(lo@ =~= community@ + filled(0, 32));
    assert(hi@ =~= community@ + filled(0xff, 32));
    (lo, hi)
}

/// Recovers the trailing id from a pair key.
pub fn parse_pair_second(bytes: &[u8]) -> (r: Option<[u8; 32]>)
    ensures
        r is Some <==> bytes@.len() == 64,
        r matches Some(b) ==> b@ == bytes@.subrange(32, 64),
{
    if bytes.len() != 64 {
        return None;
    }
    let mut out = [0u8; 32];
    write_at(&mut out, 0, &bytes[32..64]);
    assert(out@ =~= bytes@.subrange(32, 64));
    Some(out)
}

/// `community || peer_id`. Peer ids are multihashes of varying length, so
/// this key is variable width; prefix scans still work because the
/// fixed-width community id comes first.
pub fn peer(community: &CommunityId, peer_id: &[u8]) -> (k: Vec<u8>)
    ensures
        k@ == community@ + peer_id@,
{
    let mut out: Vec<u8> = Vec::new();
    out.extend_from_slice(community.as_bytes().as_slice());
    out.extend_from_slice(peer_id);
    out
}

/// Inclusive bounds covering every peer recorded for a community. The upper
/// bound is padded well past any real peer id length.
pub fn peer_bounds(community: &CommunityId) -> (b: (Vec<u8>, Vec<u8>))
    ensures
        b.0@ == community@,
        b.1@ == community@ + filled(0xff, 128),
{
    let top = [0xffu8; 128];
    assert(top@ =~= filled(0xff, 128));
    let empty: [u8; 0] = [];
    let lo = peer(community, empty.as_slice());
    assert(lo@ =~= community@);
    (lo, peer(community, top.as_slice()))
}

/// Recovers the peer id from a peer key.
pub fn parse_peer_key(bytes: &[u8]) -> (r: Option<Vec<u8>>)
    ensures
        r is Some <==> bytes@.len() > 32,
        r matches Some(p) ==> p@ == bytes@.subrange(32, bytes@.len() as int),
{
    if bytes.len() <= 32 {
        return None;
    }
    Some(vstd::slice::slice_to_vec(&bytes[32..bytes.len()]))
}

// -- what the layout promises ----------------------------------------------------

/// Within one author's chain, keys sort by sequence number.
pub proof fn law_chain_keys_sort_by_sequence(community: Seq<u8>, author: Seq<u8>, s1: u64, s2: u64)
    ensures
        bytes_less(chain_key(community, author, s1), chain_key(community, author, s2)) <==> s1 < s2,
{
    lemma_pow256_8();
    lemma_bytes_less_common_prefix(community + author, be64(s1), be64(s2));
    lemma_be_order(s1 as nat, s2 as nat, 8);
}

/// Order keys of one community sort by Lamport clock, then by event id.
pub proof fn law_order_keys_sort_by_lamport_then_event(community: Seq<u8>, l1: u64, e1: Seq<u8>, l2: u64, e2: Seq<u8>)
    ensures
        bytes_less(order_key(community, l1, e1), order_key(community, l2, e2)) <==> (l1 < l2 || (l1 == l2
            && bytes_less(e1, e2))),
{
    lemma_pow256_8();
    lemma_be_len(l1 as nat, 8);
    lemma_be_len(l2 as nat, 8);
    assert(order_key(community, l1, e1) =~= community + (be64(l1) + e1));
    assert(order_key(community, l2, e2) =~= community + (be64(l2) + e2));
    lemma_bytes_less_common_prefix(community, be64(l1) + e1, be64(l2) + e2);
    lemma_be_order(l1 as nat, l2 as nat, 8);
    if l1 == l2 {
        lemma_bytes_less_common_prefix(be64(l1), e1, e2);
    } else {
        if be64(l1) == be64(l2) {
            lemma_be_roundtrip(l1 as nat, 8);
            lemma_be_roundtrip(l2 as nat, 8);
        }
        lemma_bytes_less_prefix_decides(be64(l1), be64(l2), e1, e2);
    }
}

/// The chain bounds of a community enclose every key of every author in it.
pub proof fn law_chain_bounds_enclose_every_author(community: Seq<u8>, author: Seq<u8>, seq: u64)
    requires
        author.len() == 32,
    ensures
        ({
            let key = chain_key(community, author, seq);
            let lo = community + filled(0, 40);
            let hi = community + filled(0xff, 40);
            (lo == key || bytes_less(lo, key)) && (key == hi || bytes_less(key, hi))
        }),
{
    let rest = author + be64(seq);
    lemma_be_len(seq as nat, 8);
    assert(chain_key(community, author, seq) =~= community + rest);
    lemma_filled_extremes(rest);
    lemma_bytes_less_common_prefix(community, filled(0, 40), rest);
    lemma_bytes_less_common_prefix(community, rest, filled(0xff, 40));
}

/// Keys of another community fall outside a community's chain bounds.
pub proof fn law_chain_bounds_exclude_other_communities(community: Seq<u8>, other: Seq<u8>, author: Seq<u8>, seq: u64)
    requires
        community.len() == 32,
        other.len() == 32,
        other != community,
    ensures
        ({
            let key = chain_key(other, author, seq);
            let lo = community + filled(0, 40);
            let hi = community + filled(0xff, 40);
            bytes_less(key, lo) || bytes_less(hi, key)
        }),
{
    let rest = author + be64(seq);
    assert(chain_key(other, author, seq) =~= other + rest);
    lemma_bytes_less_prefix_decides(other, community, rest, filled(0, 40));
    lemma_bytes_less_prefix_decides(community, other, filled(0xff, 40), rest);
    crate::proto::ids::lemma_bytes_less_total(other, community);
}

/// A chain key gives back the author and sequence it was built from.
pub proof fn law_chain_key_roundtrip(community: Seq<u8>, author: Seq<u8>, seq: u64)
    requires
        community.len() == 32,
        author.len() == 32,
    ensures
        chain_key(community, author, seq).subrange(32, 64) == author,
        from_be(chain_key(community, author, seq).subrange(64, 72)) == seq,
{
    lemma_be_len(seq as nat, 8);
    lemma_pow256_8();
    lemma_be_roundtrip(seq as nat, 8);
    assert(chain_key(community, author, seq).subrange(32, 64) =~= author);
    assert(chain_key(community, author, seq).subrange(64, 72) =~= be64(seq));
}

/// An order value gives back the author and sequence it was built from.
pub proof fn law_order_value_roundtrip(author: Seq<u8>, seq: u64)
    requires
        author.len() == 32,
    ensures
        order_value_bytes(author, seq).subrange(0, 32) == author,
        from_be(order_value_bytes(author, seq).subrange(32, 40)) == seq,
{
    lemma_be_len(seq as nat, 8);
    lemma_pow256_8();
    lemma_be_roundtrip(seq as nat, 8);
    assert(order_value_bytes(author, seq).subrange(0, 32) =~= author);
    assert(order_value_bytes(author, seq).subrange(32, 40) =~= be64(seq));
}

/// A record that could not be read back.
pub fn corrupt(what: &str) -> (e: StoreError)
    ensures
        e matches StoreError::Corrupt(w) && w@ == what@,
{
    StoreError::Corrupt(what.to_owned())
}

/// Reads the Lamport field out of an order-index key.
pub fn lamport_from_order_key(key: &[u8]) -> (r: Result<u64, StoreError>)
    ensures
        key@.len() >= ID_LEN + SEQ_LEN ==> r == Ok::<u64, StoreError>(
            from_be(key@.subrange(ID_LEN as int, (ID_LEN + SEQ_LEN) as int)) as u64,
        ),
        key@.len() < ID_LEN + SEQ_LEN ==> (r matches Err(StoreError::Corrupt(w)) && w@ == "order key is too short"@),
{
    if key.len() < ID_LEN + SEQ_LEN {
        return Err(corrupt("order key is too short"));
    }
    let field = vstd::slice::slice_subrange(key, ID_LEN, ID_LEN + SEQ_LEN);
    Ok(read_be64(field))
}

/// Reads the event id out of an order-index key.
pub fn event_from_order_key(key: &[u8]) -> (r: Result<EventId, StoreError>)
    ensures
        key@.len() == ID_LEN + SEQ_LEN + 32 ==> (r matches Ok(id) && id@ == key@.skip((ID_LEN + SEQ_LEN) as int)),
        key@.len() != ID_LEN + SEQ_LEN + 32 ==> (r matches Err(StoreError::Corrupt(w)) && w@ == "order key has no event id"@),
{
    if key.len() < ID_LEN + SEQ_LEN {
        return Err(corrupt("order key has no event id"));
    }
    let rest = vstd::slice::slice_subrange(key, ID_LEN + SEQ_LEN, key.len());
    match EventId::try_from_slice(rest) {
        Some(id) => Ok(id),
        None => Err(corrupt("order key has no event id")),
    }
}

/// Chain keys sort as (community, author, sequence) does: a range scan
/// walks communities in order, each author's chain within them, and each
/// chain in sequence order.
pub proof fn law_chain_keys_sort_by_community_author_sequence(
    c1: Seq<u8>,
    a1: Seq<u8>,
    s1: u64,
    c2: Seq<u8>,
    a2: Seq<u8>,
    s2: u64,
)
    requires
        c1.len() == 32,
        c2.len() == 32,
        a1.len() == 32,
        a2.len() == 32,
    ensures
        bytes_less(chain_key(c1, a1, s1), chain_key(c2, a2, s2)) <==> (bytes_less(c1, c2) || (c1 == c2 && (bytes_less(a1, a2)
            || (a1 == a2 && s1 < s2)))),
{
    if c1 != c2 {
        assert(chain_key(c1, a1, s1) =~= c1 + (a1 + be64(s1)));
        assert(chain_key(c2, a2, s2) =~= c2 + (a2 + be64(s2)));
        lemma_bytes_less_prefix_decides(c1, c2, a1 + be64(s1), a2 + be64(s2));
    } else if a1 != a2 {
        assert(chain_key(c1, a1, s1) =~= c1 + (a1 + be64(s1)));
        assert(chain_key(c2, a2, s2) =~= c1 + (a2 + be64(s2)));
        lemma_bytes_less_common_prefix(c1, a1 + be64(s1), a2 + be64(s2));
        lemma_bytes_less_prefix_decides(a1, a2, be64(s1), be64(s2));
        lemma_bytes_less_irreflexive(c1);
    } else {
        law_chain_keys_sort_by_sequence(c1, a1, s1, s2);
        lemma_bytes_less_irreflexive(c1);
        lemma_bytes_less_irreflexive(a1);
    }
}

/// The peer bounds of a community enclose every peer key of it whose peer
/// id fits the padding (128 bytes), and no peer key of any other community,
/// whatever its length.
pub proof fn law_peer_bounds_enclose_the_community(community: Seq<u8>, other: Seq<u8>, peer: Seq<u8>)
    requires
        community.len() == 32,
        other.len() == 32,
    ensures
        ({
            let lo = community;
            let hi = community + filled(0xff, 128);
            let key = other + peer;
            other == community && peer.len() <= 128 ==> (lo == key || bytes_less(lo, key)) && (key == hi
                || bytes_less(key, hi))
        }),
        ({
            let lo = community + Seq::<u8>::empty();
            let hi = community + filled(0xff, 128);
            let key = other + peer;
            other != community ==> bytes_less(key, community) || bytes_less(hi, key)
        }),
{
    if other == community && peer.len() <= 128 {
        assert(community =~= community + Seq::<u8>::empty());
        lemma_bytes_less_common_prefix(community, Seq::<u8>::empty(), peer);
        lemma_bytes_less_common_prefix(community, peer, filled(0xff, 128));
        lemma_peer_below_top_rest(peer, 128);
        if peer.len() > 0 {
            assert(bytes_less(Seq::<u8>::empty(), peer));
        } else {
            assert(peer =~= Seq::<u8>::empty());
        }
    } else if other != community {
        assert(community =~= community + Seq::<u8>::empty());
        lemma_bytes_less_prefix_decides(other, community, peer, Seq::<u8>::empty());
        lemma_bytes_less_prefix_decides(community, other, filled(0xff, 128), peer);
        crate::proto::ids::lemma_bytes_less_total(other, community);
    }
}

/// Anything up to `n` bytes long is at most `n` bytes of 0xff.
proof fn lemma_peer_below_top_rest(x: Seq<u8>, n: nat)
    requires
        x.len() <= n,
    ensures
        x == filled(0xff, n) || bytes_less(x, filled(0xff, n)),
    decreases x.len(),
{
    let f = filled(0xff, n);
    if x.len() == 0 {
        if n == 0 {
            assert(x =~= f);
        } else {
            assert(f.len() > 0);
        }
    } else {
        assert(f[0] == 0xff);
        if x[0] == 0xff {
            lemma_peer_below_top_rest(x.drop_first(), (n - 1) as nat);
            assert(f.drop_first() =~= filled(0xff, (n - 1) as nat));
            if x.drop_first() == filled(0xff, (n - 1) as nat) {
                assert forall|i: int| 0 <= i < x.len() implies x[i] == f[i] by {
                    if i > 0 {
                        assert(x[i] == x.drop_first()[i - 1]);
                    }
                }
                assert(x =~= f);
            }
        }
    }
}

} // verus!
