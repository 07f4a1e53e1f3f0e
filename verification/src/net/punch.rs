//! Two machines that cannot be dialled, connecting to each other anyway.
//!
//! A NAT drops packets from strangers but forwards replies to packets sent
//! out. So if two nodes behind routers send to each other at the same
//! moment, each router takes the other's packet for a reply, both holes
//! open, and the connection is direct. Each side needs the other's public
//! address, learned when they first met, and the moment to fire, which both
//! sides calculate from the pair of peer ids and the clock without a
//! message passing between them.
//!
//! Peer ids are handled in their binary form. Their byte order is the order
//! libp2p gives them: both kinds of peer id start with a one-byte code and a
//! one-byte length, so comparing the bytes compares code, then length, then
//! digest.

use vstd::prelude::*;

use crate::proto::ids::{blake3_hash, blake3_of, bytes_less, lemma_bytes_less_asymmetric, lemma_bytes_less_total};
use crate::net::ip::{addr_is_global, addr_is_global_spec, ip_of_text, parse_ip, split_on, split_text, IpModel, IpValue};
use crate::session::same_text;
use crate::store::order::bytes_lt;

verus! {

/// How often a pair gets a chance to punch, in milliseconds. Short enough
/// that reconnecting feels immediate, long enough that a pair who cannot
/// punch are not hammering each other's routers.
pub const PERIOD_MS: u64 = 2000;

/// How far either side of the pair's moment still counts, in
/// milliseconds: generous next to the clock error between two
/// NTP-synchronised machines.
pub const WINDOW_MS: u64 = 250;

pub open spec fn punch_domain() -> Seq<u8> {
    seq![107u8, 97, 104, 117, 105, 46, 112, 117, 110, 99, 104, 46, 118, 49]
}

/// The little-endian number held in `b[i..8]`.
pub open spec fn le_from(b: Seq<u8>, i: int) -> int
    decreases 8 - i,
{
    if i >= 8 {
        0
    } else {
        b[i] + 256 * le_from(b, i + 1)
    }
}

/// The two ids in byte order.
pub open spec fn ordered(a: Seq<u8>, b: Seq<u8>) -> (Seq<u8>, Seq<u8>) {
    if bytes_less(b, a) {
        (b, a)
    } else {
        (a, b)
    }
}

/// Where in the period a pair's window sits: the first eight bytes of a
/// hash of the pair, in byte order, as a little-endian number, modulo the
/// period.
pub open spec fn offset_of(a: Seq<u8>, b: Seq<u8>) -> int {
    let (first, second) = ordered(a, b);
    le_from(blake3_of(punch_domain() + first + second), 0) % (PERIOD_MS as int)
}

/// The distance between two points of the period, the short way round.
pub open spec fn circle_distance(x: int, y: int) -> int {
    let d = if x >= y { x - y } else { y - x };
    if d <= PERIOD_MS - d {
        d
    } else {
        PERIOD_MS - d
    }
}

/// Whether `now` falls in the pair's window.
pub open spec fn window_at(a: Seq<u8>, b: Seq<u8>, now: int) -> bool {
    circle_distance(now % (PERIOD_MS as int), offset_of(a, b)) <= WINDOW_MS
}

/// Where in the period this pair's window sits. Order-independent, which is
/// why the ids are put in order before hashing.
pub fn offset_ms(a: &[u8], b: &[u8]) -> (off: u64)
    requires
        a@.len() + b@.len() + 14 <= usize::MAX,
    ensures
        off == offset_of(a@, b@),
        off < PERIOD_MS,
{
    let swap = bytes_lt(b, a);
    let mut input: Vec<u8> = Vec::new();
    input.extend_from_slice(&[107u8, 97, 104, 117, 105, 46, 112, 117, 110, 99, 104, 46, 118, 49]);
    if swap {
        input.extend_from_slice(b);
        input.extend_from_slice(a);
    } else {
        input.extend_from_slice(a);
        input.extend_from_slice(b);
    }
    proof {
        let (first, second) = ordered(a@, b@);
        assert(input@ =~= punch_domain() + first + second);
    }
    let digest = blake3_hash(input.as_slice());
    let ghost d = digest@;
    // The first eight bytes, little-endian, reduced as they are read: the
    // remainder is all that is needed, and it never grows past the period.
    let mut v: u64 = 0;
    let mut i: usize = 8;
    while i > 0
        invariant
            d == digest@,
            d.len() == 32,
            i <= 8,
            v < PERIOD_MS,
            v == le_from(d, i as int) % (PERIOD_MS as int),
        decreases i,
    {
        i -= 1;
        let byte = digest[i] as u64;
        proof {
            let m = PERIOD_MS as int;
            let rest = le_from(d, i + 1);
            assert(le_from(d, i as int) == d[i as int] + 256 * rest);
            vstd::arithmetic::div_mod::lemma_mul_mod_noop_right(256, rest, m);
            vstd::arithmetic::div_mod::lemma_add_mod_noop(d[i as int] as int, 256 * rest, m);
            vstd::arithmetic::div_mod::lemma_add_mod_noop(d[i as int] as int, 256 * (rest % m), m);
            vstd::arithmetic::div_mod::lemma_mod_twice(256 * rest, m);
            assert((256 * (rest % m)) % m == (256 * rest) % m);
        }
        v = (byte + 256 * v) % PERIOD_MS;
    }
    v
}

/// Whether now is a moment for these two to dial each other.
///
/// A pure function of the pair and the clock, which is the whole point:
/// both sides reach it independently and simultaneously, having exchanged
/// nothing.
pub fn is_window(a: &[u8], b: &[u8], now_ms: u64) -> (w: bool)
    requires
        a@.len() + b@.len() + 14 <= usize::MAX,
    ensures
        w == window_at(a@, b@, now_ms as int),
{
    let offset = offset_ms(a, b);
    let position = now_ms % PERIOD_MS;
    let d = if position >= offset { position - offset } else { offset - position };
    let distance = if d <= PERIOD_MS - d { d } else { PERIOD_MS - d };
    distance <= WINDOW_MS
}

/// Both sides of a pair work out the same moments: the window does not
/// depend on which of the two is asking.
pub proof fn law_window_is_symmetric(a: Seq<u8>, b: Seq<u8>, now: int)
    ensures
        window_at(a, b, now) == window_at(b, a, now),
        offset_of(a, b) == offset_of(b, a),
{
    lemma_bytes_less_total(a, b);
    lemma_bytes_less_asymmetric(a, b);
    assert(ordered(a, b) == ordered(b, a));
}

/// Every period holds a moment for every pair: the pair's own offset.
pub proof fn law_every_period_has_a_window(a: Seq<u8>, b: Seq<u8>, k: nat)
    ensures
        window_at(a, b, k * (PERIOD_MS as int) + offset_of(a, b)),
{
    let m = PERIOD_MS as int;
    let off = offset_of(a, b);
    assert(0 <= off < m);
    vstd::arithmetic::div_mod::lemma_mod_multiples_vanish(k as int, off, m);
    vstd::arithmetic::div_mod::lemma_small_mod(off as nat, m as nat);
    assert((k * m + off) % m == off % m) by {
        vstd::arithmetic::mul::lemma_mul_is_commutative(k as int, m);
    }
}

/// The window comes round again every period.
pub proof fn law_window_repeats_every_period(a: Seq<u8>, b: Seq<u8>, now: int)
    ensures
        window_at(a, b, now + PERIOD_MS) == window_at(a, b, now),
{
    vstd::arithmetic::div_mod::lemma_mod_add_multiples_vanish(now, PERIOD_MS as int);
}

/// Within the window, on the early side of the pair's moment, a clock that
/// runs 100 ms ahead still lands in the window: two machines whose clocks
/// disagree by that much still overlap.
pub proof fn law_window_tolerates_a_fast_clock(a: Seq<u8>, b: Seq<u8>, now: int)
    requires
        (offset_of(a, b) - now % (PERIOD_MS as int) + PERIOD_MS) % (PERIOD_MS as int) <= WINDOW_MS,
    ensures
        window_at(a, b, now),
        window_at(a, b, now + 100),
{
    let m = PERIOD_MS as int;
    let p = now % m;
    let off = offset_of(a, b);
    assert(0 <= off < m);
    assert(0 <= p < m);
    let d = (off - p + m) % m;
    assert(0 <= off - p + m < 2 * m);
    if off - p + m >= m {
        assert(d == off - p) by {
            vstd::arithmetic::div_mod::lemma_mod_sub_multiples_vanish(off - p + m, m);
            vstd::arithmetic::div_mod::lemma_small_mod((off - p) as nat, m as nat);
        }
    } else {
        vstd::arithmetic::div_mod::lemma_small_mod((off - p + m) as nat, m as nat);
        assert(d == off - p + m);
    }
    vstd::arithmetic::div_mod::lemma_add_mod_noop(now, 100, m);
    vstd::arithmetic::div_mod::lemma_small_mod(100, m as nat);
    let q = (now + 100) % m;
    assert(q == (p + 100) % m);
    if p + 100 < m {
        vstd::arithmetic::div_mod::lemma_small_mod((p + 100) as nat, m as nat);
    } else {
        vstd::arithmetic::div_mod::lemma_mod_sub_multiples_vanish(p + 100, m);
        vstd::arithmetic::div_mod::lemma_small_mod((p + 100 - m) as nat, m as nat);
    }
}

/// Measured from the first millisecond of the pair's window in a period, a
/// clock that runs 100 ms ahead still lands in the window: two machines
/// whose clocks disagree by that much still overlap. The one exception is a
/// window that wraps past the start of the period by less than 100 ms,
/// where the first millisecond is the period's start and the window ends
/// before 100.
pub proof fn law_window_holds_a_fast_clock(a: Seq<u8>, b: Seq<u8>, c: int)
    requires
        0 <= c < PERIOD_MS,
        window_at(a, b, c),
        forall|ms: int| 0 <= ms < c ==> !#[trigger] window_at(a, b, ms),
        !(PERIOD_MS - WINDOW_MS <= offset_of(a, b) < PERIOD_MS - WINDOW_MS + 100),
    ensures
        window_at(a, b, c + 100),
{
    let m = PERIOD_MS as int;
    let w = WINDOW_MS as int;
    let o = offset_of(a, b);
    assert(0 <= o < m);
    vstd::arithmetic::div_mod::lemma_small_mod(c as nat, m as nat);
    vstd::arithmetic::div_mod::lemma_small_mod(0, m as nat);
    if o < w || o >= m - w + 100 {
        assert(window_at(a, b, 0));
        assert(c == 0);
        vstd::arithmetic::div_mod::lemma_small_mod(100, m as nat);
    } else {
        assert(o < m - w);
        vstd::arithmetic::div_mod::lemma_small_mod((o - w) as nat, m as nat);
        assert(window_at(a, b, o - w));
        assert(c <= o - w);
        assert(c >= o - w);
        vstd::arithmetic::div_mod::lemma_small_mod((c + 100) as nat, m as nat);
    }
}

/// Where the window wraps past the start of the period by less than 100 ms,
/// the period's first millisecond is in the window and the hundredth is not.
pub proof fn law_a_barely_wrapped_window_misses_a_fast_clock(a: Seq<u8>, b: Seq<u8>)
    requires
        PERIOD_MS - WINDOW_MS <= offset_of(a, b) < PERIOD_MS - WINDOW_MS + 100,
    ensures
        window_at(a, b, 0),
        !window_at(a, b, 100),
{
    vstd::arithmetic::div_mod::lemma_small_mod(0, PERIOD_MS as nat);
    vstd::arithmetic::div_mod::lemma_small_mod(100, PERIOD_MS as nat);
}

/// A point at most one period either side of the period, brought back into
/// it.
proof fn lemma_wrap(v: int)
    requires
        -(PERIOD_MS as int) <= v < 2 * PERIOD_MS,
    ensures
        v % (PERIOD_MS as int) == (if v < 0 {
            v + PERIOD_MS
        } else if v < PERIOD_MS {
            v
        } else {
            v - PERIOD_MS
        }),
{
    let m = PERIOD_MS as int;
    if v < 0 {
        vstd::arithmetic::div_mod::lemma_mod_add_multiples_vanish(v, m);
        vstd::arithmetic::div_mod::lemma_small_mod((v + m) as nat, m as nat);
    } else if v < m {
        vstd::arithmetic::div_mod::lemma_small_mod(v as nat, m as nat);
    } else {
        vstd::arithmetic::div_mod::lemma_mod_sub_multiples_vanish(v, m);
        vstd::arithmetic::div_mod::lemma_small_mod((v - m) as nat, m as nat);
    }
}

/// The milliseconds of one period that fall in a pair's window: the pair's
/// moment and `WINDOW_MS` either side of it, taken round the period.
pub open spec fn window_points(a: Seq<u8>, b: Seq<u8>) -> Set<int> {
    Set::new(|ms: int| 0 <= ms < PERIOD_MS && window_at(a, b, ms))
}

/// Every pair gets the same share of each period: its moment and
/// `WINDOW_MS` milliseconds either side, so more than none of the period and
/// less than half of it.
pub proof fn law_window_share_is_fixed(a: Seq<u8>, b: Seq<u8>)
    ensures
        window_points(a, b).finite(),
        window_points(a, b).len() == 2 * WINDOW_MS + 1,
        0 < window_points(a, b).len() < PERIOD_MS / 2,
{
    let m = PERIOD_MS as int;
    let w = WINDOW_MS as int;
    let o = offset_of(a, b);
    assert(0 <= o < m);
    let x = vstd::set_lib::set_int_range(-w, w + 1);
    let f = |d: int| (o + d) % m;
    let y = x.map(f);
    vstd::set_lib::lemma_int_range(-w, w + 1);
    assert forall|d1: int, d2: int| x.contains(d1) && x.contains(d2) && #[trigger] f(d1) == #[trigger] f(d2) implies d1
        == d2 by {
        lemma_wrap(o + d1);
        lemma_wrap(o + d2);
    }
    assert(vstd::relations::injective_on(f, x));
    assert forall|ms: int| #[trigger] window_points(a, b).contains(ms) <==> y.contains(ms) by {
        if window_points(a, b).contains(ms) {
            vstd::arithmetic::div_mod::lemma_small_mod(ms as nat, m as nat);
            let d = if ms >= o {
                if ms - o <= w { ms - o } else { ms - o - m }
            } else {
                if o - ms <= w { ms - o } else { ms - o + m }
            };
            lemma_wrap(o + d);
            assert(x.contains(d));
            assert(f(d) == ms);
        }
        if y.contains(ms) {
            let d = choose|d: int| x.contains(d) && f(d) == ms;
            lemma_wrap(o + d);
            vstd::arithmetic::div_mod::lemma_small_mod(ms as nat, m as nat);
        }
    }
    assert(window_points(a, b) =~= y);
    vstd::set_lib::lemma_map_size(x, y, f);
}

/// An address that goes through somebody else's connection.
pub open spec fn names_circuit(pieces: Seq<Seq<char>>) -> bool {
    exists|k: int| 0 <= k < pieces.len() && #[trigger] pieces[k] == "p2p-circuit"@
}

pub open spec fn is_unspecified(ip: IpModel) -> bool {
    match ip {
        IpModel::V4(o) => o == seq![0u8, 0, 0, 0],
        IpModel::V6(s) => s == seq![0u16, 0, 0, 0, 0, 0, 0, 0],
    }
}

/// An address whose IP is a wildcard: it names a socket on this machine,
/// not a place anybody could aim at.
pub open spec fn names_unspecified(pieces: Seq<Seq<char>>) -> bool {
    exists|k: int| 0 <= k < pieces.len() - 1 && #[trigger] wildcard_piece(pieces, k)
}

/// Piece `k` names an IP version and the next piece is a wildcard address.
pub open spec fn wildcard_piece(pieces: Seq<Seq<char>>, k: int) -> bool {
    (pieces[k] == "ip4"@ || pieces[k] == "ip6"@) && (ip_of_text(pieces[k + 1]) matches Some(ip) && is_unspecified(ip))
}

/// Whether an address is worth aiming a punch at.
pub open spec fn punchable(addr: Seq<char>, allow_private: bool) -> bool {
    let pieces = split_on(addr, '/');
    !names_circuit(pieces) && (addr_is_global_spec(addr) || (allow_private && !names_unspecified(pieces)))
}

fn ip_is_unspecified(ip: &IpValue) -> (b: bool)
    ensures
        b == is_unspecified(ip@),
{
    match ip {
        IpValue::V4(o) => {
            let b = o[0] == 0 && o[1] == 0 && o[2] == 0 && o[3] == 0;
            proof {
                if b {
                    assert(o@ =~= seq![0u8, 0, 0, 0]);
                } else if o@ == seq![0u8, 0, 0, 0] {
                    assert(o@[0] == 0 && o@[1] == 0 && o@[2] == 0 && o@[3] == 0);
                }
            }
            b
        },
        IpValue::V6(s) => {
            let b = s[0] == 0 && s[1] == 0 && s[2] == 0 && s[3] == 0 && s[4] == 0 && s[5] == 0 && s[6] == 0 && s[7] == 0;
            proof {
                if b {
                    assert(s@ =~= seq![0u16, 0, 0, 0, 0, 0, 0, 0]);
                } else if s@ == seq![0u16, 0, 0, 0, 0, 0, 0, 0] {
                    assert(s@[0] == 0 && s@[1] == 0 && s@[2] == 0 && s@[3] == 0);
                    assert(s@[4] == 0 && s@[5] == 0 && s@[6] == 0 && s@[7] == 0);
                }
            }
            b
        },
    }
}

/// Piece `k` names an IP version and the next piece is a wildcard address.
fn wildcard_at(pieces: &Vec<String>, k: usize) -> (b: bool)
    requires
        k + 1 < pieces@.len(),
    ensures
        b == wildcard_piece(pieces@.map_values(|p: String| p@), k as int),
{
    let ghost ps = pieces@.map_values(|p: String| p@);
    assert(k + 1 < pieces.len());
    assert(ps[k as int] == pieces@[k as int]@);
    assert(ps[k + 1] == pieces@[k + 1]@);
    if same_text(pieces[k].as_str(), "ip4") || same_text(pieces[k].as_str(), "ip6") {
        match parse_ip(pieces[k + 1].as_str()) {
            Some(ip) => ip_is_unspecified(&ip),
            None => false,
        }
    } else {
        false
    }
}

/// Whether an address is worth aiming a punch at: only a globally
/// routable one, since a punch works by getting a packet to the other
/// side's router, and a private address does not name anybody's router.
pub fn is_punchable(addr: &str) -> (b: bool)
    ensures
        b == punchable(addr@, false),
{
    is_punchable_with(addr, false)
}

/// As [`is_punchable`], but able to count private addresses: on an
/// isolated network the private addresses are the real ones. Never a
/// wildcard, though, and never a relayed address, which is already
/// somebody else's connection rather than a hole to open.
pub fn is_punchable_with(addr: &str, allow_private: bool) -> (b: bool)
    ensures
        b == punchable(addr@, allow_private),
{
    let pieces = split_text(addr, '/');
    let ghost ps = split_on(addr@, '/');
    let mut i: usize = 0;
    while i < pieces.len()
        invariant
            pieces@.map_values(|p: String| p@) == ps,
            ps == split_on(addr@, '/'),
            i <= ps.len(),
            forall|k: int| 0 <= k < i ==> ps[k] != "p2p-circuit"@,
        decreases ps.len() - i,
    {
        assert(ps[i as int] == pieces@[i as int]@);
        if same_text(pieces[i].as_str(), "p2p-circuit") {
            assert(ps[i as int] == "p2p-circuit"@);
            return false;
        }
        i += 1;
    }
    if addr_is_global(addr) {
        return true;
    }
    if !allow_private {
        return false;
    }
    proof {
        crate::net::ip::lemma_split_on_nonempty(addr@, '/');
    }
    let last = pieces.len() - 1;
    let mut k: usize = 0;
    while k < last
        invariant
            pieces@.map_values(|p: String| p@) == ps,
            ps == split_on(addr@, '/'),
            ps.len() >= 1,
            last == ps.len() - 1,
            k <= last,
            forall|j: int| 0 <= j < k ==> !#[trigger] wildcard_piece(ps, j),
            !names_circuit(ps),
            !addr_is_global_spec(addr@),
            allow_private,
        decreases last - k,
    {
        if wildcard_at(&pieces, k) {
            assert(wildcard_piece(ps, k as int));
            return false;
        }
        k += 1;
    }
    true
}

} // verus!
