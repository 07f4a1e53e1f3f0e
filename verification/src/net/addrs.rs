//! Which of a node's addresses to hand out, best first.

use vstd::prelude::*;

use crate::net::invite::strings_view;
use crate::net::ip::{ip_of_text, parse_ip, split_on, split_text, IpModel, IpValue};
use crate::net::punch::names_circuit;
use crate::session::same_text;
use crate::text::{append_str, push_char};

verus! {

pub open spec fn ip_is_loopback(ip: IpModel) -> bool {
    match ip {
        IpModel::V4(o) => o[0] == 127,
        IpModel::V6(s) => s == seq![0u16, 0, 0, 0, 0, 0, 0, 1],
    }
}

/// Piece `k` names an IP version and the next piece is a loopback address.
pub open spec fn loopback_piece(pieces: Seq<Seq<char>>, k: int) -> bool {
    (pieces[k] == "ip4"@ || pieces[k] == "ip6"@) && (ip_of_text(pieces[k + 1]) matches Some(ip) && ip_is_loopback(ip))
}

/// An address that only reaches this machine.
pub open spec fn is_loopback_addr(addr: Seq<char>) -> bool {
    let pieces = split_on(addr, '/');
    exists|k: int| 0 <= k < pieces.len() - 1 && #[trigger] loopback_piece(pieces, k)
}

/// An address that reaches a node through somebody else.
pub open spec fn is_circuit_addr(addr: Seq<char>) -> bool {
    names_circuit(split_on(addr, '/'))
}

/// How good an address is to offer: a direct routable one first, a relayed
/// one second (slower, and it costs a member bandwidth, but it works from
/// anywhere), loopback last (it only helps somebody on this machine).
pub open spec fn rank(addr: Seq<char>) -> int {
    if is_loopback_addr(addr) {
        2
    } else if is_circuit_addr(addr) {
        1
    } else {
        0
    }
}

fn loopback_ip(ip: &IpValue) -> (b: bool)
    ensures
        b == ip_is_loopback(ip@),
{
    match ip {
        IpValue::V4(o) => o[0] == 127,
        IpValue::V6(s) => {
            let b = s[0] == 0 && s[1] == 0 && s[2] == 0 && s[3] == 0 && s[4] == 0 && s[5] == 0 && s[6] == 0 && s[7] == 1;
            proof {
                if b {
                    assert(s@ =~= seq![0u16, 0, 0, 0, 0, 0, 0, 1]);
                } else if s@ == seq![0u16, 0, 0, 0, 0, 0, 0, 1] {
                    assert(s@[0] == 0 && s@[1] == 0 && s@[2] == 0 && s@[3] == 0);
                    assert(s@[4] == 0 && s@[5] == 0 && s@[6] == 0 && s@[7] == 1);
                }
            }
            b
        },
    }
}

fn loopback_at(pieces: &Vec<String>, k: usize) -> (b: bool)
    requires
        k + 1 < pieces@.len(),
    ensures
        b == loopback_piece(pieces@.map_values(|p: String| p@), k as int),
{
    let ghost ps = pieces@.map_values(|p: String| p@);
    assert(k + 1 < pieces.len());
    assert(ps[k as int] == pieces@[k as int]@);
    assert(ps[k + 1] == pieces@[k + 1]@);
    if same_text(pieces[k].as_str(), "ip4") || same_text(pieces[k].as_str(), "ip6") {
        match parse_ip(pieces[k + 1].as_str()) {
            Some(ip) => loopback_ip(&ip),
            None => false,
        }
    } else {
        false
    }
}

pub fn is_loopback(addr: &str) -> (b: bool)
    ensures
        b == is_loopback_addr(addr@),
{
    let pieces = split_text(addr, '/');
    let ghost ps = split_on(addr@, '/');
    proof {
        crate::net::ip::lemma_split_on_nonempty(addr@, '/');
    }
    let last = pieces.len() - 1;
    let mut k: usize = 0;
    while k < last
        invariant
            pieces@.map_values(|p: String| p@) == ps,
            ps == split_on(addr@, '/'),
            ps.len() >= 1,
            last == ps.len() - 1,
            k <= last,
            forall|j: int| 0 <= j < k ==> !#[trigger] loopback_piece(ps, j),
        decreases last - k,
    {
        if loopback_at(&pieces, k) {
            assert(loopback_piece(ps, k as int));
            return true;
        }
        k += 1;
    }
    false
}

pub fn is_circuit(addr: &str) -> (b: bool)
    ensures
        b == is_circuit_addr(addr@),
{
    let pieces = split_text(addr, '/');
    let ghost ps = split_on(addr@, '/');
    let mut i: usize = 0;
    while i < pieces.len()
        invariant
            pieces@.map_values(|p: String| p@) == ps,
            ps == split_on(addr@, '/'),
            i <= ps.len(),
            forall|k: int| 0 <= k < i ==> ps[k] != "p2p-circuit"@,
        decreases ps.len() - i,
    {
        assert(ps[i as int] == pieces@[i as int]@);
        if same_text(pieces[i].as_str(), "p2p-circuit") {
            assert(ps[i as int] == "p2p-circuit"@);
            return true;
        }
        i += 1;
    }
    false
}

fn rank_of(addr: &str) -> (r: u8)
    ensures
        r == rank(addr@),
{
    if is_loopback(addr) {
        2
    } else if is_circuit(addr) {
        1
    } else {
        0
    }
}

/// The addresses of rank `r`, in order.
pub open spec fn of_rank(s: Seq<Seq<char>>, r: int) -> Seq<Seq<char>>
    decreases s.len(),
{
    if s.len() == 0 {
        seq![]
    } else {
        let rest = of_rank(s.drop_last(), r);
        if rank(s.last()) == r {
            rest.push(s.last())
        } else {
            rest
        }
    }
}

/// `s` without an element equal to the one before it.
pub open spec fn dedup(s: Seq<Seq<char>>) -> Seq<Seq<char>>
    decreases s.len(),
{
    if s.len() == 0 {
        seq![]
    } else {
        let rest = dedup(s.drop_last());
        if s.len() >= 2 && s[s.len() - 2] == s.last() {
            rest
        } else {
            rest.push(s.last())
        }
    }
}

/// Addresses worth telling other people about, best first: sorted by rank,
/// keeping the order they came in within a rank, and a repeat next to
/// itself dropped.
pub open spec fn offered(s: Seq<Seq<char>>) -> Seq<Seq<char>> {
    dedup(of_rank(s, 0) + of_rank(s, 1) + of_rank(s, 2))
}

fn collect_rank(addrs: &Vec<String>, r: u8, out: &mut Vec<String>)
    ensures
        strings_view(final(out)@) == strings_view(old(out)@) + of_rank(strings_view(addrs@), r as int),
{
    let ghost s = strings_view(addrs@);
    let ghost start = strings_view(out@);
    let mut i: usize = 0;
    while i < addrs.len()
        invariant
            s == strings_view(addrs@),
            i <= s.len(),
            strings_view(out@) == start + of_rank(s.take(i as int), r as int),
        decreases s.len() - i,
    {
        assert(s.take(i + 1).drop_last() =~= s.take(i as int));
        assert(s[i as int] == addrs@[i as int]@);
        if rank_of(addrs[i].as_str()) == r {
            let ghost o0 = strings_view(out@);
            out.push(addrs[i].clone());
            assert(strings_view(out@) =~= o0.push(s[i as int]));
            assert(start + of_rank(s.take(i + 1), r as int) =~= (start + of_rank(s.take(i as int), r as int)).push(s[i as int]));
        }
        i += 1;
    }
    assert(s.take(s.len() as int) =~= s);
}

/// Addresses worth telling other people about, best first.
pub fn public_addrs(addrs: &Vec<String>) -> (v: Vec<String>)
    ensures
        strings_view(v@) == offered(strings_view(addrs@)),
{
    let mut ranked: Vec<String> = Vec::new();
    collect_rank(addrs, 0, &mut ranked);
    collect_rank(addrs, 1, &mut ranked);
    collect_rank(addrs, 2, &mut ranked);
    let ghost s = strings_view(ranked@);
    assert(s =~= Seq::<Seq<char>>::empty() + of_rank(strings_view(addrs@), 0) + of_rank(strings_view(addrs@), 1)
        + of_rank(strings_view(addrs@), 2));
    dedup_strings(&ranked)
}

/// `v` without an element equal to the one before it.
fn dedup_strings(v: &Vec<String>) -> (out: Vec<String>)
    ensures
        strings_view(out@) == dedup(strings_view(v@)),
{
    let ghost s = strings_view(v@);
    let mut out: Vec<String> = Vec::new();
    let mut i: usize = 0;
    while i < v.len()
        invariant
            s == strings_view(v@),
            i <= s.len(),
            strings_view(out@) == dedup(s.take(i as int)),
        decreases s.len() - i,
    {
        assert(s.take(i + 1).drop_last() =~= s.take(i as int));
        assert(s[i as int] == v@[i as int]@);
        let repeat = i > 0 && same_text(v[i - 1].as_str(), v[i].as_str());
        proof {
            if i > 0 {
                assert(s[i - 1] == v@[i - 1]@);
                assert(s.take(i + 1)[i - 1] == s[i - 1]);
            }
        }
        if !repeat {
            let ghost o0 = strings_view(out@);
            out.push(v[i].clone());
            assert(strings_view(out@) =~= o0.push(s[i as int]));
        }
        i += 1;
    }
    assert(s.take(s.len() as int) =~= s);
    out
}

/// The pieces of a split address from `i` on, with each `p2p` piece and
/// the peer id after it left out.
pub open spec fn strip_from(p: Seq<Seq<char>>, i: int) -> Seq<Seq<char>>
    decreases p.len() - i,
{
    if i < 0 || i >= p.len() {
        seq![]
    } else if p[i] == "p2p"@ && i + 1 < p.len() {
        strip_from(p, i + 2)
    } else {
        seq![p[i]] + strip_from(p, i + 1)
    }
}

/// Pieces put back together with `/` between them.
pub open spec fn join_pieces(p: Seq<Seq<char>>) -> Seq<char>
    decreases p.len(),
{
    if p.len() == 0 {
        seq![]
    } else if p.len() == 1 {
        p[0]
    } else {
        join_pieces(p.drop_last()) + seq!['/'] + p.last()
    }
}

/// An address without the peer id it ends in (or names anywhere).
pub open spec fn without_peer(addr: Seq<char>) -> Seq<char> {
    join_pieces(strip_from(split_on(addr, '/'), 0))
}

/// `addr` with every `/p2p/<peer id>` part taken out.
pub fn strip_peer(addr: &str) -> (r: String)
    ensures
        r@ == without_peer(addr@),
{
    let pieces = split_text(addr, '/');
    let ghost ps = split_on(addr@, '/');
    let ghost mut kept: Seq<Seq<char>> = seq![];
    let mut out = String::new();
    let mut any = false;
    let mut i: usize = 0;
    while i < pieces.len()
        invariant
            any == (kept.len() > 0),
            pieces@.map_values(|p: String| p@) == ps,
            ps == split_on(addr@, '/'),
            i <= ps.len(),
            kept + strip_from(ps, i as int) == strip_from(ps, 0),
            out@ == join_pieces(kept),
        decreases ps.len() - i,
    {
        assert(ps[i as int] == pieces@[i as int]@);
        if i + 1 < pieces.len() && same_text(pieces[i].as_str(), "p2p") {
            proof {
                reveal_strlit("p2p");
            }
            i += 2;
        } else {
            proof {
                reveal_strlit("p2p");
                assert(strip_from(ps, i as int) == seq![ps[i as int]] + strip_from(ps, i + 1));
                assert(kept.push(ps[i as int]) + strip_from(ps, i + 1) =~= kept + strip_from(ps, i as int));
                assert(kept.push(ps[i as int]).drop_last() =~= kept);
            }
            if any {
                push_char(&mut out, '/');
            }
            any = true;
            append_str(&mut out, pieces[i].as_str());
            proof {
                kept = kept.push(ps[i as int]);
            }
            i += 1;
        }
    }
    assert(kept =~= strip_from(ps, 0));
    out
}

/// The addresses, circuits left out, each without its peer id.
pub open spec fn direct_stripped(s: Seq<Seq<char>>) -> Seq<Seq<char>>
    decreases s.len(),
{
    if s.len() == 0 {
        seq![]
    } else {
        let rest = direct_stripped(s.drop_last());
        if is_circuit_addr(s.last()) {
            rest
        } else {
            rest.push(without_peer(s.last()))
        }
    }
}

/// The addresses that are loopback ones (`b`) or are not (`!b`), in order.
pub open spec fn with_loopback(s: Seq<Seq<char>>, b: bool) -> Seq<Seq<char>>
    decreases s.len(),
{
    if s.len() == 0 {
        seq![]
    } else {
        let rest = with_loopback(s.drop_last(), b);
        if is_loopback_addr(s.last()) == b {
            rest.push(s.last())
        } else {
            rest
        }
    }
}

/// Addresses a would-be relay can be dialled on, best first: circuits left
/// out (relaying through a relay is not a thing), peer ids stripped (the
/// caller appends its own), loopback ones last, a repeat next to itself
/// dropped, and no more than four.
pub open spec fn dialable_addrs(s: Seq<Seq<char>>) -> Seq<Seq<char>> {
    let d = dedup(with_loopback(direct_stripped(s), false) + with_loopback(direct_stripped(s), true));
    if d.len() <= 4 {
        d
    } else {
        d.take(4)
    }
}

fn collect_loopback(addrs: &Vec<String>, b: bool, out: &mut Vec<String>)
    ensures
        strings_view(final(out)@) == strings_view(old(out)@) + with_loopback(strings_view(addrs@), b),
{
    let ghost s = strings_view(addrs@);
    let ghost start = strings_view(out@);
    let mut i: usize = 0;
    while i < addrs.len()
        invariant
            s == strings_view(addrs@),
            i <= s.len(),
            strings_view(out@) == start + with_loopback(s.take(i as int), b),
        decreases s.len() - i,
    {
        assert(s.take(i + 1).drop_last() =~= s.take(i as int));
        assert(s[i as int] == addrs@[i as int]@);
        if is_loopback(addrs[i].as_str()) == b {
            let ghost o0 = strings_view(out@);
            out.push(addrs[i].clone());
            assert(strings_view(out@) =~= o0.push(s[i as int]));
            assert(start + with_loopback(s.take(i + 1), b) =~= (start + with_loopback(s.take(i as int), b)).push(
                s[i as int],
            ));
        }
        i += 1;
    }
    assert(s.take(s.len() as int) =~= s);
}

/// Addresses a would-be relay can be dialled on, best first.
pub fn dialable(addrs: &Vec<String>) -> (v: Vec<String>)
    ensures
        strings_view(v@) == dialable_addrs(strings_view(addrs@)),
{
    let ghost s = strings_view(addrs@);
    let mut stripped: Vec<String> = Vec::new();
    let mut i: usize = 0;
    while i < addrs.len()
        invariant
            s == strings_view(addrs@),
            i <= s.len(),
            strings_view(stripped@) == direct_stripped(s.take(i as int)),
        decreases s.len() - i,
    {
        assert(s.take(i + 1).drop_last() =~= s.take(i as int));
        assert(s[i as int] == addrs@[i as int]@);
        if !is_circuit(addrs[i].as_str()) {
            let ghost o0 = strings_view(stripped@);
            let bare = strip_peer(addrs[i].as_str());
            stripped.push(bare);
            assert(strings_view(stripped@) =~= o0.push(without_peer(s[i as int])));
        }
        i += 1;
    }
    assert(s.take(s.len() as int) =~= s);
    let mut sorted: Vec<String> = Vec::new();
    collect_loopback(&stripped, false, &mut sorted);
    collect_loopback(&stripped, true, &mut sorted);
    let ghost st = strings_view(stripped@);
    assert(strings_view(sorted@) =~= with_loopback(st, false) + with_loopback(st, true));
    let mut out = dedup_strings(&sorted);
    let ghost d = strings_view(out@);
    out.truncate(4);
    assert(strings_view(out@) =~= (if d.len() <= 4 { d } else { d.take(4) }));
    out
}

} // verus!
