//! Which addresses anybody on the internet could route to.
//!
//! Deliberately textual: invites and presence announcements carry addresses
//! as strings, and reading the IP out of a multiaddress needs nothing more
//! than splitting it on `/` and asking each piece whether it is an IP.

use vstd::prelude::*;

verus! {

/// An IP address as values: four octets, or eight 16-bit segments.
pub enum IpModel {
    V4(Seq<u8>),
    V6(Seq<u16>),
}

/// An IP address, as `IpAddr` holds it.
#[derive(Clone, Copy, Debug, PartialEq, Eq)]
pub enum IpValue {
    V4([u8; 4]),
    V6([u16; 8]),
}

impl View for IpValue {
    type V = IpModel;

    open spec fn view(&self) -> IpModel {
        match self {
            IpValue::V4(o) => IpModel::V4(o@),
            IpValue::V6(s) => IpModel::V6(s@),
        }
    }
}

/// What `str::parse::<IpAddr>` makes of a piece of text: the address, or
/// `None` when the text is not one.
pub uninterp spec fn ip_of_text(text: Seq<char>) -> Option<IpModel>;

/// Calls `str::parse::<IpAddr>`, whose result depends on the text alone.
/// What the result is for given text is named, not stated.
#[verifier::external_body]
pub fn parse_ip(text: &str) -> (r: Option<IpValue>)
    ensures
        ip_of_text(text@) == match r {
            Some(ip) => Some(ip@),
            None => None::<IpModel>,
        },
{
    match text.parse::<core::net::IpAddr>() {
        Ok(core::net::IpAddr::V4(v4)) => Some(IpValue::V4(v4.octets())),
        Ok(core::net::IpAddr::V6(v6)) => Some(IpValue::V6(v6.segments())),
        Err(_) => None,
    }
}

/// An IPv4 address some router on the internet could deliver to: not
/// private, loopback, link-local, broadcast, documentation, unspecified,
/// carrier-grade NAT (100.64.0.0/10) or multicast (224.0.0.0/4).
pub open spec fn v4_is_global(o: Seq<u8>) -> bool {
    let private = o[0] == 10 || (o[0] == 172 && 16 <= o[1] <= 31) || (o[0] == 192 && o[1] == 168);
    let loopback = o[0] == 127;
    let link_local = o[0] == 169 && o[1] == 254;
    let broadcast = o[0] == 255 && o[1] == 255 && o[2] == 255 && o[3] == 255;
    let documentation = (o[0] == 192 && o[1] == 0 && o[2] == 2) || (o[0] == 198 && o[1] == 51 && o[2] == 100) || (
    o[0] == 203 && o[1] == 0 && o[2] == 113);
    let unspecified = o[0] == 0 && o[1] == 0 && o[2] == 0 && o[3] == 0;
    let shared = o[0] == 100 && 64 <= o[1] < 128;
    let multicast = 224 <= o[0] <= 239;
    !(private || loopback || link_local || broadcast || documentation || unspecified || shared || multicast)
}

/// An IPv6 address some router could deliver to: not loopback, not
/// unspecified, not unique-local (fc00::/7), not link-local (fe80::/10),
/// not documentation (2001:db8::/32) and not multicast (ff00::/8).
pub open spec fn v6_is_global(s: Seq<u16>) -> bool {
    let zero_head = s[0] == 0 && s[1] == 0 && s[2] == 0 && s[3] == 0 && s[4] == 0 && s[5] == 0 && s[6] == 0;
    let loopback = zero_head && s[7] == 1;
    let unspecified = zero_head && s[7] == 0;
    let unique_local = 0xfc00 <= s[0] <= 0xfdff;
    let link_local = 0xfe80 <= s[0] <= 0xfebf;
    let documentation = s[0] == 0x2001 && s[1] == 0x0db8;
    let multicast = 0xff00 <= s[0];
    !(loopback || unspecified || unique_local || link_local || documentation || multicast)
}

pub open spec fn ip_is_global(ip: IpModel) -> bool {
    match ip {
        IpModel::V4(o) => v4_is_global(o),
        IpModel::V6(s) => v6_is_global(s),
    }
}

/// Text that is an IP address some router could deliver to.
pub open spec fn text_is_global(t: Seq<char>) -> bool {
    match ip_of_text(t) {
        Some(ip) => ip_is_global(ip),
        None => false,
    }
}

/// The pieces `str::split` gives: everything between separators, including
/// empty pieces at either end.
pub open spec fn split_on(s: Seq<char>, sep: char) -> Seq<Seq<char>>
    decreases s.len(),
{
    if s.len() == 0 {
        seq![seq![]]
    } else {
        let rest = split_on(s.drop_last(), sep);
        if s.last() == sep {
            rest.push(seq![])
        } else {
            rest.update(rest.len() - 1, rest.last().push(s.last()))
        }
    }
}

pub proof fn lemma_split_on_nonempty(s: Seq<char>, sep: char)
    ensures
        split_on(s, sep).len() >= 1,
    decreases s.len(),
{
    if s.len() > 0 {
        lemma_split_on_nonempty(s.drop_last(), sep);
    }
}

/// The pieces of `text` between separators, as `str::split` gives them.
pub fn split_text(text: &str, sep: char) -> (v: Vec<String>)
    ensures
        v@.map_values(|p: String| p@) == split_on(text@, sep),
{
    let ghost s = text@;
    let n = text.unicode_len();
    let mut start: usize = 0;
    let mut i: usize = 0;
    let mut out: Vec<String> = Vec::new();
    assert(s.take(0) =~= Seq::<char>::empty());
    assert(split_on(s.take(0), sep) =~= seq![s.subrange(0, 0)]);
    while i < n
        invariant
            s == text@,
            n == s.len(),
            start <= i <= n,
            ({
                let parts = split_on(s.take(i as int), sep);
                &&& parts.len() >= 1
                &&& parts.last() == s.subrange(start as int, i as int)
                &&& out@.map_values(|p: String| p@) == parts.drop_last()
            }),
        decreases n - i,
    {
        let c = text.get_char(i);
        let ghost before = split_on(s.take(i as int), sep);
        assert(s.take(i + 1).drop_last() =~= s.take(i as int));
        assert(s.take(i + 1).last() == c);
        if c == sep {
            let piece = text.substring_char(start, i);
            let ghost o0 = out@;
            out.push(piece.to_owned());
            assert(out@.map_values(|p: String| p@) =~= o0.map_values(|p: String| p@).push(before.last()));
            start = i + 1;
            assert(split_on(s.take(i + 1), sep) == before.push(seq![]));
            assert(before.push(seq![]).drop_last() =~= before);
            assert(before =~= before.drop_last().push(before.last()));
            assert(s.subrange(start as int, i + 1) =~= seq![]);
        } else {
            assert(split_on(s.take(i + 1), sep) == before.update(before.len() - 1, before.last().push(c)));
            assert(before.update(before.len() - 1, before.last().push(c)).drop_last() =~= before.drop_last());
            assert(s.subrange(start as int, i + 1) =~= s.subrange(start as int, i as int).push(c));
        }
        i += 1;
    }
    assert(s.take(n as int) =~= s);
    let last = text.substring_char(start, n);
    let ghost o0 = out@;
    out.push(last.to_owned());
    proof {
        let parts = split_on(s, sep);
        assert(out@.map_values(|p: String| p@) =~= o0.map_values(|p: String| p@).push(parts.last()));
        assert(parts =~= parts.drop_last().push(parts.last()));
    }
    out
}

/// Some piece of a multiaddress is an IP anybody on the internet could
/// route to.
pub open spec fn addr_is_global_spec(addr: Seq<char>) -> bool {
    exists|k: int| 0 <= k < split_on(addr, '/').len() && text_is_global(#[trigger] split_on(addr, '/')[k])
}

pub fn ip_is_global_exec(ip: &IpValue) -> (g: bool)
    ensures
        g == ip_is_global(ip@),
{
    match ip {
        IpValue::V4(o) => {
            let private = o[0] == 10 || (o[0] == 172 && 16 <= o[1] && o[1] <= 31) || (o[0] == 192 && o[1] == 168);
            let loopback = o[0] == 127;
            let link_local = o[0] == 169 && o[1] == 254;
            let broadcast = o[0] == 255 && o[1] == 255 && o[2] == 255 && o[3] == 255;
            let documentation = (o[0] == 192 && o[1] == 0 && o[2] == 2) || (o[0] == 198 && o[1] == 51 && o[2] == 100)
                || (o[0] == 203 && o[1] == 0 && o[2] == 113);
            let unspecified = o[0] == 0 && o[1] == 0 && o[2] == 0 && o[3] == 0;
            let shared = o[0] == 100 && 64 <= o[1] && o[1] < 128;
            let multicast = 224 <= o[0] && o[0] <= 239;
            !(private || loopback || link_local || broadcast || documentation || unspecified || shared || multicast)
        },
        IpValue::V6(s) => {
            let zero_head = s[0] == 0 && s[1] == 0 && s[2] == 0 && s[3] == 0 && s[4] == 0 && s[5] == 0 && s[6] == 0;
            let loopback = zero_head && s[7] == 1;
            let unspecified = zero_head && s[7] == 0;
            let unique_local = 0xfc00 <= s[0] && s[0] <= 0xfdff;
            let link_local = 0xfe80 <= s[0] && s[0] <= 0xfebf;
            let documentation = s[0] == 0x2001 && s[1] == 0x0db8;
            let multicast = 0xff00 <= s[0];
            !(loopback || unspecified || unique_local || link_local || documentation || multicast)
        },
    }
}

/// Whether a piece of text is an IP some router could deliver to.
pub fn text_is_global_exec(t: &str) -> (g: bool)
    ensures
        g == text_is_global(t@),
{
    match parse_ip(t) {
        Some(ip) => ip_is_global_exec(&ip),
        None => false,
    }
}

/// True if a multiaddress string contains an IP anybody on the internet
/// could route to.
pub fn addr_is_global(addr: &str) -> (g: bool)
    ensures
        g == addr_is_global_spec(addr@),
{
    let ghost s = addr@;
    let n = addr.unicode_len();
    let mut start: usize = 0;
    let mut i: usize = 0;
    proof {
        lemma_split_on_nonempty(s, '/');
    }
    assert(s.take(0) =~= Seq::<char>::empty());
    assert(s.subrange(0, 0) =~= Seq::<char>::empty());
    assert(split_on(s.take(0), '/') =~= seq![s.subrange(0, 0)]);
    while i < n
        invariant
            s == addr@,
            n == s.len(),
            start <= i <= n,
            ({
                let parts = split_on(s.take(i as int), '/');
                &&& parts.len() >= 1
                &&& parts.last() == s.subrange(start as int, i as int)
                &&& forall|k: int| 0 <= k < parts.len() - 1 ==> !text_is_global(#[trigger] parts[k])
            }),
        decreases n - i,
    {
        let c = addr.get_char(i);
        let ghost before = split_on(s.take(i as int), '/');
        assert(s.take(i + 1).drop_last() =~= s.take(i as int));
        assert(s.take(i + 1).last() == c);
        if c == '/' {
            let piece = addr.substring_char(start, i);
            if text_is_global_exec(piece) {
                proof {
                    let parts = split_on(s, '/');
                    lemma_split_prefix(s, i as int + 1, '/');
                    let after = split_on(s.take(i + 1), '/');
                    assert(after == before.push(seq![]));
                    assert(after[before.len() - 1] == before.last());
                    assert(after[before.len() - 1] == parts[before.len() - 1]);
                    assert(text_is_global(parts[before.len() - 1]));
                }
                return true;
            }
            start = i + 1;
            assert(split_on(s.take(i + 1), '/') == before.push(seq![]));
            assert(s.subrange(start as int, i + 1) =~= seq![]);
        } else {
            assert(split_on(s.take(i + 1), '/') == before.update(before.len() - 1, before.last().push(c)));
            assert(s.subrange(start as int, i + 1) =~= s.subrange(start as int, i as int).push(c));
        }
        i += 1;
    }
    assert(s.take(n as int) =~= s);
    let last = addr.substring_char(start, n);
    let g = text_is_global_exec(last);
    proof {
        let parts = split_on(s, '/');
        if g {
            assert(text_is_global(parts[parts.len() - 1]));
        } else {
            assert forall|k: int| 0 <= k < parts.len() implies !text_is_global(#[trigger] parts[k]) by {
                if k == parts.len() - 1 {
                } else {
                }
            }
        }
    }
    g
}

/// The pieces of a prefix, but for the last, are pieces of the whole.
proof fn lemma_split_prefix(s: Seq<char>, i: int, sep: char)
    requires
        0 <= i <= s.len(),
    ensures
        split_on(s.take(i), sep).len() <= split_on(s, sep).len(),
        forall|k: int|
            0 <= k < split_on(s.take(i), sep).len() - 1 ==> #[trigger] split_on(s.take(i), sep)[k] == split_on(s, sep)[k],
    decreases s.len() - i,
{
    lemma_split_on_nonempty(s.take(i), sep);
    if i < s.len() {
        lemma_split_prefix(s, i + 1, sep);
        assert(s.take(i + 1).drop_last() =~= s.take(i));
        assert(s.take(i + 1).last() == s[i]);
        lemma_split_on_nonempty(s.take(i + 1), sep);
        let a = split_on(s.take(i), sep);
        let b = split_on(s.take(i + 1), sep);
        assert forall|k: int| 0 <= k < a.len() - 1 implies #[trigger] a[k] == split_on(s, sep)[k] by {
            assert(a[k] == b[k]);
        }
    } else {
        assert(s.take(i) =~= s);
    }
}

} // verus!
