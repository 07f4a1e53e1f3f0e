//! What to make of asking the router to open a port.
//!
//! Routers are meant to support UPnP-IGD, PCP (RFC 6887) or NAT-PMP
//! (RFC 6886), and in practice support is a lottery. The node asks every way
//! it can; this module holds what it makes of the answers: whether the
//! machine can be dialled, and what to tell a person when it cannot.

use vstd::prelude::*;

use crate::net::ip::{addr_is_global, addr_is_global_spec, ip_of_text, parse_ip, split_on, split_text, IpModel, IpValue};
use crate::session::same_text;
use crate::net::invite::strings_view;
use crate::text::{append_str, decimal, push_decimal};

verus! {

broadcast use vstd::string::to_string_from_display_ensures_for_str;

/// Which protocol actually worked, for the benefit of anyone reading the
/// logs.
#[derive(Clone, Copy, Debug, PartialEq, Eq, Structural)]
pub enum MapProtocol {
    /// Port Control Protocol, RFC 6887. The newer of the two.
    Pcp,
    /// NAT Port Mapping Protocol, RFC 6886. Older, and often the only one on.
    NatPmp,
    /// UPnP-IGD, asked for with a permanent lease.
    Upnp,
}

impl MapProtocol {
    /// A name to show a person, not a machine.
    pub fn label(self) -> (s: &'static str)
        ensures
            s@ == match self {
                MapProtocol::Pcp => "PCP"@,
                MapProtocol::NatPmp => "NAT-PMP"@,
                MapProtocol::Upnp => "UPnP-IGD"@,
            },
    {
        match self {
            MapProtocol::Pcp => "PCP",
            MapProtocol::NatPmp => "NAT-PMP",
            MapProtocol::Upnp => "UPnP-IGD",
        }
    }
}

/// Anything that stops the node getting a port.
#[derive(Debug, PartialEq, Eq)]
pub enum PortMapError {
    NoGateway(String),
    GatewayHasNoAddress,
    NoLocalAddress,
    PortZero,
    Refused(String),
}

/// What one attempt at a protocol came to.
#[derive(Debug, PartialEq, Eq)]
pub enum Attempt {
    /// The router did what was asked.
    Worked(String),
    /// The router said no, or said nothing at all.
    Refused(String),
    /// Not attempted, because something earlier ruled it out.
    Skipped(String),
}

impl Attempt {
    /// Whether this protocol got us a port.
    pub fn worked(&self) -> (b: bool)
        ensures
            b == (self is Worked),
    {
        match self {
            Attempt::Worked(_) => true,
            _ => false,
        }
    }

    /// The detail, whatever the outcome.
    pub fn detail(&self) -> (d: &str)
        ensures
            d@ == match self {
                Attempt::Worked(x) => x@,
                Attempt::Refused(x) => x@,
                Attempt::Skipped(x) => x@,
            },
    {
        match self {
            Attempt::Worked(d) => d.as_str(),
            Attempt::Refused(d) => d.as_str(),
            Attempt::Skipped(d) => d.as_str(),
        }
    }
}

/// Everything that can be found out about whether this machine can be
/// dialled.
///
/// Exists because "it does not work" is not a diagnosis. A home user who
/// cannot host needs to know which of several quite different things is
/// wrong.
#[derive(Debug)]
pub struct Diagnosis {
    /// The router, if one was found.
    pub gateway: Option<String>,
    /// This machine's address on the local network.
    pub local: Option<String>,
    /// The port that was tried.
    pub port: u16,
    /// Globally routable IPv6 addresses, which need no NAT traversal at all.
    pub global_ipv6: Vec<String>,
    /// Port Control Protocol.
    pub pcp: Attempt,
    /// NAT Port Mapping Protocol.
    pub natpmp: Attempt,
    /// UPnP-IGD.
    pub upnp: Attempt,
}

/// Some protocol got a port.
pub open spec fn mapped(d: &Diagnosis) -> bool {
    d.pcp is Worked || d.natpmp is Worked || d.upnp is Worked
}

/// The advice for a diagnosis, in one or two plain sentences.
pub open spec fn advice_of(d: &Diagnosis) -> Seq<char> {
    if mapped(d) {
        "Your router opened a port. Others can reach you directly."@
    } else if d.global_ipv6@.len() > 0 {
        "You have a public IPv6 address. Peers with IPv6 can reach you directly."@
    } else {
        match &d.local {
            Some(local) => "Your router will not open a port. Forward TCP and UDP "@ + decimal(d.port as nat) + " to "@
                + local@ + ", or connect to a peer who can relay for you."@,
            None => "No network found."@,
        }
    }
}

impl Diagnosis {
    /// Whether anything at all makes this machine dialable from outside.
    pub fn reachable(&self) -> (b: bool)
        ensures
            b == (mapped(self) || self.global_ipv6@.len() > 0),
    {
        self.pcp.worked() || self.natpmp.worked() || self.upnp.worked() || self.global_ipv6.len() > 0
    }

    /// What to do about it, in one or two plain sentences.
    ///
    /// Deliberately short. Somebody reading this wants to know whether they
    /// can host and, if not, what to change.
    pub fn advice(&self) -> (s: String)
        ensures
            s@ == advice_of(self),
    {
        if self.pcp.worked() || self.natpmp.worked() || self.upnp.worked() {
            return "Your router opened a port. Others can reach you directly.".to_string();
        }
        if self.global_ipv6.len() > 0 {
            return "You have a public IPv6 address. Peers with IPv6 can reach you directly.".to_string();
        }
        match &self.local {
            Some(local) => {
                let mut s = "Your router will not open a port. Forward TCP and UDP ".to_string();
                push_decimal(&mut s, self.port as u64);
                append_str(&mut s, " to ");
                append_str(&mut s, local.as_str());
                append_str(&mut s, ", or connect to a peer who can relay for you.");
                s
            },
            None => "No network found.".to_string(),
        }
    }
}

/// The text of an error, as a person reads it.
pub open spec fn error_text(e: &PortMapError) -> Seq<char> {
    match e {
        PortMapError::NoGateway(why) => "no default gateway found: "@ + why@,
        PortMapError::GatewayHasNoAddress => "the gateway has no usable address"@,
        PortMapError::NoLocalAddress => "this machine has no address on the local network"@,
        PortMapError::PortZero => "port 0 cannot be mapped"@,
        PortMapError::Refused(why) => "the router refused: "@ + why@,
    }
}

impl PortMapError {
    /// What went wrong, in words.
    pub fn message(&self) -> (s: String)
        ensures
            s@ == error_text(self),
    {
        match self {
            PortMapError::NoGateway(why) => {
                let mut s = "no default gateway found: ".to_string();
                append_str(&mut s, why.as_str());
                s
            },
            PortMapError::GatewayHasNoAddress => "the gateway has no usable address".to_string(),
            PortMapError::NoLocalAddress => "this machine has no address on the local network".to_string(),
            PortMapError::PortZero => "port 0 cannot be mapped".to_string(),
            PortMapError::Refused(why) => {
                let mut s = "the router refused: ".to_string();
                append_str(&mut s, why.as_str());
                s
            },
        }
    }
}

/// What the mapper has to say about the node's reachability.
#[derive(Debug, PartialEq, Eq)]
pub enum PortMapUpdate {
    /// The router opened a port; these addresses should reach the node from
    /// anywhere.
    Opened { external: Vec<String>, protocol: MapProtocol },
    /// The router mapped a port but would not say what address it is on.
    /// The port is open, and any peer can supply the missing public address.
    MappedWithoutAddress { port: u16, protocol: MapProtocol },
    /// The router would not open a port, and why.
    Refused(String),
}

/// What `Ipv6Addr`'s `Display` writes for an address: the compressed form
/// of RFC 5952.
pub uninterp spec fn ipv6_display(segments: Seq<u16>) -> Seq<char>;

/// Calls `Ipv6Addr`'s `Display`. The text is named, not stated.
#[verifier::external_body]
fn ipv6_text(segments: &[u16; 8]) -> (s: String)
    ensures
        s@ == ipv6_display(segments@),
{
    core::net::Ipv6Addr::from(*segments).to_string()
}

/// An IP address as text: dotted decimal for IPv4, the standard form for
/// IPv6.
pub open spec fn ip_text_of(ip: IpModel) -> Seq<char> {
    match ip {
        IpModel::V4(o) => decimal(o[0] as nat) + "."@ + decimal(o[1] as nat) + "."@ + decimal(o[2] as nat) + "."@
            + decimal(o[3] as nat),
        IpModel::V6(s) => ipv6_display(s),
    }
}

pub fn ip_text(ip: &IpValue) -> (s: String)
    ensures
        s@ == ip_text_of(ip@),
{
    match ip {
        IpValue::V4(o) => {
            let mut s = String::new();
            push_decimal(&mut s, o[0] as u64);
            append_str(&mut s, ".");
            push_decimal(&mut s, o[1] as u64);
            append_str(&mut s, ".");
            push_decimal(&mut s, o[2] as u64);
            append_str(&mut s, ".");
            push_decimal(&mut s, o[3] as u64);
            s
        },
        IpValue::V6(seg) => ipv6_text(seg),
    }
}

/// The addresses a peer would dial, given what the router said: TCP, and
/// QUIC over UDP, each only where that transport was mapped.
pub open spec fn addrs_of(ip: IpModel, tcp_port: Option<u16>, quic_port: Option<u16>) -> Seq<Seq<char>> {
    let base = (if ip is V4 { "/ip4/"@ } else { "/ip6/"@ }) + ip_text_of(ip);
    let tcp = match tcp_port {
        Some(p) => seq![base + "/tcp/"@ + decimal(p as nat)],
        None => seq![],
    };
    let quic = match quic_port {
        Some(p) => seq![base + "/udp/"@ + decimal(p as nat) + "/quic-v1"@],
        None => seq![],
    };
    tcp + quic
}

/// Builds the addresses a peer would dial, given what the router told
/// this node.
pub fn addrs_for(ip: &IpValue, tcp_port: Option<u16>, quic_port: Option<u16>) -> (v: Vec<String>)
    ensures
        strings_view(v@) == addrs_of(ip@, tcp_port, quic_port),
{
    let mut base = match ip {
        IpValue::V4(_) => "/ip4/".to_string(),
        IpValue::V6(_) => "/ip6/".to_string(),
    };
    let text = ip_text(ip);
    append_str(&mut base, text.as_str());
    let mut v: Vec<String> = Vec::new();
    match tcp_port {
        Some(p) => {
            let mut a = base.clone();
            append_str(&mut a, "/tcp/");
            push_decimal(&mut a, p as u64);
            v.push(a);
        },
        None => {},
    }
    match quic_port {
        Some(p) => {
            let mut a = base.clone();
            append_str(&mut a, "/udp/");
            push_decimal(&mut a, p as u64);
            append_str(&mut a, "/quic-v1");
            let ghost v0 = v@;
            v.push(a);
            assert(strings_view(v@) =~= strings_view(v0).push(a@));
        },
        None => {},
    }
    assert(strings_view(v@) =~= addrs_of(ip@, tcp_port, quic_port));
    v
}

/// How often to start again from scratch after a failure: routers get
/// rebooted, laptops move, and a network that refused an hour ago may not
/// refuse now.
pub const RETRY_AFTER_MS: u64 = 900_000;

/// How long before a mapping expires to renew it. Generous on purpose: a
/// lapsed mapping silently drops the node off the network.
pub const RENEW_MARGIN_MS: u64 = 60_000;

/// The shortest wait between renewals, so a router that hands out very
/// short lifetimes does not turn into a request loop.
pub const MIN_RENEW_MS: u64 = 30_000;

/// How long to wait before renewing mappings that expire after `remaining`
/// milliseconds: the soonest expiry (or the retry interval if nothing is
/// held), less the margin, but never under the floor.
pub open spec fn renew_wait(remaining: Seq<u64>) -> int
    decreases remaining.len(),
{
    let soonest = min_or_retry(remaining);
    let less = if soonest > RENEW_MARGIN_MS { soonest - RENEW_MARGIN_MS } else { 0 };
    if less < MIN_RENEW_MS { MIN_RENEW_MS as int } else { less }
}

pub open spec fn min_or_retry(s: Seq<u64>) -> int
    decreases s.len(),
{
    if s.len() == 0 {
        RETRY_AFTER_MS as int
    } else if s.len() == 1 {
        s[0] as int
    } else {
        let rest = min_or_retry(s.drop_last());
        if s.last() < rest { s.last() as int } else { rest }
    }
}

/// The soonest of some lifetimes is one of them and no later than any.
proof fn lemma_soonest(s: Seq<u64>)
    requires
        s.len() > 0,
    ensures
        forall|i: int| 0 <= i < s.len() ==> min_or_retry(s) <= #[trigger] s[i],
        exists|i: int| 0 <= i < s.len() && min_or_retry(s) == #[trigger] s[i],
    decreases s.len(),
{
    if s.len() > 1 {
        let rest = s.drop_last();
        lemma_soonest(rest);
        assert forall|i: int| 0 <= i < s.len() implies min_or_retry(s) <= #[trigger] s[i] by {
            if i < rest.len() {
                assert(s[i] == rest[i]);
            }
        }
        if min_or_retry(s) == min_or_retry(rest) {
            let i = choose|i: int| 0 <= i < rest.len() && min_or_retry(rest) == #[trigger] rest[i];
            assert(s[i] == rest[i]);
        } else {
            assert(min_or_retry(s) == s[s.len() - 1]);
        }
    } else {
        assert(min_or_retry(s) == s[0]);
    }
}

/// How long to wait before renewing a mapping that expires after `x`
/// milliseconds: the margin earlier, but never under the floor.
pub open spec fn wait_for(x: int) -> int {
    if x - RENEW_MARGIN_MS < MIN_RENEW_MS { MIN_RENEW_MS as int } else { x - RENEW_MARGIN_MS }
}

/// Renewal comes in time for the soonest mapping to lapse: the wait is no
/// longer than what any held mapping allows, and is exactly what one of
/// them allows; with nothing held, renewal is tried again after the retry
/// interval less the margin.
pub proof fn law_renewal_comes_before_the_soonest_expiry(remaining: Seq<u64>)
    ensures
        forall|i: int| 0 <= i < remaining.len() ==> renew_wait(remaining) <= wait_for(#[trigger] remaining[i] as int),
        remaining.len() > 0 ==> exists|i: int| 0 <= i < remaining.len() && renew_wait(remaining) == wait_for(#[trigger] remaining[i] as int),
        remaining.len() == 0 ==> renew_wait(remaining) == RETRY_AFTER_MS - RENEW_MARGIN_MS,
        renew_wait(remaining) >= MIN_RENEW_MS,
{
    if remaining.len() > 0 {
        lemma_soonest(remaining);
    }
}

/// When the soonest of the held mappings needs renewing.
pub fn renew_in_ms(remaining: &Vec<u64>) -> (wait: u64)
    ensures
        wait == renew_wait(remaining@),
{
    let ghost r = remaining@;
    let mut soonest: u64 = RETRY_AFTER_MS;
    let mut i: usize = 0;
    while i < remaining.len()
        invariant
            r == remaining@,
            i <= r.len(),
            i > 0 ==> soonest == min_or_retry(r.take(i as int)),
            i == 0 ==> soonest == RETRY_AFTER_MS,
        decreases r.len() - i,
    {
        assert(r.take(i + 1).drop_last() =~= r.take(i as int));
        let x = remaining[i];
        if i == 0 || x < soonest {
            soonest = x;
        }
        i += 1;
    }
    assert(r.take(r.len() as int) =~= r);
    let less = if soonest > RENEW_MARGIN_MS { soonest - RENEW_MARGIN_MS } else { 0 };
    if less < MIN_RENEW_MS { MIN_RENEW_MS } else { less }
}

/// What the router's answers add up to once a port is mapped: the
/// addresses it can be reached at, or, when the router would not say its
/// public address, just the port.
pub fn mapping_outcome(
    protocol: MapProtocol,
    external: Option<IpValue>,
    tcp_port: Option<u16>,
    udp_port: Option<u16>,
    port: u16,
) -> (u: PortMapUpdate)
    ensures
        match external {
            None => u == PortMapUpdate::MappedWithoutAddress { port, protocol },
            Some(ip) => u matches PortMapUpdate::Opened { external: addrs, protocol: p } && p == protocol && strings_view(
                addrs@,
            ) == addrs_of(ip@, tcp_port, udp_port),
        },
{
    match external {
        None => PortMapUpdate::MappedWithoutAddress { port, protocol },
        Some(ip) => PortMapUpdate::Opened { external: addrs_for(&ip, tcp_port, udp_port), protocol },
    }
}

/// What asking over UPnP-IGD came to, once both transports were tried: a
/// refusal if neither was mapped, else the addresses, or the port alone
/// when the router would not say where it is.
pub fn upnp_outcome(tcp_open: bool, udp_open: bool, external: Option<IpValue>, port: u16) -> (r: Result<
    PortMapUpdate,
    PortMapError,
>)
    ensures
        !tcp_open && !udp_open ==> (r matches Err(PortMapError::Refused(why)) && why@
            == "the router would not add a mapping on either transport"@),
        tcp_open || udp_open ==> match external {
            None => r == Ok::<PortMapUpdate, PortMapError>(
                PortMapUpdate::MappedWithoutAddress { port, protocol: MapProtocol::Upnp },
            ),
            Some(ip) => r matches Ok(PortMapUpdate::Opened { external: addrs, protocol: p }) && p == MapProtocol::Upnp
                && strings_view(addrs@) == addrs_of(
                ip@,
                if tcp_open { Some(port) } else { None },
                if udp_open { Some(port) } else { None },
            ),
        },
{
    if !tcp_open && !udp_open {
        return Err(PortMapError::Refused("the router would not add a mapping on either transport".to_string()));
    }
    let tcp = if tcp_open { Some(port) } else { None };
    let udp = if udp_open { Some(port) } else { None };
    Ok(mapping_outcome(MapProtocol::Upnp, external, tcp, udp, port))
}

/// What keeps a port open has said so far: the addresses last announced,
/// and whether a mapping without an address was announced.
pub struct KeepOpen {
    pub announced: Option<Vec<String>>,
    pub mapped_blindly: bool,
}

impl KeepOpen {
    /// What keeping `port` open answers before asking any router: port 0
    /// means "any port", which no router can forward, so it is refused
    /// straight away; any other port goes on to the router.
    pub fn refuse_port(port: u16) -> (r: Option<PortMapUpdate>)
        ensures
            r is Some <==> port == 0,
            r matches Some(u) ==> (u matches PortMapUpdate::Refused(why) && why@ == error_text(&PortMapError::PortZero)),
    {
        if port == 0 {
            Some(PortMapUpdate::Refused(PortMapError::PortZero.message()))
        } else {
            None
        }
    }

    /// Nothing announced yet.
    pub fn new() -> (k: KeepOpen)
        ensures
            k.announced is None,
            !k.mapped_blindly,
    {
        KeepOpen { announced: None, mapped_blindly: false }
    }

    /// A failure is news only while nothing has been announced: once the
    /// node has a port, a later failed renewal is not worth alarming anyone.
    pub fn on_failure(&mut self, why: String) -> (r: Option<PortMapUpdate>)
        ensures
            final(self).announced == old(self).announced,
            final(self).mapped_blindly == old(self).mapped_blindly,
            old(self).announced is None && !old(self).mapped_blindly ==> r == Some(PortMapUpdate::Refused(why)),
            !(old(self).announced is None && !old(self).mapped_blindly) ==> r is None,
    {
        if self.announced.is_none() && !self.mapped_blindly {
            Some(PortMapUpdate::Refused(why))
        } else {
            None
        }
    }

    /// A mapping succeeded. Addresses are news only when they changed: a
    /// renewal that keeps the same ones is not. A mapping without an address
    /// is announced once, there being nothing to compare against.
    pub fn on_mapped(&mut self, update: PortMapUpdate) -> (r: Option<PortMapUpdate>)
        ensures
            match update {
                PortMapUpdate::Opened { external, .. } => {
                    let same = old(self).announced matches Some(prev) && strings_view(prev@) == strings_view(external@);
                    &&& same ==> r is None && final(self).announced == old(self).announced
                    &&& !same ==> r == Some(update)
                    &&& !same ==> (final(self).announced matches Some(now) && strings_view(now@)
                        == strings_view(external@))
                    &&& final(self).mapped_blindly == old(self).mapped_blindly
                },
                PortMapUpdate::MappedWithoutAddress { .. } => {
                    &&& old(self).mapped_blindly ==> r is None
                    &&& !old(self).mapped_blindly ==> r == Some(update)
                    &&& final(self).mapped_blindly
                    &&& final(self).announced == old(self).announced
                },
                PortMapUpdate::Refused(_) => r is None && final(self).announced == old(self).announced
                    && final(self).mapped_blindly == old(self).mapped_blindly,
            },
    {
        match update {
            PortMapUpdate::Opened { external, protocol } => {
                let same = match &self.announced {
                    Some(prev) => same_strings(prev, &external),
                    None => false,
                };
                if same {
                    None
                } else {
                    self.announced = Some(crate::store::peers::copy_strings(&external));
                    Some(PortMapUpdate::Opened { external, protocol })
                }
            },
            PortMapUpdate::MappedWithoutAddress { port, protocol } => {
                if self.mapped_blindly {
                    None
                } else {
                    self.mapped_blindly = true;
                    Some(PortMapUpdate::MappedWithoutAddress { port, protocol })
                }
            },
            PortMapUpdate::Refused(_) => None,
        }
    }
}

/// Two lists of text hold the same strings in the same order.
pub fn same_strings(a: &Vec<String>, b: &Vec<String>) -> (r: bool)
    ensures
        r == (strings_view(a@) == strings_view(b@)),
{
    if a.len() != b.len() {
        proof {
            assert(strings_view(a@).len() != strings_view(b@).len());
        }
        return false;
    }
    let mut i: usize = 0;
    while i < a.len()
        invariant
            a@.len() == b@.len(),
            i <= a@.len(),
            forall|k: int| 0 <= k < i ==> a@[k]@ == b@[k]@,
        decreases a@.len() - i,
    {
        if !crate::session::same_text(a[i].as_str(), b[i].as_str()) {
            assert(strings_view(a@)[i as int] != strings_view(b@)[i as int]);
            return false;
        }
        i += 1;
    }
    assert(strings_view(a@) =~= strings_view(b@));
    true
}

/// The globally routable ones among some IPv6 addresses, in order.
pub open spec fn global_of(s: Seq<Seq<char>>) -> Seq<Seq<char>>
    decreases s.len(),
{
    if s.len() == 0 {
        seq![]
    } else {
        let rest = global_of(s.drop_last());
        if crate::net::ip::addr_is_global_spec(s.last()) {
            rest.push(s.last())
        } else {
            rest
        }
    }
}

/// Keeps the addresses anybody on the internet could route to.
pub fn global_addresses(candidates: &Vec<String>) -> (v: Vec<String>)
    ensures
        strings_view(v@) == global_of(strings_view(candidates@)),
{
    let ghost c = strings_view(candidates@);
    let mut out: Vec<String> = Vec::new();
    let mut i: usize = 0;
    while i < candidates.len()
        invariant
            c == strings_view(candidates@),
            i <= c.len(),
            strings_view(out@) == global_of(c.take(i as int)),
        decreases c.len() - i,
    {
        assert(c.take(i + 1).drop_last() =~= c.take(i as int));
        assert(c[i as int] == candidates@[i as int]@);
        if crate::net::ip::addr_is_global(candidates[i].as_str()) {
            let ghost o0 = out@;
            out.push(candidates[i].clone());
            assert(strings_view(out@) =~= strings_view(o0).push(c[i as int]));
        }
        i += 1;
    }
    assert(c.take(c.len() as int) =~= c);
    out
}

impl Diagnosis {
    /// The diagnosis when no router could be found: nothing was tried, for
    /// the reason given.
    pub fn without_router(port: u16, global_ipv6: Vec<String>, why: String) -> (d: Diagnosis)
        ensures
            d.gateway is None,
            d.local is None,
            d.port == port,
            d.global_ipv6 == global_ipv6,
            d.pcp matches Attempt::Skipped(x) && x@ == why@,
            d.natpmp matches Attempt::Skipped(x) && x@ == why@,
            d.upnp matches Attempt::Skipped(x) && x@ == why@,
    {
        Diagnosis {
            gateway: None,
            local: None,
            port,
            global_ipv6,
            pcp: Attempt::Skipped(why.clone()),
            natpmp: Attempt::Skipped(why.clone()),
            upnp: Attempt::Skipped(why),
        }
    }

    /// The diagnosis before any protocol is asked: each attempt stands as
    /// skipped because port 0 cannot be mapped, which is what it stays if
    /// the port is 0.
    pub fn with_router(gateway: String, local: String, port: u16, global_ipv6: Vec<String>) -> (d: Diagnosis)
        ensures
            d.gateway == Some(gateway),
            d.local == Some(local),
            d.port == port,
            d.global_ipv6 == global_ipv6,
            d.pcp matches Attempt::Skipped(x) && x@ == "port 0 cannot be mapped"@,
            d.natpmp matches Attempt::Skipped(x) && x@ == "port 0 cannot be mapped"@,
            d.upnp matches Attempt::Skipped(x) && x@ == "port 0 cannot be mapped"@,
    {
        Diagnosis {
            gateway: Some(gateway),
            local: Some(local),
            port,
            global_ipv6,
            pcp: Attempt::Skipped("port 0 cannot be mapped".to_string()),
            natpmp: Attempt::Skipped("port 0 cannot be mapped".to_string()),
            upnp: Attempt::Skipped("port 0 cannot be mapped".to_string()),
        }
    }
}

/// A PCP or NAT-PMP probe that got a mapping.
pub fn mapped_attempt(external_port: u16) -> (a: Attempt)
    ensures
        a matches Attempt::Worked(x) && x@ == "mapped external port "@ + decimal(external_port as nat),
{
    let mut s = "mapped external port ".to_string();
    push_decimal(&mut s, external_port as u64);
    Attempt::Worked(s)
}

/// Says which device answered a UPnP search, when it was not the router:
/// the most confusing failure in this whole area, since it looks like the
/// router refusing when the router was never asked.
pub open spec fn answered_by(other: Option<Seq<char>>) -> Seq<char> {
    match other {
        None => seq![],
        Some(ip) => " (answered by "@ + ip + ", which is not your router)"@,
    }
}

fn answered_by_text(other: &Option<String>) -> (s: String)
    ensures
        s@ == answered_by(match other {
            None => None,
            Some(t) => Some(t@),
        }),
{
    match other {
        None => {
            let s = String::new();
            s
        },
        Some(ip) => {
            let mut s = " (answered by ".to_string();
            append_str(&mut s, ip.as_str());
            append_str(&mut s, ", which is not your router)");
            s
        },
    }
}

/// What a UPnP probe came to: the lease the gateway accepted (zero for a
/// permanent one), else its last refusal; `other` names the device that
/// answered when it was not the router.
pub fn upnp_attempt(accepted_lease: Option<u32>, refusal: Option<String>, other: Option<String>) -> (a: Attempt)
    ensures
        ({
            let who = answered_by(match other {
                None => None,
                Some(t) => Some(t@),
            });
            match accepted_lease {
                Some(lease) => a matches Attempt::Worked(x) && x@ == "accepted a "@ + (if lease == 0 {
                    "permanent"@
                } else {
                    "timed"@
                }) + " lease"@ + who,
                None => a matches Attempt::Refused(x) && x@ == (match refusal {
                    Some(r) => r@,
                    None => "refused"@,
                }) + who,
            }
        }),
{
    let who = answered_by_text(&other);
    match accepted_lease {
        Some(lease) => {
            let mut s = "accepted a ".to_string();
            append_str(&mut s, if lease == 0 { "permanent" } else { "timed" });
            append_str(&mut s, " lease");
            append_str(&mut s, who.as_str());
            Attempt::Worked(s)
        },
        None => {
            let mut s = match refusal {
                Some(r) => r,
                None => "refused".to_string(),
            };
            append_str(&mut s, who.as_str());
            Attempt::Refused(s)
        },
    }
}

/// The IP of the first `ip4` or `ip6` part of a split address, from piece
/// `k` on.
pub open spec fn first_ip_from(p: Seq<Seq<char>>, k: int) -> Option<IpModel>
    decreases p.len() - k,
{
    if k < 0 || k + 1 >= p.len() {
        None
    } else if p[k] == "ip4"@ || p[k] == "ip6"@ {
        ip_of_text(p[k + 1])
    } else {
        first_ip_from(p, k + 1)
    }
}

/// Every one of the addresses is reachable from beyond the local network.
pub open spec fn all_global(s: Seq<Seq<char>>) -> bool {
    forall|i: int| 0 <= i < s.len() ==> addr_is_global_spec(#[trigger] s[i])
}

/// What a port the router opened without naming its own address, and how
/// a peer sees us, make: the addresses at the peer's view of our IP with the
/// mapped port (the port the peer saw is the one the NAT gave our outgoing
/// connection), when every one of them is reachable from outside. A peer on
/// our own network sees a private address, which proves nothing.
pub open spec fn claimed(mapped_port: Option<u16>, observed: Seq<char>) -> Option<Seq<Seq<char>>> {
    match mapped_port {
        None => None,
        Some(port) => match first_ip_from(split_on(observed, '/'), 0) {
            None => None,
            Some(ip) => if all_global(addrs_of(ip, Some(port), Some(port))) {
                Some(addrs_of(ip, Some(port), Some(port)))
            } else {
                None
            },
        },
    }
}

fn first_ip(addr: &str) -> (r: Option<IpValue>)
    ensures
        first_ip_from(split_on(addr@, '/'), 0) == match r {
            Some(ip) => Some(ip@),
            None => None::<IpModel>,
        },
{
    let pieces = split_text(addr, '/');
    let ghost ps = split_on(addr@, '/');
    proof {
        crate::net::ip::lemma_split_on_nonempty(addr@, '/');
    }
    assert(pieces.len() == ps.len());
    let mut k: usize = 0;
    while k + 1 < pieces.len()
        invariant
            pieces@.map_values(|p: String| p@) == ps,
            ps == split_on(addr@, '/'),
            k < ps.len(),
            pieces.len() == ps.len(),
            first_ip_from(ps, k as int) == first_ip_from(ps, 0),
        decreases ps.len() - k,
    {
        assert(ps[k as int] == pieces@[k as int]@);
        assert(ps[k + 1] == pieces@[k + 1]@);
        proof {
            reveal_strlit("ip4");
            reveal_strlit("ip6");
        }
        if same_text(pieces[k].as_str(), "ip4") || same_text(pieces[k].as_str(), "ip6") {
            return parse_ip(pieces[k + 1].as_str());
        }
        k += 1;
    }
    None
}

/// Turns a port the router opened without naming its address, plus a
/// peer's view of us, into addresses to claim; `None` while there is no
/// such port, or the view names no IP, or one of the addresses would not be
/// reachable from outside.
pub fn claim_mapped_port(mapped_port: Option<u16>, observed: &str) -> (r: Option<Vec<String>>)
    ensures
        claimed(mapped_port, observed@) == match r {
            Some(v) => Some(strings_view(v@)),
            None => None::<Seq<Seq<char>>>,
        },
{
    let port = match mapped_port {
        Some(p) => p,
        None => return None,
    };
    let ip = match first_ip(observed) {
        Some(ip) => ip,
        None => return None,
    };
    let addrs = addrs_for(&ip, Some(port), Some(port));
    let ghost s = strings_view(addrs@);
    let mut i: usize = 0;
    while i < addrs.len()
        invariant
            s == strings_view(addrs@),
            s == addrs_of(ip@, Some(port), Some(port)),
            mapped_port == Some(port),
            first_ip_from(split_on(observed@, '/'), 0) == Some(ip@),
            i <= s.len(),
            forall|j: int| 0 <= j < i ==> addr_is_global_spec(#[trigger] s[j]),
        decreases s.len() - i,
    {
        assert(s[i as int] == addrs@[i as int]@);
        if !addr_is_global(addrs[i].as_str()) {
            assert(!all_global(s));
            return None;
        }
        i += 1;
    }
    Some(addrs)
}

} // verus!
