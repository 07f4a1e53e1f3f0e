//! What a node listens on.

use vstd::prelude::*;

use crate::net::invite::strings_view;
use crate::net::ip::{split_on, split_text};
use crate::session::{parse_count, same_text, usize_of};
use crate::text::{append_str, decimal, push_decimal};

verus! {

/// The port a node listens on unless told otherwise. Fixed, not random: a
/// random port would silently undo any port the user forwards.
pub const DEFAULT_PORT: u16 = 4001;

/// Everything a node listens on, given a port: TCP and QUIC, over IPv4 and
/// IPv6.
///
/// IPv6 is not an afterthought. Many home connections have a globally
/// routable IPv6 address and no NAT in front of it at all, so two desktops
/// that could never reach each other over IPv4 often can over IPv6 with
/// nothing configured.
pub open spec fn listen_addrs_of(port: u16) -> Seq<Seq<char>> {
    let p = decimal(port as nat);
    seq![
        "/ip4/0.0.0.0/tcp/"@ + p,
        "/ip4/0.0.0.0/udp/"@ + p + "/quic-v1"@,
        "/ip6/::/tcp/"@ + p,
        "/ip6/::/udp/"@ + p + "/quic-v1"@,
    ]
}

fn with_port(head: &str, port: u16, tail: &str) -> (s: String)
    ensures
        s@ == head@ + decimal(port as nat) + tail@,
{
    let mut s = head.to_owned();
    push_decimal(&mut s, port as u64);
    append_str(&mut s, tail);
    s
}

pub fn default_listen_addrs(port: u16) -> (v: Vec<String>)
    ensures
        strings_view(v@) == listen_addrs_of(port),
{
    let mut v: Vec<String> = Vec::new();
    v.push(with_port("/ip4/0.0.0.0/tcp/", port, ""));
    v.push(with_port("/ip4/0.0.0.0/udp/", port, "/quic-v1"));
    v.push(with_port("/ip6/::/tcp/", port, ""));
    v.push(with_port("/ip6/::/udp/", port, "/quic-v1"));
    proof {
        reveal_strlit("");
    }
    assert(strings_view(v@) =~= listen_addrs_of(port));
    v
}

/// How a node listens and discovers.
pub struct NetConfig {
    /// Addresses to listen on. Port 0 asks the OS to choose.
    pub listen: Vec<String>,
    /// Announce and discover on the local network: how neighbours find each
    /// other with no configuration, and with no internet at all.
    pub enable_mdns: bool,
    /// Gossip heartbeat, in milliseconds. Drives mesh upkeep and fan-out.
    pub heartbeat_ms: u64,
    /// Offer to carry traffic for members who cannot be dialled, and accept
    /// the same offer when we are one of them.
    pub enable_relay: bool,
    /// Ask the router to forward a port.
    pub enable_port_mapping: bool,
    /// Whether a private address counts as being reachable: off on the
    /// internet, where `192.168.1.5` means nothing outside the house; on for
    /// an isolated network where private addresses are all there are.
    pub lan_reachable: bool,
}

impl Default for NetConfig {
    /// Listening on every default address, discovering on the local
    /// network, relaying and asking the router for a port; private
    /// addresses are not taken as reachable.
    fn default() -> (c: Self)
        ensures
            strings_view(c.listen@) == listen_addrs_of(DEFAULT_PORT),
            c.enable_mdns,
            c.heartbeat_ms == 1000,
            c.enable_relay,
            c.enable_port_mapping,
            !c.lan_reachable,
    {
        NetConfig {
            listen: default_listen_addrs(DEFAULT_PORT),
            enable_mdns: true,
            heartbeat_ms: 1000,
            enable_relay: true,
            enable_port_mapping: true,
            lan_reachable: false,
        }
    }
}

/// The port a piece of an address gives, or zero if it is no port number.
pub open spec fn port_value(t: Seq<char>) -> int {
    match usize_of(t) {
        Some(n) => if n <= u16::MAX {
            n as int
        } else {
            0
        },
        None => 0,
    }
}

/// The port of the first `tcp` or `udp` part of a split address, from piece
/// `k` on; zero if there is none.
pub open spec fn port_from(p: Seq<Seq<char>>, k: int) -> int
    decreases p.len() - k,
{
    if k < 0 || k + 1 >= p.len() {
        0
    } else if p[k] == "tcp"@ || p[k] == "udp"@ {
        port_value(p[k + 1])
    } else {
        port_from(p, k + 1)
    }
}

/// The port a listen address asks for, or zero if it names none.
pub fn port_of(addr: &str) -> (port: u16)
    ensures
        port == port_from(split_on(addr@, '/'), 0),
{
    let pieces = split_text(addr, '/');
    let ghost ps = split_on(addr@, '/');
    proof {
        crate::net::ip::lemma_split_on_nonempty(addr@, '/');
    }
    assert(pieces.len() == ps.len());
    let mut k: usize = 0;
    while k + 1 < pieces.len()
        invariant
            pieces@.map_values(|p: String| p@) == ps,
            ps == split_on(addr@, '/'),
            k < ps.len(),
            pieces.len() == ps.len(),
            port_from(ps, k as int) == port_from(ps, 0),
        decreases ps.len() - k,
    {
        assert(ps[k as int] == pieces@[k as int]@);
        assert(ps[k + 1] == pieces@[k + 1]@);
        if same_text(pieces[k].as_str(), "tcp") || same_text(pieces[k].as_str(), "udp") {
            proof {
                reveal_strlit("tcp");
                reveal_strlit("udp");
            }
            return match parse_count(pieces[k + 1].as_str()) {
                Some(n) => if n <= 65535 {
                    n as u16
                } else {
                    0
                },
                None => 0,
            };
        }
        proof {
            reveal_strlit("tcp");
            reveal_strlit("udp");
        }
        k += 1;
    }
    0
}

} // verus!
