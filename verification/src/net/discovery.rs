//! Finding people a node has never met, without anybody running a service.
//!
//! Kāhui runs its own distributed hash table. A node that can be dialled is
//! exactly a node that can route and relay, so joining the table as a server
//! announces it as a relay too; a node that cannot be dialled still asks
//! questions as a client. Members advertise themselves under their
//! community's key, and reachable nodes under one well-known key.
//!
//! A query has to be sent somewhere, so a node needs one address to begin
//! with, once, ever: a peer it met before, one on its own network, one named
//! in an invite, or one from its seed file, a plain text list anybody can
//! edit.

use vstd::prelude::*;

use crate::net::invite::strings_view;
use crate::net::ip::{split_on, split_text};
use crate::proto::ids::CommunityId;
use crate::text::{trim_text, trimmed};

verus! {

/// The hash table's protocol name. Deliberately not IPFS's: a small table
/// of Kāhui nodes is worth more than a large table of nodes with nothing to
/// say.
pub const KAD_PROTOCOL: &'static str = "/kahui/kad/1.0.0";

/// The name of the seed file inside the data directory.
pub const SEED_FILE: &'static str = "seeds.txt";

/// What a fresh seed file says, so somebody opening it knows what to do.
pub const SEED_FILE_TEMPLATE: &'static str = "# Kahui seed addresses, one per line, # for comments.
#
# A node only needs one of these, once, ever: after it has met anybody it
# remembers them, and after that it finds everyone else through the DHT.
#
# You do not normally need to touch this file. It matters when you are the
# first Kahui node on a network and nobody has invited you yet.
#
# Example:
#   /ip4/203.0.113.4/tcp/4001/p2p/12D3KooWExample
#   /ip6/2404:4408::1/udp/4001/quic-v1/p2p/12D3KooWExample
";

/// The bytes of the key every reachable node advertises itself under.
pub open spec fn relay_key_bytes() -> Seq<u8> {
    seq![107u8, 97, 104, 117, 105, 46, 114, 101, 108, 97, 121, 115, 46, 118, 49]
}

/// What a community's key starts with, so that it can never collide with
/// another kind of key.
pub open spec fn community_domain() -> Seq<u8> {
    seq![107u8, 97, 104, 117, 105, 46, 99, 111, 109, 109, 117, 110, 105, 116, 121, 46, 118, 49]
}

/// The key every reachable node advertises itself under. One well-known
/// key, so "who can carry for me?" is a single lookup.
pub fn relay_key() -> (k: Vec<u8>)
    ensures
        k@ == relay_key_bytes(),
{
    let k = vec![107u8, 97, 104, 117, 105, 46, 114, 101, 108, 97, 121, 115, 46, 118, 49];
    assert(k@ =~= relay_key_bytes());
    k
}

/// The key a community's members advertise themselves under: the community
/// id, which is already a well-spread hash, behind a domain tag. This is
/// what lets an invite carry no addresses at all.
pub fn community_key(community: &CommunityId) -> (k: Vec<u8>)
    ensures
        k@ == community_domain() + community@,
{
    let mut k: Vec<u8> = vec![107u8, 97, 104, 117, 105, 46, 99, 111, 109, 109, 117, 110, 105, 116, 121, 46, 118, 49];
    assert(k@ =~= community_domain());
    k.extend_from_slice(community.as_bytes());
    k
}

/// Different communities never share a key.
pub proof fn law_community_keys_are_distinct(a: Seq<u8>, b: Seq<u8>)
    requires
        a != b,
    ensures
        community_domain() + a != community_domain() + b,
{
    if community_domain() + a == community_domain() + b {
        assert(a =~= (community_domain() + a).skip(community_domain().len() as int));
        assert(b =~= (community_domain() + b).skip(community_domain().len() as int));
    }
}

/// No community's key is the relay key.
pub proof fn law_community_key_is_not_the_relay_key(c: Seq<u8>)
    ensures
        community_domain() + c != relay_key_bytes(),
{
    if community_domain() + c == relay_key_bytes() {
        assert((community_domain() + c).len() == relay_key_bytes().len());
    }
}

/// Addresses to try when this node knows nobody at all: none. A list
/// compiled into the program is a list this project chose, and a network
/// that works only because of nodes somebody picked is not the network this
/// is meant to be. Who goes in a seed file is for whoever runs a copy.
pub fn compiled_seeds() -> (v: Vec<String>)
    ensures
        v@.len() == 0,
{
    Vec::new()
}

/// The canonical text of the multiaddress some text parses to, if it does.
pub uninterp spec fn multiaddr_text(text: Seq<char>) -> Option<Seq<char>>;

/// Calls `str::parse::<Multiaddr>` and renders the result back to text.
/// Which texts parse, and the canonical form, are named, not stated.
#[verifier::external_body]
pub fn parse_multiaddr(text: &str) -> (r: Option<String>)
    ensures
        match r {
            None => multiaddr_text(text@) is None,
            Some(s) => multiaddr_text(text@) == Some(s@),
        },
{
    text.parse::<libp2p::Multiaddr>().ok().map(|a| a.to_string())
}

/// A seed file line without its comment and surrounding space.
pub open spec fn seed_line(line: Seq<char>) -> Seq<char> {
    trimmed(split_on(line, '#')[0])
}

/// The addresses named by seed file lines, in order; blank lines, comments
/// and lines that are not addresses skipped.
pub open spec fn seeds_in(lines: Seq<Seq<char>>) -> Seq<Seq<char>>
    decreases lines.len(),
{
    if lines.len() == 0 {
        seq![]
    } else {
        let rest = seeds_in(lines.drop_last());
        let l = seed_line(lines.last());
        if l.len() > 0 && multiaddr_text(l) is Some {
            rest.push(multiaddr_text(l)->Some_0)
        } else {
            rest
        }
    }
}

/// Pulls addresses out of a seed file's text: one per line, `#` starts a
/// comment. Anything unparseable is skipped rather than fatal: a typo in a
/// seed file should cost that one seed, not the ability to start.
pub fn parse_seeds(text: &str) -> (v: Vec<String>)
    ensures
        strings_view(v@) == seeds_in(split_on(text@, '\n')),
{
    let lines = split_text(text, '\n');
    let ghost ls = split_on(text@, '\n');
    let mut out: Vec<String> = Vec::new();
    let mut i: usize = 0;
    while i < lines.len()
        invariant
            lines@.map_values(|p: String| p@) == ls,
            i <= lines@.len(),
            strings_view(out@) == seeds_in(ls.take(i as int)),
        decreases lines@.len() - i,
    {
        assert(ls.take(i + 1).drop_last() =~= ls.take(i as int));
        assert(ls[i as int] == lines@[i as int]@);
        let pieces = split_text(lines[i].as_str(), '#');
        proof {
            crate::net::ip::lemma_split_on_nonempty(ls[i as int], '#');
        }
        assert(pieces@.map_values(|p: String| p@)[0] == pieces@[0]@);
        let line = trim_text(pieces[0].as_str());
        if line.unicode_len() > 0 {
            match parse_multiaddr(line) {
                Some(addr) => {
                    let ghost o0 = out@;
                    out.push(addr);
                    assert(strings_view(out@) =~= strings_view(o0).push(out@.last()@));
                },
                None => {},
            }
        }
        i += 1;
    }
    assert(ls.take(ls.len() as int) =~= ls);
    out
}

/// A seed file's text with one more address in it, or `None` when the file
/// already names that address. Anything already there is left alone.
pub fn with_seed(existing: &str, addr: &str) -> (r: Option<String>)
    ensures
        seeds_in(split_on(existing@, '\n')).contains(addr@) ==> r is None,
        !seeds_in(split_on(existing@, '\n')).contains(addr@) ==> (r matches Some(next) && next@ == (if existing@.len()
            == 0 || existing@.last() != '\n' {
            existing@.push('\n')
        } else {
            existing@
        }) + addr@ + seq!['\n']),
{
    let known = parse_seeds(existing);
    let ghost ks = strings_view(known@);
    let mut i: usize = 0;
    while i < known.len()
        invariant
            ks == strings_view(known@),
            ks == seeds_in(split_on(existing@, '\n')),
            i <= known@.len(),
            forall|k: int| 0 <= k < i ==> ks[k] != addr@,
        decreases known@.len() - i,
    {
        assert(ks[i as int] == known@[i as int]@);
        if crate::session::same_text(known[i].as_str(), addr) {
            assert(ks[i as int] == addr@);
            return None;
        }
        i += 1;
    }
    let mut next = existing.to_owned();
    let n = existing.unicode_len();
    if n == 0 || existing.get_char(n - 1) != '\n' {
        crate::text::push_char(&mut next, '\n');
    }
    crate::text::append_str(&mut next, addr);
    crate::text::push_char(&mut next, '\n');
    Some(next)
}

} // verus!
