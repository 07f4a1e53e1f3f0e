//! What the network tells a node, what the node asks of the network, and
//! what the node keeps about its peers between the two.
//!
//! The transport itself (sockets, gossip meshes, the hash table, relay
//! circuits) is driven from outside; the node's decisions on each thing the
//! network reports are made here and in the engine.

use vstd::prelude::*;

use crate::net::invite::strings_view;
use crate::net::wire::SyncRequest;
use crate::node::Reachability;
use crate::proto::ids::CommunityId;
use crate::session::same_text;

verus! {

/// The protocol a peer that can carry for others speaks.
pub const RELAY_HOP_PROTOCOL: &'static str = "/libp2p/circuit/relay/0.2.0/hop";

/// How many members to hold relay reservations with at once.
pub const RELAY_TARGET: usize = 2;

/// How many remembered relays to redial.
pub const RELAY_MEMORY: usize = 8;

/// How many connected peers each anti-entropy round asks per community.
pub const SYNC_FANOUT: usize = 3;

/// Something the network reports.
pub enum NetEvent {
    /// A listening address became available (a relay circuit among them).
    Listening { addr: String },
    /// A connection to `peer` came up at `remote`; `first` when it is the
    /// only one to that peer.
    Connected { peer: Vec<u8>, remote: String, first: bool },
    /// The last connection to `peer` closed.
    Disconnected { peer: Vec<u8> },
    /// A message arrived on a topic, relayed by `source`.
    Gossip { source: Vec<u8>, topic: String, data: Vec<u8> },
    /// `peer` subscribed to a topic.
    Subscribed { peer: Vec<u8>, topic: String },
    /// A sync request to `peer` failed.
    SyncFailed { peer: Vec<u8>, community: CommunityId },
    /// `peer` said what it listens on, what it speaks, and how it sees us.
    Identified { peer: Vec<u8>, listen_addrs: Vec<String>, protocols: Vec<String>, observed: String },
    /// The router opened a port but did not say at which address.
    MappedWithoutAddress { port: u16 },
    /// The router opened a port, reachable at `addr`.
    RouterOpened { addr: String },
    /// The router took that port back.
    RouterExpired { addr: String },
    /// Peers concluded whether we can be dialled (`None`: nobody knows).
    Reachability(Option<Reachability>),
    /// A member agreed to carry for us.
    RelayAccepted { relay: Vec<u8> },
    /// Time to tell the communities where we are.
    PresenceTick,
    /// Time to ask around for anything missed.
    AntiEntropyTick,
}

/// Something the node asks of the network.
pub enum NetAction {
    /// Connect to `peer` at these addresses.
    Dial { peer: Vec<u8>, addrs: Vec<String> },
    /// Tell others this address reaches us.
    AddExternal(String),
    /// Stop telling others this address reaches us.
    RemoveExternal(String),
    /// Listen through `relay`, reached at these addresses.
    ListenVia { relay: Vec<u8>, addrs: Vec<String> },
    /// Send on a gossip topic.
    Publish { topic: String, data: Vec<u8> },
    /// Ask `peer` for history.
    RequestSync { peer: Vec<u8>, request: SyncRequest },
    /// Put `peer` at `addr` in the hash table.
    DhtAdd { peer: Vec<u8>, addr: String },
    /// Offer, in the hash table, what this key names.
    DhtProvide(Vec<u8>),
    /// Give back every relay reservation.
    ReleaseRelays,
}

/// A `NetAction` as plain values.
pub enum ActModel {
    Dial { peer: Seq<u8>, addrs: Seq<Seq<char>> },
    AddExternal(Seq<char>),
    RemoveExternal(Seq<char>),
    ListenVia { relay: Seq<u8>, addrs: Seq<Seq<char>> },
    Publish { topic: Seq<char>, data: Seq<u8> },
    RequestSync { peer: Seq<u8>, community: Seq<u8>, have: Map<Seq<u8>, u64>, limit: u32 },
    DhtAdd { peer: Seq<u8>, addr: Seq<char> },
    DhtProvide(Seq<u8>),
    ReleaseRelays,
}

impl View for NetAction {
    type V = ActModel;

    open spec fn view(&self) -> ActModel {
        match self {
            NetAction::Dial { peer, addrs } => ActModel::Dial { peer: peer@, addrs: strings_view(addrs@) },
            NetAction::AddExternal(a) => ActModel::AddExternal(a@),
            NetAction::RemoveExternal(a) => ActModel::RemoveExternal(a@),
            NetAction::ListenVia { relay, addrs } => ActModel::ListenVia { relay: relay@, addrs: strings_view(addrs@) },
            NetAction::Publish { topic, data } => ActModel::Publish { topic: topic@, data: data@ },
            NetAction::RequestSync { peer, request } => match request {
                SyncRequest::GetDelta { community, have, limit } => ActModel::RequestSync {
                    peer: peer@,
                    community: community@,
                    have: have@,
                    limit: *limit,
                },
            },
            NetAction::DhtAdd { peer, addr } => ActModel::DhtAdd { peer: peer@, addr: addr@ },
            NetAction::DhtProvide(k) => ActModel::DhtProvide(k@),
            NetAction::ReleaseRelays => ActModel::ReleaseRelays,
        }
    }
}

pub open spec fn acts_view(v: Seq<NetAction>) -> Seq<ActModel> {
    v.map_values(|a: NetAction| a@)
}

pub open spec fn peers_seq(v: Seq<Vec<u8>>) -> Seq<Seq<u8>> {
    v.map_values(|p: Vec<u8>| p@)
}

pub open spec fn candidates_view(v: Seq<(Vec<u8>, Vec<String>)>) -> Seq<(Seq<u8>, Seq<Seq<char>>)> {
    v.map_values(|c: (Vec<u8>, Vec<String>)| (c.0@, strings_view(c.1@)))
}

/// What a node keeps about the network.
pub struct NetState {
    /// Where this node listens.
    pub listen: Vec<String>,
    /// Addresses others have been told reach us.
    pub external: Vec<String>,
    /// Peers with at least one connection.
    pub connected: Vec<Vec<u8>>,
    /// Whether peers can dial us, as far as anybody knows.
    pub reachability: Option<Reachability>,
    /// The operator said; peers' guesses do not change it.
    pub fixed: bool,
    /// Peers that could carry for us, with where to reach them.
    pub candidates: Vec<(Vec<u8>, Vec<String>)>,
    /// Members carrying for us.
    pub relayed_by: Vec<Vec<u8>>,
    /// Members we asked to carry for us.
    pub via: Vec<Vec<u8>>,
    /// A port the router opened without naming our address.
    pub mapped_port: Option<u16>,
}

/// A `NetState` as plain values.
pub struct NetModel {
    pub listen: Seq<Seq<char>>,
    pub external: Seq<Seq<char>>,
    pub connected: Seq<Seq<u8>>,
    pub reachability: Option<Reachability>,
    pub fixed: bool,
    pub candidates: Seq<(Seq<u8>, Seq<Seq<char>>)>,
    pub relayed_by: Seq<Seq<u8>>,
    pub via: Seq<Seq<u8>>,
    pub mapped_port: Option<u16>,
}

impl View for NetState {
    type V = NetModel;

    open spec fn view(&self) -> NetModel {
        NetModel {
            listen: strings_view(self.listen@),
            external: strings_view(self.external@),
            connected: peers_seq(self.connected@),
            reachability: self.reachability,
            fixed: self.fixed,
            candidates: candidates_view(self.candidates@),
            relayed_by: peers_seq(self.relayed_by@),
            via: peers_seq(self.via@),
            mapped_port: self.mapped_port,
        }
    }
}

impl NetState {
    /// Nothing known yet; `stated` is what the operator said about being
    /// reachable, if anything.
    pub fn new(stated: Option<Reachability>) -> (n: NetState)
        ensures
            n@.listen.len() == 0,
            n@.external.len() == 0,
            n@.connected.len() == 0,
            n@.reachability == stated,
            n@.fixed == (stated is Some),
            n@.candidates.len() == 0,
            n@.relayed_by.len() == 0,
            n@.via.len() == 0,
            n@.mapped_port is None,
    {
        let n = NetState {
            listen: Vec::new(),
            external: Vec::new(),
            connected: Vec::new(),
            reachability: stated,
            fixed: stated.is_some(),
            candidates: Vec::new(),
            relayed_by: Vec::new(),
            via: Vec::new(),
            mapped_port: None,
        };
        assert(n@.listen =~= Seq::<Seq<char>>::empty());
        n
    }
}

/// `s` with `x` added at the end unless already there.
pub open spec fn with_item<A>(s: Seq<A>, x: A) -> Seq<A> {
    if s.contains(x) {
        s
    } else {
        s.push(x)
    }
}

/// `s` without any `x`.
pub open spec fn without_item<A>(s: Seq<A>, x: A) -> Seq<A>
    decreases s.len(),
{
    if s.len() == 0 {
        seq![]
    } else {
        let rest = without_item(s.drop_last(), x);
        if s.last() == x {
            rest
        } else {
            rest.push(s.last())
        }
    }
}

pub fn has_text(v: &Vec<String>, x: &str) -> (b: bool)
    ensures
        b == strings_view(v@).contains(x@),
{
    let ghost s = strings_view(v@);
    let mut i: usize = 0;
    while i < v.len()
        invariant
            s == strings_view(v@),
            i <= s.len(),
            forall|k: int| 0 <= k < i ==> s[k] != x@,
        decreases s.len() - i,
    {
        assert(s[i as int] == v@[i as int]@);
        if same_text(v[i].as_str(), x) {
            assert(s[i as int] == x@);
            return true;
        }
        i += 1;
    }
    false
}

pub fn add_text(v: &mut Vec<String>, x: &str)
    ensures
        strings_view(final(v)@) == with_item(strings_view(old(v)@), x@),
{
    if !has_text(v, x) {
        let ghost s = strings_view(v@);
        v.push(x.to_string());
        assert(strings_view(v@) =~= s.push(x@));
    }
}

pub fn same_bytes(a: &[u8], b: &[u8]) -> (r: bool)
    ensures
        r == (a@ == b@),
{
    if a.len() != b.len() {
        return false;
    }
    let mut i: usize = 0;
    while i < a.len()
        invariant
            a@.len() == b@.len(),
            i <= a@.len(),
            forall|k: int| 0 <= k < i ==> a@[k] == b@[k],
        decreases a@.len() - i,
    {
        if a[i] != b[i] {
            return false;
        }
        i += 1;
    }
    assert(a@ =~= b@);
    true
}

pub fn has_peer(v: &Vec<Vec<u8>>, p: &[u8]) -> (b: bool)
    ensures
        b == peers_seq(v@).contains(p@),
{
    let ghost s = peers_seq(v@);
    let mut i: usize = 0;
    while i < v.len()
        invariant
            s == peers_seq(v@),
            i <= s.len(),
            forall|k: int| 0 <= k < i ==> s[k] != p@,
        decreases s.len() - i,
    {
        assert(s[i as int] == v@[i as int]@);
        if same_bytes(v[i].as_slice(), p) {
            assert(s[i as int] == p@);
            return true;
        }
        i += 1;
    }
    false
}

pub fn add_peer(v: &mut Vec<Vec<u8>>, p: &[u8])
    ensures
        peers_seq(final(v)@) == with_item(peers_seq(old(v)@), p@),
{
    if !has_peer(v, p) {
        let ghost s = peers_seq(v@);
        v.push(vstd::slice::slice_to_vec(p));
        assert(peers_seq(v@) =~= s.push(p@));
    }
}

pub fn remove_peer(v: &mut Vec<Vec<u8>>, p: &[u8])
    ensures
        peers_seq(final(v)@) == without_item(peers_seq(old(v)@), p@),
{
    let ghost s = peers_seq(v@);
    let mut kept: Vec<Vec<u8>> = Vec::new();
    let mut i: usize = 0;
    while i < v.len()
        invariant
            s == peers_seq(v@),
            i <= s.len(),
            peers_seq(kept@) == without_item(s.take(i as int), p@),
        decreases s.len() - i,
    {
        assert(s.take(i + 1).drop_last() =~= s.take(i as int));
        assert(s[i as int] == v@[i as int]@);
        if !same_bytes(v[i].as_slice(), p) {
            let ghost k0 = peers_seq(kept@);
            kept.push(v[i].clone());
            assert(peers_seq(kept@) =~= k0.push(s[i as int]));
        }
        i += 1;
    }
    assert(s.take(s.len() as int) =~= s);
    *v = kept;
}

pub fn has_protocol(protocols: &Vec<String>, name: &str) -> (b: bool)
    ensures
        b == strings_view(protocols@).contains(name@),
{
    has_text(protocols, name)
}

/// `cands` without the entry for `p`.
pub open spec fn without_key(cands: Seq<(Seq<u8>, Seq<Seq<char>>)>, p: Seq<u8>) -> Seq<(Seq<u8>, Seq<Seq<char>>)>
    decreases cands.len(),
{
    if cands.len() == 0 {
        seq![]
    } else {
        let rest = without_key(cands.drop_last(), p);
        if cands.last().0 == p {
            rest
        } else {
            rest.push(cands.last())
        }
    }
}

/// `cands` with `p` reachable at `addrs`, replacing what was known of it.
pub open spec fn set_candidate(
    cands: Seq<(Seq<u8>, Seq<Seq<char>>)>,
    p: Seq<u8>,
    addrs: Seq<Seq<char>>,
) -> Seq<(Seq<u8>, Seq<Seq<char>>)> {
    without_key(cands, p).push((p, addrs))
}

/// `s` with each of `xs` added in turn.
pub open spec fn with_all(s: Seq<Seq<char>>, xs: Seq<Seq<char>>) -> Seq<Seq<char>>
    decreases xs.len(),
{
    if xs.len() == 0 {
        s
    } else {
        with_item(with_all(s, xs.drop_last()), xs.last())
    }
}

pub fn put_candidate(v: &mut Vec<(Vec<u8>, Vec<String>)>, p: &[u8], addrs: Vec<String>)
    ensures
        candidates_view(final(v)@) == set_candidate(candidates_view(old(v)@), p@, strings_view(addrs@)),
{
    let ghost s = candidates_view(v@);
    let mut kept: Vec<(Vec<u8>, Vec<String>)> = Vec::new();
    let mut i: usize = 0;
    while i < v.len()
        invariant
            s == candidates_view(v@),
            i <= s.len(),
            candidates_view(kept@) == without_key(s.take(i as int), p@),
        decreases s.len() - i,
    {
        assert(s.take(i + 1).drop_last() =~= s.take(i as int));
        assert(s[i as int] == (v@[i as int].0@, strings_view(v@[i as int].1@)));
        if !same_bytes(v[i].0.as_slice(), p) {
            let ghost k0 = candidates_view(kept@);
            let entry = (v[i].0.clone(), copy_texts(&v[i].1));
            kept.push(entry);
            assert(candidates_view(kept@) =~= k0.push(s[i as int]));
        }
        i += 1;
    }
    assert(s.take(s.len() as int) =~= s);
    let ghost k1 = candidates_view(kept@);
    kept.push((vstd::slice::slice_to_vec(p), addrs));
    assert(candidates_view(kept@) =~= k1.push((p@, strings_view(addrs@))));
    *v = kept;
}

fn copy_texts(v: &Vec<String>) -> (c: Vec<String>)
    ensures
        strings_view(c@) == strings_view(v@),
{
    let mut c: Vec<String> = Vec::new();
    let mut i: usize = 0;
    while i < v.len()
        invariant
            i <= v@.len(),
            strings_view(c@) == strings_view(v@.take(i as int)),
        decreases v@.len() - i,
    {
        let ghost c0 = strings_view(c@);
        c.push(v[i].clone());
        assert(strings_view(c@) =~= c0.push(v@[i as int]@));
        assert(strings_view(v@.take(i + 1)) =~= strings_view(v@.take(i as int)).push(v@[i as int]@));
        i += 1;
    }
    assert(v@.take(v@.len() as int) =~= v@);
    c
}

pub fn remove_text(v: &mut Vec<String>, x: &str)
    ensures
        strings_view(final(v)@) == without_item(strings_view(old(v)@), x@),
{
    let ghost s = strings_view(v@);
    let mut kept: Vec<String> = Vec::new();
    let mut i: usize = 0;
    while i < v.len()
        invariant
            s == strings_view(v@),
            i <= s.len(),
            strings_view(kept@) == without_item(s.take(i as int), x@),
        decreases s.len() - i,
    {
        assert(s.take(i + 1).drop_last() =~= s.take(i as int));
        assert(s[i as int] == v@[i as int]@);
        if !same_text(v[i].as_str(), x) {
            let ghost k0 = strings_view(kept@);
            kept.push(v[i].clone());
            assert(strings_view(kept@) =~= k0.push(s[i as int]));
        }
        i += 1;
    }
    assert(s.take(s.len() as int) =~= s);
    *v = kept;
}

} // verus!
