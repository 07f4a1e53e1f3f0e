//! Peers remembered per community, relays, and node-local settings: what a
//! node needs to find its way back after a restart, kept beside the log but
//! not part of it.

use vstd::prelude::*;

use crate::proto::ids::{lemma_hash32_len, CommunityId};
use crate::store::order::{bytes_eq, is_stable_sort, keys_view, order_view, stable_order, KeyModel, SortKey};
use crate::store::views::sorted_rows;
use crate::store::PeerRecord;

verus! {

broadcast use {lemma_hash32_len, vstd::string::to_string_from_display_ensures_for_str};

/// How many addresses are kept per peer: enough for a few interfaces and a
/// relay, not enough for a peer to use a node as storage.
pub const MAX_PEER_ADDRS: usize = 8;

pub struct PeerModel {
    pub peer_id: Seq<u8>,
    pub addrs: Seq<Seq<char>>,
    pub last_seen_ms: u64,
}

impl View for PeerRecord {
    type V = PeerModel;

    open spec fn view(&self) -> PeerModel {
        PeerModel {
            peer_id: self.peer_id@,
            addrs: self.addrs@.map_values(|a: String| a@),
            last_seen_ms: self.last_seen_ms,
        }
    }
}

/// `new` followed by each address of `old` that is not already there.
pub open spec fn merged_addrs(new: Seq<Seq<char>>, old: Seq<Seq<char>>) -> Seq<Seq<char>>
    decreases old.len(),
{
    if old.len() == 0 {
        new
    } else {
        let m = merged_addrs(new, old.drop_last());
        if m.contains(old.last()) {
            m
        } else {
            m.push(old.last())
        }
    }
}

/// What remembering `peer` makes of the record already held: newest
/// addresses first, older ones kept as fallbacks up to the cap, and the
/// later of the two sightings.
pub open spec fn merge_peer(existing: Option<PeerModel>, peer: PeerModel) -> PeerModel {
    let all = match existing {
        None => peer.addrs,
        Some(e) => merged_addrs(peer.addrs, e.addrs),
    };
    let seen = match existing {
        None => 0,
        Some(e) => e.last_seen_ms,
    };
    PeerModel {
        peer_id: peer.peer_id,
        addrs: if all.len() > MAX_PEER_ADDRS { all.take(MAX_PEER_ADDRS as int) } else { all },
        last_seen_ms: if peer.last_seen_ms > seen { peer.last_seen_ms } else { seen },
    }
}

/// Most recently seen first, then by peer id.
pub open spec fn peer_keys(rows: Seq<PeerModel>) -> Seq<KeyModel> {
    rows.map_values(|p: PeerModel| ((u64::MAX - p.last_seen_ms) as u64, p.peer_id, Seq::<u8>::empty()))
}

pub open spec fn peers_view(v: Seq<PeerRecord>) -> Seq<PeerModel> {
    v.map_values(|p: PeerRecord| p@)
}

/// The rows of one community, in table order.
pub open spec fn rows_of(table: Seq<(Seq<u8>, PeerModel)>, c: Seq<u8>) -> Seq<PeerModel>
    decreases table.len(),
{
    if table.len() == 0 {
        seq![]
    } else {
        let rest = rows_of(table.drop_last(), c);
        if table.last().0 == c {
            rest.push(table.last().1)
        } else {
            rest
        }
    }
}

/// Where the row for `(c, id)` is, if anywhere.
pub open spec fn peer_slot(table: Seq<(Seq<u8>, PeerModel)>, c: Seq<u8>, id: Seq<u8>) -> int {
    choose|i: int| 0 <= i < table.len() && (#[trigger] table[i]).0 == c && table[i].1.peer_id == id && forall|j: int|
        0 <= j < i ==> !((#[trigger] table[j]).0 == c && table[j].1.peer_id == id)
}

pub open spec fn has_peer(table: Seq<(Seq<u8>, PeerModel)>, c: Seq<u8>, id: Seq<u8>) -> bool {
    exists|i: int| 0 <= i < table.len() && (#[trigger] table[i]).0 == c && table[i].1.peer_id == id
}

/// The table after remembering `peer` in community `c`.
pub open spec fn remembered(table: Seq<(Seq<u8>, PeerModel)>, c: Seq<u8>, peer: PeerModel) -> Seq<(Seq<u8>, PeerModel)> {
    if has_peer(table, c, peer.peer_id) {
        let p = peer_slot(table, c, peer.peer_id);
        table.update(p, (c, merge_peer(Some(table[p].1), peer)))
    } else {
        table.push((c, merge_peer(None, peer)))
    }
}

pub(crate) fn copy_strings(v: &Vec<String>) -> (out: Vec<String>)
    ensures
        out@.map_values(|a: String| a@) == v@.map_values(|a: String| a@),
{
    let mut out: Vec<String> = Vec::new();
    let mut i: usize = 0;
    while i < v.len()
        invariant
            i <= v@.len(),
            out@.map_values(|a: String| a@) == v@.take(i as int).map_values(|a: String| a@),
        decreases v@.len() - i,
    {
        let ghost o0 = out@;
        out.push(v[i].clone());
        assert(out@.map_values(|a: String| a@) =~= o0.map_values(|a: String| a@).push(v@[i as int]@));
        assert(v@.take(i + 1).map_values(|a: String| a@) =~= v@.take(i as int).map_values(|a: String| a@).push(v@[i as int]@));
        i += 1;
    }
    assert(v@.take(v@.len() as int) =~= v@);
    out
}

impl PeerRecord {
    pub fn copy(&self) -> (p: PeerRecord)
        ensures
            p@ == self@,
    {
        PeerRecord {
            peer_id: vstd::slice::slice_to_vec(self.peer_id.as_slice()),
            addrs: copy_strings(&self.addrs),
            last_seen_ms: self.last_seen_ms,
        }
    }
}

fn contains_string(v: &Vec<String>, s: &String) -> (b: bool)
    ensures
        b == v@.map_values(|a: String| a@).contains(s@),
{
    let ghost w = v@.map_values(|a: String| a@);
    let mut i: usize = 0;
    while i < v.len()
        invariant
            i <= v@.len(),
            w == v@.map_values(|a: String| a@),
            forall|k: int| 0 <= k < i ==> w[k] != s@,
        decreases v@.len() - i,
    {
        assert(w[i as int] == v@[i as int]@);
        if v[i] == *s {
            return true;
        }
        i += 1;
    }
    false
}

/// Remembers `peer` on top of what was held about it.
/// The relay table after remembering `peer`: merged into its entry if it
/// has one, else added at the end.
pub open spec fn relay_remembered(t: Seq<PeerModel>, peer: PeerModel) -> Seq<PeerModel> {
    let found = exists|i: int| 0 <= i < t.len() && (#[trigger] t[i]).peer_id == peer.peer_id;
    if found {
        let p = choose|i: int|
            0 <= i < t.len() && (#[trigger] t[i]).peer_id == peer.peer_id && forall|j: int|
                0 <= j < i ==> (#[trigger] t[j]).peer_id != peer.peer_id;
        t.update(p, merge_peer(Some(t[p]), peer))
    } else {
        t.push(merge_peer(None, peer))
    }
}

pub fn merge_peer_record(existing: Option<&PeerRecord>, peer: &PeerRecord) -> (m: PeerRecord)
    ensures
        m@ == merge_peer(
            match existing {
                None => None,
                Some(e) => Some(e@),
            },
            peer@,
        ),
{
    let mut addrs = copy_strings(&peer.addrs);
    let mut seen: u64 = 0;
    match existing {
        None => {},
        Some(e) => {
            let ghost new = peer@.addrs;
            let ghost old = e@.addrs;
            let mut i: usize = 0;
            while i < e.addrs.len()
                invariant
                    i <= e.addrs@.len(),
                    old == e@.addrs,
                    old.len() == e.addrs@.len(),
                    addrs@.map_values(|a: String| a@) == merged_addrs(new, old.take(i as int)),
                decreases e.addrs@.len() - i,
            {
                assert(old.take(i + 1).drop_last() =~= old.take(i as int));
                assert(old[i as int] == e.addrs@[i as int]@);
                if !contains_string(&addrs, &e.addrs[i]) {
                    let ghost a0 = addrs@;
                    addrs.push(e.addrs[i].clone());
                    assert(addrs@.map_values(|a: String| a@) =~= a0.map_values(|a: String| a@).push(old[i as int]));
                }
                i += 1;
            }
            assert(old.take(old.len() as int) =~= old);
            seen = e.last_seen_ms;
        },
    }
    if addrs.len() > MAX_PEER_ADDRS {
        let ghost a0 = addrs@;
        addrs.truncate(MAX_PEER_ADDRS);
        assert(addrs@.map_values(|a: String| a@) =~= a0.map_values(|a: String| a@).take(MAX_PEER_ADDRS as int));
    }
    PeerRecord {
        peer_id: vstd::slice::slice_to_vec(peer.peer_id.as_slice()),
        addrs,
        last_seen_ms: if peer.last_seen_ms > seen { peer.last_seen_ms } else { seen },
    }
}

/// Puts peer rows most recently seen first.
fn arrange_peers(rows: Vec<PeerRecord>) -> (out: Vec<PeerRecord>)
    ensures
        sorted_rows(peers_view(rows@), peer_keys(peers_view(rows@)), peers_view(out@)),
{
    let ghost rs = peers_view(rows@);
    let mut keys: Vec<SortKey> = Vec::new();
    let mut i: usize = 0;
    while i < rows.len()
        invariant
            i <= rows@.len(),
            rs == peers_view(rows@),
            rs.len() == rows@.len(),
            keys_view(keys@) == peer_keys(rs.take(i as int)),
        decreases rows@.len() - i,
    {
        let ghost k0 = keys@;
        keys.push(SortKey {
            primary: u64::MAX - rows[i].last_seen_ms,
            secondary: vstd::slice::slice_to_vec(rows[i].peer_id.as_slice()),
            tertiary: Vec::new(),
        });
        assert(rs[i as int] == rows@[i as int]@);
        assert(keys_view(keys@) =~= keys_view(k0).push(keys@[i as int]@));
        assert(peer_keys(rs.take(i + 1)) =~= peer_keys(rs.take(i as int)).push(keys@[i as int]@));
        i += 1;
    }
    assert(rs.take(rows@.len() as int) =~= rs);
    let order = stable_order(&keys);
    let ghost o = order_view(order@);
    let mut out: Vec<PeerRecord> = Vec::new();
    let mut k: usize = 0;
    while k < order.len()
        invariant
            k <= order@.len(),
            o == order_view(order@),
            is_stable_sort(keys_view(keys@), o),
            keys_view(keys@).len() == rows@.len(),
            rs == peers_view(rows@),
            rs.len() == rows@.len(),
            out@.len() == k,
            forall|j: int| 0 <= j < k ==> (#[trigger] out@[j])@ == rs[o[j]],
        decreases order@.len() - k,
    {
        assert(o[k as int] == order@[k as int] as int);
        assert(rs[o[k as int]] == rows@[order@[k as int] as int]@);
        out.push(rows[order[k]].copy());
        k += 1;
    }
    proof {
        assert forall|j: int| 0 <= j < o.len() implies peers_view(out@)[j] == rs[#[trigger] o[j]] by {
            assert(out@[j]@ == rs[o[j]]);
        }
    }
    out
}

/// What a node keeps beside its log: peers per community, relays, and
/// settings.
pub struct LocalState {
    pub peers: Vec<(CommunityId, PeerRecord)>,
    pub relays: Vec<PeerRecord>,
    pub meta: Vec<(String, Vec<u8>)>,
}

impl LocalState {
    pub fn new() -> (s: LocalState)
        ensures
            s.peer_table().len() == 0,
            s.relay_table().len() == 0,
            s.meta_table().len() == 0,
    {
        LocalState { peers: Vec::new(), relays: Vec::new(), meta: Vec::new() }
    }

    /// Peers remembered per community, as values.
    pub open spec fn peer_table(&self) -> Seq<(Seq<u8>, PeerModel)> {
        self.peers@.map_values(|p: (CommunityId, PeerRecord)| (p.0@, p.1@))
    }

    /// Relays, as values.
    pub open spec fn relay_table(&self) -> Seq<PeerModel> {
        peers_view(self.relays@)
    }

    /// Node-local settings, as values.
    pub open spec fn meta_table(&self) -> Seq<(Seq<char>, Seq<u8>)> {
        self.meta@.map_values(|p: (String, Vec<u8>)| (p.0@, p.1@))
    }

    /// Peers last seen in this community, most recent first.
    pub fn peers(&self, community: &CommunityId) -> (r: Vec<PeerRecord>)
        ensures
            sorted_rows(
                rows_of(self.peer_table(), community@),
                peer_keys(rows_of(self.peer_table(), community@)),
                peers_view(r@),
            ),
    {
        let ghost t = self.peer_table();
        let mut rows: Vec<PeerRecord> = Vec::new();
        let mut i: usize = 0;
        while i < self.peers.len()
            invariant
                i <= self.peers@.len(),
                t == self.peer_table(),
                t.len() == self.peers@.len(),
                peers_view(rows@) == rows_of(t.take(i as int), community@),
            decreases self.peers@.len() - i,
        {
            assert(t.take(i + 1).drop_last() =~= t.take(i as int));
            assert(t[i as int] == (self.peers@[i as int].0@, self.peers@[i as int].1@));
            if self.peers[i].0 == *community {
                let ghost r0 = rows@;
                rows.push(self.peers[i].1.copy());
                assert(peers_view(rows@) =~= peers_view(r0).push(t[i as int].1));
            }
            i += 1;
        }
        assert(t.take(t.len() as int) =~= t);
        arrange_peers(rows)
    }

    pub fn remember_peer(&mut self, community: &CommunityId, peer: &PeerRecord)
        ensures
            final(self).peer_table() == remembered(old(self).peer_table(), community@, peer@),
            final(self).relay_table() == old(self).relay_table(),
            final(self).meta_table() == old(self).meta_table(),
    {
        let ghost t = self.peer_table();
        let mut i: usize = 0;
        while i < self.peers.len()
            invariant
                i <= self.peers@.len(),
                t == self.peer_table(),
                t.len() == self.peers@.len(),
                forall|j: int| 0 <= j < i ==> !((#[trigger] t[j]).0 == community@ && t[j].1.peer_id == peer@.peer_id),
                self.peers == old(self).peers,
                self.relays == old(self).relays,
                self.meta == old(self).meta,
            decreases self.peers@.len() - i,
        {
            assert(t[i as int] == (self.peers@[i as int].0@, self.peers@[i as int].1@));
            if self.peers[i].0 == *community && bytes_eq(self.peers[i].1.peer_id.as_slice(), peer.peer_id.as_slice()) {
                let merged = merge_peer_record(Some(&self.peers[i].1), peer);
                proof {
                    assert(t[i as int].0 == community@ && t[i as int].1.peer_id == peer@.peer_id);
                    assert(has_peer(t, community@, peer@.peer_id));
                    let p = peer_slot(t, community@, peer@.peer_id);
                    if p < i {
                        assert(!(t[p].0 == community@ && t[p].1.peer_id == peer@.peer_id));
                    } else if p > i {
                        assert(!(t[i as int].0 == community@ && t[i as int].1.peer_id == peer@.peer_id));
                    }
                    assert(p == i);
                }
                let ghost mv = merged@;
                self.peers.set(i, (*community, merged));
                assert(self.peer_table() =~= t.update(i as int, (community@, mv)));
                return;
            }
            i += 1;
        }
        let merged = merge_peer_record(None, peer);
        let ghost mv = merged@;
        self.peers.push((*community, merged));
        assert(self.peer_table() =~= t.push((community@, mv)));
    }

    /// Reachable nodes willing to relay, most recently seen first.
    pub fn relays(&self) -> (r: Vec<PeerRecord>)
        ensures
            sorted_rows(self.relay_table(), peer_keys(self.relay_table()), peers_view(r@)),
    {
        let mut rows: Vec<PeerRecord> = Vec::new();
        let mut i: usize = 0;
        while i < self.relays.len()
            invariant
                i <= self.relays@.len(),
                peers_view(rows@) == peers_view(self.relays@.take(i as int)),
            decreases self.relays@.len() - i,
        {
            let ghost r0 = rows@;
            rows.push(self.relays[i].copy());
            assert(peers_view(rows@) =~= peers_view(r0).push(self.relays@[i as int]@));
            assert(peers_view(self.relays@.take(i + 1)) =~= peers_view(self.relays@.take(i as int)).push(self.relays@[i as int]@));
            i += 1;
        }
        assert(self.relays@.take(self.relays@.len() as int) =~= self.relays@);
        arrange_peers(rows)
    }

    pub fn remember_relay(&mut self, peer: &PeerRecord)
        ensures
            final(self).relay_table() == relay_remembered(old(self).relay_table(), peer@),
            final(self).peer_table() == old(self).peer_table(),
            final(self).meta_table() == old(self).meta_table(),
    {
        let ghost t = self.relay_table();
        let mut i: usize = 0;
        while i < self.relays.len()
            invariant
                i <= self.relays@.len(),
                t == self.relay_table(),
                t.len() == self.relays@.len(),
                forall|j: int| 0 <= j < i ==> (#[trigger] t[j]).peer_id != peer@.peer_id,
                self.peers == old(self).peers,
                self.relays == old(self).relays,
                self.meta == old(self).meta,
            decreases self.relays@.len() - i,
        {
            assert(t[i as int] == self.relays@[i as int]@);
            if bytes_eq(self.relays[i].peer_id.as_slice(), peer.peer_id.as_slice()) {
                let merged = merge_peer_record(Some(&self.relays[i]), peer);
                let ghost mv = merged@;
                proof {
                    assert(t[i as int].peer_id == peer@.peer_id);
                    assert(forall|j: int| 0 <= j < i ==> (#[trigger] t[j]).peer_id != peer@.peer_id);
                    let p = choose|k: int| 0 <= k < t.len() && (#[trigger] t[k]).peer_id == peer@.peer_id && forall|j: int| 0 <= j < k ==> (#[trigger] t[j]).peer_id != peer@.peer_id;
                    if p < i {
                        assert(t[p].peer_id != peer@.peer_id);
                    } else if p > i {
                        assert(t[i as int].peer_id != peer@.peer_id);
                    }
                    assert(p == i);
                }
                self.relays.set(i, merged);
                assert(self.relay_table() =~= t.update(i as int, mv));
                return;
            }
            i += 1;
        }
        let merged = merge_peer_record(None, peer);
        let ghost mv = merged@;
        self.relays.push(merged);
        assert(self.relay_table() =~= t.push(mv));
    }

    /// A node-local setting, if set.
    pub fn meta_get(&self, key: &str) -> (r: Option<Vec<u8>>)
        ensures
            ({
                let t = self.meta_table();
                match r {
                    None => forall|i: int| 0 <= i < t.len() ==> (#[trigger] t[i]).0 != key@,
                    Some(v) => exists|i: int|
                        0 <= i < t.len() && (#[trigger] t[i]).0 == key@ && t[i].1 == v@ && forall|j: int|
                            0 <= j < i ==> (#[trigger] t[j]).0 != key@,
                }
            }),
    {
        let ghost t = self.meta_table();
        let wanted = key.to_string();
        let mut i: usize = 0;
        while i < self.meta.len()
            invariant
                i <= self.meta@.len(),
                wanted@ == key@,
                t == self.meta_table(),
                t.len() == self.meta@.len(),
                forall|j: int| 0 <= j < i ==> (#[trigger] t[j]).0 != key@,
            decreases self.meta@.len() - i,
        {
            assert(t[i as int] == (self.meta@[i as int].0@, self.meta@[i as int].1@));
            if self.meta[i].0 == wanted {
                return Some(vstd::slice::slice_to_vec(self.meta[i].1.as_slice()));
            }
            i += 1;
        }
        None
    }

    /// Sets a node-local setting, replacing any earlier value.
    pub fn meta_put(&mut self, key: &str, value: &[u8])
        ensures
            final(self).meta_table() == meta_put_result(old(self).meta_table(), key@, value@),
            final(self).peer_table() == old(self).peer_table(),
            final(self).relay_table() == old(self).relay_table(),
    {
        let ghost t = self.meta_table();
        let wanted = key.to_string();
        let mut found = false;
        let mut i: usize = 0;
        while i < self.meta.len()
            invariant
                i <= self.meta@.len(),
                wanted@ == key@,
                self.meta@.len() == t.len(),
                self.meta_table().len() == t.len(),
                forall|j: int| i <= j < t.len() ==> self.meta_table()[j] == #[trigger] t[j],
                forall|j: int| 0 <= j < i ==> self.meta_table()[j] == replaced(#[trigger] t[j], key@, value@),
                found == exists|j: int| 0 <= j < i && (#[trigger] t[j]).0 == key@,
                self.peers == old(self).peers,
                self.relays == old(self).relays,
            decreases self.meta@.len() - i,
        {
            assert(self.meta_table()[i as int] == (self.meta@[i as int].0@, self.meta@[i as int].1@));
            assert(self.meta_table()[i as int] == t[i as int]);
            if self.meta[i].0 == wanted {
                let k = self.meta[i].0.clone();
                let ghost before = self.meta_table();
                self.meta.set(i, (k, vstd::slice::slice_to_vec(value)));
                assert(self.meta_table() =~= before.update(i as int, (key@, value@)));
                found = true;
            }
            i += 1;
        }
        if !found {
            let ghost before = self.meta_table();
            assert(before =~= t.map_values(|p: (Seq<char>, Seq<u8>)| replaced(p, key@, value@)));
            self.meta.push((key.to_string(), vstd::slice::slice_to_vec(value)));
            assert(self.meta_table() =~= t.push((key@, value@)));
        } else {
            assert(self.meta_table() =~= t.map_values(|p: (Seq<char>, Seq<u8>)| replaced(p, key@, value@)));
        }
    }
}

/// An entry after setting `key` to `value`.
pub open spec fn replaced(p: (Seq<char>, Seq<u8>), key: Seq<char>, value: Seq<u8>) -> (Seq<char>, Seq<u8>) {
    if p.0 == key {
        (key, value)
    } else {
        p
    }
}

/// The settings after setting `key` to `value`: every entry for the key
/// takes the new value, or the entry is added.
pub open spec fn meta_put_result(t: Seq<(Seq<char>, Seq<u8>)>, key: Seq<char>, value: Seq<u8>) -> Seq<(Seq<char>, Seq<u8>)> {
    if exists|i: int| 0 <= i < t.len() && (#[trigger] t[i]).0 == key {
        t.map_values(|p: (Seq<char>, Seq<u8>)| replaced(p, key, value))
    } else {
        t.push((key, value))
    }
}

} // verus!
