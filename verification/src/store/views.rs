//! The materialised views: communities, channels and members.
//!
//! Each view is a fold over the log, oldest event first. Where events
//! conflict, position in the causal order decides, never arrival time: a
//! channel keeps its causally earliest creation, and a display name its
//! causally latest setting.

use vstd::prelude::*;
use vstd::utf8::encode_utf8;

use crate::proto::event::{Payload, PayloadModel, SignedEventModel};
use crate::proto::ids::{bytes_less, lemma_hash32_len, ChannelId, CommunityId, EventId, UserId};
use crate::store::log::{chains_in_order, community_in, id_of, ids_unique, in_slot, slots_unique, EventLog};
use crate::store::order::{is_stable_sort, stable_order, KeyModel, SortKey, keys_view, order_view};
use crate::store::order::{key_less, lemma_key_less_asymmetric, lemma_key_less_irreflexive, lemma_key_less_total};
use crate::store::{ChannelSummary, CommunitySummary, MemberSummary};

verus! {

broadcast use lemma_hash32_len;

/// `out` is `rows` in stable order of `keys`.
pub open spec fn sorted_rows<T>(rows: Seq<T>, keys: Seq<KeyModel>, out: Seq<T>) -> bool {
    exists|o: Seq<int>|
        is_stable_sort(keys, o) && out.len() == o.len() && forall|i: int| 0 <= i < o.len() ==> out[i] == rows[#[trigger] o[i]]
}

/// Strictly earlier by (Lamport clock, event id): the causal order.
pub open spec fn causally_before(l1: u64, e1: Seq<u8>, l2: u64, e2: Seq<u8>) -> bool {
    l1 < l2 || (l1 == l2 && bytes_less(e1, e2))
}

fn causally_before_exec(l1: u64, e1: &EventId, l2: u64, e2: &EventId) -> (b: bool)
    ensures
        b == causally_before(l1, e1@, l2, e2@),
{
    l1 < l2 || (l1 == l2 && e1.0.less_than(&e2.0))
}

fn utf8_of(s: &String) -> (v: Vec<u8>)
    ensures
        v@ == encode_utf8(s@),
{
    vstd::slice::slice_to_vec(s.as_str().as_bytes())
}

fn id_bytes(b: &[u8; 32]) -> (v: Vec<u8>)
    ensures
        v@ == b@,
{
    vstd::slice::slice_to_vec(b.as_slice())
}

// -- communities -----------------------------------------------------------------

pub struct CommunityRow {
    pub id: Seq<u8>,
    pub name: Seq<char>,
    pub description: Seq<char>,
    pub founder: Seq<u8>,
    pub created_ms: u64,
}

impl View for CommunitySummary {
    type V = CommunityRow;

    open spec fn view(&self) -> CommunityRow {
        CommunityRow {
            id: self.id@,
            name: self.name@,
            description: self.description@,
            founder: self.founder@,
            created_ms: self.created_ms,
        }
    }
}

/// One row per genesis event held, in log order.
pub open spec fn community_rows(log: Seq<SignedEventModel>) -> Seq<CommunityRow>
    decreases log.len(),
{
    if log.len() == 0 {
        seq![]
    } else {
        let rows = community_rows(log.drop_last());
        let s = log.last();
        match s.event.payload {
            PayloadModel::CreateCommunity { name, description } => rows.push(
                CommunityRow {
                    id: community_in(s),
                    name,
                    description,
                    founder: s.event.author,
                    created_ms: s.event.timestamp_ms,
                },
            ),
            _ => rows,
        }
    }
}

/// Row `r` shows the community founding event `s` founded: its id, the
/// name and description the founding payload gives, its author as founder
/// and its timestamp as creation time.
pub open spec fn shows_genesis(r: CommunityRow, s: SignedEventModel) -> bool {
    &&& s.event.payload matches PayloadModel::CreateCommunity { name, description }
    &&& r.id == community_in(s)
    &&& r.name == name
    &&& r.description == description
    &&& r.founder == s.event.author
    &&& r.created_ms == s.event.timestamp_ms
}

/// The community list shows what the founding events held say: every
/// founding event the log holds has a row showing it, and every row shows
/// a founding event the log holds.
pub proof fn law_community_rows_show_their_genesis(log: Seq<SignedEventModel>)
    ensures
        forall|i: int|
            0 <= i < log.len() && (#[trigger] log[i]).event.payload is CreateCommunity ==> exists|k: int|
                0 <= k < community_rows(log).len() && shows_genesis(#[trigger] community_rows(log)[k], log[i]),
        forall|k: int|
            0 <= k < community_rows(log).len() ==> exists|i: int|
                0 <= i < log.len() && shows_genesis(#[trigger] community_rows(log)[k], #[trigger] log[i]),
    decreases log.len(),
{
    if log.len() > 0 {
        let rest = log.drop_last();
        let s = log.last();
        law_community_rows_show_their_genesis(rest);
        let rr = community_rows(rest);
        let rows = community_rows(log);
        assert forall|i: int| 0 <= i < log.len() && (#[trigger] log[i]).event.payload is CreateCommunity implies exists|k: int|
            0 <= k < rows.len() && shows_genesis(#[trigger] rows[k], log[i]) by {
            if i < rest.len() {
                assert(log[i] == rest[i]);
                assert(rest[i].event.payload is CreateCommunity);
                let k = choose|k: int| 0 <= k < rr.len() && shows_genesis(#[trigger] rr[k], rest[i]);
                assert(rows[k] == rr[k]);
            } else {
                assert(log[i] == s);
                assert(shows_genesis(rows[rr.len() as int], s));
            }
        }
        assert forall|k: int| 0 <= k < rows.len() implies exists|i: int|
            0 <= i < log.len() && shows_genesis(#[trigger] rows[k], #[trigger] log[i]) by {
            if k < rr.len() {
                assert(rows[k] == rr[k]);
                let i = choose|i: int| 0 <= i < rest.len() && shows_genesis(#[trigger] rr[k], #[trigger] rest[i]);
                assert(log[i] == rest[i]);
            } else {
                assert(shows_genesis(rows[k], log[log.len() - 1]));
            }
        }
    }
}

/// `idx` picks, in rising order, founding events of `log` that `rows` show.
pub open spec fn rows_from_geneses(rows: Seq<CommunityRow>, log: Seq<SignedEventModel>, idx: Seq<int>) -> bool {
    &&& idx.len() == rows.len()
    &&& forall|k: int| 0 <= k < idx.len() ==> 0 <= #[trigger] idx[k] < log.len() && shows_genesis(rows[k], log[idx[k]])
    &&& forall|k1: int, k2: int| 0 <= k1 < k2 < idx.len() ==> #[trigger] idx[k1] < #[trigger] idx[k2]
}

/// The community rows come one per founding event, in the order the log
/// holds them: no founding event is shown twice.
pub proof fn law_community_rows_follow_the_log(log: Seq<SignedEventModel>)
    ensures
        exists|idx: Seq<int>| rows_from_geneses(community_rows(log), log, idx),
    decreases log.len(),
{
    if log.len() == 0 {
        assert(rows_from_geneses(community_rows(log), log, Seq::<int>::empty()));
    } else {
        let rest = log.drop_last();
        let s = log.last();
        law_community_rows_follow_the_log(rest);
        let rr = community_rows(rest);
        let rows = community_rows(log);
        let ir = choose|idx: Seq<int>| rows_from_geneses(rr, rest, idx);
        assert forall|k: int| 0 <= k < ir.len() implies 0 <= #[trigger] ir[k] < log.len() && shows_genesis(rr[k], log[ir[k]]) by {
            assert(log[ir[k]] == rest[ir[k]]);
        }
        if s.event.payload is CreateCommunity {
            let io = ir.push(log.len() - 1);
            assert forall|k: int| 0 <= k < io.len() implies 0 <= #[trigger] io[k] < log.len() && shows_genesis(rows[k], log[io[k]]) by {
                if k < ir.len() {
                    assert(io[k] == ir[k] && rows[k] == rr[k]);
                } else {
                    assert(log[io[k]] == s);
                }
            }
            assert forall|k1: int, k2: int| 0 <= k1 < k2 < io.len() implies #[trigger] io[k1] < #[trigger] io[k2] by {
                if k2 < ir.len() {
                    assert(io[k1] == ir[k1] && io[k2] == ir[k2]);
                } else {
                    assert(io[k1] == ir[k1]);
                }
            }
            assert(rows_from_geneses(rows, log, io));
        } else {
            assert(rows == rr);
            assert(rows_from_geneses(rows, log, ir));
        }
    }
}

/// Communities list by creation time, then name.
pub open spec fn community_key(r: CommunityRow) -> KeyModel {
    (r.created_ms, encode_utf8(r.name), r.id)
}

pub open spec fn community_keys(rows: Seq<CommunityRow>) -> Seq<KeyModel> {
    rows.map_values(|r: CommunityRow| community_key(r))
}

pub open spec fn summaries_view(v: Seq<CommunitySummary>) -> Seq<CommunityRow> {
    v.map_values(|c: CommunitySummary| c@)
}

impl CommunitySummary {
    pub fn copy(&self) -> (c: CommunitySummary)
        ensures
            c@ == self@,
    {
        CommunitySummary {
            id: self.id,
            name: self.name.clone(),
            description: self.description.clone(),
            founder: self.founder,
            created_ms: self.created_ms,
        }
    }
}

/// Puts `rows` in the order `order` gives.
fn arrange_communities(rows: &Vec<CommunitySummary>, order: &Vec<usize>) -> (out: Vec<CommunitySummary>)
    requires
        forall|i: int| 0 <= i < order@.len() ==> (#[trigger] order@[i]) < rows@.len(),
    ensures
        out@.len() == order@.len(),
        forall|i: int| 0 <= i < order@.len() ==> (#[trigger] out@[i])@ == rows@[order@[i] as int]@,
{
    let mut out: Vec<CommunitySummary> = Vec::new();
    let mut i: usize = 0;
    while i < order.len()
        invariant
            i <= order@.len(),
            forall|k: int| 0 <= k < order@.len() ==> (#[trigger] order@[k]) < rows@.len(),
            out@.len() == i,
            forall|k: int| 0 <= k < i ==> (#[trigger] out@[k])@ == rows@[order@[k] as int]@,
        decreases order@.len() - i,
    {
        out.push(rows[order[i]].copy());
        i += 1;
    }
    out
}

impl EventLog {
    /// The community rows, in log order, and their sort keys.
    fn community_table(&self) -> (r: (Vec<CommunitySummary>, Vec<SortKey>))
        requires
            self.wf(),
        ensures
            summaries_view(r.0@) == community_rows(self.log()),
            keys_view(r.1@) == community_keys(community_rows(self.log())),
    {
        let ghost log = self.log();
        let mut rows: Vec<CommunitySummary> = Vec::new();
        let mut keys: Vec<SortKey> = Vec::new();
        let n = self.entry_count();
        let mut i: usize = 0;
        while i < n
            invariant
                self.wf(),
                log == self.log(),
                n == log.len(),
                i <= n,
                summaries_view(rows@) == community_rows(log.take(i as int)),
                keys_view(keys@) == community_keys(community_rows(log.take(i as int))),
            decreases n - i,
        {
            let entry = self.entry_at(i);
            assert(log.take(i + 1).drop_last() =~= log.take(i as int));
            assert(log.take(i + 1).last() == log[i as int]);
            match &entry.event.event.payload {
                Payload::CreateCommunity { name, description } => {
                    let row = CommunitySummary {
                        id: entry.community,
                        name: name.clone(),
                        description: description.clone(),
                        founder: entry.event.event.author,
                        created_ms: entry.event.event.timestamp_ms,
                    };
                    let key = SortKey {
                        primary: row.created_ms,
                        secondary: utf8_of(&row.name),
                        tertiary: id_bytes(row.id.as_bytes()),
                    };
                    let ghost r0 = rows@;
                    let ghost k0 = keys@;
                    rows.push(row);
                    keys.push(key);
                    assert(summaries_view(rows@) =~= summaries_view(r0).push(rows@[rows@.len() - 1]@));
                    assert(keys_view(keys@) =~= keys_view(k0).push(keys@[keys@.len() - 1]@));
                    assert(community_rows(log.take(i + 1)) == community_rows(log.take(i as int)).push(rows@[rows@.len() - 1]@));
                    assert(community_keys(community_rows(log.take(i + 1))) =~= community_keys(community_rows(log.take(i as int))).push(keys@[keys@.len() - 1]@));
                },
                _ => {
                    assert(community_rows(log.take(i + 1)) == community_rows(log.take(i as int)));
                },
            }
            i += 1;
        }
        assert(log.take(n as int) =~= log);
        (rows, keys)
    }

    /// Every community held, by creation time and then name.
    pub fn communities(&self) -> (r: Vec<CommunitySummary>)
        requires
            self.wf(),
        ensures
            sorted_rows(community_rows(self.log()), community_keys(community_rows(self.log())), summaries_view(r@)),
    {
        let (rows, keys) = self.community_table();
        let order = stable_order(&keys);
        let ghost o = order_view(order@);
        proof {
            assert(keys@.len() == rows@.len()) by {
                assert(keys_view(keys@).len() == keys@.len());
                assert(summaries_view(rows@).len() == rows@.len());
            }
            assert forall|i: int| 0 <= i < order@.len() implies (#[trigger] order@[i]) < rows@.len() by {
                assert(o[i] == order@[i] as int);
            }
        }
        let out = arrange_communities(&rows, &order);
        proof {
            let rs = community_rows(self.log());
            assert(summaries_view(out@).len() == o.len());
            assert forall|i: int| 0 <= i < o.len() implies summaries_view(out@)[i] == rs[#[trigger] o[i]] by {
                assert(o[i] == order@[i] as int);
                assert(out@[i]@ == rows@[order@[i] as int]@);
                assert(summaries_view(rows@)[o[i]] == rows@[o[i]]@);
            }
        }
        out
    }

    /// The community founded by the genesis event `id`, if held.
    pub fn community(&self, id: &CommunityId) -> (r: Option<CommunitySummary>)
        requires
            self.wf(),
        ensures
            match r {
                None => forall|i: int| 0 <= i < community_rows(self.log()).len() ==> (#[trigger] community_rows(self.log())[i]).id != id@,
                Some(c) => exists|i: int| 0 <= i < community_rows(self.log()).len() && #[trigger] community_rows(self.log())[i] == c@
                    && c@.id == id@ && forall|j: int| 0 <= j < i ==> (#[trigger] community_rows(self.log())[j]).id != id@,
            },
    {
        let (rows, _keys) = self.community_table();
        let ghost rs = community_rows(self.log());
        let mut i: usize = 0;
        while i < rows.len()
            invariant
                i <= rows@.len(),
                rs == community_rows(self.log()),
                summaries_view(rows@) == rs,
                rs.len() == rows@.len(),
                forall|j: int| 0 <= j < i ==> (#[trigger] rs[j]).id != id@,
            decreases rows@.len() - i,
        {
            assert(rs[i as int] == rows@[i as int]@);
            if rows[i].id == *id {
                let c = rows[i].copy();
                assert(community_rows(self.log())[i as int] == c@);
                return Some(c);
            }
            i += 1;
        }
        None
    }
}

// -- channels ---------------------------------------------------------------------

/// A channel as the view keeps it: what the summary shows, plus the causal
/// position of the event that created it, so concurrent creations resolve
/// the same way everywhere.
pub struct ChannelRow {
    pub id: Seq<u8>,
    pub name: Seq<char>,
    pub topic: Seq<char>,
    pub creator: Seq<u8>,
    pub created_ms: u64,
    pub lamport: u64,
    pub event: Seq<u8>,
}

/// The first row for channel `id`.
pub open spec fn channel_at(rows: Seq<ChannelRow>, id: Seq<u8>) -> int {
    choose|i: int| 0 <= i < rows.len() && (#[trigger] rows[i]).id == id && forall|j: int| 0 <= j < i ==> (#[trigger] rows[j]).id != id
}

pub open spec fn has_channel(rows: Seq<ChannelRow>, id: Seq<u8>) -> bool {
    exists|i: int| 0 <= i < rows.len() && (#[trigger] rows[i]).id == id
}

/// The channels of community `c`, one row per channel in order of first
/// creation. A later-arriving creation replaces the row only when it is
/// causally earlier.
pub open spec fn channel_rows(log: Seq<SignedEventModel>, c: Seq<u8>) -> Seq<ChannelRow>
    decreases log.len(),
{
    if log.len() == 0 {
        seq![]
    } else {
        let rows = channel_rows(log.drop_last(), c);
        let s = log.last();
        if community_in(s) != c {
            rows
        } else {
            match s.event.payload {
                PayloadModel::CreateChannel { channel, name, topic } => {
                    let row = ChannelRow {
                        id: channel,
                        name,
                        topic,
                        creator: s.event.author,
                        created_ms: s.event.timestamp_ms,
                        lamport: s.event.lamport,
                        event: id_of(s),
                    };
                    if !has_channel(rows, channel) {
                        rows.push(row)
                    } else {
                        let p = channel_at(rows, channel);
                        if causally_before(row.lamport, row.event, rows[p].lamport, rows[p].event) {
                            rows.update(p, row)
                        } else {
                            rows
                        }
                    }
                },
                _ => rows,
            }
        }
    }
}

pub struct ChannelSummaryRow {
    pub id: Seq<u8>,
    pub name: Seq<char>,
    pub topic: Seq<char>,
    pub creator: Seq<u8>,
    pub created_ms: u64,
}

impl View for ChannelSummary {
    type V = ChannelSummaryRow;

    open spec fn view(&self) -> ChannelSummaryRow {
        ChannelSummaryRow {
            id: self.id@,
            name: self.name@,
            topic: self.topic@,
            creator: self.creator@,
            created_ms: self.created_ms,
        }
    }
}

pub open spec fn channel_summary(r: ChannelRow) -> ChannelSummaryRow {
    ChannelSummaryRow { id: r.id, name: r.name, topic: r.topic, creator: r.creator, created_ms: r.created_ms }
}

/// Channels list by creation time, then name.
pub open spec fn channel_keys(rows: Seq<ChannelRow>) -> Seq<KeyModel> {
    rows.map_values(|r: ChannelRow| (r.created_ms, encode_utf8(r.name), r.id))
}

/// A channel row as it is held.
pub struct ChannelRecord {
    pub id: ChannelId,
    pub name: String,
    pub topic: String,
    pub creator: UserId,
    pub created_ms: u64,
    pub lamport: u64,
    pub event: EventId,
}

impl View for ChannelRecord {
    type V = ChannelRow;

    open spec fn view(&self) -> ChannelRow {
        ChannelRow {
            id: self.id@,
            name: self.name@,
            topic: self.topic@,
            creator: self.creator@,
            created_ms: self.created_ms,
            lamport: self.lamport,
            event: self.event@,
        }
    }
}

pub open spec fn channel_records_view(v: Seq<ChannelRecord>) -> Seq<ChannelRow> {
    v.map_values(|r: ChannelRecord| r@)
}

pub open spec fn channel_summaries_view(v: Seq<ChannelSummary>) -> Seq<ChannelSummaryRow> {
    v.map_values(|r: ChannelSummary| r@)
}

impl ChannelSummary {
    pub fn copy(&self) -> (c: ChannelSummary)
        ensures
            c@ == self@,
    {
        ChannelSummary {
            id: self.id,
            name: self.name.clone(),
            topic: self.topic.clone(),
            creator: self.creator,
            created_ms: self.created_ms,
        }
    }
}

/// Where channel `id` is among the rows, if anywhere.
fn find_channel(rows: &Vec<ChannelRecord>, id: &ChannelId) -> (r: Option<usize>)
    ensures
        r is Some <==> has_channel(channel_records_view(rows@), id@),
        r matches Some(p) ==> p == channel_at(channel_records_view(rows@), id@) && p < rows@.len(),
{
    let ghost v = channel_records_view(rows@);
    let mut i: usize = 0;
    while i < rows.len()
        invariant
            i <= rows@.len(),
            v == channel_records_view(rows@),
            v.len() == rows@.len(),
            forall|j: int| 0 <= j < i ==> (#[trigger] v[j]).id != id@,
        decreases rows@.len() - i,
    {
        assert(v[i as int] == rows@[i as int]@);
        if rows[i].id == *id {
            assert(v[i as int].id == id@);
            let ghost p = channel_at(v, id@);
            assert(0 <= p < v.len() && v[p].id == id@ && forall|j: int| 0 <= j < p ==> (#[trigger] v[j]).id != id@);
            proof {
                if p < i {
                } else if p > i {
                    assert(v[i as int].id != id@);
                }
            }
            return Some(i);
        }
        i += 1;
    }
    None
}

impl EventLog {
    /// The channel rows of `community`, folded over the log.
    fn channel_table(&self, community: &CommunityId) -> (r: Vec<ChannelRecord>)
        requires
            self.wf(),
        ensures
            channel_records_view(r@) == channel_rows(self.log(), community@),
    {
        let ghost log = self.log();
        let mut rows: Vec<ChannelRecord> = Vec::new();
        let n = self.entry_count();
        let mut i: usize = 0;
        while i < n
            invariant
                self.wf(),
                log == self.log(),
                n == log.len(),
                i <= n,
                channel_records_view(rows@) == channel_rows(log.take(i as int), community@),
            decreases n - i,
        {
            let entry = self.entry_at(i);
            assert(log.take(i + 1).drop_last() =~= log.take(i as int));
            assert(log.take(i + 1).last() == log[i as int]);
            let ghost v0 = channel_records_view(rows@);
            if entry.community == *community {
                match &entry.event.event.payload {
                    Payload::CreateChannel { channel, name, topic } => {
                        let row = ChannelRecord {
                            id: *channel,
                            name: name.clone(),
                            topic: topic.clone(),
                            creator: entry.event.event.author,
                            created_ms: entry.event.event.timestamp_ms,
                            lamport: entry.event.event.lamport,
                            event: entry.id,
                        };
                        match find_channel(&rows, channel) {
                            None => {
                                rows.push(row);
                                assert(channel_records_view(rows@) =~= v0.push(row@));
                            },
                            Some(p) => {
                                assert(v0[p as int] == rows@[p as int]@);
                                if causally_before_exec(row.lamport, &row.event, rows[p].lamport, &rows[p].event) {
                                    let ghost rv = row@;
                                    rows.set(p, row);
                                    assert(channel_records_view(rows@) =~= v0.update(p as int, rv));
                                }
                            },
                        }
                    },
                    _ => {},
                }
            }
            i += 1;
        }
        assert(log.take(n as int) =~= log);
        rows
    }

    /// Every channel of `community`, by creation time and then name.
    pub fn channels(&self, community: &CommunityId) -> (r: Vec<ChannelSummary>)
        requires
            self.wf(),
        ensures
            sorted_rows(
                channel_rows(self.log(), community@).map_values(|c: ChannelRow| channel_summary(c)),
                channel_keys(channel_rows(self.log(), community@)),
                channel_summaries_view(r@),
            ),
    {
        let rows = self.channel_table(community);
        let ghost rs = channel_rows(self.log(), community@);
        let mut keys: Vec<SortKey> = Vec::new();
        let mut i: usize = 0;
        while i < rows.len()
            invariant
                i <= rows@.len(),
                rs == channel_records_view(rows@),
                rs.len() == rows@.len(),
                keys_view(keys@) == channel_keys(rs.take(i as int)),
            decreases rows@.len() - i,
        {
            let ghost k0 = keys@;
            keys.push(SortKey {
                primary: rows[i].created_ms,
                secondary: utf8_of(&rows[i].name),
                tertiary: id_bytes(rows[i].id.as_bytes()),
            });
            assert(rs[i as int] == rows@[i as int]@);
            assert(keys_view(keys@) =~= keys_view(k0).push(keys@[i as int]@));
            assert(channel_keys(rs.take(i + 1)) =~= channel_keys(rs.take(i as int)).push(keys@[i as int]@));
            i += 1;
        }
        assert(rs.take(rows@.len() as int) =~= rs);
        let order = stable_order(&keys);
        let ghost o = order_view(order@);
        let mut out: Vec<ChannelSummary> = Vec::new();
        let mut k: usize = 0;
        while k < order.len()
            invariant
                k <= order@.len(),
                o == order_view(order@),
                is_stable_sort(keys_view(keys@), o),
                keys_view(keys@).len() == rows@.len(),
                rs == channel_records_view(rows@),
                rs.len() == rows@.len(),
                out@.len() == k,
                forall|j: int| 0 <= j < k ==> (#[trigger] out@[j])@ == channel_summary(rs[o[j]]),
            decreases order@.len() - k,
        {
            assert(o[k as int] == order@[k as int] as int);
            let r = &rows[order[k]];
            assert(rs[o[k as int]] == r@);
            out.push(ChannelSummary {
                id: r.id,
                name: r.name.clone(),
                topic: r.topic.clone(),
                creator: r.creator,
                created_ms: r.created_ms,
            });
            k += 1;
        }
        proof {
            let summaries = rs.map_values(|c: ChannelRow| channel_summary(c));
            assert forall|j: int| 0 <= j < o.len() implies channel_summaries_view(out@)[j] == summaries[#[trigger] o[j]] by {
                assert(out@[j]@ == channel_summary(rs[o[j]]));
            }
        }
        out
    }
}

// -- members ----------------------------------------------------------------------

/// A member as the view keeps it: what the summary shows, plus the causal
/// position of the event that last set the display name. Display names are
/// last-writer-wins over that position, so renames converge.
pub struct MemberRow {
    pub id: Seq<u8>,
    pub display_name: Seq<char>,
    pub joined_ms: u64,
    pub name_lamport: u64,
    pub name_event: Seq<u8>,
}

pub open spec fn member_at(rows: Seq<MemberRow>, id: Seq<u8>) -> int {
    choose|i: int| 0 <= i < rows.len() && (#[trigger] rows[i]).id == id && forall|j: int| 0 <= j < i ==> (#[trigger] rows[j]).id != id
}

pub open spec fn has_member(rows: Seq<MemberRow>, id: Seq<u8>) -> bool {
    exists|i: int| 0 <= i < rows.len() && (#[trigger] rows[i]).id == id
}

/// The members of community `c`, one row per member in order of first
/// appearance. A join counts only for someone not yet a member; a rename
/// applies when it is causally later than the name it replaces.
pub open spec fn member_rows(log: Seq<SignedEventModel>, c: Seq<u8>) -> Seq<MemberRow>
    decreases log.len(),
{
    if log.len() == 0 {
        seq![]
    } else {
        let rows = member_rows(log.drop_last(), c);
        let s = log.last();
        let a = s.event.author;
        if community_in(s) != c {
            rows
        } else {
            match s.event.payload {
                PayloadModel::Join { display_name } => if !has_member(rows, a) {
                    rows.push(
                        MemberRow {
                            id: a,
                            display_name,
                            joined_ms: s.event.timestamp_ms,
                            name_lamport: s.event.lamport,
                            name_event: id_of(s),
                        },
                    )
                } else {
                    rows
                },
                PayloadModel::SetDisplayName { display_name } => if !has_member(rows, a) {
                    rows.push(
                        MemberRow {
                            id: a,
                            display_name,
                            joined_ms: s.event.timestamp_ms,
                            name_lamport: s.event.lamport,
                            name_event: id_of(s),
                        },
                    )
                } else {
                    let p = member_at(rows, a);
                    if causally_before(rows[p].name_lamport, rows[p].name_event, s.event.lamport, id_of(s)) {
                        rows.update(
                            p,
                            MemberRow {
                                id: a,
                                display_name,
                                joined_ms: rows[p].joined_ms,
                                name_lamport: s.event.lamport,
                                name_event: id_of(s),
                            },
                        )
                    } else {
                        rows
                    }
                },
                _ => rows,
            }
        }
    }
}

pub struct MemberSummaryRow {
    pub id: Seq<u8>,
    pub display_name: Seq<char>,
    pub joined_ms: u64,
}

impl View for MemberSummary {
    type V = MemberSummaryRow;

    open spec fn view(&self) -> MemberSummaryRow {
        MemberSummaryRow { id: self.id@, display_name: self.display_name@, joined_ms: self.joined_ms }
    }
}

pub open spec fn member_summary(r: MemberRow) -> MemberSummaryRow {
    MemberSummaryRow { id: r.id, display_name: r.display_name, joined_ms: r.joined_ms }
}

/// Members list by when they joined, then by id.
pub open spec fn member_keys(rows: Seq<MemberRow>) -> Seq<KeyModel> {
    rows.map_values(|r: MemberRow| (r.joined_ms, r.id, Seq::<u8>::empty()))
}

/// A member row as it is held.
pub struct MemberRecord {
    pub id: UserId,
    pub display_name: String,
    pub joined_ms: u64,
    pub name_lamport: u64,
    pub name_event: EventId,
}

impl View for MemberRecord {
    type V = MemberRow;

    open spec fn view(&self) -> MemberRow {
        MemberRow {
            id: self.id@,
            display_name: self.display_name@,
            joined_ms: self.joined_ms,
            name_lamport: self.name_lamport,
            name_event: self.name_event@,
        }
    }
}

pub open spec fn member_records_view(v: Seq<MemberRecord>) -> Seq<MemberRow> {
    v.map_values(|r: MemberRecord| r@)
}

pub open spec fn member_summaries_view(v: Seq<MemberSummary>) -> Seq<MemberSummaryRow> {
    v.map_values(|r: MemberSummary| r@)
}

fn find_member(rows: &Vec<MemberRecord>, id: &UserId) -> (r: Option<usize>)
    ensures
        r is Some <==> has_member(member_records_view(rows@), id@),
        r matches Some(p) ==> p == member_at(member_records_view(rows@), id@) && p < rows@.len(),
{
    let ghost v = member_records_view(rows@);
    let mut i: usize = 0;
    while i < rows.len()
        invariant
            i <= rows@.len(),
            v == member_records_view(rows@),
            v.len() == rows@.len(),
            forall|j: int| 0 <= j < i ==> (#[trigger] v[j]).id != id@,
        decreases rows@.len() - i,
    {
        assert(v[i as int] == rows@[i as int]@);
        if rows[i].id == *id {
            assert(v[i as int].id == id@);
            let ghost p = member_at(v, id@);
            assert(0 <= p < v.len() && v[p].id == id@ && forall|j: int| 0 <= j < p ==> (#[trigger] v[j]).id != id@);
            proof {
                if p < i {
                } else if p > i {
                    assert(v[i as int].id != id@);
                }
            }
            return Some(i);
        }
        i += 1;
    }
    None
}

impl EventLog {
    /// The member rows of `community`, folded over the log.
    fn member_table(&self, community: &CommunityId) -> (r: Vec<MemberRecord>)
        requires
            self.wf(),
        ensures
            member_records_view(r@) == member_rows(self.log(), community@),
    {
        let ghost log = self.log();
        let mut rows: Vec<MemberRecord> = Vec::new();
        let n = self.entry_count();
        let mut i: usize = 0;
        while i < n
            invariant
                self.wf(),
                log == self.log(),
                n == log.len(),
                i <= n,
                member_records_view(rows@) == member_rows(log.take(i as int), community@),
            decreases n - i,
        {
            let entry = self.entry_at(i);
            assert(log.take(i + 1).drop_last() =~= log.take(i as int));
            assert(log.take(i + 1).last() == log[i as int]);
            let ghost v0 = member_records_view(rows@);
            let author = entry.event.event.author;
            if entry.community == *community {
                match &entry.event.event.payload {
                    Payload::Join { display_name } => {
                        if find_member(&rows, &author).is_none() {
                            let row = MemberRecord {
                                id: author,
                                display_name: display_name.clone(),
                                joined_ms: entry.event.event.timestamp_ms,
                                name_lamport: entry.event.event.lamport,
                                name_event: entry.id,
                            };
                            rows.push(row);
                            assert(member_records_view(rows@) =~= v0.push(row@));
                        }
                    },
                    Payload::SetDisplayName { display_name } => {
                        match find_member(&rows, &author) {
                            None => {
                                let row = MemberRecord {
                                    id: author,
                                    display_name: display_name.clone(),
                                    joined_ms: entry.event.event.timestamp_ms,
                                    name_lamport: entry.event.event.lamport,
                                    name_event: entry.id,
                                };
                                rows.push(row);
                                assert(member_records_view(rows@) =~= v0.push(row@));
                            },
                            Some(p) => {
                                assert(v0[p as int] == rows@[p as int]@);
                                if causally_before_exec(rows[p].name_lamport, &rows[p].name_event, entry.event.event.lamport, &entry.id) {
                                    let row = MemberRecord {
                                        id: author,
                                        display_name: display_name.clone(),
                                        joined_ms: rows[p].joined_ms,
                                        name_lamport: entry.event.event.lamport,
                                        name_event: entry.id,
                                    };
                                    let ghost rv = row@;
                                    rows.set(p, row);
                                    assert(member_records_view(rows@) =~= v0.update(p as int, rv));
                                }
                            },
                        }
                    },
                    _ => {},
                }
            }
            i += 1;
        }
        assert(log.take(n as int) =~= log);
        rows
    }

    /// Every member of `community`, by when they joined and then by id.
    pub fn members(&self, community: &CommunityId) -> (r: Vec<MemberSummary>)
        requires
            self.wf(),
        ensures
            sorted_rows(
                member_rows(self.log(), community@).map_values(|m: MemberRow| member_summary(m)),
                member_keys(member_rows(self.log(), community@)),
                member_summaries_view(r@),
            ),
    {
        let rows = self.member_table(community);
        let ghost rs = member_rows(self.log(), community@);
        let mut keys: Vec<SortKey> = Vec::new();
        let mut i: usize = 0;
        while i < rows.len()
            invariant
                i <= rows@.len(),
                rs == member_records_view(rows@),
                rs.len() == rows@.len(),
                keys_view(keys@) == member_keys(rs.take(i as int)),
            decreases rows@.len() - i,
        {
            let ghost k0 = keys@;
            keys.push(SortKey { primary: rows[i].joined_ms, secondary: id_bytes(rows[i].id.as_bytes()), tertiary: Vec::new() });
            assert(rs[i as int] == rows@[i as int]@);
            assert(keys_view(keys@) =~= keys_view(k0).push(keys@[i as int]@));
            assert(member_keys(rs.take(i + 1)) =~= member_keys(rs.take(i as int)).push(keys@[i as int]@));
            i += 1;
        }
        assert(rs.take(rows@.len() as int) =~= rs);
        let order = stable_order(&keys);
        let ghost o = order_view(order@);
        let mut out: Vec<MemberSummary> = Vec::new();
        let mut k: usize = 0;
        while k < order.len()
            invariant
                k <= order@.len(),
                o == order_view(order@),
                is_stable_sort(keys_view(keys@), o),
                keys_view(keys@).len() == rows@.len(),
                rs == member_records_view(rows@),
                rs.len() == rows@.len(),
                out@.len() == k,
                forall|j: int| 0 <= j < k ==> (#[trigger] out@[j])@ == member_summary(rs[o[j]]),
            decreases order@.len() - k,
        {
            assert(o[k as int] == order@[k as int] as int);
            let r = &rows[order[k]];
            assert(rs[o[k as int]] == r@);
            out.push(MemberSummary { id: r.id, display_name: r.display_name.clone(), joined_ms: r.joined_ms });
            k += 1;
        }
        proof {
            let summaries = rs.map_values(|m: MemberRow| member_summary(m));
            assert forall|j: int| 0 <= j < o.len() implies member_summaries_view(out@)[j] == summaries[#[trigger] o[j]] by {
                assert(out@[j]@ == member_summary(rs[o[j]]));
            }
        }
        out
    }

    /// One member, for resolving the display name on an incoming message
    /// without listing the whole roster.
    pub fn member(&self, community: &CommunityId, user: &UserId) -> (r: Option<MemberSummary>)
        requires
            self.wf(),
        ensures
            r is Some <==> has_member(member_rows(self.log(), community@), user@),
            r matches Some(m) ==> m@ == member_summary(
                member_rows(self.log(), community@)[member_at(member_rows(self.log(), community@), user@)],
            ),
    {
        let rows = self.member_table(community);
        match find_member(&rows, user) {
            Some(p) => {
                let r = &rows[p];
                Some(MemberSummary { id: r.id, display_name: r.display_name.clone(), joined_ms: r.joined_ms })
            },
            None => None,
        }
    }
}

/// No two rows are for the same channel.
pub open spec fn channel_ids_unique(rows: Seq<ChannelRow>) -> bool {
    forall|i: int, j: int| 0 <= i < j < rows.len() ==> (#[trigger] rows[i]).id != (#[trigger] rows[j]).id
}

/// A creation of channel `ch` in community `c`.
pub open spec fn creates_channel(e: SignedEventModel, c: Seq<u8>, ch: Seq<u8>) -> bool {
    community_in(e) == c && (e.event.payload matches PayloadModel::CreateChannel { channel, .. } && channel == ch)
}

proof fn lemma_causally_before_order(l1: u64, e1: Seq<u8>, l2: u64, e2: Seq<u8>, l3: u64, e3: Seq<u8>)
    ensures
        !causally_before(l1, e1, l1, e1),
        causally_before(l1, e1, l2, e2) && causally_before(l2, e2, l3, e3) ==> causally_before(l1, e1, l3, e3),
{
    crate::proto::ids::lemma_bytes_less_irreflexive(e1);
    if causally_before(l1, e1, l2, e2) && causally_before(l2, e2, l3, e3) && l1 == l2 && l2 == l3 {
        crate::proto::ids::lemma_bytes_less_transitive(e1, e2, e3);
    }
}

/// With one row per channel, the row `channel_at` finds is the one row for
/// that channel.
proof fn lemma_channel_at(rows: Seq<ChannelRow>, id: Seq<u8>)
    requires
        channel_ids_unique(rows),
        has_channel(rows, id),
    ensures
        0 <= channel_at(rows, id) < rows.len(),
        rows[channel_at(rows, id)].id == id,
        forall|k: int| 0 <= k < rows.len() && (#[trigger] rows[k]).id == id ==> k == channel_at(rows, id),
{
    let w = choose|i: int| 0 <= i < rows.len() && (#[trigger] rows[i]).id == id;
    assert(forall|j: int| 0 <= j < w ==> (#[trigger] rows[j]).id != id);
    let p = channel_at(rows, id);
    assert(0 <= p < rows.len() && rows[p].id == id);
    assert forall|k: int| 0 <= k < rows.len() && (#[trigger] rows[k]).id == id implies k == p by {
        if k < p {
            assert(rows[k].id != rows[p].id);
        } else if p < k {
            assert(rows[p].id != rows[k].id);
        }
    }
}

/// The channel list keeps one row per channel, and every creation of a
/// channel the log holds has its row, which is causally no later than it.
proof fn lemma_channel_rows(log: Seq<SignedEventModel>, c: Seq<u8>)
    ensures
        channel_ids_unique(channel_rows(log, c)),
        forall|i: int, ch: Seq<u8>|
            0 <= i < log.len() && #[trigger] creates_channel(log[i], c, ch) ==> has_channel(channel_rows(log, c), ch)
                && !causally_before(
                log[i].event.lamport,
                id_of(log[i]),
                channel_rows(log, c)[channel_at(channel_rows(log, c), ch)].lamport,
                channel_rows(log, c)[channel_at(channel_rows(log, c), ch)].event,
            ),
    decreases log.len(),
{
    if log.len() > 0 {
        let rest = log.drop_last();
        let s = log.last();
        lemma_channel_rows(rest, c);
        let rows = channel_rows(rest, c);
        let new = channel_rows(log, c);
        if community_in(s) == c && s.event.payload is CreateChannel {
            let ch2 = s.event.payload->CreateChannel_channel;
            let r = ChannelRow {
                id: ch2,
                name: s.event.payload->CreateChannel_name,
                topic: s.event.payload->CreateChannel_topic,
                creator: s.event.author,
                created_ms: s.event.timestamp_ms,
                lamport: s.event.lamport,
                event: id_of(s),
            };
            lemma_causally_before_order(s.event.lamport, id_of(s), 0, seq![], 0, seq![]);
            if !has_channel(rows, ch2) {
                assert(new == rows.push(r));
                assert forall|i: int, j: int| 0 <= i < j < new.len() implies (#[trigger] new[i]).id != (#[trigger] new[j]).id by {
                    if j == rows.len() {
                        assert(new[i] == rows[i]);
                        if rows[i].id == ch2 {
                            assert(has_channel(rows, ch2));
                        }
                    } else {
                        assert(new[i] == rows[i] && new[j] == rows[j]);
                    }
                }
                assert(new[rows.len() as int].id == ch2);
                assert(has_channel(new, ch2));
                lemma_channel_at(new, ch2);
                assert forall|i: int, ch: Seq<u8>|
                    0 <= i < log.len() && #[trigger] creates_channel(log[i], c, ch) implies has_channel(new, ch)
                        && !causally_before(
                        log[i].event.lamport,
                        id_of(log[i]),
                        new[channel_at(new, ch)].lamport,
                        new[channel_at(new, ch)].event,
                    ) by {
                    if i < log.len() - 1 {
                        assert(log[i] == rest[i]);
                        assert(has_channel(rows, ch));
                        lemma_channel_at(rows, ch);
                        let q = channel_at(rows, ch);
                        assert(new[q] == rows[q]);
                        assert(has_channel(new, ch));
                        lemma_channel_at(new, ch);
                        assert(channel_at(new, ch) == q);
                    } else {
                        assert(log[i] == s);
                        assert(ch == ch2);
                        assert(channel_at(new, ch) == rows.len());
                    }
                }
            } else {
                lemma_channel_at(rows, ch2);
                let p = channel_at(rows, ch2);
                if causally_before(r.lamport, r.event, rows[p].lamport, rows[p].event) {
                    assert(new == rows.update(p, r));
                } else {
                    assert(new == rows);
                }
                assert forall|i: int, j: int| 0 <= i < j < new.len() implies (#[trigger] new[i]).id != (#[trigger] new[j]).id by {
                    assert(new[i].id == rows[i].id && new[j].id == rows[j].id);
                }
                assert forall|k: int| 0 <= k < new.len() implies (#[trigger] new[k]).id == rows[k].id by {}
                assert forall|i: int, ch: Seq<u8>|
                    0 <= i < log.len() && #[trigger] creates_channel(log[i], c, ch) implies has_channel(new, ch)
                        && !causally_before(
                        log[i].event.lamport,
                        id_of(log[i]),
                        new[channel_at(new, ch)].lamport,
                        new[channel_at(new, ch)].event,
                    ) by {
                    let e = log[i];
                    if i < log.len() - 1 {
                        assert(e == rest[i]);
                        assert(has_channel(rows, ch));
                        lemma_channel_at(rows, ch);
                    } else {
                        assert(e == s);
                        assert(ch == ch2);
                    }
                    let q = channel_at(rows, ch);
                    lemma_channel_at(rows, ch);
                    assert(new[q].id == ch);
                    assert(has_channel(new, ch));
                    lemma_channel_at(new, ch);
                    assert(channel_at(new, ch) == q);
                    if ch == ch2 && new != rows {
                        assert(q == p);
                        assert(new[q] == r);
                        if i < log.len() - 1 {
                            lemma_causally_before_order(
                                e.event.lamport,
                                id_of(e),
                                r.lamport,
                                r.event,
                                rows[p].lamport,
                                rows[p].event,
                            );
                        }
                    } else {
                        assert(new[q] == rows[q]);
                    }
                }
            }
        } else {
            assert(new == rows);
            assert forall|i: int, ch: Seq<u8>|
                0 <= i < log.len() && #[trigger] creates_channel(log[i], c, ch) implies has_channel(new, ch)
                    && !causally_before(
                    log[i].event.lamport,
                    id_of(log[i]),
                    new[channel_at(new, ch)].lamport,
                    new[channel_at(new, ch)].event,
                ) by {
                if i == log.len() - 1 {
                    assert(log[i] == s);
                } else {
                    assert(log[i] == rest[i]);
                }
            }
        }
    }
}

/// A channel created concurrently on two nodes keeps the causally earliest
/// creation: whichever order the creations arrived in, no creation of a
/// channel that the log holds comes causally before the one its row shows.
pub proof fn law_channel_keeps_the_causally_earliest(log: Seq<SignedEventModel>, c: Seq<u8>, ch: Seq<u8>, i: int)
    requires
        0 <= i < log.len(),
        creates_channel(log[i], c, ch),
    ensures
        has_channel(channel_rows(log, c), ch),
        !causally_before(
            log[i].event.lamport,
            id_of(log[i]),
            channel_rows(log, c)[channel_at(channel_rows(log, c), ch)].lamport,
            channel_rows(log, c)[channel_at(channel_rows(log, c), ch)].event,
        ),
{
    lemma_channel_rows(log, c);
}

/// Row `r` is the one creation `e` writes.
pub open spec fn shows_creation(r: ChannelRow, e: SignedEventModel) -> bool {
    r == creation_row(e)
}

/// Row `r` shows a creation of its channel that `log` holds.
pub open spec fn row_from_log(log: Seq<SignedEventModel>, c: Seq<u8>, r: ChannelRow) -> bool {
    exists|i: int| 0 <= i < log.len() && creates_channel(log[i], c, r.id) && #[trigger] shows_creation(r, log[i])
}

/// The row a creation of a channel writes.
pub open spec fn creation_row(s: SignedEventModel) -> ChannelRow {
    ChannelRow {
        id: s.event.payload->CreateChannel_channel,
        name: s.event.payload->CreateChannel_name,
        topic: s.event.payload->CreateChannel_topic,
        creator: s.event.author,
        created_ms: s.event.timestamp_ms,
        lamport: s.event.lamport,
        event: id_of(s),
    }
}

/// One more event keeps each row or writes the row of that event, which
/// then creates the row's channel.
proof fn lemma_channel_rows_step(log: Seq<SignedEventModel>, c: Seq<u8>)
    requires
        log.len() > 0,
    ensures
        forall|k: int|
            0 <= k < channel_rows(log, c).len() ==> (k < channel_rows(log.drop_last(), c).len()
                && #[trigger] channel_rows(log, c)[k] == channel_rows(log.drop_last(), c)[k]) || (creates_channel(
                log.last(),
                c,
                channel_rows(log, c)[k].id,
            ) && channel_rows(log, c)[k] == creation_row(log.last())),
{
    let rows = channel_rows(log.drop_last(), c);
    let new = channel_rows(log, c);
    let s = log.last();
    if community_in(s) == c && s.event.payload is CreateChannel {
        let r = creation_row(s);
        let ch2 = r.id;
        assert(creates_channel(s, c, ch2));
        if !has_channel(rows, ch2) {
            assert(new == rows.push(r));
            assert forall|k: int| 0 <= k < new.len() && !(k < rows.len() && #[trigger] new[k] == rows[k]) implies new[k] == r by {}
        } else {
            lemma_channel_rows(log.drop_last(), c);
            lemma_channel_at(rows, ch2);
            let p = channel_at(rows, ch2);
            if causally_before(r.lamport, r.event, rows[p].lamport, rows[p].event) {
                assert(new == rows.update(p, r));
                assert forall|k: int| 0 <= k < new.len() && !(k < rows.len() && #[trigger] new[k] == rows[k]) implies new[k] == r by {}
            } else {
                assert(new == rows);
            }
        }
    } else {
        assert(new == rows);
    }
}

/// Every row of the channel list shows a creation of its channel that the
/// log holds.
proof fn lemma_channel_rows_come_from_the_log(log: Seq<SignedEventModel>, c: Seq<u8>)
    ensures
        forall|k: int| 0 <= k < channel_rows(log, c).len() ==> #[trigger] row_from_log(log, c, channel_rows(log, c)[k]),
    decreases log.len(),
{
    if log.len() > 0 {
        let rest = log.drop_last();
        let s = log.last();
        lemma_channel_rows_come_from_the_log(rest, c);
        lemma_channel_rows_step(log, c);
        let rows = channel_rows(rest, c);
        let new = channel_rows(log, c);
        let j = log.len() - 1;
        assert(log[j] == s);
        assert forall|k: int| 0 <= k < new.len() implies #[trigger] row_from_log(log, c, new[k]) by {
            if k < rows.len() && new[k] == rows[k] {
                assert(row_from_log(rest, c, rows[k]));
                let i = choose|i: int|
                    0 <= i < rest.len() && creates_channel(rest[i], c, rows[k].id) && #[trigger] shows_creation(
                        rows[k],
                        rest[i],
                    );
                assert(log[i] == rest[i]);
                assert(shows_creation(new[k], log[i]));
            } else {
                assert(shows_creation(new[k], log[j]));
            }
        }
    }
}

/// The channel list shows, for each channel, its causally earliest
/// creation among those the log holds: a creation the log holds, before
/// every other creation of it. Every node holding the same events shows the
/// same creation, whatever order they arrived in.
pub proof fn law_channel_row_is_the_earliest_creation(log: Seq<SignedEventModel>, c: Seq<u8>, ch: Seq<u8>)
    requires
        has_channel(channel_rows(log, c), ch),
    ensures
        ({
            let r = channel_rows(log, c)[channel_at(channel_rows(log, c), ch)];
            &&& r.id == ch
            &&& row_from_log(log, c, r)
            &&& forall|i: int|
                0 <= i < log.len() && #[trigger] creates_channel(log[i], c, ch) ==> !causally_before(
                    log[i].event.lamport,
                    id_of(log[i]),
                    r.lamport,
                    r.event,
                )
        }),
{
    lemma_channel_rows(log, c);
    lemma_channel_rows_come_from_the_log(log, c);
    lemma_channel_at(channel_rows(log, c), ch);
    let k = channel_at(channel_rows(log, c), ch);
    assert(channel_rows(log, c)[k].id == ch);
    assert(row_from_log(log, c, channel_rows(log, c)[k]));
}

/// No two rows are for the same member.
pub open spec fn member_ids_unique(rows: Seq<MemberRow>) -> bool {
    forall|i: int, j: int| 0 <= i < j < rows.len() ==> (#[trigger] rows[i]).id != (#[trigger] rows[j]).id
}

/// A rename by `a` in community `c`.
pub open spec fn renames(e: SignedEventModel, c: Seq<u8>, a: Seq<u8>) -> bool {
    community_in(e) == c && e.event.author == a && e.event.payload is SetDisplayName
}

/// An event by `a` in community `c` that names its author: a join or a rename.
pub open spec fn sets_name(e: SignedEventModel, c: Seq<u8>, a: Seq<u8>) -> bool {
    community_in(e) == c && e.event.author == a && (e.event.payload is SetDisplayName || e.event.payload is Join)
}

/// The display name a join or a rename sets.
pub open spec fn name_of(e: SignedEventModel) -> Seq<char> {
    match e.event.payload {
        PayloadModel::Join { display_name } => display_name,
        PayloadModel::SetDisplayName { display_name } => display_name,
        _ => seq![],
    }
}

/// Row `r` shows the name that event `e` set.
pub open spec fn shows_name(r: MemberRow, e: SignedEventModel) -> bool {
    r.display_name == name_of(e) && r.name_lamport == e.event.lamport && r.name_event == id_of(e)
}

/// With one row per member, the row `member_at` finds is the one row for
/// that member.
proof fn lemma_member_at(rows: Seq<MemberRow>, id: Seq<u8>)
    requires
        member_ids_unique(rows),
        has_member(rows, id),
    ensures
        0 <= member_at(rows, id) < rows.len(),
        rows[member_at(rows, id)].id == id,
        forall|k: int| 0 <= k < rows.len() && (#[trigger] rows[k]).id == id ==> k == member_at(rows, id),
{
    let w = choose|i: int| 0 <= i < rows.len() && (#[trigger] rows[i]).id == id;
    assert(forall|j: int| 0 <= j < w ==> (#[trigger] rows[j]).id != id);
    let p = member_at(rows, id);
    assert(0 <= p < rows.len() && rows[p].id == id);
    assert forall|k: int| 0 <= k < rows.len() && (#[trigger] rows[k]).id == id implies k == p by {
        if k < p {
            assert(rows[k].id != rows[p].id);
        } else if p < k {
            assert(rows[p].id != rows[k].id);
        }
    }
}

/// One more event keeps one row per member; it keeps each row, or writes
/// the name that event sets into the row of its author; and a member stays
/// a member, in the same place.
proof fn lemma_member_rows_step(log: Seq<SignedEventModel>, c: Seq<u8>)
    requires
        log.len() > 0,
        member_ids_unique(member_rows(log.drop_last(), c)),
    ensures
        member_ids_unique(member_rows(log, c)),
        member_rows(log.drop_last(), c).len() <= member_rows(log, c).len(),
        forall|k: int|
            0 <= k < member_rows(log.drop_last(), c).len() ==> (#[trigger] member_rows(log, c)[k]).id == member_rows(
                log.drop_last(),
                c,
            )[k].id,
        forall|k: int|
            0 <= k < member_rows(log, c).len() ==> (k < member_rows(log.drop_last(), c).len()
                && #[trigger] member_rows(log, c)[k] == member_rows(log.drop_last(), c)[k]) || (sets_name(
                log.last(),
                c,
                member_rows(log, c)[k].id,
            ) && shows_name(member_rows(log, c)[k], log.last())),
        forall|k: int|
            0 <= k < member_rows(log.drop_last(), c).len() ==> member_rows(log, c)[k] == member_rows(
                log.drop_last(),
                c,
            )[k] || causally_before(
                member_rows(log.drop_last(), c)[k].name_lamport,
                member_rows(log.drop_last(), c)[k].name_event,
                #[trigger] member_rows(log, c)[k].name_lamport,
                member_rows(log, c)[k].name_event,
            ),
        renames(log.last(), c, log.last().event.author) ==> has_member(member_rows(log, c), log.last().event.author)
            && !causally_before(
            member_rows(log, c)[member_at(member_rows(log, c), log.last().event.author)].name_lamport,
            member_rows(log, c)[member_at(member_rows(log, c), log.last().event.author)].name_event,
            log.last().event.lamport,
            id_of(log.last()),
        ),
{
    let rows = member_rows(log.drop_last(), c);
    let new = member_rows(log, c);
    let s = log.last();
    let a = s.event.author;
    if community_in(s) == c && (s.event.payload is Join || s.event.payload is SetDisplayName) {
        assert(sets_name(s, c, a));
        let r = MemberRow {
            id: a,
            display_name: name_of(s),
            joined_ms: s.event.timestamp_ms,
            name_lamport: s.event.lamport,
            name_event: id_of(s),
        };
        if !has_member(rows, a) {
            assert(new == rows.push(r));
            assert forall|i: int, j: int| 0 <= i < j < new.len() implies (#[trigger] new[i]).id != (#[trigger] new[j]).id by {
                if j == rows.len() {
                    assert(new[i] == rows[i]);
                    if rows[i].id == a {
                        assert(has_member(rows, a));
                    }
                } else {
                    assert(new[i] == rows[i] && new[j] == rows[j]);
                }
            }
            assert forall|k: int| 0 <= k < new.len() && !(k < rows.len() && #[trigger] new[k] == rows[k]) implies new[k] == r by {}
            assert(new[rows.len() as int].id == a);
            assert(has_member(new, a));
            lemma_member_at(new, a);
            lemma_causally_before_order(s.event.lamport, id_of(s), 0, seq![], 0, seq![]);
        } else if s.event.payload is Join {
            assert(new == rows);
        } else {
            lemma_member_at(rows, a);
            let p = member_at(rows, a);
            if causally_before(rows[p].name_lamport, rows[p].name_event, s.event.lamport, id_of(s)) {
                let r2 = MemberRow { joined_ms: rows[p].joined_ms, ..r };
                assert(new == rows.update(p, r2));
                assert(shows_name(r2, s));
                assert forall|i: int, j: int| 0 <= i < j < new.len() implies (#[trigger] new[i]).id != (#[trigger] new[j]).id by {
                    assert(new[i].id == rows[i].id && new[j].id == rows[j].id);
                }
                assert forall|k: int| 0 <= k < new.len() && !(k < rows.len() && #[trigger] new[k] == rows[k]) implies new[k] == r2 by {}
                assert(new[p].id == a);
                assert(has_member(new, a));
                lemma_member_at(new, a);
                lemma_causally_before_order(s.event.lamport, id_of(s), 0, seq![], 0, seq![]);
            } else {
                assert(new == rows);
            }
        }
    } else {
        assert(new == rows);
    }
}

/// Row `r` shows a name that one of its member's joins or renames in `log`
/// set.
pub open spec fn name_from_log(log: Seq<SignedEventModel>, c: Seq<u8>, r: MemberRow) -> bool {
    exists|i: int| 0 <= i < log.len() && sets_name(log[i], c, r.id) && #[trigger] shows_name(r, log[i])
}

/// The member list keeps one row per member; each row shows a name its
/// member's own events set; and no rename the log holds is causally later
/// than the name its member's row shows.
proof fn lemma_member_rows(log: Seq<SignedEventModel>, c: Seq<u8>)
    ensures
        member_ids_unique(member_rows(log, c)),
        forall|k: int| 0 <= k < member_rows(log, c).len() ==> #[trigger] name_from_log(log, c, member_rows(log, c)[k]),
        forall|i: int, a: Seq<u8>|
            0 <= i < log.len() && #[trigger] renames(log[i], c, a) ==> has_member(member_rows(log, c), a)
                && !causally_before(
                member_rows(log, c)[member_at(member_rows(log, c), a)].name_lamport,
                member_rows(log, c)[member_at(member_rows(log, c), a)].name_event,
                log[i].event.lamport,
                id_of(log[i]),
            ),
    decreases log.len(),
{
    if log.len() > 0 {
        let rest = log.drop_last();
        let s = log.last();
        lemma_member_rows(rest, c);
        lemma_member_rows_step(log, c);
        let rows = member_rows(rest, c);
        let new = member_rows(log, c);
        let j = log.len() - 1;
        assert(log[j] == s);
        assert forall|k: int| 0 <= k < new.len() implies #[trigger] name_from_log(log, c, new[k]) by {
            if k < rows.len() && new[k] == rows[k] {
                assert(name_from_log(rest, c, rows[k]));
                let i = choose|i: int|
                    0 <= i < rest.len() && sets_name(rest[i], c, rows[k].id) && #[trigger] shows_name(rows[k], rest[i]);
                assert(log[i] == rest[i]);
                assert(shows_name(new[k], log[i]));
            } else {
                assert(shows_name(new[k], log[j]));
            }
        }
        assert forall|i: int, a: Seq<u8>|
            0 <= i < log.len() && #[trigger] renames(log[i], c, a) implies has_member(new, a) && !causally_before(
                new[member_at(new, a)].name_lamport,
                new[member_at(new, a)].name_event,
                log[i].event.lamport,
                id_of(log[i]),
            ) by {
            let e = log[i];
            if i < j {
                assert(e == rest[i]);
                assert(renames(rest[i], c, a));
                lemma_member_at(rows, a);
                let q = member_at(rows, a);
                assert(new[q].id == a);
                assert(has_member(new, a));
                lemma_member_at(new, a);
                assert(member_at(new, a) == q);
                if new[q] != rows[q] {
                    lemma_causally_before_order(
                        rows[q].name_lamport,
                        rows[q].name_event,
                        new[q].name_lamport,
                        new[q].name_event,
                        e.event.lamport,
                        id_of(e),
                    );
                }
            } else {
                assert(e == s);
            }
        }
    }
}

/// Renames are last-writer-wins by causal position, not by arrival: a
/// member's row shows a name that one of the member's own joins or renames
/// set, and no rename of the member that the log holds is causally later
/// than it. Two nodes holding the same renames show the same one, in
/// whichever order the renames arrived.
pub proof fn law_rename_is_last_writer_wins(log: Seq<SignedEventModel>, c: Seq<u8>, a: Seq<u8>)
    requires
        has_member(member_rows(log, c), a),
    ensures
        ({
            let r = member_rows(log, c)[member_at(member_rows(log, c), a)];
            &&& r.id == a
            &&& name_from_log(log, c, r)
            &&& forall|i: int|
                0 <= i < log.len() && #[trigger] renames(log[i], c, a) ==> !causally_before(
                    r.name_lamport,
                    r.name_event,
                    log[i].event.lamport,
                    id_of(log[i]),
                )
        }),
{
    lemma_member_rows(log, c);
    lemma_member_at(member_rows(log, c), a);
    let k = member_at(member_rows(log, c), a);
    assert(name_from_log(log, c, member_rows(log, c)[k]));
}

/// Whoever renamed themselves in a community is one of its members.
pub proof fn law_renamed_author_is_a_member(log: Seq<SignedEventModel>, c: Seq<u8>, i: int)
    requires
        0 <= i < log.len(),
        renames(log[i], c, log[i].event.author),
    ensures
        has_member(member_rows(log, c), log[i].event.author),
{
    lemma_member_rows(log, c);
}

/// What one node shows for a channel, another node holding the same events
/// shows too.
proof fn lemma_channel_row_shared(l1: Seq<SignedEventModel>, l2: Seq<SignedEventModel>, c: Seq<u8>, ch: Seq<u8>)
    requires
        ids_unique(l2),
        forall|x: SignedEventModel| l1.contains(x) <==> l2.contains(x),
        has_channel(channel_rows(l1, c), ch),
    ensures
        has_channel(channel_rows(l2, c), ch),
        channel_rows(l1, c)[channel_at(channel_rows(l1, c), ch)] == channel_rows(l2, c)[channel_at(
            channel_rows(l2, c),
            ch,
        )],
{
    let rows1 = channel_rows(l1, c);
    let rows2 = channel_rows(l2, c);
    lemma_channel_rows(l1, c);
    lemma_channel_rows(l2, c);
    lemma_channel_rows_come_from_the_log(l1, c);
    lemma_channel_rows_come_from_the_log(l2, c);
    lemma_channel_at(rows1, ch);
    let p1 = channel_at(rows1, ch);
    let r1 = rows1[p1];
    assert(row_from_log(l1, c, r1));
    let i1 = choose|i: int| 0 <= i < l1.len() && creates_channel(l1[i], c, r1.id) && #[trigger] shows_creation(r1, l1[i]);
    let e1 = l1[i1];
    assert(l1.contains(e1));
    assert(l2.contains(e1));
    let j1 = choose|j: int| 0 <= j < l2.len() && l2[j] == e1;
    assert(creates_channel(l2[j1], c, ch));
    assert(has_channel(rows2, ch));
    lemma_channel_at(rows2, ch);
    let p2 = channel_at(rows2, ch);
    let r2 = rows2[p2];
    assert(!causally_before(e1.event.lamport, id_of(e1), r2.lamport, r2.event));
    assert(row_from_log(l2, c, r2));
    let i2 = choose|i: int| 0 <= i < l2.len() && creates_channel(l2[i], c, r2.id) && #[trigger] shows_creation(r2, l2[i]);
    let e2 = l2[i2];
    assert(l2.contains(e2));
    assert(l1.contains(e2));
    let j2 = choose|j: int| 0 <= j < l1.len() && l1[j] == e2;
    assert(creates_channel(l1[j2], c, ch));
    assert(!causally_before(e2.event.lamport, id_of(e2), r1.lamport, r1.event));
    crate::proto::ids::lemma_bytes_less_total(id_of(e1), id_of(e2));
    assert(id_of(e1) == id_of(e2));
    if j1 != i2 {
        if j1 < i2 {
            assert(id_of(l2[j1]) != id_of(l2[i2]));
        } else {
            assert(id_of(l2[i2]) != id_of(l2[j1]));
        }
    }
    assert(e1 == e2);
}

/// Every node shows the same channels: two logs that hold the same events,
/// each without a repeated id, list the same channels, each with the same
/// row, whatever order the events arrived in.
pub proof fn law_channels_are_independent_of_arrival(
    l1: Seq<SignedEventModel>,
    l2: Seq<SignedEventModel>,
    c: Seq<u8>,
    ch: Seq<u8>,
)
    requires
        ids_unique(l1),
        ids_unique(l2),
        forall|x: SignedEventModel| l1.contains(x) <==> l2.contains(x),
    ensures
        has_channel(channel_rows(l1, c), ch) <==> has_channel(channel_rows(l2, c), ch),
        has_channel(channel_rows(l1, c), ch) ==> channel_rows(l1, c)[channel_at(channel_rows(l1, c), ch)]
            == channel_rows(l2, c)[channel_at(channel_rows(l2, c), ch)],
{
    if has_channel(channel_rows(l1, c), ch) {
        lemma_channel_row_shared(l1, l2, c, ch);
    }
    if has_channel(channel_rows(l2, c), ch) {
        lemma_channel_row_shared(l2, l1, c, ch);
    }
}

// -- one member's own events --------------------------------------------------------

/// The events of `a` in community `c`, in log order: `a`'s chain there.
pub open spec fn chain_of(log: Seq<SignedEventModel>, c: Seq<u8>, a: Seq<u8>) -> Seq<SignedEventModel>
    decreases log.len(),
{
    if log.len() == 0 {
        seq![]
    } else {
        let rest = chain_of(log.drop_last(), c, a);
        let s = log.last();
        if community_in(s) == c && s.event.author == a {
            rest.push(s)
        } else {
            rest
        }
    }
}

/// What a member's own events make of their row: the first join or rename
/// creates it, and each later rename that is causally after the name it
/// shows replaces the name.
pub open spec fn member_row_of(chain: Seq<SignedEventModel>) -> Option<MemberRow>
    decreases chain.len(),
{
    if chain.len() == 0 {
        None
    } else {
        let prev = member_row_of(chain.drop_last());
        let s = chain.last();
        let fresh = MemberRow {
            id: s.event.author,
            display_name: name_of(s),
            joined_ms: s.event.timestamp_ms,
            name_lamport: s.event.lamport,
            name_event: id_of(s),
        };
        match s.event.payload {
            PayloadModel::Join { .. } => if prev is None {
                Some(fresh)
            } else {
                prev
            },
            PayloadModel::SetDisplayName { .. } => match prev {
                None => Some(fresh),
                Some(r) => if causally_before(r.name_lamport, r.name_event, s.event.lamport, id_of(s)) {
                    Some(MemberRow { joined_ms: r.joined_ms, ..fresh })
                } else {
                    prev
                },
            },
            _ => prev,
        }
    }
}

/// A chain holds exactly the log's events of that author and community.
proof fn lemma_chain_of_places(log: Seq<SignedEventModel>, c: Seq<u8>, a: Seq<u8>)
    ensures
        forall|k: int|
            0 <= k < chain_of(log, c, a).len() ==> exists|i: int|
                0 <= i < log.len() && log[i] == #[trigger] chain_of(log, c, a)[k],
        forall|k: int|
            0 <= k < chain_of(log, c, a).len() ==> community_in(#[trigger] chain_of(log, c, a)[k]) == c
                && chain_of(log, c, a)[k].event.author == a,
        forall|i: int|
            0 <= i < log.len() && community_in(#[trigger] log[i]) == c && log[i].event.author == a ==> exists|k: int|
                0 <= k < chain_of(log, c, a).len() && chain_of(log, c, a)[k] == log[i],
    decreases log.len(),
{
    if log.len() > 0 {
        let rest = log.drop_last();
        let s = log.last();
        let last = log.len() - 1;
        assert(log[last] == s);
        lemma_chain_of_places(rest, c, a);
        let ch = chain_of(rest, c, a);
        let nc = chain_of(log, c, a);
        let inside = community_in(s) == c && s.event.author == a;
        if inside {
            assert(nc == ch.push(s));
        } else {
            assert(nc == ch);
        }
        assert forall|k: int| 0 <= k < nc.len() implies exists|i: int| 0 <= i < log.len() && log[i] == #[trigger] nc[k] by {
            if k < ch.len() {
                assert(nc[k] == ch[k]);
                let i = choose|i: int| 0 <= i < rest.len() && rest[i] == ch[k];
                assert(log[i] == rest[i]);
            } else {
                assert(nc[k] == s);
            }
        }
        assert forall|k: int| 0 <= k < nc.len() implies community_in(#[trigger] nc[k]) == c && nc[k].event.author == a by {
            if k < ch.len() {
                assert(nc[k] == ch[k]);
            }
        }
        assert forall|i: int|
            0 <= i < log.len() && community_in(#[trigger] log[i]) == c && log[i].event.author == a implies exists|k: int|
                0 <= k < nc.len() && nc[k] == log[i] by {
            if i < last {
                assert(rest[i] == log[i]);
                let k = choose|k: int| 0 <= k < ch.len() && ch[k] == rest[i];
                assert(nc[k] == ch[k]);
            } else {
                assert(nc[ch.len() as int] == s);
            }
        }
    }
}

/// The checks a store makes on arrival hold of every earlier state too.
proof fn lemma_store_log_prefix(log: Seq<SignedEventModel>)
    requires
        log.len() > 0,
        slots_unique(log),
        chains_in_order(log),
    ensures
        slots_unique(log.drop_last()),
        chains_in_order(log.drop_last()),
{
    let rest = log.drop_last();
    assert forall|i: int, j: int| 0 <= i < j < rest.len() implies !in_slot(
        #[trigger] rest[i],
        community_in(#[trigger] rest[j]),
        rest[j].event.author,
        rest[j].event.seq as int,
    ) by {
        assert(rest[i] == log[i] && rest[j] == log[j]);
    }
    assert forall|i: int| 0 <= i < rest.len() && (#[trigger] rest[i]).event.seq > 0 implies exists|j: int|
        0 <= j < i && #[trigger] in_slot(rest[j], community_in(rest[i]), rest[i].event.author, rest[i].event.seq - 1) by {
        assert(rest[i] == log[i]);
        let j = choose|j: int|
            0 <= j < i && #[trigger] in_slot(log[j], community_in(log[i]), log[i].event.author, log[i].event.seq - 1);
        assert(rest[j] == log[j]);
    }
}

/// In a store's log, the events of one chain arrived in order: the `k`th
/// of them is the one at position `k`.
proof fn lemma_chain_of_in_order(log: Seq<SignedEventModel>, c: Seq<u8>, a: Seq<u8>)
    requires
        slots_unique(log),
        chains_in_order(log),
    ensures
        forall|k: int| 0 <= k < chain_of(log, c, a).len() ==> (#[trigger] chain_of(log, c, a)[k]).event.seq == k,
    decreases log.len(),
{
    if log.len() > 0 {
        let rest = log.drop_last();
        let s = log.last();
        let last = log.len() - 1;
        assert(log[last] == s);
        lemma_store_log_prefix(log);
        lemma_chain_of_in_order(rest, c, a);
        let ch = chain_of(rest, c, a);
        if community_in(s) == c && s.event.author == a {
            let n = s.event.seq as int;
            let m = ch.len() as int;
            lemma_chain_of_places(rest, c, a);
            if m > n {
                let x = ch[n];
                let i0 = choose|i: int| 0 <= i < rest.len() && rest[i] == ch[n];
                assert(log[i0] == x);
                assert(!in_slot(log[i0], community_in(log[last]), log[last].event.author, log[last].event.seq as int));
                assert(false);
            }
            if m < n {
                let j = choose|j: int| 0 <= j < last && #[trigger] in_slot(log[j], community_in(log[last]), log[last].event.author, log[last].event.seq - 1);
                assert(rest[j] == log[j]);
                assert(community_in(rest[j]) == c && rest[j].event.author == a);
                let k = choose|k: int| 0 <= k < ch.len() && ch[k] == rest[j];
                assert(ch[k].event.seq == k);
                assert(false);
            }
            assert(chain_of(log, c, a) == ch.push(s));
        }
    }
}

/// Two store logs that hold the same events hold each chain the same way.
proof fn lemma_same_chains(l1: Seq<SignedEventModel>, l2: Seq<SignedEventModel>, c: Seq<u8>, a: Seq<u8>)
    requires
        slots_unique(l1),
        chains_in_order(l1),
        slots_unique(l2),
        chains_in_order(l2),
        forall|x: SignedEventModel| l1.contains(x) <==> l2.contains(x),
    ensures
        chain_of(l1, c, a) == chain_of(l2, c, a),
{
    let c1 = chain_of(l1, c, a);
    let c2 = chain_of(l2, c, a);
    lemma_chain_of_places(l1, c, a);
    lemma_chain_of_places(l2, c, a);
    lemma_chain_of_in_order(l1, c, a);
    lemma_chain_of_in_order(l2, c, a);
    assert forall|k: int| 0 <= k < c1.len() implies k < c2.len() && c2[k] == #[trigger] c1[k] by {
        let x = c1[k];
        let i = choose|i: int| 0 <= i < l1.len() && l1[i] == c1[k];
        assert(l1.contains(x));
        assert(l2.contains(x));
        let i2 = choose|i2: int| 0 <= i2 < l2.len() && l2[i2] == x;
        assert(community_in(l2[i2]) == c && l2[i2].event.author == a);
        let k2 = choose|k2: int| 0 <= k2 < c2.len() && c2[k2] == l2[i2];
        assert(c2[k2].event.seq == k2);
    }
    assert forall|k: int| 0 <= k < c2.len() implies k < c1.len() && c1[k] == #[trigger] c2[k] by {
        let x = c2[k];
        let i = choose|i: int| 0 <= i < l2.len() && l2[i] == c2[k];
        assert(l2.contains(x));
        assert(l1.contains(x));
        let i1 = choose|i1: int| 0 <= i1 < l1.len() && l1[i1] == x;
        assert(community_in(l1[i1]) == c && l1[i1].event.author == a);
        let k1 = choose|k1: int| 0 <= k1 < c1.len() && c1[k1] == l1[i1];
        assert(c1[k1].event.seq == k1);
    }
    if c1.len() < c2.len() {
        assert(c1.len() > 0 ==> c1[c1.len() - 1] == c2[c1.len() - 1]);
        let x = c2[c1.len() as int];
        assert(c1.len() < c1.len());
    }
    if c2.len() < c1.len() {
        let x = c1[c2.len() as int];
        assert(c2.len() < c2.len());
    }
    assert(c1 =~= c2);
}

/// The row of `a` in a community's member list, if any.
pub open spec fn member_row_in(rows: Seq<MemberRow>, a: Seq<u8>) -> Option<MemberRow> {
    if has_member(rows, a) {
        Some(rows[member_at(rows, a)])
    } else {
        None
    }
}

/// A member's row depends on that member's own events alone, in the order
/// they arrived.
proof fn lemma_member_row_from_chain(log: Seq<SignedEventModel>, c: Seq<u8>, a: Seq<u8>)
    ensures
        member_row_in(member_rows(log, c), a) == member_row_of(chain_of(log, c, a)),
    decreases log.len(),
{
    if log.len() > 0 {
        let rest = log.drop_last();
        let s = log.last();
        lemma_member_row_from_chain(rest, c, a);
        lemma_member_rows(rest, c);
        lemma_member_rows_step(log, c);
        let rows = member_rows(rest, c);
        let new = member_rows(log, c);
        let ch = chain_of(rest, c, a);
        if community_in(s) == c && s.event.author == a {
            assert(chain_of(log, c, a) == ch.push(s));
            assert(ch.push(s).drop_last() =~= ch);
            let fresh = MemberRow {
                id: a,
                display_name: name_of(s),
                joined_ms: s.event.timestamp_ms,
                name_lamport: s.event.lamport,
                name_event: id_of(s),
            };
            if s.event.payload is Join || s.event.payload is SetDisplayName {
                if !has_member(rows, a) {
                    assert(new == rows.push(fresh));
                    assert(new[rows.len() as int].id == a);
                    assert(has_member(new, a));
                    lemma_member_at(new, a);
                } else if s.event.payload is Join {
                    assert(new == rows);
                } else {
                    lemma_member_at(rows, a);
                    let p = member_at(rows, a);
                    if causally_before(rows[p].name_lamport, rows[p].name_event, s.event.lamport, id_of(s)) {
                        let r2 = MemberRow { joined_ms: rows[p].joined_ms, ..fresh };
                        assert(new == rows.update(p, r2));
                        assert(new[p].id == a);
                        assert(has_member(new, a));
                        lemma_member_at(new, a);
                    } else {
                        assert(new == rows);
                    }
                }
            } else {
                assert(new == rows);
            }
        } else {
            assert(chain_of(log, c, a) == ch);
            assert forall|k: int| 0 <= k < new.len() && (#[trigger] new[k]).id == a implies k < rows.len() && new[k]
                == rows[k] by {
                if !(k < rows.len() && new[k] == rows[k]) {
                    assert(sets_name(s, c, new[k].id));
                }
            }
            if has_member(new, a) {
                lemma_member_at(new, a);
                let q = member_at(new, a);
                assert(rows[q].id == a);
                assert(has_member(rows, a));
                lemma_member_at(rows, a);
            }
            if has_member(rows, a) {
                lemma_member_at(rows, a);
                let q = member_at(rows, a);
                assert(new[q].id == a);
                assert(has_member(new, a));
                lemma_member_at(new, a);
            }
        }
    }
}

/// Every node shows the same members: two store logs that hold the same
/// events give each member the same row (name, when they joined, and the
/// causal position of the name), whatever order the events arrived in.
/// A store's log holds each chain at most once per position and in order,
/// which is what makes the first name a member set the same everywhere.
pub proof fn law_members_are_independent_of_arrival(
    l1: Seq<SignedEventModel>,
    l2: Seq<SignedEventModel>,
    c: Seq<u8>,
    a: Seq<u8>,
)
    requires
        slots_unique(l1),
        chains_in_order(l1),
        slots_unique(l2),
        chains_in_order(l2),
        forall|x: SignedEventModel| l1.contains(x) <==> l2.contains(x),
    ensures
        member_row_in(member_rows(l1, c), a) == member_row_in(member_rows(l2, c), a),
{
    lemma_same_chains(l1, l2, c, a);
    lemma_member_row_from_chain(l1, c, a);
    lemma_member_row_from_chain(l2, c, a);
}

// -- lists --------------------------------------------------------------------

/// A community's channel list before it is sorted: one summary per row.
pub open spec fn channel_list(rows: Seq<ChannelRow>) -> Seq<ChannelSummaryRow> {
    rows.map_values(|c: ChannelRow| channel_summary(c))
}

/// A community's member list before it is sorted: one summary per row.
pub open spec fn member_list(rows: Seq<MemberRow>) -> Seq<MemberSummaryRow> {
    rows.map_values(|m: MemberRow| member_summary(m))
}

/// Where a channel sorts: creation time, name, then id.
pub open spec fn channel_summary_key(r: ChannelSummaryRow) -> KeyModel {
    (r.created_ms, encode_utf8(r.name), r.id)
}

/// Where a member sorts: when they joined, then id.
pub open spec fn member_summary_key(r: MemberSummaryRow) -> KeyModel {
    (r.joined_ms, r.id, Seq::<u8>::empty())
}

/// Each entry sorts strictly after the one before it.
pub open spec fn keys_rise<T>(s: Seq<T>, key: spec_fn(T) -> KeyModel) -> bool {
    forall|i: int, j: int| 0 <= i < j < s.len() ==> key_less(key(#[trigger] s[i]), key(#[trigger] s[j]))
}

/// A stable sort of entries no two of which share a key lists them with
/// rising keys, and lists the same entries.
proof fn lemma_sorted_rows_rise<T>(rows: Seq<T>, keys: Seq<KeyModel>, key: spec_fn(T) -> KeyModel, out: Seq<T>)
    requires
        keys.len() == rows.len(),
        forall|i: int| 0 <= i < rows.len() ==> keys[i] == key(#[trigger] rows[i]),
        forall|i: int, j: int| 0 <= i < j < rows.len() ==> key(#[trigger] rows[i]) != key(#[trigger] rows[j]),
        sorted_rows(rows, keys, out),
    ensures
        keys_rise(out, key),
        forall|x: T| out.contains(x) <==> rows.contains(x),
{
    let o = choose|o: Seq<int>|
        is_stable_sort(keys, o) && out.len() == o.len() && forall|i: int| 0 <= i < o.len() ==> out[i] == rows[#[trigger] o[i]];
    assert forall|i: int, j: int| 0 <= i < j < out.len() implies key_less(key(#[trigger] out[i]), key(#[trigger] out[j])) by {
        assert(o[i] != o[j]);
        assert(out[i] == rows[o[i]] && out[j] == rows[o[j]]);
        assert(!key_less(keys[o[j]], keys[o[i]]));
        if o[i] < o[j] {
            assert(key(rows[o[i]]) != key(rows[o[j]]));
        } else {
            assert(key(rows[o[j]]) != key(rows[o[i]]));
        }
        lemma_key_less_total(keys[o[i]], keys[o[j]]);
    }
    assert forall|x: T| out.contains(x) <==> rows.contains(x) by {
        if out.contains(x) {
            let i = choose|i: int| 0 <= i < out.len() && out[i] == x;
            assert(rows[o[i]] == x);
        }
        if rows.contains(x) {
            let k = choose|k: int| 0 <= k < rows.len() && rows[k] == x;
            assert(o.contains(k));
            let i = choose|i: int| 0 <= i < o.len() && o[i] == k;
            assert(out[i] == x);
        }
    }
}

/// Two lists with rising keys that hold the same entries are the same list.
proof fn lemma_rising_unique<T>(s1: Seq<T>, s2: Seq<T>, key: spec_fn(T) -> KeyModel)
    requires
        keys_rise(s1, key),
        keys_rise(s2, key),
        forall|x: T| s1.contains(x) <==> s2.contains(x),
    ensures
        s1 == s2,
    decreases s1.len(),
{
    if s1.len() == 0 {
        if s2.len() > 0 {
            assert(s2.contains(s2[0]));
        }
        assert(s1 =~= s2);
    } else if s2.len() == 0 {
        assert(s1.contains(s1[0]));
    } else {
        assert(s1.contains(s1[0]));
        assert(s2.contains(s2[0]));
        let k = choose|k: int| 0 <= k < s1.len() && s1[k] == s2[0];
        let m = choose|m: int| 0 <= m < s2.len() && s2[m] == s1[0];
        if k > 0 {
            if m > 0 {
                assert(key_less(key(s1[0]), key(s1[k])));
                assert(key_less(key(s2[0]), key(s2[m])));
                lemma_key_less_asymmetric(key(s1[0]), key(s2[0]));
            } else {
                assert(key_less(key(s1[0]), key(s1[k])));
                lemma_key_less_irreflexive(key(s1[0]));
            }
        }
        assert(s1[0] == s2[0]);
        let t1 = s1.drop_first();
        let t2 = s2.drop_first();
        assert forall|x: T| t1.contains(x) <==> t2.contains(x) by {
            if t1.contains(x) {
                let i = choose|i: int| 0 <= i < t1.len() && t1[i] == x;
                assert(s1[i + 1] == x);
                assert(s2.contains(x));
                let j = choose|j: int| 0 <= j < s2.len() && s2[j] == x;
                if j == 0 {
                    assert(key_less(key(s1[0]), key(s1[i + 1])));
                    lemma_key_less_irreflexive(key(s1[0]));
                }
                assert(t2[j - 1] == x);
            }
            if t2.contains(x) {
                let i = choose|i: int| 0 <= i < t2.len() && t2[i] == x;
                assert(s2[i + 1] == x);
                assert(s1.contains(x));
                let j = choose|j: int| 0 <= j < s1.len() && s1[j] == x;
                if j == 0 {
                    assert(key_less(key(s2[0]), key(s2[i + 1])));
                    lemma_key_less_irreflexive(key(s2[0]));
                }
                assert(t1[j - 1] == x);
            }
        }
        assert forall|i: int, j: int| 0 <= i < j < t1.len() implies key_less(key(#[trigger] t1[i]), key(#[trigger] t1[j])) by {
            assert(t1[i] == s1[i + 1] && t1[j] == s1[j + 1]);
        }
        assert forall|i: int, j: int| 0 <= i < j < t2.len() implies key_less(key(#[trigger] t2[i]), key(#[trigger] t2[j])) by {
            assert(t2[i] == s2[i + 1] && t2[j] == s2[j + 1]);
        }
        lemma_rising_unique(t1, t2, key);
        assert(s1 =~= seq![s1[0]] + t1);
        assert(s2 =~= seq![s2[0]] + t2);
    }
}

/// Every node lists a community's channels alike: two logs that hold the
/// same events, each without a repeated id, give the same sorted channel
/// list, whatever order the events arrived in.
pub proof fn law_channel_lists_agree(
    l1: Seq<SignedEventModel>,
    l2: Seq<SignedEventModel>,
    c: Seq<u8>,
    v1: Seq<ChannelSummaryRow>,
    v2: Seq<ChannelSummaryRow>,
)
    requires
        ids_unique(l1),
        ids_unique(l2),
        forall|x: SignedEventModel| l1.contains(x) <==> l2.contains(x),
        sorted_rows(channel_list(channel_rows(l1, c)), channel_keys(channel_rows(l1, c)), v1),
        sorted_rows(channel_list(channel_rows(l2, c)), channel_keys(channel_rows(l2, c)), v2),
    ensures
        v1 == v2,
{
    let r1 = channel_rows(l1, c);
    let r2 = channel_rows(l2, c);
    let s1 = channel_list(r1);
    let s2 = channel_list(r2);
    let key = |r: ChannelSummaryRow| channel_summary_key(r);
    lemma_channel_rows(l1, c);
    lemma_channel_rows(l2, c);
    assert forall|i: int, j: int| 0 <= i < j < s1.len() implies key(#[trigger] s1[i]) != key(#[trigger] s1[j]) by {
        assert(r1[i].id != r1[j].id);
    }
    assert forall|i: int, j: int| 0 <= i < j < s2.len() implies key(#[trigger] s2[i]) != key(#[trigger] s2[j]) by {
        assert(r2[i].id != r2[j].id);
    }
    lemma_sorted_rows_rise(s1, channel_keys(r1), key, v1);
    lemma_sorted_rows_rise(s2, channel_keys(r2), key, v2);
    assert forall|x: ChannelSummaryRow| s1.contains(x) <==> s2.contains(x) by {
        if s1.contains(x) {
            let k = choose|k: int| 0 <= k < s1.len() && s1[k] == x;
            law_channels_are_independent_of_arrival(l1, l2, c, r1[k].id);
            lemma_channel_at(r1, r1[k].id);
            lemma_channel_at(r2, r1[k].id);
            assert(s2[channel_at(r2, r1[k].id)] == x);
        }
        if s2.contains(x) {
            let k = choose|k: int| 0 <= k < s2.len() && s2[k] == x;
            law_channels_are_independent_of_arrival(l1, l2, c, r2[k].id);
            lemma_channel_at(r1, r2[k].id);
            lemma_channel_at(r2, r2[k].id);
            assert(s1[channel_at(r1, r2[k].id)] == x);
        }
    }
    lemma_rising_unique(v1, v2, key);
}

/// Every node lists a community's members alike: two logs that hold the
/// same events, with chains that arrived in order, give the same sorted
/// member list, whatever order the events arrived in.
pub proof fn law_member_lists_agree(
    l1: Seq<SignedEventModel>,
    l2: Seq<SignedEventModel>,
    c: Seq<u8>,
    v1: Seq<MemberSummaryRow>,
    v2: Seq<MemberSummaryRow>,
)
    requires
        slots_unique(l1),
        chains_in_order(l1),
        slots_unique(l2),
        chains_in_order(l2),
        forall|x: SignedEventModel| l1.contains(x) <==> l2.contains(x),
        sorted_rows(member_list(member_rows(l1, c)), member_keys(member_rows(l1, c)), v1),
        sorted_rows(member_list(member_rows(l2, c)), member_keys(member_rows(l2, c)), v2),
    ensures
        v1 == v2,
{
    let r1 = member_rows(l1, c);
    let r2 = member_rows(l2, c);
    let s1 = member_list(r1);
    let s2 = member_list(r2);
    let key = |r: MemberSummaryRow| member_summary_key(r);
    lemma_member_rows(l1, c);
    lemma_member_rows(l2, c);
    assert forall|i: int, j: int| 0 <= i < j < s1.len() implies key(#[trigger] s1[i]) != key(#[trigger] s1[j]) by {
        assert(r1[i].id != r1[j].id);
    }
    assert forall|i: int, j: int| 0 <= i < j < s2.len() implies key(#[trigger] s2[i]) != key(#[trigger] s2[j]) by {
        assert(r2[i].id != r2[j].id);
    }
    lemma_sorted_rows_rise(s1, member_keys(r1), key, v1);
    lemma_sorted_rows_rise(s2, member_keys(r2), key, v2);
    assert forall|x: MemberSummaryRow| s1.contains(x) <==> s2.contains(x) by {
        if s1.contains(x) {
            let k = choose|k: int| 0 <= k < s1.len() && s1[k] == x;
            law_members_are_independent_of_arrival(l1, l2, c, r1[k].id);
            lemma_member_at(r1, r1[k].id);
            lemma_member_at(r2, r1[k].id);
            assert(s2[member_at(r2, r1[k].id)] == x);
        }
        if s2.contains(x) {
            let k = choose|k: int| 0 <= k < s2.len() && s2[k] == x;
            law_members_are_independent_of_arrival(l1, l2, c, r2[k].id);
            lemma_member_at(r1, r2[k].id);
            lemma_member_at(r2, r2[k].id);
            assert(s1[member_at(r1, r2[k].id)] == x);
        }
    }
    lemma_rising_unique(v1, v2, key);
}

} // verus!
