//! Serving history back: sync deltas and channel transcripts.
//!
//! Both walk a community's events in causal order, by Lamport clock and then
//! event id. That order puts every event's predecessors before it, so a
//! receiver can apply a batch straight down the list, and a truncated batch
//! is still applicable as far as it goes.

use vstd::prelude::*;

use crate::proto::event::{is_genesis_payload, shape_check, PayloadModel, SignedEvent, SignedEventModel};
use crate::proto::frontier::Frontier;
use crate::proto::ids::{lemma_hash32_len, ChannelId, CommunityId};
use crate::proto::frontier::{
    frontier_map, lemma_frontier_map_at, lemma_remove_map, lemma_total_remove, lemma_total_update, lemma_update_map,
    pairs_max, sorted_keys, total_of,
};
use crate::store::log::{
    chain_pairs, chains_gap_free, chains_in_order, community_in, id_of, ids_unique, in_slot, is_genesis_at, knows_community,
    lemma_frontier_value_held, put_result, holds_id, slot_index, chains_linked, all_verified, admission, Admission,
    lemma_held_below_max, lemma_slots_below, slot_taken, slots_unique, EventLog,
};
use crate::store::order::{key_less, lemma_key_less_asymmetric, lemma_key_less_irreflexive, lemma_key_less_total};
use crate::store::order::{is_stable_sort, keys_view, order_view, stable_order, KeyModel, SortKey};
use crate::store::{Delta, Inserted, StoreError};

verus! {

broadcast use lemma_hash32_len;

/// The events of community `c`, in log order.
pub open spec fn community_events(log: Seq<SignedEventModel>, c: Seq<u8>) -> Seq<SignedEventModel>
    decreases log.len(),
{
    if log.len() == 0 {
        seq![]
    } else {
        let rest = community_events(log.drop_last(), c);
        if community_in(log.last()) == c {
            rest.push(log.last())
        } else {
            rest
        }
    }
}

/// The messages posted to channel `ch` of community `c`, in log order.
pub open spec fn channel_messages(log: Seq<SignedEventModel>, c: Seq<u8>, ch: Seq<u8>) -> Seq<SignedEventModel>
    decreases log.len(),
{
    if log.len() == 0 {
        seq![]
    } else {
        let rest = channel_messages(log.drop_last(), c, ch);
        let s = log.last();
        if community_in(s) == c && (s.event.payload matches PayloadModel::Message { channel, .. } && channel == ch) {
            rest.push(s)
        } else {
            rest
        }
    }
}

/// Causal order: Lamport clock, then event id.
pub open spec fn causal_keys(s: Seq<SignedEventModel>) -> Seq<KeyModel> {
    s.map_values(|e: SignedEventModel| (e.event.lamport, id_of(e), Seq::<u8>::empty()))
}

/// `s` rearranged by `o`.
pub open spec fn arranged(s: Seq<SignedEventModel>, o: Seq<int>) -> Seq<SignedEventModel> {
    o.map_values(|i: int| s[i])
}

/// `have` already covers this event's chain position.
pub open spec fn covered(have: Map<Seq<u8>, u64>, e: SignedEventModel) -> bool {
    have.contains_key(e.event.author) && have[e.event.author] >= e.event.seq
}

/// The events of `s` that `have` does not cover, in order.
pub open spec fn uncovered(s: Seq<SignedEventModel>, have: Map<Seq<u8>, u64>) -> Seq<SignedEventModel>
    decreases s.len(),
{
    if s.len() == 0 {
        seq![]
    } else {
        let rest = uncovered(s.drop_last(), have);
        if covered(have, s.last()) {
            rest
        } else {
            rest.push(s.last())
        }
    }
}

pub open spec fn events_view(v: Seq<SignedEvent>) -> Seq<SignedEventModel> {
    v.map_values(|e: SignedEvent| e@)
}

/// What filtering a prefix keeps is a prefix of what filtering the whole
/// keeps.
proof fn lemma_uncovered_prefix(s: Seq<SignedEventModel>, have: Map<Seq<u8>, u64>, k: int)
    requires
        0 <= k <= s.len(),
    ensures
        uncovered(s.take(k), have).len() <= uncovered(s, have).len(),
        uncovered(s.take(k), have) == uncovered(s, have).take(uncovered(s.take(k), have).len() as int),
    decreases s.len(),
{
    if k == s.len() {
        assert(s.take(k) =~= s);
        assert(uncovered(s, have).take(uncovered(s, have).len() as int) =~= uncovered(s, have));
    } else {
        let t = s.drop_last();
        assert(t.take(k) =~= s.take(k));
        lemma_uncovered_prefix(t, have, k);
        let a = uncovered(t.take(k), have);
        let b = uncovered(t, have);
        assert(uncovered(s, have).take(a.len() as int) =~= b.take(a.len() as int));
    }
}

impl EventLog {
    /// The events of `community` and their causal keys.
    fn event_table(&self, community: &CommunityId, channel: Option<&ChannelId>) -> (r: (Vec<SignedEvent>, Vec<SortKey>))
        requires
            self.wf(),
        ensures
            events_view(r.0@) == match channel {
                None => community_events(self.log(), community@),
                Some(ch) => channel_messages(self.log(), community@, ch@),
            },
            keys_view(r.1@) == causal_keys(events_view(r.0@)),
    {
        let ghost log = self.log();
        let ghost want = |l: Seq<SignedEventModel>| match channel {
            None => community_events(l, community@),
            Some(ch) => channel_messages(l, community@, ch@),
        };
        let mut rows: Vec<SignedEvent> = Vec::new();
        let mut keys: Vec<SortKey> = Vec::new();
        let n = self.entry_count();
        let mut i: usize = 0;
        while i < n
            invariant
                self.wf(),
                log == self.log(),
                n == log.len(),
                i <= n,
                events_view(rows@) == want(log.take(i as int)),
                keys_view(keys@) == causal_keys(events_view(rows@)),
                want == (|l: Seq<SignedEventModel>| match channel {
                    None => community_events(l, community@),
                    Some(ch) => channel_messages(l, community@, ch@),
                }),
            decreases n - i,
        {
            let entry = self.entry_at(i);
            assert(log.take(i + 1).drop_last() =~= log.take(i as int));
            assert(log.take(i + 1).last() == log[i as int]);
            let mut keep = entry.community == *community;
            if keep {
                match channel {
                    None => {},
                    Some(ch) => {
                        keep = match &entry.event.event.payload {
                            crate::proto::event::Payload::Message { channel: c, .. } => *c == *ch,
                            _ => false,
                        };
                    },
                }
            }
            if keep {
                let ghost r0 = rows@;
                let ghost k0 = keys@;
                rows.push(entry.event.clone());
                keys.push(SortKey {
                    primary: entry.event.event.lamport,
                    secondary: vstd::slice::slice_to_vec(entry.id.as_bytes().as_slice()),
                    tertiary: Vec::new(),
                });
                assert(events_view(rows@) =~= events_view(r0).push(log[i as int]));
                assert(keys_view(keys@) =~= keys_view(k0).push(keys@[keys@.len() - 1]@));
                assert(causal_keys(events_view(rows@)) =~= causal_keys(events_view(r0)).push(keys@[keys@.len() - 1]@));
            }
            i += 1;
        }
        assert(log.take(n as int) =~= log);
        (rows, keys)
    }

    /// Events held that `have` does not cover, in causal order and capped at
    /// `limit`, with whether that was all of them.
    pub fn delta(&self, community: &CommunityId, have: &Frontier, limit: usize) -> (r: Delta)
        requires
            self.wf(),
        ensures
            exists|o: Seq<int>|
                is_stable_sort(causal_keys(community_events(self.log(), community@)), o) && ({
                    let cand = uncovered(arranged(community_events(self.log(), community@), o), have@);
                    &&& r.complete == (cand.len() <= limit)
                    &&& events_view(r.events@) == cand.take(if cand.len() <= limit { cand.len() as int } else { limit as int })
                }),
    {
        let (rows, keys) = self.event_table(community, None);
        let ghost ce = events_view(rows@);
        let order = stable_order(&keys);
        let ghost o = order_view(order@);
        let ghost sorted = arranged(ce, o);
        let mut out: Vec<SignedEvent> = Vec::new();
        let mut complete = true;
        let mut k: usize = 0;
        while k < order.len()
            invariant_except_break
                complete,
            invariant
                k <= order@.len(),
                o == order_view(order@),
                is_stable_sort(keys_view(keys@), o),
                keys_view(keys@) == causal_keys(ce),
                ce == events_view(rows@),
                ce.len() == rows@.len(),
                sorted == arranged(ce, o),
                events_view(out@) == uncovered(sorted.take(k as int), have@),
                out@.len() <= limit,
            ensures
                events_view(out@) == uncovered(sorted.take(k as int), have@),
                k <= order@.len(),
                complete ==> k == order@.len(),
                !complete ==> out@.len() == limit && k < order@.len() && !covered(have@, sorted[k as int]),
            decreases order@.len() - k,
        {
            assert(o[k as int] == order@[k as int] as int);
            let e = &rows[order[k]];
            assert(sorted[k as int] == e@);
            assert(sorted.take(k + 1).drop_last() =~= sorted.take(k as int));
            if have.covers(&e.event.author, e.event.seq) {
                k += 1;
                continue;
            }
            if out.len() >= limit {
                complete = false;
                break;
            }
            let ghost o0 = out@;
            out.push(e.clone());
            assert(events_view(out@) =~= events_view(o0).push(e@));
            k += 1;
        }
        proof {
            let cand = uncovered(sorted, have@);
            assert(sorted.len() == order@.len());
            if complete {
                assert(sorted.take(k as int) =~= sorted);
                assert(cand.take(cand.len() as int) =~= cand);
            } else {
                lemma_uncovered_prefix(sorted, have@, k + 1);
                assert(sorted.take(k + 1).drop_last() =~= sorted.take(k as int));
                assert(uncovered(sorted.take(k + 1), have@) == events_view(out@).push(sorted[k as int]));
            }
            lemma_uncovered_prefix(sorted, have@, k as int);
        }
        Delta { events: out, complete }
    }

    /// The most recent `limit` messages in a channel, oldest first.
    pub fn channel_history(&self, community: &CommunityId, channel: &ChannelId, limit: usize) -> (r: Vec<SignedEvent>)
        requires
            self.wf(),
        ensures
            exists|o: Seq<int>|
                is_stable_sort(causal_keys(channel_messages(self.log(), community@, channel@)), o) && ({
                    let sorted = arranged(channel_messages(self.log(), community@, channel@), o);
                    events_view(r@) == sorted.skip(if sorted.len() <= limit { 0 } else { sorted.len() - limit })
                }),
    {
        let (rows, keys) = self.event_table(community, Some(channel));
        let ghost ce = events_view(rows@);
        let order = stable_order(&keys);
        let ghost o = order_view(order@);
        let ghost sorted = arranged(ce, o);
        let start = if order.len() <= limit { 0 } else { order.len() - limit };
        let mut out: Vec<SignedEvent> = Vec::new();
        let mut k: usize = start;
        while k < order.len()
            invariant
                start <= k <= order@.len(),
                o == order_view(order@),
                is_stable_sort(keys_view(keys@), o),
                keys_view(keys@) == causal_keys(ce),
                ce == events_view(rows@),
                ce.len() == rows@.len(),
                sorted == arranged(ce, o),
                events_view(out@) == sorted.subrange(start as int, k as int),
            decreases order@.len() - k,
        {
            assert(o[k as int] == order@[k as int] as int);
            let e = &rows[order[k]];
            assert(sorted[k as int] == e@);
            let ghost o0 = out@;
            out.push(e.clone());
            assert(events_view(out@) =~= events_view(o0).push(e@));
            assert(events_view(out@) =~= sorted.subrange(start as int, k + 1));
            k += 1;
        }
        assert(sorted.subrange(start as int, order@.len() as int) =~= sorted.skip(start as int));
        out
    }
}

/// An event's place in the causal order.
pub open spec fn causal_key(e: SignedEventModel) -> KeyModel {
    (e.event.lamport, id_of(e), Seq::<u8>::empty())
}

/// A message of channel `ch` of community `c`.
pub open spec fn in_channel(e: SignedEventModel, c: Seq<u8>, ch: Seq<u8>) -> bool {
    community_in(e) == c && (e.event.payload matches PayloadModel::Message { channel, .. } && channel == ch)
}

/// Strictly increasing in the causal order.
pub open spec fn causally_sorted(s: Seq<SignedEventModel>) -> bool {
    forall|i: int, j: int| 0 <= i < j < s.len() ==> key_less(causal_key(#[trigger] s[i]), causal_key(#[trigger] s[j]))
}

/// A channel's messages are exactly the log's events in that channel.
proof fn lemma_channel_messages_members(log: Seq<SignedEventModel>, c: Seq<u8>, ch: Seq<u8>)
    ensures
        forall|x: SignedEventModel|
            #[trigger] channel_messages(log, c, ch).contains(x) <==> log.contains(x) && in_channel(x, c, ch),
        ids_unique(log) ==> ids_unique(channel_messages(log, c, ch)),
    decreases log.len(),
{
    if log.len() > 0 {
        let rest = log.drop_last();
        lemma_channel_messages_members(rest, c, ch);
        let m = channel_messages(rest, c, ch);
        let full = channel_messages(log, c, ch);
        assert(full == if in_channel(log.last(), c, ch) { m.push(log.last()) } else { m });
        assert forall|x: SignedEventModel| #[trigger] full.contains(x) <==> log.contains(x) && in_channel(x, c, ch) by {
            if log.contains(x) && in_channel(x, c, ch) {
                let k = choose|k: int| 0 <= k < log.len() && log[k] == x;
                if k < log.len() - 1 {
                    assert(rest[k] == x);
                    assert(rest.contains(x));
                    assert(m.contains(x));
                    let i = choose|i: int| 0 <= i < m.len() && m[i] == x;
                    assert(full[i] == x);
                } else {
                    assert(x == log.last());
                    assert(full[m.len() as int] == x);
                }
            }
            if full.contains(x) {
                let i = choose|i: int| 0 <= i < full.len() && full[i] == x;
                if i < m.len() {
                    assert(m[i] == x);
                    assert(m.contains(x));
                    let k = choose|k: int| 0 <= k < rest.len() && rest[k] == x;
                    assert(log[k] == x);
                } else {
                    assert(x == log.last());
                    assert(log[log.len() - 1] == x);
                }
            }
        }
        if ids_unique(log) {
            assert(ids_unique(rest)) by {
                assert forall|i: int, j: int| 0 <= i < j < rest.len() implies id_of(#[trigger] rest[i]) != id_of(
                    #[trigger] rest[j],
                ) by {
                    assert(rest[i] == log[i] && rest[j] == log[j]);
                }
            }
            let full = channel_messages(log, c, ch);
            if full != m {
                assert forall|i: int, j: int| 0 <= i < j < full.len() implies id_of(#[trigger] full[i]) != id_of(
                    #[trigger] full[j],
                ) by {
                    if j == full.len() - 1 {
                        assert(full[j] == log.last());
                        assert(m.contains(full[i])) by {
                            assert(full[i] == m[i]);
                        }
                        let k = choose|k: int| 0 <= k < rest.len() && rest[k] == full[i];
                        assert(log[k] == full[i]);
                        assert(id_of(log[k]) != id_of(log[log.len() - 1]));
                    } else {
                        assert(full[i] == m[i] && full[j] == m[j]);
                    }
                }
            }
        }
    }
}

/// A stable sort by causal key of a sequence without repeated ids leaves
/// it strictly increasing, holding the same events.
proof fn lemma_sorted_arrangement(s: Seq<SignedEventModel>, o: Seq<int>)
    requires
        ids_unique(s),
        is_stable_sort(causal_keys(s), o),
    ensures
        causally_sorted(arranged(s, o)),
        forall|x: SignedEventModel| #[trigger] arranged(s, o).contains(x) <==> s.contains(x),
{
    let a = arranged(s, o);
    let keys = causal_keys(s);
    assert forall|i: int, j: int| 0 <= i < j < a.len() implies key_less(causal_key(#[trigger] a[i]), causal_key(#[trigger] a[j])) by {
        assert(o[i] != o[j]);
        assert(0 <= o[i] < s.len() && 0 <= o[j] < s.len());
        assert(keys[o[i]] == causal_key(s[o[i]]));
        assert(keys[o[j]] == causal_key(s[o[j]]));
        assert(!key_less(keys[o[j]], keys[o[i]]));
        if o[i] < o[j] {
            assert(id_of(s[o[i]]) != id_of(s[o[j]]));
        } else {
            assert(id_of(s[o[j]]) != id_of(s[o[i]]));
        }
        lemma_key_less_total(keys[o[i]], keys[o[j]]);
    }
    assert forall|x: SignedEventModel| #[trigger] a.contains(x) <==> s.contains(x) by {
        if a.contains(x) {
            let i = choose|i: int| 0 <= i < a.len() && a[i] == x;
            assert(s[o[i]] == x);
        }
        if s.contains(x) {
            let k = choose|k: int| 0 <= k < s.len() && s[k] == x;
            assert(o.contains(k));
            let i = choose|i: int| 0 <= i < o.len() && o[i] == k;
            assert(a[i] == x);
        }
    }
}

/// Two strictly increasing sequences holding the same events are the same.
proof fn lemma_sorted_unique(s1: Seq<SignedEventModel>, s2: Seq<SignedEventModel>)
    requires
        causally_sorted(s1),
        causally_sorted(s2),
        forall|x: SignedEventModel| s1.contains(x) <==> s2.contains(x),
    ensures
        s1 == s2,
    decreases s1.len(),
{
    if s1.len() == 0 {
        if s2.len() > 0 {
            assert(s2.contains(s2[0]));
        }
        assert(s1 =~= s2);
    } else if s2.len() == 0 {
        assert(s1.contains(s1[0]));
    } else {
        assert(s1.contains(s1[0]));
        assert(s2.contains(s2[0]));
        let k = choose|k: int| 0 <= k < s1.len() && s1[k] == s2[0];
        let m = choose|m: int| 0 <= m < s2.len() && s2[m] == s1[0];
        if k > 0 {
            if m > 0 {
                assert(key_less(causal_key(s1[0]), causal_key(s1[k])));
                assert(key_less(causal_key(s2[0]), causal_key(s2[m])));
                lemma_key_less_asymmetric(causal_key(s1[0]), causal_key(s2[0]));
            } else {
                assert(key_less(causal_key(s1[0]), causal_key(s1[k])));
                lemma_key_less_irreflexive(causal_key(s1[0]));
            }
        }
        assert(s1[0] == s2[0]);
        let t1 = s1.drop_first();
        let t2 = s2.drop_first();
        assert forall|x: SignedEventModel| t1.contains(x) <==> t2.contains(x) by {
            if t1.contains(x) {
                let i = choose|i: int| 0 <= i < t1.len() && t1[i] == x;
                assert(s1[i + 1] == x);
                assert(s2.contains(x));
                let j = choose|j: int| 0 <= j < s2.len() && s2[j] == x;
                if j == 0 {
                    assert(key_less(causal_key(s1[0]), causal_key(s1[i + 1])));
                    lemma_key_less_irreflexive(causal_key(s1[0]));
                }
                assert(t2[j - 1] == x);
            }
            if t2.contains(x) {
                let i = choose|i: int| 0 <= i < t2.len() && t2[i] == x;
                assert(s2[i + 1] == x);
                assert(s1.contains(x));
                let j = choose|j: int| 0 <= j < s1.len() && s1[j] == x;
                if j == 0 {
                    assert(key_less(causal_key(s2[0]), causal_key(s2[i + 1])));
                    lemma_key_less_irreflexive(causal_key(s2[0]));
                }
                assert(t1[j - 1] == x);
            }
        }
        assert forall|i: int, j: int| 0 <= i < j < t1.len() implies key_less(causal_key(#[trigger] t1[i]), causal_key(#[trigger] t1[j])) by {
            assert(t1[i] == s1[i + 1] && t1[j] == s1[j + 1]);
        }
        assert forall|i: int, j: int| 0 <= i < j < t2.len() implies key_less(causal_key(#[trigger] t2[i]), causal_key(#[trigger] t2[j])) by {
            assert(t2[i] == s2[i + 1] && t2[j] == s2[j + 1]);
        }
        lemma_sorted_unique(t1, t2);
        assert(s1 =~= seq![s1[0]] + t1);
        assert(s2 =~= seq![s2[0]] + t2);
    }
}

/// Every node shows a channel in the same order: two logs that hold the
/// same events, each without a repeated id, give the same causally ordered
/// history, whatever order the events arrived in.
pub proof fn law_history_is_independent_of_arrival(
    l1: Seq<SignedEventModel>,
    l2: Seq<SignedEventModel>,
    c: Seq<u8>,
    ch: Seq<u8>,
    o1: Seq<int>,
    o2: Seq<int>,
)
    requires
        ids_unique(l1),
        ids_unique(l2),
        forall|x: SignedEventModel| l1.contains(x) <==> l2.contains(x),
        is_stable_sort(causal_keys(channel_messages(l1, c, ch)), o1),
        is_stable_sort(causal_keys(channel_messages(l2, c, ch)), o2),
    ensures
        arranged(channel_messages(l1, c, ch), o1) == arranged(channel_messages(l2, c, ch), o2),
{
    lemma_channel_messages_members(l1, c, ch);
    lemma_channel_messages_members(l2, c, ch);
    lemma_sorted_arrangement(channel_messages(l1, c, ch), o1);
    lemma_sorted_arrangement(channel_messages(l2, c, ch), o2);
    let a1 = arranged(channel_messages(l1, c, ch), o1);
    let a2 = arranged(channel_messages(l2, c, ch), o2);
    assert forall|x: SignedEventModel| a1.contains(x) <==> a2.contains(x) by {
        assert(a1.contains(x) <==> channel_messages(l1, c, ch).contains(x));
        assert(a2.contains(x) <==> channel_messages(l2, c, ch).contains(x));
    }
    lemma_sorted_unique(a1, a2);
}

/// A community's events are events of that community the log holds.
proof fn lemma_community_events_held(log: Seq<SignedEventModel>, c: Seq<u8>)
    ensures
        forall|k: int|
            0 <= k < community_events(log, c).len() ==> community_in(#[trigger] community_events(log, c)[k]) == c
                && exists|i: int| 0 <= i < log.len() && log[i] == community_events(log, c)[k],
    decreases log.len(),
{
    if log.len() > 0 {
        let rest = log.drop_last();
        lemma_community_events_held(rest, c);
        let ce = community_events(rest, c);
        let all = community_events(log, c);
        assert forall|k: int| 0 <= k < all.len() implies community_in(#[trigger] all[k]) == c && exists|i: int|
            0 <= i < log.len() && log[i] == all[k] by {
            if k < ce.len() {
                assert(all[k] == ce[k]);
                let i = choose|i: int| 0 <= i < rest.len() && rest[i] == ce[k];
                assert(log[i] == rest[i]);
            } else {
                assert(all[k] == log[log.len() - 1]);
            }
        }
    }
}

/// Every event of a community the log holds is among its events.
proof fn lemma_community_events_complete(log: Seq<SignedEventModel>, c: Seq<u8>)
    ensures
        forall|i: int|
            0 <= i < log.len() && community_in(#[trigger] log[i]) == c ==> exists|x: int|
                0 <= x < community_events(log, c).len() && community_events(log, c)[x] == log[i],
    decreases log.len(),
{
    if log.len() > 0 {
        let rest = log.drop_last();
        lemma_community_events_complete(rest, c);
        let ce = community_events(rest, c);
        let all = community_events(log, c);
        assert forall|i: int| 0 <= i < log.len() && community_in(#[trigger] log[i]) == c implies exists|x: int|
            0 <= x < all.len() && all[x] == log[i] by {
            if i < log.len() - 1 {
                assert(log[i] == rest[i]);
                let x = choose|x: int| 0 <= x < ce.len() && ce[x] == rest[i];
                assert(all[x] == ce[x]);
            } else {
                assert(all[ce.len() as int] == log[i]);
            }
        }
    }
}

/// Nothing of `s` lies beyond `have` when `have` covers all of it.
proof fn lemma_nothing_uncovered(s: Seq<SignedEventModel>, have: Map<Seq<u8>, u64>)
    requires
        forall|i: int| 0 <= i < s.len() ==> covered(have, #[trigger] s[i]),
    ensures
        uncovered(s, have).len() == 0,
    decreases s.len(),
{
    if s.len() > 0 {
        assert(covered(have, s[s.len() - 1]));
        lemma_nothing_uncovered(s.drop_last(), have);
    }
}

/// A peer that is already up to date is sent nothing: everything a node
/// holds for a community lies within its own frontier, so the events it
/// would send against that frontier, in any causal arrangement, are none.
pub proof fn law_up_to_date_peer_is_sent_nothing(log: Seq<SignedEventModel>, c: Seq<u8>, o: Seq<int>)
    requires
        is_stable_sort(causal_keys(community_events(log, c)), o),
    ensures
        uncovered(arranged(community_events(log, c), o), pairs_max(chain_pairs(log, c))).len() == 0,
{
    let ce = community_events(log, c);
    let a = arranged(ce, o);
    lemma_community_events_held(log, c);
    assert forall|j: int| 0 <= j < a.len() implies covered(pairs_max(chain_pairs(log, c)), #[trigger] a[j]) by {
        let k = o[j];
        assert(0 <= k < ce.len());
        assert(a[j] == ce[k]);
        let i = choose|i: int| 0 <= i < log.len() && log[i] == ce[k];
        assert(in_slot(log[i], c, ce[k].event.author, ce[k].event.seq as int));
        lemma_held_below_max(log, c, ce[k].event.author, ce[k].event.seq as int);
    }
    lemma_nothing_uncovered(a, pairs_max(chain_pairs(log, c)));
}

/// Adding one more event to what is looked at adds it to what is not
/// covered, or not, and keeps what was there.
proof fn lemma_uncovered_step(s: Seq<SignedEventModel>, have: Map<Seq<u8>, u64>, i: int)
    requires
        0 <= i < s.len(),
    ensures
        covered(have, s[i]) ==> uncovered(s.take(i + 1), have) == uncovered(s.take(i), have),
        !covered(have, s[i]) ==> uncovered(s.take(i + 1), have) == uncovered(s.take(i), have).push(s[i]),
{
    assert(s.take(i + 1).drop_last() =~= s.take(i));
    assert(s.take(i + 1).last() == s[i]);
}

/// What is not covered among the first `i` events starts what is not
/// covered among the first `j`, for `i <= j`.
proof fn lemma_uncovered_grows(s: Seq<SignedEventModel>, have: Map<Seq<u8>, u64>, i: int, j: int)
    requires
        0 <= i <= j <= s.len(),
    ensures
        uncovered(s.take(i), have).len() <= uncovered(s.take(j), have).len(),
        uncovered(s.take(j), have).take(uncovered(s.take(i), have).len() as int) == uncovered(s.take(i), have),
    decreases j - i,
{
    if i == j {
        assert(uncovered(s.take(j), have).take(uncovered(s.take(i), have).len() as int) =~= uncovered(s.take(i), have));
    } else {
        lemma_uncovered_grows(s, have, i, j - 1);
        lemma_uncovered_step(s, have, j - 1);
        let u = uncovered(s.take(i), have);
        let v = uncovered(s.take(j - 1), have);
        let w = uncovered(s.take(j), have);
        assert(w.take(u.len() as int) =~= v.take(u.len() as int));
    }
}

/// The `k`th event not covered among the first `n` of `s` is `s[i]`.
pub open spec fn uncovered_from(s: Seq<SignedEventModel>, have: Map<Seq<u8>, u64>, n: int, k: int, i: int) -> bool {
    0 <= i < n && !covered(have, s[i]) && uncovered(s.take(i), have).len() == k && uncovered(s.take(n), have)[k] == s[i]
}

/// Which of the first `n` events of `s` is the `k`th that `have` does not
/// cover.
pub open spec fn uncovered_source(s: Seq<SignedEventModel>, have: Map<Seq<u8>, u64>, n: int, k: int) -> int {
    choose|i: int| uncovered_from(s, have, n, k, i)
}

/// Each event not covered among the first `n` is one of them, in the order
/// they came.
proof fn lemma_uncovered_sources(s: Seq<SignedEventModel>, have: Map<Seq<u8>, u64>, n: int)
    requires
        0 <= n <= s.len(),
    ensures
        forall|k: int|
            0 <= k < uncovered(s.take(n), have).len() ==> uncovered_from(s, have, n, k, #[trigger] uncovered_source(s, have, n, k)),
    decreases n,
{
    if n > 0 {
        lemma_uncovered_sources(s, have, n - 1);
        lemma_uncovered_step(s, have, n - 1);
        let v = uncovered(s.take(n - 1), have);
        let w = uncovered(s.take(n), have);
        assert forall|k: int| 0 <= k < w.len() implies uncovered_from(s, have, n, k, #[trigger] uncovered_source(s, have, n, k)) by {
            if k < v.len() {
                assert(w[k] == v[k]);
                let i = uncovered_source(s, have, n - 1, k);
                assert(uncovered_from(s, have, n - 1, k, i));
                assert(uncovered_from(s, have, n, k, i));
            } else {
                assert(w[k] == s[n - 1]);
                assert(uncovered_from(s, have, n, k, n - 1));
            }
        }
    } else {
        assert(s.take(0) =~= Seq::<SignedEventModel>::empty());
        assert(uncovered(s.take(0), have).len() == 0);
    }
}

/// Each chain's Lamport values rise: every event above position zero has a
/// higher one than the event just before it. Every honest author's next
/// event does, since it counts past everything its author has seen.
pub open spec fn lamports_rise(log: Seq<SignedEventModel>) -> bool {
    forall|i: int, j: int|
        0 <= i < log.len() && 0 <= j < log.len() && log[i].event.seq > 0 && #[trigger] in_slot(
            log[j],
            community_in(#[trigger] log[i]),
            log[i].event.author,
            log[i].event.seq - 1,
        ) ==> log[j].event.lamport < log[i].event.lamport
}

/// In a causal arrangement, an event with a smaller key comes first.
proof fn lemma_arranged_before(keys: Seq<KeyModel>, o: Seq<int>, jp: int, je: int)
    requires
        is_stable_sort(keys, o),
        0 <= jp < o.len(),
        0 <= je < o.len(),
        key_less(keys[o[jp]], keys[o[je]]),
    ensures
        jp < je,
{
    if je < jp {
        assert(!key_less(keys[o[jp]], keys[o[je]]));
    }
    if je == jp {
        lemma_key_less_irreflexive(keys[o[jp]]);
    }
}

/// An event not covered that comes earlier in `s` comes earlier among
/// those not covered.
proof fn lemma_uncovered_keeps_order(s: Seq<SignedEventModel>, have: Map<Seq<u8>, u64>, jp: int, je: int)
    requires
        0 <= jp < je <= s.len(),
        !covered(have, s[jp]),
    ensures
        uncovered(s.take(jp), have).len() < uncovered(s.take(je), have).len(),
        uncovered(s.take(jp), have).len() < uncovered(s, have).len(),
        uncovered(s, have)[uncovered(s.take(jp), have).len() as int] == s[jp],
{
    lemma_uncovered_step(s, have, jp);
    lemma_uncovered_grows(s, have, jp + 1, je);
    lemma_uncovered_grows(s, have, jp + 1, s.len() as int);
    assert(s.take(s.len() as int) =~= s);
    let kp = uncovered(s.take(jp), have).len() as int;
    assert(uncovered(s.take(jp + 1), have)[kp] == s[jp]);
}

/// Where the `k`th event sent sits in the log and in the arrangement.
proof fn lemma_locate_sent(log: Seq<SignedEventModel>, c: Seq<u8>, have: Map<Seq<u8>, u64>, o: Seq<int>, k: int) -> (r: (
    int,
    int,
))
    requires
        is_stable_sort(causal_keys(community_events(log, c)), o),
        0 <= k < uncovered(arranged(community_events(log, c), o), have).len(),
    ensures
        0 <= r.0 < o.len(),
        uncovered(arranged(community_events(log, c), o).take(r.0), have).len() == k,
        arranged(community_events(log, c), o)[r.0] == uncovered(arranged(community_events(log, c), o), have)[k],
        0 <= r.1 < log.len(),
        log[r.1] == uncovered(arranged(community_events(log, c), o), have)[k],
        community_in(log[r.1]) == c,
        community_events(log, c)[o[r.0]] == log[r.1],
        !covered(have, uncovered(arranged(community_events(log, c), o), have)[k]),
{
    let ce = community_events(log, c);
    let a = arranged(ce, o);
    assert(a.take(a.len() as int) =~= a);
    lemma_uncovered_sources(a, have, a.len() as int);
    let je = uncovered_source(a, have, a.len() as int, k);
    assert(uncovered_from(a, have, a.len() as int, k, je));
    let xe = o[je];
    assert(a[je] == ce[xe]);
    lemma_community_events_held(log, c);
    let ie = choose|i: int| 0 <= i < log.len() && log[i] == ce[xe];
    (je, ie)
}

/// The event just before a batch's `k`th in its chain is covered by what
/// the asking node holds, or comes earlier among what is sent.
proof fn lemma_batch_predecessor(
    log: Seq<SignedEventModel>,
    c: Seq<u8>,
    have: Map<Seq<u8>, u64>,
    o: Seq<int>,
    k: int,
)
    requires
        chains_gap_free(log),
        lamports_rise(log),
        is_stable_sort(causal_keys(community_events(log, c)), o),
        0 <= k < uncovered(arranged(community_events(log, c), o), have).len(),
        uncovered(arranged(community_events(log, c), o), have)[k].event.seq > 0,
    ensures
        ({
            let e = uncovered(arranged(community_events(log, c), o), have)[k];
            (have.contains_key(e.event.author) && have[e.event.author] >= e.event.seq - 1) || exists|k2: int|
                0 <= k2 < k && in_slot(
                    uncovered(arranged(community_events(log, c), o), have)[k2],
                    c,
                    e.event.author,
                    e.event.seq - 1,
                )
        }),
{
    let ce = community_events(log, c);
    let a = arranged(ce, o);
    let cand = uncovered(a, have);
    let e = cand[k];
    let n = e.event.seq;
    let au = e.event.author;
    let (je, ie) = lemma_locate_sent(log, c, have, o, k);
    assert(slot_taken(log, c, au, n - 1));
    let ip = choose|i: int| 0 <= i < log.len() && #[trigger] in_slot(log[i], c, au, n - 1);
    let p = log[ip];
    assert(in_slot(log[ip], community_in(log[ie]), log[ie].event.author, log[ie].event.seq - 1));
    assert(p.event.lamport < e.event.lamport);
    if !(have.contains_key(au) && have[au] >= n - 1) {
        assert(!covered(have, p));
        lemma_community_events_complete(log, c);
        let xp = choose|x: int| 0 <= x < ce.len() && ce[x] == log[ip];
        assert(o.contains(xp));
        let jp = choose|j: int| 0 <= j < o.len() && o[j] == xp;
        assert(a[jp] == p);
        let keys = causal_keys(ce);
        assert(keys[o[jp]] == (p.event.lamport, id_of(p), Seq::<u8>::empty()));
        assert(keys[o[je]] == (e.event.lamport, id_of(e), Seq::<u8>::empty()));
        lemma_arranged_before(keys, o, jp, je);
        lemma_uncovered_keeps_order(a, have, jp, je);
        let kp = uncovered(a.take(jp), have).len() as int;
        assert(cand[kp] == p);
        assert(in_slot(cand[kp], c, au, n - 1));
    }
}

/// A batch cut short still applies front to back: the event just before
/// each one sent, in its chain, is either covered by what the asking node
/// holds or sent earlier, so any first part of what would be sent can be
/// applied in order, and the receiver never holds a batch it cannot use.
/// This rests on each chain's Lamport values rising, which the store does
/// not check: an author who signs a later event with a lower one can make
/// a batch that does not apply in order.
pub proof fn law_truncated_delta_applies_in_order(
    log: Seq<SignedEventModel>,
    c: Seq<u8>,
    have: Map<Seq<u8>, u64>,
    o: Seq<int>,
)
    requires
        chains_gap_free(log),
        lamports_rise(log),
        is_stable_sort(causal_keys(community_events(log, c)), o),
    ensures
        forall|k: int|
            0 <= k < uncovered(arranged(community_events(log, c), o), have).len() && (#[trigger] uncovered(
                arranged(community_events(log, c), o),
                have,
            )[k]).event.seq > 0 ==> {
                let e = uncovered(arranged(community_events(log, c), o), have)[k];
                (have.contains_key(e.event.author) && have[e.event.author] >= e.event.seq - 1) || exists|k2: int|
                    0 <= k2 < k && in_slot(
                        uncovered(arranged(community_events(log, c), o), have)[k2],
                        c,
                        e.event.author,
                        e.event.seq - 1,
                    )
            },
{
    let cand = uncovered(arranged(community_events(log, c), o), have);
    assert forall|k: int| 0 <= k < cand.len() && (#[trigger] cand[k]).event.seq > 0 implies {
        let e = cand[k];
        (have.contains_key(e.event.author) && have[e.event.author] >= e.event.seq - 1) || exists|k2: int|
            0 <= k2 < k && in_slot(cand[k2], c, e.event.author, e.event.seq - 1)
    } by {
        lemma_batch_predecessor(log, c, have, o, k);
    }
}

/// Dropping the newest event keeps the chains unique, in arrival order, and
/// so gap-free.
proof fn lemma_prefix_keeps_order(log: Seq<SignedEventModel>)
    requires
        log.len() > 0,
        slots_unique(log),
        chains_in_order(log),
    ensures
        slots_unique(log.drop_last()),
        chains_in_order(log.drop_last()),
        chains_gap_free(log.drop_last()),
{
    let rest = log.drop_last();
    assert forall|i: int, j: int| 0 <= i < j < rest.len() implies !in_slot(
        #[trigger] rest[i],
        community_in(#[trigger] rest[j]),
        rest[j].event.author,
        rest[j].event.seq as int,
    ) by {
        assert(rest[i] == log[i] && rest[j] == log[j]);
    }
    assert forall|i: int| 0 <= i < rest.len() && (#[trigger] rest[i]).event.seq > 0 implies exists|j: int|
        0 <= j < i && #[trigger] in_slot(rest[j], community_in(rest[i]), rest[i].event.author, rest[i].event.seq - 1) by {
        assert(rest[i] == log[i]);
        let j = choose|j: int|
            0 <= j < i && #[trigger] in_slot(log[j], community_in(log[i]), log[i].event.author, log[i].event.seq - 1);
        assert(rest[j] == log[j]);
    }
    assert forall|k: int| 0 <= k < rest.len() && (#[trigger] rest[k]).event.seq > 0 implies slot_taken(
        rest,
        community_in(rest[k]),
        rest[k].event.author,
        rest[k].event.seq - 1,
    ) by {
        let j = choose|j: int|
            0 <= j < k && #[trigger] in_slot(rest[j], community_in(rest[k]), rest[k].event.author, rest[k].event.seq - 1);
    }
}

/// A community's frontier counts exactly the events held of it: in a log
/// whose chains arrived in order without a repeated position, the total of
/// any sorted entries that describe the community's frontier is the number of
/// the community's events.
#[verifier::spinoff_prover]
#[verifier::rlimit(40)]
pub proof fn law_frontier_total_counts_the_community(log: Seq<SignedEventModel>, c: Seq<u8>, p: Seq<(Seq<u8>, u64)>)
    requires
        slots_unique(log),
        chains_in_order(log),
        sorted_keys(p),
        frontier_map(p) == pairs_max(chain_pairs(log, c)),
    ensures
        total_of(p) == community_events(log, c).len(),
    decreases log.len(),
{
    if log.len() == 0 {
        if p.len() > 0 {
            lemma_frontier_map_at(p, 0);
        }
    } else {
        let rest = log.drop_last();
        let e = log.last();
        let last = log.len() - 1;
        assert(log[last] == e);
        lemma_prefix_keeps_order(log);
        if community_in(e) != c {
            law_frontier_total_counts_the_community(rest, c, p);
        } else {
            let a = e.event.author;
            let n = e.event.seq;
            let m0 = pairs_max(chain_pairs(rest, c));
            assert(chain_pairs(log, c).drop_last() =~= chain_pairs(rest, c));
            assert(pairs_max(chain_pairs(log, c)) == crate::proto::frontier::observed(m0, a, n));
            assert(frontier_map(p).contains_key(a));
            let i = choose|i: int| 0 <= i < p.len() && #[trigger] p[i].0 == a;
            lemma_frontier_map_at(p, i);
            if n > 0 {
                let j = choose|j: int| 0 <= j < last && #[trigger] in_slot(log[j], c, a, n - 1);
                assert(rest[j] == log[j]);
                assert(in_slot(rest[j], c, a, n - 1));
                lemma_held_below_max(rest, c, a, n - 1);
            }
            if m0.contains_key(a) {
                let m = m0[a];
                lemma_frontier_value_held(rest, c, a);
                lemma_slots_below(rest, c, a, m as int);
                if n <= m {
                    assert(slot_taken(rest, c, a, n as int));
                    let j = choose|j: int| 0 <= j < rest.len() && #[trigger] in_slot(rest[j], c, a, n as int);
                    assert(log[j] == rest[j]);
                    assert(!in_slot(log[j], community_in(log[last]), log[last].event.author, log[last].event.seq as int));
                }
                assert(n == m + 1);
                let q = p.update(i, (a, m));
                lemma_update_map(p, i, m);
                assert(frontier_map(q) =~= m0);
                lemma_total_update(p, i, m);
                law_frontier_total_counts_the_community(rest, c, q);
            } else {
                assert(n == 0);
                let q = p.remove(i);
                lemma_remove_map(p, i);
                assert(frontier_map(q) =~= m0);
                lemma_total_remove(p, i);
                law_frontier_total_counts_the_community(rest, c, q);
            }
        }
    }
}

/// An event not covered appears among what is sent.
proof fn lemma_uncovered_includes(s: Seq<SignedEventModel>, have: Map<Seq<u8>, u64>, j: int) -> (k: int)
    requires
        0 <= j < s.len(),
        !covered(have, s[j]),
    ensures
        0 <= k < uncovered(s, have).len(),
        uncovered(s, have)[k] == s[j],
{
    lemma_uncovered_step(s, have, j);
    lemma_uncovered_grows(s, have, j + 1, s.len() as int);
    assert(s.take(s.len() as int) =~= s);
    let k = uncovered(s.take(j), have).len() as int;
    assert(uncovered(s, have).take(k + 1)[k] == s[j]);
    k
}

/// The positions held after appending events are those held before and
/// those the appended events take.
proof fn lemma_appended_slots(mine: Seq<SignedEventModel>, more: Seq<SignedEventModel>, c: Seq<u8>, u: Seq<u8>, n: int)
    ensures
        slot_taken(mine + more, c, u, n) <==> slot_taken(mine, c, u, n) || exists|j: int|
            0 <= j < more.len() && #[trigger] in_slot(more[j], c, u, n),
{
    let l = mine + more;
    if slot_taken(l, c, u, n) {
        let i = choose|i: int| 0 <= i < l.len() && #[trigger] in_slot(l[i], c, u, n);
        if i < mine.len() {
            assert(l[i] == mine[i]);
        } else {
            assert(l[i] == more[i - mine.len()]);
            assert(in_slot(more[i - mine.len()], c, u, n));
        }
    }
    if slot_taken(mine, c, u, n) {
        let i = choose|i: int| 0 <= i < mine.len() && #[trigger] in_slot(mine[i], c, u, n);
        assert(l[i] == mine[i]);
    }
    if exists|j: int| 0 <= j < more.len() && #[trigger] in_slot(more[j], c, u, n) {
        let j = choose|j: int| 0 <= j < more.len() && #[trigger] in_slot(more[j], c, u, n);
        assert(l[mine.len() + j] == more[j]);
    }
}

/// Catching up never takes a node past the one it asks: whatever part of an
/// answer it has applied, every chain position it holds is one the answering
/// node holds too, so it can ask again.
proof fn lemma_applied_answer_is_held_there(
    mine: Seq<SignedEventModel>,
    theirs: Seq<SignedEventModel>,
    c: Seq<u8>,
    o: Seq<int>,
    n: int,
    u: Seq<u8>,
    k: int,
)
    requires
        forall|u: Seq<u8>, k: int| #[trigger] slot_taken(mine, c, u, k) ==> slot_taken(theirs, c, u, k),
        is_stable_sort(causal_keys(community_events(theirs, c)), o),
        0 <= n <= uncovered(arranged(community_events(theirs, c), o), pairs_max(chain_pairs(mine, c))).len(),
        slot_taken(
            mine + uncovered(arranged(community_events(theirs, c), o), pairs_max(chain_pairs(mine, c))).take(n),
            c,
            u,
            k,
        ),
    ensures
        slot_taken(theirs, c, u, k),
{
    let have = pairs_max(chain_pairs(mine, c));
    let sent = uncovered(arranged(community_events(theirs, c), o), have);
    let part = sent.take(n);
    lemma_appended_slots(mine, part, c, u, k);
    if !slot_taken(mine, c, u, k) {
        let j = choose|j: int| 0 <= j < part.len() && #[trigger] in_slot(part[j], c, u, k);
        let r = lemma_locate_sent(theirs, c, have, o, j);
        assert(part[j] == sent[j]);
        assert(in_slot(theirs[r.1], c, u, k));
    }
}

/// Sync converges: when every chain position a node holds of a community is
/// also held by the node it asks, applying the whole answer (each event
/// accepted, so appended in the order sent) leaves it with the same
/// frontier as the node that answered; and applying any part of the answer
/// keeps every position it holds among the answering node's, so asking
/// again, until an answer is complete, ends level.
pub proof fn law_sync_converges(mine: Seq<SignedEventModel>, theirs: Seq<SignedEventModel>, c: Seq<u8>, o: Seq<int>)
    requires
        forall|u: Seq<u8>, k: int| #[trigger] slot_taken(mine, c, u, k) ==> slot_taken(theirs, c, u, k),
        is_stable_sort(causal_keys(community_events(theirs, c)), o),
    ensures
        ({
            let sent = uncovered(arranged(community_events(theirs, c), o), pairs_max(chain_pairs(mine, c)));
            &&& pairs_max(chain_pairs(mine + sent, c)) == pairs_max(chain_pairs(theirs, c))
            &&& forall|n: int, u: Seq<u8>, k: int|
                0 <= n <= sent.len() && #[trigger] slot_taken(mine + sent.take(n), c, u, k) ==> slot_taken(
                    theirs,
                    c,
                    u,
                    k,
                )
        }),
{
    let have = pairs_max(chain_pairs(mine, c));
    let ce = community_events(theirs, c);
    let a = arranged(ce, o);
    let sent = uncovered(a, have);
    let l = mine + sent;
    assert forall|n: int, u: Seq<u8>, k: int|
        0 <= n <= sent.len() && #[trigger] slot_taken(mine + sent.take(n), c, u, k) implies slot_taken(theirs, c, u, k) by {
        lemma_applied_answer_is_held_there(mine, theirs, c, o, n, u, k);
    }
    assert(sent.take(sent.len() as int) =~= sent);
    let left = pairs_max(chain_pairs(l, c));
    let right = pairs_max(chain_pairs(theirs, c));
    assert forall|u: Seq<u8>| #[trigger] left.contains_key(u) implies right.contains_key(u) && left[u] <= right[u] by {
        lemma_frontier_value_held(l, c, u);
        assert(slot_taken(mine + sent.take(sent.len() as int), c, u, left[u] as int));
        lemma_held_below_max(theirs, c, u, left[u] as int);
    }
    lemma_community_events_complete(theirs, c);
    assert forall|u: Seq<u8>| #[trigger] right.contains_key(u) implies left.contains_key(u) && right[u] <= left[u] by {
        let top = right[u] as int;
        lemma_frontier_value_held(theirs, c, u);
        let i = choose|i: int| 0 <= i < theirs.len() && #[trigger] in_slot(theirs[i], c, u, top);
        let x = choose|x: int| 0 <= x < ce.len() && ce[x] == theirs[i];
        assert(o.contains(x));
        let j = choose|j: int| 0 <= j < o.len() && o[j] == x;
        assert(a[j] == ce[x]);
        if covered(have, a[j]) {
            lemma_frontier_value_held(mine, c, u);
            lemma_appended_slots(mine, sent, c, u, have[u] as int);
            lemma_held_below_max(l, c, u, have[u] as int);
        } else {
            let k = lemma_uncovered_includes(a, have, j);
            assert(in_slot(sent[k], c, u, top));
            lemma_appended_slots(mine, sent, c, u, top);
            lemma_held_below_max(l, c, u, top);
        }
    }
    assert(left =~= right);
}

/// Putting events one after another, each accepted as new, appends them in
/// that order.
proof fn lemma_accepted_in_turn(logs: Seq<Seq<SignedEventModel>>, d: Seq<SignedEventModel>, rs: Seq<Result<Inserted, StoreError>>)
    requires
        logs.len() == d.len() + 1,
        rs.len() == d.len(),
        forall|i: int| 0 <= i < d.len() ==> #[trigger] put_result(logs[i], d[i], rs[i], logs[i + 1]),
        forall|i: int| 0 <= i < d.len() ==> #[trigger] rs[i] == Ok::<Inserted, StoreError>(Inserted::New),
    ensures
        logs.last() == logs[0] + d,
    decreases d.len(),
{
    if d.len() == 0 {
        assert(logs[0] + d =~= logs[0]);
    } else {
        let n = d.len() - 1;
        assert(put_result(logs[n], d[n], rs[n], logs[n + 1]));
        assert(rs[n] == Ok::<Inserted, StoreError>(Inserted::New));
        lemma_accepted_in_turn(logs.drop_last(), d.drop_last(), rs.drop_last());
        assert(logs.drop_last().last() == logs[n]);
        assert(logs[0] + d =~= (logs[0] + d.drop_last()).push(d[n]));
    }
}

/// Sync converges at the store: when every chain position a node holds of
/// a community is also held by the node it asks, and the answer to its
/// frontier (as `delta` gives it) is complete, putting the answer's events
/// in turn, each accepted, leaves it with the asked node's frontier.
pub proof fn law_complete_answer_levels_the_store(
    mine: Seq<SignedEventModel>,
    theirs: Seq<SignedEventModel>,
    c: Seq<u8>,
    o: Seq<int>,
    d: Seq<SignedEventModel>,
    logs: Seq<Seq<SignedEventModel>>,
    rs: Seq<Result<Inserted, StoreError>>,
)
    requires
        forall|u: Seq<u8>, k: int| #[trigger] slot_taken(mine, c, u, k) ==> slot_taken(theirs, c, u, k),
        is_stable_sort(causal_keys(community_events(theirs, c)), o),
        d == uncovered(arranged(community_events(theirs, c), o), pairs_max(chain_pairs(mine, c))),
        logs.len() == d.len() + 1,
        rs.len() == d.len(),
        logs[0] == mine,
        forall|i: int| 0 <= i < d.len() ==> #[trigger] put_result(logs[i], d[i], rs[i], logs[i + 1]),
        forall|i: int| 0 <= i < d.len() ==> #[trigger] rs[i] == Ok::<Inserted, StoreError>(Inserted::New),
    ensures
        pairs_max(chain_pairs(logs.last(), c)) == pairs_max(chain_pairs(theirs, c)),
{
    lemma_accepted_in_turn(logs, d, rs);
    law_sync_converges(mine, theirs, c, o);
}

/// A community's events, in a log without a repeated id, repeat no id
/// either.
proof fn lemma_community_events_ids_unique(log: Seq<SignedEventModel>, c: Seq<u8>)
    requires
        ids_unique(log),
    ensures
        ids_unique(community_events(log, c)),
    decreases log.len(),
{
    if log.len() > 0 {
        let rest = log.drop_last();
        assert forall|i: int, j: int| 0 <= i < j < rest.len() implies id_of(#[trigger] rest[i]) != id_of(#[trigger] rest[j]) by {
            assert(rest[i] == log[i] && rest[j] == log[j]);
        }
        lemma_community_events_ids_unique(rest, c);
        lemma_community_events_held(rest, c);
        let ce = community_events(rest, c);
        let all = community_events(log, c);
        if community_in(log.last()) == c {
            assert forall|i: int, j: int| 0 <= i < j < all.len() implies id_of(#[trigger] all[i]) != id_of(#[trigger] all[j]) by {
                if j < ce.len() {
                    assert(all[i] == ce[i] && all[j] == ce[j]);
                } else {
                    assert(all[i] == ce[i]);
                    let x = choose|x: int| 0 <= x < rest.len() && rest[x] == ce[i];
                    assert(log[x] == rest[x]);
                    assert(all[j] == log[log.len() - 1]);
                }
            }
        }
    }
}

/// Two different places in what is sent hold different events.
proof fn lemma_sent_distinct(log: Seq<SignedEventModel>, c: Seq<u8>, have: Map<Seq<u8>, u64>, o: Seq<int>, k: int, n: int)
    requires
        ids_unique(log),
        is_stable_sort(causal_keys(community_events(log, c)), o),
        0 <= k < n < uncovered(arranged(community_events(log, c), o), have).len(),
    ensures
        uncovered(arranged(community_events(log, c), o), have)[k] != uncovered(arranged(community_events(log, c), o), have)[n],
{
    let ce = community_events(log, c);
    let sent = uncovered(arranged(ce, o), have);
    let rk = lemma_locate_sent(log, c, have, o, k);
    let rn = lemma_locate_sent(log, c, have, o, n);
    if sent[k] == sent[n] {
        lemma_community_events_ids_unique(log, c);
        let xk = o[rk.0];
        let xn = o[rn.0];
        if xk < xn {
            assert(id_of(ce[xk]) != id_of(ce[xn]));
        } else if xn < xk {
            assert(id_of(ce[xn]) != id_of(ce[xk]));
        }
        if rk.0 < rn.0 {
            assert(o[rk.0] != o[rn.0]);
        } else if rn.0 < rk.0 {
            assert(o[rn.0] != o[rk.0]);
        }
    }
}

/// An event a log without a repeated position holds is the one it holds at
/// that position.
proof fn lemma_held_at_slot(log: Seq<SignedEventModel>, x: SignedEventModel, i: int)
    requires
        slots_unique(log),
        log.contains(x),
        0 <= i < log.len(),
        in_slot(x, community_in(log[i]), log[i].event.author, log[i].event.seq as int),
    ensures
        x == log[i],
{
    let j = choose|j: int| 0 <= j < log.len() && log[j] == x;
    if j < i {
        assert(!in_slot(log[j], community_in(log[i]), log[i].event.author, log[i].event.seq as int));
    } else if i < j {
        assert(!in_slot(log[i], community_in(log[j]), log[j].event.author, log[j].event.seq as int));
    }
}

/// What the asking node's log holds of the community, and every event
/// already applied from the answer, is held by the answering node.
proof fn lemma_applied_held_there(
    mine: Seq<SignedEventModel>,
    theirs: Seq<SignedEventModel>,
    c: Seq<u8>,
    o: Seq<int>,
    n: int,
    i: int,
)
    requires
        forall|i: int| 0 <= i < mine.len() && community_in(#[trigger] mine[i]) == c ==> theirs.contains(mine[i]),
        is_stable_sort(causal_keys(community_events(theirs, c)), o),
        0 <= n <= uncovered(arranged(community_events(theirs, c), o), pairs_max(chain_pairs(mine, c))).len(),
        0 <= i < mine.len() + n,
        community_in((mine + uncovered(arranged(community_events(theirs, c), o), pairs_max(chain_pairs(mine, c))).take(n))[i]) == c,
    ensures
        theirs.contains((mine + uncovered(arranged(community_events(theirs, c), o), pairs_max(chain_pairs(mine, c))).take(n))[i]),
{
    let have = pairs_max(chain_pairs(mine, c));
    let sent = uncovered(arranged(community_events(theirs, c), o), have);
    let before = mine + sent.take(n);
    if i < mine.len() {
        assert(before[i] == mine[i]);
    } else {
        assert(before[i] == sent[i - mine.len()]);
        let r = lemma_locate_sent(theirs, c, have, o, i - mine.len());
        assert(theirs[r.1] == before[i]);
    }
}

/// The next event of the answer is not yet held where it is applied.
proof fn lemma_next_is_new(
    mine: Seq<SignedEventModel>,
    theirs: Seq<SignedEventModel>,
    c: Seq<u8>,
    o: Seq<int>,
    n: int,
    i: int,
)
    requires
        ids_unique(theirs),
        is_stable_sort(causal_keys(community_events(theirs, c)), o),
        0 <= n < uncovered(arranged(community_events(theirs, c), o), pairs_max(chain_pairs(mine, c))).len(),
        0 <= i < mine.len() + n,
    ensures
        (mine + uncovered(arranged(community_events(theirs, c), o), pairs_max(chain_pairs(mine, c))).take(n))[i]
            != uncovered(arranged(community_events(theirs, c), o), pairs_max(chain_pairs(mine, c)))[n],
{
    let have = pairs_max(chain_pairs(mine, c));
    let sent = uncovered(arranged(community_events(theirs, c), o), have);
    let before = mine + sent.take(n);
    let e = sent[n];
    let r = lemma_locate_sent(theirs, c, have, o, n);
    if i < mine.len() {
        assert(before[i] == mine[i]);
        if mine[i] == e {
            assert(in_slot(mine[i], c, e.event.author, e.event.seq as int));
            lemma_held_below_max(mine, c, e.event.author, e.event.seq as int);
        }
    } else {
        assert(before[i] == sent[i - mine.len()]);
        lemma_sent_distinct(theirs, c, have, o, i - mine.len(), n);
    }
}

/// Where the next event of the answer is applied, its community is known:
/// its genesis is held already or came earlier in the answer.
proof fn lemma_next_has_its_community(
    mine: Seq<SignedEventModel>,
    theirs: Seq<SignedEventModel>,
    c: Seq<u8>,
    o: Seq<int>,
    n: int,
)
    requires
        slots_unique(theirs),
        chains_gap_free(mine),
        knows_community(theirs, c),
        forall|i: int, j: int|
            #![trigger is_genesis_at(theirs, j, c), theirs[i]]
            0 <= i < theirs.len() && 0 <= j < theirs.len() && is_genesis_at(theirs, j, c) && community_in(theirs[i]) == c
                && !is_genesis_payload(theirs[i].event.payload) ==> theirs[j].event.lamport < theirs[i].event.lamport,
        forall|i: int| 0 <= i < mine.len() && community_in(#[trigger] mine[i]) == c ==> theirs.contains(mine[i]),
        is_stable_sort(causal_keys(community_events(theirs, c)), o),
        0 <= n < uncovered(arranged(community_events(theirs, c), o), pairs_max(chain_pairs(mine, c))).len(),
        !is_genesis_payload(uncovered(arranged(community_events(theirs, c), o), pairs_max(chain_pairs(mine, c)))[n].event.payload),
    ensures
        knows_community(mine + uncovered(arranged(community_events(theirs, c), o), pairs_max(chain_pairs(mine, c))).take(n), c),
{
    let have = pairs_max(chain_pairs(mine, c));
    let ce = community_events(theirs, c);
    let a = arranged(ce, o);
    let sent = uncovered(a, have);
    let before = mine + sent.take(n);
    let e = sent[n];
    let (je, ie) = lemma_locate_sent(theirs, c, have, o, n);
    let jg = choose|j: int| 0 <= j < theirs.len() && #[trigger] is_genesis_at(theirs, j, c);
    let g = theirs[jg];
    assert(theirs[ie] == e);
    assert(g.event.lamport < e.event.lamport);
    assert(community_in(g) == c);
    if covered(have, g) {
        lemma_frontier_value_held(mine, c, g.event.author);
        lemma_slots_below(mine, c, g.event.author, have[g.event.author] as int);
        assert(slot_taken(mine, c, g.event.author, g.event.seq as int));
        let im = choose|i: int| 0 <= i < mine.len() && #[trigger] in_slot(mine[i], c, g.event.author, g.event.seq as int);
        assert(theirs.contains(mine[im]));
        lemma_held_at_slot(theirs, mine[im], jg);
        assert(before[im] == mine[im]);
        assert(is_genesis_at(before, im, c));
    } else {
        lemma_community_events_complete(theirs, c);
        let xg = choose|x: int| 0 <= x < ce.len() && ce[x] == g;
        assert(o.contains(xg));
        let jp = choose|j: int| 0 <= j < o.len() && o[j] == xg;
        assert(a[jp] == g);
        let keys = causal_keys(ce);
        assert(keys[o[jp]] == (g.event.lamport, id_of(g), Seq::<u8>::empty()));
        assert(keys[o[je]] == (e.event.lamport, id_of(e), Seq::<u8>::empty()));
        lemma_arranged_before(keys, o, jp, je);
        lemma_uncovered_keeps_order(a, have, jp, je);
        let kg = uncovered(a.take(jp), have).len() as int;
        assert(sent[kg] == g);
        assert(before[mine.len() + kg] == g);
        assert(is_genesis_at(before, mine.len() + kg, c));
    }
}

/// The next event of the answer is not held yet, by id or by chain
/// position, where it is applied.
#[verifier::spinoff_prover]
#[verifier::rlimit(30)]
proof fn lemma_next_is_free(mine: Seq<SignedEventModel>, theirs: Seq<SignedEventModel>, c: Seq<u8>, o: Seq<int>, n: int)
    requires
        ids_unique(theirs),
        slots_unique(theirs),
        chains_gap_free(theirs),
        chains_linked(theirs),
        lamports_rise(theirs),
        chains_gap_free(mine),
        forall|i: int| 0 <= i < mine.len() && community_in(#[trigger] mine[i]) == c ==> theirs.contains(mine[i]),
        forall|i: int, j: int|
            0 <= i < mine.len() && 0 <= j < theirs.len() && id_of(#[trigger] mine[i]) == id_of(#[trigger] theirs[j])
                ==> mine[i] == theirs[j],
        is_stable_sort(causal_keys(community_events(theirs, c)), o),
        0 <= n < uncovered(arranged(community_events(theirs, c), o), pairs_max(chain_pairs(mine, c))).len(),
    ensures
        !holds_id(mine + uncovered(arranged(community_events(theirs, c), o), pairs_max(chain_pairs(mine, c))).take(n), id_of(uncovered(arranged(community_events(theirs, c), o), pairs_max(chain_pairs(mine, c)))[n])),
        !slot_taken(
            mine + uncovered(arranged(community_events(theirs, c), o), pairs_max(chain_pairs(mine, c))).take(n),
            c,
            uncovered(arranged(community_events(theirs, c), o), pairs_max(chain_pairs(mine, c)))[n].event.author,
            uncovered(arranged(community_events(theirs, c), o), pairs_max(chain_pairs(mine, c)))[n].event.seq as int,
        ),
{
    let have = pairs_max(chain_pairs(mine, c));
    let sent = uncovered(arranged(community_events(theirs, c), o), have);
    let before = mine + sent.take(n);
    let e = sent[n];
    let au = e.event.author;
    let sq = e.event.seq;
    let (je, ie) = lemma_locate_sent(theirs, c, have, o, n);
    assert(theirs[ie] == e);
    assert(!holds_id(before, id_of(e))) by {
        if holds_id(before, id_of(e)) {
            let i = choose|i: int| 0 <= i < before.len() && id_of(#[trigger] before[i]) == id_of(e);
            lemma_next_is_new(mine, theirs, c, o, n, i);
            if i < mine.len() {
                assert(before[i] == mine[i]);
                assert(id_of(mine[i]) == id_of(theirs[ie]));
            } else {
                assert(before[i] == sent[i - mine.len()]);
                let rk = lemma_locate_sent(theirs, c, have, o, i - mine.len());
                if rk.1 < ie {
                    assert(id_of(theirs[rk.1]) != id_of(theirs[ie]));
                } else if ie < rk.1 {
                    assert(id_of(theirs[ie]) != id_of(theirs[rk.1]));
                }
            }
        }
    }
    assert(!slot_taken(before, c, au, sq as int)) by {
        if slot_taken(before, c, au, sq as int) {
            let i = choose|i: int| 0 <= i < before.len() && #[trigger] in_slot(before[i], c, au, sq as int);
            lemma_applied_held_there(mine, theirs, c, o, n, i);
            lemma_held_at_slot(theirs, before[i], ie);
            lemma_next_is_new(mine, theirs, c, o, n, i);
        }
    }
}

/// Where the next event of the answer is applied, the place before it in
/// its chain is held, by the event it names.
proof fn lemma_next_follows_its_chain(
    mine: Seq<SignedEventModel>,
    theirs: Seq<SignedEventModel>,
    c: Seq<u8>,
    o: Seq<int>,
    n: int,
)
    requires
        ids_unique(theirs),
        slots_unique(theirs),
        chains_gap_free(theirs),
        chains_linked(theirs),
        lamports_rise(theirs),
        chains_gap_free(mine),
        forall|i: int| 0 <= i < mine.len() && community_in(#[trigger] mine[i]) == c ==> theirs.contains(mine[i]),
        forall|i: int, j: int|
            0 <= i < mine.len() && 0 <= j < theirs.len() && id_of(#[trigger] mine[i]) == id_of(#[trigger] theirs[j])
                ==> mine[i] == theirs[j],
        is_stable_sort(causal_keys(community_events(theirs, c)), o),
        0 <= n < uncovered(arranged(community_events(theirs, c), o), pairs_max(chain_pairs(mine, c))).len(),
        uncovered(arranged(community_events(theirs, c), o), pairs_max(chain_pairs(mine, c)))[n].event.seq > 0,
    ensures
        ({
            let before = mine + uncovered(arranged(community_events(theirs, c), o), pairs_max(chain_pairs(mine, c))).take(n);
            let e = uncovered(arranged(community_events(theirs, c), o), pairs_max(chain_pairs(mine, c)))[n];
            &&& slot_taken(before, c, e.event.author, e.event.seq - 1)
            &&& Some(id_of(before[slot_index(before, c, e.event.author, e.event.seq - 1)])) == e.event.prev_self
        }),
{
    let have = pairs_max(chain_pairs(mine, c));
    let sent = uncovered(arranged(community_events(theirs, c), o), have);
    let before = mine + sent.take(n);
    let e = sent[n];
    let au = e.event.author;
    let sq = e.event.seq;
    let (je, ie) = lemma_locate_sent(theirs, c, have, o, n);
    assert(theirs[ie] == e);
    lemma_batch_predecessor(theirs, c, have, o, n);
    if have.contains_key(au) && have[au] >= sq - 1 {
        lemma_frontier_value_held(mine, c, au);
        lemma_slots_below(mine, c, au, have[au] as int);
        assert(slot_taken(mine, c, au, sq - 1));
        let im = choose|i: int| 0 <= i < mine.len() && #[trigger] in_slot(mine[i], c, au, sq - 1);
        assert(before[im] == mine[im]);
        assert(in_slot(before[im], c, au, sq - 1));
    } else {
        let k2 = choose|k2: int| 0 <= k2 < n && in_slot(sent[k2], c, au, sq - 1);
        assert(before[mine.len() + k2] == sent[k2]);
        assert(in_slot(before[mine.len() + k2], c, au, sq - 1));
    }
    assert(slot_taken(before, c, au, sq - 1));
    let ib = slot_index(before, c, au, sq - 1);
    assert(in_slot(before[ib], c, au, sq - 1));
    lemma_applied_held_there(mine, theirs, c, o, n, ib);
    assert(slot_taken(theirs, c, au, sq - 1));
    let it = slot_index(theirs, c, au, sq - 1);
    assert(in_slot(theirs[it], c, au, sq - 1));
    lemma_held_at_slot(theirs, before[ib], it);
    assert(e.event.prev_self == Some(id_of(theirs[it])));
}

/// An answer is applied in full: every event of it, put in turn into the
/// asking node's log, is accepted as new (never a gap, an unknown community,
/// a clash or a broken link). This holds when the answering node's log is a
/// store log whose Lamport values rise along each chain and past the
/// community's genesis, and the asking node's log holds, of the community,
/// only events the answering node holds, with its chains gap-free, and names
/// no event by an id the answering node uses for another.
pub proof fn law_answer_is_accepted_in_turn(
    mine: Seq<SignedEventModel>,
    theirs: Seq<SignedEventModel>,
    c: Seq<u8>,
    o: Seq<int>,
    n: int,
)
    requires
        ids_unique(theirs),
        slots_unique(theirs),
        chains_gap_free(theirs),
        chains_linked(theirs),
        lamports_rise(theirs),
        chains_gap_free(mine),
        forall|i: int| 0 <= i < mine.len() && community_in(#[trigger] mine[i]) == c ==> theirs.contains(mine[i]),
        forall|i: int, j: int|
            0 <= i < mine.len() && 0 <= j < theirs.len() && id_of(#[trigger] mine[i]) == id_of(#[trigger] theirs[j])
                ==> mine[i] == theirs[j],
        is_stable_sort(causal_keys(community_events(theirs, c)), o),
        0 <= n < uncovered(arranged(community_events(theirs, c), o), pairs_max(chain_pairs(mine, c))).len(),
        all_verified(theirs),
        knows_community(theirs, c),
        forall|i: int, j: int|
            #![trigger is_genesis_at(theirs, j, c), theirs[i]]
            0 <= i < theirs.len() && 0 <= j < theirs.len() && is_genesis_at(theirs, j, c) && community_in(theirs[i]) == c
                && !is_genesis_payload(theirs[i].event.payload) ==> theirs[j].event.lamport < theirs[i].event.lamport,
    ensures
        ({
            let sent = uncovered(arranged(community_events(theirs, c), o), pairs_max(chain_pairs(mine, c)));
            let before = mine + sent.take(n);
            forall|r: Result<Inserted, StoreError>, after: Seq<SignedEventModel>|
                #[trigger] put_result(before, sent[n], r, after) ==> r == Ok::<Inserted, StoreError>(Inserted::New)
                    && after == before.push(sent[n])
        }),
{
    let have = pairs_max(chain_pairs(mine, c));
    let sent = uncovered(arranged(community_events(theirs, c), o), have);
    let before = mine + sent.take(n);
    let e = sent[n];
    let (je, ie) = lemma_locate_sent(theirs, c, have, o, n);
    assert(theirs[ie] == e);
    lemma_next_is_free(mine, theirs, c, o, n);
    if !is_genesis_payload(e.event.payload) {
        lemma_next_has_its_community(mine, theirs, c, o, n);
    }
    if e.event.seq > 0 {
        lemma_next_follows_its_chain(mine, theirs, c, o, n);
    }
    assert(admission(before, e) == Admission::Accept);
}

} // verus!
