//! What a node already has, expressed compactly enough to put in one packet.
//!
//! Because each author's events form a gap-free chain numbered from zero,
//! "everything I hold from alice" collapses to a single number: her highest
//! sequence. A [`Frontier`] is one such number per author: a version vector.
//!
//! A node that has been offline sends its frontier; a peer replies with every
//! event the frontier does not cover. Nothing is re-sent, nothing is missed,
//! and the request stays a few dozen bytes per member no matter how much
//! history exists.

use vstd::prelude::*;

use crate::proto::codec::{enc_bytes, enc_list, enc_seq, lemma_enc_seq_push, put_bytes, put_varint, varint};
use crate::proto::ids::{
    bytes_less, lemma_bytes_less_irreflexive, lemma_bytes_less_total, lemma_bytes_less_transitive,
    UserId,
};

verus! {

/// Every author sorts strictly before every later one, so no author occurs
/// twice.
pub open spec fn sorted_keys(s: Seq<(Seq<u8>, u64)>) -> bool {
    forall|i: int, j: int| 0 <= i < j < s.len() ==> bytes_less(#[trigger] s[i].0, #[trigger] s[j].0)
}

/// The entries as a map from author to highest sequence.
pub open spec fn frontier_map(s: Seq<(Seq<u8>, u64)>) -> Map<Seq<u8>, u64> {
    Map::new(
        |k: Seq<u8>| exists|i: int| 0 <= i < s.len() && #[trigger] s[i].0 == k,
        |k: Seq<u8>| s[position_of(s, k)].1,
    )
}

/// Where author `k` sits among the entries.
pub open spec fn position_of(s: Seq<(Seq<u8>, u64)>, k: Seq<u8>) -> int {
    choose|i: int| 0 <= i < s.len() && #[trigger] s[i].0 == k
}

/// `m` after recording `seq` for `user`: the higher of the two values.
pub open spec fn observed(m: Map<Seq<u8>, u64>, user: Seq<u8>, seq: u64) -> Map<Seq<u8>, u64> {
    m.insert(user, if m.contains_key(user) && m[user] > seq { m[user] } else { seq })
}

/// The frontier that a list of pairs describes: the highest sequence per
/// author, pairs taken in order.
pub open spec fn pairs_max(s: Seq<(Seq<u8>, u64)>) -> Map<Seq<u8>, u64>
    decreases s.len(),
{
    if s.len() == 0 {
        Map::empty()
    } else {
        observed(pairs_max(s.drop_last()), s.last().0, s.last().1)
    }
}

/// Events implied by a list of entries: each author's chain counts from zero.
pub open spec fn total_of(s: Seq<(Seq<u8>, u64)>) -> int
    decreases s.len(),
{
    if s.len() == 0 {
        0
    } else {
        total_of(s.drop_last()) + s.last().1 + 1
    }
}

/// What `frontier_map` holds at one of the entries, when no author repeats.
pub proof fn lemma_frontier_map_at(s: Seq<(Seq<u8>, u64)>, j: int)
    requires
        sorted_keys(s),
        0 <= j < s.len(),
    ensures
        frontier_map(s).contains_key(s[j].0),
        frontier_map(s)[s[j].0] == s[j].1,
{
    let k = s[j].0;
    assert(s[j].0 == k);
    let i = position_of(s, k);
    assert(frontier_map(s).contains_key(k));
    assert(frontier_map(s)[k] == s[i].1);
    lemma_bytes_less_irreflexive(k);
    if i < j {
        assert(bytes_less(s[i].0, s[j].0));
    } else if i > j {
        assert(bytes_less(s[j].0, s[i].0));
    }
}

/// Entries sorted by author are determined by the map they describe: two
/// frontiers that hold the same sequences hold the same entries, in the same
/// order, and so encode to the same bytes.
pub proof fn law_sorted_entries_are_canonical(s: Seq<(Seq<u8>, u64)>, t: Seq<(Seq<u8>, u64)>)
    requires
        sorted_keys(s),
        sorted_keys(t),
        frontier_map(s) == frontier_map(t),
    ensures
        s == t,
    decreases s.len() + t.len(),
{
    if s.len() == 0 {
        if t.len() > 0 {
            lemma_frontier_map_at(t, 0);
        }
        assert(s =~= t);
        return;
    }
    if t.len() == 0 {
        lemma_frontier_map_at(s, 0);
        return;
    }
    // Both first entries are the least author in the map.
    lemma_frontier_map_at(s, 0);
    lemma_frontier_map_at(t, 0);
    let a = s[0].0;
    let b = t[0].0;
    assert(frontier_map(t).contains_key(a));
    let ia = choose|i: int| 0 <= i < t.len() && #[trigger] t[i].0 == a;
    assert(frontier_map(s).contains_key(b));
    let ib = choose|i: int| 0 <= i < s.len() && #[trigger] s[i].0 == b;
    if ia > 0 {
        assert(bytes_less(t[0].0, t[ia].0));
        if ib > 0 {
            assert(bytes_less(s[0].0, s[ib].0));
            lemma_bytes_less_transitive(b, a, b);
            lemma_bytes_less_irreflexive(b);
        } else {
            lemma_bytes_less_irreflexive(b);
        }
    }
    assert(ia == 0);
    assert(a == b);
    assert(s[0] == t[0]);
    let s1 = s.drop_first();
    let t1 = t.drop_first();
    assert forall|i: int, j: int| 0 <= i < j < s1.len() implies bytes_less(#[trigger] s1[i].0, #[trigger] s1[j].0) by {
        assert(s1[i] == s[i + 1] && s1[j] == s[j + 1]);
    }
    assert forall|i: int, j: int| 0 <= i < j < t1.len() implies bytes_less(#[trigger] t1[i].0, #[trigger] t1[j].0) by {
        assert(t1[i] == t[i + 1] && t1[j] == t[j + 1]);
    }
    assert forall|k: Seq<u8>| frontier_map(s1).contains_key(k) <==> frontier_map(t1).contains_key(k) by {
        if frontier_map(s1).contains_key(k) {
            let i = choose|i: int| 0 <= i < s1.len() && #[trigger] s1[i].0 == k;
            lemma_frontier_map_at(s, i + 1);
            assert(s[i + 1].0 == k);
            assert(bytes_less(a, k));
            let j = choose|j: int| 0 <= j < t.len() && #[trigger] t[j].0 == k;
            if j == 0 {
                lemma_bytes_less_irreflexive(k);
            }
            assert(t1[j - 1].0 == k);
        }
        if frontier_map(t1).contains_key(k) {
            let i = choose|i: int| 0 <= i < t1.len() && #[trigger] t1[i].0 == k;
            lemma_frontier_map_at(t, i + 1);
            assert(t[i + 1].0 == k);
            assert(bytes_less(a, k));
            let j = choose|j: int| 0 <= j < s.len() && #[trigger] s[j].0 == k;
            if j == 0 {
                lemma_bytes_less_irreflexive(k);
            }
            assert(s1[j - 1].0 == k);
        }
    }
    assert forall|k: Seq<u8>| #[trigger] frontier_map(s1).contains_key(k) implies frontier_map(s1)[k] == frontier_map(t1)[k] by {
        let i = choose|i: int| 0 <= i < s1.len() && #[trigger] s1[i].0 == k;
        let j = choose|j: int| 0 <= j < t1.len() && #[trigger] t1[j].0 == k;
        lemma_frontier_map_at(s1, i);
        lemma_frontier_map_at(t1, j);
        lemma_frontier_map_at(s, i + 1);
        lemma_frontier_map_at(t, j + 1);
    }
    assert(frontier_map(s1) =~= frontier_map(t1));
    law_sorted_entries_are_canonical(s1, t1);
    assert(s =~= seq![s[0]] + s1);
    assert(t =~= seq![t[0]] + t1);
}

/// Recording a sequence never lowers what is held for anyone.
pub proof fn law_observe_is_monotone(m: Map<Seq<u8>, u64>, user: Seq<u8>, seq: u64, k: Seq<u8>)
    requires
        m.contains_key(k),
    ensures
        observed(m, user, seq).contains_key(k),
        observed(m, user, seq)[k] >= m[k],
        observed(m, user, seq)[user] >= seq,
{
}

/// The order in which sequences are recorded does not matter.
pub proof fn law_observe_commutes(m: Map<Seq<u8>, u64>, u1: Seq<u8>, s1: u64, u2: Seq<u8>, s2: u64)
    ensures
        observed(observed(m, u1, s1), u2, s2) == observed(observed(m, u2, s2), u1, s1),
{
    assert(observed(observed(m, u1, s1), u2, s2) =~= observed(observed(m, u2, s2), u1, s1));
}

/// Recording what is already held changes nothing.
pub proof fn law_observe_is_idempotent(m: Map<Seq<u8>, u64>, user: Seq<u8>, seq: u64)
    ensures
        observed(observed(m, user, seq), user, seq) == observed(m, user, seq),
{
    assert(observed(observed(m, user, seq), user, seq) =~= observed(m, user, seq));
}

/// The highest contiguous sequence number held for each author, in a single
/// community.
///
/// Entries are kept sorted by author so the encoding is canonical and two
/// frontiers over the same state compare equal.
#[derive(Debug, PartialEq, Eq)]
pub struct Frontier {
    entries: Vec<(UserId, u64)>,
}

impl Frontier {
    /// The entries as values, in their stored order.
    pub closed spec fn pairs(&self) -> Seq<(Seq<u8>, u64)> {
        self.entries@.map_values(|p: (UserId, u64)| (p.0@, p.1))
    }

    #[verifier::type_invariant]
    spec fn entries_sorted(&self) -> bool {
        sorted_keys(self.pairs())
    }
}

impl View for Frontier {
    type V = Map<Seq<u8>, u64>;

    closed spec fn view(&self) -> Map<Seq<u8>, u64> {
        frontier_map(self.pairs())
    }
}

impl Clone for Frontier {
    fn clone(&self) -> (f: Frontier)
        ensures
            f.pairs() == self.pairs(),
            f@ == self@,
    {
        Frontier { entries: self.iter() }
    }
}

impl Default for Frontier {
    fn default() -> (f: Frontier)
        ensures
            f@ == Map::<Seq<u8>, u64>::empty(),
            f.pairs().len() == 0,
    {
        Frontier::new()
    }
}

impl Frontier {
    pub fn new() -> (f: Frontier)
        ensures
            f@ == Map::<Seq<u8>, u64>::empty(),
            f.pairs().len() == 0,
            sorted_keys(f.pairs()),
            frontier_map(f.pairs()) == f@,
    {
        let f = Frontier { entries: Vec::new() };
        assert(f.pairs() =~= Seq::<(Seq<u8>, u64)>::empty());
        assert(f@ =~= Map::<Seq<u8>, u64>::empty());
        f
    }

    /// Where `user` is, or where they would go.
    fn search(&self, user: &UserId) -> (r: Result<usize, usize>)
        ensures
            match r {
                Ok(i) => i < self.pairs().len() && self.pairs()[i as int].0 == user@,
                Err(i) => i <= self.pairs().len()
                    && (forall|j: int| 0 <= j < i ==> bytes_less(#[trigger] self.pairs()[j].0, user@))
                    && (forall|j: int| i <= j < self.pairs().len() ==> bytes_less(user@, #[trigger] self.pairs()[j].0)),
            },
    {
        proof {
            use_type_invariant(self);
        }
        let ghost s = self.pairs();
        let mut lo: usize = 0;
        let mut hi: usize = self.entries.len();
        while lo < hi
            invariant
                s == self.pairs(),
                sorted_keys(s),
                s.len() == self.entries@.len(),
                lo <= hi <= s.len(),
                forall|j: int| 0 <= j < lo ==> bytes_less(#[trigger] s[j].0, user@),
                forall|j: int| hi <= j < s.len() ==> bytes_less(user@, #[trigger] s[j].0),
            decreases hi - lo,
        {
            let mid = lo + (hi - lo) / 2;
            let here = self.entries[mid].0;
            assert(s[mid as int].0 == here@);
            if here == *user {
                return Ok(mid);
            }
            if here.0.less_than(&user.0) {
                assert forall|j: int| 0 <= j < mid + 1 implies bytes_less(#[trigger] s[j].0, user@) by {
                    if j < mid {
                        lemma_bytes_less_transitive(s[j].0, s[mid as int].0, user@);
                    }
                }
                lo = mid + 1;
            } else {
                proof {
                    lemma_bytes_less_total(here@, user@);
                }
                assert forall|j: int| mid <= j < s.len() implies bytes_less(user@, #[trigger] s[j].0) by {
                    if j > mid {
                        lemma_bytes_less_transitive(user@, s[mid as int].0, s[j].0);
                    }
                }
                hi = mid;
            }
        }
        Err(lo)
    }

    /// Highest sequence held for `user`, or `None` if this node holds
    /// nothing from them.
    pub fn get(&self, user: &UserId) -> (r: Option<u64>)
        ensures
            r == (if self@.contains_key(user@) { Some(self@[user@]) } else { None::<u64> }),
    {
        proof {
            use_type_invariant(self);
        }
        match self.search(user) {
            Ok(i) => {
                proof {
                    lemma_frontier_map_at(self.pairs(), i as int);
                }
                Some(self.entries[i].1)
            },
            Err(i) => {
                proof {
                    if self@.contains_key(user@) {
                        let j = choose|j: int| 0 <= j < self.pairs().len() && #[trigger] self.pairs()[j].0 == user@;
                        lemma_bytes_less_irreflexive(user@);
                        if j < i {
                            assert(bytes_less(self.pairs()[j].0, user@));
                        } else {
                            assert(bytes_less(user@, self.pairs()[j].0));
                        }
                    }
                }
                None
            },
        }
    }

    /// The sequence number the next event from `user` will carry.
    pub fn next_seq(&self, user: &UserId) -> (n: u64)
        requires
            !(self@.contains_key(user@) && self@[user@] == u64::MAX),
        ensures
            n == (if self@.contains_key(user@) { self@[user@] + 1 } else { 0 }),
    {
        match self.get(user) {
            Some(s) => s + 1,
            None => 0,
        }
    }

    /// True if this frontier already covers `(user, seq)`.
    pub fn covers(&self, user: &UserId, seq: u64) -> (c: bool)
        ensures
            c == (self@.contains_key(user@) && self@[user@] >= seq),
    {
        match self.get(user) {
            Some(held) => held >= seq,
            None => false,
        }
    }

    /// Records that `seq` is held for `user`, keeping the highest value seen.
    pub fn observe(&mut self, user: UserId, seq: u64)
        ensures
            final(self)@ == observed(old(self)@, user@, seq),
            sorted_keys(final(self).pairs()),
            frontier_map(final(self).pairs()) == final(self)@,
    {
        proof {
            use_type_invariant(&*self);
        }
        let ghost s = self.pairs();
        let ghost m = self@;
        match self.search(&user) {
            Ok(i) => {
                let held = self.entries[i].1;
                let best = if held > seq { held } else { seq };
                proof {
                    lemma_frontier_map_at(s, i as int);
                }
                let ghost t = s.update(i as int, (user@, best));
                proof {
                    assert forall|a: int, b: int| 0 <= a < b < t.len() implies bytes_less(#[trigger] t[a].0, #[trigger] t[b].0) by {
                        assert(s[a].0 == t[a].0 && s[b].0 == t[b].0);
                    }
                    lemma_update_map(s, i as int, best);
                }
                let mut entries: Vec<(UserId, u64)> = Vec::new();
                std::mem::swap(&mut entries, &mut self.entries);
                entries.set(i, (user, best));
                assert(entries@.map_values(|p: (UserId, u64)| (p.0@, p.1)) =~= t);
                self.entries = entries;
            },
            Err(i) => {
                let ghost t = s.insert(i as int, (user@, seq));
                proof {
                    lemma_insert_sorted(s, i as int, user@, seq);
                    lemma_insert_map(s, i as int, user@, seq);
                }
                let mut entries: Vec<(UserId, u64)> = Vec::new();
                std::mem::swap(&mut entries, &mut self.entries);
                entries.insert(i, (user, seq));
                assert(entries@.map_values(|p: (UserId, u64)| (p.0@, p.1)) =~= t);
                self.entries = entries;
            },
        }
    }

    /// Builds a frontier from arbitrary pairs, keeping the highest sequence
    /// per author and sorting the result.
    pub fn from_pairs(pairs: Vec<(UserId, u64)>) -> (f: Frontier)
        ensures
            f@ == pairs_max(pairs@.map_values(|p: (UserId, u64)| (p.0@, p.1))),
            sorted_keys(f.pairs()),
            frontier_map(f.pairs()) == f@,
            f.pairs().len() == f@.len(),
    {
        let ghost view = pairs@.map_values(|p: (UserId, u64)| (p.0@, p.1));
        let mut f = Frontier::new();
        let mut i: usize = 0;
        while i < pairs.len()
            invariant
                i <= pairs@.len(),
                view == pairs@.map_values(|p: (UserId, u64)| (p.0@, p.1)),
                f@ == pairs_max(view.take(i as int)),
                sorted_keys(f.pairs()),
                frontier_map(f.pairs()) == f@,
            decreases pairs@.len() - i,
        {
            let (user, seq) = pairs[i];
            f.observe(user, seq);
            proof {
                assert(view.take(i + 1).drop_last() =~= view.take(i as int));
            }
            i += 1;
        }
        assert(view.take(pairs@.len() as int) =~= view);
        proof {
            lemma_map_len(f.pairs());
        }
        f
    }

    /// The entries in author order.
    pub fn iter(&self) -> (v: Vec<(UserId, u64)>)
        ensures
            v@.map_values(|p: (UserId, u64)| (p.0@, p.1)) == self.pairs(),
            sorted_keys(self.pairs()),
            frontier_map(self.pairs()) == self@,
    {
        proof {
            use_type_invariant(self);
        }
        let mut v: Vec<(UserId, u64)> = Vec::new();
        let mut i: usize = 0;
        while i < self.entries.len()
            invariant
                i <= self.entries@.len(),
                v@ == self.entries@.take(i as int),
            decreases self.entries@.len() - i,
        {
            v.push(self.entries[i]);
            i += 1;
            assert(v@ =~= self.entries@.take(i as int));
        }
        assert(v@ =~= self.entries@);
        v
    }

    /// Number of authors represented.
    pub fn len(&self) -> (n: usize)
        ensures
            n == self.pairs().len(),
            n == self@.len(),
    {
        proof {
            use_type_invariant(self);
            lemma_map_len(self.pairs());
        }
        self.entries.len()
    }

    pub fn is_empty(&self) -> (b: bool)
        ensures
            b == (self.pairs().len() == 0),
            b == (self@.len() == 0),
    {
        proof {
            use_type_invariant(self);
            lemma_map_len(self.pairs());
        }
        self.entries.len() == 0
    }

    /// Total events implied by this frontier. Handy for progress reporting
    /// and for asserting in tests that two nodes have converged.
    pub fn total_events(&self) -> (n: u64)
        requires
            total_of(self.pairs()) <= u64::MAX,
        ensures
            n == total_of(self.pairs()),
    {
        let ghost s = self.pairs();
        let mut total: u64 = 0;
        let mut i: usize = 0;
        while i < self.entries.len()
            invariant
                s == self.pairs(),
                s.len() == self.entries@.len(),
                i <= s.len(),
                total == total_of(s.take(i as int)),
                total_of(s) <= u64::MAX,
            decreases s.len() - i,
        {
            proof {
                assert(s.take(i + 1).drop_last() =~= s.take(i as int));
                lemma_total_prefix(s, i + 1);
            }
            total = total + self.entries[i].1 + 1;
            i += 1;
        }
        assert(s.take(s.len() as int) =~= s);
        total
    }
}

/// How one entry is written: the author's id as bytes, then the sequence as
/// a varint.
pub open spec fn enc_entry_fn() -> spec_fn((Seq<u8>, u64)) -> Seq<u8> {
    |p: (Seq<u8>, u64)| enc_bytes(p.0) + varint(p.1 as nat)
}

impl Frontier {
    /// The canonical bytes of this frontier: its entries, in author order.
    /// Two frontiers holding the same sequences encode identically.
    pub fn encode(&self) -> (out: Vec<u8>)
        ensures
            out@ == enc_list(self.pairs(), enc_entry_fn()),
    {
        let ghost s = self.pairs();
        let mut out: Vec<u8> = Vec::new();
        put_varint(&mut out, self.entries.len() as u64);
        let mut i: usize = 0;
        while i < self.entries.len()
            invariant
                i <= self.entries@.len(),
                s == self.pairs(),
                s.len() == self.entries@.len(),
                out@ == varint(s.len()) + enc_seq(s.take(i as int), enc_entry_fn()),
            decreases self.entries@.len() - i,
        {
            proof {
                lemma_enc_seq_push(s, i as int, enc_entry_fn());
            }
            let ghost mid = out@;
            put_bytes(&mut out, self.entries[i].0.as_bytes().as_slice());
            put_varint(&mut out, self.entries[i].1);
            assert(out@ =~= mid + enc_entry_fn()(s[i as int]));
            i += 1;
        }
        assert(s.take(s.len() as int) =~= s);
        out
    }
}

/// A prefix implies no more events than the whole.
proof fn lemma_total_prefix(s: Seq<(Seq<u8>, u64)>, n: int)
    requires
        0 <= n <= s.len(),
    ensures
        total_of(s.take(n)) <= total_of(s),
    decreases s.len(),
{
    if n < s.len() {
        assert(s.drop_last().take(n) =~= s.take(n));
        lemma_total_prefix(s.drop_last(), n);
    } else {
        assert(s.take(n) =~= s);
    }
}

/// With no author repeated, the map has one key per entry.
proof fn lemma_map_len(s: Seq<(Seq<u8>, u64)>)
    requires
        sorted_keys(s),
    ensures
        frontier_map(s).len() == s.len(),
        frontier_map(s).dom().finite(),
    decreases s.len(),
{
    if s.len() == 0 {
        assert(frontier_map(s).dom() =~= Set::<Seq<u8>>::empty());
    } else {
        let t = s.drop_last();
        assert forall|a: int, b: int| 0 <= a < b < t.len() implies bytes_less(#[trigger] t[a].0, #[trigger] t[b].0) by {
            assert(t[a] == s[a] && t[b] == s[b]);
        }
        lemma_map_len(t);
        let k = s.last().0;
        assert forall|x: Seq<u8>| #[trigger] frontier_map(s).dom().contains(x) <==> frontier_map(t).dom().insert(k).contains(x) by {
            if frontier_map(s).contains_key(x) {
                let i = choose|i: int| 0 <= i < s.len() && #[trigger] s[i].0 == x;
                if i < t.len() {
                    assert(t[i].0 == x);
                }
            }
            if frontier_map(t).contains_key(x) {
                let i = choose|i: int| 0 <= i < t.len() && #[trigger] t[i].0 == x;
                assert(s[i].0 == x);
            }
            if x == k {
                assert(s[s.len() - 1].0 == x);
            }
        }
        assert(frontier_map(s).dom() =~= frontier_map(t).dom().insert(k));
        if frontier_map(t).contains_key(k) {
            let i = choose|i: int| 0 <= i < t.len() && #[trigger] t[i].0 == k;
            assert(s[i].0 == k);
            assert(bytes_less(s[i].0, s[s.len() - 1].0));
            lemma_bytes_less_irreflexive(k);
        }
    }
}

/// Replacing one entry's sequence replaces that author's value.
pub proof fn lemma_update_map(s: Seq<(Seq<u8>, u64)>, i: int, v: u64)
    requires
        sorted_keys(s),
        0 <= i < s.len(),
    ensures
        sorted_keys(s.update(i, (s[i].0, v))),
        frontier_map(s.update(i, (s[i].0, v))) == frontier_map(s).insert(s[i].0, v),
{
    let k = s[i].0;
    let t = s.update(i, (k, v));
    assert forall|a: int, b: int| 0 <= a < b < t.len() implies bytes_less(#[trigger] t[a].0, #[trigger] t[b].0) by {
        assert(s[a].0 == t[a].0 && s[b].0 == t[b].0);
    }
    assert forall|x: Seq<u8>| #[trigger] frontier_map(t).contains_key(x) <==> frontier_map(s).insert(k, v).contains_key(x) by {
        if frontier_map(t).contains_key(x) {
            let j = choose|j: int| 0 <= j < t.len() && #[trigger] t[j].0 == x;
            assert(s[j].0 == x);
        }
        if frontier_map(s).contains_key(x) {
            let j = choose|j: int| 0 <= j < s.len() && #[trigger] s[j].0 == x;
            assert(t[j].0 == x);
        }
        if x == k {
            assert(t[i].0 == x);
        }
    }
    assert forall|x: Seq<u8>| #[trigger] frontier_map(t).contains_key(x) implies frontier_map(t)[x] == frontier_map(s).insert(k, v)[x] by {
        let j = choose|j: int| 0 <= j < t.len() && #[trigger] t[j].0 == x;
        lemma_frontier_map_at(t, j);
        if j != i {
            assert(s[j] == t[j]);
            lemma_frontier_map_at(s, j);
            if x == k {
                lemma_bytes_less_irreflexive(k);
                assert(s[j].0 == s[i].0);
            }
        }
    }
    assert(frontier_map(t) =~= frontier_map(s).insert(k, v));
}

/// Dropping one entry drops that author and keeps the rest sorted.
pub proof fn lemma_remove_map(s: Seq<(Seq<u8>, u64)>, i: int)
    requires
        sorted_keys(s),
        0 <= i < s.len(),
    ensures
        sorted_keys(s.remove(i)),
        frontier_map(s.remove(i)) == frontier_map(s).remove(s[i].0),
{
    let k = s[i].0;
    let t = s.remove(i);
    assert forall|a: int, b: int| 0 <= a < b < t.len() implies bytes_less(#[trigger] t[a].0, #[trigger] t[b].0) by {
        if b < i {
            assert(t[a] == s[a] && t[b] == s[b]);
        } else if a < i {
            assert(t[a] == s[a] && t[b] == s[b + 1]);
        } else {
            assert(t[a] == s[a + 1] && t[b] == s[b + 1]);
        }
    }
    assert forall|x: Seq<u8>| #[trigger] frontier_map(t).contains_key(x) <==> frontier_map(s).remove(k).contains_key(x) by {
        if frontier_map(t).contains_key(x) {
            let j = choose|j: int| 0 <= j < t.len() && #[trigger] t[j].0 == x;
            let js = if j < i { j } else { j + 1 };
            assert(s[js].0 == x);
            lemma_bytes_less_irreflexive(k);
            if js < i {
                assert(bytes_less(s[js].0, s[i].0));
            } else {
                assert(bytes_less(s[i].0, s[js].0));
            }
        }
        if frontier_map(s).contains_key(x) && x != k {
            let j = choose|j: int| 0 <= j < s.len() && #[trigger] s[j].0 == x;
            if j < i {
                assert(t[j].0 == x);
            } else {
                assert(j != i);
                assert(t[j - 1].0 == x);
            }
        }
    }
    assert forall|x: Seq<u8>| #[trigger] frontier_map(t).contains_key(x) implies frontier_map(t)[x] == frontier_map(s).remove(k)[x] by {
        let j = choose|j: int| 0 <= j < t.len() && #[trigger] t[j].0 == x;
        lemma_frontier_map_at(t, j);
        let js = if j < i { j } else { j + 1 };
        assert(t[j] == s[js]);
        lemma_frontier_map_at(s, js);
    }
    assert(frontier_map(t) =~= frontier_map(s).remove(k));
}

/// Moving one entry's sequence moves the total by as much.
pub proof fn lemma_total_update(s: Seq<(Seq<u8>, u64)>, i: int, v: u64)
    requires
        0 <= i < s.len(),
    ensures
        total_of(s.update(i, (s[i].0, v))) == total_of(s) - s[i].1 + v,
    decreases s.len(),
{
    let t = s.update(i, (s[i].0, v));
    if i == s.len() - 1 {
        assert(t.drop_last() =~= s.drop_last());
    } else {
        assert(t.drop_last() =~= s.drop_last().update(i, (s[i].0, v)));
        lemma_total_update(s.drop_last(), i, v);
    }
}

/// Dropping one entry drops the events its chain counts.
pub proof fn lemma_total_remove(s: Seq<(Seq<u8>, u64)>, i: int)
    requires
        0 <= i < s.len(),
    ensures
        total_of(s.remove(i)) == total_of(s) - s[i].1 - 1,
    decreases s.len(),
{
    if i == s.len() - 1 {
        assert(s.remove(i) =~= s.drop_last());
    } else {
        assert(s.remove(i).drop_last() =~= s.drop_last().remove(i));
        assert(s.remove(i).last() == s.last());
        lemma_total_remove(s.drop_last(), i);
    }
}

/// Inserting a new author where the search said it belongs keeps the
/// entries sorted.
proof fn lemma_insert_sorted(s: Seq<(Seq<u8>, u64)>, i: int, k: Seq<u8>, v: u64)
    requires
        sorted_keys(s),
        0 <= i <= s.len(),
        forall|j: int| 0 <= j < i ==> bytes_less(#[trigger] s[j].0, k),
        forall|j: int| i <= j < s.len() ==> bytes_less(k, #[trigger] s[j].0),
    ensures
        sorted_keys(s.insert(i, (k, v))),
{
    let t = s.insert(i, (k, v));
    assert forall|a: int, b: int| 0 <= a < b < t.len() implies bytes_less(#[trigger] t[a].0, #[trigger] t[b].0) by {
        if b < i {
            assert(t[a] == s[a] && t[b] == s[b]);
        } else if b == i {
            assert(t[a] == s[a]);
        } else if a < i {
            assert(t[a] == s[a] && t[b] == s[b - 1]);
        } else if a == i {
            assert(t[b] == s[b - 1]);
        } else {
            assert(t[a] == s[a - 1] && t[b] == s[b - 1]);
        }
    }
}

/// Inserting a new author adds exactly that author.
proof fn lemma_insert_map(s: Seq<(Seq<u8>, u64)>, i: int, k: Seq<u8>, v: u64)
    requires
        sorted_keys(s),
        0 <= i <= s.len(),
        forall|j: int| 0 <= j < i ==> bytes_less(#[trigger] s[j].0, k),
        forall|j: int| i <= j < s.len() ==> bytes_less(k, #[trigger] s[j].0),
    ensures
        frontier_map(s.insert(i, (k, v))) == frontier_map(s).insert(k, v),
        !frontier_map(s).contains_key(k),
{
    let t = s.insert(i, (k, v));
    lemma_insert_sorted(s, i, k, v);
    if frontier_map(s).contains_key(k) {
        let j = choose|j: int| 0 <= j < s.len() && #[trigger] s[j].0 == k;
        lemma_bytes_less_irreflexive(k);
        if j < i {
            assert(bytes_less(s[j].0, k));
        } else {
            assert(bytes_less(k, s[j].0));
        }
    }
    assert forall|x: Seq<u8>| #[trigger] frontier_map(t).contains_key(x) <==> frontier_map(s).insert(k, v).contains_key(x) by {
        if frontier_map(t).contains_key(x) {
            let j = choose|j: int| 0 <= j < t.len() && #[trigger] t[j].0 == x;
            if j < i {
                assert(s[j].0 == x);
            } else if j > i {
                assert(s[j - 1].0 == x);
            }
        }
        if frontier_map(s).contains_key(x) {
            let j = choose|j: int| 0 <= j < s.len() && #[trigger] s[j].0 == x;
            if j < i {
                assert(t[j].0 == x);
            } else {
                assert(t[j + 1].0 == x);
            }
        }
        if x == k {
            assert(t[i].0 == x);
        }
    }
    assert forall|x: Seq<u8>| #[trigger] frontier_map(t).contains_key(x) implies frontier_map(t)[x] == frontier_map(s).insert(k, v)[x] by {
        let j = choose|j: int| 0 <= j < t.len() && #[trigger] t[j].0 == x;
        lemma_frontier_map_at(t, j);
        if j < i {
            assert(t[j] == s[j]);
            lemma_frontier_map_at(s, j);
        } else if j > i {
            assert(t[j] == s[j - 1]);
            lemma_frontier_map_at(s, j - 1);
        }
    }
    assert(frontier_map(t) =~= frontier_map(s).insert(k, v));
}

/// A frontier built from pairs holds, for each author named in them, the
/// highest sequence among that author's pairs, and no other author.
pub proof fn law_pairs_keep_the_highest(s: Seq<(Seq<u8>, u64)>, u: Seq<u8>)
    ensures
        pairs_max(s).contains_key(u) <==> exists|i: int| 0 <= i < s.len() && (#[trigger] s[i]).0 == u,
        pairs_max(s).contains_key(u) ==> (forall|i: int| 0 <= i < s.len() && (#[trigger] s[i]).0 == u ==> s[i].1 <= pairs_max(s)[u])
            && exists|i: int| 0 <= i < s.len() && (#[trigger] s[i]).0 == u && s[i].1 == pairs_max(s)[u],
    decreases s.len(),
{
    if s.len() > 0 {
        let rest = s.drop_last();
        law_pairs_keep_the_highest(rest, u);
        let last = s.len() - 1;
        assert(s[last] == s.last());
        assert forall|i: int| 0 <= i < rest.len() implies #[trigger] s[i] == rest[i] by {}
        if pairs_max(rest).contains_key(u) {
            let w = choose|i: int| 0 <= i < rest.len() && (#[trigger] rest[i]).0 == u && rest[i].1 == pairs_max(rest)[u];
            assert(s[w] == rest[w]);
        }
        if exists|i: int| 0 <= i < s.len() && (#[trigger] s[i]).0 == u {
            let i = choose|i: int| 0 <= i < s.len() && (#[trigger] s[i]).0 == u;
            if i < last {
                assert(rest[i].0 == u);
            }
        }
    }
}

/// The order pairs come in does not matter: two lists holding the same
/// pairs build the same frontier.
pub proof fn law_pairs_order_does_not_matter(s: Seq<(Seq<u8>, u64)>, t: Seq<(Seq<u8>, u64)>)
    requires
        forall|x: (Seq<u8>, u64)| s.contains(x) <==> t.contains(x),
    ensures
        pairs_max(s) == pairs_max(t),
{
    assert forall|u: Seq<u8>| #![trigger pairs_max(s).contains_key(u)] pairs_max(s).contains_key(u) == pairs_max(t).contains_key(u)
        && (pairs_max(s).contains_key(u) ==> pairs_max(s)[u] == pairs_max(t)[u]) by {
        law_pairs_keep_the_highest(s, u);
        law_pairs_keep_the_highest(t, u);
        if exists|i: int| 0 <= i < s.len() && (#[trigger] s[i]).0 == u {
            let i = choose|i: int| 0 <= i < s.len() && (#[trigger] s[i]).0 == u;
            assert(s.contains(s[i]));
            assert(t.contains(s[i]));
            let j = choose|j: int| 0 <= j < t.len() && t[j] == s[i];
            assert(t[j].0 == u);
        }
        if exists|i: int| 0 <= i < t.len() && (#[trigger] t[i]).0 == u {
            let i = choose|i: int| 0 <= i < t.len() && (#[trigger] t[i]).0 == u;
            assert(t.contains(t[i]));
            assert(s.contains(t[i]));
            let j = choose|j: int| 0 <= j < s.len() && s[j] == t[i];
            assert(s[j].0 == u);
        }
        if pairs_max(s).contains_key(u) {
            let a = choose|i: int| 0 <= i < s.len() && (#[trigger] s[i]).0 == u && s[i].1 == pairs_max(s)[u];
            let b = choose|i: int| 0 <= i < t.len() && (#[trigger] t[i]).0 == u && t[i].1 == pairs_max(t)[u];
            assert(s.contains(s[a]));
            assert(t.contains(s[a]));
            let ja = choose|j: int| 0 <= j < t.len() && t[j] == s[a];
            assert(t[ja].0 == u);
            assert(t.contains(t[b]));
            assert(s.contains(t[b]));
            let jb = choose|j: int| 0 <= j < s.len() && s[j] == t[b];
            assert(s[jb].0 == u);
        }
    }
    assert(pairs_max(s) =~= pairs_max(t));
}

/// Two frontiers built from the same one by the same two observations, in
/// either order, hold the same entries in the same order: they compare
/// equal and encode to the same bytes.
pub proof fn law_observation_order_leaves_the_same_entries(
    p: Seq<(Seq<u8>, u64)>,
    q: Seq<(Seq<u8>, u64)>,
    m: Map<Seq<u8>, u64>,
    u1: Seq<u8>,
    s1: u64,
    u2: Seq<u8>,
    s2: u64,
)
    requires
        sorted_keys(p),
        sorted_keys(q),
        frontier_map(p) == observed(observed(m, u1, s1), u2, s2),
        frontier_map(q) == observed(observed(m, u2, s2), u1, s1),
    ensures
        p == q,
{
    law_observe_commutes(m, u1, s1, u2, s2);
    law_sorted_entries_are_canonical(p, q);
}

} // verus!
