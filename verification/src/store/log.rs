//! The event log and the rules for appending to it.
//!
//! [`EventLog`] keeps every accepted event in arrival order, each beside its
//! id and community. The log only grows, and only through
//! [`EventLog::put_event`], which admits an event when its signature checks
//! out and it extends its author's chain without a gap or a fork.

use vstd::prelude::*;

use crate::proto::event::{
    community_of, event_id_of, is_genesis_payload, preimage_of, shape_check, SignedEvent,
    SignedEventModel, ValidationError,
};
use crate::proto::frontier::{pairs_max, Frontier};
use crate::proto::identity::ed25519_accepts;
use crate::proto::ids::{hex_encode, lemma_hash32_len, CommunityId, EventId, UserId};
use crate::store::{Inserted, StoreError};

verus! {

broadcast use lemma_hash32_len;

/// An event's id.
pub open spec fn id_of(s: SignedEventModel) -> Seq<u8> {
    event_id_of(s.event)
}

/// The community an event belongs to.
pub open spec fn community_in(s: SignedEventModel) -> Seq<u8> {
    community_of(s.event)
}

/// The first four bytes of an id in hex: how errors name authors and
/// communities.
pub open spec fn short_hex(id: Seq<u8>) -> Seq<char> {
    hex_encode(id.subrange(0, 4))
}

/// The log holds an event with this id.
pub open spec fn holds_id(log: Seq<SignedEventModel>, id: Seq<u8>) -> bool {
    exists|i: int| 0 <= i < log.len() && id_of(#[trigger] log[i]) == id
}

/// The log holds the genesis of this community.
pub open spec fn knows_community(log: Seq<SignedEventModel>, c: Seq<u8>) -> bool {
    exists|i: int| 0 <= i < log.len() && #[trigger] is_genesis_at(log, i, c)
}

pub open spec fn is_genesis_at(log: Seq<SignedEventModel>, i: int, c: Seq<u8>) -> bool {
    is_genesis_payload(log[i].event.payload) && id_of(log[i]) == c
}

/// `s` sits at position `n` of `a`'s chain in community `c`.
pub open spec fn in_slot(s: SignedEventModel, c: Seq<u8>, a: Seq<u8>, n: int) -> bool {
    community_in(s) == c && s.event.author == a && s.event.seq == n
}

pub open spec fn slot_taken(log: Seq<SignedEventModel>, c: Seq<u8>, a: Seq<u8>, n: int) -> bool {
    exists|i: int| 0 <= i < log.len() && #[trigger] in_slot(log[i], c, a, n)
}

/// Which entry holds a chain position.
pub open spec fn slot_index(log: Seq<SignedEventModel>, c: Seq<u8>, a: Seq<u8>, n: int) -> int {
    choose|i: int| 0 <= i < log.len() && #[trigger] in_slot(log[i], c, a, n)
}

/// No two entries share an id.
pub open spec fn ids_unique(log: Seq<SignedEventModel>) -> bool {
    forall|i: int, j: int| 0 <= i < j < log.len() ==> id_of(#[trigger] log[i]) != id_of(#[trigger] log[j])
}

/// No two entries share a chain position.
pub open spec fn slots_unique(log: Seq<SignedEventModel>) -> bool {
    forall|i: int, j: int|
        0 <= i < j < log.len() ==> !in_slot(
            #[trigger] log[i],
            community_in(#[trigger] log[j]),
            log[j].event.author,
            log[j].event.seq as int,
        )
}

/// What the log makes of a correctly signed event.
pub enum Admission {
    Duplicate,
    UnknownCommunity,
    Equivocation,
    MissingPrev,
    ChainMismatch,
    Accept,
}

/// The checks `put_event` makes against what is held, in order.
pub open spec fn admission(log: Seq<SignedEventModel>, e: SignedEventModel) -> Admission {
    let c = community_in(e);
    let a = e.event.author;
    let n = e.event.seq;
    if holds_id(log, id_of(e)) {
        Admission::Duplicate
    } else if !is_genesis_payload(e.event.payload) && !knows_community(log, c) {
        Admission::UnknownCommunity
    } else if slot_taken(log, c, a, n as int) {
        Admission::Equivocation
    } else if n > 0 && !slot_taken(log, c, a, n - 1) {
        Admission::MissingPrev
    } else if n > 0 && Some(id_of(log[slot_index(log, c, a, n - 1)])) != e.event.prev_self {
        Admission::ChainMismatch
    } else {
        Admission::Accept
    }
}

/// The whole contract of `put_event`: the answer `r` and the log
/// afterwards, given the log before and the event.
pub open spec fn put_result(
    log: Seq<SignedEventModel>,
    e: SignedEventModel,
    r: Result<Inserted, StoreError>,
    after: Seq<SignedEventModel>,
) -> bool {
    match shape_check(e.event) {
        Err(v) => r == Err::<Inserted, StoreError>(StoreError::Invalid(v)) && after == log,
        Ok(()) => if !ed25519_accepts(e.event.author, preimage_of(e.event), e.signature) {
            (r matches Err(StoreError::Invalid(ValidationError::BadSignature(s))) && s@ == short_hex(e.event.author))
                && after == log
        } else {
            match admission(log, e) {
                Admission::Duplicate => r == Ok::<Inserted, StoreError>(Inserted::Duplicate) && after == log,
                Admission::UnknownCommunity => (r matches Err(StoreError::UnknownCommunity(s)) && s@ == short_hex(
                    community_in(e),
                )) && after == log,
                Admission::Equivocation => (r matches Err(StoreError::Equivocation { author, seq }) && author@
                    == short_hex(e.event.author) && seq == e.event.seq) && after == log,
                Admission::MissingPrev => (r matches Err(StoreError::MissingPrev { author, seq, needed_seq }) && author@
                    == short_hex(e.event.author) && seq == e.event.seq && needed_seq == e.event.seq - 1)
                    && after == log,
                Admission::ChainMismatch => (r matches Err(StoreError::ChainMismatch { author, seq }) && author@
                    == short_hex(e.event.author) && seq == e.event.seq) && after == log,
                Admission::Accept => r == Ok::<Inserted, StoreError>(Inserted::New) && after == log.push(e),
            }
        },
    }
}

/// One accepted event, with the two facts about it that every lookup needs.
pub struct Entry {
    pub id: EventId,
    pub community: CommunityId,
    pub event: SignedEvent,
}

/// The accepted events, in arrival order.
pub struct EventLog {
    entries: Vec<Entry>,
}

pub open spec fn entry_ok(e: Entry) -> bool {
    e.id@ == id_of(e.event@) && e.community@ == community_in(e.event@)
}

impl EventLog {
    /// The log, oldest first.
    pub closed spec fn log(&self) -> Seq<SignedEventModel> {
        self.entries@.map_values(|e: Entry| e.event@)
    }

    pub closed spec fn wf(&self) -> bool {
        &&& forall|i: int| 0 <= i < self.entries@.len() ==> entry_ok(#[trigger] self.entries@[i])
        &&& ids_unique(self.log())
        &&& slots_unique(self.log())
        &&& chains_gap_free(self.log())
        &&& chains_linked(self.log())
        &&& arrived_checked(self.log())
    }

    /// Every log a store holds is a set of gap-free hash chains, one per
    /// author and community, each of which arrived in order, and every
    /// event in it is well formed and signed by its author.
    pub proof fn law_log_is_chained(&self)
        requires
            self.wf(),
        ensures
            all_verified(self.log()),
            slots_unique(self.log()),
            chains_gap_free(self.log()),
            chains_linked(self.log()),
            chains_in_order(self.log()),
            ids_unique(self.log()),
    {
        reveal(arrived_checked);
    }

    pub fn new() -> (s: EventLog)
        ensures
            s.wf(),
            s.log() == Seq::<SignedEventModel>::empty(),
    {
        let s = EventLog { entries: Vec::new() };
        assert(s.log() =~= Seq::<SignedEventModel>::empty());
        assert(arrived_checked(s.log())) by {
            reveal(arrived_checked);
        }
        s
    }

    /// What the held log says about one event, gathered in one pass.
    fn admission_of(&self, event: &SignedEvent, id: &EventId, community: &CommunityId) -> (a: Admission)
        requires
            self.wf(),
            id@ == id_of(event@),
            community@ == community_in(event@),
        ensures
            a == admission(self.log(), event@),
    {
        let ghost log = self.log();
        let author = event.event.author;
        let seq = event.event.seq;
        let mut dup = false;
        let mut known = false;
        let mut taken = false;
        let mut prev: Option<EventId> = None;
        let mut i: usize = 0;
        proof {
            assert(log.len() == self.entries@.len());
        }
        while i < self.entries.len()
            invariant
                forall|k: int| 0 <= k < self.entries@.len() ==> entry_ok(#[trigger] self.entries@[k]),
                forall|k: int| 0 <= k < self.entries@.len() ==> log[k] == (#[trigger] self.entries@[k]).event@,
                log.len() == self.entries@.len(),
                i <= log.len(),
                id@ == id_of(event@),
                community@ == community_in(event@),
                author == event.event.author,
                seq == event.event.seq,
                dup == exists|k: int| 0 <= k < i && id_of(#[trigger] log[k]) == id@,
                known == exists|k: int| 0 <= k < i && #[trigger] is_genesis_at(log, k, community@),
                taken == exists|k: int| 0 <= k < i && #[trigger] in_slot(log[k], community@, author@, seq as int),
                seq > 0 ==> match prev {
                    None => !exists|k: int| 0 <= k < i && #[trigger] in_slot(log[k], community@, author@, seq - 1),
                    Some(p) => exists|k: int|
                        0 <= k < i && #[trigger] in_slot(log[k], community@, author@, seq - 1) && id_of(log[k]) == p@,
                },
            decreases log.len() - i,
        {
            let entry = &self.entries[i];
            assert(log[i as int] == entry.event@);
            assert(entry_ok(self.entries@[i as int]));
            if entry.id == *id {
                dup = true;
            }
            let genesis = entry.event.event.is_genesis();
            if genesis && entry.community == *community {
                assert(is_genesis_at(log, i as int, community@));
                known = true;
            }
            if entry.community == *community && entry.event.event.author == author {
                if entry.event.event.seq == seq {
                    assert(in_slot(log[i as int], community@, author@, seq as int));
                    taken = true;
                }
                if seq > 0 && entry.event.event.seq == seq - 1 {
                    assert(in_slot(log[i as int], community@, author@, seq - 1));
                    prev = Some(entry.id);
                }
            }
            proof {
                if genesis && entry.community@ == community@ {
                    assert(entry.event@.event.payload is CreateCommunity);
                }
            }
            i += 1;
        }
        if dup {
            return Admission::Duplicate;
        }
        if !event.event.is_genesis() && !known {
            return Admission::UnknownCommunity;
        }
        if taken {
            return Admission::Equivocation;
        }
        if seq > 0 {
            match prev {
                None => {
                    return Admission::MissingPrev;
                },
                Some(p) => {
                    proof {
                        let k = choose|k: int|
                            0 <= k < i && #[trigger] in_slot(log[k], community@, author@, seq - 1) && id_of(log[k]) == p@;
                        let j = slot_index(log, community@, author@, seq - 1);
                        assert(in_slot(log[j], community@, author@, seq - 1));
                        if j < k {
                            assert(!in_slot(log[j], community_in(log[k]), log[k].event.author, log[k].event.seq as int));
                        } else if k < j {
                            assert(!in_slot(log[k], community_in(log[j]), log[j].event.author, log[j].event.seq as int));
                        }
                    }
                    if event.event.prev_self != Some(p) {
                        return Admission::ChainMismatch;
                    }
                },
            }
        }
        Admission::Accept
    }

    /// Verifies and appends an event.
    ///
    /// Verification comes first: this is the boundary where untrusted bytes
    /// from the network become trusted state, and nothing gets past it
    /// without a signature that checks out.
    pub fn put_event(&mut self, event: &SignedEvent) -> (r: Result<Inserted, StoreError>)
        requires
            old(self).wf(),
        ensures
            final(self).wf(),
            put_result(old(self).log(), event@, r, final(self).log()),
    {
        match event.verify() {
            Ok(()) => {},
            Err(e) => return Err(StoreError::Invalid(e)),
        }
        let id = event.id();
        let community = event.community_id();
        let author = event.author();
        let seq = event.seq();
        match self.admission_of(event, &id, &community) {
            Admission::Duplicate => Ok(Inserted::Duplicate),
            Admission::UnknownCommunity => Err(StoreError::UnknownCommunity(community.short())),
            Admission::Equivocation => Err(StoreError::Equivocation { author: author.short(), seq }),
            Admission::MissingPrev => Err(StoreError::MissingPrev { author: author.short(), seq, needed_seq: seq - 1 }),
            Admission::ChainMismatch => Err(StoreError::ChainMismatch { author: author.short(), seq }),
            Admission::Accept => {
                let ghost before = self.log();
                proof {
                    reveal(arrived_checked);
                    law_accept_keeps_chains(before, event@);
                    assert forall|i: int| 0 <= i < before.len() implies id_of(#[trigger] before[i]) != id@ by {}
                    assert forall|i: int| 0 <= i < before.len() implies !in_slot(
                        #[trigger] before[i],
                        community@,
                        author@,
                        seq as int,
                    ) by {}
                }
                self.entries.push(Entry { id, community, event: event.clone() });
                assert(self.log() =~= before.push(event@));
                proof {
                    let log = self.log();
                    assert forall|i: int, j: int| 0 <= i < j < log.len() implies id_of(#[trigger] log[i]) != id_of(
                        #[trigger] log[j],
                    ) by {
                        if j < before.len() {
                            assert(log[i] == before[i] && log[j] == before[j]);
                        } else {
                            assert(log[i] == before[i]);
                        }
                    }
                    assert forall|i: int, j: int| 0 <= i < j < log.len() implies !in_slot(
                        #[trigger] log[i],
                        community_in(#[trigger] log[j]),
                        log[j].event.author,
                        log[j].event.seq as int,
                    ) by {
                        if j < before.len() {
                            assert(log[i] == before[i] && log[j] == before[j]);
                        } else {
                            assert(log[i] == before[i]);
                        }
                    }
                    assert forall|i: int| 0 <= i < log.len() && (#[trigger] log[i]).event.seq > 0 implies exists|j: int|
                        0 <= j < i && #[trigger] in_slot(log[j], community_in(log[i]), log[i].event.author, log[i].event.seq - 1) by {
                        if i < before.len() {
                            assert(log[i] == before[i]);
                            let j = choose|j: int|
                                0 <= j < i && #[trigger] in_slot(before[j], community_in(before[i]), before[i].event.author, before[i].event.seq - 1);
                            assert(log[j] == before[j]);
                        } else {
                            assert(log[i] == event@);
                            assert(slot_taken(before, community@, author@, seq - 1));
                            let j = choose|j: int| 0 <= j < before.len() && #[trigger] in_slot(before[j], community@, author@, seq - 1);
                            assert(log[j] == before[j]);
                        }
                    }
                    assert forall|i: int| 0 <= i < log.len() implies shape_check((#[trigger] log[i]).event) is Ok
                        && ed25519_accepts(log[i].event.author, preimage_of(log[i].event), log[i].signature) by {
                        if i < before.len() {
                            assert(log[i] == before[i]);
                        }
                    }
                    assert(arrived_checked(log));
                    assert forall|i: int| 0 <= i < self.entries@.len() implies entry_ok(#[trigger] self.entries@[i]) by {
                        if i < before.len() {
                            assert(self.entries@[i] == old(self).entries@[i]);
                        }
                    }
                }
                Ok(Inserted::New)
            },
        }
    }

    /// The event with this id, if held.
    pub fn get_event(&self, id: &EventId) -> (r: Option<SignedEvent>)
        requires
            self.wf(),
        ensures
            r is Some <==> holds_id(self.log(), id@),
            r matches Some(e) ==> id_of(e@) == id@ && self.log().contains(e@),
    {
        let ghost log = self.log();
        let mut i: usize = 0;
        while i < self.entries.len()
            invariant
                forall|k: int| 0 <= k < self.entries@.len() ==> entry_ok(#[trigger] self.entries@[k]),
                log == self.log(),
                log.len() == self.entries@.len(),
                i <= log.len(),
                forall|k: int| 0 <= k < i ==> id_of(#[trigger] log[k]) != id@,
            decreases log.len() - i,
        {
            assert(entry_ok(self.entries@[i as int]));
            assert(log[i as int] == self.entries@[i as int].event@);
            if self.entries[i].id == *id {
                return Some(self.entries[i].event.clone());
            }
            i += 1;
        }
        None
    }

    pub fn has_event(&self, id: &EventId) -> (b: bool)
        requires
            self.wf(),
        ensures
            b == holds_id(self.log(), id@),
    {
        let ghost log = self.log();
        let mut i: usize = 0;
        while i < self.entries.len()
            invariant
                forall|k: int| 0 <= k < self.entries@.len() ==> entry_ok(#[trigger] self.entries@[k]),
                log == self.log(),
                log.len() == self.entries@.len(),
                i <= log.len(),
                forall|k: int| 0 <= k < i ==> id_of(#[trigger] log[k]) != id@,
            decreases log.len() - i,
        {
            assert(entry_ok(self.entries@[i as int]));
            assert(log[i as int] == self.entries@[i as int].event@);
            if self.entries[i].id == *id {
                return true;
            }
            i += 1;
        }
        false
    }
}

/// Every chain position held in community `c`, as (author, seq), in log
/// order.
pub open spec fn chain_pairs(log: Seq<SignedEventModel>, c: Seq<u8>) -> Seq<(Seq<u8>, u64)>
    decreases log.len(),
{
    if log.len() == 0 {
        seq![]
    } else {
        let rest = chain_pairs(log.drop_last(), c);
        let s = log.last();
        if community_in(s) == c {
            rest.push((s.event.author, s.event.seq))
        } else {
            rest
        }
    }
}

/// The highest Lamport value among the events of `c`, or zero.
pub open spec fn lamport_max(log: Seq<SignedEventModel>, c: Seq<u8>) -> u64
    decreases log.len(),
{
    if log.len() == 0 {
        0
    } else {
        let rest = lamport_max(log.drop_last(), c);
        let s = log.last();
        if community_in(s) == c && s.event.lamport > rest {
            s.event.lamport
        } else {
            rest
        }
    }
}

/// The entry at the highest sequence of `a`'s chain in `c`, as (seq, id).
pub open spec fn head_of(log: Seq<SignedEventModel>, c: Seq<u8>, a: Seq<u8>) -> Option<(u64, Seq<u8>)>
    decreases log.len(),
{
    if log.len() == 0 {
        None
    } else {
        let rest = head_of(log.drop_last(), c, a);
        let s = log.last();
        if community_in(s) == c && s.event.author == a && (rest matches Some((n, _)) ==> s.event.seq > n) {
            Some((s.event.seq, id_of(s)))
        } else {
            rest
        }
    }
}

/// The ids held at the given chain positions, skipping positions not held.
pub open spec fn heads_at(log: Seq<SignedEventModel>, c: Seq<u8>, p: Seq<(Seq<u8>, u64)>) -> Seq<Seq<u8>>
    decreases p.len(),
{
    if p.len() == 0 {
        seq![]
    } else {
        let rest = heads_at(log, c, p.drop_last());
        let (a, n) = p.last();
        if slot_taken(log, c, a, n as int) {
            rest.push(id_of(log[slot_index(log, c, a, n as int)]))
        } else {
            rest
        }
    }
}

impl EventLog {
    /// The id held at a chain position, if any.
    fn find_slot(&self, community: &CommunityId, author: &UserId, seq: u64) -> (r: Option<EventId>)
        requires
            self.wf(),
        ensures
            r is Some <==> slot_taken(self.log(), community@, author@, seq as int),
            r matches Some(id) ==> id@ == id_of(self.log()[slot_index(self.log(), community@, author@, seq as int)]),
    {
        let ghost log = self.log();
        let mut i: usize = 0;
        while i < self.entries.len()
            invariant
                forall|k: int| 0 <= k < self.entries@.len() ==> entry_ok(#[trigger] self.entries@[k]),
                log == self.log(),
                log.len() == self.entries@.len(),
                i <= log.len(),
                slots_unique(log),
                forall|k: int| 0 <= k < i ==> !(#[trigger] in_slot(log[k], community@, author@, seq as int)),
            decreases log.len() - i,
        {
            let entry = &self.entries[i];
            assert(entry_ok(self.entries@[i as int]));
            assert(log[i as int] == entry.event@);
            if entry.community == *community && entry.event.event.author == *author && entry.event.event.seq == seq {
                proof {
                    assert(in_slot(log[i as int], community@, author@, seq as int));
                    let j = slot_index(log, community@, author@, seq as int);
                    if j < i {
                    } else if j > i {
                        assert(!in_slot(log[i as int], community_in(log[j]), log[j].event.author, log[j].event.seq as int));
                    }
                }
                return Some(entry.id);
            }
            i += 1;
        }
        None
    }

    /// What this node holds for `community`, as one sequence per author.
    pub fn frontier(&self, community: &CommunityId) -> (f: Frontier)
        requires
            self.wf(),
        ensures
            f@ == pairs_max(chain_pairs(self.log(), community@)),
            crate::proto::frontier::sorted_keys(f.pairs()),
            crate::proto::frontier::frontier_map(f.pairs()) == f@,
    {
        let ghost log = self.log();
        let mut f = Frontier::new();
        let mut i: usize = 0;
        while i < self.entries.len()
            invariant
                forall|k: int| 0 <= k < self.entries@.len() ==> entry_ok(#[trigger] self.entries@[k]),
                log == self.log(),
                log.len() == self.entries@.len(),
                i <= log.len(),
                f@ == pairs_max(chain_pairs(log.take(i as int), community@)),
                crate::proto::frontier::sorted_keys(f.pairs()),
                crate::proto::frontier::frontier_map(f.pairs()) == f@,
            decreases log.len() - i,
        {
            let entry = &self.entries[i];
            assert(entry_ok(self.entries@[i as int]));
            assert(log[i as int] == entry.event@);
            assert(log.take(i + 1).drop_last() =~= log.take(i as int));
            if entry.community == *community {
                f.observe(entry.event.event.author, entry.event.event.seq);
                assert(chain_pairs(log.take(i + 1), community@).drop_last() =~= chain_pairs(log.take(i as int), community@));
            }
            i += 1;
        }
        assert(log.take(log.len() as int) =~= log);
        f
    }

    /// Highest Lamport value seen in this community; the basis for the next
    /// event's clock.
    pub fn max_lamport(&self, community: &CommunityId) -> (n: u64)
        requires
            self.wf(),
        ensures
            n == lamport_max(self.log(), community@),
    {
        let ghost log = self.log();
        let mut best: u64 = 0;
        let mut i: usize = 0;
        while i < self.entries.len()
            invariant
                forall|k: int| 0 <= k < self.entries@.len() ==> entry_ok(#[trigger] self.entries@[k]),
                log == self.log(),
                log.len() == self.entries@.len(),
                i <= log.len(),
                best == lamport_max(log.take(i as int), community@),
            decreases log.len() - i,
        {
            let entry = &self.entries[i];
            assert(entry_ok(self.entries@[i as int]));
            assert(log[i as int] == entry.event@);
            assert(log.take(i + 1).drop_last() =~= log.take(i as int));
            if entry.community == *community && entry.event.event.lamport > best {
                best = entry.event.event.lamport;
            }
            i += 1;
        }
        assert(log.take(log.len() as int) =~= log);
        best
    }

    /// The last event in one author's chain.
    pub fn chain_head(&self, community: &CommunityId, author: &UserId) -> (r: Option<EventId>)
        requires
            self.wf(),
        ensures
            match head_of(self.log(), community@, author@) {
                None => r is None,
                Some((_, id)) => r matches Some(x) && x@ == id,
            },
    {
        let ghost log = self.log();
        let mut best: Option<(u64, EventId)> = None;
        let mut i: usize = 0;
        while i < self.entries.len()
            invariant
                forall|k: int| 0 <= k < self.entries@.len() ==> entry_ok(#[trigger] self.entries@[k]),
                log == self.log(),
                log.len() == self.entries@.len(),
                i <= log.len(),
                match head_of(log.take(i as int), community@, author@) {
                    None => best is None,
                    Some((n, id)) => best matches Some((m, x)) && m == n && x@ == id,
                },
            decreases log.len() - i,
        {
            let entry = &self.entries[i];
            assert(entry_ok(self.entries@[i as int]));
            assert(log[i as int] == entry.event@);
            assert(log.take(i + 1).drop_last() =~= log.take(i as int));
            if entry.community == *community && entry.event.event.author == *author {
                let n = entry.event.event.seq;
                let better = match best {
                    None => true,
                    Some((m, _)) => n > m,
                };
                if better {
                    best = Some((n, entry.id));
                }
            }
            i += 1;
        }
        assert(log.take(log.len() as int) =~= log);
        match best {
            Some((_, id)) => Some(id),
            None => None,
        }
    }

    /// The latest event from each author, in author order: the causal
    /// context a new event cites.
    pub fn heads(&self, community: &CommunityId) -> (r: Vec<EventId>)
        requires
            self.wf(),
        ensures
            exists|p: Seq<(Seq<u8>, u64)>|
                crate::proto::frontier::sorted_keys(p) && crate::proto::frontier::frontier_map(p) == pairs_max(
                    chain_pairs(self.log(), community@),
                ) && r@.map_values(|id: EventId| id@) == heads_at(self.log(), community@, p),
    {
        let f = self.frontier(community);
        let pairs = f.iter();
        let ghost p = pairs@.map_values(|q: (UserId, u64)| (q.0@, q.1));
        let mut out: Vec<EventId> = Vec::new();
        let mut i: usize = 0;
        while i < pairs.len()
            invariant
                self.wf(),
                i <= pairs@.len(),
                p == pairs@.map_values(|q: (UserId, u64)| (q.0@, q.1)),
                out@.map_values(|id: EventId| id@) == heads_at(self.log(), community@, p.take(i as int)),
            decreases pairs@.len() - i,
        {
            let (author, seq) = pairs[i];
            assert(p.take(i + 1).drop_last() =~= p.take(i as int));
            assert(p.take(i + 1).last() == (author@, seq));
            let ghost before = out@;
            match self.find_slot(community, &author, seq) {
                Some(id) => {
                    out.push(id);
                    assert(out@.map_values(|id: EventId| id@) =~= before.map_values(|id: EventId| id@).push(id@));
                },
                None => {},
            }
            i += 1;
        }
        assert(p.take(pairs@.len() as int) =~= p);
        out
    }
}

impl EventLog {
    /// How many events the log holds.
    pub fn entry_count(&self) -> (n: usize)
        requires
            self.wf(),
        ensures
            n == self.log().len(),
    {
        self.entries.len()
    }

    /// The `i`th entry of the log, oldest first.
    pub fn entry_at(&self, i: usize) -> (e: &Entry)
        requires
            self.wf(),
            i < self.log().len(),
        ensures
            e.event@ == self.log()[i as int],
            entry_ok(*e),
    {
        assert(entry_ok(self.entries@[i as int]));
        &self.entries[i]
    }
}

// -- what the log promises --------------------------------------------------------

/// Every chain position above zero has its predecessor held.
pub open spec fn chains_gap_free(log: Seq<SignedEventModel>) -> bool {
    forall|i: int|
        0 <= i < log.len() && (#[trigger] log[i]).event.seq > 0 ==> slot_taken(
            log,
            community_in(log[i]),
            log[i].event.author,
            log[i].event.seq - 1,
        )
}

/// Every event passed the checks it can pass on its own: it is well formed,
/// and its author's key accepts its signature.
pub open spec fn all_verified(log: Seq<SignedEventModel>) -> bool {
    forall|i: int|
        0 <= i < log.len() ==> shape_check((#[trigger] log[i]).event) is Ok && ed25519_accepts(
            log[i].event.author,
            preimage_of(log[i].event),
            log[i].signature,
        )
}

/// What the checks on arrival leave behind: every event verified on its
/// own, and every chain arrived in order.
#[verifier::opaque]
pub open spec fn arrived_checked(log: Seq<SignedEventModel>) -> bool {
    chains_in_order(log) && all_verified(log)
}

/// Every event above position zero arrived after the one just before it in
/// its author's chain.
pub open spec fn chains_in_order(log: Seq<SignedEventModel>) -> bool {
    forall|i: int|
        0 <= i < log.len() && (#[trigger] log[i]).event.seq > 0 ==> exists|j: int|
            0 <= j < i && #[trigger] in_slot(log[j], community_in(log[i]), log[i].event.author, log[i].event.seq - 1)
}

/// Every event above position zero names the event held just before it in
/// its author's chain.
pub open spec fn chains_linked(log: Seq<SignedEventModel>) -> bool {
    forall|i: int|
        0 <= i < log.len() && (#[trigger] log[i]).event.seq > 0 ==> log[i].event.prev_self == Some(
            id_of(log[slot_index(log, community_in(log[i]), log[i].event.author, log[i].event.seq - 1)]),
        )
}

/// Delivering an event that was just accepted again is a quiet no-op: the
/// second delivery is a duplicate and changes nothing.
pub proof fn law_reinsert_is_duplicate(log: Seq<SignedEventModel>, e: SignedEventModel)
    ensures
        admission(log.push(e), e) is Duplicate,
{
    let l = log.push(e);
    assert(id_of(l[log.len() as int]) == id_of(e));
}

/// Accepting an event keeps every author's chain free of gaps and linked
/// through `prev_self`: the log stays a set of hash chains.
pub proof fn law_accept_keeps_chains(log: Seq<SignedEventModel>, e: SignedEventModel)
    requires
        slots_unique(log),
        chains_gap_free(log),
        chains_linked(log),
        admission(log, e) is Accept,
    ensures
        slots_unique(log.push(e)),
        chains_gap_free(log.push(e)),
        chains_linked(log.push(e)),
{
    let l = log.push(e);
    let c = community_in(e);
    let a = e.event.author;
    let n = e.event.seq;
    assert(!slot_taken(log, c, a, n as int));
    assert forall|i: int, j: int| 0 <= i < j < l.len() implies !in_slot(
        #[trigger] l[i],
        community_in(#[trigger] l[j]),
        l[j].event.author,
        l[j].event.seq as int,
    ) by {
        assert(l[i] == log[i]);
        if j < log.len() {
            assert(l[j] == log[j]);
        }
    }
    // A position held in the old log is held at the same entry in the new.
    assert forall|cc: Seq<u8>, aa: Seq<u8>, k: int| slot_taken(log, cc, aa, k) implies slot_taken(l, cc, aa, k)
        && slot_index(l, cc, aa, k) == slot_index(log, cc, aa, k) by {
        let p = slot_index(log, cc, aa, k);
        assert(l[p] == log[p]);
        assert(in_slot(l[p], cc, aa, k));
        let q = slot_index(l, cc, aa, k);
        if q != p {
            if q < p {
                assert(l[q] == log[q]);
                assert(!in_slot(l[q], community_in(l[p]), l[p].event.author, l[p].event.seq as int));
            } else {
                assert(!in_slot(l[p], community_in(l[q]), l[q].event.author, l[q].event.seq as int));
            }
        }
    }
    assert forall|i: int| 0 <= i < l.len() && (#[trigger] l[i]).event.seq > 0 implies slot_taken(
        l,
        community_in(l[i]),
        l[i].event.author,
        l[i].event.seq - 1,
    ) by {
        if i < log.len() {
            assert(l[i] == log[i]);
        }
    }
    assert forall|i: int| 0 <= i < l.len() && (#[trigger] l[i]).event.seq > 0 implies l[i].event.prev_self == Some(
        id_of(l[slot_index(l, community_in(l[i]), l[i].event.author, l[i].event.seq - 1)]),
    ) by {
        if i < log.len() {
            assert(l[i] == log[i]);
        } else {
            assert(l[i] == e);
        }
    }
}

/// Every position held in an author's chain is at or below the highest one
/// the frontier records for them.
pub proof fn lemma_held_below_max(log: Seq<SignedEventModel>, c: Seq<u8>, a: Seq<u8>, k: int)
    requires
        slot_taken(log, c, a, k),
    ensures
        pairs_max(chain_pairs(log, c)).contains_key(a),
        k <= pairs_max(chain_pairs(log, c))[a],
    decreases log.len(),
{
    let rest = log.drop_last();
    let s = log.last();
    let i = choose|i: int| 0 <= i < log.len() && #[trigger] in_slot(log[i], c, a, k);
    if community_in(s) == c {
        assert(chain_pairs(log, c).drop_last() =~= chain_pairs(rest, c));
    }
    if i < log.len() - 1 {
        assert(log[i] == rest[i]);
        assert(in_slot(rest[i], c, a, k));
        lemma_held_below_max(rest, c, a, k);
        if community_in(s) == c {
            crate::proto::frontier::law_observe_is_monotone(pairs_max(chain_pairs(rest, c)), s.event.author, s.event.seq, a);
        }
    } else {
        assert(log[i] == s);
    }
}

/// The head of an author's chain sits at the highest position the frontier
/// records for them, in an entry the log holds.
pub proof fn lemma_head_is_max(log: Seq<SignedEventModel>, c: Seq<u8>, a: Seq<u8>)
    ensures
        head_of(log, c, a) is Some <==> pairs_max(chain_pairs(log, c)).contains_key(a),
        head_of(log, c, a) matches Some((n, id)) ==> n == pairs_max(chain_pairs(log, c))[a] && exists|j: int|
            0 <= j < log.len() && #[trigger] in_slot(log[j], c, a, n as int) && id_of(log[j]) == id,
    decreases log.len(),
{
    if log.len() > 0 {
        let rest = log.drop_last();
        let s = log.last();
        lemma_head_is_max(rest, c, a);
        if community_in(s) == c {
            assert(chain_pairs(log, c).drop_last() =~= chain_pairs(rest, c));
        }
        match head_of(rest, c, a) {
            Some((n, id)) => {
                let j = choose|j: int| 0 <= j < rest.len() && #[trigger] in_slot(rest[j], c, a, n as int) && id_of(rest[j]) == id;
                assert(log[j] == rest[j]);
                assert(in_slot(log[j], c, a, n as int));
            },
            None => {},
        }
        if community_in(s) == c && s.event.author == a {
            assert(in_slot(log[log.len() - 1], c, a, s.event.seq as int));
        }
    }
}

/// The sequence a frontier holds for an author is a position the log holds.
pub proof fn lemma_frontier_value_held(log: Seq<SignedEventModel>, c: Seq<u8>, a: Seq<u8>)
    requires
        pairs_max(chain_pairs(log, c)).contains_key(a),
    ensures
        slot_taken(log, c, a, pairs_max(chain_pairs(log, c))[a] as int),
    decreases log.len(),
{
    let rest = log.drop_last();
    let s = log.last();
    let held_rest = |k: int| slot_taken(rest, c, a, k);
    assert forall|k: int| slot_taken(rest, c, a, k) implies slot_taken(log, c, a, k) by {
        let i = slot_index(rest, c, a, k);
        assert(log[i] == rest[i]);
        assert(in_slot(log[i], c, a, k));
    }
    let last_here = in_slot(s, c, a, s.event.seq as int);
    if community_in(s) == c {
        assert(chain_pairs(log, c) == chain_pairs(rest, c).push((s.event.author, s.event.seq)));
        let m = pairs_max(chain_pairs(rest, c));
        assert(chain_pairs(log, c).drop_last() =~= chain_pairs(rest, c));
        if s.event.author == a {
            assert(in_slot(log[log.len() - 1], c, a, s.event.seq as int));
            if m.contains_key(a) && m[a] > s.event.seq {
                lemma_frontier_value_held(rest, c, a);
            }
        } else {
            lemma_frontier_value_held(rest, c, a);
        }
    } else {
        lemma_frontier_value_held(rest, c, a);
    }
}

/// A chain gap-free up to position `n` holds every position below it.
pub proof fn lemma_slots_below(log: Seq<SignedEventModel>, c: Seq<u8>, a: Seq<u8>, n: int)
    requires
        chains_gap_free(log),
        0 <= n,
        slot_taken(log, c, a, n),
    ensures
        forall|k: int| 0 <= k <= n ==> slot_taken(log, c, a, k),
    decreases n,
{
    if n > 0 {
        let i = slot_index(log, c, a, n);
        assert(in_slot(log[i], c, a, n));
        assert(slot_taken(log, community_in(log[i]), log[i].event.author, log[i].event.seq - 1));
        lemma_slots_below(log, c, a, n - 1);
    }
}

/// A chain that reaches position `n` has `n + 1` entries in the log, so the
/// log is longer than `n`.
pub proof fn lemma_chain_fits(log: Seq<SignedEventModel>, c: Seq<u8>, a: Seq<u8>, n: int)
    requires
        chains_gap_free(log),
        slots_unique(log),
        0 <= n,
        slot_taken(log, c, a, n),
    ensures
        n < log.len(),
{
    lemma_slots_below(log, c, a, n);
    let x = vstd::set_lib::set_int_range(0, n + 1);
    let f = |k: int| slot_index(log, c, a, k);
    let y = x.map(f);
    vstd::set_lib::lemma_int_range(0, n + 1);
    assert forall|k1: int, k2: int| x.contains(k1) && x.contains(k2) && #[trigger] f(k1) == #[trigger] f(k2) implies k1 == k2 by {
        assert(slot_taken(log, c, a, k1));
        assert(slot_taken(log, c, a, k2));
        assert(in_slot(log[f(k1)], c, a, k1));
        assert(in_slot(log[f(k2)], c, a, k2));
    }
    vstd::set_lib::lemma_map_size(x, y, f);
    let z = vstd::set_lib::set_int_range(0, log.len() as int);
    vstd::set_lib::lemma_int_range(0, log.len() as int);
    assert forall|i: int| y.contains(i) implies z.contains(i) by {
        let k = choose|k: int| x.contains(k) && f(k) == i;
        assert(slot_taken(log, c, a, k));
    }
    vstd::set_lib::lemma_len_subset(y, z);
}

impl EventLog {
    /// An author's chain can always grow: the highest position held is
    /// below `u64::MAX`, because reaching it would take more events than a
    /// log can hold.
    pub proof fn lemma_chain_has_room(&self, c: Seq<u8>, a: Seq<u8>)
        requires
            self.wf(),
        ensures
            pairs_max(chain_pairs(self.log(), c)).contains_key(a) ==> pairs_max(chain_pairs(self.log(), c))[a]
                < u64::MAX,
    {
        if pairs_max(chain_pairs(self.log(), c)).contains_key(a) {
            let n = pairs_max(chain_pairs(self.log(), c))[a];
            lemma_frontier_value_held(self.log(), c, a);
            lemma_chain_fits(self.log(), c, a, n as int);
            assert(self.log().len() == self.entries@.len());
            assert(self.entries.len() == self.entries@.len());
        }
    }
}

} // verus!
