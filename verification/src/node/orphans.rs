//! Events waiting on a predecessor that has not arrived yet.
//!
//! Gossip has no ordering guarantee, so a message can easily overtake the one
//! before it. Rather than reject and re-fetch, a node holds it for the moment
//! and lets it fall into place once its predecessor is stored: the common
//! case costs nothing, and sync remains the backstop for everything else.

use vstd::prelude::*;

use crate::proto::event::{SignedEvent, SignedEventModel};
use crate::proto::ids::EventId;
use crate::store::history::events_view;
use crate::store::log::{community_in, id_of};

verus! {

/// How many events are held back before the oldest is dropped. Anything
/// dropped is recovered by the next sync round, so this is a memory bound
/// rather than a correctness one.
pub const MAX_ORPHANS: usize = 2048;

/// The event one cannot be applied without: the author's previous event, or
/// the community's genesis when even that is missing.
pub open spec fn dependency_of(e: SignedEventModel) -> Seq<u8> {
    match e.event.prev_self {
        Some(p) => p,
        None => community_in(e),
    }
}

/// The events parked on `dep`, in arrival order.
pub open spec fn waiting_on(s: Seq<(Seq<u8>, SignedEventModel)>, dep: Seq<u8>) -> Seq<SignedEventModel>
    decreases s.len(),
{
    if s.len() == 0 {
        seq![]
    } else {
        let rest = waiting_on(s.drop_last(), dep);
        if s.last().0 == dep {
            rest.push(s.last().1)
        } else {
            rest
        }
    }
}

/// The entries not parked on `dep`, in arrival order.
pub open spec fn not_waiting_on(s: Seq<(Seq<u8>, SignedEventModel)>, dep: Seq<u8>) -> Seq<(Seq<u8>, SignedEventModel)>
    decreases s.len(),
{
    if s.len() == 0 {
        seq![]
    } else {
        let rest = not_waiting_on(s.drop_last(), dep);
        if s.last().0 == dep {
            rest
        } else {
            rest.push(s.last())
        }
    }
}

/// Whether an event with this id is parked.
pub open spec fn parks_id(s: Seq<(Seq<u8>, SignedEventModel)>, id: Seq<u8>) -> bool {
    exists|i: int| 0 <= i < s.len() && id_of(#[trigger] s[i].1) == id
}

/// What `park` leaves behind: the event appended unless already held, and
/// the oldest entry dropped when that goes over the bound.
pub open spec fn parked_after(s: Seq<(Seq<u8>, SignedEventModel)>, e: SignedEventModel) -> Seq<(Seq<u8>, SignedEventModel)> {
    if parks_id(s, id_of(e)) {
        s
    } else {
        let grown = s.push((dependency_of(e), e));
        if grown.len() > MAX_ORPHANS {
            grown.skip(1)
        } else {
            grown
        }
    }
}

pub open spec fn deps_ok(s: Seq<(Seq<u8>, SignedEventModel)>) -> bool {
    forall|i: int| 0 <= i < s.len() ==> (#[trigger] s[i]).0 == dependency_of(s[i].1)
}

/// Filtering keeps the bound and the bookkeeping.
proof fn lemma_not_waiting(s: Seq<(Seq<u8>, SignedEventModel)>, dep: Seq<u8>)
    requires
        deps_ok(s),
    ensures
        not_waiting_on(s, dep).len() <= s.len(),
        deps_ok(not_waiting_on(s, dep)),
    decreases s.len(),
{
    if s.len() > 0 {
        lemma_not_waiting(s.drop_last(), dep);
        let rest = not_waiting_on(s.drop_last(), dep);
        assert(s.drop_last().len() == s.len() - 1);
        if s.last().0 != dep {
            assert forall|i: int| 0 <= i < rest.push(s.last()).len() implies (#[trigger] rest.push(
                s.last(),
            )[i]).0 == dependency_of(rest.push(s.last())[i].1) by {
                if i < rest.len() {
                    assert(rest.push(s.last())[i] == rest[i]);
                }
            }
        }
    }
}

/// Taking the entries parked on `dep` splits the buffer in two: what waits
/// on `dep`, which all came from the buffer, and the rest.
pub proof fn lemma_split_parked(s: Seq<(Seq<u8>, SignedEventModel)>, dep: Seq<u8>)
    ensures
        waiting_on(s, dep).len() + not_waiting_on(s, dep).len() == s.len(),
        forall|x: SignedEventModel| #[trigger] waiting_on(s, dep).contains(x) ==> s.contains((dep, x)),
        forall|y: (Seq<u8>, SignedEventModel)| #[trigger] not_waiting_on(s, dep).contains(y) ==> s.contains(y),
    decreases s.len(),
{
    if s.len() > 0 {
        let r = s.drop_last();
        lemma_split_parked(r, dep);
        assert forall|x: SignedEventModel| #[trigger] waiting_on(s, dep).contains(x) implies s.contains((dep, x)) by {
            if waiting_on(r, dep).contains(x) {
                let k = choose|k: int| 0 <= k < r.len() && r[k] == (dep, x);
                assert(s[k] == r[k]);
            } else {
                assert(s[s.len() - 1] == (dep, x));
            }
        }
        assert forall|y: (Seq<u8>, SignedEventModel)| #[trigger] not_waiting_on(s, dep).contains(y) implies s.contains(y) by {
            if not_waiting_on(r, dep).contains(y) {
                let k = choose|k: int| 0 <= k < r.len() && r[k] == y;
                assert(s[k] == r[k]);
            } else {
                assert(s[s.len() - 1] == y);
            }
        }
    }
}

/// Events held back, each with the event it waits for, in arrival order.
pub struct OrphanBuffer {
    parked: Vec<(EventId, SignedEvent)>,
}

impl OrphanBuffer {
    /// What is parked, oldest first, as (dependency, event).
    pub closed spec fn parked(&self) -> Seq<(Seq<u8>, SignedEventModel)> {
        self.parked@.map_values(|p: (EventId, SignedEvent)| (p.0@, p.1@))
    }

    pub closed spec fn wf(&self) -> bool {
        &&& self.parked@.len() <= MAX_ORPHANS
        &&& deps_ok(self.parked())
    }

    pub fn new() -> (b: OrphanBuffer)
        ensures
            b.wf(),
            b.parked() == Seq::<(Seq<u8>, SignedEventModel)>::empty(),
    {
        let b = OrphanBuffer { parked: Vec::new() };
        assert(b.parked() =~= Seq::<(Seq<u8>, SignedEventModel)>::empty());
        b
    }

    /// The event this one cannot be applied without.
    pub fn dependency(event: &SignedEvent) -> (d: EventId)
        ensures
            d@ == dependency_of(event@),
    {
        match event.event.prev_self {
            Some(p) => p,
            None => EventId::from_bytes(*event.community_id().as_bytes()),
        }
    }

    /// Whether an event with this id is parked.
    pub fn holds(&self, id: &EventId) -> (b: bool)
        ensures
            b == parks_id(self.parked(), id@),
    {
        let ghost s = self.parked();
        let mut i: usize = 0;
        while i < self.parked.len()
            invariant
                s == self.parked(),
                s.len() == self.parked@.len(),
                i <= s.len(),
                forall|k: int| 0 <= k < i ==> id_of(#[trigger] s[k].1) != id@,
            decreases s.len() - i,
        {
            assert(s[i as int] == (self.parked@[i as int].0@, self.parked@[i as int].1@));
            if self.parked[i].1.id() == *id {
                assert(id_of(s[i as int].1) == id@);
                return true;
            }
            i += 1;
        }
        false
    }

    /// Holds an event until what it depends on arrives. An event already
    /// held is not held twice; past the bound, the oldest is dropped.
    pub fn park(&mut self, event: SignedEvent)
        requires
            old(self).wf(),
        ensures
            final(self).wf(),
            final(self).parked() == parked_after(old(self).parked(), event@),
            final(self).parked().len() <= MAX_ORPHANS,
    {
        let ghost s = self.parked();
        let id = event.id();
        if self.holds(&id) {
            return;
        }
        assert(!parks_id(s, id_of(event@)));
        let dep = Self::dependency(&event);
        self.parked.push((dep, event));
        assert(self.parked() =~= s.push((dependency_of(event@), event@)));
        if self.parked.len() > MAX_ORPHANS {
            let ghost grown = self.parked();
            self.parked.remove(0);
            assert(self.parked() =~= grown.skip(1));
        }
        assert forall|k: int| 0 <= k < self.parked().len() implies (#[trigger] self.parked()[k]).0
            == dependency_of(self.parked()[k].1) by {
            let grown = s.push((dependency_of(event@), event@));
            if grown.len() > MAX_ORPHANS {
                assert(self.parked()[k] == grown[k + 1]);
            } else {
                assert(self.parked()[k] == grown[k]);
            }
            if k < s.len() && !(grown.len() > MAX_ORPHANS && k + 1 == s.len()) {
            }
        }
    }

    /// Removes and returns everything that was waiting on `id`.
    pub fn take(&mut self, id: &EventId) -> (events: Vec<SignedEvent>)
        requires
            old(self).wf(),
        ensures
            final(self).wf(),
            events_view(events@) == waiting_on(old(self).parked(), id@),
            final(self).parked() == not_waiting_on(old(self).parked(), id@),
            final(self).parked().len() <= MAX_ORPHANS,
    {
        let ghost s = self.parked();
        let mut held: Vec<(EventId, SignedEvent)> = Vec::new();
        std::mem::swap(&mut held, &mut self.parked);
        let mut kept: Vec<(EventId, SignedEvent)> = Vec::new();
        let mut out: Vec<SignedEvent> = Vec::new();
        let mut i: usize = 0;
        while i < held.len()
            invariant
                s == held@.map_values(|p: (EventId, SignedEvent)| (p.0@, p.1@)),
                s.len() == held@.len(),
                i <= s.len(),
                events_view(out@) == waiting_on(s.take(i as int), id@),
                kept@.map_values(|p: (EventId, SignedEvent)| (p.0@, p.1@)) == not_waiting_on(s.take(i as int), id@),
            decreases s.len() - i,
        {
            assert(s.take(i + 1).drop_last() =~= s.take(i as int));
            assert(s.take(i + 1).last() == s[i as int]);
            assert(s[i as int] == (held@[i as int].0@, held@[i as int].1@));
            let dep = held[i].0;
            let e = held[i].1.clone();
            let ghost before_out = out@;
            let ghost before_kept = kept@;
            if dep == *id {
                out.push(e);
                assert(events_view(out@) =~= events_view(before_out).push(e@));
            } else {
                kept.push((dep, e));
                assert(kept@.map_values(|p: (EventId, SignedEvent)| (p.0@, p.1@)) =~= before_kept.map_values(
                    |p: (EventId, SignedEvent)| (p.0@, p.1@),
                ).push((dep@, e@)));
            }
            i += 1;
        }
        assert(s.take(s.len() as int) =~= s);
        self.parked = kept;
        proof {
            lemma_not_waiting(s, id@);
        }
        out
    }

    /// How many events are held.
    pub fn len(&self) -> (n: usize)
        ensures
            n == self.parked().len(),
            self.wf() ==> n <= MAX_ORPHANS,
    {
        self.parked.len()
    }
}

/// Parking never holds more than `MAX_ORPHANS` events. An event already
/// parked changes nothing. Any other is kept, waiting on what it depends on,
/// so taking that dependency hands it back last; and when the buffer was
/// full, exactly the earliest parked event makes way for it.
pub proof fn law_park_keeps_the_newest(s: Seq<(Seq<u8>, SignedEventModel)>, e: SignedEventModel)
    requires
        s.len() <= MAX_ORPHANS,
    ensures
        parked_after(s, e).len() <= MAX_ORPHANS,
        parks_id(s, id_of(e)) ==> parked_after(s, e) == s,
        !parks_id(s, id_of(e)) ==> parked_after(s, e).len() == if s.len() < MAX_ORPHANS {
            s.len() + 1
        } else {
            MAX_ORPHANS as nat
        },
        !parks_id(s, id_of(e)) ==> waiting_on(parked_after(s, e), dependency_of(e)).len() > 0 && waiting_on(
            parked_after(s, e),
            dependency_of(e),
        ).last() == e,
        !parks_id(s, id_of(e)) && s.len() == MAX_ORPHANS ==> parked_after(s, e) == s.skip(1).push((dependency_of(e), e)),
        !parks_id(s, id_of(e)) && s.len() < MAX_ORPHANS ==> parked_after(s, e) == s.push((dependency_of(e), e)),
{
    if !parks_id(s, id_of(e)) {
        let grown = s.push((dependency_of(e), e));
        let after = parked_after(s, e);
        if s.len() == MAX_ORPHANS {
            assert(grown.skip(1) =~= s.skip(1).push((dependency_of(e), e)));
        }
        assert(after.last() == (dependency_of(e), e));
        assert(after.len() > 0);
    }
}

} // verus!
