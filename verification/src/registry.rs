//! The identity registry: a process-wide bijective index from stable object
//! identifier to the live handle that currently carries it.
//!
//! The registry is the single shared mutable resource of this core. Its two
//! mutators, [`Registry::bind`] and [`Registry::unbind`], are meant to be
//! driven synchronously by the attach/detach notifications of the enclosing
//! simulation framework, one event at a time; [`Registry::resolve`] is a
//! pure lookup safe under any number of concurrent readers. A duplicate
//! attach or an unmatched detach is an invariant violation of the
//! surrounding framework and is reported as a [`RegistryFault`], never
//! tolerated silently.

use vstd::prelude::*;

use crate::common::Id;

verus! {

/// The transient, run-local reference the simulation framework uses to
/// address a live object. It is opaque to the registry and not meaningful
/// across process runs.
#[derive(Debug, Clone, Copy, PartialEq, Eq, Hash, Structural)]
pub struct ObjectHandle(pub u64);

/// The two fatal fault kinds of the registry. Either one means the
/// surrounding framework broke its own attach/detach contract; neither is a
/// recoverable condition.
#[derive(Debug, Clone, Copy, PartialEq, Eq, Structural)]
pub enum RegistryFault {
    /// An identifier was attached while it was still bound.
    DuplicateIdentity,
    /// An identifier was detached while it was not bound.
    MissingIdentity,
}

/// The mathematical content of an entry list: identifier bytes mapped to
/// handles, later entries taking precedence (the registry keeps them
/// distinct, so precedence never matters for it).
pub open spec fn map_of(s: Seq<(Id, ObjectHandle)>) -> Map<Seq<u8>, ObjectHandle>
    decreases s.len(),
{
    if s.len() == 0 {
        Map::empty()
    } else {
        map_of(s.drop_last()).insert(s.last().0@, s.last().1)
    }
}

/// No two entries carry the same identifier.
pub open spec fn distinct_ids(s: Seq<(Id, ObjectHandle)>) -> bool {
    forall|i: int, j: int| 0 <= i < j < s.len() ==> s[i].0@ != s[j].0@
}

/// A key is in `map_of(s)` exactly when some entry carries it.
proof fn lemma_map_of_contains(s: Seq<(Id, ObjectHandle)>, k: Seq<u8>)
    ensures
        map_of(s).contains_key(k) <==> exists|i: int| 0 <= i < s.len() && s[i].0@ == k,
    decreases s.len(),
{
    if s.len() > 0 {
        lemma_map_of_contains(s.drop_last(), k);
        if s.last().0@ == k {
            assert(s[s.len() - 1].0@ == k);
        } else if map_of(s).contains_key(k) {
            let i = choose|i: int| 0 <= i < s.drop_last().len() && s.drop_last()[i].0@ == k;
            assert(s[i].0@ == k);
        } else if exists|i: int| 0 <= i < s.len() && s[i].0@ == k {
            let i = choose|i: int| 0 <= i < s.len() && s[i].0@ == k;
            assert(s.drop_last()[i].0@ == k);
        }
    }
}

/// With distinct identifiers, the map sends each entry's identifier to that
/// entry's handle.
proof fn lemma_map_of_get(s: Seq<(Id, ObjectHandle)>, i: int)
    requires
        distinct_ids(s),
        0 <= i < s.len(),
    ensures
        map_of(s).contains_key(s[i].0@),
        map_of(s)[s[i].0@] == s[i].1,
    decreases s.len(),
{
    lemma_map_of_contains(s, s[i].0@);
    if i == s.len() - 1 {
    } else {
        assert(distinct_ids(s.drop_last()));
        assert(s.drop_last()[i] == s[i]);
        lemma_map_of_get(s.drop_last(), i);
        assert(s[i].0@ != s.last().0@);
    }
}

/// Removing the entry at `i` from a distinct-identifier list removes exactly
/// that identifier from the map.
proof fn lemma_map_of_remove(s: Seq<(Id, ObjectHandle)>, i: int)
    requires
        distinct_ids(s),
        0 <= i < s.len(),
    ensures
        map_of(s.remove(i)) == map_of(s).remove(s[i].0@),
    decreases s.len(),
{
    let k = s[i].0@;
    if i == s.len() - 1 {
        assert(s.remove(i) =~= s.drop_last());
        lemma_map_of_contains(s.drop_last(), k);
        assert(forall|j: int| 0 <= j < s.drop_last().len() ==> s.drop_last()[j].0@ != k);
        assert(!map_of(s.drop_last()).contains_key(k));
        assert(map_of(s.drop_last()).insert(k, s.last().1).remove(k) =~= map_of(s.drop_last()));
    } else {
        assert(distinct_ids(s.drop_last()));
        lemma_map_of_remove(s.drop_last(), i);
        assert(s.remove(i).drop_last() =~= s.drop_last().remove(i));
        assert(s.remove(i).last() == s.last());
        assert(map_of(s.remove(i)) == map_of(s.drop_last().remove(i)).insert(
            s.last().0@,
            s.last().1,
        ));
        assert(k != s.last().0@);
        assert(map_of(s.drop_last()).remove(k).insert(s.last().0@, s.last().1) =~= map_of(
            s.drop_last(),
        ).insert(s.last().0@, s.last().1).remove(k));
    }
}

/// A distinct-identifier entry list maps to exactly as many bound
/// identifiers as it has entries: the index holds no duplicate.
proof fn lemma_map_of_dom_len(s: Seq<(Id, ObjectHandle)>)
    requires
        distinct_ids(s),
    ensures
        map_of(s).dom().finite(),
        map_of(s).dom().len() == s.len(),
    decreases s.len(),
{
    if s.len() > 0 {
        assert(distinct_ids(s.drop_last()));
        lemma_map_of_dom_len(s.drop_last());
        lemma_map_of_contains(s.drop_last(), s.last().0@);
        assert forall|j: int| 0 <= j < s.drop_last().len() implies s.drop_last()[j].0@
            != s.last().0@ by {
            assert(s[j].0@ != s[s.len() - 1].0@);
        }
        assert(!map_of(s.drop_last()).contains_key(s.last().0@));
        assert(map_of(s).dom() =~= map_of(s.drop_last()).dom().insert(s.last().0@));
    }
}

/// The identity registry itself: an in-memory index whose abstract value is
/// a finite map from identifier bytes to handles.
pub struct Registry {
    entries: Vec<(Id, ObjectHandle)>,
}

impl View for Registry {
    type V = Map<Seq<u8>, ObjectHandle>;

    closed spec fn view(&self) -> Map<Seq<u8>, ObjectHandle> {
        map_of(self.entries@)
    }
}

/// What a pure lookup returns on a registry whose abstract value is `m`.
pub open spec fn resolve_spec(m: Map<Seq<u8>, ObjectHandle>, id: Seq<u8>) -> Option<ObjectHandle> {
    if m.contains_key(id) {
        Some(m[id])
    } else {
        None
    }
}

impl Registry {
    /// The registry keeps exactly one entry per bound identifier.
    pub closed spec fn wf(&self) -> bool {
        distinct_ids(self.entries@)
    }

    /// An empty registry: no identifier is bound.
    pub fn new() -> (r: Registry)
        ensures
            r.wf(),
            r@ == Map::<Seq<u8>, ObjectHandle>::empty(),
    {
        Registry { entries: Vec::new() }
    }

    /// The number of bound identifiers. It equals the number of entries the
    /// index physically holds: the index carries no duplicate entry.
    pub fn len(&self) -> (r: usize)
        requires
            self.wf(),
        ensures
            r == self@.dom().len(),
    {
        proof {
            lemma_map_of_dom_len(self.entries@);
        }
        self.entries.len()
    }

    /// The index of the entry carrying `id`, if one exists.
    fn find_index(&self, id: &Id) -> (r: Option<usize>)
        ensures
            match r {
                Some(i) => i < self.entries@.len() && self.entries@[i as int].0@ == id@,
                None => forall|j: int| 0 <= j < self.entries@.len() ==> self.entries@[j].0@ != id@,
            },
    {
        let n: usize = self.entries.len();
        let mut i: usize = 0;
        while i < n
            invariant
                n == self.entries@.len(),
                i <= n,
                forall|j: int| 0 <= j < i ==> self.entries@[j].0@ != id@,
            decreases n - i,
        {
            if self.entries[i].0.equals(id) {
                return Some(i);
            }
            i = i + 1;
        }
        None
    }

    /// Pure lookup: the handle currently bound to `id`, or `None` when no
    /// live object carries that identifier — a normal, recoverable outcome.
    /// Never mutates, so any number of readers may call it concurrently as
    /// long as no bind/unbind is in flight.
    pub fn resolve(&self, id: &Id) -> (r: Option<ObjectHandle>)
        requires
            self.wf(),
        ensures
            r == resolve_spec(self@, id@),
    {
        proof {
            lemma_map_of_contains(self.entries@, id@);
        }
        match self.find_index(id) {
            Some(i) => {
                proof {
                    lemma_map_of_get(self.entries@, i as int);
                }
                Some(self.entries[i].1)
            },
            None => None,
        }
    }

    /// Inserts the mapping `id -> handle`. Reports the duplicate-identity
    /// fault — and changes nothing — exactly when `id` is already bound;
    /// otherwise the abstract map gains exactly this one entry.
    pub fn bind(&mut self, id: Id, handle: ObjectHandle) -> (r: Result<(), RegistryFault>)
        requires
            old(self).wf(),
        ensures
            final(self).wf(),
            old(self)@.contains_key(id@) ==> r == Err::<(), RegistryFault>(
                RegistryFault::DuplicateIdentity,
            ) && final(self)@ == old(self)@,
            !old(self)@.contains_key(id@) ==> r == Ok::<(), RegistryFault>(()) && final(self)@
                == old(self)@.insert(id@, handle),
    {
        proof {
            lemma_map_of_contains(self.entries@, id@);
        }
        match self.find_index(&id) {
            Some(_) => Err(RegistryFault::DuplicateIdentity),
            None => {
                self.entries.push((id, handle));
                proof {
                    let s = old(self).entries@;
                    assert(self.entries@.drop_last() =~= s);
                    assert(distinct_ids(self.entries@));
                }
                Ok(())
            },
        }
    }

    /// Removes the mapping for `id` and returns the handle it had. Reports
    /// the missing-identity fault — and changes nothing — exactly when `id`
    /// is not bound; otherwise the abstract map loses exactly this one
    /// entry.
    pub fn unbind(&mut self, id: &Id) -> (r: Result<ObjectHandle, RegistryFault>)
        requires
            old(self).wf(),
        ensures
            final(self).wf(),
            !old(self)@.contains_key(id@) ==> r == Err::<ObjectHandle, RegistryFault>(
                RegistryFault::MissingIdentity,
            ) && final(self)@ == old(self)@,
            old(self)@.contains_key(id@) ==> r == Ok::<ObjectHandle, RegistryFault>(
                old(self)@[id@],
            ) && final(self)@ == old(self)@.remove(id@),
    {
        proof {
            lemma_map_of_contains(self.entries@, id@);
        }
        match self.find_index(id) {
            Some(i) => {
                proof {
                    lemma_map_of_get(self.entries@, i as int);
                    lemma_map_of_remove(self.entries@, i as int);
                    let s = old(self).entries@;
                    assert forall|a: int, b: int|
                        0 <= a < b < s.remove(i as int).len() implies s.remove(i as int)[a].0@ != s.remove(
                        i as int,
                    )[b].0@ by {
                        let a0 = if a < i { a } else { a + 1 };
                        let b0 = if b < i { b } else { b + 1 };
                        assert(s.remove(i as int)[a] == s[a0]);
                        assert(s.remove(i as int)[b] == s[b0]);
                    }
                }
                let entry = self.entries.remove(i);
                Ok(entry.1)
            },
            None => Err(RegistryFault::MissingIdentity),
        }
    }
}

/// One lifecycle notification as the registry observes it: an object either
/// gained its identifier attribute (entered the live world, carrying a
/// handle) or lost it (left the live world).
pub enum LifecycleEvent {
    Attach { id: Seq<u8>, handle: ObjectHandle },
    Detach { id: Seq<u8> },
}

/// How one event changes the abstract registry map, or `None` when the
/// event is a fault: an attach of a bound identifier, or a detach of an
/// unbound one. [`Registry::bind`] and [`Registry::unbind`] realize exactly
/// the two arms of this function.
pub open spec fn step(m: Map<Seq<u8>, ObjectHandle>, e: LifecycleEvent) -> Option<
    Map<Seq<u8>, ObjectHandle>,
> {
    match e {
        LifecycleEvent::Attach { id, handle } => if m.contains_key(id) {
            None
        } else {
            Some(m.insert(id, handle))
        },
        LifecycleEvent::Detach { id } => if m.contains_key(id) {
            Some(m.remove(id))
        } else {
            None
        },
    }
}

/// The registry map after a whole event sequence, or `None` as soon as any
/// event faults.
pub open spec fn run(m: Map<Seq<u8>, ObjectHandle>, events: Seq<LifecycleEvent>) -> Option<
    Map<Seq<u8>, ObjectHandle>,
>
    decreases events.len(),
{
    if events.len() == 0 {
        Some(m)
    } else {
        match step(m, events[0]) {
            Some(m2) => run(m2, events.drop_first()),
            None => None,
        }
    }
}

/// A well-formed event sequence, starting from the live objects in `live`:
/// every identifier is attached only while not live and detached only while
/// live, and every attached handle is fresh — no currently-live object
/// already carries it. This is exactly the contract the simulation
/// framework owes the registry.
pub open spec fn well_formed_from(
    live: Map<Seq<u8>, ObjectHandle>,
    events: Seq<LifecycleEvent>,
) -> bool
    decreases events.len(),
{
    if events.len() == 0 {
        true
    } else {
        match events[0] {
            LifecycleEvent::Attach { id, handle } => !live.contains_key(id) && (forall|k: Seq<u8>|
                live.contains_key(k) ==> live[k] != handle) && well_formed_from(
                live.insert(id, handle),
                events.drop_first(),
            ),
            LifecycleEvent::Detach { id } => live.contains_key(id) && well_formed_from(
                live.remove(id),
                events.drop_first(),
            ),
        }
    }
}

/// The identifiers of the objects that are live after the events: those of
/// `live` not yet detached, plus those attached and not detached again.
pub open spec fn live_ids_from(live: Set<Seq<u8>>, events: Seq<LifecycleEvent>) -> Set<Seq<u8>>
    decreases events.len(),
{
    if events.len() == 0 {
        live
    } else {
        match events[0] {
            LifecycleEvent::Attach { id, handle } => live_ids_from(
                live.insert(id),
                events.drop_first(),
            ),
            LifecycleEvent::Detach { id } => live_ids_from(live.remove(id), events.drop_first()),
        }
    }
}

/// No two bound identifiers share a handle.
pub open spec fn injective(m: Map<Seq<u8>, ObjectHandle>) -> bool {
    forall|k1: Seq<u8>, k2: Seq<u8>|
        m.contains_key(k1) && m.contains_key(k2) && m[k1] == m[k2] ==> k1 == k2
}

/// Law: immediately after an attach of `id`, resolution of `id` returns
/// exactly the attached handle, and resolution of every other identifier is
/// unchanged — binding one object can neither hide nor redirect another.
pub proof fn lemma_resolve_after_bind(
    m: Map<Seq<u8>, ObjectHandle>,
    id: Seq<u8>,
    handle: ObjectHandle,
)
    ensures
        resolve_spec(m.insert(id, handle), id) == Some(handle),
        forall|other: Seq<u8>|
            other != id ==> resolve_spec(m.insert(id, handle), other) == resolve_spec(m, other),
{
}

/// Law: immediately after a detach of `id`, resolution of `id` returns
/// absence, and resolution of every other identifier is unchanged.
pub proof fn lemma_resolve_after_unbind(m: Map<Seq<u8>, ObjectHandle>, id: Seq<u8>)
    ensures
        resolve_spec(m.remove(id), id) is None,
        forall|other: Seq<u8>|
            other != id ==> resolve_spec(m.remove(id), other) == resolve_spec(m, other),
{
}

/// Law: attaching an identifier that is already bound is the
/// duplicate-identity fault, and detaching one that is not bound is the
/// missing-identity fault; a fresh attach and a matched detach never fault.
pub proof fn lemma_fault_conditions(
    m: Map<Seq<u8>, ObjectHandle>,
    id: Seq<u8>,
    handle: ObjectHandle,
)
    ensures
        step(m, LifecycleEvent::Attach { id, handle }) is None <==> m.contains_key(id),
        step(m, LifecycleEvent::Detach { id }) is None <==> !m.contains_key(id),
{
}

/// Law (bijection): a well-formed event sequence never faults, and after it
/// the registry map holds exactly the currently-live identifiers — each
/// bound to the handle of its own attach — and no two of them share a
/// handle.
pub proof fn lemma_run_well_formed(m: Map<Seq<u8>, ObjectHandle>, events: Seq<LifecycleEvent>)
    requires
        well_formed_from(m, events),
        injective(m),
    ensures
        run(m, events) is Some,
        run(m, events)->Some_0.dom() == live_ids_from(m.dom(), events),
        injective(run(m, events)->Some_0),
    decreases events.len(),
{
    if events.len() > 0 {
        match events[0] {
            LifecycleEvent::Attach { id, handle } => {
                let m2 = m.insert(id, handle);
                assert(injective(m2)) by {
                    assert forall|k1: Seq<u8>, k2: Seq<u8>|
                        m2.contains_key(k1) && m2.contains_key(k2) && m2[k1]
                            == m2[k2] implies k1 == k2 by {
                        if k1 != id && k2 != id {
                            assert(m[k1] == m[k2]);
                        }
                    }
                }
                lemma_run_well_formed(m2, events.drop_first());
                assert(m2.dom() =~= m.dom().insert(id));
            },
            LifecycleEvent::Detach { id } => {
                let m2 = m.remove(id);
                lemma_run_well_formed(m2, events.drop_first());
                assert(m2.dom() =~= m.dom().remove(id));
            },
        }
    }
}

/// Law (bijection, from the empty world): for every well-formed attach and
/// detach sequence — each identifier attached at most once before being
/// detached, each attached handle fresh — no event faults, and after the
/// whole sequence the registry's entries are exactly the live identifiers,
/// with no duplicate on either side of the mapping.
pub proof fn lemma_bijection(events: Seq<LifecycleEvent>)
    requires
        well_formed_from(Map::empty(), events),
    ensures
        run(Map::empty(), events) is Some,
        run(Map::empty(), events)->Some_0.dom() == live_ids_from(Set::empty(), events),
        injective(run(Map::empty(), events)->Some_0),
{
    lemma_run_well_formed(Map::empty(), events);
    assert(Map::<Seq<u8>, ObjectHandle>::empty().dom() =~= Set::<Seq<u8>>::empty());
}

} // verus!
