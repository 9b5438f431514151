//! The world: entity identities, per-type component storage, and the
//! singleton resource registry.
//!
//! Component and resource types are represented by stable `u64` keys chosen
//! by the surrounding application (one key per Rust type), and the stored
//! values by a single erased value type `V`; the typed view is recovered at
//! the boundary by the caller. Entities are generational handles: a slot
//! index plus the generation under which the handle was issued, so a handle
//! outlived by its entity is never mistaken for a later occupant of the same
//! slot.

use vstd::prelude::*;
use vstd::pervasive::VecAdditionalExecFns;
use crate::assoc::assoc_get;
use crate::assoc::assoc_has;
use crate::assoc::assoc_idx;
use crate::assoc::assoc_remove;
use crate::assoc::assoc_unique;
use crate::assoc::lemma_assoc_at;
use crate::assoc::lemma_assoc_none;
use crate::assoc::lemma_assoc_push;
use crate::assoc::lemma_assoc_remove_at;
use crate::assoc::lemma_assoc_update;
use crate::schedule::Stage;

verus! {

/// A stable handle to an entity: a slot index plus the generation the slot
/// carried when the handle was issued.
#[derive(Clone, Copy, PartialEq, Eq, Structural, Debug)]
pub struct Entity {
    pub id: usize,
    pub gen: u64,
}

/// The recoverable failures of the store: a singleton absent from the
/// registry, or a component lookup against a handle that is not live.
#[derive(Clone, Copy, PartialEq, Eq, Structural, Debug)]
pub enum WorldError {
    MissingResource,
    MissingComponent,
}

/// True when some cache row carries type key `k` and a path reading `path`.
pub(crate) open spec fn asset_has<V>(s: Seq<(u64, String, V)>, k: u64, path: Seq<char>) -> bool {
    exists|i: int| 0 <= i < s.len() && (#[trigger] s[i]).0 == k && s[i].1@ == path
}

pub(crate) open spec fn asset_idx<V>(s: Seq<(u64, String, V)>, k: u64, path: Seq<char>) -> int {
    choose|i: int| 0 <= i < s.len() && (#[trigger] s[i]).0 == k && s[i].1@ == path
}

pub(crate) open spec fn asset_get<V>(s: Seq<(u64, String, V)>, k: u64, path: Seq<char>) -> Option<
    V,
> {
    if asset_has(s, k, path) {
        Some(s[asset_idx(s, k, path)].2)
    } else {
        None
    }
}

/// No two cache rows carry the same type key and path.
pub(crate) open spec fn asset_unique<V>(s: Seq<(u64, String, V)>) -> bool {
    forall|i: int, j: int|
        0 <= i < j < s.len() ==> !((#[trigger] s[i]).0 == (#[trigger] s[j]).0 && s[i].1@
            == s[j].1@)
}

pub(crate) struct Slot {
    pub(crate) gen: u64,
    pub(crate) alive: bool,
    pub(crate) name: Option<String>,
}

/// The world owns every entity and component, the resource registry, the
/// asset cache, and the queue of system registrations made from inside a
/// running system.
pub struct World<V> {
    pub(crate) slots: Vec<Slot>,
    pub(crate) free: Vec<usize>,
    pub(crate) columns: Vec<(u64, Vec<(Entity, V)>)>,
    pub(crate) resources: Vec<(u64, V)>,
    pub(crate) assets: Vec<(u64, String, V)>,
    pub(crate) pending: Vec<(Stage, u64)>,
}

impl<V> World<V> {
    /// The handle `e` names an entity that is currently alive.
    pub closed spec fn live(self, e: Entity) -> bool {
        &&& e.id < self.slots@.len()
        &&& self.slots@[e.id as int].alive
        &&& self.slots@[e.id as int].gen == e.gen
    }

    /// The handle `e` could already have been issued by this world: its slot
    /// exists and its generation does not exceed the slot's. Every handle
    /// `spawn` returns is fresh (not yet known) at the moment of the call,
    /// and once known a handle stays known.
    pub closed spec fn known(self, e: Entity) -> bool {
        &&& e.id < self.slots@.len()
        &&& e.gen <= self.slots@[e.id as int].gen
    }

    /// The display name a live entity was spawned with, if any.
    pub closed spec fn name_of(self, e: Entity) -> Option<Seq<char>> {
        if self.live(e) {
            match self.slots@[e.id as int].name {
                Some(s) => Some(s@),
                None => None,
            }
        } else {
            None
        }
    }

    /// The component column for type key `k`, in insertion order.
    pub closed spec fn components(self, k: u64) -> Seq<(Entity, V)> {
        match assoc_get(self.columns@, k) {
            Some(col) => col@,
            None => Seq::empty(),
        }
    }

    /// The component of type `k` attached to `e`, if any.
    pub open spec fn component_at(self, k: u64, e: Entity) -> Option<V> {
        assoc_get(self.components(k), e)
    }

    /// The singleton resource registered under type key `k`, if any.
    pub closed spec fn resource_at(self, k: u64) -> Option<V> {
        assoc_get(self.resources@, k)
    }

    /// The cached asset for type key `k` and source path `path`, if any.
    pub closed spec fn asset_at(self, k: u64, path: Seq<char>) -> Option<V> {
        asset_get(self.assets@, k, path)
    }

    /// System registrations queued by running systems, in registration order.
    pub closed spec fn pending_view(self) -> Seq<(Stage, u64)> {
        self.pending@
    }

    pub(crate) open spec fn column_wf(self, es: Seq<(Entity, V)>) -> bool {
        &&& assoc_unique(es)
        &&& forall|j: int| 0 <= j < es.len() ==> self.live((#[trigger] es[j]).0)
    }

    /// The store's internal invariant: unique keys throughout, free slots
    /// dead and listed once, and every stored component attached to a live
    /// entity.
    pub closed spec fn wf(self) -> bool {
        &&& assoc_unique(self.resources@)
        &&& assoc_unique(self.columns@)
        &&& forall|ci: int|
            0 <= ci < self.columns@.len() ==> self.column_wf((#[trigger] self.columns@[ci]).1@)
        &&& forall|fi: int|
            0 <= fi < self.free@.len() ==> (#[trigger] self.free@[fi]) < self.slots@.len()
                && !self.slots@[self.free@[fi] as int].alive
        &&& forall|fi: int, fj: int|
            0 <= fi < fj < self.free@.len() ==> (#[trigger] self.free@[fi]) != (
            #[trigger] self.free@[fj])
        &&& asset_unique(self.assets@)
    }

    /// An empty world: no entities, no components, no resources, no cached
    /// assets, no queued registrations.
    pub fn new() -> (w: World<V>)
        ensures
            w.wf(),
            forall|e: Entity| !w.live(e) && !w.known(e),
            forall|k: u64| w.components(k) == Seq::<(Entity, V)>::empty(),
            forall|k: u64| w.resource_at(k) == None::<V>,
            forall|k: u64, p: Seq<char>| w.asset_at(k, p) == None::<V>,
            w.pending_view() == Seq::<(Stage, u64)>::empty(),
    {
        let w = World {
            slots: Vec::new(),
            free: Vec::new(),
            columns: Vec::new(),
            resources: Vec::new(),
            assets: Vec::new(),
            pending: Vec::new(),
        };
        proof {
            assert(forall|k: u64| !assoc_has(w.columns@, k));
            assert(forall|k: u64| !assoc_has(w.resources@, k));
        }
        w
    }

    /// Whether `e` is a live handle: issued by `spawn` and not yet despawned.
    pub fn is_live(&self, e: Entity) -> (r: bool)
        ensures
            r == self.live(e),
    {
        e.id < self.slots.len() && {
            let s = &self.slots[e.id];
            s.alive && s.gen == e.gen
        }
    }

    /// Allocates a fresh entity, optionally tagged with a display name, and
    /// returns its handle. The handle differs from every handle this world
    /// has ever issued: a reused slot comes back under a strictly larger
    /// generation.
    pub fn spawn(&mut self, name: Option<String>) -> (e: Entity)
        requires
            old(self).wf(),
        ensures
            final(self).wf(),
            final(self).live(e),
            !old(self).live(e),
            !old(self).known(e),
            final(self).known(e),
            forall|e2: Entity| e2 != e ==> final(self).live(e2) == old(self).live(e2),
            forall|e2: Entity| old(self).known(e2) ==> final(self).known(e2),
            forall|e2: Entity| e2 != e ==> final(self).name_of(e2) == old(self).name_of(e2),
            final(self).name_of(e) == (match name {
                Some(s) => Some(s@),
                None => None::<Seq<char>>,
            }),
            forall|k: u64| final(self).components(k) == old(self).components(k),
            forall|k: u64| final(self).resource_at(k) == old(self).resource_at(k),
            forall|k: u64, p: Seq<char>| final(self).asset_at(k, p) == old(self).asset_at(k, p),
            final(self).pending_view() == old(self).pending_view(),
    {
        let fl = self.free.len();
        if fl > 0 {
            let id = self.free.remove(fl - 1);
            let g = self.slots[id].gen;
            if g < u64::MAX {
                self.slots.set(id, Slot { gen: g + 1, alive: true, name });
                let e = Entity { id, gen: g + 1 };
                proof {
                    self.lemma_spawn_slot_change(*old(self), e);
                }
                return e;
            }
            // The slot's generation space is exhausted: it is retired (no
            // longer on the free list) and a fresh slot is allocated instead.
        }
        let id = self.slots.len();
        self.slots.push(Slot { gen: 0, alive: true, name });
        let e = Entity { id, gen: 0 };
        proof {
            self.lemma_spawn_slot_change(*old(self), e);
        }
        e
    }

    /// After a spawn touched only the slot of `e` (making it live under a
    /// generation no old handle reaches), the slot-independent parts of the
    /// model are untouched and the invariant is preserved.
    proof fn lemma_spawn_slot_change(&self, prev: World<V>, e: Entity)
        requires
            prev.wf(),
            self.columns == prev.columns,
            self.resources == prev.resources,
            self.assets == prev.assets,
            self.pending == prev.pending,
            self.live(e),
            !prev.known(e),
            e.id < self.slots@.len(),
            // slots agree everywhere but at e.id, which only grew in generation
            prev.slots@.len() <= self.slots@.len() <= prev.slots@.len() + 1,
            self.slots@.len() > prev.slots@.len() ==> e.id == prev.slots@.len(),
            forall|i: int|
                0 <= i < prev.slots@.len() && i != e.id ==> self.slots@[i] == prev.slots@[i],
            e.id < prev.slots@.len() ==> prev.slots@[e.id as int].gen < self.slots@[e.id as int].gen
                && !prev.slots@[e.id as int].alive,
            // the free list lost at most the entry for e.id and gained none
            forall|fi: int|
                0 <= fi < self.free@.len() ==> exists|fj: int|
                    0 <= fj < prev.free@.len() && #[trigger] self.free@[fi] == prev.free@[fj],
            forall|fi: int, fj: int|
                0 <= fi < fj < self.free@.len() ==> (#[trigger] self.free@[fi]) != (
                #[trigger] self.free@[fj]),
            forall|fi: int| 0 <= fi < self.free@.len() ==> (#[trigger] self.free@[fi]) != e.id,
        ensures
            self.wf(),
            forall|e2: Entity| e2 != e ==> self.live(e2) == prev.live(e2),
            forall|e2: Entity| prev.known(e2) ==> self.known(e2),
            forall|e2: Entity| e2 != e ==> self.name_of(e2) == prev.name_of(e2),
            forall|k: u64| self.components(k) == prev.components(k),
    {
        assert forall|e2: Entity| e2 != e implies self.live(e2) == prev.live(e2) by {
            if e2.id != e.id {
                if e2.id < prev.slots@.len() {
                    assert(self.slots@[e2.id as int] == prev.slots@[e2.id as int]);
                } else if e2.id < self.slots@.len() {
                    // a freshly pushed slot is the one e names
                    assert(e.id == e2.id);
                }
            } else {
                // same slot, different generation: at most one of them matches
                if e2.id < prev.slots@.len() {
                    assert(!prev.slots@[e2.id as int].alive);
                    assert(!prev.live(e2));
                    assert(self.slots@[e2.id as int].gen == e.gen);
                    assert(e2.gen != e.gen);
                }
            }
        }
        assert forall|e2: Entity| prev.known(e2) implies self.known(e2) by {
            if e2.id != e.id {
                assert(self.slots@[e2.id as int] == prev.slots@[e2.id as int]);
            }
        }
        assert forall|e2: Entity| e2 != e implies self.name_of(e2) == prev.name_of(e2) by {
            if e2.id != e.id {
                if e2.id < prev.slots@.len() {
                    assert(self.slots@[e2.id as int] == prev.slots@[e2.id as int]);
                }
            }
        }
        assert forall|ci: int|
            0 <= ci < self.columns@.len() implies self.column_wf(
            (#[trigger] self.columns@[ci]).1@,
        ) by {
            let es = prev.columns@[ci].1@;
            assert(prev.column_wf(es));
            assert forall|j: int| 0 <= j < es.len() implies self.live((#[trigger] es[j]).0) by {
                assert(prev.live(es[j].0));
                assert(es[j].0 != e);
            }
        }
        assert forall|k: u64| self.components(k) == prev.components(k) by {
            assert(self.columns@ == prev.columns@);
        }
    }

    fn find_col(&self, key: u64) -> (r: Option<usize>)
        ensures
            match r {
                Some(i) => i < self.columns@.len() && self.columns@[i as int].0 == key,
                None => forall|i: int|
                    0 <= i < self.columns@.len() ==> (#[trigger] self.columns@[i]).0 != key,
            },
    {
        let n = self.columns.len();
        let mut i: usize = 0;
        while i < n
            invariant
                i <= n,
                n == self.columns@.len(),
                forall|j: int| 0 <= j < i ==> (#[trigger] self.columns@[j]).0 != key,
            decreases n - i,
        {
            if self.columns[i].0 == key {
                return Some(i);
            }
            i += 1;
        }
        None
    }

    fn find_res(&self, key: u64) -> (r: Option<usize>)
        ensures
            match r {
                Some(i) => i < self.resources@.len() && self.resources@[i as int].0 == key,
                None => forall|i: int|
                    0 <= i < self.resources@.len() ==> (#[trigger] self.resources@[i]).0 != key,
            },
    {
        let n = self.resources.len();
        let mut i: usize = 0;
        while i < n
            invariant
                i <= n,
                n == self.resources@.len(),
                forall|j: int| 0 <= j < i ==> (#[trigger] self.resources@[j]).0 != key,
            decreases n - i,
        {
            if self.resources[i].0 == key {
                return Some(i);
            }
            i += 1;
        }
        None
    }

    /// Destroys the entity `e` and every component attached to it; a handle
    /// that is not live is ignored. The handle stays invalid forever: even a
    /// later reuse of its slot comes back under a different generation.
    pub fn despawn(&mut self, e: Entity)
        requires
            old(self).wf(),
        ensures
            final(self).wf(),
            !final(self).live(e),
            final(self).name_of(e) == None::<Seq<char>>,
            forall|e2: Entity| e2 != e ==> final(self).live(e2) == old(self).live(e2),
            forall|e2: Entity| old(self).known(e2) ==> final(self).known(e2),
            forall|e2: Entity| e2 != e ==> final(self).name_of(e2) == old(self).name_of(e2),
            forall|k: u64|
                final(self).components(k) == assoc_remove(old(self).components(k), e),
            forall|k: u64| final(self).resource_at(k) == old(self).resource_at(k),
            forall|k: u64, p: Seq<char>| final(self).asset_at(k, p) == old(self).asset_at(k, p),
            final(self).pending_view() == old(self).pending_view(),
    {
        if !self.is_live(e) {
            proof {
                assert forall|k: u64|
                    final(self).components(k) == assoc_remove(old(self).components(k), e) by {
                    self.lemma_dead_entity_has_no_components(k, e);
                    if assoc_has(self.components(k), e) {
                        assert(self.component_at(k, e) is Some);
                    }
                }
            }
            return ;
        }
        let g = self.slots[e.id].gen;
        // the slot keeps its generation while dead; reuse bumps it, so the
        // despawned handle can never match again
        self.slots.set(e.id, Slot { gen: g, alive: false, name: None });
        self.free.push(e.id);
        let ghost mid = *self;
        proof {
            assert forall|fi: int, fj: int|
                0 <= fi < fj < self.free@.len() implies (#[trigger] self.free@[fi]) != (
            #[trigger] self.free@[fj]) by {
                if fj == self.free@.len() - 1 {
                    // e.id was alive before, so it was not on the old free list
                    assert(self.free@[fj] == e.id);
                    assert(old(self).free@[fi] == self.free@[fi]);
                    assert(!old(self).slots@[old(self).free@[fi] as int].alive);
                    assert(old(self).slots@[e.id as int].alive);
                }
            }
        }
        let n = self.columns.len();
        let mut ci: usize = 0;
        while ci < n
            invariant
                ci <= n,
                n == self.columns@.len(),
                self.columns@.len() == old(self).columns@.len(),
                self.slots == mid.slots,
                self.free == mid.free,
                self.resources == mid.resources,
                self.assets == mid.assets,
                self.pending == mid.pending,
                mid.columns == old(self).columns,
                old(self).wf(),
                old(self).live(e),
                mid.slots@.len() == old(self).slots@.len(),
                forall|i: int|
                    0 <= i < mid.slots@.len() && i != e.id ==> mid.slots@[i] == old(
                        self,
                    ).slots@[i],
                !mid.slots@[e.id as int].alive,
                mid.slots@[e.id as int].gen == old(self).slots@[e.id as int].gen,
                forall|c: int|
                    ci <= c < n ==> self.columns@[c] == old(self).columns@[c],
                forall|c: int|
                    0 <= c < ci ==> (#[trigger] self.columns@[c]).0 == old(self).columns@[c].0
                        && self.columns@[c].1@ == assoc_remove(old(self).columns@[c].1@, e),
            decreases n - ci,
        {
            let hit = find_entry(&self.columns[ci].1, e);
            match hit {
                Some(ei) => {
                    proof {
                        assert(self.columns@[ci as int] == old(self).columns@[ci as int]);
                        let es = self.columns@[ci as int].1@;
                        assert(old(self).column_wf(old(self).columns@[ci as int].1@));
                        lemma_assoc_remove_at(es, ei as int);
                    }
                    let c = vec_mut(&mut self.columns, ci);
                    let _ = c.1.remove(ei);
                }
                None => {
                    proof {
                        let es = self.columns@[ci as int].1@;
                        assert(!assoc_has(es, e));
                    }
                }
            }
            ci += 1;
        }
        proof {
            self.lemma_despawn_post(*old(self), mid, e);
        }
    }

    /// A live handle is one the world has issued: its generation is current,
    /// hence never exceeded. With the monotonicity of `known` over every
    /// operation, and `spawn` returning handles not yet known, no two spawns
    /// ever return the same handle.
    pub proof fn lemma_live_is_known(&self, e: Entity)
        requires
            self.live(e),
        ensures
            self.known(e),
    {
    }

    /// In a well-formed world, an entity that is not live holds no component.
    pub proof fn lemma_dead_entity_has_no_components(&self, k: u64, e: Entity)
        requires
            self.wf(),
            !self.live(e),
        ensures
            self.component_at(k, e) == None::<V>,
    {
        if assoc_has(self.components(k), e) {
            let es = self.components(k);
            let i = assoc_idx(es, e);
            assert(0 <= i < es.len() && es[i].0 == e);
            if assoc_has(self.columns@, k) {
                let ci = assoc_idx(self.columns@, k);
                assert(0 <= ci < self.columns@.len() && self.columns@[ci].0 == k);
                assert(self.column_wf(self.columns@[ci].1@));
                assert(es == self.columns@[ci].1@);
                assert(self.live(es[i].0));
            }
        }
    }

    proof fn lemma_despawn_post(&self, prev: World<V>, mid: World<V>, e: Entity)
        requires
            prev.wf(),
            prev.live(e),
            self.slots == mid.slots,
            self.free == mid.free,
            self.resources == prev.resources,
            self.assets == prev.assets,
            self.pending == prev.pending,
            mid.slots@.len() == prev.slots@.len(),
            forall|i: int|
                0 <= i < mid.slots@.len() && i != e.id ==> mid.slots@[i] == prev.slots@[i],
            !mid.slots@[e.id as int].alive,
            mid.slots@[e.id as int].gen == prev.slots@[e.id as int].gen,
            forall|fi: int|
                0 <= fi < mid.free@.len() ==> (#[trigger] mid.free@[fi]) < mid.slots@.len()
                    && !mid.slots@[mid.free@[fi] as int].alive,
            forall|fi: int, fj: int|
                0 <= fi < fj < mid.free@.len() ==> (#[trigger] mid.free@[fi]) != (
                #[trigger] mid.free@[fj]),
            self.columns@.len() == prev.columns@.len(),
            forall|c: int|
                0 <= c < self.columns@.len() ==> (#[trigger] self.columns@[c]).0
                    == prev.columns@[c].0 && self.columns@[c].1@ == assoc_remove(
                    prev.columns@[c].1@,
                    e,
                ),
        ensures
            self.wf(),
            !self.live(e),
            forall|e2: Entity| e2 != e ==> self.live(e2) == prev.live(e2),
            forall|e2: Entity| prev.known(e2) ==> self.known(e2),
            forall|e2: Entity| e2 != e ==> self.name_of(e2) == prev.name_of(e2),
            forall|k: u64| self.components(k) == assoc_remove(prev.components(k), e),
    {
        assert forall|e2: Entity| e2 != e implies self.live(e2) == prev.live(e2) by {
            if e2.id != e.id {
                if e2.id < prev.slots@.len() {
                    assert(mid.slots@[e2.id as int] == prev.slots@[e2.id as int]);
                }
            } else {
                // same slot: the old occupant was e itself, so e2 was not live
                if prev.live(e2) {
                    assert(e2.gen == prev.slots@[e.id as int].gen);
                    assert(e.gen == prev.slots@[e.id as int].gen);
                    assert(e2 == e);
                }
                assert(!self.live(e2));
            }
        }
        assert forall|e2: Entity| prev.known(e2) implies self.known(e2) by {
            if e2.id != e.id {
                assert(mid.slots@[e2.id as int] == prev.slots@[e2.id as int]);
            }
        }
        assert forall|e2: Entity| e2 != e implies self.name_of(e2) == prev.name_of(e2) by {
            if e2.id != e.id {
                if e2.id < prev.slots@.len() {
                    assert(mid.slots@[e2.id as int] == prev.slots@[e2.id as int]);
                }
            } else {
                assert(!self.live(e2) && !prev.live(e2));
            }
        }
        assert forall|i: int, j: int|
            0 <= i < j < self.columns@.len() implies (#[trigger] self.columns@[i]).0 != (
        #[trigger] self.columns@[j]).0 by {
            assert(prev.columns@[i].0 != prev.columns@[j].0);
        }
        assert forall|ci: int|
            0 <= ci < self.columns@.len() implies self.column_wf(
            (#[trigger] self.columns@[ci]).1@,
        ) by {
            let es0 = prev.columns@[ci].1@;
            let es = self.columns@[ci].1@;
            assert(prev.column_wf(es0));
            if assoc_has(es0, e) {
                lemma_assoc_remove_at(es0, assoc_idx(es0, e));
                assert(es == es0.remove(assoc_idx(es0, e)));
            } else {
                assert(es == es0);
            }
            assert(assoc_unique(es));
            assert forall|j: int| 0 <= j < es.len() implies self.live((#[trigger] es[j]).0) by {
                let i0 = assoc_idx(es0, e);
                let j0 = if assoc_has(es0, e) && j >= i0 {
                    j + 1
                } else {
                    j
                };
                assert(es[j] == es0[j0]);
                assert(prev.live(es0[j0].0));
                assert(assoc_get(es, es0[j0].0) is Some);
                assert(es0[j0].0 != e);
            }
        }
        assert forall|k: u64| self.components(k) == assoc_remove(prev.components(k), e) by {
            if assoc_has(prev.columns@, k) {
                let ci = assoc_idx(prev.columns@, k);
                assert(0 <= ci < prev.columns@.len() && prev.columns@[ci].0 == k);
                lemma_assoc_at(prev.columns@, k, ci);
                assert(assoc_unique(self.columns@));
                lemma_assoc_at(self.columns@, k, ci);
                assert(self.components(k) == self.columns@[ci].1@);
            } else {
                assert forall|i: int|
                    0 <= i < self.columns@.len() implies (#[trigger] self.columns@[i]).0 != k by {
                    assert(!(0 <= i < prev.columns@.len() && prev.columns@[i].0 == k));
                }
                lemma_assoc_none(self.columns@, k);
                lemma_assoc_none(prev.columns@, k);
                assert(self.components(k) == Seq::<(Entity, V)>::empty());
                assert(!assoc_has(prev.components(k), e));
            }
        }
    }
}

impl<V> World<V> {
    /// Attaches `value` as the component of type `key` on the live entity
    /// `e`, replacing (in place, keeping the insertion position) a component
    /// of the same type already there. A handle that is not live is rejected
    /// with `MissingComponent` and the world is untouched.
    pub fn insert(&mut self, key: u64, e: Entity, value: V) -> (r: Result<(), WorldError>)
        requires
            old(self).wf(),
        ensures
            final(self).wf(),
            !old(self).live(e) ==> r == Err::<(), WorldError>(WorldError::MissingComponent)
                && *final(self) == *old(self),
            old(self).live(e) ==> {
                &&& r == Ok::<(), WorldError>(())
                &&& final(self).component_at(key, e) == Some(value)
                &&& (match old(self).component_at(key, e) {
                    Some(_) => final(self).components(key) == old(self).components(key).update(
                        assoc_idx(old(self).components(key), e),
                        (e, value),
                    ),
                    None => final(self).components(key) == old(self).components(key).push(
                        (e, value),
                    ),
                })
                &&& forall|e2: Entity|
                    e2 != e ==> final(self).component_at(key, e2) == old(self).component_at(
                        key,
                        e2,
                    )
                // replacing never duplicates: the column's size is unchanged,
                // a first insert grows it by one
                &&& (old(self).component_at(key, e) is Some ==> final(self).components(key).len()
                    == old(self).components(key).len())
                &&& (old(self).component_at(key, e) is None ==> final(self).components(key).len()
                    == old(self).components(key).len() + 1)
            },
            forall|k2: u64| k2 != key ==> final(self).components(k2) == old(self).components(k2),
            forall|e2: Entity| final(self).live(e2) == old(self).live(e2),
            forall|e2: Entity| final(self).known(e2) == old(self).known(e2),
            forall|e2: Entity| final(self).name_of(e2) == old(self).name_of(e2),
            forall|k: u64| final(self).resource_at(k) == old(self).resource_at(k),
            forall|k: u64, p: Seq<char>| final(self).asset_at(k, p) == old(self).asset_at(k, p),
            final(self).pending_view() == old(self).pending_view(),
    {
        if !self.is_live(e) {
            return Err(WorldError::MissingComponent);
        }
        match self.find_col(key) {
            Some(ci) => {
                proof {
                    lemma_assoc_at(self.columns@, key, ci as int);
                    assert(self.components(key) == self.columns@[ci as int].1@);
                    assert(self.column_wf(self.columns@[ci as int].1@));
                }
                let hit = find_entry(&self.columns[ci].1, e);
                let ghost es = self.columns@[ci as int].1@;
                match hit {
                    Some(ei) => {
                        proof {
                            lemma_assoc_at(es, e, ei as int);
                            lemma_assoc_update(es, ei as int, value);
                        }
                        let c = vec_mut(&mut self.columns, ci);
                        c.1.set(ei, (e, value));
                        proof {
                            lemma_assoc_update(old(self).columns@, ci as int, self.columns@[ci as int].1);
                            self.lemma_insert_post(*old(self), key, ci as int);
                        }
                    }
                    None => {
                        proof {
                            lemma_assoc_push(es, e, value);
                        }
                        let c = vec_mut(&mut self.columns, ci);
                        c.1.push((e, value));
                        proof {
                            lemma_assoc_update(old(self).columns@, ci as int, self.columns@[ci as int].1);
                            self.lemma_insert_post(*old(self), key, ci as int);
                        }
                    }
                }
            }
            None => {
                proof {
                    lemma_assoc_none(self.columns@, key);
                }
                let mut col: Vec<(Entity, V)> = Vec::new();
                col.push((e, value));
                self.columns.push((key, col));
                proof {
                    lemma_assoc_push(old(self).columns@, key, self.columns@.last().1);
                    assert(self.columns@ == old(self).columns@.push(self.columns@.last()));
                    let ci = self.columns@.len() - 1;
                    assert(self.components(key) == self.columns@[ci].1@);
                    let es2 = self.columns@[ci].1@;
                    assert(es2 == Seq::<(Entity, V)>::empty().push((e, value)));
                    lemma_assoc_push(Seq::<(Entity, V)>::empty(), e, value);
                    self.lemma_insert_post(*old(self), key, ci);
                }
            }
        }
        Ok(())
    }

    /// After a change confined to the column `ci` carrying `key`, every other
    /// column reads as before, and the invariant holds again provided the
    /// changed column is itself well-formed in the new world.
    proof fn lemma_insert_post(&self, prev: World<V>, key: u64, ci: int)
        requires
            prev.wf(),
            self.slots == prev.slots,
            self.free == prev.free,
            self.resources == prev.resources,
            self.assets == prev.assets,
            self.pending == prev.pending,
            0 <= ci < self.columns@.len(),
            self.columns@.len() == prev.columns@.len() || (self.columns@.len() == prev.columns@.len()
                + 1 && ci == prev.columns@.len()),
            forall|c: int| 0 <= c < prev.columns@.len() && c != ci ==> self.columns@[c] == prev.columns@[c],
            self.columns@[ci].0 == key,
            ci < prev.columns@.len() ==> prev.columns@[ci].0 == key,
            ci == prev.columns@.len() ==> !assoc_has(prev.columns@, key),
            assoc_unique(self.columns@[ci].1@),
            forall|j: int|
                0 <= j < self.columns@[ci].1@.len() ==> prev.live(
                    (#[trigger] self.columns@[ci].1@[j]).0,
                ),
        ensures
            self.wf(),
            forall|k2: u64| k2 != key ==> self.components(k2) == prev.components(k2),
            self.components(key) == self.columns@[ci].1@,
            forall|e2: Entity| self.live(e2) == prev.live(e2),
            forall|e2: Entity| self.known(e2) == prev.known(e2),
            forall|e2: Entity| self.name_of(e2) == prev.name_of(e2),
    {
        assert forall|i: int, j: int|
            0 <= i < j < self.columns@.len() implies (#[trigger] self.columns@[i]).0 != (
        #[trigger] self.columns@[j]).0 by {
            if j < prev.columns@.len() {
                if i != ci && j != ci {
                    assert(prev.columns@[i].0 != prev.columns@[j].0);
                } else if i == ci {
                    assert(prev.columns@[i].0 == key && self.columns@[j].0 == prev.columns@[j].0);
                } else {
                    assert(self.columns@[i].0 == prev.columns@[i].0 && prev.columns@[j].0 == key);
                }
            } else {
                // j == ci is the appended column with the fresh key
                assert(j == ci);
                assert(self.columns@[i].0 == prev.columns@[i].0);
                if self.columns@[i].0 == key {
                    assert(assoc_has(prev.columns@, key));
                }
            }
        }
        assert forall|c: int|
            0 <= c < self.columns@.len() implies self.column_wf((#[trigger] self.columns@[c]).1@) by {
            if c != ci {
                assert(self.columns@[c] == prev.columns@[c]);
                assert(prev.column_wf(prev.columns@[c].1@));
                let es = self.columns@[c].1@;
                assert forall|j: int| 0 <= j < es.len() implies self.live((#[trigger] es[j]).0) by {
                    assert(prev.live(es[j].0));
                }
            } else {
                let es = self.columns@[c].1@;
                assert forall|j: int| 0 <= j < es.len() implies self.live((#[trigger] es[j]).0) by {
                    assert(prev.live(es[j].0));
                }
            }
        }
        lemma_assoc_at(self.columns@, key, ci);
        assert forall|k2: u64| k2 != key implies self.components(k2) == prev.components(k2) by {
            if assoc_has(prev.columns@, k2) {
                let c = assoc_idx(prev.columns@, k2);
                assert(0 <= c < prev.columns@.len() && prev.columns@[c].0 == k2);
                assert(c != ci);
                lemma_assoc_at(prev.columns@, k2, c);
                lemma_assoc_at(self.columns@, k2, c);
            } else {
                assert forall|i: int|
                    0 <= i < self.columns@.len() implies (#[trigger] self.columns@[i]).0 != k2 by {
                    if i != ci {
                        assert(self.columns@[i] == prev.columns@[i]);
                        assert(!(0 <= i < prev.columns@.len() && prev.columns@[i].0 == k2));
                    }
                }
                lemma_assoc_none(self.columns@, k2);
                lemma_assoc_none(prev.columns@, k2);
            }
        }
    }

    /// The component of type `key` on `e`, if `e` is live and holds one.
    pub fn get(&self, key: u64, e: Entity) -> (r: Option<&V>)
        requires
            self.wf(),
        ensures
            match r {
                Some(v) => self.component_at(key, e) == Some(*v),
                None => self.component_at(key, e) == None::<V>,
            },
    {
        match self.find_col(key) {
            Some(ci) => {
                proof {
                    lemma_assoc_at(self.columns@, key, ci as int);
                    assert(self.components(key) == self.columns@[ci as int].1@);
                }
                let col = &self.columns[ci];
                match find_entry(&col.1, e) {
                    Some(ei) => {
                        proof {
                            assert(self.column_wf(self.columns@[ci as int].1@));
                            lemma_assoc_at(col.1@, e, ei as int);
                        }
                        let p = &col.1[ei];
                        Some(&p.1)
                    }
                    None => {
                        proof {
                            lemma_assoc_none(col.1@, e);
                        }
                        None
                    }
                }
            }
            None => {
                proof {
                    lemma_assoc_none(self.columns@, key);
                    assert(!assoc_has(self.components(key), e));
                }
                None
            }
        }
    }

    /// Whether `e` is live and holds a component of type `key`.
    pub fn has(&self, key: u64, e: Entity) -> (r: bool)
        requires
            self.wf(),
        ensures
            r == (self.component_at(key, e) is Some),
    {
        self.get(key, e).is_some()
    }

    /// Every live holder of a component of type `key`, paired with a borrow
    /// of its component, in insertion order.
    pub fn query(&self, key: u64) -> (r: Vec<(Entity, &V)>)
        requires
            self.wf(),
        ensures
            r@.len() == self.components(key).len(),
            forall|i: int|
                0 <= i < r@.len() ==> (#[trigger] r@[i]).0 == self.components(key)[i].0 && *r@[i].1
                    == self.components(key)[i].1,
    {
        let mut r: Vec<(Entity, &V)> = Vec::new();
        match self.find_col(key) {
            Some(ci) => {
                proof {
                    lemma_assoc_at(self.columns@, key, ci as int);
                    assert(self.components(key) == self.columns@[ci as int].1@);
                }
                let col = &self.columns[ci];
                let n = col.1.len();
                let mut i: usize = 0;
                while i < n
                    invariant
                        i <= n,
                        n == col.1@.len(),
                        col.1@ == self.components(key),
                        r@.len() == i,
                        forall|j: int|
                            0 <= j < i ==> (#[trigger] r@[j]).0 == col.1@[j].0 && *r@[j].1
                                == col.1@[j].1,
                    decreases n - i,
                {
                    let p = &col.1[i];
                    r.push((p.0, &p.1));
                    i += 1;
                }
            }
            None => {
                proof {
                    lemma_assoc_none(self.columns@, key);
                }
            }
        }
        r
    }

    /// In a well-formed world, the holders of a component type are pairwise
    /// distinct live entities: a query yields one item per live holder.
    pub proof fn lemma_query_holders_distinct_and_live(&self, key: u64)
        requires
            self.wf(),
        ensures
            assoc_unique(self.components(key)),
            forall|j: int|
                0 <= j < self.components(key).len() ==> self.live(
                    (#[trigger] self.components(key)[j]).0,
                ),
    {
        if assoc_has(self.columns@, key) {
            let ci = assoc_idx(self.columns@, key);
            assert(0 <= ci < self.columns@.len() && self.columns@[ci].0 == key);
            lemma_assoc_at(self.columns@, key, ci);
            assert(self.column_wf(self.columns@[ci].1@));
        } else {
            lemma_assoc_none(self.columns@, key);
        }
    }

    /// The display name the live entity `e` was spawned with, if any.
    pub fn name(&self, e: Entity) -> (r: Option<&String>)
        ensures
            match r {
                Some(s) => self.name_of(e) == Some(s@),
                None => self.name_of(e) == None::<Seq<char>>,
            },
    {
        if self.is_live(e) {
            match &self.slots[e.id].name {
                Some(s) => Some(s),
                None => None,
            }
        } else {
            None
        }
    }

    /// Registers `value` as the singleton resource of type `key`, inserting
    /// or replacing: the registry holds at most one value per type.
    pub fn add_resource(&mut self, key: u64, value: V)
        requires
            old(self).wf(),
        ensures
            final(self).wf(),
            final(self).resource_at(key) == Some(value),
            forall|k2: u64| k2 != key ==> final(self).resource_at(k2) == old(self).resource_at(k2),
            forall|k: u64| final(self).components(k) == old(self).components(k),
            forall|e2: Entity| final(self).live(e2) == old(self).live(e2),
            forall|e2: Entity| final(self).known(e2) == old(self).known(e2),
            forall|e2: Entity| final(self).name_of(e2) == old(self).name_of(e2),
            forall|k: u64, p: Seq<char>| final(self).asset_at(k, p) == old(self).asset_at(k, p),
            final(self).pending_view() == old(self).pending_view(),
    {
        match self.find_res(key) {
            Some(i) => {
                proof {
                    lemma_assoc_update(self.resources@, i as int, value);
                }
                self.resources.set(i, (key, value));
            }
            None => {
                proof {
                    lemma_assoc_none(self.resources@, key);
                    lemma_assoc_push(self.resources@, key, value);
                }
                self.resources.push((key, value));
            }
        }
    }

    /// The singleton resource of type `key`; absence is the recoverable
    /// `MissingResource` signal.
    pub fn get_resource(&self, key: u64) -> (r: Result<&V, WorldError>)
        requires
            self.wf(),
        ensures
            match r {
                Ok(v) => self.resource_at(key) == Some(*v),
                Err(er) => er == WorldError::MissingResource && self.resource_at(key)
                    == None::<V>,
            },
    {
        match self.find_res(key) {
            Some(i) => {
                proof {
                    lemma_assoc_at(self.resources@, key, i as int);
                }
                let p = &self.resources[i];
                Ok(&p.1)
            }
            None => {
                proof {
                    lemma_assoc_none(self.resources@, key);
                }
                Err(WorldError::MissingResource)
            }
        }
    }

    /// Whether a singleton of type `key` is registered.
    pub fn has_resource(&self, key: u64) -> (r: bool)
        requires
            self.wf(),
        ensures
            r == (self.resource_at(key) is Some),
    {
        self.get_resource(key).is_ok()
    }

    /// Removes and returns the singleton resource of type `key`. An empty
    /// registry for that type yields `None` without error, and a later `add`
    /// starts afresh.
    pub fn take_resource(&mut self, key: u64) -> (r: Option<V>)
        requires
            old(self).wf(),
        ensures
            final(self).wf(),
            r == old(self).resource_at(key),
            final(self).resource_at(key) == None::<V>,
            forall|k2: u64| k2 != key ==> final(self).resource_at(k2) == old(self).resource_at(k2),
            forall|k: u64| final(self).components(k) == old(self).components(k),
            forall|e2: Entity| final(self).live(e2) == old(self).live(e2),
            forall|e2: Entity| final(self).known(e2) == old(self).known(e2),
            forall|e2: Entity| final(self).name_of(e2) == old(self).name_of(e2),
            forall|k: u64, p: Seq<char>| final(self).asset_at(k, p) == old(self).asset_at(k, p),
            final(self).pending_view() == old(self).pending_view(),
    {
        match self.find_res(key) {
            Some(i) => {
                proof {
                    lemma_assoc_at(self.resources@, key, i as int);
                    lemma_assoc_remove_at(self.resources@, i as int);
                }
                let p = self.resources.remove(i);
                Some(p.1)
            }
            None => {
                proof {
                    lemma_assoc_none(self.resources@, key);
                }
                None
            }
        }
    }

    /// Mutable access to the singleton resource of type `key` if one is
    /// registered, else the recoverable `MissingResource` signal. The
    /// registry keeps the slot, rebound to whatever the caller leaves in the
    /// borrow.
    pub fn get_resource_mut(&mut self, key: u64) -> (r: Result<&mut V, WorldError>)
        requires
            old(self).wf(),
        ensures
            final(self).wf(),
            match r {
                Ok(m) => {
                    &&& old(self).resource_at(key) == Some(*m)
                    &&& final(self).resource_at(key) == Some(*final(m))
                    &&& forall|k2: u64|
                        k2 != key ==> final(self).resource_at(k2) == old(self).resource_at(k2)
                },
                Err(er) => {
                    &&& er == WorldError::MissingResource
                    &&& old(self).resource_at(key) == None::<V>
                    &&& *final(self) == *old(self)
                },
            },
            forall|k: u64| final(self).components(k) == old(self).components(k),
            forall|e2: Entity| final(self).live(e2) == old(self).live(e2),
            forall|e2: Entity| final(self).known(e2) == old(self).known(e2),
            forall|e2: Entity| final(self).name_of(e2) == old(self).name_of(e2),
            forall|k: u64, p: Seq<char>| final(self).asset_at(k, p) == old(self).asset_at(k, p),
            final(self).pending_view() == old(self).pending_view(),
    {
        match self.find_res(key) {
            Some(i) => {
                proof {
                    lemma_assoc_at(self.resources@, key, i as int);
                    lemma_res_update_all(self.resources@, i as int);
                }
                let p = vec_mut(&mut self.resources, i);
                Ok(&mut p.1)
            }
            None => {
                proof {
                    lemma_assoc_none(self.resources@, key);
                }
                Err(WorldError::MissingResource)
            }
        }
    }

    /// Mutable access to the component of type `key` on `e`, or `None` if
    /// `e` is not live or holds none; the component keeps its position in the
    /// column, rebound to whatever the caller leaves in the borrow.
    pub fn get_mut(&mut self, key: u64, e: Entity) -> (r: Option<&mut V>)
        requires
            old(self).wf(),
        ensures
            final(self).wf(),
            match r {
                Some(m) => {
                    &&& old(self).component_at(key, e) == Some(*m)
                    &&& final(self).component_at(key, e) == Some(*final(m))
                    &&& final(self).components(key) == old(self).components(key).update(
                        assoc_idx(old(self).components(key), e),
                        (e, *final(m)),
                    )
                    &&& forall|e2: Entity|
                        e2 != e ==> final(self).component_at(key, e2) == old(self).component_at(
                            key,
                            e2,
                        )
                    &&& forall|k2: u64|
                        k2 != key ==> final(self).components(k2) == old(self).components(k2)
                },
                None => {
                    &&& old(self).component_at(key, e) == None::<V>
                    &&& *final(self) == *old(self)
                },
            },
            forall|e2: Entity| final(self).live(e2) == old(self).live(e2),
            forall|e2: Entity| final(self).known(e2) == old(self).known(e2),
            forall|e2: Entity| final(self).name_of(e2) == old(self).name_of(e2),
            forall|k: u64| final(self).resource_at(k) == old(self).resource_at(k),
            forall|k: u64, p: Seq<char>| final(self).asset_at(k, p) == old(self).asset_at(k, p),
            final(self).pending_view() == old(self).pending_view(),
    {
        match self.find_col(key) {
            Some(ci) => {
                proof {
                    lemma_assoc_at(self.columns@, key, ci as int);
                    assert(self.components(key) == self.columns@[ci as int].1@);
                    assert(self.column_wf(self.columns@[ci as int].1@));
                }
                let hit = find_entry(&self.columns[ci].1, e);
                match hit {
                    Some(ei) => {
                        proof {
                            let es = self.columns@[ci as int].1@;
                            lemma_assoc_at(es, e, ei as int);
                            lemma_entry_update_all(es, ei as int);
                            lemma_col_update_all(self.columns@, ci as int);
                        }
                        let c = vec_mut(&mut self.columns, ci);
                        let en = vec_mut(&mut c.1, ei);
                        Some(&mut en.1)
                    }
                    None => {
                        proof {
                            let es = self.columns@[ci as int].1@;
                            lemma_assoc_none(es, e);
                        }
                        None
                    }
                }
            }
            None => {
                proof {
                    lemma_assoc_none(self.columns@, key);
                    assert(!assoc_has(self.components(key), e));
                }
                None
            }
        }
    }

    pub(crate) proof fn lemma_wf_asset_unique(&self)
        requires
            self.wf(),
        ensures
            asset_unique(self.assets@),
    {
    }

    pub(crate) proof fn lemma_asset_at_def(&self)
        ensures
            forall|k: u64, p: Seq<char>| self.asset_at(k, p) == asset_get(self.assets@, k, p),
    {
    }

    /// A world differing from a well-formed one only in its asset rows, with
    /// their keys still unique, is well-formed, and the rest of its model
    /// reads as before.
    pub(crate) proof fn lemma_wf_assets_changed(&self, prev: &World<V>)
        requires
            prev.wf(),
            self.slots == prev.slots,
            self.free == prev.free,
            self.columns == prev.columns,
            self.resources == prev.resources,
            self.pending == prev.pending,
            asset_unique(self.assets@),
        ensures
            self.wf(),
            forall|k: u64| self.components(k) == prev.components(k),
            forall|k: u64| self.resource_at(k) == prev.resource_at(k),
            forall|e2: Entity| self.live(e2) == prev.live(e2),
            forall|e2: Entity| self.known(e2) == prev.known(e2),
            forall|e2: Entity| self.name_of(e2) == prev.name_of(e2),
            self.pending_view() == prev.pending_view(),
    {
        assert forall|ci: int|
            0 <= ci < self.columns@.len() implies self.column_wf(
            (#[trigger] self.columns@[ci]).1@,
        ) by {
            assert(prev.column_wf(prev.columns@[ci].1@));
            let es = self.columns@[ci].1@;
            assert forall|j: int| 0 <= j < es.len() implies self.live((#[trigger] es[j]).0) by {
                assert(prev.live(es[j].0));
            }
        }
    }

    /// Queues a system for registration under `stage`; the driver adopts
    /// queued registrations between system calls, in queue order.
    pub fn add_system(&mut self, stage: Stage, system: u64)
        requires
            old(self).wf(),
        ensures
            final(self).wf(),
            final(self).pending_view() == old(self).pending_view().push((stage, system)),
            forall|k: u64| final(self).components(k) == old(self).components(k),
            forall|k: u64| final(self).resource_at(k) == old(self).resource_at(k),
            forall|e2: Entity| final(self).live(e2) == old(self).live(e2),
            forall|e2: Entity| final(self).known(e2) == old(self).known(e2),
            forall|e2: Entity| final(self).name_of(e2) == old(self).name_of(e2),
            forall|k: u64, p: Seq<char>| final(self).asset_at(k, p) == old(self).asset_at(k, p),
    {
        self.pending.push((stage, system));
    }

    /// Drains the queued system registrations, returning them in queue order.
    pub fn drain_pending(&mut self) -> (r: Vec<(Stage, u64)>)
        requires
            old(self).wf(),
        ensures
            final(self).wf(),
            r@ == old(self).pending_view(),
            final(self).pending_view() == Seq::<(Stage, u64)>::empty(),
            forall|k: u64| final(self).components(k) == old(self).components(k),
            forall|k: u64| final(self).resource_at(k) == old(self).resource_at(k),
            forall|e2: Entity| final(self).live(e2) == old(self).live(e2),
            forall|e2: Entity| final(self).known(e2) == old(self).known(e2),
            forall|e2: Entity| final(self).name_of(e2) == old(self).name_of(e2),
            forall|k: u64, p: Seq<char>| final(self).asset_at(k, p) == old(self).asset_at(k, p),
    {
        let mut drained: Vec<(Stage, u64)> = Vec::new();
        core::mem::swap(&mut drained, &mut self.pending);
        drained
    }
}

/// What replacing the value under a resource key does to the registry, for
/// every replacement value: the key is rebound, every other key untouched.
proof fn lemma_res_update_all<V>(s: Seq<(u64, V)>, i: int)
    requires
        assoc_unique(s),
        0 <= i < s.len(),
    ensures
        forall|w: V|
            {
                let s2 = #[trigger] s.update(i, (s[i].0, w));
                &&& assoc_unique(s2)
                &&& assoc_get(s2, s[i].0) == Some(w)
                &&& forall|k2: u64| k2 != s[i].0 ==> assoc_get(s2, k2) == assoc_get(s, k2)
            },
{
    assert forall|w: V|
        {
            let s2 = #[trigger] s.update(i, (s[i].0, w));
            &&& assoc_unique(s2)
            &&& assoc_get(s2, s[i].0) == Some(w)
            &&& forall|k2: u64| k2 != s[i].0 ==> assoc_get(s2, k2) == assoc_get(s, k2)
        } by {
        lemma_assoc_update(s, i, w);
    }
}

/// What replacing the component value at an occupied entry does to a column,
/// for every replacement value.
proof fn lemma_entry_update_all<V>(es: Seq<(Entity, V)>, ei: int)
    requires
        assoc_unique(es),
        0 <= ei < es.len(),
    ensures
        forall|w: V|
            {
                let es2 = #[trigger] es.update(ei, (es[ei].0, w));
                &&& assoc_unique(es2)
                &&& assoc_get(es2, es[ei].0) == Some(w)
                &&& forall|e2: Entity| e2 != es[ei].0 ==> assoc_get(es2, e2) == assoc_get(es, e2)
            },
{
    assert forall|w: V|
        {
            let es2 = #[trigger] es.update(ei, (es[ei].0, w));
            &&& assoc_unique(es2)
            &&& assoc_get(es2, es[ei].0) == Some(w)
            &&& forall|e2: Entity| e2 != es[ei].0 ==> assoc_get(es2, e2) == assoc_get(es, e2)
        } by {
        lemma_assoc_update(es, ei, w);
    }
}

/// What replacing one column's vector does to the table of columns, for
/// every replacement vector: that key is rebound, every other key untouched.
proof fn lemma_col_update_all<V>(cols: Seq<(u64, Vec<(Entity, V)>)>, ci: int)
    requires
        assoc_unique(cols),
        0 <= ci < cols.len(),
    ensures
        forall|cv: Vec<(Entity, V)>|
            {
                let cols2 = #[trigger] cols.update(ci, (cols[ci].0, cv));
                &&& assoc_unique(cols2)
                &&& assoc_get(cols2, cols[ci].0) == Some(cv)
                &&& forall|k2: u64| k2 != cols[ci].0 ==> assoc_get(cols2, k2) == assoc_get(cols, k2)
            },
{
    assert forall|cv: Vec<(Entity, V)>|
        {
            let cols2 = #[trigger] cols.update(ci, (cols[ci].0, cv));
            &&& assoc_unique(cols2)
            &&& assoc_get(cols2, cols[ci].0) == Some(cv)
            &&& forall|k2: u64| k2 != cols[ci].0 ==> assoc_get(cols2, k2) == assoc_get(cols, k2)
        } by {
        lemma_assoc_update(cols, ci, cv);
    }
}

/// A handle that outlived its entity is invalid forever. Any handle the
/// world has issued is `known`; `spawn` returns a handle that was not yet
/// known and changes no other handle's liveness, so a stale handle is never
/// the one `spawn` returns, stays dead, and lookups under it yield nothing.
pub proof fn lemma_stale_handle_invalid<V>(
    w0: World<V>,
    w1: World<V>,
    stale: Entity,
    e: Entity,
    k: u64,
)
    requires
        w1.wf(),
        w0.known(stale),
        !w0.live(stale),
        !w0.known(e),
        forall|e2: Entity| e2 != e ==> w1.live(e2) == w0.live(e2),
    ensures
        stale != e,
        !w1.live(stale),
        w1.component_at(k, stale) == None::<V>,
{
    assert(stale != e);
    assert(!w1.live(stale));
    w1.lemma_dead_entity_has_no_components(k, stale);
}

/// Mutable access to one element of a vector, with the final value of the
/// vector expressed through the final value of the borrow.
fn vec_mut<T>(v: &mut Vec<T>, i: usize) -> (element: &mut T)
    requires
        i < old(v).len(),
    ensures
        *element == old(v)@[i as int],
        final(v)@ == old(v)@.update(i as int, *final(element)),
{
    &mut v[i]
}

fn find_entry<V>(es: &Vec<(Entity, V)>, e: Entity) -> (r: Option<usize>)
    ensures
        match r {
            Some(i) => i < es@.len() && es@[i as int].0 == e,
            None => forall|i: int| 0 <= i < es@.len() ==> (#[trigger] es@[i]).0 != e,
        },
{
    let n = es.len();
    let mut i: usize = 0;
    while i < n
        invariant
            i <= n,
            n == es@.len(),
            forall|j: int| 0 <= j < i ==> (#[trigger] es@[j]).0 != e,
        decreases n - i,
    {
        let p = &es[i];
        if p.0 == e {
            return Some(i);
        }
        i += 1;
    }
    None
}

} // verus!
