//! Entity identity with generational recycling, and routing of components to one pool
//! per component kind.
use vstd::prelude::*;

use crate::pool::Pool;
use crate::Entity;

verus! {

/// A world: its entity table, a free list of destroyed slots threaded through that table,
/// and one pool per component kind ever attached, keyed by the kind.
///
/// Slot `i` of the table holds `(link, version)`. It is alive while `link` is `Some(i)`.
/// A destroyed slot uses `link` for the next destroyed slot, `None` ending the list, and
/// `destroyed_head` names the slot destroyed last. A slot destroyed at the largest version
/// is retired: it stays out of the free list, so no handle on it can come back to life.
///
/// Access to an instance for change is exclusive: one instance at a time, borrowed from the
/// world, which the compiler checks. Several instances are changed one after the other,
/// by kind and index, as a query names them.
pub struct World<T> {
    entities: Vec<(Option<usize>, u32)>,
    destroyed_head: Option<usize>,
    pools: Vec<(u64, Pool<T>)>,
    free: Ghost<Seq<usize>>,
}

impl<T> World<T> {
    /// The number of slots in the entity table.
    pub closed spec fn slot_count(self) -> nat {
        self.entities@.len()
    }

    /// The version stored in slot `id`.
    pub closed spec fn version_at(self, id: int) -> u32 {
        self.entities@[id].1
    }

    /// The entity that occupies slot `id`, if that slot is alive.
    pub closed spec fn live_at(self, id: int) -> Option<Entity> {
        if 0 <= id < self.entities@.len() && self.entities@[id].0 == Some(id as usize) {
            Some(Entity { id: id as usize, version: self.entities@[id].1 })
        } else {
            None
        }
    }

    /// Whether `e` is a current handle of this world.
    pub open spec fn alive(self, e: Entity) -> bool {
        self.live_at(e.id as int) == Some(e)
    }

    /// The live entities among the first `n` slots, by ascending id.
    pub closed spec fn live_upto(self, n: nat) -> Seq<Entity>
        decreases n,
    {
        if n == 0 {
            Seq::empty()
        } else {
            let rest = self.live_upto((n - 1) as nat);
            match self.live_at(n - 1) {
                Some(e) => rest.push(e),
                None => rest,
            }
        }
    }

    /// The live entities, by ascending id.
    pub open spec fn live(self) -> Seq<Entity> {
        self.live_upto(self.slot_count())
    }

    /// The destroyed slots waiting for reuse, the next one to be reused first.
    pub closed spec fn free_list(self) -> Seq<usize> {
        self.free@
    }

    /// A handle that can never be alive again: its slot has moved to a later version, or
    /// was retired at the largest one.
    pub open spec fn expired(self, e: Entity) -> bool {
        &&& e.id < self.slot_count()
        &&& {
            ||| e.version < self.version_at(e.id as int)
            ||| e.version == u32::MAX && self.version_at(e.id as int) == u32::MAX && self.live_at(
                e.id as int,
            ) is None && !self.free_list().contains(e.id)
        }
    }

    /// Whether a pool for `kind` exists.
    pub closed spec fn has_pool(self, kind: u64) -> bool {
        exists|i: int| 0 <= i < self.pools@.len() && self.pools@[i].0 == kind
    }

    closed spec fn pool_index(self, kind: u64) -> int {
        choose|i: int| 0 <= i < self.pools@.len() && self.pools@[i].0 == kind
    }

    /// The instances of `kind` recorded for slot `id`.
    pub closed spec fn pool_items(self, kind: u64, id: usize) -> Seq<T> {
        if self.has_pool(kind) {
            self.pools@[self.pool_index(kind)].1.items(id)
        } else {
            Seq::empty()
        }
    }

    /// The instances of `kind` that entity `e` holds, in attach order; empty for a handle
    /// that is not alive.
    pub open spec fn components(self, e: Entity, kind: u64) -> Seq<T> {
        if self.alive(e) {
            self.pool_items(kind, e.id)
        } else {
            Seq::empty()
        }
    }

    /// The free list is a chain of distinct slots through the table, the kinds of the pools
    /// are distinct, every pool is well formed, and instances are recorded for live slots
    /// only.
    pub closed spec fn wf(self) -> bool {
        &&& self.free@.no_duplicates()
        &&& forall|i: int| 0 <= i < self.free@.len() ==> #[trigger] self.free@[i] < self.entities@.len()
        &&& self.destroyed_head == if self.free@.len() == 0 {
            None
        } else {
            Some(self.free@[0])
        }
        &&& forall|i: int|
            0 <= i < self.free@.len() ==> (#[trigger] self.entities@[self.free@[i] as int]).0 == if i + 1
                < self.free@.len() {
                Some(self.free@[i + 1])
            } else {
                None
            }
        &&& forall|i: int, j: int|
            0 <= i < self.pools@.len() && 0 <= j < self.pools@.len() && i != j ==> #[trigger] self.pools@[i].0
                != #[trigger] self.pools@[j].0
        &&& forall|i: int| 0 <= i < self.pools@.len() ==> (#[trigger] self.pools@[i]).1.wf()
        &&& forall|i: int, id: usize|
            0 <= i < self.pools@.len() && (#[trigger] self.pools@[i].1.items(id)).len() > 0 ==> id
                < self.entities@.len() && self.entities@[id as int].0 == Some(id)
    }

    /// A slot on the free list is not alive.
    proof fn lemma_free_dead(self, i: int)
        requires
            self.wf(),
            0 <= i < self.free@.len(),
        ensures
            self.live_at(self.free@[i] as int) is None,
    {
        if i + 1 < self.free@.len() {
            assert(self.free@[i] != self.free@[i + 1]);
        }
    }

    /// No two live handles share an id.
    pub proof fn lemma_alive_unique(self, e1: Entity, e2: Entity)
        requires
            self.alive(e1),
            self.alive(e2),
            e1.id == e2.id,
        ensures
            e1 == e2,
    {
    }

    /// Whether every handle that has expired in `w0` has expired in `w1` too.
    pub open spec fn keeps_expired(w0: Self, w1: Self) -> bool {
        forall|x: Entity| #[trigger] w0.expired(x) ==> w1.expired(x)
    }

    /// What `create` does to the entity table: `e` is the slot at the head of the free
    /// list, at the version the slot has, or else a new slot at version 0.
    pub open spec fn creates(w0: Self, w1: Self, e: Entity) -> bool {
        &&& w1.alive(e)
        &&& !w0.alive(e)
        &&& e.id == if w0.free_list().len() > 0 {
            w0.free_list()[0] as nat
        } else {
            w0.slot_count()
        }
        &&& e.version == if w0.free_list().len() > 0 {
            w0.version_at(e.id as int)
        } else {
            0
        }
        &&& w1.free_list() == if w0.free_list().len() > 0 {
            w0.free_list().drop_first()
        } else {
            w0.free_list()
        }
        &&& w1.slot_count() == if w0.free_list().len() > 0 {
            w0.slot_count()
        } else {
            w0.slot_count() + 1
        }
        &&& forall|i: int| i != e.id ==> #[trigger] w1.live_at(i) == w0.live_at(i)
        &&& forall|i: int| 0 <= i < w0.slot_count() ==> #[trigger] w1.version_at(i) == w0.version_at(i)
        &&& Self::keeps_expired(w0, w1)
    }

    /// What `destroy` does to the entity table: a live `e` expires, its slot moves to the
    /// next version and goes to the head of the free list, or is retired at the largest
    /// version; other slots stay as they were.
    pub open spec fn destroys(w0: Self, w1: Self, e: Entity) -> bool {
        &&& w0.alive(e) ==> {
            &&& !w1.alive(e)
            &&& w1.expired(e)
            &&& w1.slot_count() == w0.slot_count()
            &&& w1.version_at(e.id as int) == if e.version < u32::MAX {
                (e.version + 1) as u32
            } else {
                e.version
            }
            &&& w1.free_list() == if e.version < u32::MAX {
                seq![e.id].add(w0.free_list())
            } else {
                w0.free_list()
            }
            &&& forall|i: int| i != e.id ==> #[trigger] w1.live_at(i) == w0.live_at(i)
            &&& forall|i: int|
                0 <= i < w0.slot_count() && i != e.id ==> #[trigger] w1.version_at(i) == w0.version_at(i)
        }
        &&& Self::keeps_expired(w0, w1)
    }

    /// An empty world.
    pub fn new() -> (w: Self)
        ensures
            w.wf(),
            w.slot_count() == 0,
            w.free_list() == Seq::<usize>::empty(),
            forall|kind: u64| !(#[trigger] w.has_pool(kind)),
            forall|id: int| #[trigger] w.live_at(id) is None,
            forall|x: Entity, kind: u64| #[trigger] w.components(x, kind) == Seq::<T>::empty(),
            forall|kind: u64| #[trigger] w.holders(kind) == Seq::<usize>::empty(),
    {
        World {
            entities: Vec::new(),
            destroyed_head: None,
            pools: Vec::new(),
            free: Ghost(Seq::empty()),
        }
    }

    /// Whether `e` is a current handle of this world.
    pub fn entity_exists(&self, e: Entity) -> (r: bool)
        ensures
            r == self.alive(e),
    {
        if e.id < self.entities.len() {
            let (link, version) = self.entities[e.id];
            match link {
                Some(stored) => stored == e.id && version == e.version,
                None => false,
            }
        } else {
            false
        }
    }

    /// The position of the pool for `kind`.
    fn find_pool(&self, kind: u64) -> (r: Option<usize>)
        requires
            self.wf(),
        ensures
            match r {
                Some(i) => i < self.pools@.len() && self.pools@[i as int].0 == kind && self.has_pool(
                    kind,
                ) && self.pool_index(kind) == i,
                None => !self.has_pool(kind),
            },
    {
        let mut i: usize = 0;
        while i < self.pools.len()
            invariant
                self.wf(),
                i <= self.pools@.len(),
                forall|j: int| 0 <= j < i ==> (#[trigger] self.pools@[j]).0 != kind,
            decreases self.pools@.len() - i,
        {
            if self.pools[i].0 == kind {
                proof {
                    let c = self.pool_index(kind);
                    assert(self.pools@[c].0 == kind);
                    if c != i {
                        assert(self.pools@[c].0 != self.pools@[i as int].0);
                    }
                }
                return Some(i);
            }
            i = i + 1;
        }
        None
    }

    /// Makes a new entity, reusing the slot destroyed last if there is one (its version was
    /// moved on when it was destroyed), else opening a slot at version 0.
    pub fn create(&mut self) -> (e: Entity)
        requires
            old(self).wf(),
        ensures
            final(self).wf(),
            Self::creates(*old(self), *final(self), e),
            forall|kind: u64| #[trigger] final(self).has_pool(kind) == old(self).has_pool(kind),
            forall|x: Entity, kind: u64| #[trigger]
                final(self).components(x, kind) == old(self).components(x, kind),
            forall|kind: u64| #[trigger] final(self).components(e, kind) == Seq::<T>::empty(),
            forall|kind: u64| #[trigger] final(self).holders(kind) == old(self).holders(kind),
    {
        let ghost w0 = *self;
        match self.destroyed_head {
            Some(id) => {
                proof {
                    w0.lemma_free_dead(0);
                }
                let (next, version) = self.entities[id];
                self.destroyed_head = next;
                self.entities.set(id, (Some(id), version));
                self.free = Ghost(w0.free@.drop_first());
                let e = Entity { id, version };
                proof {
                    self.lemma_created(w0, e);
                }
                e
            },
            None => {
                let id = self.entities.len();
                self.entities.push((Some(id), 0));
                let e = Entity { id, version: 0 };
                proof {
                    self.lemma_created(w0, e);
                }
                e
            },
        }
    }

    /// `self` is `w0` with slot `e.id`, which was dead, brought to life at `e.version`.
    closed spec fn created_from(self, w0: Self, e: Entity) -> bool {
        &&& w0.wf()
        &&& w0.live_at(e.id as int) is None
        &&& !w0.free@.contains(e.id) || (w0.free@.len() > 0 && w0.free@[0] == e.id)
        &&& self.pools == w0.pools
        &&& self.entities@.len() >= w0.entities@.len()
        &&& e.id < self.entities@.len()
        &&& self.entities@[e.id as int] == (Some(e.id), e.version)
        &&& forall|i: int|
            0 <= i < self.entities@.len() && i != e.id ==> i < w0.entities@.len()
                && #[trigger] self.entities@[i] == w0.entities@[i]
        &&& e.id < w0.entities@.len() ==> e.version == w0.entities@[e.id as int].1
        &&& e.id < w0.entities@.len() ==> w0.free@.len() > 0 && w0.free@[0] == e.id
        &&& self.free@ == if w0.free@.contains(e.id) {
            w0.free@.drop_first()
        } else {
            w0.free@
        }
        &&& self.destroyed_head == if self.free@.len() == 0 {
            None
        } else {
            Some(self.free@[0])
        }
    }

    /// What `create` leaves.
    proof fn lemma_created(self, w0: Self, e: Entity)
        requires
            self.created_from(w0, e),
        ensures
            self.wf(),
            forall|i: int| i != e.id ==> #[trigger] self.live_at(i) == w0.live_at(i),
            forall|x: Entity| #[trigger] w0.expired(x) ==> self.expired(x),
            forall|kind: u64| #[trigger] self.has_pool(kind) == w0.has_pool(kind),
            forall|x: Entity, kind: u64| #[trigger]
                self.components(x, kind) == w0.components(x, kind),
    {
        self.lemma_created_wf(w0, e);
        self.lemma_created_expired(w0, e);
        self.lemma_created_components(w0, e);
        assert forall|i: int| i != e.id implies #[trigger] self.live_at(i) == w0.live_at(i) by {}
    }

    proof fn lemma_created_wf(self, w0: Self, e: Entity)
        requires
            self.created_from(w0, e),
        ensures
            self.wf(),
    {
        assert forall|i: int|
            0 <= i < self.free@.len() implies (#[trigger] self.entities@[self.free@[i] as int]).0
            == if i + 1 < self.free@.len() {
            Some(self.free@[i + 1])
        } else {
            None
        } by {
            if w0.free@.contains(e.id) {
                assert(self.free@[i] == w0.free@[i + 1]);
                assert(w0.free@[i + 1] != w0.free@[0]);
            } else {
                assert(w0.free@.contains(self.free@[i]));
            }
        }
        assert forall|i: int, id: usize|
            0 <= i < self.pools@.len() && (#[trigger] self.pools@[i].1.items(id)).len() > 0 implies id
            < self.entities@.len() && self.entities@[id as int].0 == Some(id) by {
            assert(w0.pools@[i].1.items(id).len() > 0);
        }
    }

    proof fn lemma_created_expired(self, w0: Self, e: Entity)
        requires
            self.created_from(w0, e),
        ensures
            forall|x: Entity| #[trigger] w0.expired(x) ==> self.expired(x),
    {
        assert forall|x: Entity| #[trigger] w0.expired(x) implies self.expired(x) by {
            if x.id != e.id && self.free@.contains(x.id) {
                let k = choose|k: int| 0 <= k < self.free@.len() && self.free@[k] == x.id;
                if w0.free@.contains(e.id) {
                    assert(w0.free@[k + 1] == x.id);
                } else {
                    assert(w0.free@[k] == x.id);
                }
            }
            if x.id == e.id && x.id < w0.entities@.len() {
                assert(self.version_at(x.id as int) == w0.version_at(x.id as int));
                if x.version == u32::MAX && w0.version_at(x.id as int) == u32::MAX && w0.live_at(
                    x.id as int,
                ) is None && !w0.free@.contains(x.id) {
                    assert(w0.free@[0] == e.id);
                    assert(w0.free@.contains(e.id));
                }
            }
        }
    }

    proof fn lemma_created_components(self, w0: Self, e: Entity)
        requires
            self.created_from(w0, e),
        ensures
            forall|kind: u64| #[trigger] self.has_pool(kind) == w0.has_pool(kind),
            forall|x: Entity, kind: u64| #[trigger]
                self.components(x, kind) == w0.components(x, kind),
    {
        assert forall|kind: u64| #[trigger] self.has_pool(kind) == w0.has_pool(kind) by {}
        assert forall|x: Entity, kind: u64| #[trigger]
            self.components(x, kind) == w0.components(x, kind) by {
            if x.id == e.id && self.alive(x) {
                assert(self.pool_items(kind, x.id) == w0.pool_items(kind, x.id));
                if w0.has_pool(kind) {
                    let c = w0.pool_index(kind);
                    assert(w0.pools@[c].1.items(x.id).len() == 0);
                }
            }
        }
    }

    /// Whether `self` and `other` have the same entity table and free list.
    pub open spec fn same_entities(self, other: Self) -> bool {
        &&& self.slot_count() == other.slot_count()
        &&& self.free_list() == other.free_list()
        &&& forall|i: int| #[trigger] self.live_at(i) == other.live_at(i)
        &&& forall|i: int| #[trigger] self.version_at(i) == other.version_at(i)
    }

    /// Whether `self` is `w0` with the pools replaced by ones of the same kinds, in which
    /// only the instances recorded for slot `id` may have changed.
    closed spec fn pools_changed_at(self, w0: Self, id: usize) -> bool {
        &&& self.entities == w0.entities
        &&& self.destroyed_head == w0.destroyed_head
        &&& self.free == w0.free
        &&& self.pools@.len() == w0.pools@.len()
        &&& forall|j: int| 0 <= j < self.pools@.len() ==> (#[trigger] self.pools@[j]).0 == w0.pools@[j].0
        &&& forall|j: int| 0 <= j < self.pools@.len() ==> (#[trigger] self.pools@[j]).1.wf()
        &&& forall|j: int, x: usize|
            0 <= j < self.pools@.len() && x != id ==> #[trigger] self.pools@[j].1.items(x)
                == w0.pools@[j].1.items(x)
    }

    /// Changing the pools at slot `id` alone, which stays alive where it holds instances,
    /// keeps the world well formed and every other slot's instances.
    proof fn lemma_pools_changed_at(self, w0: Self, id: usize)
        requires
            w0.wf(),
            self.pools_changed_at(w0, id),
            forall|j: int|
                0 <= j < self.pools@.len() && (#[trigger] self.pools@[j]).1.items(id).len() > 0
                    ==> id < self.entities@.len() && self.entities@[id as int].0 == Some(id),
        ensures
            self.wf(),
            self.same_entities(w0),
            forall|kind: u64| #[trigger] self.has_pool(kind) == w0.has_pool(kind),
            forall|kind: u64| self.has_pool(kind) ==> #[trigger] self.pool_index(kind) == w0.pool_index(kind),
            forall|kind: u64, x: usize| x != id ==> #[trigger] self.pool_items(kind, x) == w0.pool_items(kind, x),
            forall|kind: u64|
                self.has_pool(kind) ==> #[trigger] self.holders(kind) == self.pools@[w0.pool_index(
                    kind,
                )].1.ids(),
    {
        assert forall|i: int, j: int|
            0 <= i < self.pools@.len() && 0 <= j < self.pools@.len() && i != j implies #[trigger] self.pools@[i].0
            != #[trigger] self.pools@[j].0 by {
            assert(w0.pools@[i].0 != w0.pools@[j].0);
        }
        assert forall|i: int, x: usize|
            0 <= i < self.pools@.len() && (#[trigger] self.pools@[i].1.items(x)).len() > 0 implies x
            < self.entities@.len() && self.entities@[x as int].0 == Some(x) by {
            if x != id {
                assert(w0.pools@[i].1.items(x).len() > 0);
            }
        }
        assert forall|kind: u64| #[trigger] self.has_pool(kind) == w0.has_pool(kind) by {
            if w0.has_pool(kind) {
                let c = w0.pool_index(kind);
                assert(self.pools@[c].0 == kind);
            }
            if self.has_pool(kind) {
                let c = self.pool_index(kind);
                assert(w0.pools@[c].0 == kind);
            }
        }
        assert forall|kind: u64| self.has_pool(kind) implies #[trigger] self.pool_index(kind) == w0.pool_index(kind) by {
            let c = self.pool_index(kind);
            let d = w0.pool_index(kind);
            assert(self.pools@[d].0 == kind);
            if c != d {
                assert(self.pools@[c].0 != self.pools@[d].0);
            }
        }
        assert forall|kind: u64, x: usize| x != id implies #[trigger] self.pool_items(kind, x) == w0.pool_items(kind, x) by {
            if self.has_pool(kind) {
                assert(self.pool_index(kind) == w0.pool_index(kind));
            }
        }
    }

    /// Destroys entity `e`: removes every instance it holds, moves its slot to the next
    /// version and puts the slot at the head of the free list. A slot at the largest version
    /// is retired instead of being put on the list. Nothing happens when `e` is not alive.
    pub fn destroy(&mut self, e: Entity)
        requires
            old(self).wf(),
        ensures
            final(self).wf(),
            !old(self).alive(e) ==> *final(self) == *old(self),
            Self::destroys(*old(self), *final(self), e),
            old(self).alive(e) ==> forall|kind: u64| #[trigger] final(self).pool_items(kind, e.id)
                == Seq::<T>::empty(),
            forall|kind: u64| #[trigger] final(self).components(e, kind) == Seq::<T>::empty(),
            forall|kind: u64| #[trigger] final(self).has_pool(kind) == old(self).has_pool(kind),
            forall|x: Entity, kind: u64|
                x != e ==> #[trigger] final(self).components(x, kind) == old(self).components(x, kind),
            forall|k: u64| #[trigger]
                final(self).holders(k) == if old(self).components(e, k).len() > 0 {
                    crate::pool::swap_removed(old(self).holders(k), old(self).holder_position(k, e.id))
                } else {
                    old(self).holders(k)
                },
    {
        if !self.entity_exists(e) {
            return;
        }
        let ghost w0 = *self;
        let mut i: usize = 0;
        while i < self.pools.len()
            invariant
                w0.wf(),
                w0.alive(e),
                self.pools_changed_at(w0, e.id),
                i <= self.pools@.len(),
                forall|j: int| 0 <= j < i ==> (#[trigger] self.pools@[j]).1.items(e.id) == Seq::<T>::empty(),
                forall|j: int|
                    i <= j < self.pools@.len() ==> #[trigger] self.pools@[j] == w0.pools@[j],
                forall|j: int|
                    0 <= j < i ==> #[trigger] self.pools@[j].1.ids() == if w0.pools@[j].1.items(e.id).len()
                        > 0 {
                        crate::pool::swap_removed(w0.pools@[j].1.ids(), w0.pools@[j].1.position(e.id))
                    } else {
                        w0.pools@[j].1.ids()
                    },
            decreases self.pools@.len() - i,
        {
            let ghost before = *self;
            self.pools[i].1.detach_all(e.id);
            proof {
                assert forall|j: int| 0 <= j < self.pools@.len() && j != i implies #[trigger] self.pools@[j]
                    == before.pools@[j] by {}
            }
            i = i + 1;
        }
        let ghost w1 = *self;
        proof {
            assert forall|j: int|
                0 <= j < self.pools@.len() && (#[trigger] self.pools@[j]).1.items(e.id).len() > 0 implies e.id
                < self.entities@.len() && self.entities@[e.id as int].0 == Some(e.id) by {}
            self.lemma_pools_changed_at(w0, e.id);
            assert forall|k: u64| #[trigger] self.holders(k) == if w0.components(e, k).len() > 0 {
                crate::pool::swap_removed(w0.holders(k), w0.holder_position(k, e.id))
            } else {
                w0.holders(k)
            } by {
                if w0.has_pool(k) {
                    let d = w0.pool_index(k);
                    assert(self.pools@[d].1.ids() == if w0.pools@[d].1.items(e.id).len() > 0 {
                        crate::pool::swap_removed(w0.pools@[d].1.ids(), w0.pools@[d].1.position(e.id))
                    } else {
                        w0.pools@[d].1.ids()
                    });
                }
            }
            assert(!w0.free@.contains(e.id)) by {
                if w0.free@.contains(e.id) {
                    let k = choose|k: int| 0 <= k < w0.free@.len() && w0.free@[k] == e.id;
                    w0.lemma_free_dead(k);
                }
            }
        }
        if e.version < u32::MAX {
            self.entities.set(e.id, (self.destroyed_head, e.version + 1));
            self.destroyed_head = Some(e.id);
            self.free = Ghost(seq![e.id].add(w1.free@));
        } else {
            self.entities.set(e.id, (None, e.version));
        }
        proof {
            self.lemma_destroyed(w0, w1, e);
        }
    }

    /// What `destroy` leaves: `w1` is `w0` with `e` cleared from every pool, and `self` is
    /// `w1` with the slot of `e` moved on and linked, or retired.
    proof fn lemma_destroyed(self, w0: Self, w1: Self, e: Entity)
        requires
            w0.wf(),
            w0.alive(e),
            !w0.free@.contains(e.id),
            w1.wf(),
            w1.same_entities(w0),
            w1.entities == w0.entities,
            w1.free == w0.free,
            w1.destroyed_head == w0.destroyed_head,
            forall|kind: u64| #[trigger] w1.has_pool(kind) == w0.has_pool(kind),
            forall|kind: u64, x: usize| x != e.id ==> #[trigger] w1.pool_items(kind, x) == w0.pool_items(kind, x),
            forall|j: int| 0 <= j < w1.pools@.len() ==> (#[trigger] w1.pools@[j]).1.items(e.id) == Seq::<T>::empty(),
            self.pools == w1.pools,
            self.entities@ == w1.entities@.update(
                e.id as int,
                if e.version < u32::MAX {
                    (w1.destroyed_head, (e.version + 1) as u32)
                } else {
                    (None, e.version)
                },
            ),
            e.version < u32::MAX ==> self.destroyed_head == Some(e.id) && self.free@ == seq![e.id].add(w1.free@),
            e.version == u32::MAX ==> self.destroyed_head == w1.destroyed_head && self.free == w1.free,
        ensures
            self.wf(),
            !self.alive(e),
            self.expired(e),
            self.slot_count() == w0.slot_count(),
            forall|i: int| i != e.id ==> #[trigger] self.live_at(i) == w0.live_at(i),
            forall|i: int|
                0 <= i < w0.slot_count() && i != e.id ==> #[trigger] self.version_at(i) == w0.version_at(i),
            forall|kind: u64| #[trigger] self.pool_items(kind, e.id) == Seq::<T>::empty(),
            forall|kind: u64| #[trigger] self.has_pool(kind) == w0.has_pool(kind),
            forall|x: Entity, kind: u64|
                x != e ==> #[trigger] self.components(x, kind) == w0.components(x, kind),
            forall|x: Entity| #[trigger] w0.expired(x) ==> self.expired(x),
    {
        assert forall|i: int| i != e.id implies #[trigger] self.live_at(i) == w0.live_at(i) by {
            assert(w1.live_at(i) == w0.live_at(i));
        }
        assert forall|i: int| 0 <= i < w0.slot_count() && i != e.id implies #[trigger] self.version_at(i) == w0.version_at(i) by {
            assert(w1.version_at(i) == w0.version_at(i));
        }
        assert forall|i: int|
            0 <= i < self.free@.len() implies (#[trigger] self.entities@[self.free@[i] as int]).0
            == if i + 1 < self.free@.len() {
            Some(self.free@[i + 1])
        } else {
            None
        } by {
            if e.version < u32::MAX && i > 0 {
                assert(self.free@[i] == w1.free@[i - 1]);
                assert(w1.free@.contains(self.free@[i]));
            } else if e.version == u32::MAX {
                assert(w1.free@.contains(self.free@[i]));
            }
        }
        assert forall|i: int, id: usize|
            0 <= i < self.pools@.len() && (#[trigger] self.pools@[i].1.items(id)).len() > 0 implies id
            < self.entities@.len() && self.entities@[id as int].0 == Some(id) by {
            assert(w1.pools@[i].1.items(id).len() > 0);
        }
        assert forall|kind: u64| #[trigger] self.has_pool(kind) == w1.has_pool(kind) by {}
        assert forall|kind: u64| #[trigger] self.pool_items(kind, e.id) == Seq::<T>::empty() by {
            if self.has_pool(kind) {
                assert(self.pool_index(kind) == w1.pool_index(kind));
            }
        }
        assert forall|x: Entity, kind: u64|
            x != e implies #[trigger] self.components(x, kind) == w0.components(x, kind) by {
            assert(self.pool_items(kind, x.id) == w1.pool_items(kind, x.id));
        }
        assert forall|x: Entity| #[trigger] w0.expired(x) implies self.expired(x) by {
            if x.id != e.id && self.free@.contains(x.id) {
                let k = choose|k: int| 0 <= k < self.free@.len() && self.free@[k] == x.id;
                if e.version < u32::MAX {
                    assert(w1.free@[k - 1] == x.id);
                }
            }
        }
        if e.version < u32::MAX {
            assert(self.free@.no_duplicates()) by {
                assert forall|a: int, b: int|
                    0 <= a < self.free@.len() && 0 <= b < self.free@.len() && a != b implies self.free@[a]
                    != self.free@[b] by {
                    if a > 0 && b > 0 {
                        assert(w1.free@[a - 1] != w1.free@[b - 1]);
                    } else if a == 0 {
                        assert(w1.free@.contains(self.free@[b]));
                    } else {
                        assert(w1.free@.contains(self.free@[a]));
                    }
                }
            }
        }
    }

    /// What adding a pool for a new `kind`, holding instances for slot `id` alone, leaves.
    proof fn lemma_pool_added(self, w0: Self, kind: u64, id: usize)
        requires
            w0.wf(),
            !w0.has_pool(kind),
            id < w0.entities@.len(),
            w0.entities@[id as int].0 == Some(id),
            self.entities == w0.entities,
            self.destroyed_head == w0.destroyed_head,
            self.free == w0.free,
            self.pools@.len() == w0.pools@.len() + 1,
            forall|j: int| 0 <= j < w0.pools@.len() ==> #[trigger] self.pools@[j] == w0.pools@[j],
            self.pools@.last().0 == kind,
            self.pools@.last().1.wf(),
            forall|x: usize| x != id ==> #[trigger] self.pools@.last().1.items(x) == Seq::<T>::empty(),
        ensures
            self.wf(),
            self.same_entities(w0),
            forall|k: u64| #[trigger] self.has_pool(k) == (w0.has_pool(k) || k == kind),
            forall|k: u64, x: usize| k != kind ==> #[trigger] self.pool_items(k, x) == w0.pool_items(k, x),
            forall|x: usize| #[trigger] self.pool_items(kind, x) == self.pools@.last().1.items(x),
            forall|k: u64| k != kind ==> #[trigger] self.holders(k) == w0.holders(k),
            self.holders(kind) == self.pools@.last().1.ids(),
            w0.holders(kind) == Seq::<usize>::empty(),
    {
        let n = w0.pools@.len() as int;
        assert forall|i: int, j: int|
            0 <= i < self.pools@.len() && 0 <= j < self.pools@.len() && i != j implies #[trigger] self.pools@[i].0
            != #[trigger] self.pools@[j].0 by {
            if i < n && j < n {
                assert(w0.pools@[i].0 != w0.pools@[j].0);
            } else if i < n {
                assert(w0.pools@[i].0 != kind);
            } else {
                assert(w0.pools@[j].0 != kind);
            }
        }
        assert forall|i: int| 0 <= i < self.pools@.len() implies (#[trigger] self.pools@[i]).1.wf() by {
            if i < n {
                assert(w0.pools@[i].1.wf());
            }
        }
        assert forall|i: int, x: usize|
            0 <= i < self.pools@.len() && (#[trigger] self.pools@[i].1.items(x)).len() > 0 implies x
            < self.entities@.len() && self.entities@[x as int].0 == Some(x) by {
            if i < n {
                assert(w0.pools@[i].1.items(x).len() > 0);
            }
        }
        assert forall|k: u64| #[trigger] self.has_pool(k) == (w0.has_pool(k) || k == kind) by {
            if w0.has_pool(k) {
                let c = w0.pool_index(k);
                assert(self.pools@[c].0 == k);
            }
            if k == kind {
                assert(self.pools@[n].0 == k);
            }
            if self.has_pool(k) && k != kind {
                let c = self.pool_index(k);
                assert(c < n);
                assert(w0.pools@[c].0 == k);
            }
        }
        assert forall|k: u64, x: usize| k != kind implies #[trigger] self.pool_items(k, x) == w0.pool_items(k, x) by {
            if self.has_pool(k) {
                let c = self.pool_index(k);
                let d = w0.pool_index(k);
                assert(c < n);
                assert(self.pools@[d].0 == k);
                if c != d {
                    assert(self.pools@[c].0 != self.pools@[d].0);
                }
            }
        }
        assert forall|x: usize| #[trigger] self.pool_items(kind, x) == self.pools@.last().1.items(x) by {
            assert(self.pools@[n].0 == kind);
            let c = self.pool_index(kind);
            if c != n {
                assert(self.pools@[c].0 != self.pools@[n].0);
            }
        }
        assert(self.pools@[n].0 == kind);
        let c = self.pool_index(kind);
        if c != n {
            assert(self.pools@[c].0 != self.pools@[n].0);
        }
        assert forall|k: u64| k != kind implies #[trigger] self.holders(k) == w0.holders(k) by {
            if self.has_pool(k) {
                let c = self.pool_index(k);
                let d = w0.pool_index(k);
                assert(c < n);
                assert(self.pools@[d].0 == k);
                if c != d {
                    assert(self.pools@[c].0 != self.pools@[d].0);
                }
            }
        }
    }

    /// Adds `component`, of `kind`, after the instances of that kind that `e` holds; the
    /// pool for `kind` is made on first use. Nothing happens when `e` is not alive.
    pub fn attach(&mut self, e: Entity, kind: u64, component: T)
        requires
            old(self).wf(),
        ensures
            final(self).wf(),
            final(self).same_entities(*old(self)),
            !old(self).alive(e) ==> *final(self) == *old(self),
            old(self).alive(e) ==> final(self).components(e, kind) == old(self).components(e, kind).push(
                component,
            ),
            old(self).alive(e) ==> forall|k: u64| #[trigger]
                final(self).has_pool(k) == (old(self).has_pool(k) || k == kind),
            forall|x: Entity, k: u64|
                !(x == e && k == kind) ==> #[trigger] final(self).components(x, k) == old(self).components(x, k),
            forall|k: u64| #[trigger]
                final(self).holders(k) == if k == kind && old(self).alive(e) && old(self).components(
                    e,
                    kind,
                ).len() == 0 {
                    old(self).holders(k).push(e.id)
                } else {
                    old(self).holders(k)
                },
    {
        if !self.entity_exists(e) {
            return;
        }
        let ghost w0 = *self;
        match self.find_pool(kind) {
            Some(i) => {
                self.pools[i].1.attach(e.id, component);
                proof {
                    assert forall|j: int| 0 <= j < self.pools@.len() implies (#[trigger] self.pools@[j]).0
                        == w0.pools@[j].0 && self.pools@[j].1.wf() by {
                        if j != i {
                            assert(self.pools@[j] == w0.pools@[j]);
                        }
                    }
                    assert forall|j: int, x: usize|
                        0 <= j < self.pools@.len() && x != e.id implies #[trigger] self.pools@[j].1.items(x)
                        == w0.pools@[j].1.items(x) by {
                        if j != i {
                            assert(self.pools@[j] == w0.pools@[j]);
                        }
                    }
                    self.lemma_pools_changed_at(w0, e.id);
                    assert forall|k: u64| #[trigger] self.holders(k) == if k == kind && w0.components(
                        e,
                        kind,
                    ).len() == 0 {
                        w0.holders(k).push(e.id)
                    } else {
                        w0.holders(k)
                    } by {
                        if w0.has_pool(k) {
                            let d = w0.pool_index(k);
                            if d != i {
                                assert(self.pools@[d] == w0.pools@[d]);
                            }
                        }
                    }
                }
            },
            None => {
                let mut pool = Pool::new();
                pool.attach(e.id, component);
                self.pools.push((kind, pool));
                proof {
                    self.lemma_pool_added(w0, kind, e.id);
                }
            },
        }
    }

    /// Removes the first instance of `kind` that `e` holds, and returns it.
    pub fn detach_one(&mut self, e: Entity, kind: u64) -> (r: Option<T>)
        requires
            old(self).wf(),
        ensures
            final(self).wf(),
            final(self).same_entities(*old(self)),
            forall|k: u64| #[trigger] final(self).has_pool(k) == old(self).has_pool(k),
            old(self).components(e, kind).len() == 0 ==> r is None,
            old(self).components(e, kind).len() > 0 ==> r == Some(old(self).components(e, kind)[0]),
            final(self).components(e, kind) == if old(self).components(e, kind).len() == 0 {
                Seq::<T>::empty()
            } else {
                old(self).components(e, kind).drop_first()
            },
            forall|x: Entity, k: u64|
                !(x == e && k == kind) ==> #[trigger] final(self).components(x, k) == old(self).components(x, k),
            forall|k: u64| #[trigger]
                final(self).holders(k) == if k == kind && old(self).components(e, kind).len() == 1 {
                    crate::pool::swap_removed(old(self).holders(k), old(self).holder_position(k, e.id))
                } else {
                    old(self).holders(k)
                },
    {
        if !self.entity_exists(e) {
            return None;
        }
        let ghost w0 = *self;
        match self.find_pool(kind) {
            Some(i) => {
                let r = self.pools[i].1.detach_one(e.id);
                proof {
                    self.lemma_one_pool_changed(w0, i as int, e.id);
                }
                r
            },
            None => None,
        }
    }

    /// Removes every instance of `kind` that `e` holds, returned in attach order.
    pub fn detach_all(&mut self, e: Entity, kind: u64) -> (r: Vec<T>)
        requires
            old(self).wf(),
        ensures
            final(self).wf(),
            final(self).same_entities(*old(self)),
            forall|k: u64| #[trigger] final(self).has_pool(k) == old(self).has_pool(k),
            r@ == old(self).components(e, kind),
            final(self).components(e, kind) == Seq::<T>::empty(),
            forall|x: Entity, k: u64|
                !(x == e && k == kind) ==> #[trigger] final(self).components(x, k) == old(self).components(x, k),
            forall|k: u64| #[trigger]
                final(self).holders(k) == if k == kind && old(self).components(e, kind).len() > 0 {
                    crate::pool::swap_removed(old(self).holders(k), old(self).holder_position(k, e.id))
                } else {
                    old(self).holders(k)
                },
    {
        if !self.entity_exists(e) {
            return Vec::new();
        }
        let ghost w0 = *self;
        match self.find_pool(kind) {
            Some(i) => {
                let r = self.pools[i].1.detach_all(e.id);
                proof {
                    self.lemma_one_pool_changed(w0, i as int, e.id);
                }
                r
            },
            None => Vec::new(),
        }
    }

    /// `self` is `w0` after a change to the pool at position `i` that kept it well formed
    /// and touched no slot but `id`, which is alive.
    proof fn lemma_one_pool_changed(self, w0: Self, i: int, id: usize)
        requires
            w0.wf(),
            0 <= i < w0.pools@.len(),
            id < w0.entities@.len(),
            w0.entities@[id as int].0 == Some(id),
            self.entities == w0.entities,
            self.destroyed_head == w0.destroyed_head,
            self.free == w0.free,
            self.pools@.len() == w0.pools@.len(),
            forall|j: int| 0 <= j < self.pools@.len() && j != i ==> #[trigger] self.pools@[j] == w0.pools@[j],
            self.pools@[i].0 == w0.pools@[i].0,
            self.pools@[i].1.wf(),
            forall|x: usize| x != id ==> #[trigger] self.pools@[i].1.items(x) == w0.pools@[i].1.items(x),
        ensures
            self.wf(),
            self.same_entities(w0),
            forall|k: u64| #[trigger] self.has_pool(k) == w0.has_pool(k),
            forall|k: u64, x: usize| x != id ==> #[trigger] self.pool_items(k, x) == w0.pool_items(k, x),
            w0.pool_index(w0.pools@[i].0) == i,
            self.pool_items(w0.pools@[i].0, id) == self.pools@[i].1.items(id),
            forall|k: u64| k != w0.pools@[i].0 ==> #[trigger] self.pool_items(k, id) == w0.pool_items(k, id),
            self.holders(w0.pools@[i].0) == self.pools@[i].1.ids(),
            w0.holders(w0.pools@[i].0) == w0.pools@[i].1.ids(),
            forall|x: usize| #[trigger] w0.holder_position(w0.pools@[i].0, x) == w0.pools@[i].1.position(x),
            forall|k: u64| k != w0.pools@[i].0 ==> #[trigger] self.holders(k) == w0.holders(k),
    {
        assert forall|j: int| 0 <= j < self.pools@.len() implies (#[trigger] self.pools@[j]).0
            == w0.pools@[j].0 && self.pools@[j].1.wf() by {}
        assert forall|j: int, x: usize|
            0 <= j < self.pools@.len() && x != id implies #[trigger] self.pools@[j].1.items(x)
            == w0.pools@[j].1.items(x) by {}
        assert forall|j: int|
            0 <= j < self.pools@.len() && (#[trigger] self.pools@[j]).1.items(id).len() > 0
                implies id < self.entities@.len() && self.entities@[id as int].0 == Some(id) by {}
        self.lemma_pools_changed_at(w0, id);
        let kind = w0.pools@[i].0;
        let c = w0.pool_index(kind);
        if c != i {
            assert(w0.pools@[c].0 != w0.pools@[i].0);
        }
        assert forall|k: u64| k != kind implies #[trigger] self.pool_items(k, id) == w0.pool_items(k, id) by {
            if self.has_pool(k) {
                let d = self.pool_index(k);
                assert(d == w0.pool_index(k));
                assert(d != i);
            }
        }
        assert forall|k: u64| k != kind implies #[trigger] self.holders(k) == w0.holders(k) by {
            if self.has_pool(k) {
                let d = self.pool_index(k);
                assert(d == w0.pool_index(k));
                assert(d != i);
            }
        }
    }

    /// The `n`-th instance of `kind` that `e` holds, counted in attach order.
    pub fn get_nth(&self, e: Entity, kind: u64, n: usize) -> (r: Option<&T>)
        requires
            self.wf(),
        ensures
            n < self.components(e, kind).len() ==> r == Some(&self.components(e, kind)[n as int]),
            n >= self.components(e, kind).len() ==> r is None,
    {
        if !self.entity_exists(e) {
            return None;
        }
        match self.find_pool(kind) {
            Some(i) => {
                proof {
                    assert(self.pools@[i as int].1.wf());
                }
                self.pools[i].1.get_nth(e.id, n)
            },
            None => None,
        }
    }

    /// The first instance of `kind` that `e` holds.
    pub fn get_one(&self, e: Entity, kind: u64) -> (r: Option<&T>)
        requires
            self.wf(),
        ensures
            self.components(e, kind).len() > 0 ==> r == Some(&self.components(e, kind)[0]),
            self.components(e, kind).len() == 0 ==> r is None,
    {
        self.get_nth(e, kind, 0)
    }

    /// Every instance of `kind` that `e` holds, in attach order.
    pub fn get_all(&self, e: Entity, kind: u64) -> (r: &[T])
        requires
            self.wf(),
        ensures
            r@ == self.components(e, kind),
    {
        if !self.entity_exists(e) {
            return &[];
        }
        match self.find_pool(kind) {
            Some(i) => {
                proof {
                    assert(self.pools@[i as int].1.wf());
                }
                self.pools[i].1.get_all(e.id)
            },
            None => &[],
        }
    }

    /// The number of instances of `kind` that `e` holds.
    pub fn count(&self, e: Entity, kind: u64) -> (n: usize)
        requires
            self.wf(),
        ensures
            n == self.components(e, kind).len(),
    {
        if !self.entity_exists(e) {
            return 0;
        }
        match self.find_pool(kind) {
            Some(i) => {
                proof {
                    assert(self.pools@[i as int].1.wf());
                }
                self.pools[i].1.count(e.id)
            },
            None => 0,
        }
    }

    /// The live entities, by ascending id.
    pub fn entities(&self) -> (r: Vec<Entity>)
        ensures
            r@ == self.live(),
    {
        let mut out: Vec<Entity> = Vec::new();
        let mut id: usize = 0;
        while id < self.entities.len()
            invariant
                id <= self.entities@.len(),
                out@ == self.live_upto(id as nat),
            decreases self.entities@.len() - id,
        {
            let (link, version) = self.entities[id];
            if link == Some(id) {
                out.push(Entity { id, version });
            }
            id = id + 1;
        }
        out
    }

    /// Whether `w1` is `w0` but for the contents of the pool at position `i`.
    closed spec fn pool_swapped(w0: Self, w1: Self, i: usize) -> bool {
        &&& w1.entities == w0.entities
        &&& w1.destroyed_head == w0.destroyed_head
        &&& w1.free == w0.free
        &&& w1.pools@.len() == w0.pools@.len()
        &&& forall|j: int| 0 <= j < w0.pools@.len() && j != i ==> #[trigger] w1.pools@[j] == w0.pools@[j]
        &&& w1.pools@[i as int].0 == w0.pools@[i as int].0
    }

    /// A world whose pool at position `i` was swapped for a well-formed one with instances
    /// for the same slots is well formed, and only that pool's instances changed.
    broadcast proof fn lemma_pool_swapped(w0: Self, w1: Self, i: usize)
        requires
            w0.wf(),
            i < w0.pools@.len(),
        ensures
            #[trigger] Self::pool_swapped(w0, w1, i) && w1.pools@[i as int].1.wf() && (forall|x: usize|
                #[trigger] w1.pools@[i as int].1.items(x).len() == w0.pools@[i as int].1.items(x).len())
                && w1.pools@[i as int].1.ids() == w0.pools@[i as int].1.ids() ==> {
                &&& w1.wf()
                &&& forall|k: u64| #[trigger] w1.holders(k) == w0.holders(k)
                &&& w1.same_entities(w0)
                &&& forall|k: u64| #[trigger] w1.has_pool(k) == w0.has_pool(k)
                &&& forall|k: u64, x: usize| #[trigger]
                    w1.pool_items(k, x) == if k == w0.pools@[i as int].0 {
                        w1.pools@[i as int].1.items(x)
                    } else {
                        w0.pool_items(k, x)
                    }
            },
    {
        if Self::pool_swapped(w0, w1, i) && w1.pools@[i as int].1.wf() && (forall|x: usize|
            #[trigger] w1.pools@[i as int].1.items(x).len() == w0.pools@[i as int].1.items(x).len())
            && w1.pools@[i as int].1.ids() == w0.pools@[i as int].1.ids() {
            assert forall|a: int, b: int|
                0 <= a < w1.pools@.len() && 0 <= b < w1.pools@.len() && a != b implies #[trigger] w1.pools@[a].0
                != #[trigger] w1.pools@[b].0 by {
                assert(w0.pools@[a].0 != w0.pools@[b].0);
            }
            assert forall|j: int| 0 <= j < w1.pools@.len() implies (#[trigger] w1.pools@[j]).1.wf() by {
                if j != i {
                    assert(w0.pools@[j].1.wf());
                }
            }
            assert forall|j: int, x: usize|
                0 <= j < w1.pools@.len() && (#[trigger] w1.pools@[j].1.items(x)).len() > 0 implies x
                < w1.entities@.len() && w1.entities@[x as int].0 == Some(x) by {
                assert(w0.pools@[j].1.items(x).len() > 0);
            }
            assert forall|k: u64| #[trigger] w1.has_pool(k) == w0.has_pool(k) by {
                if w0.has_pool(k) {
                    assert(w1.pools@[w0.pool_index(k)].0 == k);
                }
                if w1.has_pool(k) {
                    assert(w0.pools@[w1.pool_index(k)].0 == k);
                }
            }
            assert forall|k: u64| #[trigger] w1.holders(k) == w0.holders(k) by {
                if w1.has_pool(k) {
                    let c = w1.pool_index(k);
                    let d = w0.pool_index(k);
                    assert(w1.pools@[d].0 == k);
                    if c != d {
                        assert(w1.pools@[c].0 != w1.pools@[d].0);
                    }
                }
            }
            assert forall|k: u64, x: usize| #[trigger]
                w1.pool_items(k, x) == if k == w0.pools@[i as int].0 {
                    w1.pools@[i as int].1.items(x)
                } else {
                    w0.pool_items(k, x)
                } by {
                if w1.has_pool(k) {
                    let c = w1.pool_index(k);
                    let d = w0.pool_index(k);
                    assert(w1.pools@[d].0 == k);
                    if c != d {
                        assert(w1.pools@[c].0 != w1.pools@[d].0);
                    }
                    if k == w0.pools@[i as int].0 && c != i {
                        assert(w1.pools@[c].0 != w1.pools@[i as int].0);
                    }
                }
            }
        }
    }

    /// Mutable access to the pool at position `i`.
    fn pool_mut(&mut self, i: usize) -> (r: &mut Pool<T>)
        requires
            i < old(self).pools@.len(),
        ensures
            *r == old(self).pools@[i as int].1,
            Self::pool_swapped(*old(self), *final(self), i),
            final(self).pools@[i as int].1 == *final(r),
    {
        &mut self.pools[i].1
    }

    /// Mutable access to the `n`-th instance of `kind` that `e` holds.
    pub fn get_nth_mut(&mut self, e: Entity, kind: u64, n: usize) -> (r: Option<&mut T>)
        requires
            old(self).wf(),
        ensures
            n >= old(self).components(e, kind).len() ==> r is None && *final(self) == *old(self),
            n < old(self).components(e, kind).len() ==> {
                &&& r is Some
                &&& *r.unwrap() == old(self).components(e, kind)[n as int]
                &&& final(self).wf()
                &&& final(self).same_entities(*old(self))
                &&& forall|k: u64| #[trigger] final(self).has_pool(k) == old(self).has_pool(k)
                &&& forall|k: u64| #[trigger] final(self).holders(k) == old(self).holders(k)
                &&& final(self).components(e, kind) == old(self).components(e, kind).update(
                    n as int,
                    *final(r.unwrap()),
                )
                &&& forall|x: Entity, k: u64|
                    !(x == e && k == kind) ==> #[trigger] final(self).components(x, k) == old(self).components(x, k)
            },
    {
        broadcast use World::lemma_pool_swapped;

        if !self.entity_exists(e) {
            return None;
        }
        match self.find_pool(kind) {
            Some(i) => {
                proof {
                    assert(self.pools@[i as int].1.wf());
                }
                if n < self.pools[i].1.count(e.id) {
                    let pool = self.pool_mut(i);
                    pool.get_nth_mut(e.id, n)
                } else {
                    None
                }
            },
            None => None,
        }
    }

    /// Mutable access to the first instance of `kind` that `e` holds.
    pub fn get_one_mut(&mut self, e: Entity, kind: u64) -> (r: Option<&mut T>)
        requires
            old(self).wf(),
        ensures
            old(self).components(e, kind).len() == 0 ==> r is None && *final(self) == *old(self),
            old(self).components(e, kind).len() > 0 ==> {
                &&& r is Some
                &&& *r.unwrap() == old(self).components(e, kind)[0]
                &&& final(self).wf()
                &&& final(self).same_entities(*old(self))
                &&& forall|k: u64| #[trigger] final(self).has_pool(k) == old(self).has_pool(k)
                &&& forall|k: u64| #[trigger] final(self).holders(k) == old(self).holders(k)
                &&& final(self).components(e, kind) == old(self).components(e, kind).update(
                    0,
                    *final(r.unwrap()),
                )
                &&& forall|x: Entity, k: u64|
                    !(x == e && k == kind) ==> #[trigger] final(self).components(x, k) == old(self).components(x, k)
            },
    {
        self.get_nth_mut(e, kind, 0)
    }

    /// The ids of the entities that hold an instance of `kind`, in the pool's packed order.
    pub closed spec fn holders(self, kind: u64) -> Seq<usize> {
        if self.has_pool(kind) {
            self.pools@[self.pool_index(kind)].1.ids()
        } else {
            Seq::empty()
        }
    }

    /// Where slot `id` stands among the holders of `kind`.
    pub closed spec fn holder_position(self, kind: u64, id: usize) -> int {
        self.pools@[self.pool_index(kind)].1.position(id)
    }

    /// The holders of a kind are distinct live slots: those that hold an instance of it.
    pub proof fn lemma_holders(self, kind: u64)
        requires
            self.wf(),
        ensures
            self.holders(kind).no_duplicates(),
            forall|e: Entity|
                #[trigger] self.components(e, kind).len() > 0 ==> self.holders(kind).contains(e.id)
                    && 0 <= self.holder_position(kind, e.id) < self.holders(kind).len()
                    && self.holders(kind)[self.holder_position(kind, e.id)] == e.id,
            forall|k: int|
                0 <= k < self.holders(kind).len() ==> (#[trigger] self.live_at(
                    self.holders(kind)[k] as int,
                ) matches Some(e) && self.components(e, kind).len() > 0),
    {
        if self.has_pool(kind) {
            let c = self.pool_index(kind);
            self.pools@[c].1.lemma_wf();
            assert forall|k: int| 0 <= k < self.holders(kind).len() implies (#[trigger] self.live_at(
                self.holders(kind)[k] as int,
            ) matches Some(e) && self.components(e, kind).len() > 0) by {
                let id = self.holders(kind)[k];
                assert(self.pools@[c].1.ids().contains(id));
                assert(self.pools@[c].1.items(id).len() > 0);
            }
        }
    }

    /// The ids of the holders of `kind`, in the pool's packed order; `None` where no pool
    /// for `kind` exists.
    pub fn holder_ids(&self, kind: u64) -> (r: Option<Vec<usize>>)
        requires
            self.wf(),
        ensures
            r is Some == self.has_pool(kind),
            r matches Some(v) ==> v@ == self.holders(kind),
    {
        match self.find_pool(kind) {
            Some(i) => Some(self.pools[i].1.entities_ids()),
            None => None,
        }
    }

    /// The entity that occupies slot `id`, if that slot is alive.
    pub fn entity_at(&self, id: usize) -> (r: Option<Entity>)
        ensures
            r == self.live_at(id as int),
    {
        if id < self.entities.len() {
            let (link, version) = self.entities[id];
            if link == Some(id) {
                return Some(Entity { id, version });
            }
        }
        None
    }

    /// The kinds that have a pool, in the order the pools were made.
    pub closed spec fn pool_kinds(self) -> Seq<u64> {
        self.pools@.map_values(|p: (u64, Pool<T>)| p.0)
    }

    /// Pool kinds are distinct, and a kind without a pool has no instances.
    pub proof fn lemma_pool_kinds(self)
        requires
            self.wf(),
        ensures
            self.pool_kinds().no_duplicates(),
            forall|k: u64| #[trigger] self.has_pool(k) == self.pool_kinds().contains(k),
            forall|k: u64, id: usize| !self.has_pool(k) ==> #[trigger] self.pool_items(k, id) == Seq::<T>::empty(),
    {
        assert forall|a: int, b: int|
            0 <= a < self.pool_kinds().len() && 0 <= b < self.pool_kinds().len() && a != b implies self.pool_kinds()[a]
            != self.pool_kinds()[b] by {
            assert(self.pools@[a].0 != self.pools@[b].0);
        }
        assert forall|k: u64| #[trigger] self.has_pool(k) == self.pool_kinds().contains(k) by {
            if self.has_pool(k) {
                assert(self.pool_kinds()[self.pool_index(k)] == k);
            }
            if self.pool_kinds().contains(k) {
                let j = choose|j: int| 0 <= j < self.pool_kinds().len() && self.pool_kinds()[j] == k;
                assert(self.pools@[j].0 == k);
            }
        }
    }

    /// The kinds that have a pool, in the order the pools were made.
    pub fn kinds(&self) -> (r: Vec<u64>)
        ensures
            r@ == self.pool_kinds(),
    {
        let mut out: Vec<u64> = Vec::new();
        let mut i: usize = 0;
        while i < self.pools.len()
            invariant
                i <= self.pools@.len(),
                out@ == self.pool_kinds().subrange(0, i as int),
            decreases self.pools@.len() - i,
        {
            out.push(self.pools[i].0);
            i = i + 1;
        }
        out
    }

    /// Opens slot `id`, beyond the current table, alive at `version`; the slots in between
    /// are opened destroyed, at version 0, and left off the free list.
    pub(crate) fn open_slot(&mut self, id: usize, version: u32)
        requires
            old(self).wf(),
            old(self).slot_count() <= id,
            id < usize::MAX,
        ensures
            final(self).wf(),
            final(self).slot_count() == id + 1,
            final(self).live_at(id as int) == Some(Entity { id, version }),
            forall|j: int| j != id ==> #[trigger] final(self).live_at(j) == old(self).live_at(j),
            final(self).free_list() == old(self).free_list(),
            forall|k: u64| #[trigger] final(self).has_pool(k) == old(self).has_pool(k),
            forall|x: Entity, k: u64| #[trigger] final(self).components(x, k) == old(self).components(x, k),
    {
        let ghost w0 = *self;
        while self.entities.len() < id
            invariant
                w0.wf(),
                id < usize::MAX,
                w0.entities@.len() <= self.entities@.len() <= id,
                self.pools == w0.pools,
                self.free == w0.free,
                self.destroyed_head == w0.destroyed_head,
                forall|j: int| 0 <= j < w0.entities@.len() ==> #[trigger] self.entities@[j] == w0.entities@[j],
                forall|j: int|
                    w0.entities@.len() <= j < self.entities@.len() ==> #[trigger] self.entities@[j] == (
                    None::<usize>,
                    0u32,
                ),
            decreases id - self.entities@.len(),
        {
            self.entities.push((None, 0));
        }
        self.entities.push((Some(id), version));
        proof {
            assert forall|j: int| j != id implies #[trigger] self.live_at(j) == w0.live_at(j) by {
                if 0 <= j < self.entities@.len() && j >= w0.entities@.len() {
                    assert(self.entities@[j] == (None::<usize>, 0u32));
                }
            }
            assert forall|i: int|
                0 <= i < self.free@.len() implies (#[trigger] self.entities@[self.free@[i] as int]).0
                == if i + 1 < self.free@.len() {
                Some(self.free@[i + 1])
            } else {
                None
            } by {
                assert(w0.free@[i] < w0.entities@.len());
            }
            assert forall|i: int, x: usize|
                0 <= i < self.pools@.len() && (#[trigger] self.pools@[i].1.items(x)).len() > 0 implies x
                < self.entities@.len() && self.entities@[x as int].0 == Some(x) by {
                assert(w0.pools@[i].1.items(x).len() > 0);
            }
            assert forall|k: u64| #[trigger] self.has_pool(k) == w0.has_pool(k) by {}
            assert forall|x: Entity, k: u64| #[trigger] self.components(x, k) == w0.components(x, k) by {
                assert(self.pool_items(k, x.id) == w0.pool_items(k, x.id));
                if self.alive(x) && x.id == id && w0.has_pool(k) {
                    assert(w0.pools@[w0.pool_index(k)].1.items(x.id).len() == 0);
                }
            }
        }
    }

    /// Puts every destroyed slot on the free list, which must be empty.
    pub(crate) fn link_dead_slots(&mut self)
        requires
            old(self).wf(),
            old(self).free_list().len() == 0,
        ensures
            final(self).wf(),
            final(self).slot_count() == old(self).slot_count(),
            forall|j: int| #[trigger] final(self).live_at(j) == old(self).live_at(j),
            forall|j: int|
                0 <= j < final(self).slot_count() && final(self).live_at(j) is None ==> final(self).free_list().contains(j as usize),
            forall|k: u64| #[trigger] final(self).has_pool(k) == old(self).has_pool(k),
            forall|x: Entity, k: u64| #[trigger] final(self).components(x, k) == old(self).components(x, k),
    {
        let ghost w0 = *self;
        let mut id: usize = 0;
        while id < self.entities.len()
            invariant
                w0.wf(),
                w0.free@.len() == 0,
                self.wf(),
                id <= self.entities@.len(),
                self.entities@.len() == w0.entities@.len(),
                self.pools == w0.pools,
                forall|j: int| #[trigger] self.live_at(j) == w0.live_at(j),
                forall|k: int| 0 <= k < self.free@.len() ==> #[trigger] self.free@[k] < id,
                forall|j: int|
                    0 <= j < id && self.live_at(j) is None ==> #[trigger] self.free@.contains(j as usize),
            decreases self.entities@.len() - id,
        {
            let (link, version) = self.entities[id];
            if link != Some(id) {
                let ghost before = *self;
                self.entities.set(id, (self.destroyed_head, version));
                self.destroyed_head = Some(id);
                self.free = Ghost(seq![id].add(before.free@));
                proof {
                    assert(!before.free@.contains(id));
                    assert forall|j: int| #[trigger] self.live_at(j) == w0.live_at(j) by {
                        assert(self.live_at(j) == before.live_at(j));
                    }
                    assert forall|i: int|
                        0 <= i < self.free@.len() implies (#[trigger] self.entities@[self.free@[i] as int]).0
                        == if i + 1 < self.free@.len() {
                        Some(self.free@[i + 1])
                    } else {
                        None
                    } by {
                        if i > 0 {
                            assert(self.free@[i] == before.free@[i - 1]);
                            assert(before.free@[i - 1] < id);
                        }
                    }
                    assert(self.free@.no_duplicates()) by {
                        assert forall|a: int, b: int|
                            0 <= a < self.free@.len() && 0 <= b < self.free@.len() && a != b implies self.free@[a]
                            != self.free@[b] by {
                            if a > 0 && b > 0 {
                                assert(before.free@[a - 1] != before.free@[b - 1]);
                            } else if a == 0 {
                                assert(before.free@[b - 1] < id);
                            } else {
                                assert(before.free@[a - 1] < id);
                            }
                        }
                    }
                    assert forall|i: int, x: usize|
                        0 <= i < self.pools@.len() && (#[trigger] self.pools@[i].1.items(x)).len() > 0 implies x
                        < self.entities@.len() && self.entities@[x as int].0 == Some(x) by {
                        assert(before.pools@[i].1.items(x).len() > 0);
                    }
                    assert forall|j: int|
                        0 <= j < id + 1 && self.live_at(j) is None implies #[trigger] self.free@.contains(j as usize) by {
                        if j == id {
                            assert(self.free@[0] == id);
                        } else {
                            assert(before.live_at(j) == self.live_at(j));
                            assert(before.free@.contains(j as usize));
                            let k = choose|k: int| 0 <= k < before.free@.len() && before.free@[k] == j as usize;
                            assert(self.free@[k + 1] == j as usize);
                        }
                    }
                }
            }
            id = id + 1;
        }
        proof {
            assert forall|k: u64| #[trigger] self.has_pool(k) == w0.has_pool(k) by {}
            assert forall|x: Entity, k: u64| #[trigger] self.components(x, k) == w0.components(x, k) by {
                assert(self.pool_items(k, x.id) == w0.pool_items(k, x.id));
            }
        }
    }

    proof fn lemma_live_upto(self, n: nat)
        ensures
            forall|i: int|
                0 <= i < self.live_upto(n).len() ==> (#[trigger] self.live_upto(n)[i]).id < n && self.alive(
                    self.live_upto(n)[i],
                ),
            forall|i: int, j: int|
                0 <= i < j < self.live_upto(n).len() ==> #[trigger] self.live_upto(n)[i].id
                    < #[trigger] self.live_upto(n)[j].id,
            forall|e: Entity| self.alive(e) && e.id < n ==> #[trigger] self.live_upto(n).contains(e),
        decreases n,
    {
        if n > 0 {
            self.lemma_live_upto((n - 1) as nat);
            let prev = self.live_upto((n - 1) as nat);
            let cur = self.live_upto(n);
            assert(self.entities@.len() == self.entities.len());
            match self.live_at(n - 1) {
                Some(e) => {
                    assert(cur == prev.push(e));
                    assert(e.id == n - 1 && self.alive(e));
                },
                None => {
                    assert(cur == prev);
                },
            }
            assert forall|i: int| 0 <= i < prev.len() implies #[trigger] cur[i] == prev[i] by {}
            assert forall|i: int|
                0 <= i < cur.len() implies (#[trigger] cur[i]).id < n && self.alive(cur[i]) by {
                if i < prev.len() {
                    assert(cur[i] == prev[i]);
                }
            }
            assert forall|i: int, j: int|
                0 <= i < j < cur.len() implies #[trigger] cur[i].id < #[trigger] cur[j].id by {
                if j < prev.len() {
                    assert(cur[i] == prev[i] && cur[j] == prev[j]);
                } else {
                    assert(cur[i] == prev[i]);
                }
            }
            assert forall|e: Entity| self.alive(e) && e.id < n implies #[trigger] self.live_upto(n).contains(e) by {
                if e.id < n - 1 {
                    assert(prev.contains(e));
                    let k = choose|k: int| 0 <= k < prev.len() && prev[k] == e;
                    assert(self.live_upto(n)[k] == e);
                } else {
                    assert(self.live_upto(n)[prev.len() as int] == e);
                }
            }
        }
    }

    /// The live list holds the live entities, each once, by strictly ascending id, and
    /// every id in it indexes a slot.
    pub proof fn lemma_live(self)
        ensures
            forall|i: int|
                0 <= i < self.live().len() ==> (#[trigger] self.live()[i]).id < self.slot_count()
                    && self.alive(self.live()[i]),
            forall|i: int, j: int|
                0 <= i < j < self.live().len() ==> #[trigger] self.live()[i].id < #[trigger] self.live()[j].id,
            forall|e: Entity| #[trigger] self.alive(e) ==> self.live().contains(e),
            self.slot_count() <= usize::MAX,
    {
        self.lemma_live_upto(self.slot_count());
        assert(self.entities@.len() == self.entities.len());
    }

    proof fn lemma_live_upto_same(w1: Self, w2: Self, n: nat)
        requires
            forall|id: int| #[trigger] w1.live_at(id) == w2.live_at(id),
        ensures
            w1.live_upto(n) == w2.live_upto(n),
        decreases n,
    {
        if n > 0 {
            Self::lemma_live_upto_same(w1, w2, (n - 1) as nat);
            assert(w1.live_at(n - 1) == w2.live_at(n - 1));
        }
    }

    proof fn lemma_live_upto_beyond(self, n: nat)
        requires
            n >= self.slot_count(),
        ensures
            self.live_upto(n) == self.live(),
        decreases n,
    {
        if n > self.slot_count() {
            self.lemma_live_upto_beyond((n - 1) as nat);
        }
    }

    /// Two worlds with the same live slots have the same live list.
    pub proof fn lemma_live_same(w1: Self, w2: Self)
        requires
            forall|id: int| #[trigger] w1.live_at(id) == w2.live_at(id),
        ensures
            w1.live() == w2.live(),
    {
        let m = if w1.slot_count() > w2.slot_count() {
            w1.slot_count()
        } else {
            w2.slot_count()
        };
        Self::lemma_live_upto_same(w1, w2, m);
        w1.lemma_live_upto_beyond(m);
        w2.lemma_live_upto_beyond(m);
    }

    /// The entity in a live slot carries that slot's id.
    pub proof fn lemma_live_at(self)
        ensures
            forall|id: int|
                #[trigger] self.live_at(id) is Some ==> self.live_at(id)->0.id == id && 0 <= id
                    < self.slot_count() && self.alive(self.live_at(id)->0),
    {
        assert(self.entities@.len() == self.entities.len());
    }

    /// A live handle on the slot of an expired handle has a higher version.
    pub proof fn lemma_expired_outdated(self, e: Entity, x: Entity)
        requires
            self.expired(e),
            self.alive(x),
            x.id == e.id,
        ensures
            x.version > e.version,
    {
        assert(self.live_at(x.id as int) == Some(x));
    }

    /// A destroyed handle never comes back. Along a run of worlds in which each step keeps
    /// expired handles expired, as `create` and `destroy` do, a handle that has expired is
    /// never alive again, and every live handle on its slot has a higher version.
    pub proof fn lemma_expired_stays_dead(runs: Seq<Self>, e: Entity)
        requires
            runs.len() > 0,
            runs[0].expired(e),
            forall|i: int| 0 <= i < runs.len() - 1 ==> #[trigger] Self::keeps_expired(runs[i], runs[i + 1]),
        ensures
            forall|i: int| 0 <= i < runs.len() ==> #[trigger] runs[i].expired(e) && !runs[i].alive(e),
            forall|i: int, x: Entity|
                0 <= i < runs.len() && #[trigger] runs[i].alive(x) && x.id == e.id ==> x.version > e.version,
        decreases runs.len(),
    {
        if runs.len() > 1 {
            let prefix = runs.drop_last();
            let n = runs.len() - 1;
            assert forall|i: int| 0 <= i < prefix.len() - 1 implies #[trigger] Self::keeps_expired(
                prefix[i],
                prefix[i + 1],
            ) by {
                assert(Self::keeps_expired(runs[i], runs[i + 1]));
            }
            Self::lemma_expired_stays_dead(prefix, e);
            let m = n - 1;
            assert(prefix[m] == runs[m]);
            assert(prefix[m].expired(e));
            assert(Self::keeps_expired(runs[m], runs[m + 1]));
            assert(runs[m + 1] == runs[n]);
            assert(runs[n].expired(e));
            assert forall|i: int| 0 <= i < runs.len() implies #[trigger] runs[i].expired(e) && !runs[i].alive(e) by {
                if i < n {
                    assert(prefix[i] == runs[i]);
                }
                if runs[i].alive(e) {
                    runs[i].lemma_expired_outdated(e, e);
                }
            }
        } else {
            if runs[0].alive(e) {
                runs[0].lemma_expired_outdated(e, e);
            }
        }
        assert forall|i: int, x: Entity|
            0 <= i < runs.len() && #[trigger] runs[i].alive(x) && x.id == e.id implies x.version > e.version by {
            runs[i].lemma_expired_outdated(e, x);
        }
    }

    /// The slot that `destroy` frees is the one that the next `create` takes, one version
    /// on, and the destroyed handle stays dead.
    pub proof fn lemma_destroy_then_create(w0: Self, w1: Self, w2: Self, e: Entity, e2: Entity)
        requires
            w0.alive(e),
            e.version < u32::MAX,
            Self::destroys(w0, w1, e),
            Self::creates(w1, w2, e2),
        ensures
            e2 == (Entity { id: e.id, version: (e.version + 1) as u32 }),
            w2.alive(e2),
            !w2.alive(e),
    {
        assert(w1.free_list()[0] == e.id);
        assert(w2.expired(e));
        if w2.alive(e) {
            w2.lemma_expired_outdated(e, e);
        }
    }

    /// Attaching a value to a live entity that holds no instance of its kind makes it the
    /// first instance, which detaching one instance then returns, leaving none.
    pub proof fn lemma_attach_then_detach(
        w0: Self,
        w1: Self,
        w2: Self,
        e: Entity,
        kind: u64,
        c: T,
        r: Option<T>,
    )
        requires
            w0.alive(e),
            w0.components(e, kind).len() == 0,
            w1.components(e, kind) == w0.components(e, kind).push(c),
            w1.components(e, kind).len() > 0 ==> r == Some(w1.components(e, kind)[0]),
            w2.components(e, kind) == if w1.components(e, kind).len() == 0 {
                Seq::<T>::empty()
            } else {
                w1.components(e, kind).drop_first()
            },
        ensures
            w1.components(e, kind).len() == 1,
            w1.components(e, kind)[0] == c,
            r == Some(c),
            w2.components(e, kind).len() == 0,
    {
    }
}

impl<T> Default for World<T> {
    fn default() -> (w: Self)
        ensures
            w.wf(),
            w.slot_count() == 0,
            w.free_list() == Seq::<usize>::empty(),
            forall|kind: u64| !(#[trigger] w.has_pool(kind)),
            forall|id: int| #[trigger] w.live_at(id) is None,
            forall|x: Entity, kind: u64| #[trigger] w.components(x, kind) == Seq::<T>::empty(),
            forall|kind: u64| #[trigger] w.holders(kind) == Seq::<usize>::empty(),
    {
        World::new()
    }
}

} // verus!
