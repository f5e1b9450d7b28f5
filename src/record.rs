//! The record form of a world: one record per live entity, by ascending id, each with the
//! entity's id, its version and its instances, each tagged with its kind.
//!
//! `encode` lists the instances of an entity pool by pool, in the order the pools were
//! made, and within a pool in attach order. `decode` rebuilds a world from such records:
//! the slots that no record names are opened destroyed, at version 0, and put on the free
//! list, so that ids keep being handed out from where the table ends.
use vstd::prelude::*;

use crate::world::World;
use crate::Entity;

verus! {

/// The record of one live entity.
pub struct EntityRecord<C> {
    pub id: usize,
    pub version: u32,
    pub components: Vec<(u64, C)>,
}

/// Records that cannot be decoded: `record` is the position of the first one whose id is
/// not above the id before it, or is the largest `usize`, which cannot index a slot.
#[derive(Clone, Copy, Debug, PartialEq, Eq, Structural)]
pub struct DecodeError {
    pub record: usize,
}

/// A record as a value: id, version and tagged instances.
pub type RecordView<T> = (usize, u32, Seq<(u64, T)>);

pub open spec fn record_view<T>(r: EntityRecord<T>) -> RecordView<T> {
    (r.id, r.version, r.components@)
}

pub open spec fn ref_record_view<T>(r: EntityRecord<&T>) -> RecordView<T> {
    (r.id, r.version, r.components@.map_values(|c: (u64, &T)| (c.0, *c.1)))
}

/// The values in `cs` tagged with `kind`, in order.
pub open spec fn of_kind<T>(cs: Seq<(u64, T)>, kind: u64) -> Seq<T>
    decreases cs.len(),
{
    if cs.len() == 0 {
        Seq::empty()
    } else {
        let prev = of_kind(cs.drop_last(), kind);
        if cs.last().0 == kind {
            prev.push(cs.last().1)
        } else {
            prev
        }
    }
}

/// The instances of `e` of the first `n` of `kinds`, tagged, kind after kind.
pub open spec fn bag_upto<T>(w: World<T>, e: Entity, kinds: Seq<u64>, n: nat) -> Seq<(u64, T)>
    decreases n,
{
    if n == 0 || n > kinds.len() {
        Seq::empty()
    } else {
        let k = kinds[n - 1];
        bag_upto(w, e, kinds, (n - 1) as nat) + w.components(e, k).map_values(|v: T| (k, v))
    }
}

/// The tagged instances of `e`, pool after pool.
pub open spec fn bag<T>(w: World<T>, e: Entity) -> Seq<(u64, T)> {
    bag_upto(w, e, w.pool_kinds(), w.pool_kinds().len())
}

/// The record form of `w`.
pub open spec fn records_of<T>(w: World<T>) -> Seq<RecordView<T>> {
    w.live().map_values(|e: Entity| (e.id, e.version, bag(w, e)))
}

/// Whether record `i` of `recs` has an id above the one before it that can index a slot.
pub open spec fn in_order<T>(recs: Seq<RecordView<T>>, i: int) -> bool {
    &&& recs[i].0 < usize::MAX
    &&& i > 0 ==> recs[i - 1].0 < recs[i].0
}

/// Whether every record of `recs` is in order.
pub open spec fn well_ordered<T>(recs: Seq<RecordView<T>>) -> bool {
    forall|i: int| 0 <= i < recs.len() ==> #[trigger] in_order(recs, i)
}

/// Whether `w` is the world that the well-ordered records `recs` describe.
pub open spec fn decoded<T>(recs: Seq<RecordView<T>>, w: World<T>) -> bool {
    &&& w.slot_count() == if recs.len() == 0 {
        0
    } else {
        recs.last().0 + 1
    }
    &&& forall|i: int|
        0 <= i < recs.len() ==> #[trigger] w.live_at(recs[i].0 as int) == Some(
            Entity { id: recs[i].0, version: recs[i].1 },
        )
    &&& forall|id: int|
        #[trigger] w.live_at(id) is Some ==> exists|i: int| 0 <= i < recs.len() && recs[i].0 == id
    &&& forall|i: int, kind: u64|
        0 <= i < recs.len() ==> #[trigger] w.components(
            Entity { id: recs[i].0, version: recs[i].1 },
            kind,
        ) == of_kind(recs[i].2, kind)
    &&& forall|id: int|
        0 <= id < w.slot_count() && #[trigger] w.live_at(id) is None ==> w.free_list().contains(
            id as usize,
        )
}

proof fn lemma_of_kind_push<T>(cs: Seq<(u64, T)>, c: (u64, T), kind: u64)
    ensures
        of_kind(cs.push(c), kind) == if c.0 == kind {
            of_kind(cs, kind).push(c.1)
        } else {
            of_kind(cs, kind)
        },
{
    assert(cs.push(c).drop_last() == cs);
}

impl<T> World<T> {
    /// The record form of this world, with the instances borrowed from it.
    pub fn encode(&self) -> (r: Vec<EntityRecord<&T>>)
        requires
            self.wf(),
        ensures
            r@.map_values(|x: EntityRecord<&T>| ref_record_view(x)) == records_of(*self),
    {
        let kinds = self.kinds();
        let live = self.entities();
        let mut out: Vec<EntityRecord<&T>> = Vec::new();
        let mut n: usize = 0;
        while n < live.len()
            invariant
                self.wf(),
                kinds@ == self.pool_kinds(),
                live@ == self.live(),
                n <= live@.len(),
                out@.map_values(|x: EntityRecord<&T>| ref_record_view(x)) == records_of(
                    *self,
                ).subrange(0, n as int),
            decreases live@.len() - n,
        {
            let e = live[n];
            let mut comps: Vec<(u64, &T)> = Vec::new();
            let mut j: usize = 0;
            while j < kinds.len()
                invariant
                    self.wf(),
                    kinds@ == self.pool_kinds(),
                    j <= kinds@.len(),
                    comps@.map_values(|c: (u64, &T)| (c.0, *c.1)) == bag_upto(*self, e, kinds@, j as nat),
                decreases kinds@.len() - j,
            {
                let k = kinds[j];
                let all = self.get_all(e, k);
                let ghost start = comps@.map_values(|c: (u64, &T)| (c.0, *c.1));
                let mut q: usize = 0;
                while q < all.len()
                    invariant
                        q <= all@.len(),
                        comps@.map_values(|c: (u64, &T)| (c.0, *c.1)) == start + all@.subrange(
                            0,
                            q as int,
                        ).map_values(|v: T| (k, v)),
                    decreases all@.len() - q,
                {
                    let ghost before = comps@.map_values(|c: (u64, &T)| (c.0, *c.1));
                    comps.push((k, &all[q]));
                    proof {
                        assert(all@.subrange(0, q + 1).map_values(|v: T| (k, v)) == all@.subrange(
                            0,
                            q as int,
                        ).map_values(|v: T| (k, v)).push((k, all@[q as int])));
                        assert(comps@.map_values(|c: (u64, &T)| (c.0, *c.1)) == before.push(
                            (k, all@[q as int]),
                        ));
                    }
                    q = q + 1;
                }
                proof {
                    assert(all@.subrange(0, all@.len() as int) == all@);
                }
                j = j + 1;
            }
            let ghost before = out@.map_values(|x: EntityRecord<&T>| ref_record_view(x));
            out.push(EntityRecord { id: e.id, version: e.version, components: comps });
            proof {
                assert(out@.map_values(|x: EntityRecord<&T>| ref_record_view(x)) == before.push(
                    (e.id, e.version, bag(*self, e)),
                ));
                assert(records_of(*self).subrange(0, n + 1) == records_of(*self).subrange(
                    0,
                    n as int,
                ).push((e.id, e.version, bag(*self, e))));
            }
            n = n + 1;
        }
        proof {
            assert(records_of(*self).subrange(0, live@.len() as int) == records_of(*self));
        }
        out
    }

    /// Rebuilds a world from its records, which must come by strictly ascending id.
    pub fn decode(records: Vec<EntityRecord<T>>) -> (r: Result<World<T>, DecodeError>)
        ensures
            ({
                let recs = records@.map_values(|x: EntityRecord<T>| record_view(x));
                &&& r is Ok == well_ordered(recs)
                &&& r matches Ok(w) ==> w.wf() && decoded(recs, w)
                &&& r matches Err(err) ==> err.record < recs.len() && !in_order(recs, err.record as int)
                    && forall|i: int| 0 <= i < err.record ==> #[trigger] in_order(recs, i)
            }),
    {
        let ghost recs = records@.map_values(|x: EntityRecord<T>| record_view(x));
        let mut i: usize = 0;
        while i < records.len()
            invariant
                recs == records@.map_values(|x: EntityRecord<T>| record_view(x)),
                i <= records@.len(),
                forall|j: int| 0 <= j < i ==> #[trigger] in_order(recs, j),
            decreases records@.len() - i,
        {
            proof {
                assert(recs[i as int] == record_view(records@[i as int]));
                if i > 0 {
                    assert(recs[i - 1] == record_view(records@[i - 1]));
                }
            }
            if records[i].id == usize::MAX || (i > 0 && records[i - 1].id >= records[i].id) {
                proof {
                    assert(!in_order(recs, i as int));
                }
                return Err(DecodeError { record: i });
            }
            i = i + 1;
        }
        let mut w: World<T> = World::new();
        let mut n: usize = 0;
        while n < records.len()
            invariant
                recs == records@.map_values(|x: EntityRecord<T>| record_view(x)),
                well_ordered(recs),
                w.wf(),
                w.free_list().len() == 0,
                n <= records@.len(),
                w.slot_count() == if n == 0 {
                    0
                } else {
                    recs[n - 1].0 + 1
                },
                forall|j: int|
                    0 <= j < n ==> #[trigger] w.live_at(recs[j].0 as int) == Some(
                        Entity { id: recs[j].0, version: recs[j].1 },
                    ),
                forall|id: int|
                    #[trigger] w.live_at(id) is Some ==> exists|j: int| 0 <= j < n && recs[j].0 == id,
                forall|x: Entity, kind: u64| #[trigger] w.components(x, kind) == Seq::<T>::empty(),
            decreases records@.len() - n,
        {
            proof {
                assert(in_order(recs, n as int));
                assert(recs[n as int] == record_view(records@[n as int]));
            }
            let ghost before = w;
            w.open_slot(records[n].id, records[n].version);
            proof {
                assert forall|id: int| #[trigger] w.live_at(id) is Some implies exists|j: int|
                    0 <= j < n + 1 && recs[j].0 == id by {
                    if id != recs[n as int].0 {
                        assert(before.live_at(id) is Some);
                    }
                }
                assert forall|j: int|
                    0 <= j < n + 1 implies #[trigger] w.live_at(recs[j].0 as int) == Some(
                        Entity { id: recs[j].0, version: recs[j].1 },
                    ) by {
                    if j < n {
                        assert(in_order(recs, j + 1));
                        assert(recs[j].0 < recs[n as int].0) by {
                            lemma_ordered_ids(recs, j, n as int);
                        }
                    }
                }
            }
            n = n + 1;
        }
        let mut records = records;
        while records.len() > 0
            invariant
                recs.len() >= records@.len(),
                forall|j: int| 0 <= j < records@.len() ==> #[trigger] record_view(records@[j]) == recs[j],
                well_ordered(recs),
                w.wf(),
                w.free_list().len() == 0,
                w.slot_count() == if recs.len() == 0 {
                    0
                } else {
                    recs.last().0 + 1
                },
                forall|j: int|
                    0 <= j < recs.len() ==> #[trigger] w.live_at(recs[j].0 as int) == Some(
                        Entity { id: recs[j].0, version: recs[j].1 },
                    ),
                forall|id: int|
                    #[trigger] w.live_at(id) is Some ==> exists|j: int| 0 <= j < recs.len() && recs[j].0 == id,
                forall|j: int, kind: u64|
                    records@.len() <= j < recs.len() ==> #[trigger] w.components(
                        Entity { id: recs[j].0, version: recs[j].1 },
                        kind,
                    ) == of_kind(recs[j].2, kind),
                forall|j: int, kind: u64|
                    0 <= j < records@.len() ==> #[trigger] w.components(
                        Entity { id: recs[j].0, version: recs[j].1 },
                        kind,
                    ) == Seq::<T>::empty(),
            decreases records@.len(),
        {
            let ghost w1 = w;
            let ghost m = records@.len() - 1;
            proof {
                assert(record_view(records@[m]) == recs[m]);
            }
            let rec = records.pop().unwrap();
            let e = Entity { id: rec.id, version: rec.version };
            let ghost cs = rec.components@;
            proof {
                assert(cs == recs[m].2);
                assert(e == Entity { id: recs[m].0, version: recs[m].1 });
                assert(w1.live_at(recs[m].0 as int) == Some(Entity { id: recs[m].0, version: recs[m].1 }));
                assert forall|kind: u64| #[trigger] w.components(e, kind) == of_kind(cs.subrange(0, 0), kind) by {
                    assert(w.components(Entity { id: recs[m].0, version: recs[m].1 }, kind) == Seq::<T>::empty());
                    assert(cs.subrange(0, 0) == Seq::<(u64, T)>::empty());
                }
            }
            let total = rec.components.len();
            let mut comps = rec.components;
            let mut rev: Vec<(u64, T)> = Vec::new();
            while comps.len() > 0
                invariant
                    comps@.len() + rev@.len() == cs.len(),
                    forall|q: int| 0 <= q < comps@.len() ==> #[trigger] comps@[q] == cs[q],
                    forall|q: int| 0 <= q < rev@.len() ==> #[trigger] rev@[q] == cs[cs.len() - 1 - q],
                decreases comps@.len(),
            {
                let c = comps.pop().unwrap();
                rev.push(c);
            }
            let mut done: usize = 0;
            while rev.len() > 0
                invariant
                    total == cs.len(),
                    rev@.len() + done == cs.len(),
                    forall|q: int| 0 <= q < rev@.len() ==> #[trigger] rev@[q] == cs[cs.len() - 1 - q],
                    w.wf(),
                    w.same_entities(w1),
                    w1.alive(e),
                    forall|kind: u64| #[trigger] w.components(e, kind) == of_kind(cs.subrange(0, done as int), kind),
                    forall|x: Entity, kind: u64| x != e ==> #[trigger] w.components(x, kind) == w1.components(x, kind),
                decreases rev@.len(),
            {
                let (kind, value) = rev.pop().unwrap();
                let ghost before = w;
                w.attach(e, kind, value);
                proof {
                    assert(cs.subrange(0, done + 1) == cs.subrange(0, done as int).push(cs[done as int]));
                    assert forall|k: u64| #[trigger] w.components(e, k) == of_kind(cs.subrange(0, done + 1), k) by {
                        lemma_of_kind_push(cs.subrange(0, done as int), cs[done as int], k);
                    }
                }
                done = done + 1;
            }
            proof {
                assert(cs.subrange(0, cs.len() as int) == cs);
                assert forall|j: int, kind: u64|
                    m <= j < recs.len() implies #[trigger] w.components(
                        Entity { id: recs[j].0, version: recs[j].1 },
                        kind,
                    ) == of_kind(recs[j].2, kind) by {
                    if j != m {
                        lemma_ordered_ids(recs, m, j);
                        assert(w1.components(Entity { id: recs[j].0, version: recs[j].1 }, kind) == of_kind(
                            recs[j].2,
                            kind,
                        ));
                    }
                }
                assert forall|j: int, kind: u64|
                    0 <= j < m implies #[trigger] w.components(
                        Entity { id: recs[j].0, version: recs[j].1 },
                        kind,
                    ) == Seq::<T>::empty() by {
                    lemma_ordered_ids(recs, j, m);
                    assert(w1.components(Entity { id: recs[j].0, version: recs[j].1 }, kind) == Seq::<T>::empty());
                }
            }
        }
        w.link_dead_slots();
        Ok(w)
    }
}

/// In well-ordered records, ids strictly grow.
pub proof fn lemma_ordered_ids<T>(recs: Seq<RecordView<T>>, i: int, j: int)
    requires
        well_ordered(recs),
        0 <= i < j < recs.len(),
    ensures
        recs[i].0 < recs[j].0,
    decreases j - i,
{
    assert(in_order(recs, j));
    if i < j - 1 {
        lemma_ordered_ids(recs, i, j - 1);
    }
}

proof fn lemma_of_kind_concat<T>(a: Seq<(u64, T)>, b: Seq<(u64, T)>, kind: u64)
    ensures
        of_kind(a + b, kind) == of_kind(a, kind) + of_kind(b, kind),
    decreases b.len(),
{
    if b.len() == 0 {
        assert(a + b == a);
        assert(of_kind(a, kind) + of_kind(b, kind) == of_kind(a, kind));
    } else {
        lemma_of_kind_concat(a, b.drop_last(), kind);
        assert((a + b).drop_last() == a + b.drop_last());
    }
}

proof fn lemma_of_kind_tagged<T>(xs: Seq<T>, k: u64, kind: u64)
    ensures
        of_kind(xs.map_values(|v: T| (k, v)), kind) == if k == kind {
            xs
        } else {
            Seq::empty()
        },
    decreases xs.len(),
{
    if xs.len() > 0 {
        lemma_of_kind_tagged(xs.drop_last(), k, kind);
        assert(xs.map_values(|v: T| (k, v)).drop_last() == xs.drop_last().map_values(|v: T| (k, v)));
        if k == kind {
            assert(xs.drop_last().push(xs.last()) == xs);
        }
    }
}

proof fn lemma_of_kind_bag<T>(w: World<T>, e: Entity, kinds: Seq<u64>, n: nat, kind: u64)
    requires
        kinds.no_duplicates(),
        n <= kinds.len(),
    ensures
        of_kind(bag_upto(w, e, kinds, n), kind) == if kinds.subrange(0, n as int).contains(kind) {
            w.components(e, kind)
        } else {
            Seq::empty()
        },
    decreases n,
{
    if n > 0 {
        let k = kinds[n - 1];
        lemma_of_kind_bag(w, e, kinds, (n - 1) as nat, kind);
        lemma_of_kind_concat(
            bag_upto(w, e, kinds, (n - 1) as nat),
            w.components(e, k).map_values(|v: T| (k, v)),
            kind,
        );
        lemma_of_kind_tagged(w.components(e, k), k, kind);
        let before = kinds.subrange(0, n - 1);
        assert(kinds.subrange(0, n as int) == before.push(k));
        if k == kind && before.contains(kind) {
            let j = choose|j: int| 0 <= j < before.len() && before[j] == kind;
            assert(kinds[j] == kinds[n - 1]);
        }
        if before.contains(kind) {
            assert(kinds.subrange(0, n as int).contains(kind)) by {
                let j = choose|j: int| 0 <= j < before.len() && before[j] == kind;
                assert(kinds.subrange(0, n as int)[j] == kind);
            }
        }
        if k == kind {
            assert(kinds.subrange(0, n as int)[n - 1] == kind);
        }
        if kinds.subrange(0, n as int).contains(kind) && k != kind {
            let j = choose|j: int| 0 <= j < n && kinds.subrange(0, n as int)[j] == kind;
            assert(before[j] == kind);
        }
    }
}

/// Decoding the record form of a world gives back a world with the same live entities,
/// each with the same instances of every kind, in the same order.
pub proof fn lemma_round_trip<T>(w: World<T>, w2: World<T>)
    requires
        w.wf(),
        decoded(records_of(w), w2),
    ensures
        well_ordered(records_of(w)),
        w2.live() == w.live(),
        forall|e: Entity, kind: u64| #[trigger] w2.components(e, kind) == w.components(e, kind),
{
    let recs = records_of(w);
    let live = w.live();
    w.lemma_live();
    w.lemma_live_at();
    assert forall|i: int| 0 <= i < recs.len() implies #[trigger] recs[i] == (
        live[i].id,
        live[i].version,
        bag(w, live[i]),
    ) by {}
    assert forall|i: int| 0 <= i < recs.len() implies #[trigger] in_order(recs, i) by {
        if i > 0 {
            assert(live[i - 1].id < live[i].id);
        }
    }
    assert forall|id: int| #[trigger] w2.live_at(id) == w.live_at(id) by {
        if w2.live_at(id) is Some {
            let i = choose|i: int| 0 <= i < recs.len() && recs[i].0 == id;
            assert(recs[i] == (live[i].id, live[i].version, bag(w, live[i])));
            assert(w2.live_at(recs[i].0 as int) == Some(Entity { id: recs[i].0, version: recs[i].1 }));
            assert(Entity { id: recs[i].0, version: recs[i].1 } == live[i]);
            assert(w.alive(live[i]));
        }
        if w.live_at(id) is Some {
            let e = w.live_at(id)->0;
            assert(w.alive(e));
            assert(live.contains(e));
            let i = choose|i: int| 0 <= i < live.len() && live[i] == e;
            assert(recs[i] == (live[i].id, live[i].version, bag(w, live[i])));
            assert(w2.live_at(recs[i].0 as int) == Some(Entity { id: recs[i].0, version: recs[i].1 }));
            assert(Entity { id: recs[i].0, version: recs[i].1 } == e);
        }
    }
    World::lemma_live_same(w2, w);
    w.lemma_pool_kinds();
    assert forall|e: Entity, kind: u64| #[trigger] w2.components(e, kind) == w.components(e, kind) by {
        if w.alive(e) {
            assert(live.contains(e));
            let i = choose|i: int| 0 <= i < live.len() && live[i] == e;
            assert(recs[i] == (e.id, e.version, bag(w, e)));
            assert(Entity { id: recs[i].0, version: recs[i].1 } == e);
            assert(w2.components(Entity { id: recs[i].0, version: recs[i].1 }, kind) == of_kind(recs[i].2, kind));
            lemma_of_kind_bag(w, e, w.pool_kinds(), w.pool_kinds().len(), kind);
            assert(w.pool_kinds().subrange(0, w.pool_kinds().len() as int) == w.pool_kinds());
            if !w.pool_kinds().contains(kind) {
                assert(!w.has_pool(kind));
                assert(w.components(e, kind) == w.pool_items(kind, e.id));
            }
        } else {
            assert(w2.live_at(e.id as int) == w.live_at(e.id as int));
        }
    }
}

} // verus!
