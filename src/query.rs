//! Queries over several component kinds at once.
//!
//! A query walks a driving list of entity ids: the holders of the requested kind with the
//! fewest holders, the earliest such kind on a tie, and nothing at all where one of the
//! kinds has no pool. It keeps the ids whose entity holds an instance of every requested
//! kind. A shallow query yields, for each such entity, instance 0 of every kind; a deep
//! query yields every combination of instance indices, counting like an odometer: the last
//! kind's index moves fastest and the first kind's slowest. A result names the entity and
//! the index of the instance taken from each kind, in the order the kinds were asked; the
//! instances themselves are read through the world with those indices, which is also how a
//! caller changes them.
//!
//! The results are computed against the world as it is when the query is made: the world
//! is borrowed for the call, so it cannot change in between.
use vstd::prelude::*;

use crate::world::World;
use crate::Entity;

verus! {

/// One result of a query: an entity and, for each requested kind, the index of the
/// instance that this result takes.
#[derive(Clone, Debug, PartialEq, Eq)]
pub struct QueryItem {
    pub entity: Entity,
    pub indices: Vec<usize>,
}

/// The view of a list of results.
pub open spec fn items_view(items: Seq<QueryItem>) -> Seq<(Entity, Seq<usize>)> {
    items.map_values(|q: QueryItem| (q.entity, q.indices@))
}

/// Whether entity `e` holds an instance of every kind in `kinds`.
pub open spec fn holds_all<T>(w: World<T>, kinds: Seq<u64>, e: Entity) -> bool {
    forall|j: int| 0 <= j < kinds.len() ==> #[trigger] w.components(e, kinds[j]).len() > 0
}

/// The position in `kinds`, among the first `n`, of the first kind with the fewest holders.
pub open spec fn fewest_holders<T>(w: World<T>, kinds: Seq<u64>, n: nat) -> int
    decreases n,
{
    if n <= 1 {
        0
    } else {
        let best = fewest_holders(w, kinds, (n - 1) as nat);
        if w.holders(kinds[n - 1]).len() < w.holders(kinds[best]).len() {
            n - 1
        } else {
            best
        }
    }
}

/// The ids that a query over `kinds` walks.
pub open spec fn driving<T>(w: World<T>, kinds: Seq<u64>) -> Seq<usize> {
    if kinds.len() > 0 && forall|j: int| 0 <= j < kinds.len() ==> #[trigger] w.has_pool(kinds[j]) {
        w.holders(kinds[fewest_holders(w, kinds, kinds.len())])
    } else {
        Seq::empty()
    }
}

/// The shallow results for the first `n` ids of the driving list `d`.
pub open spec fn shallow_upto<T>(w: World<T>, kinds: Seq<u64>, d: Seq<usize>, n: nat) -> Seq<
    (Entity, Seq<usize>),
>
    decreases n,
{
    if n == 0 || n > d.len() {
        Seq::empty()
    } else {
        let prev = shallow_upto(w, kinds, d, (n - 1) as nat);
        match w.live_at(d[n - 1] as int) {
            Some(e) => if holds_all(w, kinds, e) {
                prev.push((e, Seq::new(kinds.len(), |j: int| 0usize)))
            } else {
                prev
            },
            None => prev,
        }
    }
}

/// What a shallow query over `kinds` yields.
pub open spec fn shallow_results<T>(w: World<T>, kinds: Seq<u64>) -> Seq<(Entity, Seq<usize>)> {
    shallow_upto(w, kinds, driving(w, kinds), driving(w, kinds).len())
}

/// `rest` with each of `0..c` put in front of each of its tuples, the first index moving
/// slowest.
pub open spec fn prefixed(rest: Seq<Seq<usize>>, c: nat) -> Seq<Seq<usize>>
    decreases c,
{
    if c == 0 {
        Seq::empty()
    } else {
        prefixed(rest, (c - 1) as nat) + rest.map_values(|t: Seq<usize>| seq![(c - 1) as usize] + t)
    }
}

/// Every tuple of indices below `counts`, in odometer order.
pub open spec fn product(counts: Seq<usize>) -> Seq<Seq<usize>>
    decreases counts.len(),
{
    if counts.len() == 0 {
        seq![Seq::empty()]
    } else {
        prefixed(product(counts.drop_first()), counts[0] as nat)
    }
}

/// How many instances of each of `kinds` entity `e` holds.
pub open spec fn counts_of<T>(w: World<T>, kinds: Seq<u64>, e: Entity) -> Seq<usize> {
    kinds.map_values(|k: u64| w.components(e, k).len() as usize)
}

/// The deep results for the first `n` ids of the driving list `d`.
pub open spec fn deep_upto<T>(w: World<T>, kinds: Seq<u64>, d: Seq<usize>, n: nat) -> Seq<
    (Entity, Seq<usize>),
>
    decreases n,
{
    if n == 0 || n > d.len() {
        Seq::empty()
    } else {
        let prev = deep_upto(w, kinds, d, (n - 1) as nat);
        match w.live_at(d[n - 1] as int) {
            Some(e) => if holds_all(w, kinds, e) {
                prev + product(counts_of(w, kinds, e)).map_values(|t: Seq<usize>| (e, t))
            } else {
                prev
            },
            None => prev,
        }
    }
}

/// What a deep query over `kinds` yields.
pub open spec fn deep_results<T>(w: World<T>, kinds: Seq<u64>) -> Seq<(Entity, Seq<usize>)> {
    deep_upto(w, kinds, driving(w, kinds), driving(w, kinds).len())
}

/// The driving list of a query over `kinds`.
fn driving_ids<T>(w: &World<T>, kinds: &[u64]) -> (r: Vec<usize>)
    requires
        w.wf(),
    ensures
        r@ == driving(*w, kinds@),
{
    if kinds.len() == 0 {
        return Vec::new();
    }
    let mut best = match w.holder_ids(kinds[0]) {
        Some(ids) => ids,
        None => return Vec::new(),
    };
    let mut i: usize = 1;
    while i < kinds.len()
        invariant
            w.wf(),
            1 <= i <= kinds@.len(),
            forall|j: int| 0 <= j < i ==> #[trigger] w.has_pool(kinds@[j]),
            best@ == w.holders(kinds@[fewest_holders(*w, kinds@, i as nat)]),
            0 <= fewest_holders(*w, kinds@, i as nat) < i,
        decreases kinds@.len() - i,
    {
        match w.holder_ids(kinds[i]) {
            Some(ids) => {
                if ids.len() < best.len() {
                    best = ids;
                }
            },
            None => {
                return Vec::new();
            },
        }
        i = i + 1;
    }
    best
}

/// Whether entity `e` holds an instance of every kind in `kinds`.
fn holds_every<T>(w: &World<T>, kinds: &[u64], e: Entity) -> (r: bool)
    requires
        w.wf(),
    ensures
        r == holds_all(*w, kinds@, e),
{
    let mut j: usize = 0;
    while j < kinds.len()
        invariant
            w.wf(),
            j <= kinds@.len(),
            forall|q: int| 0 <= q < j ==> #[trigger] w.components(e, kinds@[q]).len() > 0,
        decreases kinds@.len() - j,
    {
        if w.count(e, kinds[j]) == 0 {
            return false;
        }
        j = j + 1;
    }
    true
}

/// The view of a list of index tuples.
pub open spec fn tuples_view(v: Seq<Vec<usize>>) -> Seq<Seq<usize>> {
    v.map_values(|t: Vec<usize>| t@)
}

/// Every tuple of indices below `counts`, in odometer order.
fn odometer(counts: &Vec<usize>) -> (r: Vec<Vec<usize>>)
    ensures
        tuples_view(r@) == product(counts@),
{
    let mut acc: Vec<Vec<usize>> = Vec::new();
    acc.push(Vec::new());
    let mut k: usize = counts.len();
    proof {
        assert(tuples_view(acc@) == product(counts@.subrange(k as int, counts@.len() as int)));
    }
    while k > 0
        invariant
            k <= counts@.len(),
            tuples_view(acc@) == product(counts@.subrange(k as int, counts@.len() as int)),
        decreases k,
    {
        k = k - 1;
        let c = counts[k];
        let mut next: Vec<Vec<usize>> = Vec::new();
        let mut i: usize = 0;
        while i < c
            invariant
                i <= c,
                tuples_view(next@) == prefixed(tuples_view(acc@), i as nat),
            decreases c - i,
        {
            let mut j: usize = 0;
            while j < acc.len()
                invariant
                    i < c,
                    j <= acc@.len(),
                    tuples_view(next@) == prefixed(tuples_view(acc@), i as nat) + tuples_view(
                        acc@,
                    ).subrange(0, j as int).map_values(|t: Seq<usize>| seq![i] + t),
                decreases acc@.len() - j,
            {
                let mut t = acc[j].clone();
                proof {
                    assert(t@ =~= acc@[j as int]@);
                }
                t.insert(0, i);
                proof {
                    assert(t@ =~= seq![i] + acc@[j as int]@);
                }
                let ghost before = next@;
                next.push(t);
                proof {
                    assert(tuples_view(acc@).subrange(0, j + 1).map_values(|t: Seq<usize>| seq![i] + t)
                        == tuples_view(acc@).subrange(0, j as int).map_values(
                        |t: Seq<usize>| seq![i] + t,
                    ).push(seq![i] + acc@[j as int]@));
                    assert(tuples_view(next@) == tuples_view(before).push(seq![i] + acc@[j as int]@));
                }
                j = j + 1;
            }
            proof {
                assert(tuples_view(acc@).subrange(0, acc@.len() as int) == tuples_view(acc@));
                assert(((i + 1) as nat - 1) as usize == i);
            }
            i = i + 1;
        }
        proof {
            let tail = counts@.subrange(k as int, counts@.len() as int);
            assert(tail.drop_first() == counts@.subrange(k + 1, counts@.len() as int));
        }
        acc = next;
    }
    proof {
        assert(counts@.subrange(0, counts@.len() as int) == counts@);
    }
    acc
}

impl<T> World<T> {
    /// For each entity that holds an instance of every kind in `kinds`, in driving-list
    /// order: the entity with index 0 for every kind.
    pub fn query_shallow(&self, kinds: &[u64]) -> (r: Vec<QueryItem>)
        requires
            self.wf(),
        ensures
            items_view(r@) == shallow_results(*self, kinds@),
    {
        let d = driving_ids(self, kinds);
        let mut out: Vec<QueryItem> = Vec::new();
        let mut n: usize = 0;
        while n < d.len()
            invariant
                self.wf(),
                d@ == driving(*self, kinds@),
                n <= d@.len(),
                items_view(out@) == shallow_upto(*self, kinds@, d@, n as nat),
            decreases d@.len() - n,
        {
            let ghost before = out@;
            match self.entity_at(d[n]) {
                Some(e) => {
                    if holds_every(self, kinds, e) {
                        let mut zeros: Vec<usize> = Vec::new();
                        let mut j: usize = 0;
                        while j < kinds.len()
                            invariant
                                j <= kinds@.len(),
                                zeros@ == Seq::new(j as nat, |q: int| 0usize),
                            decreases kinds@.len() - j,
                        {
                            zeros.push(0);
                            j = j + 1;
                        }
                        out.push(QueryItem { entity: e, indices: zeros });
                        proof {
                            assert(items_view(out@) == items_view(before).push(
                                (e, Seq::new(kinds@.len(), |q: int| 0usize)),
                            ));
                        }
                    }
                },
                None => {},
            }
            n = n + 1;
        }
        out
    }

    /// For each entity that holds an instance of every kind in `kinds`, in driving-list
    /// order: the entity with every combination of instance indices, in odometer order.
    pub fn query_deep(&self, kinds: &[u64]) -> (r: Vec<QueryItem>)
        requires
            self.wf(),
        ensures
            items_view(r@) == deep_results(*self, kinds@),
    {
        let d = driving_ids(self, kinds);
        let mut out: Vec<QueryItem> = Vec::new();
        let mut n: usize = 0;
        while n < d.len()
            invariant
                self.wf(),
                d@ == driving(*self, kinds@),
                n <= d@.len(),
                items_view(out@) == deep_upto(*self, kinds@, d@, n as nat),
            decreases d@.len() - n,
        {
            match self.entity_at(d[n]) {
                Some(e) => {
                    if holds_every(self, kinds, e) {
                        let mut counts: Vec<usize> = Vec::new();
                        let mut j: usize = 0;
                        while j < kinds.len()
                            invariant
                                self.wf(),
                                j <= kinds@.len(),
                                counts@ == counts_of(*self, kinds@, e).subrange(0, j as int),
                            decreases kinds@.len() - j,
                        {
                            counts.push(self.count(e, kinds[j]));
                            j = j + 1;
                        }
                        proof {
                            assert(counts@ == counts_of(*self, kinds@, e));
                        }
                        let tuples = odometer(&counts);
                        let ghost start = out@;
                        let mut q: usize = 0;
                        while q < tuples.len()
                            invariant
                                q <= tuples@.len(),
                                tuples_view(tuples@) == product(counts@),
                                items_view(out@) == items_view(start) + tuples_view(tuples@).subrange(
                                    0,
                                    q as int,
                                ).map_values(|t: Seq<usize>| (e, t)),
                            decreases tuples@.len() - q,
                        {
                            let ghost before = out@;
                            out.push(QueryItem { entity: e, indices: tuples[q].clone() });
                            proof {
                                assert(tuples_view(tuples@).subrange(0, q + 1).map_values(
                                    |t: Seq<usize>| (e, t),
                                ) == tuples_view(tuples@).subrange(0, q as int).map_values(
                                    |t: Seq<usize>| (e, t),
                                ).push((e, tuples@[q as int]@)));
                                assert(items_view(out@) == items_view(before).push(
                                    (e, tuples@[q as int]@),
                                ));
                            }
                            q = q + 1;
                        }
                        proof {
                            assert(tuples_view(tuples@).subrange(0, tuples@.len() as int) == tuples_view(
                                tuples@,
                            ));
                        }
                    }
                },
                None => {},
            }
            n = n + 1;
        }
        out
    }
}

} // verus!
