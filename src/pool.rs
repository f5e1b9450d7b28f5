//! A paged sparse set that stores, for one component kind, any number of instances per
//! entity id, with constant-time attach, detach and lookup.
use vstd::prelude::*;

verus! {

/// Number of entity ids that one page of the sparse index covers.
pub const PAGE_SIZE: usize = 100;

/// The page of the sparse index on which entity `id` is recorded.
pub open spec fn page_of(id: usize) -> int {
    id as int / PAGE_SIZE as int
}

/// The place of entity `id` inside its page.
pub open spec fn offset_of(id: usize) -> int {
    id as int % PAGE_SIZE as int
}

/// Whether `n` pages are exactly what the ids in `ids` need: each id falls on one of the
/// first `n` pages, and the last of them holds one.
pub open spec fn pages_fit(ids: Seq<usize>, n: nat) -> bool {
    &&& forall|k: int| 0 <= k < ids.len() ==> page_of(#[trigger] ids[k]) < n
    &&& n > 0 ==> exists|k: int| 0 <= k < ids.len() && page_of(#[trigger] ids[k]) == n - 1
}

proof fn lemma_page_offset(id: usize)
    ensures
        0 <= page_of(id),
        0 <= offset_of(id) < PAGE_SIZE,
        page_of(id) * PAGE_SIZE + offset_of(id) == id,
{
    assert(0 <= id as int / 100 && 0 <= id as int % 100 < 100 && (id as int / 100) * 100 + id as int
        % 100 == id) by (nonlinear_arith);
}

proof fn lemma_page_of_entry(p: int, o: int, id: usize)
    requires
        0 <= o < PAGE_SIZE,
        id == p * PAGE_SIZE + o,
    ensures
        page_of(id) == p,
        offset_of(id) == o,
{
    lemma_page_offset(id);
    assert(page_of(id) == p && offset_of(id) == o) by (nonlinear_arith)
        requires
            0 <= o < 100,
            0 <= offset_of(id) < 100,
            p * 100 + o == page_of(id) * 100 + offset_of(id),
    ;
}

/// A page that records no entity.
fn empty_page() -> (page: Vec<Option<usize>>)
    ensures
        page@.len() == PAGE_SIZE,
        forall|o: int| 0 <= o < PAGE_SIZE ==> #[trigger] page@[o] is None,
{
    let mut page: Vec<Option<usize>> = Vec::new();
    for o in 0..PAGE_SIZE
        invariant
            page@.len() == o,
            forall|q: int| 0 <= q < o ==> #[trigger] page@[q] is None,
    {
        page.push(None);
    }
    page
}

/// `s` after the element at `k` is replaced by the last one and the last is dropped.
pub open spec fn swap_removed<A>(s: Seq<A>, k: int) -> Seq<A> {
    s.update(k, s.last()).drop_last()
}

/// Storage for every instance of one component kind.
///
/// `sparse` maps an entity id, through its page, to the entity's position in the packed
/// arrays; `packed` lists the ids of the holders and `components` their instances, in
/// attach order, at the same positions. A page that records no entity is dropped, and so
/// are trailing dropped pages.
pub struct Pool<T> {
    sparse: Vec<Option<Vec<Option<usize>>>>,
    packed: Vec<usize>,
    components: Vec<Vec<T>>,
}

impl<T> Pool<T> {
    /// The entry at place `o` of page `p`, or `None` where that page is absent.
    closed spec fn entry(self, p: int, o: int) -> Option<usize> {
        if 0 <= p < self.sparse@.len() {
            match self.sparse@[p] {
                Some(page) => page@[o],
                None => None,
            }
        } else {
            None
        }
    }

    /// The position of entity `id` in the packed arrays, as the sparse index records it.
    closed spec fn slot(self, id: usize) -> Option<usize> {
        self.entry(page_of(id), offset_of(id))
    }

    /// The ids of the entities that hold at least one instance, in packed order.
    pub closed spec fn ids(self) -> Seq<usize> {
        self.packed@
    }

    /// The instances that entity `id` holds, in attach order; empty where it holds none.
    pub closed spec fn items(self, id: usize) -> Seq<T> {
        match self.slot(id) {
            Some(k) => self.components@[k as int]@,
            None => Seq::empty(),
        }
    }

    /// Where entity `id` stands in `ids()`.
    pub closed spec fn position(self, id: usize) -> int {
        match self.slot(id) {
            Some(k) => k as int,
            None => -1,
        }
    }

    /// The length of the sparse index, in pages.
    pub closed spec fn page_count(self) -> nat {
        self.sparse@.len()
    }

    /// Pages are full length; a present page records some entity and so does the last one;
    /// the sparse index and the packed ids point at each other; no instance list is empty.
    pub closed spec fn wf(self) -> bool {
        &&& self.packed@.len() == self.components@.len()
        &&& forall|p: int|
            0 <= p < self.sparse@.len() && #[trigger] self.sparse@[p] is Some
                ==> self.sparse@[p]->0@.len() == PAGE_SIZE
        &&& forall|p: int|
            0 <= p < self.sparse@.len() && #[trigger] self.sparse@[p] is Some
                ==> exists|o: int| 0 <= o < PAGE_SIZE && (#[trigger] self.entry(p, o)) is Some
        &&& self.sparse@.len() > 0 ==> self.sparse@.last() is Some
        &&& forall|p: int, o: int|
            0 <= o < PAGE_SIZE && #[trigger] self.entry(p, o) is Some ==> {
                let k = self.entry(p, o)->0;
                &&& k < self.packed@.len()
                &&& self.packed@[k as int] as int == p * PAGE_SIZE + o
            }
        &&& forall|k: int|
            0 <= k < self.packed@.len() ==> #[trigger] self.position(self.packed@[k]) == k
        &&& forall|k: int| 0 <= k < self.components@.len() ==> #[trigger] self.components@[k]@.len() > 0
    }

    /// What the invariant gives the users of a pool.
    pub proof fn lemma_wf(self)
        requires
            self.wf(),
        ensures
            self.ids().no_duplicates(),
            forall|id: usize| #[trigger] self.items(id).len() > 0 <==> self.ids().contains(id),
            forall|id: usize|
                #[trigger] self.items(id).len() > 0 ==> 0 <= self.position(id) < self.ids().len()
                    && self.ids()[self.position(id)] == id,
            pages_fit(self.ids(), self.page_count()),
    {
        self.lemma_no_duplicates();
        self.lemma_items_position();
        self.lemma_pages_fit();
    }

    proof fn lemma_no_duplicates(self)
        requires
            self.wf(),
        ensures
            self.ids().no_duplicates(),
    {
        assert forall|i: int, j: int|
            0 <= i < self.packed@.len() && 0 <= j < self.packed@.len() && i != j implies
            self.packed@[i] != self.packed@[j] by {
            assert(self.position(self.packed@[i]) == i);
            assert(self.position(self.packed@[j]) == j);
        }
    }

    proof fn lemma_items_position(self)
        requires
            self.wf(),
        ensures
            forall|id: usize| #[trigger] self.items(id).len() > 0 <==> self.ids().contains(id),
            forall|id: usize|
                #[trigger] self.items(id).len() > 0 ==> 0 <= self.position(id) < self.ids().len()
                    && self.ids()[self.position(id)] == id,
    {
        assert forall|id: usize| #[trigger] self.items(id).len() > 0 implies 0 <= self.position(id)
            < self.ids().len() && self.ids()[self.position(id)] == id && self.ids().contains(id) by {
            lemma_page_offset(id);
            let k = self.slot(id)->0;
            assert(self.entry(page_of(id), offset_of(id)) is Some);
            assert(self.packed@[k as int] == id);
        }
        assert forall|id: usize| self.ids().contains(id) implies #[trigger] self.items(id).len() > 0 by {
            let k = choose|k: int| 0 <= k < self.packed@.len() && self.packed@[k] == id;
            assert(self.position(self.packed@[k]) == k);
            assert(self.components@[k]@.len() > 0);
        }
    }

    proof fn lemma_pages_fit(self)
        requires
            self.wf(),
        ensures
            pages_fit(self.ids(), self.page_count()),
    {
        assert forall|k: int| 0 <= k < self.packed@.len() implies page_of(#[trigger] self.packed@[k])
            < self.page_count() by {
            assert(self.position(self.packed@[k]) == k);
        }
        if self.sparse@.len() > 0 {
            let p = self.sparse@.len() - 1;
            assert(self.sparse@[p] is Some);
            let o = choose|o: int| 0 <= o < PAGE_SIZE && (#[trigger] self.entry(p, o)) is Some;
            let k = self.entry(p, o)->0 as int;
            lemma_page_of_entry(p, o, self.packed@[k]);
        }
    }

    /// An empty pool.
    pub fn new() -> (pool: Self)
        ensures
            pool.wf(),
            pool.ids() == Seq::<usize>::empty(),
            forall|id: usize| #[trigger] pool.items(id) == Seq::<T>::empty(),
            pool.page_count() == 0,
    {
        Pool { sparse: Vec::new(), packed: Vec::new(), components: Vec::new() }
    }

    /// Reads the sparse index for entity `id`.
    fn lookup(&self, id: usize) -> (r: Option<usize>)
        requires
            self.wf(),
        ensures
            r == self.slot(id),
            r matches Some(k) ==> k < self.packed@.len() && self.packed@[k as int] == id,
    {
        let p = id / PAGE_SIZE;
        let o = id % PAGE_SIZE;
        if p < self.sparse.len() {
            match &self.sparse[p] {
                Some(page) => {
                    let r = page[o];
                    proof {
                        assert(self.entry(p as int, o as int) == r);
                        if r is Some {
                            assert(p as int * PAGE_SIZE + o == id) by (nonlinear_arith)
                                requires p == id / 100, o == id % 100;
                        }
                    }
                    r
                },
                None => None,
            }
        } else {
            None
        }
    }

    /// The number of instances that entity `id` holds.
    pub fn count(&self, id: usize) -> (n: usize)
        requires
            self.wf(),
        ensures
            n == self.items(id).len(),
    {
        match self.lookup(id) {
            Some(k) => self.components[k].len(),
            None => 0,
        }
    }

    /// The `n`-th instance that entity `id` holds, counted in attach order.
    pub fn get_nth(&self, id: usize, n: usize) -> (r: Option<&T>)
        requires
            self.wf(),
        ensures
            n < self.items(id).len() ==> r == Some(&self.items(id)[n as int]),
            n >= self.items(id).len() ==> r is None,
    {
        match self.lookup(id) {
            Some(k) => {
                let list = &self.components[k];
                if n < list.len() {
                    Some(&list[n])
                } else {
                    None
                }
            },
            None => None,
        }
    }

    /// The first instance that entity `id` holds.
    pub fn get_one(&self, id: usize) -> (r: Option<&T>)
        requires
            self.wf(),
        ensures
            self.items(id).len() > 0 ==> r == Some(&self.items(id)[0]),
            self.items(id).len() == 0 ==> r is None,
    {
        self.get_nth(id, 0)
    }

    /// Every instance that entity `id` holds, in attach order.
    pub fn get_all(&self, id: usize) -> (r: &[T])
        requires
            self.wf(),
        ensures
            r@ == self.items(id),
    {
        match self.lookup(id) {
            Some(k) => self.components[k].as_slice(),
            None => &[],
        }
    }

    /// The ids of the entities that hold at least one instance, in packed order.
    pub fn entities_ids(&self) -> (r: Vec<usize>)
        ensures
            r@ == self.ids(),
    {
        self.packed.clone()
    }

    /// The length of the sparse index, in pages.
    pub fn pages(&self) -> (n: usize)
        ensures
            n == self.page_count(),
    {
        self.sparse.len()
    }

    /// Sets the entry at place `o` of page `p`, which must be present.
    fn set_entry(&mut self, p: usize, o: usize, v: Option<usize>)
        requires
            p < old(self).sparse@.len(),
            old(self).sparse@[p as int] is Some,
            o < PAGE_SIZE,
            old(self).sparse@[p as int]->0@.len() == PAGE_SIZE,
        ensures
            final(self).packed == old(self).packed,
            final(self).components == old(self).components,
            final(self).sparse@.len() == old(self).sparse@.len(),
            forall|q: int|
                0 <= q < old(self).sparse@.len() && q != p ==> #[trigger] final(self).sparse@[q]
                    == old(self).sparse@[q],
            final(self).sparse@[p as int] is Some,
            final(self).sparse@[p as int]->0@ == old(self).sparse@[p as int]->0@.update(o as int, v),
    {
        match &mut self.sparse[p] {
            Some(page) => {
                page.set(o, v);
            },
            None => {},
        }
    }

    /// What a recorded position says of the packed ids.
    proof fn lemma_slot(self, id: usize)
        requires
            self.wf(),
        ensures
            self.slot(id) matches Some(k) ==> k < self.packed@.len() && self.packed@[k as int] == id,
    {
        lemma_page_offset(id);
        if self.slot(id) is Some {
            assert(self.entry(page_of(id), offset_of(id)) is Some);
        }
    }

    /// Adds `component` after the instances that entity `id` already holds.
    pub fn attach(&mut self, id: usize, component: T)
        requires
            old(self).wf(),
        ensures
            final(self).wf(),
            final(self).items(id) == old(self).items(id).push(component),
            forall|j: usize| j != id ==> #[trigger] final(self).items(j) == old(self).items(j),
            final(self).ids() == if old(self).items(id).len() == 0 {
                old(self).ids().push(id)
            } else {
                old(self).ids()
            },
    {
        match self.lookup(id) {
            Some(k) => {
                let ghost s0 = *self;
                self.components[k].push(component);
                proof {
                    assert(self.sparse == s0.sparse && self.packed == s0.packed);
                    assert forall|q: int, r: int| #[trigger] self.entry(q, r) == s0.entry(q, r) by {}
                    assert forall|j: usize| #[trigger] self.position(j) == s0.position(j) by {
                        assert(self.slot(j) == s0.slot(j));
                    }
                    assert forall|q: int|
                        0 <= q < self.packed@.len() implies #[trigger] self.position(self.packed@[q]) == q by {
                        assert(s0.position(s0.packed@[q]) == q);
                    }
                    assert forall|q: int, r: int|
                        0 <= r < PAGE_SIZE && #[trigger] self.entry(q, r) is Some implies ({
                            let m = self.entry(q, r)->0;
                            &&& m < self.packed@.len()
                            &&& self.packed@[m as int] as int == q * PAGE_SIZE + r
                        }) by {
                        assert(s0.entry(q, r) is Some);
                    }
                    assert forall|q: int|
                        0 <= q < self.sparse@.len() && #[trigger] self.sparse@[q] is Some implies exists|r: int|
                        0 <= r < PAGE_SIZE && (#[trigger] self.entry(q, r)) is Some by {
                        let r = choose|r: int| 0 <= r < PAGE_SIZE && (#[trigger] s0.entry(q, r)) is Some;
                        assert(self.entry(q, r) is Some);
                    }
                    assert forall|j: usize| j != id implies #[trigger] self.items(j) == s0.items(j) by {
                        s0.lemma_slot(j);
                    }
                    assert forall|q: int| 0 <= q < self.components@.len() implies #[trigger] self.components@[q]@.len() > 0 by {
                        if q != k {
                            assert(self.components@[q] == s0.components@[q]);
                        }
                    }
                }
            },
            None => {
                self.attach_first(id, component);
            },
        }
    }

    /// Records entity `id`, which holds no instance yet, with `component` as its only one.
    fn attach_first(&mut self, id: usize, component: T)
        requires
            old(self).wf(),
            old(self).slot(id) is None,
        ensures
            final(self).wf(),
            final(self).items(id) == seq![component],
            forall|j: usize| j != id ==> #[trigger] final(self).items(j) == old(self).items(j),
            final(self).ids() == old(self).ids().push(id),
    {
        let ghost s0 = *self;
        let p = id / PAGE_SIZE;
        let o = id % PAGE_SIZE;
        proof {
            lemma_page_offset(id);
        }
        while self.sparse.len() <= p
            invariant
                p == id / PAGE_SIZE,
                self.packed == s0.packed,
                self.components == s0.components,
                self.sparse@.len() >= s0.sparse@.len(),
                self.sparse@.len() <= s0.sparse@.len() || self.sparse@.len() <= p + 1,
                forall|q: int| 0 <= q < s0.sparse@.len() ==> #[trigger] self.sparse@[q] == s0.sparse@[q],
                forall|q: int| s0.sparse@.len() <= q < self.sparse@.len() ==> #[trigger] self.sparse@[q] is None,
            decreases p + 1 - self.sparse.len(),
        {
            self.sparse.push(None);
        }
        let ghost s1 = *self;
        if self.sparse[p].is_none() {
            self.sparse.set(p, Some(empty_page()));
        } else {
            assert(s0.sparse@[p as int] is Some);
        }
        let k = self.packed.len();
        self.set_entry(p, o, Some(k));
        self.packed.push(id);
        let mut list = Vec::new();
        list.push(component);
        self.components.push(list);
        proof {
            assert(self.entry(p as int, o as int) == Some(k));
            assert forall|q: int, r: int|
                0 <= r < PAGE_SIZE && !(q == p && r == o) implies #[trigger] self.entry(q, r) == s0.entry(q, r) by {
                if q == p && (p >= s0.sparse@.len() || s0.sparse@[q] is None) {
                    assert(self.sparse@[q]->0@[r] is None);
                }
            }
            assert forall|j: usize| j != id implies #[trigger] self.slot(j) == s0.slot(j) by {
                lemma_page_offset(j);
                if page_of(j) == p && offset_of(j) == o {
                    assert(j == id);
                }
            }
            assert forall|j: usize| j != id implies #[trigger] self.items(j) == s0.items(j) by {
                s0.lemma_slot(j);
                assert(self.slot(j) == s0.slot(j));
            }
            s0.lemma_wf();
            assert(s0.items(id).len() == 0);
            assert(!s0.ids().contains(id));
            assert forall|q: int| 0 <= q < self.packed@.len() implies #[trigger] self.position(self.packed@[q]) == q by {
                if q < k {
                    assert(s0.position(s0.packed@[q]) == q);
                    assert(self.packed@[q] != id);
                    assert(self.slot(self.packed@[q]) == s0.slot(self.packed@[q]));
                }
            }
            assert forall|q: int, r: int|
                0 <= r < PAGE_SIZE && #[trigger] self.entry(q, r) is Some implies ({
                    let m = self.entry(q, r)->0;
                    &&& m < self.packed@.len()
                    &&& self.packed@[m as int] as int == q * PAGE_SIZE + r
                }) by {
                if !(q == p && r == o) {
                    assert(s0.entry(q, r) is Some);
                }
            }
            assert forall|q: int|
                0 <= q < self.sparse@.len() && #[trigger] self.sparse@[q] is Some implies exists|r: int|
                0 <= r < PAGE_SIZE && (#[trigger] self.entry(q, r)) is Some by {
                if q == p {
                    assert(self.entry(q, o as int) is Some);
                } else {
                    let r = choose|r: int| 0 <= r < PAGE_SIZE && (#[trigger] s0.entry(q, r)) is Some;
                    assert(self.entry(q, r) is Some);
                }
            }
            assert forall|q: int| 0 <= q < self.components@.len() implies #[trigger] self.components@[q]@.len() > 0 by {
                if q < k {
                    assert(self.components@[q] == s0.components@[q]);
                }
            }
            assert(self.items(id) =~= seq![component]);
        }
    }

    /// Whether page `p`, which must be present, records no entity.
    fn page_is_empty(&self, p: usize) -> (r: bool)
        requires
            p < self.sparse@.len(),
            self.sparse@[p as int] is Some,
            self.sparse@[p as int]->0@.len() == PAGE_SIZE,
        ensures
            r == forall|o: int| 0 <= o < PAGE_SIZE ==> #[trigger] self.entry(p as int, o) is None,
    {
        match &self.sparse[p] {
            Some(page) => {
                for o in 0..PAGE_SIZE
                    invariant
                        page@.len() == PAGE_SIZE,
                        self.sparse@[p as int] == Some(*page),
                        p < self.sparse@.len(),
                        forall|q: int| 0 <= q < o ==> #[trigger] self.entry(p as int, q) is None,
                {
                    if page[o].is_some() {
                        assert(self.entry(p as int, o as int) is Some);
                        return false;
                    }
                }
                true
            },
            None => true,
        }
    }

    /// Drops the absent pages at the end of the sparse index.
    fn trim_pages(&mut self)
        ensures
            final(self).packed == old(self).packed,
            final(self).components == old(self).components,
            final(self).sparse@.len() <= old(self).sparse@.len(),
            final(self).sparse@ == old(self).sparse@.subrange(0, final(self).sparse@.len() as int),
            forall|q: int|
                final(self).sparse@.len() <= q < old(self).sparse@.len() ==> #[trigger] old(
                    self,
                ).sparse@[q] is None,
            final(self).sparse@.len() > 0 ==> final(self).sparse@.last() is Some,
    {
        let ghost s0 = *self;
        while self.sparse.len() > 0 && self.sparse[self.sparse.len() - 1].is_none()
            invariant
                self.packed == s0.packed,
                self.components == s0.components,
                self.sparse@.len() <= s0.sparse@.len(),
                self.sparse@ == s0.sparse@.subrange(0, self.sparse@.len() as int),
                forall|q: int|
                    self.sparse@.len() <= q < s0.sparse@.len() ==> #[trigger] s0.sparse@[q] is None,
            decreases self.sparse.len(),
        {
            self.sparse.pop();
        }
    }

    /// Removes every instance of entity `id`, returned in attach order. The last holder in
    /// the packed arrays takes the freed position.
    pub fn detach_all(&mut self, id: usize) -> (r: Vec<T>)
        requires
            old(self).wf(),
        ensures
            final(self).wf(),
            r@ == old(self).items(id),
            final(self).items(id) == Seq::<T>::empty(),
            forall|j: usize| j != id ==> #[trigger] final(self).items(j) == old(self).items(j),
            final(self).ids() == if old(self).items(id).len() == 0 {
                old(self).ids()
            } else {
                swap_removed(old(self).ids(), old(self).position(id))
            },
    {
        match self.lookup(id) {
            Some(k) => self.detach_at(id, k),
            None => Vec::new(),
        }
    }

    fn detach_at(&mut self, id: usize, k: usize) -> (r: Vec<T>)
        requires
            old(self).wf(),
            old(self).slot(id) == Some(k),
        ensures
            final(self).wf(),
            r@ == old(self).items(id),
            final(self).items(id) == Seq::<T>::empty(),
            forall|j: usize| j != id ==> #[trigger] final(self).items(j) == old(self).items(j),
            final(self).ids() == swap_removed(old(self).ids(), k as int),
    {
        let ghost s0 = *self;
        proof {
            s0.lemma_slot(id);
            lemma_page_offset(id);
        }
        let last = self.packed.len() - 1;
        let last_id = self.packed[last];
        proof {
            assert(s0.position(s0.packed@[last as int]) == last);
            lemma_page_offset(last_id);
        }
        if last_id != id {
            self.set_entry(last_id / PAGE_SIZE, last_id % PAGE_SIZE, Some(k));
        }
        let p = id / PAGE_SIZE;
        let o = id % PAGE_SIZE;
        self.set_entry(p, o, None);
        let ghost s1 = *self;
        if self.page_is_empty(p) {
            self.sparse.set(p, None);
            let ghost s15 = *self;
            self.trim_pages();
            proof {
                assert forall|q: int, t: int| 0 <= t < PAGE_SIZE implies #[trigger] self.entry(q, t)
                    == s1.entry(q, t) by {
                    if 0 <= q < self.sparse@.len() {
                        assert(self.sparse@[q] == s15.sparse@[q]);
                    } else if 0 <= q < s15.sparse@.len() {
                        assert(s15.sparse@[q] is None);
                    }
                    if q == p {
                        assert(s1.entry(p as int, t) is None);
                    }
                }
            }
        }
        let ghost s2 = *self;
        self.packed.swap_remove(k);
        let r = self.components.swap_remove(k);
        proof {
            let lp = page_of(last_id);
            let lo = offset_of(last_id);
            // What the two entry updates did.
            assert forall|q: int, t: int| 0 <= t < PAGE_SIZE implies #[trigger] s1.entry(q, t) == if q
                == p && t == o {
                None
            } else if last_id != id && q == lp && t == lo {
                Some(k)
            } else {
                s0.entry(q, t)
            } by {}
            // Dropping an empty page and trimming absent ones leaves every entry as it was.
            assert forall|q: int, t: int| 0 <= t < PAGE_SIZE implies #[trigger] s2.entry(q, t) == s1.entry(
                q,
                t,
            ) by {}
            assert forall|q: int, t: int| #[trigger] self.entry(q, t) == s2.entry(q, t) by {}
            assert forall|a: usize, b: usize|
                a != b implies page_of(a) != page_of(b) || offset_of(a) != offset_of(b) by {
                lemma_page_offset(a);
                lemma_page_offset(b);
            }
            s0.lemma_no_duplicates();
            // Slots after the removal.
            assert forall|j: usize| #[trigger] self.slot(j) == if j == id {
                None
            } else if j == last_id {
                Some(k)
            } else {
                s0.slot(j)
            } by {
                lemma_page_offset(j);
            }
            assert(self.packed@ == swap_removed(s0.packed@, k as int));
            assert(self.components@ == swap_removed(s0.components@, k as int));
            assert forall|j: usize| j != id implies #[trigger] self.items(j) == s0.items(j) by {
                s0.lemma_slot(j);
                if j != last_id && s0.slot(j) is Some {
                    let m = s0.slot(j)->0;
                    assert(m != k && m != last);
                }
            }
            assert forall|q: int|
                0 <= q < self.packed@.len() implies #[trigger] self.position(self.packed@[q]) == q by {
                let j = self.packed@[q];
                if q != k {
                    assert(j == s0.packed@[q]);
                    assert(s0.position(s0.packed@[q]) == q);
                    assert(s0.packed@[q] != id);
                    assert(s0.packed@[q] != last_id);
                }
            }
            assert forall|q: int, t: int|
                0 <= t < PAGE_SIZE && #[trigger] self.entry(q, t) is Some implies ({
                    let m = self.entry(q, t)->0;
                    &&& m < self.packed@.len()
                    &&& self.packed@[m as int] as int == q * PAGE_SIZE + t
                }) by {
                if !(last_id != id && q == lp && t == lo) {
                    assert(s0.entry(q, t) is Some);
                    let m = s0.entry(q, t)->0;
                    assert(s0.packed@[m as int] as int == q * PAGE_SIZE + t);
                    if m == k || m == last {
                        lemma_page_of_entry(q, t, s0.packed@[m as int]);
                    }
                }
            }
            assert forall|q: int|
                0 <= q < self.sparse@.len() && #[trigger] self.sparse@[q] is Some implies exists|t: int|
                0 <= t < PAGE_SIZE && (#[trigger] self.entry(q, t)) is Some by {
                if q == p {
                    let t = choose|t: int| 0 <= t < PAGE_SIZE && (#[trigger] s1.entry(p as int, t)) is Some;
                    assert(self.entry(q, t) is Some);
                } else if last_id != id && q == lp {
                    assert(self.entry(q, lo) is Some);
                } else {
                    assert(s0.sparse@[q] is Some);
                    let t = choose|t: int| 0 <= t < PAGE_SIZE && (#[trigger] s0.entry(q, t)) is Some;
                    assert(self.entry(q, t) is Some);
                }
            }
            assert forall|q: int|
                0 <= q < self.components@.len() implies #[trigger] self.components@[q]@.len() > 0 by {
                if q == k {
                    assert(self.components@[q] == s0.components@[last as int]);
                } else {
                    assert(self.components@[q] == s0.components@[q]);
                }
            }
        }
        r
    }

    /// A pool whose instance list at position `k` was replaced by another non-empty one is
    /// still well formed, and only the items of the entity at `k` changed.
    proof fn lemma_list_replaced(s0: Self, s1: Self, id: usize, k: usize)
        requires
            s0.wf(),
            s0.slot(id) == Some(k),
            s1.sparse == s0.sparse,
            s1.packed == s0.packed,
            s1.components@.len() == s0.components@.len(),
            forall|q: int|
                0 <= q < s0.components@.len() && q != k ==> #[trigger] s1.components@[q]
                    == s0.components@[q],
            s1.components@[k as int]@.len() > 0,
        ensures
            s1.wf(),
            s1.items(id) == s1.components@[k as int]@,
            forall|j: usize| j != id ==> #[trigger] s1.items(j) == s0.items(j),
            s1.ids() == s0.ids(),
    {
        s0.lemma_slot(id);
        assert forall|q: int, r: int| #[trigger] s1.entry(q, r) == s0.entry(q, r) by {}
        assert forall|j: usize| #[trigger] s1.position(j) == s0.position(j) by {
            assert(s1.slot(j) == s0.slot(j));
        }
        assert forall|j: usize| j != id implies #[trigger] s1.items(j) == s0.items(j) by {
            s0.lemma_slot(j);
            assert(s1.slot(j) == s0.slot(j));
        }
        assert forall|q: int|
            0 <= q < s1.packed@.len() implies #[trigger] s1.position(s1.packed@[q]) == q by {
            assert(s0.position(s0.packed@[q]) == q);
        }
        assert forall|q: int, r: int|
            0 <= r < PAGE_SIZE && #[trigger] s1.entry(q, r) is Some implies ({
                let m = s1.entry(q, r)->0;
                &&& m < s1.packed@.len()
                &&& s1.packed@[m as int] as int == q * PAGE_SIZE + r
            }) by {
            assert(s0.entry(q, r) is Some);
        }
        assert forall|q: int|
            0 <= q < s1.sparse@.len() && #[trigger] s1.sparse@[q] is Some implies exists|r: int|
            0 <= r < PAGE_SIZE && (#[trigger] s1.entry(q, r)) is Some by {
            let r = choose|r: int| 0 <= r < PAGE_SIZE && (#[trigger] s0.entry(q, r)) is Some;
            assert(s1.entry(q, r) is Some);
        }
        assert forall|q: int|
            0 <= q < s1.components@.len() implies #[trigger] s1.components@[q]@.len() > 0 by {
            if q != k {
                assert(s1.components@[q] == s0.components@[q]);
            }
        }
    }

    /// Removes the first instance of entity `id` and returns it; the others keep their order.
    pub fn detach_one(&mut self, id: usize) -> (r: Option<T>)
        requires
            old(self).wf(),
        ensures
            final(self).wf(),
            old(self).items(id).len() == 0 ==> r is None,
            old(self).items(id).len() > 0 ==> r == Some(old(self).items(id)[0]),
            final(self).items(id) == if old(self).items(id).len() == 0 {
                Seq::<T>::empty()
            } else {
                old(self).items(id).drop_first()
            },
            forall|j: usize| j != id ==> #[trigger] final(self).items(j) == old(self).items(j),
            final(self).ids() == if old(self).items(id).len() == 1 {
                swap_removed(old(self).ids(), old(self).position(id))
            } else {
                old(self).ids()
            },
    {
        match self.lookup(id) {
            Some(k) => {
                if self.components[k].len() > 1 {
                    let ghost s0 = *self;
                    let c = self.components[k].remove(0);
                    proof {
                        Self::lemma_list_replaced(s0, *self, id, k);
                    }
                    Some(c)
                } else {
                    let mut all = self.detach_at(id, k);
                    Some(all.remove(0))
                }
            },
            None => None,
        }
    }

    /// Whether `s1` is `s0` but for the instance list at position `k`, which stays non-empty.
    closed spec fn list_replaced(s0: Self, s1: Self, k: usize) -> bool {
        &&& s1.sparse == s0.sparse
        &&& s1.packed == s0.packed
        &&& s1.components@.len() == s0.components@.len()
        &&& forall|q: int|
            0 <= q < s0.components@.len() && q != k ==> #[trigger] s1.components@[q]
                == s0.components@[q]
        &&& s1.components@[k as int]@.len() > 0
    }

    /// `lemma_list_replaced` in a form that applies wherever `list_replaced` is known.
    broadcast proof fn lemma_list_replaced_wf(s0: Self, s1: Self, k: usize)
        requires
            s0.wf(),
            k < s0.packed@.len(),
        ensures
            #[trigger] Self::list_replaced(s0, s1, k) ==> {
                &&& s1.wf()
                &&& s1.ids() == s0.ids()
                &&& s1.items(s0.packed@[k as int]) == s1.components@[k as int]@
                &&& forall|j: usize| j != s0.packed@[k as int] ==> #[trigger] s1.items(j) == s0.items(j)
            },
    {
        if Self::list_replaced(s0, s1, k) {
            assert(s0.position(s0.packed@[k as int]) == k);
            Self::lemma_list_replaced(s0, s1, s0.packed@[k as int], k);
        }
    }

    /// Mutable access to instance `n` of the list at position `k`.
    fn item_mut(&mut self, k: usize, n: usize) -> (r: &mut T)
        requires
            old(self).wf(),
            k < old(self).components@.len(),
            n < old(self).components@[k as int]@.len(),
        ensures
            *r == old(self).components@[k as int]@[n as int],
            Self::list_replaced(*old(self), *final(self), k),
            final(self).components@[k as int]@ == old(self).components@[k as int]@.update(
                n as int,
                *final(r),
            ),
    {
        let list = &mut self.components[k];
        &mut list[n]
    }

    /// Mutable access to the `n`-th instance of entity `id`.
    pub fn get_nth_mut(&mut self, id: usize, n: usize) -> (r: Option<&mut T>)
        requires
            old(self).wf(),
        ensures
            n >= old(self).items(id).len() ==> r is None && *final(self) == *old(self),
            n < old(self).items(id).len() ==> {
                &&& r is Some
                &&& *r.unwrap() == old(self).items(id)[n as int]
                &&& final(self).wf()
                &&& final(self).items(id) == old(self).items(id).update(n as int, *final(r.unwrap()))
                &&& forall|j: usize| j != id ==> #[trigger] final(self).items(j) == old(self).items(j)
                &&& final(self).ids() == old(self).ids()
            },
    {
        broadcast use Pool::lemma_list_replaced_wf;

        match self.lookup(id) {
            Some(k) => {
                if n < self.components[k].len() {
                    proof {
                        self.lemma_slot(id);
                    }
                    Some(self.item_mut(k, n))
                } else {
                    None
                }
            },
            None => None,
        }
    }

    /// Mutable access to the first instance of entity `id`.
    pub fn get_one_mut(&mut self, id: usize) -> (r: Option<&mut T>)
        requires
            old(self).wf(),
        ensures
            old(self).items(id).len() == 0 ==> r is None && *final(self) == *old(self),
            old(self).items(id).len() > 0 ==> {
                &&& r is Some
                &&& *r.unwrap() == old(self).items(id)[0]
                &&& final(self).wf()
                &&& final(self).items(id) == old(self).items(id).update(0, *final(r.unwrap()))
                &&& forall|j: usize| j != id ==> #[trigger] final(self).items(j) == old(self).items(j)
                &&& final(self).ids() == old(self).ids()
            },
    {
        self.get_nth_mut(id, 0)
    }

    /// Where entity `id` stands in the packed arrays, as the sparse index records it.
    pub fn position_of(&self, id: usize) -> (r: Option<usize>)
        requires
            self.wf(),
        ensures
            self.items(id).len() > 0 ==> r == Some(self.position(id) as usize),
            self.items(id).len() == 0 ==> r is None,
    {
        proof {
            self.lemma_wf();
        }
        self.lookup(id)
    }

    /// Detaching every instance of the only entity on the last page drops that page, and
    /// with it the absent pages before it.
    pub proof fn lemma_pages_shrink(p0: Self, p1: Self, id: usize)
        requires
            p0.wf(),
            p1.wf(),
            p0.items(id).len() > 0,
            page_of(id) == p0.page_count() - 1,
            forall|j: usize| j != id && #[trigger] p0.ids().contains(j) ==> page_of(j) < page_of(id),
            p1.ids() == swap_removed(p0.ids(), p0.position(id)),
        ensures
            p1.page_count() < p0.page_count(),
    {
        p0.lemma_wf();
        p1.lemma_wf();
        let k = p0.position(id);
        if p1.page_count() >= p0.page_count() {
            let q = choose|q: int|
                0 <= q < p1.ids().len() && page_of(#[trigger] p1.ids()[q]) == p1.page_count() - 1;
            let j = p1.ids()[q];
            if q == k {
                assert(j == p0.ids().last());
                assert(p0.ids().contains(j));
            } else {
                assert(j == p0.ids()[q]);
                assert(p0.ids().contains(j));
            }
            if j == id {
                assert(p0.ids()[k] == id);
                if q == k {
                    assert(p0.ids()[p0.ids().len() - 1] == id);
                    assert(k == p0.ids().len() - 1);
                } else {
                    assert(p0.ids()[q] == id);
                }
            }
        }
    }
}

} // verus!
