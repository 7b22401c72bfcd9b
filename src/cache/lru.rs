//! A bounded store that evicts the least recently used entry. The recency
//! order and the capacity are kept by `lru_cache::LruCache`, which here holds
//! slot numbers; the questions and answers sit in the slots.
use vstd::prelude::*;

use lru_cache::LruCache;

use crate::cache::{Cache, CacheEntry, EntryView};
use crate::dns::{Query, QueryView};

verus! {

#[verifier::external_type_specification]
#[verifier::external_body]
#[verifier::reject_recursive_types(K)]
#[verifier::reject_recursive_types(V)]
#[verifier::reject_recursive_types(S)]
pub struct ExLruCache<K: Eq + core::hash::Hash, V, S: core::hash::BuildHasher>(
    LruCache<K, V, S>,
);

/// The keys that an `LruCache` holds, least recently used first.
pub uninterp spec fn lru_order(c: LruCache<u64, ()>) -> Seq<u64>;

/// The capacity that an `LruCache` was made with.
pub uninterp spec fn lru_capacity(c: LruCache<u64, ()>) -> nat;

/// Relies on `LruCache::new`: an empty cache with the given capacity.
#[verifier::external_body]
fn lru_new(capacity: usize) -> (r: LruCache<u64, ()>)
    ensures
        lru_order(r) == Seq::<u64>::empty(),
        lru_capacity(r) == capacity,
{
    LruCache::new(capacity)
}

/// Relies on `LruCache::len`: the number of keys held.
#[verifier::external_body]
fn lru_len(c: &LruCache<u64, ()>) -> (r: usize)
    ensures
        r == lru_order(*c).len(),
{
    c.len()
}

/// Relies on `LruCache::insert`: a present key moves to the most recent
/// end; a new key is added there, and past capacity the least recent key is
/// dropped. Whether the key was present comes back.
#[verifier::external_body]
fn lru_insert(c: &mut LruCache<u64, ()>, k: u64) -> (r: bool)
    ensures
        lru_capacity(*final(c)) == lru_capacity(*old(c)),
        r == lru_order(*old(c)).contains(k),
        r ==> exists|j: int|
            0 <= j < lru_order(*old(c)).len() && lru_order(*old(c))[j] == k && lru_order(*final(c))
                == lru_order(*old(c)).remove(j).push(k),
        !r ==> lru_order(*final(c)) == if lru_order(*old(c)).len() + 1 > lru_capacity(*old(c)) {
            lru_order(*old(c)).push(k).drop_first()
        } else {
            lru_order(*old(c)).push(k)
        },
{
    c.insert(k, ()).is_some()
}

/// Relies on `LruCache::get_mut`, which marks a present key as most
/// recently used. Whether the key was present comes back.
#[verifier::external_body]
fn lru_touch(c: &mut LruCache<u64, ()>, k: u64) -> (r: bool)
    ensures
        lru_capacity(*final(c)) == lru_capacity(*old(c)),
        r == lru_order(*old(c)).contains(k),
        r ==> exists|j: int|
            0 <= j < lru_order(*old(c)).len() && lru_order(*old(c))[j] == k && lru_order(*final(c))
                == lru_order(*old(c)).remove(j).push(k),
        !r ==> lru_order(*final(c)) == lru_order(*old(c)),
{
    c.get_mut(&k).is_some()
}

/// Relies on `LruCache::remove`: the key leaves, the others keep their order.
#[verifier::external_body]
fn lru_remove(c: &mut LruCache<u64, ()>, k: u64) -> (r: bool)
    ensures
        lru_capacity(*final(c)) == lru_capacity(*old(c)),
        r == lru_order(*old(c)).contains(k),
        r ==> exists|j: int|
            0 <= j < lru_order(*old(c)).len() && lru_order(*old(c))[j] == k && lru_order(*final(c))
                == lru_order(*old(c)).remove(j),
        !r ==> lru_order(*final(c)) == lru_order(*old(c)),
{
    c.remove(&k).is_some()
}

/// Relies on `LruCache::remove_lru`: takes out the least recently used key.
#[verifier::external_body]
fn lru_pop(c: &mut LruCache<u64, ()>) -> (r: Option<u64>)
    ensures
        lru_capacity(*final(c)) == lru_capacity(*old(c)),
        lru_order(*old(c)).len() == 0 ==> r is None && lru_order(*final(c)) == lru_order(*old(c)),
        lru_order(*old(c)).len() > 0 ==> r == Some(lru_order(*old(c))[0]) && lru_order(*final(c))
            == lru_order(*old(c)).drop_first(),
{
    c.remove_lru().map(|e| e.0)
}

/// The recency order after `k` is stored: a present key moves to the most
/// recent end; a new one is added there, after the least recent key has made
/// room if the store is full.
pub open spec fn recency_after_put(rec: Seq<QueryView>, capacity: nat, k: QueryView) -> Seq<QueryView> {
    if rec.contains(k) {
        rec.remove(rec.index_of(k)).push(k)
    } else if rec.len() < capacity {
        rec.push(k)
    } else {
        rec.drop_first().push(k)
    }
}

/// The recency order after a lookup of `k`.
pub open spec fn recency_after_get(rec: Seq<QueryView>, k: QueryView) -> Seq<QueryView> {
    if rec.contains(k) {
        rec.remove(rec.index_of(k)).push(k)
    } else {
        rec
    }
}

/// A store of at most `capacity` entries.
pub struct LruStore {
    slots: Vec<Option<(Query, CacheEntry)>>,
    order: LruCache<u64, ()>,
    capacity: usize,
    map: Ghost<Map<QueryView, EntryView>>,
}

impl LruStore {
    pub closed spec fn ids(&self) -> Seq<u64> {
        lru_order(self.order)
    }

    pub closed spec fn key_of(&self, id: u64) -> QueryView {
        self.slots@[id as int].unwrap().0@
    }

    /// The questions held, least recently used first.
    pub closed spec fn recency(&self) -> Seq<QueryView> {
        self.ids().map_values(|id: u64| self.key_of(id))
    }

    pub closed spec fn contents(&self) -> Map<QueryView, EntryView> {
        self.map@
    }

    pub closed spec fn bound(&self) -> nat {
        self.capacity as nat
    }

    pub closed spec fn wf(&self) -> bool {
        let ids = self.ids();
        &&& self.capacity >= 1
        &&& self.slots@.len() <= usize::MAX
        &&& lru_capacity(self.order) == self.capacity
        &&& ids.len() <= self.capacity
        &&& ids.no_duplicates()
        &&& forall|j: int|
            0 <= j < ids.len() ==> #[trigger] ids[j] < self.slots@.len() && self.slots@[ids[j] as int] is Some
        &&& forall|i: int|
            0 <= i < self.slots@.len() && #[trigger] self.slots@[i] is Some ==> ids.contains(i as u64)
        &&& forall|i: int, i2: int|
            0 <= i < i2 < self.slots@.len() && #[trigger] self.slots@[i] is Some
                && #[trigger] self.slots@[i2] is Some ==> self.slots@[i].unwrap().0@
                != self.slots@[i2].unwrap().0@
        &&& forall|i: int|
            0 <= i < self.slots@.len() && #[trigger] self.slots@[i] is Some ==> self.map@.contains_key(
                self.slots@[i].unwrap().0@,
            ) && self.map@[self.slots@[i].unwrap().0@] == self.slots@[i].unwrap().1@
        &&& forall|q: QueryView|
            #[trigger] self.map@.contains_key(q) ==> exists|i: int|
                0 <= i < self.slots@.len() && #[trigger] self.slots@[i] is Some
                    && self.slots@[i].unwrap().0@ == q
    }

    /// An empty store that holds at most `capacity` entries.
    pub fn new(capacity: usize) -> (r: LruStore)
        requires
            capacity >= 1,
        ensures
            r.wf(),
            r.bound() == capacity,
            r.contents() == Map::<QueryView, EntryView>::empty(),
            r.recency() == Seq::<QueryView>::empty(),
    {
        let r = LruStore {
            slots: Vec::new(),
            order: lru_new(capacity),
            capacity,
            map: Ghost(Map::empty()),
        };
        assert(r.recency() =~= Seq::<QueryView>::empty());
        r
    }

    fn find(&self, k: &Query) -> (r: Option<usize>)
        requires
            self.wf(),
        ensures
            match r {
                Some(i) => i < self.slots@.len() && self.slots@[i as int] is Some
                    && self.slots@[i as int].unwrap().0@ == k@,
                None => !self.map@.contains_key(k@),
            },
    {
        let mut i: usize = 0;
        while i < self.slots.len()
            invariant
                i <= self.slots@.len(),
                forall|j: int|
                    0 <= j < i && #[trigger] self.slots@[j] is Some ==> self.slots@[j].unwrap().0@ != k@,
            decreases self.slots.len() - i,
        {
            match &self.slots[i] {
                Some(p) => {
                    if p.0.same_as(k) {
                        return Some(i);
                    }
                },
                None => {},
            }
            i = i + 1;
        }
        None
    }
}


impl LruStore {
    proof fn lemma_recency(&self)
        requires
            self.wf(),
        ensures
            self.recency().len() == self.ids().len(),
            self.recency().no_duplicates(),
            forall|j: int| 0 <= j < self.recency().len() ==> self.map@.contains_key(#[trigger] self.recency()[j]),
            forall|q: QueryView| self.map@.contains_key(q) ==> #[trigger] self.recency().contains(q),
    {
        let ids = self.ids();
        let rec = self.recency();
        assert forall|a: int, b: int| 0 <= a < rec.len() && 0 <= b < rec.len() && a != b implies rec[a] != rec[b] by {
            assert(ids[a] != ids[b]);
            let (x, y) = if ids[a] < ids[b] { (ids[a] as int, ids[b] as int) } else { (ids[b] as int, ids[a] as int) };
            assert(self.slots@[x] is Some && self.slots@[y] is Some);
        }
        assert forall|j: int| 0 <= j < rec.len() implies self.map@.contains_key(#[trigger] rec[j]) by {
            assert(self.slots@[ids[j] as int] is Some);
        }
        assert forall|q: QueryView| self.map@.contains_key(q) implies #[trigger] rec.contains(q) by {
            let i = choose|i: int| 0 <= i < self.slots@.len() && #[trigger] self.slots@[i] is Some
                    && self.slots@[i].unwrap().0@ == q;
            assert(ids.contains(i as u64));
            let j = choose|j: int| 0 <= j < ids.len() && ids[j] == i as u64;
            assert(ids[j] as int == i);
            assert(rec[j] == q);
        }
    }

    /// Marks slot `i`, which is held, as the most recently used.
    fn touch(&mut self, i: usize)
        requires
            old(self).wf(),
            i < old(self).slots@.len(),
            old(self).slots@[i as int] is Some,
        ensures
            final(self).wf(),
            final(self).slots == old(self).slots,
            final(self).map == old(self).map,
            final(self).capacity == old(self).capacity,
            final(self).recency() == old(self).recency().remove(
                old(self).recency().index_of(old(self).slots@[i as int].unwrap().0@),
            ).push(old(self).slots@[i as int].unwrap().0@),
    {
        let ghost ids0 = self.ids();
        let ghost rec0 = self.recency();
        proof {
            self.lemma_recency();
        }
        lru_insert(&mut self.order, i as u64);
        proof {
            let j = choose|j: int| 0 <= j < ids0.len() && ids0[j] == i as u64 && lru_order(self.order)
                == ids0.remove(j).push(i as u64);
            let ids = self.ids();
            let k = rec0[j];
            assert(ids.len() == ids0.len());
            assert(forall|a: int| 0 <= a < j ==> ids[a] == ids0[a]);
            assert(forall|a: int| j <= a < ids.len() - 1 ==> ids[a] == ids0[a + 1]);
            assert(ids[ids.len() - 1] == ids0[j]);
            assert forall|a: int, b: int| 0 <= a < ids.len() && 0 <= b < ids.len() && a != b implies ids[a] != ids[b] by {
                let a0 = if a == ids.len() - 1 { j } else if a < j { a } else { a + 1 };
                let b0 = if b == ids.len() - 1 { j } else if b < j { b } else { b + 1 };
                assert(ids0[a0] != ids0[b0]);
            }
            assert forall|a: int| 0 <= a < ids.len() implies #[trigger] ids[a] < self.slots@.len() && self.slots@[ids[a] as int] is Some by {
                let a0 = if a == ids.len() - 1 { j } else if a < j { a } else { a + 1 };
                assert(ids[a] == ids0[a0]);
            }
            assert forall|x: int| 0 <= x < self.slots@.len() && #[trigger] self.slots@[x] is Some implies ids.contains(x as u64) by {
                assert(ids0.contains(x as u64));
                let w = choose|w: int| 0 <= w < ids0.len() && ids0[w] == x as u64;
                let w2 = if w == j { ids.len() - 1 } else if w < j { w } else { w - 1 };
                assert(ids[w2] == x as u64);
            }
            let rec = self.recency();
            assert(rec0.index_of(k) == j) by {
                let c = rec0.index_of(k);
                assert(rec0.contains(k));
                assert(rec0[c] == k);
            }
            assert(rec =~= rec0.remove(j).push(k));
        }
    }
}

impl LruStore {
    /// Drops the least recently used entry.
    fn evict(&mut self)
        requires
            old(self).wf(),
            old(self).ids().len() >= 1,
        ensures
            final(self).wf(),
            final(self).capacity == old(self).capacity,
            final(self).recency() == old(self).recency().drop_first(),
            final(self).map@ == old(self).map@.remove(old(self).recency()[0]),
    {
        let ghost ids0 = self.ids();
        let ghost rec0 = self.recency();
        let ghost slots0 = self.slots@;
        let popped = lru_pop(&mut self.order);
        match popped {
            Some(e) => {
                let ghost key = slots0[e as int].unwrap().0@;
                assert(key == rec0[0]);
                self.slots.set(e as usize, None);
                proof {
                    self.map@ = self.map@.remove(key);
                    let ids = self.ids();
                    assert(ids == ids0.drop_first());
                    assert forall|a: int| 0 <= a < ids.len() implies #[trigger] ids[a] < self.slots@.len() && self.slots@[ids[a] as int] is Some by {
                        assert(ids[a] == ids0[a + 1]);
                        assert(ids0[a + 1] != ids0[0]);
                    }
                    assert forall|x: int| 0 <= x < self.slots@.len() && #[trigger] self.slots@[x] is Some implies ids.contains(x as u64) by {
                        assert(x != e as int);
                        assert(slots0[x] is Some);
                        assert(ids0.contains(x as u64));
                        let w = choose|w: int| 0 <= w < ids0.len() && ids0[w] == x as u64;
                        assert(w != 0);
                        assert(ids[w - 1] == x as u64);
                    }
                    assert forall|x: int| 0 <= x < self.slots@.len() && #[trigger] self.slots@[x] is Some implies self.map@.contains_key(
                        self.slots@[x].unwrap().0@,
                    ) && self.map@[self.slots@[x].unwrap().0@] == self.slots@[x].unwrap().1@ by {
                        assert(slots0[x] is Some && slots0[e as int] is Some);
                        assert(x != e as int);
                    }
                    assert forall|q: QueryView| #[trigger] self.map@.contains_key(q) implies exists|x: int|
                        0 <= x < self.slots@.len() && #[trigger] self.slots@[x] is Some && self.slots@[x].unwrap().0@ == q by {
                        let x = choose|x: int| 0 <= x < slots0.len() && #[trigger] slots0[x] is Some && slots0[x].unwrap().0@ == q;
                        assert(x != e as int);
                        assert(self.slots@[x] == slots0[x]);
                    }
                    assert forall|a: int| 0 <= a < ids.len() implies #[trigger] self.recency()[a] == rec0.drop_first()[a] by {
                        assert(ids[a] == ids0[a + 1]);
                        assert(ids0[a + 1] != ids0[0]);
                    }
                    assert(self.recency() =~= rec0.drop_first());
                }
            },
            None => {},
        }
    }

    /// A slot that holds nothing, added if there is none.
    fn free_slot(&mut self) -> (r: usize)
        requires
            old(self).wf(),
        ensures
            final(self).wf(),
            final(self).order == old(self).order,
            final(self).capacity == old(self).capacity,
            final(self).map == old(self).map,
            final(self).recency() == old(self).recency(),
            r < final(self).slots@.len(),
            final(self).slots@[r as int] is None,
    {
        let mut i: usize = 0;
        while i < self.slots.len()
            invariant
                i <= self.slots@.len(),
                *self == *old(self),
                self.wf(),
            decreases self.slots.len() - i,
        {
            if self.slots[i].is_none() {
                return i;
            }
            i = i + 1;
        }
        let ghost slots0 = self.slots@;
        let ghost rec0 = self.recency();
        self.slots.push(None);
        let n = self.slots.len();
        proof {
            assert forall|x: int| 0 <= x < self.slots@.len() && #[trigger] self.slots@[x] is Some implies self.ids().contains(x as u64) by {
                assert(slots0[x] is Some);
            }
            assert forall|x: int| 0 <= x < self.slots@.len() && #[trigger] self.slots@[x] is Some implies self.map@.contains_key(
                self.slots@[x].unwrap().0@,
            ) && self.map@[self.slots@[x].unwrap().0@] == self.slots@[x].unwrap().1@ by {
                assert(slots0[x] is Some);
            }
            assert forall|q: QueryView| #[trigger] self.map@.contains_key(q) implies exists|x: int|
                0 <= x < self.slots@.len() && #[trigger] self.slots@[x] is Some && self.slots@[x].unwrap().0@ == q by {
                let x = choose|x: int| 0 <= x < slots0.len() && #[trigger] slots0[x] is Some && slots0[x].unwrap().0@ == q;
                assert(self.slots@[x] == slots0[x]);
            }
            assert(self.recency() =~= rec0);
        }
        n - 1
    }

    /// Puts a new question in the empty slot `i`, as the most recently used.
    fn place(&mut self, i: usize, k: Query, v: CacheEntry)
        requires
            old(self).wf(),
            i < old(self).slots@.len(),
            old(self).slots@[i as int] is None,
            old(self).ids().len() < old(self).capacity,
            !old(self).map@.contains_key(k@),
        ensures
            final(self).wf(),
            final(self).capacity == old(self).capacity,
            final(self).recency() == old(self).recency().push(k@),
            final(self).map@ == old(self).map@.insert(k@, v@),
    {
        let ghost ids0 = self.ids();
        let ghost rec0 = self.recency();
        let ghost slots0 = self.slots@;
        let ghost kv = k@;
        let ghost vv = v@;
        assert(!ids0.contains(i as u64)) by {
            if ids0.contains(i as u64) {
                let j = choose|j: int| 0 <= j < ids0.len() && ids0[j] == i as u64;
                assert(slots0[ids0[j] as int] is Some);
            }
        }
        self.slots.set(i, Some((k, v)));
        lru_insert(&mut self.order, i as u64);
        proof {
            self.map@ = self.map@.insert(kv, vv);
            let ids = self.ids();
            assert(ids == ids0.push(i as u64));
            assert forall|a: int| 0 <= a < ids.len() implies #[trigger] ids[a] < self.slots@.len() && self.slots@[ids[a] as int] is Some by {
                if a < ids0.len() {
                    assert(ids[a] == ids0[a]);
                }
            }
            assert forall|x: int| 0 <= x < self.slots@.len() && #[trigger] self.slots@[x] is Some implies ids.contains(x as u64) by {
                if x == i as int {
                    assert(ids[ids.len() - 1] == x as u64);
                } else {
                    assert(slots0[x] is Some);
                    assert(ids0.contains(x as u64));
                    let w = choose|w: int| 0 <= w < ids0.len() && ids0[w] == x as u64;
                    assert(ids[w] == x as u64);
                }
            }
            assert forall|x: int, y: int|
                0 <= x < y < self.slots@.len() && #[trigger] self.slots@[x] is Some
                    && #[trigger] self.slots@[y] is Some implies self.slots@[x].unwrap().0@
                != self.slots@[y].unwrap().0@ by {
                if x == i as int {
                    assert(slots0[y] is Some);
                } else if y == i as int {
                    assert(slots0[x] is Some);
                } else {
                    assert(slots0[x] is Some && slots0[y] is Some);
                }
            }
            assert forall|x: int| 0 <= x < self.slots@.len() && #[trigger] self.slots@[x] is Some implies self.map@.contains_key(
                self.slots@[x].unwrap().0@,
            ) && self.map@[self.slots@[x].unwrap().0@] == self.slots@[x].unwrap().1@ by {
                if x != i as int {
                    assert(slots0[x] is Some);
                }
            }
            assert forall|q: QueryView| #[trigger] self.map@.contains_key(q) implies exists|x: int|
                0 <= x < self.slots@.len() && #[trigger] self.slots@[x] is Some && self.slots@[x].unwrap().0@ == q by {
                if q == kv {
                    assert(self.slots@[i as int] is Some);
                } else {
                    let x = choose|x: int| 0 <= x < slots0.len() && #[trigger] slots0[x] is Some && slots0[x].unwrap().0@ == q;
                    assert(x != i as int);
                    assert(self.slots@[x] == slots0[x]);
                }
            }
            assert forall|a: int| 0 <= a < ids.len() implies #[trigger] self.recency()[a] == rec0.push(kv)[a] by {
                if a < ids0.len() {
                    assert(ids[a] == ids0[a]);
                    assert(ids0[a] != i as u64);
                }
            }
            assert(self.recency() =~= rec0.push(kv));
        }
    }
}

impl LruStore {
    /// Replaces what the held slot `i` stores for `k`, its own question.
    fn replace_value(&mut self, i: usize, k: Query, v: CacheEntry) -> (r: CacheEntry)
        requires
            old(self).wf(),
            i < old(self).slots@.len(),
            old(self).slots@[i as int] is Some,
            old(self).slots@[i as int].unwrap().0@ == k@,
        ensures
            final(self).wf(),
            final(self).capacity == old(self).capacity,
            final(self).order == old(self).order,
            final(self).slots@.len() == old(self).slots@.len(),
            final(self).slots@[i as int] is Some,
            final(self).slots@[i as int].unwrap().0@ == k@,
            final(self).recency() == old(self).recency(),
            final(self).map@ == old(self).map@.insert(k@, v@),
            r@ == old(self).map@[k@],
    {
        let ghost slots0 = self.slots@;
        let ghost rec0 = self.recency();
        let ghost kv = k@;
        let ghost vv = v@;
        let prev = self.slots.remove(i);
        self.slots.insert(i, Some((k, v)));
        assert(self.slots@ =~= slots0.update(i as int, self.slots@[i as int]));
        proof {
            self.map@ = self.map@.insert(kv, vv);
            assert forall|x: int| 0 <= x < self.slots@.len() && #[trigger] self.slots@[x] is Some implies self.ids().contains(x as u64) by {
                assert(slots0[x] is Some);
            }
            assert forall|x: int, y: int|
                0 <= x < y < self.slots@.len() && #[trigger] self.slots@[x] is Some
                    && #[trigger] self.slots@[y] is Some implies self.slots@[x].unwrap().0@
                != self.slots@[y].unwrap().0@ by {
                assert(slots0[x] is Some && slots0[y] is Some);
            }
            assert forall|x: int| 0 <= x < self.slots@.len() && #[trigger] self.slots@[x] is Some implies self.map@.contains_key(
                self.slots@[x].unwrap().0@,
            ) && self.map@[self.slots@[x].unwrap().0@] == self.slots@[x].unwrap().1@ by {
                assert(slots0[x] is Some && slots0[i as int] is Some);
            }
            assert forall|q: QueryView| #[trigger] self.map@.contains_key(q) implies exists|x: int|
                0 <= x < self.slots@.len() && #[trigger] self.slots@[x] is Some && self.slots@[x].unwrap().0@ == q by {
                if q == kv {
                    assert(self.slots@[i as int] is Some);
                } else {
                    let x = choose|x: int| 0 <= x < slots0.len() && #[trigger] slots0[x] is Some && slots0[x].unwrap().0@ == q;
                    assert(self.slots@[x] is Some);
                }
            }
            assert(self.recency() =~= rec0);
        }
        prev.unwrap().1
    }
}

impl LruStore {
    /// Empties the held slot `i`.
    fn clear_slot(&mut self, i: usize) -> (r: CacheEntry)
        requires
            old(self).wf(),
            i < old(self).slots@.len(),
            old(self).slots@[i as int] is Some,
        ensures
            final(self).wf(),
            final(self).capacity == old(self).capacity,
            final(self).map@ == old(self).map@.remove(old(self).slots@[i as int].unwrap().0@),
            r@ == old(self).map@[old(self).slots@[i as int].unwrap().0@],
    {
        let ghost ids0 = self.ids();
        let ghost slots0 = self.slots@;
        let ghost key = slots0[i as int].unwrap().0@;
        lru_remove(&mut self.order, i as u64);
        let prev = self.slots.remove(i);
        self.slots.insert(i, None);
        assert(self.slots@ =~= slots0.update(i as int, None));
        proof {
            self.map@ = self.map@.remove(key);
            let j = choose|j: int| 0 <= j < ids0.len() && ids0[j] == i as u64 && lru_order(self.order)
                == ids0.remove(j);
            let ids = self.ids();
            assert forall|a: int, b: int| 0 <= a < ids.len() && 0 <= b < ids.len() && a != b implies ids[a] != ids[b] by {
                let a0 = if a < j { a } else { a + 1 };
                let b0 = if b < j { b } else { b + 1 };
                assert(ids0[a0] != ids0[b0]);
            }
            assert forall|a: int| 0 <= a < ids.len() implies #[trigger] ids[a] < self.slots@.len() && self.slots@[ids[a] as int] is Some by {
                let a0 = if a < j { a } else { a + 1 };
                assert(ids[a] == ids0[a0]);
                assert(ids0[a0] != ids0[j]);
            }
            assert forall|x: int| 0 <= x < self.slots@.len() && #[trigger] self.slots@[x] is Some implies ids.contains(x as u64) by {
                assert(slots0[x] is Some);
                assert(ids0.contains(x as u64));
                let w = choose|w: int| 0 <= w < ids0.len() && ids0[w] == x as u64;
                assert(w != j);
                let w2 = if w < j { w } else { w - 1 };
                assert(ids[w2] == x as u64);
            }
            assert forall|x: int| 0 <= x < self.slots@.len() && #[trigger] self.slots@[x] is Some implies self.map@.contains_key(
                self.slots@[x].unwrap().0@,
            ) && self.map@[self.slots@[x].unwrap().0@] == self.slots@[x].unwrap().1@ by {
                assert(slots0[x] is Some && slots0[i as int] is Some);
            }
            assert forall|q: QueryView| #[trigger] self.map@.contains_key(q) implies exists|x: int|
                0 <= x < self.slots@.len() && #[trigger] self.slots@[x] is Some && self.slots@[x].unwrap().0@ == q by {
                let x = choose|x: int| 0 <= x < slots0.len() && #[trigger] slots0[x] is Some && slots0[x].unwrap().0@ == q;
                assert(x != i as int);
                assert(self.slots@[x] == slots0[x]);
            }
        }
        prev.unwrap().1
    }

    /// Stores `v` under `k` as the most recently used entry; a new question
    /// in a full store first evicts the least recently used one.
    pub fn put(&mut self, k: Query, v: CacheEntry) -> (r: Option<CacheEntry>)
        requires
            old(self).wf(),
        ensures
            final(self).wf(),
            final(self).bound() == old(self).bound(),
            final(self).recency() == recency_after_put(old(self).recency(), old(self).bound(), k@),
            final(self).contents() == if old(self).contents().contains_key(k@) || old(
                self,
            ).recency().len() < old(self).bound() {
                old(self).contents().insert(k@, v@)
            } else {
                old(self).contents().remove(old(self).recency()[0]).insert(k@, v@)
            },
            match r {
                Some(x) => old(self).contents().contains_key(k@) && x@ == old(self).contents()[k@],
                None => !old(self).contents().contains_key(k@),
            },
    {
        proof {
            self.lemma_recency();
        }
        match self.find(&k) {
            Some(i) => {
                let prev = self.replace_value(i, k, v);
                self.touch(i);
                Some(prev)
            },
            None => {
                let ghost kv = k@;
                assert(!self.recency().contains(kv));
                if lru_len(&self.order) >= self.capacity {
                    self.evict();
                    assert(self.ids().len() == self.recency().len());
                }
                assert(self.ids().len() < self.capacity);
                let i = self.free_slot();
                self.place(i, k, v);
                None
            },
        }
    }

    /// What `k` holds; a hit marks `k` as the most recently used.
    pub fn lookup(&mut self, k: &Query) -> (r: Option<&CacheEntry>)
        requires
            old(self).wf(),
        ensures
            final(self).wf(),
            final(self).bound() == old(self).bound(),
            final(self).contents() == old(self).contents(),
            final(self).recency() == recency_after_get(old(self).recency(), k@),
            match r {
                Some(x) => old(self).contents().contains_key(k@) && x@ == old(self).contents()[k@],
                None => !old(self).contents().contains_key(k@),
            },
    {
        proof {
            self.lemma_recency();
        }
        match self.find(k) {
            Some(i) => {
                self.touch(i);
                match &self.slots[i] {
                    Some(p) => Some(&p.1),
                    None => None,
                }
            },
            None => {
                assert(!self.recency().contains(k@));
                None
            },
        }
    }

    /// Every held question appears once in the recency order, and only held
    /// questions appear there.
    pub proof fn lemma_recency_matches_contents(&self)
        requires
            self.wf(),
        ensures
            self.recency().no_duplicates(),
            self.recency().len() <= self.bound(),
            forall|q: QueryView| self.contents().contains_key(q) <==> #[trigger] self.recency().contains(q),
    {
        self.lemma_recency();
        assert forall|q: QueryView| #[trigger] self.recency().contains(q) implies self.contents().contains_key(q) by {
            let j = choose|j: int| 0 <= j < self.recency().len() && self.recency()[j] == q;
            assert(self.map@.contains_key(self.recency()[j]));
        }
    }
}

impl Cache for LruStore {
    open spec fn entries(&self) -> Map<QueryView, EntryView> {
        self.contents()
    }

    open spec fn inv(&self) -> bool {
        self.wf()
    }

    fn insert(&mut self, k: Query, v: CacheEntry) -> (r: Option<CacheEntry>) {
        self.put(k, v)
    }

    fn remove(&mut self, k: &Query) -> (r: Option<CacheEntry>) {
        match self.find(k) {
            Some(i) => Some(self.clear_slot(i)),
            None => {
                assert(self.map@.remove(k@) =~= self.map@);
                None
            },
        }
    }

    fn get(&mut self, k: &Query) -> (r: Option<&CacheEntry>) {
        self.lookup(k)
    }

    fn contains_key(&mut self, k: &Query) -> (r: bool) {
        self.find(k).is_some()
    }
}

/// The recency order after storing each of `keys` in turn.
pub open spec fn recency_after_puts(rec: Seq<QueryView>, capacity: nat, keys: Seq<QueryView>) -> Seq<QueryView>
    decreases keys.len(),
{
    if keys.len() == 0 {
        rec
    } else {
        recency_after_put(recency_after_puts(rec, capacity, keys.drop_last()), capacity, keys.last())
    }
}

proof fn lemma_fill(capacity: nat, keys: Seq<QueryView>)
    requires
        keys.len() <= capacity,
        keys.no_duplicates(),
    ensures
        recency_after_puts(Seq::empty(), capacity, keys) == keys,
    decreases keys.len(),
{
    if keys.len() > 0 {
        let init = keys.drop_last();
        assert forall|a: int, b: int| 0 <= a < init.len() && 0 <= b < init.len() && a != b implies init[a] != init[b] by {
            assert(keys[a] != keys[b]);
        }
        lemma_fill(capacity, init);
        assert(!init.contains(keys.last())) by {
            if init.contains(keys.last()) {
                let j = choose|j: int| 0 <= j < init.len() && init[j] == keys.last();
                assert(keys[j] == keys[keys.len() - 1]);
            }
        }
        assert(init.push(keys.last()) =~= keys);
    }
}

/// Storing `capacity + 1` distinct questions, one after another, in an empty
/// store of that capacity evicts exactly one of them: the first, which is
/// the least recently used.
pub proof fn lemma_overflow_evicts_least_recent(capacity: nat, keys: Seq<QueryView>)
    requires
        capacity >= 1,
        keys.len() == capacity + 1,
        keys.no_duplicates(),
    ensures
        recency_after_puts(Seq::empty(), capacity, keys) == keys.drop_first(),
{
    let init = keys.drop_last();
    assert forall|a: int, b: int| 0 <= a < init.len() && 0 <= b < init.len() && a != b implies init[a] != init[b] by {
        assert(keys[a] != keys[b]);
    }
    lemma_fill(capacity, init);
    assert(!init.contains(keys.last())) by {
        if init.contains(keys.last()) {
            let j = choose|j: int| 0 <= j < init.len() && init[j] == keys.last();
            assert(keys[j] == keys[keys.len() - 1]);
        }
    }
    assert(init.drop_first().push(keys.last()) =~= keys.drop_first());
}

} // verus!
