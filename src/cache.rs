//! Cache stores keyed by question. Every store offers the same operations,
//! so the proxy does not depend on the eviction strategy.
pub mod lru;

use vstd::prelude::*;

use crate::dns::{Message, MessageView, Query, QueryView};

verus! {

/// A cached answer and the time, in seconds, from which it is stale.
#[derive(Clone, Debug, PartialEq, Eq)]
pub struct CacheEntry {
    pub response: Message,
    pub expires_at: u64,
}

pub struct EntryView {
    pub response: MessageView,
    pub expires_at: u64,
}

impl View for CacheEntry {
    type V = EntryView;

    open spec fn view(&self) -> EntryView {
        EntryView { response: self.response@, expires_at: self.expires_at }
    }
}

/// What every cache store offers. The store itself knows nothing of time:
/// staleness is the caller's business.
pub trait Cache: Sized {
    /// What the store holds, by question.
    spec fn entries(&self) -> Map<QueryView, EntryView>;

    /// The store's internal invariant.
    spec fn inv(&self) -> bool;

    /// Stores `v` under `k` and hands back what `k` held. A bounded store may
    /// drop entries of other keys to make room; no other entry changes.
    fn insert(&mut self, k: Query, v: CacheEntry) -> (r: Option<CacheEntry>)
        requires
            old(self).inv(),
        ensures
            final(self).inv(),
            match r {
                Some(x) => old(self).entries().contains_key(k@) && x@ == old(self).entries()[k@],
                None => !old(self).entries().contains_key(k@),
            },
            final(self).entries().contains_key(k@),
            final(self).entries()[k@] == v@,
            forall|q: QueryView| #[trigger]
                final(self).entries().contains_key(q) && q != k@ ==> old(
                    self,
                ).entries().contains_key(q) && final(self).entries()[q] == old(self).entries()[q],
    ;

    /// Removes what `k` holds and hands it back.
    fn remove(&mut self, k: &Query) -> (r: Option<CacheEntry>)
        requires
            old(self).inv(),
        ensures
            final(self).inv(),
            match r {
                Some(x) => old(self).entries().contains_key(k@) && x@ == old(self).entries()[k@],
                None => !old(self).entries().contains_key(k@),
            },
            final(self).entries() == old(self).entries().remove(k@),
    ;

    /// What `k` holds; on a bounded store this counts as a use of `k`.
    fn get(&mut self, k: &Query) -> (r: Option<&CacheEntry>)
        requires
            old(self).inv(),
        ensures
            final(self).inv(),
            final(self).entries() == old(self).entries(),
            match r {
                Some(x) => old(self).entries().contains_key(k@) && x@ == old(self).entries()[k@],
                None => !old(self).entries().contains_key(k@),
            },
    ;

    /// Whether `k` is held; this changes nothing, recency included.
    fn contains_key(&mut self, k: &Query) -> (r: bool)
        requires
            old(self).inv(),
        ensures
            *final(self) == *old(self),
            r == old(self).entries().contains_key(k@),
    ;
}

/// An unbounded store: nothing is ever evicted.
pub struct MapStore {
    items: Vec<(Query, CacheEntry)>,
    map: Ghost<Map<QueryView, EntryView>>,
}

impl MapStore {
    pub closed spec fn wf(&self) -> bool {
        &&& forall|i: int, j: int|
            0 <= i < j < self.items@.len() ==> #[trigger] self.items@[i].0@ != #[trigger] self.items@[j].0@
        &&& forall|i: int|
            0 <= i < self.items@.len() ==> self.map@.contains_key(#[trigger] self.items@[i].0@)
                && self.map@[self.items@[i].0@] == self.items@[i].1@
        &&& forall|q: QueryView|
            #[trigger] self.map@.contains_key(q) ==> exists|i: int|
                0 <= i < self.items@.len() && #[trigger] self.items@[i].0@ == q
    }

    pub closed spec fn contents(&self) -> Map<QueryView, EntryView> {
        self.map@
    }

    /// An empty store.
    pub fn new() -> (r: MapStore)
        ensures
            r.wf(),
            r.contents() == Map::<QueryView, EntryView>::empty(),
    {
        MapStore { items: Vec::new(), map: Ghost(Map::empty()) }
    }

    fn find(&self, k: &Query) -> (r: Option<usize>)
        requires
            self.wf(),
        ensures
            match r {
                Some(i) => i < self.items@.len() && self.items@[i as int].0@ == k@,
                None => !self.map@.contains_key(k@),
            },
    {
        let mut i: usize = 0;
        while i < self.items.len()
            invariant
                i <= self.items@.len(),
                forall|j: int| 0 <= j < i ==> #[trigger] self.items@[j].0@ != k@,
            decreases self.items.len() - i,
        {
            if self.items[i].0.same_as(k) {
                return Some(i);
            }
            i = i + 1;
        }
        None
    }
}

impl Cache for MapStore {
    open spec fn entries(&self) -> Map<QueryView, EntryView> {
        self.contents()
    }

    open spec fn inv(&self) -> bool {
        self.wf()
    }

    fn insert(&mut self, k: Query, v: CacheEntry) -> (r: Option<CacheEntry>) {
        let ghost kv = k@;
        let ghost vv = v@;
        let ghost before = self.items@;
        match self.find(&k) {
            Some(i) => {
                let (_, oldv) = self.items.remove(i);
                self.items.insert(i, (k, v));
                assert(self.items@ =~= before.update(i as int, self.items@[i as int]));
                proof {
                    self.map@ = self.map@.insert(kv, vv);
                    assert forall|q: QueryView| #[trigger] self.map@.contains_key(q) implies exists|j: int|
                        0 <= j < self.items@.len() && #[trigger] self.items@[j].0@ == q by {
                        if q != kv {
                            let j = choose|j: int| 0 <= j < before.len() && #[trigger] before[j].0@ == q;
                            assert(self.items@[j].0@ == q);
                        } else {
                            assert(self.items@[i as int].0@ == q);
                        }
                    }
                }
                Some(oldv)
            },
            None => {
                self.items.push((k, v));
                proof {
                    self.map@ = self.map@.insert(kv, vv);
                    let n = before.len() as int;
                    assert(self.items@[n].0@ == kv);
                    assert forall|q: QueryView| #[trigger] self.map@.contains_key(q) implies exists|j: int|
                        0 <= j < self.items@.len() && #[trigger] self.items@[j].0@ == q by {
                        if q != kv {
                            let j = choose|j: int| 0 <= j < before.len() && #[trigger] before[j].0@ == q;
                            assert(self.items@[j].0@ == q);
                        } else {
                            assert(self.items@[n].0@ == q);
                        }
                    }
                }
                None
            },
        }
    }

    fn remove(&mut self, k: &Query) -> (r: Option<CacheEntry>) {
        let ghost before = self.items@;
        match self.find(k) {
            Some(i) => {
                let (_, v) = self.items.remove(i);
                proof {
                    let ii = i as int;
                    assert(forall|j: int| 0 <= j < ii ==> self.items@[j] == before[j]);
                    assert(forall|j: int| ii <= j < self.items@.len() ==> self.items@[j] == before[j + 1]);
                    self.map@ = self.map@.remove(k@);
                    assert forall|a: int, b: int|
                        0 <= a < b < self.items@.len() implies #[trigger] self.items@[a].0@ != #[trigger] self.items@[b].0@ by {
                        let a0 = if a < ii { a } else { a + 1 };
                        let b0 = if b < ii { b } else { b + 1 };
                        assert(before[a0].0@ != before[b0].0@);
                    }
                    assert forall|j: int| 0 <= j < self.items@.len() implies self.map@.contains_key(
                        #[trigger] self.items@[j].0@,
                    ) && self.map@[self.items@[j].0@] == self.items@[j].1@ by {
                        let j0 = if j < ii { j } else { j + 1 };
                        assert(before[j0].0@ != before[ii].0@);
                    }
                    assert forall|q: QueryView| #[trigger] self.map@.contains_key(q) implies exists|j: int|
                        0 <= j < self.items@.len() && #[trigger] self.items@[j].0@ == q by {
                        let w = choose|w: int| 0 <= w < before.len() && #[trigger] before[w].0@ == q;
                        assert(w != ii);
                        if w < ii {
                            assert(self.items@[w].0@ == q);
                        } else {
                            assert(self.items@[w - 1].0@ == q);
                        }
                    }
                }
                Some(v)
            },
            None => {
                assert(self.map@.remove(k@) =~= self.map@);
                None
            },
        }
    }

    fn get(&mut self, k: &Query) -> (r: Option<&CacheEntry>) {
        match self.find(k) {
            Some(i) => Some(&self.items[i].1),
            None => None,
        }
    }

    fn contains_key(&mut self, k: &Query) -> (r: bool) {
        self.find(k).is_some()
    }
}

} // verus!
