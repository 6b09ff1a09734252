//! A bounded cache of kanji keyed by id: lookups first take what is cached
//! and name what is missing; new entries evict the oldest once the capacity
//! is reached.
use vstd::prelude::*;
use crate::kanji::Kanji;

verus! {

/// Cached kanji, oldest first.
pub struct KanjiCache {
    pub capacity: usize,
    pub entries: Vec<Kanji>,
}

pub open spec fn ids_of(s: Seq<Kanji>) -> Seq<i32> {
    s.map_values(|k: Kanji| k.id)
}

/// The ids of `ids` that are not among `cached`, in order.
pub open spec fn missing(ids: Seq<i32>, cached: Seq<i32>) -> Seq<i32>
    decreases ids.len(),
{
    if ids.len() == 0 {
        Seq::empty()
    } else if cached.contains(ids.last()) {
        missing(ids.drop_last(), cached)
    } else {
        missing(ids.drop_last(), cached).push(ids.last())
    }
}

impl KanjiCache {
    pub open spec fn wf(&self) -> bool {
        self.capacity > 0 && self.entries@.len() <= self.capacity
    }

    /// An empty cache holding at most `capacity` kanji.
    pub fn with_capacity(capacity: usize) -> (r: Self)
        requires
            capacity > 0,
        ensures
            r.wf(),
            r.capacity == capacity,
            r.entries@.len() == 0,
    {
        KanjiCache { capacity, entries: Vec::new() }
    }

    /// Whether a kanji with id `id` is cached.
    pub fn contains_id(&self, id: i32) -> (r: bool)
        ensures
            r == ids_of(self.entries@).contains(id),
    {
        let mut i: usize = 0;
        while i < self.entries.len()
            invariant
                i <= self.entries@.len(),
                forall|j: int| 0 <= j < i ==> self.entries@[j].id != id,
            decreases self.entries@.len() - i,
        {
            if self.entries[i].id == id {
                assert(ids_of(self.entries@)[i as int] == id);
                return true;
            }
            i += 1;
        }
        proof {
            if ids_of(self.entries@).contains(id) {
                let j = choose|j: int| 0 <= j < ids_of(self.entries@).len() && ids_of(self.entries@)[j] == id;
                assert(self.entries@[j].id == id);
            }
        }
        false
    }

    /// The ids of `ids` that still have to be looked up, in order.
    pub fn missing_ids(&self, ids: &Vec<i32>) -> (r: Vec<i32>)
        ensures
            r@ == missing(ids@, ids_of(self.entries@)),
    {
        let mut out: Vec<i32> = Vec::new();
        let mut i: usize = 0;
        while i < ids.len()
            invariant
                i <= ids@.len(),
                out@ == missing(ids@.subrange(0, i as int), ids_of(self.entries@)),
            decreases ids@.len() - i,
        {
            assert(ids@.subrange(0, i + 1).drop_last() =~= ids@.subrange(0, i as int));
            if !self.contains_id(ids[i]) {
                out.push(ids[i]);
            }
            i += 1;
        }
        assert(ids@.subrange(0, ids@.len() as int) =~= ids@);
        out
    }

    /// Adds a kanji; the oldest one leaves when the cache is full.
    pub fn insert(&mut self, k: Kanji)
        requires
            old(self).wf(),
        ensures
            final(self).wf(),
            final(self).capacity == old(self).capacity,
            final(self).entries@ == insert_one(old(self).entries@, k, old(self).capacity as nat),
    {
        if self.entries.len() == self.capacity {
            let ghost before = self.entries@;
            self.entries.remove(0);
            assert(self.entries@ =~= before.drop_first());
        }
        self.entries.push(k);
    }

    /// Adds all `items` in order.
    pub fn extend(&mut self, items: Vec<Kanji>)
        requires
            old(self).wf(),
        ensures
            final(self).wf(),
            final(self).capacity == old(self).capacity,
            final(self).entries@ == after_inserts(old(self).entries@, items@, old(self).capacity as nat),
    {
        let mut rest = items;
        let ghost goal = after_inserts(self.entries@, rest@, self.capacity as nat);
        while rest.len() > 0
            invariant
                self.wf(),
                self.capacity == old(self).capacity,
                after_inserts(self.entries@, rest@, self.capacity as nat) == goal,
            decreases rest@.len(),
        {
            let ghost before = rest@;
            let k = rest.remove(0);
            assert(before.drop_first() =~= rest@);
            self.insert(k);
        }
    }
}

/// `e` after `k` is inserted into a cache of capacity `cap`.
pub open spec fn insert_one(e: Seq<Kanji>, k: Kanji, cap: nat) -> Seq<Kanji> {
    if e.len() < cap {
        e.push(k)
    } else {
        e.drop_first().push(k)
    }
}

/// `e` after `items` are inserted in order.
pub open spec fn after_inserts(e: Seq<Kanji>, items: Seq<Kanji>, cap: nat) -> Seq<Kanji>
    decreases items.len(),
{
    if items.len() == 0 {
        e
    } else {
        after_inserts(insert_one(e, items[0], cap), items.drop_first(), cap)
    }
}

} // verus!
