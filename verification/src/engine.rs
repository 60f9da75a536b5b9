//! The cache engine: entries in a table of slots, a key index into the table,
//! and two lists that thread the occupied slots, one in order of use and one
//! in order of insertion.
use crate::clock::max_unix_nanos;
use crate::clock::unix_nanos;
use crate::index_list::IndexList;
use crate::laws::lemma_sweep_shrinks;
use crate::model::CacheModel;
use crate::model::Cached;
use crate::seqs::lemma_without;
use crate::store::key_of;
use crate::store::lemma_attach;
use crate::store::lemma_detach;
use crate::store::lemma_grow;
use crate::store::lemma_keys;
use crate::store::lemma_model_wf;
use crate::store::lemma_orders_live;
use crate::store::lemma_promote;
use crate::store::live;
use crate::store::Entry;
use crate::store::Store;
use std::sync::Arc;
use vstd::hash_map::StringHashMap;
use vstd::prelude::*;

verus! {

/// A cache of at most `capacity` entries that go stale a fixed time after
/// their insertion, for one owner at a time.
///
/// The operations that depend on the time come in two forms. `get_at`,
/// `put_at` and `clean` take the time as an argument, in nanoseconds, and
/// say exactly what they do with it. `get` and `put` read the system clock
/// and then do what `get_at` and `put_at` do at the time they have read.
pub struct InnerLocalCache<T> {
    max_numbers: usize,
    max_age_ns: u128,
    slots: Vec<Option<Entry<T>>>,
    free: Vec<usize>,
    lru: IndexList,
    exp: IndexList,
    map: StringHashMap<usize>,
}

impl<T> View for InnerLocalCache<T> {
    type V = CacheModel<T>;

    /// The cache that the engine holds.
    closed spec fn view(&self) -> CacheModel<T> {
        self.store().model(self.max_numbers as nat, self.max_age_ns as nat)
    }
}

impl<T> InnerLocalCache<T> {
    /// The parts of the engine, as values.
    spec fn store(&self) -> Store<T> {
        Store {
            slots: self.slots@,
            lru: self.lru@,
            exp: self.exp@,
            free: self.free@,
            map: self.map@,
        }
    }

    /// The table, the two lists and the index agree with each other, and the
    /// engine has no more entries than its capacity, which is at least one,
    /// and no more slots either.
    pub closed spec fn wf(&self) -> bool {
        &&& self.max_numbers >= 1
        &&& self.lru.wf()
        &&& self.exp.wf()
        &&& self.lru.slots() == self.slots@.len()
        &&& self.exp.slots() == self.slots@.len()
        &&& self.store().consistent()
        &&& self.lru@.len() <= self.max_numbers
        &&& self.slots@.len() <= self.max_numbers
    }

    /// How many slots the table has, occupied or free.
    pub closed spec fn slots(&self) -> nat {
        self.slots@.len()
    }

    /// A well-formed engine holds a well-formed cache.
    pub proof fn lemma_view_wf(&self)
        requires
            self.wf(),
        ensures
            self@.wf(),
    {
        lemma_model_wf(self.store(), self.max_numbers as nat, self.max_age_ns as nat);
    }

    /// An empty cache for at most `max_numbers` entries, each of which lives
    /// for `max_age_ns` nanoseconds.
    pub fn new(max_numbers: usize, max_age_ns: u128) -> (cache: Self)
        requires
            max_numbers >= 1,
        ensures
            cache.wf(),
            cache@ == CacheModel::<T>::empty(max_numbers as nat, max_age_ns as nat),
    {
        let cache = InnerLocalCache {
            max_numbers,
            max_age_ns,
            slots: Vec::new(),
            free: Vec::new(),
            lru: IndexList::new(),
            exp: IndexList::new(),
            map: StringHashMap::new(),
        };
        proof {
            let m = cache@;
            assert(m.entries =~= Map::<Seq<char>, Cached<T>>::empty());
            assert(m.recency =~= Seq::<Seq<char>>::empty());
            assert(m.expiry =~= Seq::<Seq<char>>::empty());
            assert(m =~= CacheModel::<T>::empty(max_numbers as nat, max_age_ns as nat));
        }
        cache
    }

    /// The most entries that the cache holds after an insertion.
    pub fn capacity(&self) -> (n: usize)
        ensures
            n == self@.capacity,
    {
        self.max_numbers
    }

    /// The time to live of every entry, in nanoseconds.
    pub fn ttl_ns(&self) -> (ns: u128)
        ensures
            ns == self@.ttl,
    {
        self.max_age_ns
    }

    /// The number of places for entries that the engine has made so far. It
    /// makes one only when an entry comes in and none is free, so that there
    /// are never more places than the capacity allows entries.
    pub fn allocated(&self) -> (n: usize)
        requires
            self.wf(),
        ensures
            n == self.slots(),
            self@.len() <= n <= self@.capacity,
    {
        proof {
            lemma_model_wf(self.store(), self.max_numbers as nat, self.max_age_ns as nat);
        }
        self.slots.len()
    }

    /// The number of entries that the cache holds, stale ones included.
    pub fn len(&self) -> (n: usize)
        requires
            self.wf(),
        ensures
            n == self@.len(),
    {
        proof {
            lemma_model_wf(self.store(), self.max_numbers as nat, self.max_age_ns as nat);
        }
        self.map.len()
    }

    /// The slot that the index has for `key`, if any.
    fn slot_of(&self, key: &String) -> (r: Option<usize>)
        requires
            self.wf(),
        ensures
            r == (if self.map@.contains_key(key@) {
                Some(self.map@[key@])
            } else {
                None
            }),
            r matches Some(i) ==> live(self.slots@, i) && key_of(self.slots@, i) == key@,
    {
        match self.map.get(key.as_str()) {
            Some(i) => Some(*i),
            None => None,
        }
    }

    /// Takes the entry of slot `i` out of the index, out of both lists and
    /// out of the table, and leaves the slot for reuse.
    fn detach(&mut self, i: usize)
        requires
            old(self).wf(),
            live(old(self).slots@, i),
        ensures
            final(self).wf(),
            final(self)@ == old(self)@.remove(key_of(old(self).slots@, i)),
            final(self).lru@.len() == old(self).lru@.len() - 1,
            final(self).exp@.len() == old(self).exp@.len() - 1,
    {
        proof {
            lemma_detach(self.store(), self.max_numbers as nat, self.max_age_ns as nat, i);
        }
        self.lru.unlink(i);
        self.exp.unlink(i);
        match &self.slots[i] {
            Some(entry) => {
                self.map.remove(entry.key.as_str());
            },
            None => {},
        }
        self.slots.set(i, None);
        self.free.push(i);
        proof {
            assert(self.store() =~= old(self).store().detached(i));
        }
    }

    /// Looks `key` up at the time `now`. An entry that is not stale becomes
    /// the most recently used and its value is returned. A stale entry is
    /// left where it is and counts as absent.
    pub fn get_at(&mut self, key: &String, now: u128) -> (r: Option<Arc<T>>)
        requires
            old(self).wf(),
        ensures
            final(self).wf(),
            r == old(self)@.lookup(key@, now as nat),
            final(self)@ == old(self)@.touch(key@, now as nat),
    {
        match self.slot_of(key) {
            None => None,
            Some(i) => {
                let hit = match &self.slots[i] {
                    Some(entry) => {
                        if now > entry.exp {
                            None
                        } else {
                            Some(entry.value.clone())
                        }
                    },
                    None => None,
                };
                if hit.is_some() {
                    proof {
                        lemma_promote(
                            self.store(),
                            self.max_numbers as nat,
                            self.max_age_ns as nat,
                            i,
                        );
                    }
                    self.lru.push_front(i);
                    proof {
                        assert(self.store() =~= old(self).store().promoted(i));
                    }
                }
                hit
            },
        }
    }

    /// Removes the entry of `key`, if there is one.
    pub fn remove(&mut self, key: &String)
        requires
            old(self).wf(),
        ensures
            final(self).wf(),
            final(self)@ == old(self)@.remove(key@),
    {
        match self.slot_of(key) {
            Some(i) => {
                self.detach(i);
            },
            None => {
                proof {
                    let m = self@;
                    self.lemma_view_wf();
                    assert(!m.entries.dom().contains(key@));
                    assert(!m.recency.to_set().contains(key@));
                    assert(!m.expiry.to_set().contains(key@));
                    assert(m.entries.remove(key@) =~= m.entries);
                    assert(m.remove(key@) =~= m);
                }
            },
        }
    }

    /// The slot at the old end of the order of insertion, if its entry is
    /// stale at `now`.
    fn oldest_stale(&self, now: u128) -> (r: Option<usize>)
        requires
            self.wf(),
        ensures
            match r {
                Some(i) => live(self.slots@, i) && self@.oldest_is_stale(now as nat) && key_of(
                    self.slots@,
                    i,
                ) == self@.expiry.last(),
                None => !self@.oldest_is_stale(now as nat),
            },
    {
        proof {
            lemma_orders_live(self.store());
            lemma_keys(self.store(), self.exp@);
        }
        match self.exp.tail() {
            Some(i) => {
                assert(live(self.slots@, self.exp@[self.exp@.len() - 1]));
                match &self.slots[i] {
                    Some(entry) => {
                        if entry.exp <= now {
                            Some(i)
                        } else {
                            None
                        }
                    },
                    None => None,
                }
            },
            None => None,
        }
    }

    /// The sweep that precedes an insertion. A cache with room is left
    /// alone. Otherwise entries are removed from the old end of the order of
    /// insertion while the entry there is stale at `now`, and then, while
    /// there is still no room, from the old end of the order of use.
    pub fn clean(&mut self, now: u128)
        requires
            old(self).wf(),
        ensures
            final(self).wf(),
            final(self)@ == old(self)@.sweep(now as nat),
            final(self)@.len() < final(self)@.capacity,
            final(self)@.capacity == old(self)@.capacity,
            final(self)@.ttl == old(self)@.ttl,
    {
        proof {
            lemma_model_wf(self.store(), self.max_numbers as nat, self.max_age_ns as nat);
        }
        if self.map.len() < self.max_numbers {
            return ;
        }
        loop
            invariant
                self.wf(),
                self.max_numbers == old(self).max_numbers,
                self@.drop_expired(now as nat) == old(self)@.drop_expired(now as nat),
            ensures
                !self@.oldest_is_stale(now as nat),
            decreases self.exp@.len(),
        {
            match self.oldest_stale(now) {
                Some(i) => {
                    self.detach(i);
                },
                None => {
                    break ;
                },
            }
        }
        let ghost swept = self@;
        loop
            invariant
                self.wf(),
                self.max_numbers == old(self).max_numbers,
                self@.make_room() == swept.make_room(),
            ensures
                !self@.is_full(),
            decreases self.lru@.len(),
        {
            proof {
                lemma_model_wf(self.store(), self.max_numbers as nat, self.max_age_ns as nat);
                lemma_orders_live(self.store());
                lemma_keys(self.store(), self.lru@);
            }
            if self.map.len() < self.max_numbers {
                break ;
            }
            match self.lru.tail() {
                Some(i) => {
                    assert(live(self.slots@, self.lru@[self.lru@.len() - 1]));
                    assert(self@.is_full());
                    self.detach(i);
                },
                None => {
                    break ;
                },
            }
        }
        proof {
            lemma_model_wf(self.store(), self.max_numbers as nat, self.max_age_ns as nat);
            lemma_sweep_shrinks(old(self)@, now as nat);
        }
    }

    /// Sees to it that a slot is free: if no entry has left one behind, the
    /// table and both lists get one more.
    fn make_vacancy(&mut self)
        requires
            old(self).wf(),
            old(self).lru@.len() < old(self).max_numbers,
        ensures
            final(self).wf(),
            final(self)@ == old(self)@,
            final(self).lru@ == old(self).lru@,
            final(self).free@.len() > 0,
    {
        if self.free.len() == 0 {
            proof {
                lemma_grow(self.store(), self.max_numbers as nat, self.max_age_ns as nat);
            }
            let fresh: usize = self.slots.len();
            self.slots.push(None);
            self.lru.add_slot();
            self.exp.add_slot();
            self.free.push(fresh);
            proof {
                assert(self.store() =~= old(self).store().grown());
            }
        }
    }

    /// Stores `value` under `key` at the time `now`. An earlier entry of the
    /// key is removed first and the sweep makes room; the new entry expires
    /// at `now` plus the time to live and is the head of both orders.
    pub fn put_at(&mut self, key: String, value: Arc<T>, now: u128)
        requires
            old(self).wf(),
            now + old(self)@.ttl <= u128::MAX,
        ensures
            final(self).wf(),
            final(self)@ == old(self)@.put(key@, value, now as nat),
            final(self)@.len() <= final(self)@.capacity,
            final(self)@.capacity == old(self)@.capacity,
            final(self)@.ttl == old(self)@.ttl,
    {
        self.remove(&key);
        self.clean(now);
        proof {
            lemma_sweep_shrinks(old(self)@.remove(key@), now as nat);
            lemma_model_wf(self.store(), self.max_numbers as nat, self.max_age_ns as nat);
        }
        let exp: u128 = now + self.max_age_ns;
        self.make_vacancy();
        let index_key = key.clone();
        let ghost before = self.store();
        let ghost entry = Entry { key, value, exp };
        proof {
            lemma_model_wf(before, self.max_numbers as nat, self.max_age_ns as nat);
            assert(!before.map.contains_key(key@)) by {
                assert(!old(self)@.remove(key@).entries.contains_key(key@));
            }
            lemma_attach(before, self.max_numbers as nat, self.max_age_ns as nat, entry);
            lemma_without(before.lru, before.free.last());
            lemma_without(before.exp, before.free.last());
        }
        let i: usize = self.free[self.free.len() - 1];
        self.free.pop();
        self.slots.set(i, Some(Entry { key, value, exp }));
        self.map.insert(index_key, i);
        self.lru.push_front(i);
        self.exp.push_front(i);
        proof {
            assert(self.store() =~= before.attached(entry));
            lemma_model_wf(self.store(), self.max_numbers as nat, self.max_age_ns as nat);
        }
    }

    /// Looks `key` up at the time that the system clock shows.
    ///
    /// The outcome is that of [`Self::get_at`] at some time that the clock can
    /// show. While the clock stands before the Unix epoch nothing is found
    /// and nothing changes.
    pub fn get(&mut self, key: &String) -> (r: Option<Arc<T>>)
        requires
            old(self).wf(),
        ensures
            final(self).wf(),
            (exists|now: nat| #[trigger]
                old(self)@.lookup_gives(key@, now, r, final(self)@) && now <= max_unix_nanos()) || (r
                is None && final(self)@ == old(self)@),
    {
        match unix_nanos() {
            Some(now) => {
                let r = self.get_at(key, now);
                assert(old(self)@.lookup_gives(key@, now as nat, r, self@));
                r
            },
            None => None,
        }
    }

    /// Stores `value` under `key` at the time that the system clock shows.
    ///
    /// The outcome is that of [`Self::put_at`] at some time that the clock can
    /// show. While the clock stands before the Unix epoch the value is not
    /// stored, and an earlier entry of the key is removed, so that no lookup
    /// finds a value that has been replaced.
    pub fn put(&mut self, key: String, value: Arc<T>)
        requires
            old(self).wf(),
            old(self)@.ttl + max_unix_nanos() <= u128::MAX,
        ensures
            final(self).wf(),
            (exists|now: nat| #[trigger]
                old(self)@.put_gives(key@, value, now, final(self)@) && now <= max_unix_nanos())
                || final(self)@ == old(self)@.remove(key@),
            final(self)@.capacity == old(self)@.capacity,
            final(self)@.ttl == old(self)@.ttl,
    {
        match unix_nanos() {
            Some(now) => {
                self.put_at(key, value, now);
                assert(old(self)@.put_gives(key@, value, now as nat, self@));
            },
            None => {
                self.remove(&key);
            },
        }
    }
}

} // verus!
