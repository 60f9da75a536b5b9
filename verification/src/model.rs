//! What a cache is, apart from how it is stored: a map from keys to values
//! with their expiry times, and two orders over its keys.
use crate::seqs::in_front;
use crate::seqs::without;
use std::sync::Arc;
use vstd::prelude::*;

verus! {

/// One cached value and the time from which it is stale.
#[verifier::ext_equal]
pub struct Cached<T> {
    /// The shared value.
    pub value: Arc<T>,
    /// The time of insertion plus the time to live.
    pub expires_at: nat,
}

/// The state of a cache.
#[verifier::ext_equal]
pub struct CacheModel<T> {
    /// The most entries that the cache holds after an insertion.
    pub capacity: nat,
    /// The time to live that every entry gets, in nanoseconds.
    pub ttl: nat,
    /// The entries by key.
    pub entries: Map<Seq<char>, Cached<T>>,
    /// The keys in order of use, the most recently used first.
    pub recency: Seq<Seq<char>>,
    /// The keys in order of insertion, the most recently inserted first.
    pub expiry: Seq<Seq<char>>,
}

/// One operation on a cache, with the time at which it happens where the
/// time matters.
pub enum Step<T> {
    /// A lookup of `key` at `now`.
    Get { key: Seq<char>, now: nat },
    /// The storing of `value` under `key` at `now`.
    Put { key: Seq<char>, value: Arc<T>, now: nat },
    /// The removal of `key`.
    Remove { key: Seq<char> },
    /// A sweep at `now`.
    Sweep { now: nat },
}

/// Every operation of `ops` is a lookup.
pub open spec fn only_lookups<T>(ops: Seq<Step<T>>) -> bool {
    forall|i: int| 0 <= i < ops.len() ==> #[trigger] ops[i] is Get
}

impl<T> CacheModel<T> {
    /// The cache that holds nothing.
    pub open spec fn empty(capacity: nat, ttl: nat) -> Self {
        CacheModel {
            capacity,
            ttl,
            entries: Map::empty(),
            recency: Seq::empty(),
            expiry: Seq::empty(),
        }
    }

    /// Both orders list each key of the map once and no other key, and the
    /// map holds no more entries than the capacity, which is at least one.
    pub open spec fn wf(self) -> bool {
        &&& self.capacity >= 1
        &&& self.entries.dom().finite()
        &&& self.entries.len() <= self.capacity
        &&& self.recency.no_duplicates()
        &&& self.expiry.no_duplicates()
        &&& self.recency.to_set() == self.entries.dom()
        &&& self.expiry.to_set() == self.entries.dom()
    }

    /// Every value that the cache holds is one that `rule` admits under the
    /// key it is held under.
    pub open spec fn holds_only(self, rule: spec_fn(Seq<char>, Arc<T>) -> bool) -> bool {
        forall|key: Seq<char>| #[trigger]
            self.entries.contains_key(key) ==> rule(key, self.entries[key].value)
    }

    /// The number of entries.
    pub open spec fn len(self) -> nat {
        self.entries.len()
    }

    /// The key has an entry, and at `now` that entry is not yet past its
    /// expiry time.
    pub open spec fn live(self, key: Seq<char>, now: nat) -> bool {
        self.entries.contains_key(key) && now <= self.entries[key].expires_at
    }

    /// What a lookup of `key` at `now` returns.
    pub open spec fn lookup(self, key: Seq<char>, now: nat) -> Option<Arc<T>> {
        if self.live(key, now) {
            Some(self.entries[key].value)
        } else {
            None
        }
    }

    /// The state after a lookup of `key` at `now`: a live entry becomes the
    /// most recently used, and nothing else changes.
    pub open spec fn touch(self, key: Seq<char>, now: nat) -> Self {
        if self.live(key, now) {
            CacheModel { recency: in_front(key, without(self.recency, key)), ..self }
        } else {
            self
        }
    }

    /// A lookup of `key` at `now` returns `found` and leaves the state
    /// `after`.
    pub open spec fn lookup_gives(
        self,
        key: Seq<char>,
        now: nat,
        found: Option<Arc<T>>,
        after: Self,
    ) -> bool {
        found == self.lookup(key, now) && after == self.touch(key, now)
    }

    /// The state without the entry of `key`.
    pub open spec fn remove(self, key: Seq<char>) -> Self {
        CacheModel {
            entries: self.entries.remove(key),
            recency: without(self.recency, key),
            expiry: without(self.expiry, key),
            ..self
        }
    }

    /// The entry that was inserted longest ago is stale at `now`.
    pub open spec fn oldest_is_stale(self, now: nat) -> bool {
        self.expiry.len() > 0 && self.entries[self.expiry.last()].expires_at <= now
    }

    /// The state after entries have been removed from the old end of the
    /// insertion order for as long as the entry at that end is stale.
    pub open spec fn drop_expired(self, now: nat) -> Self
        decreases self.expiry.len(),
        via Self::drop_expired_decreases
    {
        if self.oldest_is_stale(now) {
            self.remove(self.expiry.last()).drop_expired(now)
        } else {
            self
        }
    }

    #[via_fn]
    proof fn drop_expired_decreases(self, now: nat) {
        if self.oldest_is_stale(now) {
            let last = self.expiry.last();
            assert(self.expiry[self.expiry.len() - 1] == last);
            assert(self.expiry.contains(last));
            let p = self.expiry.index_of(last);
            assert(0 <= p < self.expiry.len());
        }
    }

    /// The cache has no room for one more entry, and has an entry to give
    /// up.
    pub open spec fn is_full(self) -> bool {
        self.recency.len() > 0 && self.entries.len() >= self.capacity
    }

    /// The state after the least recently used entries have been removed for
    /// as long as the cache has no room for one more.
    pub open spec fn make_room(self) -> Self
        decreases self.recency.len(),
        via Self::make_room_decreases
    {
        if self.is_full() {
            self.remove(self.recency.last()).make_room()
        } else {
            self
        }
    }

    #[via_fn]
    proof fn make_room_decreases(self) {
        if self.is_full() {
            let last = self.recency.last();
            assert(self.recency[self.recency.len() - 1] == last);
            assert(self.recency.contains(last));
            let p = self.recency.index_of(last);
            assert(0 <= p < self.recency.len());
        }
    }

    /// The state after the sweep that precedes an insertion. A cache with
    /// room is left alone. In a full one the stale entries at the old end of
    /// the insertion order go first; only if that made no room, the least
    /// recently used entry goes.
    pub open spec fn sweep(self, now: nat) -> Self {
        if self.entries.len() < self.capacity {
            self
        } else {
            self.drop_expired(now).make_room()
        }
    }

    /// The state with a new entry for `key` put at the head of both orders.
    pub open spec fn insert_fresh(self, key: Seq<char>, value: Arc<T>, expires_at: nat) -> Self {
        CacheModel {
            entries: self.entries.insert(key, Cached { value, expires_at }),
            recency: in_front(key, self.recency),
            expiry: in_front(key, self.expiry),
            ..self
        }
    }

    /// The state after `value` has been stored under `key` at `now`: an
    /// earlier entry of the key is removed, the sweep makes room, and the new
    /// entry, which expires at `now + ttl`, becomes the head of both orders.
    pub open spec fn put(self, key: Seq<char>, value: Arc<T>, now: nat) -> Self {
        self.remove(key).sweep(now).insert_fresh(key, value, now + self.ttl)
    }

    /// The state after one operation.
    pub open spec fn step(self, op: Step<T>) -> Self {
        match op {
            Step::Get { key, now } => self.touch(key, now),
            Step::Put { key, value, now } => self.put(key, value, now),
            Step::Remove { key } => self.remove(key),
            Step::Sweep { now } => self.sweep(now),
        }
    }

    /// The state after the operations of `ops`, one after the other.
    pub open spec fn run(self, ops: Seq<Step<T>>) -> Self
        decreases ops.len(),
    {
        if ops.len() == 0 {
            self
        } else {
            self.run(ops.drop_last()).step(ops.last())
        }
    }

    /// Storing `value` under `key` at `now` leaves the state `after`.
    pub open spec fn put_gives(self, key: Seq<char>, value: Arc<T>, now: nat, after: Self) -> bool {
        after == self.put(key, value, now)
    }
}

} // verus!
