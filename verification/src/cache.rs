//! The cache as threads share it: one engine behind one exclusive lock, every
//! operation stamped with the system clock.
use crate::clock::max_unix_nanos;
use crate::clock::nanos_of;
use crate::clock::secs_to_nanos;
use crate::engine::InnerLocalCache;
use crate::laws::law_found_values_are_held;
use crate::laws::law_values_come_from_puts;
use crate::model::Step;
use std::marker::PhantomData;
use std::sync::Arc;
use vstd::prelude::*;
use vstd::rwlock::RwLock;
use vstd::rwlock::RwLockPredicate;

verus! {

/// What is fixed when a cache is made and holds of its engine whenever the
/// lock is free: the capacity, the time to live, and the rule that says
/// which values may be stored under which key.
#[verifier::reject_recursive_types(T)]
pub struct Settings<T> {
    /// The most entries that the cache holds after an insertion.
    pub capacity: nat,
    /// The time to live of every entry, in nanoseconds.
    pub ttl: nat,
    /// Which values the cache takes under which key.
    pub admits: spec_fn(Seq<char>, Arc<T>) -> bool,
}

impl<T> RwLockPredicate<InnerLocalCache<T>> for Settings<T> {
    /// The engine is well formed, has these settings, holds no value but
    /// what the rule admits under its key, and its time to live can be added
    /// to any reading of the clock.
    open spec fn inv(self, engine: InnerLocalCache<T>) -> bool {
        &&& engine.wf()
        &&& engine@.capacity == self.capacity
        &&& engine@.ttl == self.ttl
        &&& engine@.holds_only(self.admits)
        &&& self.ttl + max_unix_nanos() <= u128::MAX
    }
}

/// A cache of at most `capacity()` entries, each of which goes stale `ttl()`
/// nanoseconds after its insertion, for use from many threads at once.
///
/// Every operation takes the lock, reads the clock, works on the engine and
/// gives the lock back. What two operations see of each other is decided by
/// the order in which they got the lock, so that a caller cannot say what the
/// cache holds when its own operation begins. What it can say is what every
/// operation keeps to: the cache takes a value under a key only where its
/// rule admits the two together, and so hands out no other.
#[verifier::reject_recursive_types(T)]
pub struct LocalCache<T> {
    shared: RwLock<InnerLocalCache<T>, Settings<T>>,
    /// The cache hands shared values to every thread that asks: it may go to
    /// another thread only where such values may.
    values: PhantomData<Arc<T>>,
}

impl<T> LocalCache<T> {
    /// The most entries that the cache holds after an insertion.
    pub closed spec fn capacity(&self) -> nat {
        self.shared.pred().capacity
    }

    /// The time to live of every entry, in nanoseconds.
    pub closed spec fn ttl(&self) -> nat {
        self.shared.pred().ttl
    }

    /// The cache takes `value` under `key`.
    pub closed spec fn admits(&self, key: Seq<char>, value: Arc<T>) -> bool {
        (self.shared.pred().admits)(key, value)
    }

    /// An empty cache for at most `max_numbers` entries, each of which lives
    /// for `max_age_secs` seconds. It takes any value under any key.
    pub fn new(max_numbers: usize, max_age_secs: u64) -> (cache: Self)
        requires
            max_numbers >= 1,
        ensures
            cache.capacity() == max_numbers,
            cache.ttl() == nanos_of(max_age_secs as nat, 0),
            forall|key: Seq<char>, value: Arc<T>| cache.admits(key, value),
    {
        Self::with_rule(max_numbers, max_age_secs, Ghost(|key: Seq<char>, value: Arc<T>| true))
    }

    /// An empty cache for at most `max_numbers` entries, each of which lives
    /// for `max_age_secs` seconds, and which takes a value under a key only
    /// where `rule` admits the two together. The rule is for those who share
    /// the cache: whoever stores has to keep to it, and whoever finds a value
    /// knows that it was kept to.
    pub fn with_rule(
        max_numbers: usize,
        max_age_secs: u64,
        Ghost(rule): Ghost<spec_fn(Seq<char>, Arc<T>) -> bool>,
    ) -> (cache: Self)
        requires
            max_numbers >= 1,
        ensures
            cache.capacity() == max_numbers,
            cache.ttl() == nanos_of(max_age_secs as nat, 0),
            forall|key: Seq<char>, value: Arc<T>| cache.admits(key, value) == rule(key, value),
    {
        let max_age_ns: u128 = secs_to_nanos(max_age_secs);
        let engine = InnerLocalCache::new(max_numbers, max_age_ns);
        let ghost settings = Settings {
            capacity: max_numbers as nat,
            ttl: max_age_ns as nat,
            admits: rule,
        };
        LocalCache { shared: RwLock::new(engine, Ghost(settings)), values: PhantomData }
    }

    /// Looks `key` up at the present time. A value that is not stale is
    /// returned, and its entry becomes the most recently used. Nothing is
    /// found while the clock stands before the Unix epoch.
    ///
    /// Which value is found depends on what the threads that share the cache
    /// have stored before this lookup got the lock. Whatever they did, a
    /// value that is found is one that was stored under `key`, and so one
    /// that the cache takes under `key`.
    pub fn get(&self, key: &String) -> (r: Option<Arc<T>>)
        ensures
            r matches Some(value) ==> self.admits(key@, value),
    {
        let (mut engine, handle) = self.shared.acquire_write();
        let ghost before = engine@;
        let r = engine.get(key);
        proof {
            let rule = self.shared.pred().admits;
            if r is Some {
                let now = choose|now: nat| #[trigger]
                    before.lookup_gives(key@, now, r, engine@) && now <= max_unix_nanos();
                law_found_values_are_held(before, key@, now, rule);
                law_values_come_from_puts(before, Step::Get { key: key@, now }, rule);
            }
        }
        handle.release_write(engine);
        r
    }

    /// Stores `value` under `key` at the present time, in place of an earlier
    /// value of the key. While the clock stands before the Unix epoch nothing
    /// is stored, and the earlier value of the key is dropped.
    pub fn put(&self, key: String, value: Arc<T>)
        requires
            self.admits(key@, value),
    {
        let (mut engine, handle) = self.shared.acquire_write();
        let ghost before = engine@;
        engine.put(key, value);
        proof {
            let rule = self.shared.pred().admits;
            if exists|now: nat| #[trigger]
                before.put_gives(key@, value, now, engine@) && now <= max_unix_nanos() {
                let now = choose|now: nat| #[trigger]
                    before.put_gives(key@, value, now, engine@) && now <= max_unix_nanos();
                law_values_come_from_puts(before, Step::Put { key: key@, value, now }, rule);
            } else {
                law_values_come_from_puts(before, Step::Remove { key: key@ }, rule);
            }
        }
        handle.release_write(engine);
    }
}

} // verus!
