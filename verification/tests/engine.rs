use local_cache::InnerLocalCache;
use std::sync::Arc;

const SEC: u128 = 1_000_000_000;

fn key(s: &str) -> String {
    String::from(s)
}

fn val(s: &str) -> Arc<String> {
    Arc::new(String::from(s))
}

fn text(found: Option<Arc<String>>) -> Option<String> {
    found.map(|v| (*v).clone())
}

#[test]
fn empty_cache_finds_nothing() {
    let mut cache: InnerLocalCache<String> = InnerLocalCache::new(1, 360 * SEC);
    assert_eq!(None, cache.get_at(&key("x"), 5));
    assert_eq!(0, cache.len());
    assert_eq!(1, cache.capacity());
    assert_eq!(360_000_000_000, cache.ttl_ns());
}

#[test]
fn stored_value_is_found() {
    let mut cache: InnerLocalCache<String> = InnerLocalCache::new(1, 360 * SEC);
    cache.put_at(key("x"), val("abc"), 10);
    assert_eq!(Some(String::from("abc")), text(cache.get_at(&key("x"), 11)));
    assert_eq!(1, cache.len());
}

#[test]
fn overwrite_leaves_one_entry() {
    let mut cache: InnerLocalCache<String> = InnerLocalCache::new(1, 360 * SEC);
    cache.put_at(key("x"), val("abc"), 10);
    cache.put_at(key("x"), val("abc"), 20);
    assert_eq!(Some(String::from("abc")), text(cache.get_at(&key("x"), 21)));
    assert_eq!(1, cache.len());
}

#[test]
fn capacity_of_one_keeps_the_newest_key() {
    let mut cache: InnerLocalCache<String> = InnerLocalCache::new(1, 360 * SEC);
    cache.put_at(key("x"), val("abc"), 10);
    assert_eq!(None, cache.get_at(&key("y"), 11));
    cache.put_at(key("y"), val("123"), 12);
    assert_eq!(Some(String::from("123")), text(cache.get_at(&key("y"), 13)));
    assert_eq!(None, cache.get_at(&key("x"), 14));
    assert_eq!(1, cache.len());
}

#[test]
fn value_lives_up_to_its_expiry_time_and_no_longer() {
    let ttl = 360 * SEC;
    let stored_at = 1_000;
    let mut cache: InnerLocalCache<String> = InnerLocalCache::new(4, ttl);
    cache.put_at(key("x"), val("abc"), stored_at);
    assert_eq!(Some(String::from("abc")), text(cache.get_at(&key("x"), stored_at)));
    assert_eq!(Some(String::from("abc")), text(cache.get_at(&key("x"), stored_at + ttl - 1)));
    assert_eq!(Some(String::from("abc")), text(cache.get_at(&key("x"), stored_at + ttl)));
    assert_eq!(None, cache.get_at(&key("x"), stored_at + ttl + 1));
    assert_eq!(None, cache.get_at(&key("x"), stored_at + 2 * ttl));
}

#[test]
fn zero_time_to_live_is_live_only_at_the_instant_of_insertion() {
    let mut cache: InnerLocalCache<String> = InnerLocalCache::new(2, 0);
    cache.put_at(key("x"), val("abc"), 77);
    assert_eq!(Some(String::from("abc")), text(cache.get_at(&key("x"), 77)));
    assert_eq!(None, cache.get_at(&key("x"), 78));
}

#[test]
fn stale_entry_stays_until_a_sweep() {
    let mut cache: InnerLocalCache<String> = InnerLocalCache::new(2, 10);
    cache.put_at(key("x"), val("abc"), 0);
    assert_eq!(None, cache.get_at(&key("x"), 11));
    assert_eq!(1, cache.len());
    // The cache has room, so an insertion does not sweep either.
    cache.put_at(key("y"), val("123"), 12);
    assert_eq!(2, cache.len());
    // Now it is full: the next new key sweeps the stale entry out.
    cache.put_at(key("z"), val("789"), 13);
    assert_eq!(2, cache.len());
    assert_eq!(Some(String::from("123")), text(cache.get_at(&key("y"), 14)));
    assert_eq!(Some(String::from("789")), text(cache.get_at(&key("z"), 14)));
}

#[test]
fn least_recently_used_entry_leaves_first() {
    let mut cache: InnerLocalCache<String> = InnerLocalCache::new(3, 360 * SEC);
    cache.put_at(key("a"), val("1"), 1);
    cache.put_at(key("b"), val("2"), 2);
    cache.put_at(key("c"), val("3"), 3);
    // Order of use, newest first: c b a. Reading a makes it: a c b.
    assert_eq!(Some(String::from("1")), text(cache.get_at(&key("a"), 4)));
    cache.put_at(key("d"), val("4"), 5);
    assert_eq!(3, cache.len());
    assert_eq!(None, cache.get_at(&key("b"), 6));
    assert_eq!(Some(String::from("1")), text(cache.get_at(&key("a"), 6)));
    assert_eq!(Some(String::from("3")), text(cache.get_at(&key("c"), 6)));
    assert_eq!(Some(String::from("4")), text(cache.get_at(&key("d"), 6)));
    // Order of use is now d c a ... after the three reads: d c a -> a, c, d read
    // in that order gives d c a; the next new key pushes out a.
    cache.put_at(key("e"), val("5"), 7);
    assert_eq!(None, cache.get_at(&key("a"), 8));
    assert_eq!(Some(String::from("3")), text(cache.get_at(&key("c"), 8)));
    assert_eq!(Some(String::from("4")), text(cache.get_at(&key("d"), 8)));
    assert_eq!(Some(String::from("5")), text(cache.get_at(&key("e"), 8)));
}

#[test]
fn stale_entries_leave_before_live_ones_whatever_was_read_last() {
    let ttl = 100;
    let mut cache: InnerLocalCache<String> = InnerLocalCache::new(2, ttl);
    cache.put_at(key("a"), val("1"), 0);
    cache.put_at(key("b"), val("2"), 50);
    // a is read again and again, which makes b the least recently used.
    assert_eq!(Some(String::from("1")), text(cache.get_at(&key("a"), 60)));
    assert_eq!(Some(String::from("1")), text(cache.get_at(&key("a"), 70)));
    assert_eq!(Some(String::from("1")), text(cache.get_at(&key("a"), 100)));
    // At 101 a is stale and b is not: a goes, b stays.
    cache.put_at(key("c"), val("3"), 101);
    assert_eq!(2, cache.len());
    assert_eq!(None, cache.get_at(&key("a"), 102));
    assert_eq!(Some(String::from("2")), text(cache.get_at(&key("b"), 102)));
    assert_eq!(Some(String::from("3")), text(cache.get_at(&key("c"), 102)));
}

#[test]
fn sweep_takes_every_stale_entry_at_the_old_end() {
    let mut cache: InnerLocalCache<String> = InnerLocalCache::new(3, 10);
    cache.put_at(key("a"), val("1"), 0);
    cache.put_at(key("b"), val("2"), 1);
    cache.put_at(key("c"), val("3"), 2);
    assert_eq!(3, cache.len());
    cache.put_at(key("d"), val("4"), 100);
    assert_eq!(1, cache.len());
    assert_eq!(Some(String::from("4")), text(cache.get_at(&key("d"), 100)));
    assert_eq!(None, cache.get_at(&key("a"), 100));
    assert_eq!(None, cache.get_at(&key("b"), 100));
    assert_eq!(None, cache.get_at(&key("c"), 100));
}

#[test]
fn sweep_stops_at_the_first_entry_that_is_not_stale() {
    // The clock steps back between the two insertions, so that the entry
    // inserted first expires last.
    let ttl = 100;
    let mut cache: InnerLocalCache<String> = InnerLocalCache::new(2, ttl);
    cache.put_at(key("a"), val("1"), 500);
    cache.put_at(key("b"), val("2"), 0);
    // At 200 b is stale and a is not. a stands at the old end of the order
    // of insertion, so nothing is dropped for staleness; a leaves as the
    // least recently used.
    cache.put_at(key("c"), val("3"), 200);
    assert_eq!(2, cache.len());
    assert_eq!(None, cache.get_at(&key("a"), 200));
    assert_eq!(None, cache.get_at(&key("b"), 200));
    assert_eq!(Some(String::from("2")), text(cache.get_at(&key("b"), 100)));
    assert_eq!(Some(String::from("3")), text(cache.get_at(&key("c"), 200)));
}

#[test]
fn clean_leaves_a_cache_with_room_alone() {
    let mut cache: InnerLocalCache<String> = InnerLocalCache::new(3, 10);
    cache.put_at(key("a"), val("1"), 0);
    cache.put_at(key("b"), val("2"), 1);
    cache.clean(1_000);
    assert_eq!(2, cache.len());
}

#[test]
fn clean_makes_room_in_a_full_cache() {
    let mut cache: InnerLocalCache<String> = InnerLocalCache::new(2, 10);
    cache.put_at(key("a"), val("1"), 0);
    cache.put_at(key("b"), val("2"), 1);
    // Nothing is stale at 5: the least recently used entry goes.
    cache.clean(5);
    assert_eq!(1, cache.len());
    assert_eq!(None, cache.get_at(&key("a"), 5));
    assert_eq!(Some(String::from("2")), text(cache.get_at(&key("b"), 5)));
    cache.put_at(key("c"), val("3"), 6);
    // Both are stale at 1000: both go.
    cache.clean(1_000);
    assert_eq!(0, cache.len());
}

#[test]
fn overwrite_resets_value_expiry_and_use() {
    let ttl = 100;
    let mut cache: InnerLocalCache<String> = InnerLocalCache::new(2, ttl);
    cache.put_at(key("x"), val("old"), 0);
    cache.put_at(key("y"), val("other"), 1);
    cache.put_at(key("x"), val("new"), 90);
    assert_eq!(2, cache.len());
    // Past the first expiry time, within the second.
    assert_eq!(Some(String::from("new")), text(cache.get_at(&key("x"), 150)));
    assert_eq!(Some(String::from("new")), text(cache.get_at(&key("x"), 190)));
    assert_eq!(None, cache.get_at(&key("x"), 191));
    // x was inserted last, so y stands at the old end of both orders.
    let mut cache: InnerLocalCache<String> = InnerLocalCache::new(2, ttl);
    cache.put_at(key("x"), val("old"), 0);
    cache.put_at(key("y"), val("other"), 1);
    cache.put_at(key("x"), val("new"), 2);
    cache.put_at(key("z"), val("third"), 3);
    assert_eq!(None, cache.get_at(&key("y"), 4));
    assert_eq!(Some(String::from("new")), text(cache.get_at(&key("x"), 4)));
    assert_eq!(Some(String::from("third")), text(cache.get_at(&key("z"), 4)));
}

#[test]
fn remove_takes_one_key_out() {
    let mut cache: InnerLocalCache<String> = InnerLocalCache::new(3, 360 * SEC);
    cache.put_at(key("a"), val("1"), 1);
    cache.put_at(key("b"), val("2"), 2);
    cache.put_at(key("c"), val("3"), 3);
    cache.remove(&key("b"));
    assert_eq!(2, cache.len());
    assert_eq!(None, cache.get_at(&key("b"), 4));
    cache.remove(&key("b"));
    cache.remove(&key("nowhere"));
    assert_eq!(2, cache.len());
    assert_eq!(Some(String::from("1")), text(cache.get_at(&key("a"), 4)));
    assert_eq!(Some(String::from("3")), text(cache.get_at(&key("c"), 4)));
    // The freed place is used again, and the lists still hold together.
    cache.put_at(key("d"), val("4"), 5);
    cache.put_at(key("e"), val("5"), 6);
    assert_eq!(3, cache.len());
    assert_eq!(None, cache.get_at(&key("a"), 7));
    assert_eq!(Some(String::from("3")), text(cache.get_at(&key("c"), 7)));
    assert_eq!(Some(String::from("4")), text(cache.get_at(&key("d"), 7)));
    assert_eq!(Some(String::from("5")), text(cache.get_at(&key("e"), 7)));
}

#[test]
fn never_more_entries_than_the_capacity() {
    let mut cache: InnerLocalCache<String> = InnerLocalCache::new(10, 50);
    let mut now: u128 = 0;
    for round in 0..1_000u32 {
        now += u128::from(round % 7);
        cache.put_at(format!("key-{}", round), val("v"), now);
        assert!(cache.len() <= 10);
        if round % 3 == 0 {
            let _ = cache.get_at(&format!("key-{}", round / 2), now);
        }
        // The key just stored is always there.
        assert!(cache.get_at(&format!("key-{}", round), now).is_some());
    }
    assert!(cache.len() >= 1);
}

#[test]
fn returned_value_is_the_stored_one_and_outlives_its_entry() {
    let mut cache: InnerLocalCache<String> = InnerLocalCache::new(1, 360 * SEC);
    let stored = val("abc");
    cache.put_at(key("x"), stored.clone(), 1);
    let found = cache.get_at(&key("x"), 2).unwrap();
    assert!(Arc::ptr_eq(&stored, &found));
    cache.put_at(key("y"), val("123"), 3);
    assert_eq!(None, cache.get_at(&key("x"), 4));
    assert_eq!("abc", found.as_str());
}

#[test]
fn lookup_of_a_stale_key_does_not_count_as_use() {
    let ttl = 10;
    let mut cache: InnerLocalCache<String> = InnerLocalCache::new(2, ttl);
    cache.put_at(key("a"), val("1"), 100);
    cache.put_at(key("b"), val("2"), 0);
    // b is stale at 50 and a lookup turns it away; it must not become the
    // most recently used by that. At 50 a (expiring at 110) is not stale and
    // stands at the old end of the order of insertion, so the sweep takes the
    // least recently used entry, which is a.
    assert_eq!(None, cache.get_at(&key("b"), 50));
    cache.put_at(key("c"), val("3"), 50);
    assert_eq!(None, cache.get_at(&key("a"), 105));
    assert_eq!(Some(String::from("2")), text(cache.get_at(&key("b"), 5)));
}

#[test]
fn largest_times_do_not_overflow() {
    let ttl = u128::MAX / 2;
    let mut cache: InnerLocalCache<String> = InnerLocalCache::new(1, ttl);
    let now = u128::MAX - ttl;
    cache.put_at(key("x"), val("abc"), now);
    assert_eq!(Some(String::from("abc")), text(cache.get_at(&key("x"), u128::MAX)));
}

#[test]
fn places_are_made_on_demand_and_used_again() {
    let mut cache: InnerLocalCache<String> = InnerLocalCache::new(3, 360 * SEC);
    assert_eq!(0, cache.allocated());
    cache.put_at(key("a"), val("1"), 1);
    assert_eq!(1, cache.allocated());
    cache.put_at(key("a"), val("2"), 2);
    assert_eq!(1, cache.allocated());
    cache.put_at(key("b"), val("3"), 3);
    cache.remove(&key("a"));
    assert_eq!(2, cache.allocated());
    cache.put_at(key("c"), val("4"), 4);
    assert_eq!(2, cache.allocated());
    for round in 0..100u128 {
        cache.put_at(format!("k{}", round), val("v"), 5 + round);
        assert!(cache.allocated() <= 3);
    }
    assert_eq!(3, cache.allocated());
    assert_eq!(3, cache.len());
}
