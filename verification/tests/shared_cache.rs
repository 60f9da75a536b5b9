use local_cache::LocalCache;
use std::sync::Arc;

#[test]
fn test() {
    println!("Hello, world!");
    let local_cache: LocalCache<String> = LocalCache::new(1, 360);

    assert_eq!(None, local_cache.get(&"x".to_string()));
    local_cache.put(String::from("x"), Arc::new(String::from("abc")));
    println!("{:?}", local_cache.get(&"x".to_string()));

    local_cache.put(String::from("x"), Arc::new(String::from("abc")));
    println!("{:?}", local_cache.get(&"x".to_string()));

    assert_eq!(None, local_cache.get(&"y".to_string()));
    local_cache.put(String::from("y"), Arc::new(String::from("123")));
    println!("{:?}", local_cache.get(&"y".to_string()));

    assert_eq!(None, local_cache.get(&"x".to_string()));
}

#[test]
fn shared_cache_returns_what_was_stored() {
    let cache: LocalCache<String> = LocalCache::new(1, 360);
    assert_eq!(None, cache.get(&"x".to_string()));
    cache.put(String::from("x"), Arc::new(String::from("abc")));
    assert_eq!(Some(Arc::new(String::from("abc"))), cache.get(&"x".to_string()));
    cache.put(String::from("x"), Arc::new(String::from("abc")));
    assert_eq!(Some(Arc::new(String::from("abc"))), cache.get(&"x".to_string()));
    assert_eq!(None, cache.get(&"y".to_string()));
    cache.put(String::from("y"), Arc::new(String::from("123")));
    assert_eq!(Some(Arc::new(String::from("123"))), cache.get(&"y".to_string()));
    assert_eq!(None, cache.get(&"x".to_string()));
}

#[test]
fn shared_cache_evicts_the_least_recently_used() {
    let cache: LocalCache<u32> = LocalCache::new(2, 3_600);
    cache.put(String::from("a"), Arc::new(1));
    cache.put(String::from("b"), Arc::new(2));
    assert_eq!(Some(Arc::new(1)), cache.get(&String::from("a")));
    cache.put(String::from("c"), Arc::new(3));
    assert_eq!(None, cache.get(&String::from("b")));
    assert_eq!(Some(Arc::new(1)), cache.get(&String::from("a")));
    assert_eq!(Some(Arc::new(3)), cache.get(&String::from("c")));
}

#[test]
fn shared_cache_takes_the_longest_time_to_live() {
    let cache: LocalCache<u32> = LocalCache::new(1, u64::MAX);
    cache.put(String::from("a"), Arc::new(1));
    assert_eq!(Some(Arc::new(1)), cache.get(&String::from("a")));
}

#[test]
fn shared_cache_lock_is_free_after_every_operation() {
    let cache: LocalCache<u32> = LocalCache::new(3, 60);
    for round in 0..200u32 {
        cache.put(format!("k{}", round % 5), Arc::new(round));
        let _ = cache.get(&format!("k{}", (round + 1) % 5));
    }
    assert_eq!(Some(Arc::new(199)), cache.get(&String::from("k4")));
}

fn shareable<C: Send + Sync>(_: &C) {}

#[test]
fn shared_cache_can_go_to_other_threads() {
    let cache: Arc<LocalCache<String>> = Arc::new(LocalCache::new(8, 3_600));
    shareable(&cache);
    let other = Arc::clone(&cache);
    other.put(String::from("x"), Arc::new(String::from("abc")));
    assert_eq!(Some(Arc::new(String::from("abc"))), cache.get(&String::from("x")));
}

#[test]
fn shared_cache_hands_out_only_what_was_stored_under_the_key() {
    let cache: LocalCache<String> = LocalCache::new(4, 3_600);
    let stored: Vec<(String, Arc<String>)> = (0..4)
        .map(|i| (format!("k{}", i), Arc::new(format!("v{}", i))))
        .collect();
    for (key, value) in stored.iter() {
        cache.put(key.clone(), Arc::clone(value));
    }
    for round in 0..50 {
        for (key, value) in stored.iter() {
            match cache.get(key) {
                Some(found) => assert!(Arc::ptr_eq(value, &found), "round {} key {}", round, key),
                None => panic!("round {} key {}: nothing found", round, key),
            }
        }
    }
    assert_eq!(None, cache.get(&String::from("never stored")));
}
