use local_cache::clock::secs_to_nanos;
use local_cache::clock::to_nanos;
use local_cache::clock::unix_nanos;
use local_cache::clock::NANOS_PER_SEC;

#[test]
fn seconds_become_nanoseconds() {
    assert_eq!(0, secs_to_nanos(0));
    assert_eq!(1_000_000_000, secs_to_nanos(1));
    assert_eq!(360_000_000_000, secs_to_nanos(360));
    assert_eq!(18_446_744_073_709_551_615_000_000_000, secs_to_nanos(u64::MAX));
    assert_eq!(1_000_000_000, NANOS_PER_SEC);
}

#[test]
fn seconds_and_nanoseconds_become_one_count() {
    assert_eq!(0, to_nanos(0, 0));
    assert_eq!(999_999_999, to_nanos(0, 999_999_999));
    assert_eq!(2_000_000_005, to_nanos(2, 5));
    assert_eq!(1_577_836_800_123_456_789, to_nanos(1_577_836_800, 123_456_789));
    assert_eq!(18_446_744_073_709_551_615_999_999_999, to_nanos(u64::MAX, 999_999_999));
    assert_eq!(secs_to_nanos(77), to_nanos(77, 0));
}

#[test]
fn clock_reads_a_time_of_this_century() {
    let now = unix_nanos().expect("the clock stands after the Unix epoch");
    let year_2020: u128 = 1_577_836_800 * 1_000_000_000;
    let year_2100: u128 = 4_102_444_800 * 1_000_000_000;
    assert!(now > year_2020);
    assert!(now < year_2100);
}

#[test]
fn clock_agrees_with_the_system_time() {
    let before = std::time::SystemTime::now()
        .duration_since(std::time::UNIX_EPOCH)
        .unwrap()
        .as_nanos();
    let now = unix_nanos().unwrap();
    let after = std::time::SystemTime::now()
        .duration_since(std::time::UNIX_EPOCH)
        .unwrap()
        .as_nanos();
    // The three readings are taken in this order; allow the clock a step back
    // of a second between them.
    assert!(now + 1_000_000_000 >= before);
    assert!(now <= after + 1_000_000_000);
}
