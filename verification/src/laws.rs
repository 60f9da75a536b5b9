//! What holds of every cache, proved from the definitions of its operations.
use crate::model::CacheModel;
use crate::model::only_lookups;
use crate::model::Cached;
use crate::model::Step;
use crate::seqs::in_front;
use crate::seqs::lemma_in_front;
use crate::seqs::lemma_index_of_at;
use crate::seqs::lemma_without;
use crate::seqs::without;
use std::sync::Arc;
use vstd::prelude::*;

verus! {

/// A well-formed cache has as many entries as either of its orders has keys.
pub proof fn lemma_orders_count<T>(s: CacheModel<T>)
    requires
        s.wf(),
    ensures
        s.recency.len() == s.entries.len(),
        s.expiry.len() == s.entries.len(),
{
    s.recency.unique_seq_to_set();
    s.expiry.unique_seq_to_set();
}

/// The empty cache is well formed.
pub proof fn lemma_empty_wf<T>(capacity: nat, ttl: nat)
    requires
        capacity >= 1,
    ensures
        CacheModel::<T>::empty(capacity, ttl).wf(),
        CacheModel::<T>::empty(capacity, ttl).len() == 0,
{
    let e = CacheModel::<T>::empty(capacity, ttl);
    assert(e.recency.to_set() =~= e.entries.dom());
    assert(e.expiry.to_set() =~= e.entries.dom());
}

/// Removing a key keeps a cache well formed. It takes one entry away if the
/// key had one, and nothing otherwise.
pub proof fn lemma_remove_wf<T>(s: CacheModel<T>, key: Seq<char>)
    requires
        s.wf(),
    ensures
        s.remove(key).wf(),
        !s.remove(key).entries.contains_key(key),
        s.entries.contains_key(key) ==> s.remove(key).len() == s.len() - 1,
        !s.entries.contains_key(key) ==> s.remove(key) == s,
{
    let r = s.remove(key);
    lemma_without(s.recency, key);
    lemma_without(s.expiry, key);
    assert(s.recency.to_set().contains(key) <==> s.entries.dom().contains(key));
    assert(s.expiry.to_set().contains(key) <==> s.entries.dom().contains(key));
    assert(r.recency.to_set() =~= r.entries.dom()) by {
        assert forall|k: Seq<char>| r.recency.to_set().contains(k) <==> r.entries.dom().contains(
            k,
        ) by {
            assert(s.recency.to_set().contains(k) <==> s.entries.dom().contains(k));
            if k != key {
                assert(r.recency.contains(k) <==> s.recency.contains(k));
            }
        }
    }
    assert(r.expiry.to_set() =~= r.entries.dom()) by {
        assert forall|k: Seq<char>| r.expiry.to_set().contains(k) <==> r.entries.dom().contains(
            k,
        ) by {
            assert(s.expiry.to_set().contains(k) <==> s.entries.dom().contains(k));
            if k != key {
                assert(r.expiry.contains(k) <==> s.expiry.contains(k));
            }
        }
    }
    if !s.entries.contains_key(key) {
        assert(r.entries =~= s.entries);
        assert(r =~= s);
    }
}

/// Dropping the stale entries at the old end of the insertion order adds no
/// entry and changes none that stays.
pub proof fn lemma_drop_expired_shrinks<T>(s: CacheModel<T>, now: nat)
    ensures
        s.drop_expired(now).entries.submap_of(s.entries),
        s.drop_expired(now).capacity == s.capacity,
        s.drop_expired(now).ttl == s.ttl,
    decreases s.expiry.len(),
{
    if s.oldest_is_stale(now) {
        let last = s.expiry.last();
        assert(s.expiry[s.expiry.len() - 1] == last);
        assert(s.expiry.contains(last));
        let p = s.expiry.index_of(last);
        assert(0 <= p < s.expiry.len());
        lemma_drop_expired_shrinks(s.remove(last), now);
        let d = s.drop_expired(now);
        assert forall|k: Seq<char>| #[trigger] d.entries.dom().contains(k) implies s.entries.dom().contains(
            k,
        ) && d.entries[k] == s.entries[k] by {
            assert(s.remove(last).entries.dom().contains(k));
        }
    }
}

/// Making room adds no entry and changes none that stays.
pub proof fn lemma_make_room_shrinks<T>(s: CacheModel<T>)
    ensures
        s.make_room().entries.submap_of(s.entries),
        s.make_room().capacity == s.capacity,
        s.make_room().ttl == s.ttl,
    decreases s.recency.len(),
{
    if s.is_full() {
        let last = s.recency.last();
        assert(s.recency[s.recency.len() - 1] == last);
        assert(s.recency.contains(last));
        let p = s.recency.index_of(last);
        assert(0 <= p < s.recency.len());
        lemma_make_room_shrinks(s.remove(last));
        let d = s.make_room();
        assert forall|k: Seq<char>| #[trigger] d.entries.dom().contains(k) implies s.entries.dom().contains(
            k,
        ) && d.entries[k] == s.entries[k] by {
            assert(s.remove(last).entries.dom().contains(k));
        }
    }
}

/// The sweep adds no entry and changes none that stays.
pub proof fn lemma_sweep_shrinks<T>(s: CacheModel<T>, now: nat)
    ensures
        s.sweep(now).entries.submap_of(s.entries),
        s.sweep(now).capacity == s.capacity,
        s.sweep(now).ttl == s.ttl,
{
    lemma_drop_expired_shrinks(s, now);
    lemma_make_room_shrinks(s.drop_expired(now));
    let d = s.sweep(now);
    assert forall|k: Seq<char>| #[trigger] d.entries.dom().contains(k) implies s.entries.dom().contains(
        k,
    ) && d.entries[k] == s.entries[k] by {
        if s.entries.len() >= s.capacity {
            assert(s.drop_expired(now).entries.dom().contains(k));
        }
    }
}

/// Dropping the stale entries at the old end of the insertion order keeps a
/// cache well formed, and leaves it with no stale entry at that end.
pub proof fn lemma_drop_expired_wf<T>(s: CacheModel<T>, now: nat)
    requires
        s.wf(),
    ensures
        s.drop_expired(now).wf(),
        !s.drop_expired(now).oldest_is_stale(now),
        s.drop_expired(now).len() <= s.len(),
    decreases s.expiry.len(),
{
    if s.oldest_is_stale(now) {
        let last = s.expiry.last();
        assert(s.expiry[s.expiry.len() - 1] == last);
        assert(s.expiry.contains(last));
        assert(s.expiry.to_set().contains(last));
        lemma_without(s.expiry, last);
        lemma_remove_wf(s, last);
        lemma_drop_expired_wf(s.remove(last), now);
    }
}

/// Making room keeps a cache well formed, and leaves it with room for one
/// more entry.
pub proof fn lemma_make_room_wf<T>(s: CacheModel<T>)
    requires
        s.wf(),
    ensures
        s.make_room().wf(),
        s.make_room().len() < s.capacity,
        s.make_room().len() <= s.len(),
    decreases s.recency.len(),
{
    lemma_orders_count(s);
    if s.is_full() {
        let last = s.recency.last();
        assert(s.recency[s.recency.len() - 1] == last);
        assert(s.recency.contains(last));
        assert(s.recency.to_set().contains(last));
        lemma_without(s.recency, last);
        lemma_remove_wf(s, last);
        lemma_make_room_wf(s.remove(last));
    }
}

/// The sweep keeps a cache well formed, and leaves it with room for one more
/// entry.
pub proof fn lemma_sweep_wf<T>(s: CacheModel<T>, now: nat)
    requires
        s.wf(),
    ensures
        s.sweep(now).wf(),
        s.sweep(now).len() < s.capacity,
        s.sweep(now).len() <= s.len(),
{
    lemma_drop_expired_wf(s, now);
    lemma_drop_expired_shrinks(s, now);
    lemma_make_room_wf(s.drop_expired(now));
}

/// Inserting an entry under a new key keeps a cache with room well formed.
pub proof fn lemma_insert_fresh_wf<T>(
    s: CacheModel<T>,
    key: Seq<char>,
    value: Arc<T>,
    expires_at: nat,
)
    requires
        s.wf(),
        !s.entries.contains_key(key),
        s.len() < s.capacity,
    ensures
        s.insert_fresh(key, value, expires_at).wf(),
        s.insert_fresh(key, value, expires_at).len() == s.len() + 1,
{
    let a = s.insert_fresh(key, value, expires_at);
    assert(!s.recency.to_set().contains(key));
    assert(!s.expiry.to_set().contains(key));
    lemma_in_front(key, s.recency);
    lemma_in_front(key, s.expiry);
    assert(a.recency.to_set() =~= a.entries.dom()) by {
        assert forall|k: Seq<char>| a.recency.to_set().contains(k) <==> a.entries.dom().contains(
            k,
        ) by {
            assert(s.recency.to_set().contains(k) <==> s.entries.dom().contains(k));
        }
    }
    assert(a.expiry.to_set() =~= a.entries.dom()) by {
        assert forall|k: Seq<char>| a.expiry.to_set().contains(k) <==> a.entries.dom().contains(
            k,
        ) by {
            assert(s.expiry.to_set().contains(k) <==> s.entries.dom().contains(k));
        }
    }
}

/// A lookup keeps a cache well formed, with the entries it had.
pub proof fn lemma_touch_wf<T>(s: CacheModel<T>, key: Seq<char>, now: nat)
    requires
        s.wf(),
    ensures
        s.touch(key, now).wf(),
        s.touch(key, now).entries == s.entries,
        s.touch(key, now).expiry == s.expiry,
{
    let t = s.touch(key, now);
    if s.live(key, now) {
        lemma_without(s.recency, key);
        lemma_in_front(key, without(s.recency, key));
        assert(s.recency.to_set().contains(key));
        assert(t.recency.to_set() =~= t.entries.dom()) by {
            assert forall|k: Seq<char>| t.recency.to_set().contains(k) <==> t.entries.dom().contains(
                k,
            ) by {
                assert(s.recency.to_set().contains(k) <==> s.entries.dom().contains(k));
                if k != key {
                    assert(without(s.recency, key).contains(k) <==> s.recency.contains(k));
                }
            }
        }
    }
}

/// Storing a value keeps a cache well formed: both orders and the map list
/// the same keys, and there are no more entries than the capacity. The new
/// entry is the head of both orders and expires one time to live after its
/// insertion.
pub proof fn lemma_put_wf<T>(s: CacheModel<T>, key: Seq<char>, value: Arc<T>, now: nat)
    requires
        s.wf(),
    ensures
        s.put(key, value, now).wf(),
        s.put(key, value, now).len() <= s.capacity,
        s.put(key, value, now).capacity == s.capacity,
        s.put(key, value, now).ttl == s.ttl,
        s.put(key, value, now).entries.contains_key(key),
        s.put(key, value, now).entries[key] == (Cached { value, expires_at: now + s.ttl }),
        s.put(key, value, now).recency[0] == key,
        s.put(key, value, now).expiry[0] == key,
{
    let r = s.remove(key);
    let w = r.sweep(now);
    lemma_remove_wf(s, key);
    lemma_sweep_wf(r, now);
    lemma_sweep_shrinks(r, now);
    assert(!w.entries.contains_key(key)) by {
        if w.entries.dom().contains(key) {
            assert(r.entries.dom().contains(key));
        }
    }
    lemma_insert_fresh_wf(w, key, value, now + s.ttl);
}

/// After any insertion the cache holds no more entries than its capacity,
/// whatever it held before and whichever key was stored.
pub proof fn law_capacity_bound<T>(s: CacheModel<T>, key: Seq<char>, value: Arc<T>, now: nat)
    requires
        s.wf(),
    ensures
        s.put(key, value, now).len() <= s.put(key, value, now).capacity,
{
    lemma_put_wf(s, key, value, now);
}

/// Lookups, however many and of whichever keys, leave the entries and the
/// order of insertion as they were.
pub proof fn lemma_lookups_keep_entries<T>(s: CacheModel<T>, reads: Seq<Step<T>>)
    requires
        only_lookups(reads),
    ensures
        s.run(reads).entries == s.entries,
        s.run(reads).expiry == s.expiry,
        s.run(reads).capacity == s.capacity,
        s.run(reads).ttl == s.ttl,
    decreases reads.len(),
{
    if reads.len() > 0 {
        let earlier = reads.drop_last();
        assert forall|i: int| 0 <= i < earlier.len() implies #[trigger] earlier[i] is Get by {
            assert(earlier[i] == reads[i]);
        }
        lemma_lookups_keep_entries(s, earlier);
        assert(reads[reads.len() - 1] is Get);
    }
}

/// A value that was stored at `stored_at` is found at every time before
/// `stored_at + ttl` and at no time after it, also when any number of
/// lookups have come in between. (At the instant `stored_at + ttl` itself the
/// value is still found: a lookup turns away only what is past its expiry
/// time.)
pub proof fn law_time_to_live<T>(
    s: CacheModel<T>,
    key: Seq<char>,
    value: Arc<T>,
    stored_at: nat,
    reads: Seq<Step<T>>,
    now: nat,
)
    requires
        s.wf(),
        only_lookups(reads),
        now != stored_at + s.ttl,
    ensures
        s.put(key, value, stored_at).run(reads).lookup(key, now) == (if now < stored_at + s.ttl {
            Some(value)
        } else {
            None
        }),
{
    lemma_put_wf(s, key, value, stored_at);
    lemma_lookups_keep_entries(s.put(key, value, stored_at), reads);
}

/// When a full cache with no stale entry takes a new key, the one entry that
/// leaves is the last of the order of use: the entry whose latest lookup or
/// insertion lies furthest back.
pub proof fn law_least_recently_used_leaves<T>(
    s: CacheModel<T>,
    key: Seq<char>,
    value: Arc<T>,
    now: nat,
)
    requires
        s.wf(),
        s.len() == s.capacity,
        !s.entries.contains_key(key),
        forall|k: Seq<char>| s.entries.contains_key(k) ==> now < (#[trigger] s.entries[k]).expires_at,
    ensures
        s.put(key, value, now) == s.remove(s.recency.last()).insert_fresh(
            key,
            value,
            now + s.ttl,
        ),
        s.entries.contains_key(s.recency.last()),
        !s.put(key, value, now).entries.contains_key(s.recency.last()),
        s.put(key, value, now).len() == s.len(),
{
    lemma_orders_count(s);
    lemma_remove_wf(s, key);
    let last = s.recency.last();
    assert(s.recency[s.recency.len() - 1] == last);
    assert(s.recency.contains(last));
    assert(s.recency.to_set().contains(last));
    assert(!s.oldest_is_stale(now)) by {
        if s.expiry.len() > 0 {
            let oldest = s.expiry.last();
            assert(s.expiry[s.expiry.len() - 1] == oldest);
            assert(s.expiry.contains(oldest));
            assert(s.expiry.to_set().contains(oldest));
            assert(s.entries.contains_key(oldest));
        }
    }
    assert(s.drop_expired(now) == s);
    assert(s.is_full());
    let r = s.remove(last);
    lemma_remove_wf(s, last);
    lemma_orders_count(r);
    assert(!r.is_full());
    assert(r.make_room() == r);
    assert(s.make_room() == r);
    assert(s.sweep(now) == r);
    lemma_insert_fresh_wf(r, key, value, now + s.ttl);
}

/// A lookup puts its key, if live, at the front of the order of use and
/// leaves the other keys in the order they had, so that the last key of the
/// order is the one that has gone unused longest.
pub proof fn law_lookup_moves_to_front<T>(s: CacheModel<T>, key: Seq<char>, now: nat)
    requires
        s.wf(),
        s.live(key, now),
    ensures
        s.touch(key, now).recency[0] == key,
        without(s.touch(key, now).recency, key) == without(s.recency, key),
{
    lemma_without(s.recency, key);
    lemma_in_front(key, without(s.recency, key));
}

/// Two caches with the same entries and the same order of insertion lose the
/// same entries when their stale entries are dropped, however their orders of
/// use differ.
pub proof fn lemma_drop_expired_ignores_use<T>(a: CacheModel<T>, b: CacheModel<T>, now: nat)
    requires
        a.entries == b.entries,
        a.expiry == b.expiry,
    ensures
        a.drop_expired(now).entries == b.drop_expired(now).entries,
        a.drop_expired(now).expiry == b.drop_expired(now).expiry,
    decreases a.expiry.len(),
{
    if a.oldest_is_stale(now) {
        let last = a.expiry.last();
        assert(a.expiry[a.expiry.len() - 1] == last);
        assert(a.expiry.contains(last));
        let p = a.expiry.index_of(last);
        assert(0 <= p < a.expiry.len());
        lemma_drop_expired_ignores_use(a.remove(last), b.remove(last), now);
    }
}

/// Lookups do not change which entries go stale first: after any number of
/// lookups the entries and the order of insertion are what they were, and
/// dropping the stale entries takes the same entries as it would have taken
/// without the lookups.
pub proof fn law_lookups_leave_expiry<T>(s: CacheModel<T>, reads: Seq<Step<T>>, now: nat)
    requires
        only_lookups(reads),
    ensures
        s.run(reads).entries == s.entries,
        s.run(reads).expiry == s.expiry,
        s.run(reads).oldest_is_stale(now) == s.oldest_is_stale(now),
        s.run(reads).drop_expired(now).entries == s.drop_expired(now).entries,
        s.run(reads).drop_expired(now).expiry == s.drop_expired(now).expiry,
{
    lemma_lookups_keep_entries(s, reads);
    lemma_drop_expired_ignores_use(s.run(reads), s, now);
}

/// Storing a second value under a key right after a first leaves one entry
/// for the key, with the second value and an expiry time counted from the
/// second insertion. Nothing else changes: the other entries and both orders
/// are as the first insertion left them.
pub proof fn law_overwrite<T>(
    s: CacheModel<T>,
    key: Seq<char>,
    first: Arc<T>,
    first_at: nat,
    second: Arc<T>,
    second_at: nat,
)
    requires
        s.wf(),
    ensures
        ({
            let once = s.put(key, first, first_at);
            let twice = once.put(key, second, second_at);
            &&& twice.entries == once.entries.insert(
                key,
                Cached { value: second, expires_at: second_at + s.ttl },
            )
            &&& twice.recency == once.recency
            &&& twice.expiry == once.expiry
            &&& twice.len() == once.len()
            &&& twice.recency.no_duplicates()
            &&& twice.expiry.no_duplicates()
            &&& twice.lookup(key, second_at) == Some(second)
        }),
{
    let room = s.remove(key).sweep(first_at);
    let once = s.put(key, first, first_at);
    let twice = once.put(key, second, second_at);
    lemma_remove_wf(s, key);
    lemma_sweep_wf(s.remove(key), first_at);
    lemma_sweep_shrinks(s.remove(key), first_at);
    assert(!room.entries.contains_key(key)) by {
        if room.entries.dom().contains(key) {
            assert(s.remove(key).entries.dom().contains(key));
        }
    }
    lemma_put_wf(s, key, first, first_at);
    assert(!room.recency.to_set().contains(key));
    assert(!room.expiry.to_set().contains(key));
    lemma_in_front(key, room.recency);
    lemma_in_front(key, room.expiry);
    assert(once.remove(key).entries =~= room.entries);
    assert(once.remove(key) =~= room);
    assert(room.sweep(second_at) == room);
    assert(twice.entries =~= once.entries.insert(
        key,
        Cached { value: second, expires_at: second_at + s.ttl },
    ));
    lemma_put_wf(once, key, second, second_at);
    assert(once.entries.dom().insert(key) =~= once.entries.dom());
}

/// What dropping the stale entries comes to: the order of insertion is cut
/// off where its unbroken run of stale entries at the old end begins. Every
/// key from there on was stale and is gone, every key before it is kept with
/// its entry, and the key before the cut, if there is one, is not stale.
pub proof fn law_drop_expired_cuts_the_old_end<T>(s: CacheModel<T>, now: nat)
    requires
        s.wf(),
    ensures
        ({
            let d = s.drop_expired(now);
            let kept = d.expiry.len() as int;
            &&& kept <= s.expiry.len()
            &&& d.expiry == s.expiry.take(kept)
            &&& forall|p: int|
                kept <= p < s.expiry.len() ==> (#[trigger] s.entries[s.expiry[p]]).expires_at <= now
                    && !d.entries.contains_key(s.expiry[p])
            &&& forall|p: int|
                0 <= p < kept ==> d.entries.contains_key(#[trigger] s.expiry[p])
                    && d.entries[s.expiry[p]] == s.entries[s.expiry[p]]
            &&& kept > 0 ==> now < s.entries[s.expiry[kept - 1]].expires_at
        }),
    decreases s.expiry.len(),
{
    let d = s.drop_expired(now);
    if s.oldest_is_stale(now) {
        let n = s.expiry.len() as int;
        let last = s.expiry.last();
        assert(s.expiry[n - 1] == last);
        lemma_index_of_at(s.expiry, n - 1);
        let r = s.remove(last);
        assert(r.expiry =~= s.expiry.take(n - 1));
        lemma_remove_wf(s, last);
        law_drop_expired_cuts_the_old_end(r, now);
        lemma_drop_expired_shrinks(r, now);
        let kept = d.expiry.len() as int;
        assert(d.expiry =~= s.expiry.take(kept));
        assert forall|p: int| kept <= p < n implies (#[trigger] s.entries[s.expiry[p]]).expires_at
            <= now && !d.entries.contains_key(s.expiry[p]) by {
            if p < n - 1 {
                assert(r.expiry[p] == s.expiry[p]);
                assert(s.expiry[p] != last);
                assert(r.entries[r.expiry[p]].expires_at <= now);
            } else {
                if d.entries.dom().contains(last) {
                    assert(r.entries.dom().contains(last));
                }
            }
        }
        assert forall|p: int| 0 <= p < kept implies d.entries.contains_key(
            #[trigger] s.expiry[p],
        ) && d.entries[s.expiry[p]] == s.entries[s.expiry[p]] by {
            assert(r.expiry[p] == s.expiry[p]);
            assert(s.expiry[p] != last);
        }
        if kept > 0 {
            assert(r.expiry[kept - 1] == s.expiry[kept - 1]);
            assert(s.expiry[kept - 1] != last);
        }
    } else {
        assert(d.expiry =~= s.expiry.take(s.expiry.len() as int));
        assert forall|p: int| 0 <= p < s.expiry.len() implies d.entries.contains_key(
            #[trigger] s.expiry[p],
        ) by {
            assert(s.expiry.contains(s.expiry[p]));
            assert(s.expiry.to_set().contains(s.expiry[p]));
        }
    }
}

/// No operation takes a cache out of the well-formed states or changes its
/// capacity or its time to live.
pub proof fn lemma_step_wf<T>(s: CacheModel<T>, op: Step<T>)
    requires
        s.wf(),
    ensures
        s.step(op).wf(),
        s.step(op).capacity == s.capacity,
        s.step(op).ttl == s.ttl,
{
    match op {
        Step::Get { key, now } => {
            lemma_touch_wf(s, key, now);
        },
        Step::Put { key, value, now } => {
            lemma_put_wf(s, key, value, now);
        },
        Step::Remove { key } => {
            lemma_remove_wf(s, key);
        },
        Step::Sweep { now } => {
            lemma_sweep_wf(s, now);
            lemma_sweep_shrinks(s, now);
        },
    }
}

/// After any sequence of operations on a well-formed cache, the keys of the
/// order of use, the keys of the order of insertion and the keys of the map
/// are the same keys, neither order lists a key twice, and the cache holds no
/// more entries than its capacity.
pub proof fn law_orders_and_map_agree<T>(s: CacheModel<T>, ops: Seq<Step<T>>)
    requires
        s.wf(),
    ensures
        s.run(ops).wf(),
        s.run(ops).recency.to_set() == s.run(ops).entries.dom(),
        s.run(ops).expiry.to_set() == s.run(ops).entries.dom(),
        s.run(ops).recency.no_duplicates(),
        s.run(ops).expiry.no_duplicates(),
        s.run(ops).len() <= s.capacity,
        s.run(ops).capacity == s.capacity,
        s.run(ops).ttl == s.ttl,
    decreases ops.len(),
{
    if ops.len() > 0 {
        law_orders_and_map_agree(s, ops.drop_last());
        lemma_step_wf(s.run(ops.drop_last()), ops.last());
    }
}

/// The same of a cache that starts empty: whatever is done to it, its two
/// orders and its map agree and it stays within its capacity.
pub proof fn law_from_empty<T>(capacity: nat, ttl: nat, ops: Seq<Step<T>>)
    requires
        capacity >= 1,
    ensures
        CacheModel::<T>::empty(capacity, ttl).run(ops).wf(),
        CacheModel::<T>::empty(capacity, ttl).run(ops).len() <= capacity,
{
    lemma_empty_wf::<T>(capacity, ttl);
    law_orders_and_map_agree(CacheModel::<T>::empty(capacity, ttl), ops);
}

/// No value comes into a cache but by being stored: where every value held
/// is one that a rule admits under its key, that is still so after any
/// operation, provided that what the operation stores is admitted too.
pub proof fn law_values_come_from_puts<T>(
    s: CacheModel<T>,
    op: Step<T>,
    rule: spec_fn(Seq<char>, Arc<T>) -> bool,
)
    requires
        s.holds_only(rule),
        op matches Step::Put { key, value, .. } ==> rule(key, value),
    ensures
        s.step(op).holds_only(rule),
{
    let after = s.step(op);
    match op {
        Step::Get { key, now } => {},
        Step::Put { key, value, now } => {
            let room = s.remove(key).sweep(now);
            lemma_sweep_shrinks(s.remove(key), now);
            assert forall|k: Seq<char>| #[trigger] after.entries.contains_key(k) implies rule(
                k,
                after.entries[k].value,
            ) by {
                if k != key {
                    assert(room.entries.dom().contains(k));
                    assert(s.remove(key).entries.dom().contains(k));
                    assert(s.entries.contains_key(k));
                }
            }
        },
        Step::Remove { key } => {
            assert forall|k: Seq<char>| #[trigger] after.entries.contains_key(k) implies rule(
                k,
                after.entries[k].value,
            ) by {
                assert(s.entries.contains_key(k));
            }
        },
        Step::Sweep { now } => {
            lemma_sweep_shrinks(s, now);
            assert forall|k: Seq<char>| #[trigger] after.entries.contains_key(k) implies rule(
                k,
                after.entries[k].value,
            ) by {
                assert(after.entries.dom().contains(k));
                assert(s.entries.contains_key(k));
            }
        },
    }
}

/// A value that a lookup finds under a key is one that the cache held under
/// that key, and so one that every rule admits which the cache keeps to.
pub proof fn law_found_values_are_held<T>(
    s: CacheModel<T>,
    key: Seq<char>,
    now: nat,
    rule: spec_fn(Seq<char>, Arc<T>) -> bool,
)
    requires
        s.holds_only(rule),
    ensures
        s.lookup(key, now) matches Some(value) ==> s.entries.contains_key(key) && value
            == s.entries[key].value && rule(key, value),
{
}

} // verus!
