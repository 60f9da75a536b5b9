//! The parts of the engine as plain values, and what linking an entry in and
//! taking one out do to them and to the cache that they stand for.
use crate::model::CacheModel;
use crate::model::Cached;
use crate::seqs::in_front;
use crate::seqs::lemma_in_front;
use crate::seqs::lemma_index_of_at;
use crate::seqs::lemma_without;
use crate::seqs::without;
use std::sync::Arc;
use vstd::prelude::*;

verus! {

/// What one occupied slot holds.
pub(crate) struct Entry<T> {
    pub(crate) key: String,
    pub(crate) value: Arc<T>,
    pub(crate) exp: u128,
}

/// The parts of an engine, as values: the table, the two orders over its
/// slots, the slots that are free for reuse, and the key index.
#[verifier::ext_equal]
pub(crate) struct Store<T> {
    pub(crate) slots: Seq<Option<Entry<T>>>,
    pub(crate) lru: Seq<usize>,
    pub(crate) exp: Seq<usize>,
    pub(crate) free: Seq<usize>,
    pub(crate) map: Map<Seq<char>, usize>,
}

/// Slot `i` exists and is occupied.
pub(crate) open spec fn live<T>(slots: Seq<Option<Entry<T>>>, i: usize) -> bool {
    i < slots.len() && slots[i as int] is Some
}

/// The key of the entry in slot `i`.
pub(crate) open spec fn key_of<T>(slots: Seq<Option<Entry<T>>>, i: usize) -> Seq<char> {
    slots[i as int]->0.key@
}

/// The value and expiry time of the entry in slot `i`.
pub(crate) open spec fn cached_at<T>(slots: Seq<Option<Entry<T>>>, i: usize) -> Cached<T> {
    Cached { value: slots[i as int]->0.value, expires_at: slots[i as int]->0.exp as nat }
}

/// The keys of the slots of `order`, in that order.
pub(crate) open spec fn keys<T>(slots: Seq<Option<Entry<T>>>, order: Seq<usize>) -> Seq<Seq<char>> {
    order.map_values(|i: usize| key_of(slots, i))
}

impl<T> Store<T> {
    /// The occupied slots are the slots of either order and the slots that
    /// the index points to, each under its own key; the free slots are
    /// unoccupied; nothing is listed twice; and the table has a slot for
    /// each entry and each free place, and no other.
    pub(crate) open spec fn consistent(self) -> bool {
        &&& self.lru.no_duplicates()
        &&& self.exp.no_duplicates()
        &&& self.free.no_duplicates()
        &&& self.map.dom().finite()
        &&& self.slots.len() == self.lru.len() + self.free.len()
        &&& forall|i: usize|
            #![trigger live(self.slots, i)]
            #![trigger self.lru.contains(i)]
            live(self.slots, i) <==> self.lru.contains(i)
        &&& forall|i: usize|
            #![trigger live(self.slots, i)]
            #![trigger self.exp.contains(i)]
            live(self.slots, i) <==> self.exp.contains(i)
        &&& forall|i: usize| #[trigger]
            self.free.contains(i) ==> i < self.slots.len() && !live(self.slots, i)
        &&& forall|k: Seq<char>| #[trigger]
            self.map.contains_key(k) ==> live(self.slots, self.map[k]) && key_of(
                self.slots,
                self.map[k],
            ) == k
        &&& forall|i: usize| #[trigger]
            live(self.slots, i) ==> self.map.contains_key(key_of(self.slots, i)) && self.map[key_of(
                self.slots,
                i,
            )] == i
    }

    /// The cache that the parts stand for.
    pub(crate) open spec fn model(self, capacity: nat, ttl: nat) -> CacheModel<T> {
        CacheModel {
            capacity,
            ttl,
            entries: Map::new(
                |k: Seq<char>| self.map.contains_key(k),
                |k: Seq<char>| cached_at(self.slots, self.map[k]),
            ),
            recency: keys(self.slots, self.lru),
            expiry: keys(self.slots, self.exp),
        }
    }

    /// The parts after the entry in slot `i` has been taken out.
    pub(crate) open spec fn detached(self, i: usize) -> Self {
        Store {
            slots: self.slots.update(i as int, None),
            lru: without(self.lru, i),
            exp: without(self.exp, i),
            free: self.free.push(i),
            map: self.map.remove(key_of(self.slots, i)),
        }
    }

    /// The parts after `entry` has been put into the free slot that was
    /// listed last, and linked at the head of both orders.
    pub(crate) open spec fn attached(self, entry: Entry<T>) -> Self {
        let i = self.free.last();
        Store {
            slots: self.slots.update(i as int, Some(entry)),
            lru: in_front(i, self.lru),
            exp: in_front(i, self.exp),
            free: self.free.drop_last(),
            map: self.map.insert(entry.key@, i),
        }
    }

    /// The parts after slot `i` has become the head of the order of use.
    pub(crate) open spec fn promoted(self, i: usize) -> Self {
        Store { lru: in_front(i, without(self.lru, i)), ..self }
    }

    /// The parts with one more slot, unoccupied and listed as free.
    pub(crate) open spec fn grown(self) -> Self {
        Store {
            slots: self.slots.push(None),
            free: self.free.push(self.slots.len() as usize),
            ..self
        }
    }
}

/// The keys of an order of occupied slots: one key for each slot, no key
/// twice, and a key is among them exactly when the index points into the
/// order.
pub(crate) proof fn lemma_keys<T>(st: Store<T>, order: Seq<usize>)
    requires
        st.consistent(),
        order.no_duplicates(),
        forall|p: int| 0 <= p < order.len() ==> live(st.slots, #[trigger] order[p]),
    ensures
        keys(st.slots, order).len() == order.len(),
        keys(st.slots, order).no_duplicates(),
        forall|p: int|
            0 <= p < order.len() ==> #[trigger] keys(st.slots, order)[p] == key_of(
                st.slots,
                order[p],
            ),
        forall|k: Seq<char>| #[trigger]
            keys(st.slots, order).contains(k) <==> st.map.contains_key(k) && order.contains(
                st.map[k],
            ),
{
    let ks = keys(st.slots, order);
    assert forall|p: int, q: int| 0 <= p < ks.len() && 0 <= q < ks.len() && p != q implies ks[p]
        != ks[q] by {
        assert(live(st.slots, order[p]));
        assert(live(st.slots, order[q]));
    }
    assert forall|k: Seq<char>| #[trigger]
        ks.contains(k) <==> st.map.contains_key(k) && order.contains(st.map[k]) by {
        if ks.contains(k) {
            let p = choose|p: int| 0 <= p < ks.len() && ks[p] == k;
            assert(live(st.slots, order[p]));
            assert(order.contains(order[p]));
        }
        if st.map.contains_key(k) && order.contains(st.map[k]) {
            let p = choose|p: int| 0 <= p < order.len() && order[p] == st.map[k];
            assert(ks[p] == k);
        }
    }
}

/// Every slot of the two orders of consistent parts is occupied.
pub(crate) proof fn lemma_orders_live<T>(st: Store<T>)
    requires
        st.consistent(),
    ensures
        forall|p: int| 0 <= p < st.lru.len() ==> live(st.slots, #[trigger] st.lru[p]),
        forall|p: int| 0 <= p < st.exp.len() ==> live(st.slots, #[trigger] st.exp[p]),
{
    assert forall|p: int| 0 <= p < st.lru.len() implies live(st.slots, #[trigger] st.lru[p]) by {
        assert(st.lru.contains(st.lru[p]));
    }
    assert forall|p: int| 0 <= p < st.exp.len() implies live(st.slots, #[trigger] st.exp[p]) by {
        assert(st.exp.contains(st.exp[p]));
    }
}

/// Consistent parts with no more entries than the capacity stand for a
/// well-formed cache, which has as many entries as either order has slots.
pub(crate) proof fn lemma_model_wf<T>(st: Store<T>, capacity: nat, ttl: nat)
    requires
        st.consistent(),
        capacity >= 1,
        st.lru.len() <= capacity,
    ensures
        st.model(capacity, ttl).wf(),
        st.model(capacity, ttl).entries.dom() == st.map.dom(),
        st.model(capacity, ttl).entries.len() == st.lru.len(),
        st.map.len() == st.lru.len(),
        st.exp.len() == st.lru.len(),
{
    let m = st.model(capacity, ttl);
    lemma_orders_live(st);
    lemma_keys(st, st.lru);
    lemma_keys(st, st.exp);
    assert(m.entries.dom() =~= st.map.dom());
    assert(m.recency.to_set() =~= m.entries.dom()) by {
        assert forall|k: Seq<char>| m.recency.to_set().contains(k) <==> m.entries.dom().contains(
            k,
        ) by {
            if st.map.contains_key(k) {
                assert(live(st.slots, st.map[k]));
            }
        }
    }
    assert(m.expiry.to_set() =~= m.entries.dom()) by {
        assert forall|k: Seq<char>| m.expiry.to_set().contains(k) <==> m.entries.dom().contains(
            k,
        ) by {
            if st.map.contains_key(k) {
                assert(live(st.slots, st.map[k]));
            }
        }
    }
    m.recency.unique_seq_to_set();
    m.expiry.unique_seq_to_set();
}

/// Taking the entry of slot `i` out of consistent parts leaves consistent
/// parts, which stand for the cache without the key of that entry.
pub(crate) proof fn lemma_detach<T>(st: Store<T>, capacity: nat, ttl: nat, i: usize)
    requires
        st.consistent(),
        live(st.slots, i),
    ensures
        st.detached(i).consistent(),
        st.detached(i).model(capacity, ttl) == st.model(capacity, ttl).remove(key_of(st.slots, i)),
        st.detached(i).lru.len() == st.lru.len() - 1,
        st.detached(i).exp.len() == st.exp.len() - 1,
{
    let k = key_of(st.slots, i);
    let d = st.detached(i);
    lemma_without(st.lru, i);
    lemma_without(st.exp, i);
    assert(st.lru.contains(i));
    assert(st.exp.contains(i));
    assert(!st.free.contains(i));
    assert(d.free.no_duplicates()) by {
        assert forall|a: int, b: int| 0 <= a < d.free.len() && 0 <= b < d.free.len() && a
            != b implies d.free[a] != d.free[b] by {
            if a < st.free.len() {
                assert(st.free.contains(st.free[a]));
            }
            if b < st.free.len() {
                assert(st.free.contains(st.free[b]));
            }
        }
    }
    assert forall|j: usize| live(d.slots, j) <==> (live(st.slots, j) && j != i) by {}
    assert forall|j: usize|
        #![trigger live(d.slots, j)]
        #![trigger d.lru.contains(j)]
        live(d.slots, j) <==> d.lru.contains(j) by {
        assert(live(st.slots, j) <==> st.lru.contains(j));
    }
    assert forall|j: usize|
        #![trigger live(d.slots, j)]
        #![trigger d.exp.contains(j)]
        live(d.slots, j) <==> d.exp.contains(j) by {
        assert(live(st.slots, j) <==> st.exp.contains(j));
    }
    assert forall|j: usize| #[trigger] d.free.contains(j) implies j < d.slots.len() && !live(
        d.slots,
        j,
    ) by {
        let a = choose|a: int| 0 <= a < d.free.len() && d.free[a] == j;
        if a < st.free.len() {
            assert(st.free.contains(j));
        }
    }
    assert forall|k2: Seq<char>| #[trigger] d.map.contains_key(k2) implies live(
        d.slots,
        d.map[k2],
    ) && key_of(d.slots, d.map[k2]) == k2 by {
        assert(st.map.contains_key(k2));
        assert(live(st.slots, st.map[k2]));
    }
    assert forall|j: usize| #[trigger] live(d.slots, j) implies d.map.contains_key(
        key_of(d.slots, j),
    ) && d.map[key_of(d.slots, j)] == j by {
        assert(live(st.slots, j));
    }
    let m = st.model(capacity, ttl);
    let dm = d.model(capacity, ttl);
    assert(dm.entries =~= m.entries.remove(k)) by {
        assert forall|k2: Seq<char>| dm.entries.contains_key(k2) implies dm.entries[k2]
            == m.entries[k2] by {
            assert(st.map.contains_key(k2));
            assert(live(st.slots, st.map[k2]));
        }
    }
    lemma_keys_without(st, st.lru, i);
    lemma_keys_without(st, st.exp, i);
    assert(dm =~= m.remove(k));
}

/// The keys of an order without slot `i`, read after the entry of slot `i`
/// has gone, are the keys of the order without the key of slot `i`.
pub(crate) proof fn lemma_keys_without<T>(st: Store<T>, order: Seq<usize>, i: usize)
    requires
        st.consistent(),
        order.no_duplicates(),
        forall|j: usize| order.contains(j) ==> live(st.slots, j),
        live(st.slots, i),
    ensures
        keys(st.slots.update(i as int, None), without(order, i)) == without(
            keys(st.slots, order),
            key_of(st.slots, i),
        ),
        keys(st.slots, without(order, i)) == without(keys(st.slots, order), key_of(st.slots, i)),
{
    let k = key_of(st.slots, i);
    let ks = keys(st.slots, order);
    let after = st.slots.update(i as int, None);
    assert forall|p: int| 0 <= p < order.len() implies live(st.slots, #[trigger] order[p]) by {
        assert(order.contains(order[p]));
    }
    lemma_keys(st, order);
    lemma_without(order, i);
    if order.contains(i) {
        let p = order.index_of(i);
        assert(0 <= p < order.len() && order[p] == i);
        assert(ks[p] == k);
        lemma_index_of_at(ks, p);
        let rest = order.remove(p);
        assert forall|q: int| 0 <= q < rest.len() implies #[trigger] rest[q] != i by {
            assert(rest.contains(rest[q]));
        }
        assert(keys(after, rest) =~= ks.remove(p));
        assert(keys(st.slots, rest) =~= ks.remove(p));
    } else {
        assert(!ks.contains(k)) by {
            if ks.contains(k) {
                assert(st.map[k] == i);
            }
        }
        assert forall|q: int| 0 <= q < order.len() implies #[trigger] order[q] != i by {
            assert(order.contains(order[q]));
        }
        assert(keys(after, order) =~= ks);
    }
}

/// The keys of an order of occupied slots read the same after an entry has
/// been put into a slot that the order does not hold.
pub(crate) proof fn lemma_keys_elsewhere<T>(
    slots: Seq<Option<Entry<T>>>,
    order: Seq<usize>,
    i: usize,
    entry: Option<Entry<T>>,
)
    requires
        i < slots.len(),
        !order.contains(i),
        forall|q: int| 0 <= q < order.len() ==> live(slots, #[trigger] order[q]),
    ensures
        keys(slots.update(i as int, entry), order) == keys(slots, order),
{
    assert forall|q: int| 0 <= q < order.len() implies #[trigger] order[q] != i by {
        assert(order.contains(order[q]));
        assert(live(slots, order[q]));
    }
    assert(keys(slots.update(i as int, entry), order) =~= keys(slots, order));
}

/// Putting an entry with a new key into the last free slot of consistent
/// parts, at the head of both orders, leaves consistent parts, which stand
/// for the cache with that entry inserted.
pub(crate) proof fn lemma_attach<T>(st: Store<T>, capacity: nat, ttl: nat, entry: Entry<T>)
    requires
        st.consistent(),
        st.free.len() > 0,
        !st.map.contains_key(entry.key@),
    ensures
        st.attached(entry).consistent(),
        st.attached(entry).model(capacity, ttl) == st.model(capacity, ttl).insert_fresh(
            entry.key@,
            entry.value,
            entry.exp as nat,
        ),
        st.attached(entry).lru.len() == st.lru.len() + 1,
        st.free.last() < st.slots.len(),
        !st.lru.contains(st.free.last()),
        !st.exp.contains(st.free.last()),
{
    let k = entry.key@;
    let i = st.free.last();
    let a = st.attached(entry);
    assert(st.free[st.free.len() - 1] == i);
    assert(st.free.contains(i));
    assert(!live(st.slots, i));
    assert(!st.lru.contains(i));
    assert(!st.exp.contains(i));
    lemma_in_front(i, st.lru);
    lemma_in_front(i, st.exp);
    assert forall|j: usize| #[trigger] a.free.contains(j) implies st.free.contains(j) && j
        != i by {
        let p = choose|p: int| 0 <= p < a.free.len() && a.free[p] == j;
        assert(st.free[p] == j);
    }
    assert forall|j: usize| live(a.slots, j) <==> (live(st.slots, j) || j == i) by {}
    assert forall|j: usize|
        #![trigger live(a.slots, j)]
        #![trigger a.lru.contains(j)]
        live(a.slots, j) <==> a.lru.contains(j) by {
        assert(live(st.slots, j) <==> st.lru.contains(j));
    }
    assert forall|j: usize|
        #![trigger live(a.slots, j)]
        #![trigger a.exp.contains(j)]
        live(a.slots, j) <==> a.exp.contains(j) by {
        assert(live(st.slots, j) <==> st.exp.contains(j));
    }
    assert forall|j: usize| #[trigger] a.free.contains(j) implies j < a.slots.len() && !live(
        a.slots,
        j,
    ) by {
        assert(st.free.contains(j));
    }
    assert forall|k2: Seq<char>| #[trigger] a.map.contains_key(k2) implies live(
        a.slots,
        a.map[k2],
    ) && key_of(a.slots, a.map[k2]) == k2 by {
        if k2 != k {
            assert(st.map.contains_key(k2));
            assert(live(st.slots, st.map[k2]));
        }
    }
    assert forall|j: usize| #[trigger] live(a.slots, j) implies a.map.contains_key(
        key_of(a.slots, j),
    ) && a.map[key_of(a.slots, j)] == j by {
        if j != i {
            assert(live(st.slots, j));
        }
    }
    let m = st.model(capacity, ttl);
    let am = a.model(capacity, ttl);
    assert(am.entries =~= m.entries.insert(
        k,
        Cached { value: entry.value, expires_at: entry.exp as nat },
    )) by {
        assert forall|k2: Seq<char>| am.entries.contains_key(k2) && k2 != k implies am.entries[k2]
            == m.entries[k2] by {
            assert(st.map.contains_key(k2));
            assert(live(st.slots, st.map[k2]));
        }
    }
    lemma_orders_live(st);
    lemma_keys_elsewhere(st.slots, st.lru, i, Some(entry));
    lemma_keys_elsewhere(st.slots, st.exp, i, Some(entry));
    assert(am.recency =~= in_front(k, m.recency));
    assert(am.expiry =~= in_front(k, m.expiry));
    assert(am =~= m.insert_fresh(k, entry.value, entry.exp as nat));
}

/// Making an occupied slot the head of the order of use leaves consistent
/// parts, which stand for the cache with the key of that slot moved to the
/// front of its order of use.
pub(crate) proof fn lemma_promote<T>(st: Store<T>, capacity: nat, ttl: nat, i: usize)
    requires
        st.consistent(),
        live(st.slots, i),
    ensures
        st.promoted(i).consistent(),
        st.promoted(i).model(capacity, ttl) == (CacheModel {
            recency: in_front(
                key_of(st.slots, i),
                without(st.model(capacity, ttl).recency, key_of(st.slots, i)),
            ),
            ..st.model(capacity, ttl)
        }),
        st.promoted(i).lru.len() == st.lru.len(),
{
    let k = key_of(st.slots, i);
    let pr = st.promoted(i);
    let rest = without(st.lru, i);
    assert(st.lru.contains(i));
    lemma_without(st.lru, i);
    lemma_in_front(i, rest);
    assert forall|j: usize|
        #![trigger live(pr.slots, j)]
        #![trigger pr.lru.contains(j)]
        live(pr.slots, j) <==> pr.lru.contains(j) by {
        assert(live(st.slots, j) <==> st.lru.contains(j));
    }
    lemma_keys_without(st, st.lru, i);
    let m = st.model(capacity, ttl);
    let pm = pr.model(capacity, ttl);
    assert(pm.recency =~= in_front(k, without(m.recency, k)));
    assert(pm =~= (CacheModel { recency: in_front(k, without(m.recency, k)), ..m }));
}

/// One more slot, unoccupied and listed as free, changes neither the
/// consistency of the parts nor the cache that they stand for.
pub(crate) proof fn lemma_grow<T>(st: Store<T>, capacity: nat, ttl: nat)
    requires
        st.consistent(),
        st.slots.len() <= usize::MAX,
    ensures
        st.grown().consistent(),
        st.grown().model(capacity, ttl) == st.model(capacity, ttl),
{
    let g = st.grown();
    let fresh = st.slots.len() as usize;
    assert(!st.free.contains(fresh));
    assert(g.free.no_duplicates()) by {
        assert forall|a: int, b: int| 0 <= a < g.free.len() && 0 <= b < g.free.len() && a
            != b implies g.free[a] != g.free[b] by {
            if a < st.free.len() {
                assert(st.free.contains(st.free[a]));
            }
            if b < st.free.len() {
                assert(st.free.contains(st.free[b]));
            }
        }
    }
    assert forall|j: usize| live(g.slots, j) <==> live(st.slots, j) by {}
    assert forall|j: usize|
        #![trigger live(g.slots, j)]
        #![trigger g.lru.contains(j)]
        live(g.slots, j) <==> g.lru.contains(j) by {
        assert(live(st.slots, j) <==> st.lru.contains(j));
    }
    assert forall|j: usize|
        #![trigger live(g.slots, j)]
        #![trigger g.exp.contains(j)]
        live(g.slots, j) <==> g.exp.contains(j) by {
        assert(live(st.slots, j) <==> st.exp.contains(j));
    }
    assert forall|j: usize| #[trigger] g.free.contains(j) implies j < g.slots.len() && !live(
        g.slots,
        j,
    ) by {
        let a = choose|a: int| 0 <= a < g.free.len() && g.free[a] == j;
        if a < st.free.len() {
            assert(st.free.contains(j));
        }
    }
    assert forall|k2: Seq<char>| #[trigger] g.map.contains_key(k2) implies live(
        g.slots,
        g.map[k2],
    ) && key_of(g.slots, g.map[k2]) == k2 by {
        assert(live(st.slots, st.map[k2]));
    }
    assert forall|j: usize| #[trigger] live(g.slots, j) implies g.map.contains_key(
        key_of(g.slots, j),
    ) && g.map[key_of(g.slots, j)] == j by {
        assert(live(st.slots, j));
    }
    let m = st.model(capacity, ttl);
    let gm = g.model(capacity, ttl);
    assert(gm.entries =~= m.entries) by {
        assert forall|k2: Seq<char>| gm.entries.contains_key(k2) implies gm.entries[k2]
            == m.entries[k2] by {
            assert(live(st.slots, st.map[k2]));
        }
    }
    lemma_orders_live(st);
    assert(gm.recency =~= m.recency);
    assert(gm.expiry =~= m.expiry);
    assert(gm =~= m);
}

} // verus!
