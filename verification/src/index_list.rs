//! A doubly linked list over slot numbers.
//!
//! The list does not own what it orders. It keeps, for every slot of some
//! table, the slot before and the slot after, together with the two ends.
//! Linking and unlinking a slot touch only the slot and its two neighbours.
use crate::seqs::in_front;
use crate::seqs::lemma_in_front;
use crate::seqs::lemma_without;
use crate::seqs::without;
use vstd::prelude::*;

verus! {

/// The neighbours of one slot: towards the head and towards the tail.
#[derive(Clone, Copy)]
struct Link {
    prev: Option<usize>,
    next: Option<usize>,
}

/// An order over some of the slots `0 .. slots()`, head first.
pub struct IndexList {
    head: Option<usize>,
    tail: Option<usize>,
    links: Vec<Link>,
    order: Ghost<Seq<usize>>,
}

/// The slot that stands before position `p`, if any.
spec fn before(order: Seq<usize>, p: int) -> Option<usize> {
    if p == 0 {
        None
    } else {
        Some(order[p - 1])
    }
}

/// The slot that stands after position `p`, if any.
spec fn after(order: Seq<usize>, p: int) -> Option<usize> {
    if p == order.len() - 1 {
        None
    } else {
        Some(order[p + 1])
    }
}

/// The first slot of an order, if any.
pub open spec fn first_of(order: Seq<usize>) -> Option<usize> {
    if order.len() == 0 {
        None
    } else {
        Some(order[0])
    }
}

/// The last slot of an order, if any.
pub open spec fn last_of(order: Seq<usize>) -> Option<usize> {
    if order.len() == 0 {
        None
    } else {
        Some(order[order.len() - 1])
    }
}

/// The slot at position `p` of `order` names its two neighbours in `links`.
spec fn names_neighbours(links: Seq<Link>, order: Seq<usize>, p: int) -> bool {
    &&& order[p] < links.len()
    &&& links[order[p] as int].prev == before(order, p)
    &&& links[order[p] as int].next == after(order, p)
}

/// Slot `i` names no neighbour.
spec fn names_none(links: Seq<Link>, i: usize) -> bool {
    links[i as int].prev is None && links[i as int].next is None
}

/// Each slot of `order` names its two neighbours in `links`, and each slot
/// outside `order` names none.
spec fn linked_as(links: Seq<Link>, order: Seq<usize>) -> bool {
    &&& forall|p: int| 0 <= p < order.len() ==> #[trigger] names_neighbours(links, order, p)
    &&& forall|i: usize| i < links.len() && !order.contains(i) ==> #[trigger] names_none(links, i)
}

/// The links after slot `i` has been cut out: the slot before it is joined
/// to the slot after it, and `i` itself names no neighbour.
spec fn cut(links: Seq<Link>, i: usize) -> Seq<Link> {
    let prev = links[i as int].prev;
    let next = links[i as int].next;
    let joined_before = match prev {
        Some(a) => links.update(a as int, Link { prev: links[a as int].prev, next }),
        None => links,
    };
    let joined_after = match next {
        Some(b) => joined_before.update(
            b as int,
            Link { prev, next: joined_before[b as int].next },
        ),
        None => joined_before,
    };
    joined_after.update(i as int, Link { prev: None, next: None })
}

/// The links after the unlinked slot `i` has been put before the head.
spec fn joined(links: Seq<Link>, head: Option<usize>, i: usize) -> Seq<Link> {
    let met = match head {
        Some(h) => links.update(h as int, Link { prev: Some(i), next: links[h as int].next }),
        None => links,
    };
    met.update(i as int, Link { prev: None, next: head })
}

/// Cutting the slot at position `p` out of the links leaves the slot at
/// position `q` of the remaining order with the neighbours it has there.
proof fn lemma_cut_linked(links: Seq<Link>, order: Seq<usize>, p: int, q: int)
    requires
        order.no_duplicates(),
        linked_as(links, order),
        0 <= p < order.len(),
        0 <= q < order.len() - 1,
    ensures
        names_neighbours(cut(links, order[p]), order.remove(p), q),
{
    let i = order[p];
    let rest = order.remove(p);
    let now = cut(links, i);
    let s = if q < p { q } else { q + 1 };
    assert(names_neighbours(links, order, p));
    assert(names_neighbours(links, order, s));
    assert(rest[q] == order[s]);
    if p > 0 {
        assert(names_neighbours(links, order, p - 1));
    }
    if p < order.len() - 1 {
        assert(names_neighbours(links, order, p + 1));
    }
    if q > 0 {
        assert(rest[q - 1] == order[if q - 1 < p { q - 1 } else { q }]);
    }
    if q < rest.len() - 1 {
        assert(rest[q + 1] == order[if q + 1 < p { q + 1 } else { q + 2 }]);
    }
}

/// Cutting slot `i` out of the links of an order gives the links of the
/// order without `i`.
proof fn lemma_cut(links: Seq<Link>, order: Seq<usize>, i: usize)
    requires
        order.no_duplicates(),
        linked_as(links, order),
        i < links.len(),
    ensures
        linked_as(cut(links, i), without(order, i)),
        cut(links, i).len() == links.len(),
        names_none(cut(links, i), i),
{
    let rest = without(order, i);
    let now = cut(links, i);
    lemma_without(order, i);
    if order.contains(i) {
        let p = order.index_of(i);
        assert(0 <= p < order.len() && order[p] == i);
        assert(rest == order.remove(p));
        assert(names_neighbours(links, order, p));
        if p > 0 {
            assert(names_neighbours(links, order, p - 1));
            assert(order.contains(order[p - 1]));
        }
        if p < order.len() - 1 {
            assert(names_neighbours(links, order, p + 1));
            assert(order.contains(order[p + 1]));
        }
        assert forall|q: int| 0 <= q < rest.len() implies #[trigger] names_neighbours(
            now,
            rest,
            q,
        ) by {
            lemma_cut_linked(links, order, p, q);
        }
        assert forall|j: usize| j < now.len() && !rest.contains(j) implies #[trigger] names_none(
            now,
            j,
        ) by {
            if j != i {
                assert(!order.contains(j));
                assert(names_none(links, j));
                assert(now[j as int] == links[j as int]);
            }
        }
    } else {
        assert(names_none(links, i));
        assert(now =~= links);
    }
}

/// Putting the unlinked slot `i` before the head of an order gives the links
/// of the order with `i` in front.
proof fn lemma_joined(links: Seq<Link>, order: Seq<usize>, i: usize)
    requires
        order.no_duplicates(),
        linked_as(links, order),
        i < links.len(),
        !order.contains(i),
    ensures
        linked_as(joined(links, first_of(order), i), in_front(i, order)),
        joined(links, first_of(order), i).len() == links.len(),
{
    let full = in_front(i, order);
    let now = joined(links, first_of(order), i);
    lemma_in_front(i, order);
    if order.len() > 0 {
        assert(names_neighbours(links, order, 0));
        assert(order.contains(order[0]));
    }
    assert forall|q: int| 0 <= q < full.len() implies #[trigger] names_neighbours(now, full, q) by {
        if q > 0 {
            assert(full[q] == order[q - 1]);
            assert(names_neighbours(links, order, q - 1));
            assert(order.contains(order[q - 1]));
            if q > 1 {
                assert(full[q - 1] == order[q - 2]);
                assert(order[q - 1] != order[0]);
            }
            if q < full.len() - 1 {
                assert(full[q + 1] == order[q]);
            }
        } else {
            if full.len() > 1 {
                assert(full[1] == order[0]);
            }
        }
    }
    assert forall|j: usize| j < now.len() && !full.contains(j) implies #[trigger] names_none(
        now,
        j,
    ) by {
        assert(!order.contains(j));
        assert(names_none(links, j));
        assert(now[j as int] == links[j as int]);
    }
}

impl View for IndexList {
    type V = Seq<usize>;

    /// The linked slots, head first.
    closed spec fn view(&self) -> Seq<usize> {
        self.order@
    }
}

impl IndexList {
    /// How many slots the list has links for.
    pub closed spec fn slots(&self) -> nat {
        self.links@.len()
    }

    /// The stored links say what the order says: the ends are its first and
    /// last slot, each linked slot names its two neighbours, and a slot
    /// outside the order names none.
    pub closed spec fn links_agree(&self) -> bool {
        &&& self.head == first_of(self.order@)
        &&& self.tail == last_of(self.order@)
        &&& linked_as(self.links@, self.order@)
    }

    /// No slot is linked twice, every linked slot exists, and the links agree
    /// with the order.
    pub open spec fn wf(&self) -> bool {
        &&& self@.no_duplicates()
        &&& forall|p: int| 0 <= p < self@.len() ==> (#[trigger] self@[p]) < self.slots()
        &&& self.links_agree()
    }

    /// A list with no slots.
    pub fn new() -> (list: Self)
        ensures
            list.wf(),
            list@ == Seq::<usize>::empty(),
            list.slots() == 0,
    {
        IndexList { head: None, tail: None, links: Vec::new(), order: Ghost(Seq::empty()) }
    }

    /// Adds one slot, unlinked, and returns its number.
    pub fn add_slot(&mut self) -> (id: usize)
        requires
            old(self).wf(),
        ensures
            final(self).wf(),
            final(self)@ == old(self)@,
            id == old(self).slots(),
            final(self).slots() == old(self).slots() + 1,
    {
        let id: usize = self.links.len();
        self.links.push(Link { prev: None, next: None });
        proof {
            let order = self.order@;
            let links = old(self).links@;
            let now = self.links@;
            assert forall|p: int| 0 <= p < order.len() implies #[trigger] names_neighbours(
                now,
                order,
                p,
            ) by {
                assert(names_neighbours(links, order, p));
            }
            assert forall|i: usize| i < now.len() && !order.contains(i) implies #[trigger] names_none(
                now,
                i,
            ) by {
                if i < id {
                    assert(names_none(links, i));
                }
            }
        }
        id
    }

    /// The slot at the head, if the list is not empty.
    pub fn head(&self) -> (r: Option<usize>)
        requires
            self.wf(),
        ensures
            r == first_of(self@),
    {
        self.head
    }

    /// The slot at the tail, if the list is not empty.
    pub fn tail(&self) -> (r: Option<usize>)
        requires
            self.wf(),
        ensures
            r == last_of(self@),
    {
        self.tail
    }

    /// Takes slot `i` out of the list, closing the gap between its
    /// neighbours. A slot that is not linked is left as it is.
    pub fn unlink(&mut self, i: usize)
        requires
            old(self).wf(),
            i < old(self).slots(),
        ensures
            final(self).wf(),
            final(self)@ == without(old(self)@, i),
            final(self).slots() == old(self).slots(),
    {
        let ghost order = self.order@;
        let ghost links = self.links@;
        let prev = self.links[i].prev;
        let next = self.links[i].next;
        let at_head = match self.head {
            Some(h) => h == i,
            None => false,
        };
        let at_tail = match self.tail {
            Some(t) => t == i,
            None => false,
        };
        proof {
            lemma_without(order, i);
            lemma_cut(links, order, i);
            if order.contains(i) {
                let p = order.index_of(i);
                assert(0 <= p < order.len() && order[p] == i);
                assert(names_neighbours(links, order, p));
                assert(at_head <==> p == 0);
                assert(at_tail <==> p == order.len() - 1);
                if p > 0 {
                    assert(names_neighbours(links, order, p - 1));
                }
                if p < order.len() - 1 {
                    assert(names_neighbours(links, order, p + 1));
                }
            } else {
                if order.len() > 0 {
                    assert(order.contains(order[0]));
                    assert(order.contains(order[order.len() - 1]));
                }
                assert(names_none(links, i));
            }
        }
        match prev {
            Some(a) => {
                let a_prev = self.links[a].prev;
                self.links.set(a, Link { prev: a_prev, next });
            },
            None => {},
        }
        match next {
            Some(b) => {
                let b_next = self.links[b].next;
                self.links.set(b, Link { prev, next: b_next });
            },
            None => {},
        }
        if at_head {
            self.head = next;
        }
        if at_tail {
            self.tail = prev;
        }
        self.links.set(i, Link { prev: None, next: None });
        self.order = Ghost(without(order, i));
        proof {
            let rest = without(order, i);
            assert(self.links@ == cut(links, i));
            if order.contains(i) {
                let p = order.index_of(i);
                assert(rest == order.remove(p));
                if rest.len() > 0 {
                    assert(rest[0] == order[if 0 < p { 0int } else { 1int }]);
                    assert(rest[rest.len() - 1] == order[if rest.len() - 1 < p {
                        rest.len() - 1
                    } else {
                        rest.len() as int
                    }]);
                }
            }
            assert forall|q: int| 0 <= q < rest.len() implies (#[trigger] rest[q]) < self.slots() by {
                assert(names_neighbours(self.links@, rest, q));
            }
        }
    }

    /// Makes slot `i` the head: a linked slot is first taken out of its
    /// place, an unlinked one is simply put in front.
    pub fn push_front(&mut self, i: usize)
        requires
            old(self).wf(),
            i < old(self).slots(),
        ensures
            final(self).wf(),
            final(self)@ == in_front(i, without(old(self)@, i)),
            final(self).slots() == old(self).slots(),
    {
        self.unlink(i);
        let ghost order = self.order@;
        let ghost links = self.links@;
        let old_head = self.head;
        proof {
            lemma_without(old(self)@, i);
            lemma_in_front(i, order);
            lemma_joined(links, order, i);
            if order.len() > 0 {
                assert(names_neighbours(links, order, 0));
            }
        }
        match old_head {
            Some(h) => {
                let h_next = self.links[h].next;
                self.links.set(h, Link { prev: Some(i), next: h_next });
            },
            None => {
                self.tail = Some(i);
            },
        }
        self.links.set(i, Link { prev: None, next: old_head });
        self.head = Some(i);
        self.order = Ghost(in_front(i, order));
        proof {
            let full = in_front(i, order);
            assert(self.links@ == joined(links, old_head, i));
            if order.len() > 0 {
                assert(full[full.len() - 1] == order[order.len() - 1]);
            }
            assert forall|q: int| 0 <= q < full.len() implies (#[trigger] full[q]) < self.slots() by {
                assert(names_neighbours(self.links@, full, q));
            }
        }
    }
}

} // verus!
