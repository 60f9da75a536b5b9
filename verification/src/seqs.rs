//! Sequences without repetition: taking one element out, putting one in front.
use vstd::prelude::*;

verus! {

/// `s` with the element `x` taken out, the others in their order. Where `x`
/// does not occur, `s` itself.
pub open spec fn without<A>(s: Seq<A>, x: A) -> Seq<A> {
    if s.contains(x) {
        s.remove(s.index_of(x))
    } else {
        s
    }
}

/// `x` in front of `s`.
pub open spec fn in_front<A>(x: A, s: Seq<A>) -> Seq<A> {
    seq![x] + s
}

/// In a sequence without repetition, an element is found where it stands.
pub proof fn lemma_index_of_at<A>(s: Seq<A>, p: int)
    requires
        s.no_duplicates(),
        0 <= p < s.len(),
    ensures
        s.contains(s[p]),
        s.index_of(s[p]) == p,
        without(s, s[p]) == s.remove(p),
{
    let q = s.index_of(s[p]);
    assert(0 <= q < s.len() && s[q] == s[p]);
}

/// What taking an element out of a sequence without repetition leaves.
pub proof fn lemma_without<A>(s: Seq<A>, x: A)
    requires
        s.no_duplicates(),
    ensures
        without(s, x).no_duplicates(),
        !without(s, x).contains(x),
        forall|y: A| y != x ==> (#[trigger] without(s, x).contains(y) <==> s.contains(y)),
        without(s, x).len() == (if s.contains(x) {
            s.len() - 1
        } else {
            s.len() as int
        }),
        !s.contains(x) ==> without(s, x) == s,
{
    if s.contains(x) {
        let p = s.index_of(x);
        let r = s.remove(p);
        assert(0 <= p < s.len() && s[p] == x);
        assert forall|i: int| 0 <= i < r.len() implies #[trigger] r[i] == s[if i < p {
            i
        } else {
            i + 1
        }] by {}
        assert(r.no_duplicates()) by {
            assert forall|i: int, j: int| 0 <= i < r.len() && 0 <= j < r.len() && i != j implies r[i]
                != r[j] by {
                let si = if i < p { i } else { i + 1 };
                let sj = if j < p { j } else { j + 1 };
                assert(r[i] == s[si] && r[j] == s[sj]);
            }
        }
        assert(!r.contains(x)) by {
            if r.contains(x) {
                let i = choose|i: int| 0 <= i < r.len() && r[i] == x;
                let si = if i < p { i } else { i + 1 };
                assert(r[i] == s[si]);
            }
        }
        assert forall|y: A| y != x implies (#[trigger] r.contains(y) <==> s.contains(y)) by {
            if r.contains(y) {
                let i = choose|i: int| 0 <= i < r.len() && r[i] == y;
                let si = if i < p { i } else { i + 1 };
                assert(r[i] == s[si]);
                assert(s.contains(y));
            }
            if s.contains(y) {
                let j = choose|j: int| 0 <= j < s.len() && s[j] == y;
                let i = if j < p { j } else { j - 1 };
                assert(r[i] == s[j]);
                assert(r.contains(y));
            }
        }
    }
}

/// What putting a new element in front of a sequence without repetition gives.
pub proof fn lemma_in_front<A>(x: A, s: Seq<A>)
    requires
        s.no_duplicates(),
        !s.contains(x),
    ensures
        in_front(x, s).no_duplicates(),
        in_front(x, s).len() == s.len() + 1,
        in_front(x, s)[0] == x,
        forall|i: int| 0 <= i < s.len() ==> #[trigger] in_front(x, s)[i + 1] == s[i],
        forall|y: A| #[trigger] in_front(x, s).contains(y) <==> (y == x || s.contains(y)),
        without(in_front(x, s), x) == s,
{
    let r = in_front(x, s);
    assert forall|i: int, j: int| 0 <= i < r.len() && 0 <= j < r.len() && i != j implies r[i]
        != r[j] by {
        if i > 0 {
            assert(r[i] == s[i - 1]);
            assert(s.contains(r[i]));
        }
        if j > 0 {
            assert(r[j] == s[j - 1]);
            assert(s.contains(r[j]));
        }
    }
    assert forall|y: A| #[trigger] r.contains(y) <==> (y == x || s.contains(y)) by {
        if r.contains(y) {
            let i = choose|i: int| 0 <= i < r.len() && r[i] == y;
            if i > 0 {
                assert(r[i] == s[i - 1]);
                assert(s.contains(y));
            }
        }
        if y == x {
            assert(r[0] == y);
        }
        if s.contains(y) {
            let j = choose|j: int| 0 <= j < s.len() && s[j] == y;
            assert(r[j + 1] == y);
        }
    }
    assert(r[0] == x);
    lemma_index_of_at(r, 0);
    assert(r.remove(0) =~= s);
}

} // verus!
