//! Strictly ascending lists, used as sets.

use vstd::prelude::*;

verus! {

/// A strict total order.
pub trait Ordered: Sized {
    spec fn less(self, other: Self) -> bool;

    proof fn irreflexive(a: Self)
        ensures
            !a.less(a),
    ;

    proof fn transitive(a: Self, b: Self, c: Self)
        requires
            a.less(b),
            b.less(c),
        ensures
            a.less(c),
    ;

    proof fn total(a: Self, b: Self)
        ensures
            a.less(b) || a == b || b.less(a),
    ;

    fn is_less(&self, other: &Self) -> (r: bool)
        ensures
            r == self.less(*other),
    ;
}

impl Ordered for (usize, usize) {
    open spec fn less(self, other: Self) -> bool {
        self.0 < other.0 || (self.0 == other.0 && self.1 < other.1)
    }

    proof fn irreflexive(a: Self) {
    }

    proof fn transitive(a: Self, b: Self, c: Self) {
    }

    proof fn total(a: Self, b: Self) {
    }

    fn is_less(&self, other: &Self) -> (r: bool) {
        self.0 < other.0 || (self.0 == other.0 && self.1 < other.1)
    }
}

/// Whether a list ascends strictly.
pub open spec fn sorted<T: Ordered>(list: Seq<T>) -> bool {
    forall|i: int, j: int| 0 <= i < j < list.len() ==> (#[trigger] list[i]).less(#[trigger] list[j])
}

/// Where `x` stands or would stand, and whether it stands there.
pub fn position<T: Ordered>(list: &Vec<T>, x: &T) -> (r: (usize, bool))
    requires
        sorted(list@),
    ensures
        r.0 <= list@.len(),
        r.1 == list@.contains(*x),
        r.1 ==> r.0 < list@.len() && list@[r.0 as int] == *x,
        forall|i: int| 0 <= i < r.0 ==> (#[trigger] list@[i]).less(*x),
        !r.1 ==> forall|i: int| r.0 <= i < list@.len() ==> x.less(#[trigger] list@[i]),
{
    let n: usize = list.len();
    let mut at: usize = 0;
    while at < n && list[at].is_less(x)
        invariant
            at <= n,
            n == list@.len(),
            forall|i: int| 0 <= i < at ==> (#[trigger] list@[i]).less(*x),
        decreases n - at,
    {
        at = at + 1;
    }
    if at < n {
        proof {
            T::total(list@[at as int], *x);
        }
        if x.is_less(&list[at]) {
            proof {
                assert forall|i: int| at <= i < n implies x.less(#[trigger] list@[i]) by {
                    if i > at {
                        T::transitive(*x, list@[at as int], list@[i]);
                    }
                }
                if list@.contains(*x) {
                    T::irreflexive(*x);
                }
            }
            (at, false)
        } else {
            (at, true)
        }
    } else {
        proof {
            if list@.contains(*x) {
                T::irreflexive(*x);
            }
        }
        (at, false)
    }
}

/// A list with one more element is sorted when the element is put where it belongs.
pub proof fn lemma_insert<T: Ordered>(list: Seq<T>, at: int, x: T)
    requires
        sorted(list),
        0 <= at <= list.len(),
        forall|i: int| 0 <= i < at ==> (#[trigger] list[i]).less(x),
        forall|i: int| at <= i < list.len() ==> x.less(#[trigger] list[i]),
    ensures
        sorted(list.insert(at, x)),
        forall|y: T| #[trigger] list.insert(at, x).contains(y) <==> list.contains(y) || y == x,
{
    let t = list.insert(at, x);
    assert forall|i: int, j: int| 0 <= i < j < t.len() implies (#[trigger] t[i]).less(#[trigger] t[j]) by {
        let a = if i < at { i } else { i - 1 };
        let b = if j < at { j } else { j - 1 };
        if i == at {
            assert(t[j] == list[b]);
        } else if j == at {
            assert(t[i] == list[a]);
        } else {
            assert(t[i] == list[a] && t[j] == list[b]);
        }
    }
    assert forall|y: T| #[trigger] t.contains(y) <==> list.contains(y) || y == x by {
        if t.contains(y) && y != x {
            let i = t.index_of(y);
            assert(list[if i < at { i } else { i - 1 }] == y);
        }
        if list.contains(y) {
            let i = list.index_of(y);
            assert(t[if i < at { i } else { i + 1 }] == y);
        }
        if y == x {
            assert(t[at] == x);
        }
    }
}

/// Add `x` to the set.
pub fn insert<T: Ordered>(list: &mut Vec<T>, x: T)
    requires
        sorted(old(list)@),
    ensures
        sorted(final(list)@),
        forall|y: T| #[trigger] final(list)@.contains(y) <==> old(list)@.contains(y) || y == x,
{
    let (at, found) = position(list, &x);
    if !found {
        proof {
            lemma_insert(list@, at as int, x);
        }
        list.insert(at, x);
    }
}

/// Sorted lists of the same elements are equal.
pub proof fn lemma_same_elements<T: Ordered>(a: Seq<T>, b: Seq<T>)
    requires
        sorted(a),
        sorted(b),
        forall|x: T| #[trigger] a.contains(x) <==> b.contains(x),
    ensures
        a == b,
    decreases a.len(),
{
    if a.len() == 0 {
        if b.len() > 0 {
            assert(b.contains(b[0]) && a.contains(b[0]));
        }
        assert(a =~= b);
    } else {
        let x = a.last();
        assert(a.contains(x) && b.contains(x));
        let y = b.last();
        assert(b.contains(y) && a.contains(y));
        let i = a.index_of(y);
        let j = b.index_of(x);
        if x != y {
            assert(a[i] == y && a[i].less(a[a.len() - 1]));
            assert(b[j] == x && b[j].less(b[b.len() - 1]));
            T::transitive(x, y, x);
            T::irreflexive(x);
        }
        let a1 = a.drop_last();
        let b1 = b.drop_last();
        assert forall|z: T| #[trigger] a1.contains(z) <==> b1.contains(z) by {
            T::irreflexive(x);
            if a1.contains(z) {
                let k = choose|k: int| 0 <= k < a1.len() && a1[k] == z;
                assert(a[k] == z && a[k].less(a[a.len() - 1]));
                assert(a.contains(a[k]));
                assert(b.contains(z));
                assert(b1[b.index_of(z)] == z);
            }
            if b1.contains(z) {
                let k = choose|k: int| 0 <= k < b1.len() && b1[k] == z;
                assert(b[k] == z && b[k].less(b[b.len() - 1]));
                assert(b.contains(z) && a.contains(z));
                assert(a1[a.index_of(z)] == z);
            }
        }
        lemma_same_elements(a1, b1);
        assert(a =~= a1.push(x));
        assert(b =~= b1.push(y));
    }
}

/// Where an element belongs in a sorted list.
proof fn lemma_place<T: Ordered>(list: Seq<T>, x: T) -> (at: int)
    requires
        sorted(list),
        !list.contains(x),
    ensures
        0 <= at <= list.len(),
        forall|i: int| 0 <= i < at ==> (#[trigger] list[i]).less(x),
        forall|i: int| at <= i < list.len() ==> x.less(#[trigger] list[i]),
    decreases list.len(),
{
    if list.len() == 0 {
        0
    } else {
        let last = list.last();
        assert(list.contains(list[list.len() - 1]));
        T::total(last, x);
        if last.less(x) {
            assert forall|i: int| 0 <= i < list.len() implies (#[trigger] list[i]).less(x) by {
                if i < list.len() - 1 {
                    assert(list[i].less(list[list.len() - 1]));
                    T::transitive(list[i], last, x);
                }
            }
            list.len() as int
        } else {
            let rest = list.drop_last();
            assert forall|i: int, j: int| 0 <= i < j < rest.len() implies (#[trigger] rest[i]).less(#[trigger] rest[j]) by {
                assert(list[i].less(list[j]));
            }
            if rest.contains(x) {
                let k = choose|k: int| 0 <= k < rest.len() && rest[k] == x;
                assert(list[k] == x);
            }
            let at = lemma_place(rest, x);
            assert forall|i: int| 0 <= i < at implies (#[trigger] list[i]).less(x) by {
                assert(rest[i].less(x));
            }
            assert forall|i: int| at <= i < list.len() implies x.less(#[trigger] list[i]) by {
                if i < rest.len() {
                    assert(x.less(rest[i]));
                }
            }
            at
        }
    }
}

/// The elements of a list can be sorted.
pub proof fn lemma_sort<T: Ordered>(list: Seq<T>) -> (r: Seq<T>)
    ensures
        sorted(r),
        forall|x: T| #[trigger] r.contains(x) <==> list.contains(x),
    decreases list.len(),
{
    if list.len() == 0 {
        list
    } else {
        let rest = list.drop_last();
        let x = list.last();
        let r = lemma_sort(rest);
        assert forall|y: T| list.contains(y) <==> rest.contains(y) || y == x by {
            if list.contains(y) && y != x {
                let k = choose|k: int| 0 <= k < list.len() && list[k] == y;
                assert(rest[k] == y);
            }
            if rest.contains(y) {
                let k = choose|k: int| 0 <= k < rest.len() && rest[k] == y;
                assert(list[k] == y);
            }
            if y == x {
                assert(list[list.len() - 1] == y);
            }
        }
        if r.contains(x) {
            r
        } else {
            let at = lemma_place(r, x);
            lemma_insert(r, at, x);
            r.insert(at, x)
        }
    }
}

} // verus!
