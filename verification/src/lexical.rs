//! Lexicographic order on lists of numbers and on lists of such lists.

use crate::shape::lists_of;
use vstd::prelude::*;

verus! {

/// Whether `a` comes before `b`: at the first difference it has the smaller
/// number, or it ends first.
pub open spec fn list_less(a: Seq<usize>, b: Seq<usize>) -> bool
    decreases a.len(),
{
    if b.len() == 0 {
        false
    } else if a.len() == 0 {
        true
    } else if a[0] == b[0] {
        list_less(a.drop_first(), b.drop_first())
    } else {
        a[0] < b[0]
    }
}

/// Whether `a` comes before `b`: at the first difference it has the smaller
/// list, or it ends first.
pub open spec fn lists_less(a: Seq<Seq<usize>>, b: Seq<Seq<usize>>) -> bool
    decreases a.len(),
{
    if b.len() == 0 {
        false
    } else if a.len() == 0 {
        true
    } else if a[0] == b[0] {
        lists_less(a.drop_first(), b.drop_first())
    } else {
        list_less(a[0], b[0])
    }
}

/// Whether score `a` is better than `b`: smaller at the first tier that differs.
pub open spec fn better(a: Seq<u64>, b: Seq<u64>) -> bool
    decreases a.len(),
{
    if a.len() == 0 || b.len() == 0 {
        false
    } else if a[0] == b[0] {
        better(a.drop_first(), b.drop_first())
    } else {
        a[0] < b[0]
    }
}

proof fn lemma_list_irreflexive(a: Seq<usize>)
    ensures
        !list_less(a, a),
    decreases a.len(),
{
    if a.len() > 0 {
        lemma_list_irreflexive(a.drop_first());
    }
}

proof fn lemma_list_transitive(a: Seq<usize>, b: Seq<usize>, c: Seq<usize>)
    requires
        list_less(a, b),
        list_less(b, c),
    ensures
        list_less(a, c),
    decreases a.len(),
{
    if a.len() > 0 && a[0] == b[0] && b[0] == c[0] {
        lemma_list_transitive(a.drop_first(), b.drop_first(), c.drop_first());
    }
}

proof fn lemma_list_total(a: Seq<usize>, b: Seq<usize>)
    ensures
        list_less(a, b) || a == b || list_less(b, a),
    decreases a.len(),
{
    if a.len() == 0 && b.len() == 0 {
        assert(a =~= b);
    } else if a.len() > 0 && b.len() > 0 && a[0] == b[0] {
        lemma_list_total(a.drop_first(), b.drop_first());
        if a.drop_first() == b.drop_first() {
            assert(a =~= seq![a[0]] + a.drop_first());
            assert(b =~= seq![b[0]] + b.drop_first());
        }
    }
}

pub proof fn lemma_lists_irreflexive(a: Seq<Seq<usize>>)
    ensures
        !lists_less(a, a),
    decreases a.len(),
{
    if a.len() > 0 {
        lemma_lists_irreflexive(a.drop_first());
    }
}

pub proof fn lemma_lists_transitive(a: Seq<Seq<usize>>, b: Seq<Seq<usize>>, c: Seq<Seq<usize>>)
    requires
        lists_less(a, b),
        lists_less(b, c),
    ensures
        lists_less(a, c),
    decreases a.len(),
{
    if a.len() > 0 {
        if a[0] == b[0] && b[0] == c[0] {
            lemma_lists_transitive(a.drop_first(), b.drop_first(), c.drop_first());
        } else if a[0] != b[0] && b[0] != c[0] {
            lemma_list_transitive(a[0], b[0], c[0]);
            if a[0] == c[0] {
                lemma_list_irreflexive(a[0]);
            }
        }
    }
}

pub proof fn lemma_lists_total(a: Seq<Seq<usize>>, b: Seq<Seq<usize>>)
    ensures
        lists_less(a, b) || a == b || lists_less(b, a),
    decreases a.len(),
{
    if a.len() == 0 && b.len() == 0 {
        assert(a =~= b);
    } else if a.len() > 0 && b.len() > 0 {
        if a[0] == b[0] {
            lemma_lists_total(a.drop_first(), b.drop_first());
            if a.drop_first() == b.drop_first() {
                assert(a =~= seq![a[0]] + a.drop_first());
                assert(b =~= seq![b[0]] + b.drop_first());
            }
        } else {
            lemma_list_total(a[0], b[0]);
        }
    }
}

pub proof fn lemma_better_irreflexive(a: Seq<u64>)
    ensures
        !better(a, a),
    decreases a.len(),
{
    if a.len() > 0 {
        lemma_better_irreflexive(a.drop_first());
    }
}

pub proof fn lemma_better_transitive(a: Seq<u64>, b: Seq<u64>, c: Seq<u64>)
    requires
        better(a, b),
        better(b, c),
    ensures
        better(a, c),
    decreases a.len(),
{
    if a[0] == b[0] && b[0] == c[0] {
        lemma_better_transitive(a.drop_first(), b.drop_first(), c.drop_first());
    }
}

/// Of two scores of the same length, one is better or they are equal.
pub proof fn lemma_better_total(a: Seq<u64>, b: Seq<u64>)
    requires
        a.len() == b.len(),
    ensures
        better(a, b) || a == b || better(b, a),
    decreases a.len(),
{
    if a.len() == 0 {
        assert(a =~= b);
    } else if a[0] == b[0] {
        lemma_better_total(a.drop_first(), b.drop_first());
        if a.drop_first() == b.drop_first() {
            assert(a =~= seq![a[0]] + a.drop_first());
            assert(b =~= seq![b[0]] + b.drop_first());
        }
    }
}

/// Lexicographic comparison, smaller is better.
pub fn better_score(a: &Vec<u64>, b: &Vec<u64>) -> (r: bool)
    ensures
        r == better(a@, b@),
{
    let mut i: usize = 0;
    assert(a@.skip(0) =~= a@);
    assert(b@.skip(0) =~= b@);
    while i < a.len() && i < b.len()
        invariant
            i <= a@.len(),
            i <= b@.len(),
            better(a@, b@) == better(a@.skip(i as int), b@.skip(i as int)),
        decreases a@.len() - i,
    {
        assert(a@.skip(i as int)[0] == a@[i as int] && b@.skip(i as int)[0] == b@[i as int]);
        assert(a@.skip(i as int).drop_first() =~= a@.skip(i + 1));
        assert(b@.skip(i as int).drop_first() =~= b@.skip(i + 1));
        if a[i] < b[i] {
            return true;
        }
        if a[i] > b[i] {
            return false;
        }
        i = i + 1;
    }
    false
}

/// Whether one list comes before another.
fn list_before(a: &Vec<usize>, b: &Vec<usize>) -> (r: bool)
    ensures
        r == list_less(a@, b@),
{
    let mut i: usize = 0;
    assert(a@.skip(0) =~= a@);
    assert(b@.skip(0) =~= b@);
    while i < a.len() && i < b.len()
        invariant
            i <= a@.len(),
            i <= b@.len(),
            list_less(a@, b@) == list_less(a@.skip(i as int), b@.skip(i as int)),
        decreases a@.len() - i,
    {
        assert(a@.skip(i as int)[0] == a@[i as int] && b@.skip(i as int)[0] == b@[i as int]);
        assert(a@.skip(i as int).drop_first() =~= a@.skip(i + 1));
        assert(b@.skip(i as int).drop_first() =~= b@.skip(i + 1));
        if a[i] < b[i] {
            return true;
        }
        if a[i] > b[i] {
            return false;
        }
        i = i + 1;
    }
    i < b.len()
}

/// Whether two lists are the same.
pub fn same_list(a: &Vec<usize>, b: &Vec<usize>) -> (r: bool)
    ensures
        r == (a@ == b@),
{
    if a.len() != b.len() {
        return false;
    }
    let mut i: usize = 0;
    while i < a.len()
        invariant
            i <= a@.len(),
            a@.len() == b@.len(),
            forall|j: int| 0 <= j < i ==> #[trigger] a@[j] == b@[j],
        decreases a@.len() - i,
    {
        if a[i] != b[i] {
            return false;
        }
        i = i + 1;
    }
    assert(a@ =~= b@);
    true
}

/// Whether one list of lists comes before another.
pub fn lists_before(a: &Vec<Vec<usize>>, b: &Vec<Vec<usize>>) -> (r: bool)
    ensures
        r == lists_less(lists_of(a@), lists_of(b@)),
{
    let ghost x = lists_of(a@);
    let ghost y = lists_of(b@);
    let mut i: usize = 0;
    assert(x.skip(0) =~= x);
    assert(y.skip(0) =~= y);
    while i < a.len() && i < b.len()
        invariant
            i <= a@.len(),
            i <= b@.len(),
            x == lists_of(a@),
            y == lists_of(b@),
            lists_less(x, y) == lists_less(x.skip(i as int), y.skip(i as int)),
        decreases a@.len() - i,
    {
        assert(x.skip(i as int)[0] == a@[i as int]@ && y.skip(i as int)[0] == b@[i as int]@);
        assert(x.skip(i as int).drop_first() =~= x.skip(i + 1));
        assert(y.skip(i as int).drop_first() =~= y.skip(i + 1));
        if !same_list(&a[i], &b[i]) {
            return list_before(&a[i], &b[i]);
        }
        i = i + 1;
    }
    i < b.len()
}

/// Whether two lists of lists are the same.
pub fn same_lists(a: &Vec<Vec<usize>>, b: &Vec<Vec<usize>>) -> (r: bool)
    ensures
        r == (lists_of(a@) == lists_of(b@)),
{
    let ghost x = lists_of(a@);
    let ghost y = lists_of(b@);
    if a.len() != b.len() {
        assert(x.len() != y.len());
        return false;
    }
    let mut i: usize = 0;
    while i < a.len()
        invariant
            i <= a@.len(),
            a@.len() == b@.len(),
            x == lists_of(a@),
            y == lists_of(b@),
            forall|j: int| 0 <= j < i ==> #[trigger] x[j] == y[j],
        decreases a@.len() - i,
    {
        if !same_list(&a[i], &b[i]) {
            assert(x[i as int] != y[i as int]);
            return false;
        }
        i = i + 1;
    }
    assert(x =~= y);
    true
}

/// Whether the lists agree before place `i`.
pub open spec fn same_until<T>(a: Seq<T>, b: Seq<T>, i: int) -> bool {
    &&& 0 <= i <= a.len()
    &&& i <= b.len()
    &&& forall|j: int| 0 <= j < i ==> #[trigger] a[j] == b[j]
}

proof fn lemma_same_until<T>(a: Seq<T>, b: Seq<T>, i: int)
    requires
        a.len() > 0,
        b.len() > 0,
        a[0] == b[0],
    ensures
        same_until(a.drop_first(), b.drop_first(), i) ==> same_until(a, b, i + 1),
        i > 0 && same_until(a, b, i) ==> same_until(a.drop_first(), b.drop_first(), i - 1),
{
    if same_until(a.drop_first(), b.drop_first(), i) {
        assert forall|j: int| 0 <= j < i + 1 implies #[trigger] a[j] == b[j] by {
            if j > 0 {
                assert(a.drop_first()[j - 1] == b.drop_first()[j - 1]);
            }
        }
    }
    if i > 0 && same_until(a, b, i) {
        assert forall|j: int| 0 <= j < i - 1 implies #[trigger] a.drop_first()[j] == b.drop_first()[j] by {
            assert(a[j + 1] == b[j + 1]);
        }
    }
}

/// Of two scores with as many tiers, the better one is smaller at the first tier
/// that differs.
pub proof fn better_scores_are_smaller_first(a: Seq<u64>, b: Seq<u64>)
    ensures
        better(a, b) <==> exists|i: int| #[trigger] same_until(a, b, i) && i < a.len() && i < b.len() && a[i] < b[i],
    decreases a.len(),
{
    if a.len() > 0 && b.len() > 0 {
        if a[0] == b[0] {
            let (x, y) = (a.drop_first(), b.drop_first());
            better_scores_are_smaller_first(x, y);
            if better(x, y) {
                let i = choose|i: int| #[trigger] same_until(x, y, i) && i < x.len() && i < y.len() && x[i] < y[i];
                lemma_same_until(a, b, i);
                assert(same_until(a, b, i + 1) && a[i + 1] < b[i + 1]);
            }
            if exists|i: int| #[trigger] same_until(a, b, i) && i < a.len() && i < b.len() && a[i] < b[i] {
                let i = choose|i: int| #[trigger] same_until(a, b, i) && i < a.len() && i < b.len() && a[i] < b[i];
                lemma_same_until(a, b, i);
                assert(same_until(x, y, i - 1) && x[i - 1] < y[i - 1]);
            }
        } else {
            assert(same_until(a, b, 0));
        }
    }
}

/// A list comes before another that is greater at the first difference, or that
/// goes on where it ends.
pub proof fn lists_are_ordered_by_the_first_difference(a: Seq<usize>, b: Seq<usize>)
    ensures
        list_less(a, b) <==> exists|i: int| #[trigger]
            same_until(a, b, i) && i < b.len() && (i == a.len() || a[i] < b[i]),
    decreases a.len(),
{
    if b.len() > 0 {
        if a.len() == 0 {
            assert(same_until(a, b, 0));
        } else if a[0] == b[0] {
            let (x, y) = (a.drop_first(), b.drop_first());
            lists_are_ordered_by_the_first_difference(x, y);
            if list_less(x, y) {
                let i = choose|i: int| #[trigger] same_until(x, y, i) && i < y.len() && (i == x.len() || x[i] < y[i]);
                lemma_same_until(a, b, i);
                assert(same_until(a, b, i + 1));
            }
            if exists|i: int| #[trigger] same_until(a, b, i) && i < b.len() && (i == a.len() || a[i] < b[i]) {
                let i = choose|i: int| #[trigger] same_until(a, b, i) && i < b.len() && (i == a.len() || a[i] < b[i]);
                lemma_same_until(a, b, i);
                assert(same_until(x, y, i - 1));
            }
        } else {
            assert(same_until(a, b, 0));
        }
    }
}

/// A list of lists comes before another whose list at the first difference is
/// greater, or that goes on where it ends.
pub proof fn lists_of_lists_are_ordered_by_the_first_difference(a: Seq<Seq<usize>>, b: Seq<Seq<usize>>)
    ensures
        lists_less(a, b) <==> exists|i: int| #[trigger]
            same_until(a, b, i) && i < b.len() && (i == a.len() || list_less(a[i], b[i])),
    decreases a.len(),
{
    if b.len() > 0 {
        if a.len() == 0 {
            assert(same_until(a, b, 0));
        } else if a[0] == b[0] {
            let (x, y) = (a.drop_first(), b.drop_first());
            lists_of_lists_are_ordered_by_the_first_difference(x, y);
            if lists_less(x, y) {
                let i = choose|i: int| #[trigger]
                    same_until(x, y, i) && i < y.len() && (i == x.len() || list_less(x[i], y[i]));
                lemma_same_until(a, b, i);
                assert(same_until(a, b, i + 1));
            }
            if exists|i: int| #[trigger] same_until(a, b, i) && i < b.len() && (i == a.len() || list_less(a[i], b[i])) {
                let i = choose|i: int| #[trigger]
                    same_until(a, b, i) && i < b.len() && (i == a.len() || list_less(a[i], b[i]));
                if i == 0 {
                    lemma_list_irreflexive(a[0]);
                }
                lemma_same_until(a, b, i);
                assert(same_until(x, y, i - 1));
            }
        } else {
            assert(same_until(a, b, 0));
            if exists|i: int| #[trigger] same_until(a, b, i) && i < b.len() && (i == a.len() || list_less(a[i], b[i])) {
                let i = choose|i: int| #[trigger]
                    same_until(a, b, i) && i < b.len() && (i == a.len() || list_less(a[i], b[i]));
                if i > 0 {
                    assert(a[0] == b[0]);
                }
            }
        }
    }
}

} // verus!
