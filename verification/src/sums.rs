//! Places of sequences and sums over them.

use vstd::prelude::*;

verus! {

/// The sum of a sequence.
pub open spec fn sum(list: Seq<nat>) -> nat {
    list.fold_left(0nat, |total: nat, x: nat| total + x)
}

pub(crate) proof fn lemma_sum_empty()
    ensures
        sum(Seq::<nat>::empty()) == 0,
{
}

/// One more number adds itself to the sum.
pub(crate) proof fn lemma_sum_push(list: Seq<nat>, x: nat)
    ensures
        sum(list.push(x)) == sum(list) + x,
{
    assert(list.push(x).drop_last() =~= list);
}

/// No number exceeds the sum.
pub proof fn numbers_do_not_exceed_their_sum(list: Seq<nat>, i: int)
    requires
        0 <= i < list.len(),
    ensures
        list[i] <= sum(list),
    decreases list.len(),
{
    let rest = list.drop_last();
    assert(rest.push(list.last()) =~= list);
    lemma_sum_push(rest, list.last());
    if i < rest.len() {
        numbers_do_not_exceed_their_sum(rest, i);
    }
}

/// The sum of two sequences one after the other is that of their sums.
pub proof fn sums_add_up(a: Seq<nat>, b: Seq<nat>)
    ensures
        sum(a + b) == sum(a) + sum(b),
    decreases b.len(),
{
    if b.len() == 0 {
        assert(a + b =~= a);
    } else {
        let rest = b.drop_last();
        sums_add_up(a, rest);
        assert((a + rest).push(b.last()) =~= a + b);
        assert(rest.push(b.last()) =~= b);
        lemma_sum_push(a + rest, b.last());
        lemma_sum_push(rest, b.last());
    }
}

/// The places below `n`, ascending.
pub open spec fn places(n: nat) -> Seq<int> {
    Seq::new(n, |i: int| i)
}

} // verus!
