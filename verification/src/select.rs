//! Keeping the marked items of a collection, in their order.

use vstd::prelude::*;

verus! {

/// The items of `s` whose mark is set, in the order they have in `s`. An item
/// at a position for which there is no mark counts as not marked.
pub open spec fn picked<T>(s: Seq<T>, marks: Seq<bool>) -> Seq<T>
    decreases s.len(),
{
    if s.len() == 0 {
        Seq::empty()
    } else if s.len() <= marks.len() && marks[s.len() - 1] {
        picked(s.drop_last(), marks).push(s.last())
    } else {
        picked(s.drop_last(), marks)
    }
}

/// Picking by marks that agree with a predicate on every item is filtering by
/// that predicate.
pub proof fn lemma_picked_is_filter<T>(s: Seq<T>, marks: Seq<bool>, pred: spec_fn(T) -> bool)
    requires
        s.len() <= marks.len(),
        forall|i: int| 0 <= i < s.len() ==> marks[i] == pred(#[trigger] s[i]),
    ensures
        picked(s, marks) == s.filter(pred),
    decreases s.len(),
{
    reveal(Seq::filter);
    if s.len() > 0 {
        let front = s.drop_last();
        assert forall|i: int| 0 <= i < front.len() implies marks[i] == pred(#[trigger] front[i]) by {
            assert(front[i] == s[i]);
        }
        lemma_picked_is_filter(front, marks, pred);
    }
}

/// Filtering what a filter kept, by the same predicate, drops nothing more.
pub proof fn lemma_filter_twice<T>(s: Seq<T>, pred: spec_fn(T) -> bool)
    ensures
        s.filter(pred).filter(pred) == s.filter(pred),
    decreases s.len(),
{
    reveal(Seq::filter);
    if s.len() > 0 {
        lemma_filter_twice(s.drop_last(), pred);
        let kept = s.drop_last().filter(pred);
        if pred(s.last()) {
            assert(kept.push(s.last()).drop_last() =~= kept);
        }
    }
}

/// Keeps the items whose mark is set and drops the others, those without a
/// mark among them.
pub fn retain_marked<T>(items: Vec<T>, marks: &Vec<bool>) -> (r: Vec<T>)
    ensures
        r@ == picked(items@, marks@),
{
    let ghost all = items@;
    let n: usize = items.len();
    let mut out: Vec<T> = Vec::new();
    let mut i: usize = 0;
    for item in it: items
        invariant
            it.seq() == all,
            all.len() == n,
            i == it.index(),
            out@ == picked(all.take(i as int), marks@),
    {
        proof {
            assert(all.take(i + 1).drop_last() =~= all.take(i as int));
        }
        if i < marks.len() && marks[i] {
            out.push(item);
        }
        i += 1;
    }
    proof {
        assert(all.take(i as int) =~= all);
    }
    out
}

} // verus!
