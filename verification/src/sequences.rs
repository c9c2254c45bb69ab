//! Facts about filtered sequences.

use vstd::prelude::*;

verus! {

/// What passes a filter satisfies it and stood in the sequence.
pub proof fn lemma_filter_source<A>(items: Seq<A>, pred: spec_fn(A) -> bool, rank: int)
    requires
        0 <= rank < items.filter(pred).len(),
    ensures
        exists|k: int|
            0 <= k < items.len() && (#[trigger] items[k]) == items.filter(pred)[rank] && pred(
                items[k],
            ),
    decreases items.len(),
{
    reveal(Seq::filter);
    if items.len() > 0 {
        let front = items.drop_last();
        if rank < front.filter(pred).len() {
            lemma_filter_source(front, pred, rank);
            let k = choose|k: int|
                0 <= k < front.len() && (#[trigger] front[k]) == front.filter(pred)[rank] && pred(
                    front[k],
                );
            assert(items[k] == front[k]);
        } else {
            assert(items[items.len() - 1] == items.last());
        }
    }
}

/// Where no item satisfies a filter, nothing passes it.
pub proof fn lemma_filter_none<A>(items: Seq<A>, pred: spec_fn(A) -> bool)
    requires
        forall|k: int| 0 <= k < items.len() ==> !pred(#[trigger] items[k]),
    ensures
        items.filter(pred) == Seq::<A>::empty(),
    decreases items.len(),
{
    reveal(Seq::filter);
    if items.len() > 0 {
        let front = items.drop_last();
        assert forall|k: int| 0 <= k < front.len() implies !pred(#[trigger] front[k]) by {
            assert(front[k] == items[k]);
        }
        lemma_filter_none(front, pred);
        assert(items.last() == items[items.len() - 1]);
    }
}

} // verus!
