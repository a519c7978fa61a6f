//! Helpers for first-in, first-out queues.

use vstd::prelude::*;
use std::collections::VecDeque;

verus! {

/// Empties `queue` into a vector, oldest first.
pub(crate) fn take_all<T>(queue: &mut VecDeque<T>) -> (r: Vec<T>)
    ensures
        r@ == old(queue)@,
        final(queue)@ == Seq::<T>::empty(),
{
    let ghost queued = queue@;
    let count: usize = queue.len();
    let mut taken: Vec<T> = Vec::new();
    let mut i: usize = 0;
    while i < count
        invariant
            i <= count,
            count == queued.len(),
            taken@ == queued.take(i as int),
            queue@ == queued.skip(i as int),
        decreases count - i,
    {
        let front = queue.pop_front();
        match front {
            Some(item) => {
                taken.push(item);
                assert(taken@ =~= queued.take(i as int + 1));
                assert(queue@ =~= queued.skip(i as int + 1));
            },
            None => {
                assert(false);
            },
        }
        i += 1;
    }
    assert(queued.take(count as int) =~= queued);
    assert(queue@ =~= Seq::<T>::empty());
    taken
}

/// What holds between every earlier and every later item of a sequence
/// holds between every earlier and every later item of a selection from it.
pub proof fn lemma_filter_keeps_pairwise<T>(
    items: Seq<T>,
    keep: spec_fn(T) -> bool,
    related: spec_fn(T, T) -> bool,
)
    requires
        forall|i: int, j: int| 0 <= i < j < items.len() ==> #[trigger] related(items[i], items[j]),
    ensures
        forall|i: int, j: int|
            0 <= i < j < items.filter(keep).len() ==> #[trigger] related(
                items.filter(keep)[i],
                items.filter(keep)[j],
            ),
    decreases items.len(),
{
    reveal(Seq::filter);
    if items.len() > 0 {
        let front = items.drop_last();
        lemma_filter_keeps_pairwise(front, keep, related);
        let kept = items.filter(keep);
        assert forall|i: int, j: int| 0 <= i < j < kept.len() implies #[trigger] related(
            kept[i],
            kept[j],
        ) by {
            if j == front.filter(keep).len() {
                lemma_filtered_came_from(front, keep, i);
                let k = choose|k: int| 0 <= k < front.len() && front[k] == front.filter(keep)[i];
                assert(related(items[k], items[items.len() - 1]));
            }
        }
    }
}

/// Every item of a selection stands in the sequence it was taken from, and
/// meets the condition.
pub proof fn lemma_filtered_came_from<T>(items: Seq<T>, keep: spec_fn(T) -> bool, i: int)
    requires
        0 <= i < items.filter(keep).len(),
    ensures
        exists|k: int| 0 <= k < items.len() && items[k] == items.filter(keep)[i],
        keep(items.filter(keep)[i]),
    decreases items.len(),
{
    reveal(Seq::filter);
    if items.len() > 0 {
        let front = items.drop_last();
        if i < front.filter(keep).len() {
            lemma_filtered_came_from(front, keep, i);
            let k = choose|k: int| 0 <= k < front.len() && front[k] == front.filter(keep)[i];
            assert(items[k] == items.filter(keep)[i]);
        } else {
            assert(items[items.len() - 1] == items.filter(keep)[i]);
        }
    }
}

/// Where a condition holds of the first `k` items and of no other, the
/// selection by it is the first `k` items, and the selection by its
/// opposite is the rest.
pub proof fn lemma_split_is_filter<T>(
    items: Seq<T>,
    keep: spec_fn(T) -> bool,
    reject: spec_fn(T) -> bool,
    k: int,
)
    requires
        0 <= k <= items.len(),
        forall|i: int| 0 <= i < k ==> keep(#[trigger] items[i]) && !reject(items[i]),
        forall|i: int| k <= i < items.len() ==> !keep(#[trigger] items[i]) && reject(items[i]),
    ensures
        items.filter(keep) == items.take(k),
        items.filter(reject) == items.skip(k),
    decreases items.len(),
{
    reveal(Seq::filter);
    if items.len() == 0 {
        assert(items.take(k) =~= items);
        assert(items.skip(k) =~= items);
    } else {
        let front = items.drop_last();
        let last = items.last();
        if k == items.len() {
            lemma_split_is_filter(front, keep, reject, k - 1);
            assert(front.take(k - 1).push(last) =~= items.take(k));
            assert(front.skip(k - 1) =~= items.skip(k));
        } else {
            lemma_split_is_filter(front, keep, reject, k);
            assert(front.take(k) =~= items.take(k));
            assert(front.skip(k).push(last) =~= items.skip(k));
        }
    }
}

} // verus!
