//! Ordering scored items: a stable sort by score.

use vstd::prelude::*;

verus! {

/// Where an item with score `score` enters a sequence sorted by score:
/// behind the last item whose score is not greater.
pub open spec fn insert_pos(sorted: Seq<(i32, u64)>, score: i32) -> int
    decreases sorted.len(),
{
    if sorted.len() == 0 {
        0
    } else if sorted.last().0 <= score {
        sorted.len() as int
    } else {
        insert_pos(sorted.drop_last(), score)
    }
}

/// `items` in ascending order of their scores, items of equal score in the
/// order in which `items` holds them.
pub open spec fn sorted_by_score(items: Seq<(i32, u64)>) -> Seq<(i32, u64)>
    decreases items.len(),
{
    if items.len() == 0 {
        Seq::empty()
    } else {
        let front = sorted_by_score(items.drop_last());
        front.insert(insert_pos(front, items.last().0), items.last())
    }
}

/// The scores of `items` ascend.
pub open spec fn ascending(items: Seq<(i32, u64)>) -> bool {
    forall|i: int, j: int| 0 <= i < j < items.len() ==> items[i].0 <= items[j].0
}

/// Where an item enters a sorted sequence: behind the items whose scores
/// are not greater, before the items whose scores are.
pub proof fn lemma_insert_pos(sorted: Seq<(i32, u64)>, score: i32)
    requires
        ascending(sorted),
    ensures
        0 <= insert_pos(sorted, score) <= sorted.len(),
        forall|i: int| 0 <= i < insert_pos(sorted, score) ==> sorted[i].0 <= score,
        forall|i: int| insert_pos(sorted, score) <= i < sorted.len() ==> sorted[i].0 > score,
    decreases sorted.len(),
{
    let p = insert_pos(sorted, score);
    if sorted.len() > 0 {
        let front = sorted.drop_last();
        if sorted.last().0 > score {
            assert forall|i: int, j: int| 0 <= i < j < front.len() implies front[i].0
                <= front[j].0 by {
                assert(sorted[i].0 <= sorted[j].0);
            }
            lemma_insert_pos(front, score);
            assert forall|i: int| 0 <= i < p implies sorted[i].0 <= score by {
                assert(front[i].0 <= score);
            }
            assert forall|i: int| p <= i < sorted.len() implies sorted[i].0 > score by {
                if i < front.len() {
                    assert(front[i].0 > score);
                }
            }
        } else {
            assert forall|i: int| 0 <= i < p implies sorted[i].0 <= score by {
                if i < sorted.len() - 1 {
                    assert(sorted[i].0 <= sorted[sorted.len() - 1].0);
                }
            }
        }
    }
}

/// Sorting keeps the items and their number, and puts the scores in
/// ascending order.
pub proof fn lemma_sorted_by_score(items: Seq<(i32, u64)>)
    ensures
        sorted_by_score(items).len() == items.len(),
        ascending(sorted_by_score(items)),
        forall|x: (i32, u64)| sorted_by_score(items).contains(x) <==> items.contains(x),
    decreases items.len(),
{
    if items.len() > 0 {
        let front = sorted_by_score(items.drop_last());
        let last = items.last();
        lemma_sorted_by_score(items.drop_last());
        lemma_insert_pos(front, last.0);
        let p = insert_pos(front, last.0);
        let all = front.insert(p, last);
        assert forall|i: int, j: int| 0 <= i < j < all.len() implies all[i].0 <= all[j].0 by {
            if j < p {
                assert(front[i].0 <= front[j].0);
            } else if j == p {
                assert(front[i].0 <= last.0);
            } else if i < p {
                assert(front[i].0 <= front[j - 1].0);
            } else if i == p {
                assert(front[j - 1].0 > last.0);
            } else {
                assert(front[i - 1].0 <= front[j - 1].0);
            }
        }
        assert forall|x: (i32, u64)| all.contains(x) <==> items.contains(x) by {
            assert(front.contains(x) <==> items.drop_last().contains(x));
            if all.contains(x) {
                let i = choose|i: int| 0 <= i < all.len() && all[i] == x;
                if i < p {
                    assert(front[i] == x);
                    assert(front.contains(x));
                } else if i > p {
                    assert(front[i - 1] == x);
                    assert(front.contains(x));
                }
                if front.contains(x) {
                    let k = choose|k: int|
                        0 <= k < items.drop_last().len() && items.drop_last()[k] == x;
                    assert(items[k] == x);
                } else {
                    assert(items[items.len() - 1] == x);
                }
            }
            if items.contains(x) {
                let k = choose|k: int| 0 <= k < items.len() && items[k] == x;
                if k < items.len() - 1 {
                    assert(items.drop_last()[k] == x);
                    assert(front.contains(x));
                    let i = choose|i: int| 0 <= i < front.len() && front[i] == x;
                    if i < p {
                        assert(all[i] == x);
                    } else {
                        assert(all[i + 1] == x);
                    }
                } else {
                    assert(all[p] == x);
                }
            }
        }
    }
}

/// Sorts `items` by score, ascending; items of equal score keep their
/// order.
pub fn sort_by_score(items: &mut Vec<(i32, u64)>)
    ensures
        final(items)@ == sorted_by_score(old(items)@),
{
    let ghost input = items@;
    let n = items.len();
    let mut sorted: Vec<(i32, u64)> = Vec::with_capacity(n);
    let mut i: usize = 0;
    while i < n
        invariant
            i <= n,
            n == items.len(),
            items@ == input,
            sorted@ == sorted_by_score(input.take(i as int)),
        decreases n - i,
    {
        let item = items[i];
        let ghost front = sorted@;
        proof {
            lemma_sorted_by_score(input.take(i as int));
        }
        let mut j: usize = sorted.len();
        assert(front.take(j as int) =~= front);
        while j > 0 && sorted[j - 1].0 > item.0
            invariant
                j <= sorted.len(),
                sorted@ == front,
                insert_pos(front, item.0) == insert_pos(front.take(j as int), item.0),
            decreases j,
        {
            assert(front.take(j as int).drop_last() =~= front.take(j - 1));
            j -= 1;
        }
        assert(front.take(front.len() as int) =~= front);
        sorted.insert(j, item);
        i += 1;
        assert(input.take(i as int).drop_last() =~= input.take(i - 1));
    }
    assert(input.take(n as int) =~= input);
    *items = sorted;
}

} // verus!
