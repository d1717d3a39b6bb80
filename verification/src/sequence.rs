//! Utilities on sequences: an order check, insertion sort and the shift it
//! is built on.

use crate::order::{
    ascending, ascent, exceeds, first_greater, insertion_sorted, lawful, lemma_ascent_ascending,
    lemma_first_greater_at, lemma_insertion_sorted_ascending, lemma_lawful_specified, precedes,
    specified,
};
use vstd::prelude::*;
use vstd::seq_lib::{to_multiset_insert, to_multiset_remove};
use vstd::std_specs::iter::IteratorSpec;

verus! {

/// How many items `sorted` takes from an iterator that is about to yield
/// `items`: all of them if none is less than the item before it, and
/// otherwise those up to and including the first that is.
pub open spec fn taken<T: Ord>(items: Seq<T>) -> nat {
    if ascent(items) < items.len() {
        ascent(items) + 1
    } else {
        items.len()
    }
}

/// Whether the items that `items` yields are in ascending order. An iterator
/// that yields nothing is not sorted.
///
/// The items are taken from the iterator until one is found that is less
/// than the one before it, or until the iterator is exhausted. The iterator
/// must be one that ends: it yields its items and then `None`.
pub fn sorted<L: Iterator>(items: &mut L) -> (result: bool) where L::Item: Ord
    requires
        L::obeys_prophetic_iter_laws(old(items)),
        L::decrease(old(items)) is Some,
    ensures
        specified::<L::Item>() ==> result == (L::remaining(old(items)).len() > 0 && ascent(
            L::remaining(old(items)),
        ) == L::remaining(old(items)).len()),
        specified::<L::Item>() ==> L::remaining(final(items)) == L::remaining(old(items)).skip(
            taken(L::remaining(old(items))) as int,
        ),
        lawful::<L::Item>() ==> result == (L::remaining(old(items)).len() > 0 && ascending(
            L::remaining(old(items)),
        )),
{
    let ghost all = L::remaining(items);
    proof {
        if lawful::<L::Item>() {
            lemma_lawful_specified::<L::Item>();
            lemma_ascent_ascending(all);
        }
    }
    match items.next() {
        None => {
            proof {
                assert(L::remaining(items) =~= all.skip(0));
            }
            false
        },
        Some(first) => {
            let mut prev = first;
            let ghost mut seen: int = 1;
            proof {
                assert(L::remaining(items) =~= all.skip(1));
                assert(all.skip(0) =~= all);
            }
            loop
                invariant
                    all == L::remaining(old(items)),
                    L::obeys_prophetic_iter_laws(items),
                    L::decrease(items) is Some,
                    1 <= seen <= all.len(),
                    L::remaining(items) == all.skip(seen),
                    prev == all[seen - 1],
                    specified::<L::Item>() ==> ascent(all) == seen - 1 + ascent(
                        all.skip(seen - 1),
                    ),
                    lawful::<L::Item>() ==> specified::<L::Item>() && (ascending(all) <==> ascent(
                        all,
                    ) == all.len()),
                decreases L::decrease(items)->0,
            {
                let ghost rest = all.skip(seen - 1);
                match items.next() {
                    None => {
                        return true;
                    },
                    Some(item) => {
                        proof {
                            assert(rest[0] == prev && rest[1] == item);
                            assert(ascent(rest) == if precedes(item, prev) {
                                1
                            } else {
                                1 + ascent(rest.drop_first())
                            });
                            assert(rest.drop_first() =~= all.skip(seen));
                            assert(L::remaining(items) =~= all.skip(seen + 1));
                        }
                        if item < prev {
                            return false;
                        }
                        prev = item;
                        proof {
                            seen = seen + 1;
                        }
                    },
                }
            }
        },
    }
}

/// Sorts `items` into ascending order. Each item in turn is moved in front
/// of the first item before it that is greater, so it stays behind the items
/// that are equal to it: the sort is stable.
pub fn insertion_sort<A>(items: &mut Vec<A>) where A: Ord, A: Copy
    ensures
        final(items)@.len() == old(items)@.len(),
        final(items)@.to_multiset() == old(items)@.to_multiset(),
        specified::<A>() ==> final(items)@ == insertion_sorted(old(items)@),
        lawful::<A>() ==> ascending(final(items)@),
{
    let mut i: usize = 0;
    proof {
        assert(old(items)@.take(0) =~= Seq::<A>::empty());
        assert(items@.take(0) =~= Seq::<A>::empty());
    }
    while i < items.len()
        invariant
            i <= items@.len(),
            items@.len() == old(items)@.len(),
            items@.to_multiset() == old(items)@.to_multiset(),
            items@.skip(i as int) == old(items)@.skip(i as int),
            specified::<A>() ==> items@.take(i as int) == insertion_sorted(
                old(items)@.take(i as int),
            ),
        decreases items@.len() - i,
    {
        let val = items[i];
        let ghost before = items@;
        let ghost front = before.take(i as int);
        proof {
            assert(val == items@.skip(i as int)[0]);
            assert(val == old(items)@.skip(i as int)[0]);
            assert(old(items)@.take(i + 1).drop_last() =~= old(items)@.take(i as int));
            assert(old(items)@.take(i + 1).last() == val);
        }
        let mut j: usize = 0;
        while j < i
            invariant_except_break
                items@ == before,
                forall|k: int|
                    0 <= k < j && specified::<A>() ==> !exceeds(#[trigger] front[k], val),
            invariant
                j <= i < before.len(),
                val == before[i as int],
                front == before.take(i as int),
            ensures
                items@.to_multiset() == before.to_multiset(),
                items@.len() == before.len(),
                items@.skip(i + 1) == before.skip(i + 1),
                specified::<A>() ==> items@.take(i + 1) == front.insert(
                    first_greater(front, val) as int,
                    val,
                ) || (items@ == before && forall|k: int|
                    0 <= k < i ==> !exceeds(#[trigger] front[k], val)),
            decreases i - j,
        {
            if items[j] > val {
                shift(items, j, i);
                proof {
                    before.to_multiset_ensures();
                    to_multiset_remove(before, i as int);
                    to_multiset_insert(before.remove(i as int), j as int, val);
                    assert(items@.to_multiset() =~= before.to_multiset());
                    assert(items@.skip(i + 1) =~= before.skip(i + 1));
                    if specified::<A>() {
                        assert(exceeds(front[j as int], val));
                        lemma_first_greater_at(front, val, j as int);
                        assert(items@.take(i + 1) =~= front.insert(j as int, val));
                    }
                }
                break ;
            }
            proof {
                assert(front[j as int] == before[j as int]);
            }
            j = j + 1;
        }
        proof {
            if specified::<A>() && items@ == before && forall|k: int|
                0 <= k < i ==> !exceeds(#[trigger] front[k], val) {
                // Nothing before `val` is greater: it stays where it is.
                lemma_first_greater_at(front, val, i as int);
                assert(items@.take(i + 1) =~= front.insert(i as int, val));
            }
            assert(items@.skip(i + 1) =~= old(items)@.skip(i + 1)) by {
                assert(before.skip(i + 1) =~= before.skip(i as int).drop_first());
                assert(old(items)@.skip(i + 1) =~= old(items)@.skip(i as int).drop_first());
            }
        }
        i = i + 1;
    }
    proof {
        assert(items@.take(items@.len() as int) =~= items@);
        assert(old(items)@.take(items@.len() as int) =~= old(items)@);
        if lawful::<A>() {
            lemma_lawful_specified::<A>();
            lemma_insertion_sorted_ascending(old(items)@);
        }
    }
}

/// Moves the elements in `start..end` one slot to the right and puts the
/// element that was at `end` into `start`.
pub fn shift<A: Copy>(items: &mut Vec<A>, start: usize, end: usize)
    requires
        start <= end < old(items)@.len(),
    ensures
        final(items)@ == old(items)@.remove(end as int).insert(
            start as int,
            old(items)@[end as int],
        ),
{
    let end_item = items[end];
    let mut i: usize = end;
    while i > start
        invariant
            start <= i <= end < items@.len(),
            items@.len() == old(items)@.len(),
            end_item == old(items)@[end as int],
            forall|k: int| 0 <= k <= i ==> items@[k] == old(items)@[k],
            forall|k: int| i < k <= end ==> items@[k] == old(items)@[k - 1],
            forall|k: int| end < k < items@.len() ==> items@[k] == old(items)@[k],
        decreases i,
    {
        let moved = items[i - 1];
        items[i] = moved;
        i = i - 1;
    }
    items[start] = end_item;
}

} // verus!
