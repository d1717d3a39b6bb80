//! The vocabulary for ordered sequences: when two values are in order, when
//! a sequence ascends, and what a lawful order gives.

use core::cmp::Ordering;
use vstd::laws_cmp::{
    obeys_cmp, obeys_cmp_ord, obeys_cmp_partial_ord, obeys_partial_cmp_spec_properties,
};
use vstd::laws_eq::obeys_eq_spec_properties;
use vstd::prelude::*;
use vstd::seq_lib::{to_multiset_build, to_multiset_insert};
use vstd::std_specs::cmp::{OrdSpec, PartialEqSpec, PartialOrdSpec};

verus! {

/// The comparison operators of `T` answer as its `partial_cmp` is specified
/// to answer.
pub open spec fn specified<T: Ord>() -> bool {
    T::obeys_partial_cmp_spec()
}

/// The comparisons of `T` are specified, and they form a total order: two
/// values are equal, or one is less and the other greater, and both "less"
/// and "equal" carry over from one pair to the next. The integer types are
/// lawful, as `vstd::laws_cmp::group_laws_cmp` shows.
pub open spec fn lawful<T: Ord>() -> bool {
    obeys_cmp::<T>()
}

/// `a` is strictly less than `b`.
pub open spec fn precedes<T: Ord>(a: T, b: T) -> bool {
    a.partial_cmp_spec(&b) == Some(Ordering::Less)
}

/// `a` is strictly greater than `b`.
pub open spec fn exceeds<T: Ord>(a: T, b: T) -> bool {
    a.partial_cmp_spec(&b) == Some(Ordering::Greater)
}

/// `a` may stand before `b`: `b` is not strictly less than `a`.
pub open spec fn in_order<T: Ord>(a: T, b: T) -> bool {
    !precedes(b, a)
}

/// No element of `items` is strictly less than an element before it.
pub open spec fn ascending<T: Ord>(items: Seq<T>) -> bool {
    forall|i: int, j: int| 0 <= i <= j < items.len() ==> in_order(items[i], items[j])
}

/// The number of leading items of `items` up to the first one that is
/// strictly less than the item before it; the length of `items` if there is
/// no such item.
pub open spec fn ascent<T: Ord>(items: Seq<T>) -> nat
    decreases items.len(),
{
    if items.len() <= 1 {
        items.len()
    } else if precedes(items[1], items[0]) {
        1
    } else {
        1 + ascent(items.drop_first())
    }
}

/// The position of the first element of `items` that is strictly greater
/// than `value`; the length of `items` if no element is.
pub open spec fn first_greater<T: Ord>(items: Seq<T>, value: T) -> nat
    decreases items.len(),
{
    if items.len() == 0 {
        0
    } else if exceeds(items[0], value) {
        0
    } else {
        1 + first_greater(items.drop_first(), value)
    }
}

/// `items` sorted by insertion: each item in turn is put in front of the
/// first item placed so far that is strictly greater, and so behind every
/// item that is equal to it.
pub open spec fn insertion_sorted<T: Ord>(items: Seq<T>) -> Seq<T>
    decreases items.len(),
{
    if items.len() == 0 {
        items
    } else {
        let front = insertion_sorted(items.drop_last());
        front.insert(first_greater(front, items.last()) as int, items.last())
    }
}

/// A lawful order is specified.
pub proof fn lemma_lawful_specified<T: Ord>()
    requires
        lawful::<T>(),
    ensures
        specified::<T>(),
{
    reveal(obeys_cmp_partial_ord);
}

/// In a lawful order, being in order carries over: if `a` may stand before
/// `b` and `b` before `c`, then `a` may stand before `c`.
pub proof fn lemma_in_order_transitive<T: Ord>(a: T, b: T, c: T)
    requires
        lawful::<T>(),
        in_order(a, b),
        in_order(b, c),
    ensures
        in_order(a, c),
{
    reveal(obeys_cmp_partial_ord);
    reveal(obeys_cmp_ord);
    reveal(obeys_partial_cmp_spec_properties);
    reveal(obeys_eq_spec_properties);
    // Suppose `c` were less than `a`. Then `a` less than `b` puts `c` below
    // `b`, and `a` equal to `b` puts `b` above `c` or makes all three equal:
    // each contradicts an assumption.
    if precedes(c, a) {
        if precedes(a, b) {
            assert(precedes(c, b));
        } else {
            assert(a.eq_spec(&b));
            if !precedes(b, c) {
                assert(b.eq_spec(&c));
                assert(a.eq_spec(&c));
            } else {
                assert(precedes(b, a));
            }
        }
    }
}

/// In a lawful order every value may stand beside itself.
pub proof fn lemma_in_order_reflexive<T: Ord>(a: T)
    requires
        lawful::<T>(),
    ensures
        in_order(a, a),
{
    reveal(obeys_partial_cmp_spec_properties);
}

/// In a lawful order `a` is greater than `b` exactly when `b` is less than
/// `a`, and then `b` may stand before `a`.
pub proof fn lemma_exceeds_precedes<T: Ord>(a: T, b: T)
    requires
        lawful::<T>(),
    ensures
        exceeds(a, b) == precedes(b, a),
        precedes(b, a) ==> in_order(b, a),
{
    reveal(obeys_partial_cmp_spec_properties);
}

/// In a lawful order an ascending sequence stays ascending when a value is
/// inserted behind elements that may stand before it and in front of an
/// element that is greater.
pub proof fn lemma_ascending_insert<T: Ord>(items: Seq<T>, at: int, value: T)
    requires
        lawful::<T>(),
        ascending(items),
        0 <= at <= items.len(),
        forall|k: int| 0 <= k < at ==> in_order(#[trigger] items[k], value),
        at < items.len() ==> precedes(value, items[at]),
    ensures
        ascending(items.insert(at, value)),
{
    let longer = items.insert(at, value);
    assert forall|i: int, j: int| 0 <= i <= j < longer.len() implies in_order(
        longer[i],
        longer[j],
    ) by {
        if i == j {
            lemma_in_order_reflexive(longer[i]);
        } else if j < at {
            assert(in_order(items[i], items[j]));
        } else if j == at {
            assert(in_order(items[i], value));
        } else if i == at {
            lemma_exceeds_precedes(items[at], value);
            assert(in_order(items[at], items[j - 1]));
            lemma_in_order_transitive(value, items[at], items[j - 1]);
        } else if i < at {
            assert(in_order(items[i], items[j - 1]));
        } else {
            assert(in_order(items[i - 1], items[j - 1]));
        }
    }
}

/// The ascent of a sequence is at most its length, and at least one unless
/// the sequence is empty.
pub proof fn lemma_ascent_bounds<T: Ord>(items: Seq<T>)
    ensures
        ascent(items) <= items.len(),
        items.len() > 0 ==> ascent(items) >= 1,
    decreases items.len(),
{
    if items.len() > 1 {
        lemma_ascent_bounds(items.drop_first());
    }
}

/// In a lawful order a sequence ascends exactly when it has no item that is
/// less than the item before it.
pub proof fn lemma_ascent_ascending<T: Ord>(items: Seq<T>)
    requires
        lawful::<T>(),
    ensures
        ascending(items) <==> ascent(items) == items.len(),
    decreases items.len(),
{
    if items.len() == 0 {
    } else if items.len() == 1 {
        lemma_in_order_reflexive(items[0]);
    } else {
        let rest = items.drop_first();
        lemma_ascent_ascending(rest);
        lemma_ascent_bounds(rest);
        if ascending(items) {
            assert(in_order(items[0], items[1]));
            assert forall|i: int, j: int| 0 <= i <= j < rest.len() implies in_order(
                rest[i],
                rest[j],
            ) by {
                assert(in_order(items[i + 1], items[j + 1]));
            }
        }
        if ascent(items) == items.len() {
            assert(ascending(rest));
            assert forall|i: int, j: int| 0 <= i <= j < items.len() implies in_order(
                items[i],
                items[j],
            ) by {
                if i == j {
                    lemma_in_order_reflexive(items[i]);
                } else if i == 0 {
                    assert(in_order(rest[0], rest[j - 1]));
                    lemma_in_order_transitive(items[0], items[1], items[j]);
                } else {
                    assert(in_order(rest[i - 1], rest[j - 1]));
                }
            }
        }
    }
}

/// `first_greater` is a position of the sequence or its length; no element
/// before it is greater than the value, and the element at it is.
pub proof fn lemma_first_greater<T: Ord>(items: Seq<T>, value: T)
    ensures
        first_greater(items, value) <= items.len(),
        forall|k: int|
            0 <= k < first_greater(items, value) ==> !exceeds(#[trigger] items[k], value),
        first_greater(items, value) < items.len() ==> exceeds(
            items[first_greater(items, value) as int],
            value,
        ),
    decreases items.len(),
{
    if items.len() > 0 && !exceeds(items[0], value) {
        let rest = items.drop_first();
        lemma_first_greater(rest, value);
        assert forall|k: int| 0 <= k < first_greater(items, value) implies !exceeds(
            #[trigger] items[k],
            value,
        ) by {
            if k > 0 {
                assert(items[k] == rest[k - 1]);
            }
        }
    }
}

/// A position behind elements that are not greater than the value, at an
/// element that is greater or at the end, is the position `first_greater`.
pub proof fn lemma_first_greater_at<T: Ord>(items: Seq<T>, value: T, at: int)
    requires
        0 <= at <= items.len(),
        forall|k: int| 0 <= k < at ==> !exceeds(#[trigger] items[k], value),
        at < items.len() ==> exceeds(items[at], value),
    ensures
        first_greater(items, value) == at,
    decreases items.len(),
{
    if at > 0 {
        let rest = items.drop_first();
        assert(!exceeds(items[0], value));
        assert forall|k: int| 0 <= k < at - 1 implies !exceeds(#[trigger] rest[k], value) by {
            assert(rest[k] == items[k + 1]);
        }
        lemma_first_greater_at(rest, value, at - 1);
    }
}

/// Sorting by insertion rearranges the items: none is lost and none is
/// added.
pub proof fn lemma_insertion_sorted_permutes<T: Ord>(items: Seq<T>)
    ensures
        insertion_sorted(items).len() == items.len(),
        insertion_sorted(items).to_multiset() == items.to_multiset(),
    decreases items.len(),
{
    if items.len() > 0 {
        let earlier = items.drop_last();
        let front = insertion_sorted(earlier);
        lemma_insertion_sorted_permutes(earlier);
        lemma_first_greater(front, items.last());
        to_multiset_insert(front, first_greater(front, items.last()) as int, items.last());
        to_multiset_build(earlier, items.last());
        assert(earlier.push(items.last()) =~= items);
    }
}

/// In a lawful order, sorting by insertion gives an ascending sequence.
pub proof fn lemma_insertion_sorted_ascending<T: Ord>(items: Seq<T>)
    requires
        lawful::<T>(),
    ensures
        ascending(insertion_sorted(items)),
    decreases items.len(),
{
    if items.len() > 0 {
        let value = items.last();
        let front = insertion_sorted(items.drop_last());
        let at = first_greater(front, value) as int;
        lemma_insertion_sorted_ascending(items.drop_last());
        lemma_first_greater(front, value);
        assert forall|k: int| 0 <= k < at implies in_order(#[trigger] front[k], value) by {
            lemma_exceeds_precedes(front[k], value);
        }
        if at < front.len() {
            lemma_exceeds_precedes(front[at], value);
        }
        lemma_ascending_insert(front, at, value);
    }
}

} // verus!
