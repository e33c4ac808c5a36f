//! The lists seen as sequences of their elements: what the operations do to
//! the sequence, and what follows from that.

use vstd::prelude::*;
use crate::compact_bytestrings::CompactBytestrings;

verus! {

/// The element at `index`, where the list has one.
pub open spec fn element_at<T>(list: Seq<T>, index: int) -> Option<T> {
    if 0 <= index < list.len() {
        Some(list[index])
    } else {
        None
    }
}

/// The list that a swap-removal at `index` leaves: the last element takes the
/// place of the one that goes.
pub open spec fn swap_removed<T>(list: Seq<T>, index: int) -> Seq<T> {
    list.update(index, list.last()).drop_last()
}

/// The list after every element of `items` has been pushed, one after the
/// other.
pub open spec fn push_each<T>(list: Seq<T>, items: Seq<T>) -> Seq<T>
    decreases items.len(),
{
    if items.len() == 0 {
        list
    } else {
        push_each(list.push(items.first()), items.drop_first())
    }
}

/// What a walk hands out that takes the first element until none is left.
pub open spec fn walk<T>(list: Seq<T>) -> Seq<T>
    decreases list.len(),
{
    if list.len() == 0 {
        Seq::empty()
    } else {
        seq![list.first()] + walk(list.drop_first())
    }
}

/// Pushing `items` one after the other appends them in order.
pub proof fn lemma_push_each_appends<T>(list: Seq<T>, items: Seq<T>)
    ensures
        push_each(list, items) == list + items,
    decreases items.len(),
{
    if items.len() == 0 {
        assert(list + items =~= list);
    } else {
        lemma_push_each_appends(list.push(items.first()), items.drop_first());
        assert(list.push(items.first()) + items.drop_first() =~= list + items);
    }
}

/// A walk from the front hands out every element, in order.
pub proof fn lemma_walk_yields_all<T>(list: Seq<T>)
    ensures
        walk(list) == list,
    decreases list.len(),
{
    if list.len() == 0 {
        assert(walk(list) =~= list);
    } else {
        lemma_walk_yields_all(list.drop_first());
        assert(seq![list.first()] + list.drop_first() =~= list);
    }
}

/// Round trip: an empty list that takes `items` by pushes, one after the
/// other, hands out exactly `items` when it is walked, in the same order.
pub proof fn lemma_round_trip<T>(items: Seq<T>)
    ensures
        walk(push_each(Seq::<T>::empty(), items)) == items,
{
    lemma_push_each_appends(Seq::<T>::empty(), items);
    assert(Seq::<T>::empty() + items =~= items);
    lemma_walk_yields_all(items);
}

/// Index agreement: for an index in bounds, the checked lookup finds the
/// element that the unchecked lookup reads.
pub proof fn lemma_index_agreement<T>(list: Seq<T>, index: int)
    requires
        0 <= index < list.len(),
    ensures
        element_at(list, index) == Some(list[index]),
{
}

/// A lookup out of bounds finds nothing.
pub proof fn lemma_out_of_bounds<T>(list: Seq<T>, index: int)
    requires
        index >= list.len(),
    ensures
        element_at(list, index).is_none(),
{
}

/// Removal: the list is one shorter, the elements before `index` stay where
/// they were, and those behind it move down by one place, unchanged.
pub proof fn lemma_remove_consistent<T>(list: Seq<T>, index: int)
    requires
        0 <= index < list.len(),
    ensures
        list.remove(index).len() == list.len() - 1,
        forall|k: int| 0 <= k < index ==> #[trigger] list.remove(index)[k] == list[k],
        forall|k: int|
            index <= k < list.len() - 1 ==> #[trigger] list.remove(index)[k] == list[k + 1],
{
}

/// Swap-removal: the list is one shorter, the element that was last stands
/// at `index` unless `index` was the last place, and every other element
/// stays where it was.
pub proof fn lemma_swap_remove_consistent<T>(list: Seq<T>, index: int)
    requires
        0 <= index < list.len(),
    ensures
        swap_removed(list, index).len() == list.len() - 1,
        index < list.len() - 1 ==> swap_removed(list, index)[index] == list.last(),
        forall|k: int|
            0 <= k < list.len() - 1 && k != index ==> #[trigger] swap_removed(list, index)[k]
                == list[k],
{
}

/// Ignoring and removing agree but for the bytes: of two lists with the
/// same elements, the one after `ignore(index)` and the other after
/// `remove(index)`, every lookup finds the same, and the list that ignored
/// holds no fewer bytes than the one that removed.
pub proof fn lemma_ignore_matches_remove(
    before_ignore: CompactBytestrings,
    after_ignore: CompactBytestrings,
    before_remove: CompactBytestrings,
    after_remove: CompactBytestrings,
    index: int,
)
    requires
        before_ignore@ == before_remove@,
        before_ignore.spec_buffer_len() == before_remove.spec_buffer_len(),
        0 <= index < before_ignore@.len(),
        after_ignore@ == before_ignore@.remove(index),
        after_ignore.spec_buffer_len() == before_ignore.spec_buffer_len(),
        after_remove@ == before_remove@.remove(index),
        after_remove.spec_buffer_len() == before_remove.spec_buffer_len()
            - before_remove@[index].len(),
    ensures
        after_ignore@ == after_remove@,
        forall|i: int| element_at(after_ignore@, i) == element_at(after_remove@, i),
        after_ignore.spec_buffer_len() >= after_remove.spec_buffer_len(),
        after_ignore.spec_buffer_len() - after_remove.spec_buffer_len()
            == before_remove@[index].len(),
{
}

/// A cleared list is empty, and pushes build on it what they build on a new
/// list.
pub proof fn lemma_clear_is_fresh<T>(cleared: Seq<T>, fresh: Seq<T>, items: Seq<T>)
    requires
        cleared == Seq::<T>::empty(),
        fresh == Seq::<T>::empty(),
    ensures
        cleared.len() == 0,
        push_each(cleared, items) == push_each(fresh, items),
        push_each(cleared, items) == items,
{
    lemma_push_each_appends(cleared, items);
    assert(cleared + items =~= items);
}

} // verus!
