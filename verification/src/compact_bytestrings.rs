//! A list of byte strings kept in one buffer, with a record per element that
//! holds the element's first byte and its length.

use vstd::prelude::*;
use vstd::slice::slice_subrange;
use vstd::std_specs::cmp::PartialEqSpecImpl;
use crate::buffer::{
    bytes_equal, lemma_spliced_after, lemma_spliced_before, slice_views, splice_out,
    vec_capacity, vec_shrink_to, vec_shrink_to_fit,
};
use crate::metadata::Metadata;
use crate::sequence::{element_at, swap_removed};

verus! {

/// A compact list of byte strings.
///
/// The bytes of all elements lie in one vector, and a second vector holds for
/// each element where its bytes begin and how many they are. The elements
/// cannot be changed in place.
pub struct CompactBytestrings {
    data: Vec<u8>,
    meta: Vec<Metadata>,
}

/// The bytes that the record `m` denotes in `data`.
pub open spec fn record_bytes(data: Seq<u8>, m: Metadata) -> Seq<u8> {
    data.subrange(m.start as int, m.end())
}

/// The record `m` once `len` bytes from `start` on have left the buffer: a
/// record that lay behind them moves down by `len`.
pub open spec fn rebased(m: Metadata, start: int, len: int) -> Metadata {
    if m.start >= start + len {
        Metadata { start: (m.start - len) as usize, len: m.len }
    } else {
        m
    }
}

/// Every record lies inside a buffer of `data_len` bytes, and no two records
/// share a byte.
pub open spec fn records_fit(meta: Seq<Metadata>, data_len: int) -> bool {
    &&& forall|i: int| 0 <= i < meta.len() ==> (#[trigger] meta[i]).end() <= data_len
    &&& forall|i: int, j: int|
        0 <= i < meta.len() && 0 <= j < meta.len() && i != j ==> (#[trigger] meta[i]).disjoint(
            #[trigger] meta[j],
        )
}

/// Moves every record that lies behind the bytes cut out at `start` down by
/// `len`.
fn rebase(meta: &mut Vec<Metadata>, start: usize, len: usize)
    requires
        forall|i: int|
            0 <= i < old(meta)@.len() ==> (#[trigger] old(meta)@[i]).end() <= start || start + len
                <= old(meta)@[i].start,
    ensures
        final(meta)@.len() == old(meta)@.len(),
        forall|i: int|
            0 <= i < old(meta)@.len() ==> #[trigger] final(meta)@[i] == rebased(
                old(meta)@[i],
                start as int,
                len as int,
            ),
{
    let count = meta.len();
    let mut i: usize = 0;
    while i < count
        invariant
            i <= count,
            meta@.len() == count,
            count == old(meta)@.len(),
            forall|k: int|
                0 <= k < i ==> #[trigger] meta@[k] == rebased(
                    old(meta)@[k],
                    start as int,
                    len as int,
                ),
            forall|k: int| i <= k < count ==> #[trigger] meta@[k] == old(meta)@[k],
        decreases count - i,
    {
        let record = meta[i];
        if len <= record.start && start <= record.start - len {
            meta.set(i, Metadata::new(record.start - len, record.len));
        }
        i += 1;
    }
}

impl View for CompactBytestrings {
    type V = Seq<Seq<u8>>;

    /// The elements, in order.
    closed spec fn view(&self) -> Seq<Seq<u8>> {
        Seq::new(self.meta@.len(), |i: int| record_bytes(self.data@, self.meta@[i]))
    }
}

impl CompactBytestrings {
    #[verifier::type_invariant]
    closed spec fn wf(&self) -> bool {
        records_fit(self.meta@, self.data.len() as int)
    }

    /// How many bytes the buffer holds, those of ignored elements included.
    pub closed spec fn spec_buffer_len(&self) -> nat {
        self.data@.len()
    }

    /// An empty list. Nothing is allocated until the first element is pushed.
    pub fn new() -> (s: Self)
        ensures
            s@ == Seq::<Seq<u8>>::empty(),
            s.spec_buffer_len() == 0,
    {
        let s = Self { data: Vec::new(), meta: Vec::new() };
        assert(s@ =~= Seq::<Seq<u8>>::empty());
        s
    }

    /// An empty list with room for at least `data_capacity` bytes and
    /// `capacity_meta` elements.
    pub fn with_capacity(data_capacity: usize, capacity_meta: usize) -> (s: Self)
        ensures
            s@ == Seq::<Seq<u8>>::empty(),
            s.spec_buffer_len() == 0,
    {
        let s = Self {
            data: Vec::with_capacity(data_capacity),
            meta: Vec::with_capacity(capacity_meta),
        };
        assert(s@ =~= Seq::<Seq<u8>>::empty());
        s
    }

    /// Takes the two vectors out and leaves an empty list behind.
    fn take(&mut self) -> (parts: (Vec<u8>, Vec<Metadata>))
        ensures
            parts.0 == old(self).data,
            parts.1 == old(self).meta,
            records_fit(parts.1@, parts.0.len() as int),
            final(self)@ == Seq::<Seq<u8>>::empty(),
    {
        proof {
            use_type_invariant(&*self);
        }
        let mut taken = Self::new();
        core::mem::swap(self, &mut taken);
        let Self { data, meta } = taken;
        (data, meta)
    }

    /// Appends `bytestring` as the last element.
    pub fn push(&mut self, bytestring: &[u8])
        ensures
            final(self)@ == old(self)@.push(bytestring@),
            final(self).spec_buffer_len() == old(self).spec_buffer_len() + bytestring@.len(),
    {
        let (mut data, mut meta) = self.take();
        let start = data.len();
        data.extend_from_slice(bytestring);
        meta.push(Metadata::new(start, bytestring.len()));
        *self = Self { data, meta };
        assert(self@ =~~= old(self)@.push(bytestring@));
    }

    /// The element at `index`, or `None` where the list has no such element.
    pub fn get(&self, index: usize) -> (r: Option<&[u8]>)
        ensures
            match r {
                Some(element) => element_at(self@, index as int) == Some(element@),
                None => element_at(self@, index as int).is_none(),
            },
    {
        if index >= self.meta.len() {
            return None;
        }
        Some(self.get_unchecked(index))
    }

    /// The element at `index`, for a caller that knows the index to be in
    /// bounds.
    pub fn get_unchecked(&self, index: usize) -> (r: &[u8])
        requires
            index < self@.len(),
        ensures
            r@ == self@[index as int],
    {
        proof {
            use_type_invariant(self);
        }
        assert(self.meta@[index as int].end() <= self.data.len());
        let (start, len) = self.meta[index].as_tuple();
        slice_subrange(self.data.as_slice(), start, start + len)
    }

    /// The number of elements.
    #[inline]
    pub fn len(&self) -> (n: usize)
        ensures
            n == self@.len(),
    {
        self.meta.len()
    }

    /// Whether the list has no element.
    #[inline]
    pub fn is_empty(&self) -> (b: bool)
        ensures
            b == (self@.len() == 0),
    {
        self.len() == 0
    }

    /// The number of bytes in the buffer, those of ignored elements included.
    #[inline]
    pub fn buffer_len(&self) -> (n: usize)
        ensures
            n == self.spec_buffer_len(),
    {
        self.data.len()
    }

    /// The number of bytes the buffer has room for without reallocating.
    #[inline]
    pub fn capacity(&self) -> (c: usize)
        ensures
            c >= self.spec_buffer_len(),
    {
        vec_capacity(&self.data)
    }

    /// The number of elements the list has room for without reallocating its
    /// records.
    #[inline]
    pub fn capacity_meta(&self) -> (c: usize)
        ensures
            c >= self@.len(),
    {
        vec_capacity(&self.meta)
    }

    /// Removes all elements and all bytes. The room allocated stays.
    pub fn clear(&mut self)
        ensures
            final(self)@ == Seq::<Seq<u8>>::empty(),
            final(self).spec_buffer_len() == 0,
    {
        let (mut data, mut meta) = self.take();
        data.clear();
        meta.clear();
        *self = Self { data, meta };
        assert(self@ =~= Seq::<Seq<u8>>::empty());
    }

    /// Gives back as much of the buffer's spare room as the allocator takes.
    #[inline]
    pub fn shrink_to_fit(&mut self)
        ensures
            final(self)@ == old(self)@,
            final(self).spec_buffer_len() == old(self).spec_buffer_len(),
    {
        let (mut data, meta) = self.take();
        vec_shrink_to_fit(&mut data);
        *self = Self { data, meta };
        assert(self@ =~= old(self)@);
    }

    /// Gives back as much of the records' spare room as the allocator takes.
    #[inline]
    pub fn shrink_meta_to_fit(&mut self)
        ensures
            final(self)@ == old(self)@,
            final(self).spec_buffer_len() == old(self).spec_buffer_len(),
    {
        let (data, mut meta) = self.take();
        vec_shrink_to_fit(&mut meta);
        *self = Self { data, meta };
        assert(self@ =~= old(self)@);
    }

    /// Gives back the buffer's spare room above `min_capacity`.
    #[inline]
    pub fn shrink_to(&mut self, min_capacity: usize)
        ensures
            final(self)@ == old(self)@,
            final(self).spec_buffer_len() == old(self).spec_buffer_len(),
    {
        let (mut data, meta) = self.take();
        vec_shrink_to(&mut data, min_capacity);
        *self = Self { data, meta };
        assert(self@ =~= old(self)@);
    }

    /// Gives back the records' spare room above `min_capacity`.
    #[inline]
    pub fn shrink_meta_to(&mut self, min_capacity: usize)
        ensures
            final(self)@ == old(self)@,
            final(self).spec_buffer_len() == old(self).spec_buffer_len(),
    {
        let (data, mut meta) = self.take();
        vec_shrink_to(&mut meta, min_capacity);
        *self = Self { data, meta };
        assert(self@ =~= old(self)@);
    }

    /// Removes the element at `index` and leaves its bytes in the buffer.
    /// The elements behind it move down by one place.
    pub fn ignore(&mut self, index: usize)
        requires
            index < old(self)@.len(),
        ensures
            final(self)@ == old(self)@.remove(index as int),
            final(self).spec_buffer_len() == old(self).spec_buffer_len(),
    {
        let (data, mut meta) = self.take();
        let _ = meta.remove(index);
        *self = Self { data, meta };
        assert(self@ =~= old(self)@.remove(index as int));
    }

    /// Removes the element at `index` and leaves its bytes in the buffer.
    /// The last element takes its place.
    pub fn swap_ignore(&mut self, index: usize)
        requires
            index < old(self)@.len(),
        ensures
            final(self)@ == swap_removed(old(self)@, index as int),
            final(self).spec_buffer_len() == old(self).spec_buffer_len(),
    {
        let (data, mut meta) = self.take();
        let _ = meta.swap_remove(index);
        *self = Self { data, meta };
        assert(self@ =~= swap_removed(old(self)@, index as int));
    }

    /// Removes the element at `index` together with its bytes. The elements
    /// behind it move down by one place.
    #[verifier::rlimit(40)]
    pub fn remove(&mut self, index: usize)
        requires
            index < old(self)@.len(),
        ensures
            final(self)@ == old(self)@.remove(index as int),
            final(self).spec_buffer_len() == old(self).spec_buffer_len() - old(self)@[index as int].len(),
    {
        let (mut data, mut meta) = self.take();
        let ghost old_data = data@;
        let ghost old_meta = meta@;
        let (start, len) = meta.remove(index).as_tuple();
        assert(old_meta[index as int].end() <= old_data.len());
        assert forall|i: int| 0 <= i < meta@.len() implies (#[trigger] meta@[i]).end() <= start
            || start + len <= meta@[i].start by {
            let k = if i < index { i } else { i + 1 };
            assert(old_meta[k].disjoint(old_meta[index as int]));
        }
        let ghost kept = meta@;
        rebase(&mut meta, start, len);
        splice_out(&mut data, start, len);
        proof {
            assert forall|i: int| 0 <= i < meta@.len() implies record_bytes(data@, #[trigger] meta@[i])
                == record_bytes(old_data, kept[i]) && meta@[i].end() <= data@.len() by {
                let k = if i < index { i } else { i + 1 };
                assert(kept[i] == old_meta[k]);
                assert(old_meta[k].end() <= old_data.len());
                assert(old_meta[k].disjoint(old_meta[index as int]));
                if kept[i].start >= start + len {
                    lemma_spliced_after(
                        old_data,
                        start as int,
                        len as int,
                        kept[i].start as int,
                        kept[i].end(),
                    );
                } else {
                    lemma_spliced_before(
                        old_data,
                        start as int,
                        len as int,
                        kept[i].start as int,
                        kept[i].end(),
                    );
                }
            }
            assert forall|i: int, j: int|
                0 <= i < meta@.len() && 0 <= j < meta@.len() && i != j implies (#[trigger] meta@[i]).disjoint(
                #[trigger] meta@[j],
            ) by {
                let ki = if i < index { i } else { i + 1 };
                let kj = if j < index { j } else { j + 1 };
                assert(old_meta[ki].disjoint(old_meta[kj]));
                assert(old_meta[ki].disjoint(old_meta[index as int]));
                assert(old_meta[kj].disjoint(old_meta[index as int]));
            }
        }
        *self = Self { data, meta };
        assert(self@ =~= old(self)@.remove(index as int));
    }

    /// Removes the element at `index` together with its bytes. The last
    /// element takes its place.
    #[verifier::rlimit(40)]
    pub fn swap_remove(&mut self, index: usize)
        requires
            index < old(self)@.len(),
        ensures
            final(self)@ == swap_removed(old(self)@, index as int),
            final(self).spec_buffer_len() == old(self).spec_buffer_len() - old(self)@[index as int].len(),
    {
        let (mut data, mut meta) = self.take();
        let ghost old_data = data@;
        let ghost old_meta = meta@;
        let (start, len) = meta.swap_remove(index).as_tuple();
        assert(old_meta[index as int].end() <= old_data.len());
        let ghost last = old_meta.len() - 1;
        assert forall|i: int| 0 <= i < meta@.len() implies (#[trigger] meta@[i]).end() <= start
            || start + len <= meta@[i].start by {
            let k = if i == index { last } else { i };
            assert(old_meta[k].disjoint(old_meta[index as int]));
        }
        let ghost kept = meta@;
        rebase(&mut meta, start, len);
        splice_out(&mut data, start, len);
        proof {
            assert forall|i: int| 0 <= i < meta@.len() implies record_bytes(data@, #[trigger] meta@[i])
                == record_bytes(old_data, kept[i]) && meta@[i].end() <= data@.len() by {
                let k = if i == index { last } else { i };
                assert(kept[i] == old_meta[k]);
                assert(old_meta[k].end() <= old_data.len());
                assert(old_meta[k].disjoint(old_meta[index as int]));
                if kept[i].start >= start + len {
                    lemma_spliced_after(
                        old_data,
                        start as int,
                        len as int,
                        kept[i].start as int,
                        kept[i].end(),
                    );
                } else {
                    lemma_spliced_before(
                        old_data,
                        start as int,
                        len as int,
                        kept[i].start as int,
                        kept[i].end(),
                    );
                }
            }
            assert forall|i: int, j: int|
                0 <= i < meta@.len() && 0 <= j < meta@.len() && i != j implies (#[trigger] meta@[i]).disjoint(
                #[trigger] meta@[j],
            ) by {
                let ki = if i == index { last } else { i };
                let kj = if j == index { last } else { j };
                assert(old_meta[ki].disjoint(old_meta[kj]));
                assert(old_meta[ki].disjoint(old_meta[index as int]));
                assert(old_meta[kj].disjoint(old_meta[index as int]));
            }
        }
        *self = Self { data, meta };
        assert(self@ =~= swap_removed(old(self)@, index as int));
    }

    /// Appends every string of `items`, in order.
    pub fn extend(&mut self, items: &[&[u8]])
        ensures
            final(self)@ == old(self)@ + slice_views(items@),
    {
        let count = items.len();
        let mut i: usize = 0;
        while i < count
            invariant
                i <= count,
                count == items@.len(),
                self@ == old(self)@ + slice_views(items@.subrange(0, i as int)),
            decreases count - i,
        {
            self.push(items[i]);
            i += 1;
            assert(self@ =~= old(self)@ + slice_views(items@.subrange(0, i as int)));
        }
        assert(items@.subrange(0, count as int) =~= items@);
    }

    /// A list of the strings of `items`, in order, with room for as many
    /// elements reserved at the start.
    pub fn from_iter(items: &[&[u8]]) -> (s: Self)
        ensures
            s@ == slice_views(items@),
    {
        let mut out = Self::with_capacity(0, items.len());
        out.extend(items);
        assert(out@ =~= slice_views(items@));
        out
    }

    /// The element at `index`, which the list has.
    #[inline]
    pub fn index(&self, index: usize) -> (r: &[u8])
        requires
            index < self@.len(),
        ensures
            r@ == self@[index as int],
    {
        self.get_unchecked(index)
    }

    /// A walk over the elements, first to last.
    #[inline]
    pub fn iter(&self) -> (it: Iter<'_>)
        ensures
            it@ == self@,
    {
        Iter::new(self)
    }
}

impl Default for CompactBytestrings {
    /// An empty list.
    fn default() -> (s: Self)
        ensures
            s@ == Seq::<Seq<u8>>::empty(),
    {
        Self::new()
    }
}

impl Clone for CompactBytestrings {
    /// A list of the same elements. Bytes that ignored elements left behind
    /// are not carried over.
    fn clone(&self) -> (s: Self)
        ensures
            s@ == self@,
    {
        let count = self.len();
        let mut needed: usize = 0;
        let mut i: usize = 0;
        while i < count
            invariant
                i <= count,
                count == self@.len(),
            decreases count - i,
        {
            needed = needed.saturating_add(self.get_unchecked(i).len());
            i += 1;
        }
        let mut out = Self::with_capacity(needed, count);
        let mut i: usize = 0;
        while i < count
            invariant
                i <= count,
                count == self@.len(),
                out@ == self@.subrange(0, i as int),
            decreases count - i,
        {
            out.push(self.get_unchecked(i));
            i += 1;
            assert(out@ =~= self@.subrange(0, i as int));
        }
        assert(self@.subrange(0, count as int) =~= self@);
        out
    }
}

impl PartialEq for CompactBytestrings {
    /// Two lists are equal where they hold the same elements in the same
    /// order, however their bytes lie in the buffers.
    fn eq(&self, other: &Self) -> (same: bool) {
        let count = self.len();
        if count != other.len() {
            return false;
        }
        let mut i: usize = 0;
        while i < count
            invariant
                i <= count,
                count == self@.len(),
                count == other@.len(),
                forall|k: int| 0 <= k < i ==> self@[k] == other@[k],
            decreases count - i,
        {
            if !bytes_equal(self.get_unchecked(i), other.get_unchecked(i)) {
                return false;
            }
            i += 1;
        }
        assert(self@ =~= other@);
        true
    }
}

impl PartialEqSpecImpl for CompactBytestrings {
    open spec fn obeys_eq_spec() -> bool {
        true
    }

    open spec fn eq_spec(&self, other: &Self) -> bool {
        self@ == other@
    }
}

/// A walk over the elements of a [`CompactBytestrings`], from both ends.
#[derive(Clone, Copy)]
pub struct Iter<'a> {
    list: &'a CompactBytestrings,
    front: usize,
    back: usize,
}

impl<'a> View for Iter<'a> {
    type V = Seq<Seq<u8>>;

    /// The elements that the walk has yet to hand out, in order.
    closed spec fn view(&self) -> Seq<Seq<u8>> {
        self.list@.subrange(self.front as int, self.back as int)
    }
}

impl<'a> Iter<'a> {
    #[verifier::type_invariant]
    closed spec fn wf(&self) -> bool {
        self.front <= self.back <= self.list@.len()
    }

    /// A walk over all elements of `inner`.
    #[inline]
    pub fn new(inner: &'a CompactBytestrings) -> (it: Self)
        ensures
            it@ == inner@,
    {
        let it = Iter { list: inner, front: 0, back: inner.len() };
        assert(it@ =~= inner@);
        it
    }

    /// The next element from the front, or `None` when the walk is over.
    pub fn next(&mut self) -> (r: Option<&'a [u8]>)
        ensures
            old(self)@.len() == 0 ==> r.is_none() && final(self)@ == old(self)@,
            old(self)@.len() > 0 ==> r.is_some() && r.unwrap()@ == old(self)@[0] && final(self)@
                == old(self)@.drop_first(),
    {
        self.nth(0)
    }

    /// Skips `n` elements from the front and hands out the one behind them.
    /// Where fewer than `n + 1` elements are left, the walk is over and the
    /// result is `None`.
    pub fn nth(&mut self, n: usize) -> (r: Option<&'a [u8]>)
        ensures
            n >= old(self)@.len() ==> r.is_none() && final(self)@ == Seq::<Seq<u8>>::empty(),
            n < old(self)@.len() ==> r.is_some() && r.unwrap()@ == old(self)@[n as int]
                && final(self)@ == old(self)@.subrange(n + 1, old(self)@.len() as int),
    {
        proof {
            use_type_invariant(&*self);
        }
        let list = self.list;
        let back = self.back;
        if n >= back - self.front {
            *self = Iter { list, front: back, back };
            assert(self@ =~= Seq::<Seq<u8>>::empty());
            return None;
        }
        let index = self.front + n;
        let item = list.get_unchecked(index);
        *self = Iter { list, front: index + 1, back };
        assert(self@ =~= old(self)@.subrange(n + 1, old(self)@.len() as int));
        Some(item)
    }

    /// The next element from the back, or `None` when the walk is over.
    pub fn next_back(&mut self) -> (r: Option<&'a [u8]>)
        ensures
            old(self)@.len() == 0 ==> r.is_none() && final(self)@ == old(self)@,
            old(self)@.len() > 0 ==> r.is_some() && r.unwrap()@ == old(self)@.last()
                && final(self)@ == old(self)@.drop_last(),
    {
        self.nth_back(0)
    }

    /// Skips `n` elements from the back and hands out the one before them.
    /// Where fewer than `n + 1` elements are left, the walk is over and the
    /// result is `None`.
    pub fn nth_back(&mut self, n: usize) -> (r: Option<&'a [u8]>)
        ensures
            n >= old(self)@.len() ==> r.is_none() && final(self)@ == Seq::<Seq<u8>>::empty(),
            n < old(self)@.len() ==> r.is_some() && r.unwrap()@ == old(self)@[old(self)@.len() - 1
                - n] && final(self)@ == old(self)@.subrange(0, old(self)@.len() - 1 - n),
    {
        proof {
            use_type_invariant(&*self);
        }
        let list = self.list;
        let front = self.front;
        if n >= self.back - front {
            *self = Iter { list, front, back: front };
            assert(self@ =~= Seq::<Seq<u8>>::empty());
            return None;
        }
        let index = self.back - 1 - n;
        let item = list.get_unchecked(index);
        *self = Iter { list, front, back: index };
        assert(self@ =~= old(self)@.subrange(0, old(self)@.len() - 1 - n));
        Some(item)
    }

    /// How many elements the walk has yet to hand out.
    #[inline]
    pub fn len(&self) -> (n: usize)
        ensures
            n == self@.len(),
    {
        proof {
            use_type_invariant(self);
        }
        self.back - self.front
    }

    /// Walks to the end and hands out every element that was left, in order.
    pub fn collect(self) -> (out: Vec<&'a [u8]>)
        ensures
            out@.len() == self@.len(),
            forall|i: int| 0 <= i < out@.len() ==> (#[trigger] out@[i])@ == self@[i],
    {
        let mut it = self;
        let mut out: Vec<&'a [u8]> = Vec::new();
        while it.len() > 0
            invariant
                out@.len() + it@.len() == self@.len(),
                it@ == self@.subrange(out@.len() as int, self@.len() as int),
                forall|i: int| 0 <= i < out@.len() ==> (#[trigger] out@[i])@ == self@[i],
            decreases it@.len(),
        {
            match it.next() {
                Some(element) => {
                    out.push(element);
                },
                None => {},
            }
            assert(it@ =~= self@.subrange(out@.len() as int, self@.len() as int));
        }
        out
    }

    /// The number of elements left, as a lower and an upper bound.
    #[inline]
    pub fn size_hint(&self) -> (hint: (usize, Option<usize>))
        ensures
            hint.0 == self@.len(),
            hint.1 == Some(hint.0),
    {
        let n = self.len();
        (n, Some(n))
    }
}

} // verus!
