//! A list of strings kept as a list of byte strings whose elements are all
//! valid UTF-8.

use vstd::prelude::*;
use vstd::std_specs::cmp::PartialEqSpecImpl;
use vstd::std_specs::convert::FromSpecImpl;
use vstd::utf8::{decode_utf8_encode_utf8, encode_utf8, valid_utf8};
use crate::compact_bytestrings::CompactBytestrings;
use crate::sequence::{element_at, swap_removed};
use crate::utf8::{
    all_valid_utf8, decoded, lemma_encoded, str_bytes, str_from_utf8, str_of_valid, str_views,
    InvalidUtf8,
};

verus! {

/// A compact list of strings.
///
/// The strings lie one behind the other in a vector of bytes, and a second
/// vector holds for each where it begins and how long it is. The strings
/// cannot be changed in place.
pub struct CompactStrings(CompactBytestrings);

impl View for CompactStrings {
    type V = Seq<Seq<char>>;

    /// The strings, in order.
    closed spec fn view(&self) -> Seq<Seq<char>> {
        decoded(self.0@)
    }
}

impl CompactStrings {
    #[verifier::type_invariant]
    closed spec fn wf(&self) -> bool {
        all_valid_utf8(self.0@)
    }

    /// The bytes of the strings, in order.
    pub closed spec fn bytes(&self) -> Seq<Seq<u8>> {
        self.0@
    }

    /// How many bytes the buffer holds, those of ignored strings included.
    pub closed spec fn spec_buffer_len(&self) -> nat {
        self.0.spec_buffer_len()
    }

    /// The strings are what the bytes spell, one string for each element.
    pub proof fn lemma_view_of_bytes(&self)
        ensures
            self@ == decoded(self.bytes()),
            self@.len() == self.bytes().len(),
    {
    }

    /// An empty list. Nothing is allocated until the first string is pushed.
    pub fn new() -> (s: Self)
        ensures
            s@ == Seq::<Seq<char>>::empty(),
            s.bytes() == Seq::<Seq<u8>>::empty(),
            s.spec_buffer_len() == 0,
    {
        let s = Self(CompactBytestrings::new());
        assert(s@ =~= Seq::<Seq<char>>::empty());
        s
    }

    /// An empty list with room for at least `data_capacity` bytes and
    /// `capacity_meta` strings.
    pub fn with_capacity(data_capacity: usize, capacity_meta: usize) -> (s: Self)
        ensures
            s@ == Seq::<Seq<char>>::empty(),
            s.bytes() == Seq::<Seq<u8>>::empty(),
            s.spec_buffer_len() == 0,
    {
        let s = Self(CompactBytestrings::with_capacity(data_capacity, capacity_meta));
        assert(s@ =~= Seq::<Seq<char>>::empty());
        s
    }

    /// Takes the list of byte strings out and leaves an empty list behind.
    fn take(&mut self) -> (inner: CompactBytestrings)
        ensures
            inner == old(self).0,
            all_valid_utf8(inner@),
    {
        proof {
            use_type_invariant(&*self);
        }
        let mut taken = Self::new();
        core::mem::swap(self, &mut taken);
        let Self(inner) = taken;
        inner
    }

    /// Appends `string` as the last element.
    pub fn push(&mut self, string: &str)
        ensures
            final(self)@ == old(self)@.push(string@),
            final(self).bytes() == old(self).bytes().push(encode_utf8(string@)),
            final(self).spec_buffer_len() == old(self).spec_buffer_len() + encode_utf8(string@).len(),
    {
        let mut inner = self.take();
        proof {
            lemma_encoded(string@);
        }
        inner.push(string.as_bytes());
        *self = Self(inner);
        assert(self@ =~= old(self)@.push(string@));
    }

    /// The string at `index`, or `None` where the list has no such element.
    pub fn get(&self, index: usize) -> (r: Option<&str>)
        ensures
            match r {
                Some(element) => element_at(self@, index as int) == Some(element@),
                None => element_at(self@, index as int).is_none(),
            },
    {
        if index >= self.0.len() {
            return None;
        }
        Some(self.get_unchecked(index))
    }

    /// The string at `index`, for a caller that knows the index to be in
    /// bounds.
    pub fn get_unchecked(&self, index: usize) -> (r: &str)
        requires
            index < self@.len(),
        ensures
            r@ == self@[index as int],
    {
        proof {
            use_type_invariant(self);
        }
        str_of_valid(self.0.get_unchecked(index))
    }

    /// The number of strings.
    #[inline]
    pub fn len(&self) -> (n: usize)
        ensures
            n == self@.len(),
    {
        self.0.len()
    }

    /// Whether the list has no string.
    #[inline]
    pub fn is_empty(&self) -> (b: bool)
        ensures
            b == (self@.len() == 0),
    {
        self.len() == 0
    }

    /// The number of bytes in the buffer, those of ignored strings included.
    #[inline]
    pub fn buffer_len(&self) -> (n: usize)
        ensures
            n == self.spec_buffer_len(),
    {
        self.0.buffer_len()
    }

    /// The number of bytes the buffer has room for without reallocating.
    #[inline]
    pub fn capacity(&self) -> (c: usize)
        ensures
            c >= self.spec_buffer_len(),
    {
        self.0.capacity()
    }

    /// The number of strings the list has room for without reallocating its
    /// records.
    #[inline]
    pub fn capacity_meta(&self) -> (c: usize)
        ensures
            c >= self@.len(),
    {
        self.0.capacity_meta()
    }

    /// Removes all strings and all bytes. The room allocated stays.
    pub fn clear(&mut self)
        ensures
            final(self)@ == Seq::<Seq<char>>::empty(),
            final(self).bytes() == Seq::<Seq<u8>>::empty(),
            final(self).spec_buffer_len() == 0,
    {
        let mut inner = self.take();
        inner.clear();
        *self = Self(inner);
        assert(self@ =~= Seq::<Seq<char>>::empty());
    }

    /// Gives back as much of the buffer's spare room as the allocator takes.
    #[inline]
    pub fn shrink_to_fit(&mut self)
        ensures
            final(self)@ == old(self)@,
            final(self).bytes() == old(self).bytes(),
            final(self).spec_buffer_len() == old(self).spec_buffer_len(),
    {
        let mut inner = self.take();
        inner.shrink_to_fit();
        *self = Self(inner);
    }

    /// Gives back as much of the records' spare room as the allocator takes.
    #[inline]
    pub fn shrink_meta_to_fit(&mut self)
        ensures
            final(self)@ == old(self)@,
            final(self).bytes() == old(self).bytes(),
            final(self).spec_buffer_len() == old(self).spec_buffer_len(),
    {
        let mut inner = self.take();
        inner.shrink_meta_to_fit();
        *self = Self(inner);
    }

    /// Gives back the buffer's spare room above `min_capacity`.
    #[inline]
    pub fn shrink_to(&mut self, min_capacity: usize)
        ensures
            final(self)@ == old(self)@,
            final(self).bytes() == old(self).bytes(),
            final(self).spec_buffer_len() == old(self).spec_buffer_len(),
    {
        let mut inner = self.take();
        inner.shrink_to(min_capacity);
        *self = Self(inner);
    }

    /// Gives back the records' spare room above `min_capacity`.
    #[inline]
    pub fn shrink_meta_to(&mut self, min_capacity: usize)
        ensures
            final(self)@ == old(self)@,
            final(self).bytes() == old(self).bytes(),
            final(self).spec_buffer_len() == old(self).spec_buffer_len(),
    {
        let mut inner = self.take();
        inner.shrink_meta_to(min_capacity);
        *self = Self(inner);
    }

    /// Removes the string at `index` and leaves its bytes in the buffer. The
    /// strings behind it move down by one place.
    pub fn ignore(&mut self, index: usize)
        requires
            index < old(self)@.len(),
        ensures
            final(self)@ == old(self)@.remove(index as int),
            final(self).bytes() == old(self).bytes().remove(index as int),
            final(self).spec_buffer_len() == old(self).spec_buffer_len(),
    {
        let mut inner = self.take();
        inner.ignore(index);
        *self = Self(inner);
        assert(self@ =~= old(self)@.remove(index as int));
    }

    /// Removes the string at `index` and leaves its bytes in the buffer. The
    /// last string takes its place.
    pub fn swap_ignore(&mut self, index: usize)
        requires
            index < old(self)@.len(),
        ensures
            final(self)@ == swap_removed(old(self)@, index as int),
            final(self).bytes() == swap_removed(old(self).bytes(), index as int),
            final(self).spec_buffer_len() == old(self).spec_buffer_len(),
    {
        let mut inner = self.take();
        inner.swap_ignore(index);
        *self = Self(inner);
        assert(self@ =~= swap_removed(old(self)@, index as int));
    }

    /// Removes the string at `index` together with its bytes. The strings
    /// behind it move down by one place.
    pub fn remove(&mut self, index: usize)
        requires
            index < old(self)@.len(),
        ensures
            final(self)@ == old(self)@.remove(index as int),
            final(self).bytes() == old(self).bytes().remove(index as int),
            final(self).spec_buffer_len() == old(self).spec_buffer_len() - old(self).bytes()[index as int].len(),
    {
        let mut inner = self.take();
        inner.remove(index);
        *self = Self(inner);
        assert(self@ =~= old(self)@.remove(index as int));
    }

    /// Removes the string at `index` together with its bytes. The last
    /// string takes its place.
    pub fn swap_remove(&mut self, index: usize)
        requires
            index < old(self)@.len(),
        ensures
            final(self)@ == swap_removed(old(self)@, index as int),
            final(self).bytes() == swap_removed(old(self).bytes(), index as int),
            final(self).spec_buffer_len() == old(self).spec_buffer_len() - old(self).bytes()[index as int].len(),
    {
        let mut inner = self.take();
        inner.swap_remove(index);
        *self = Self(inner);
        assert(self@ =~= swap_removed(old(self)@, index as int));
    }

    /// Appends every string of `items`, in order.
    pub fn extend(&mut self, items: &[&str])
        ensures
            final(self)@ == old(self)@ + str_views(items@),
            final(self).bytes() == old(self).bytes() + str_bytes(items@),
    {
        let count = items.len();
        let mut i: usize = 0;
        while i < count
            invariant
                i <= count,
                count == items@.len(),
                self@ == old(self)@ + str_views(items@.subrange(0, i as int)),
                self.bytes() == old(self).bytes() + str_bytes(items@.subrange(0, i as int)),
            decreases count - i,
        {
            self.push(items[i]);
            i += 1;
            assert(self@ =~= old(self)@ + str_views(items@.subrange(0, i as int)));
            assert(self.bytes() =~= old(self).bytes() + str_bytes(items@.subrange(0, i as int)));
        }
        assert(items@.subrange(0, count as int) =~= items@);
    }

    /// A list of the strings of `items`, in order, with room for as many
    /// strings reserved at the start.
    pub fn from_iter(items: &[&str]) -> (s: Self)
        ensures
            s@ == str_views(items@),
            s.bytes() == str_bytes(items@),
    {
        let mut out = Self::with_capacity(0, items.len());
        out.extend(items);
        assert(out@ =~= str_views(items@));
        assert(out.bytes() =~= str_bytes(items@));
        out
    }

    /// The string at `index`, which the list has.
    #[inline]
    pub fn index(&self, index: usize) -> (r: &str)
        requires
            index < self@.len(),
        ensures
            r@ == self@[index as int],
    {
        self.get_unchecked(index)
    }

    /// Takes a list of byte strings as a list of strings where every element
    /// is valid UTF-8. Where one is not, the error names the first such
    /// element and gives the list back.
    pub fn try_from(value: CompactBytestrings) -> (r: Result<Self, InvalidUtf8<CompactBytestrings>>)
        ensures
            r.is_ok() == all_valid_utf8(value@),
            r matches Ok(s) ==> s.bytes() == value@ && s@ == decoded(value@),
            r matches Err(e) ==> {
                &&& e.list@ == value@
                &&& e.index < value@.len()
                &&& !valid_utf8(value@[e.index as int])
                &&& forall|i: int| 0 <= i < e.index ==> valid_utf8(#[trigger] value@[i])
            },
    {
        let count = value.len();
        let mut i: usize = 0;
        while i < count
            invariant
                i <= count,
                count == value@.len(),
                forall|k: int| 0 <= k < i ==> valid_utf8(#[trigger] value@[k]),
            decreases count - i,
        {
            match str_from_utf8(value.get_unchecked(i)) {
                Ok(_) => {},
                Err(error) => {
                    return Err(InvalidUtf8 { list: value, index: i, error });
                },
            }
            i += 1;
        }
        Ok(Self(value))
    }

    /// A walk over the strings, first to last.
    #[inline]
    pub fn iter(&self) -> (it: Iter<'_>)
        ensures
            it@ == self@,
    {
        Iter::new(self)
    }
}

impl Default for CompactStrings {
    /// An empty list.
    fn default() -> (s: Self)
        ensures
            s@ == Seq::<Seq<char>>::empty(),
    {
        Self::new()
    }
}

impl Clone for CompactStrings {
    /// A list of the same strings.
    fn clone(&self) -> (s: Self)
        ensures
            s@ == self@,
            s.bytes() == self.bytes(),
    {
        proof {
            use_type_invariant(self);
        }
        Self(self.0.clone())
    }
}

impl PartialEq for CompactStrings {
    /// Two lists are equal where they hold the same strings in the same
    /// order.
    fn eq(&self, other: &Self) -> (same: bool) {
        proof {
            use_type_invariant(self);
            use_type_invariant(other);
            if self@ == other@ {
                assert(self@.len() == self.0@.len());
                assert(other@.len() == other.0@.len());
                assert forall|i: int| 0 <= i < self.0@.len() implies self.0@[i] == other.0@[i] by {
                    assert(self@[i] == other@[i]);
                    assert(valid_utf8(self.0@[i]));
                    assert(valid_utf8(other.0@[i]));
                    decode_utf8_encode_utf8(self.0@[i]);
                    decode_utf8_encode_utf8(other.0@[i]);
                }
                assert(self.0@ =~= other.0@);
            }
        }
        self.0 == other.0
    }
}

impl PartialEqSpecImpl for CompactStrings {
    open spec fn obeys_eq_spec() -> bool {
        true
    }

    open spec fn eq_spec(&self, other: &Self) -> bool {
        self@ == other@
    }
}

impl From<CompactStrings> for CompactBytestrings {
    /// The bytes of the strings, as a list of byte strings.
    fn from(value: CompactStrings) -> (list: Self) {
        let CompactStrings(inner) = value;
        inner
    }
}

impl FromSpecImpl<CompactStrings> for CompactBytestrings {
    open spec fn obeys_from_spec() -> bool {
        true
    }

    open spec fn from_spec(value: CompactStrings) -> Self {
        value.into_bytes()
    }
}

impl CompactStrings {
    /// The list of byte strings that the strings are kept as.
    pub closed spec fn into_bytes(self) -> CompactBytestrings {
        self.0
    }

    /// The list of byte strings holds the bytes of the strings.
    pub proof fn lemma_into_bytes(self)
        ensures
            self.into_bytes()@ == self.bytes(),
    {
    }
}

/// A walk over the strings of a [`CompactStrings`], from both ends.
#[derive(Clone, Copy)]
pub struct Iter<'a> {
    list: &'a CompactStrings,
    front: usize,
    back: usize,
}

impl<'a> View for Iter<'a> {
    type V = Seq<Seq<char>>;

    /// The strings that the walk has yet to hand out, in order.
    closed spec fn view(&self) -> Seq<Seq<char>> {
        self.list@.subrange(self.front as int, self.back as int)
    }
}

impl<'a> Iter<'a> {
    #[verifier::type_invariant]
    closed spec fn wf(&self) -> bool {
        self.front <= self.back <= self.list@.len()
    }

    /// A walk over all strings of `inner`.
    #[inline]
    pub fn new(inner: &'a CompactStrings) -> (it: Self)
        ensures
            it@ == inner@,
    {
        let it = Iter { list: inner, front: 0, back: inner.len() };
        assert(it@ =~= inner@);
        it
    }

    /// The next string from the front, or `None` when the walk is over.
    pub fn next(&mut self) -> (r: Option<&'a str>)
        ensures
            old(self)@.len() == 0 ==> r.is_none() && final(self)@ == old(self)@,
            old(self)@.len() > 0 ==> r.is_some() && r.unwrap()@ == old(self)@[0] && final(self)@
                == old(self)@.drop_first(),
    {
        self.nth(0)
    }

    /// Skips `n` strings from the front and hands out the one behind them.
    /// Where fewer than `n + 1` strings are left, the walk is over and the
    /// result is `None`.
    pub fn nth(&mut self, n: usize) -> (r: Option<&'a str>)
        ensures
            n >= old(self)@.len() ==> r.is_none() && final(self)@ == Seq::<Seq<char>>::empty(),
            n < old(self)@.len() ==> r.is_some() && r.unwrap()@ == old(self)@[n as int]
                && final(self)@ == old(self)@.subrange(n + 1, old(self)@.len() as int),
    {
        proof {
            use_type_invariant(&*self);
        }
        let list = self.list;
        let back = self.back;
        if n >= back - self.front {
            *self = Iter { list, front: back, back };
            assert(self@ =~= Seq::<Seq<char>>::empty());
            return None;
        }
        let index = self.front + n;
        let item = list.get_unchecked(index);
        *self = Iter { list, front: index + 1, back };
        assert(self@ =~= old(self)@.subrange(n + 1, old(self)@.len() as int));
        Some(item)
    }

    /// The next string from the back, or `None` when the walk is over.
    pub fn next_back(&mut self) -> (r: Option<&'a str>)
        ensures
            old(self)@.len() == 0 ==> r.is_none() && final(self)@ == old(self)@,
            old(self)@.len() > 0 ==> r.is_some() && r.unwrap()@ == old(self)@.last()
                && final(self)@ == old(self)@.drop_last(),
    {
        self.nth_back(0)
    }

    /// Skips `n` strings from the back and hands out the one before them.
    /// Where fewer than `n + 1` strings are left, the walk is over and the
    /// result is `None`.
    pub fn nth_back(&mut self, n: usize) -> (r: Option<&'a str>)
        ensures
            n >= old(self)@.len() ==> r.is_none() && final(self)@ == Seq::<Seq<char>>::empty(),
            n < old(self)@.len() ==> r.is_some() && r.unwrap()@ == old(self)@[old(self)@.len() - 1
                - n] && final(self)@ == old(self)@.subrange(0, old(self)@.len() - 1 - n),
    {
        proof {
            use_type_invariant(&*self);
        }
        let list = self.list;
        let front = self.front;
        if n >= self.back - front {
            *self = Iter { list, front, back: front };
            assert(self@ =~= Seq::<Seq<char>>::empty());
            return None;
        }
        let index = self.back - 1 - n;
        let item = list.get_unchecked(index);
        *self = Iter { list, front, back: index };
        assert(self@ =~= old(self)@.subrange(0, old(self)@.len() - 1 - n));
        Some(item)
    }

    /// How many strings the walk has yet to hand out.
    #[inline]
    pub fn len(&self) -> (n: usize)
        ensures
            n == self@.len(),
    {
        proof {
            use_type_invariant(self);
        }
        self.back - self.front
    }

    /// Walks to the end and hands out every string that was left, in order.
    pub fn collect(self) -> (out: Vec<&'a str>)
        ensures
            out@.len() == self@.len(),
            forall|i: int| 0 <= i < out@.len() ==> (#[trigger] out@[i])@ == self@[i],
    {
        let mut it = self;
        let mut out: Vec<&'a str> = Vec::new();
        while it.len() > 0
            invariant
                out@.len() + it@.len() == self@.len(),
                it@ == self@.subrange(out@.len() as int, self@.len() as int),
                forall|i: int| 0 <= i < out@.len() ==> (#[trigger] out@[i])@ == self@[i],
            decreases it@.len(),
        {
            match it.next() {
                Some(element) => {
                    out.push(element);
                },
                None => {},
            }
            assert(it@ =~= self@.subrange(out@.len() as int, self@.len() as int));
        }
        out
    }

    /// The number of strings left, as a lower and an upper bound.
    #[inline]
    pub fn size_hint(&self) -> (hint: (usize, Option<usize>))
        ensures
            hint.0 == self@.len(),
            hint.1 == Some(hint.0),
    {
        let n = self.len();
        (n, Some(n))
    }
}

} // verus!
