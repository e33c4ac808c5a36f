//! A list of strings kept as a packed list of byte strings whose elements
//! are all valid UTF-8.

use vstd::prelude::*;
use vstd::std_specs::cmp::PartialEqSpecImpl;
use vstd::std_specs::convert::FromSpecImpl;
use vstd::utf8::{decode_utf8, decode_utf8_encode_utf8, encode_utf8, valid_utf8};
use crate::buffer::{lemma_total_len_prefix, total_len};
use crate::fixed_compact_bytestrings::FixedCompactBytestrings;
use crate::sequence::element_at;
use crate::slot::{MAX_OFFSET, WORD_BYTES};
use crate::utf8::{
    all_valid_utf8, decoded, lemma_encoded, str_bytes, str_from_utf8, str_of_valid, str_views,
    InvalidUtf8,
};

verus! {

/// An even more compact list of strings.
///
/// Strings of fewer than eight bytes are stored in the slots themselves, the
/// others one behind the other in a vector of bytes. The strings cannot be
/// changed in place.
pub struct FixedCompactStrings(FixedCompactBytestrings);

impl View for FixedCompactStrings {
    type V = Seq<Seq<char>>;

    /// The strings, in order.
    closed spec fn view(&self) -> Seq<Seq<char>> {
        decoded(self.0@)
    }
}

impl FixedCompactStrings {
    #[verifier::type_invariant]
    closed spec fn wf(&self) -> bool {
        all_valid_utf8(self.0@)
    }

    /// The bytes of the strings, in order.
    pub closed spec fn bytes(&self) -> Seq<Seq<u8>> {
        self.0@
    }

    /// How many bytes the buffer holds: none for the strings that live in their slots.
    pub closed spec fn spec_buffer_len(&self) -> nat {
        self.0.spec_buffer_len()
    }

    /// The strings are what the bytes spell, one string for each element.
    pub proof fn lemma_view_of_bytes(&self)
        ensures
            self@ == decoded(self.bytes()),
            self@.len() == self.bytes().len(),
    {
    }

    /// An empty list. Nothing is allocated until the first string is pushed.
    pub fn new() -> (s: Self)
        ensures
            s@ == Seq::<Seq<char>>::empty(),
            s.bytes() == Seq::<Seq<u8>>::empty(),
            s.spec_buffer_len() == 0,
    {
        let s = Self(FixedCompactBytestrings::new());
        assert(s@ =~= Seq::<Seq<char>>::empty());
        s
    }

    /// An empty list with room for at least `data_capacity` bytes and
    /// `capacity_meta` strings.
    pub fn with_capacity(data_capacity: usize, capacity_meta: usize) -> (s: Self)
        ensures
            s@ == Seq::<Seq<char>>::empty(),
            s.bytes() == Seq::<Seq<u8>>::empty(),
            s.spec_buffer_len() == 0,
    {
        let s = Self(FixedCompactBytestrings::with_capacity(data_capacity, capacity_meta));
        assert(s@ =~= Seq::<Seq<char>>::empty());
        s
    }

    /// Takes the list of byte strings out and leaves an empty list behind.
    fn take(&mut self) -> (inner: FixedCompactBytestrings)
        ensures
            inner == old(self).0,
            all_valid_utf8(inner@),
    {
        proof {
            use_type_invariant(&*self);
        }
        let mut taken = Self::new();
        core::mem::swap(self, &mut taken);
        let Self(inner) = taken;
        inner
    }

    /// Appends `string` as the last element. A string of fewer than
    /// `WORD_BYTES` bytes goes into its slot and leaves the buffer alone; a
    /// longer one goes to the end of the buffer, which must not have outgrown
    /// `MAX_OFFSET`.
    pub fn push(&mut self, string: &str)
        requires
            encode_utf8(string@).len() >= WORD_BYTES ==> old(self).spec_buffer_len()
                <= MAX_OFFSET,
        ensures
            final(self)@ == old(self)@.push(string@),
            final(self).bytes() == old(self).bytes().push(encode_utf8(string@)),
            final(self).spec_buffer_len() == old(self).spec_buffer_len() + if encode_utf8(
                string@,
            ).len() < WORD_BYTES {
                0
            } else {
                encode_utf8(string@).len()
            },
    {
        let mut inner = self.take();
        proof {
            lemma_encoded(string@);
        }
        inner.push(string.as_bytes());
        *self = Self(inner);
        assert(self@ =~= old(self)@.push(string@));
    }

    /// The string at `index`, or `None` where the list has no such element.
    pub fn get(&self, index: usize) -> (r: Option<&str>)
        ensures
            match r {
                Some(element) => element_at(self@, index as int) == Some(element@),
                None => element_at(self@, index as int).is_none(),
            },
    {
        if index >= self.0.len() {
            return None;
        }
        Some(self.get_unchecked(index))
    }

    /// The string at `index`, for a caller that knows the index to be in
    /// bounds.
    pub fn get_unchecked(&self, index: usize) -> (r: &str)
        requires
            index < self@.len(),
        ensures
            r@ == self@[index as int],
    {
        proof {
            use_type_invariant(self);
        }
        str_of_valid(self.0.get_unchecked(index))
    }

    /// The number of strings.
    #[inline]
    pub fn len(&self) -> (n: usize)
        ensures
            n == self@.len(),
    {
        self.0.len()
    }

    /// Whether the list has no string.
    #[inline]
    pub fn is_empty(&self) -> (b: bool)
        ensures
            b == (self@.len() == 0),
    {
        self.len() == 0
    }

    /// The number of bytes in the buffer: none for the strings that live in their slots.
    #[inline]
    pub fn buffer_len(&self) -> (n: usize)
        ensures
            n == self.spec_buffer_len(),
    {
        self.0.buffer_len()
    }

    /// Whether the string at `index` lives in its slot: it does where it has
    /// fewer than `WORD_BYTES` bytes.
    pub fn is_inline(&self, index: usize) -> (b: bool)
        requires
            index < self@.len(),
        ensures
            b == (self.bytes()[index as int].len() < WORD_BYTES),
    {
        self.0.is_inline(index)
    }

    /// The number of bytes the buffer has room for without reallocating.
    #[inline]
    pub fn capacity(&self) -> (c: usize)
        ensures
            c >= self.spec_buffer_len(),
    {
        self.0.capacity()
    }

    /// The number of strings the list has room for without reallocating its
    /// slots.
    #[inline]
    pub fn capacity_meta(&self) -> (c: usize)
        ensures
            c >= self@.len(),
    {
        self.0.capacity_meta()
    }

    /// Removes all strings and all bytes. The room allocated stays.
    pub fn clear(&mut self)
        ensures
            final(self)@ == Seq::<Seq<char>>::empty(),
            final(self).bytes() == Seq::<Seq<u8>>::empty(),
            final(self).spec_buffer_len() == 0,
    {
        let mut inner = self.take();
        inner.clear();
        *self = Self(inner);
        assert(self@ =~= Seq::<Seq<char>>::empty());
    }

    /// Gives back as much of the buffer's spare room as the allocator takes.
    #[inline]
    pub fn shrink_to_fit(&mut self)
        ensures
            final(self)@ == old(self)@,
            final(self).bytes() == old(self).bytes(),
            final(self).spec_buffer_len() == old(self).spec_buffer_len(),
    {
        let mut inner = self.take();
        inner.shrink_to_fit();
        *self = Self(inner);
    }

    /// Gives back as much of the slots' spare room as the allocator takes.
    #[inline]
    pub fn shrink_meta_to_fit(&mut self)
        ensures
            final(self)@ == old(self)@,
            final(self).bytes() == old(self).bytes(),
            final(self).spec_buffer_len() == old(self).spec_buffer_len(),
    {
        let mut inner = self.take();
        inner.shrink_meta_to_fit();
        *self = Self(inner);
    }

    /// Gives back the buffer's spare room above `min_capacity`.
    #[inline]
    pub fn shrink_to(&mut self, min_capacity: usize)
        ensures
            final(self)@ == old(self)@,
            final(self).bytes() == old(self).bytes(),
            final(self).spec_buffer_len() == old(self).spec_buffer_len(),
    {
        let mut inner = self.take();
        inner.shrink_to(min_capacity);
        *self = Self(inner);
    }

    /// Gives back the slots' spare room above `min_capacity`.
    #[inline]
    pub fn shrink_meta_to(&mut self, min_capacity: usize)
        ensures
            final(self)@ == old(self)@,
            final(self).bytes() == old(self).bytes(),
            final(self).spec_buffer_len() == old(self).spec_buffer_len(),
    {
        let mut inner = self.take();
        inner.shrink_meta_to(min_capacity);
        *self = Self(inner);
    }

    /// Removes the string at `index`, and its bytes where it has any in the
    /// buffer. The strings behind it move down by one place.
    pub fn remove(&mut self, index: usize)
        requires
            index < old(self)@.len(),
        ensures
            final(self)@ == old(self)@.remove(index as int),
            final(self).bytes() == old(self).bytes().remove(index as int),
            final(self).spec_buffer_len() == old(self).spec_buffer_len() - if old(self).bytes()[index as int].len()
                < WORD_BYTES {
                0
            } else {
                old(self).bytes()[index as int].len()
            },
    {
        let mut inner = self.take();
        inner.remove(index);
        *self = Self(inner);
        assert(self@ =~= old(self)@.remove(index as int));
    }

    /// Appends every string of `items`, in order. The strings that go to the
    /// buffer must leave it within `MAX_OFFSET`, as `push` asks.
    pub fn extend(&mut self, items: &[&str])
        requires
            old(self).spec_buffer_len() + total_len(str_bytes(items@)) <= MAX_OFFSET,
        ensures
            final(self)@ == old(self)@ + str_views(items@),
            final(self).bytes() == old(self).bytes() + str_bytes(items@),
    {
        let count = items.len();
        let ghost all = str_bytes(items@);
        assert(total_len(all.subrange(0, 0)) == 0);
        let mut i: usize = 0;
        while i < count
            invariant
                i <= count,
                count == items@.len(),
                all == str_bytes(items@),
                old(self).spec_buffer_len() + total_len(all) <= MAX_OFFSET,
                self@ == old(self)@ + str_views(items@.subrange(0, i as int)),
                self.bytes() == old(self).bytes() + str_bytes(items@.subrange(0, i as int)),
                self.spec_buffer_len() <= old(self).spec_buffer_len() + total_len(
                    all.subrange(0, i as int),
                ),
                total_len(all.subrange(0, i as int)) <= total_len(all),
            decreases count - i,
        {
            proof {
                lemma_total_len_prefix(all, i as int);
            }
            self.push(items[i]);
            i += 1;
            assert(self@ =~= old(self)@ + str_views(items@.subrange(0, i as int)));
            assert(self.bytes() =~= old(self).bytes() + str_bytes(items@.subrange(0, i as int)));
        }
        assert(items@.subrange(0, count as int) =~= items@);
    }

    /// A list of the strings of `items`, in order, with room for as many
    /// strings reserved at the start.
    pub fn from_iter(items: &[&str]) -> (s: Self)
        requires
            total_len(str_bytes(items@)) <= MAX_OFFSET,
        ensures
            s@ == str_views(items@),
            s.bytes() == str_bytes(items@),
    {
        let mut out = Self::with_capacity(0, items.len());
        out.extend(items);
        assert(out@ =~= str_views(items@));
        assert(out.bytes() =~= str_bytes(items@));
        out
    }

    /// The string at `index`, which the list has.
    #[inline]
    pub fn index(&self, index: usize) -> (r: &str)
        requires
            index < self@.len(),
        ensures
            r@ == self@[index as int],
    {
        self.get_unchecked(index)
    }

    /// Takes a list of byte strings as a list of strings where every element
    /// is valid UTF-8. Where one is not, the error names the first such
    /// element and gives the list back.
    pub fn try_from(value: FixedCompactBytestrings) -> (r: Result<Self, InvalidUtf8<FixedCompactBytestrings>>)
        ensures
            r.is_ok() == all_valid_utf8(value@),
            r matches Ok(s) ==> s.bytes() == value@ && s@ == decoded(value@),
            r matches Err(e) ==> {
                &&& e.list@ == value@
                &&& e.index < value@.len()
                &&& !valid_utf8(value@[e.index as int])
                &&& forall|i: int| 0 <= i < e.index ==> valid_utf8(#[trigger] value@[i])
            },
    {
        let count = value.len();
        let mut i: usize = 0;
        while i < count
            invariant
                i <= count,
                count == value@.len(),
                forall|k: int| 0 <= k < i ==> valid_utf8(#[trigger] value@[k]),
            decreases count - i,
        {
            match str_from_utf8(value.get_unchecked(i)) {
                Ok(_) => {},
                Err(error) => {
                    return Err(InvalidUtf8 { list: value, index: i, error });
                },
            }
            i += 1;
        }
        Ok(Self(value))
    }

    /// A walk over the strings, first to last.
    #[inline]
    pub fn iter(&self) -> (it: Iter<'_>)
        ensures
            it@ == self@,
    {
        Iter::new(self)
    }
}

impl Default for FixedCompactStrings {
    /// An empty list.
    fn default() -> (s: Self)
        ensures
            s@ == Seq::<Seq<char>>::empty(),
    {
        Self::new()
    }
}

impl Clone for FixedCompactStrings {
    /// A list of the same strings.
    fn clone(&self) -> (s: Self)
        ensures
            s@ == self@,
            s.bytes() == self.bytes(),
    {
        proof {
            use_type_invariant(self);
        }
        Self(self.0.clone())
    }
}

impl PartialEq for FixedCompactStrings {
    /// Two lists are equal where they hold the same strings in the same
    /// order.
    fn eq(&self, other: &Self) -> (same: bool) {
        proof {
            use_type_invariant(self);
            use_type_invariant(other);
            if self@ == other@ {
                assert(self@.len() == self.0@.len());
                assert(other@.len() == other.0@.len());
                assert forall|i: int| 0 <= i < self.0@.len() implies self.0@[i] == other.0@[i] by {
                    assert(self@[i] == other@[i]);
                    assert(valid_utf8(self.0@[i]));
                    assert(valid_utf8(other.0@[i]));
                    decode_utf8_encode_utf8(self.0@[i]);
                    decode_utf8_encode_utf8(other.0@[i]);
                }
                assert(self.0@ =~= other.0@);
            }
        }
        self.0 == other.0
    }
}

impl PartialEqSpecImpl for FixedCompactStrings {
    open spec fn obeys_eq_spec() -> bool {
        true
    }

    open spec fn eq_spec(&self, other: &Self) -> bool {
        self@ == other@
    }
}

impl From<FixedCompactStrings> for FixedCompactBytestrings {
    /// The bytes of the strings, as a list of byte strings.
    fn from(value: FixedCompactStrings) -> (list: Self) {
        let FixedCompactStrings(inner) = value;
        inner
    }
}

impl FromSpecImpl<FixedCompactStrings> for FixedCompactBytestrings {
    open spec fn obeys_from_spec() -> bool {
        true
    }

    open spec fn from_spec(value: FixedCompactStrings) -> Self {
        value.into_bytes()
    }
}

impl FixedCompactStrings {
    /// The list of byte strings that the strings are kept as.
    pub closed spec fn into_bytes(self) -> FixedCompactBytestrings {
        self.0
    }

    /// The list of byte strings holds the bytes of the strings.
    pub proof fn lemma_into_bytes(self)
        ensures
            self.into_bytes()@ == self.bytes(),
    {
    }
}

/// A walk over the strings of a [`FixedCompactStrings`], from both ends.
#[derive(Clone, Copy)]
pub struct Iter<'a>(crate::fixed_compact_bytestrings::Iter<'a>);

impl<'a> View for Iter<'a> {
    type V = Seq<Seq<char>>;

    /// The strings that the walk has yet to hand out, in order.
    closed spec fn view(&self) -> Seq<Seq<char>> {
        decoded(self.0@)
    }
}

impl<'a> Iter<'a> {
    #[verifier::type_invariant]
    closed spec fn wf(&self) -> bool {
        all_valid_utf8(self.0@)
    }

    /// A walk over all strings of `inner`.
    #[inline]
    pub fn new(inner: &'a FixedCompactStrings) -> (it: Self)
        ensures
            it@ == inner@,
    {
        proof {
            use_type_invariant(inner);
        }
        Iter(inner.0.iter())
    }

    /// The string that the bytes handed out by the walk below spell.
    fn from_utf8_maybe_checked(bytes: Option<&'a [u8]>) -> (r: Option<&'a str>)
        requires
            bytes matches Some(b) ==> valid_utf8(b@),
        ensures
            bytes.is_none() == r.is_none(),
            bytes matches Some(b) ==> r.unwrap()@ == decode_utf8(b@),
    {
        match bytes {
            Some(b) => Some(str_of_valid(b)),
            None => None,
        }
    }

    /// The next string from the front, or `None` when the walk is over.
    pub fn next(&mut self) -> (r: Option<&'a str>)
        ensures
            old(self)@.len() == 0 ==> r.is_none() && final(self)@ == old(self)@,
            old(self)@.len() > 0 ==> r.is_some() && r.unwrap()@ == old(self)@[0] && final(self)@
                == old(self)@.drop_first(),
    {
        self.nth(0)
    }

    /// Skips `n` strings from the front and hands out the one behind them.
    /// Where fewer than `n + 1` strings are left, the walk is over and the
    /// result is `None`.
    pub fn nth(&mut self, n: usize) -> (r: Option<&'a str>)
        ensures
            n >= old(self)@.len() ==> r.is_none() && final(self)@ == Seq::<Seq<char>>::empty(),
            n < old(self)@.len() ==> r.is_some() && r.unwrap()@ == old(self)@[n as int]
                && final(self)@ == old(self)@.subrange(n + 1, old(self)@.len() as int),
    {
        proof {
            use_type_invariant(&*self);
        }
        let mut inner = self.0;
        let bytes = inner.nth(n);
        *self = Iter(inner);
        proof {
            if n < old(self)@.len() {
                assert(self@ =~= old(self)@.subrange(n + 1, old(self)@.len() as int));
            } else {
                assert(self@ =~= Seq::<Seq<char>>::empty());
            }
        }
        Self::from_utf8_maybe_checked(bytes)
    }

    /// The next string from the back, or `None` when the walk is over.
    pub fn next_back(&mut self) -> (r: Option<&'a str>)
        ensures
            old(self)@.len() == 0 ==> r.is_none() && final(self)@ == old(self)@,
            old(self)@.len() > 0 ==> r.is_some() && r.unwrap()@ == old(self)@.last()
                && final(self)@ == old(self)@.drop_last(),
    {
        self.nth_back(0)
    }

    /// Skips `n` strings from the back and hands out the one before them.
    /// Where fewer than `n + 1` strings are left, the walk is over and the
    /// result is `None`.
    pub fn nth_back(&mut self, n: usize) -> (r: Option<&'a str>)
        ensures
            n >= old(self)@.len() ==> r.is_none() && final(self)@ == Seq::<Seq<char>>::empty(),
            n < old(self)@.len() ==> r.is_some() && r.unwrap()@ == old(self)@[old(self)@.len() - 1
                - n] && final(self)@ == old(self)@.subrange(0, old(self)@.len() - 1 - n),
    {
        proof {
            use_type_invariant(&*self);
        }
        let mut inner = self.0;
        let bytes = inner.nth_back(n);
        *self = Iter(inner);
        proof {
            if n < old(self)@.len() {
                assert(self@ =~= old(self)@.subrange(0, old(self)@.len() - 1 - n));
            } else {
                assert(self@ =~= Seq::<Seq<char>>::empty());
            }
        }
        Self::from_utf8_maybe_checked(bytes)
    }

    /// How many strings the walk has yet to hand out.
    #[inline]
    pub fn len(&self) -> (n: usize)
        ensures
            n == self@.len(),
    {
        self.0.len()
    }

    /// Walks to the end and hands out every string that was left, in order.
    pub fn collect(self) -> (out: Vec<&'a str>)
        ensures
            out@.len() == self@.len(),
            forall|i: int| 0 <= i < out@.len() ==> (#[trigger] out@[i])@ == self@[i],
    {
        let mut it = self;
        let mut out: Vec<&'a str> = Vec::new();
        while it.len() > 0
            invariant
                out@.len() + it@.len() == self@.len(),
                it@ == self@.subrange(out@.len() as int, self@.len() as int),
                forall|i: int| 0 <= i < out@.len() ==> (#[trigger] out@[i])@ == self@[i],
            decreases it@.len(),
        {
            match it.next() {
                Some(element) => {
                    out.push(element);
                },
                None => {},
            }
            assert(it@ =~= self@.subrange(out@.len() as int, self@.len() as int));
        }
        out
    }

    /// The number of strings left, as a lower and an upper bound.
    #[inline]
    pub fn size_hint(&self) -> (hint: (usize, Option<usize>))
        ensures
            hint.0 == self@.len(),
            hint.1 == Some(hint.0),
    {
        let n = self.len();
        (n, Some(n))
    }

    /// Ends the walk and says how many strings were left.
    #[inline]
    pub fn count(self) -> (n: usize)
        ensures
            n == self@.len(),
    {
        self.len()
    }

    /// Ends the walk and hands out the last string that was left.
    #[inline]
    pub fn last(self) -> (r: Option<&'a str>)
        ensures
            self@.len() == 0 ==> r.is_none(),
            self@.len() > 0 ==> r.is_some() && r.unwrap()@ == self@.last(),
    {
        let mut it = self;
        it.next_back()
    }
}

} // verus!
