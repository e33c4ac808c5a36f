//! A list of byte strings kept in one buffer, with one eight-byte slot per
//! element. A string shorter than a slot lives in its slot; a longer one
//! lives in the buffer, and its slot holds where it begins. Such an element
//! ends where the next one in the buffer begins.

use vstd::prelude::*;
use vstd::slice::{slice_subrange, slice_to_vec};
use vstd::std_specs::cmp::PartialEqSpecImpl;
use crate::buffer::{
    bytes_equal, lemma_spliced_after, lemma_spliced_before, lemma_total_len_prefix, slice_views,
    splice_out, spliced, total_len, vec_capacity, vec_shrink_to, vec_shrink_to_fit,
};
use crate::sequence::element_at;
use crate::slot::{
    inline_bytes, inline_slot, is_inline, lemma_flag_clear_offset, lemma_inline_len, offset_slot,
    read_inline, read_offset, slot_is_inline, slot_offset, tag_is_clean, MAX_OFFSET, WORD_BYTES,
};

verus! {

/// An even more compact list of byte strings.
///
/// Strings of fewer than eight bytes are stored in the slots themselves, the
/// others one behind the other in a vector of bytes. The elements cannot be
/// changed in place.
pub struct FixedCompactBytestrings {
    data: Vec<u8>,
    starts: Vec<[u8; 8]>,
}

/// Where the element before slot `from` ends in a buffer of `data_len`
/// bytes: at the offset of the first slot from `from` on that holds an
/// offset, or at the end of the buffer where no such slot follows.
pub open spec fn resolve_end(starts: Seq<[u8; 8]>, data_len: int, from: int) -> int
    decreases starts.len() - from,
{
    if 0 <= from < starts.len() {
        if is_inline(starts[from]) {
            resolve_end(starts, data_len, from + 1)
        } else {
            slot_offset(starts[from])
        }
    } else {
        data_len
    }
}

/// The bytes of the element that slot `i` stands for.
pub open spec fn element_bytes(starts: Seq<[u8; 8]>, data: Seq<u8>, i: int) -> Seq<u8> {
    if is_inline(starts[i]) {
        inline_bytes(starts[i])
    } else {
        data.subrange(slot_offset(starts[i]), resolve_end(starts, data.len() as int, i + 1))
    }
}

/// The slots agree with a buffer of `data_len` bytes: an inline slot has a
/// clean tag, an offset lies inside the buffer, and the offsets do not
/// decrease from slot to slot.
pub open spec fn slots_fit(starts: Seq<[u8; 8]>, data_len: int) -> bool {
    &&& forall|i: int|
        0 <= i < starts.len() && is_inline(#[trigger] starts[i]) ==> tag_is_clean(starts[i])
    &&& forall|i: int|
        0 <= i < starts.len() && !is_inline(#[trigger] starts[i]) ==> slot_offset(starts[i])
            <= data_len
    &&& forall|i: int, j: int|
        0 <= i < j < starts.len() && !is_inline(#[trigger] starts[i]) && !is_inline(
            #[trigger] starts[j],
        ) ==> slot_offset(starts[i]) <= slot_offset(starts[j])
}

/// Every element in the buffer has at least `WORD_BYTES` bytes: shorter ones
/// live in their slots.
pub open spec fn long_elements(starts: Seq<[u8; 8]>, data_len: int) -> bool {
    forall|i: int|
        0 <= i < starts.len() && !is_inline(#[trigger] starts[i]) ==> slot_offset(starts[i])
            + WORD_BYTES <= resolve_end(starts, data_len, i + 1)
}

/// The slot `after` is the slot `before` once `shift` bytes have left the
/// buffer in front of its element: an inline slot is as it was, an offset is
/// `shift` smaller.
pub open spec fn slot_shifted(before: [u8; 8], after: [u8; 8], shift: int) -> bool {
    if is_inline(before) {
        after == before
    } else {
        !is_inline(after) && slot_offset(after) == slot_offset(before) - shift
    }
}

/// The end that is resolved from `from` lies inside the buffer, at or before
/// every offset from `from` on, and at or behind every offset before `from`.
pub proof fn lemma_resolve_end_bounds(starts: Seq<[u8; 8]>, data_len: int, from: int)
    requires
        slots_fit(starts, data_len),
        0 <= from <= starts.len(),
        0 <= data_len,
    ensures
        0 <= resolve_end(starts, data_len, from) <= data_len,
        forall|j: int|
            from <= j < starts.len() && !is_inline(#[trigger] starts[j]) ==> resolve_end(
                starts,
                data_len,
                from,
            ) <= slot_offset(starts[j]),
        forall|i: int|
            0 <= i < from && !is_inline(#[trigger] starts[i]) ==> slot_offset(starts[i])
                <= resolve_end(starts, data_len, from),
    decreases starts.len() - from,
{
    if from < starts.len() {
        if is_inline(starts[from]) {
            lemma_resolve_end_bounds(starts, data_len, from + 1);
        }
    }
}

/// Two lists of slots that agree from `from` up to `upto`, and resolve the
/// same end at `upto`, resolve the same end at `from`.
pub proof fn lemma_resolve_end_agree(
    a: Seq<[u8; 8]>,
    a_len: int,
    b: Seq<[u8; 8]>,
    b_len: int,
    from: int,
    upto: int,
)
    requires
        0 <= from <= upto,
        upto <= a.len(),
        upto <= b.len(),
        forall|k: int| from <= k < upto ==> a[k] == b[k],
        resolve_end(a, a_len, upto) == resolve_end(b, b_len, upto),
    ensures
        resolve_end(a, a_len, from) == resolve_end(b, b_len, from),
    decreases upto - from,
{
    if from < upto {
        lemma_resolve_end_agree(a, a_len, b, b_len, from + 1, upto);
    }
}

/// Where every slot of `b` from `from` on is the slot one place further up
/// in `a`, shifted by `shift`, and the buffer of `b` is `shift` shorter, the
/// end that `b` resolves at `from` is the end that `a` resolves one place
/// further up, less `shift`.
pub proof fn lemma_resolve_end_shifted(
    a: Seq<[u8; 8]>,
    a_len: int,
    b: Seq<[u8; 8]>,
    b_len: int,
    from: int,
    shift: int,
)
    requires
        0 <= from,
        b.len() + 1 == a.len(),
        b_len == a_len - shift,
        forall|k: int| from <= k < b.len() ==> slot_shifted(a[k + 1], #[trigger] b[k], shift),
    ensures
        resolve_end(b, b_len, from) == resolve_end(a, a_len, from + 1) - shift,
    decreases b.len() - from,
{
    if from < b.len() {
        assert(slot_shifted(a[from + 1], b[from], shift));
        if is_inline(b[from]) {
            lemma_resolve_end_shifted(a, a_len, b, b_len, from + 1, shift);
        }
    }
}

/// The slots with the one at `index` taken out resolve, from `index` on, the
/// ends that the slots resolved one place further up, and still agree with
/// the buffer.
pub proof fn lemma_cut_fits(a: Seq<[u8; 8]>, a_len: int, index: int)
    requires
        slots_fit(a, a_len),
        0 <= index < a.len(),
    ensures
        slots_fit(a.remove(index), a_len),
        resolve_end(a.remove(index), a_len, index) == resolve_end(a, a_len, index + 1),
{
    let b = a.remove(index);
    assert forall|k: int| index <= k < b.len() implies slot_shifted(a[k + 1], #[trigger] b[k], 0) by {}
    lemma_resolve_end_shifted(a, a_len, b, a_len, index, 0);
    assert forall|i: int| 0 <= i < b.len() implies #[trigger] b[i] == a[if i < index {
        i
    } else {
        i + 1
    }] by {}
}

/// What a removal at `index` leaves: the slots `b` and the bytes `b_data`,
/// from the slots `a` and the bytes `a_data`. The slots before `index` are as
/// they were, those behind it have moved down one place and are shifted by
/// the bytes that left the buffer.
pub open spec fn removal(
    a: Seq<[u8; 8]>,
    a_data: Seq<u8>,
    b: Seq<[u8; 8]>,
    b_data: Seq<u8>,
    index: int,
    shift: int,
) -> bool {
    &&& slots_fit(a, a_data.len() as int)
    &&& 0 <= index < a.len()
    &&& b.len() + 1 == a.len()
    &&& forall|k: int| 0 <= k < index ==> #[trigger] b[k] == a[k]
    &&& forall|k: int| index <= k < b.len() ==> slot_shifted(a[k + 1], #[trigger] b[k], shift)
    &&& if is_inline(a[index]) {
        shift == 0 && b_data == a_data
    } else {
        &&& shift == resolve_end(a, a_data.len() as int, index + 1) - slot_offset(a[index])
        &&& b_data == spliced(a_data, slot_offset(a[index]), shift)
    }
}

/// After a removal the slots resolve the ends that they resolved before:
/// unchanged up to `index`, and `shift` lower behind it.
pub proof fn lemma_removed_ends(
    a: Seq<[u8; 8]>,
    a_data: Seq<u8>,
    b: Seq<[u8; 8]>,
    b_data: Seq<u8>,
    index: int,
    shift: int,
    k: int,
)
    requires
        removal(a, a_data, b, b_data, index, shift),
        0 <= k <= b.len(),
    ensures
        0 <= shift,
        b_data.len() == a_data.len() - shift,
        k <= index ==> resolve_end(b, b_data.len() as int, k) == resolve_end(
            a,
            a_data.len() as int,
            k,
        ),
        k >= index ==> resolve_end(b, b_data.len() as int, k) == resolve_end(
            a,
            a_data.len() as int,
            k + 1,
        ) - shift,
{
    let a_len = a_data.len() as int;
    lemma_resolve_end_bounds(a, a_len, index + 1);
    let b_len = b_data.len() as int;
    assert(b_len == a_len - shift);
    lemma_resolve_end_shifted(a, a_len, b, b_len, index, shift);
    assert(resolve_end(b, b_len, index) == resolve_end(a, a_len, index));
    if k <= index {
        lemma_resolve_end_agree(b, b_len, a, a_len, k, index);
    }
    if k >= index {
        lemma_resolve_end_shifted(a, a_len, b, b_len, k, shift);
    }
}

/// After a removal the slots agree with the buffer.
#[verifier::rlimit(40)]
pub proof fn lemma_removed_fits(
    a: Seq<[u8; 8]>,
    a_data: Seq<u8>,
    b: Seq<[u8; 8]>,
    b_data: Seq<u8>,
    index: int,
    shift: int,
)
    requires
        removal(a, a_data, b, b_data, index, shift),
    ensures
        slots_fit(b, b_data.len() as int),
        b_data.len() == a_data.len() - shift,
{
    let a_len = a_data.len() as int;
    let b_len = b_data.len() as int;
    lemma_removed_ends(a, a_data, b, b_data, index, shift, index);
    lemma_resolve_end_bounds(a, a_len, index + 1);
    lemma_resolve_end_bounds(a, a_len, index);
    let end = resolve_end(a, a_len, index + 1);
    assert forall|i: int| 0 <= i < b.len() implies slot_shifted(
        a[if i < index {
            i
        } else {
            i + 1
        }],
        #[trigger] b[i],
        if i < index {
            0
        } else {
            shift
        },
    ) by {}
    assert forall|i: int| 0 <= i < b.len() && !is_inline(#[trigger] b[i]) implies slot_offset(b[i])
        <= b_len by {
        let from = if i < index { i } else { i + 1 };
        assert(!is_inline(a[from]));
        if i < index {
            assert(slot_offset(a[from]) <= resolve_end(a, a_len, index));
        } else {
            assert(end <= slot_offset(a[from]));
        }
    }
    assert forall|i: int, j: int|
        0 <= i < j < b.len() && !is_inline(#[trigger] b[i]) && !is_inline(
            #[trigger] b[j],
        ) implies slot_offset(b[i]) <= slot_offset(b[j]) by {
        let fi = if i < index { i } else { i + 1 };
        let fj = if j < index { j } else { j + 1 };
        assert(!is_inline(a[fi]) && !is_inline(a[fj]));
        assert(slot_offset(a[fi]) <= slot_offset(a[fj]));
        if i < index && j >= index {
            assert(slot_offset(a[fi]) <= resolve_end(a, a_len, index));
            assert(end <= slot_offset(a[fj]));
        }
    }
}

/// After a removal every element in the buffer still has at least
/// `WORD_BYTES` bytes.
pub proof fn lemma_removed_long(
    a: Seq<[u8; 8]>,
    a_data: Seq<u8>,
    b: Seq<[u8; 8]>,
    b_data: Seq<u8>,
    index: int,
    shift: int,
)
    requires
        removal(a, a_data, b, b_data, index, shift),
        long_elements(a, a_data.len() as int),
    ensures
        long_elements(b, b_data.len() as int),
{
    assert forall|i: int| 0 <= i < b.len() && !is_inline(#[trigger] b[i]) implies slot_offset(b[i])
        + WORD_BYTES <= resolve_end(b, b_data.len() as int, i + 1) by {
        let from = if i < index { i } else { i + 1 };
        assert(slot_shifted(a[from], b[i], if i < index { 0 } else { shift }));
        assert(!is_inline(a[from]));
        lemma_removed_ends(a, a_data, b, b_data, index, shift, i + 1);
    }
}

/// After a removal the element at `k` is the element that stood at `k`
/// before, or one place further up where `k` is not before `index`.
#[verifier::rlimit(40)]
pub proof fn lemma_removed_element(
    a: Seq<[u8; 8]>,
    a_data: Seq<u8>,
    b: Seq<[u8; 8]>,
    b_data: Seq<u8>,
    index: int,
    shift: int,
    k: int,
)
    requires
        removal(a, a_data, b, b_data, index, shift),
        0 <= k < b.len(),
    ensures
        element_bytes(b, b_data, k) == element_bytes(a, a_data, if k < index {
            k
        } else {
            k + 1
        }),
{
    let a_len = a_data.len() as int;
    let from = if k < index { k } else { k + 1 };
    assert(slot_shifted(a[from], b[k], if k < index { 0 } else { shift }));
    if !is_inline(a[from]) {
        lemma_removed_ends(a, a_data, b, b_data, index, shift, k + 1);
        lemma_resolve_end_bounds(a, a_len, from + 1);
        lemma_resolve_end_bounds(a, a_len, index + 1);
        lemma_resolve_end_bounds(a, a_len, index);
        let lo = slot_offset(a[from]);
        let hi = resolve_end(a, a_len, from + 1);
        if !is_inline(a[index]) {
            let start = slot_offset(a[index]);
            if k < index {
                assert(hi <= resolve_end(a, a_len, index));
                lemma_spliced_before(a_data, start, shift, lo, hi);
            } else {
                lemma_spliced_after(a_data, start, shift, lo, hi);
            }
        }
    }
}

/// The end of the element before slot `from`, found by walking the slots
/// from `from` up to `upto`; `fallback` is the end that holds at `upto`.
fn scan_end(
    starts: &Vec<[u8; 8]>,
    from: usize,
    upto: usize,
    fallback: usize,
    Ghost(data_len): Ghost<int>,
) -> (end: usize)
    requires
        slots_fit(starts@, data_len),
        0 <= data_len <= usize::MAX,
        from <= upto <= starts@.len(),
        fallback == resolve_end(starts@, data_len, upto as int),
    ensures
        end == resolve_end(starts@, data_len, from as int),
{
    let mut i: usize = from;
    while i < upto
        invariant
            from <= i <= upto,
            upto <= starts@.len(),
            slots_fit(starts@, data_len),
            0 <= data_len <= usize::MAX,
            fallback == resolve_end(starts@, data_len, upto as int),
            resolve_end(starts@, data_len, i as int) == resolve_end(
                starts@,
                data_len,
                from as int,
            ),
        decreases upto - i,
    {
        if !slot_is_inline(&starts[i]) {
            let offset = read_offset(&starts[i]);
            assert(slot_offset(starts@[i as int]) <= data_len);
            return offset as usize;
        }
        i += 1;
    }
    fallback
}

/// Makes every offset from slot `from` on smaller by `shift`.
fn rebase(starts: &mut Vec<[u8; 8]>, from: usize, shift: usize)
    requires
        from <= old(starts)@.len(),
        forall|k: int|
            from <= k < old(starts)@.len() && !is_inline(#[trigger] old(starts)@[k]) ==> shift
                <= slot_offset(old(starts)@[k]),
    ensures
        final(starts)@.len() == old(starts)@.len(),
        forall|k: int| 0 <= k < from ==> #[trigger] final(starts)@[k] == old(starts)@[k],
        forall|k: int|
            from <= k < old(starts)@.len() ==> slot_shifted(
                old(starts)@[k],
                #[trigger] final(starts)@[k],
                shift as int,
            ),
{
    let count = starts.len();
    let mut i: usize = from;
    while i < count
        invariant
            from <= i <= count,
            starts@.len() == count,
            count == old(starts)@.len(),
            forall|k: int| 0 <= k < from ==> #[trigger] starts@[k] == old(starts)@[k],
            forall|k: int|
                from <= k < i ==> slot_shifted(
                    old(starts)@[k],
                    #[trigger] starts@[k],
                    shift as int,
                ),
            forall|k: int| i <= k < count ==> #[trigger] starts@[k] == old(starts)@[k],
            forall|k: int|
                from <= k < count && !is_inline(#[trigger] old(starts)@[k]) ==> shift
                    <= slot_offset(old(starts)@[k]),
        decreases count - i,
    {
        if !slot_is_inline(&starts[i]) {
            let offset = read_offset(&starts[i]);
            proof {
                lemma_flag_clear_offset(starts@[i as int]);
            }
            let moved = offset_slot(offset - shift as u64);
            starts.set(i, moved);
        }
        i += 1;
    }
}

/// Takes slot `index` out of the slots and, where its element lies in the
/// buffer, the element out of the buffer; the offsets behind it follow. The
/// result is the number of bytes that left the buffer.
#[verifier::rlimit(40)]
fn cut_out(data: &mut Vec<u8>, starts: &mut Vec<[u8; 8]>, index: usize) -> (shift: usize)
    requires
        slots_fit(old(starts)@, old(data).len() as int),
        index < old(starts)@.len(),
    ensures
        removal(
            old(starts)@,
            old(data)@,
            final(starts)@,
            final(data)@,
            index as int,
            shift as int,
        ),
{
    let ghost old_starts = starts@;
    let ghost old_len = data@.len() as int;
    let total = data.len();
    let slot = starts.remove(index);
    let ghost cut = starts@;
    let mut shift: usize = 0;
    if !slot_is_inline(&slot) {
        proof {
            lemma_cut_fits(old_starts, old_len, index as int);
            lemma_resolve_end_bounds(old_starts, old_len, index + 1);
        }
        let start = read_offset(&slot) as usize;
        let end = scan_end(starts, index, starts.len(), total, Ghost(old_len));
        shift = end - start;
        proof {
            assert forall|k: int|
                index <= k < cut.len() && !is_inline(#[trigger] cut[k]) implies shift
                <= slot_offset(cut[k]) by {
                assert(cut[k] == old_starts[k + 1]);
            }
        }
        rebase(starts, index, shift);
        splice_out(data, start, shift);
    }
    proof {
        assert forall|k: int| 0 <= k < index implies #[trigger] starts@[k] == old_starts[k] by {
            assert(cut[k] == old_starts[k]);
        }
        assert forall|k: int| index <= k < starts@.len() implies slot_shifted(
            old_starts[k + 1],
            #[trigger] starts@[k],
            shift as int,
        ) by {
            assert(cut[k] == old_starts[k + 1]);
        }
    }
    shift
}

impl View for FixedCompactBytestrings {
    type V = Seq<Seq<u8>>;

    /// The elements, in order.
    closed spec fn view(&self) -> Seq<Seq<u8>> {
        Seq::new(self.starts@.len(), |i: int| element_bytes(self.starts@, self.data@, i))
    }
}

impl FixedCompactBytestrings {
    #[verifier::type_invariant]
    closed spec fn wf(&self) -> bool {
        &&& slots_fit(self.starts@, self.data.len() as int)
        &&& long_elements(self.starts@, self.data.len() as int)
    }

    /// How many bytes the buffer holds. Elements that live in their slots
    /// have none there.
    pub closed spec fn spec_buffer_len(&self) -> nat {
        self.data@.len()
    }

    /// An element lives in its slot exactly where it has fewer than
    /// `WORD_BYTES` bytes.
    proof fn lemma_inline_iff_short(&self, index: int)
        requires
            self.wf(),
            0 <= index < self@.len(),
        ensures
            is_inline(self.starts@[index]) == (self@[index].len() < WORD_BYTES),
    {
        let slot = self.starts@[index];
        if is_inline(slot) {
            lemma_inline_len(slot);
        } else {
            lemma_resolve_end_bounds(self.starts@, self.data.len() as int, index + 1);
        }
    }

    /// An empty list. Nothing is allocated until the first element is pushed.
    pub fn new() -> (s: Self)
        ensures
            s@ == Seq::<Seq<u8>>::empty(),
            s.spec_buffer_len() == 0,
    {
        let s = Self { data: Vec::new(), starts: Vec::new() };
        assert(s@ =~= Seq::<Seq<u8>>::empty());
        s
    }

    /// An empty list with room for at least `data_capacity` bytes and
    /// `capacity_meta` elements.
    pub fn with_capacity(data_capacity: usize, capacity_meta: usize) -> (s: Self)
        ensures
            s@ == Seq::<Seq<u8>>::empty(),
            s.spec_buffer_len() == 0,
    {
        let s = Self {
            data: Vec::with_capacity(data_capacity),
            starts: Vec::with_capacity(capacity_meta),
        };
        assert(s@ =~= Seq::<Seq<u8>>::empty());
        s
    }

    /// Takes the two vectors out and leaves an empty list behind.
    fn take(&mut self) -> (parts: (Vec<u8>, Vec<[u8; 8]>))
        ensures
            parts.0 == old(self).data,
            parts.1 == old(self).starts,
            slots_fit(parts.1@, parts.0.len() as int),
            long_elements(parts.1@, parts.0.len() as int),
            final(self)@ == Seq::<Seq<u8>>::empty(),
    {
        proof {
            use_type_invariant(&*self);
        }
        let mut taken = Self::new();
        core::mem::swap(self, &mut taken);
        let Self { data, starts } = taken;
        (data, starts)
    }

    /// Appends `bytestring` as the last element. A string of fewer than
    /// `WORD_BYTES` bytes goes into its slot and leaves the buffer alone; a
    /// longer one goes to the end of the buffer.
    ///
    /// A slot has room for offsets up to `MAX_OFFSET`, which is more than any
    /// buffer can hold; a string for the buffer is taken while the buffer has
    /// not outgrown it.
    #[verifier::rlimit(40)]
    pub fn push(&mut self, bytestring: &[u8])
        requires
            bytestring@.len() >= WORD_BYTES ==> old(self).spec_buffer_len() <= MAX_OFFSET,
        ensures
            final(self)@ == old(self)@.push(bytestring@),
            final(self).spec_buffer_len() == old(self).spec_buffer_len() + if bytestring@.len()
                < WORD_BYTES {
                0
            } else {
                bytestring@.len()
            },
    {
        let (mut data, mut starts) = self.take();
        let ghost old_data = data@;
        let ghost old_starts = starts@;
        let count = starts.len();
        if bytestring.len() < WORD_BYTES {
            starts.push(inline_slot(bytestring));
        } else {
            starts.push(offset_slot(data.len() as u64));
            data.extend_from_slice(bytestring);
        }
        proof {
            let old_len = old_data.len() as int;
            let new_len = data@.len() as int;
            assert(resolve_end(old_starts, old_len, count as int) == old_len);
            assert(resolve_end(starts@, new_len, count + 1) == new_len);
            assert(resolve_end(starts@, new_len, count as int) == old_len);
            assert forall|k: int| 0 <= k <= count implies resolve_end(starts@, new_len, k)
                == resolve_end(old_starts, old_len, k) by {
                lemma_resolve_end_agree(starts@, new_len, old_starts, old_len, k, count as int);
            }
            assert forall|k: int| 0 <= k < count implies element_bytes(starts@, data@, k)
                == element_bytes(old_starts, old_data, k) by {
                if !is_inline(old_starts[k]) {
                    lemma_resolve_end_bounds(old_starts, old_len, k + 1);
                    assert(data@.subrange(
                        slot_offset(old_starts[k]),
                        resolve_end(old_starts, old_len, k + 1),
                    ) =~= old_data.subrange(
                        slot_offset(old_starts[k]),
                        resolve_end(old_starts, old_len, k + 1),
                    ));
                }
            }
            if bytestring@.len() >= WORD_BYTES {
                assert(data@.subrange(old_len, new_len) =~= bytestring@);
            }
            assert(element_bytes(starts@, data@, count as int) == bytestring@);
            assert forall|i: int|
                0 <= i < starts@.len() && !is_inline(#[trigger] starts@[i]) implies slot_offset(
                starts@[i],
            ) + WORD_BYTES <= resolve_end(starts@, new_len, i + 1) by {
                if i < count {
                    assert(starts@[i] == old_starts[i]);
                }
            }
        }
        *self = Self { data, starts };
        assert(self@ =~= old(self)@.push(bytestring@));
    }

    /// The element at `index`, or `None` where the list has no such element.
    pub fn get(&self, index: usize) -> (r: Option<&[u8]>)
        ensures
            match r {
                Some(element) => element_at(self@, index as int) == Some(element@),
                None => element_at(self@, index as int).is_none(),
            },
    {
        if index >= self.starts.len() {
            return None;
        }
        Some(self.get_unchecked(index))
    }

    /// The element at `index`, for a caller that knows the index to be in
    /// bounds.
    pub fn get_unchecked(&self, index: usize) -> (r: &[u8])
        requires
            index < self@.len(),
        ensures
            r@ == self@[index as int],
    {
        proof {
            use_type_invariant(self);
        }
        let count = self.starts.len();
        let slot = &self.starts[index];
        if slot_is_inline(slot) {
            return read_inline(slot);
        }
        let start = read_offset(slot);
        let total = self.data.len();
        let end = scan_end(&self.starts, index + 1, count, total, Ghost(total as int));
        proof {
            lemma_resolve_end_bounds(self.starts@, total as int, index + 1);
        }
        slice_subrange(self.data.as_slice(), start as usize, end)
    }

    /// The number of elements.
    #[inline]
    pub fn len(&self) -> (n: usize)
        ensures
            n == self@.len(),
    {
        self.starts.len()
    }

    /// Whether the list has no element.
    #[inline]
    pub fn is_empty(&self) -> (b: bool)
        ensures
            b == (self@.len() == 0),
    {
        self.len() == 0
    }

    /// The number of bytes in the buffer.
    #[inline]
    pub fn buffer_len(&self) -> (n: usize)
        ensures
            n == self.spec_buffer_len(),
    {
        self.data.len()
    }

    /// Whether the element at `index` lives in its slot: it does where it has
    /// fewer than `WORD_BYTES` bytes.
    pub fn is_inline(&self, index: usize) -> (b: bool)
        requires
            index < self@.len(),
        ensures
            b == (self@[index as int].len() < WORD_BYTES),
    {
        proof {
            use_type_invariant(self);
            self.lemma_inline_iff_short(index as int);
        }
        slot_is_inline(&self.starts[index])
    }

    /// The number of bytes the buffer has room for without reallocating.
    #[inline]
    pub fn capacity(&self) -> (c: usize)
        ensures
            c >= self.spec_buffer_len(),
    {
        vec_capacity(&self.data)
    }

    /// The number of elements the list has room for without reallocating its
    /// slots.
    #[inline]
    pub fn capacity_meta(&self) -> (c: usize)
        ensures
            c >= self@.len(),
    {
        vec_capacity(&self.starts)
    }

    /// Removes all elements and all bytes. The room allocated stays.
    pub fn clear(&mut self)
        ensures
            final(self)@ == Seq::<Seq<u8>>::empty(),
            final(self).spec_buffer_len() == 0,
    {
        let (mut data, mut starts) = self.take();
        data.clear();
        starts.clear();
        *self = Self { data, starts };
        assert(self@ =~= Seq::<Seq<u8>>::empty());
    }

    /// Gives back as much of the buffer's spare room as the allocator takes.
    #[inline]
    pub fn shrink_to_fit(&mut self)
        ensures
            final(self)@ == old(self)@,
            final(self).spec_buffer_len() == old(self).spec_buffer_len(),
    {
        let (mut data, starts) = self.take();
        vec_shrink_to_fit(&mut data);
        *self = Self { data, starts };
        assert(self@ =~= old(self)@);
    }

    /// Gives back as much of the slots' spare room as the allocator takes.
    #[inline]
    pub fn shrink_meta_to_fit(&mut self)
        ensures
            final(self)@ == old(self)@,
            final(self).spec_buffer_len() == old(self).spec_buffer_len(),
    {
        let (data, mut starts) = self.take();
        vec_shrink_to_fit(&mut starts);
        *self = Self { data, starts };
        assert(self@ =~= old(self)@);
    }

    /// Gives back the buffer's spare room above `min_capacity`.
    #[inline]
    pub fn shrink_to(&mut self, min_capacity: usize)
        ensures
            final(self)@ == old(self)@,
            final(self).spec_buffer_len() == old(self).spec_buffer_len(),
    {
        let (mut data, starts) = self.take();
        vec_shrink_to(&mut data, min_capacity);
        *self = Self { data, starts };
        assert(self@ =~= old(self)@);
    }

    /// Gives back the slots' spare room above `min_capacity`.
    #[inline]
    pub fn shrink_meta_to(&mut self, min_capacity: usize)
        ensures
            final(self)@ == old(self)@,
            final(self).spec_buffer_len() == old(self).spec_buffer_len(),
    {
        let (data, mut starts) = self.take();
        vec_shrink_to(&mut starts, min_capacity);
        *self = Self { data, starts };
        assert(self@ =~= old(self)@);
    }

    /// Removes the element at `index`, and its bytes where it has any in the
    /// buffer. The elements behind it move down by one place.
    #[verifier::rlimit(40)]
    pub fn remove(&mut self, index: usize)
        requires
            index < old(self)@.len(),
        ensures
            final(self)@ == old(self)@.remove(index as int),
            final(self).spec_buffer_len() == old(self).spec_buffer_len() - if old(self)@[index as int].len()
                < WORD_BYTES {
                0
            } else {
                old(self)@[index as int].len()
            },
    {
        proof {
            use_type_invariant(&*self);
            self.lemma_inline_iff_short(index as int);
        }
        let (mut data, mut starts) = self.take();
        let ghost old_data = data@;
        let ghost old_starts = starts@;
        let shift = cut_out(&mut data, &mut starts, index);
        proof {
            lemma_removed_fits(old_starts, old_data, starts@, data@, index as int, shift as int);
            lemma_removed_long(old_starts, old_data, starts@, data@, index as int, shift as int);
            assert forall|k: int| 0 <= k < starts@.len() implies element_bytes(starts@, data@, k)
                == element_bytes(old_starts, old_data, if k < index {
                k
            } else {
                k + 1
            }) by {
                lemma_removed_element(
                    old_starts,
                    old_data,
                    starts@,
                    data@,
                    index as int,
                    shift as int,
                    k,
                );
            }
        }
        *self = Self { data, starts };
        assert(self@ =~= old(self)@.remove(index as int));
    }

    /// Appends every string of `items`, in order. The strings that go to the
    /// buffer must leave it within `MAX_OFFSET`, as `push` asks.
    pub fn extend(&mut self, items: &[&[u8]])
        requires
            old(self).spec_buffer_len() + total_len(slice_views(items@)) <= MAX_OFFSET,
        ensures
            final(self)@ == old(self)@ + slice_views(items@),
    {
        let count = items.len();
        let ghost views = slice_views(items@);
        assert(total_len(views.subrange(0, 0)) == 0);
        let mut i: usize = 0;
        while i < count
            invariant
                i <= count,
                count == items@.len(),
                views == slice_views(items@),
                old(self).spec_buffer_len() + total_len(views) <= MAX_OFFSET,
                self@ == old(self)@ + slice_views(items@.subrange(0, i as int)),
                self.spec_buffer_len() <= old(self).spec_buffer_len() + total_len(
                    views.subrange(0, i as int),
                ),
                total_len(views.subrange(0, i as int)) <= total_len(views),
            decreases count - i,
        {
            proof {
                lemma_total_len_prefix(views, i as int);
            }
            self.push(items[i]);
            i += 1;
            assert(self@ =~= old(self)@ + slice_views(items@.subrange(0, i as int)));
        }
        assert(items@.subrange(0, count as int) =~= items@);
    }

    /// A list of the strings of `items`, in order, with room for as many
    /// elements reserved at the start.
    pub fn from_iter(items: &[&[u8]]) -> (s: Self)
        requires
            total_len(slice_views(items@)) <= MAX_OFFSET,
        ensures
            s@ == slice_views(items@),
    {
        let mut out = Self::with_capacity(0, items.len());
        out.extend(items);
        assert(out@ =~= slice_views(items@));
        out
    }

    /// The element at `index`, which the list has.
    #[inline]
    pub fn index(&self, index: usize) -> (r: &[u8])
        requires
            index < self@.len(),
        ensures
            r@ == self@[index as int],
    {
        self.get_unchecked(index)
    }

    /// A walk over the elements, first to last.
    #[inline]
    pub fn iter(&self) -> (it: Iter<'_>)
        ensures
            it@ == self@,
    {
        Iter::new(self)
    }
}

impl Default for FixedCompactBytestrings {
    /// An empty list.
    fn default() -> (s: Self)
        ensures
            s@ == Seq::<Seq<u8>>::empty(),
    {
        Self::new()
    }
}

impl Clone for FixedCompactBytestrings {
    /// A list of the same elements.
    fn clone(&self) -> (s: Self)
        ensures
            s@ == self@,
    {
        proof {
            use_type_invariant(self);
        }
        let s = Self {
            data: slice_to_vec(self.data.as_slice()),
            starts: slice_to_vec(self.starts.as_slice()),
        };
        assert(s@ =~= self@);
        s
    }
}

impl PartialEq for FixedCompactBytestrings {
    /// Two lists are equal where they hold the same elements in the same
    /// order.
    fn eq(&self, other: &Self) -> (same: bool) {
        let count = self.len();
        if count != other.len() {
            return false;
        }
        let mut i: usize = 0;
        while i < count
            invariant
                i <= count,
                count == self@.len(),
                count == other@.len(),
                forall|k: int| 0 <= k < i ==> self@[k] == other@[k],
            decreases count - i,
        {
            if !bytes_equal(self.get_unchecked(i), other.get_unchecked(i)) {
                return false;
            }
            i += 1;
        }
        assert(self@ =~= other@);
        true
    }
}

impl PartialEqSpecImpl for FixedCompactBytestrings {
    open spec fn obeys_eq_spec() -> bool {
        true
    }

    open spec fn eq_spec(&self, other: &Self) -> bool {
        self@ == other@
    }
}

/// A walk over the elements of a [`FixedCompactBytestrings`], from both ends.
///
/// The walk keeps the end of the last element that it has not yet handed out
/// from the back, so that no step looks at a slot behind `back`.
#[derive(Clone, Copy)]
pub struct Iter<'a> {
    list: &'a FixedCompactBytestrings,
    front: usize,
    back: usize,
    data_end: usize,
}

impl<'a> View for Iter<'a> {
    type V = Seq<Seq<u8>>;

    /// The elements that the walk has yet to hand out, in order.
    closed spec fn view(&self) -> Seq<Seq<u8>> {
        self.list@.subrange(self.front as int, self.back as int)
    }
}

impl<'a> Iter<'a> {
    #[verifier::type_invariant]
    closed spec fn wf(&self) -> bool {
        &&& self.list.wf()
        &&& self.front <= self.back <= self.list.starts@.len()
        &&& self.data_end == resolve_end(
            self.list.starts@,
            self.list.data.len() as int,
            self.back as int,
        )
    }

    /// A walk over all elements of `inner`.
    #[inline]
    pub fn new(inner: &'a FixedCompactBytestrings) -> (it: Self)
        ensures
            it@ == inner@,
    {
        proof {
            use_type_invariant(inner);
        }
        let it = Iter { list: inner, front: 0, back: inner.starts.len(), data_end: inner.data.len() };
        assert(it@ =~= inner@);
        it
    }

    /// The element at `index`, which lies in the part of the list that the
    /// walk has not handed out.
    fn element(&self, index: usize) -> (r: &'a [u8])
        requires
            self.front <= index < self.back,
        ensures
            r@ == self.list@[index as int],
    {
        proof {
            use_type_invariant(self);
        }
        let list = self.list;
        let slot = &list.starts[index];
        if slot_is_inline(slot) {
            return read_inline(slot);
        }
        let start = read_offset(slot);
        let total = list.data.len();
        let end = scan_end(&list.starts, index + 1, self.back, self.data_end, Ghost(total as int));
        proof {
            lemma_resolve_end_bounds(list.starts@, total as int, index + 1);
        }
        slice_subrange(list.data.as_slice(), start as usize, end)
    }

    /// The next element from the front, or `None` when the walk is over.
    pub fn next(&mut self) -> (r: Option<&'a [u8]>)
        ensures
            old(self)@.len() == 0 ==> r.is_none() && final(self)@ == old(self)@,
            old(self)@.len() > 0 ==> r.is_some() && r.unwrap()@ == old(self)@[0] && final(self)@
                == old(self)@.drop_first(),
    {
        self.nth(0)
    }

    /// Skips `n` elements from the front and hands out the one behind them.
    /// Where fewer than `n + 1` elements are left, the walk is over and the
    /// result is `None`.
    pub fn nth(&mut self, n: usize) -> (r: Option<&'a [u8]>)
        ensures
            n >= old(self)@.len() ==> r.is_none() && final(self)@ == Seq::<Seq<u8>>::empty(),
            n < old(self)@.len() ==> r.is_some() && r.unwrap()@ == old(self)@[n as int] && final(self)@ == old(self)@.subrange(n + 1, old(self)@.len() as int),
    {
        proof {
            use_type_invariant(&*self);
        }
        let list = self.list;
        let back = self.back;
        let data_end = self.data_end;
        if n >= back - self.front {
            *self = Iter { list, front: back, back, data_end };
            assert(self@ =~= Seq::<Seq<u8>>::empty());
            return None;
        }
        let index = self.front + n;
        let item = self.element(index);
        *self = Iter { list, front: index + 1, back, data_end };
        assert(self@ =~= old(self)@.subrange(n + 1, old(self)@.len() as int));
        Some(item)
    }

    /// The next element from the back, or `None` when the walk is over.
    pub fn next_back(&mut self) -> (r: Option<&'a [u8]>)
        ensures
            old(self)@.len() == 0 ==> r.is_none() && final(self)@ == old(self)@,
            old(self)@.len() > 0 ==> r.is_some() && r.unwrap()@ == old(self)@.last() && final(self)@ == old(self)@.drop_last(),
    {
        self.nth_back(0)
    }

    /// Skips `n` elements from the back and hands out the one before them.
    /// Where fewer than `n + 1` elements are left, the walk is over and the
    /// result is `None`.
    pub fn nth_back(&mut self, n: usize) -> (r: Option<&'a [u8]>)
        ensures
            n >= old(self)@.len() ==> r.is_none() && final(self)@ == Seq::<Seq<u8>>::empty(),
            n < old(self)@.len() ==> r.is_some() && r.unwrap()@ == old(self)@[old(self)@.len() - 1
                - n] && final(self)@ == old(self)@.subrange(0, old(self)@.len() - 1 - n),
    {
        proof {
            use_type_invariant(&*self);
        }
        let list = self.list;
        let front = self.front;
        let total = list.data.len();
        if n >= self.back - front {
            let end = scan_end(&list.starts, front, self.back, self.data_end, Ghost(total as int));
            *self = Iter { list, front, back: front, data_end: end };
            assert(self@ =~= Seq::<Seq<u8>>::empty());
            return None;
        }
        let index = self.back - 1 - n;
        let slot = &list.starts[index];
        let end = scan_end(&list.starts, index + 1, self.back, self.data_end, Ghost(total as int));
        let item: &'a [u8];
        let data_end: usize;
        if slot_is_inline(slot) {
            item = read_inline(slot);
            data_end = end;
        } else {
            let start = read_offset(slot) as usize;
            proof {
                lemma_resolve_end_bounds(list.starts@, total as int, index + 1);
            }
            item = slice_subrange(list.data.as_slice(), start, end);
            data_end = start;
        }
        *self = Iter { list, front, back: index, data_end };
        assert(self@ =~= old(self)@.subrange(0, old(self)@.len() - 1 - n));
        Some(item)
    }

    /// How many elements the walk has yet to hand out.
    #[inline]
    pub fn len(&self) -> (n: usize)
        ensures
            n == self@.len(),
    {
        proof {
            use_type_invariant(self);
        }
        self.back - self.front
    }

    /// Walks to the end and hands out every element that was left, in order.
    pub fn collect(self) -> (out: Vec<&'a [u8]>)
        ensures
            out@.len() == self@.len(),
            forall|i: int| 0 <= i < out@.len() ==> (#[trigger] out@[i])@ == self@[i],
    {
        let mut it = self;
        let mut out: Vec<&'a [u8]> = Vec::new();
        while it.len() > 0
            invariant
                out@.len() + it@.len() == self@.len(),
                it@ == self@.subrange(out@.len() as int, self@.len() as int),
                forall|i: int| 0 <= i < out@.len() ==> (#[trigger] out@[i])@ == self@[i],
            decreases it@.len(),
        {
            match it.next() {
                Some(element) => {
                    out.push(element);
                },
                None => {},
            }
            assert(it@ =~= self@.subrange(out@.len() as int, self@.len() as int));
        }
        out
    }

    /// The number of elements left, as a lower and an upper bound.
    #[inline]
    pub fn size_hint(&self) -> (hint: (usize, Option<usize>))
        ensures
            hint.0 == self@.len(),
            hint.1 == Some(hint.0),
    {
        let n = self.len();
        (n, Some(n))
    }

    /// Ends the walk and says how many elements were left.
    #[inline]
    pub fn count(self) -> (n: usize)
        ensures
            n == self@.len(),
    {
        self.len()
    }

    /// Ends the walk and hands out the last element that was left.
    #[inline]
    pub fn last(self) -> (r: Option<&'a [u8]>)
        ensures
            self@.len() == 0 ==> r.is_none(),
            self@.len() > 0 ==> r.is_some() && r.unwrap()@ == self@.last(),
    {
        let mut it = self;
        it.next_back()
    }
}

} // verus!
