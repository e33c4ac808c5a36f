//! Operations on the shared byte buffer.

use vstd::prelude::*;

verus! {

/// What is left of `data` once the `len` bytes from `start` on are cut out
/// and the bytes behind them have moved down to close the gap.
pub open spec fn spliced(data: Seq<u8>, start: int, len: int) -> Seq<u8> {
    data.subrange(0, start) + data.subrange(start + len, data.len() as int)
}

/// A range that ends before the cut reads the same bytes afterwards.
pub proof fn lemma_spliced_before(data: Seq<u8>, start: int, len: int, a: int, b: int)
    requires
        0 <= start,
        0 <= len,
        start + len <= data.len(),
        0 <= a <= b <= start,
    ensures
        spliced(data, start, len).subrange(a, b) == data.subrange(a, b),
{
    assert(spliced(data, start, len).subrange(a, b) =~= data.subrange(a, b));
}

/// A range that begins behind the cut reads the same bytes afterwards, `len`
/// places further down.
pub proof fn lemma_spliced_after(data: Seq<u8>, start: int, len: int, a: int, b: int)
    requires
        0 <= start,
        0 <= len,
        start + len <= a <= b <= data.len(),
    ensures
        spliced(data, start, len).subrange(a - len, b - len) == data.subrange(a, b),
{
    assert(spliced(data, start, len).subrange(a - len, b - len) =~= data.subrange(a, b));
}

/// Cuts the `len` bytes from `start` on out of `data`, moving the bytes behind
/// them down.
pub fn splice_out(data: &mut Vec<u8>, start: usize, len: usize)
    requires
        start + len <= old(data).len(),
    ensures
        final(data)@ == spliced(old(data)@, start as int, len as int),
{
    let total = data.len();
    let kept = total - len;
    let mut i: usize = start;
    while i < kept
        invariant
            start <= i <= kept,
            kept + len == total,
            data.len() == total,
            total == old(data).len(),
            forall|k: int| 0 <= k < start ==> data@[k] == old(data)@[k],
            forall|k: int| start <= k < i ==> data@[k] == old(data)@[k + len],
            forall|k: int| i <= k < total ==> data@[k] == old(data)@[k],
        decreases kept - i,
    {
        let byte = data[i + len];
        data.set(i, byte);
        i += 1;
    }
    data.truncate(kept);
    assert(data@ =~= spliced(old(data)@, start as int, len as int));
}

/// The byte strings that a slice of slices holds, in order.
pub open spec fn slice_views(items: Seq<&[u8]>) -> Seq<Seq<u8>> {
    Seq::new(items.len(), |i: int| items[i]@)
}

/// The number of bytes in all of `items` together.
pub open spec fn total_len(items: Seq<Seq<u8>>) -> nat
    decreases items.len(),
{
    if items.len() == 0 {
        0
    } else {
        total_len(items.drop_last()) + items.last().len()
    }
}

/// The first `n` of `items` have no more bytes than the first `n + 1`, and
/// those no more than all.
pub proof fn lemma_total_len_prefix(items: Seq<Seq<u8>>, n: int)
    requires
        0 <= n < items.len(),
    ensures
        total_len(items.subrange(0, n + 1)) == total_len(items.subrange(0, n)) + items[n].len(),
        total_len(items.subrange(0, n + 1)) <= total_len(items),
    decreases items.len() - n,
{
    assert(items.subrange(0, n + 1).drop_last() =~= items.subrange(0, n));
    if n + 1 < items.len() {
        lemma_total_len_prefix(items, n + 1);
    } else {
        assert(items.subrange(0, n + 1) =~= items);
    }
}

/// Whether two byte strings hold the same bytes.
pub fn bytes_equal(a: &[u8], b: &[u8]) -> (same: bool)
    ensures
        same == (a@ == b@),
{
    if a.len() != b.len() {
        return false;
    }
    let len = a.len();
    let mut i: usize = 0;
    while i < len
        invariant
            i <= len,
            len == a@.len(),
            len == b@.len(),
            forall|k: int| 0 <= k < i ==> a@[k] == b@[k],
        decreases len - i,
    {
        if a[i] != b[i] {
            return false;
        }
        i += 1;
    }
    assert(a@ =~= b@);
    true
}

/// `Vec::capacity`: how many elements the vector has room for. The room
/// depends on the allocator, so all that is claimed is that the elements
/// held fit in it.
#[verifier::external_body]
pub(crate) fn vec_capacity<T>(v: &Vec<T>) -> (c: usize)
    ensures
        c >= v@.len(),
{
    v.capacity()
}

/// `Vec::shrink_to_fit`: gives spare room back to the allocator and leaves
/// the elements as they are.
#[verifier::external_body]
pub(crate) fn vec_shrink_to_fit<T>(v: &mut Vec<T>)
    ensures
        final(v)@ == old(v)@,
{
    v.shrink_to_fit()
}

/// `Vec::shrink_to`: gives spare room above `min_capacity` back to the
/// allocator and leaves the elements as they are.
#[verifier::external_body]
pub(crate) fn vec_shrink_to<T>(v: &mut Vec<T>, min_capacity: usize)
    ensures
        final(v)@ == old(v)@,
{
    v.shrink_to(min_capacity)
}

} // verus!
