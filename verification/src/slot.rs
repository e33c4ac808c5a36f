//! The eight-byte slot that stands for one element of the packed list.
//!
//! A slot is read as eight bytes, most significant first. Where the top bit
//! of the first byte is set, the slot holds the element itself: the three
//! bits below the top bit give its length, and the bytes that follow the
//! first give its content. Where the top bit is clear, the eight bytes are
//! the offset at which the element begins in the buffer.

use vstd::prelude::*;
use vstd::array::array_as_slice;
use vstd::slice::slice_subrange;

verus! {

/// The number of bytes in a slot. A string shorter than this lives in its
/// slot.
pub const WORD_BYTES: usize = 8;

/// The largest offset that a slot can hold beside the flag bit.
pub const MAX_OFFSET: u64 = 0x7fff_ffff_ffff_ffff;

/// Whether the slot holds its element itself: the top bit of the first byte.
pub open spec fn is_inline(slot: [u8; 8]) -> bool {
    slot@[0] & 0x80 == 0x80
}

/// The length that an inline slot records: the three bits below the top bit.
pub open spec fn inline_len(slot: [u8; 8]) -> int {
    ((slot@[0] >> 4) & 0x07) as int
}

/// The content of an inline slot: the bytes behind the first, as many as the
/// slot records.
pub open spec fn inline_bytes(slot: [u8; 8]) -> Seq<u8> {
    slot@.subrange(1, 1 + inline_len(slot))
}

/// The first byte of an inline slot is the flag and the length and nothing
/// else: its low four bits are clear.
pub open spec fn tag_is_clean(slot: [u8; 8]) -> bool {
    slot@[0] & 0x0f == 0
}

/// The eight bytes of `word`, most significant first.
pub open spec fn word_bytes(word: u64) -> Seq<u8> {
    seq![
        ((word >> 56) & 0xff) as u8,
        ((word >> 48) & 0xff) as u8,
        ((word >> 40) & 0xff) as u8,
        ((word >> 32) & 0xff) as u8,
        ((word >> 24) & 0xff) as u8,
        ((word >> 16) & 0xff) as u8,
        ((word >> 8) & 0xff) as u8,
        (word & 0xff) as u8,
    ]
}

/// The word that eight bytes spell, most significant first.
pub open spec fn bytes_word(bytes: Seq<u8>) -> u64 {
    ((bytes[0] as u64) << 56) | ((bytes[1] as u64) << 48) | ((bytes[2] as u64) << 40) | ((
    bytes[3] as u64) << 32) | ((bytes[4] as u64) << 24) | ((bytes[5] as u64) << 16) | ((
    bytes[6] as u64) << 8) | (bytes[7] as u64)
}

/// The offset that a slot without the flag holds.
pub open spec fn slot_offset(slot: [u8; 8]) -> int {
    bytes_word(slot@) as int
}

/// `bytemuck::cast` from a word to eight bytes. The cast hands the word's
/// bytes over in the order in which memory holds them; the word is put into
/// big-endian order first, so on every target the most significant byte
/// comes first.
#[verifier::external_body]
fn word_to_bytes(word: u64) -> (bytes: [u8; 8])
    ensures
        bytes@ == word_bytes(word),
{
    bytemuck::cast::<u64, [u8; 8]>(word.to_be())
}

/// `bytemuck::cast` from eight bytes to a word. The cast reads the bytes in
/// the order in which memory holds a word; the result is then taken from
/// big-endian order, so on every target the first byte is the most
/// significant.
#[verifier::external_body]
fn bytes_to_word(bytes: [u8; 8]) -> (word: u64)
    ensures
        word == bytes_word(bytes@),
{
    u64::from_be(bytemuck::cast::<[u8; 8], u64>(bytes))
}

/// Eight bytes spell the word that they were taken from.
pub proof fn lemma_word_round_trip(word: u64)
    ensures
        bytes_word(word_bytes(word)) == word,
{
    let b0 = ((word >> 56) & 0xff) as u8;
    let b1 = ((word >> 48) & 0xff) as u8;
    let b2 = ((word >> 40) & 0xff) as u8;
    let b3 = ((word >> 32) & 0xff) as u8;
    let b4 = ((word >> 24) & 0xff) as u8;
    let b5 = ((word >> 16) & 0xff) as u8;
    let b6 = ((word >> 8) & 0xff) as u8;
    let b7 = (word & 0xff) as u8;
    assert(((b0 as u64) << 56) | ((b1 as u64) << 48) | ((b2 as u64) << 40) | ((b3 as u64) << 32)
        | ((b4 as u64) << 24) | ((b5 as u64) << 16) | ((b6 as u64) << 8) | (b7 as u64) == word)
        by (bit_vector)
        requires
            b0 == ((word >> 56) & 0xff) as u8,
            b1 == ((word >> 48) & 0xff) as u8,
            b2 == ((word >> 40) & 0xff) as u8,
            b3 == ((word >> 32) & 0xff) as u8,
            b4 == ((word >> 24) & 0xff) as u8,
            b5 == ((word >> 16) & 0xff) as u8,
            b6 == ((word >> 8) & 0xff) as u8,
            b7 == (word & 0xff) as u8,
    ;
}

/// A word up to `MAX_OFFSET` leaves the flag bit of its first byte clear.
pub proof fn lemma_offset_flag_clear(word: u64)
    requires
        word <= MAX_OFFSET,
    ensures
        word_bytes(word)[0] & 0x80 == 0,
{
    let b0 = ((word >> 56) & 0xff) as u8;
    assert(b0 & 0x80 == 0) by (bit_vector)
        requires
            word <= 0x7fff_ffff_ffff_ffffu64,
            b0 == ((word >> 56) & 0xff) as u8,
    ;
}

/// A slot without the flag holds an offset of at most `MAX_OFFSET`.
pub proof fn lemma_flag_clear_offset(slot: [u8; 8])
    requires
        !is_inline(slot),
    ensures
        slot_offset(slot) <= MAX_OFFSET,
{
    let b0 = slot@[0];
    let b1 = slot@[1];
    let b2 = slot@[2];
    let b3 = slot@[3];
    let b4 = slot@[4];
    let b5 = slot@[5];
    let b6 = slot@[6];
    let b7 = slot@[7];
    assert(((b0 as u64) << 56) | ((b1 as u64) << 48) | ((b2 as u64) << 40) | ((b3 as u64) << 32)
        | ((b4 as u64) << 24) | ((b5 as u64) << 16) | ((b6 as u64) << 8) | (b7 as u64)
        <= 0x7fff_ffff_ffff_ffffu64) by (bit_vector)
        requires
            b0 & 0x80 != 0x80,
    ;
}

/// The content of an inline slot has as many bytes as the slot records,
/// which is fewer than `WORD_BYTES`.
pub proof fn lemma_inline_len(slot: [u8; 8])
    ensures
        0 <= inline_len(slot) < WORD_BYTES,
        inline_bytes(slot).len() == inline_len(slot),
{
    let tag = slot@[0];
    assert((tag >> 4) & 0x07 <= 7) by (bit_vector);
}

/// Whether the slot holds its element itself.
pub fn slot_is_inline(slot: &[u8; 8]) -> (b: bool)
    ensures
        b == is_inline(*slot),
{
    slot[0] & 0x80 == 0x80
}

/// The slot for an element that begins at `offset` in the buffer.
pub fn offset_slot(offset: u64) -> (slot: [u8; 8])
    requires
        offset <= MAX_OFFSET,
    ensures
        !is_inline(slot),
        slot_offset(slot) == offset,
{
    proof {
        lemma_word_round_trip(offset);
        lemma_offset_flag_clear(offset);
    }
    word_to_bytes(offset)
}

/// The offset that a slot without the flag holds.
pub fn read_offset(slot: &[u8; 8]) -> (offset: u64)
    ensures
        offset == slot_offset(*slot),
{
    bytes_to_word(*slot)
}

/// The slot that holds the short string `bytes` itself.
pub fn inline_slot(bytes: &[u8]) -> (slot: [u8; 8])
    requires
        bytes@.len() < WORD_BYTES,
    ensures
        is_inline(slot),
        tag_is_clean(slot),
        inline_bytes(slot) == bytes@,
        forall|k: int| bytes@.len() < k < 8 ==> slot@[k] == 0,
{
    let len = bytes.len();
    let short = len as u8;
    let tag: u8 = 0x80 | (short << 4);
    assert(tag & 0x80 == 0x80 && tag & 0x0f == 0 && (tag >> 4) & 0x07 == short) by (bit_vector)
        requires
            tag == 0x80 | (short << 4),
            short < 8,
    ;
    let mut slot = [0u8; 8];
    slot[0] = tag;
    let mut i: usize = 0;
    while i < len
        invariant
            i <= len,
            len == bytes@.len(),
            len < 8,
            slot@[0] == tag,
            forall|k: int| 0 <= k < i ==> slot@[k + 1] == bytes@[k],
            forall|k: int| i < k < 8 ==> slot@[k] == 0,
        decreases len - i,
    {
        slot[i + 1] = bytes[i];
        i += 1;
    }
    assert(inline_bytes(slot) =~= bytes@);
    slot
}

/// The content of an inline slot.
pub fn read_inline(slot: &[u8; 8]) -> (bytes: &[u8])
    requires
        is_inline(*slot),
    ensures
        bytes@ == inline_bytes(*slot),
{
    let tag = slot[0];
    let len = ((tag >> 4) & 0x07) as usize;
    assert((tag >> 4) & 0x07 <= 7) by (bit_vector);
    slice_subrange(array_as_slice(slot), 1, 1 + len)
}

} // verus!
