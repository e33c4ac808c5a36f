//! UTF-8 validity of the elements of a list of byte strings.

use core::str::Utf8Error;
use vstd::prelude::*;
use vstd::string::StringSliceAdditionalSpecFns;
use vstd::utf8::{
    decode_utf8, encode_utf8, encode_utf8_decode_utf8, encode_utf8_valid_utf8, valid_utf8,
};

verus! {

/// The error of `core::str::from_utf8`, carried through as it is.
#[verifier::external_type_specification]
#[verifier::external_body]
pub struct ExUtf8Error(Utf8Error);

/// Why a list of byte strings is no list of strings: the element at `index`
/// is the first that is not valid UTF-8, and `error` says where in it the
/// fault lies. The list itself comes back untouched in `list`.
pub struct InvalidUtf8<L> {
    pub list: L,
    pub index: usize,
    pub error: Utf8Error,
}

/// Every element of `list` is valid UTF-8.
pub open spec fn all_valid_utf8(list: Seq<Seq<u8>>) -> bool {
    forall|i: int| 0 <= i < list.len() ==> valid_utf8(#[trigger] list[i])
}

/// The strings that the elements of `list` spell.
pub open spec fn decoded(list: Seq<Seq<u8>>) -> Seq<Seq<char>> {
    Seq::new(list.len(), |i: int| decode_utf8(list[i]))
}

/// The strings that a slice of string slices holds, in order.
pub open spec fn str_views(items: Seq<&str>) -> Seq<Seq<char>> {
    Seq::new(items.len(), |i: int| items[i]@)
}

/// The bytes of the strings that a slice of string slices holds, in order.
pub open spec fn str_bytes(items: Seq<&str>) -> Seq<Seq<u8>> {
    Seq::new(items.len(), |i: int| encode_utf8(items[i]@))
}

/// The bytes of a string are valid UTF-8 and spell that string.
pub proof fn lemma_encoded(chars: Seq<char>)
    ensures
        valid_utf8(encode_utf8(chars)),
        decode_utf8(encode_utf8(chars)) == chars,
{
    encode_utf8_valid_utf8(chars);
    encode_utf8_decode_utf8(chars);
}

/// `core::str::from_utf8`: the bytes as a string slice where they are valid
/// UTF-8, and an error where they are not. The string slice has the bytes
/// that went in.
#[verifier::external_body]
pub(crate) fn str_from_utf8(bytes: &[u8]) -> (r: Result<&str, Utf8Error>)
    ensures
        r.is_ok() == valid_utf8(bytes@),
        r matches Ok(s) ==> s.spec_bytes() == bytes@,
{
    core::str::from_utf8(bytes)
}

/// The string that `bytes` spell, which are known to be valid UTF-8.
pub fn str_of_valid(bytes: &[u8]) -> (s: &str)
    requires
        valid_utf8(bytes@),
    ensures
        s@ == decode_utf8(bytes@),
{
    match str_from_utf8(bytes) {
        Ok(s) => {
            proof {
                lemma_encoded(s@);
            }
            s
        },
        Err(_) => "",
    }
}

} // verus!
