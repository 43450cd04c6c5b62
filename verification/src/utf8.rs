//! UTF-8 and Unicode scalar values, by the standard library.
use vstd::prelude::*;
use vstd::utf8::{encode_utf8, valid_utf8};

verus! {

/// Whether the number is a Unicode scalar value: at most 0x10FFFF, and no surrogate.
pub open spec fn is_scalar(n: u32) -> bool {
    n <= 0x10FFFF && !(0xD800 <= n <= 0xDFFF)
}

/// Calls `String::from_utf8`: the string whose UTF-8 encoding the bytes are, if they are
/// one.
#[verifier::external_body]
pub(crate) fn string_from_utf8(bytes: Vec<u8>) -> (r: Option<String>)
    ensures
        r.is_some() == valid_utf8(bytes@),
        r.is_some() ==> encode_utf8(r.unwrap()@) == bytes@,
{
    String::from_utf8(bytes).ok()
}

/// Calls `core::str::from_utf8`: whether the bytes are a UTF-8 encoding.
#[verifier::external_body]
pub(crate) fn is_utf8(bytes: &[u8]) -> (r: bool)
    ensures
        r == valid_utf8(bytes@),
{
    core::str::from_utf8(bytes).is_ok()
}

/// Calls `char::from_u32`: the char with the given number, if the number is a Unicode
/// scalar value.
#[verifier::external_body]
pub(crate) fn char_from_u32(n: u32) -> (r: Option<char>)
    ensures
        r.is_some() == is_scalar(n),
        r.is_some() ==> r.unwrap() as u32 == n,
{
    char::from_u32(n)
}

} // verus!
