//! Trusted bridges to the standard library's text handling.
//!
//! Everything here either appends to a `String` or decodes raw bytes to
//! text; the contracts are stated against vstd's UTF-8 model.

use vstd::prelude::*;
use vstd::utf8::decode_utf8;
use vstd::utf8::valid_utf8;

verus! {

/// The characters that lossy UTF-8 decoding yields for the given bytes:
/// well-formed sequences decode as themselves, malformed sequences become
/// replacement characters. The exact grouping of malformed bytes is a
/// function of the bytes alone and is not spelled out here.
pub uninterp spec fn lossy_chars(bytes: Seq<u8>) -> Seq<char>;

/// Relies on `String::push`: appends exactly one character.
#[verifier::external_body]
pub(crate) fn push_char(s: &mut String, c: char)
    ensures
        final(s)@ == old(s)@.push(c),
{
    s.push(c);
}

/// Relies on `String::from_utf8`: succeeds exactly on well-formed UTF-8
/// and then carries the decoded characters.
#[verifier::external_body]
pub(crate) fn utf8_to_string(bytes: &Vec<u8>) -> (r: Option<String>)
    ensures
        r is Some <==> valid_utf8(bytes@),
        r matches Some(s) ==> s@ == decode_utf8(bytes@),
{
    match String::from_utf8(bytes.clone()) {
        Ok(s) => Some(s),
        Err(_) => None,
    }
}

/// Relies on `String::from_utf8_lossy`: decodes the bytes into text,
/// replacing malformed sequences with U+FFFD; well-formed bytes decode
/// to exactly their UTF-8 reading.
#[verifier::external_body]
pub(crate) fn lossy_to_string(bytes: &Vec<u8>) -> (r: String)
    ensures
        r@ == lossy_chars(bytes@),
        valid_utf8(bytes@) ==> r@ == decode_utf8(bytes@),
{
    String::from_utf8_lossy(bytes.as_slice()).into_owned()
}

} // verus!
