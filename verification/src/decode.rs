//! UTF-8 decoding, strict and lossy. Decoding itself is the standard
//! library's; this module gives each decode a name that contracts can
//! speak about, and the library's own error for the strict form.

use vstd::prelude::*;

verus! {

/// The failure of strict UTF-8 decoding: the bytes are not valid UTF-8.
#[derive(Debug, Clone, Copy, PartialEq, Eq)]
pub enum DecodeError {
    InvalidEncoding,
}

/// What lossy UTF-8 decoding yields on the given bytes: every invalid
/// sequence replaced by U+FFFD. A function of the bytes alone.
pub uninterp spec fn lossy_utf8_of(s: Seq<u8>) -> Seq<char>;

/// What strict UTF-8 decoding yields on the given bytes: the decoded
/// characters when the bytes are valid UTF-8, nothing otherwise. A
/// function of the bytes alone.
pub uninterp spec fn utf8_decode_of(s: Seq<u8>) -> Option<Seq<char>>;

/// The standard library's error for strict UTF-8 decoding, declared so
/// that the trusted wrapper below can return it.
#[verifier::external_type_specification]
#[verifier::external_body]
pub struct ExFromUtf8Error(std::string::FromUtf8Error);

/// Relies on String::from_utf8_lossy: decodes any bytes into text,
/// replacing invalid sequences with U+FFFD; the result depends on the
/// bytes alone, and empty input gives the empty string.
#[verifier::external_body]
pub(crate) fn utf8_lossy(b: &[u8]) -> (r: String)
    ensures
        r@ == lossy_utf8_of(b@),
        b@.len() == 0 ==> r@.len() == 0,
{
    String::from_utf8_lossy(b).into_owned()
}

/// Relies on String::from_utf8: returns the decoded text exactly when
/// the bytes are valid UTF-8, an error otherwise; empty input is valid.
#[verifier::external_body]
pub(crate) fn utf8_strict(b: &[u8]) -> (r: Result<String, std::string::FromUtf8Error>)
    ensures
        (r is Ok) == (utf8_decode_of(b@) is Some),
        r is Ok ==> r->Ok_0@ == utf8_decode_of(b@)->Some_0,
        b@.len() == 0 ==> r is Ok,
{
    String::from_utf8(b.to_vec())
}

} // verus!
