//! Text from bytes.

use vstd::prelude::*;
use vstd::utf8::{decode_utf8, valid_utf8};

verus! {

/// The error of `String::from_utf8`. Nothing is read from it.
#[verifier::external_type_specification]
#[verifier::external_body]
pub struct ExFromUtf8Error(std::string::FromUtf8Error);

/// `String::from_utf8` of the standard library: the string whose UTF-8
/// encoding the bytes are, and an error where they are no UTF-8 encoding.
pub assume_specification[ String::from_utf8 ](vec: Vec<u8>) -> (r: Result<
    String,
    std::string::FromUtf8Error,
>)
    ensures
        r is Ok <==> valid_utf8(vec@),
        r matches Ok(s) ==> s@ == decode_utf8(vec@),
;

/// Why bytes are not text.
#[derive(Debug)]
pub enum TextError {
    /// The bytes are no UTF-8 encoding of a string; with it comes what
    /// `String::from_utf8` reported of them.
    InvalidUtf8(std::string::FromUtf8Error),
}

/// The text that `bytes` encode in UTF-8, if they encode any.
pub open spec fn text_of(bytes: Seq<u8>) -> Option<Seq<char>> {
    if valid_utf8(bytes) {
        Some(decode_utf8(bytes))
    } else {
        None
    }
}

/// The string that `bytes` encode in UTF-8; an error where they encode none.
pub fn string_from_bytes(bytes: Vec<u8>) -> (r: Result<String, TextError>)
    ensures
        match r {
            Ok(s) => text_of(bytes@) == Some(s@),
            Err(_) => text_of(bytes@) is None,
        },
{
    match String::from_utf8(bytes) {
        Ok(s) => Ok(s),
        Err(cause) => Err(TextError::InvalidUtf8(cause)),
    }
}

} // verus!
