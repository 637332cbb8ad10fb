//! The one error that formatting can end in.

use std::string::FromUtf8Error;
use vstd::prelude::*;
use vstd::string::to_string_from_display_ensures;
use vstd::utf8::{decode_utf8, valid_utf8};

verus! {

/// The error that `String::from_utf8` hands back with the bytes it refused.
#[verifier::external_type_specification]
#[verifier::external_body]
pub struct ExFromUtf8Error(FromUtf8Error);

/// `String::from_utf8` takes the bytes as a string exactly where they are
/// well-formed UTF-8, and then the string holds the characters that they
/// encode.
pub assume_specification[ String::from_utf8 ](vec: Vec<u8>) -> (r: Result<String, FromUtf8Error>)
    ensures
        r is Ok <==> valid_utf8(vec@),
        r matches Ok(s) ==> s@ == decode_utf8(vec@),
;

/// Says that the bytes which came of repairing the escapes of a string are
/// no text.
#[derive(Debug)]
pub struct FormatError {
    pub message: String,
}

impl FormatError {
    /// The error that stands for what the decoder reported: its message is
    /// what the decoder's error displays.
    pub fn from_utf8_error(err: FromUtf8Error) -> (r: Self)
        ensures
            to_string_from_display_ensures::<FromUtf8Error>(&err, r.message),
    {
        FormatError { message: err.to_string() }
    }

    /// The message, as a string of its own.
    pub fn to_string(&self) -> (text: String)
        ensures
            text@ == self.message@,
    {
        self.message.clone()
    }
}

} // verus!
