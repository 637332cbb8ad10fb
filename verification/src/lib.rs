//! Re-indents JSON and XML text without validating it.
//!
//! A document that matches the permissive grammar of its syntax is written
//! out again token by token, one member, element or tag per line, each line
//! indented in proportion to its nesting depth. A document that does not
//! match is handed back as it came.

pub mod combinators;
pub mod error;
pub mod grammar;
pub mod json;
pub mod json_again;
pub mod json_layout;
pub mod json_shape;
pub mod mapper;
pub mod parser;
pub mod text;
pub mod utf8;
pub mod xml;
pub mod xml_again;

pub use crate::combinators::{
    And, AnyChar, AnyExcept, BoxedParser, CharSequence, Ignore, NTimesOrMore, OneOrMore, Or, Then,
    ZeroOrMore, ZeroOrOne,
};
pub use crate::error::FormatError;
pub use crate::mapper::Mapper;
pub use crate::parser::Parser;
pub use crate::text::CharClass;
pub use crate::utf8::{unescape_utf8, unicode_to_utf8};

use crate::text::{find, first_occurrence, to_chars};
use vstd::prelude::*;

verus! {

/// The sum of two numbers that has room in 64 bits.
pub fn add(left: u64, right: u64) -> (sum: u64)
    requires
        left + right <= u64::MAX,
    ensures
        sum == left + right,
{
    left + right
}

/// Whether a document is taken for XML: it is where it holds `</` somewhere.
pub open spec fn looks_like_xml(body: Seq<char>) -> bool {
    first_occurrence(body, 0, "</"@) is Some
}

/// What formatting makes of a document of either syntax; nothing where it
/// ends in an error.
pub open spec fn spec_format(body: Seq<char>, ident: usize) -> Option<Seq<char>> {
    if looks_like_xml(body) {
        Some(xml::spec_format(body, ident))
    } else {
        json::spec_format(body, ident)
    }
}

/// Formats a document as XML where it holds `</`, and as JSON where it does not.
pub fn format(body: &str, ident: usize) -> (res: Result<String, FormatError>)
    ensures
        match spec_format(body@, ident) {
            Some(formatted) => res matches Ok(text) && text@ == formatted,
            None => res is Err,
        },
{
    let input = to_chars(body);
    let marker = to_chars("</");
    if find(input.as_slice(), 0, marker.as_slice()).is_some() {
        xml::format(body, ident)
    } else {
        json::format(body, ident)
    }
}

} // verus!
