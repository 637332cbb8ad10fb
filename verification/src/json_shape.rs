//! What is known of a piece of JSON once a rule has matched it: where it
//! lies in the text, what it begins with, and what its parts are.

use crate::combinators::{lemma_run_not_empty, optional, run, until};
use crate::json::{
    lemma_member_head_bounds, spec_array, spec_elements, spec_item_tail, spec_key,
    spec_key_and_value, spec_member_head, spec_members, spec_object, spec_quoted,
    spec_special_value, spec_string_value, spec_value, spec_value_and_comma, Outcome,
};
use crate::mapper::Mapper;
use crate::text::{
    lemma_first_occurrence, lemma_occurs_chars, lemma_occurs_one, lemma_run_end, run_end, space,
    spaces, CharClass,
};
use crate::utf8::repaired;
use vstd::prelude::*;
use vstd::utf8::{decode_utf8, encode_utf8, valid_utf8};

verus! {

/// A string as it stands in the text is a stretch of the text between two
/// quotes with no quote in between.
pub(crate) proof fn lemma_quoted_shape(s: Seq<char>, pos: int)
    ensures
        spec_quoted(s, pos) matches Some(raw) ==> {
            &&& 0 <= pos
            &&& pos + 2 <= raw.end <= s.len()
            &&& raw.text == s.subrange(pos, raw.end)
            &&& s[pos] == '"'
            &&& s[raw.end - 1] == '"'
            &&& forall|i: int| pos < i < raw.end - 1 ==> #[trigger] s[i] != '"'
        },
{
    reveal_strlit("\"");
    let quote = "\""@;
    assert(quote =~= seq!['"']);
    if let Some(raw) = spec_quoted(s, pos) {
        lemma_occurs_one(s, pos, '"');
        let at1 = pos + 1;
        lemma_first_occurrence(s, at1, quote);
        let body = optional(|at: int| until(quote, s, at), at1)->0;
        lemma_occurs_one(s, body.end, '"');
        assert(raw.text =~= s.subrange(pos, raw.end));
        assert forall|i: int| pos < i < raw.end - 1 implies #[trigger] s[i] != '"' by {
            lemma_occurs_one(s, i, '"');
        }
    }
}

/// A key is a stretch of the text between two quotes with key characters in between.
pub(crate) proof fn lemma_key_shape(s: Seq<char>, pos: int)
    ensures
        spec_key(s, pos) matches Some(key) ==> {
            &&& 0 <= pos
            &&& pos + 3 <= key.end <= s.len()
            &&& key.text == s.subrange(pos, key.end)
            &&& s[pos] == '"'
            &&& s[key.end - 1] == '"'
            &&& !CharClass::KeyChar.includes('"')
            &&& forall|i: int| pos < i < key.end - 1 ==> CharClass::KeyChar.includes(#[trigger] s[i])
        },
{
    reveal_strlit("\"");
    let quote = "\""@;
    assert(quote =~= seq!['"']);
    if let Some(key) = spec_key(s, pos) {
        lemma_occurs_one(s, pos, '"');
        lemma_run_end(CharClass::KeyChar, s, pos + 1);
        let inner = run_end(CharClass::KeyChar, s, pos + 1);
        lemma_occurs_one(s, inner, '"');
        assert(key.text =~= s.subrange(pos, key.end));
    }
}

/// A special value is one of the six words, and the text holds it.
pub(crate) proof fn lemma_special_shape(s: Seq<char>, pos: int)
    ensures
        spec_special_value(s, pos) matches Some(word) ==> {
            &&& 0 <= pos < s.len()
            &&& word.end == pos + word.text.len()
            &&& word.end <= s.len()
            &&& word.text.len() >= 4
            &&& word.text[0] == s[pos]
            &&& (s[pos] == 't' || s[pos] == 'T' || s[pos] == 'f' || s[pos] == 'F' || s[pos] == 'n'
                || s[pos] == 'N')
        },
{
    reveal_strlit("true");
    reveal_strlit("TRUE");
    reveal_strlit("false");
    reveal_strlit("FALSE");
    reveal_strlit("null");
    reveal_strlit("NULL");
    if let Some(word) = spec_special_value(s, pos) {
        lemma_occurs_chars(s, pos, word.text);
        assert(s[pos + 0] == word.text[0]);
    }
}

/// Whether a value can begin with `c`.
pub open spec fn begins_value(c: char) -> bool {
    c == '"' || CharClass::NumberChar.includes(c) || c == '{' || c == '[' || c == 't' || c == 'T'
        || c == 'f' || c == 'F' || c == 'n' || c == 'N'
}

/// The tail of a member or an element ends inside the text, at or behind
/// its start, and yields a comma or nothing.
pub(crate) proof fn lemma_item_tail_shape(s: Seq<char>, pos: int)
    requires
        0 <= pos <= s.len(),
    ensures
        spec_item_tail(s, pos) matches Some(tail) ==> {
            &&& pos <= tail.end <= s.len()
            &&& tail.text == Seq::<char>::empty() || tail.text == seq![',']
            &&& tail.text.len() == 0 ==> tail.end == run_end(CharClass::Whitespace, s, pos)
            &&& tail.text.len() > 0 ==> tail.end == run_end(CharClass::Whitespace, s, pos) + 1
                && s[tail.end - 1] == ',' && !CharClass::Whitespace.includes(',')
        },
{
    reveal_strlit(",");
    assert(","@ =~= seq![',']);
    lemma_run_end(CharClass::Whitespace, s, pos);
    let at1 = run_end(CharClass::Whitespace, s, pos);
    lemma_occurs_one(s, at1, ',');
    if let Some(tail) = spec_item_tail(s, pos) {
        assert(tail.text =~= Seq::<char>::empty() || tail.text =~= seq![',']);
    }
}

/// A value lies inside the text, is not empty, and begins with the
/// character at which it was matched.
pub(crate) proof fn lemma_value_shape(mapper: Mapper, level: nat, s: Seq<char>, pos: int)
    ensures
        spec_value(mapper, level, s, pos) matches Outcome::Matched(value) ==> {
            &&& 0 <= pos < value.end <= s.len()
            &&& value.text.len() > 0
            &&& value.text[0] == s[pos]
            &&& begins_value(s[pos])
        },
    decreases s.len() - pos, 1nat,
{
    reveal_strlit("\"");
    lemma_quoted_shape(s, pos);
    if let Some(raw) = spec_quoted(s, pos) {
        if valid_utf8(repaired(raw.text)) {
            lemma_repaired_first(raw.text);
        }
    }
    lemma_run_not_empty(CharClass::NumberChar, s, pos);
    if 0 <= pos <= s.len() {
        lemma_run_end(CharClass::NumberChar, s, pos);
    }
    if let Some(number) = run(CharClass::NumberChar, s, pos) {
        assert(number.text[0] == s[pos]);
    }
    lemma_object_shape(mapper, level, s, pos);
    lemma_array_shape(mapper, level, s, pos);
    lemma_special_shape(s, pos);
}

/// A string that begins with a quote still begins with a quote when its
/// escapes are repaired.
pub(crate) proof fn lemma_repaired_first(text: Seq<char>)
    requires
        text.len() > 0,
        text[0] == '"',
        valid_utf8(repaired(text)),
    ensures
        decode_utf8(repaired(text)).len() > 0,
        decode_utf8(repaired(text))[0] == '"',
{
    let bytes = encode_utf8(text);
    assert(bytes[0] == 0x22) by {
        assert(('"' as u32) == 0x22);
        assert((0x22u32 & 0x7F) as u8 == 0x22u8) by (bit_vector);
    }
    let out = repaired(text);
    assert(out[0] == 0x22);
    assert((0x22u8 & 0x7F) as u32 == 0x22u32) by (bit_vector);
    assert(0x22u32 as char == '"');
}

/// A member lies inside the text and is not empty.
pub(crate) proof fn lemma_key_and_value_shape(mapper: Mapper, level: nat, s: Seq<char>, pos: int)
    ensures
        spec_key_and_value(mapper, level, s, pos) matches Outcome::Matched(member) ==> 0 <= pos
            < member.end <= s.len(),
    decreases s.len() - pos, 2nat,
{
    lemma_member_head_bounds(s, pos);
    if let Some(head) = spec_member_head(s, pos) {
        lemma_value_shape(mapper, level, s, head.end);
        if let Outcome::Matched(value) = spec_value(mapper, level, s, head.end) {
            lemma_item_tail_shape(s, value.end);
        }
    }
}

/// The members of an object end inside the text, at or behind their start.
pub(crate) proof fn lemma_members_shape(mapper: Mapper, level: nat, s: Seq<char>, pos: int)
    requires
        0 <= pos <= s.len(),
    ensures
        spec_members(mapper, level, s, pos) matches Outcome::Matched(members) ==> pos
            <= members.end <= s.len(),
        !(spec_members(mapper, level, s, pos) is Mismatch),
    decreases s.len() - pos, 3nat,
{
    if let Outcome::Matched(member) = spec_key_and_value(mapper, level, s, pos) {
        if pos < member.end <= s.len() {
            lemma_members_shape(mapper, level, s, member.end);
        }
    }
}

/// An object lies inside the text and is written between braces.
pub(crate) proof fn lemma_object_shape(mapper: Mapper, level: nat, s: Seq<char>, pos: int)
    ensures
        spec_object(mapper, level, s, pos) matches Outcome::Matched(object) ==> {
            &&& 0 <= pos < object.end <= s.len()
            &&& s[pos] == '{'
            &&& object.text.len() > 0
            &&& object.text[0] == '{'
            &&& s[object.end - 1] == '}'
            &&& !CharClass::Whitespace.includes('}')
        },
    decreases s.len() - pos, 0nat,
{
    reveal_strlit("{");
    reveal_strlit("}");
    assert("{"@ =~= seq!['{']);
    assert("}"@ =~= seq!['}']);
    lemma_occurs_one(s, pos, '{');
    if 0 <= pos < s.len() && s[pos] == '{' {
        lemma_run_end(CharClass::Whitespace, s, pos + 1);
        let at1 = run_end(CharClass::Whitespace, s, pos + 1);
        lemma_run_end(CharClass::Whitespace, s, at1);
        let at2 = run_end(CharClass::Whitespace, s, at1);
        lemma_members_shape(mapper, level + 1, s, at2);
        if let Outcome::Matched(members) = spec_members(mapper, level + 1, s, at2) {
            lemma_run_end(CharClass::Whitespace, s, members.end);
            let at3 = run_end(CharClass::Whitespace, s, members.end);
            lemma_run_end(CharClass::Whitespace, s, at3);
            let at4 = run_end(CharClass::Whitespace, s, at3);
            lemma_occurs_one(s, at4, '}');
        }
    }
}

/// An element of an array lies inside the text and is not empty.
pub(crate) proof fn lemma_value_and_comma_shape(mapper: Mapper, level: nat, s: Seq<char>, pos: int)
    ensures
        spec_value_and_comma(mapper, level, s, pos) matches Outcome::Matched(element) ==> 0 <= pos
            < element.end <= s.len(),
    decreases s.len() - pos, 2nat,
{
    if 0 <= pos <= s.len() {
        lemma_run_end(CharClass::Whitespace, s, pos);
    }
    let start = run_end(CharClass::Whitespace, s, pos);
    lemma_value_shape(mapper, level, s, start);
    if let Outcome::Matched(value) = spec_value(mapper, level, s, start) {
        lemma_item_tail_shape(s, value.end);
    }
}

/// The elements of an array end inside the text, at or behind their start.
pub(crate) proof fn lemma_elements_shape(mapper: Mapper, level: nat, s: Seq<char>, pos: int)
    requires
        0 <= pos <= s.len(),
    ensures
        spec_elements(mapper, level, s, pos) matches Outcome::Matched(elements) ==> pos
            <= elements.end <= s.len(),
        !(spec_elements(mapper, level, s, pos) is Mismatch),
    decreases s.len() - pos, 3nat,
{
    if let Outcome::Matched(element) = spec_value_and_comma(mapper, level, s, pos) {
        if pos < element.end <= s.len() {
            lemma_elements_shape(mapper, level, s, element.end);
        }
    }
}

/// An array lies inside the text and is written between brackets.
pub(crate) proof fn lemma_array_shape(mapper: Mapper, level: nat, s: Seq<char>, pos: int)
    ensures
        spec_array(mapper, level, s, pos) matches Outcome::Matched(array) ==> {
            &&& 0 <= pos < array.end <= s.len()
            &&& s[pos] == '['
            &&& array.text.len() > 0
            &&& array.text[0] == '['
            &&& s[array.end - 1] == ']'
            &&& !CharClass::Whitespace.includes(']')
        },
    decreases s.len() - pos, 0nat,
{
    reveal_strlit("[");
    reveal_strlit("]");
    assert("["@ =~= seq!['[']);
    assert("]"@ =~= seq![']']);
    lemma_occurs_one(s, pos, '[');
    if 0 <= pos < s.len() && s[pos] == '[' {
        lemma_run_end(CharClass::Whitespace, s, pos + 1);
        let at1 = run_end(CharClass::Whitespace, s, pos + 1);
        lemma_elements_shape(mapper, level + 1, s, at1);
        if let Outcome::Matched(elements) = spec_elements(mapper, level + 1, s, at1) {
            lemma_run_end(CharClass::Whitespace, s, elements.end);
            let at3 = run_end(CharClass::Whitespace, s, elements.end);
            lemma_occurs_one(s, at3, ']');
        }
    }
}

/// The head of a member, taken apart: the key, the colon, and the white
/// space behind the colon, with what is known of the characters round them.
pub(crate) proof fn lemma_member_head_shape(s: Seq<char>, pos: int)
    ensures
        spec_member_head(s, pos) matches Some(head) ==> {
            let at1 = run_end(space(), s, pos);
            let key = spec_key(s, at1)->0;
            let at3 = run_end(space(), s, key.end);
            &&& spec_key(s, at1) is Some
            &&& 0 <= pos <= at1
            &&& key.end <= at3 < head.end <= s.len()
            &&& s[at3] == ':'
            &&& head.end == run_end(space(), s, at3 + 1)
            &&& head.text == key.text + seq![':'] + s.subrange(at3 + 1, head.end)
            &&& !space().includes('"')
            &&& !space().includes(':')
            &&& forall|i: int| at3 < i < head.end ==> space().includes(#[trigger] s[i])
            &&& head.end < s.len() ==> !space().includes(s[head.end])
        },
{
    reveal_strlit(":");
    assert(":"@ =~= seq![':']);
    if let Some(head) = spec_member_head(s, pos) {
        lemma_member_head_bounds(s, pos);
        lemma_run_end(space(), s, pos);
        let at1 = run_end(space(), s, pos);
        lemma_key_shape(s, at1);
        let key = spec_key(s, at1)->0;
        lemma_run_end(space(), s, key.end);
        let at3 = run_end(space(), s, key.end);
        lemma_occurs_one(s, at3, ':');
        lemma_run_end(space(), s, at3 + 1);
        assert(head.text =~= key.text + seq![':'] + s.subrange(at3 + 1, head.end));
    }
}

/// The line of a member begins with its indentation and the quote of its key.
pub(crate) proof fn lemma_member_begins(width: usize, level: nat, s: Seq<char>, pos: int)
    ensures
        spec_key_and_value(Mapper::Indent(width), level, s, pos) matches Outcome::Matched(member)
            ==> {
            let indent = width as nat * level;
            &&& member.text.len() > indent + 1
            &&& member.text.subrange(0, indent as int) == spaces(indent)
            &&& member.text[indent as int] == '"'
            &&& !space().includes('"')
        },
{
    let mapper = Mapper::Indent(width);
    let indent = width as nat * level;
    lemma_member_head_shape(s, pos);
    if let Some(head) = spec_member_head(s, pos) {
        lemma_key_shape(s, run_end(space(), s, pos));
        if let Outcome::Matched(value) = spec_value(mapper, level, s, head.end) {
            if let Some(tail) = spec_item_tail(s, value.end) {
                let body = head.text + value.text + tail.text;
                let line = mapper.render(body, level);
                assert(line == spaces(indent) + body + seq!['\n']);
                assert(line.subrange(0, indent as int) =~= spaces(indent));
                assert(line[indent as int] == body[0]);
            }
        }
    }
}

/// A member, taken apart: the indentation, the head, the value, the tail
/// and the line feed.
pub(crate) proof fn lemma_member_parts(width: usize, level: nat, s: Seq<char>, pos: int)
    requires
        spec_key_and_value(Mapper::Indent(width), level, s, pos) is Matched,
    ensures
        ({
            let mapper = Mapper::Indent(width);
            let member = spec_key_and_value(mapper, level, s, pos)->Matched_0;
            let head = spec_member_head(s, pos)->0;
            let value = spec_value(mapper, level, s, head.end)->Matched_0;
            let tail = spec_item_tail(s, value.end)->0;
            &&& spec_member_head(s, pos) is Some
            &&& spec_value(mapper, level, s, head.end) is Matched
            &&& spec_item_tail(s, value.end) is Some
            &&& 0 <= pos < head.end < value.end <= s.len()
            &&& member.text == mapper.render(head.text + value.text + tail.text, level)
            &&& member.text == spaces(width as nat * level) + (head.text + (value.text + (tail.text
                + seq!['\n'])))
            &&& value.text.len() > 0
            &&& !space().includes(value.text[0])
            &&& tail.text == Seq::<char>::empty() || tail.text == seq![',']
            &&& tail.text.len() > 0 ==> !space().includes(',')
        }),
{
    let mapper = Mapper::Indent(width);
    let indent = width as nat * level;
    let member = spec_key_and_value(mapper, level, s, pos)->Matched_0;
    let head = spec_member_head(s, pos)->0;
    let value = spec_value(mapper, level, s, head.end)->Matched_0;
    let tail = spec_item_tail(s, value.end)->0;
    lemma_member_head_shape(s, pos);
    lemma_value_shape(mapper, level, s, head.end);
    lemma_item_tail_shape(s, value.end);
    assert(member.text =~= spaces(indent) + (head.text + (value.text + (tail.text + seq!['\n']))));
}

/// Each kind of value asks for its own first character.
pub(crate) proof fn lemma_first_chars(mapper: Mapper, level: nat, t: Seq<char>, q: int)
    ensures
        !(spec_string_value(t, q) is Mismatch) ==> 0 <= q < t.len() && t[q] == '"',
        run(CharClass::NumberChar, t, q) is Some ==> 0 <= q < t.len()
            && CharClass::NumberChar.includes(t[q]),
        !(spec_object(mapper, level, t, q) is Mismatch) ==> 0 <= q < t.len() && t[q] == '{',
        !(spec_array(mapper, level, t, q) is Mismatch) ==> 0 <= q < t.len() && t[q] == '[',
        spec_special_value(t, q) is Some ==> 0 <= q < t.len() && (t[q] == 't' || t[q] == 'T'
            || t[q] == 'f' || t[q] == 'F' || t[q] == 'n' || t[q] == 'N'),
{
    reveal_strlit("\"");
    reveal_strlit("{");
    reveal_strlit("[");
    assert("\""@ =~= seq!['"']);
    assert("{"@ =~= seq!['{']);
    assert("["@ =~= seq!['[']);
    lemma_occurs_one(t, q, '"');
    lemma_occurs_one(t, q, '{');
    lemma_occurs_one(t, q, '[');
    lemma_special_shape(t, q);
    if 0 <= q <= t.len() {
        lemma_run_end(CharClass::NumberChar, t, q);
    }
}

/// The members of an object, taken apart: none, or a member and the
/// members behind it.
pub(crate) proof fn lemma_members_step(mapper: Mapper, level: nat, s: Seq<char>, pos: int)
    requires
        0 <= pos <= s.len(),
        spec_members(mapper, level, s, pos) is Matched,
    ensures
        ({
            let members = spec_members(mapper, level, s, pos)->Matched_0;
            if members.text.len() > 0 {
                &&& spec_key_and_value(mapper, level, s, pos) matches Outcome::Matched(member)
                &&& pos < member.end <= s.len()
                &&& spec_members(mapper, level, s, member.end) matches Outcome::Matched(rest)
                &&& members.text == member.text + rest.text
            } else {
                spec_key_and_value(mapper, level, s, pos) is Mismatch
            }
        }),
{
    lemma_key_and_value_shape(mapper, level, s, pos);
    if let Outcome::Matched(member) = spec_key_and_value(mapper, level, s, pos) {
        lemma_members_shape(mapper, level, s, member.end);
        lemma_member_begins_any(mapper, level, s, pos);
    }
}

/// A member is handed on as text that is not empty.
pub(crate) proof fn lemma_member_begins_any(mapper: Mapper, level: nat, s: Seq<char>, pos: int)
    ensures
        spec_key_and_value(mapper, level, s, pos) matches Outcome::Matched(member)
            ==> member.text.len() > 0,
{
    lemma_member_head_shape(s, pos);
    if let Some(head) = spec_member_head(s, pos) {
        lemma_key_shape(s, run_end(space(), s, pos));
    }
}

/// The lines of the members of an object begin with the indentation and
/// the quote of the first key.
pub(crate) proof fn lemma_members_begin(width: usize, level: nat, s: Seq<char>, pos: int)
    requires
        0 <= pos <= s.len(),
        spec_members(Mapper::Indent(width), level, s, pos) is Matched,
        spec_members(Mapper::Indent(width), level, s, pos)->Matched_0.text.len() > 0,
    ensures
        ({
            let members = spec_members(Mapper::Indent(width), level, s, pos)->Matched_0;
            let indent = width as nat * level;
            &&& members.text.len() > indent
            &&& members.text.subrange(0, indent as int) == spaces(indent)
            &&& members.text[indent as int] == '"'
            &&& !space().includes('"')
        }),
{
    let mapper = Mapper::Indent(width);
    let indent = width as nat * level;
    lemma_members_step(mapper, level, s, pos);
    lemma_member_begins(width, level, s, pos);
    let members = spec_members(mapper, level, s, pos)->Matched_0;
    let member = spec_key_and_value(mapper, level, s, pos)->Matched_0;
    assert(members.text.subrange(0, indent as int) =~= member.text.subrange(0, indent as int));
}

/// The line of an element begins with its indentation and the first
/// character of its value.
pub(crate) proof fn lemma_element_begins(width: usize, level: nat, s: Seq<char>, pos: int)
    ensures
        spec_value_and_comma(Mapper::Indent(width), level, s, pos) matches Outcome::Matched(
            element,
        ) ==> {
            let indent = width as nat * level;
            &&& element.text.len() > indent + 1
            &&& element.text.subrange(0, indent as int) == spaces(indent)
            &&& begins_value(element.text[indent as int])
            &&& !space().includes(element.text[indent as int])
        },
{
    let mapper = Mapper::Indent(width);
    let indent = width as nat * level;
    if 0 <= pos <= s.len() {
        lemma_run_end(space(), s, pos);
    }
    let start = run_end(space(), s, pos);
    lemma_value_shape(mapper, level, s, start);
    if let Outcome::Matched(value) = spec_value(mapper, level, s, start) {
        if let Some(tail) = spec_item_tail(s, value.end) {
            let body = value.text + tail.text;
            let line = mapper.render(body, level);
            assert(line == spaces(indent) + body + seq!['\n']);
            assert(line.subrange(0, indent as int) =~= spaces(indent));
            assert(line[indent as int] == body[0]);
        }
    }
}

/// An element, taken apart: the indentation, the value, the tail and the
/// line feed.
pub(crate) proof fn lemma_element_parts(width: usize, level: nat, s: Seq<char>, pos: int)
    requires
        spec_value_and_comma(Mapper::Indent(width), level, s, pos) is Matched,
    ensures
        ({
            let mapper = Mapper::Indent(width);
            let element = spec_value_and_comma(mapper, level, s, pos)->Matched_0;
            let start = run_end(space(), s, pos);
            let value = spec_value(mapper, level, s, start)->Matched_0;
            let tail = spec_item_tail(s, value.end)->0;
            &&& spec_value(mapper, level, s, start) is Matched
            &&& spec_item_tail(s, value.end) is Some
            &&& 0 <= pos <= start < value.end <= s.len()
            &&& element.text == mapper.render(value.text + tail.text, level)
            &&& element.text == spaces(width as nat * level) + (value.text + (tail.text + seq![
                '\n',
            ]))
            &&& value.text.len() > 0
            &&& !space().includes(value.text[0])
            &&& tail.text == Seq::<char>::empty() || tail.text == seq![',']
            &&& tail.text.len() > 0 ==> !space().includes(',')
        }),
{
    let mapper = Mapper::Indent(width);
    let indent = width as nat * level;
    let element = spec_value_and_comma(mapper, level, s, pos)->Matched_0;
    let start = run_end(space(), s, pos);
    lemma_value_shape(mapper, level, s, start);
    let value = spec_value(mapper, level, s, start)->Matched_0;
    lemma_item_tail_shape(s, value.end);
    let tail = spec_item_tail(s, value.end)->0;
    if 0 <= pos <= s.len() {
        lemma_run_end(space(), s, pos);
    } else {
        assert(start == pos);
    }
    assert(element.text =~= spaces(indent) + (value.text + (tail.text + seq!['\n'])));
}

/// The elements of an array, taken apart: none, or an element and the
/// elements behind it.
pub(crate) proof fn lemma_elements_step(width: usize, level: nat, s: Seq<char>, pos: int)
    requires
        0 <= pos <= s.len(),
        spec_elements(Mapper::Indent(width), level, s, pos) is Matched,
    ensures
        ({
            let mapper = Mapper::Indent(width);
            let elements = spec_elements(mapper, level, s, pos)->Matched_0;
            if elements.text.len() > 0 {
                &&& spec_value_and_comma(mapper, level, s, pos) matches Outcome::Matched(element)
                &&& pos < element.end <= s.len()
                &&& spec_elements(mapper, level, s, element.end) matches Outcome::Matched(rest)
                &&& elements.text == element.text + rest.text
            } else {
                spec_value_and_comma(mapper, level, s, pos) is Mismatch
            }
        }),
{
    let mapper = Mapper::Indent(width);
    lemma_value_and_comma_shape(mapper, level, s, pos);
    if let Outcome::Matched(element) = spec_value_and_comma(mapper, level, s, pos) {
        lemma_elements_shape(mapper, level, s, element.end);
        lemma_element_begins(width, level, s, pos);
    }
}

/// The lines of the elements of an array begin with the indentation and
/// the first character of the first value.
pub(crate) proof fn lemma_elements_begin(width: usize, level: nat, s: Seq<char>, pos: int)
    requires
        0 <= pos <= s.len(),
        spec_elements(Mapper::Indent(width), level, s, pos) is Matched,
        spec_elements(Mapper::Indent(width), level, s, pos)->Matched_0.text.len() > 0,
    ensures
        ({
            let elements = spec_elements(Mapper::Indent(width), level, s, pos)->Matched_0;
            let indent = width as nat * level;
            &&& elements.text.len() > indent
            &&& elements.text.subrange(0, indent as int) == spaces(indent)
            &&& begins_value(elements.text[indent as int])
            &&& !space().includes(elements.text[indent as int])
        }),
{
    let mapper = Mapper::Indent(width);
    let indent = width as nat * level;
    lemma_elements_step(width, level, s, pos);
    lemma_element_begins(width, level, s, pos);
    let elements = spec_elements(mapper, level, s, pos)->Matched_0;
    let element = spec_value_and_comma(mapper, level, s, pos)->Matched_0;
    assert(elements.text.subrange(0, indent as int) =~= element.text.subrange(0, indent as int));
}

} // verus!
