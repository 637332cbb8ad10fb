//! How the lines of formatted JSON are laid out: the indentation of the
//! members of an object and of the elements of an array, and the place of
//! the closing bracket.

use crate::json::{
    spec_array, spec_elements, spec_item_tail, spec_key_and_value, spec_member_head,
    spec_members, spec_object, spec_value, spec_value_and_comma, Outcome,
};
use crate::json_shape::{lemma_element_begins, lemma_member_begins};
use crate::mapper::Mapper;
use crate::text::{run_end, spaces, CharClass};
use vstd::prelude::*;

verus! {

/// Whether `text` begins with exactly `indent` spaces and ends with a line feed.
pub open spec fn indented_line(text: Seq<char>, indent: nat) -> bool {
    &&& text.len() > indent + 1
    &&& text.subrange(0, indent as int) == spaces(indent)
    &&& text[indent as int] != ' '
    &&& text.last() == '\n'
}

/// The line of a member: with a mapper that indents, a member is handed on
/// as text that begins with exactly width times level spaces and ends with
/// a line feed.
pub proof fn lemma_member_line(width: usize, level: nat, s: Seq<char>, pos: int)
    ensures
        spec_key_and_value(Mapper::Indent(width), level, s, pos) matches Outcome::Matched(member)
            ==> indented_line(member.text, width as nat * level),
{
    let mapper = Mapper::Indent(width);
    let indent = width as nat * level;
    lemma_member_begins(width, level, s, pos);
    if let Some(head) = spec_member_head(s, pos) {
        if let Outcome::Matched(value) = spec_value(mapper, level, s, head.end) {
            if let Some(tail) = spec_item_tail(s, value.end) {
                let body = head.text + value.text + tail.text;
                let line = mapper.render(body, level);
                assert(line == spaces(indent) + body + seq!['\n']);
                assert(line.subrange(0, indent as int) =~= spaces(indent));
                assert(line[indent as int] == body[0]);
            }
        }
    }
}

/// The line of an element: with a mapper that indents, an element of an
/// array is handed on as text that begins with exactly width times level
/// spaces and ends with a line feed.
pub proof fn lemma_element_line(width: usize, level: nat, s: Seq<char>, pos: int)
    ensures
        spec_value_and_comma(Mapper::Indent(width), level, s, pos) matches Outcome::Matched(
            element,
        ) ==> indented_line(element.text, width as nat * level),
{
    let mapper = Mapper::Indent(width);
    let indent = width as nat * level;
    let start = run_end(CharClass::Whitespace, s, pos);
    lemma_element_begins(width, level, s, pos);
    if let Outcome::Matched(value) = spec_value(mapper, level, s, start) {
        if let Some(tail) = spec_item_tail(s, value.end) {
            let body = value.text + tail.text;
            let line = mapper.render(body, level);
            assert(line == spaces(indent) + body + seq!['\n']);
            assert(line.subrange(0, indent as int) =~= spaces(indent));
            assert(line[indent as int] == body[0]);
        }
    }
}

/// With a mapper that indents, the members of an object end with a line
/// feed, if there are any.
pub proof fn lemma_members_end(width: usize, level: nat, s: Seq<char>, pos: int)
    ensures
        spec_members(Mapper::Indent(width), level, s, pos) matches Outcome::Matched(members)
            ==> members.text.len() == 0 || members.text.last() == '\n',
    decreases s.len() - pos,
{
    let mapper = Mapper::Indent(width);
    if let Outcome::Matched(member) = spec_key_and_value(mapper, level, s, pos) {
        if pos < member.end <= s.len() {
            lemma_member_line(width, level, s, pos);
            lemma_members_end(width, level, s, member.end);
        }
    }
}

/// With a mapper that indents, the elements of an array end with a line
/// feed, if there are any.
pub proof fn lemma_elements_end(width: usize, level: nat, s: Seq<char>, pos: int)
    ensures
        spec_elements(Mapper::Indent(width), level, s, pos) matches Outcome::Matched(elements)
            ==> elements.text.len() == 0 || elements.text.last() == '\n',
    decreases s.len() - pos,
{
    let mapper = Mapper::Indent(width);
    if let Outcome::Matched(element) = spec_value_and_comma(mapper, level, s, pos) {
        if pos < element.end <= s.len() {
            lemma_element_line(width, level, s, pos);
            lemma_elements_end(width, level, s, element.end);
        }
    }
}

/// The layout of an object: with a mapper that indents, an object without
/// members is `{}`; an object with members is a brace and a line feed, the
/// lines of its members one level deeper, and the closing brace behind
/// exactly width times level spaces.
pub proof fn lemma_object_layout(width: usize, level: nat, s: Seq<char>, pos: int)
    ensures
        spec_object(Mapper::Indent(width), level, s, pos) matches Outcome::Matched(object) ==> {
            &&& spec_members(
                Mapper::Indent(width),
                level + 1,
                s,
                run_end(CharClass::Whitespace, s, run_end(CharClass::Whitespace, s, pos + 1)),
            ) matches Outcome::Matched(members)
            &&& members.text.len() == 0 ==> object.text == "{}"@
            &&& members.text.len() > 0 ==> members.text.last() == '\n' && object.text == "{\n"@
                + members.text + spaces(width as nat * level) + "}"@
        },
{
    reveal_strlit("{");
    reveal_strlit("}");
    reveal_strlit("{}");
    reveal_strlit("{\n");
    reveal_strlit("\n");
    let mapper = Mapper::Indent(width);
    let start = run_end(CharClass::Whitespace, s, run_end(CharClass::Whitespace, s, pos + 1));
    lemma_members_end(width, level + 1, s, start);
    if let Outcome::Matched(object) = spec_object(mapper, level, s, pos) {
        let members = spec_members(mapper, level + 1, s, start)->Matched_0;
        if members.text.len() == 0 {
            assert(object.text =~= "{}"@);
        } else {
            let whole = "{"@ + ("\n"@ + members.text) + "}"@;
            let last = mapper.render("}"@, level);
            assert(last.drop_last() =~= spaces(width as nat * level) + "}"@);
            assert(whole.drop_last() =~= "{\n"@ + members.text);
            assert(object.text =~= "{\n"@ + members.text + spaces(width as nat * level) + "}"@);
        }
    }
}

/// The layout of an array: with a mapper that indents, an array without
/// elements is `[]`; an array with elements is a bracket and a line feed,
/// the lines of its elements one level deeper, and the closing bracket
/// behind exactly width times level spaces.
pub proof fn lemma_array_layout(width: usize, level: nat, s: Seq<char>, pos: int)
    ensures
        spec_array(Mapper::Indent(width), level, s, pos) matches Outcome::Matched(array) ==> {
            &&& spec_elements(
                Mapper::Indent(width),
                level + 1,
                s,
                run_end(CharClass::Whitespace, s, pos + 1),
            ) matches Outcome::Matched(elements)
            &&& elements.text.len() == 0 ==> array.text == "[]"@
            &&& elements.text.len() > 0 ==> elements.text.last() == '\n' && array.text == "[\n"@
                + elements.text + spaces(width as nat * level) + "]"@
        },
{
    reveal_strlit("[");
    reveal_strlit("]");
    reveal_strlit("[]");
    reveal_strlit("[\n");
    reveal_strlit("\n");
    let mapper = Mapper::Indent(width);
    let start = run_end(CharClass::Whitespace, s, pos + 1);
    lemma_elements_end(width, level + 1, s, start);
    if let Outcome::Matched(array) = spec_array(mapper, level, s, pos) {
        let elements = spec_elements(mapper, level + 1, s, start)->Matched_0;
        if elements.text.len() == 0 {
            assert(array.text =~= "[]"@);
        } else {
            let whole = "["@ + ("\n"@ + elements.text) + "]"@;
            let last = mapper.render("]"@, level);
            assert(last.drop_last() =~= spaces(width as nat * level) + "]"@);
            assert(whole.drop_last() =~= "[\n"@ + elements.text);
            assert(array.text =~= "[\n"@ + elements.text + spaces(width as nat * level) + "]"@);
        }
    }
}

} // verus!
