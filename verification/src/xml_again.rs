//! Formatting what was formatted: XML that came out of the formatter is
//! matched again by the grammar, and yields the same text.

use crate::combinators::{lemma_repeated_bounds, literal, repeated};
use crate::grammar::{kept, lemma_run_rules, mapped, text_before};
use crate::mapper::Mapper;
use crate::parser::{or_else, then, Match, Parser};
use crate::text::{
    first_occurrence, lemma_first_occurrence, lemma_first_occurrence_is, lemma_occurs_chars,
    lemma_occurs_joined, lemma_occurs_one, lemma_run_end, lemma_run_end_is, lemma_run_end_through,
    lemma_run_end_twice, lemma_run_over_indent, occurs_at, run_end, space, spaces,
    unicode_alphabetic, unicode_alphanumeric, unicode_whitespace, CharClass,
};
use crate::xml::{
    lemma_attribute_bounds, padded_attribute, spec_attribute, spec_attribute_list, spec_children,
    spec_document, spec_element_any, spec_element_close, spec_element_full, spec_element_name,
    spec_element_open, spec_element_with_text, spec_element_xml, spec_elements_set, spec_tag,
};
use vstd::prelude::*;

verus! {

/// What the proofs here take from the tables of Unicode: that none of `<`,
/// `>` and `/` is white space, that neither `>` nor `/` is a letter or a
/// digit, and that the space is no letter and no digit.
pub open spec fn marks_are_plain() -> bool {
    &&& !unicode_whitespace('<')
    &&& !unicode_whitespace('>')
    &&& !unicode_whitespace('/')
    &&& !unicode_alphabetic('>')
    &&& !unicode_alphabetic('/')
    &&& !unicode_alphanumeric('>')
    &&& !unicode_alphanumeric('/')
    &&& !unicode_alphanumeric(' ')
}

/// Looks the marks up in the tables of Unicode.
pub fn marks_are_plain_here() -> (plain: bool)
    ensures
        plain == marks_are_plain(),
{
    !'<'.is_whitespace() && !'>'.is_whitespace() && !'/'.is_whitespace() && !'>'.is_alphabetic()
        && !'/'.is_alphabetic() && !'>'.is_alphanumeric() && !'/'.is_alphanumeric()
        && !' '.is_alphanumeric()
}

/// A name is a stretch of the text: a letter, name characters behind it,
/// and no name character behind them.
proof fn lemma_name_shape(s: Seq<char>, pos: int)
    ensures
        spec_element_name(s, pos) matches Some(name) ==> {
            &&& 0 <= pos < name.end <= s.len()
            &&& name.text == s.subrange(pos, name.end)
            &&& unicode_alphabetic(s[pos])
            &&& forall|i: int| pos < i < name.end ==> CharClass::NameChar.includes(#[trigger] s[i])
            &&& name.end < s.len() ==> !CharClass::NameChar.includes(s[name.end])
        },
{
    if 0 <= pos < s.len() {
        lemma_run_end(CharClass::NameChar, s, pos + 1);
    }
}

/// A name is matched again where a text holds it and no name character follows.
proof fn lemma_name_again(s: Seq<char>, pos: int, t: Seq<char>, q: int)
    requires
        spec_element_name(s, pos) is Some,
        0 <= q,
        occurs_at(t, q, spec_element_name(s, pos)->0.text),
        ({
            let name = spec_element_name(s, pos)->0;
            q + name.text.len() == t.len() || !CharClass::NameChar.includes(t[q + name.text.len()])
        }),
    ensures
        spec_element_name(t, q) == Some(
            Match {
                text: spec_element_name(s, pos)->0.text,
                end: q + spec_element_name(s, pos)->0.text.len(),
            },
        ),
{
    let name = spec_element_name(s, pos)->0;
    lemma_name_shape(s, pos);
    lemma_occurs_chars(t, q, name.text);
    assert(t[q + 0] == name.text[0]);
    assert(name.text[0] == s[pos]);
    assert forall|i: int| q + 1 <= i < q + name.text.len() implies CharClass::NameChar.includes(
        #[trigger] t[i],
    ) by {
        assert(t[q + (i - q)] == name.text[i - q]);
        assert(name.text[i - q] == s[pos + (i - q)]);
    }
    lemma_run_end_is(CharClass::NameChar, t, q + 1, name.text.len() - 1);
}

/// An attribute is a space and a stretch of the text: a name, `="`, a value
/// without a quote, and a quote.
proof fn lemma_attribute_shape(s: Seq<char>, pos: int)
    ensures
        spec_attribute(s, pos) matches Some(attribute) ==> {
            let name = spec_element_name(s, pos)->0;
            &&& spec_element_name(s, pos) is Some
            &&& 0 <= pos < name.end
            &&& name.end + 3 <= attribute.end <= s.len()
            &&& attribute.text == seq![' '] + s.subrange(pos, attribute.end)
            &&& s[name.end] == '='
            &&& s[name.end + 1] == '"'
            &&& s[attribute.end - 1] == '"'
            &&& !CharClass::NameChar.includes('=')
            &&& forall|i: int| name.end + 2 <= i < attribute.end - 1 ==> #[trigger] s[i] != '"'
        },
{
    reveal_strlit("=\"");
    reveal_strlit("\"");
    reveal_strlit(" ");
    assert("\""@ =~= seq!['"']);
    assert(" "@ =~= seq![' ']);
    if let Some(attribute) = spec_attribute(s, pos) {
        lemma_name_shape(s, pos);
        let name = spec_element_name(s, pos)->0;
        lemma_occurs_chars(s, name.end, "=\""@);
        assert(s[name.end + 0] == "=\""@[0]);
        assert(s[name.end + 1] == "=\""@[1]);
        let at2 = name.end + 2;
        lemma_run_end(CharClass::Not('"'), s, at2);
        let at3 = run_end(CharClass::Not('"'), s, at2);
        lemma_occurs_one(s, at3, '"');
        assert(attribute.text =~= seq![' '] + s.subrange(pos, attribute.end));
    }
}

/// An attribute is matched again where a text holds the stretch that it was
/// matched in.
proof fn lemma_attribute_again(s: Seq<char>, pos: int, t: Seq<char>, q: int)
    requires
        spec_attribute(s, pos) is Some,
        0 <= q,
        occurs_at(t, q, s.subrange(pos, spec_attribute(s, pos)->0.end)),
    ensures
        spec_attribute(t, q) == Some(
            Match {
                text: spec_attribute(s, pos)->0.text,
                end: q + (spec_attribute(s, pos)->0.end - pos),
            },
        ),
{
    reveal_strlit("=\"");
    reveal_strlit("\"");
    reveal_strlit(" ");
    assert("\""@ =~= seq!['"']);
    assert(" "@ =~= seq![' ']);
    let attribute = spec_attribute(s, pos)->0;
    lemma_attribute_shape(s, pos);
    let name = spec_element_name(s, pos)->0;
    let raw = s.subrange(pos, attribute.end);
    let n = name.end - pos;
    lemma_occurs_chars(t, q, raw);
    assert forall|i: int| 0 <= i < raw.len() implies #[trigger] t[q + i] == s[pos + i] by {
        assert(t[q + i] == raw[i]);
    }
    // the name
    assert(name.text =~= raw.subrange(0, n));
    assert(raw =~= name.text + raw.subrange(n, raw.len() as int));
    lemma_occurs_joined(t, q, name.text, raw.subrange(n, raw.len() as int));
    assert(t[q + n] == s[pos + n]);
    lemma_name_again(s, pos, t, q);
    // the mark and the value
    assert(t[q + (n + 1)] == s[pos + (n + 1)]);
    assert(t.subrange(q + n, q + n + 2) =~= "=\""@);
    let v = q + n + 2;
    let len = attribute.end - pos;
    assert(t[q + (len - 1)] == s[pos + (len - 1)]);
    assert forall|i: int| v <= i < q + len - 1 implies CharClass::Not('"').includes(
        #[trigger] t[i],
    ) by {
        assert(t[q + (i - q)] == s[pos + (i - q)]);
    }
    lemma_run_end_is(CharClass::Not('"'), t, v, len - 1 - (n + 2));
    lemma_occurs_one(t, q + len - 1, '"');
    assert(name.text + ("=\""@ + (t.subrange(v, q + len - 1) + "\""@)) =~= raw);
}

/// An attribute with the white space round it: the attribute behind the
/// white space in front, and the end of the white space behind it.
proof fn lemma_padded_attribute(s: Seq<char>, pos: int)
    requires
        0 <= pos <= s.len(),
    ensures
        padded_attribute().spec_parse(s, pos) == match spec_attribute(
            s,
            run_end(space(), s, pos),
        ) {
            Some(attribute) => Some(
                Match { text: attribute.text, end: run_end(space(), s, attribute.end) },
            ),
            None => None,
        },
        padded_attribute().spec_parse(s, pos) matches Some(m) ==> pos < m.end <= s.len(),
{
    lemma_run_rules(space(), s, pos);
    lemma_run_end(space(), s, pos);
    let at1 = run_end(space(), s, pos);
    lemma_attribute_bounds(s, at1);
    if let Some(attribute) = spec_attribute(s, at1) {
        lemma_run_rules(space(), s, attribute.end);
        lemma_run_end(space(), s, attribute.end);
        let empty = Seq::<char>::empty();
        assert(empty + (attribute.text + empty) =~= attribute.text);
    }
}

/// The attributes of a tag, taken apart: none, or an attribute and the
/// attributes behind it.
proof fn lemma_attributes_step(s: Seq<char>, pos: int)
    requires
        0 <= pos <= s.len(),
    ensures
        ({
            let all = repeated(padded_attribute(), s, pos);
            let start = run_end(space(), s, pos);
            if all.text.len() > 0 {
                let attribute = spec_attribute(s, start)->0;
                let next = run_end(space(), s, attribute.end);
                let rest = repeated(padded_attribute(), s, next);
                &&& spec_attribute(s, start) is Some
                &&& pos <= start < attribute.end <= next <= s.len()
                &&& pos < next
                &&& !space().includes(s[start])
                &&& all.text == attribute.text + rest.text
                &&& all.end == rest.end
            } else {
                &&& all.end == pos
                &&& all.count == 0
            }
        }),
        pos <= repeated(padded_attribute(), s, pos).end <= s.len(),
{
    reveal_strlit(" ");
    lemma_padded_attribute(s, pos);
    lemma_repeated_bounds(padded_attribute(), s, pos);
    lemma_run_end(space(), s, pos);
    let start = run_end(space(), s, pos);
    lemma_attribute_bounds(s, start);
    if let Some(attribute) = spec_attribute(s, start) {
        lemma_run_end(space(), s, attribute.end);
    }
}

/// The attributes of a tag are matched again where a text holds what they
/// yielded, in front of the mark that closes the tag.
#[verifier::spinoff_prover]
#[verifier::rlimit(60)]
proof fn lemma_attributes_again(s: Seq<char>, pos: int, t: Seq<char>, at: int, q: int)
    requires
        marks_are_plain(),
        0 <= pos <= s.len(),
        0 <= q <= t.len(),
        0 <= at,
        run_end(space(), t, q) == run_end(space(), t, at),
        repeated(padded_attribute(), s, pos).text.len() == 0 ==> q == at,
        occurs_at(t, at, repeated(padded_attribute(), s, pos).text),
        ({
            let end = at + repeated(padded_attribute(), s, pos).text.len();
            end < t.len() && (t[end] == '>' || t[end] == '/')
        }),
    ensures
        repeated(padded_attribute(), t, q).text == repeated(padded_attribute(), s, pos).text,
        repeated(padded_attribute(), t, q).end == at + repeated(
            padded_attribute(),
            s,
            pos,
        ).text.len(),
    decreases s.len() - pos,
{
    reveal_strlit(" ");
    assert(" "@ =~= seq![' ']);
    let all = repeated(padded_attribute(), s, pos);
    let end = at + all.text.len();
    lemma_attributes_step(s, pos);
    lemma_padded_attribute(t, q);
    lemma_run_end(space(), t, q);
    if all.text.len() > 0 {
        let start = run_end(space(), s, pos);
        let attribute = spec_attribute(s, start)->0;
        let next = run_end(space(), s, attribute.end);
        let rest = repeated(padded_attribute(), s, next);
        let raw = s.subrange(start, attribute.end);
        lemma_attribute_shape(s, start);
        assert(attribute.text == seq![' '] + raw);
        lemma_occurs_joined(t, at, attribute.text, rest.text);
        lemma_occurs_joined(t, at, seq![' '], raw);
        lemma_occurs_one(t, at, ' ');
        lemma_occurs_chars(t, at + 1, raw);
        assert(t[at + 1 + 0] == raw[0]);
        assert(raw[0] == s[start]);
        lemma_run_end_is(space(), t, at, 1);
        lemma_attribute_again(s, start, t, at + 1);
        let follows = at + attribute.text.len();
        assert(follows == at + 1 + (attribute.end - start));
        lemma_run_end(space(), t, follows);
        lemma_run_end_twice(space(), t, follows);
        let resumed = run_end(space(), t, follows);
        if rest.text.len() == 0 {
            assert(resumed == follows);
        }
        lemma_attributes_again(s, next, t, follows, resumed);
        assert(padded_attribute().spec_parse(t, q) == Some(
            Match { text: attribute.text, end: resumed },
        ));
    } else {
        assert(run_end(space(), t, at) == at);
        assert(spec_element_name(t, at) is None);
        assert(spec_attribute(t, at) is None);
    }
}

/// A tag, taken apart: the opening mark, the name, the attributes and the
/// closing mark.
proof fn lemma_tag_shape(opening: Seq<char>, closing: Seq<char>, s: Seq<char>, pos: int)
    ensures
        spec_tag(opening, closing, s, pos) matches Some(tag) ==> {
            let name = spec_element_name(s, pos + opening.len())->0;
            let attributes = repeated(padded_attribute(), s, name.end);
            &&& 0 <= pos
            &&& occurs_at(s, pos, opening)
            &&& spec_element_name(s, pos + opening.len()) is Some
            &&& pos + opening.len() < name.end <= attributes.end <= s.len()
            &&& occurs_at(s, attributes.end, closing)
            &&& tag.text == opening + (name.text + (attributes.text + closing))
            &&& tag.end == attributes.end + closing.len()
            &&& tag.end <= s.len()
        },
{
    if let Some(tag) = spec_tag(opening, closing, s, pos) {
        let at1 = pos + opening.len();
        lemma_name_shape(s, at1);
        let name = spec_element_name(s, at1)->0;
        lemma_attributes_step(s, name.end);
        let attributes = repeated(padded_attribute(), s, name.end);
        assert(tag.text =~= opening + (name.text + (attributes.text + closing)));
    }
}

/// Where a text holds what a tag yielded, its opening mark, its name and
/// its attributes are matched again, up to the place of the closing mark.
#[verifier::spinoff_prover]
#[verifier::rlimit(60)]
proof fn lemma_tag_front_again(
    opening: Seq<char>,
    closing: Seq<char>,
    s: Seq<char>,
    pos: int,
    t: Seq<char>,
    q: int,
)
    requires
        marks_are_plain(),
        spec_tag(opening, closing, s, pos) is Some,
        closing.len() > 0,
        closing[0] == '>' || closing[0] == '/',
        0 <= q,
        occurs_at(t, q, spec_tag(opening, closing, s, pos)->0.text),
    ensures
        ({
            let tag = spec_tag(opening, closing, s, pos)->0;
            let name = spec_element_name(s, pos + opening.len())->0;
            let attributes = repeated(padded_attribute(), s, name.end);
            let front = q + opening.len() + name.text.len() + attributes.text.len();
            &&& literal(opening, t, q) == Some(Match { text: opening, end: q + opening.len() })
            &&& spec_element_name(t, q + opening.len()) == Some(
                Match { text: name.text, end: q + opening.len() + name.text.len() },
            )
            &&& spec_attribute_list(t, q + opening.len() + name.text.len()) == Some(
                Match { text: attributes.text, end: front },
            )
            &&& occurs_at(t, front, closing)
            &&& front + closing.len() == q + tag.text.len()
            &&& front < t.len()
            &&& t[front] == closing[0]
        }),
{
    let tag = spec_tag(opening, closing, s, pos)->0;
    lemma_tag_shape(opening, closing, s, pos);
    let name = spec_element_name(s, pos + opening.len())->0;
    let attributes = repeated(padded_attribute(), s, name.end);
    let q1 = q + opening.len();
    let at = q1 + name.text.len();
    let front = at + attributes.text.len();
    lemma_occurs_joined(t, q, opening, name.text + (attributes.text + closing));
    lemma_occurs_joined(t, q1, name.text, attributes.text + closing);
    lemma_occurs_joined(t, at, attributes.text, closing);
    lemma_occurs_chars(t, front, closing);
    assert(t[front + 0] == closing[0]);
    lemma_occurs_chars(t, at, attributes.text + closing);
    assert(t[at + 0] == (attributes.text + closing)[0]);
    if attributes.text.len() > 0 {
        reveal_strlit(" ");
        lemma_attributes_step(s, name.end);
        assert(attributes.text[0] == ' ');
    }
    assert(!CharClass::NameChar.includes(t[at]));
    lemma_name_again(s, pos + opening.len(), t, q1);
    lemma_attributes_again(s, name.end, t, at, at);
}

/// A tag is matched again where a text holds what it yielded.
proof fn lemma_tag_again(
    opening: Seq<char>,
    closing: Seq<char>,
    s: Seq<char>,
    pos: int,
    t: Seq<char>,
    q: int,
)
    requires
        marks_are_plain(),
        spec_tag(opening, closing, s, pos) is Some,
        closing.len() > 0,
        closing[0] == '>' || closing[0] == '/',
        0 <= q,
        occurs_at(t, q, spec_tag(opening, closing, s, pos)->0.text),
    ensures
        spec_tag(opening, closing, t, q) == Some(
            Match {
                text: spec_tag(opening, closing, s, pos)->0.text,
                end: q + spec_tag(opening, closing, s, pos)->0.text.len(),
            },
        ),
{
    lemma_tag_front_again(opening, closing, s, pos, t, q);
    lemma_tag_shape(opening, closing, s, pos);
}

/// Where a text holds what a tag yielded, no tag with another closing mark
/// is matched.
proof fn lemma_tag_other(
    opening: Seq<char>,
    closing: Seq<char>,
    other: Seq<char>,
    s: Seq<char>,
    pos: int,
    t: Seq<char>,
    q: int,
)
    requires
        marks_are_plain(),
        spec_tag(opening, closing, s, pos) is Some,
        closing.len() > 0,
        closing[0] == '>' || closing[0] == '/',
        other.len() > 0,
        other[0] != closing[0],
        0 <= q,
        occurs_at(t, q, spec_tag(opening, closing, s, pos)->0.text),
    ensures
        spec_tag(opening, other, t, q) is None,
{
    lemma_tag_front_again(opening, closing, s, pos, t, q);
    let name = spec_element_name(s, pos + opening.len())->0;
    let attributes = repeated(padded_attribute(), s, name.end);
    let front = q + opening.len() + name.text.len() + attributes.text.len();
    if occurs_at(t, front, other) {
        lemma_occurs_chars(t, front, other);
        assert(t[front + 0] == other[0]);
    }
}

/// The inside of a closing tag: `</`, a name, `>`.
spec fn close_tag(s: Seq<char>, pos: int) -> Option<Match> {
    then(
        literal("</"@, s, pos),
        |at1: int| then(spec_element_name(s, at1), |at2: int| literal(">"@, s, at2)),
    )
}

/// The inside of an element that holds text: an opening tag, what stands in
/// front of the next `<`, and a closing tag.
spec fn leaf(s: Seq<char>, pos: int) -> Option<Match> {
    then(
        spec_tag("<"@, ">"@, s, pos),
        |at1: int| then(text_before("<"@, s, at1), |at2: int| close_tag(s, at2)),
    )
}

/// The rules that hand their match on through a mapper, by their insides.
proof fn lemma_insides(mapper: Mapper, level: nat, s: Seq<char>, pos: int)
    ensures
        spec_element_open(mapper, level, s, pos) == mapped(
            mapper,
            level,
            spec_tag("<"@, ">"@, s, pos),
        ),
        spec_element_full(mapper, level, s, pos) == mapped(
            mapper,
            level,
            spec_tag("<"@, "/>"@, s, pos),
        ),
        spec_element_close(mapper, level, s, pos) == mapped(mapper, level, close_tag(s, pos)),
        spec_element_with_text(mapper, level, s, pos) == mapped(mapper, level, leaf(s, pos)),
{
    if let Some(tag) = spec_tag("<"@, ">"@, s, pos) {
        if let Some(text) = text_before("<"@, s, tag.end) {
            assert(spec_element_close(Mapper::Verbatim, 0, s, text.end) == close_tag(s, text.end));
        }
    }
}

/// What the mapper that indents makes of a match: a line.
proof fn lemma_mapped_line(width: usize, level: nat, m: Option<Match>)
    ensures
        mapped(Mapper::Indent(width), level, m) == match m {
            Some(m) => Some(
                Match { text: spaces(width as nat * level) + (m.text + seq!['\n']), end: m.end },
            ),
            None => None,
        },
{
    if let Some(m) = m {
        assert(spaces(width as nat * level) + m.text + seq!['\n'] =~= spaces(width as nat * level)
            + (m.text + seq!['\n']));
    }
}

/// A closing tag is a stretch of the text that begins with `</`.
proof fn lemma_close_tag_shape(s: Seq<char>, pos: int)
    ensures
        close_tag(s, pos) matches Some(tag) ==> {
            let name = spec_element_name(s, pos + 2)->0;
            &&& 0 <= pos
            &&& pos + 4 <= tag.end <= s.len()
            &&& s[pos] == '<'
            &&& s[pos + 1] == '/'
            &&& spec_element_name(s, pos + 2) is Some
            &&& tag.text == "</"@ + (name.text + ">"@)
            &&& tag.text.len() == tag.end - pos
            &&& tag.text[0] == '<'
            &&& tag.text[1] == '/'
        },
{
    reveal_strlit("</");
    reveal_strlit(">");
    if let Some(tag) = close_tag(s, pos) {
        lemma_occurs_chars(s, pos, "</"@);
        assert(s[pos + 0] == "</"@[0]);
        assert(s[pos + 1] == "</"@[1]);
        lemma_name_shape(s, pos + 2);
    }
}

/// A closing tag is matched again where a text holds it.
proof fn lemma_close_tag_again(s: Seq<char>, pos: int, t: Seq<char>, q: int)
    requires
        marks_are_plain(),
        close_tag(s, pos) is Some,
        0 <= q,
        occurs_at(t, q, close_tag(s, pos)->0.text),
    ensures
        close_tag(t, q) == Some(
            Match { text: close_tag(s, pos)->0.text, end: q + close_tag(s, pos)->0.text.len() },
        ),
{
    reveal_strlit("</");
    reveal_strlit(">");
    assert(">"@ =~= seq!['>']);
    let tag = close_tag(s, pos)->0;
    lemma_close_tag_shape(s, pos);
    let name = spec_element_name(s, pos + 2)->0;
    lemma_occurs_joined(t, q, "</"@, name.text + ">"@);
    lemma_occurs_joined(t, q + 2, name.text, ">"@);
    lemma_occurs_one(t, q + 2 + name.text.len(), '>');
    lemma_name_again(s, pos + 2, t, q + 2);
}

/// Where `</` stands, no element begins.
proof fn lemma_no_element_at_close(mapper: Mapper, level: nat, t: Seq<char>, at: int)
    requires
        marks_are_plain(),
        0 <= at,
        at + 1 < t.len(),
        t[at + 1] == '/',
    ensures
        spec_tag("<"@, ">"@, t, at) is None,
        spec_tag("<"@, "/>"@, t, at) is None,
        spec_elements_set(mapper, level, t, at) is None,
{
    reveal_strlit("<");
    lemma_insides(mapper, level, t, at);
    assert(spec_element_name(t, at + 1) is None);
    assert(spec_element_any(mapper, level, t, at) is None);
}

/// An element that holds text, taken apart: the tag, the text without `<`,
/// and the closing tag.
proof fn lemma_leaf_shape(s: Seq<char>, pos: int)
    ensures
        leaf(s, pos) matches Some(element) ==> {
            let tag = spec_tag("<"@, ">"@, s, pos)->0;
            let close = close_tag(s, element.end - close_tag_len(s, pos))->0;
            &&& spec_tag("<"@, ">"@, s, pos) is Some
            &&& 0 <= pos < tag.end <= element.end - close_tag_len(s, pos)
            &&& close_tag(s, element.end - close_tag_len(s, pos)) is Some
            &&& close.end == element.end
            &&& close.text.len() == close_tag_len(s, pos)
            &&& element.end <= s.len()
            &&& element.text == tag.text + (s.subrange(tag.end, element.end - close_tag_len(s, pos))
                + close.text)
            &&& forall|i: int|
                tag.end <= i < element.end - close_tag_len(s, pos) ==> #[trigger] s[i] != '<'
        },
{
    reveal_strlit("<");
    assert("<"@ =~= seq!['<']);
    if let Some(element) = leaf(s, pos) {
        lemma_tag_shape("<"@, ">"@, s, pos);
        let tag = spec_tag("<"@, ">"@, s, pos)->0;
        lemma_first_occurrence(s, tag.end, "<"@);
        let text = text_before("<"@, s, tag.end)->0;
        lemma_close_tag_shape(s, text.end);
        let close = close_tag(s, text.end)->0;
        lemma_occurs_one(s, text.end, '<');
        assert(first_occurrence(s, tag.end, "<"@) is Some);
        assert(text.text == s.subrange(tag.end, text.end));
        assert(element.text =~= tag.text + (text.text + close.text));
        assert forall|i: int| tag.end <= i < text.end implies #[trigger] s[i] != '<' by {
            lemma_occurs_one(s, i, '<');
        }
    }
}

/// The length of the closing tag of an element that holds text.
spec fn close_tag_len(s: Seq<char>, pos: int) -> int {
    let tag = spec_tag("<"@, ">"@, s, pos)->0;
    let text = text_before("<"@, s, tag.end)->0;
    close_tag(s, text.end)->0.text.len() as int
}

/// An element that holds text is matched again where a text holds it.
#[verifier::spinoff_prover]
#[verifier::rlimit(60)]
proof fn lemma_leaf_again(s: Seq<char>, pos: int, t: Seq<char>, q: int)
    requires
        marks_are_plain(),
        leaf(s, pos) is Some,
        0 <= q,
        occurs_at(t, q, leaf(s, pos)->0.text),
    ensures
        leaf(t, q) == Some(Match { text: leaf(s, pos)->0.text, end: q + leaf(s, pos)->0.text.len() }),
{
    reveal_strlit("<");
    reveal_strlit(">");
    assert("<"@ =~= seq!['<']);
    let element = leaf(s, pos)->0;
    lemma_leaf_shape(s, pos);
    let tag = spec_tag("<"@, ">"@, s, pos)->0;
    let stop = element.end - close_tag_len(s, pos);
    let close = close_tag(s, stop)->0;
    let text = s.subrange(tag.end, stop);
    lemma_close_tag_shape(s, stop);
    let x1 = q + tag.text.len();
    let x2 = x1 + text.len();
    lemma_occurs_joined(t, q, tag.text, text + close.text);
    lemma_occurs_joined(t, x1, text, close.text);
    lemma_tag_again("<"@, ">"@, s, pos, t, q);
    lemma_occurs_chars(t, x1, text);
    lemma_occurs_chars(t, x2, close.text);
    assert(t[x2 + 0] == close.text[0]);
    lemma_occurs_one(t, x2, '<');
    assert forall|i: int| x1 <= i < x2 implies !occurs_at(t, i, "<"@) by {
        assert(t[x1 + (i - x1)] == text[i - x1]);
        assert(text[i - x1] == s[tag.end + (i - x1)]);
        lemma_occurs_one(t, i, '<');
    }
    lemma_first_occurrence_is(t, x1, "<"@, x2);
    lemma_close_tag_again(s, stop, t, x2);
    assert(text_before("<"@, t, x1) == Some(Match { text: text, end: x2 }));
}

/// The white space that an element drops round the elements it holds.
spec fn blank() -> CharClass {
    CharClass::AsciiWhitespace
}

/// The elements inside an element end inside the text, at or behind their start.
proof fn lemma_children_bounds(mapper: Mapper, level: nat, s: Seq<char>, pos: int)
    requires
        0 <= pos <= s.len(),
    ensures
        pos <= spec_children(mapper, level, s, pos).end <= s.len(),
    decreases s.len() - pos,
{
    if let Some(child) = spec_elements_set(mapper, level, s, pos) {
        if pos < child.end <= s.len() {
            lemma_children_bounds(mapper, level, s, child.end);
        }
    }
}

/// An element that holds elements, taken apart: the line of the opening
/// tag, the lines of the elements, and the line of the closing tag.
proof fn lemma_any_parts(width: usize, level: nat, s: Seq<char>, pos: int)
    requires
        spec_element_any(Mapper::Indent(width), level, s, pos) is Some,
    ensures
        ({
            let mapper = Mapper::Indent(width);
            let element = spec_element_any(mapper, level, s, pos)->0;
            let tag = spec_tag("<"@, ">"@, s, pos)->0;
            let start = run_end(blank(), s, tag.end);
            let children = spec_children(mapper, level + 1, s, start);
            let stop = run_end(blank(), s, children.end);
            let close = close_tag(s, stop)->0;
            let indent = spaces(width as nat * level);
            let feed = seq!['\n'];
            &&& spec_tag("<"@, ">"@, s, pos) is Some
            &&& close_tag(s, stop) is Some
            &&& 0 <= pos < tag.end <= start <= children.end <= stop < close.end <= s.len()
            &&& element.end == close.end
            &&& element.text == indent + (tag.text + (feed + (children.text + (indent + (close.text
                + feed)))))
            &&& forall|i: int| tag.end <= i < start ==> blank().includes(#[trigger] s[i])
            &&& forall|i: int| children.end <= i < stop ==> blank().includes(#[trigger] s[i])
        }),
{
    let mapper = Mapper::Indent(width);
    let element = spec_element_any(mapper, level, s, pos)->0;
    lemma_insides(mapper, level, s, pos);
    lemma_tag_shape("<"@, ">"@, s, pos);
    let tag = spec_tag("<"@, ">"@, s, pos)->0;
    lemma_mapped_line(width, level, spec_tag("<"@, ">"@, s, pos));
    lemma_run_end(blank(), s, tag.end);
    let start = run_end(blank(), s, tag.end);
    lemma_children_bounds(mapper, level + 1, s, start);
    let children = spec_children(mapper, level + 1, s, start);
    lemma_run_end(blank(), s, children.end);
    let stop = run_end(blank(), s, children.end);
    lemma_insides(mapper, level, s, stop);
    lemma_close_tag_shape(s, stop);
    lemma_mapped_line(width, level, close_tag(s, stop));
    let close = close_tag(s, stop)->0;
    let indent = spaces(width as nat * level);
    let feed = seq!['\n'];
    let empty = Seq::<char>::empty();
    assert(((indent + (tag.text + feed)) + empty) + children.text + (empty + (indent + (close.text
        + feed))) =~= indent + (tag.text + (feed + (children.text + (indent + (close.text
        + feed))))));
}

/// One element with the white space behind it, taken apart by its kind.
proof fn lemma_elements_set_parts(width: usize, level: nat, s: Seq<char>, pos: int)
    requires
        spec_elements_set(Mapper::Indent(width), level, s, pos) is Some,
    ensures
        ({
            let mapper = Mapper::Indent(width);
            let element = spec_elements_set(mapper, level, s, pos)->0;
            let indent = spaces(width as nat * level);
            let feed = seq!['\n'];
            if let Some(inside) = leaf(s, pos) {
                &&& element.text == indent + (inside.text + feed)
                &&& element.end == run_end(space(), s, inside.end)
            } else if let Some(inside) = spec_tag("<"@, "/>"@, s, pos) {
                &&& element.text == indent + (inside.text + feed)
                &&& element.end == run_end(space(), s, inside.end)
            } else {
                &&& spec_element_any(mapper, level, s, pos) matches Some(inside)
                &&& element.text == inside.text
                &&& element.end == run_end(space(), s, inside.end)
            }
        }),
{
    let mapper = Mapper::Indent(width);
    lemma_insides(mapper, level, s, pos);
    lemma_mapped_line(width, level, leaf(s, pos));
    lemma_mapped_line(width, level, spec_tag("<"@, "/>"@, s, pos));
    let element = spec_elements_set(mapper, level, s, pos)->0;
    let inner = or_else(
        spec_element_with_text(mapper, level, s, pos),
        or_else(
            spec_element_full(mapper, level, s, pos),
            spec_element_any(mapper, level, s, pos),
        ),
    )->0;
    assert(element.text =~= inner.text);
}

/// One element begins with its indentation, `<` and the first letter of
/// its name.
proof fn lemma_elements_set_begin(width: usize, level: nat, s: Seq<char>, pos: int)
    requires
        spec_elements_set(Mapper::Indent(width), level, s, pos) is Some,
    ensures
        ({
            let element = spec_elements_set(Mapper::Indent(width), level, s, pos)->0;
            let indent = width as nat * level;
            &&& element.text.len() >= indent + 3
            &&& element.text.subrange(0, indent as int) == spaces(indent)
            &&& element.text[indent as int] == '<'
            &&& unicode_alphabetic(element.text[indent as int + 1])
        }),
{
    reveal_strlit("<");
    reveal_strlit(">");
    reveal_strlit("/>");
    let mapper = Mapper::Indent(width);
    let element = spec_elements_set(mapper, level, s, pos)->0;
    let indent = width as nat * level;
    lemma_elements_set_parts(width, level, s, pos);
    lemma_tag_shape("<"@, ">"@, s, pos);
    lemma_tag_shape("<"@, "/>"@, s, pos);
    lemma_name_shape(s, pos + 1);
    let name = spec_element_name(s, pos + 1)->0;
    if leaf(s, pos) is Some {
        lemma_leaf_shape(s, pos);
    } else if spec_tag("<"@, "/>"@, s, pos) is Some {
    } else {
        lemma_any_parts(width, level, s, pos);
    }
    let tag = if leaf(s, pos) is Some || spec_tag("<"@, "/>"@, s, pos) is None {
        spec_tag("<"@, ">"@, s, pos)->0
    } else {
        spec_tag("<"@, "/>"@, s, pos)->0
    };
    assert(tag.text[0] == '<');
    assert(tag.text[1] == name.text[0]);
    assert(name.text[0] == s[pos + 1]);
    assert(element.text.subrange(0, indent as int) =~= spaces(indent));
    assert(element.text[indent as int] == tag.text[0]);
    assert(element.text[indent as int + 1] == tag.text[1]);
}

/// The elements inside an element, taken apart: none, or an element and
/// the elements behind it.
proof fn lemma_children_step(width: usize, level: nat, s: Seq<char>, pos: int)
    requires
        0 <= pos <= s.len(),
    ensures
        ({
            let mapper = Mapper::Indent(width);
            let children = spec_children(mapper, level, s, pos);
            if children.text.len() > 0 {
                let first = spec_elements_set(mapper, level, s, pos)->0;
                let rest = spec_children(mapper, level, s, first.end);
                &&& spec_elements_set(mapper, level, s, pos) is Some
                &&& pos < first.end <= s.len()
                &&& children.text == first.text + rest.text
                &&& children.end == rest.end
            } else {
                children.end == pos
            }
        }),
{
    let mapper = Mapper::Indent(width);
    if let Some(first) = spec_elements_set(mapper, level, s, pos) {
        lemma_elements_set_begin(width, level, s, pos);
    }
}

/// White space of either kind that is made of spaces and line feeds runs
/// up to the `<` behind it.
proof fn lemma_run_to_mark(t: Seq<char>, at: int, n: int)
    requires
        marks_are_plain(),
        0 <= at,
        0 <= n,
        at + n < t.len(),
        forall|i: int| at <= i < at + n ==> #[trigger] t[i] == ' ' || t[i] == '\n',
        t[at + n] == '<',
    ensures
        run_end(space(), t, at) == at + n,
        run_end(blank(), t, at) == at + n,
{
    assert forall|i: int| at <= i < at + n implies space().includes(#[trigger] t[i]) by {
        assert(t[i] == ' ' || t[i] == '\n');
    }
    assert forall|i: int| at <= i < at + n implies blank().includes(#[trigger] t[i]) by {
        assert(t[i] == ' ' || t[i] == '\n');
    }
    lemma_run_end_is(space(), t, at, n);
    lemma_run_end_is(blank(), t, at, n);
}

/// Behind a line feed, an indentation and `<`: the white space of either
/// kind runs from the line feed up to the `<`.
proof fn lemma_run_over_line_start(t: Seq<char>, feed: int, indent: nat)
    requires
        marks_are_plain(),
        0 <= feed < t.len(),
        t[feed] == '\n',
        occurs_at(t, feed + 1, spaces(indent)),
        feed + 1 + indent < t.len(),
        t[feed + 1 + indent] == '<',
    ensures
        run_end(space(), t, feed) == feed + 1 + indent,
        run_end(blank(), t, feed) == feed + 1 + indent,
        run_end(space(), t, feed + 1) == feed + 1 + indent,
        run_end(blank(), t, feed + 1) == feed + 1 + indent,
{
    lemma_occurs_chars(t, feed + 1, spaces(indent));
    assert forall|i: int| feed <= i < feed + 1 + indent implies #[trigger] t[i] == ' ' || t[i]
        == '\n' by {
        if i > feed {
            assert(t[feed + 1 + (i - feed - 1)] == spaces(indent)[i - feed - 1]);
        }
    }
    lemma_run_to_mark(t, feed, 1 + indent as int);
    lemma_run_to_mark(t, feed + 1, indent as int);
}

/// An element that holds elements and is no element that holds text holds
/// at least one element.
proof fn lemma_any_has_children(width: usize, level: nat, s: Seq<char>, pos: int)
    requires
        spec_element_any(Mapper::Indent(width), level, s, pos) is Some,
        leaf(s, pos) is None,
    ensures
        ({
            let tag = spec_tag("<"@, ">"@, s, pos)->0;
            let start = run_end(blank(), s, tag.end);
            spec_children(Mapper::Indent(width), level + 1, s, start).text.len() > 0
        }),
{
    reveal_strlit("<");
    assert("<"@ =~= seq!['<']);
    let mapper = Mapper::Indent(width);
    lemma_any_parts(width, level, s, pos);
    let tag = spec_tag("<"@, ">"@, s, pos)->0;
    let start = run_end(blank(), s, tag.end);
    let children = spec_children(mapper, level + 1, s, start);
    if children.text.len() == 0 {
        lemma_children_step(width, level + 1, s, start);
        lemma_run_end_twice(blank(), s, tag.end);
        lemma_close_tag_shape(s, start);
        lemma_occurs_one(s, start, '<');
        assert forall|i: int| tag.end <= i < start implies !occurs_at(s, i, "<"@) by {
            assert(blank().includes(s[i]));
            lemma_occurs_one(s, i, '<');
        }
        lemma_first_occurrence_is(s, tag.end, "<"@, start);
        assert(text_before("<"@, s, tag.end) == Some(
            Match { text: s.subrange(tag.end, start), end: start },
        ));
        assert(leaf(s, pos) is Some);
    }
}

/// Where a text holds what an element that holds elements yielded, no
/// element that holds text and no element that closes itself is matched.
#[verifier::spinoff_prover]
#[verifier::rlimit(60)]
proof fn lemma_any_is_no_other(
    width: usize,
    level: nat,
    s: Seq<char>,
    pos: int,
    t: Seq<char>,
    line: int,
)
    requires
        marks_are_plain(),
        spec_element_any(Mapper::Indent(width), level, s, pos) is Some,
        leaf(s, pos) is None,
        0 <= line,
        occurs_at(t, line, spec_element_any(Mapper::Indent(width), level, s, pos)->0.text),
    ensures
        leaf(t, line + width as nat * level) is None,
        spec_tag("<"@, "/>"@, t, line + width as nat * level) is None,
{
    reveal_strlit("<");
    reveal_strlit(">");
    reveal_strlit("/>");
    reveal_strlit("</");
    assert("<"@ =~= seq!['<']);
    let mapper = Mapper::Indent(width);
    let element = spec_element_any(mapper, level, s, pos)->0;
    lemma_any_parts(width, level, s, pos);
    lemma_any_has_children(width, level, s, pos);
    let tag = spec_tag("<"@, ">"@, s, pos)->0;
    let start = run_end(blank(), s, tag.end);
    let children = spec_children(mapper, level + 1, s, start);
    let stop = run_end(blank(), s, children.end);
    let close = close_tag(s, stop)->0;
    let indent = spaces(width as nat * level);
    let deeper = width as nat * (level + 1);
    let feed = seq!['\n'];
    let rest = indent + (close.text + feed);
    lemma_children_step(width, level + 1, s, start);
    lemma_elements_set_begin(width, level + 1, s, start);
    let first = spec_elements_set(mapper, level + 1, s, start)->0;
    let others = spec_children(mapper, level + 1, s, first.end);
    let q = line + indent.len();
    let x1 = q + tag.text.len();
    lemma_occurs_joined(t, line, indent, tag.text + (feed + (children.text + rest)));
    lemma_occurs_joined(t, q, tag.text, feed + (children.text + rest));
    lemma_occurs_joined(t, x1, feed, children.text + rest);
    lemma_occurs_joined(t, x1 + 1, children.text, rest);
    lemma_occurs_joined(t, x1 + 1, first.text, others.text);
    lemma_occurs_one(t, x1, '\n');
    lemma_tag_again("<"@, ">"@, s, pos, t, q);
    lemma_tag_other("<"@, ">"@, "/>"@, s, pos, t, q);
    // the first `<` behind the tag opens the first element inside
    let mark = x1 + 1 + deeper;
    lemma_occurs_chars(t, x1 + 1, first.text);
    assert(t[x1 + 1 + deeper] == first.text[deeper as int]);
    assert(t[x1 + 1 + (deeper + 1)] == first.text[deeper as int + 1]);
    lemma_occurs_one(t, mark, '<');
    assert forall|i: int| x1 <= i < mark implies !occurs_at(t, i, "<"@) by {
        if i > x1 {
            assert(t[x1 + 1 + (i - x1 - 1)] == first.text[i - x1 - 1]);
            assert(first.text.subrange(0, deeper as int)[i - x1 - 1] == first.text[i - x1 - 1]);
        }
        lemma_occurs_one(t, i, '<');
    }
    lemma_first_occurrence_is(t, x1, "<"@, mark);
    if occurs_at(t, mark, "</"@) {
        lemma_occurs_chars(t, mark, "</"@);
        assert(t[mark + 1] == "</"@[1]);
    }
    assert(close_tag(t, mark) is None);
}

/// One element with the white space behind it is matched where an element of
/// one of the three kinds is matched.
proof fn lemma_set_assembled(mapper: Mapper, level: nat, t: Seq<char>, q: int, inner: Match)
    requires
        or_else(
            spec_element_with_text(mapper, level, t, q),
            or_else(
                spec_element_full(mapper, level, t, q),
                spec_element_any(mapper, level, t, q),
            ),
        ) == Some(inner),
    ensures
        spec_elements_set(mapper, level, t, q) == Some(
            Match { text: inner.text, end: run_end(space(), t, inner.end) },
        ),
{
    assert(inner.text + Seq::<char>::empty() =~= inner.text);
}

/// The line of an element that holds text is matched again as such an element.
#[verifier::spinoff_prover]
#[verifier::rlimit(60)]
proof fn lemma_set_leaf_again(
    width: usize,
    level: nat,
    s: Seq<char>,
    pos: int,
    t: Seq<char>,
    line: int,
)
    requires
        marks_are_plain(),
        leaf(s, pos) is Some,
        0 <= line,
        occurs_at(
            t,
            line,
            spaces(width as nat * level) + (leaf(s, pos)->0.text + seq!['\n']),
        ),
    ensures
        ({
            let text = spaces(width as nat * level) + (leaf(s, pos)->0.text + seq!['\n']);
            spec_elements_set(Mapper::Indent(width), level, t, line + width as nat * level)
                == Some(Match { text, end: run_end(space(), t, line + text.len()) })
        }),
{
    let mapper = Mapper::Indent(width);
    let inside = leaf(s, pos)->0;
    let indent = spaces(width as nat * level);
    let feed = seq!['\n'];
    let q = line + indent.len();
    let stop = q + inside.text.len();
    lemma_occurs_joined(t, line, indent, inside.text + feed);
    lemma_occurs_joined(t, q, inside.text, feed);
    lemma_occurs_one(t, stop, '\n');
    lemma_leaf_again(s, pos, t, q);
    lemma_insides(mapper, level, t, q);
    lemma_mapped_line(width, level, leaf(t, q));
    lemma_run_end_through(space(), t, stop, 1);
    lemma_set_assembled(
        mapper,
        level,
        t,
        q,
        Match { text: indent + (inside.text + feed), end: stop },
    );
}

/// The line of an element that closes itself is matched again as such an element.
#[verifier::spinoff_prover]
#[verifier::rlimit(60)]
proof fn lemma_set_full_again(
    width: usize,
    level: nat,
    s: Seq<char>,
    pos: int,
    t: Seq<char>,
    line: int,
)
    requires
        marks_are_plain(),
        spec_tag("<"@, "/>"@, s, pos) is Some,
        0 <= line,
        occurs_at(
            t,
            line,
            spaces(width as nat * level) + (spec_tag("<"@, "/>"@, s, pos)->0.text + seq!['\n']),
        ),
    ensures
        ({
            let text = spaces(width as nat * level) + (spec_tag("<"@, "/>"@, s, pos)->0.text
                + seq!['\n']);
            spec_elements_set(Mapper::Indent(width), level, t, line + width as nat * level)
                == Some(Match { text, end: run_end(space(), t, line + text.len()) })
        }),
{
    reveal_strlit(">");
    reveal_strlit("/>");
    let mapper = Mapper::Indent(width);
    let inside = spec_tag("<"@, "/>"@, s, pos)->0;
    let indent = spaces(width as nat * level);
    let feed = seq!['\n'];
    let q = line + indent.len();
    let stop = q + inside.text.len();
    lemma_occurs_joined(t, line, indent, inside.text + feed);
    lemma_occurs_joined(t, q, inside.text, feed);
    lemma_occurs_one(t, stop, '\n');
    lemma_tag_again("<"@, "/>"@, s, pos, t, q);
    lemma_tag_other("<"@, "/>"@, ">"@, s, pos, t, q);
    lemma_insides(mapper, level, t, q);
    lemma_mapped_line(width, level, spec_tag("<"@, "/>"@, t, q));
    lemma_run_end_through(space(), t, stop, 1);
    lemma_set_assembled(
        mapper,
        level,
        t,
        q,
        Match { text: indent + (inside.text + feed), end: stop },
    );
}

/// The lines of an element that holds elements are matched again as such
/// an element.
#[verifier::spinoff_prover]
#[verifier::rlimit(60)]
proof fn lemma_set_any_again(
    width: usize,
    level: nat,
    s: Seq<char>,
    pos: int,
    t: Seq<char>,
    line: int,
)
    requires
        marks_are_plain(),
        spec_element_any(Mapper::Indent(width), level, s, pos) is Some,
        leaf(s, pos) is None,
        0 <= line,
        occurs_at(t, line, spec_element_any(Mapper::Indent(width), level, s, pos)->0.text),
    ensures
        ({
            let text = spec_element_any(Mapper::Indent(width), level, s, pos)->0.text;
            spec_elements_set(Mapper::Indent(width), level, t, line + width as nat * level)
                == Some(Match { text, end: run_end(space(), t, line + text.len()) })
        }),
    decreases s.len() - pos, 1nat,
{
    let mapper = Mapper::Indent(width);
    let inside = spec_element_any(mapper, level, s, pos)->0;
    let q = line + width as nat * level;
    let stop = line + inside.text.len() - 1;
    lemma_any_is_no_other(width, level, s, pos, t, line);
    lemma_element_any_again(width, level, s, pos, t, line);
    lemma_insides(mapper, level, t, q);
    lemma_any_last(width, level, s, pos);
    lemma_occurs_chars(t, line, inside.text);
    assert(t[line + (inside.text.len() - 1)] == inside.text[inside.text.len() - 1]);
    lemma_run_end_through(space(), t, stop, 1);
    lemma_set_assembled(mapper, level, t, q, Match { text: inside.text, end: stop });
}

/// What an element that holds elements yields ends with a line feed.
proof fn lemma_any_last(width: usize, level: nat, s: Seq<char>, pos: int)
    requires
        spec_element_any(Mapper::Indent(width), level, s, pos) is Some,
    ensures
        spec_element_any(Mapper::Indent(width), level, s, pos)->0.text.len() > 0,
        spec_element_any(Mapper::Indent(width), level, s, pos)->0.text.last() == '\n',
{
    lemma_any_parts(width, level, s, pos);
}

/// One element that was matched is matched again where a text holds what it
/// yielded, behind its indentation, and the white space behind it is
/// dropped again.
proof fn lemma_elements_set_again(
    width: usize,
    level: nat,
    s: Seq<char>,
    pos: int,
    t: Seq<char>,
    line: int,
)
    requires
        marks_are_plain(),
        spec_elements_set(Mapper::Indent(width), level, s, pos) is Some,
        0 <= line,
        occurs_at(t, line, spec_elements_set(Mapper::Indent(width), level, s, pos)->0.text),
    ensures
        ({
            let element = spec_elements_set(Mapper::Indent(width), level, s, pos)->0;
            spec_elements_set(Mapper::Indent(width), level, t, line + width as nat * level)
                == Some(
                Match {
                    text: element.text,
                    end: run_end(space(), t, line + element.text.len()),
                },
            )
        }),
    decreases s.len() - pos, 2nat,
{
    lemma_elements_set_parts(width, level, s, pos);
    if leaf(s, pos) is Some {
        lemma_set_leaf_again(width, level, s, pos, t, line);
    } else if spec_tag("<"@, "/>"@, s, pos) is Some {
        lemma_set_full_again(width, level, s, pos, t, line);
    } else {
        lemma_set_any_again(width, level, s, pos, t, line);
    }
}

/// The elements inside an element that were matched are matched again where
/// a text holds what they yielded, in front of the line of a closing tag.
#[verifier::spinoff_prover]
#[verifier::rlimit(60)]
proof fn lemma_children_again(
    width: usize,
    level: nat,
    s: Seq<char>,
    pos: int,
    t: Seq<char>,
    line: int,
    indent: nat,
)
    requires
        marks_are_plain(),
        0 <= pos <= s.len(),
        0 <= line,
        occurs_at(t, line, spec_children(Mapper::Indent(width), level, s, pos).text),
        occurs_at(
            t,
            line + spec_children(Mapper::Indent(width), level, s, pos).text.len(),
            spaces(indent) + "</"@,
        ),
    ensures
        ({
            let children = spec_children(Mapper::Indent(width), level, s, pos);
            spec_children(Mapper::Indent(width), level, t, run_end(space(), t, line)) == (Match {
                text: children.text,
                end: line + children.text.len() + indent,
            })
        }),
    decreases s.len() - pos, 3nat,
{
    reveal_strlit("</");
    let mapper = Mapper::Indent(width);
    let children = spec_children(mapper, level, s, pos);
    let close_line = line + children.text.len();
    let mark = close_line + indent;
    lemma_children_step(width, level, s, pos);
    lemma_occurs_joined(t, close_line, spaces(indent), "</"@);
    lemma_occurs_chars(t, mark, "</"@);
    assert(t[mark + 0] == "</"@[0]);
    assert(t[mark + 1] == "</"@[1]);
    lemma_run_over_indent(t, close_line, indent);
    if children.text.len() > 0 {
        let first = spec_elements_set(mapper, level, s, pos)->0;
        let rest = spec_children(mapper, level, s, first.end);
        let next = line + first.text.len();
        lemma_elements_set_begin(width, level, s, pos);
        lemma_occurs_joined(t, line, first.text, rest.text);
        lemma_occurs_chars(t, line, first.text);
        let deep = width as nat * level;
        assert(t[line + deep] == first.text[deep as int]);
        assert(first.text =~= spaces(deep) + first.text.subrange(
            deep as int,
            first.text.len() as int,
        ));
        lemma_occurs_joined(
            t,
            line,
            spaces(deep),
            first.text.subrange(deep as int, first.text.len() as int),
        );
        lemma_run_over_indent(t, line, deep);
        lemma_elements_set_again(width, level, s, pos, t, line);
        lemma_run_end(space(), t, next);
        lemma_children_again(width, level, s, first.end, t, next, indent);
        let again = spec_elements_set(mapper, level, t, line + deep)->0;
        assert(line + deep < again.end <= t.len());
    } else {
        lemma_no_element_at_close(mapper, level, t, mark);
    }
}

/// An element that holds elements and was matched is matched again where a
/// text holds what it yielded, behind its indentation.
#[verifier::spinoff_prover]
#[verifier::rlimit(60)]
proof fn lemma_element_any_again(
    width: usize,
    level: nat,
    s: Seq<char>,
    pos: int,
    t: Seq<char>,
    line: int,
)
    requires
        marks_are_plain(),
        spec_element_any(Mapper::Indent(width), level, s, pos) is Some,
        0 <= line,
        occurs_at(t, line, spec_element_any(Mapper::Indent(width), level, s, pos)->0.text),
    ensures
        ({
            let element = spec_element_any(Mapper::Indent(width), level, s, pos)->0;
            spec_element_any(Mapper::Indent(width), level, t, line + width as nat * level)
                == Some(Match { text: element.text, end: line + element.text.len() - 1 })
        }),
    decreases s.len() - pos, 0nat,
{
    reveal_strlit("<");
    reveal_strlit(">");
    reveal_strlit("</");
    let mapper = Mapper::Indent(width);
    let element = spec_element_any(mapper, level, s, pos)->0;
    lemma_any_parts(width, level, s, pos);
    let tag = spec_tag("<"@, ">"@, s, pos)->0;
    let start = run_end(blank(), s, tag.end);
    let children = spec_children(mapper, level + 1, s, start);
    let stop = run_end(blank(), s, children.end);
    let close = close_tag(s, stop)->0;
    lemma_close_tag_shape(s, stop);
    let width_here = width as nat * level;
    let indent = spaces(width_here);
    let feed = seq!['\n'];
    let q = line + width_here;
    let x1 = q + tag.text.len();
    let inner = x1 + 1;
    let close_line = inner + children.text.len();
    let mark = close_line + width_here;
    lemma_occurs_joined(t, line, indent, tag.text + (feed + (children.text + (indent + (close.text
        + feed)))));
    lemma_occurs_joined(t, q, tag.text, feed + (children.text + (indent + (close.text + feed))));
    lemma_occurs_joined(t, x1, feed, children.text + (indent + (close.text + feed)));
    lemma_occurs_joined(t, inner, children.text, indent + (close.text + feed));
    lemma_occurs_joined(t, close_line, indent, close.text + feed);
    lemma_occurs_joined(t, mark, close.text, feed);
    lemma_occurs_one(t, x1, '\n');
    // the line of the opening tag
    lemma_insides(mapper, level, t, q);
    lemma_tag_again("<"@, ">"@, s, pos, t, q);
    lemma_mapped_line(width, level, spec_tag("<"@, ">"@, t, q));
    // the elements inside
    assert(close.text =~= "</"@ + close.text.subrange(2, close.text.len() as int));
    lemma_occurs_joined(t, mark, "</"@, close.text.subrange(2, close.text.len() as int));
    assert(occurs_at(t, close_line, indent + "</"@)) by {
        lemma_occurs_joined(t, close_line, indent, "</"@);
    }
    lemma_occurs_chars(t, mark, close.text);
    assert(t[mark + 0] == close.text[0]);
    lemma_run_over_indent(t, close_line, width_here);
    let first_mark = run_end(space(), t, inner);
    if children.text.len() > 0 {
        lemma_children_step(width, level + 1, s, start);
        lemma_elements_set_begin(width, level + 1, s, start);
        let first = spec_elements_set(mapper, level + 1, s, start)->0;
        let deeper = width as nat * (level + 1);
        lemma_occurs_joined(
            t,
            inner,
            first.text,
            spec_children(mapper, level + 1, s, first.end).text,
        );
        assert(first.text =~= spaces(deeper) + first.text.subrange(
            deeper as int,
            first.text.len() as int,
        ));
        lemma_occurs_joined(
            t,
            inner,
            spaces(deeper),
            first.text.subrange(deeper as int, first.text.len() as int),
        );
        lemma_occurs_chars(t, inner, first.text);
        assert(t[inner + deeper] == first.text[deeper as int]);
        lemma_run_over_line_start(t, x1, deeper);
    } else {
        assert(inner == close_line);
        lemma_run_over_line_start(t, x1, width_here);
    }
    assert(run_end(blank(), t, x1) == first_mark);
    lemma_children_again(width, level + 1, s, start, t, inner, width_here);
    // the line of the closing tag
    assert(run_end(blank(), t, mark) == mark);
    lemma_insides(mapper, level, t, mark);
    lemma_close_tag_again(s, stop, t, mark);
    lemma_mapped_line(width, level, close_tag(t, mark));
    let empty = Seq::<char>::empty();
    assert(((indent + (tag.text + feed)) + empty) + children.text + (empty + (indent + (close.text
        + feed))) =~= element.text);
}

/// The inside of the prolog: `<?`, a name, the run of characters that may
/// follow it, `?>`.
spec fn prolog(s: Seq<char>, pos: int) -> Option<Match> {
    then(
        literal("<?"@, s, pos),
        |at1: int|
            then(
                spec_element_name(s, at1),
                |at2: int| then(kept(CharClass::PrologChar, s, at2), |at3: int| literal("?>"@, s, at3)),
            ),
    )
}

/// The prolog, taken apart: `<?`, the name, what follows the name, `?>`.
proof fn lemma_prolog_shape(s: Seq<char>, pos: int)
    ensures
        prolog(s, pos) matches Some(found) ==> {
            let name = spec_element_name(s, pos + 2)->0;
            let stop = run_end(CharClass::PrologChar, s, name.end);
            &&& 0 <= pos
            &&& spec_element_name(s, pos + 2) is Some
            &&& pos + 2 < name.end <= stop
            &&& found.end == stop + 2
            &&& found.end <= s.len()
            &&& s[stop] == '?'
            &&& found.text == "<?"@ + (name.text + (s.subrange(name.end, stop) + "?>"@))
            &&& forall|i: int| name.end <= i < stop ==> CharClass::PrologChar.includes(
                #[trigger] s[i],
            )
            &&& !CharClass::NameChar.includes(s[name.end])
        },
{
    reveal_strlit("<?");
    reveal_strlit("?>");
    if let Some(found) = prolog(s, pos) {
        lemma_name_shape(s, pos + 2);
        let name = spec_element_name(s, pos + 2)->0;
        lemma_run_end(CharClass::PrologChar, s, name.end);
        let stop = run_end(CharClass::PrologChar, s, name.end);
        lemma_occurs_chars(s, stop, "?>"@);
        assert(s[stop + 0] == "?>"@[0]);
    }
}

/// The prolog is matched again where a text holds it.
#[verifier::spinoff_prover]
#[verifier::rlimit(60)]
proof fn lemma_prolog_again(s: Seq<char>, pos: int, t: Seq<char>, q: int)
    requires
        prolog(s, pos) is Some,
        0 <= q,
        occurs_at(t, q, prolog(s, pos)->0.text),
    ensures
        prolog(t, q) == Some(
            Match { text: prolog(s, pos)->0.text, end: q + prolog(s, pos)->0.text.len() },
        ),
{
    reveal_strlit("<?");
    reveal_strlit("?>");
    let found = prolog(s, pos)->0;
    lemma_prolog_shape(s, pos);
    let name = spec_element_name(s, pos + 2)->0;
    let stop = run_end(CharClass::PrologChar, s, name.end);
    let gap = s.subrange(name.end, stop);
    let q1 = q + 2;
    let q2 = q1 + name.text.len();
    let q3 = q2 + gap.len();
    lemma_occurs_joined(t, q, "<?"@, name.text + (gap + "?>"@));
    lemma_occurs_joined(t, q1, name.text, gap + "?>"@);
    lemma_occurs_joined(t, q2, gap, "?>"@);
    lemma_occurs_chars(t, q2, gap + "?>"@);
    assert(t[q2 + 0] == (gap + "?>"@)[0]);
    if gap.len() > 0 {
        assert((gap + "?>"@)[0] == s[name.end + 0]);
    }
    lemma_name_again(s, pos + 2, t, q1);
    lemma_occurs_chars(t, q2, gap);
    assert forall|i: int| q2 <= i < q3 implies CharClass::PrologChar.includes(#[trigger] t[i]) by {
        assert(t[q2 + (i - q2)] == gap[i - q2]);
        assert(gap[i - q2] == s[name.end + (i - q2)]);
    }
    lemma_occurs_chars(t, q3, "?>"@);
    assert(t[q3 + 0] == "?>"@[0]);
    lemma_run_end_is(CharClass::PrologChar, t, q2, gap.len() as int);
    assert(t.subrange(q2, q3) == gap);
}

/// A document, taken apart: the line of the prolog and the lines of the root.
proof fn lemma_document_parts(ident: usize, body: Seq<char>)
    requires
        spec_document(Mapper::Indent(ident), body, 0) is Some,
    ensures
        ({
            let mapper = Mapper::Indent(ident);
            let document = spec_document(mapper, body, 0)->0;
            let first = prolog(body, 0)->0;
            let start = run_end(space(), body, first.end);
            let root = spec_element_any(mapper, 0, body, start)->0;
            &&& prolog(body, 0) is Some
            &&& spec_element_any(mapper, 0, body, start) is Some
            &&& document.text == first.text + (seq!['\n'] + root.text)
        }),
{
    let mapper = Mapper::Indent(ident);
    let document = spec_document(mapper, body, 0)->0;
    lemma_mapped_line(ident, 0, prolog(body, 0));
    assert(spec_element_xml(mapper, body, 0) == mapped(mapper, 0, prolog(body, 0)));
    let first = prolog(body, 0)->0;
    let start = run_end(space(), body, first.end);
    let root = spec_element_any(mapper, 0, body, start)->0;
    let empty = Seq::<char>::empty();
    assert(ident as nat * 0 == 0);
    assert(spaces(0) =~= empty);
    assert((spaces(0) + (first.text + seq!['\n'])) + (empty + (root.text + empty)) =~= first.text
        + (seq!['\n'] + root.text));
}

/// A document is matched where the prolog and the root are matched, one
/// behind the other with white space between them.
proof fn lemma_document_assembled(
    ident: usize,
    t: Seq<char>,
    first: Match,
    root: Match,
)
    requires
        prolog(t, 0) == Some(first),
        spec_element_any(Mapper::Indent(ident), 0, t, run_end(space(), t, first.end)) == Some(
            root,
        ),
    ensures
        spec_document(Mapper::Indent(ident), t, 0) == Some(
            Match {
                text: first.text + (seq!['\n'] + root.text),
                end: run_end(space(), t, root.end),
            },
        ),
{
    let mapper = Mapper::Indent(ident);
    lemma_mapped_line(ident, 0, prolog(t, 0));
    assert(spec_element_xml(mapper, t, 0) == mapped(mapper, 0, prolog(t, 0)));
    let empty = Seq::<char>::empty();
    assert(ident as nat * 0 == 0);
    assert(spaces(0) =~= empty);
    assert((spaces(0) + (first.text + seq!['\n'])) + (empty + (root.text + empty)) =~= first.text
        + (seq!['\n'] + root.text));
}

/// Formatting again: provided the marks are plain, an XML document, once
/// formatted, is left as it is by formatting it again with the same width.
#[verifier::spinoff_prover]
#[verifier::rlimit(60)]
pub proof fn lemma_format_again(body: Seq<char>, ident: usize)
    requires
        marks_are_plain(),
    ensures
        crate::xml::spec_format(crate::xml::spec_format(body, ident), ident)
            == crate::xml::spec_format(body, ident),
{
    let mapper = Mapper::Indent(ident);
    if spec_document(mapper, body, 0) is Some {
        let t = spec_document(mapper, body, 0)->0.text;
        lemma_document_parts(ident, body);
        let first = prolog(body, 0)->0;
        let start = run_end(space(), body, first.end);
        let root = spec_element_any(mapper, 0, body, start)->0;
        let feed = seq!['\n'];
        let width = first.text.len() as int;
        assert(occurs_at(t, 0, first.text + (feed + root.text))) by {
            assert(t.subrange(0, t.len() as int) =~= t);
        }
        lemma_occurs_joined(t, 0, first.text, feed + root.text);
        lemma_occurs_joined(t, width, feed, root.text);
        lemma_occurs_one(t, width, '\n');
        lemma_prolog_again(body, 0, t, 0);
        lemma_root_begins(ident, body, start);
        lemma_occurs_chars(t, width + 1, root.text);
        assert(t[width + 1 + 0] == root.text[0]);
        assert(t[width + 1 + (root.text.len() - 1)] == root.text[root.text.len() - 1]);
        assert(occurs_at(t, width + 1, spaces(0))) by {
            assert(t.subrange(width + 1, width + 1) =~= spaces(0));
        }
        lemma_run_over_line_start(t, width, 0);
        assert(ident as nat * 0 == 0);
        lemma_element_any_again(ident, 0, body, start, t, width + 1);
        let last = t.len() - 1;
        lemma_run_end_through(space(), t, last, 1);
        assert(run_end(space(), t, t.len() as int) == t.len());
        lemma_document_assembled(
            ident,
            t,
            Match { text: first.text, end: width },
            Match { text: root.text, end: last },
        );
    }
}

/// What the root of a document yields begins with `<` and ends with a line feed.
proof fn lemma_root_begins(ident: usize, s: Seq<char>, pos: int)
    requires
        spec_element_any(Mapper::Indent(ident), 0, s, pos) is Some,
    ensures
        spec_element_any(Mapper::Indent(ident), 0, s, pos)->0.text.len() > 1,
        spec_element_any(Mapper::Indent(ident), 0, s, pos)->0.text[0] == '<',
        spec_element_any(Mapper::Indent(ident), 0, s, pos)->0.text.last() == '\n',
{
    reveal_strlit("<");
    lemma_any_parts(ident, 0, s, pos);
    lemma_tag_shape("<"@, ">"@, s, pos);
    assert(ident as nat * 0 == 0);
    assert(spaces(0) =~= Seq::<char>::empty());
    let tag = spec_tag("<"@, ">"@, s, pos)->0;
    assert(tag.text[0] == '<');
}

} // verus!
