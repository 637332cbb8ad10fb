//! Formatting what was formatted: JSON that came out of the formatter is
//! matched again by the grammar, and yields the same text.

use crate::combinators::{lemma_run_not_empty, literal, optional, run, until};
use crate::grammar::skipped;
use crate::json::{
    block, closed, lemma_member_head_bounds, spec_array, spec_array_content, spec_elements,
    spec_item_tail, spec_key, spec_key_and_value, spec_member_head, spec_members, spec_object,
    spec_object_content, spec_quoted, spec_special_value, spec_string_value, spec_value,
    spec_value_and_comma, Outcome,
};
use crate::json_layout::{lemma_array_layout, lemma_object_layout};
use crate::json_shape::{
    lemma_array_shape, lemma_element_parts, lemma_elements_begin, lemma_elements_step,
    lemma_first_chars, lemma_key_shape, lemma_member_head_shape, lemma_member_parts,
    lemma_members_begin, lemma_members_step, lemma_object_shape, lemma_quoted_shape,
    lemma_value_shape,
};
use crate::mapper::Mapper;
use crate::parser::{then, Match};
use crate::text::{
    first_occurrence, lemma_first_occurrence_is, lemma_occurs_chars, lemma_occurs_joined,
    lemma_occurs_one, lemma_run_end, lemma_run_end_is, lemma_run_end_through, lemma_run_end_twice,
    lemma_run_over_indent, occurs_at, run_end, space, spaces, CharClass,
};
use crate::utf8::lemma_repaired_plain;
use vstd::prelude::*;

verus! {

/// Whether a text holds no backslash, and so no escape.
pub open spec fn no_backslash(s: Seq<char>) -> bool {
    forall|i: int| 0 <= i < s.len() ==> #[trigger] s[i] != '\\'
}

/// A stretch between two quotes with no quote in between is matched as a string.
proof fn lemma_quoted_again(t: Seq<char>, q: int, n: int)
    requires
        0 <= q,
        2 <= n,
        q + n <= t.len(),
        t[q] == '"',
        t[q + n - 1] == '"',
        forall|i: int| q < i < q + n - 1 ==> #[trigger] t[i] != '"',
    ensures
        spec_quoted(t, q) == Some(Match { text: t.subrange(q, q + n), end: q + n }),
{
    reveal_strlit("\"");
    let quote = "\""@;
    assert(quote =~= seq!['"']);
    lemma_occurs_one(t, q, '"');
    let at = q + n - 1;
    lemma_occurs_one(t, at, '"');
    assert forall|i: int| q + 1 <= i < at implies !occurs_at(t, i, quote) by {
        lemma_occurs_one(t, i, '"');
    }
    lemma_first_occurrence_is(t, q + 1, quote, at);
    assert(first_occurrence(t, at, quote) == Some(at));
    let body = optional(|p: int| until(quote, t, p), q + 1);
    if at > q + 1 {
        assert(until(quote, t, q + 1) == Some(Match { text: t.subrange(q + 1, at), end: at }));
        assert(until(quote, t, at) is None);
        assert(body == Some(Match { text: t.subrange(q + 1, at), end: at }));
    } else {
        assert(until(quote, t, q + 1) is None);
        assert(body == Some(Match { text: Seq::<char>::empty(), end: at }));
    }
    assert(quote + (body->0.text + quote) =~= t.subrange(q, q + n));
}

/// A string value without a backslash is the string as it stands in the text.
proof fn lemma_string_plain(s: Seq<char>, pos: int)
    requires
        no_backslash(s),
    ensures
        spec_string_value(s, pos) == match spec_quoted(s, pos) {
            Some(raw) => Outcome::Matched(raw),
            None => Outcome::Mismatch,
        },
{
    lemma_quoted_shape(s, pos);
    if let Some(raw) = spec_quoted(s, pos) {
        assert(no_backslash(raw.text)) by {
            assert forall|i: int| 0 <= i < raw.text.len() implies #[trigger] raw.text[i]
                != '\\' by {
                assert(raw.text[i] == s[pos + i]);
            }
        }
        lemma_repaired_plain(raw.text);
    }
}

/// A string value that was matched in text without a backslash is matched
/// again wherever a text holds what it yielded.
proof fn lemma_string_again(s: Seq<char>, pos: int, t: Seq<char>, q: int)
    requires
        no_backslash(s),
        spec_string_value(s, pos) is Matched,
        0 <= q,
        occurs_at(t, q, spec_string_value(s, pos)->Matched_0.text),
    ensures
        spec_string_value(t, q) == Outcome::Matched(
            Match {
                text: spec_string_value(s, pos)->Matched_0.text,
                end: q + spec_string_value(s, pos)->Matched_0.text.len(),
            },
        ),
{
    lemma_string_plain(s, pos);
    lemma_quoted_shape(s, pos);
    let raw = spec_quoted(s, pos)->0;
    let n = raw.text.len() as int;
    lemma_occurs_chars(t, q, raw.text);
    assert(t[q] == raw.text[0]) by {
        assert(t[q + 0] == raw.text[0]);
    }
    assert(t[q + n - 1] == raw.text[n - 1]) by {
        assert(t[q + (n - 1)] == raw.text[n - 1]);
    }
    assert forall|i: int| q < i < q + n - 1 implies #[trigger] t[i] != '"' by {
        assert(t[q + (i - q)] == raw.text[i - q]);
        assert(raw.text[i - q] == s[pos + (i - q)]);
    }
    lemma_quoted_again(t, q, n);
    assert(no_backslash(raw.text)) by {
        assert forall|i: int| 0 <= i < raw.text.len() implies #[trigger] raw.text[i] != '\\' by {
            assert(raw.text[i] == s[pos + i]);
        }
    }
    lemma_repaired_plain(raw.text);
}

/// A stretch between two quotes with key characters in between is matched as a key.
proof fn lemma_key_again(t: Seq<char>, q: int, n: int)
    requires
        0 <= q,
        3 <= n,
        q + n <= t.len(),
        t[q] == '"',
        t[q + n - 1] == '"',
        !CharClass::KeyChar.includes('"'),
        forall|i: int| q < i < q + n - 1 ==> CharClass::KeyChar.includes(#[trigger] t[i]),
    ensures
        spec_key(t, q) == Some(Match { text: t.subrange(q, q + n), end: q + n }),
{
    reveal_strlit("\"");
    let quote = "\""@;
    assert(quote =~= seq!['"']);
    lemma_occurs_one(t, q, '"');
    lemma_occurs_one(t, q + n - 1, '"');
    lemma_run_end_is(CharClass::KeyChar, t, q + 1, n - 2);
    assert(quote + (t.subrange(q + 1, q + n - 1) + quote) =~= t.subrange(q, q + n));
}

/// A special value is matched again wherever a text holds it.
proof fn lemma_special_again(s: Seq<char>, pos: int, t: Seq<char>, q: int)
    requires
        spec_special_value(s, pos) is Some,
        0 <= q,
        occurs_at(t, q, spec_special_value(s, pos)->0.text),
    ensures
        spec_special_value(t, q) == Some(
            Match {
                text: spec_special_value(s, pos)->0.text,
                end: q + spec_special_value(s, pos)->0.text.len(),
            },
        ),
{
    reveal_strlit("true");
    reveal_strlit("TRUE");
    reveal_strlit("false");
    reveal_strlit("FALSE");
    reveal_strlit("null");
    reveal_strlit("NULL");
    let word = spec_special_value(s, pos)->0;
    lemma_occurs_chars(t, q, word.text);
    assert(t[q + 0] == word.text[0]);
    let first = t[q];
    assert forall|other: Seq<char>|
        other.len() > 0 && other[0] != first implies !#[trigger] occurs_at(t, q, other) by {
        if occurs_at(t, q, other) {
            lemma_occurs_chars(t, q, other);
            assert(t[q + 0] == other[0]);
        }
    }
}

/// The head of a member is matched again where a text holds a key, a colon
/// and white space, with white space of any length in front.
#[verifier::spinoff_prover]
#[verifier::rlimit(60)]
proof fn lemma_member_head_again(
    t: Seq<char>,
    q: int,
    at: int,
    key: Seq<char>,
    gap: Seq<char>,
)
    requires
        0 <= q <= at,
        run_end(space(), t, q) == at,
        occurs_at(t, at, key + seq![':'] + gap),
        key.len() >= 3,
        key[0] == '"',
        key.last() == '"',
        forall|i: int| 0 < i < key.len() - 1 ==> CharClass::KeyChar.includes(#[trigger] key[i]),
        !CharClass::KeyChar.includes('"'),
        !space().includes(':'),
        forall|i: int| 0 <= i < gap.len() ==> space().includes(#[trigger] gap[i]),
        at + key.len() + 1 + gap.len() == t.len() || !space().includes(
            t[at + key.len() + 1 + gap.len()],
        ),
    ensures
        spec_member_head(t, q) == Some(
            Match { text: key + seq![':'] + gap, end: at + key.len() + 1 + gap.len() },
        ),
{
    reveal_strlit(":");
    let colon = seq![':'];
    assert(":"@ =~= colon);
    let a1 = at + key.len();
    let a2 = a1 + 1;
    let a3 = a2 + gap.len();
    assert(key + colon + gap =~= key + (colon + gap));
    lemma_occurs_joined(t, at, key, colon + gap);
    lemma_occurs_joined(t, a1, colon, gap);
    lemma_occurs_chars(t, at, key);
    assert(t[at + 0] == key[0]);
    assert(t[at + (key.len() - 1)] == key[key.len() - 1]);
    assert forall|i: int| at < i < at + key.len() - 1 implies CharClass::KeyChar.includes(
        #[trigger] t[i],
    ) by {
        assert(t[at + (i - at)] == key[i - at]);
    }
    lemma_key_again(t, at, key.len() as int);
    assert(t.subrange(at, a1) == key);
    lemma_occurs_one(t, a1, ':');
    assert(run_end(space(), t, a1) == a1);
    lemma_occurs_chars(t, a2, gap);
    assert forall|i: int| a2 <= i < a2 + gap.len() implies space().includes(#[trigger] t[i]) by {
        assert(t[a2 + (i - a2)] == gap[i - a2]);
    }
    lemma_run_end_is(space(), t, a2, gap.len() as int);
    assert(t.subrange(a2, a3) == gap);
    let empty = Seq::<char>::empty();
    assert(empty + (key + (empty + (colon + gap))) =~= key + colon + gap);
}

/// The tail of a member or an element is matched again where a text holds
/// it and a line feed, and no comma stands behind the white space that
/// follows.
proof fn lemma_item_tail_again(t: Seq<char>, at: int, tail: Seq<char>)
    requires
        0 <= at,
        tail == Seq::<char>::empty() || tail == seq![','],
        occurs_at(t, at, tail + seq!['\n']),
        tail.len() > 0 ==> !space().includes(','),
        run_end(space(), t, at + tail.len() + 1) == t.len() || t[run_end(
            space(),
            t,
            at + tail.len() + 1,
        )] != ',',
    ensures
        spec_item_tail(t, at) matches Some(again) && again.text == tail && at <= again.end
            <= t.len() && run_end(space(), t, again.end) == run_end(
            space(),
            t,
            at + tail.len() + 1,
        ),
{
    reveal_strlit(",");
    assert(","@ =~= seq![',']);
    let feed = at + tail.len();
    lemma_occurs_joined(t, at, tail, seq!['\n']);
    lemma_occurs_one(t, feed, '\n');
    lemma_run_end(space(), t, feed + 1);
    let z = run_end(space(), t, feed + 1);
    assert(run_end(space(), t, feed) == z);
    lemma_run_end_twice(space(), t, feed + 1);
    lemma_occurs_one(t, z, ',');
    let empty = Seq::<char>::empty();
    if tail.len() > 0 {
        lemma_occurs_one(t, at, ',');
        assert(run_end(space(), t, at) == at);
        lemma_occurs_one(t, at + 1, ',');
        assert(empty + tail =~= tail);
    } else {
        assert(empty + empty =~= empty);
    }
}

/// The head of a member is matched again where a text holds the
/// indentation, the head and something that begins with no white space,
/// from any place in the white space in front.
#[verifier::spinoff_prover]
#[verifier::rlimit(60)]
proof fn lemma_member_head_placed(
    indent: nat,
    s: Seq<char>,
    pos: int,
    t: Seq<char>,
    line: int,
    q: int,
    rest: Seq<char>,
)
    requires
        spec_member_head(s, pos) is Some,
        0 <= q <= t.len(),
        0 <= line,
        run_end(space(), t, q) == run_end(space(), t, line),
        occurs_at(t, line, spaces(indent) + (spec_member_head(s, pos)->0.text + rest)),
        rest.len() > 0,
        !space().includes(rest[0]),
    ensures
        spec_member_head(t, q) == Some(
            Match {
                text: spec_member_head(s, pos)->0.text,
                end: line + indent + spec_member_head(s, pos)->0.text.len(),
            },
        ),
        occurs_at(t, line + indent + spec_member_head(s, pos)->0.text.len(), rest),
        q <= line + indent,
{
    let head = spec_member_head(s, pos)->0;
    lemma_member_head_shape(s, pos);
    let at1 = run_end(space(), s, pos);
    lemma_key_shape(s, at1);
    let key = spec_key(s, at1)->0;
    let at3 = run_end(space(), s, key.end);
    let gap = s.subrange(at3 + 1, head.end);
    let a0 = line + indent;
    let a3 = a0 + head.text.len();
    lemma_occurs_joined(t, line, spaces(indent), head.text + rest);
    lemma_occurs_joined(t, a0, head.text, rest);
    lemma_occurs_chars(t, a0, head.text);
    assert(t[a0 + 0] == head.text[0]);
    assert(head.text[0] == key.text[0]);
    lemma_run_over_indent(t, line, indent);
    lemma_run_end(space(), t, q);
    lemma_occurs_chars(t, a3, rest);
    assert(t[a3 + 0] == rest[0]);
    assert forall|i: int| 0 < i < key.text.len() - 1 implies CharClass::KeyChar.includes(
        #[trigger] key.text[i],
    ) by {
        assert(key.text[i] == s[at1 + i]);
    }
    assert forall|i: int| 0 <= i < gap.len() implies space().includes(#[trigger] gap[i]) by {
        assert(gap[i] == s[at3 + 1 + i]);
    }
    lemma_member_head_again(t, q, a0, key.text, gap);
}

/// A member is matched where its head, its value and its tail are matched
/// one behind the other.
proof fn lemma_member_assembled(
    mapper: Mapper,
    level: nat,
    t: Seq<char>,
    q: int,
    head: Match,
    value: Match,
    tail: Match,
)
    requires
        spec_member_head(t, q) == Some(head),
        spec_value(mapper, level, t, head.end) == Outcome::Matched(value),
        spec_item_tail(t, value.end) == Some(tail),
    ensures
        spec_key_and_value(mapper, level, t, q) == Outcome::Matched(
            Match { text: mapper.render(head.text + value.text + tail.text, level), end: tail.end },
        ),
{
}

/// A member that was matched in text without a backslash is matched again
/// where a text holds its line, from any place in the white space in front
/// of it, if no comma stands behind the white space that follows the line.
#[verifier::spinoff_prover]
#[verifier::rlimit(60)]
proof fn lemma_key_and_value_again(
    width: usize,
    level: nat,
    s: Seq<char>,
    pos: int,
    t: Seq<char>,
    line: int,
    q: int,
)
    requires
        no_backslash(s),
        spec_key_and_value(Mapper::Indent(width), level, s, pos) is Matched,
        0 <= q <= t.len(),
        0 <= line,
        run_end(space(), t, q) == run_end(space(), t, line),
        occurs_at(
            t,
            line,
            spec_key_and_value(Mapper::Indent(width), level, s, pos)->Matched_0.text,
        ),
        ({
            let member = spec_key_and_value(Mapper::Indent(width), level, s, pos)->Matched_0;
            let z = run_end(space(), t, line + member.text.len());
            z == t.len() || t[z] != ','
        }),
    ensures
        ({
            let member = spec_key_and_value(Mapper::Indent(width), level, s, pos)->Matched_0;
            &&& spec_key_and_value(Mapper::Indent(width), level, t, q) matches Outcome::Matched(
                again,
            )
            &&& again.text == member.text
            &&& q < again.end <= t.len()
            &&& run_end(space(), t, again.end) == run_end(space(), t, line + member.text.len())
        }),
    decreases s.len() - pos, 2nat,
{
    let mapper = Mapper::Indent(width);
    let indent = width as nat * level;
    let member = spec_key_and_value(mapper, level, s, pos)->Matched_0;
    let head = spec_member_head(s, pos)->0;
    let value = spec_value(mapper, level, s, head.end)->Matched_0;
    let tail = spec_item_tail(s, value.end)->0;
    let feed = seq!['\n'];
    lemma_member_parts(width, level, s, pos);
    let rest = value.text + (tail.text + feed);
    assert(rest[0] == value.text[0]);
    lemma_member_head_placed(indent, s, pos, t, line, q, rest);
    let a3 = line + indent + head.text.len();
    let a4 = a3 + value.text.len();
    lemma_occurs_joined(t, a3, value.text, tail.text + feed);
    lemma_occurs_chars(t, a4, tail.text + feed);
    assert(t[a4 + 0] == (tail.text + feed)[0]);
    assert(!CharClass::NumberChar.includes(t[a4]));
    lemma_value_again(width, level, s, head.end, t, a3);
    assert(a4 + tail.text.len() + 1 == line + member.text.len());
    lemma_item_tail_again(t, a4, tail.text);
    lemma_member_assembled(
        mapper,
        level,
        t,
        q,
        Match { text: head.text, end: a3 },
        Match { text: value.text, end: a4 },
        spec_item_tail(t, a4)->0,
    );
}

/// A value that was matched in text without a backslash is matched again
/// where a text holds what it yielded, if no digit and no dot follows.
#[verifier::spinoff_prover]
#[verifier::rlimit(60)]
proof fn lemma_value_again(
    width: usize,
    level: nat,
    s: Seq<char>,
    pos: int,
    t: Seq<char>,
    q: int,
)
    requires
        no_backslash(s),
        spec_value(Mapper::Indent(width), level, s, pos) is Matched,
        0 <= q,
        occurs_at(t, q, spec_value(Mapper::Indent(width), level, s, pos)->Matched_0.text),
        ({
            let value = spec_value(Mapper::Indent(width), level, s, pos)->Matched_0;
            q + value.text.len() == t.len() || !CharClass::NumberChar.includes(
                t[q + value.text.len()],
            )
        }),
    ensures
        ({
            let value = spec_value(Mapper::Indent(width), level, s, pos)->Matched_0;
            spec_value(Mapper::Indent(width), level, t, q) == Outcome::Matched(
                Match { text: value.text, end: q + value.text.len() },
            )
        }),
    decreases s.len() - pos, 1nat,
{
    let mapper = Mapper::Indent(width);
    let value = spec_value(mapper, level, s, pos)->Matched_0;
    lemma_value_shape(mapper, level, s, pos);
    lemma_occurs_chars(t, q, value.text);
    assert(t[q + 0] == value.text[0]);
    assert(t[q] == s[pos]);
    lemma_first_chars(mapper, level, s, pos);
    lemma_first_chars(mapper, level, t, q);
    lemma_string_plain(s, pos);
    if spec_string_value(s, pos) is Matched {
        lemma_string_again(s, pos, t, q);
    } else if run(CharClass::NumberChar, s, pos) is Some {
        lemma_number_again(s, pos, t, q);
    } else if spec_object(mapper, level, s, pos) is Matched {
        lemma_object_again(width, level, s, pos, t, q);
    } else if spec_array(mapper, level, s, pos) is Matched {
        lemma_array_again(width, level, s, pos, t, q);
    } else {
        lemma_special_again(s, pos, t, q);
    }
}

/// A number is matched again where a text holds it, if no digit and no dot follows.
proof fn lemma_number_again(s: Seq<char>, pos: int, t: Seq<char>, q: int)
    requires
        run(CharClass::NumberChar, s, pos) is Some,
        0 <= q,
        occurs_at(t, q, run(CharClass::NumberChar, s, pos)->0.text),
        ({
            let number = run(CharClass::NumberChar, s, pos)->0;
            q + number.text.len() == t.len() || !CharClass::NumberChar.includes(
                t[q + number.text.len()],
            )
        }),
    ensures
        ({
            let number = run(CharClass::NumberChar, s, pos)->0;
            run(CharClass::NumberChar, t, q) == Some(
                Match { text: number.text, end: q + number.text.len() },
            )
        }),
{
    let number = run(CharClass::NumberChar, s, pos)->0;
    lemma_run_not_empty(CharClass::NumberChar, s, pos);
    lemma_run_end(CharClass::NumberChar, s, pos);
    lemma_occurs_chars(t, q, number.text);
    assert forall|i: int| q <= i < q + number.text.len() implies CharClass::NumberChar.includes(
        #[trigger] t[i],
    ) by {
        assert(t[q + (i - q)] == number.text[i - q]);
        assert(number.text[i - q] == s[pos + (i - q)]);
    }
    lemma_run_end_is(CharClass::NumberChar, t, q, number.text.len() as int);
}

/// White space in front of a line runs up to the first character behind
/// the indentation of the line.
proof fn lemma_line_follows(t: Seq<char>, at: int, text: Seq<char>, indent: nat)
    requires
        0 <= at,
        occurs_at(t, at, text),
        text.len() > indent,
        text.subrange(0, indent as int) == spaces(indent),
        !space().includes(text[indent as int]),
    ensures
        run_end(space(), t, at) == at + indent,
        at + indent < t.len(),
        t[at + indent] == text[indent as int],
{
    lemma_occurs_chars(t, at, text);
    assert(t[at + indent] == text[indent as int]);
    assert forall|i: int| at <= i < at + indent implies space().includes(#[trigger] t[i]) by {
        assert(t[at + (i - at)] == text[i - at]);
        assert(text.subrange(0, indent as int)[i - at] == text[i - at]);
    }
    lemma_run_end_is(space(), t, at, indent as int);
}

/// The members of an object that were matched in text without a backslash
/// are matched again where a text holds their lines, from any place in the
/// white space in front of them, if a closing brace stands behind the white
/// space that follows the lines.
#[verifier::spinoff_prover]
#[verifier::rlimit(60)]
proof fn lemma_members_again(
    width: usize,
    level: nat,
    s: Seq<char>,
    pos: int,
    t: Seq<char>,
    line: int,
    q: int,
)
    requires
        no_backslash(s),
        0 <= pos <= s.len(),
        spec_members(Mapper::Indent(width), level, s, pos) is Matched,
        0 <= q <= t.len(),
        0 <= line,
        run_end(space(), t, q) == run_end(space(), t, line),
        occurs_at(t, line, spec_members(Mapper::Indent(width), level, s, pos)->Matched_0.text),
        !space().includes('}'),
        ({
            let members = spec_members(Mapper::Indent(width), level, s, pos)->Matched_0;
            let z = run_end(space(), t, line + members.text.len());
            z < t.len() && t[z] == '}'
        }),
    ensures
        ({
            let members = spec_members(Mapper::Indent(width), level, s, pos)->Matched_0;
            &&& spec_members(Mapper::Indent(width), level, t, q) matches Outcome::Matched(again)
            &&& again.text == members.text
            &&& q <= again.end <= t.len()
            &&& run_end(space(), t, again.end) == run_end(space(), t, line + members.text.len())
        }),
    decreases s.len() - pos, 3nat,
{
    let mapper = Mapper::Indent(width);
    let indent = width as nat * level;
    let members = spec_members(mapper, level, s, pos)->Matched_0;
    lemma_members_step(mapper, level, s, pos);
    if members.text.len() > 0 {
        let member = spec_key_and_value(mapper, level, s, pos)->Matched_0;
        let rest = spec_members(mapper, level, s, member.end)->Matched_0;
        let next = line + member.text.len();
        lemma_occurs_joined(t, line, member.text, rest.text);
        assert(next + rest.text.len() == line + members.text.len());
        if rest.text.len() > 0 {
            lemma_members_begin(width, level, s, member.end);
            lemma_line_follows(t, next, rest.text, indent);
        }
        lemma_key_and_value_again(width, level, s, pos, t, line, q);
        let again = spec_key_and_value(mapper, level, t, q)->Matched_0;
        lemma_members_again(width, level, s, member.end, t, next, again.end);
    } else {
        lemma_no_member_at_brace(mapper, level, t, q);
    }
}

/// Where a closing brace stands behind white space, no member begins.
proof fn lemma_no_member_at_brace(mapper: Mapper, level: nat, t: Seq<char>, q: int)
    requires
        0 <= q <= t.len(),
        run_end(space(), t, q) < t.len(),
        t[run_end(space(), t, q)] == '}',
    ensures
        spec_key_and_value(mapper, level, t, q) is Mismatch,
        spec_members(mapper, level, t, q) == Outcome::Matched(
            Match { text: Seq::empty(), end: q },
        ),
{
    reveal_strlit("\"");
    assert("\""@ =~= seq!['"']);
    let z = run_end(space(), t, q);
    lemma_occurs_one(t, z, '"');
    assert(spec_key(t, z) is None);
    assert(spec_member_head(t, q) is None);
}

/// The text of an object with its closing brace set on a line of its own.
proof fn lemma_object_closed(width: usize, level: nat, members: Seq<char>)
    ensures
        closed(Mapper::Indent(width), level, "{"@ + block(members) + "}"@, "}"@) == if members.len()
            == 0 {
            "{}"@
        } else {
            "{\n"@ + members + spaces(width as nat * level) + "}"@
        },
{
    reveal_strlit("{");
    reveal_strlit("}");
    reveal_strlit("{}");
    reveal_strlit("{\n");
    reveal_strlit("\n");
    let mapper = Mapper::Indent(width);
    let whole = "{"@ + block(members) + "}"@;
    if members.len() == 0 {
        assert(whole =~= "{}"@);
    } else {
        let last = mapper.render("}"@, level);
        assert(last.drop_last() =~= spaces(width as nat * level) + "}"@);
        assert(whole.drop_last() =~= "{\n"@ + members);
        assert(closed(mapper, level, whole, "}"@) =~= "{\n"@ + members + spaces(
            width as nat * level,
        ) + "}"@);
    }
}

/// An object is matched where a text holds its opening brace, its rows
/// are matched behind the white space that follows, and the closing
/// brace stands behind the white space that follows them.
proof fn lemma_object_assembled(
    mapper: Mapper,
    level: nat,
    t: Seq<char>,
    q: int,
    rows: Seq<char>,
    z: int,
)
    requires
        0 <= q < t.len(),
        t[q] == '{',
        spec_members(mapper, level + 1, t, run_end(space(), t, q + 1)) matches Outcome::Matched(again)
            && again.text == rows && run_end(space(), t, again.end) == z,
        0 <= z < t.len(),
        t[z] == '}',
        !space().includes('}'),
    ensures
        spec_object(mapper, level, t, q) == Outcome::Matched(
            Match { text: closed(mapper, level, "{"@ + block(rows) + "}"@, "}"@), end: z + 1 },
        ),
{
    reveal_strlit("{");
    reveal_strlit("}");
    assert("{"@ =~= seq!['{']);
    assert("}"@ =~= seq!['}']);
    let empty = Seq::<char>::empty();
    lemma_occurs_one(t, q, '{');
    lemma_occurs_one(t, z, '}');
    lemma_run_end_twice(space(), t, q + 1);
    let r = run_end(space(), t, q + 1);
    let again = spec_members(mapper, level + 1, t, r)->Matched_0;
    assert(run_end(space(), t, z) == z);
    assert(spec_object_content(mapper, level + 1, t, r) == Outcome::Matched(Match { text: block(rows), end: z }));
    assert("{"@ + empty =~= "{"@);
    assert(empty + "}"@ =~= "}"@);
}

/// An object that was matched in text without a backslash is matched again
/// where a text holds what it yielded.
#[verifier::spinoff_prover]
#[verifier::rlimit(60)]
proof fn lemma_object_again(
    width: usize,
    level: nat,
    s: Seq<char>,
    pos: int,
    t: Seq<char>,
    q: int,
)
    requires
        no_backslash(s),
        spec_object(Mapper::Indent(width), level, s, pos) is Matched,
        0 <= q,
        occurs_at(t, q, spec_object(Mapper::Indent(width), level, s, pos)->Matched_0.text),
    ensures
        ({
            let object = spec_object(Mapper::Indent(width), level, s, pos)->Matched_0;
            spec_object(Mapper::Indent(width), level, t, q) == Outcome::Matched(
                Match { text: object.text, end: q + object.text.len() },
            )
        }),
    decreases s.len() - pos, 0nat,
{
    reveal_strlit("{}");
    reveal_strlit("{\n");
    reveal_strlit("}");
    assert("}"@ =~= seq!['}']);
    let mapper = Mapper::Indent(width);
    let indent = width as nat * level;
    let object = spec_object(mapper, level, s, pos)->Matched_0;
    lemma_object_shape(mapper, level, s, pos);
    lemma_object_layout(width, level, s, pos);
    lemma_run_end(space(), s, pos + 1);
    lemma_run_end(space(), s, run_end(space(), s, pos + 1));
    let start = run_end(space(), s, run_end(space(), s, pos + 1));
    let rows = spec_members(mapper, level + 1, s, start)->Matched_0.text;
    lemma_occurs_chars(t, q, object.text);
    assert(t[q + 0] == object.text[0]);
    assert(t[q + 1] == object.text[1]);
    if rows.len() == 0 {
        assert(run_end(space(), t, q + 1) == q + 1);
        assert(occurs_at(t, q + 1, rows)) by {
            assert(t.subrange(q + 1, q + 1) =~= rows);
        }
        lemma_members_again(width, level + 1, s, start, t, q + 1, q + 1);
        lemma_object_assembled(mapper, level, t, q, rows, q + 1);
    } else {
        let first_line = q + 2;
        let closing = first_line + rows.len();
        assert(object.text =~= "{\n"@ + (rows + (spaces(indent) + "}"@)));
        lemma_occurs_joined(t, q, "{\n"@, rows + (spaces(indent) + "}"@));
        lemma_occurs_joined(t, first_line, rows, spaces(indent) + "}"@);
        lemma_occurs_joined(t, closing, spaces(indent), "}"@);
        lemma_occurs_one(t, closing + indent, '}');
        lemma_run_over_indent(t, closing, indent);
        lemma_run_end_through(space(), t, q + 1, 1);
        lemma_run_end(space(), t, first_line);
        lemma_run_end_twice(space(), t, first_line);
        let r = run_end(space(), t, first_line);
        lemma_members_again(width, level + 1, s, start, t, first_line, r);
        lemma_object_assembled(mapper, level, t, q, rows, closing + indent);
    }
    lemma_object_closed(width, level, rows);
}

/// An element is matched where its value and its tail are matched behind
/// the white space in front.
proof fn lemma_element_assembled(
    mapper: Mapper,
    level: nat,
    t: Seq<char>,
    q: int,
    value: Match,
    tail: Match,
)
    requires
        spec_value(mapper, level, t, run_end(space(), t, q)) == Outcome::Matched(value),
        spec_item_tail(t, value.end) == Some(tail),
    ensures
        spec_value_and_comma(mapper, level, t, q) == Outcome::Matched(
            Match { text: mapper.render(value.text + tail.text, level), end: tail.end },
        ),
{
}

/// An element that was matched in text without a backslash is matched again
/// where a text holds its line, from any place in the white space in front
/// of it, if no comma stands behind the white space that follows the line.
#[verifier::spinoff_prover]
#[verifier::rlimit(60)]
proof fn lemma_value_and_comma_again(
    width: usize,
    level: nat,
    s: Seq<char>,
    pos: int,
    t: Seq<char>,
    line: int,
    q: int,
)
    requires
        no_backslash(s),
        spec_value_and_comma(Mapper::Indent(width), level, s, pos) is Matched,
        0 <= q <= t.len(),
        0 <= line,
        run_end(space(), t, q) == run_end(space(), t, line),
        occurs_at(
            t,
            line,
            spec_value_and_comma(Mapper::Indent(width), level, s, pos)->Matched_0.text,
        ),
        ({
            let element = spec_value_and_comma(Mapper::Indent(width), level, s, pos)->Matched_0;
            let z = run_end(space(), t, line + element.text.len());
            z == t.len() || t[z] != ','
        }),
    ensures
        ({
            let element = spec_value_and_comma(Mapper::Indent(width), level, s, pos)->Matched_0;
            &&& spec_value_and_comma(Mapper::Indent(width), level, t, q) matches Outcome::Matched(
                again,
            )
            &&& again.text == element.text
            &&& q < again.end <= t.len()
            &&& run_end(space(), t, again.end) == run_end(space(), t, line + element.text.len())
        }),
    decreases s.len() - pos, 2nat,
{
    let mapper = Mapper::Indent(width);
    let indent = width as nat * level;
    let element = spec_value_and_comma(mapper, level, s, pos)->Matched_0;
    let start = run_end(space(), s, pos);
    let value = spec_value(mapper, level, s, start)->Matched_0;
    let tail = spec_item_tail(s, value.end)->0;
    let feed = seq!['\n'];
    lemma_element_parts(width, level, s, pos);
    let rest = value.text + (tail.text + feed);
    let a0 = line + indent;
    let a4 = a0 + value.text.len();
    lemma_occurs_joined(t, line, spaces(indent), rest);
    lemma_occurs_joined(t, a0, value.text, tail.text + feed);
    lemma_occurs_chars(t, a0, value.text);
    assert(t[a0 + 0] == value.text[0]);
    lemma_run_over_indent(t, line, indent);
    lemma_run_end(space(), t, q);
    lemma_occurs_chars(t, a4, tail.text + feed);
    assert(t[a4 + 0] == (tail.text + feed)[0]);
    assert(!CharClass::NumberChar.includes(t[a4]));
    lemma_value_again(width, level, s, start, t, a0);
    assert(a4 + tail.text.len() + 1 == line + element.text.len());
    lemma_item_tail_again(t, a4, tail.text);
    lemma_element_assembled(
        mapper,
        level,
        t,
        q,
        Match { text: value.text, end: a4 },
        spec_item_tail(t, a4)->0,
    );
}

/// Where a closing bracket stands, no value begins.
proof fn lemma_no_value_at_bracket(mapper: Mapper, level: nat, t: Seq<char>, at: int)
    requires
        0 <= at < t.len(),
        t[at] == ']',
    ensures
        spec_value(mapper, level, t, at) is Mismatch,
{
    lemma_first_chars(mapper, level, t, at);
}

/// The elements of an array that were matched in text without a backslash
/// are matched again where a text holds their lines, from any place in the
/// white space in front of them, if a closing bracket stands behind the
/// white space that follows the lines.
#[verifier::spinoff_prover]
#[verifier::rlimit(60)]
proof fn lemma_elements_again(
    width: usize,
    level: nat,
    s: Seq<char>,
    pos: int,
    t: Seq<char>,
    line: int,
    q: int,
)
    requires
        no_backslash(s),
        0 <= pos <= s.len(),
        spec_elements(Mapper::Indent(width), level, s, pos) is Matched,
        0 <= q <= t.len(),
        0 <= line,
        run_end(space(), t, q) == run_end(space(), t, line),
        occurs_at(t, line, spec_elements(Mapper::Indent(width), level, s, pos)->Matched_0.text),
        !space().includes(']'),
        ({
            let elements = spec_elements(Mapper::Indent(width), level, s, pos)->Matched_0;
            let z = run_end(space(), t, line + elements.text.len());
            z < t.len() && t[z] == ']'
        }),
    ensures
        ({
            let elements = spec_elements(Mapper::Indent(width), level, s, pos)->Matched_0;
            &&& spec_elements(Mapper::Indent(width), level, t, q) matches Outcome::Matched(again)
            &&& again.text == elements.text
            &&& q <= again.end <= t.len()
            &&& run_end(space(), t, again.end) == run_end(space(), t, line + elements.text.len())
        }),
    decreases s.len() - pos, 3nat,
{
    let mapper = Mapper::Indent(width);
    let indent = width as nat * level;
    let elements = spec_elements(mapper, level, s, pos)->Matched_0;
    lemma_elements_step(width, level, s, pos);
    if elements.text.len() > 0 {
        let element = spec_value_and_comma(mapper, level, s, pos)->Matched_0;
        let rest = spec_elements(mapper, level, s, element.end)->Matched_0;
        let next = line + element.text.len();
        lemma_occurs_joined(t, line, element.text, rest.text);
        assert(next + rest.text.len() == line + elements.text.len());
        if rest.text.len() > 0 {
            lemma_elements_begin(width, level, s, element.end);
            lemma_line_follows(t, next, rest.text, indent);
        }
        lemma_value_and_comma_again(width, level, s, pos, t, line, q);
        let again = spec_value_and_comma(mapper, level, t, q)->Matched_0;
        lemma_elements_again(width, level, s, element.end, t, next, again.end);
    } else {
        lemma_run_end(space(), t, q);
        lemma_no_value_at_bracket(mapper, level, t, run_end(space(), t, q));
    }
}

/// The text of an array with its closing bracket set on a line of its own.
proof fn lemma_array_closed(width: usize, level: nat, elements: Seq<char>)
    ensures
        closed(Mapper::Indent(width), level, "["@ + block(elements) + "]"@, "]"@) == if elements.len()
            == 0 {
            "[]"@
        } else {
            "[\n"@ + elements + spaces(width as nat * level) + "]"@
        },
{
    reveal_strlit("[");
    reveal_strlit("]");
    reveal_strlit("[]");
    reveal_strlit("[\n");
    reveal_strlit("\n");
    let mapper = Mapper::Indent(width);
    let whole = "["@ + block(elements) + "]"@;
    if elements.len() == 0 {
        assert(whole =~= "[]"@);
    } else {
        let last = mapper.render("]"@, level);
        assert(last.drop_last() =~= spaces(width as nat * level) + "]"@);
        assert(whole.drop_last() =~= "[\n"@ + elements);
        assert(closed(mapper, level, whole, "]"@) =~= "[\n"@ + elements + spaces(
            width as nat * level,
        ) + "]"@);
    }
}

/// An array is matched where a text holds its opening bracket, its rows
/// are matched behind the white space that follows, and the closing
/// bracket stands behind the white space that follows them.
proof fn lemma_array_assembled(
    mapper: Mapper,
    level: nat,
    t: Seq<char>,
    q: int,
    rows: Seq<char>,
    z: int,
)
    requires
        0 <= q < t.len(),
        t[q] == '[',
        spec_elements(mapper, level + 1, t, run_end(space(), t, q + 1)) matches Outcome::Matched(again)
            && again.text == rows && run_end(space(), t, again.end) == z,
        0 <= z < t.len(),
        t[z] == ']',
        !space().includes(']'),
    ensures
        spec_array(mapper, level, t, q) == Outcome::Matched(
            Match { text: closed(mapper, level, "["@ + block(rows) + "]"@, "]"@), end: z + 1 },
        ),
{
    reveal_strlit("[");
    reveal_strlit("]");
    assert("["@ =~= seq!['[']);
    assert("]"@ =~= seq![']']);
    let empty = Seq::<char>::empty();
    lemma_occurs_one(t, q, '[');
    lemma_occurs_one(t, z, ']');
    lemma_run_end_twice(space(), t, q + 1);
    let r = run_end(space(), t, q + 1);
    let again = spec_elements(mapper, level + 1, t, r)->Matched_0;
    assert(run_end(space(), t, z) == z);
    assert(spec_array_content(mapper, level + 1, t, r) == Outcome::Matched(Match { text: block(rows), end: again.end }));
    assert("["@ + empty =~= "["@);
    assert(empty + "]"@ =~= "]"@);
}

/// An array that was matched in text without a backslash is matched again
/// where a text holds what it yielded.
#[verifier::spinoff_prover]
#[verifier::rlimit(60)]
proof fn lemma_array_again(
    width: usize,
    level: nat,
    s: Seq<char>,
    pos: int,
    t: Seq<char>,
    q: int,
)
    requires
        no_backslash(s),
        spec_array(Mapper::Indent(width), level, s, pos) is Matched,
        0 <= q,
        occurs_at(t, q, spec_array(Mapper::Indent(width), level, s, pos)->Matched_0.text),
    ensures
        ({
            let array = spec_array(Mapper::Indent(width), level, s, pos)->Matched_0;
            spec_array(Mapper::Indent(width), level, t, q) == Outcome::Matched(
                Match { text: array.text, end: q + array.text.len() },
            )
        }),
    decreases s.len() - pos, 0nat,
{
    reveal_strlit("[]");
    reveal_strlit("[\n");
    reveal_strlit("]");
    assert("]"@ =~= seq![']']);
    let mapper = Mapper::Indent(width);
    let indent = width as nat * level;
    let array = spec_array(mapper, level, s, pos)->Matched_0;
    lemma_array_shape(mapper, level, s, pos);
    lemma_array_layout(width, level, s, pos);
    lemma_run_end(space(), s, pos + 1);
    lemma_run_end(space(), s, run_end(space(), s, pos + 1));
    let start = run_end(space(), s, pos + 1);
    let rows = spec_elements(mapper, level + 1, s, start)->Matched_0.text;
    lemma_occurs_chars(t, q, array.text);
    assert(t[q + 0] == array.text[0]);
    assert(t[q + 1] == array.text[1]);
    if rows.len() == 0 {
        assert(run_end(space(), t, q + 1) == q + 1);
        assert(occurs_at(t, q + 1, rows)) by {
            assert(t.subrange(q + 1, q + 1) =~= rows);
        }
        lemma_elements_again(width, level + 1, s, start, t, q + 1, q + 1);
        lemma_array_assembled(mapper, level, t, q, rows, q + 1);
    } else {
        let first_line = q + 2;
        let closing = first_line + rows.len();
        assert(array.text =~= "[\n"@ + (rows + (spaces(indent) + "]"@)));
        lemma_occurs_joined(t, q, "[\n"@, rows + (spaces(indent) + "]"@));
        lemma_occurs_joined(t, first_line, rows, spaces(indent) + "]"@);
        lemma_occurs_joined(t, closing, spaces(indent), "]"@);
        lemma_occurs_one(t, closing + indent, ']');
        lemma_run_over_indent(t, closing, indent);
        lemma_run_end_through(space(), t, q + 1, 1);
        lemma_run_end(space(), t, first_line);
        lemma_run_end_twice(space(), t, first_line);
        let r = run_end(space(), t, first_line);
        lemma_elements_again(width, level + 1, s, start, t, first_line, r);
        lemma_array_assembled(mapper, level, t, q, rows, closing + indent);
    }
    lemma_array_closed(width, level, rows);
}

/// In text without a backslash no value is malformed.
proof fn lemma_value_sound(mapper: Mapper, level: nat, s: Seq<char>, pos: int)
    requires
        no_backslash(s),
    ensures
        !(spec_value(mapper, level, s, pos) is Malformed),
    decreases s.len() - pos, 1nat,
{
    lemma_string_plain(s, pos);
    lemma_object_sound(mapper, level, s, pos);
    lemma_array_sound(mapper, level, s, pos);
}

/// In text without a backslash no member is malformed.
proof fn lemma_key_and_value_sound(mapper: Mapper, level: nat, s: Seq<char>, pos: int)
    requires
        no_backslash(s),
    ensures
        !(spec_key_and_value(mapper, level, s, pos) is Malformed),
    decreases s.len() - pos, 2nat,
{
    lemma_member_head_bounds(s, pos);
    if let Some(head) = spec_member_head(s, pos) {
        lemma_value_sound(mapper, level, s, head.end);
    }
}

/// In text without a backslash no row of members is malformed.
proof fn lemma_members_sound(mapper: Mapper, level: nat, s: Seq<char>, pos: int)
    requires
        no_backslash(s),
    ensures
        spec_members(mapper, level, s, pos) is Matched,
    decreases s.len() - pos, 3nat,
{
    lemma_key_and_value_sound(mapper, level, s, pos);
    if let Outcome::Matched(member) = spec_key_and_value(mapper, level, s, pos) {
        if pos < member.end <= s.len() {
            lemma_members_sound(mapper, level, s, member.end);
        }
    }
}

/// In text without a backslash no object is malformed.
proof fn lemma_object_sound(mapper: Mapper, level: nat, s: Seq<char>, pos: int)
    requires
        no_backslash(s),
    ensures
        !(spec_object(mapper, level, s, pos) is Malformed),
    decreases s.len() - pos, 0nat,
{
    reveal_strlit("{");
    if let Some(open) = then(literal("{"@, s, pos), |at1: int| skipped(space(), s, at1)) {
        lemma_run_end(space(), s, pos + 1);
        lemma_members_sound(mapper, level + 1, s, run_end(space(), s, open.end));
    }
}

/// In text without a backslash no element is malformed.
proof fn lemma_value_and_comma_sound(mapper: Mapper, level: nat, s: Seq<char>, pos: int)
    requires
        no_backslash(s),
    ensures
        !(spec_value_and_comma(mapper, level, s, pos) is Malformed),
    decreases s.len() - pos, 2nat,
{
    if 0 <= pos <= s.len() {
        lemma_run_end(space(), s, pos);
    }
    lemma_value_sound(mapper, level, s, run_end(space(), s, pos));
}

/// In text without a backslash no row of elements is malformed.
proof fn lemma_elements_sound(mapper: Mapper, level: nat, s: Seq<char>, pos: int)
    requires
        no_backslash(s),
    ensures
        spec_elements(mapper, level, s, pos) is Matched,
    decreases s.len() - pos, 3nat,
{
    lemma_value_and_comma_sound(mapper, level, s, pos);
    if let Outcome::Matched(element) = spec_value_and_comma(mapper, level, s, pos) {
        if pos < element.end <= s.len() {
            lemma_elements_sound(mapper, level, s, element.end);
        }
    }
}

/// In text without a backslash no array is malformed.
proof fn lemma_array_sound(mapper: Mapper, level: nat, s: Seq<char>, pos: int)
    requires
        no_backslash(s),
    ensures
        !(spec_array(mapper, level, s, pos) is Malformed),
    decreases s.len() - pos, 0nat,
{
    reveal_strlit("[");
    if let Some(open) = then(literal("["@, s, pos), |at1: int| skipped(space(), s, at1)) {
        lemma_run_end(space(), s, pos + 1);
        lemma_elements_sound(mapper, level + 1, s, open.end);
    }
}

/// Formatting again: a JSON document without a backslash, once formatted,
/// is left as it is by formatting it again with the same width.
pub proof fn lemma_format_again(body: Seq<char>, ident: usize)
    requires
        no_backslash(body),
    ensures
        crate::json::spec_format(body, ident) matches Some(once) && crate::json::spec_format(
            once,
            ident,
        ) == Some(once),
{
    let mapper = Mapper::Indent(ident);
    lemma_string_plain(body, 0);
    match spec_value(mapper, 0, body, 0) {
        Outcome::Matched(value) => {
            assert(value.text.subrange(0, value.text.len() as int) =~= value.text);
            lemma_value_again(ident, 0, body, 0, value.text, 0);
        },
        Outcome::Mismatch => {},
        Outcome::Malformed => {
            lemma_value_sound(mapper, 0, body, 0);
        },
    }
}

} // verus!
