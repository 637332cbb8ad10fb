//! The JSON grammar: keys, values, members, objects and arrays, each rule
//! at a nesting level and with the mapper that turns a member or an element
//! into a line.

use crate::combinators::{
    first_of, literal, optional, run, until, AnyChar, AnyExcept, Or, Then, ZeroOrOne,
};
use crate::error::FormatError;
use crate::grammar::{keep, kept, lit, skip, skipped};
use crate::mapper::Mapper;
use crate::parser::{or_else, then, Match, Parsed, Parser};
use crate::text::{lemma_run_end, run_end, tail_of, to_chars, to_string, CharClass};
use crate::utf8::{repaired, unescape_utf8};
use vstd::prelude::*;
use vstd::utf8::{decode_utf8, valid_utf8};

verus! {

/// What a rule of this grammar comes to at a position.
pub enum Outcome {
    /// It matched.
    Matched(Match),
    /// It did not match; nothing was consumed.
    Mismatch,
    /// A string matched, but the bytes that came of repairing its escapes
    /// are no text. This ends the whole attempt.
    Malformed,
}

/// The outcome of a rule that cannot end in `Malformed`.
pub open spec fn plain(m: Option<Match>) -> Outcome {
    match m {
        Some(m) => Outcome::Matched(m),
        None => Outcome::Mismatch,
    }
}

/// Two tries at one position: the second counts only where the first did not match.
pub open spec fn first(a: Outcome, b: Outcome) -> Outcome {
    if a is Mismatch {
        b
    } else {
        a
    }
}

/// A key: a quote, a run of key characters that is not empty, a quote.
pub open spec fn spec_key(s: Seq<char>, pos: int) -> Option<Match> {
    then(
        literal("\""@, s, pos),
        |at1: int| then(run(CharClass::KeyChar, s, at1), |at2: int| literal("\""@, s, at2)),
    )
}

/// One of the six words `true`, `TRUE`, `false`, `FALSE`, `null`, `NULL`.
pub open spec fn spec_special_value(s: Seq<char>, pos: int) -> Option<Match> {
    or_else(
        literal("true"@, s, pos),
        or_else(
            literal("TRUE"@, s, pos),
            or_else(
                literal("false"@, s, pos),
                or_else(
                    literal("FALSE"@, s, pos),
                    or_else(literal("null"@, s, pos), literal("NULL"@, s, pos)),
                ),
            ),
        ),
    )
}

/// A string as it stands in the text: a quote, what stands in front of the
/// next quote, and that quote.
pub open spec fn spec_quoted(s: Seq<char>, pos: int) -> Option<Match> {
    then(
        literal("\""@, s, pos),
        |at1: int|
            then(
                optional(|at: int| until("\""@, s, at), at1),
                |at2: int| literal("\""@, s, at2),
            ),
    )
}

/// A string value: a string as it stands in the text, quotes included, with
/// its escapes repaired.
pub open spec fn spec_string_value(s: Seq<char>, pos: int) -> Outcome {
    match spec_quoted(s, pos) {
        Some(m) => if valid_utf8(repaired(m.text)) {
            Outcome::Matched(Match { text: decode_utf8(repaired(m.text)), end: m.end })
        } else {
            Outcome::Malformed
        },
        None => Outcome::Mismatch,
    }
}

/// What a member begins with: white space that is dropped, the key, white
/// space that is dropped, a colon, and white space that is kept.
pub open spec fn spec_member_head(s: Seq<char>, pos: int) -> Option<Match> {
    then(
        skipped(CharClass::Whitespace, s, pos),
        |at1: int|
            then(
                spec_key(s, at1),
                |at2: int|
                    then(
                        skipped(CharClass::Whitespace, s, at2),
                        |at3: int|
                            then(literal(":"@, s, at3), |at4: int| kept(CharClass::Whitespace, s, at4)),
                    ),
            ),
    )
}

/// What a member or an element ends with: white space that is dropped, and
/// a comma or none.
pub open spec fn spec_item_tail(s: Seq<char>, pos: int) -> Option<Match> {
    then(
        skipped(CharClass::Whitespace, s, pos),
        |at1: int| optional(|at: int| literal(","@, s, at), at1),
    )
}

/// The text of an object or an array once its content is known. Where there
/// is content, the closing bracket moves to a line of its own, indented as
/// the mapper would indent it at `level`.
pub open spec fn closed(mapper: Mapper, level: nat, text: Seq<char>, bracket: Seq<char>) -> Seq<char> {
    if text.len() > 2 {
        text.drop_last() + mapper.render(bracket, level).drop_last()
    } else {
        text
    }
}

/// The text of a list of members or elements: a line feed in front of it,
/// unless it is empty.
pub open spec fn block(text: Seq<char>) -> Seq<char> {
    if text.len() != 0 {
        "\n"@ + text
    } else {
        text
    }
}

/// A key ends behind the position where it began.
pub proof fn lemma_key_bounds(s: Seq<char>, pos: int)
    ensures
        spec_key(s, pos) matches Some(m) ==> 0 <= pos && pos + 2 < m.end <= s.len(),
{
    reveal_strlit("\"");
    if 0 <= pos < s.len() {
        lemma_run_end(CharClass::KeyChar, s, pos + 1);
    }
}

/// The head of a member ends behind the position where it began.
pub proof fn lemma_member_head_bounds(s: Seq<char>, pos: int)
    ensures
        spec_member_head(s, pos) matches Some(m) ==> 0 <= pos < m.end <= s.len(),
{
    reveal_strlit(":");
    let at1 = run_end(CharClass::Whitespace, s, pos);
    if 0 <= pos <= s.len() {
        lemma_run_end(CharClass::Whitespace, s, pos);
    }
    lemma_key_bounds(s, at1);
    if let Some(key) = spec_key(s, at1) {
        let at3 = run_end(CharClass::Whitespace, s, key.end);
        lemma_run_end(CharClass::Whitespace, s, key.end);
        if 0 <= at3 < s.len() {
            lemma_run_end(CharClass::Whitespace, s, at3 + 1);
        }
    }
}

/// A value: a string, or a run of digits and dots, or an object, or an
/// array, or one of the special words; what stands first here and matches
/// decides.
pub open spec fn spec_value(mapper: Mapper, level: nat, s: Seq<char>, pos: int) -> Outcome
    decreases s.len() - pos, 1nat,
{
    first(
        spec_string_value(s, pos),
        first(
            plain(run(CharClass::NumberChar, s, pos)),
            first(
                spec_object(mapper, level, s, pos),
                first(spec_array(mapper, level, s, pos), plain(spec_special_value(s, pos))),
            ),
        ),
    )
}

/// A member of an object: head, value and tail, handed on by the mapper as
/// one piece at the member's level.
pub open spec fn spec_key_and_value(mapper: Mapper, level: nat, s: Seq<char>, pos: int) -> Outcome
    decreases s.len() - pos, 2nat,
{
    match spec_member_head(s, pos) {
        Some(head) => {
            proof {
                lemma_member_head_bounds(s, pos);
            }
            match spec_value(mapper, level, s, head.end) {
                Outcome::Matched(value) => match spec_item_tail(s, value.end) {
                    Some(tail) => Outcome::Matched(
                        Match {
                            text: mapper.render(head.text + value.text + tail.text, level),
                            end: tail.end,
                        },
                    ),
                    None => Outcome::Mismatch,
                },
                other => other,
            }
        },
        None => Outcome::Mismatch,
    }
}

/// The members of an object, as many as there are in a row. A member that
/// does not move on would end the row; no member does that.
pub open spec fn spec_members(mapper: Mapper, level: nat, s: Seq<char>, pos: int) -> Outcome
    decreases s.len() - pos, 3nat,
{
    match spec_key_and_value(mapper, level, s, pos) {
        Outcome::Matched(member) => if pos < member.end <= s.len() {
            match spec_members(mapper, level, s, member.end) {
                Outcome::Matched(more) => Outcome::Matched(
                    Match { text: member.text + more.text, end: more.end },
                ),
                other => other,
            }
        } else {
            Outcome::Matched(Match { text: Seq::empty(), end: pos })
        },
        Outcome::Mismatch => Outcome::Matched(Match { text: Seq::empty(), end: pos }),
        Outcome::Malformed => Outcome::Malformed,
    }
}

/// What stands between the braces of an object: its members with white space
/// round them dropped, as a block.
pub open spec fn spec_object_content(mapper: Mapper, level: nat, s: Seq<char>, pos: int) -> Outcome
    decreases s.len() - pos, 4nat,
{
    proof {
        if 0 <= pos <= s.len() {
            lemma_run_end(CharClass::Whitespace, s, pos);
        }
    }
    match spec_members(mapper, level, s, run_end(CharClass::Whitespace, s, pos)) {
        Outcome::Matched(members) => Outcome::Matched(
            Match { text: block(members.text), end: run_end(CharClass::Whitespace, s, members.end) },
        ),
        other => other,
    }
}

/// An object: a brace, the content one level deeper, and the closing brace,
/// with white space round the content dropped.
pub open spec fn spec_object(mapper: Mapper, level: nat, s: Seq<char>, pos: int) -> Outcome
    decreases s.len() - pos, 0nat,
{
    match then(literal("{"@, s, pos), |at1: int| skipped(CharClass::Whitespace, s, at1)) {
        Some(open) => {
            proof {
                reveal_strlit("{");
                if 0 <= pos < s.len() {
                    lemma_run_end(CharClass::Whitespace, s, pos + 1);
                }
            }
            match spec_object_content(mapper, level + 1, s, open.end) {
                Outcome::Matched(content) => match then(
                    skipped(CharClass::Whitespace, s, content.end),
                    |at2: int| literal("}"@, s, at2),
                ) {
                    Some(close) => Outcome::Matched(
                        Match {
                            text: closed(mapper, level, "{"@ + content.text + "}"@, "}"@),
                            end: close.end,
                        },
                    ),
                    None => Outcome::Mismatch,
                },
                other => other,
            }
        },
        None => Outcome::Mismatch,
    }
}

/// An element of an array: a value and a tail, with white space in front of
/// the value dropped, handed on by the mapper as one piece at the element's
/// level.
pub open spec fn spec_value_and_comma(mapper: Mapper, level: nat, s: Seq<char>, pos: int) -> Outcome
    decreases s.len() - pos, 2nat,
{
    proof {
        if 0 <= pos <= s.len() {
            lemma_run_end(CharClass::Whitespace, s, pos);
        }
    }
    match spec_value(mapper, level, s, run_end(CharClass::Whitespace, s, pos)) {
        Outcome::Matched(value) => match spec_item_tail(s, value.end) {
            Some(tail) => Outcome::Matched(
                Match { text: mapper.render(value.text + tail.text, level), end: tail.end },
            ),
            None => Outcome::Mismatch,
        },
        other => other,
    }
}

/// The elements of an array, as many as there are in a row. An element that
/// does not move on would end the row; no element does that.
pub open spec fn spec_elements(mapper: Mapper, level: nat, s: Seq<char>, pos: int) -> Outcome
    decreases s.len() - pos, 3nat,
{
    match spec_value_and_comma(mapper, level, s, pos) {
        Outcome::Matched(element) => if pos < element.end <= s.len() {
            match spec_elements(mapper, level, s, element.end) {
                Outcome::Matched(more) => Outcome::Matched(
                    Match { text: element.text + more.text, end: more.end },
                ),
                other => other,
            }
        } else {
            Outcome::Matched(Match { text: Seq::empty(), end: pos })
        },
        Outcome::Mismatch => Outcome::Matched(Match { text: Seq::empty(), end: pos }),
        Outcome::Malformed => Outcome::Malformed,
    }
}

/// What stands between the brackets of an array: its elements, as a block.
pub open spec fn spec_array_content(mapper: Mapper, level: nat, s: Seq<char>, pos: int) -> Outcome
    decreases s.len() - pos, 4nat,
{
    match spec_elements(mapper, level, s, pos) {
        Outcome::Matched(elements) => Outcome::Matched(
            Match { text: block(elements.text), end: elements.end },
        ),
        other => other,
    }
}

/// An array: a bracket, the content one level deeper, and the closing
/// bracket, with white space round the content dropped.
pub open spec fn spec_array(mapper: Mapper, level: nat, s: Seq<char>, pos: int) -> Outcome
    decreases s.len() - pos, 0nat,
{
    match then(literal("["@, s, pos), |at1: int| skipped(CharClass::Whitespace, s, at1)) {
        Some(open) => {
            proof {
                reveal_strlit("[");
                if 0 <= pos < s.len() {
                    lemma_run_end(CharClass::Whitespace, s, pos + 1);
                }
            }
            match spec_array_content(mapper, level + 1, s, open.end) {
                Outcome::Matched(content) => match then(
                    skipped(CharClass::Whitespace, s, content.end),
                    |at2: int| literal("]"@, s, at2),
                ) {
                    Some(close) => Outcome::Matched(
                        Match {
                            text: closed(mapper, level, "["@ + content.text + "]"@, "]"@),
                            end: close.end,
                        },
                    ),
                    None => Outcome::Mismatch,
                },
                other => other,
            }
        },
        None => Outcome::Mismatch,
    }
}

/// Why a rule of this grammar did not hand back text.
#[derive(Debug)]
pub enum Failure {
    /// The rule did not match.
    Mismatch,
    /// A string matched, but repairing its escapes failed.
    Encoding(FormatError),
}

/// Whether what a rule returned is the outcome that its meaning asks for.
pub open spec fn tallies(r: Result<Option<Parsed>, FormatError>, o: Outcome) -> bool {
    match r {
        Ok(Some(p)) => o == Outcome::Matched(p@),
        Ok(None) => o is Mismatch,
        Err(_) => o is Malformed,
    }
}

/// Whether a pair of result and remainder reports the outcome `o` of a rule
/// that was tried at the start of `input`: on a match, the text and what is
/// left of the input behind it; else the kind of failure and the whole input.
pub open spec fn reports_outcome(
    res: (Result<String, Failure>, &str),
    input: Seq<char>,
    o: Outcome,
) -> bool {
    match o {
        Outcome::Matched(m) => res.0 matches Ok(text) && text@ == m.text && res.1@ == input.skip(
            m.end,
        ),
        Outcome::Mismatch => res.0 matches Err(Failure::Mismatch) && res.1@ == input,
        Outcome::Malformed => res.0 matches Err(Failure::Encoding(_)) && res.1@ == input,
    }
}

/// Turns what a rule returned for the start of `in_string` into a result and a remainder.
fn report<'b>(r: Result<Option<Parsed>, FormatError>, in_string: &'b str) -> (res: (
    Result<String, Failure>,
    &'b str,
))
    requires
        r matches Ok(Some(p)) ==> p.end <= in_string@.len(),
    ensures
        forall|o: Outcome| tallies(r, o) ==> reports_outcome(res, in_string@, o),
{
    match r {
        Ok(Some(p)) => (Ok(to_string(p.text.as_slice())), tail_of(in_string, p.end)),
        Ok(None) => (Err(Failure::Mismatch), in_string),
        Err(err) => (Err(Failure::Encoding(err)), in_string),
    }
}

/// The key of a member.
pub struct Key {}

impl Key {
    /// A new rule of this kind.
    pub fn new() -> (r: Self) {
        Self {  }
    }
}

impl Parser for Key {
    open spec fn wf(&self) -> bool {
        true
    }

    open spec fn spec_parse(&self, s: Seq<char>, pos: int) -> Option<Match> {
        spec_key(s, pos)
    }

    proof fn lemma_bounds(&self, s: Seq<char>, pos: int) {
        lemma_key_bounds(s, pos);
    }

    fn parse_at(&self, input: &[char], pos: usize) -> (r: Option<Parsed>) {
        let start = lit("\"");
        let end = lit("\"");
        let obj = Then::new(start, Then::new(AnyChar::new(CharClass::KeyChar), end));
        obj.parse_at(input, pos)
    }
}

/// One of the words that stand for themselves.
pub struct SpecialValue {}

impl SpecialValue {
    /// A new rule of this kind.
    pub fn new() -> (r: Self) {
        Self {  }
    }
}

impl Parser for SpecialValue {
    open spec fn wf(&self) -> bool {
        true
    }

    open spec fn spec_parse(&self, s: Seq<char>, pos: int) -> Option<Match> {
        spec_special_value(s, pos)
    }

    proof fn lemma_bounds(&self, s: Seq<char>, pos: int) {
    }

    fn parse_at(&self, input: &[char], pos: usize) -> (r: Option<Parsed>) {
        let mut p = Or::new();
        p.add_parser(lit("true"));
        p.add_parser(lit("TRUE"));
        p.add_parser(lit("false"));
        p.add_parser(lit("FALSE"));
        p.add_parser(lit("null"));
        p.add_parser(lit("NULL"));
        proof {
            reveal_with_fuel(first_of, 7);
            let rules = p.list@;
            assert(rules.drop_first().drop_first().drop_first().drop_first().drop_first().len()
                == 1);
        }
        p.parse_at(input, pos)
    }
}

/// A string value.
pub struct StringValue {}

impl StringValue {
    /// A new rule of this kind.
    pub fn new() -> (r: Self) {
        Self {  }
    }

    /// Tries the rule on `input` at `pos`.
    pub fn parse_at(&self, input: &[char], pos: usize) -> (r: Result<Option<Parsed>, FormatError>)
        requires
            pos <= input.len(),
        ensures
            tallies(r, spec_string_value(input@, pos as int)),
            r matches Ok(Some(p)) ==> pos < p.end <= input.len(),
    {
        let start = lit("\"");
        let end = lit("\"");
        let p = Then::new(start, Then::new(ZeroOrOne::new(AnyExcept::new("\"".to_owned())), end));
        proof {
            reveal_strlit("\"");
        }
        match p.parse_at(input, pos) {
            Some(quoted) => {
                let raw = to_string(quoted.text.as_slice());
                match unescape_utf8(raw.as_str()) {
                    Ok(text) => Ok(Some(Parsed { text: to_chars(text.as_str()), end: quoted.end })),
                    Err(err) => Err(err),
                }
            },
            None => Ok(None),
        }
    }

    /// Tries the rule at the start of `in_string`. A failure hands the whole
    /// of `in_string` back as the remainder.
    pub fn parse<'b>(&self, in_string: &'b str) -> (res: (Result<String, Failure>, &'b str))
        ensures
            reports_outcome(res, in_string@, spec_string_value(in_string@, 0)),
            res.0 is Err ==> res.1@ == in_string@,
    {
        let input = to_chars(in_string);
        report(self.parse_at(input.as_slice(), 0), in_string)
    }
}

/// An outcome with `text` in front of what it matched.
pub open spec fn prefixed(text: Seq<char>, o: Outcome) -> Outcome {
    match o {
        Outcome::Matched(m) => Outcome::Matched(Match { text: text + m.text, end: m.end }),
        other => other,
    }
}

/// A value of any of the five kinds.
pub struct Value<'a> {
    pub mapper: &'a Mapper,
    pub level: usize,
}

/// A member of an object: a key with its value.
pub struct KeyAndValue<'a> {
    pub mapper: &'a Mapper,
    pub level: usize,
}

/// An object.
pub struct Object<'a> {
    pub mapper: &'a Mapper,
    pub level: usize,
}

/// The members between the braces of an object.
pub struct ObjectContent<'a> {
    pub mapper: &'a Mapper,
    pub level: usize,
}

/// An element of an array: a value with the comma behind it, if there is one.
pub struct ValueAndComma<'a> {
    pub mapper: &'a Mapper,
    pub level: usize,
}

/// The elements between the brackets of an array.
pub struct ArrayContent<'a> {
    pub mapper: &'a Mapper,
    pub level: usize,
}

/// An array.
pub struct Array<'a> {
    pub mapper: &'a Mapper,
    pub level: usize,
}

/// Sets the closing bracket of an object or an array on a line of its own,
/// where there is anything between the brackets.
fn close(mapper: &Mapper, level: usize, text: Vec<char>, bracket: &str) -> (out: Vec<char>)
    requires
        bracket@.len() == 1,
    ensures
        out@ == closed(*mapper, level as nat, text@, bracket@),
{
    let res_len = text.len();
    if res_len > 2 {
        let mut out = text;
        let mut last_str = mapper.apply(to_chars(bracket).as_slice(), level);
        out.pop();
        last_str.pop();
        out.append(&mut last_str);
        out
    } else {
        text
    }
}

/// Sets a line feed in front of a list of members or elements that is not empty.
fn open_block(text: Vec<char>) -> (out: Vec<char>)
    ensures
        out@ == block(text@),
{
    if text.len() != 0 {
        let mut out = to_chars("\n");
        let mut text = text;
        out.append(&mut text);
        out
    } else {
        text
    }
}

impl<'a> Value<'a> {
    /// A new rule of this kind.
    pub fn new(mapper: &'a Mapper, level: usize) -> (r: Self)
        ensures
            r.mapper == mapper,
            r.level == level,
    {
        Self { mapper, level }
    }

    /// Tries the rule on `input` at `pos`.
    pub fn parse_at(&self, input: &[char], pos: usize) -> (r: Result<Option<Parsed>, FormatError>)
        requires
            pos <= input.len(),
            self.level + (input.len() - pos) <= usize::MAX,
        ensures
            tallies(r, spec_value(*self.mapper, self.level as nat, input@, pos as int)),
            r matches Ok(Some(p)) ==> pos < p.end <= input.len(),
        decreases input.len() - pos, 1nat,
    {
        match StringValue::new().parse_at(input, pos) {
            Ok(None) => {},
            other => return other,
        }
        match AnyChar::new(CharClass::NumberChar).parse_at(input, pos) {
            Some(number) => return Ok(Some(number)),
            None => {},
        }
        match Object::new(self.mapper, self.level).parse_at(input, pos) {
            Ok(None) => {},
            other => return other,
        }
        match Array::new(self.mapper, self.level).parse_at(input, pos) {
            Ok(None) => {},
            other => return other,
        }
        proof {
            reveal_strlit("true");
            reveal_strlit("TRUE");
            reveal_strlit("false");
            reveal_strlit("FALSE");
            reveal_strlit("null");
            reveal_strlit("NULL");
        }
        Ok(SpecialValue::new().parse_at(input, pos))
    }

    /// Tries the rule at the start of `in_string`. A failure hands the whole
    /// of `in_string` back as the remainder.
    pub fn parse<'b>(&self, in_string: &'b str) -> (res: (Result<String, Failure>, &'b str))
        requires
            self.level + in_string@.len() <= usize::MAX,
        ensures
            reports_outcome(
                res,
                in_string@,
                spec_value(*self.mapper, self.level as nat, in_string@, 0),
            ),
            res.0 is Err ==> res.1@ == in_string@,
    {
        let input = to_chars(in_string);
        report(self.parse_at(input.as_slice(), 0), in_string)
    }
}

impl<'a> KeyAndValue<'a> {
    /// A new rule of this kind.
    pub fn new(mapper: &'a Mapper, level: usize) -> (r: Self)
        ensures
            r.mapper == mapper,
            r.level == level,
    {
        Self { level, mapper }
    }

    /// Tries the rule on `input` at `pos`.
    pub fn parse_at(&self, input: &[char], pos: usize) -> (r: Result<Option<Parsed>, FormatError>)
        requires
            pos <= input.len(),
            self.level + (input.len() - pos) <= usize::MAX,
        ensures
            tallies(r, spec_key_and_value(*self.mapper, self.level as nat, input@, pos as int)),
            r matches Ok(Some(p)) ==> pos < p.end <= input.len(),
        decreases input.len() - pos, 2nat,
    {
        let head = Then::new(
            skip(CharClass::Whitespace),
            Then::new(
                Key::new(),
                Then::new(
                    skip(CharClass::Whitespace),
                    Then::new(lit(":"), keep(CharClass::Whitespace)),
                ),
            ),
        );
        let tail = Then::new(skip(CharClass::Whitespace), ZeroOrOne::new(lit(",")));
        proof {
            lemma_member_head_bounds(input@, pos as int);
        }
        let begun = match head.parse_at(input, pos) {
            Some(p) => p,
            None => return Ok(None),
        };
        let value = match Value::new(self.mapper, self.level).parse_at(input, begun.end) {
            Ok(Some(p)) => p,
            other => return other,
        };
        let ended = match tail.parse_at(input, value.end) {
            Some(p) => p,
            None => return Ok(None),
        };
        let mut r = begun.text;
        let mut value_text = value.text;
        let mut tail_text = ended.text;
        r.append(&mut value_text);
        r.append(&mut tail_text);
        let r1 = self.mapper.apply(r.as_slice(), self.level);
        Ok(Some(Parsed { text: r1, end: ended.end }))
    }

    /// Tries the rule at the start of `in_string`. A failure hands the whole
    /// of `in_string` back as the remainder.
    pub fn parse<'b>(&self, in_string: &'b str) -> (res: (Result<String, Failure>, &'b str))
        requires
            self.level + in_string@.len() <= usize::MAX,
        ensures
            reports_outcome(
                res,
                in_string@,
                spec_key_and_value(*self.mapper, self.level as nat, in_string@, 0),
            ),
            res.0 is Err ==> res.1@ == in_string@,
    {
        let input = to_chars(in_string);
        report(self.parse_at(input.as_slice(), 0), in_string)
    }
}

impl<'a> Object<'a> {
    /// A new rule of this kind.
    pub fn new(mapper: &'a Mapper, level: usize) -> (r: Self)
        ensures
            r.mapper == mapper,
            r.level == level,
    {
        Self { mapper, level }
    }

    /// Tries the rule on `input` at `pos`.
    pub fn parse_at(&self, input: &[char], pos: usize) -> (r: Result<Option<Parsed>, FormatError>)
        requires
            pos <= input.len(),
            self.level + (input.len() - pos) <= usize::MAX,
        ensures
            tallies(r, spec_object(*self.mapper, self.level as nat, input@, pos as int)),
            r matches Ok(Some(p)) ==> pos < p.end <= input.len(),
        decreases input.len() - pos, 0nat,
    {
        let opening = Then::new(lit("{"), skip(CharClass::Whitespace));
        let closing = Then::new(skip(CharClass::Whitespace), lit("}"));
        proof {
            reveal_strlit("{");
            reveal_strlit("}");
            if pos < input.len() {
                lemma_run_end(CharClass::Whitespace, input@, pos + 1);
            }
        }
        let begun = match opening.parse_at(input, pos) {
            Some(p) => p,
            None => return Ok(None),
        };
        let content = match ObjectContent::new(self.mapper, self.level + 1).parse_at(
            input,
            begun.end,
        ) {
            Ok(Some(p)) => p,
            other => return other,
        };
        let ended = match closing.parse_at(input, content.end) {
            Some(p) => p,
            None => return Ok(None),
        };
        let mut r = begun.text;
        let mut content_text = content.text;
        let mut closing_text = ended.text;
        r.append(&mut content_text);
        r.append(&mut closing_text);
        let r1 = close(self.mapper, self.level, r, "}");
        Ok(Some(Parsed { text: r1, end: ended.end }))
    }

    /// Tries the rule at the start of `in_string`. A failure hands the whole
    /// of `in_string` back as the remainder.
    pub fn parse<'b>(&self, in_string: &'b str) -> (res: (Result<String, Failure>, &'b str))
        requires
            self.level + in_string@.len() <= usize::MAX,
        ensures
            reports_outcome(
                res,
                in_string@,
                spec_object(*self.mapper, self.level as nat, in_string@, 0),
            ),
            res.0 is Err ==> res.1@ == in_string@,
    {
        let input = to_chars(in_string);
        report(self.parse_at(input.as_slice(), 0), in_string)
    }
}

impl<'a> ObjectContent<'a> {
    /// A new rule of this kind.
    pub fn new(mapper: &'a Mapper, level: usize) -> (r: Self)
        ensures
            r.mapper == mapper,
            r.level == level,
    {
        Self { mapper, level }
    }

    /// Tries the rule on `input` at `pos`.
    pub fn parse_at(&self, input: &[char], pos: usize) -> (r: Result<Option<Parsed>, FormatError>)
        requires
            pos <= input.len(),
            self.level + (input.len() - pos) <= usize::MAX,
        ensures
            tallies(r, spec_object_content(*self.mapper, self.level as nat, input@, pos as int)),
            r matches Ok(Some(p)) ==> pos <= p.end <= input.len(),
        decreases input.len() - pos, 4nat,
    {
        let space = skip(CharClass::Whitespace);
        let start = match space.parse_at(input, pos) {
            Some(p) => p.end,
            None => return Ok(None),
        };
        let mut rest: usize = start;
        let mut res: Vec<char> = Vec::new();
        loop
            invariant
                pos <= start <= rest <= input.len(),
                start == run_end(CharClass::Whitespace, input@, pos as int),
                self.level + (input.len() - pos) <= usize::MAX,
                spec_members(*self.mapper, self.level as nat, input@, start as int) == prefixed(
                    res@,
                    spec_members(*self.mapper, self.level as nat, input@, rest as int),
                ),
            ensures
                start <= rest <= input.len(),
                spec_members(*self.mapper, self.level as nat, input@, start as int)
                    == Outcome::Matched(Match { text: res@, end: rest as int }),
            decreases input.len() - rest,
        {
            match KeyAndValue::new(self.mapper, self.level).parse_at(input, rest) {
                Ok(Some(member)) => {
                    let mut text = member.text;
                    proof {
                        let more = spec_members(
                            *self.mapper,
                            self.level as nat,
                            input@,
                            member.end as int,
                        );
                        if let Outcome::Matched(m) = more {
                            assert(res@ + (text@ + m.text) =~= (res@ + text@) + m.text);
                        }
                    }
                    res.append(&mut text);
                    rest = member.end;
                },
                Ok(None) => {
                    assert(res@ + Seq::<char>::empty() =~= res@);
                    break ;
                },
                Err(err) => {
                    assert(spec_members(*self.mapper, self.level as nat, input@, rest as int)
                        is Malformed);
                    return Err(err);
                },
            }
        }
        let end = match space.parse_at(input, rest) {
            Some(p) => p.end,
            None => return Ok(None),
        };
        Ok(Some(Parsed { text: open_block(res), end }))
    }

    /// Tries the rule at the start of `in_string`. A failure hands the whole
    /// of `in_string` back as the remainder.
    pub fn parse<'b>(&self, in_string: &'b str) -> (res: (Result<String, Failure>, &'b str))
        requires
            self.level + in_string@.len() <= usize::MAX,
        ensures
            reports_outcome(
                res,
                in_string@,
                spec_object_content(*self.mapper, self.level as nat, in_string@, 0),
            ),
            res.0 is Err ==> res.1@ == in_string@,
    {
        let input = to_chars(in_string);
        report(self.parse_at(input.as_slice(), 0), in_string)
    }
}

impl<'a> ValueAndComma<'a> {
    /// A new rule of this kind.
    pub fn new(mapper: &'a Mapper, level: usize) -> (r: Self)
        ensures
            r.mapper == mapper,
            r.level == level,
    {
        Self { mapper, level }
    }

    /// Tries the rule on `input` at `pos`.
    pub fn parse_at(&self, input: &[char], pos: usize) -> (r: Result<Option<Parsed>, FormatError>)
        requires
            pos <= input.len(),
            self.level + (input.len() - pos) <= usize::MAX,
        ensures
            tallies(r, spec_value_and_comma(*self.mapper, self.level as nat, input@, pos as int)),
            r matches Ok(Some(p)) ==> pos < p.end <= input.len(),
        decreases input.len() - pos, 2nat,
    {
        let tail = Then::new(skip(CharClass::Whitespace), ZeroOrOne::new(lit(",")));
        let start = match skip(CharClass::Whitespace).parse_at(input, pos) {
            Some(p) => p.end,
            None => return Ok(None),
        };
        let value = match Value::new(self.mapper, self.level).parse_at(input, start) {
            Ok(Some(p)) => p,
            other => return other,
        };
        let ended = match tail.parse_at(input, value.end) {
            Some(p) => p,
            None => return Ok(None),
        };
        let mut r = value.text;
        let mut tail_text = ended.text;
        r.append(&mut tail_text);
        Ok(Some(Parsed { text: self.mapper.apply(r.as_slice(), self.level), end: ended.end }))
    }

    /// Tries the rule at the start of `in_string`. A failure hands the whole
    /// of `in_string` back as the remainder.
    pub fn parse<'b>(&self, in_string: &'b str) -> (res: (Result<String, Failure>, &'b str))
        requires
            self.level + in_string@.len() <= usize::MAX,
        ensures
            reports_outcome(
                res,
                in_string@,
                spec_value_and_comma(*self.mapper, self.level as nat, in_string@, 0),
            ),
            res.0 is Err ==> res.1@ == in_string@,
    {
        let input = to_chars(in_string);
        report(self.parse_at(input.as_slice(), 0), in_string)
    }
}

impl<'a> ArrayContent<'a> {
    /// A new rule of this kind.
    pub fn new(mapper: &'a Mapper, level: usize) -> (r: Self)
        ensures
            r.mapper == mapper,
            r.level == level,
    {
        Self { mapper, level }
    }

    /// Tries the rule on `input` at `pos`.
    pub fn parse_at(&self, input: &[char], pos: usize) -> (r: Result<Option<Parsed>, FormatError>)
        requires
            pos <= input.len(),
            self.level + (input.len() - pos) <= usize::MAX,
        ensures
            tallies(r, spec_array_content(*self.mapper, self.level as nat, input@, pos as int)),
            r matches Ok(Some(p)) ==> pos <= p.end <= input.len(),
        decreases input.len() - pos, 4nat,
    {
        let mut rest: usize = pos;
        let mut res: Vec<char> = Vec::new();
        loop
            invariant
                pos <= rest <= input.len(),
                self.level + (input.len() - pos) <= usize::MAX,
                spec_elements(*self.mapper, self.level as nat, input@, pos as int) == prefixed(
                    res@,
                    spec_elements(*self.mapper, self.level as nat, input@, rest as int),
                ),
            ensures
                pos <= rest <= input.len(),
                spec_elements(*self.mapper, self.level as nat, input@, pos as int)
                    == Outcome::Matched(Match { text: res@, end: rest as int }),
            decreases input.len() - rest,
        {
            match ValueAndComma::new(self.mapper, self.level).parse_at(input, rest) {
                Ok(Some(element)) => {
                    let mut text = element.text;
                    proof {
                        let more = spec_elements(
                            *self.mapper,
                            self.level as nat,
                            input@,
                            element.end as int,
                        );
                        if let Outcome::Matched(m) = more {
                            assert(res@ + (text@ + m.text) =~= (res@ + text@) + m.text);
                        }
                    }
                    res.append(&mut text);
                    rest = element.end;
                },
                Ok(None) => {
                    assert(res@ + Seq::<char>::empty() =~= res@);
                    break ;
                },
                Err(err) => {
                    assert(spec_elements(*self.mapper, self.level as nat, input@, rest as int)
                        is Malformed);
                    return Err(err);
                },
            }
        }
        Ok(Some(Parsed { text: open_block(res), end: rest }))
    }

    /// Tries the rule at the start of `in_string`. A failure hands the whole
    /// of `in_string` back as the remainder.
    pub fn parse<'b>(&self, in_string: &'b str) -> (res: (Result<String, Failure>, &'b str))
        requires
            self.level + in_string@.len() <= usize::MAX,
        ensures
            reports_outcome(
                res,
                in_string@,
                spec_array_content(*self.mapper, self.level as nat, in_string@, 0),
            ),
            res.0 is Err ==> res.1@ == in_string@,
    {
        let input = to_chars(in_string);
        report(self.parse_at(input.as_slice(), 0), in_string)
    }
}

impl<'a> Array<'a> {
    /// A new rule of this kind.
    pub fn new(mapper: &'a Mapper, level: usize) -> (r: Self)
        ensures
            r.mapper == mapper,
            r.level == level,
    {
        Self { mapper, level }
    }

    /// Tries the rule on `input` at `pos`.
    pub fn parse_at(&self, input: &[char], pos: usize) -> (r: Result<Option<Parsed>, FormatError>)
        requires
            pos <= input.len(),
            self.level + (input.len() - pos) <= usize::MAX,
        ensures
            tallies(r, spec_array(*self.mapper, self.level as nat, input@, pos as int)),
            r matches Ok(Some(p)) ==> pos < p.end <= input.len(),
        decreases input.len() - pos, 0nat,
    {
        let opening = Then::new(lit("["), skip(CharClass::Whitespace));
        let closing = Then::new(skip(CharClass::Whitespace), lit("]"));
        proof {
            reveal_strlit("[");
            reveal_strlit("]");
            if pos < input.len() {
                lemma_run_end(CharClass::Whitespace, input@, pos + 1);
            }
        }
        let begun = match opening.parse_at(input, pos) {
            Some(p) => p,
            None => return Ok(None),
        };
        let content = match ArrayContent::new(self.mapper, self.level + 1).parse_at(
            input,
            begun.end,
        ) {
            Ok(Some(p)) => p,
            other => return other,
        };
        let ended = match closing.parse_at(input, content.end) {
            Some(p) => p,
            None => return Ok(None),
        };
        let mut r = begun.text;
        let mut content_text = content.text;
        let mut closing_text = ended.text;
        r.append(&mut content_text);
        r.append(&mut closing_text);
        let r1 = close(self.mapper, self.level, r, "]");
        Ok(Some(Parsed { text: r1, end: ended.end }))
    }

    /// Tries the rule at the start of `in_string`. A failure hands the whole
    /// of `in_string` back as the remainder.
    pub fn parse<'b>(&self, in_string: &'b str) -> (res: (Result<String, Failure>, &'b str))
        requires
            self.level + in_string@.len() <= usize::MAX,
        ensures
            reports_outcome(
                res,
                in_string@,
                spec_array(*self.mapper, self.level as nat, in_string@, 0),
            ),
            res.0 is Err ==> res.1@ == in_string@,
    {
        let input = to_chars(in_string);
        report(self.parse_at(input.as_slice(), 0), in_string)
    }
}

/// What formatting makes of a document: the text that the grammar yields
/// for a value at its start, or the document itself where there is none;
/// nothing where a string cannot be repaired.
pub open spec fn spec_format(body: Seq<char>, ident: usize) -> Option<Seq<char>> {
    match spec_value(Mapper::Indent(ident), 0, body, 0) {
        Outcome::Matched(m) => Some(m.text),
        Outcome::Mismatch => Some(body),
        Outcome::Malformed => None,
    }
}

/// Formats a JSON document: every member of an object and every element of
/// an array on a line of its own, indented by `ident` spaces for each level
/// of nesting. A document that the grammar does not match comes back as it
/// is. The one error is a string whose escapes cannot be repaired.
pub fn format(body: &str, ident: usize) -> (res: Result<String, FormatError>)
    ensures
        match spec_format(body@, ident) {
            Some(formatted) => res matches Ok(text) && text@ == formatted,
            None => res is Err,
        },
{
    let mapper = Mapper::Indent(ident);
    let parser = Value::new(&mapper, 0);
    let input = to_chars(body);
    match parser.parse_at(input.as_slice(), 0) {
        Ok(Some(parsed)) => Ok(to_string(parsed.text.as_slice())),
        Ok(None) => Ok(body.to_owned()),
        Err(err) => Err(err),
    }
}

} // verus!
