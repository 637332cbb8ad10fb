//! The XML grammar: names, attributes, tags, elements and the prolog, each
//! rule at a nesting level and with the mapper that turns a tag or a leaf
//! element into a line.

use crate::combinators::{at_least, literal, AnyChar, Ignore, Then, ZeroOrMore};
use crate::error::FormatError;
use crate::grammar::{
    before, keep, kept, lemma_run_rules, lit, map_match, mapped, skip, skip_rule, skipped,
    text_before,
};
use crate::mapper::Mapper;
use crate::parser::{agrees, consuming, or_else, reports, then, Match, Parsed, Parser};
use crate::text::{
    copy_range, lemma_first_occurrence, lemma_run_end, run_end, skip_run, tail_of, to_chars,
    to_string, unicode_alphabetic, CharClass,
};
use vstd::prelude::*;

verus! {

/// A name: an alphabetic character, and behind it the run of name
/// characters, be it empty.
pub open spec fn spec_element_name(s: Seq<char>, pos: int) -> Option<Match> {
    if 0 <= pos < s.len() && unicode_alphabetic(s[pos]) {
        let end = run_end(CharClass::NameChar, s, pos + 1);
        Some(Match { text: s.subrange(pos, end), end })
    } else {
        None
    }
}

/// An attribute: a name, `="`, what stands in front of the next quote, and
/// that quote. It is handed on with one space in front of it.
pub open spec fn spec_attribute(s: Seq<char>, pos: int) -> Option<Match> {
    match then(
        spec_element_name(s, pos),
        |at1: int|
            then(
                literal("=\""@, s, at1),
                |at2: int|
                    then(kept(CharClass::Not('"'), s, at2), |at3: int| literal("\""@, s, at3)),
            ),
    ) {
        Some(m) => Some(Match { text: " "@ + m.text, end: m.end }),
        None => None,
    }
}

/// The rule for an attribute with the white space round it, which is dropped.
pub open spec fn padded_attribute() -> Then<
    Ignore<ZeroOrMore<AnyChar>>,
    Then<Attribute, Ignore<ZeroOrMore<AnyChar>>>,
> {
    Then {
        first: skip_rule(CharClass::Whitespace),
        second: Then { first: Attribute {  }, second: skip_rule(CharClass::Whitespace) },
    }
}

/// The attributes of a tag, as many as there are in a row, each with the
/// white space round it dropped.
pub open spec fn spec_attribute_list(s: Seq<char>, pos: int) -> Option<Match> {
    at_least(padded_attribute(), 0, s, pos)
}

/// A tag: what opens it, a name, attributes, and what closes it.
pub open spec fn spec_tag(opening: Seq<char>, closing: Seq<char>, s: Seq<char>, pos: int) -> Option<
    Match,
> {
    then(
        literal(opening, s, pos),
        |at1: int|
            then(
                spec_element_name(s, at1),
                |at2: int| then(spec_attribute_list(s, at2), |at3: int| literal(closing, s, at3)),
            ),
    )
}

/// An element that closes itself: `<`, a name, attributes, `/>`.
pub open spec fn spec_element_full(mapper: Mapper, level: nat, s: Seq<char>, pos: int) -> Option<
    Match,
> {
    mapped(mapper, level, spec_tag("<"@, "/>"@, s, pos))
}

/// An opening tag: `<`, a name, attributes, `>`.
pub open spec fn spec_element_open(mapper: Mapper, level: nat, s: Seq<char>, pos: int) -> Option<
    Match,
> {
    mapped(mapper, level, spec_tag("<"@, ">"@, s, pos))
}

/// A closing tag: `</`, a name, `>`.
pub open spec fn spec_element_close(mapper: Mapper, level: nat, s: Seq<char>, pos: int) -> Option<
    Match,
> {
    mapped(
        mapper,
        level,
        then(
            literal("</"@, s, pos),
            |at1: int| then(spec_element_name(s, at1), |at2: int| literal(">"@, s, at2)),
        ),
    )
}

/// An element that holds text: an opening tag, what stands in front of the
/// next `<`, and a closing tag, handed on as one piece.
pub open spec fn spec_element_with_text(
    mapper: Mapper,
    level: nat,
    s: Seq<char>,
    pos: int,
) -> Option<Match> {
    mapped(
        mapper,
        level,
        then(
            spec_element_open(Mapper::Verbatim, level, s, pos),
            |at1: int|
                then(
                    text_before("<"@, s, at1),
                    |at2: int| spec_element_close(Mapper::Verbatim, 0, s, at2),
                ),
        ),
    )
}

/// The prolog: `<?`, a name, the run of characters that may follow it, `?>`.
/// It is handed on at level 0.
pub open spec fn spec_element_xml(mapper: Mapper, s: Seq<char>, pos: int) -> Option<Match> {
    mapped(
        mapper,
        0,
        then(
            literal("<?"@, s, pos),
            |at1: int|
                then(
                    spec_element_name(s, at1),
                    |at2: int|
                        then(kept(CharClass::PrologChar, s, at2), |at3: int| literal("?>"@, s, at3)),
                ),
        ),
    )
}

/// A name lies inside the text and is not empty.
pub proof fn lemma_element_name_bounds(s: Seq<char>, pos: int)
    ensures
        spec_element_name(s, pos) matches Some(m) ==> 0 <= pos < m.end <= s.len(),
{
    if 0 <= pos < s.len() {
        lemma_run_end(CharClass::NameChar, s, pos + 1);
    }
}

/// An attribute lies inside the text and is not empty.
pub proof fn lemma_attribute_bounds(s: Seq<char>, pos: int)
    ensures
        spec_attribute(s, pos) matches Some(m) ==> 0 <= pos < m.end <= s.len(),
{
    lemma_element_name_bounds(s, pos);
    if let Some(name) = spec_element_name(s, pos) {
        if let Some(eq) = literal("=\""@, s, name.end) {
            lemma_run_end(CharClass::Not('"'), s, eq.end);
        }
    }
}

/// A list of attributes ends inside the text, at or behind its start.
pub proof fn lemma_attribute_list_bounds(s: Seq<char>, pos: int)
    requires
        0 <= pos <= s.len(),
    ensures
        spec_attribute_list(s, pos) matches Some(m) && pos <= m.end <= s.len(),
{
    crate::combinators::lemma_repeated_bounds(padded_attribute(), s, pos);
}

/// A tag lies inside the text and is not empty.
pub proof fn lemma_tag_bounds(opening: Seq<char>, closing: Seq<char>, s: Seq<char>, pos: int)
    ensures
        spec_tag(opening, closing, s, pos) matches Some(m) ==> 0 <= pos < m.end <= s.len(),
{
    if let Some(a) = literal(opening, s, pos) {
        lemma_element_name_bounds(s, a.end);
        if let Some(b) = spec_element_name(s, a.end) {
            lemma_attribute_list_bounds(s, b.end);
        }
    }
}

/// An element with the white space behind it, which is dropped: an element
/// that holds text, or one that closes itself, or one that holds elements;
/// what stands first here and matches decides.
pub open spec fn spec_elements_set(mapper: Mapper, level: nat, s: Seq<char>, pos: int) -> Option<
    Match,
>
    decreases s.len() - pos, 1nat,
{
    then(
        or_else(
            spec_element_with_text(mapper, level, s, pos),
            or_else(
                spec_element_full(mapper, level, s, pos),
                spec_element_any(mapper, level, s, pos),
            ),
        ),
        |at1: int| skipped(CharClass::Whitespace, s, at1),
    )
}

/// The elements inside an element, as many as there are in a row. An element
/// that does not move on would end the row; no element does that.
pub open spec fn spec_children(mapper: Mapper, level: nat, s: Seq<char>, pos: int) -> Match
    decreases s.len() - pos, 2nat,
{
    match spec_elements_set(mapper, level, s, pos) {
        Some(child) => if pos < child.end <= s.len() {
            let more = spec_children(mapper, level, s, child.end);
            Match { text: child.text + more.text, end: more.end }
        } else {
            Match { text: Seq::empty(), end: pos }
        },
        None => Match { text: Seq::empty(), end: pos },
    }
}

/// An element that holds elements: an opening tag, the elements one level
/// deeper, and a closing tag, with the white space behind the opening tag and
/// in front of the closing tag dropped.
pub open spec fn spec_element_any(mapper: Mapper, level: nat, s: Seq<char>, pos: int) -> Option<
    Match,
>
    decreases s.len() - pos, 0nat,
{
    match then(
        spec_element_open(mapper, level, s, pos),
        |at1: int| skipped(CharClass::AsciiWhitespace, s, at1),
    ) {
        Some(open) => {
            proof {
                lemma_tag_bounds("<"@, ">"@, s, pos);
                if let Some(tag) = spec_tag("<"@, ">"@, s, pos) {
                    lemma_run_end(CharClass::AsciiWhitespace, s, tag.end);
                }
            }
            let children = spec_children(mapper, level + 1, s, open.end);
            match then(
                skipped(CharClass::AsciiWhitespace, s, children.end),
                |at2: int| spec_element_close(mapper, level, s, at2),
            ) {
                Some(close) => Some(
                    Match { text: open.text + children.text + close.text, end: close.end },
                ),
                None => None,
            }
        },
        None => None,
    }
}

/// A document: the prolog, and one element that holds elements, with the
/// white space behind each dropped.
pub open spec fn spec_document(mapper: Mapper, s: Seq<char>, pos: int) -> Option<Match> {
    then(
        spec_element_xml(mapper, s, pos),
        |at1: int|
            then(
                skipped(CharClass::Whitespace, s, at1),
                |at2: int|
                    then(
                        spec_element_any(mapper, 0, s, at2),
                        |at3: int| skipped(CharClass::Whitespace, s, at3),
                    ),
            ),
    )
}

/// The name of an element or of an attribute.
pub struct ElementName {}

/// An attribute with its value.
pub struct Attribute {}

/// The attributes of a tag.
pub struct AttributeList {}

/// An element that closes itself.
pub struct ElementFull {
    pub level: usize,
    pub mapper: Mapper,
}

/// The tag that opens an element.
pub struct ElementOpen {
    pub level: usize,
    pub mapper: Mapper,
}

/// The tag that closes an element.
pub struct ElementClose {
    pub level: usize,
    pub mapper: Mapper,
}

/// An element that holds text.
pub struct ElementWithText {
    pub mapper: Mapper,
    pub level: usize,
}

/// One element of any kind, with the white space behind it.
pub struct ElementsSet {
    pub level: usize,
    pub mapper: Mapper,
}

/// An element that holds elements.
pub struct ElementAny {
    pub level: usize,
    pub mapper: Mapper,
}

/// The prolog of a document.
pub struct ElementXml {
    pub mapper: Mapper,
}

impl ElementName {
    /// A new rule of this kind.
    pub fn new() -> (r: Self) {
        Self {  }
    }
}

impl Parser for ElementName {
    open spec fn wf(&self) -> bool {
        true
    }

    open spec fn spec_parse(&self, s: Seq<char>, pos: int) -> Option<Match> {
        spec_element_name(s, pos)
    }

    proof fn lemma_bounds(&self, s: Seq<char>, pos: int) {
        lemma_element_name_bounds(s, pos);
    }

    fn parse_at(&self, input: &[char], pos: usize) -> (r: Option<Parsed>) {
        if pos >= input.len() {
            return None;
        }
        let first = input[pos];
        if !first.is_alphabetic() {
            return None;
        }
        let end = skip_run(&CharClass::NameChar, input, pos + 1);
        Some(Parsed { text: copy_range(input, pos, end), end })
    }
}

impl Attribute {
    /// A new rule of this kind.
    pub fn new() -> (r: Self) {
        Self {  }
    }
}

impl Parser for Attribute {
    open spec fn wf(&self) -> bool {
        true
    }

    open spec fn spec_parse(&self, s: Seq<char>, pos: int) -> Option<Match> {
        spec_attribute(s, pos)
    }

    proof fn lemma_bounds(&self, s: Seq<char>, pos: int) {
        lemma_attribute_bounds(s, pos);
    }

    fn parse_at(&self, input: &[char], pos: usize) -> (r: Option<Parsed>) {
        let parser = Then::new(
            ElementName::new(),
            Then::new(lit("=\""), Then::new(keep(CharClass::Not('"')), lit("\""))),
        );
        match parser.parse_at(input, pos) {
            Some(p) => {
                let mut text = to_chars(" ");
                let mut matched = p.text;
                text.append(&mut matched);
                Some(Parsed { text, end: p.end })
            },
            None => None,
        }
    }
}

/// An attribute with white space round it moves on.
pub proof fn lemma_padded_attribute_consumes()
    ensures
        padded_attribute().wf(),
        consuming(padded_attribute()),
{
    assert forall|s: Seq<char>, pos: int| 0 <= pos <= s.len() implies (
    #[trigger] padded_attribute().spec_parse(s, pos) matches Some(m) ==> pos < m.end) by {
        lemma_run_rules(CharClass::Whitespace, s, pos);
        lemma_run_end(CharClass::Whitespace, s, pos);
        let at1 = run_end(CharClass::Whitespace, s, pos);
        lemma_attribute_bounds(s, at1);
        if let Some(a) = spec_attribute(s, at1) {
            lemma_run_rules(CharClass::Whitespace, s, a.end);
            lemma_run_end(CharClass::Whitespace, s, a.end);
        }
    }
}

impl AttributeList {
    /// A new rule of this kind.
    pub fn new() -> (r: Self) {
        Self {  }
    }
}

impl Parser for AttributeList {
    open spec fn wf(&self) -> bool {
        true
    }

    open spec fn spec_parse(&self, s: Seq<char>, pos: int) -> Option<Match> {
        spec_attribute_list(s, pos)
    }

    proof fn lemma_bounds(&self, s: Seq<char>, pos: int) {
        lemma_attribute_list_bounds(s, pos);
    }

    fn parse_at(&self, input: &[char], pos: usize) -> (r: Option<Parsed>) {
        let parser = Then::new(
            skip(CharClass::Whitespace),
            Then::new(Attribute::new(), skip(CharClass::Whitespace)),
        );
        proof {
            lemma_padded_attribute_consumes();
        }
        ZeroOrMore::new(parser).parse_at(input, pos)
    }
}

impl ElementFull {
    /// A new rule of this kind.
    pub fn new(level: usize, mapper: Mapper) -> (r: Self)
        ensures
            r.level == level,
            r.mapper == mapper,
    {
        Self { level, mapper }
    }
}

impl Parser for ElementFull {
    open spec fn wf(&self) -> bool {
        true
    }

    open spec fn spec_parse(&self, s: Seq<char>, pos: int) -> Option<Match> {
        spec_element_full(self.mapper, self.level as nat, s, pos)
    }

    proof fn lemma_bounds(&self, s: Seq<char>, pos: int) {
        lemma_tag_bounds("<"@, "/>"@, s, pos);
    }

    fn parse_at(&self, input: &[char], pos: usize) -> (r: Option<Parsed>) {
        let parser = Then::new(
            lit("<"),
            Then::new(ElementName::new(), Then::new(AttributeList::new(), lit("/>"))),
        );
        map_match(&self.mapper, self.level, parser.parse_at(input, pos))
    }
}

impl ElementOpen {
    /// A new rule of this kind.
    pub fn new(level: usize, mapper: Mapper) -> (r: Self)
        ensures
            r.level == level,
            r.mapper == mapper,
    {
        Self { level, mapper }
    }
}

impl Parser for ElementOpen {
    open spec fn wf(&self) -> bool {
        true
    }

    open spec fn spec_parse(&self, s: Seq<char>, pos: int) -> Option<Match> {
        spec_element_open(self.mapper, self.level as nat, s, pos)
    }

    proof fn lemma_bounds(&self, s: Seq<char>, pos: int) {
        lemma_tag_bounds("<"@, ">"@, s, pos);
    }

    fn parse_at(&self, input: &[char], pos: usize) -> (r: Option<Parsed>) {
        let parser = Then::new(
            lit("<"),
            Then::new(ElementName::new(), Then::new(AttributeList::new(), lit(">"))),
        );
        map_match(&self.mapper, self.level, parser.parse_at(input, pos))
    }
}

/// A closing tag lies inside the text and is not empty.
pub proof fn lemma_element_close_bounds(mapper: Mapper, level: nat, s: Seq<char>, pos: int)
    ensures
        spec_element_close(mapper, level, s, pos) matches Some(m) ==> 0 <= pos < m.end <= s.len(),
{
    if let Some(a) = literal("</"@, s, pos) {
        lemma_element_name_bounds(s, a.end);
    }
}

impl ElementClose {
    /// A new rule of this kind.
    pub fn new(level: usize, mapper: Mapper) -> (r: Self)
        ensures
            r.level == level,
            r.mapper == mapper,
    {
        Self { level, mapper }
    }
}

impl Parser for ElementClose {
    open spec fn wf(&self) -> bool {
        true
    }

    open spec fn spec_parse(&self, s: Seq<char>, pos: int) -> Option<Match> {
        spec_element_close(self.mapper, self.level as nat, s, pos)
    }

    proof fn lemma_bounds(&self, s: Seq<char>, pos: int) {
        lemma_element_close_bounds(self.mapper, self.level as nat, s, pos);
    }

    fn parse_at(&self, input: &[char], pos: usize) -> (r: Option<Parsed>) {
        let parser = Then::new(lit("</"), Then::new(ElementName::new(), lit(">")));
        map_match(&self.mapper, self.level, parser.parse_at(input, pos))
    }
}

/// An element that holds text lies inside the text and is not empty.
pub proof fn lemma_element_with_text_bounds(mapper: Mapper, level: nat, s: Seq<char>, pos: int)
    ensures
        spec_element_with_text(mapper, level, s, pos) matches Some(m) ==> 0 <= pos < m.end
            <= s.len(),
{
    lemma_tag_bounds("<"@, ">"@, s, pos);
    if let Some(open) = spec_element_open(Mapper::Verbatim, level, s, pos) {
        lemma_first_occurrence(s, open.end, "<"@);
        if let Some(text) = text_before("<"@, s, open.end) {
            lemma_element_close_bounds(Mapper::Verbatim, 0, s, text.end);
        }
    }
}

impl ElementWithText {
    /// A new rule of this kind.
    pub fn new(level: usize, mapper: Mapper) -> (r: Self)
        ensures
            r.level == level,
            r.mapper == mapper,
    {
        Self { mapper, level }
    }
}

impl Parser for ElementWithText {
    open spec fn wf(&self) -> bool {
        true
    }

    open spec fn spec_parse(&self, s: Seq<char>, pos: int) -> Option<Match> {
        spec_element_with_text(self.mapper, self.level as nat, s, pos)
    }

    proof fn lemma_bounds(&self, s: Seq<char>, pos: int) {
        lemma_element_with_text_bounds(self.mapper, self.level as nat, s, pos);
    }

    fn parse_at(&self, input: &[char], pos: usize) -> (r: Option<Parsed>) {
        let no_map = Mapper::Verbatim;
        let parser = Then::new(
            ElementOpen::new(self.level, no_map),
            Then::new(before("<"), ElementClose::new(0, no_map)),
        );
        proof {
            lemma_tag_bounds("<"@, ">"@, input@, pos as int);
        }
        map_match(&self.mapper, self.level, parser.parse_at(input, pos))
    }
}

impl ElementXml {
    /// A new rule of this kind.
    pub fn new(mapper: Mapper) -> (r: Self)
        ensures
            r.mapper == mapper,
    {
        Self { mapper }
    }
}

impl Parser for ElementXml {
    open spec fn wf(&self) -> bool {
        true
    }

    open spec fn spec_parse(&self, s: Seq<char>, pos: int) -> Option<Match> {
        spec_element_xml(self.mapper, s, pos)
    }

    proof fn lemma_bounds(&self, s: Seq<char>, pos: int) {
        if let Some(a) = literal("<?"@, s, pos) {
            lemma_element_name_bounds(s, a.end);
            if let Some(b) = spec_element_name(s, a.end) {
                lemma_run_end(CharClass::PrologChar, s, b.end);
            }
        }
    }

    fn parse_at(&self, input: &[char], pos: usize) -> (r: Option<Parsed>) {
        let parser = Then::new(
            lit("<?"),
            Then::new(ElementName::new(), Then::new(keep(CharClass::PrologChar), lit("?>"))),
        );
        map_match(&self.mapper, 0, parser.parse_at(input, pos))
    }
}

impl ElementsSet {
    /// A new rule of this kind.
    pub fn new(level: usize, mapper: Mapper) -> (r: Self)
        ensures
            r.level == level,
            r.mapper == mapper,
    {
        Self { level, mapper }
    }

    /// Tries the rule on `input` at `pos`.
    pub fn parse_at(&self, input: &[char], pos: usize) -> (r: Option<Parsed>)
        requires
            pos <= input.len(),
            self.level + (input.len() - pos) <= usize::MAX,
        ensures
            agrees(r, spec_elements_set(self.mapper, self.level as nat, input@, pos as int)),
            r matches Some(p) ==> pos < p.end <= input.len(),
        decreases input.len() - pos, 1nat,
    {
        proof {
            lemma_element_with_text_bounds(self.mapper, self.level as nat, input@, pos as int);
            lemma_tag_bounds("<"@, "/>"@, input@, pos as int);
        }
        let element = match ElementWithText::new(self.level, self.mapper).parse_at(input, pos) {
            Some(p) => p,
            None => match ElementFull::new(self.level, self.mapper).parse_at(input, pos) {
                Some(p) => p,
                None => match ElementAny::new(self.level, self.mapper).parse_at(input, pos) {
                    Some(p) => p,
                    None => return None,
                },
            },
        };
        match skip(CharClass::Whitespace).parse_at(input, element.end) {
            Some(space) => {
                assert(element.text@ + space.text@ =~= element.text@);
                Some(Parsed { text: element.text, end: space.end })
            },
            None => None,
        }
    }

    /// Tries the rule at the start of `in_string`. A failure hands the whole
    /// of `in_string` back as the remainder.
    pub fn parse<'b>(&self, in_string: &'b str) -> (res: (Result<String, ()>, &'b str))
        requires
            self.level + in_string@.len() <= usize::MAX,
        ensures
            reports(res, in_string@, spec_elements_set(self.mapper, self.level as nat, in_string@, 0)),
            res.0 is Err ==> res.1@ == in_string@,
    {
        let input = to_chars(in_string);
        match self.parse_at(input.as_slice(), 0) {
            Some(p) => (Ok(to_string(p.text.as_slice())), tail_of(in_string, p.end)),
            None => (Err(()), in_string),
        }
    }
}

impl ElementAny {
    /// A new rule of this kind.
    pub fn new(level: usize, mapper: Mapper) -> (r: Self)
        ensures
            r.level == level,
            r.mapper == mapper,
    {
        Self { level, mapper }
    }

    /// Tries the rule on `input` at `pos`.
    pub fn parse_at(&self, input: &[char], pos: usize) -> (r: Option<Parsed>)
        requires
            pos <= input.len(),
            self.level + (input.len() - pos) <= usize::MAX,
        ensures
            agrees(r, spec_element_any(self.mapper, self.level as nat, input@, pos as int)),
            r matches Some(p) ==> pos < p.end <= input.len(),
        decreases input.len() - pos, 0nat,
    {
        let opening = Then::new(
            ElementOpen::new(self.level, self.mapper),
            skip(CharClass::AsciiWhitespace),
        );
        let closing = Then::new(
            skip(CharClass::AsciiWhitespace),
            ElementClose::new(self.level, self.mapper),
        );
        proof {
            lemma_tag_bounds("<"@, ">"@, input@, pos as int);
        }
        let begun = match opening.parse_at(input, pos) {
            Some(p) => p,
            None => return None,
        };
        let start: usize = begun.end;
        let mut rest: usize = start;
        let mut res: Vec<char> = begun.text;
        let ghost open_text = res@;
        loop
            invariant
                pos < start <= rest <= input.len(),
                self.level + (input.len() - pos) <= usize::MAX,
                spec_children(self.mapper, (self.level + 1) as nat, input@, start as int).text
                    == res@.skip(open_text.len() as int) + spec_children(
                    self.mapper,
                    (self.level + 1) as nat,
                    input@,
                    rest as int,
                ).text,
                spec_children(self.mapper, (self.level + 1) as nat, input@, start as int).end
                    == spec_children(self.mapper, (self.level + 1) as nat, input@, rest as int).end,
                res@.take(open_text.len() as int) == open_text,
                open_text.len() <= res@.len(),
            ensures
                start <= rest <= input.len(),
                spec_children(self.mapper, (self.level + 1) as nat, input@, start as int) == (Match {
                    text: res@.skip(open_text.len() as int),
                    end: rest as int,
                }),
                res@.take(open_text.len() as int) == open_text,
                open_text.len() <= res@.len(),
            decreases input.len() - rest,
        {
            match ElementsSet::new(self.level + 1, self.mapper).parse_at(input, rest) {
                Some(child) => {
                    let mut text = child.text;
                    proof {
                        let more = spec_children(
                            self.mapper,
                            (self.level + 1) as nat,
                            input@,
                            child.end as int,
                        );
                        let before = res@.skip(open_text.len() as int);
                        assert(before + (text@ + more.text) =~= (res@ + text@).skip(
                            open_text.len() as int,
                        ) + more.text);
                        assert((res@ + text@).take(open_text.len() as int) =~= res@.take(
                            open_text.len() as int,
                        ));
                    }
                    res.append(&mut text);
                    rest = child.end;
                },
                None => {
                    assert(res@.skip(open_text.len() as int) + Seq::<char>::empty() =~= res@.skip(
                        open_text.len() as int,
                    ));
                    break ;
                },
            }
        }
        let ended = match closing.parse_at(input, rest) {
            Some(p) => p,
            None => return None,
        };
        let mut closing_text = ended.text;
        proof {
            assert(res@ =~= open_text + res@.skip(open_text.len() as int));
        }
        res.append(&mut closing_text);
        Some(Parsed { text: res, end: ended.end })
    }

    /// Tries the rule at the start of `in_string`. A failure hands the whole
    /// of `in_string` back as the remainder.
    pub fn parse<'b>(&self, in_string: &'b str) -> (res: (Result<String, ()>, &'b str))
        requires
            self.level + in_string@.len() <= usize::MAX,
        ensures
            reports(res, in_string@, spec_element_any(self.mapper, self.level as nat, in_string@, 0)),
            res.0 is Err ==> res.1@ == in_string@,
    {
        let input = to_chars(in_string);
        match self.parse_at(input.as_slice(), 0) {
            Some(p) => (Ok(to_string(p.text.as_slice())), tail_of(in_string, p.end)),
            None => (Err(()), in_string),
        }
    }
}

/// What formatting makes of a document: the text that the grammar yields,
/// or the document itself where it does not match.
pub open spec fn spec_format(body: Seq<char>, ident: usize) -> Seq<char> {
    match spec_document(Mapper::Indent(ident), body, 0) {
        Some(m) => m.text,
        None => body,
    }
}

/// Formats an XML document: the prolog on a line of its own, and every tag
/// and every element that holds text on a line of its own, indented by
/// `ident` spaces for each level of nesting. A document that the grammar
/// does not match comes back as it is.
pub fn format(body: &str, ident: usize) -> (res: Result<String, FormatError>)
    ensures
        res matches Ok(text) && text@ == spec_format(body@, ident),
{
    let mapper = Mapper::Indent(ident);
    let input = to_chars(body);
    let head = Then::new(ElementXml::new(mapper), skip(CharClass::Whitespace));
    let begun = match head.parse_at(input.as_slice(), 0) {
        Some(p) => p,
        None => return Ok(body.to_owned()),
    };
    let root = match ElementAny::new(0, mapper).parse_at(input.as_slice(), begun.end) {
        Some(p) => p,
        None => return Ok(body.to_owned()),
    };
    match skip(CharClass::Whitespace).parse_at(input.as_slice(), root.end) {
        Some(space) => {
            let mut parsed = begun.text;
            let mut root_text = root.text;
            parsed.append(&mut root_text);
            proof {
                assert(parsed@ =~= begun.text@ + (root.text@ + space.text@));
            }
            Ok(to_string(parsed.as_slice()))
        },
        None => Ok(body.to_owned()),
    }
}

} // verus!
