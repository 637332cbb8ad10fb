//! Characters and text: the classes of characters that the grammars speak of,
//! and the steps between strings and character sequences.

use vstd::prelude::*;

verus! {

/// Whether `c` has the Unicode property `Alphabetic`.
pub uninterp spec fn unicode_alphabetic(c: char) -> bool;

/// Whether `c` is alphabetic or numeric in the sense of Unicode.
pub uninterp spec fn unicode_alphanumeric(c: char) -> bool;

/// Whether `c` has the Unicode property `White_Space`.
pub uninterp spec fn unicode_whitespace(c: char) -> bool;

/// `char::is_alphabetic` decides by the tables of the Unicode standard; its
/// answer for a character is always the same.
pub assume_specification[ char::is_alphabetic ](c: char) -> (b: bool)
    ensures
        b == unicode_alphabetic(c),
;

/// `char::is_alphanumeric` decides by the tables of the Unicode standard; its
/// answer for a character is always the same.
pub assume_specification[ char::is_alphanumeric ](c: char) -> (b: bool)
    ensures
        b == unicode_alphanumeric(c),
;

/// `char::is_whitespace` decides by the tables of the Unicode standard; its
/// answer for a character is always the same.
pub assume_specification[ char::is_whitespace ](c: char) -> (b: bool)
    ensures
        b == unicode_whitespace(c),
;

/// A set of characters, named by what the grammars need.
#[derive(Clone, Copy, Debug)]
pub enum CharClass {
    /// Unicode white space. The space and the line feed, which formatting
    /// itself writes, are white space by definition.
    Whitespace,
    /// Space, tab, line feed, form feed and carriage return.
    AsciiWhitespace,
    /// What a JSON key may hold: alphanumeric characters, `-`, `_` and `@`.
    KeyChar,
    /// What a bare JSON number may hold: the ASCII digits and `.`.
    NumberChar,
    /// What an XML name may go on with: alphanumeric characters, `:`, `_` and `-`.
    NameChar,
    /// What may stand in the prolog behind its name: all but `?`, `/` and `>`.
    PrologChar,
    /// The one character given.
    Is(char),
    /// Every character but the one given.
    Not(char),
}

impl CharClass {
    /// Whether `c` belongs to the class.
    pub open spec fn includes(self, c: char) -> bool {
        match self {
            CharClass::Whitespace => c == ' ' || c == '\n' || unicode_whitespace(c),
            CharClass::AsciiWhitespace => c == ' ' || c == '\t' || c == '\n' || c == '\x0C' || c
                == '\r',
            CharClass::KeyChar => unicode_alphanumeric(c) || c == '-' || c == '_' || c == '@',
            CharClass::NumberChar => ('0' <= c && c <= '9') || c == '.',
            CharClass::NameChar => unicode_alphanumeric(c) || c == ':' || c == '_' || c == '-',
            CharClass::PrologChar => c != '?' && c != '/' && c != '>',
            CharClass::Is(only) => c == only,
            CharClass::Not(other) => c != other,
        }
    }

    /// Tests one character.
    pub fn contains(&self, c: char) -> (b: bool)
        ensures
            b == self.includes(c),
    {
        match self {
            CharClass::Whitespace => c == ' ' || c == '\n' || c.is_whitespace(),
            CharClass::AsciiWhitespace => c == ' ' || c == '\t' || c == '\n' || c == '\x0C' || c
                == '\r',
            CharClass::KeyChar => c.is_alphanumeric() || c == '-' || c == '_' || c == '@',
            CharClass::NumberChar => ('0' <= c && c <= '9') || c == '.',
            CharClass::NameChar => c.is_alphanumeric() || c == ':' || c == '_' || c == '-',
            CharClass::PrologChar => c != '?' && c != '/' && c != '>',
            CharClass::Is(only) => c == *only,
            CharClass::Not(other) => c != *other,
        }
    }
}

/// The characters of a string, in a vector.
pub fn to_chars(s: &str) -> (chars: Vec<char>)
    ensures
        chars@ == s@,
{
    let mut chars: Vec<char> = Vec::new();
    for c in it: s.chars()
        invariant
            chars@ == it.seq().take(it.index()),
    {
        chars.push(c);
    }
    chars
}

/// `String::push` appends one character to the end of the string.
#[verifier::external_body]
fn push_char(s: &mut String, c: char)
    ensures
        final(s)@ == old(s)@.push(c),
{
    s.push(c);
}

/// The string made of the given characters.
pub fn to_string(chars: &[char]) -> (s: String)
    ensures
        s@ == chars@,
{
    let mut s = String::new();
    let mut i: usize = 0;
    while i < chars.len()
        invariant
            i <= chars.len(),
            s@ == chars@.take(i as int),
        decreases chars.len() - i,
    {
        push_char(&mut s, chars[i]);
        i += 1;
    }
    s
}

/// What is left of a string behind its first `from` characters.
pub fn tail_of<'a>(s: &'a str, from: usize) -> (tail: &'a str)
    requires
        from <= s@.len(),
    ensures
        tail@ == s@.skip(from as int),
{
    let n = s.unicode_len();
    s.substring_char(from, n)
}

/// `width` spaces.
pub open spec fn spaces(width: nat) -> Seq<char> {
    Seq::new(width, |i: int| ' ')
}

/// Whether `s` holds `pattern` at `pos`.
pub open spec fn occurs_at(s: Seq<char>, pos: int, pattern: Seq<char>) -> bool {
    0 <= pos && pos + pattern.len() <= s.len() && s.subrange(pos, pos + pattern.len()) == pattern
}

/// The first place at or behind `from` where `s` holds `pattern`.
pub open spec fn first_occurrence(s: Seq<char>, from: int, pattern: Seq<char>) -> Option<int>
    decreases s.len() - from,
{
    if from < 0 || from + pattern.len() > s.len() {
        None
    } else if occurs_at(s, from, pattern) {
        Some(from)
    } else {
        proof {
            assert(pattern.len() == 0 ==> s.subrange(from, from) =~= pattern);
        }
        first_occurrence(s, from + 1, pattern)
    }
}

/// The end of the longest run of characters of `class` that starts at `pos`.
pub open spec fn run_end(class: CharClass, s: Seq<char>, pos: int) -> int
    decreases s.len() - pos,
{
    if 0 <= pos < s.len() && class.includes(s[pos]) {
        run_end(class, s, pos + 1)
    } else {
        pos
    }
}

/// A run ends inside the text, behind a stretch of characters of the class
/// and in front of a character that is not of it.
pub proof fn lemma_run_end(class: CharClass, s: Seq<char>, pos: int)
    requires
        0 <= pos <= s.len(),
    ensures
        pos <= run_end(class, s, pos) <= s.len(),
        forall|i: int| pos <= i < run_end(class, s, pos) ==> class.includes(#[trigger] s[i]),
        run_end(class, s, pos) < s.len() ==> !class.includes(s[run_end(class, s, pos)]),
    decreases s.len() - pos,
{
    if pos < s.len() && class.includes(s[pos]) {
        lemma_run_end(class, s, pos + 1);
    }
}

/// A place that `first_occurrence` names holds the pattern, and no place
/// between `from` and it does; where it names none, no place from `from` on holds it.
pub proof fn lemma_first_occurrence(s: Seq<char>, from: int, pattern: Seq<char>)
    requires
        0 <= from,
    ensures
        match first_occurrence(s, from, pattern) {
            Some(at) => from <= at && occurs_at(s, at, pattern) && forall|i: int|
                from <= i < at ==> !occurs_at(s, i, pattern),
            None => forall|i: int| from <= i ==> !occurs_at(s, i, pattern),
        },
    decreases s.len() - from,
{
    if from + pattern.len() <= s.len() && !occurs_at(s, from, pattern) {
        assert(pattern.len() == 0 ==> s.subrange(from, from) =~= pattern);
        lemma_first_occurrence(s, from + 1, pattern);
    }
}

/// Tests whether `input` holds `pattern` at `pos`.
pub fn holds_at(input: &[char], pos: usize, pattern: &[char]) -> (b: bool)
    requires
        pos <= input.len(),
    ensures
        b == occurs_at(input@, pos as int, pattern@),
{
    if pattern.len() > input.len() - pos {
        return false;
    }
    let mut i: usize = 0;
    while i < pattern.len()
        invariant
            pos + pattern.len() <= input.len(),
            i <= pattern.len(),
            forall|j: int| 0 <= j < i ==> input@[pos + j] == pattern@[j],
        decreases pattern.len() - i,
    {
        if input[pos + i] != pattern[i] {
            assert(input@.subrange(pos as int, pos + pattern.len())[i as int] != pattern@[i as int]);
            return false;
        }
        i += 1;
    }
    assert(input@.subrange(pos as int, pos + pattern.len()) =~= pattern@);
    true
}

/// Looks for the first place at or behind `from` where `input` holds `pattern`.
pub fn find(input: &[char], from: usize, pattern: &[char]) -> (found: Option<usize>)
    requires
        from <= input.len(),
    ensures
        match found {
            Some(at) => first_occurrence(input@, from as int, pattern@) == Some(at as int) && from
                <= at && at + pattern.len() <= input.len(),
            None => first_occurrence(input@, from as int, pattern@) is None,
        },
{
    if pattern.len() > input.len() - from {
        return None;
    }
    let last: usize = input.len() - pattern.len();
    let mut i: usize = from;
    loop
        invariant
            last == input.len() - pattern.len(),
            from <= i <= last,
            first_occurrence(input@, from as int, pattern@) == first_occurrence(
                input@,
                i as int,
                pattern@,
            ),
        decreases last - i,
    {
        if holds_at(input, i, pattern) {
            return Some(i);
        }
        if i == last {
            assert(first_occurrence(input@, i + 1, pattern@) is None);
            return None;
        }
        i += 1;
    }
}

/// Walks over the run of characters of `class` that starts at `pos`.
pub fn skip_run(class: &CharClass, input: &[char], pos: usize) -> (end: usize)
    requires
        pos <= input.len(),
    ensures
        end == run_end(*class, input@, pos as int),
        pos <= end <= input.len(),
{
    let mut i: usize = pos;
    while i < input.len() && class.contains(input[i])
        invariant
            pos <= i <= input.len(),
            run_end(*class, input@, pos as int) == run_end(*class, input@, i as int),
        decreases input.len() - i,
    {
        i += 1;
    }
    i
}

/// A copy of the characters of `input` from `from` up to `to`.
pub fn copy_range(input: &[char], from: usize, to: usize) -> (out: Vec<char>)
    requires
        from <= to <= input.len(),
    ensures
        out@ == input@.subrange(from as int, to as int),
{
    let mut out: Vec<char> = Vec::with_capacity(to - from);
    let mut i: usize = from;
    while i < to
        invariant
            from <= i <= to <= input.len(),
            out@ == input@.subrange(from as int, i as int),
        decreases to - i,
    {
        out.push(input[i]);
        i += 1;
    }
    out
}

/// A run that starts with characters of the class ends where the run behind them ends.
pub proof fn lemma_run_end_through(class: CharClass, s: Seq<char>, pos: int, n: int)
    requires
        0 <= pos,
        0 <= n,
        pos + n <= s.len(),
        forall|i: int| pos <= i < pos + n ==> class.includes(#[trigger] s[i]),
    ensures
        run_end(class, s, pos) == run_end(class, s, pos + n),
    decreases n,
{
    if n > 0 {
        assert(class.includes(s[pos]));
        lemma_run_end_through(class, s, pos + 1, n - 1);
    }
}

/// A stretch of characters of the class with none behind it is the run.
pub proof fn lemma_run_end_is(class: CharClass, s: Seq<char>, pos: int, n: int)
    requires
        0 <= pos,
        0 <= n,
        pos + n <= s.len(),
        forall|i: int| pos <= i < pos + n ==> class.includes(#[trigger] s[i]),
        pos + n == s.len() || !class.includes(s[pos + n]),
    ensures
        run_end(class, s, pos) == pos + n,
{
    lemma_run_end_through(class, s, pos, n);
}

/// A text holds two patterns in a row where it holds the two joined.
pub proof fn lemma_occurs_joined(s: Seq<char>, pos: int, a: Seq<char>, b: Seq<char>)
    requires
        0 <= pos,
    ensures
        occurs_at(s, pos, a + b) <==> occurs_at(s, pos, a) && occurs_at(s, pos + a.len(), b),
{
    if occurs_at(s, pos, a + b) {
        assert(s.subrange(pos, pos + a.len()) =~= (a + b).subrange(0, a.len() as int)) by {
            assert(s.subrange(pos, pos + a.len()) =~= s.subrange(pos, pos + (a + b).len()).subrange(
                0,
                a.len() as int,
            ));
        }
        assert((a + b).subrange(0, a.len() as int) =~= a);
        assert(s.subrange(pos + a.len(), pos + a.len() + b.len()) =~= s.subrange(
            pos,
            pos + (a + b).len(),
        ).subrange(a.len() as int, (a + b).len() as int));
        assert((a + b).subrange(a.len() as int, (a + b).len() as int) =~= b);
    }
    if occurs_at(s, pos, a) && occurs_at(s, pos + a.len(), b) {
        assert(s.subrange(pos, pos + (a + b).len()) =~= s.subrange(pos, pos + a.len())
            + s.subrange(pos + a.len(), pos + a.len() + b.len()));
    }
}

/// Where a text holds a pattern, it holds each of its characters.
pub proof fn lemma_occurs_chars(s: Seq<char>, pos: int, pattern: Seq<char>)
    requires
        occurs_at(s, pos, pattern),
    ensures
        forall|i: int| 0 <= i < pattern.len() ==> #[trigger] s[pos + i] == pattern[i],
{
    assert forall|i: int| 0 <= i < pattern.len() implies #[trigger] s[pos + i] == pattern[i] by {
        assert(s.subrange(pos, pos + pattern.len())[i] == s[pos + i]);
    }
}

/// A text holds a pattern of one character where that character stands.
pub proof fn lemma_occurs_one(s: Seq<char>, pos: int, c: char)
    ensures
        occurs_at(s, pos, seq![c]) <==> 0 <= pos < s.len() && s[pos] == c,
{
    if 0 <= pos < s.len() {
        if s[pos] == c {
            assert(s.subrange(pos, pos + 1) =~= seq![c]);
        } else {
            assert(s.subrange(pos, pos + 1)[0] == s[pos]);
        }
    }
}

/// The first occurrence is the place that holds the pattern with no such
/// place between the start and it.
pub proof fn lemma_first_occurrence_is(s: Seq<char>, from: int, pattern: Seq<char>, at: int)
    requires
        0 <= from <= at,
        occurs_at(s, at, pattern),
        forall|i: int| from <= i < at ==> !occurs_at(s, i, pattern),
    ensures
        first_occurrence(s, from, pattern) == Some(at),
    decreases at - from,
{
    if from < at {
        lemma_first_occurrence_is(s, from + 1, pattern, at);
    }
}

/// The white space of the grammar.
pub open spec fn space() -> CharClass {
    CharClass::Whitespace
}

/// A run ends where it ends: behind its end there is nothing more of it.
pub proof fn lemma_run_end_twice(class: CharClass, s: Seq<char>, pos: int)
    requires
        0 <= pos <= s.len(),
    ensures
        run_end(class, s, run_end(class, s, pos)) == run_end(class, s, pos),
{
    lemma_run_end(class, s, pos);
}

/// White space in front of an indented line runs up to the first
/// character behind the indentation.
pub proof fn lemma_run_over_indent(t: Seq<char>, at: int, indent: nat)
    requires
        0 <= at,
        occurs_at(t, at, spaces(indent)),
        at + indent < t.len(),
        !space().includes(t[at + indent]),
    ensures
        run_end(space(), t, at) == at + indent,
{
    lemma_occurs_chars(t, at, spaces(indent));
    assert forall|i: int| at <= i < at + indent implies space().includes(#[trigger] t[i]) by {
        assert(t[at + (i - at)] == spaces(indent)[i - at]);
    }
    lemma_run_end_is(space(), t, at, indent as int);
}

} // verus!
