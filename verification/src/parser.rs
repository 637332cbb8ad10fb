//! What a grammar rule is: something that tries to match the text at a
//! position and either yields text and a new position or fails.

use crate::text::{tail_of, to_chars, to_string};
use vstd::prelude::*;

verus! {

/// A successful match: the text it yields, and the position just behind what
/// it consumed.
pub struct Match {
    pub text: Seq<char>,
    pub end: int,
}

/// A successful match as the executable rules hand it on.
pub struct Parsed {
    pub text: Vec<char>,
    pub end: usize,
}

impl View for Parsed {
    type V = Match;

    open spec fn view(&self) -> Match {
        Match { text: self.text@, end: self.end as int }
    }
}

/// Whether what a rule returned is what its meaning asks for.
pub open spec fn agrees(r: Option<Parsed>, m: Option<Match>) -> bool {
    match r {
        Some(p) => m == Some(p@),
        None => m is None,
    }
}

/// Whether a pair of result and remainder reports the outcome `m` of a rule
/// that was tried at the start of `input`: on a match, the text and what
/// is left of the input behind it; on a failure, the whole input.
pub open spec fn reports<E>(res: (Result<String, E>, &str), input: Seq<char>, m: Option<Match>) -> bool {
    match m {
        Some(m) => res.0 matches Ok(text) && text@ == m.text && res.1@ == input.skip(m.end),
        None => res.0 is Err && res.1@ == input,
    }
}

/// Two matches in a row: the second is tried where the first ended, and the
/// texts are joined. It fails where either fails.
pub open spec fn then(first: Option<Match>, next: spec_fn(int) -> Option<Match>) -> Option<Match> {
    match first {
        Some(a) => match next(a.end) {
            Some(b) => Some(Match { text: a.text + b.text, end: b.end }),
            None => None,
        },
        None => None,
    }
}

/// Two tries at one position: the first decides where it matches, else the second.
pub open spec fn or_else(first: Option<Match>, second: Option<Match>) -> Option<Match> {
    match first {
        Some(m) => Some(m),
        None => second,
    }
}

/// A composable rule.
pub trait Parser {
    /// What has to hold of the rule's parts before it may be used.
    spec fn wf(&self) -> bool;

    /// The meaning of the rule: what it yields when tried on `s` at `pos`.
    spec fn spec_parse(&self, s: Seq<char>, pos: int) -> Option<Match>;

    /// A match ends inside the text, at or behind the position where it began.
    proof fn lemma_bounds(&self, s: Seq<char>, pos: int)
        requires
            self.wf(),
            0 <= pos <= s.len(),
        ensures
            self.spec_parse(s, pos) matches Some(m) ==> pos <= m.end <= s.len(),
    ;

    /// Tries the rule on `input` at `pos`.
    fn parse_at(&self, input: &[char], pos: usize) -> (r: Option<Parsed>)
        requires
            self.wf(),
            pos <= input.len(),
        ensures
            agrees(r, self.spec_parse(input@, pos as int)),
            r matches Some(p) ==> pos <= p.end <= input.len(),
    ;

    /// Tries the rule at the start of `in_string`. A failure hands the whole
    /// of `in_string` back as the remainder.
    fn parse<'a>(&self, in_string: &'a str) -> (res: (Result<String, ()>, &'a str))
        requires
            self.wf(),
        ensures
            reports(res, in_string@, self.spec_parse(in_string@, 0)),
            res.0 is Err ==> res.1@ == in_string@,
    {
        let input = to_chars(in_string);
        match self.parse_at(input.as_slice(), 0) {
            Some(p) => (Ok(to_string(p.text.as_slice())), tail_of(in_string, p.end)),
            None => (Err(()), in_string),
        }
    }
}

/// Whether a rule never matches without moving on.
pub open spec fn consuming<P: Parser>(p: P) -> bool {
    forall|s: Seq<char>, pos: int|
        0 <= pos <= s.len() ==> (#[trigger] p.spec_parse(s, pos) matches Some(m) ==> pos < m.end)
}

} // verus!
