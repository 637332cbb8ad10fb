//! Pieces that both grammars are made of.

use crate::combinators::{
    repeated, AnyChar, AnyExcept, CharSequence, Ignore, NTimesOrMore, Repeated, ZeroOrMore,
};
use crate::mapper::Mapper;
use crate::parser::{consuming, Match, Parsed, Parser};
use crate::text::{first_occurrence, lemma_first_occurrence, lemma_run_end, run_end, CharClass};
use vstd::prelude::*;

verus! {

/// The run of characters of `class` at `pos`, passed over: it always
/// matches, be the run empty, and yields nothing.
pub open spec fn skipped(class: CharClass, s: Seq<char>, pos: int) -> Option<Match> {
    Some(Match { text: Seq::empty(), end: run_end(class, s, pos) })
}

/// The run of characters of `class` at `pos`, kept: it always matches, be
/// the run empty, and yields the run.
pub open spec fn kept(class: CharClass, s: Seq<char>, pos: int) -> Option<Match> {
    Some(Match { text: s.subrange(pos, run_end(class, s, pos)), end: run_end(class, s, pos) })
}

/// What stands between `pos` and the next `delimiter`: it always matches,
/// and yields nothing where the delimiter stands at `pos` or nowhere.
pub open spec fn text_before(delimiter: Seq<char>, s: Seq<char>, pos: int) -> Option<Match> {
    match first_occurrence(s, pos, delimiter) {
        Some(at) => Some(Match { text: s.subrange(pos, at), end: at }),
        None => Some(Match { text: Seq::empty(), end: pos }),
    }
}

/// Runs of one class, taken again and again, are the one longest run.
pub proof fn lemma_repeated_run(class: CharClass, s: Seq<char>, pos: int)
    requires
        0 <= pos <= s.len(),
    ensures
        repeated(AnyChar { check: class }, s, pos) == (Repeated {
            count: if run_end(class, s, pos) > pos {
                1nat
            } else {
                0nat
            },
            text: s.subrange(pos, run_end(class, s, pos)),
            end: run_end(class, s, pos),
        }),
{
    let end = run_end(class, s, pos);
    lemma_run_end(class, s, pos);
    if end > pos {
        assert(run_end(class, s, end) == end);
        assert(repeated(AnyChar { check: class }, s, end).count == 0);
        assert(s.subrange(pos, end) + Seq::<char>::empty() =~= s.subrange(pos, end));
    } else {
        assert(s.subrange(pos, end) =~= Seq::<char>::empty());
    }
}

/// Stretches up to one delimiter, taken again and again, are the one
/// stretch up to its first occurrence.
pub proof fn lemma_repeated_until(rule: AnyExcept, s: Seq<char>, pos: int)
    requires
        0 <= pos <= s.len(),
    ensures
        repeated(rule, s, pos).text == text_before(rule.prefix@, s, pos)->0.text,
        repeated(rule, s, pos).end == text_before(rule.prefix@, s, pos)->0.end,
{
    lemma_first_occurrence(s, pos, rule.prefix@);
    match first_occurrence(s, pos, rule.prefix@) {
        Some(at) => {
            if at > pos {
                assert(first_occurrence(s, at, rule.prefix@) == Some(at));
                assert(repeated(rule, s, at).count == 0);
                assert(s.subrange(pos, at) + Seq::<char>::empty() =~= s.subrange(pos, at));
            } else {
                assert(s.subrange(pos, at) =~= Seq::<char>::empty());
            }
        },
        None => {},
    }
}

/// The rule that takes the run of characters of `class`, be it empty.
pub open spec fn keep_rule(class: CharClass) -> ZeroOrMore<AnyChar> {
    ZeroOrMore { p: NTimesOrMore { p: AnyChar { check: class }, n: 0 } }
}

/// The rule that passes over the run of characters of `class`, be it empty.
pub open spec fn skip_rule(class: CharClass) -> Ignore<ZeroOrMore<AnyChar>> {
    Ignore { parser: keep_rule(class) }
}

/// What stands for a match with its text handed on by a mapper.
pub open spec fn mapped(mapper: Mapper, level: nat, m: Option<Match>) -> Option<Match> {
    match m {
        Some(m) => Some(Match { text: mapper.render(m.text, level), end: m.end }),
        None => None,
    }
}

/// The literal rule for the characters of `text`.
pub fn lit(text: &str) -> (r: CharSequence)
    ensures
        r.prefix@ == text@,
{
    CharSequence::new(text.to_owned())
}

/// The rule that takes the run of characters of `class`, be it empty.
pub fn keep(class: CharClass) -> (r: ZeroOrMore<AnyChar>)
    ensures
        r.wf(),
        r == keep_rule(class),
        forall|s: Seq<char>, pos: int|
            0 <= pos <= s.len() ==> #[trigger] r.spec_parse(s, pos) == kept(class, s, pos),
{
    let r = ZeroOrMore::new(AnyChar::new(class));
    assert forall|s: Seq<char>, pos: int| 0 <= pos <= s.len() implies #[trigger] r.spec_parse(
        s,
        pos,
    ) == kept(class, s, pos) by {
        lemma_repeated_run(class, s, pos);
    }
    r
}

/// The rule that passes over the run of characters of `class`, be it empty.
pub fn skip(class: CharClass) -> (r: Ignore<ZeroOrMore<AnyChar>>)
    ensures
        r.wf(),
        r == skip_rule(class),
        forall|s: Seq<char>, pos: int|
            0 <= pos <= s.len() ==> #[trigger] r.spec_parse(s, pos) == skipped(class, s, pos),
{
    let r = Ignore::new(keep(class));
    assert forall|s: Seq<char>, pos: int| 0 <= pos <= s.len() implies #[trigger] r.spec_parse(
        s,
        pos,
    ) == skipped(class, s, pos) by {
        assert(r.parser.spec_parse(s, pos) == kept(class, s, pos));
    }
    r
}

/// The rule that takes what stands in front of the next `delimiter`, be it nothing.
pub fn before(delimiter: &str) -> (r: ZeroOrMore<AnyExcept>)
    ensures
        r.wf(),
        forall|s: Seq<char>, pos: int|
            0 <= pos <= s.len() ==> #[trigger] r.spec_parse(s, pos) == text_before(
                delimiter@,
                s,
                pos,
            ),
{
    let rule = AnyExcept::new(delimiter.to_owned());
    assert(consuming(rule)) by {
        assert forall|s: Seq<char>, pos: int| 0 <= pos <= s.len() implies (
        #[trigger] rule.spec_parse(s, pos) matches Some(m) ==> pos < m.end) by {}
    }
    let r = ZeroOrMore::new(rule);
    assert forall|s: Seq<char>, pos: int| 0 <= pos <= s.len() implies #[trigger] r.spec_parse(
        s,
        pos,
    ) == text_before(delimiter@, s, pos) by {
        lemma_repeated_until(r.p.p, s, pos);
    }
    r
}

/// The rules for a run of one class mean what `kept` and `skipped` say.
pub proof fn lemma_run_rules(class: CharClass, s: Seq<char>, pos: int)
    requires
        0 <= pos <= s.len(),
    ensures
        keep_rule(class).spec_parse(s, pos) == kept(class, s, pos),
        skip_rule(class).spec_parse(s, pos) == skipped(class, s, pos),
{
    lemma_repeated_run(class, s, pos);
}

/// Hands a match on through a mapper.
pub fn map_match(mapper: &Mapper, level: usize, r: Option<Parsed>) -> (out: Option<Parsed>)
    ensures
        match r {
            Some(p) => out matches Some(q) && q.text@ == mapper.render(p.text@, level as nat)
                && q.end == p.end,
            None => out is None,
        },
{
    match r {
        Some(p) => Some(Parsed { text: mapper.apply(p.text.as_slice(), level), end: p.end }),
        None => None,
    }
}

} // verus!
