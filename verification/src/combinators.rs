//! The primitive rules and the rules that are made of other rules.

use crate::parser::{consuming, then, Match, Parsed, Parser};
use crate::text::{
    copy_range, find, first_occurrence, holds_at, lemma_first_occurrence, lemma_run_end, occurs_at,
    run_end, skip_run, to_chars, CharClass,
};
use vstd::prelude::*;

verus! {

/// The literal rule: matches exactly the characters of `prefix`.
pub struct CharSequence {
    pub prefix: Vec<char>,
}

/// The meaning of the literal rule: it matches where the text holds `lit`
/// at `pos`, consumes exactly that and yields it.
pub open spec fn literal(lit: Seq<char>, s: Seq<char>, pos: int) -> Option<Match> {
    if occurs_at(s, pos, lit) {
        Some(Match { text: lit, end: pos + lit.len() })
    } else {
        None
    }
}

impl CharSequence {
    /// A new rule of this kind.
    pub fn new(pr: String) -> (r: Self)
        ensures
            r.prefix@ == pr@,
    {
        Self { prefix: to_chars(pr.as_str()) }
    }
}

impl Parser for CharSequence {
    open spec fn wf(&self) -> bool {
        true
    }

    open spec fn spec_parse(&self, s: Seq<char>, pos: int) -> Option<Match> {
        literal(self.prefix@, s, pos)
    }

    proof fn lemma_bounds(&self, s: Seq<char>, pos: int) {
    }

    fn parse_at(&self, input: &[char], pos: usize) -> (r: Option<Parsed>) {
        if holds_at(input, pos, self.prefix.as_slice()) {
            let end = pos + self.prefix.len();
            Some(Parsed { text: copy_range(input, pos, end), end })
        } else {
            None
        }
    }
}

/// The rule that runs up to a delimiter: matches what stands in front of the
/// next `prefix`, and leaves the delimiter itself.
pub struct AnyExcept {
    pub prefix: Vec<char>,
}

/// The meaning of the run up to a delimiter: it matches where `delimiter`
/// occurs somewhere behind `pos`, and yields what stands in between. It
/// fails where the delimiter stands at `pos` itself, and where there is none.
pub open spec fn until(delimiter: Seq<char>, s: Seq<char>, pos: int) -> Option<Match> {
    match first_occurrence(s, pos, delimiter) {
        Some(at) => if at > pos {
            Some(Match { text: s.subrange(pos, at), end: at })
        } else {
            None
        },
        None => None,
    }
}

/// A stretch up to a delimiter that matches is not empty: where nothing
/// stands in front of the delimiter, the rule fails.
pub proof fn lemma_until_not_empty(delimiter: Seq<char>, s: Seq<char>, pos: int)
    ensures
        until(delimiter, s, pos) matches Some(m) ==> pos < m.end <= s.len() && m.text.len() > 0
            && m.text == s.subrange(pos, m.end),
{
    if 0 <= pos {
        lemma_first_occurrence(s, pos, delimiter);
    }
}

impl AnyExcept {
    /// A new rule of this kind.
    pub fn new(prefix: String) -> (r: Self)
        ensures
            r.prefix@ == prefix@,
    {
        Self { prefix: to_chars(prefix.as_str()) }
    }
}

impl Parser for AnyExcept {
    open spec fn wf(&self) -> bool {
        true
    }

    open spec fn spec_parse(&self, s: Seq<char>, pos: int) -> Option<Match> {
        until(self.prefix@, s, pos)
    }

    proof fn lemma_bounds(&self, s: Seq<char>, pos: int) {
        lemma_first_occurrence(s, pos, self.prefix@);
    }

    fn parse_at(&self, input: &[char], pos: usize) -> (r: Option<Parsed>)
        ensures
            r matches Some(p) ==> pos < p.end && p.text@.len() > 0,
    {
        match find(input, pos, self.prefix.as_slice()) {
            Some(position) => if position > pos {
                Some(Parsed { text: copy_range(input, pos, position), end: position })
            } else {
                None
            },
            None => None,
        }
    }
}

/// The rule that matches a run of characters of one class.
pub struct AnyChar {
    pub check: CharClass,
}

/// The meaning of the run of a class: it matches the longest stretch of
/// characters of `class` that starts at `pos`, and fails where that stretch
/// is empty.
pub open spec fn run(class: CharClass, s: Seq<char>, pos: int) -> Option<Match> {
    let end = run_end(class, s, pos);
    if end > pos {
        Some(Match { text: s.subrange(pos, end), end })
    } else {
        None
    }
}

/// A run that matches is not empty: where no character of the class stands
/// at the position, the rule fails.
pub proof fn lemma_run_not_empty(class: CharClass, s: Seq<char>, pos: int)
    ensures
        run(class, s, pos) matches Some(m) ==> pos < m.end <= s.len() && m.text.len() > 0
            && m.text == s.subrange(pos, m.end),
{
    if 0 <= pos <= s.len() {
        lemma_run_end(class, s, pos);
    }
}

impl AnyChar {
    /// A new rule of this kind.
    pub fn new(check: CharClass) -> (r: Self)
        ensures
            r.check == check,
    {
        Self { check }
    }
}

impl Parser for AnyChar {
    open spec fn wf(&self) -> bool {
        true
    }

    open spec fn spec_parse(&self, s: Seq<char>, pos: int) -> Option<Match> {
        run(self.check, s, pos)
    }

    proof fn lemma_bounds(&self, s: Seq<char>, pos: int) {
        lemma_run_end(self.check, s, pos);
    }

    fn parse_at(&self, input: &[char], pos: usize) -> (r: Option<Parsed>)
        ensures
            r matches Some(p) ==> pos < p.end && p.text@.len() > 0,
    {
        let end = skip_run(&self.check, input, pos);
        if end == pos {
            None
        } else {
            Some(Parsed { text: copy_range(input, pos, end), end })
        }
    }
}

/// What came of applying a rule again and again.
pub struct Repeated {
    /// How many times the rule matched.
    pub count: nat,
    /// The texts of the matches, joined.
    pub text: Seq<char>,
    /// Where the last match ended.
    pub end: int,
}

/// A rule applied at `pos`, then where it ended, and so on until it fails.
/// An application that does not move on ends the series like a failure: the
/// rules that repeat hold only rules that always move on.
pub open spec fn repeated<P: Parser>(p: P, s: Seq<char>, pos: int) -> Repeated
    decreases s.len() - pos,
{
    match p.spec_parse(s, pos) {
        Some(m) => if pos < m.end <= s.len() {
            let more = repeated(p, s, m.end);
            Repeated { count: more.count + 1, text: m.text + more.text, end: more.end }
        } else {
            Repeated { count: 0, text: Seq::empty(), end: pos }
        },
        None => Repeated { count: 0, text: Seq::empty(), end: pos },
    }
}

/// A series of applications ends inside the text, at or behind its start,
/// and has moved on if the rule matched at all.
pub proof fn lemma_repeated_bounds<P: Parser>(p: P, s: Seq<char>, pos: int)
    requires
        0 <= pos <= s.len(),
    ensures
        pos <= repeated(p, s, pos).end <= s.len(),
        repeated(p, s, pos).count > 0 <==> pos < repeated(p, s, pos).end,
    decreases s.len() - pos,
{
    match p.spec_parse(s, pos) {
        Some(m) => if pos < m.end <= s.len() {
            lemma_repeated_bounds(p, s, m.end);
        },
        None => {},
    }
}

/// The rule that asks for at least `n` matches of `p` in a row.
pub struct NTimesOrMore<P> {
    pub p: P,
    pub n: usize,
}

/// The meaning of repetition: `p` is applied until it fails, and the series
/// counts as a match where it is at least `n` long.
pub open spec fn at_least<P: Parser>(p: P, n: nat, s: Seq<char>, pos: int) -> Option<Match> {
    let all = repeated(p, s, pos);
    if all.count >= n {
        Some(Match { text: all.text, end: all.end })
    } else {
        None
    }
}

impl<P: Parser> NTimesOrMore<P> {
    /// A new rule of this kind. The rule that is repeated has to move on
    /// whenever it matches: one that matches without consuming anything
    /// would match for ever.
    pub fn new(p: P, n: usize) -> (r: Self)
        requires
            p.wf(),
            consuming(p),
        ensures
            r.wf(),
            r.p == p,
            r.n == n,
    {
        Self { p, n }
    }
}

impl<P: Parser> Parser for NTimesOrMore<P> {
    open spec fn wf(&self) -> bool {
        self.p.wf() && consuming(self.p)
    }

    open spec fn spec_parse(&self, s: Seq<char>, pos: int) -> Option<Match> {
        at_least(self.p, self.n as nat, s, pos)
    }

    proof fn lemma_bounds(&self, s: Seq<char>, pos: int) {
        lemma_repeated_bounds(self.p, s, pos);
    }

    fn parse_at(&self, input: &[char], pos: usize) -> (r: Option<Parsed>) {
        let mut rest: usize = pos;
        let mut res: Vec<char> = Vec::new();
        let mut amount: usize = 0;
        loop
            invariant
                self.p.wf(),
                consuming(self.p),
                pos <= rest <= input.len(),
                amount <= rest - pos,
                repeated(self.p, input@, pos as int).count == amount + repeated(
                    self.p,
                    input@,
                    rest as int,
                ).count,
                repeated(self.p, input@, pos as int).text == res@ + repeated(
                    self.p,
                    input@,
                    rest as int,
                ).text,
                repeated(self.p, input@, pos as int).end == repeated(self.p, input@, rest as int).end,
            ensures
                pos <= rest <= input.len(),
                repeated(self.p, input@, pos as int) == (Repeated {
                    count: amount as nat,
                    text: res@,
                    end: rest as int,
                }),
            decreases input.len() - rest,
        {
            match self.p.parse_at(input, rest) {
                Some(p) => {
                    let mut text = p.text;
                    proof {
                        let more = repeated(self.p, input@, p.end as int);
                        assert(res@ + (text@ + more.text) =~= (res@ + text@) + more.text);
                    }
                    res.append(&mut text);
                    rest = p.end;
                    amount += 1;
                },
                None => {
                    assert(res@ + Seq::<char>::empty() =~= res@);
                    break ;
                },
            }
        }
        if self.n <= amount {
            Some(Parsed { text: res, end: rest })
        } else {
            None
        }
    }
}

/// The rule that asks for one match of `p` or more.
pub struct OneOrMore<P> {
    pub p: NTimesOrMore<P>,
}

impl<P: Parser> OneOrMore<P> {
    /// A new rule of this kind. The rule that is repeated has to move on
    /// whenever it matches.
    pub fn new(p: P) -> (r: Self)
        requires
            p.wf(),
            consuming(p),
        ensures
            r.wf(),
            r.p.p == p,
            r.p.n == 1,
    {
        Self { p: NTimesOrMore::new(p, 1) }
    }
}

impl<P: Parser> Parser for OneOrMore<P> {
    open spec fn wf(&self) -> bool {
        self.p.wf() && self.p.n == 1
    }

    open spec fn spec_parse(&self, s: Seq<char>, pos: int) -> Option<Match> {
        at_least(self.p.p, 1, s, pos)
    }

    proof fn lemma_bounds(&self, s: Seq<char>, pos: int) {
        self.p.lemma_bounds(s, pos);
    }

    fn parse_at(&self, input: &[char], pos: usize) -> (r: Option<Parsed>) {
        self.p.parse_at(input, pos)
    }
}

/// The rule that takes as many matches of `p` as there are, none included.
pub struct ZeroOrMore<P> {
    pub p: NTimesOrMore<P>,
}

impl<P: Parser> ZeroOrMore<P> {
    /// A new rule of this kind. The rule that is repeated has to move on
    /// whenever it matches.
    pub fn new(p: P) -> (r: Self)
        requires
            p.wf(),
            consuming(p),
        ensures
            r.wf(),
            r.p.p == p,
            r.p.n == 0,
    {
        Self { p: NTimesOrMore::new(p, 0) }
    }
}

impl<P: Parser> Parser for ZeroOrMore<P> {
    open spec fn wf(&self) -> bool {
        self.p.wf() && self.p.n == 0
    }

    open spec fn spec_parse(&self, s: Seq<char>, pos: int) -> Option<Match> {
        at_least(self.p.p, 0, s, pos)
    }

    proof fn lemma_bounds(&self, s: Seq<char>, pos: int) {
        self.p.lemma_bounds(s, pos);
    }

    fn parse_at(&self, input: &[char], pos: usize) -> (r: Option<Parsed>) {
        self.p.parse_at(input, pos)
    }
}

/// The rule that accepts no match of `p` or one, and rejects two in a row.
pub struct ZeroOrOne<P> {
    pub p: P,
}

/// The meaning of the optional rule. Where `rule` fails at `pos`, it
/// matches nothing; where `rule` matches once and fails behind that, it
/// matches that; where `rule` matches and matches again behind that, it
/// fails.
pub open spec fn optional(rule: spec_fn(int) -> Option<Match>, pos: int) -> Option<Match> {
    match rule(pos) {
        None => Some(Match { text: Seq::empty(), end: pos }),
        Some(once) => match rule(once.end) {
            None => Some(once),
            Some(_) => None,
        },
    }
}

impl<P: Parser> ZeroOrOne<P> {
    /// A new rule of this kind.
    pub fn new(p: P) -> (r: Self)
        ensures
            r.p == p,
    {
        Self { p }
    }
}

impl<P: Parser> Parser for ZeroOrOne<P> {
    open spec fn wf(&self) -> bool {
        self.p.wf()
    }

    open spec fn spec_parse(&self, s: Seq<char>, pos: int) -> Option<Match> {
        optional(|at: int| self.p.spec_parse(s, at), pos)
    }

    proof fn lemma_bounds(&self, s: Seq<char>, pos: int) {
        self.p.lemma_bounds(s, pos);
    }

    fn parse_at(&self, input: &[char], pos: usize) -> (r: Option<Parsed>) {
        match self.p.parse_at(input, pos) {
            None => Some(Parsed { text: Vec::new(), end: pos }),
            Some(once) => match self.p.parse_at(input, once.end) {
                None => Some(once),
                Some(_) => None,
            },
        }
    }
}

/// The rule that consumes what `parser` matches and yields nothing.
pub struct Ignore<P> {
    pub parser: P,
}

/// The meaning of suppression: the match of `p` with its text thrown away.
pub open spec fn suppressed(m: Option<Match>) -> Option<Match> {
    match m {
        Some(m) => Some(Match { text: Seq::empty(), end: m.end }),
        None => None,
    }
}

impl<P: Parser> Ignore<P> {
    /// A new rule of this kind.
    pub fn new(p: P) -> (r: Self)
        ensures
            r.parser == p,
    {
        Self { parser: p }
    }
}

impl<P: Parser> Parser for Ignore<P> {
    open spec fn wf(&self) -> bool {
        self.parser.wf()
    }

    open spec fn spec_parse(&self, s: Seq<char>, pos: int) -> Option<Match> {
        suppressed(self.parser.spec_parse(s, pos))
    }

    proof fn lemma_bounds(&self, s: Seq<char>, pos: int) {
        self.parser.lemma_bounds(s, pos);
    }

    fn parse_at(&self, input: &[char], pos: usize) -> (r: Option<Parsed>) {
        match self.parser.parse_at(input, pos) {
            Some(p) => Some(Parsed { text: Vec::new(), end: p.end }),
            None => None,
        }
    }
}

/// Two rules of any two kinds, one behind the other.
pub struct Then<A, B> {
    pub first: A,
    pub second: B,
}

impl<A: Parser, B: Parser> Then<A, B> {
    /// A new rule of this kind.
    pub fn new(first: A, second: B) -> (r: Self)
        ensures
            r.first == first,
            r.second == second,
    {
        Self { first, second }
    }
}

impl<A: Parser, B: Parser> Parser for Then<A, B> {
    open spec fn wf(&self) -> bool {
        self.first.wf() && self.second.wf()
    }

    open spec fn spec_parse(&self, s: Seq<char>, pos: int) -> Option<Match> {
        then(self.first.spec_parse(s, pos), |mid: int| self.second.spec_parse(s, mid))
    }

    proof fn lemma_bounds(&self, s: Seq<char>, pos: int) {
        self.first.lemma_bounds(s, pos);
        if let Some(a) = self.first.spec_parse(s, pos) {
            self.second.lemma_bounds(s, a.end);
        }
    }

    fn parse_at(&self, input: &[char], pos: usize) -> (r: Option<Parsed>) {
        match self.first.parse_at(input, pos) {
            Some(a) => match self.second.parse_at(input, a.end) {
                Some(b) => {
                    let mut text = a.text;
                    let mut more = b.text;
                    text.append(&mut more);
                    Some(Parsed { text, end: b.end })
                },
                None => None,
            },
            None => None,
        }
    }
}

/// A rule behind a pointer, so that rules can be kept in one list.
pub struct BoxedParser<P> {
    pub parser: Box<P>,
}

impl<P: Parser> BoxedParser<P> {
    /// A new rule of this kind.
    pub fn new(p: P) -> (r: Self)
        ensures
            *r.parser == p,
    {
        Self { parser: Box::new(p) }
    }
}

impl<P: Parser> Parser for BoxedParser<P> {
    open spec fn wf(&self) -> bool {
        self.parser.wf()
    }

    open spec fn spec_parse(&self, s: Seq<char>, pos: int) -> Option<Match> {
        self.parser.spec_parse(s, pos)
    }

    proof fn lemma_bounds(&self, s: Seq<char>, pos: int) {
        self.parser.lemma_bounds(s, pos);
    }

    fn parse_at(&self, input: &[char], pos: usize) -> (r: Option<Parsed>) {
        self.parser.parse_at(input, pos)
    }
}

/// The meaning of a sequence: the rules are tried in their order, each where
/// the one before it ended, and the texts are joined. It fails as a whole
/// where one of them fails.
pub open spec fn all_of<P: Parser>(rules: Seq<P>, s: Seq<char>, pos: int) -> Option<Match>
    decreases rules.len(),
{
    if rules.len() == 0 {
        Some(Match { text: Seq::empty(), end: pos })
    } else {
        then(all_of(rules.drop_last(), s, pos), |mid: int| rules.last().spec_parse(s, mid))
    }
}

/// A sequence whose first rules fail as a sequence fails as a whole.
pub proof fn lemma_all_of_fails<P: Parser>(rules: Seq<P>, k: int, s: Seq<char>, pos: int)
    requires
        0 <= k <= rules.len(),
        all_of(rules.take(k), s, pos) is None,
    ensures
        all_of(rules, s, pos) is None,
    decreases rules.len() - k,
{
    if k < rules.len() {
        assert(rules.take(k + 1).drop_last() =~= rules.take(k));
        lemma_all_of_fails(rules, k + 1, s, pos);
    } else {
        assert(rules.take(k) =~= rules);
    }
}

/// A sequence of rules that are well-formed ends inside the text, at or
/// behind its start.
pub proof fn lemma_all_of_bounds<P: Parser>(rules: Seq<P>, s: Seq<char>, pos: int)
    requires
        0 <= pos <= s.len(),
        forall|i: int| 0 <= i < rules.len() ==> (#[trigger] rules[i]).wf(),
    ensures
        all_of(rules, s, pos) matches Some(m) ==> pos <= m.end <= s.len(),
    decreases rules.len(),
{
    if rules.len() > 0 {
        lemma_all_of_bounds(rules.drop_last(), s, pos);
        if let Some(a) = all_of(rules.drop_last(), s, pos) {
            rules.last().lemma_bounds(s, a.end);
        }
    }
}

/// Rules of one kind, one behind the other.
pub struct And<P> {
    pub list: Vec<BoxedParser<P>>,
}

impl<P: Parser> And<P> {
    /// A new rule of this kind.
    pub fn new() -> (r: Self)
        ensures
            r.list@.len() == 0,
            r.wf(),
    {
        Self { list: Vec::new() }
    }

    /// Sets `p` behind the rules that the list holds.
    pub fn add_parser(&mut self, p: P)
        requires
            old(self).wf(),
            p.wf(),
        ensures
            final(self).wf(),
            final(self).list@ == old(self).list@.push(BoxedParser { parser: Box::new(p) }),
    {
        self.list.push(BoxedParser::new(p));
    }
}

impl<P: Parser> Parser for And<P> {
    open spec fn wf(&self) -> bool {
        forall|i: int| 0 <= i < self.list@.len() ==> (#[trigger] self.list@[i]).wf()
    }

    open spec fn spec_parse(&self, s: Seq<char>, pos: int) -> Option<Match> {
        all_of(self.list@, s, pos)
    }

    proof fn lemma_bounds(&self, s: Seq<char>, pos: int) {
        lemma_all_of_bounds(self.list@, s, pos);
    }

    fn parse_at(&self, input: &[char], pos: usize) -> (r: Option<Parsed>) {
        let mut res: Vec<char> = Vec::new();
        let mut rest: usize = pos;
        let mut i: usize = 0;
        while i < self.list.len()
            invariant
                self.wf(),
                i <= self.list@.len(),
                pos <= rest <= input.len(),
                all_of(self.list@.take(i as int), input@, pos as int) == Some(
                    Match { text: res@, end: rest as int },
                ),
            decreases self.list@.len() - i,
        {
            proof {
                assert(self.list@.take(i + 1).drop_last() =~= self.list@.take(i as int));
            }
            match self.list[i].parse_at(input, rest) {
                Some(p) => {
                    let mut text = p.text;
                    res.append(&mut text);
                    rest = p.end;
                },
                None => {
                    proof {
                        lemma_all_of_fails(self.list@, i + 1, input@, pos as int);
                    }
                    return None;
                },
            }
            i += 1;
        }
        proof {
            assert(self.list@.take(i as int) =~= self.list@);
        }
        Some(Parsed { text: res, end: rest })
    }
}

/// The meaning of alternation: the rules are tried in their order at the
/// same position, and the first that matches decides.
pub open spec fn first_of<P: Parser>(rules: Seq<P>, s: Seq<char>, pos: int) -> Option<Match>
    decreases rules.len(),
{
    if rules.len() == 0 {
        None
    } else {
        match rules[0].spec_parse(s, pos) {
            Some(m) => Some(m),
            None => first_of(rules.drop_first(), s, pos),
        }
    }
}

/// An alternation of rules that are well-formed ends inside the text, at or
/// behind its start.
pub proof fn lemma_first_of_bounds<P: Parser>(rules: Seq<P>, s: Seq<char>, pos: int)
    requires
        0 <= pos <= s.len(),
        forall|i: int| 0 <= i < rules.len() ==> (#[trigger] rules[i]).wf(),
    ensures
        first_of(rules, s, pos) matches Some(m) ==> pos <= m.end <= s.len(),
    decreases rules.len(),
{
    if rules.len() > 0 {
        rules[0].lemma_bounds(s, pos);
        lemma_first_of_bounds(rules.drop_first(), s, pos);
    }
}

/// Rules of one kind, of which the first that matches is taken.
pub struct Or<P> {
    pub list: Vec<BoxedParser<P>>,
}

impl<P: Parser> Or<P> {
    /// A new rule of this kind.
    pub fn new() -> (r: Self)
        ensures
            r.list@.len() == 0,
            r.wf(),
    {
        Self { list: Vec::new() }
    }

    /// Sets `p` behind the rules that the list holds.
    pub fn add_parser(&mut self, p: P)
        requires
            old(self).wf(),
            p.wf(),
        ensures
            final(self).wf(),
            final(self).list@ == old(self).list@.push(BoxedParser { parser: Box::new(p) }),
    {
        self.list.push(BoxedParser::new(p));
    }
}

impl<P: Parser> Parser for Or<P> {
    open spec fn wf(&self) -> bool {
        forall|i: int| 0 <= i < self.list@.len() ==> (#[trigger] self.list@[i]).wf()
    }

    open spec fn spec_parse(&self, s: Seq<char>, pos: int) -> Option<Match> {
        first_of(self.list@, s, pos)
    }

    proof fn lemma_bounds(&self, s: Seq<char>, pos: int) {
        lemma_first_of_bounds(self.list@, s, pos);
    }

    fn parse_at(&self, input: &[char], pos: usize) -> (r: Option<Parsed>) {
        let mut i: usize = 0;
        proof {
            assert(self.list@.skip(0) =~= self.list@);
        }
        while i < self.list.len()
            invariant
                self.wf(),
                i <= self.list@.len(),
                pos <= input.len(),
                first_of(self.list@, input@, pos as int) == first_of(
                    self.list@.skip(i as int),
                    input@,
                    pos as int,
                ),
            decreases self.list@.len() - i,
        {
            proof {
                assert(self.list@.skip(i as int).drop_first() =~= self.list@.skip(i + 1));
            }
            let ok = self.list[i].parse_at(input, pos);
            if ok.is_some() {
                return ok;
            }
            i += 1;
        }
        None
    }
}

} // verus!
