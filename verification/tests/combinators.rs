use reindent::{
    And, AnyChar, AnyExcept, BoxedParser, CharClass, CharSequence, Ignore, NTimesOrMore, OneOrMore,
    Or, Parser, Then, ZeroOrMore, ZeroOrOne,
};

#[test]
fn one_or_more() {
    let parser = OneOrMore::new(CharSequence::new("ha".to_string()));

    let res = parser.parse("ha12345");
    assert_eq!("ha", res.0.unwrap());
    assert_eq!("12345", res.1);

    let res = parser.parse("hahahaha12345");
    assert_eq!("hahahaha", res.0.unwrap());
    assert_eq!("12345", res.1);
}

#[test]
fn any_char() {
    let parser = AnyChar::new(CharClass::Is('a'));

    let res = parser.parse("aaab");
    assert_eq!("aaa", res.0.unwrap());
    assert_eq!("b", res.1);
}

#[test]
fn parse_sequence() {
    let mut parser = And::new();
    parser.add_parser(CharSequence::new("he".to_string()));
    parser.add_parser(CharSequence::new("ll".to_string()));
    parser.add_parser(CharSequence::new("o".to_string()));

    let res = parser.parse("hello");
    assert_eq!("hello", res.0.unwrap());
    assert_eq!("", res.1);

    let res = parser.parse("help");
    assert_eq!(true, res.0.is_err());
    assert_eq!("help", res.1);
}

#[test]
fn parse_or() {
    let mut parser = Or::new();
    parser.add_parser(CharSequence::new("hello".to_string()));
    parser.add_parser(CharSequence::new("goodbye".to_string()));

    let res = parser.parse("hello");
    assert_eq!("hello", res.0.unwrap());
    assert_eq!("", res.1);

    let res = parser.parse("goodbye");
    assert_eq!("goodbye", res.0.unwrap());
    assert_eq!("", res.1);

    let res = parser.parse("help");
    assert_eq!(true, res.0.is_err());
    assert_eq!("help", res.1);
}

#[test]
fn zero_or_one() {
    let parser = ZeroOrOne::new(CharSequence::new("ha".to_string()));

    let res = parser.parse("ha12345");
    assert_eq!("ha", res.0.unwrap());
    assert_eq!("12345", res.1);

    let res = parser.parse("hahahaha12345");
    assert_eq!(true, res.0.is_err());
    assert_eq!("hahahaha12345", res.1);
}

#[test]
fn literal_needs_the_whole_prefix() {
    let parser = CharSequence::new("hello".to_string());

    let res = parser.parse("hell");
    assert_eq!(Err(()), res.0);
    assert_eq!("hell", res.1);

    let res = parser.parse("");
    assert_eq!(Err(()), res.0);
    assert_eq!("", res.1);

    let res = parser.parse("hello world");
    assert_eq!(Ok("hello".to_string()), res.0);
    assert_eq!(" world", res.1);
}

#[test]
fn literal_counts_characters_not_bytes() {
    let parser = CharSequence::new("пр".to_string());

    let res = parser.parse("привет");
    assert_eq!(Ok("пр".to_string()), res.0);
    assert_eq!("ивет", res.1);
}

#[test]
fn empty_literal_matches_everywhere() {
    let parser = CharSequence::new(String::new());

    let res = parser.parse("abc");
    assert_eq!(Ok(String::new()), res.0);
    assert_eq!("abc", res.1);

    let res = parser.parse("");
    assert_eq!(Ok(String::new()), res.0);
    assert_eq!("", res.1);
}

#[test]
fn run_of_zero_characters_is_a_failure() {
    let parser = AnyChar::new(CharClass::Is('a'));

    let res = parser.parse("baaa");
    assert_eq!(Err(()), res.0);
    assert_eq!("baaa", res.1);

    let res = parser.parse("");
    assert_eq!(Err(()), res.0);
    assert_eq!("", res.1);
}

#[test]
fn run_takes_the_whole_input() {
    let parser = AnyChar::new(CharClass::NumberChar);

    let res = parser.parse("3.14");
    assert_eq!(Ok("3.14".to_string()), res.0);
    assert_eq!("", res.1);
}

#[test]
fn until_stops_in_front_of_the_delimiter() {
    let parser = AnyExcept::new("-->".to_string());

    let res = parser.parse("abc-->def-->");
    assert_eq!(Ok("abc".to_string()), res.0);
    assert_eq!("-->def-->", res.1);
}

#[test]
fn until_fails_on_empty_content() {
    let parser = AnyExcept::new("<".to_string());

    let res = parser.parse("<a>");
    assert_eq!(Err(()), res.0);
    assert_eq!("<a>", res.1);
}

#[test]
fn until_fails_without_delimiter() {
    let parser = AnyExcept::new("<".to_string());

    let res = parser.parse("abc");
    assert_eq!(Err(()), res.0);
    assert_eq!("abc", res.1);

    let res = parser.parse("");
    assert_eq!(Err(()), res.0);
    assert_eq!("", res.1);
}

#[test]
fn until_with_empty_delimiter_fails() {
    let parser = AnyExcept::new(String::new());

    let res = parser.parse("abc");
    assert_eq!(Err(()), res.0);
    assert_eq!("abc", res.1);
}

#[test]
fn zero_or_more_accepts_nothing() {
    let parser = ZeroOrMore::new(CharSequence::new("ha".to_string()));

    let res = parser.parse("12345");
    assert_eq!(Ok(String::new()), res.0);
    assert_eq!("12345", res.1);

    let res = parser.parse("hahah");
    assert_eq!(Ok("haha".to_string()), res.0);
    assert_eq!("h", res.1);
}

#[test]
fn one_or_more_rejects_nothing() {
    let parser = OneOrMore::new(CharSequence::new("ha".to_string()));

    let res = parser.parse("12345");
    assert_eq!(Err(()), res.0);
    assert_eq!("12345", res.1);
}

#[test]
fn at_least_backtracks_the_whole_run() {
    let parser = NTimesOrMore::new(CharSequence::new("ab".to_string()), 3);

    let res = parser.parse("ababx");
    assert_eq!(Err(()), res.0);
    assert_eq!("ababx", res.1);

    let res = parser.parse("abababx");
    assert_eq!(Ok("ababab".to_string()), res.0);
    assert_eq!("x", res.1);

    let res = parser.parse("ababababx");
    assert_eq!(Ok("abababab".to_string()), res.0);
    assert_eq!("x", res.1);
}

#[test]
fn zero_or_one_accepts_nothing() {
    let parser = ZeroOrOne::new(CharSequence::new(",".to_string()));

    let res = parser.parse("x");
    assert_eq!(Ok(String::new()), res.0);
    assert_eq!("x", res.1);

    let res = parser.parse(",,");
    assert_eq!(Err(()), res.0);
    assert_eq!(",,", res.1);
}

#[test]
fn ignore_consumes_and_yields_nothing() {
    let parser = Ignore::new(AnyChar::new(CharClass::Whitespace));

    let res = parser.parse(" \t\n x");
    assert_eq!(Ok(String::new()), res.0);
    assert_eq!("x", res.1);

    let res = parser.parse("x ");
    assert_eq!(Err(()), res.0);
    assert_eq!("x ", res.1);
}

#[test]
fn sequence_backtracks_to_its_start() {
    let mut parser = And::new();
    parser.add_parser(AnyChar::new(CharClass::NumberChar));
    parser.add_parser(AnyChar::new(CharClass::Is('x')));

    let res = parser.parse("123y");
    assert_eq!(Err(()), res.0);
    assert_eq!("123y", res.1);

    let res = parser.parse("123xxy");
    assert_eq!(Ok("123xx".to_string()), res.0);
    assert_eq!("y", res.1);
}

#[test]
fn empty_sequence_matches_nothing() {
    let parser: And<CharSequence> = And::new();

    let res = parser.parse("abc");
    assert_eq!(Ok(String::new()), res.0);
    assert_eq!("abc", res.1);
}

#[test]
fn empty_alternation_fails() {
    let parser: Or<CharSequence> = Or::new();

    let res = parser.parse("abc");
    assert_eq!(Err(()), res.0);
    assert_eq!("abc", res.1);
}

#[test]
fn alternation_takes_the_first_match_not_the_longest() {
    let mut parser = Or::new();
    parser.add_parser(CharSequence::new("ab".to_string()));
    parser.add_parser(CharSequence::new("abc".to_string()));

    let res = parser.parse("abcd");
    assert_eq!(Ok("ab".to_string()), res.0);
    assert_eq!("cd", res.1);
}

#[test]
fn then_joins_two_kinds_of_rules() {
    let parser = Then::new(
        CharSequence::new("<".to_string()),
        Then::new(AnyChar::new(CharClass::NameChar), CharSequence::new(">".to_string())),
    );

    let res = parser.parse("<a:b>rest");
    assert_eq!(Ok("<a:b>".to_string()), res.0);
    assert_eq!("rest", res.1);

    let res = parser.parse("<a:b rest");
    assert_eq!(Err(()), res.0);
    assert_eq!("<a:b rest", res.1);
}

#[test]
fn boxed_rule_is_the_rule() {
    let parser = BoxedParser::new(CharSequence::new("ha".to_string()));

    let res = parser.parse("ha!");
    assert_eq!(Ok("ha".to_string()), res.0);
    assert_eq!("!", res.1);
}

#[test]
fn classes_of_characters() {
    assert!(CharClass::Whitespace.contains('\u{a0}'));
    assert!(!CharClass::AsciiWhitespace.contains('\u{a0}'));
    assert!(CharClass::AsciiWhitespace.contains('\u{c}'));
    assert!(!CharClass::AsciiWhitespace.contains('\u{b}'));
    assert!(CharClass::KeyChar.contains('@'));
    assert!(CharClass::KeyChar.contains('я'));
    assert!(!CharClass::KeyChar.contains('+'));
    assert!(CharClass::NumberChar.contains('.'));
    assert!(!CharClass::NumberChar.contains('-'));
    assert!(!CharClass::NumberChar.contains('٣'));
    assert!(CharClass::NameChar.contains(':'));
    assert!(!CharClass::NameChar.contains('@'));
    assert!(CharClass::PrologChar.contains('='));
    assert!(!CharClass::PrologChar.contains('?'));
    assert!(!CharClass::PrologChar.contains('/'));
    assert!(!CharClass::PrologChar.contains('>'));
    assert!(CharClass::Not('"').contains('\''));
    assert!(!CharClass::Not('"').contains('"'));
}
