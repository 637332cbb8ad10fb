use reindent::{add, Mapper};

#[test]
fn add_two_numbers() {
    assert_eq!(4, add(2, 2));
    assert_eq!(u64::MAX, add(u64::MAX - 1, 1));
}

#[test]
fn format_picks_the_syntax_by_the_closing_mark() {
    assert_eq!(
        "<?xml?>\n<a>\n  <b>x</b>\n</a>\n",
        reindent::format("<?xml?><a><b>x</b></a>", 2).unwrap()
    );
    assert_eq!("{\n  \"a\":1\n}", reindent::format("{\"a\":1}", 2).unwrap());
}

#[test]
fn format_takes_json_with_the_mark_for_xml() {
    let input = "{\"a\": \"</b>\"}";
    assert_eq!(input, reindent::format(input, 2).unwrap());
}

#[test]
fn format_takes_xml_without_the_mark_for_json() {
    assert_eq!("<a/>", reindent::format("<a/>", 4).unwrap());
    assert_eq!("[\n    1\n]", reindent::format("[1]<?xml?><a/>", 4).unwrap());
}

#[test]
fn format_garbage_is_unchanged() {
    assert_eq!("not json {{{", reindent::format("not json {{{", 4).unwrap());
    assert_eq!("</", reindent::format("</", 4).unwrap());
}

#[test]
fn format_reports_a_string_that_cannot_be_repaired() {
    assert!(reindent::format("[\"\\udfff\"]", 4).is_err());
}

#[test]
fn mapper_indents_by_width_and_level() {
    let text: Vec<char> = "x".chars().collect();
    let line: String = Mapper::Indent(3).apply(&text, 2).into_iter().collect();
    assert_eq!("      x\n", line);
    let line: String = Mapper::Indent(3).apply(&text, 0).into_iter().collect();
    assert_eq!("x\n", line);
    let line: String = Mapper::Indent(0).apply(&text, 5).into_iter().collect();
    assert_eq!("x\n", line);
    let line: String = Mapper::Verbatim.apply(&text, 2).into_iter().collect();
    assert_eq!("x", line);
}
