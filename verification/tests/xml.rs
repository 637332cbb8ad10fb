use reindent::xml::{
    Attribute, AttributeList, ElementAny, ElementClose, ElementFull, ElementName,
    ElementOpen, ElementWithText, ElementXml, ElementsSet,
};
use reindent::{Mapper, Parser};

#[test]
fn parse_element_name() {
    let parser = ElementName::new();

    let res = parser.parse("hello");
    assert_eq!("hello", res.0.unwrap());
    assert_eq!("", res.1);

    let res = parser.parse("1hello");
    assert_eq!(Err(()), res.0);
    assert_eq!("1hello", res.1);

    let res = parser.parse("hello_world");
    assert_eq!("hello_world", res.0.unwrap());
    assert_eq!("", res.1);

    let res = parser.parse("std:hello_world");
    assert_eq!("std:hello_world", res.0.unwrap());
    assert_eq!("", res.1);

    let res = parser.parse("hello attr=");
    assert_eq!("hello", res.0.unwrap());
    assert_eq!(" attr=", res.1);
}

#[test]
fn parse_attribute() {
    let parser = Attribute::new();

    let res = parser.parse("hello=\"1\"");
    assert_eq!(" hello=\"1\"", res.0.unwrap());
    assert_eq!("", res.1);
}

#[test]
fn parse_attribute_list() {
    let parser = AttributeList::new();

    let res = parser.parse(" hello=\"1\" test=\"aaabbb\"");
    assert_eq!(" hello=\"1\" test=\"aaabbb\"", res.0.unwrap());
    assert_eq!("", res.1);

    let res = parser.parse("\n hello=\"1\"\n\n\n test=\"aaabbb\"");
    assert_eq!(" hello=\"1\" test=\"aaabbb\"", res.0.unwrap());
    assert_eq!("", res.1);

    let res = parser.parse("\n hello=\"1\"\n\n\n test=\"aaabbb\" \t\t\n");
    assert_eq!(" hello=\"1\" test=\"aaabbb\"", res.0.unwrap());
    assert_eq!("", res.1);
}

#[test]
fn parse_full_element() {
    let parser = ElementFull::new(0, Mapper::Verbatim);
    let res = parser.parse("<body>");
    assert_eq!(true, res.0.is_err());
    assert_eq!("<body>", res.1);

    let res = parser.parse("<body/>");
    assert_eq!("<body/>", res.0.unwrap());
    assert_eq!("", res.1);

    let res = parser.parse("<body aaa=\"bbb\"/>");
    assert_eq!("<body aaa=\"bbb\"/>", res.0.unwrap());
    assert_eq!("", res.1);

    let res = parser.parse("<body aaa=\"bbb\"");
    assert_eq!(true, res.0.is_err());
    assert_eq!("<body aaa=\"bbb\"", res.1);
}

#[test]
fn parse_element_open() {
    let parser = ElementOpen::new(0, Mapper::Verbatim);
    let res = parser.parse("<body>");
    assert_eq!("<body>", res.0.unwrap());
    assert_eq!("", res.1);

    let res = parser.parse("<body aaa=\"bbb\">");
    assert_eq!("<body aaa=\"bbb\">", res.0.unwrap());
    assert_eq!("", res.1);

    let res = parser.parse("<body aaa=\"bbb\"/>");
    assert_eq!(true, res.0.is_err());
    assert_eq!("<body aaa=\"bbb\"/>", res.1);
}

#[test]
fn parse_element_close() {
    let parser = ElementClose::new(0, Mapper::Verbatim);
    let res = parser.parse("</body>");
    assert_eq!("</body>", res.0.unwrap());
    assert_eq!("", res.1);

    let res = parser.parse("</body aaa=\"bbb\">");
    assert_eq!(true, res.0.is_err());
    assert_eq!("</body aaa=\"bbb\">", res.1);
}

#[test]
fn parse_element_with_text() {
    let parser = ElementWithText::new(0, Mapper::Indent(4));
    let res = parser.parse("<body></body>");
    assert_eq!("<body></body>\n", res.0.unwrap());
    assert_eq!("", res.1);

    let res = parser.parse("<body>aaabbb</body>");
    assert_eq!("<body>aaabbb</body>\n", res.0.unwrap());
    assert_eq!("", res.1);
}

#[test]
fn parse_element_with_children() {
    let parser = ElementAny::new(0, Mapper::Indent(4));

    let res = parser.parse("<body><inner></inner></body>");
    assert_eq!("<body>\n    <inner></inner>\n</body>\n", res.0.unwrap());
    assert_eq!("", res.1);

    let res = parser.parse("<body><inner>a</inner><inner>b</inner></body>");
    assert_eq!(
        "<body>\n    <inner>a</inner>\n    <inner>b</inner>\n</body>\n",
        res.0.unwrap()
    );
    assert_eq!("", res.1);

    let res = parser.parse("<body><inner>a</inner><inner>b</inner>");
    assert_eq!(true, res.0.is_err());
    assert_eq!("<body><inner>a</inner><inner>b</inner>", res.1);

    let res = parser.parse("<body><inner>a</inner><inner>b</inner></body>");
    assert_eq!(
        "<body>\n    <inner>a</inner>\n    <inner>b</inner>\n</body>\n",
        res.0.unwrap()
    );
}

#[test]
fn space_ignoring() {
    let parser = ElementAny::new(0, Mapper::Indent(4));
    let input = "<body>    <node>test</node>          </body>\n";
    let expect = "<body>\n    <node>test</node>\n</body>\n";
    let res = parser.parse(input);
    assert_eq!(expect, res.0.unwrap());
}

#[test]
fn xml_prefix_element() {
    let input = "<?xml version=\"1.0\" encoding=\"UTF-8\"?>";
    let expect = "<?xml version=\"1.0\" encoding=\"UTF-8\"?>\n";

    let parser = ElementXml::new(Mapper::Indent(0));
    let res = parser.parse(input);
    assert_eq!(expect, res.0.unwrap());
}

#[test]
fn full_xml() {
    let input = "<?xml version=\"1.0\" encoding=\"UTF-8\"?><body><node>test</node><node>test</node></body>";
    let expect = "<?xml version=\"1.0\" encoding=\"UTF-8\"?>\n<body>\n    <node>test</node>\n    <node>test</node>\n</body>\n";

    let res = reindent::xml::format(input, 4);
    assert_eq!(expect, res.unwrap());
}

#[test]
fn soap_xml() {
    let input = "<?xml version=\"1.0\" encoding=\"UTF-8\"?><SOAP-ENV:Envelope xmlns:SOAP-ENV=\"http://schemas.xmlsoap.org/soap/envelope/\" xmlns:awsse=\"http://xml.amadeus.com/2010/06/Session_v3\" xmlns:wsa=\"http://www.w3.org/2005/08/addressing\"></SOAP-ENV:Envelope>";
    let expect = "<?xml version=\"1.0\" encoding=\"UTF-8\"?>\n<SOAP-ENV:Envelope xmlns:SOAP-ENV=\"http://schemas.xmlsoap.org/soap/envelope/\" xmlns:awsse=\"http://xml.amadeus.com/2010/06/Session_v3\" xmlns:wsa=\"http://www.w3.org/2005/08/addressing\">\n</SOAP-ENV:Envelope>\n";

    let res = reindent::xml::format(input, 4);
    assert_eq!(expect, res.unwrap());
}

#[test]
fn name_must_begin_with_a_letter() {
    let parser = ElementName::new();

    for input in ["", "_a", ":a", "-a", " a", "<a"] {
        let res = parser.parse(input);
        assert_eq!(Err(()), res.0);
        assert_eq!(input, res.1);
    }

    let res = parser.parse("a");
    assert_eq!(Ok("a".to_string()), res.0);
    assert_eq!("", res.1);

    let res = parser.parse("ж-1:x_y.z");
    assert_eq!(Ok("ж-1:x_y".to_string()), res.0);
    assert_eq!(".z", res.1);
}

#[test]
fn attribute_value_may_be_empty() {
    let parser = Attribute::new();

    let res = parser.parse("a=\"\" b");
    assert_eq!(Ok(" a=\"\"".to_string()), res.0);
    assert_eq!(" b", res.1);
}

#[test]
fn attribute_needs_its_quotes() {
    let parser = Attribute::new();

    for input in ["a=1", "a =\"1\"", "a=\"1", "=\"1\"", "a"] {
        let res = parser.parse(input);
        assert_eq!(Err(()), res.0);
        assert_eq!(input, res.1);
    }
}

#[test]
fn attribute_list_may_be_empty() {
    let parser = AttributeList::new();

    let res = parser.parse(">");
    assert_eq!(Ok(String::new()), res.0);
    assert_eq!(">", res.1);

    let res = parser.parse("  >");
    assert_eq!(Ok(String::new()), res.0);
    assert_eq!("  >", res.1);
}

#[test]
fn tags_are_handed_on_by_the_mapper() {
    let res = ElementOpen::new(2, Mapper::Indent(3)).parse("<a  b=\"1\"\n c=\"2\" >x");
    assert_eq!(Ok("      <a b=\"1\" c=\"2\">\n".to_string()), res.0);
    assert_eq!("x", res.1);

    let res = ElementClose::new(1, Mapper::Indent(3)).parse("</a>x");
    assert_eq!(Ok("   </a>\n".to_string()), res.0);
    assert_eq!("x", res.1);

    let res = ElementFull::new(1, Mapper::Indent(2)).parse("<a b=\"1\"/>x");
    assert_eq!(Ok("  <a b=\"1\"/>\n".to_string()), res.0);
    assert_eq!("x", res.1);
}

#[test]
fn closing_tag_takes_no_space() {
    let parser = ElementClose::new(0, Mapper::Verbatim);

    for input in ["</ a>", "</a >", "< /a>", "</a", "</>"] {
        let res = parser.parse(input);
        assert_eq!(Err(()), res.0);
        assert_eq!(input, res.1);
    }
}

#[test]
fn element_with_text_stays_on_one_line() {
    let parser = ElementWithText::new(2, Mapper::Indent(2));

    let res = parser.parse("<a x=\"1\">two\nlines</b>\n");
    assert_eq!(Ok("    <a x=\"1\">two\nlines</b>\n".to_string()), res.0);
    assert_eq!("\n", res.1);
}

#[test]
fn element_with_text_does_not_hold_elements() {
    let parser = ElementWithText::new(0, Mapper::Indent(2));

    let res = parser.parse("<a>text<b/></a>");
    assert_eq!(Err(()), res.0);
    assert_eq!("<a>text<b/></a>", res.1);
}

#[test]
fn elements_set_tries_its_kinds_in_order() {
    let parser = ElementsSet::new(1, Mapper::Indent(2));

    let res = parser.parse("<a>x</a>  <b/>");
    assert_eq!(Ok("  <a>x</a>\n".to_string()), res.0);
    assert_eq!("<b/>", res.1);

    let res = parser.parse("<b/>\n\t<c/>");
    assert_eq!(Ok("  <b/>\n".to_string()), res.0);
    assert_eq!("<c/>", res.1);

    let res = parser.parse("<c><d/></c>\u{a0}!");
    assert_eq!(Ok("  <c>\n    <d/>\n  </c>\n".to_string()), res.0);
    assert_eq!("!", res.1);

    let res = parser.parse("text");
    assert_eq!(Err(()), res.0);
    assert_eq!("text", res.1);
}

#[test]
fn mixed_content_is_not_matched() {
    let parser = ElementAny::new(0, Mapper::Indent(4));

    let res = parser.parse("<a>text<b>x</b></a>");
    assert_eq!(Err(()), res.0);
    assert_eq!("<a>text<b>x</b></a>", res.1);
}

#[test]
fn element_any_drops_only_ascii_space_round_its_children() {
    let parser = ElementAny::new(0, Mapper::Indent(4));

    let res = parser.parse("<a>\u{a0}<b/></a>");
    assert_eq!(Err(()), res.0);
    assert_eq!("<a>\u{a0}<b/></a>", res.1);

    let res = parser.parse("<a> <b/>\u{a0}</a>");
    assert_eq!(Ok("<a>\n    <b/>\n</a>\n".to_string()), res.0);
    assert_eq!("", res.1);
}

#[test]
fn prolog_ends_at_its_mark() {
    let parser = ElementXml::new(Mapper::Indent(4));

    let res = parser.parse("<?xml?><a/>");
    assert_eq!(Ok("<?xml?>\n".to_string()), res.0);
    assert_eq!("<a/>", res.1);

    for input in ["<?xml a=\"b/c\"?>", "<?xml", "<? xml?>", "<?xml >"] {
        let res = parser.parse(input);
        assert_eq!(Err(()), res.0);
        assert_eq!(input, res.1);
    }
}

#[test]
fn xml_format_nested_elements() {
    assert_eq!(
        "<?xml?>\n<a>\n    <b>x</b>\n</a>\n",
        reindent::xml::format("<?xml?><a><b>x</b></a>", 4).unwrap()
    );
}

#[test]
fn xml_format_without_prolog_changes_nothing() {
    assert_eq!("<a/>", reindent::xml::format("<a/>", 4).unwrap());
    assert_eq!("<a><b>x</b></a>", reindent::xml::format("<a><b>x</b></a>", 4).unwrap());
    assert_eq!("", reindent::xml::format("", 4).unwrap());
}

#[test]
fn xml_format_takes_one_root_that_holds_elements() {
    let input = "<?xml version=\"1.0\"?><a>x</a>";
    assert_eq!(input, reindent::xml::format(input, 4).unwrap());

    let input = "<?xml version=\"1.0\"?><a/>";
    assert_eq!(input, reindent::xml::format(input, 4).unwrap());

    let input = "<?xml version=\"1.0\"?><a><b/>";
    assert_eq!(input, reindent::xml::format(input, 4).unwrap());
}

#[test]
fn xml_format_indents_by_depth() {
    let input = "<?xml version=\"1.0\"?>\n<a>\n<b k=\"v\">\n<c>\n<d>text</d>\n<e/>\n</c>\n</b>\n</a>\n";
    let expect = "<?xml version=\"1.0\"?>\n<a>\n  <b k=\"v\">\n    <c>\n      <d>text</d>\n      <e/>\n    </c>\n  </b>\n</a>\n";
    assert_eq!(expect, reindent::xml::format(input, 2).unwrap());
}

#[test]
fn xml_format_twice_gives_the_same() {
    let input = "<?xml version=\"1.0\"?><a><b k=\"v\"><c>text</c><d/></b></a>";
    let once = reindent::xml::format(input, 4).unwrap();
    let twice = reindent::xml::format(&once, 4).unwrap();
    assert_eq!(once, twice);
}

#[test]
fn xml_format_a_soap_envelope() {
    let input = "<?xml version=\"1.0\" encoding=\"UTF-8\"?>\n<soap:Envelope xmlns:soap=\"http://schemas.xmlsoap.org/soap/envelope/\">\n<soap:Header>\n<wsa:Action>urn:ping</wsa:Action>\n</soap:Header>\n<soap:Body>\n<ping id=\"7\">\n<text>hello</text>\n<empty/>\n</ping>\n</soap:Body>\n</soap:Envelope>\n";
    let expect = "<?xml version=\"1.0\" encoding=\"UTF-8\"?>\n<soap:Envelope xmlns:soap=\"http://schemas.xmlsoap.org/soap/envelope/\">\n    <soap:Header>\n        <wsa:Action>urn:ping</wsa:Action>\n    </soap:Header>\n    <soap:Body>\n        <ping id=\"7\">\n            <text>hello</text>\n            <empty/>\n        </ping>\n    </soap:Body>\n</soap:Envelope>\n";
    assert_eq!(expect, reindent::xml::format(input, 4).unwrap());
}

#[test]
fn marks_are_plain_characters() {
    assert!(reindent::xml_again::marks_are_plain_here());
}
