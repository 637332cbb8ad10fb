use reindent::json::{
    Array, ArrayContent, Failure, Key, KeyAndValue, Object, ObjectContent, SpecialValue,
    StringValue, Value, ValueAndComma,
};
use reindent::{Mapper, Parser};

#[test]
fn key() {
    let p = Key::new();

    let input = "\"aaa\": 234234";
    let res = p.parse(&input);
    assert_eq!("\"aaa\"", res.0.unwrap());
    assert_eq!(": 234234", res.1);

    let input = "\"aaa+32\": 234234";
    let res = p.parse(&input);
    assert_eq!(false, res.0.is_ok());
    assert_eq!("\"aaa+32\": 234234", res.1);
}

#[test]
fn value_and_comma() {
    let mapper = Mapper::Indent(4);
    let p = ValueAndComma::new(&mapper, 1);

    let input = "\"aaaa\",";
    let res = p.parse(&input);
    assert_eq!("    \"aaaa\",\n", res.0.unwrap());
    assert_eq!("", res.1);

    let input = "        \t\t\"aaaa\"   ,";
    let res = p.parse(&input);
    assert_eq!("    \"aaaa\",\n", res.0.unwrap());
    assert_eq!("", res.1);
}

#[test]
fn value() {
    let mapper = Mapper::Indent(4);
    let p = Value::new(&mapper, 0);

    let input = "\"aklsdkj33+++390  sldk sdf sdf ''\"";
    let res = p.parse(&input);
    assert_eq!(input, res.0.unwrap());
    assert_eq!("", res.1);

    let input = "12345";
    let res = p.parse(&input);
    assert_eq!(input, res.0.unwrap());
    assert_eq!("", res.1);

    let input = "234  ";
    let res = p.parse(&input);
    assert_eq!("234", res.0.unwrap());
    assert_eq!("  ", res.1);

    let input = "{}";
    let res = p.parse(&input);
    assert_eq!("{}", res.0.unwrap());
    assert_eq!("", res.1);

    let input = "[]";
    let res = p.parse(&input);
    assert_eq!("[]", res.0.unwrap());
    assert_eq!("", res.1);

    let input = "{\r\n\"aaa\": \"bbb\"\r\n}";
    let res = p.parse(&input);
    assert_eq!("{\n    \"aaa\": \"bbb\"\n}", res.0.unwrap());
    assert_eq!("", res.1);

    let input = "[1, 2, 3, {\"aaa\": 1}]";
    let res = p.parse(&input);
    assert_eq!(
        "[\n    1,\n    2,\n    3,\n    {\n        \"aaa\": 1\n    }\n]",
        res.0.unwrap()
    );
    assert_eq!("", res.1);

    let input = "{\"a\": 1, \"b\": 2, \"c\": 3, \"d\": {\"aaa\": 1}}";
    let res = p.parse(&input);
    assert_eq!(
        "{\n    \"a\": 1,\n    \"b\": 2,\n    \"c\": 3,\n    \"d\": {\n        \"aaa\": 1\n    }\n}",
        res.0.unwrap()
    );
    assert_eq!("", res.1);

    let input = "{\"total\":1,\"errors\":null}";
    let res = p.parse(&input);
    assert_eq!(
        "{\n    \"total\":1,\n    \"errors\":null\n}",
        res.0.unwrap()
    );
    assert_eq!("", res.1);
}

#[test]
fn full_field_with_value() {
    let ident = 4;
    let mapper = Mapper::Indent(ident);
    let p = KeyAndValue::new(&mapper, 1);

    let input = "\"key\"   : \"value\"";
    let res = p.parse(&input);
    assert_eq!("    \"key\": \"value\"\n", res.0.unwrap());
    assert_eq!("", res.1);

    let input = "   \"key\"   : \"value\"    ,";
    let res = p.parse(&input);
    assert_eq!("    \"key\": \"value\",\n", res.0.unwrap());
    assert_eq!("", res.1);

    let input = "\"key\" : { \"key2\": 1234 }";
    let res = p.parse(&input);
    assert_eq!(
        "    \"key\": {\n        \"key2\": 1234\n    }\n",
        res.0.unwrap()
    );
    assert_eq!("", res.1);

    let input = "\n          \"key\" : { \"key2\": 1234 }";
    let res = p.parse(&input);
    assert_eq!(
        "    \"key\": {\n        \"key2\": 1234\n    }\n",
        res.0.unwrap()
    );
    assert_eq!("", res.1);
}

#[test]
fn object_content() {
    let ident = 4;
    let mapper = Mapper::Indent(ident);
    let p = ObjectContent::new(&mapper, 1);

    let input = " \"key\" : \"value\" ";
    let res = p.parse(&input);
    assert_eq!("\n    \"key\": \"value\"\n", res.0.unwrap());
    assert_eq!("", res.1);

    let input = " \"key\" : \"value\" ,    \"key2\" : \"value2\"";
    let res = p.parse(&input);
    assert_eq!(
        "\n    \"key\": \"value\",\n    \"key2\": \"value2\"\n",
        res.0.unwrap()
    );
    assert_eq!("", res.1);
}

#[test]
fn array_content() {
    let ident = 4;
    let mapper = Mapper::Indent(ident);
    let p = ArrayContent::new(&mapper, 1);

    let input = "1, 2, 3";
    let res = p.parse(&input);
    assert_eq!("\n    1,\n    2,\n    3\n", res.0.unwrap());
    assert_eq!("", res.1);
}

#[test]
fn key_without_characters_fails() {
    let p = Key::new();

    let res = p.parse("\"\": 1");
    assert_eq!(Err(()), res.0);
    assert_eq!("\"\": 1", res.1);

    let res = p.parse("\"abc");
    assert_eq!(Err(()), res.0);
    assert_eq!("\"abc", res.1);
}

#[test]
fn key_takes_letters_of_any_script() {
    let p = Key::new();

    let res = p.parse("\"ключ-1_@\":");
    assert_eq!(Ok("\"ключ-1_@\"".to_string()), res.0);
    assert_eq!(":", res.1);
}

#[test]
fn special_values_in_two_casings() {
    let p = SpecialValue::new();

    for word in ["true", "TRUE", "false", "FALSE", "null", "NULL"] {
        let input = format!("{},", word);
        let res = p.parse(&input);
        assert_eq!(Ok(word.to_string()), res.0);
        assert_eq!(",", res.1);
    }

    for word in ["True", "nil", "Null", "fALSE", "tru", ""] {
        let res = p.parse(word);
        assert_eq!(Err(()), res.0);
        assert_eq!(word, res.1);
    }
}

#[test]
fn string_value_may_be_empty() {
    let p = StringValue::new();

    let res = p.parse("\"\" rest");
    assert_eq!("\"\"", res.0.unwrap());
    assert_eq!(" rest", res.1);
}

#[test]
fn string_value_ends_at_the_next_quote() {
    let p = StringValue::new();

    let res = p.parse("\"a\\\"b\"");
    assert_eq!("\"a\\\"", res.0.unwrap());
    assert_eq!("b\"", res.1);
}

#[test]
fn string_value_without_closing_quote_fails() {
    let p = StringValue::new();

    let res = p.parse("\"abc");
    assert!(matches!(res.0, Err(Failure::Mismatch)));
    assert_eq!("\"abc", res.1);

    let res = p.parse("abc\"");
    assert!(matches!(res.0, Err(Failure::Mismatch)));
    assert_eq!("abc\"", res.1);
}

#[test]
fn string_value_repairs_escapes() {
    let p = StringValue::new();

    let res = p.parse("\"\\u0041\"");
    assert_eq!("\"A\"", res.0.unwrap());
    assert_eq!("", res.1);

    let res = p.parse("\"\\u041c\\u0430\\u0440\\u0438\\u044f\",");
    assert_eq!("\"Мария\"", res.0.unwrap());
    assert_eq!(",", res.1);
}

#[test]
fn string_value_with_a_surrogate_is_an_error() {
    let p = StringValue::new();

    let res = p.parse("\"\\ud83d\"");
    assert!(matches!(res.0, Err(Failure::Encoding(_))));
    assert_eq!("\"\\ud83d\"", res.1);
}

#[test]
fn value_tries_its_kinds_in_order() {
    let mapper = Mapper::Indent(2);
    let p = Value::new(&mapper, 0);

    let res = p.parse("1.2.3,");
    assert_eq!("1.2.3", res.0.unwrap());
    assert_eq!(",", res.1);

    let res = p.parse("-1");
    assert!(matches!(res.0, Err(Failure::Mismatch)));
    assert_eq!("-1", res.1);

    let res = p.parse("1e5");
    assert_eq!("1", res.0.unwrap());
    assert_eq!("e5", res.1);

    let res = p.parse("nullify");
    assert_eq!("null", res.0.unwrap());
    assert_eq!("ify", res.1);

    let res = p.parse(" 1");
    assert!(matches!(res.0, Err(Failure::Mismatch)));
    assert_eq!(" 1", res.1);
}

#[test]
fn value_stops_at_an_encoding_failure() {
    let mapper = Mapper::Indent(2);
    let p = Value::new(&mapper, 0);

    let res = p.parse("{\"a\": [1, \"\\udc00\"]}");
    assert!(matches!(res.0, Err(Failure::Encoding(_))));
    assert_eq!("{\"a\": [1, \"\\udc00\"]}", res.1);
}

#[test]
fn member_keeps_the_space_behind_the_colon() {
    let mapper = Mapper::Indent(2);
    let p = KeyAndValue::new(&mapper, 1);

    let res = p.parse("\"k\" :  \t1 , next");
    assert_eq!("  \"k\":  \t1,\n", res.0.unwrap());
    assert_eq!(" next", res.1);
}

#[test]
fn member_with_two_commas_fails() {
    let mapper = Mapper::Indent(2);
    let p = KeyAndValue::new(&mapper, 1);

    let res = p.parse("\"k\": 1,,");
    assert!(matches!(res.0, Err(Failure::Mismatch)));
    assert_eq!("\"k\": 1,,", res.1);
}

#[test]
fn member_without_value_fails() {
    let mapper = Mapper::Indent(2);
    let p = KeyAndValue::new(&mapper, 1);

    let res = p.parse("  \"k\": ");
    assert!(matches!(res.0, Err(Failure::Mismatch)));
    assert_eq!("  \"k\": ", res.1);

    let res = p.parse("  \"k\" 1");
    assert!(matches!(res.0, Err(Failure::Mismatch)));
    assert_eq!("  \"k\" 1", res.1);
}

#[test]
fn object_moves_the_closing_brace() {
    let mapper = Mapper::Indent(3);
    let p = Object::new(&mapper, 2);

    let res = p.parse("{ \"a\" : 1 } tail");
    assert_eq!("{\n         \"a\": 1\n      }", res.0.unwrap());
    assert_eq!(" tail", res.1);
}

#[test]
fn empty_object_stays_as_it_is() {
    let mapper = Mapper::Indent(4);
    let p = Object::new(&mapper, 0);

    let res = p.parse("{}");
    assert_eq!("{}", res.0.unwrap());
    assert_eq!("", res.1);

    let res = p.parse("{ \n }");
    assert_eq!("{}", res.0.unwrap());
    assert_eq!("", res.1);
}

#[test]
fn object_that_is_not_closed_fails() {
    let mapper = Mapper::Indent(4);
    let p = Object::new(&mapper, 0);

    let res = p.parse("{\"a\": 1");
    assert!(matches!(res.0, Err(Failure::Mismatch)));
    assert_eq!("{\"a\": 1", res.1);

    let res = p.parse("{\"a\": 1]");
    assert!(matches!(res.0, Err(Failure::Mismatch)));
    assert_eq!("{\"a\": 1]", res.1);
}

#[test]
fn object_with_the_verbatim_mapper() {
    let mapper = Mapper::Verbatim;
    let p = Object::new(&mapper, 0);

    let res = p.parse("{\"a\":1}");
    assert_eq!("{\n\"a\":1", res.0.unwrap());
    assert_eq!("", res.1);
}

#[test]
fn array_moves_the_closing_bracket() {
    let mapper = Mapper::Indent(2);
    let p = Array::new(&mapper, 1);

    let res = p.parse("[ 1 , [ ] , true ]");
    assert_eq!("[\n    1,\n    [],\n    true\n  ]", res.0.unwrap());
    assert_eq!("", res.1);
}

#[test]
fn empty_contents_are_empty() {
    let mapper = Mapper::Indent(4);

    let res = ObjectContent::new(&mapper, 1).parse("  }");
    assert_eq!("", res.0.unwrap());
    assert_eq!("}", res.1);

    let res = ArrayContent::new(&mapper, 1).parse("]");
    assert_eq!("", res.0.unwrap());
    assert_eq!("]", res.1);
}

#[test]
fn json_format_object() {
    assert_eq!(
        "{\n    \"a\":1,\n    \"b\":2\n}",
        reindent::json::format("{\"a\":1,\"b\":2}", 4).unwrap()
    );
}

#[test]
fn json_format_array() {
    assert_eq!("[\n    1,\n    2,\n    3\n]", reindent::json::format("[1,2,3]", 4).unwrap());
}

#[test]
fn json_format_empty_object() {
    assert_eq!("{}", reindent::json::format("{}", 4).unwrap());
    assert_eq!("[]", reindent::json::format("[]", 4).unwrap());
}

#[test]
fn json_format_hands_back_what_does_not_match() {
    assert_eq!("not json {{{", reindent::json::format("not json {{{", 4).unwrap());
    assert_eq!("", reindent::json::format("", 4).unwrap());
    assert_eq!(" {}", reindent::json::format(" {}", 4).unwrap());
    assert_eq!("{\"a\": }", reindent::json::format("{\"a\": }", 4).unwrap());
}

#[test]
fn json_format_repairs_an_escape_in_a_string() {
    assert_eq!("\"A\"", reindent::json::format("\"\\u0041\"", 4).unwrap());
    assert_eq!(
        "{\n  \"name\": \"Мария\"\n}",
        reindent::json::format("{\"name\": \"\\u041c\\u0430\\u0440\\u0438\\u044f\"}", 2).unwrap()
    );
}

#[test]
fn json_format_with_a_surrogate_is_an_error() {
    let res = reindent::json::format("{\"a\": \"\\ud800\"}", 4);
    assert!(res.is_err());
    assert!(!res.unwrap_err().to_string().is_empty());
}

#[test]
fn json_format_drops_what_stands_behind_the_value() {
    assert_eq!("[\n 1\n]", reindent::json::format("[1] trailing", 1).unwrap());
}

#[test]
fn json_format_indents_by_depth() {
    let out = reindent::json::format("{\"a\":{\"b\":{\"c\":[1,{\"d\":2}]}}}", 3).unwrap();
    let expected = "{\n   \"a\":{\n      \"b\":{\n         \"c\":[\n            1,\n            {\n               \"d\":2\n            }\n         ]\n      }\n   }\n}";
    assert_eq!(expected, out);
}

#[test]
fn json_format_with_no_indentation() {
    assert_eq!("{\n\"a\":[\n1,\n2\n]\n}", reindent::json::format("{\"a\":[1,2]}", 0).unwrap());
}

#[test]
fn json_format_twice_gives_the_same() {
    let once = reindent::json::format("{ \"a\" : [ 1 , 2 , { \"b\" : null } ] , \"c\" : \"x y\" }", 4).unwrap();
    let twice = reindent::json::format(&once, 4).unwrap();
    assert_eq!(once, twice);
}
