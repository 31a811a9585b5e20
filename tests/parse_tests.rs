use rjson::{
    parse, parse_for_array, parse_for_literal, parse_for_number, parse_for_obj, parse_for_string,
    skip_white_space, JsonStruct, ParseError, ParseResult,
};

fn number_is(r: Result<ParseResult, ParseError>, expected: f32, rest: &str) -> bool {
    match r {
        Ok(ParseResult { json, json_struct: JsonStruct::Number(text) }) => {
            text.parse::<f32>() == Ok(expected) && json == rest
        }
        _ => false,
    }
}

fn value_number_is(r: Result<JsonStruct, ParseError>, expected: f32) -> bool {
    match r {
        Ok(JsonStruct::Number(text)) => text.parse::<f32>() == Ok(expected),
        _ => false,
    }
}

fn string_is(r: Result<ParseResult, ParseError>, expected: &str, rest: &str) -> bool {
    match r {
        Ok(ParseResult { json, json_struct: JsonStruct::Str(s) }) => s == expected && json == rest,
        _ => false,
    }
}

fn value_string_is(r: Result<JsonStruct, ParseError>, expected: &str) -> bool {
    match r {
        Ok(JsonStruct::Str(s)) => s == expected,
        _ => false,
    }
}

#[test]
fn test_parse() {
    assert!(matches!(parse("null"), Ok(JsonStruct::Null)));
    assert!(matches!(parse("false"), Ok(JsonStruct::Boolean(false))));
    assert!(!matches!(parse("false"), Ok(JsonStruct::Boolean(true))));
    assert!(matches!(parse("true"), Ok(JsonStruct::Boolean(true))));
    assert!(!matches!(parse("true"), Ok(JsonStruct::Boolean(false))));

    assert!(matches!(parse("tru"), Err(ParseError::ValueError)));
    assert!(matches!(parse("nul"), Err(ParseError::ValueError)));
    assert!(matches!(parse("f"), Err(ParseError::ValueError)));

    assert!(value_number_is(parse("100"), 100.0));

    assert!(value_string_is(parse("\"hello,world\""), "hello,world"));
    assert!(value_string_is(parse("\"\""), ""));
}

#[test]
fn test_white_space_skip() {
    assert!(matches!(skip_white_space("   "), Ok("")));
    assert!(matches!(skip_white_space(" 1 "), Ok("1 ")));
    assert!(matches!(skip_white_space("1   "), Ok("1   ")));
    assert!(matches!(skip_white_space("   1"), Ok("1")));
    assert!(!matches!(skip_white_space("   1"), Err(_)));
}

#[test]
fn test_null_parse() {
    let null_s = "null";

    println!("null parse: {:?}", parse_for_literal("null", null_s, JsonStruct::Null));
    assert!(matches!(
        parse_for_literal("null", null_s, JsonStruct::Null),
        Ok(ParseResult { json: "", json_struct: JsonStruct::Null })
    ));
    assert!(matches!(
        parse_for_literal("   ", null_s, JsonStruct::Null),
        Err(ParseError::ValueError)
    ));
    assert!(matches!(parse_for_literal("null  ", null_s, JsonStruct::Null), Ok(_)));
    assert!(matches!(parse_for_literal("nul  ", null_s, JsonStruct::Null), Err(_)));
    assert!(matches!(parse_for_literal("nul", null_s, JsonStruct::Null), Err(_)));
    assert!(!matches!(
        parse_for_literal("null", null_s, JsonStruct::Null),
        Ok(ParseResult { json: "  ", json_struct: JsonStruct::Null })
    ));
    assert!(matches!(parse_for_literal("  null  ", null_s, JsonStruct::Null), Err(_)));
}

#[test]
fn test_false_parse() {
    let false_s = "false";
    assert!(matches!(
        parse_for_literal("false", false_s, JsonStruct::Boolean(false)),
        Ok(ParseResult { json: "", json_struct: JsonStruct::Boolean(false) })
    ));
    assert!(matches!(
        parse_for_literal("   ", false_s, JsonStruct::Boolean(false)),
        Err(ParseError::ValueError)
    ));
    assert!(matches!(
        parse_for_literal("false  ", false_s, JsonStruct::Boolean(false)),
        Ok(ParseResult { json: "  ", json_struct: JsonStruct::Boolean(false) })
    ));
    assert!(matches!(parse_for_literal("fal  ", false_s, JsonStruct::Boolean(false)), Err(_)));
    assert!(matches!(parse_for_literal("fa", false_s, JsonStruct::Boolean(false)), Err(_)));
    assert!(!matches!(
        parse_for_literal("false", false_s, JsonStruct::Boolean(false)),
        Ok(ParseResult { json: "", json_struct: JsonStruct::Boolean(true) })
    ));
    assert!(matches!(parse_for_literal("  false  ", false_s, JsonStruct::Boolean(false)), Err(_)));
    assert!(matches!(parse_for_literal("abcd", false_s, JsonStruct::Boolean(false)), Err(_)));
}

#[test]
fn test_true_parse() {
    let true_s = "true";

    assert!(matches!(
        parse_for_literal("true", true_s, JsonStruct::Boolean(true)),
        Ok(ParseResult { json: "", json_struct: JsonStruct::Boolean(true) })
    ));
    assert!(matches!(
        parse_for_literal("   ", true_s, JsonStruct::Boolean(true)),
        Err(ParseError::ValueError)
    ));
    assert!(matches!(parse_for_literal("true  ", true_s, JsonStruct::Boolean(true)), Ok(_)));
    assert!(matches!(parse_for_literal("tru  ", true_s, JsonStruct::Boolean(true)), Err(_)));
    assert!(matches!(parse_for_literal("tru", true_s, JsonStruct::Boolean(true)), Err(_)));
    assert!(!matches!(
        parse_for_literal("true", true_s, JsonStruct::Boolean(true)),
        Ok(ParseResult { json: " ", json_struct: JsonStruct::Boolean(true) })
    ));
    assert!(matches!(parse_for_literal("  true  ", true_s, JsonStruct::Boolean(true)), Err(_)));
    assert!(matches!(parse_for_literal("abcd", true_s, JsonStruct::Boolean(true)), Err(_)));
}

#[test]
fn test_num_parse() {
    assert!(number_is(parse_for_number("10000"), 10000.0, ""));

    assert!(number_is(parse_for_number("0.0"), 0.0, ""));
    assert!(number_is(parse_for_number("0.0"), -0.0, ""));
    assert!(number_is(parse_for_number("0.0"), -0.0, ""));
    assert!(number_is(parse_for_number("1.0"), 1.0, ""));
    assert!(number_is(parse_for_number("-1.0"), -1.0, ""));
    assert!(number_is(parse_for_number("1.5"), 1.5, ""));
    assert!(number_is(parse_for_number("-1.5"), -1.5, ""));
    assert!(number_is(parse_for_number("3.1416"), 3.1416, ""));
    assert!(number_is(parse_for_number("1E10"), 1E10, ""));
    assert!(number_is(parse_for_number("1e10"), 1e10, ""));
    assert!(number_is(parse_for_number("1E+10"), 1E+10, ""));
    assert!(number_is(parse_for_number("1E-10"), 1E-10, ""));
    assert!(number_is(parse_for_number("-1E10"), -1E10, ""));
    assert!(number_is(parse_for_number("-1e10"), -1e10, ""));
    assert!(number_is(parse_for_number("-1E+10"), -1E+10, ""));
    assert!(number_is(parse_for_number("-1E-10"), -1E-10, ""));
    assert!(number_is(parse_for_number("1.234E+10"), 1.234E+10, ""));
    assert!(number_is(parse_for_number("1.234E-10"), 1.234E-10, ""));
    assert!(number_is(parse_for_number("0.0"), 1e-10000, ""));

    assert!(matches!(parse_for_number("+0"), Err(ParseError::ValueError)));
    assert!(!matches!(parse_for_number("008"), Err(ParseError::ValueError)));
    assert!(matches!(parse_for_number(".123"), Err(ParseError::ValueError)));
    assert!(!matches!(parse_for_number("123."), Err(ParseError::ValueError)));
}

#[test]
fn test_str_parse() {
    assert!(string_is(parse_for_string("\"hello,world\""), "hello,world", ""));
    assert!(string_is(parse_for_string("\"hello,world     \"   "), "hello,world     ", "   "));
    assert!(string_is(parse_for_string("\"\""), "", ""));
    assert!(string_is(parse_for_string("\"Hello\\nWorld\""), "Hello\\nWorld", ""));
}

#[test]
fn test_array_parse() {
    let result = parse_for_array("[100,\"hello\",3.14,true,false,10003,[1,2,\"\",3]]");

    assert!(matches!(result, Ok(ParseResult { json: _, json_struct: JsonStruct::Array(_) })));
}

#[test]
fn test_obj_parse() {
    let texts = [
        "{\"json\" : 1000}",
        "{\"json\" : 1000, \"gg\": \"gg value\"}",
        "{\"json\" : 1000, \"gg\": \"gg value\", \"subobj\": {\"subobjkkk\": \"subobjvvv\", \"\":[100,\"hello\",3.14,true,false,10003,[1,2,\"\",3]]}}",
        "{\"json\" : 1000, \"gg\": \"gg value\", \"\":[100,\"hello\",3.14,true,false,10003,[1,2,\"\",3]]}",
    ];
    for text in texts {
        let r = parse_for_obj(text);
        println!("parse obj: {:?}", r);
        assert!(matches!(r, Ok(ParseResult { json: "", json_struct: JsonStruct::Object(_) })));
    }
}

#[test]
fn string_value_borrows_contents_and_rest() {
    let r = rjson::parse_for_string_value("\"ab\\\"c\" tail").unwrap();
    assert_eq!(r.str_value, "ab\\");
    assert_eq!(r.json, "c\" tail");
    assert!(matches!(rjson::parse_for_string_value("abc"), Err(ParseError::ValueError)));
    assert!(matches!(rjson::parse_for_string_value(""), Err(ParseError::ValueError)));
    assert!(matches!(rjson::parse_for_string_value("\"open"), Err(ParseError::ValueError)));
}
