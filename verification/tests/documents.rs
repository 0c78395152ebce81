use json_parser::error::ParseError;
use json_parser::parser::parse;
use json_parser::value::Value;

fn text(s: &str) -> Value {
    Value::Text(s.to_string())
}

fn entry(key: &str, value: Value) -> (String, Value) {
    (key.to_string(), value)
}

#[test]
fn test_1() {
    let parsed = parse("{}\n");
    let expectation = Value::Mapping(Vec::new());
    assert_eq!(parsed, Ok(expectation));
}

#[test]
fn test_2() {
    let parsed = parse("{\n  \"key\": \"value\"\n}\n");
    let expectation = Value::Mapping(vec![entry("key", text("value"))]);
    assert_eq!(parsed, Ok(expectation));
}

#[test]
fn test_3() {
    let parsed = parse(
        "{\n  \"key1\": true,\n  \"key2\": false,\n  \"key3\": \"value\",\n  \"key4\": 101\n}\n",
    );
    let expectation = Value::Mapping(vec![
        entry("key1", Value::Boolean(true)),
        entry("key2", Value::Boolean(false)),
        entry("key3", text("value")),
        entry("key4", Value::Integer(101)),
    ]);
    assert_eq!(parsed, Ok(expectation));
}

#[test]
fn test_4() {
    let parsed = parse(
        "{\n  \"key\": \"value\",\n  \"key1\": 101,\n  \"key2\": {},\n  \"key3\": []\n}\n",
    );
    let expectation = Value::Mapping(vec![
        entry("key", text("value")),
        entry("key1", Value::Integer(101)),
        entry("key2", Value::Mapping(Vec::new())),
        entry("key3", Value::Sequence(vec![])),
    ]);
    assert_eq!(parsed, Ok(expectation));
}

#[test]
fn test_5() {
    let parsed = parse(
        "{\n  \"title\": \"Rust\",\n  \"year\": 2023,\n  \"live\": true,\n  \"organizers\": [\"vbi\", \"techfest\"],\n  \"presenter\": {\n    \"name\": \"Dung\",\n    \"age\": 27,\n    \"occupation\": \"Engineer\"\n  }\n}\n",
    );
    let payload_org = vec![text("vbi"), text("techfest")];
    let payload_presenter = vec![
        entry("name", text("Dung")),
        entry("age", Value::Integer(27)),
        entry("occupation", text("Engineer")),
    ];
    let expectation = Value::Mapping(vec![
        entry("title", text("Rust")),
        entry("year", Value::Integer(2023)),
        entry("live", Value::Boolean(true)),
        entry("organizers", Value::Sequence(payload_org)),
        entry("presenter", Value::Mapping(payload_presenter)),
    ]);
    assert_eq!(parsed, Ok(expectation));
}

#[test]
fn empty_input_is_rejected() {
    assert_eq!(parse(""), Err(ParseError::EmptyInput));
    assert_eq!(parse(" \t\r\n"), Err(ParseError::EmptyInput));
}

#[test]
fn empty_composites() {
    assert_eq!(parse("{}"), Ok(Value::Mapping(Vec::new())));
    assert_eq!(parse("[]"), Ok(Value::Sequence(Vec::new())));
    assert_eq!(parse("[ ]"), Ok(Value::Sequence(Vec::new())));
    assert_eq!(parse("{\n}"), Ok(Value::Mapping(Vec::new())));
}

#[test]
fn single_entry() {
    assert_eq!(
        parse("{\"key\":\"value\"}"),
        Ok(Value::Mapping(vec![entry("key", text("value"))]))
    );
}

#[test]
fn four_entries_of_each_leaf_kind() {
    assert_eq!(
        parse("{\"key1\":true,\"key2\":false,\"key3\":\"value\",\"key4\":101}"),
        Ok(Value::Mapping(vec![
            entry("key1", Value::Boolean(true)),
            entry("key2", Value::Boolean(false)),
            entry("key3", text("value")),
            entry("key4", Value::Integer(101)),
        ]))
    );
}

#[test]
fn nested_empty_composites() {
    assert_eq!(
        parse("{\"key2\":{},\"key3\":[]}"),
        Ok(Value::Mapping(vec![
            entry("key2", Value::Mapping(Vec::new())),
            entry("key3", Value::Sequence(Vec::new())),
        ]))
    );
}

#[test]
fn duplicate_key_takes_the_last_value() {
    assert_eq!(
        parse("{\"k\":1,\"k\":2}"),
        Ok(Value::Mapping(vec![entry("k", Value::Integer(2))]))
    );
    assert_eq!(
        parse("{\"a\":1,\"b\":2,\"a\":3}"),
        Ok(Value::Mapping(vec![
            entry("a", Value::Integer(3)),
            entry("b", Value::Integer(2)),
        ]))
    );
}

#[test]
fn unclosed_object() {
    assert_eq!(
        parse("{"),
        Err(ParseError::UnexpectedCharacter { expected: '"', found: None, position: 1 })
    );
    assert_eq!(
        parse("{\"a\":1"),
        Err(ParseError::UnexpectedCharacter { expected: '}', found: None, position: 6 })
    );
}

#[test]
fn dangling_comma() {
    assert_eq!(parse("[1,]"), Err(ParseError::InvalidLiteral { position: 3 }));
    assert_eq!(parse("{\"a\":1,}"), Err(ParseError::InvalidKey { position: 7 }));
}

#[test]
fn trailing_data() {
    assert_eq!(parse("123abc"), Err(ParseError::TrailingData { position: 3 }));
    assert_eq!(parse("{} x"), Err(ParseError::TrailingData { position: 3 }));
    assert_eq!(parse("1.5"), Err(ParseError::TrailingData { position: 1 }));
    assert_eq!(parse("truex"), Err(ParseError::TrailingData { position: 4 }));
}

#[test]
fn whitespace_between_tokens_is_skipped() {
    assert_eq!(parse(" { \"a\" : 1 } "), parse("{\"a\":1}"));
    assert_eq!(
        parse(" { \"a\" : 1 } "),
        Ok(Value::Mapping(vec![entry("a", Value::Integer(1))]))
    );
    assert_eq!(
        parse("\t[\r\n1 ,\n2\t,3 ]\n"),
        Ok(Value::Sequence(vec![Value::Integer(1), Value::Integer(2), Value::Integer(3)]))
    );
}

#[test]
fn whitespace_inside_strings_is_kept() {
    assert_eq!(
        parse("{\"a\":\" x \"}"),
        Ok(Value::Mapping(vec![entry("a", text(" x "))]))
    );
    assert_eq!(parse("\"\t\n\""), Ok(text("\t\n")));
    assert_eq!(
        parse("{\" k \":1}"),
        Ok(Value::Mapping(vec![entry(" k ", Value::Integer(1))]))
    );
}

#[test]
fn failure_is_repeatable() {
    let inputs = ["{", "[1,]", "123abc", "", "\"abc", "-", "[1 2]", "{1:2}", "nul"];
    for input in inputs {
        let first = parse(input);
        let second = parse(input);
        assert!(first.is_err());
        assert_eq!(first, second);
    }
}

#[test]
fn top_level_leaves() {
    assert_eq!(parse("42"), Ok(Value::Integer(42)));
    assert_eq!(parse("true"), Ok(Value::Boolean(true)));
    assert_eq!(parse(" false "), Ok(Value::Boolean(false)));
    assert_eq!(parse("\"hi\""), Ok(text("hi")));
    assert_eq!(parse("\"\""), Ok(text("")));
}

#[test]
fn integers() {
    assert_eq!(parse("0"), Ok(Value::Integer(0)));
    assert_eq!(parse("-0"), Ok(Value::Integer(0)));
    assert_eq!(parse("007"), Ok(Value::Integer(7)));
    assert_eq!(parse("-15"), Ok(Value::Integer(-15)));
    assert_eq!(parse("9223372036854775807"), Ok(Value::Integer(i64::MAX)));
    assert_eq!(parse("-9223372036854775808"), Ok(Value::Integer(i64::MIN)));
    assert_eq!(parse("9223372036854775808"), Err(ParseError::NumberOutOfRange { position: 0 }));
    assert_eq!(
        parse("[-9223372036854775809]"),
        Err(ParseError::NumberOutOfRange { position: 1 })
    );
    assert_eq!(
        parse(" 99999999999999999999999999"),
        Err(ParseError::NumberOutOfRange { position: 1 })
    );
    assert_eq!(parse("-"), Err(ParseError::InvalidNumber { position: 0 }));
    assert_eq!(parse("[-x]"), Err(ParseError::InvalidNumber { position: 1 }));
}

#[test]
fn literals() {
    assert_eq!(parse("tru"), Err(ParseError::InvalidLiteral { position: 0 }));
    assert_eq!(parse("null"), Err(ParseError::InvalidLiteral { position: 0 }));
    assert_eq!(parse("[true,fals]"), Err(ParseError::InvalidLiteral { position: 6 }));
    assert_eq!(parse("[true]"), Ok(Value::Sequence(vec![Value::Boolean(true)])));
    assert_eq!(
        parse("{\"a\":false}"),
        Ok(Value::Mapping(vec![entry("a", Value::Boolean(false))]))
    );
}

#[test]
fn strings() {
    assert_eq!(parse("\"abc"), Err(ParseError::UnterminatedString { position: 0 }));
    assert_eq!(parse("[\"abc]"), Err(ParseError::UnterminatedString { position: 1 }));
    assert_eq!(parse("\"a\\\""), Ok(text("a\\")));
    assert_eq!(parse("\"h\u{e9}llo\" x"), Err(ParseError::TrailingData { position: 8 }));
}

#[test]
fn keys() {
    assert_eq!(parse("{1:2}"), Err(ParseError::InvalidKey { position: 1 }));
    assert_eq!(parse("{ true: 2}"), Err(ParseError::InvalidKey { position: 2 }));
    assert_eq!(
        parse("{\"a\" 1}"),
        Err(ParseError::UnexpectedCharacter { expected: ':', found: Some('1'), position: 5 })
    );
    assert_eq!(parse("{\"a"), Err(ParseError::UnterminatedString { position: 1 }));
}

#[test]
fn arrays() {
    assert_eq!(
        parse("[1 2]"),
        Err(ParseError::UnexpectedCharacter { expected: ']', found: Some('2'), position: 3 })
    );
    assert_eq!(
        parse("[1"),
        Err(ParseError::UnexpectedCharacter { expected: ']', found: None, position: 2 })
    );
    assert_eq!(parse("["), Err(ParseError::InvalidLiteral { position: 1 }));
    assert_eq!(
        parse("[[1],[],[[2,3]]]"),
        Ok(Value::Sequence(vec![
            Value::Sequence(vec![Value::Integer(1)]),
            Value::Sequence(vec![]),
            Value::Sequence(vec![Value::Sequence(vec![Value::Integer(2), Value::Integer(3)])]),
        ]))
    );
}
