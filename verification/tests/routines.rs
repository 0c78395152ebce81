use json_parser::cursor::Cursor;
use json_parser::error::ParseError;
use json_parser::grammar::CharClass;
use json_parser::parser::{
    match_char, parse, parse_array, parse_bool, parse_number, parse_object, parse_string,
    parse_value,
};
use json_parser::value::{insert, Value};

fn text(s: &str) -> Value {
    Value::Text(s.to_string())
}

#[test]
fn cursor_starts_at_the_first_character() {
    let src = Cursor::new("ab");
    assert_eq!(src.position(), 0);
    assert_eq!(src.peek(), Some('a'));
    let empty = Cursor::new("");
    assert_eq!(empty.position(), 0);
    assert_eq!(empty.peek(), None);
}

#[test]
fn peek_does_not_move() {
    let src = Cursor::new("xy");
    assert_eq!(src.peek(), Some('x'));
    assert_eq!(src.peek(), Some('x'));
    assert_eq!(src.position(), 0);
}

#[test]
fn match_char_moves_only_on_a_match() {
    let mut src = Cursor::new("ab");
    assert_eq!(match_char(&mut src, 'a'), Ok(()));
    assert_eq!(src.position(), 1);
    assert_eq!(
        match_char(&mut src, 'x'),
        Err(ParseError::UnexpectedCharacter { expected: 'x', found: Some('b'), position: 1 })
    );
    assert_eq!(src.position(), 1);
    assert_eq!(match_char(&mut src, 'b'), Ok(()));
    assert_eq!(
        match_char(&mut src, 'c'),
        Err(ParseError::UnexpectedCharacter { expected: 'c', found: None, position: 2 })
    );
    assert_eq!(src.position(), 2);
}

#[test]
fn consume_while_collects_the_run() {
    let mut src = Cursor::new("123abc");
    assert_eq!(src.consume_while(CharClass::Digit), "123");
    assert_eq!(src.position(), 3);
    assert_eq!(src.consume_while(CharClass::Digit), "");
    assert_eq!(src.position(), 3);
    assert_eq!(src.consume_while(CharClass::NotQuote), "abc");
    assert_eq!(src.position(), 6);
    assert_eq!(src.consume_while(CharClass::NotQuote), "");
    assert_eq!(src.peek(), None);
}

#[test]
fn skip_while_stops_at_the_first_other_character() {
    let mut src = Cursor::new(" \t\r\n x ");
    src.skip_while(CharClass::Whitespace);
    assert_eq!(src.position(), 5);
    assert_eq!(src.peek(), Some('x'));
    src.skip_while(CharClass::Whitespace);
    assert_eq!(src.position(), 5);
}

#[test]
fn positions_count_characters() {
    let mut src = Cursor::new("\u{e9}\u{4e2d}x");
    assert_eq!(src.consume_while(CharClass::NotQuote), "\u{e9}\u{4e2d}x");
    assert_eq!(src.position(), 3);
}

#[test]
fn looking_at_compares_without_moving() {
    let src = Cursor::new("true");
    assert!(src.looking_at(&['t', 'r', 'u', 'e']));
    assert!(src.looking_at(&['t', 'r']));
    assert!(src.looking_at(&[]));
    assert!(!src.looking_at(&['t', 'r', 'u', 'e', 'x']));
    assert!(!src.looking_at(&['t', 'r', 'y']));
    assert_eq!(src.position(), 0);
    assert!(src.next_is('t'));
    assert!(!src.next_is('r'));
    assert!(!Cursor::new("").next_is('t'));
}

#[test]
fn character_classes() {
    for c in [' ', '\t', '\n', '\r'] {
        assert!(CharClass::Whitespace.contains(c));
    }
    for c in ['a', '0', '\u{a0}', '\u{b}', '\u{c}'] {
        assert!(!CharClass::Whitespace.contains(c));
    }
    for c in ['0', '5', '9'] {
        assert!(CharClass::Digit.contains(c));
    }
    for c in ['/', ':', 'a', '-', '\u{661}'] {
        assert!(!CharClass::Digit.contains(c));
    }
    assert!(CharClass::NotQuote.contains('a'));
    assert!(CharClass::NotQuote.contains('\''));
    assert!(!CharClass::NotQuote.contains('"'));
}

#[test]
fn parse_string_reads_up_to_the_next_quote() {
    let mut src = Cursor::new("\"a b\"rest");
    assert_eq!(parse_string(&mut src), Ok(text("a b")));
    assert_eq!(src.position(), 5);
    let mut bare = Cursor::new("abc");
    assert_eq!(
        parse_string(&mut bare),
        Err(ParseError::UnexpectedCharacter { expected: '"', found: Some('a'), position: 0 })
    );
    assert_eq!(bare.position(), 0);
    let mut padded = Cursor::new(" \"a\"");
    assert_eq!(
        parse_string(&mut padded),
        Err(ParseError::UnexpectedCharacter { expected: '"', found: Some(' '), position: 0 })
    );
    let mut open = Cursor::new("x\"abc");
    assert_eq!(match_char(&mut open, 'x'), Ok(()));
    assert_eq!(parse_string(&mut open), Err(ParseError::UnterminatedString { position: 1 }));
    assert_eq!(open.position(), 5);
}

#[test]
fn parse_number_stops_at_the_first_non_digit() {
    let mut src = Cursor::new("12.5");
    assert_eq!(parse_number(&mut src), Ok(Value::Integer(12)));
    assert_eq!(src.position(), 2);
    assert_eq!(src.peek(), Some('.'));
    let mut exp = Cursor::new("-3e4");
    assert_eq!(parse_number(&mut exp), Ok(Value::Integer(-3)));
    assert_eq!(exp.position(), 2);
    let mut sign = Cursor::new("-a");
    assert_eq!(parse_number(&mut sign), Err(ParseError::InvalidNumber { position: 0 }));
    assert_eq!(sign.position(), 1);
    let mut none = Cursor::new("a");
    assert_eq!(parse_number(&mut none), Err(ParseError::InvalidNumber { position: 0 }));
    assert_eq!(none.position(), 0);
    let mut big = Cursor::new("92233720368547758070,");
    assert_eq!(parse_number(&mut big), Err(ParseError::NumberOutOfRange { position: 0 }));
    assert_eq!(big.position(), 20);
    let mut plus = Cursor::new("+1");
    assert_eq!(parse_number(&mut plus), Err(ParseError::InvalidNumber { position: 0 }));
}

#[test]
fn parse_number_at_the_limits() {
    let mut max = Cursor::new("9223372036854775807");
    assert_eq!(parse_number(&mut max), Ok(Value::Integer(9223372036854775807)));
    let mut min = Cursor::new("-9223372036854775808");
    assert_eq!(parse_number(&mut min), Ok(Value::Integer(-9223372036854775808)));
    let mut over = Cursor::new("9223372036854775808");
    assert_eq!(parse_number(&mut over), Err(ParseError::NumberOutOfRange { position: 0 }));
    let mut under = Cursor::new("-9223372036854775809");
    assert_eq!(parse_number(&mut under), Err(ParseError::NumberOutOfRange { position: 0 }));
    let mut zeros = Cursor::new("0000000000000000000000000000042");
    assert_eq!(parse_number(&mut zeros), Ok(Value::Integer(42)));
    let mut ten = Cursor::new("9223372036854775810");
    assert_eq!(parse_number(&mut ten), Err(ParseError::NumberOutOfRange { position: 0 }));
    let mut nines = Cursor::new("922337203685477580");
    assert_eq!(parse_number(&mut nines), Ok(Value::Integer(922337203685477580)));
}

#[test]
fn parse_bool_matches_the_literal_exactly() {
    let mut yes = Cursor::new("true]");
    assert_eq!(parse_bool(&mut yes), Ok(Value::Boolean(true)));
    assert_eq!(yes.position(), 4);
    let mut no = Cursor::new("false}");
    assert_eq!(parse_bool(&mut no), Ok(Value::Boolean(false)));
    assert_eq!(no.position(), 5);
    let mut short = Cursor::new("fals");
    assert_eq!(parse_bool(&mut short), Err(ParseError::InvalidLiteral { position: 0 }));
    assert_eq!(short.position(), 0);
    let mut upper = Cursor::new("True");
    assert_eq!(parse_bool(&mut upper), Err(ParseError::InvalidLiteral { position: 0 }));
    let mut end = Cursor::new("");
    assert_eq!(parse_bool(&mut end), Err(ParseError::InvalidLiteral { position: 0 }));
}

#[test]
fn booleans_end_arrays_and_objects() {
    assert_eq!(
        parse("[true,false]"),
        Ok(Value::Sequence(vec![Value::Boolean(true), Value::Boolean(false)]))
    );
    assert_eq!(
        parse("{\"a\":true}"),
        Ok(Value::Mapping(vec![("a".to_string(), Value::Boolean(true))]))
    );
    assert_eq!(
        parse("{\"a\":[false]}"),
        Ok(Value::Mapping(vec![(
            "a".to_string(),
            Value::Sequence(vec![Value::Boolean(false)])
        )]))
    );
}

#[test]
fn parse_value_dispatches_on_the_next_character() {
    let mut src = Cursor::new("  {} [] \"s\" -7 true false x");
    assert_eq!(parse_value(&mut src), Ok(Value::Mapping(Vec::new())));
    assert_eq!(src.position(), 4);
    assert_eq!(parse_value(&mut src), Ok(Value::Sequence(Vec::new())));
    assert_eq!(src.position(), 7);
    assert_eq!(parse_value(&mut src), Ok(text("s")));
    assert_eq!(parse_value(&mut src), Ok(Value::Integer(-7)));
    assert_eq!(parse_value(&mut src), Ok(Value::Boolean(true)));
    assert_eq!(parse_value(&mut src), Ok(Value::Boolean(false)));
    assert_eq!(src.position(), 25);
    assert_eq!(parse_value(&mut src), Err(ParseError::InvalidLiteral { position: 26 }));
    assert_eq!(src.position(), 26);
}

#[test]
fn parse_value_at_the_end_of_input() {
    let mut src = Cursor::new("   ");
    assert_eq!(parse_value(&mut src), Err(ParseError::InvalidLiteral { position: 3 }));
}

#[test]
fn parse_array_requires_its_brackets() {
    let mut src = Cursor::new("[1, 2]x");
    assert_eq!(
        parse_array(&mut src),
        Ok(Value::Sequence(vec![Value::Integer(1), Value::Integer(2)]))
    );
    assert_eq!(src.position(), 6);
    let mut other = Cursor::new("{}");
    assert_eq!(
        parse_array(&mut other),
        Err(ParseError::UnexpectedCharacter { expected: '[', found: Some('{'), position: 0 })
    );
    let mut open = Cursor::new("[1,2");
    assert_eq!(
        parse_array(&mut open),
        Err(ParseError::UnexpectedCharacter { expected: ']', found: None, position: 4 })
    );
    let mut wrong = Cursor::new("[1}");
    assert_eq!(
        parse_array(&mut wrong),
        Err(ParseError::UnexpectedCharacter { expected: ']', found: Some('}'), position: 2 })
    );
}

#[test]
fn parse_object_requires_its_braces() {
    let mut src = Cursor::new("{ \"a\" : [ ] , \"b\" : { } } tail");
    assert_eq!(
        parse_object(&mut src),
        Ok(Value::Mapping(vec![
            ("a".to_string(), Value::Sequence(Vec::new())),
            ("b".to_string(), Value::Mapping(Vec::new())),
        ]))
    );
    assert_eq!(src.position(), 25);
    let mut other = Cursor::new("[]");
    assert_eq!(
        parse_object(&mut other),
        Err(ParseError::UnexpectedCharacter { expected: '{', found: Some('['), position: 0 })
    );
    let mut open = Cursor::new("{\"a\":1 ");
    assert_eq!(
        parse_object(&mut open),
        Err(ParseError::UnexpectedCharacter { expected: '}', found: None, position: 7 })
    );
    let mut wrong = Cursor::new("{\"a\":1]");
    assert_eq!(
        parse_object(&mut wrong),
        Err(ParseError::UnexpectedCharacter { expected: '}', found: Some(']'), position: 6 })
    );
    let mut value = Cursor::new("{\"a\":}");
    assert_eq!(parse_object(&mut value), Err(ParseError::InvalidLiteral { position: 5 }));
}

#[test]
fn insert_replaces_in_place_and_appends_new_keys() {
    let mut entries: Vec<(String, Value)> = Vec::new();
    insert(&mut entries, "a".to_string(), Value::Integer(1));
    insert(&mut entries, "b".to_string(), Value::Integer(2));
    insert(&mut entries, "a".to_string(), Value::Boolean(true));
    assert_eq!(
        entries,
        vec![("a".to_string(), Value::Boolean(true)), ("b".to_string(), Value::Integer(2))]
    );
    insert(&mut entries, "".to_string(), text(""));
    assert_eq!(entries.len(), 3);
    assert_eq!(entries[2], ("".to_string(), text("")));
}

fn write(v: &Value, out: &mut String) {
    match v {
        Value::Integer(n) => out.push_str(&n.to_string()),
        Value::Boolean(b) => out.push_str(if *b { "true" } else { "false" }),
        Value::Text(t) => {
            out.push('"');
            out.push_str(t);
            out.push('"');
        }
        Value::Sequence(items) => {
            out.push('[');
            for (i, item) in items.iter().enumerate() {
                if i > 0 {
                    out.push(',');
                }
                write(item, out);
            }
            out.push(']');
        }
        Value::Mapping(entries) => {
            out.push('{');
            for (i, (key, item)) in entries.iter().enumerate() {
                if i > 0 {
                    out.push(',');
                }
                out.push('"');
                out.push_str(key);
                out.push_str("\":");
                write(item, out);
            }
            out.push('}');
        }
    }
}

#[test]
fn written_documents_are_read_back() {
    let inputs = [
        "0",
        "-9223372036854775808",
        "true",
        "\"\"",
        "[]",
        "{}",
        " [ 1 , [ true , \"a b\" ] , { \"k\" : [ ] , \"k\" : -2 } ] ",
        "{\"a\":{\"b\":{\"c\":[1,2,3]}},\"d\":\"\u{e9}\"}",
    ];
    for input in inputs {
        let first = parse(input).unwrap();
        let mut written = String::new();
        write(&first, &mut written);
        assert_eq!(parse(&written), Ok(first));
    }
}

#[test]
fn written_form_of_a_document() {
    let v = parse(" [ 1 , { \"k\" : false } ] ").unwrap();
    let mut written = String::new();
    write(&v, &mut written);
    assert_eq!(written, "[1,{\"k\":false}]");
}
