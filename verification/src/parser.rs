//! The parsing routines. Each one reads what the grammar function of the
//! same construct defines, and leaves the cursor where that function stops.

use crate::cursor::Cursor;
use crate::derivation::lemma_documents_are_the_valid_texts;
use crate::error::ParseError;
use crate::grammar::{
    boolean_at, digits_value, document, elements_at, entries_at, integer_at, key_at,
    lemma_digits_value_grows, lemma_document_well_formed, lemma_scan_bounds, lemma_scan_run,
    lemma_token_advances, lemma_value_advances, mapping_at, match_char_at, quoted_at, scan,
    sequence_at, text_at, value_at, CharClass,
};
use crate::syntax::denotes;
use crate::value::{entries_model, insert, items_model, lemma_model_of_children, Json, Value};
use vstd::prelude::*;

verus! {

/// Whether the outcome `got` of a routine is the outcome `expected` of the
/// grammar: the same failure, or a value with that model.
pub open spec fn matches_outcome(
    got: Result<Value, ParseError>,
    expected: Result<Json, ParseError>,
) -> bool {
    match got {
        Ok(v) => expected == Ok::<Json, ParseError>(v@),
        Err(e) => expected == Err::<Json, ParseError>(e),
    }
}

/// Moves past the next character if it is `expected`, and fails without
/// moving if it is not.
pub fn match_char(src: &mut Cursor, expected: char) -> (r: Result<(), ParseError>)
    ensures
        final(src).text() == old(src).text(),
        final(src).offset() == match_char_at(old(src).text(), old(src).offset(), expected).next,
        r == match_char_at(old(src).text(), old(src).offset(), expected).result,
{
    let position = src.position();
    let found = src.peek();
    match found {
        Some(c) => {
            if c == expected {
                src.advance(1);
                Ok(())
            } else {
                Err(ParseError::UnexpectedCharacter { expected, found, position })
            }
        },
        None => Err(ParseError::UnexpectedCharacter { expected, found, position }),
    }
}

/// Reads a quoted run of characters and returns what stands between the
/// two quotes, verbatim.
fn parse_quoted(src: &mut Cursor) -> (r: Result<String, ParseError>)
    ensures
        final(src).text() == old(src).text(),
        final(src).offset() == quoted_at(old(src).text(), old(src).offset()).next,
        match r {
            Ok(t) => quoted_at(old(src).text(), old(src).offset()).result == Ok::<
                Seq<char>,
                ParseError,
            >(t@),
            Err(e) => quoted_at(old(src).text(), old(src).offset()).result == Err::<
                Seq<char>,
                ParseError,
            >(e),
        },
{
    let position = src.position();
    match match_char(src, '"') {
        Err(e) => Err(e),
        Ok(_) => {
            let content = src.consume_while(CharClass::NotQuote);
            match src.peek() {
                Some(_) => {
                    src.advance(1);
                    Ok(content)
                },
                None => Err(ParseError::UnterminatedString { position }),
            }
        },
    }
}

/// Reads a string: the characters between two double quotes, verbatim.
pub fn parse_string(src: &mut Cursor) -> (r: Result<Value, ParseError>)
    ensures
        final(src).text() == old(src).text(),
        final(src).offset() == text_at(old(src).text(), old(src).offset()).next,
        matches_outcome(r, text_at(old(src).text(), old(src).offset()).result),
{
    match parse_quoted(src) {
        Ok(content) => Ok(Value::Text(content)),
        Err(e) => Err(e),
    }
}

/// Reads an object key: a quoted run of characters, or the failure that
/// says that a key was required where anything else starts.
fn parse_key(src: &mut Cursor) -> (r: Result<String, ParseError>)
    ensures
        final(src).text() == old(src).text(),
        final(src).offset() == key_at(old(src).text(), old(src).offset()).next,
        match r {
            Ok(t) => key_at(old(src).text(), old(src).offset()).result == Ok::<
                Seq<char>,
                ParseError,
            >(t@),
            Err(e) => key_at(old(src).text(), old(src).offset()).result == Err::<
                Seq<char>,
                ParseError,
            >(e),
        },
{
    let position = src.position();
    match src.peek() {
        Some(c) => {
            if c != '"' {
                return Err(ParseError::InvalidKey { position });
            }
        },
        None => {},
    }
    parse_quoted(src)
}

/// Reads `true` or `false`, and nothing where neither stands.
pub fn parse_bool(src: &mut Cursor) -> (r: Result<Value, ParseError>)
    ensures
        final(src).text() == old(src).text(),
        final(src).offset() == boolean_at(old(src).text(), old(src).offset()).next,
        matches_outcome(r, boolean_at(old(src).text(), old(src).offset()).result),
{
    let position = src.position();
    let yes: [char; 4] = ['t', 'r', 'u', 'e'];
    let no: [char; 5] = ['f', 'a', 'l', 's', 'e'];
    if src.looking_at(yes.as_slice()) {
        src.advance(4);
        Ok(Value::Boolean(true))
    } else if src.looking_at(no.as_slice()) {
        src.advance(5);
        Ok(Value::Boolean(false))
    } else {
        Err(ParseError::InvalidLiteral { position })
    }
}

/// Reads an integer: an optional minus sign, then one or more digits, all
/// of which are consumed whether or not the number fits in 64 bits.
pub fn parse_number(src: &mut Cursor) -> (r: Result<Value, ParseError>)
    ensures
        final(src).text() == old(src).text(),
        final(src).offset() == integer_at(old(src).text(), old(src).offset()).next,
        matches_outcome(r, integer_at(old(src).text(), old(src).offset()).result),
{
    let position = src.position();
    let negative = match src.peek() {
        Some(c) => c == '-',
        None => false,
    };
    if negative {
        src.advance(1);
    }
    let start = src.position();
    let limit: u64 = if negative {
        9223372036854775808
    } else {
        9223372036854775807
    };
    let ghost text = src.text();
    let ghost end = scan(text, start as int, CharClass::Digit);
    proof {
        lemma_scan_bounds(text, start as int, CharClass::Digit);
        lemma_scan_run(text, start as int, CharClass::Digit);
    }
    let ghost digits = text.subrange(start as int, end);
    let mut magnitude: u64 = 0;
    let mut fits = true;
    loop
        invariant_except_break
            fits,
            magnitude == digits_value(text.subrange(start as int, src.offset())),
        invariant
            src.text() == text,
            start <= src.offset() <= end <= text.len(),
            end == scan(text, start as int, CharClass::Digit),
            digits == text.subrange(start as int, end),
            forall|i: int| start <= i < end ==> CharClass::Digit.holds(#[trigger] text[i]),
            forall|i: int|
                start <= i <= end ==> #[trigger] scan(text, i, CharClass::Digit) == end,
            end < text.len() ==> !CharClass::Digit.holds(text[end]),
            magnitude <= limit,
            limit == 9223372036854775807 || limit == 9223372036854775808,
        ensures
            src.text() == text,
            fits ==> src.offset() == end && magnitude == digits_value(digits),
            !fits ==> start <= src.offset() <= end && digits_value(digits) > limit,
            magnitude <= limit,
        decreases end - src.offset(),
    {
        let c = match src.peek() {
            Some(c) => c,
            None => {
                break ;
            },
        };
        if !CharClass::Digit.contains(c) {
            break ;
        }
        let ghost here = src.offset();
        let ghost longer = text.subrange(start as int, here + 1);
        proof {
            assert(longer.drop_last() =~= text.subrange(start as int, here));
            assert(longer =~= digits.subrange(0, here + 1 - start));
            lemma_digits_value_grows(digits, here + 1 - start);
        }
        let d: u64 = (c as u64) - ('0' as u64);
        if magnitude > 922337203685477580 {
            fits = false;
            break ;
        }
        let m: u64 = magnitude * 10 + d;
        if m > limit {
            fits = false;
            break ;
        }
        src.advance(1);
        magnitude = m;
    }
    if !fits {
        src.skip_while(CharClass::Digit);
        return Err(ParseError::NumberOutOfRange { position });
    }
    if src.position() == start {
        return Err(ParseError::InvalidNumber { position });
    }
    let n: i64 = if negative {
        if magnitude == 9223372036854775808 {
            i64::MIN
        } else {
            -(magnitude as i64)
        }
    } else {
        magnitude as i64
    };
    Ok(Value::Integer(n))
}

/// Reads a value: skips whitespace, then reads the construct that the next
/// character announces.
pub fn parse_value(src: &mut Cursor) -> (r: Result<Value, ParseError>)
    ensures
        final(src).text() == old(src).text(),
        final(src).offset() == value_at(old(src).text(), old(src).offset()).next,
        matches_outcome(r, value_at(old(src).text(), old(src).offset()).result),
    decreases old(src).text().len() - old(src).offset(), 2int,
{
    proof {
        lemma_scan_bounds(src.text(), src.offset(), CharClass::Whitespace);
    }
    src.skip_while(CharClass::Whitespace);
    match src.peek() {
        Some(c) => {
            if c == '{' {
                parse_object(src)
            } else if c == '[' {
                parse_array(src)
            } else if c == '"' {
                parse_string(src)
            } else if c == '-' || CharClass::Digit.contains(c) {
                parse_number(src)
            } else {
                parse_bool(src)
            }
        },
        None => parse_bool(src),
    }
}

/// Reads an array: `[`, then `]` or values separated by commas and `]`.
pub fn parse_array(src: &mut Cursor) -> (r: Result<Value, ParseError>)
    ensures
        final(src).text() == old(src).text(),
        final(src).offset() == sequence_at(old(src).text(), old(src).offset()).next,
        matches_outcome(r, sequence_at(old(src).text(), old(src).offset()).result),
    decreases old(src).text().len() - old(src).offset(), 1int,
{
    let ghost text = src.text();
    let ghost start = src.offset();
    match match_char(src, '[') {
        Err(e) => {
            return Err(e);
        },
        Ok(_) => {},
    }
    proof {
        lemma_scan_bounds(text, start + 1, CharClass::Whitespace);
    }
    src.skip_while(CharClass::Whitespace);
    let mut items: Vec<Value> = Vec::new();
    if src.next_is(']') {
        src.advance(1);
        let v = Value::Sequence(items);
        proof {
            lemma_model_of_children(v);
            assert(items_model(items@) =~= Seq::<Json>::empty());
        }
        return Ok(v);
    }
    let ghost expected = sequence_at(text, start);
    assert(items_model(items@) =~= Seq::<Json>::empty());
    loop
        invariant_except_break
            elements_at(text, src.offset(), items_model(items@)) == expected,
        invariant
            src.text() == text,
            text == old(src).text(),
            start == old(src).offset(),
            start < src.offset() <= text.len(),
            expected == sequence_at(text, start),
        ensures
            match match_char_at(text, src.offset(), ']').result {
                Err(e) => expected.result == Err::<Json, ParseError>(e) && expected.next
                    == src.offset(),
                Ok(_) => expected.result == Ok::<Json, ParseError>(
                    Json::Sequence(items_model(items@)),
                ) && expected.next == src.offset() + 1,
            },
        decreases text.len() - src.offset(),
    {
        let ghost pos = src.offset();
        let ghost done = items_model(items@);
        proof {
            lemma_value_advances(text, pos);
        }
        match parse_value(src) {
            Err(e) => {
                return Err(e);
            },
            Ok(v) => {
                proof {
                    lemma_scan_bounds(text, src.offset(), CharClass::Whitespace);
                }
                items.push(v);
                assert(items_model(items@) =~= done.push(v@));
                src.skip_while(CharClass::Whitespace);
                if src.next_is(',') {
                    src.advance(1);
                } else {
                    break ;
                }
            },
        }
    }
    match match_char(src, ']') {
        Err(e) => Err(e),
        Ok(_) => {
            let v = Value::Sequence(items);
            proof {
                lemma_model_of_children(v);
            }
            Ok(v)
        },
    }
}

/// Reads an object: `{`, then `}` or entries separated by commas and `}`.
/// An entry is a key, `:` and a value; a key that comes again takes the
/// later value.
pub fn parse_object(src: &mut Cursor) -> (r: Result<Value, ParseError>)
    ensures
        final(src).text() == old(src).text(),
        final(src).offset() == mapping_at(old(src).text(), old(src).offset()).next,
        matches_outcome(r, mapping_at(old(src).text(), old(src).offset()).result),
    decreases old(src).text().len() - old(src).offset(), 1int,
{
    let ghost text = src.text();
    let ghost start = src.offset();
    match match_char(src, '{') {
        Err(e) => {
            return Err(e);
        },
        Ok(_) => {},
    }
    proof {
        lemma_scan_bounds(text, start + 1, CharClass::Whitespace);
    }
    src.skip_while(CharClass::Whitespace);
    let mut entries: Vec<(String, Value)> = Vec::new();
    if src.next_is('}') {
        src.advance(1);
        let v = Value::Mapping(entries);
        proof {
            lemma_model_of_children(v);
            assert(entries_model(entries@) =~= Seq::<(Seq<char>, Json)>::empty());
        }
        return Ok(v);
    }
    let ghost expected = mapping_at(text, start);
    assert(entries_model(entries@) =~= Seq::<(Seq<char>, Json)>::empty());
    loop
        invariant_except_break
            entries_at(text, src.offset(), entries_model(entries@)) == expected,
        invariant
            src.text() == text,
            text == old(src).text(),
            start == old(src).offset(),
            start < src.offset() <= text.len(),
            expected == mapping_at(text, start),
        ensures
            match match_char_at(text, src.offset(), '}').result {
                Err(e) => expected.result == Err::<Json, ParseError>(e) && expected.next
                    == src.offset(),
                Ok(_) => expected.result == Ok::<Json, ParseError>(
                    Json::Mapping(entries_model(entries@)),
                ) && expected.next == src.offset() + 1,
            },
        decreases text.len() - src.offset(),
    {
        let ghost pos = src.offset();
        proof {
            lemma_scan_bounds(text, pos, CharClass::Whitespace);
        }
        src.skip_while(CharClass::Whitespace);
        proof {
            lemma_token_advances(text, src.offset());
        }
        let key = match parse_key(src) {
            Err(e) => {
                return Err(e);
            },
            Ok(key) => key,
        };
        proof {
            lemma_scan_bounds(text, src.offset(), CharClass::Whitespace);
        }
        src.skip_while(CharClass::Whitespace);
        match match_char(src, ':') {
            Err(e) => {
                return Err(e);
            },
            Ok(_) => {},
        }
        proof {
            lemma_value_advances(text, src.offset());
        }
        match parse_value(src) {
            Err(e) => {
                return Err(e);
            },
            Ok(v) => {
                proof {
                    lemma_scan_bounds(text, src.offset(), CharClass::Whitespace);
                }
                insert(&mut entries, key, v);
                src.skip_while(CharClass::Whitespace);
                if src.next_is(',') {
                    src.advance(1);
                } else {
                    break ;
                }
            },
        }
    }
    match match_char(src, '}') {
        Err(e) => Err(e),
        Ok(_) => {
            let v = Value::Mapping(entries);
            proof {
                lemma_model_of_children(v);
            }
            Ok(v)
        },
    }
}

/// Reads a whole document: one value with nothing but whitespace around it.
///
/// The outcome is that of [`document`]. It is a value exactly where the input
/// is a valid text of the grammar, and then the value that the text denotes.
pub fn parse(input: &str) -> (r: Result<Value, ParseError>)
    ensures
        matches_outcome(r, document(input@)),
        r matches Ok(v) ==> v@.well_formed() && denotes(input@, v@),
        r is Err ==> forall|j: Json| !#[trigger] denotes(input@, j),
{
    proof {
        lemma_document_well_formed(input@);
        lemma_documents_are_the_valid_texts(input@);
    }
    let mut src = Cursor::new(input);
    src.skip_while(CharClass::Whitespace);
    if src.peek().is_none() {
        proof {
            lemma_scan_bounds(input@, 0, CharClass::Whitespace);
        }
        return Err(ParseError::EmptyInput);
    }
    match parse_value(&mut src) {
        Err(e) => Err(e),
        Ok(v) => {
            src.skip_while(CharClass::Whitespace);
            let position = src.position();
            if src.peek().is_some() {
                Err(ParseError::TrailingData { position })
            } else {
                Ok(v)
            }
        },
    }
}

/// Reading has no hidden state: whatever two readings of one text give, it
/// is the same failure at the same position, or two values with the same
/// model.
pub proof fn lemma_reading_is_repeatable(
    input: Seq<char>,
    first: Result<Value, ParseError>,
    second: Result<Value, ParseError>,
)
    requires
        matches_outcome(first, document(input)),
        matches_outcome(second, document(input)),
    ensures
        first matches Err(e) ==> second == Err::<Value, ParseError>(e),
        first matches Ok(v) ==> second matches Ok(w) && w@ == v@,
{
}

} // verus!
