//! The grammar, as functions from a text and an offset to the outcome of
//! reading one construct there.
//!
//! ```text
//! value    := mapping | sequence | text | integer | boolean
//! mapping  := '{' '}' | '{' pair (',' pair)* '}'
//! pair     := text ':' value
//! sequence := '[' ']' | '[' value (',' value)* ']'
//! text     := '"' char* '"'
//! integer  := '-'? digit+
//! boolean  := 'true' | 'false'
//! ```
//!
//! Whitespace may stand between tokens and around values.

use crate::error::ParseError;
use crate::value::{
    insert_entry, lemma_insert_entry_well_formed, lemma_well_formed_sequence, Json,
};
use vstd::prelude::*;

verus! {

/// What reading one construct gives: the construct or the failure, and the
/// offset at which reading stopped.
pub ghost struct Outcome<T> {
    pub result: Result<T, ParseError>,
    pub next: int,
}

/// The classes of characters that the grammar scans runs of.
#[derive(Debug, Clone, Copy, PartialEq, Eq)]
pub enum CharClass {
    /// Space, tab, line feed, carriage return.
    Whitespace,
    /// `0` to `9`.
    Digit,
    /// Everything but the double quote.
    NotQuote,
}

impl CharClass {
    /// Whether `c` belongs to the class.
    pub open spec fn holds(self, c: char) -> bool {
        match self {
            CharClass::Whitespace => c == ' ' || c == '\t' || c == '\n' || c == '\r',
            CharClass::Digit => '0' <= c <= '9',
            CharClass::NotQuote => c != '"',
        }
    }

    /// Whether `c` belongs to the class.
    pub fn contains(self, c: char) -> (found: bool)
        ensures
            found == self.holds(c),
    {
        match self {
            CharClass::Whitespace => c == ' ' || c == '\t' || c == '\n' || c == '\r',
            CharClass::Digit => '0' <= c && c <= '9',
            CharClass::NotQuote => c != '"',
        }
    }
}

/// The end of the longest run of `class` characters that starts at `pos`.
pub open spec fn scan(s: Seq<char>, pos: int, class: CharClass) -> int
    decreases s.len() - pos,
{
    if 0 <= pos < s.len() && class.holds(s[pos]) {
        scan(s, pos + 1, class)
    } else {
        pos
    }
}

/// The offset of the first character at or after `pos` that is not whitespace.
pub open spec fn skip_ws(s: Seq<char>, pos: int) -> int {
    scan(s, pos, CharClass::Whitespace)
}

/// The character at `pos`, if the text reaches that far.
pub open spec fn char_at(s: Seq<char>, pos: int) -> Option<char> {
    if 0 <= pos < s.len() {
        Some(s[pos])
    } else {
        None
    }
}

/// Reading the single character `expected`.
pub open spec fn match_char_at(s: Seq<char>, pos: int, expected: char) -> Outcome<()> {
    if char_at(s, pos) == Some(expected) {
        Outcome { result: Ok(()), next: pos + 1 }
    } else {
        Outcome {
            result: Err(
                ParseError::UnexpectedCharacter {
                    expected,
                    found: char_at(s, pos),
                    position: pos as usize,
                },
            ),
            next: pos,
        }
    }
}

/// Reading a quoted run of characters: a quote, everything up to the next
/// quote, that quote. The outcome holds what stands between the two.
pub open spec fn quoted_at(s: Seq<char>, pos: int) -> Outcome<Seq<char>> {
    match match_char_at(s, pos, '"').result {
        Err(e) => Outcome { result: Err(e), next: pos },
        Ok(_) => {
            let end = scan(s, pos + 1, CharClass::NotQuote);
            if end < s.len() {
                Outcome { result: Ok(s.subrange(pos + 1, end)), next: end + 1 }
            } else {
                Outcome {
                    result: Err(ParseError::UnterminatedString { position: pos as usize }),
                    next: end,
                }
            }
        },
    }
}

/// Reading a string value.
pub open spec fn text_at(s: Seq<char>, pos: int) -> Outcome<Json> {
    let quoted = quoted_at(s, pos);
    match quoted.result {
        Err(e) => Outcome { result: Err(e), next: quoted.next },
        Ok(t) => Outcome { result: Ok(Json::Text(t)), next: quoted.next },
    }
}

/// The number that a run of decimal digits denotes.
pub open spec fn digits_value(digits: Seq<char>) -> int
    decreases digits.len(),
{
    if digits.len() == 0 {
        0
    } else {
        10 * digits_value(digits.drop_last()) + (digits.last() as int - '0' as int)
    }
}

/// Reading an integer: an optional minus sign, then one or more digits.
pub open spec fn integer_at(s: Seq<char>, pos: int) -> Outcome<Json> {
    let negative = char_at(s, pos) == Some('-');
    let start = if negative { pos + 1 } else { pos };
    let end = scan(s, start, CharClass::Digit);
    let magnitude = digits_value(s.subrange(start, end));
    let n = if negative { -magnitude } else { magnitude };
    if end == start {
        Outcome { result: Err(ParseError::InvalidNumber { position: pos as usize }), next: start }
    } else if i64::MIN <= n <= i64::MAX {
        Outcome { result: Ok(Json::Integer(n)), next: end }
    } else {
        Outcome { result: Err(ParseError::NumberOutOfRange { position: pos as usize }), next: end }
    }
}

/// Whether the characters of `word` stand at `pos`.
pub open spec fn word_at(s: Seq<char>, pos: int, word: Seq<char>) -> bool {
    0 <= pos && pos + word.len() <= s.len() && s.subrange(pos, pos + word.len()) == word
}

/// Reading `true` or `false`. Nothing is consumed when neither stands there.
pub open spec fn boolean_at(s: Seq<char>, pos: int) -> Outcome<Json> {
    if word_at(s, pos, seq!['t', 'r', 'u', 'e']) {
        Outcome { result: Ok(Json::Boolean(true)), next: pos + 4 }
    } else if word_at(s, pos, seq!['f', 'a', 'l', 's', 'e']) {
        Outcome { result: Ok(Json::Boolean(false)), next: pos + 5 }
    } else {
        Outcome { result: Err(ParseError::InvalidLiteral { position: pos as usize }), next: pos }
    }
}

/// A scan never moves backwards and never leaves the text.
pub proof fn lemma_scan_bounds(s: Seq<char>, pos: int, class: CharClass)
    ensures
        pos <= scan(s, pos, class),
        pos <= s.len() ==> scan(s, pos, class) <= s.len(),
    decreases s.len() - pos,
{
    if 0 <= pos < s.len() && class.holds(s[pos]) {
        lemma_scan_bounds(s, pos + 1, class);
    }
}

/// A scan stops at the first character outside the class: every character
/// it passes is in the class, the one it stops at is not, and a scan from
/// any offset on the way stops at the same place.
pub proof fn lemma_scan_run(s: Seq<char>, pos: int, class: CharClass)
    requires
        0 <= pos,
    ensures
        forall|i: int| pos <= i < scan(s, pos, class) ==> class.holds(#[trigger] s[i]),
        forall|i: int|
            pos <= i <= scan(s, pos, class) ==> #[trigger] scan(s, i, class) == scan(
                s,
                pos,
                class,
            ),
        scan(s, pos, class) < s.len() ==> !class.holds(s[scan(s, pos, class)]),
    decreases s.len() - pos,
{
    if pos < s.len() && class.holds(s[pos]) {
        lemma_scan_run(s, pos + 1, class);
    }
}

/// The number that a run of digits denotes is never negative, and no
/// smaller than the number that a shorter run from the same start denotes.
pub proof fn lemma_digits_value_grows(digits: Seq<char>, shorter: int)
    requires
        0 <= shorter <= digits.len(),
        forall|i: int| 0 <= i < digits.len() ==> CharClass::Digit.holds(#[trigger] digits[i]),
    ensures
        0 <= digits_value(digits.subrange(0, shorter)) <= digits_value(digits),
    decreases digits.len(),
{
    if shorter == digits.len() {
        assert(digits.subrange(0, shorter) =~= digits);
        if digits.len() > 0 {
            lemma_digits_value_grows(digits.drop_last(), shorter - 1);
        }
    } else {
        lemma_digits_value_grows(digits.drop_last(), shorter);
        assert(digits.drop_last().subrange(0, shorter) =~= digits.subrange(0, shorter));
    }
}

/// Reading a value: whitespace, then the construct that the next character
/// announces.
pub open spec fn value_at(s: Seq<char>, pos: int) -> Outcome<Json>
    decreases s.len() - pos, 2int,
{
    let p = skip_ws(s, pos);
    proof {
        lemma_scan_bounds(s, pos, CharClass::Whitespace);
    }
    match char_at(s, p) {
        Some(c) => {
            if c == '{' {
                mapping_at(s, p)
            } else if c == '[' {
                sequence_at(s, p)
            } else if c == '"' {
                text_at(s, p)
            } else if c == '-' || CharClass::Digit.holds(c) {
                integer_at(s, p)
            } else {
                boolean_at(s, p)
            }
        },
        None => boolean_at(s, p),
    }
}

/// Reading an array: `[`, then `]` or the elements.
pub open spec fn sequence_at(s: Seq<char>, pos: int) -> Outcome<Json>
    decreases s.len() - pos, 1int,
{
    match match_char_at(s, pos, '[').result {
        Err(e) => Outcome { result: Err(e), next: pos },
        Ok(_) => {
            let p = skip_ws(s, pos + 1);
            proof {
                lemma_scan_bounds(s, pos + 1, CharClass::Whitespace);
            }
            if char_at(s, p) == Some(']') {
                Outcome { result: Ok(Json::Sequence(Seq::empty())), next: p + 1 }
            } else {
                elements_at(s, p, Seq::empty())
            }
        },
    }
}

/// Reading the elements of an array after `done`, up to the closing `]`.
///
/// The comparison `pos <= p` is there for the termination check alone:
/// [`lemma_value_advances`] shows that it always holds.
pub open spec fn elements_at(s: Seq<char>, pos: int, done: Seq<Json>) -> Outcome<Json>
    decreases s.len() - pos, 3int,
{
    let first = value_at(s, pos);
    match first.result {
        Err(e) => Outcome { result: Err(e), next: first.next },
        Ok(v) => {
            let p = skip_ws(s, first.next);
            if char_at(s, p) == Some(',') && pos <= p {
                elements_at(s, p + 1, done.push(v))
            } else {
                match match_char_at(s, p, ']').result {
                    Err(e) => Outcome { result: Err(e), next: p },
                    Ok(_) => Outcome { result: Ok(Json::Sequence(done.push(v))), next: p + 1 },
                }
            }
        },
    }
}

/// Reading an object: `{`, then `}` or the entries.
pub open spec fn mapping_at(s: Seq<char>, pos: int) -> Outcome<Json>
    decreases s.len() - pos, 1int,
{
    match match_char_at(s, pos, '{').result {
        Err(e) => Outcome { result: Err(e), next: pos },
        Ok(_) => {
            let p = skip_ws(s, pos + 1);
            proof {
                lemma_scan_bounds(s, pos + 1, CharClass::Whitespace);
            }
            if char_at(s, p) == Some('}') {
                Outcome { result: Ok(Json::Mapping(Seq::empty())), next: p + 1 }
            } else {
                entries_at(s, p, Seq::empty())
            }
        },
    }
}

/// Reading an object key: a quoted run of characters. Where anything else
/// starts, the failure says that a key was required.
pub open spec fn key_at(s: Seq<char>, pos: int) -> Outcome<Seq<char>> {
    if char_at(s, pos) is Some && char_at(s, pos) != Some('"') {
        Outcome { result: Err(ParseError::InvalidKey { position: pos as usize }), next: pos }
    } else {
        quoted_at(s, pos)
    }
}

/// Reading the entries of an object after `done`, up to the closing `}`.
///
/// The comparison `pos <= p` is there for the termination check alone:
/// [`lemma_value_advances`] shows that it always holds.
pub open spec fn entries_at(
    s: Seq<char>,
    pos: int,
    done: Seq<(Seq<char>, Json)>,
) -> Outcome<Json>
    decreases s.len() - pos, 3int,
{
    let k = skip_ws(s, pos);
    let key = key_at(s, k);
    match key.result {
        Err(e) => Outcome { result: Err(e), next: key.next },
        Ok(name) => {
            let c = skip_ws(s, key.next);
            proof {
                lemma_scan_bounds(s, pos, CharClass::Whitespace);
                lemma_scan_bounds(s, k + 1, CharClass::NotQuote);
                lemma_scan_bounds(s, key.next, CharClass::Whitespace);
            }
            match match_char_at(s, c, ':').result {
                Err(e) => Outcome { result: Err(e), next: c },
                Ok(_) => {
                    let item = value_at(s, c + 1);
                    match item.result {
                        Err(e) => Outcome { result: Err(e), next: item.next },
                        Ok(v) => {
                            let p = skip_ws(s, item.next);
                            let entries = insert_entry(done, name, v);
                            if char_at(s, p) == Some(',') && pos <= p {
                                entries_at(s, p + 1, entries)
                            } else {
                                match match_char_at(s, p, '}').result {
                                    Err(e) => Outcome { result: Err(e), next: p },
                                    Ok(_) => Outcome {
                                        result: Ok(Json::Mapping(entries)),
                                        next: p + 1,
                                    },
                                }
                            }
                        },
                    }
                },
            }
        },
    }
}

/// Reading a whole document: one value, with nothing but whitespace around
/// it.
pub open spec fn document(s: Seq<char>) -> Result<Json, ParseError> {
    let start = skip_ws(s, 0);
    if start >= s.len() {
        Err(ParseError::EmptyInput)
    } else {
        let v = value_at(s, start);
        match v.result {
            Err(e) => Err(e),
            Ok(j) => {
                let end = skip_ws(s, v.next);
                if end < s.len() {
                    Err(ParseError::TrailingData { position: end as usize })
                } else {
                    Ok(j)
                }
            },
        }
    }
}

/// Reading a string, an integer or a boolean stops inside the text, at or
/// after the offset where it started, and after it where it succeeded.
pub proof fn lemma_token_advances(s: Seq<char>, pos: int)
    requires
        0 <= pos <= s.len(),
    ensures
        pos <= quoted_at(s, pos).next <= s.len(),
        quoted_at(s, pos).result is Ok ==> pos < quoted_at(s, pos).next,
        pos <= text_at(s, pos).next <= s.len(),
        text_at(s, pos).result is Ok ==> pos < text_at(s, pos).next,
        pos <= key_at(s, pos).next <= s.len(),
        key_at(s, pos).result is Ok ==> pos < key_at(s, pos).next,
        pos <= integer_at(s, pos).next <= s.len(),
        integer_at(s, pos).result is Ok ==> pos < integer_at(s, pos).next,
        pos <= boolean_at(s, pos).next <= s.len(),
        boolean_at(s, pos).result is Ok ==> pos < boolean_at(s, pos).next,
{
    if pos < s.len() {
        lemma_scan_bounds(s, pos + 1, CharClass::NotQuote);
        lemma_scan_bounds(s, pos + 1, CharClass::Digit);
    }
}

/// Reading a value stops inside the text, at or after the offset where it
/// started, and after it where it succeeded.
pub proof fn lemma_value_advances(s: Seq<char>, pos: int)
    requires
        0 <= pos <= s.len(),
    ensures
        pos <= value_at(s, pos).next <= s.len(),
        value_at(s, pos).result is Ok ==> pos < value_at(s, pos).next,
    decreases s.len() - pos, 2int,
{
    let p = skip_ws(s, pos);
    lemma_scan_bounds(s, pos, CharClass::Whitespace);
    lemma_token_advances(s, p);
    if char_at(s, p) == Some('{') {
        lemma_mapping_advances(s, p);
    } else if char_at(s, p) == Some('[') {
        lemma_sequence_advances(s, p);
    }
}

/// Reading an array stops as reading a value does.
pub proof fn lemma_sequence_advances(s: Seq<char>, pos: int)
    requires
        0 <= pos <= s.len(),
    ensures
        pos <= sequence_at(s, pos).next <= s.len(),
        sequence_at(s, pos).result is Ok ==> pos < sequence_at(s, pos).next,
    decreases s.len() - pos, 1int,
{
    if match_char_at(s, pos, '[').result is Ok {
        let p = skip_ws(s, pos + 1);
        lemma_scan_bounds(s, pos + 1, CharClass::Whitespace);
        if char_at(s, p) != Some(']') {
            lemma_elements_advances(s, p, Seq::empty());
        }
    }
}

/// Reading the elements of an array stops as reading a value does.
pub proof fn lemma_elements_advances(s: Seq<char>, pos: int, done: Seq<Json>)
    requires
        0 <= pos <= s.len(),
    ensures
        pos <= elements_at(s, pos, done).next <= s.len(),
        elements_at(s, pos, done).result is Ok ==> pos < elements_at(s, pos, done).next,
    decreases s.len() - pos, 3int,
{
    let first = value_at(s, pos);
    lemma_value_advances(s, pos);
    if let Ok(v) = first.result {
        let p = skip_ws(s, first.next);
        lemma_scan_bounds(s, first.next, CharClass::Whitespace);
        if char_at(s, p) == Some(',') {
            lemma_elements_advances(s, p + 1, done.push(v));
        }
    }
}

/// Reading an object stops as reading a value does.
pub proof fn lemma_mapping_advances(s: Seq<char>, pos: int)
    requires
        0 <= pos <= s.len(),
    ensures
        pos <= mapping_at(s, pos).next <= s.len(),
        mapping_at(s, pos).result is Ok ==> pos < mapping_at(s, pos).next,
    decreases s.len() - pos, 1int,
{
    if match_char_at(s, pos, '{').result is Ok {
        let p = skip_ws(s, pos + 1);
        lemma_scan_bounds(s, pos + 1, CharClass::Whitespace);
        if char_at(s, p) != Some('}') {
            lemma_entries_advances(s, p, Seq::empty());
        }
    }
}

/// Reading the entries of an object stops as reading a value does.
pub proof fn lemma_entries_advances(s: Seq<char>, pos: int, done: Seq<(Seq<char>, Json)>)
    requires
        0 <= pos <= s.len(),
    ensures
        pos <= entries_at(s, pos, done).next <= s.len(),
        entries_at(s, pos, done).result is Ok ==> pos < entries_at(s, pos, done).next,
    decreases s.len() - pos, 3int,
{
    let k = skip_ws(s, pos);
    lemma_scan_bounds(s, pos, CharClass::Whitespace);
    let key = key_at(s, k);
    lemma_token_advances(s, k);
    if let Ok(name) = key.result {
        let c = skip_ws(s, key.next);
        lemma_scan_bounds(s, key.next, CharClass::Whitespace);
        if match_char_at(s, c, ':').result is Ok {
            let item = value_at(s, c + 1);
            lemma_value_advances(s, c + 1);
            if let Ok(v) = item.result {
                let p = skip_ws(s, item.next);
                lemma_scan_bounds(s, item.next, CharClass::Whitespace);
                if char_at(s, p) == Some(',') {
                    lemma_entries_advances(s, p + 1, insert_entry(done, name, v));
                }
            }
        }
    }
}

/// What stands between the quotes of a string holds no quote.
pub proof fn lemma_quoted_has_no_quote(s: Seq<char>, pos: int)
    requires
        0 <= pos <= s.len(),
    ensures
        quoted_at(s, pos).result matches Ok(t) ==> !t.contains('"'),
        key_at(s, pos).result matches Ok(t) ==> !t.contains('"'),
{
    lemma_scan_run(s, pos + 1, CharClass::NotQuote);
    lemma_scan_bounds(s, pos + 1, CharClass::NotQuote);
}

/// Every value that reading gives is well formed.
pub proof fn lemma_value_well_formed(s: Seq<char>, pos: int)
    requires
        0 <= pos <= s.len(),
    ensures
        value_at(s, pos).result matches Ok(j) ==> j.well_formed(),
    decreases s.len() - pos, 2int,
{
    let p = skip_ws(s, pos);
    lemma_scan_bounds(s, pos, CharClass::Whitespace);
    lemma_quoted_has_no_quote(s, p);
    if char_at(s, p) == Some('{') {
        lemma_mapping_well_formed(s, p);
    } else if char_at(s, p) == Some('[') {
        lemma_sequence_well_formed(s, p);
    }
}

/// Every array that reading gives is well formed.
pub proof fn lemma_sequence_well_formed(s: Seq<char>, pos: int)
    requires
        0 <= pos <= s.len(),
    ensures
        sequence_at(s, pos).result matches Ok(j) ==> j.well_formed(),
    decreases s.len() - pos, 1int,
{
    if match_char_at(s, pos, '[').result is Ok {
        let p = skip_ws(s, pos + 1);
        lemma_scan_bounds(s, pos + 1, CharClass::Whitespace);
        if char_at(s, p) != Some(']') {
            lemma_elements_well_formed(s, p, Seq::empty());
        }
    }
}

/// Well-formed elements, and those read after them, make a well-formed
/// array.
pub proof fn lemma_elements_well_formed(s: Seq<char>, pos: int, done: Seq<Json>)
    requires
        0 <= pos <= s.len(),
        Json::Sequence(done).well_formed(),
    ensures
        elements_at(s, pos, done).result matches Ok(j) ==> j.well_formed(),
    decreases s.len() - pos, 3int,
{
    let first = value_at(s, pos);
    lemma_value_advances(s, pos);
    lemma_value_well_formed(s, pos);
    if let Ok(v) = first.result {
        let p = skip_ws(s, first.next);
        lemma_scan_bounds(s, first.next, CharClass::Whitespace);
        let more = done.push(v);
        lemma_well_formed_sequence(done);
        assert forall|i: int| 0 <= i < more.len() implies (#[trigger] more[i]).well_formed() by {
            if i < done.len() {
                assert(more[i] == done[i]);
            }
        }
        if char_at(s, p) == Some(',') {
            lemma_elements_well_formed(s, p + 1, more);
        }
    }
}

/// Every object that reading gives is well formed.
pub proof fn lemma_mapping_well_formed(s: Seq<char>, pos: int)
    requires
        0 <= pos <= s.len(),
    ensures
        mapping_at(s, pos).result matches Ok(j) ==> j.well_formed(),
    decreases s.len() - pos, 1int,
{
    if match_char_at(s, pos, '{').result is Ok {
        let p = skip_ws(s, pos + 1);
        lemma_scan_bounds(s, pos + 1, CharClass::Whitespace);
        if char_at(s, p) != Some('}') {
            lemma_entries_well_formed(s, p, Seq::empty());
        }
    }
}

/// Well-formed entries, and those read after them, make a well-formed
/// object.
pub proof fn lemma_entries_well_formed(s: Seq<char>, pos: int, done: Seq<(Seq<char>, Json)>)
    requires
        0 <= pos <= s.len(),
        Json::Mapping(done).well_formed(),
    ensures
        entries_at(s, pos, done).result matches Ok(j) ==> j.well_formed(),
    decreases s.len() - pos, 3int,
{
    let k = skip_ws(s, pos);
    lemma_scan_bounds(s, pos, CharClass::Whitespace);
    let key = key_at(s, k);
    lemma_token_advances(s, k);
    lemma_quoted_has_no_quote(s, k);
    if let Ok(name) = key.result {
        let c = skip_ws(s, key.next);
        lemma_scan_bounds(s, key.next, CharClass::Whitespace);
        if match_char_at(s, c, ':').result is Ok {
            let item = value_at(s, c + 1);
            lemma_value_advances(s, c + 1);
            lemma_value_well_formed(s, c + 1);
            if let Ok(v) = item.result {
                let p = skip_ws(s, item.next);
                lemma_scan_bounds(s, item.next, CharClass::Whitespace);
                lemma_insert_entry_well_formed(done, name, v);
                if char_at(s, p) == Some(',') {
                    lemma_entries_well_formed(s, p + 1, insert_entry(done, name, v));
                }
            }
        }
    }
}

/// Every document that reading gives is well formed.
pub proof fn lemma_document_well_formed(s: Seq<char>)
    ensures
        document(s) matches Ok(j) ==> j.well_formed(),
{
    lemma_scan_bounds(s, 0, CharClass::Whitespace);
    if skip_ws(s, 0) < s.len() {
        lemma_value_well_formed(s, skip_ws(s, 0));
    }
}

} // verus!
