//! The texts of the grammar, as trees that hold every character: the tokens
//! and the whitespace between them.
//!
//! A tree says which text it is written as and which document it denotes.
//! The laws of this module tie the two to what reading that text gives.

use crate::error::ParseError;
use crate::grammar::{
    boolean_at, char_at, digits_value, document, elements_at, entries_at, integer_at, key_at,
    lemma_scan_bounds, lemma_scan_run, lemma_token_advances, lemma_value_advances, mapping_at,
    match_char_at, scan, sequence_at, skip_ws, text_at, value_at, word_at, CharClass, Outcome,
};
use crate::value::{insert_entry, Json};
use vstd::prelude::*;

verus! {

/// A value as it is written.
pub ghost enum Syntax {
    /// An optional minus sign and a run of digits.
    Integer { negative: bool, digits: Seq<char> },
    /// `true` or `false`.
    Boolean(bool),
    /// The characters between two double quotes.
    Text(Seq<char>),
    /// `[`, then `gap` and `]` where there are no items, or the items
    /// separated by commas and `]`.
    Sequence { gap: Seq<char>, items: Seq<Padded> },
    /// `{`, then `gap` and `}` where there are no pairs, or the pairs
    /// separated by commas and `}`.
    Mapping { gap: Seq<char>, pairs: Seq<Pair> },
}

/// A value with the whitespace around it.
pub ghost struct Padded {
    pub before: Seq<char>,
    pub value: Syntax,
    pub after: Seq<char>,
}

/// An entry of an object: whitespace, the key in quotes, whitespace, `:` and
/// the value with the whitespace around it.
pub ghost struct Pair {
    pub before: Seq<char>,
    pub key: Seq<char>,
    pub between: Seq<char>,
    pub item: Padded,
}

/// Whether every character of `w` is whitespace.
pub open spec fn is_blank(w: Seq<char>) -> bool {
    forall|i: int| 0 <= i < w.len() ==> CharClass::Whitespace.holds(#[trigger] w[i])
}

/// Whether every character of `digits` is a digit.
pub open spec fn is_digits(digits: Seq<char>) -> bool {
    forall|i: int| 0 <= i < digits.len() ==> CharClass::Digit.holds(#[trigger] digits[i])
}

/// The entries that are left when `entries` are given to an object one
/// after the other, a later value for a key taking the place of an earlier
/// one.
pub open spec fn insert_all(
    done: Seq<(Seq<char>, Json)>,
    entries: Seq<(Seq<char>, Json)>,
) -> Seq<(Seq<char>, Json)>
    decreases entries.len(),
{
    if entries.len() == 0 {
        done
    } else {
        insert_all(insert_entry(done, entries[0].0, entries[0].1), entries.drop_first())
    }
}

impl Syntax {
    /// The text that the value is written as.
    pub open spec fn text(self) -> Seq<char>
        decreases self,
    {
        match self {
            Syntax::Integer { negative, digits } => if negative {
                seq!['-'] + digits
            } else {
                digits
            },
            Syntax::Boolean(b) => if b {
                seq!['t', 'r', 'u', 'e']
            } else {
                seq!['f', 'a', 'l', 's', 'e']
            },
            Syntax::Text(t) => seq!['"'] + t + seq!['"'],
            Syntax::Sequence { gap, items } => seq!['['] + (if items.len() == 0 {
                gap
            } else {
                items_text(items)
            }) + seq![']'],
            Syntax::Mapping { gap, pairs } => seq!['{'] + (if pairs.len() == 0 {
                gap
            } else {
                pairs_text(pairs)
            }) + seq!['}'],
        }
    }

    /// Whether the value is written as the grammar asks, and its integers
    /// fit in 64 bits.
    pub open spec fn valid(self) -> bool
        decreases self,
    {
        match self {
            Syntax::Integer { negative, digits } => {
                &&& digits.len() > 0
                &&& is_digits(digits)
                &&& i64::MIN <= self.value()->Integer_0 <= i64::MAX
            },
            Syntax::Boolean(_) => true,
            Syntax::Text(t) => !t.contains('"'),
            Syntax::Sequence { gap, items } => {
                &&& is_blank(gap)
                &&& forall|i: int| 0 <= i < items.len() ==> (#[trigger] items[i]).valid()
            },
            Syntax::Mapping { gap, pairs } => {
                &&& is_blank(gap)
                &&& forall|i: int| 0 <= i < pairs.len() ==> (#[trigger] pairs[i]).valid()
            },
        }
    }

    /// The document that the value denotes.
    pub open spec fn value(self) -> Json
        decreases self,
    {
        match self {
            Syntax::Integer { negative, digits } => Json::Integer(
                if negative {
                    -digits_value(digits)
                } else {
                    digits_value(digits)
                },
            ),
            Syntax::Boolean(b) => Json::Boolean(b),
            Syntax::Text(t) => Json::Text(t),
            Syntax::Sequence { gap, items } => Json::Sequence(items_value(items)),
            Syntax::Mapping { gap, pairs } => Json::Mapping(
                insert_all(Seq::empty(), pairs_entries(pairs)),
            ),
        }
    }
}

impl Padded {
    /// The text that the padded value is written as.
    pub open spec fn text(self) -> Seq<char>
        decreases self,
    {
        self.before + self.value.text() + self.after
    }

    /// Whether the padding is whitespace and the value is valid.
    pub open spec fn valid(self) -> bool
        decreases self,
    {
        is_blank(self.before) && self.value.valid() && is_blank(self.after)
    }
}

impl Pair {
    /// The text that the entry is written as.
    pub open spec fn text(self) -> Seq<char>
        decreases self,
    {
        self.before + seq!['"'] + self.key + seq!['"'] + self.between + seq![':']
            + self.item.text()
    }

    /// Whether the padding is whitespace, the key holds no quote and the
    /// value is valid.
    pub open spec fn valid(self) -> bool
        decreases self,
    {
        is_blank(self.before) && !self.key.contains('"') && is_blank(self.between)
            && self.item.valid()
    }
}

/// The documents that `items` denote, in order.
pub open spec fn items_value(items: Seq<Padded>) -> Seq<Json>
    decreases items,
{
    Seq::new(
        items.len(),
        |i: int|
            if 0 <= i < items.len() {
                items[i].value.value()
            } else {
                Json::Boolean(false)
            },
    )
}

/// The keys of `pairs` with the documents that their values denote, in
/// order.
pub open spec fn pairs_entries(pairs: Seq<Pair>) -> Seq<(Seq<char>, Json)>
    decreases pairs,
{
    Seq::new(
        pairs.len(),
        |i: int|
            if 0 <= i < pairs.len() {
                (pairs[i].key, pairs[i].item.value.value())
            } else {
                (Seq::empty(), Json::Boolean(false))
            },
    )
}

/// The texts of `items`, separated by commas.
pub open spec fn items_text(items: Seq<Padded>) -> Seq<char>
    decreases items,
{
    if items.len() == 0 {
        Seq::empty()
    } else if items.len() == 1 {
        items[0].text()
    } else {
        items[0].text() + seq![','] + items_text(items.drop_first())
    }
}

/// The texts of `pairs`, separated by commas.
pub open spec fn pairs_text(pairs: Seq<Pair>) -> Seq<char>
    decreases pairs,
{
    if pairs.len() == 0 {
        Seq::empty()
    } else if pairs.len() == 1 {
        pairs[0].text()
    } else {
        pairs[0].text() + seq![','] + pairs_text(pairs.drop_first())
    }
}

/// Where a word stands in a text, each of its characters stands there.
pub proof fn lemma_word_chars(s: Seq<char>, pos: int, word: Seq<char>)
    requires
        word_at(s, pos, word),
    ensures
        forall|i: int| 0 <= i < word.len() ==> s[pos + i] == #[trigger] word[i],
{
    assert forall|i: int| 0 <= i < word.len() implies s[pos + i] == #[trigger] word[i] by {
        assert(s.subrange(pos, pos + word.len())[i] == s[pos + i]);
    }
}

/// Where the one-character word `c` stands, the character `c` stands.
pub proof fn lemma_word_of_one(s: Seq<char>, pos: int, c: char)
    ensures
        word_at(s, pos, seq![c]) <==> 0 <= pos && char_at(s, pos) == Some(c),
{
    let word = seq![c];
    if word_at(s, pos, word) {
        assert(s.subrange(pos, pos + 1)[0] == word[0]);
    }
    if 0 <= pos && char_at(s, pos) == Some(c) {
        assert(s.subrange(pos, pos + 1) =~= word);
    }
}

/// Two words stand one after the other exactly where their concatenation
/// stands.
pub proof fn lemma_word_split(s: Seq<char>, pos: int, first: Seq<char>, second: Seq<char>)
    ensures
        word_at(s, pos, first + second) <==> word_at(s, pos, first) && word_at(
            s,
            pos + first.len(),
            second,
        ),
{
    let both = first + second;
    if word_at(s, pos, both) {
        lemma_word_chars(s, pos, both);
        assert(s.subrange(pos, pos + first.len()) =~= first) by {
            assert forall|i: int| 0 <= i < first.len() implies s[pos + i] == first[i] by {
                assert(both[i] == first[i]);
            }
        }
        assert(s.subrange(pos + first.len(), pos + first.len() + second.len()) =~= second) by {
            assert forall|i: int| 0 <= i < second.len() implies s[pos + first.len() + i]
                == second[i] by {
                assert(both[first.len() + i] == second[i]);
            }
        }
    }
    if word_at(s, pos, first) && word_at(s, pos + first.len(), second) {
        lemma_word_chars(s, pos, first);
        lemma_word_chars(s, pos + first.len(), second);
        assert(s.subrange(pos, pos + both.len()) =~= both) by {
            assert forall|i: int| 0 <= i < both.len() implies s[pos + i] == both[i] by {
                if i >= first.len() {
                    assert(s[pos + first.len() + (i - first.len())] == second[i - first.len()]);
                }
            }
        }
    }
}

/// A scan passes a word whose characters are all in the class and stops
/// behind it where the text ends there or goes on outside the class.
pub proof fn lemma_scan_word(s: Seq<char>, pos: int, word: Seq<char>, class: CharClass)
    requires
        word_at(s, pos, word),
        forall|i: int| 0 <= i < word.len() ==> class.holds(#[trigger] word[i]),
        char_at(s, pos + word.len()) matches Some(c) ==> !class.holds(c),
    ensures
        scan(s, pos, class) == pos + word.len(),
    decreases word.len(),
{
    lemma_word_chars(s, pos, word);
    if word.len() > 0 {
        assert(s[pos + 0] == word[0]);
        let rest = word.drop_first();
        assert(word =~= seq![word[0]] + rest);
        lemma_word_split(s, pos, seq![word[0]], rest);
        assert forall|i: int| 0 <= i < rest.len() implies class.holds(#[trigger] rest[i]) by {
            assert(rest[i] == word[i + 1]);
        }
        lemma_scan_word(s, pos + 1, rest, class);
    }
}

/// Whether no digit stands at `pos`, so that a number that ends there ends.
pub open spec fn no_digit_at(s: Seq<char>, pos: int) -> bool {
    char_at(s, pos) matches Some(c) ==> !CharClass::Digit.holds(c)
}

/// Reading a valid integer where it stands gives the number it denotes.
pub proof fn lemma_integer_reads(t: Syntax, s: Seq<char>, pos: int)
    requires
        t is Integer,
        t.valid(),
        word_at(s, pos, t.text()),
        no_digit_at(s, pos + t.text().len()),
    ensures
        integer_at(s, pos) == (Outcome { result: Ok(t.value()), next: pos + t.text().len() }),
        value_at(s, pos) == integer_at(s, pos),
{
    let digits = t->digits;
    let negative = t->negative;
    lemma_word_chars(s, pos, t.text());
    let start = if negative { pos + 1 } else { pos };
    if negative {
        lemma_word_split(s, pos, seq!['-'], digits);
        assert(t.text()[0] == '-');
    } else {
        assert(t.text()[0] == digits[0]);
    }
    assert(s[pos + 0] == t.text()[0]);
    lemma_word_chars(s, start, digits);
    assert(s[start + 0] == digits[0]);
    lemma_scan_word(s, start, digits, CharClass::Digit);
    assert(skip_ws(s, pos) == pos);
}

/// Reading a valid string where it stands gives the text it denotes.
pub proof fn lemma_text_reads(t: Syntax, s: Seq<char>, pos: int)
    requires
        t is Text,
        t.valid(),
        word_at(s, pos, t.text()),
    ensures
        text_at(s, pos) == (Outcome { result: Ok(t.value()), next: pos + t.text().len() }),
        value_at(s, pos) == text_at(s, pos),
{
    let content = t->Text_0;
    lemma_word_chars(s, pos, t.text());
    lemma_word_split(s, pos, seq!['"'] + content, seq!['"']);
    lemma_word_split(s, pos, seq!['"'], content);
    assert(s[pos + 0] == t.text()[0]);
    let close: int = content.len() as int + 1;
    assert(s[pos + close] == t.text()[close]);
    assert forall|i: int| 0 <= i < content.len() implies CharClass::NotQuote.holds(
        #[trigger] content[i],
    ) by {
        assert(content.contains(content[i]));
    }
    lemma_scan_word(s, pos + 1, content, CharClass::NotQuote);
    assert(skip_ws(s, pos) == pos);
}

/// Reading `true` or `false` where it stands gives the boolean it denotes.
pub proof fn lemma_boolean_reads(t: Syntax, s: Seq<char>, pos: int)
    requires
        t is Boolean,
        word_at(s, pos, t.text()),
    ensures
        boolean_at(s, pos) == (Outcome { result: Ok(t.value()), next: pos + t.text().len() }),
        value_at(s, pos) == boolean_at(s, pos),
{
    lemma_word_chars(s, pos, t.text());
    assert(s[pos + 0] == t.text()[0]);
    if !t->Boolean_0 {
        let yes = seq!['t', 'r', 'u', 'e'];
        if word_at(s, pos, yes) {
            lemma_word_chars(s, pos, yes);
            assert(s[pos + 0] == yes[0]);
        }
    }
    assert(skip_ws(s, pos) == pos);
}

/// Whether a value can start with `c`.
pub open spec fn starts_value(c: char) -> bool {
    c == '-' || CharClass::Digit.holds(c) || c == 't' || c == 'f' || c == '"' || c == '['
        || c == '{'
}

/// The text of a valid value is not empty, and starts as a value does.
pub proof fn lemma_first_char(t: Syntax)
    requires
        t.valid(),
    ensures
        t.text().len() > 0,
        starts_value(t.text()[0]),
{
    match t {
        Syntax::Integer { negative, digits } => {
            if !negative {
                assert(CharClass::Digit.holds(digits[0]));
            }
        },
        _ => {},
    }
}

/// Skipping whitespace twice is skipping it once.
pub proof fn lemma_skip_ws_twice(s: Seq<char>, pos: int)
    requires
        0 <= pos,
    ensures
        skip_ws(s, skip_ws(s, pos)) == skip_ws(s, pos),
{
    lemma_scan_run(s, pos, CharClass::Whitespace);
    lemma_scan_bounds(s, pos, CharClass::Whitespace);
}

/// Whitespace before a value, before the elements of an array and before
/// the entries of an object changes nothing.
pub proof fn lemma_leading_whitespace(s: Seq<char>, pos: int)
    requires
        0 <= pos <= s.len(),
    ensures
        value_at(s, skip_ws(s, pos)) == value_at(s, pos),
        forall|done: Seq<Json>| #[trigger]
            elements_at(s, skip_ws(s, pos), done) == elements_at(s, pos, done),
        forall|done: Seq<(Seq<char>, Json)>| #[trigger]
            entries_at(s, skip_ws(s, pos), done) == entries_at(s, pos, done),
{
    let p = skip_ws(s, pos);
    lemma_skip_ws_twice(s, pos);
    lemma_scan_bounds(s, pos, CharClass::Whitespace);
    lemma_value_advances(s, pos);
    lemma_value_advances(s, p);
    assert forall|done: Seq<Json>| #[trigger]
        elements_at(s, p, done) == elements_at(s, pos, done) by {
        let first = value_at(s, pos);
        lemma_scan_bounds(s, first.next, CharClass::Whitespace);
    }
    assert forall|done: Seq<(Seq<char>, Json)>| #[trigger]
        entries_at(s, p, done) == entries_at(s, pos, done) by {
        let key = key_at(s, p);
        if let Ok(name) = key.result {
            let c = skip_ws(s, key.next);
            lemma_token_advances(s, p);
            lemma_scan_bounds(s, key.next, CharClass::Whitespace);
            if match_char_at(s, c, ':').result is Ok {
                lemma_value_advances(s, c + 1);
                lemma_scan_bounds(s, value_at(s, c + 1).next, CharClass::Whitespace);
            }
        }
    }
}

/// Whether the text ends at `pos` or goes on with a character that is
/// neither whitespace nor a digit.
pub open spec fn closes_at(s: Seq<char>, pos: int) -> bool {
    char_at(s, pos) matches Some(c) ==> !CharClass::Whitespace.holds(c) && !CharClass::Digit.holds(
        c,
    )
}

/// Reading a valid value where it stands gives the document it denotes and
/// stops behind it.
pub proof fn lemma_value_reads(t: Syntax, s: Seq<char>, pos: int)
    requires
        t.valid(),
        word_at(s, pos, t.text()),
        no_digit_at(s, pos + t.text().len()),
    ensures
        value_at(s, pos) == (Outcome { result: Ok(t.value()), next: pos + t.text().len() }),
    decreases t, 1int,
{
    match t {
        Syntax::Integer { .. } => {
            lemma_integer_reads(t, s, pos);
        },
        Syntax::Boolean(_) => {
            lemma_boolean_reads(t, s, pos);
        },
        Syntax::Text(_) => {
            lemma_text_reads(t, s, pos);
        },
        Syntax::Sequence { .. } => {
            lemma_sequence_reads(t, s, pos);
        },
        Syntax::Mapping { .. } => {
            lemma_mapping_reads(t, s, pos);
        },
    }
}

/// Reading a valid array where it stands gives the document it denotes.
pub proof fn lemma_sequence_reads(t: Syntax, s: Seq<char>, pos: int)
    requires
        t is Sequence,
        t.valid(),
        word_at(s, pos, t.text()),
    ensures
        sequence_at(s, pos) == (Outcome { result: Ok(t.value()), next: pos + t.text().len() }),
        value_at(s, pos) == sequence_at(s, pos),
    decreases t, 0int,
{
    let gap = t->Sequence_gap;
    let items = t->items;
    let inner = if items.len() == 0 {
        gap
    } else {
        items_text(items)
    };
    let end = pos + 1 + inner.len();
    assert(t.text() == seq!['['] + inner + seq![']']);
    lemma_word_split(s, pos, seq!['['] + inner, seq![']']);
    lemma_word_split(s, pos, seq!['['], inner);
    lemma_word_of_one(s, pos, '[');
    lemma_word_of_one(s, end, ']');
    assert(skip_ws(s, pos) == pos);
    assert(t.value() == Json::Sequence(items_value(items)));
    assert(t.text().len() == inner.len() + 2);
    assert(match_char_at(s, pos, '[').result is Ok);
    if items.len() == 0 {
        lemma_scan_word(s, pos + 1, gap, CharClass::Whitespace);
        assert(items_value(items) =~= Seq::<Json>::empty());
        assert(skip_ws(s, pos + 1) == end);
        assert(char_at(s, end) == Some(']'));
    } else {
        lemma_items_read(items, s, pos + 1, Seq::empty());
        lemma_leading_whitespace(s, pos + 1);
        lemma_items_start(items, s, pos + 1);
        assert(Seq::<Json>::empty() + items_value(items) =~= items_value(items));
        let p = skip_ws(s, pos + 1);
        assert(char_at(s, p) != Some(']'));
        assert(elements_at(s, p, Seq::empty()) == elements_at(s, pos + 1, Seq::empty()));
        assert(sequence_at(s, pos) == elements_at(s, p, Seq::empty()));
    }
}

/// Reading a valid object where it stands gives the document it denotes.
pub proof fn lemma_mapping_reads(t: Syntax, s: Seq<char>, pos: int)
    requires
        t is Mapping,
        t.valid(),
        word_at(s, pos, t.text()),
    ensures
        mapping_at(s, pos) == (Outcome { result: Ok(t.value()), next: pos + t.text().len() }),
        value_at(s, pos) == mapping_at(s, pos),
    decreases t, 0int,
{
    let gap = t->Mapping_gap;
    let pairs = t->pairs;
    let inner = if pairs.len() == 0 {
        gap
    } else {
        pairs_text(pairs)
    };
    let end = pos + 1 + inner.len();
    assert(t.text() == seq!['{'] + inner + seq!['}']);
    lemma_word_split(s, pos, seq!['{'] + inner, seq!['}']);
    lemma_word_split(s, pos, seq!['{'], inner);
    lemma_word_of_one(s, pos, '{');
    lemma_word_of_one(s, end, '}');
    assert(skip_ws(s, pos) == pos);
    assert(t.value() == Json::Mapping(insert_all(Seq::empty(), pairs_entries(pairs))));
    assert(t.text().len() == inner.len() + 2);
    assert(match_char_at(s, pos, '{').result is Ok);
    if pairs.len() == 0 {
        lemma_scan_word(s, pos + 1, gap, CharClass::Whitespace);
        assert(pairs_entries(pairs) =~= Seq::<(Seq<char>, Json)>::empty());
        assert(skip_ws(s, pos + 1) == end);
        assert(char_at(s, end) == Some('}'));
    } else {
        lemma_pairs_read(pairs, s, pos + 1, Seq::empty());
        lemma_leading_whitespace(s, pos + 1);
        lemma_pairs_start(pairs, s, pos + 1);
        let p = skip_ws(s, pos + 1);
        assert(char_at(s, p) != Some('}'));
        assert(entries_at(s, p, Seq::empty()) == entries_at(s, pos + 1, Seq::empty()));
        assert(mapping_at(s, pos) == entries_at(s, p, Seq::empty()));
    }
}

/// Reading a valid padded value where it stands gives the document it
/// denotes; the whitespace behind the value ends where the padded value
/// does.
pub proof fn lemma_padded_reads(p: Padded, s: Seq<char>, pos: int)
    requires
        p.valid(),
        word_at(s, pos, p.text()),
        closes_at(s, pos + p.text().len()),
    ensures
        value_at(s, pos).result == Ok::<Json, ParseError>(p.value.value()),
        pos < value_at(s, pos).next,
        skip_ws(s, value_at(s, pos).next) == pos + p.text().len(),
        skip_ws(s, pos) == pos + p.before.len(),
        char_at(s, skip_ws(s, pos)) matches Some(c) && starts_value(c),
    decreases p, 0int,
{
    let vt = p.value.text();
    let start = pos + p.before.len();
    let end = start + vt.len();
    lemma_first_char(p.value);
    lemma_word_split(s, pos, p.before + vt, p.after);
    lemma_word_split(s, pos, p.before, vt);
    lemma_word_chars(s, start, vt);
    assert(s[start + 0] == vt[0]);
    lemma_scan_word(s, pos, p.before, CharClass::Whitespace);
    if p.after.len() > 0 {
        lemma_word_chars(s, end, p.after);
        assert(s[end + 0] == p.after[0]);
    }
    lemma_value_reads(p.value, s, start);
    lemma_leading_whitespace(s, pos);
    lemma_scan_word(s, end, p.after, CharClass::Whitespace);
}

/// The text of valid items starts with whitespace and then a value.
pub proof fn lemma_items_start(items: Seq<Padded>, s: Seq<char>, pos: int)
    requires
        items.len() > 0,
        items[0].valid(),
        word_at(s, pos, items_text(items)),
    ensures
        char_at(s, skip_ws(s, pos)) matches Some(c) && starts_value(c),
{
    let head = items[0];
    let vt = head.value.text();
    lemma_first_char(head.value);
    if items.len() > 1 {
        lemma_word_split(s, pos, head.text() + seq![','], items_text(items.drop_first()));
        lemma_word_split(s, pos, head.text(), seq![',']);
        assert(word_at(s, pos, head.text()));
    } else {
        assert(items_text(items) == head.text());
        assert(word_at(s, pos, head.text()));
    }
    assert(head.text() == head.before + vt + head.after);
    lemma_word_split(s, pos, head.before + vt, head.after);
    lemma_word_split(s, pos, head.before, vt);
    lemma_word_chars(s, pos + head.before.len(), vt);
    assert(s[pos + head.before.len() + 0] == vt[0]);
    lemma_scan_word(s, pos, head.before, CharClass::Whitespace);
}

/// Reading valid items where they stand, before a `]`, gives the array of
/// the elements read before and the documents that the items denote.
pub proof fn lemma_items_read(items: Seq<Padded>, s: Seq<char>, pos: int, done: Seq<Json>)
    requires
        items.len() > 0,
        forall|i: int| 0 <= i < items.len() ==> (#[trigger] items[i]).valid(),
        word_at(s, pos, items_text(items)),
        char_at(s, pos + items_text(items).len()) == Some(']'),
    ensures
        elements_at(s, pos, done) == (Outcome {
            result: Ok(Json::Sequence(done + items_value(items))),
            next: pos + items_text(items).len() + 1,
        }),
    decreases items, 0int,
{
    let head = items[0];
    let rest = items.drop_first();
    let behind = pos + head.text().len();
    if items.len() > 1 {
        lemma_word_split(s, pos, head.text() + seq![','], items_text(rest));
        lemma_word_split(s, pos, head.text(), seq![',']);
        lemma_word_of_one(s, behind, ',');
    }
    lemma_padded_reads(head, s, pos);
    let v = head.value.value();
    if items.len() > 1 {
        assert forall|i: int| 0 <= i < rest.len() implies (#[trigger] rest[i]).valid() by {
            assert(rest[i] == items[i + 1]);
        }
        lemma_items_read(rest, s, behind + 1, done.push(v));
        assert(done.push(v) + items_value(rest) =~= done + items_value(items)) by {
            assert forall|i: int| 0 <= i < rest.len() implies items_value(rest)[i]
                == items_value(items)[i + 1] by {
                assert(rest[i] == items[i + 1]);
            }
        }
    } else {
        assert(done.push(v) =~= done + items_value(items));
    }
}

/// The text of valid pairs starts with whitespace and then a quote.
pub proof fn lemma_pairs_start(pairs: Seq<Pair>, s: Seq<char>, pos: int)
    requires
        pairs.len() > 0,
        pairs[0].valid(),
        word_at(s, pos, pairs_text(pairs)),
    ensures
        char_at(s, skip_ws(s, pos)) == Some('"'),
{
    let head = pairs[0];
    if pairs.len() > 1 {
        lemma_word_split(s, pos, head.text() + seq![','], pairs_text(pairs.drop_first()));
        lemma_word_split(s, pos, head.text(), seq![',']);
    }
    lemma_pair_parts(head, s, pos);
    lemma_scan_word(s, pos, head.before, CharClass::Whitespace);
}

/// Where a pair stands, each of its parts stands at its place.
pub proof fn lemma_pair_parts(p: Pair, s: Seq<char>, pos: int)
    requires
        word_at(s, pos, p.text()),
    ensures
        word_at(s, pos, p.before),
        char_at(s, pos + p.before.len()) == Some('"'),
        word_at(s, pos + p.before.len() + 1, p.key),
        char_at(s, pos + p.before.len() + 1 + p.key.len()) == Some('"'),
        word_at(s, pos + p.before.len() + 2 + p.key.len(), p.between),
        char_at(s, pos + p.before.len() + 2 + p.key.len() + p.between.len()) == Some(':'),
        word_at(s, pos + p.before.len() + 3 + p.key.len() + p.between.len(), p.item.text()),
        p.text().len() == p.before.len() + 3 + p.key.len() + p.between.len()
            + p.item.text().len(),
{
    let q = seq!['"'];
    let c = seq![':'];
    lemma_word_split(s, pos, p.before + q + p.key + q + p.between + c, p.item.text());
    lemma_word_split(s, pos, p.before + q + p.key + q + p.between, c);
    lemma_word_split(s, pos, p.before + q + p.key + q, p.between);
    lemma_word_split(s, pos, p.before + q + p.key, q);
    lemma_word_split(s, pos, p.before + q, p.key);
    lemma_word_split(s, pos, p.before, q);
    let a = pos + p.before.len();
    lemma_word_of_one(s, a, '"');
    let b = a + 1 + p.key.len();
    lemma_word_of_one(s, b, '"');
    let d = b + 1 + p.between.len();
    lemma_word_of_one(s, d, ':');
}

/// Reading valid pairs where they stand, before a `}`, gives the object of
/// the entries read before, with the pairs given to it one after the other.
pub proof fn lemma_pairs_read(
    pairs: Seq<Pair>,
    s: Seq<char>,
    pos: int,
    done: Seq<(Seq<char>, Json)>,
)
    requires
        pairs.len() > 0,
        forall|i: int| 0 <= i < pairs.len() ==> (#[trigger] pairs[i]).valid(),
        word_at(s, pos, pairs_text(pairs)),
        char_at(s, pos + pairs_text(pairs).len()) == Some('}'),
    ensures
        entries_at(s, pos, done) == (Outcome {
            result: Ok(Json::Mapping(insert_all(done, pairs_entries(pairs)))),
            next: pos + pairs_text(pairs).len() + 1,
        }),
    decreases pairs, 0int,
{
    let head = pairs[0];
    let rest = pairs.drop_first();
    let behind = pos + head.text().len();
    if pairs.len() > 1 {
        lemma_word_split(s, pos, head.text() + seq![','], pairs_text(rest));
        lemma_word_split(s, pos, head.text(), seq![',']);
        lemma_word_of_one(s, behind, ',');
    }
    lemma_pair_parts(head, s, pos);
    let k = pos + head.before.len();
    lemma_scan_word(s, pos, head.before, CharClass::Whitespace);
    assert(skip_ws(s, pos) == k);
    assert forall|i: int| 0 <= i < head.key.len() implies CharClass::NotQuote.holds(
        #[trigger] head.key[i],
    ) by {
        assert(head.key.contains(head.key[i]));
    }
    lemma_scan_word(s, k + 1, head.key, CharClass::NotQuote);
    let key_end = k + 2 + head.key.len();
    assert(key_at(s, k) == (Outcome { result: Ok(head.key), next: key_end }));
    lemma_scan_word(s, key_end, head.between, CharClass::Whitespace);
    let colon = key_end + head.between.len();
    assert(skip_ws(s, key_end) == colon);
    lemma_padded_reads(head.item, s, colon + 1);
    let v = head.item.value.value();
    let entries = pairs_entries(pairs);
    assert(entries[0] == (head.key, v));
    assert(entries.drop_first() =~= pairs_entries(rest)) by {
        assert forall|i: int| 0 <= i < rest.len() implies entries.drop_first()[i]
            == pairs_entries(rest)[i] by {
            assert(rest[i] == pairs[i + 1]);
        }
    }
    if pairs.len() > 1 {
        assert forall|i: int| 0 <= i < rest.len() implies (#[trigger] rest[i]).valid() by {
            assert(rest[i] == pairs[i + 1]);
        }
        lemma_pairs_read(rest, s, behind + 1, insert_entry(done, head.key, v));
    } else {
        assert(insert_all(insert_entry(done, head.key, v), pairs_entries(rest)) == insert_entry(
            done,
            head.key,
            v,
        ));
    }
}

/// Whether `s` is a valid text that denotes `j`: whether the grammar, with
/// whitespace between the tokens and integers that fit in 64 bits, has a
/// value that is written as `s` and denotes `j`.
pub open spec fn denotes(s: Seq<char>, j: Json) -> bool {
    exists|p: Padded| p.valid() && #[trigger] p.text() == s && p.value.value() == j
}

/// Every valid text is a document, and reading it gives the document that
/// it denotes.
pub proof fn lemma_valid_text_reads(p: Padded)
    requires
        p.valid(),
    ensures
        document(p.text()) == Ok::<Json, ParseError>(p.value.value()),
{
    let s = p.text();
    assert(s.subrange(0, s.len() as int) =~= s);
    lemma_padded_reads(p, s, 0);
    lemma_leading_whitespace(s, 0);
}

impl Syntax {
    /// The value with all whitespace between its tokens taken out.
    pub open spec fn bare(self) -> Syntax
        decreases self,
    {
        match self {
            Syntax::Sequence { gap, items } => Syntax::Sequence {
                gap: Seq::empty(),
                items: Seq::new(
                    items.len(),
                    |i: int|
                        if 0 <= i < items.len() {
                            items[i].bare()
                        } else {
                            arbitrary()
                        },
                ),
            },
            Syntax::Mapping { gap, pairs } => Syntax::Mapping {
                gap: Seq::empty(),
                pairs: Seq::new(
                    pairs.len(),
                    |i: int|
                        if 0 <= i < pairs.len() {
                            pairs[i].bare()
                        } else {
                            arbitrary()
                        },
                ),
            },
            _ => self,
        }
    }
}

impl Padded {
    /// The padded value with all whitespace taken out.
    pub open spec fn bare(self) -> Padded
        decreases self,
    {
        Padded { before: Seq::empty(), value: self.value.bare(), after: Seq::empty() }
    }
}

impl Pair {
    /// The entry with all whitespace taken out.
    pub open spec fn bare(self) -> Pair
        decreases self,
    {
        Pair {
            before: Seq::empty(),
            key: self.key,
            between: Seq::empty(),
            item: self.item.bare(),
        }
    }
}

/// A value denotes the same document with and without the whitespace
/// between its tokens.
pub proof fn lemma_bare_value(t: Syntax)
    ensures
        t.bare().value() == t.value(),
    decreases t,
{
    match t {
        Syntax::Sequence { gap, items } => {
            let stripped = t.bare()->items;
            assert(items_value(stripped) =~= items_value(items)) by {
                assert forall|i: int| 0 <= i < items.len() implies items_value(stripped)[i]
                    == items_value(items)[i] by {
                    lemma_bare_value(items[i].value);
                }
            }
        },
        Syntax::Mapping { gap, pairs } => {
            let stripped = t.bare()->pairs;
            assert(pairs_entries(stripped) =~= pairs_entries(pairs)) by {
                assert forall|i: int| 0 <= i < pairs.len() implies pairs_entries(stripped)[i]
                    == pairs_entries(pairs)[i] by {
                    lemma_bare_value(pairs[i].item.value);
                    assert(stripped[i] == pairs[i].bare());
                    assert(pairs[i].bare().item == pairs[i].item.bare());
                    assert(pairs[i].item.bare().value == pairs[i].item.value.bare());
                }
            }
        },
        _ => {},
    }
}

/// Whitespace between tokens and around values is insignificant: two valid
/// texts that are the same once their whitespace is taken out are read as
/// the same document.
pub proof fn lemma_whitespace_is_insignificant(p: Padded, q: Padded)
    requires
        p.valid(),
        q.valid(),
        p.bare() == q.bare(),
    ensures
        document(p.text()) == document(q.text()),
        document(p.text()) is Ok,
{
    lemma_valid_text_reads(p);
    lemma_valid_text_reads(q);
    lemma_bare_value(p.value);
    lemma_bare_value(q.value);
}

} // verus!
