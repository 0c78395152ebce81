//! From a reading back to what was read: every text that is read as a
//! document is a valid text of the grammar, and denotes that document.

use crate::error::ParseError;
use crate::grammar::{
    char_at, document, elements_at, entries_at, key_at, lemma_quoted_has_no_quote,
    lemma_scan_bounds, lemma_scan_run, lemma_token_advances, lemma_value_advances, mapping_at,
    scan, sequence_at, skip_ws, value_at, word_at, CharClass,
};
use crate::syntax::{
    denotes, insert_all, items_text, items_value, lemma_leading_whitespace,
    lemma_skip_ws_twice, lemma_valid_text_reads, pairs_entries, pairs_text, Padded, Pair,
    Syntax,
};
use crate::value::{insert_entry, Json};
use vstd::prelude::*;

verus! {

/// What a scan passes is a word of the class.
pub proof fn lemma_scanned_word(s: Seq<char>, pos: int, class: CharClass)
    requires
        0 <= pos <= s.len(),
    ensures
        pos <= scan(s, pos, class) <= s.len(),
        forall|i: int|
            0 <= i < scan(s, pos, class) - pos ==> class.holds(
                #[trigger] s.subrange(pos, scan(s, pos, class))[i],
            ),
{
    lemma_scan_bounds(s, pos, class);
    lemma_scan_run(s, pos, class);
    let word = s.subrange(pos, scan(s, pos, class));
    assert forall|i: int| 0 <= i < word.len() implies class.holds(#[trigger] word[i]) by {
        assert(word[i] == s[pos + i]);
    }
}

/// What was read as a string, an integer or a boolean is a valid value,
/// written from the offset where reading started to the one where it
/// stopped.
pub proof fn lemma_token_is_written(s: Seq<char>, pos: int) -> (t: Syntax)
    requires
        0 <= pos <= s.len(),
        skip_ws(s, pos) == pos,
        char_at(s, pos) != Some('{'),
        char_at(s, pos) != Some('['),
        value_at(s, pos).result is Ok,
    ensures
        t.valid(),
        value_at(s, pos).result == Ok::<Json, ParseError>(t.value()),
        pos <= value_at(s, pos).next <= s.len(),
        t.text() == s.subrange(pos, value_at(s, pos).next),
{
    lemma_token_advances(s, pos);
    let next = value_at(s, pos).next;
    if char_at(s, pos) == Some('"') {
        let end = scan(s, pos + 1, CharClass::NotQuote);
        lemma_scanned_word(s, pos + 1, CharClass::NotQuote);
        lemma_scan_run(s, pos + 1, CharClass::NotQuote);
        lemma_quoted_has_no_quote(s, pos);
        let content = s.subrange(pos + 1, end);
        let t = Syntax::Text(content);
        assert(t.text() =~= s.subrange(pos, next));
        t
    } else if pos < s.len() && (s[pos] == '-' || CharClass::Digit.holds(s[pos])) {
        let negative = s[pos] == '-';
        let start = if negative {
            pos + 1
        } else {
            pos
        };
        lemma_scanned_word(s, start, CharClass::Digit);
        let digits = s.subrange(start, scan(s, start, CharClass::Digit));
        let t = Syntax::Integer { negative, digits };
        assert(t.text() =~= s.subrange(pos, next));
        t
    } else {
        let yes = word_at(s, pos, seq!['t', 'r', 'u', 'e']);
        let t = Syntax::Boolean(yes);
        assert(t.text() =~= s.subrange(pos, next));
        t
    }
}

/// What was read as a value is a valid value, written from the first
/// character after the whitespace to the offset where reading stopped.
pub proof fn lemma_value_is_written(s: Seq<char>, pos: int) -> (t: Syntax)
    requires
        0 <= pos <= s.len(),
        value_at(s, pos).result is Ok,
    ensures
        t.valid(),
        value_at(s, pos).result == Ok::<Json, ParseError>(t.value()),
        pos <= skip_ws(s, pos) <= value_at(s, pos).next <= s.len(),
        t.text() == s.subrange(skip_ws(s, pos), value_at(s, pos).next),
    decreases s.len() - pos, 2int,
{
    let p = skip_ws(s, pos);
    lemma_scan_bounds(s, pos, CharClass::Whitespace);
    lemma_leading_whitespace(s, pos);
    lemma_skip_ws_twice(s, pos);
    lemma_value_advances(s, p);
    if char_at(s, p) == Some('[') {
        lemma_sequence_is_written(s, p)
    } else if char_at(s, p) == Some('{') {
        lemma_mapping_is_written(s, p)
    } else {
        lemma_token_is_written(s, p)
    }
}

/// What was read as an array is a valid array, written from the offset
/// where reading started to the one where it stopped.
pub proof fn lemma_sequence_is_written(s: Seq<char>, pos: int) -> (t: Syntax)
    requires
        char_at(s, pos) == Some('['),
        sequence_at(s, pos).result is Ok,
    ensures
        t.valid(),
        sequence_at(s, pos).result == Ok::<Json, ParseError>(t.value()),
        pos < sequence_at(s, pos).next <= s.len(),
        t.text() == s.subrange(pos, sequence_at(s, pos).next),
    decreases s.len() - pos, 1int,
{
    let inner = skip_ws(s, pos + 1);
    let next = sequence_at(s, pos).next;
    lemma_scanned_word(s, pos + 1, CharClass::Whitespace);
    if char_at(s, inner) == Some(']') {
        let t = Syntax::Sequence { gap: s.subrange(pos + 1, inner), items: Seq::empty() };
        assert(t.text() =~= s.subrange(pos, next));
        assert(items_value(t->items) =~= Seq::<Json>::empty());
        t
    } else {
        lemma_leading_whitespace(s, pos + 1);
        let items = lemma_elements_are_written(s, pos + 1, Seq::empty());
        let t = Syntax::Sequence { gap: Seq::empty(), items };
        assert(t.text() =~= s.subrange(pos, next));
        assert(Seq::<Json>::empty() + items_value(items) =~= items_value(items));
        t
    }
}

/// What was read as an object is a valid object, written from the offset
/// where reading started to the one where it stopped.
pub proof fn lemma_mapping_is_written(s: Seq<char>, pos: int) -> (t: Syntax)
    requires
        char_at(s, pos) == Some('{'),
        mapping_at(s, pos).result is Ok,
    ensures
        t.valid(),
        mapping_at(s, pos).result == Ok::<Json, ParseError>(t.value()),
        pos < mapping_at(s, pos).next <= s.len(),
        t.text() == s.subrange(pos, mapping_at(s, pos).next),
    decreases s.len() - pos, 1int,
{
    let inner = skip_ws(s, pos + 1);
    let next = mapping_at(s, pos).next;
    lemma_scanned_word(s, pos + 1, CharClass::Whitespace);
    if char_at(s, inner) == Some('}') {
        let t = Syntax::Mapping { gap: s.subrange(pos + 1, inner), pairs: Seq::empty() };
        assert(t.text() =~= s.subrange(pos, next));
        assert(pairs_entries(t->pairs) =~= Seq::<(Seq<char>, Json)>::empty());
        t
    } else {
        lemma_leading_whitespace(s, pos + 1);
        let pairs = lemma_entries_are_written(s, pos + 1, Seq::empty());
        let t = Syntax::Mapping { gap: Seq::empty(), pairs };
        assert(t.text() =~= s.subrange(pos, next));
        t
    }
}

/// What was read as a value with the whitespace around it is a valid
/// padded value, written from the offset where reading started to the end
/// of the whitespace behind the value.
pub proof fn lemma_padded_is_written(s: Seq<char>, pos: int) -> (p: Padded)
    requires
        0 <= pos <= s.len(),
        value_at(s, pos).result is Ok,
    ensures
        p.valid(),
        value_at(s, pos).result == Ok::<Json, ParseError>(p.value.value()),
        pos < skip_ws(s, value_at(s, pos).next) <= s.len(),
        p.text() == s.subrange(pos, skip_ws(s, value_at(s, pos).next)),
    decreases s.len() - pos, 3int,
{
    let t = lemma_value_is_written(s, pos);
    let start = skip_ws(s, pos);
    let next = value_at(s, pos).next;
    let end = skip_ws(s, next);
    lemma_value_advances(s, pos);
    lemma_scanned_word(s, pos, CharClass::Whitespace);
    lemma_scanned_word(s, next, CharClass::Whitespace);
    let p = Padded { before: s.subrange(pos, start), value: t, after: s.subrange(next, end) };
    assert(p.text() =~= s.subrange(pos, end));
    p
}

/// What was read as the elements of an array are valid items, written from
/// the offset where reading started to the `]` that closes the array.
pub proof fn lemma_elements_are_written(s: Seq<char>, pos: int, done: Seq<Json>) -> (items: Seq<
    Padded,
>)
    requires
        0 <= pos <= s.len(),
        elements_at(s, pos, done).result is Ok,
    ensures
        items.len() > 0,
        forall|i: int| 0 <= i < items.len() ==> (#[trigger] items[i]).valid(),
        elements_at(s, pos, done).result == Ok::<Json, ParseError>(
            Json::Sequence(done + items_value(items)),
        ),
        pos < elements_at(s, pos, done).next <= s.len(),
        s[elements_at(s, pos, done).next - 1] == ']',
        items_text(items) == s.subrange(pos, elements_at(s, pos, done).next - 1),
    decreases s.len() - pos, 4int,
{
    let first = value_at(s, pos);
    let head = lemma_padded_is_written(s, pos);
    let v = head.value.value();
    let p = skip_ws(s, first.next);
    let next = elements_at(s, pos, done).next;
    if char_at(s, p) == Some(',') {
        let rest = lemma_elements_are_written(s, p + 1, done.push(v));
        let items = seq![head] + rest;
        assert(items.drop_first() =~= rest);
        assert(items[0] == head);
        assert(items_text(items) == head.text() + seq![','] + items_text(rest));
        assert(items_text(items) =~= s.subrange(pos, next - 1));
        assert(done.push(v) + items_value(rest) =~= done + items_value(items)) by {
            assert forall|i: int| 0 <= i < rest.len() implies items_value(rest)[i]
                == items_value(items)[i + 1] by {
                assert(rest[i] == items[i + 1]);
            }
        }
        assert forall|i: int| 0 <= i < items.len() implies (#[trigger] items[i]).valid() by {
            if i > 0 {
                assert(items[i] == rest[i - 1]);
            }
        }
        items
    } else {
        let items = seq![head];
        assert(items_text(items) == head.text());
        assert(done.push(v) =~= done + items_value(items));
        items
    }
}

/// What was read as the entries of an object are valid pairs, written from
/// the offset where reading started to the `}` that closes the object.
pub proof fn lemma_entries_are_written(
    s: Seq<char>,
    pos: int,
    done: Seq<(Seq<char>, Json)>,
) -> (pairs: Seq<Pair>)
    requires
        0 <= pos <= s.len(),
        entries_at(s, pos, done).result is Ok,
    ensures
        pairs.len() > 0,
        forall|i: int| 0 <= i < pairs.len() ==> (#[trigger] pairs[i]).valid(),
        entries_at(s, pos, done).result == Ok::<Json, ParseError>(
            Json::Mapping(insert_all(done, pairs_entries(pairs))),
        ),
        pos < entries_at(s, pos, done).next <= s.len(),
        s[entries_at(s, pos, done).next - 1] == '}',
        pairs_text(pairs) == s.subrange(pos, entries_at(s, pos, done).next - 1),
    decreases s.len() - pos, 4int,
{
    let k = skip_ws(s, pos);
    lemma_scanned_word(s, pos, CharClass::Whitespace);
    let key = key_at(s, k);
    lemma_token_advances(s, k);
    lemma_quoted_has_no_quote(s, k);
    let name = key.result->Ok_0;
    let c = skip_ws(s, key.next);
    lemma_scanned_word(s, key.next, CharClass::Whitespace);
    lemma_scan_bounds(s, k + 1, CharClass::NotQuote);
    lemma_scan_run(s, k + 1, CharClass::NotQuote);
    let item = lemma_padded_is_written(s, c + 1);
    let v = item.value.value();
    let p = skip_ws(s, value_at(s, c + 1).next);
    let next = entries_at(s, pos, done).next;
    let head = Pair {
        before: s.subrange(pos, k),
        key: name,
        between: s.subrange(key.next, c),
        item,
    };
    assert(head.text() =~= s.subrange(pos, p));
    if char_at(s, p) == Some(',') {
        let rest = lemma_entries_are_written(s, p + 1, insert_entry(done, name, v));
        let pairs = seq![head] + rest;
        assert(pairs.drop_first() =~= rest);
        assert(pairs[0] == head);
        assert(pairs_text(pairs) == head.text() + seq![','] + pairs_text(rest));
        assert(pairs_text(pairs) =~= s.subrange(pos, next - 1));
        assert(pairs_entries(pairs)[0] == (name, v));
        assert(pairs_entries(pairs).drop_first() =~= pairs_entries(rest)) by {
            assert forall|i: int| 0 <= i < rest.len() implies pairs_entries(pairs).drop_first()[i]
                == pairs_entries(rest)[i] by {
                assert(rest[i] == pairs[i + 1]);
            }
        }
        assert(insert_all(done, pairs_entries(pairs)) == insert_all(
            insert_entry(done, name, v),
            pairs_entries(rest),
        ));
        assert forall|i: int| 0 <= i < pairs.len() implies (#[trigger] pairs[i]).valid() by {
            if i > 0 {
                assert(pairs[i] == rest[i - 1]);
            }
        }
        pairs
    } else {
        let pairs = seq![head];
        assert(pairs_text(pairs) == head.text());
        assert(pairs_entries(pairs)[0] == (name, v));
        assert(pairs_entries(pairs).drop_first() =~= Seq::<(Seq<char>, Json)>::empty());
        assert(insert_all(insert_entry(done, name, v), Seq::empty()) == insert_entry(
            done,
            name,
            v,
        ));
        assert(insert_all(done, pairs_entries(pairs)) == insert_entry(done, name, v));
        pairs
    }
}

/// What was read as a document is a valid text, and denotes that document.
pub proof fn lemma_document_is_written(s: Seq<char>) -> (p: Padded)
    requires
        document(s) is Ok,
    ensures
        p.valid(),
        p.text() == s,
        document(s) == Ok::<Json, ParseError>(p.value.value()),
{
    lemma_scan_bounds(s, 0, CharClass::Whitespace);
    lemma_leading_whitespace(s, 0);
    let p = lemma_padded_is_written(s, 0);
    assert(s.subrange(0, s.len() as int) =~= s);
    p
}

/// The documents are the valid texts: a text is read as the document `j`
/// exactly where it is written as the grammar asks, its integers fit in 64
/// bits, and it denotes `j`.
pub proof fn lemma_documents_are_the_valid_texts(s: Seq<char>)
    ensures
        forall|j: Json| document(s) == Ok::<Json, ParseError>(j) <==> #[trigger] denotes(s, j),
{
    assert forall|j: Json| document(s) == Ok::<Json, ParseError>(j) <==> #[trigger] denotes(
        s,
        j,
    ) by {
        if document(s) == Ok::<Json, ParseError>(j) {
            let p = lemma_document_is_written(s);
            assert(p.valid() && p.text() == s && p.value.value() == j);
        }
        if denotes(s, j) {
            let p = choose|p: Padded| p.valid() && #[trigger] p.text() == s && p.value.value() == j;
            lemma_valid_text_reads(p);
        }
    }
}

} // verus!
