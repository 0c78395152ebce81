//! The text that a document is written as when nothing but its tokens is
//! written, and the law that reading that text gives the document back.

use crate::error::ParseError;
use crate::grammar::{digits_value, document, lemma_document_well_formed, CharClass};
use crate::syntax::{
    insert_all, is_digits, items_value, lemma_valid_text_reads, pairs_entries, Padded, Pair,
    Syntax,
};
use crate::value::{
    insert_entry, keys_differ, lemma_key_index_absent, lemma_well_formed_mapping,
    lemma_well_formed_sequence, Json,
};
use vstd::prelude::*;

verus! {

/// The digit that stands for `d`, a number below ten.
pub open spec fn digit(d: nat) -> char {
    if d == 0 {
        '0'
    } else if d == 1 {
        '1'
    } else if d == 2 {
        '2'
    } else if d == 3 {
        '3'
    } else if d == 4 {
        '4'
    } else if d == 5 {
        '5'
    } else if d == 6 {
        '6'
    } else if d == 7 {
        '7'
    } else if d == 8 {
        '8'
    } else {
        '9'
    }
}

/// The decimal digits of `n`, without leading zeros.
pub open spec fn decimal(n: nat) -> Seq<char>
    decreases n,
{
    if n < 10 {
        seq![digit(n)]
    } else {
        decimal(n / 10).push(digit(n % 10))
    }
}

/// The decimal digits of a number are digits, and denote that number.
pub proof fn lemma_decimal(n: nat)
    ensures
        decimal(n).len() > 0,
        is_digits(decimal(n)),
        digits_value(decimal(n)) == n,
    decreases n,
{
    let d = decimal(n);
    if n < 10 {
        assert(d.drop_last() =~= Seq::<char>::empty());
        assert(digits_value(d.drop_last()) == 0);
        assert(d.last() == digit(n));
    } else {
        lemma_decimal(n / 10);
        assert(d.drop_last() =~= decimal(n / 10));
        assert(d.last() == digit(n % 10));
        assert forall|i: int| 0 <= i < d.len() implies CharClass::Digit.holds(#[trigger] d[i]) by {
            if i < d.len() - 1 {
                assert(d[i] == decimal(n / 10)[i]);
            }
        }
    }
}

/// The way in which a document is written with no whitespace and no key
/// twice.
pub open spec fn canonical(j: Json) -> Syntax
    decreases j,
{
    match j {
        Json::Integer(n) => Syntax::Integer {
            negative: n < 0,
            digits: decimal(
                if n < 0 {
                    (-n) as nat
                } else {
                    n as nat
                },
            ),
        },
        Json::Boolean(b) => Syntax::Boolean(b),
        Json::Text(t) => Syntax::Text(t),
        Json::Sequence(items) => Syntax::Sequence {
            gap: Seq::empty(),
            items: Seq::new(
                items.len(),
                |i: int|
                    Padded {
                        before: Seq::empty(),
                        value: if 0 <= i < items.len() {
                            canonical(items[i])
                        } else {
                            arbitrary()
                        },
                        after: Seq::empty(),
                    },
            ),
        },
        Json::Mapping(entries) => Syntax::Mapping {
            gap: Seq::empty(),
            pairs: Seq::new(
                entries.len(),
                |i: int|
                    Pair {
                        before: Seq::empty(),
                        key: entries[i].0,
                        between: Seq::empty(),
                        item: Padded {
                            before: Seq::empty(),
                            value: if 0 <= i < entries.len() {
                                canonical(entries[i].1)
                            } else {
                                arbitrary()
                            },
                            after: Seq::empty(),
                        },
                    },
            ),
        },
    }
}

/// The text that a document is written as: its tokens, and nothing between
/// them.
pub open spec fn render(j: Json) -> Seq<char> {
    canonical(j).text()
}

/// Entries with keys that all differ, given to an object one after the
/// other, are all kept, in their order.
pub proof fn lemma_insert_all_distinct(
    done: Seq<(Seq<char>, Json)>,
    entries: Seq<(Seq<char>, Json)>,
)
    requires
        keys_differ(done + entries),
    ensures
        insert_all(done, entries) == done + entries,
    decreases entries.len(),
{
    let all = done + entries;
    if entries.len() == 0 {
        assert(all =~= done);
    } else {
        let head = entries[0];
        assert forall|j: int| 0 <= j < done.len() implies (#[trigger] done[j]).0 != head.0 by {
            assert(all[j] == done[j]);
            assert(all[done.len() as int] == head);
        }
        lemma_key_index_absent(done, head.0);
        let more = done.push(head);
        assert(insert_entry(done, head.0, head.1) == more);
        assert(more + entries.drop_first() =~= all);
        lemma_insert_all_distinct(more, entries.drop_first());
    }
}

/// The canonical way of writing a well-formed document is valid, and
/// denotes that document.
pub proof fn lemma_canonical(j: Json)
    requires
        j.well_formed(),
    ensures
        canonical(j).valid(),
        canonical(j).value() == j,
    decreases j,
{
    match j {
        Json::Integer(n) => {
            lemma_decimal(
                if n < 0 {
                    (-n) as nat
                } else {
                    n as nat
                },
            );
        },
        Json::Boolean(_) => {},
        Json::Text(_) => {},
        Json::Sequence(items) => {
            let written = canonical(j)->items;
            lemma_well_formed_sequence(items);
            assert forall|i: int| 0 <= i < written.len() implies (#[trigger] written[i]).valid()
                && written[i].value.value() == items[i] by {
                lemma_canonical(items[i]);
            }
            assert(items_value(written) =~= items);
        },
        Json::Mapping(entries) => {
            let written = canonical(j)->pairs;
            lemma_well_formed_mapping(entries);
            assert forall|i: int| 0 <= i < written.len() implies (#[trigger] written[i]).valid()
                && written[i].key == entries[i].0 && written[i].item.value.value()
                == entries[i].1 by {
                lemma_canonical(entries[i].1);
                assert(!entries[i].0.contains('"'));
            }
            assert(pairs_entries(written) =~= entries);
            assert(Seq::<(Seq<char>, Json)>::empty() + entries =~= entries);
            lemma_insert_all_distinct(Seq::empty(), entries);
        },
    }
}

/// Reading the text that a well-formed document is written as gives the
/// document back.
pub proof fn lemma_render_reads(j: Json)
    requires
        j.well_formed(),
    ensures
        document(render(j)) == Ok::<Json, ParseError>(j),
{
    lemma_canonical(j);
    let p = Padded { before: Seq::empty(), value: canonical(j), after: Seq::empty() };
    assert(p.text() =~= render(j));
    lemma_valid_text_reads(p);
}

/// A document that was read from a text is read again, unchanged, from the
/// text that it is written as.
pub proof fn lemma_reading_round_trip(s: Seq<char>)
    ensures
        document(s) matches Ok(j) ==> document(render(j)) == Ok::<Json, ParseError>(j),
{
    lemma_document_well_formed(s);
    if let Ok(j) = document(s) {
        lemma_render_reads(j);
    }
}

} // verus!
