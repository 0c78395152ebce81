//! The value tree that parsing produces, and its mathematical model.

use vstd::prelude::*;

verus! {

/// The mathematical model of a parsed document.
///
/// An object is modelled as the sequence of its entries in the order in which
/// their keys first appeared.
pub ghost enum Json {
    Integer(int),
    Boolean(bool),
    Text(Seq<char>),
    Sequence(Seq<Json>),
    Mapping(Seq<(Seq<char>, Json)>),
}

impl Json {
    /// What holds of every document that parsing gives: integers fit in 64
    /// bits, strings and keys hold no double quote, and no object has a key
    /// twice.
    pub open spec fn well_formed(self) -> bool
        decreases self,
    {
        match self {
            Json::Integer(n) => i64::MIN <= n <= i64::MAX,
            Json::Boolean(_) => true,
            Json::Text(t) => !t.contains('"'),
            Json::Sequence(items) => forall|i: int|
                0 <= i < items.len() ==> (#[trigger] items[i]).well_formed(),
            Json::Mapping(entries) => entries_well_formed(entries) && forall|i: int|
                0 <= i < entries.len() ==> (#[trigger] entries[i]).1.well_formed(),
        }
    }
}

/// Whether no key stands twice among `entries`.
pub open spec fn keys_differ(entries: Seq<(Seq<char>, Json)>) -> bool {
    forall|i: int, j: int|
        0 <= i < j < entries.len() ==> (#[trigger] entries[i]).0 != (#[trigger] entries[j]).0
}

/// Whether the keys of `entries` hold no double quote and differ from each
/// other.
pub open spec fn entries_well_formed(entries: Seq<(Seq<char>, Json)>) -> bool {
    &&& forall|i: int| 0 <= i < entries.len() ==> !(#[trigger] entries[i]).0.contains('"')
    &&& keys_differ(entries)
}

/// A parsed document.
#[derive(Debug, PartialEq, Eq)]
pub enum Value {
    /// A whole number.
    Integer(i64),
    /// `true` or `false`.
    Boolean(bool),
    /// The characters between two double quotes, taken verbatim.
    Text(String),
    /// An array; the order of the elements is that of the text.
    Sequence(Vec<Value>),
    /// An object: its entries, each key once, in the order of first appearance.
    Mapping(Vec<(String, Value)>),
}

impl Value {
    /// The model of this value.
    pub open spec fn model(self) -> Json
        decreases self,
    {
        match self {
            Value::Integer(n) => Json::Integer(n as int),
            Value::Boolean(b) => Json::Boolean(b),
            Value::Text(t) => Json::Text(t@),
            Value::Sequence(items) => Json::Sequence(
                Seq::new(
                    items@.len(),
                    |i: int|
                        if 0 <= i < items@.len() {
                            items@[i].model()
                        } else {
                            Json::Boolean(false)
                        },
                ),
            ),
            Value::Mapping(entries) => Json::Mapping(
                Seq::new(
                    entries@.len(),
                    |i: int|
                        if 0 <= i < entries@.len() {
                            (entries@[i].0@, entries@[i].1.model())
                        } else {
                            (Seq::empty(), Json::Boolean(false))
                        },
                ),
            ),
        }
    }
}

impl View for Value {
    type V = Json;

    open spec fn view(&self) -> Json {
        self.model()
    }
}

/// The index of the first entry with key `key`, or the number of entries
/// where there is none.
pub open spec fn key_index(entries: Seq<(Seq<char>, Json)>, key: Seq<char>) -> int
    decreases entries.len(),
{
    if entries.len() == 0 {
        0
    } else {
        let before = key_index(entries.drop_last(), key);
        if before < entries.len() - 1 {
            before
        } else if entries.last().0 == key {
            entries.len() - 1
        } else {
            entries.len() as int
        }
    }
}

/// The entries after `key` is given the value `value`: an entry with that key
/// keeps its place and takes the new value, a new key goes to the end.
pub open spec fn insert_entry(
    entries: Seq<(Seq<char>, Json)>,
    key: Seq<char>,
    value: Json,
) -> Seq<(Seq<char>, Json)> {
    let i = key_index(entries, key);
    if i < entries.len() {
        entries.update(i, (key, value))
    } else {
        entries.push((key, value))
    }
}

/// An array is well formed where each of its elements is.
pub proof fn lemma_well_formed_sequence(items: Seq<Json>)
    ensures
        Json::Sequence(items).well_formed() <==> forall|i: int|
            0 <= i < items.len() ==> (#[trigger] items[i]).well_formed(),
{
    assert(Json::Sequence(items)->Sequence_0 == items);
}

/// An object is well formed where its keys are and each of its values is.
pub proof fn lemma_well_formed_mapping(entries: Seq<(Seq<char>, Json)>)
    ensures
        Json::Mapping(entries).well_formed() <==> entries_well_formed(entries) && forall|i: int|
            0 <= i < entries.len() ==> (#[trigger] entries[i]).1.well_formed(),
{
}

/// The index of a key is that of the first entry that has it, and the number
/// of entries where none has it.
pub proof fn lemma_key_index(entries: Seq<(Seq<char>, Json)>, key: Seq<char>)
    ensures
        0 <= key_index(entries, key) <= entries.len(),
        key_index(entries, key) < entries.len() ==> entries[key_index(entries, key)].0 == key,
        forall|j: int| 0 <= j < key_index(entries, key) ==> (#[trigger] entries[j]).0 != key,
    decreases entries.len(),
{
    if entries.len() > 0 {
        lemma_key_index(entries.drop_last(), key);
        assert forall|j: int| 0 <= j < key_index(entries, key) implies (#[trigger] entries[j]).0
            != key by {
            if j < entries.len() - 1 {
                assert(entries.drop_last()[j] == entries[j]);
            }
        }
    }
}

/// Giving a key a value keeps the entries well formed.
pub proof fn lemma_insert_entry_well_formed(
    entries: Seq<(Seq<char>, Json)>,
    key: Seq<char>,
    value: Json,
)
    requires
        Json::Mapping(entries).well_formed(),
        !key.contains('"'),
        value.well_formed(),
    ensures
        Json::Mapping(insert_entry(entries, key, value)).well_formed(),
{
    lemma_key_index(entries, key);
}

/// Where `key` stands at `i` and at no earlier index, `i` is its index.
pub proof fn lemma_key_index_found(entries: Seq<(Seq<char>, Json)>, key: Seq<char>, i: int)
    requires
        0 <= i < entries.len(),
        entries[i].0 == key,
        forall|j: int| 0 <= j < i ==> (#[trigger] entries[j]).0 != key,
    ensures
        key_index(entries, key) == i,
    decreases entries.len(),
{
    if i < entries.len() - 1 {
        lemma_key_index_found(entries.drop_last(), key, i);
    } else {
        lemma_key_index_absent(entries.drop_last(), key);
    }
}

/// Where `key` stands nowhere, its index is the number of entries.
pub proof fn lemma_key_index_absent(entries: Seq<(Seq<char>, Json)>, key: Seq<char>)
    requires
        forall|j: int| 0 <= j < entries.len() ==> (#[trigger] entries[j]).0 != key,
    ensures
        key_index(entries, key) == entries.len(),
    decreases entries.len(),
{
    if entries.len() > 0 {
        lemma_key_index_absent(entries.drop_last(), key);
    }
}

/// The models of the elements of an array, in order.
pub open spec fn items_model(items: Seq<Value>) -> Seq<Json> {
    Seq::new(items.len(), |i: int| items[i]@)
}

/// The models of the entries of an object, in order.
pub open spec fn entries_model(entries: Seq<(String, Value)>) -> Seq<(Seq<char>, Json)> {
    Seq::new(entries.len(), |i: int| (entries[i].0@, entries[i].1@))
}

/// The model of an array is the array of the models of its elements, and
/// the model of an object that of its entries.
pub proof fn lemma_model_of_children(v: Value)
    ensures
        v matches Value::Sequence(items) ==> v@ == Json::Sequence(items_model(items@)),
        v matches Value::Mapping(entries) ==> v@ == Json::Mapping(entries_model(entries@)),
{
    match v {
        Value::Sequence(items) => {
            assert(v@->Sequence_0 =~= items_model(items@));
        },
        Value::Mapping(entries) => {
            assert(v@->Mapping_0 =~= entries_model(entries@));
        },
        _ => {},
    }
}

/// Gives `key` the value `value` among the entries of an object: an entry
/// with that key keeps its place and takes the new value, a new key goes to
/// the end.
pub fn insert(entries: &mut Vec<(String, Value)>, key: String, value: Value)
    ensures
        entries_model(final(entries)@) == insert_entry(
            entries_model(old(entries)@),
            key@,
            value@,
        ),
{
    let ghost before = entries_model(entries@);
    let mut i: usize = 0;
    while i < entries.len()
        invariant
            i <= entries@.len(),
            before == entries_model(entries@),
            before == entries_model(old(entries)@),
            forall|j: int| 0 <= j < i ==> (#[trigger] before[j]).0 != key@,
        decreases entries@.len() - i,
    {
        if entries[i].0 == key {
            proof {
                lemma_key_index_found(before, key@, i as int);
            }
            entries.set(i, (key, value));
            return ;
        }
        i += 1;
    }
    proof {
        lemma_key_index_absent(before, key@);
    }
    entries.push((key, value));
}

} // verus!
