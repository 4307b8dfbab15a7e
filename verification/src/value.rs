//! The value tree and its mathematical model.

use vstd::prelude::*;
use vstd::string::StringExecFns;
use crate::number::{Decimal, JsonNumber};

verus! {

/// The mathematical content of a [`JsonValue`]. An object is the sequence of
/// its entries in the order in which their keys first appeared.
pub ghost enum Json {
    Object(Seq<(Seq<char>, Json)>),
    Array(Seq<Json>),
    Number(Decimal),
    String(Seq<char>),
    Bool(bool),
    Null,
    Invalid(Seq<char>),
}

/// The position of the first entry with the given key, or the number of
/// entries where there is none.
pub open spec fn key_index(entries: Seq<(Seq<char>, Json)>, key: Seq<char>) -> int
    decreases entries.len(),
{
    if entries.len() == 0 || entries[0].0 == key {
        0
    } else {
        1 + key_index(entries.drop_first(), key)
    }
}

/// Whether some entry has the given key.
pub open spec fn has_key(entries: Seq<(Seq<char>, Json)>, key: Seq<char>) -> bool {
    key_index(entries, key) < entries.len()
}

/// The entries after `key` has been given `value`: the entry with that key
/// is replaced where there is one, else a new entry is added at the end.
pub open spec fn spec_insert(
    entries: Seq<(Seq<char>, Json)>,
    key: Seq<char>,
    value: Json,
) -> Seq<(Seq<char>, Json)> {
    if has_key(entries, key) {
        entries.update(key_index(entries, key), (key, value))
    } else {
        entries.push((key, value))
    }
}

/// No two entries have the same key.
pub open spec fn keys_unique(entries: Seq<(Seq<char>, Json)>) -> bool {
    forall|i: int, j: int|
        0 <= i < j < entries.len() ==> (#[trigger] entries[i]).0 != (#[trigger] entries[j]).0
}

/// The mapping from keys to values that the entries stand for.
pub open spec fn entries_map(entries: Seq<(Seq<char>, Json)>) -> Map<Seq<char>, Json> {
    Map::new(
        |key: Seq<char>| has_key(entries, key),
        |key: Seq<char>| entries[key_index(entries, key)].1,
    )
}

impl Json {
    /// Keys are unique in every object of the tree, and every number holds
    /// digits only.
    pub open spec fn wf(self) -> bool
        decreases self,
    {
        match self {
            Json::Object(entries) => {
                &&& keys_unique(entries)
                &&& forall|i: int| 0 <= i < entries.len() ==> (#[trigger] entries[i]).1.wf()
            },
            Json::Array(items) => forall|i: int| 0 <= i < items.len() ==> (#[trigger] items[i]).wf(),
            Json::Number(n) => n.wf(),
            _ => true,
        }
    }
}

/// The entries of an object, in the order in which their keys first
/// appeared. Inserting under a key that is there replaces its value.
#[derive(Debug, PartialEq, Eq)]
pub struct JsonObject {
    pub entries: Vec<(String, JsonValue)>,
}

/// A value: a container, a scalar, or a diagnostic that stands where
/// something unreadable was found.
#[derive(Debug, PartialEq, Eq)]
pub enum JsonValue {
    Object(JsonObject),
    Array(Vec<JsonValue>),
    Number(JsonNumber),
    String(String),
    Bool(bool),
    Null,
    Invalid(String),
}

impl JsonValue {
    /// The mathematical content of the value.
    pub open spec fn view(&self) -> Json
        decreases self,
    {
        match self {
            JsonValue::Object(o) => Json::Object(
                Seq::new(
                    o.entries@.len(),
                    |i: int|
                        if 0 <= i < o.entries@.len() {
                            (o.entries@[i].0@, o.entries@[i].1.view())
                        } else {
                            (Seq::empty(), Json::Null)
                        },
                ),
            ),
            JsonValue::Array(items) => Json::Array(
                Seq::new(
                    items@.len(),
                    |i: int|
                        if 0 <= i < items@.len() {
                            items@[i].view()
                        } else {
                            Json::Null
                        },
                ),
            ),
            JsonValue::Number(n) => Json::Number(n@),
            JsonValue::String(s) => Json::String(s@),
            JsonValue::Bool(b) => Json::Bool(*b),
            JsonValue::Null => Json::Null,
            JsonValue::Invalid(text) => Json::Invalid(text@),
        }
    }
}

impl View for JsonObject {
    type V = Seq<(Seq<char>, Json)>;

    open spec fn view(&self) -> Seq<(Seq<char>, Json)> {
        Seq::new(
            self.entries@.len(),
            |i: int|
                if 0 <= i < self.entries@.len() {
                    (self.entries@[i].0@, self.entries@[i].1.view())
                } else {
                    (Seq::empty(), Json::Null)
                },
        )
    }
}

/// The view of an object value holds the view of its object.
pub proof fn lemma_object_view(object: JsonObject)
    ensures
        JsonValue::Object(object)@ == Json::Object(object@),
{
    assert(JsonValue::Object(object)@->Object_0 =~= object@);
}

/// The view of an array value holds the views of its items.
pub proof fn lemma_array_view(items: Vec<JsonValue>)
    ensures
        JsonValue::Array(items)@ == Json::Array(items@.map_values(|item: JsonValue| item@)),
{
    assert(JsonValue::Array(items)@->Array_0 =~= items@.map_values(|item: JsonValue| item@));
}

/// The first entry with the key is the one before which no entry has it.
pub proof fn lemma_key_index(entries: Seq<(Seq<char>, Json)>, key: Seq<char>, i: int)
    requires
        0 <= i <= entries.len(),
        forall|j: int| 0 <= j < i ==> (#[trigger] entries[j]).0 != key,
        i == entries.len() || entries[i].0 == key,
    ensures
        key_index(entries, key) == i,
    decreases i,
{
    if i > 0 {
        let rest = entries.drop_first();
        assert forall|j: int| 0 <= j < i - 1 implies (#[trigger] rest[j]).0 != key by {
            assert(rest[j] == entries[j + 1]);
        }
        lemma_key_index(rest, key, i - 1);
    }
}

/// The index of a key is within the entries, no entry before it has the
/// key, and the entry at it, if there is one, has the key.
pub proof fn lemma_key_index_is_first(entries: Seq<(Seq<char>, Json)>, key: Seq<char>)
    ensures
        0 <= key_index(entries, key) <= entries.len(),
        forall|j: int| 0 <= j < key_index(entries, key) ==> (#[trigger] entries[j]).0 != key,
        has_key(entries, key) ==> entries[key_index(entries, key)].0 == key,
    decreases entries.len(),
{
    if entries.len() > 0 && entries[0].0 != key {
        let rest = entries.drop_first();
        lemma_key_index_is_first(rest, key);
        assert forall|j: int| 0 <= j < key_index(entries, key) implies (#[trigger] entries[j]).0
            != key by {
            if j > 0 {
                assert(rest[j - 1] == entries[j]);
            }
        }
    }
}

/// Inserting keeps the keys unique.
pub proof fn lemma_insert_keeps_keys_unique(
    entries: Seq<(Seq<char>, Json)>,
    key: Seq<char>,
    value: Json,
)
    requires
        keys_unique(entries),
    ensures
        keys_unique(spec_insert(entries, key, value)),
{
    lemma_key_index_is_first(entries, key);
    let after = spec_insert(entries, key, value);
    let k = key_index(entries, key);
    assert forall|i: int, j: int| 0 <= i < j < after.len() implies (#[trigger] after[i]).0 != (
    #[trigger] after[j]).0 by {
        if has_key(entries, key) {
            assert(after[i].0 == entries[i].0);
            assert(after[j].0 == entries[j].0);
        } else {
            if j < entries.len() {
            } else {
                assert(after[i] == entries[i]);
            }
        }
    }
}

/// Where the first entry with a key stands after an insertion: for the
/// inserted key where it stood or at the end, for another key where it stood,
/// one further where it was absent and an entry was added.
pub proof fn lemma_key_index_after_insert(
    entries: Seq<(Seq<char>, Json)>,
    key: Seq<char>,
    value: Json,
    other: Seq<char>,
)
    ensures
        other == key ==> key_index(spec_insert(entries, key, value), other) == key_index(
            entries,
            key,
        ),
        other != key && (has_key(entries, other) || has_key(entries, key)) ==> key_index(
            spec_insert(entries, key, value),
            other,
        ) == key_index(entries, other),
        other != key && !has_key(entries, other) && !has_key(entries, key) ==> key_index(
            spec_insert(entries, key, value),
            other,
        ) == entries.len() + 1,
{
    let after = spec_insert(entries, key, value);
    let k = key_index(entries, key);
    let o = key_index(entries, other);
    lemma_key_index_is_first(entries, key);
    lemma_key_index_is_first(entries, other);
    if other == key {
        assert forall|j: int| 0 <= j < k implies (#[trigger] after[j]).0 != other by {
            assert(after[j] == entries[j]);
        }
        lemma_key_index(after, other, k);
    } else if has_key(entries, other) || has_key(entries, key) {
        assert forall|j: int| 0 <= j < o implies (#[trigger] after[j]).0 != other by {
            if j != k {
                assert(after[j] == entries[j]);
            }
        }
        if o < entries.len() {
            assert(o != k);
            assert(after[o] == entries[o]);
        }
        lemma_key_index(after, other, o);
    } else {
        assert forall|j: int| 0 <= j < o + 1 implies (#[trigger] after[j]).0 != other by {
            if j < o {
                assert(after[j] == entries[j]);
            }
        }
        lemma_key_index(after, other, o + 1);
    }
}

/// Inserting acts on the mapping as an insertion does: the key gets the
/// value, whatever it had before, and every other key keeps what it had.
pub proof fn lemma_insert_is_map_insert(
    entries: Seq<(Seq<char>, Json)>,
    key: Seq<char>,
    value: Json,
)
    ensures
        entries_map(spec_insert(entries, key, value)) == entries_map(entries).insert(key, value),
{
    let after = spec_insert(entries, key, value);
    let before_map = entries_map(entries).insert(key, value);
    lemma_key_index_is_first(entries, key);
    assert forall|other: Seq<char>| #[trigger]
        entries_map(after).dom().contains(other) == before_map.dom().contains(other) by {
        lemma_key_index_after_insert(entries, key, value, other);
    }
    assert forall|other: Seq<char>| #[trigger]
        entries_map(after).dom().contains(other) implies entries_map(after)[other]
        == before_map[other] by {
        lemma_key_index_after_insert(entries, key, value, other);
        lemma_key_index_is_first(entries, other);
    }
    assert(entries_map(after).dom() =~= before_map.dom());
    assert(entries_map(after) =~= before_map);
}

impl JsonObject {
    /// No two entries have the same key.
    pub open spec fn wf(&self) -> bool {
        keys_unique(self@)
    }

    /// An object without entries.
    pub fn new() -> (object: JsonObject)
        ensures
            object@ == Seq::<(Seq<char>, Json)>::empty(),
            object.wf(),
    {
        let object = JsonObject { entries: Vec::new() };
        proof {
            assert(object@ =~= Seq::<(Seq<char>, Json)>::empty());
        }
        object
    }

    /// The number of entries.
    pub fn len(&self) -> (n: usize)
        ensures
            n == self@.len(),
    {
        self.entries.len()
    }

    /// Whether the object has no entry.
    pub fn is_empty(&self) -> (b: bool)
        ensures
            b == (self@.len() == 0),
    {
        self.entries.len() == 0
    }

    /// Gives `key` the value `value`: replaces the value of the entry with
    /// that key, or adds an entry at the end where there is none.
    pub fn insert(&mut self, key: String, value: JsonValue)
        ensures
            final(self)@ == spec_insert(old(self)@, key@, value@),
            old(self).wf() ==> final(self).wf(),
    {
        proof {
            if self.wf() {
                lemma_insert_keeps_keys_unique(self@, key@, value@);
            }
        }
        let mut i: usize = 0;
        while i < self.entries.len()
            invariant
                i <= self.entries@.len(),
                *self == *old(self),
                forall|j: int| 0 <= j < i ==> (#[trigger] self@[j]).0 != key@,
            decreases self.entries@.len() - i,
        {
            if self.entries[i].0 == key {
                proof {
                    lemma_key_index(self@, key@, i as int);
                }
                self.entries.set(i, (key, value));
                proof {
                    assert(self@ =~= old(self)@.update(i as int, (key@, value@)));
                }
                return ;
            }
            i += 1;
        }
        proof {
            lemma_key_index(self@, key@, i as int);
        }
        self.entries.push((key, value));
        proof {
            assert(self@ =~= old(self)@.push((key@, value@)));
        }
    }

    /// The value of the entry with the given key, if there is one.
    pub fn get(&self, key: &str) -> (found: Option<&JsonValue>)
        ensures
            match found {
                Some(value) => has_key(self@, key@) && value@ == self@[key_index(self@, key@)].1,
                None => !has_key(self@, key@),
            },
    {
        let wanted = String::from_str(key);
        let mut i: usize = 0;
        while i < self.entries.len()
            invariant
                i <= self.entries@.len(),
                wanted@ == key@,
                forall|j: int| 0 <= j < i ==> (#[trigger] self@[j]).0 != key@,
            decreases self.entries@.len() - i,
        {
            if self.entries[i].0 == wanted {
                proof {
                    lemma_key_index(self@, key@, i as int);
                }
                return Some(&self.entries[i].1);
            }
            i += 1;
        }
        proof {
            lemma_key_index(self@, key@, i as int);
        }
        None
    }
}

} // verus!
