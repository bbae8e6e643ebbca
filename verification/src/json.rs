//! The generic document that a schema is read from: a tree of tagged values.

use vstd::prelude::*;
use crate::number::Number;

verus! {

/// One value of a document.
#[derive(Debug)]
pub enum JsonValue {
    Null,
    Bool(bool),
    Number(Number),
    Text(String),
    Array(Vec<JsonValue>),
    Object(JsonObject),
}

/// A mapping from keys to values. An entry set later replaces an earlier one
/// of the same key.
#[derive(Debug)]
pub struct JsonObject {
    entries: Vec<(String, JsonValue)>,
}

/// The mapping that a list of entries stands for: of two entries with one key,
/// the later one counts.
pub open spec fn entries_map(entries: Seq<(String, JsonValue)>) -> Map<Seq<char>, JsonValue>
    decreases entries.len(),
{
    if entries.len() == 0 {
        Map::empty()
    } else {
        entries_map(entries.drop_last()).insert(entries.last().0@, entries.last().1)
    }
}

/// A key that no entry from `from` on has keeps the value that the entries
/// before `from` give it.
proof fn lemma_entries_map_prefix(entries: Seq<(String, JsonValue)>, from: int, key: Seq<char>)
    requires
        0 <= from <= entries.len(),
        forall|j: int| from <= j < entries.len() ==> (#[trigger] entries[j]).0@ != key,
    ensures
        entries_map(entries).contains_key(key) == entries_map(entries.take(from)).contains_key(key),
        entries_map(entries).contains_key(key) ==> entries_map(entries)[key] == entries_map(
            entries.take(from),
        )[key],
    decreases entries.len(),
{
    if from == entries.len() {
        assert(entries.take(from) =~= entries);
    } else {
        let shorter = entries.drop_last();
        assert(entries.last() == entries[entries.len() - 1]);
        assert forall|j: int| from <= j < shorter.len() implies (#[trigger] shorter[j]).0@
            != key by {
            assert(shorter[j] == entries[j]);
        }
        lemma_entries_map_prefix(shorter, from, key);
        assert(shorter.take(from) =~= entries.take(from));
    }
}

/// Replacing the last entry of a key gives the key its new value and leaves
/// every other key as it was.
proof fn lemma_entries_map_update(
    entries: Seq<(String, JsonValue)>,
    i: int,
    key: String,
    value: JsonValue,
)
    requires
        0 <= i < entries.len(),
        entries[i].0@ == key@,
        forall|j: int| i < j < entries.len() ==> (#[trigger] entries[j]).0@ != key@,
    ensures
        entries_map(entries.update(i, (key, value))) == entries_map(entries).insert(key@, value),
    decreases entries.len(),
{
    let updated = entries.update(i, (key, value));
    let shorter = entries.drop_last();
    if i == entries.len() - 1 {
        assert(updated.drop_last() =~= shorter);
        assert(entries_map(updated) =~= entries_map(entries).insert(key@, value));
    } else {
        assert(shorter[i] == entries[i]);
        assert forall|j: int| i < j < shorter.len() implies (#[trigger] shorter[j]).0@ != key@ by {
            assert(shorter[j] == entries[j]);
        }
        lemma_entries_map_update(shorter, i, key, value);
        assert(updated.drop_last() =~= shorter.update(i, (key, value)));
        assert(updated.last() == entries.last());
        assert(entries.last() == entries[entries.len() - 1]);
        assert(entries_map(updated) =~= entries_map(entries).insert(key@, value));
    }
}

impl View for JsonObject {
    type V = Map<Seq<char>, JsonValue>;

    closed spec fn view(&self) -> Map<Seq<char>, JsonValue> {
        entries_map(self.entries@)
    }
}

impl JsonObject {
    /// An object without entries.
    pub fn new() -> (r: JsonObject)
        ensures
            r@ == Map::<Seq<char>, JsonValue>::empty(),
    {
        JsonObject { entries: Vec::new() }
    }

    /// The place of the entry that gives `key` its value, if it has one.
    fn find(&self, key: &str) -> (r: Option<usize>)
        ensures
            r.is_some() == self@.contains_key(key@),
            match r {
                Some(i) => {
                    &&& i < self.entries@.len()
                    &&& self.entries@[i as int].0@ == key@
                    &&& self.entries@[i as int].1 == self@[key@]
                    &&& forall|j: int|
                        i < j < self.entries@.len() ==> (#[trigger] self.entries@[j]).0@ != key@
                },
                None => true,
            },
    {
        let mut i: usize = self.entries.len();
        while i > 0
            invariant
                i <= self.entries.len(),
                forall|j: int|
                    i <= j < self.entries.len() ==> (#[trigger] self.entries@[j]).0@ != key@,
            decreases i,
        {
            i = i - 1;
            if same_text(&self.entries[i].0, key) {
                proof {
                    lemma_entries_map_prefix(self.entries@, i + 1, key@);
                    assert(self.entries@.take(i + 1).drop_last() =~= self.entries@.take(i as int));
                }
                return Some(i);
            }
        }
        proof {
            lemma_entries_map_prefix(self.entries@, 0, key@);
        }
        None
    }

    /// Sets the value of `key`, replacing what it had.
    pub fn insert(&mut self, key: String, value: JsonValue)
        ensures
            final(self)@ == old(self)@.insert(key@, value),
    {
        match self.find(key.as_str()) {
            Some(i) => {
                proof {
                    lemma_entries_map_update(self.entries@, i as int, key, value);
                }
                self.entries.set(i, (key, value));
            },
            None => {
                self.entries.push((key, value));
                assert(self.entries@.drop_last() =~= old(self).entries@);
            },
        }
    }

    /// The value of `key`, if it has one.
    pub fn get(&self, key: &str) -> (r: Option<&JsonValue>)
        ensures
            r.is_some() == self@.contains_key(key@),
            r.is_some() ==> *r.unwrap() == self@[key@],
    {
        match self.find(key) {
            Some(i) => Some(&self.entries[i].1),
            None => None,
        }
    }
}

impl JsonValue {
    /// The truth value that this value is, if it is one.
    pub open spec fn bool_of(self) -> Option<bool> {
        match self {
            JsonValue::Bool(b) => Some(b),
            _ => None,
        }
    }

    /// The number that this value is, if it is one.
    pub open spec fn number_of(self) -> Option<Number> {
        match self {
            JsonValue::Number(n) => Some(n),
            _ => None,
        }
    }

    /// The characters of the string that this value is, if it is one.
    pub open spec fn text_of(self) -> Option<Seq<char>> {
        match self {
            JsonValue::Text(s) => Some(s@),
            _ => None,
        }
    }

    /// The mapping that this value is, if it is an object.
    pub open spec fn object_of(self) -> Option<Map<Seq<char>, JsonValue>> {
        match self {
            JsonValue::Object(o) => Some(o@),
            _ => None,
        }
    }

    /// Reads the value as a truth value; `None` for any other kind.
    pub fn as_bool(&self) -> (r: Option<bool>)
        ensures
            r == self.bool_of(),
    {
        match self {
            JsonValue::Bool(b) => Some(*b),
            _ => None,
        }
    }

    /// Reads the value as a number; `None` for any other kind.
    pub fn as_number(&self) -> (r: Option<Number>)
        ensures
            r == self.number_of(),
    {
        match self {
            JsonValue::Number(n) => Some(*n),
            _ => None,
        }
    }

    /// Reads the value as a string; `None` for any other kind.
    pub fn as_text(&self) -> (r: Option<&String>)
        ensures
            r.is_some() == self.text_of().is_some(),
            r.is_some() ==> r.unwrap()@ == self.text_of().unwrap(),
    {
        match self {
            JsonValue::Text(s) => Some(s),
            _ => None,
        }
    }

    /// Reads the value as an object; `None` for any other kind.
    pub fn as_object(&self) -> (r: Option<&JsonObject>)
        ensures
            r.is_some() == self.object_of().is_some(),
            r.is_some() ==> r.unwrap()@ == self.object_of().unwrap(),
    {
        match self {
            JsonValue::Object(o) => Some(o),
            _ => None,
        }
    }
}

/// Tells whether a string holds exactly the characters of `text`.
pub fn same_text(s: &String, text: &str) -> (r: bool)
    ensures
        r == (s@ == text@),
{
    let other = String::from_str(text);
    *s == other
}

} // verus!
