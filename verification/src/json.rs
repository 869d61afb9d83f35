//! JSON documents as plain values.

use crate::text::text_eq;
use serde_json::Value;
use vstd::prelude::*;

verus! {

/// A JSON value. A number that fits neither integer type is kept as its text.
#[derive(Debug)]
pub enum Json {
    Null,
    Bool(bool),
    Unsigned(u64),
    Signed(i64),
    Float(String),
    Text(String),
    Array(Vec<Json>),
    Object(Vec<(String, Json)>),
}

/// The value of a [`Json`].
pub enum JsonModel {
    Null,
    Bool(bool),
    Unsigned(u64),
    Signed(i64),
    Float(Seq<char>),
    Text(Seq<char>),
    Array(Seq<JsonModel>),
    Object(Seq<(Seq<char>, JsonModel)>),
}

impl DeepView for Json {
    type V = JsonModel;

    open spec fn deep_view(&self) -> JsonModel {
        json_model(*self)
    }
}

/// The value of a document.
pub open spec fn json_model(j: Json) -> JsonModel
    decreases j,
{
    match j {
        Json::Null => JsonModel::Null,
        Json::Bool(b) => JsonModel::Bool(b),
        Json::Unsigned(n) => JsonModel::Unsigned(n),
        Json::Signed(n) => JsonModel::Signed(n),
        Json::Float(t) => JsonModel::Float(t@),
        Json::Text(t) => JsonModel::Text(t@),
        Json::Array(v) => JsonModel::Array(
            Seq::new(
                v@.len(),
                |i: int|
                    if 0 <= i < v@.len() {
                        json_model(v@[i])
                    } else {
                        JsonModel::Null
                    },
            ),
        ),
        Json::Object(v) => JsonModel::Object(
            Seq::new(
                v@.len(),
                |i: int|
                    if 0 <= i < v@.len() {
                        (v@[i].0@, json_model(v@[i].1))
                    } else {
                        (Seq::empty(), JsonModel::Null)
                    },
            ),
        ),
    }
}

impl JsonModel {
    /// The member of an object with the given key; null where there is none.
    pub open spec fn member(self, key: Seq<char>) -> JsonModel {
        match self {
            JsonModel::Object(entries) => lookup(entries, key),
            _ => JsonModel::Null,
        }
    }

    /// The text of a string.
    pub open spec fn as_text(self) -> Option<Seq<char>> {
        match self {
            JsonModel::Text(t) => Some(t),
            _ => None,
        }
    }

    /// The items of an array.
    pub open spec fn as_array(self) -> Option<Seq<JsonModel>> {
        match self {
            JsonModel::Array(a) => Some(a),
            _ => None,
        }
    }

    /// The number of an unsigned integer.
    pub open spec fn as_unsigned(self) -> Option<u64> {
        match self {
            JsonModel::Unsigned(n) => Some(n),
            _ => None,
        }
    }
}

/// The value of the first entry with the given key; null where there is none.
pub open spec fn lookup(entries: Seq<(Seq<char>, JsonModel)>, key: Seq<char>) -> JsonModel
    decreases entries.len(),
{
    if entries.len() == 0 {
        JsonModel::Null
    } else if entries[0].0 == key {
        entries[0].1
    } else {
        lookup(entries.drop_first(), key)
    }
}

const NULL: Json = Json::Null;

impl Json {
    /// The member of an object with the given key; null where there is none.
    pub fn member(&self, key: &str) -> (r: &Json)
        ensures
            r.deep_view() == self.deep_view().member(key@),
    {
        if let Json::Object(entries) = self {
            let ghost model = self.deep_view()->Object_0;
            let mut i: usize = 0;
            assert(model.skip(0) =~= model);
            while i < entries.len()
                invariant
                    i <= entries.len(),
                    *self == Json::Object(*entries),
                    self.deep_view() == JsonModel::Object(model),
                    model.len() == entries@.len(),
                    forall|k: int| 0 <= k < entries@.len() ==> #[trigger] model[k] == (entries@[k].0@, entries@[k].1.deep_view()),
                    lookup(model, key@) == lookup(model.skip(i as int), key@),
                decreases entries.len() - i,
            {
                assert(model.skip(i as int)[0] == model[i as int]);
                if text_eq(entries[i].0.as_str(), key) {
                    return &entries[i].1;
                }
                assert(model.skip(i as int).drop_first() =~= model.skip(i + 1));
                i += 1;
            }
        }
        &NULL
    }

    /// The text of a string.
    pub fn as_text(&self) -> (r: Option<&String>)
        ensures
            r.deep_view() == self.deep_view().as_text(),
    {
        match self {
            Json::Text(t) => Some(t),
            _ => None,
        }
    }

    /// The items of an array.
    pub fn as_array(&self) -> (r: Option<&Vec<Json>>)
        ensures
            match r {
                Some(v) => self.deep_view().as_array() == Some(v.deep_view()),
                None => self.deep_view().as_array() is None,
            },
    {
        match self {
            Json::Array(v) => {
                assert(self.deep_view()->Array_0 =~= v.deep_view());
                Some(v)
            },
            _ => None,
        }
    }

    /// The number of an unsigned integer.
    pub fn as_unsigned(&self) -> (r: Option<u64>)
        ensures
            r == self.deep_view().as_unsigned(),
    {
        match self {
            Json::Unsigned(n) => Some(*n),
            _ => None,
        }
    }
}

impl Clone for Json {
    fn clone(&self) -> (r: Self)
        ensures
            r.deep_view() == self.deep_view(),
        decreases self,
    {
        match self {
            Json::Null => Json::Null,
            Json::Bool(b) => Json::Bool(*b),
            Json::Unsigned(n) => Json::Unsigned(*n),
            Json::Signed(n) => Json::Signed(*n),
            Json::Float(t) => Json::Float(t.clone()),
            Json::Text(t) => Json::Text(t.clone()),
            Json::Array(v) => {
                let mut c: Vec<Json> = Vec::new();
                let mut i: usize = 0;
                while i < v.len()
                    invariant
                        i <= v.len(),
                        c.len() == i,
                        *self == Json::Array(*v),
                        forall|k: int|
                            0 <= k < i ==> (#[trigger] c@[k]).deep_view() == v@[k].deep_view(),
                    decreases v.len() - i,
                {
                    let item: &Json = &v[i];
                    assert(decreases_to!(*self => self->Array_0));
                    assert(decreases_to!(*v => v@));
                    assert(decreases_to!(v@ => v@[i as int]));
                    c.push(item.clone());
                    i += 1;
                }
                let r = Json::Array(c);
                assert(r.deep_view()->Array_0 =~= self.deep_view()->Array_0);
                r
            },
            Json::Object(v) => {
                let mut c: Vec<(String, Json)> = Vec::new();
                let mut i: usize = 0;
                while i < v.len()
                    invariant
                        i <= v.len(),
                        c.len() == i,
                        *self == Json::Object(*v),
                        forall|k: int| 0 <= k < i ==> (#[trigger] c@[k]).0@ == v@[k].0@,
                        forall|k: int|
                            0 <= k < i ==> (#[trigger] c@[k]).1.deep_view() == v@[k].1.deep_view(),
                    decreases v.len() - i,
                {
                    let item: &Json = &v[i].1;
                    assert(decreases_to!(*self => self->Object_0));
                    assert(decreases_to!(*v => v@));
                    assert(decreases_to!(v@ => v@[i as int]));
                    assert(decreases_to!(v@[i as int] => v@[i as int].1));
                    c.push((v[i].0.clone(), item.clone()));
                    i += 1;
                }
                let r = Json::Object(c);
                assert(r.deep_view()->Object_0 =~= self.deep_view()->Object_0);
                r
            },
        }
    }
}

/// A document as `serde_json` holds it.
#[verifier::external_type_specification]
#[verifier::external_body]
pub struct ExValue(Value);

/// The document in a text of bytes, or why there is none.
pub uninterp spec fn document_of(bytes: Seq<u8>) -> Result<JsonModel, Seq<char>>;

/// A `serde_json::Value` as plain values, part for part: an integer by the first of
/// `Number::as_u64` and `Number::as_i64` that holds it, any other number as `Number` shows it, and
/// the members of an object in the order of its map. Nothing is stated of the result.
#[verifier::external_body]
fn converted(value: Value) -> (r: Json) {
    match value {
        Value::Null => Json::Null,
        Value::Bool(b) => Json::Bool(b),
        Value::Number(n) => match (n.as_u64(), n.as_i64()) {
            (Some(u), _) => Json::Unsigned(u),
            (None, Some(i)) => Json::Signed(i),
            (None, None) => Json::Float(n.to_string()),
        },
        Value::String(t) => Json::Text(t),
        Value::Array(v) => Json::Array(v.into_iter().map(converted).collect()),
        Value::Object(m) => {
            Json::Object(m.into_iter().map(|(k, v)| (k, converted(v))).collect())
        },
    }
}

/// `serde_json::from_slice` into a `serde_json::Value`, as plain values; an error as its text. The
/// result is a function of the bytes alone; which bytes hold which document is not stated.
#[verifier::external_body]
pub(crate) fn parse_document(bytes: &[u8]) -> (r: Result<Json, String>)
    ensures
        match r {
            Ok(d) => document_of(bytes@) == Ok::<JsonModel, Seq<char>>(d.deep_view()),
            Err(e) => document_of(bytes@) == Err::<JsonModel, Seq<char>>(e@),
        },
{
    match serde_json::from_slice::<Value>(bytes) {
        Ok(value) => Ok(converted(value)),
        Err(err) => Err(err.to_string()),
    }
}


/// A member is what an entry of an object holds under its key, the first where several do, and null
/// where none does or there is no object.
pub proof fn members_are_entries(entries: Seq<(Seq<char>, JsonModel)>, key: Seq<char>)
    ensures
        ({
            let m = JsonModel::Object(entries).member(key);
            ||| exists|i: int|
                0 <= i < entries.len() && (#[trigger] entries[i]).0 == key && m == entries[i].1
                    && forall|j: int| 0 <= j < i ==> (#[trigger] entries[j]).0 != key
            ||| m is Null && forall|j: int| 0 <= j < entries.len() ==> (#[trigger] entries[j]).0
                != key
        }),
    decreases entries.len(),
{
    if entries.len() > 0 {
        let rest = entries.drop_first();
        members_are_entries(rest, key);
        let m = JsonModel::Object(entries).member(key);
        if entries[0].0 == key {
            assert(m == entries[0].1);
        } else if exists|i: int|
            0 <= i < rest.len() && (#[trigger] rest[i]).0 == key && m == rest[i].1 && forall|j: int|
                0 <= j < i ==> (#[trigger] rest[j]).0 != key {
            let i = choose|i: int|
                0 <= i < rest.len() && (#[trigger] rest[i]).0 == key && m == rest[i].1
                    && forall|j: int| 0 <= j < i ==> (#[trigger] rest[j]).0 != key;
            assert(entries[i + 1] == rest[i]);
            assert forall|j: int| 0 <= j < i + 1 implies (#[trigger] entries[j]).0 != key by {
                if j > 0 {
                    assert(rest[j - 1] == entries[j]);
                }
            }
        } else {
            assert forall|j: int| 0 <= j < entries.len() implies (#[trigger] entries[j]).0 != key by {
                if j > 0 {
                    assert(rest[j - 1] == entries[j]);
                }
            }
        }
    }
}

/// Only an object has members, only a string a text, only an array items, and only an unsigned
/// integer its number; each is read as what it is.
pub proof fn values_are_read_as_they_are(
    j: JsonModel,
    key: Seq<char>,
    text: Seq<char>,
    items: Seq<JsonModel>,
    n: u64,
)
    ensures
        j !is Object ==> j.member(key) is Null,
        j.as_text() == Some(text) <==> j == JsonModel::Text(text),
        j.as_array() == Some(items) <==> j == JsonModel::Array(items),
        j.as_unsigned() == Some(n) <==> j == JsonModel::Unsigned(n),
        j !is Text ==> j.as_text() is None,
        j !is Array ==> j.as_array() is None,
        j !is Unsigned ==> j.as_unsigned() is None,
{
}

} // verus!
