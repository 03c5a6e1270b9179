//! JSON metadata: reading members of stored objects and writing new objects, by `serde_json`.

use vstd::prelude::*;

use crate::text::same_text;

verus! {

/// One level of a JSON text. Elements and members are JSON texts themselves.
pub enum JsonShape {
    /// Not a JSON text.
    Invalid,
    Null,
    Bool(bool),
    /// A number, with its value where that is an `i64`.
    Number(Option<i64>),
    Text(String),
    List(Vec<String>),
    Fields(Vec<(String, String)>),
}

/// The value of a `JsonShape`.
pub enum ShapeModel {
    Invalid,
    Null,
    Bool(bool),
    Number(Option<i64>),
    Text(Seq<char>),
    List(Seq<Seq<char>>),
    Fields(Seq<(Seq<char>, Seq<char>)>),
}

impl DeepView for JsonShape {
    type V = ShapeModel;

    open spec fn deep_view(&self) -> ShapeModel {
        match self {
            JsonShape::Invalid => ShapeModel::Invalid,
            JsonShape::Null => ShapeModel::Null,
            JsonShape::Bool(b) => ShapeModel::Bool(*b),
            JsonShape::Number(n) => ShapeModel::Number(*n),
            JsonShape::Text(t) => ShapeModel::Text(t@),
            JsonShape::List(items) => ShapeModel::List(items.deep_view()),
            JsonShape::Fields(fields) => ShapeModel::Fields(fields.deep_view()),
        }
    }
}

/// What `serde_json::from_str` makes of a text, one level deep.
pub uninterp spec fn json_of(text: Seq<char>) -> ShapeModel;

/// `serde_json::from_str` into a `serde_json::Value`, whose elements and members are written back
/// as texts. An object names each member once.
#[verifier::external_body]
pub(crate) fn json_shape(text: &str) -> (r: JsonShape)
    ensures
        r.deep_view() == json_of(text@),
        r.deep_view() matches ShapeModel::Fields(fields) ==> forall|i: int, j: int|
            0 <= i < j < fields.len() ==> (#[trigger] fields[i]).0 != (#[trigger] fields[j]).0,
{
    match serde_json::from_str::<serde_json::Value>(text) {
        Err(_) => JsonShape::Invalid,
        Ok(serde_json::Value::Null) => JsonShape::Null,
        Ok(serde_json::Value::Bool(b)) => JsonShape::Bool(b),
        Ok(serde_json::Value::Number(n)) => JsonShape::Number(n.as_i64()),
        Ok(serde_json::Value::String(s)) => JsonShape::Text(s),
        Ok(serde_json::Value::Array(items)) => JsonShape::List(
            items.iter().map(|v| v.to_string()).collect(),
        ),
        Ok(serde_json::Value::Object(map)) => JsonShape::Fields(
            map.iter().map(|(k, v)| (k.clone(), v.to_string())).collect(),
        ),
    }
}

/// The first member called `key`.
pub open spec fn member(fields: Seq<(Seq<char>, Seq<char>)>, key: Seq<char>) -> Option<Seq<char>>
    decreases fields.len(),
{
    if fields.len() == 0 {
        None
    } else if fields[0].0 == key {
        Some(fields[0].1)
    } else {
        member(fields.skip(1), key)
    }
}

/// The member of an object text called `key`, as a JSON text.
pub open spec fn field(text: Seq<char>, key: Seq<char>) -> Option<Seq<char>> {
    match json_of(text) {
        ShapeModel::Fields(fields) => member(fields, key),
        _ => None,
    }
}

/// The member called `key` where it is a string.
pub open spec fn text_field(text: Seq<char>, key: Seq<char>) -> Option<Seq<char>> {
    match field(text, key) {
        Some(value) => match json_of(value) {
            ShapeModel::Text(t) => Some(t),
            _ => None,
        },
        None => None,
    }
}

/// The elements of the member called `key` where it is an array.
pub open spec fn list_field(text: Seq<char>, key: Seq<char>) -> Option<Seq<Seq<char>>> {
    match field(text, key) {
        Some(value) => match json_of(value) {
            ShapeModel::List(items) => Some(items),
            _ => None,
        },
        None => None,
    }
}

/// The value of the member called `key` where it is an integer.
pub open spec fn int_field(text: Seq<char>, key: Seq<char>) -> Option<i64> {
    match field(text, key) {
        Some(value) => match json_of(value) {
            ShapeModel::Number(n) => n,
            _ => None,
        },
        None => None,
    }
}

/// The first of the members called `key`.
pub fn find_member(fields: &Vec<(String, String)>, key: &str) -> (r: Option<String>)
    ensures
        r.deep_view() == member(fields.deep_view(), key@),
{
    let ghost all = fields.deep_view();
    let mut i: usize = 0;
    assert(all.skip(0) =~= all);
    while i < fields.len()
        invariant
            all == fields.deep_view(),
            i <= all.len(),
            member(all, key@) == member(all.skip(i as int), key@),
        decreases all.len() - i,
    {
        assert(all[i as int] == fields@[i as int].deep_view());
        if same_text(&fields[i].0, key) {
            return Some(fields[i].1.clone());
        }
        assert(all.skip(i as int).skip(1) =~= all.skip(i + 1));
        i += 1;
    }
    None
}

/// The member of an object text called `key`.
pub fn json_field(text: &str, key: &str) -> (r: Option<String>)
    ensures
        r.deep_view() == field(text@, key@),
{
    match json_shape(text) {
        JsonShape::Fields(fields) => find_member(&fields, key),
        _ => None,
    }
}

/// The string member of an object text called `key`.
pub fn json_text_field(text: &str, key: &str) -> (r: Option<String>)
    ensures
        r.deep_view() == text_field(text@, key@),
{
    match json_field(text, key) {
        Some(value) => match json_shape(&value) {
            JsonShape::Text(t) => Some(t),
            _ => None,
        },
        None => None,
    }
}

/// The elements of the array member of an object text called `key`.
pub fn json_list_field(text: &str, key: &str) -> (r: Option<Vec<String>>)
    ensures
        r.deep_view() == list_field(text@, key@),
{
    match json_field(text, key) {
        Some(value) => match json_shape(&value) {
            JsonShape::List(items) => Some(items),
            _ => None,
        },
        None => None,
    }
}

/// The integer member of an object text called `key`.
pub fn json_int_field(text: &str, key: &str) -> (r: Option<i64>)
    ensures
        r == int_field(text@, key@),
{
    match json_field(text, key) {
        Some(value) => match json_shape(&value) {
            JsonShape::Number(n) => n,
            _ => None,
        },
        None => None,
    }
}

/// A value that the library writes into metadata.
pub enum MetaValue {
    Null,
    Text(String),
    /// A list of objects whose members are strings.
    Rows(Vec<Vec<(String, String)>>),
}

/// The value of a `MetaValue`.
pub enum MetaModel {
    Null,
    Text(Seq<char>),
    Rows(Seq<Seq<(Seq<char>, Seq<char>)>>),
}

impl DeepView for MetaValue {
    type V = MetaModel;

    open spec fn deep_view(&self) -> MetaModel {
        match self {
            MetaValue::Null => MetaModel::Null,
            MetaValue::Text(t) => MetaModel::Text(t@),
            MetaValue::Rows(rows) => MetaModel::Rows(rows.deep_view()),
        }
    }
}

/// Whether no two members share a name.
pub open spec fn distinct_names<T>(fields: Seq<(Seq<char>, T)>) -> bool {
    forall|i: int, j: int|
        0 <= i < j < fields.len() ==> (#[trigger] fields[i]).0 != (#[trigger] fields[j]).0
}

/// Whether `key` of the object text holds `value`.
pub open spec fn holds_value(text: Seq<char>, key: Seq<char>, value: MetaModel) -> bool {
    match value {
        MetaModel::Null => field(text, key) is Some && text_field(text, key) is None && list_field(
            text,
            key,
        ) is None,
        MetaModel::Text(t) => text_field(text, key) == Some(t),
        MetaModel::Rows(rows) => list_field(text, key) matches Some(items) && items.len()
            == rows.len() && forall|i: int, j: int|
            0 <= i < rows.len() && distinct_names(rows[i]) && 0 <= j < rows[i].len()
                ==> text_field(items[i], (#[trigger] rows[i][j]).0) == Some(rows[i][j].1),
    }
}

/// The text that `serde_json` writes for an object with these members.
pub uninterp spec fn object_text(fields: Seq<(Seq<char>, MetaModel)>) -> Seq<char>;

/// A `serde_json::Map` with the given members, written by `Value::to_string`. Read back, the text
/// is an object with those members and no others.
#[verifier::external_body]
pub(crate) fn json_object(fields: &Vec<(String, MetaValue)>) -> (r: String)
    ensures
        r@ == object_text(fields.deep_view()),
        distinct_names(fields.deep_view()) ==> forall|i: int|
            0 <= i < fields@.len() ==> holds_value(
                r@,
                (#[trigger] fields.deep_view()[i]).0,
                fields.deep_view()[i].1,
            ),
        forall|key: Seq<char>|
            (forall|i: int| 0 <= i < fields@.len() ==> (#[trigger] fields.deep_view()[i]).0 != key)
                ==> #[trigger] field(r@, key) is None,
{
    let mut map = serde_json::Map::new();
    for (key, value) in fields.iter() {
        let json = match value {
            MetaValue::Null => serde_json::Value::Null,
            MetaValue::Text(t) => serde_json::Value::String(t.clone()),
            MetaValue::Rows(rows) => rows.iter().map(
                |row| row.iter().map(|(k, v)| (k.clone(), v.clone())).collect::<serde_json::Value>(),
            ).collect(),
        };
        map.insert(key.clone(), json);
    }
    serde_json::Value::Object(map).to_string()
}

/// The text that `serde_json` writes for an object text without one of its members.
pub uninterp spec fn without_field(text: Seq<char>, key: Seq<char>) -> Seq<char>;

/// `serde_json::from_str` into a `serde_json::Map`, `Map::remove`, and the rest written by
/// `Value::to_string`. The named member is gone, and the other members are still there; of their
/// values the contract says only that strings stay the same strings.
#[verifier::external_body]
pub(crate) fn json_without(text: &str, key: &str) -> (r: String)
    requires
        json_of(text@) is Fields,
    ensures
        r@ == without_field(text@, key@),
        json_of(r@) is Fields,
        field(r@, key@) is None,
        forall|k: Seq<char>|
            k != key@ ==> (#[trigger] field(r@, k) is Some <==> field(text@, k) is Some),
        forall|k: Seq<char>| k != key@ ==> #[trigger] text_field(r@, k) == text_field(text@, k),
{
    let mut map: serde_json::Map<String, serde_json::Value> = serde_json::from_str(text).unwrap();
    map.remove(key);
    serde_json::Value::Object(map).to_string()
}

} // verus!
