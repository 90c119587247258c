//! JSON documents as trees.

use vstd::prelude::*;

verus! {

/// A JSON document, as the encoder reads it.
///
/// A number is kept as its text, so that no precision is lost before the
/// encoder has chosen a physical type for it. The members of an object are
/// kept in the order in which they were written, and a name may occur
/// among them more than once.
#[derive(Debug)]
pub enum JsonValue {
    Null,
    Bool(bool),
    Number(String),
    String(String),
    Array(Vec<JsonValue>),
    Object(Vec<(String, JsonValue)>),
}

/// The mathematical value of a JSON document.
pub enum JsonModel {
    Null,
    Bool(bool),
    Number(Seq<char>),
    String(Seq<char>),
    Array(Seq<JsonModel>),
    Object(Seq<(Seq<char>, JsonModel)>),
}

impl JsonModel {
    /// The number of elements of an array or of members of an object; 0
    /// for a scalar.
    pub open spec fn child_count(self) -> nat {
        match self {
            JsonModel::Array(items) => items.len(),
            JsonModel::Object(members) => members.len(),
            _ => 0,
        }
    }

    /// Element `i` of an array, or the value of member `i` of an object.
    pub open spec fn child(self, i: int) -> JsonModel
        recommends
            0 <= i < self.child_count(),
    {
        match self {
            JsonModel::Array(items) => items[i],
            JsonModel::Object(members) => members[i].1,
            _ => JsonModel::Null,
        }
    }

    /// The name of member `i` of an object; `None` for an array.
    pub open spec fn child_key(self, i: int) -> Option<Seq<char>>
        recommends
            0 <= i < self.child_count(),
    {
        match self {
            JsonModel::Object(members) => Some(members[i].0),
            _ => None,
        }
    }

    /// The names of the members of an object, in their order.
    pub open spec fn keys(self) -> Seq<Seq<char>> {
        match self {
            JsonModel::Object(members) => Seq::new(members.len(), |i: int| members[i].0),
            _ => Seq::empty(),
        }
    }
}

/// The mathematical value of the document `json`.
pub open spec fn json_model(json: JsonValue) -> JsonModel
    decreases json,
{
    match json {
        JsonValue::Null => JsonModel::Null,
        JsonValue::Bool(b) => JsonModel::Bool(b),
        JsonValue::Number(text) => JsonModel::Number(text@),
        JsonValue::String(text) => JsonModel::String(text@),
        JsonValue::Array(items) => JsonModel::Array(
            Seq::new(
                items@.len(),
                |i: int|
                    if 0 <= i < items@.len() {
                        json_model(items@[i])
                    } else {
                        JsonModel::Null
                    },
            ),
        ),
        JsonValue::Object(members) => JsonModel::Object(
            Seq::new(
                members@.len(),
                |i: int|
                    if 0 <= i < members@.len() {
                        (members@[i].0@, json_model(members@[i].1))
                    } else {
                        (Seq::empty(), JsonModel::Null)
                    },
            ),
        ),
    }
}

impl View for JsonValue {
    type V = JsonModel;

    open spec fn view(&self) -> JsonModel {
        json_model(*self)
    }
}

} // verus!
