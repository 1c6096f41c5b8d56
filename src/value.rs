use vstd::prelude::*;

verus! {

/// A number as written in the document: an integer, or a literal with a
/// fractional part, kept as its exact source text (sign, digits, `.`, digits).
#[derive(Debug, PartialEq)]
pub enum Num {
    Int(i64),
    Float(String),
}

/// The mathematical model of a [`Num`].
pub enum NumModel {
    Int(int),
    Float(Seq<char>),
}

/// A parsed document. Object entries hold unique keys, in the order in which
/// each key first appeared; a repeated key keeps the value written last.
#[derive(Debug, PartialEq)]
pub enum JsonValue {
    Null,
    Bool(bool),
    Number(Num),
    String(String),
    Array(Vec<JsonValue>),
    Object(Vec<(String, JsonValue)>),
}

/// The mathematical model of a [`JsonValue`].
pub enum ValueModel {
    Null,
    Bool(bool),
    Number(NumModel),
    Str(Seq<char>),
    Array(Seq<ValueModel>),
    Object(Seq<(Seq<char>, ValueModel)>),
}

impl Num {
    pub open spec fn model(&self) -> NumModel {
        match self {
            Num::Int(i) => NumModel::Int(*i as int),
            Num::Float(t) => NumModel::Float(t@),
        }
    }
}

impl JsonValue {
    pub open spec fn model(&self) -> ValueModel
        decreases self,
    {
        match self {
            JsonValue::Null => ValueModel::Null,
            JsonValue::Bool(b) => ValueModel::Bool(*b),
            JsonValue::Number(n) => ValueModel::Number(n.model()),
            JsonValue::String(s) => ValueModel::Str(s@),
            JsonValue::Array(items) => ValueModel::Array(
                Seq::new(
                    items.len() as nat,
                    |i: int|
                        if 0 <= i < items.len() {
                            items[i].model()
                        } else {
                            ValueModel::Null
                        },
                ),
            ),
            JsonValue::Object(entries) => ValueModel::Object(
                Seq::new(
                    entries.len() as nat,
                    |i: int|
                        if 0 <= i < entries.len() {
                            (entries[i].0@, entries[i].1.model())
                        } else {
                            (Seq::empty(), ValueModel::Null)
                        },
                ),
            ),
        }
    }
}

/// The models of a sequence of values.
pub open spec fn models_of(items: Seq<JsonValue>) -> Seq<ValueModel> {
    Seq::new(items.len(), |i: int| items[i].model())
}

/// The models of a sequence of object entries.
pub open spec fn entry_models(entries: Seq<(String, JsonValue)>) -> Seq<(Seq<char>, ValueModel)> {
    Seq::new(entries.len(), |i: int| (entries[i].0@, entries[i].1.model()))
}

} // verus!
