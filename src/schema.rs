//! Field identifiers and the closed union of values a document can carry.
use vstd::prelude::*;

verus! {

/// Opaque, totally ordered handle of a schema field.
#[derive(Clone, Copy, Debug, PartialEq, Eq, Structural, PartialOrd, Ord, Hash)]
pub struct Field(pub u32);

impl Field {
    pub fn from_field_id(field_id: u32) -> (r: Field)
        ensures
            r.0 == field_id,
    {
        Field(field_id)
    }

    pub fn field_id(&self) -> (r: u32)
        ensures
            r == self.0,
    {
        self.0
    }
}

/// A point in time, as seconds since the Unix epoch.
#[derive(Clone, Copy, Debug, PartialEq, Eq, Structural, PartialOrd, Ord, Hash)]
pub struct DateTime {
    pub timestamp: i64,
}

/// A hierarchical facet path, held in its encoded form
/// (segments separated by the byte `0`).
#[derive(Clone, Debug)]
pub struct Facet {
    pub encoded: String,
}

/// One token descriptor produced by an external tokenizer.
#[derive(Clone, Debug)]
pub struct Token {
    pub offset_from: u64,
    pub offset_to: u64,
    pub position: u64,
    pub text: String,
    pub position_length: u64,
}

/// A text together with the tokens an external tokenizer found in it.
#[derive(Clone, Debug)]
pub struct PreTokenizedString {
    pub text: String,
    pub tokens: Vec<Token>,
}

/// A typed field value. `F64` holds the IEEE-754 bit pattern of the number.
#[derive(Clone, Debug)]
pub enum Value {
    Str(String),
    PreTokStr(PreTokenizedString),
    U64(u64),
    I64(i64),
    F64(u64),
    Date(DateTime),
    Facet(Facet),
    Bytes(Vec<u8>),
}

/// A `(field, value)` pair: the unit of document content.
#[derive(Clone, Debug)]
pub struct FieldValue {
    pub field: Field,
    pub value: Value,
}

impl FieldValue {
    pub fn new(field: Field, value: Value) -> (r: FieldValue)
        ensures
            r.field == field,
            r.value == value,
    {
        FieldValue { field, value }
    }

    pub fn field(&self) -> (r: Field)
        ensures
            r == self.field,
    {
        self.field
    }

    pub fn value(&self) -> (r: &Value)
        ensures
            *r == self.value,
    {
        &self.value
    }
}

/// Key matching documents for deletion: a field and an encoded value.
#[derive(Clone, Debug)]
pub struct Term {
    pub field: Field,
    pub value_bytes: Vec<u8>,
}

/// The content of a token, as plain values.
pub struct TokenModel {
    pub offset_from: u64,
    pub offset_to: u64,
    pub position: u64,
    pub text: Seq<char>,
    pub position_length: u64,
}

/// The content of a value, as plain values.
pub enum ValueModel {
    Str(Seq<char>),
    PreTokStr(Seq<char>, Seq<TokenModel>),
    U64(u64),
    I64(i64),
    F64(u64),
    Date(i64),
    Facet(Seq<char>),
    Bytes(Seq<u8>),
}

pub open spec fn token_model(t: Token) -> TokenModel {
    TokenModel {
        offset_from: t.offset_from,
        offset_to: t.offset_to,
        position: t.position,
        text: t.text@,
        position_length: t.position_length,
    }
}

pub open spec fn tokens_model(ts: Seq<Token>) -> Seq<TokenModel> {
    ts.map_values(|t: Token| token_model(t))
}

pub open spec fn value_model(v: Value) -> ValueModel {
    match v {
        Value::Str(s) => ValueModel::Str(s@),
        Value::PreTokStr(p) => ValueModel::PreTokStr(p.text@, tokens_model(p.tokens@)),
        Value::U64(x) => ValueModel::U64(x),
        Value::I64(x) => ValueModel::I64(x),
        Value::F64(x) => ValueModel::F64(x),
        Value::Date(d) => ValueModel::Date(d.timestamp),
        Value::Facet(f) => ValueModel::Facet(f.encoded@),
        Value::Bytes(b) => ValueModel::Bytes(b@),
    }
}

/// The content of a pair: its field and the content of its value.
pub open spec fn field_value_model(fv: FieldValue) -> (Field, ValueModel) {
    (fv.field, value_model(fv.value))
}

} // verus!
