use vstd::prelude::*;

verus! {

/// `serde_json::Error`, of which nothing is known.
#[verifier::external_type_specification]
#[verifier::external_body]
pub struct ExJsonError(serde_json::Error);

/// What the transformation tells apart in a JSON value: a string, by its
/// characters; a number, by the way it is written out; or anything else.
pub enum JsonShape {
    Text(Seq<char>),
    Number(Seq<char>),
    Other,
}

/// A JSON value as far as the transformation looks into it.
#[derive(Debug, Clone, PartialEq, Eq)]
pub enum JsonValue {
    /// A string.
    Text(String),
    /// A number, written out in decimal.
    Number(String),
    /// `null`, a boolean, an array or an object.
    Other,
}

impl JsonValue {
    pub open spec fn shape(self) -> JsonShape {
        match self {
            JsonValue::Text(text) => JsonShape::Text(text@),
            JsonValue::Number(number) => JsonShape::Number(number@),
            JsonValue::Other => JsonShape::Other,
        }
    }
}

/// A field of a document by its name: the name and the JSON text of the
/// value.
pub type NamedField = (Seq<char>, Seq<u8>);

/// The value that `serde_json` reads from `bytes`, or `None` where the
/// bytes are not the text of one JSON value.
pub uninterp spec fn parsed_json(bytes: Seq<u8>) -> Option<JsonShape>;

/// The JSON text that `serde_json` writes for a string.
pub uninterp spec fn json_text(text: Seq<char>) -> Seq<u8>;

/// The fields that `flatten_serde_json::flatten` makes of the object with
/// the fields `fields`, whose values are all valid JSON texts: the fields
/// of the nested objects are brought up under the names that lead to
/// them, joined by dots.
pub uninterp spec fn flattened(fields: Seq<NamedField>) -> Seq<NamedField>;

/// Whether `text` is written as `Hyphenated::encode_lower` writes a
/// random identifier of 128 bits: five groups of lowercase hexadecimal
/// digits with hyphens between them, of which the first digit of the
/// third group says that the identifier is of version 4, and the first
/// digit of the fourth group that it is of the variant of RFC 4122.
pub open spec fn is_hyphenated_uuid(text: Seq<char>) -> bool {
    &&& text.len() == 36
    &&& text[14] == '4'
    &&& text[19] == '8' || text[19] == '9' || text[19] == 'a' || text[19] == 'b'
    &&& forall|i: int|
        0 <= i < 36 ==> if i == 8 || i == 13 || i == 18 || i == 23 {
            #[trigger] text[i] == '-'
        } else {
            ('0' <= text[i] && text[i] <= '9') || ('a' <= text[i] && text[i] <= 'f')
        }
}

/// `serde_json::from_slice` to a `Value`, of which the shape is kept: the
/// bytes are accepted when they are the text of one JSON value.
#[verifier::external_body]
pub(crate) fn json_from_slice(bytes: &[u8]) -> (value: Result<JsonValue, serde_json::Error>)
    ensures
        value is Ok <==> parsed_json(bytes@) is Some,
        value matches Ok(v) ==> Some(v.shape()) == parsed_json(bytes@),
{
    serde_json::from_slice::<serde_json::Value>(bytes).map(
        |value| match value {
            serde_json::Value::String(text) => JsonValue::Text(text),
            serde_json::Value::Number(number) => JsonValue::Number(number.to_string()),
            serde_json::Value::Null => JsonValue::Other,
            serde_json::Value::Bool(_) => JsonValue::Other,
            serde_json::Value::Array(_) => JsonValue::Other,
            serde_json::Value::Object(_) => JsonValue::Other,
        },
    )
}

/// `serde_json::to_vec` of a string: its JSON text, from which the string
/// is read back. Writing a string does not fail.
#[verifier::external_body]
pub(crate) fn json_to_vec(text: &str) -> (bytes: Result<Vec<u8>, serde_json::Error>)
    ensures
        bytes is Ok,
        bytes matches Ok(b) ==> b@ == json_text(text@),
        bytes matches Ok(b) ==> parsed_json(b@) == Some(JsonShape::Text(text@)),
{
    serde_json::to_vec(text)
}

/// `flatten_serde_json::flatten` of the object whose fields are `fields`,
/// each value read with `serde_json::from_slice` and each value of the
/// result written with `serde_json::to_vec`. It fails when a value is not
/// valid JSON. No name comes twice in the result.
#[verifier::external_body]
pub(crate) fn flatten_fields(fields: &Vec<(String, Vec<u8>)>) -> (flat: Result<Vec<(String, Vec<u8>)>, serde_json::Error>)
    ensures
        flat is Ok <==> forall|i: int|
            0 <= i < fields@.len() ==> parsed_json((#[trigger] fields@[i]).1@) is Some,
        flat matches Ok(f) ==> f.deep_view() == flattened(fields.deep_view()),
        flat matches Ok(f) ==> forall|i: int, j: int|
            0 <= i < j < f@.len() ==> f@[i].0@ != f@[j].0@,
{
    let mut object = serde_json::Map::new();
    for (name, value) in fields.iter() {
        object.insert(name.clone(), serde_json::from_slice(value)?);
    }
    let mut flat = Vec::new();
    for (name, value) in flatten_serde_json::flatten(&object) {
        flat.push((name, serde_json::to_vec(&value)?));
    }
    Ok(flat)
}

/// `Uuid::new_v4` written by `Hyphenated::encode_lower`: a random
/// identifier of version 4 in its hyphenated lowercase form. It panics
/// where the system hands out no random bytes.
#[verifier::external_body]
pub(crate) fn generate_uuid() -> (text: String)
    ensures
        is_hyphenated_uuid(text@),
{
    let mut buffer = [0; uuid::adapter::Hyphenated::LENGTH];
    uuid::Uuid::new_v4().to_hyphenated().encode_lower(&mut buffer).to_owned()
}

} // verus!
