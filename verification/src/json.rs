use vstd::prelude::*;

use serde_json::Value;

verus! {

#[verifier::external_type_specification]
#[verifier::external_body]
pub struct ExJsonValue(serde_json::Value);

#[verifier::external_type_specification]
#[verifier::external_body]
#[verifier::reject_recursive_types(K)]
#[verifier::reject_recursive_types(V)]
pub struct ExJsonMap<K, V>(serde_json::Map<K, V>);

/// A JSON object.
pub type JsonObject = serde_json::Map<String, Value>;

/// What a JSON object holds as text: each key whose value is a JSON string,
/// with the text of that string.
pub uninterp spec fn json_text_fields(m: JsonObject) -> Map<Seq<char>, Seq<char>>;

/// Every key of a JSON object, whatever its value.
pub uninterp spec fn json_keys(m: JsonObject) -> Set<Seq<char>>;

/// What a JSON object holds as objects of text: each key whose value is a JSON
/// object of JSON strings only, with the texts of that object's members.
pub uninterp spec fn json_object_members(m: JsonObject) -> Map<
    Seq<char>,
    Map<Seq<char>, Seq<char>>,
>;

/// The members are those the names describe: texts and objects of texts.
pub open spec fn described(m: JsonObject) -> bool {
    json_keys(m) == json_text_fields(m).dom() + json_object_members(m).dom()
}

/// An object of text members only.
pub open spec fn texts_only(m: JsonObject) -> bool {
    json_keys(m) == json_text_fields(m).dom() && json_object_members(m) == no_objects()
}

/// The empty map of object members.
pub open spec fn no_objects() -> Map<Seq<char>, Map<Seq<char>, Seq<char>>> {
    Map::empty()
}

/// The compact JSON text (`Value::to_string`) of the object whose members are
/// the given texts and objects of texts.
pub uninterp spec fn json_object_text(
    texts: Map<Seq<char>, Seq<char>>,
    objects: Map<Seq<char>, Map<Seq<char>, Seq<char>>>,
) -> Seq<char>;

/// The pretty JSON text (`serde_json::to_string_pretty`) of the object whose
/// members are the given texts and objects of texts.
pub uninterp spec fn json_object_pretty(
    texts: Map<Seq<char>, Seq<char>>,
    objects: Map<Seq<char>, Map<Seq<char>, Seq<char>>>,
) -> Seq<char>;

/// The empty map of text fields.
pub open spec fn no_fields() -> Map<Seq<char>, Seq<char>> {
    Map::empty()
}

/// `serde_json::Map::new`: an object with no members.
#[verifier::external_body]
pub(crate) fn json_map_new() -> (m: JsonObject)
    ensures
        json_text_fields(m) == no_fields(),
        json_keys(m) == Set::<Seq<char>>::empty(),
        json_object_members(m) == no_objects(),
{
    serde_json::Map::new()
}

/// `serde_json::Map::insert` of a JSON string: the key now holds that text,
/// replacing what it held; the other members stay.
#[verifier::external_body]
pub(crate) fn json_map_insert_text(m: &mut JsonObject, key: String, value: String)
    ensures
        json_text_fields(*final(m)) == json_text_fields(*old(m)).insert(key@, value@),
        json_keys(*final(m)) == json_keys(*old(m)).insert(key@),
        json_object_members(*final(m)) == json_object_members(*old(m)).remove(key@),
{
    m.insert(key, Value::String(value));
}

/// `serde_json::Map::insert` of an object of texts (as `Value::Object`): the
/// key now holds that object, replacing what it held; the other members stay.
#[verifier::external_body]
pub(crate) fn json_map_insert_object(m: &mut JsonObject, key: String, inner: JsonObject)
    requires
        texts_only(inner),
    ensures
        json_text_fields(*final(m)) == json_text_fields(*old(m)).remove(key@),
        json_keys(*final(m)) == json_keys(*old(m)).insert(key@),
        json_object_members(*final(m)) == json_object_members(*old(m)).insert(
            key@,
            json_text_fields(inner),
        ),
{
    m.insert(key, Value::Object(inner));
}

/// `Clone::clone` of a JSON object: the same members.
#[verifier::external_body]
pub(crate) fn json_map_clone(m: &JsonObject) -> (c: JsonObject)
    ensures
        json_text_fields(c) == json_text_fields(*m),
        json_keys(c) == json_keys(*m),
        json_object_members(c) == json_object_members(*m),
{
    m.clone()
}

/// `Value::to_string` of the object (as `Value::Object`): its compact JSON
/// text, which the names `json_object_text` gives for its members.
#[verifier::external_body]
pub(crate) fn json_object_to_string(m: JsonObject) -> (r: String)
    requires
        described(m),
    ensures
        r@ == json_object_text(json_text_fields(m), json_object_members(m)),
{
    Value::Object(m).to_string()
}

/// `serde_json::to_string_pretty` of the object (as `Value::Object`): its
/// pretty JSON text, which the name `json_object_pretty` gives for its
/// members. Writing a `Value` fails only for a `Serialize` that fails or a map
/// whose keys are no strings, neither of which a `Value` has.
#[verifier::external_body]
pub(crate) fn json_object_to_pretty(m: JsonObject) -> (r: String)
    requires
        described(m),
    ensures
        r@ == json_object_pretty(json_text_fields(m), json_object_members(m)),
{
    serde_json::to_string_pretty(&Value::Object(m)).unwrap()
}

/// `serde_json::from_str::<serde_json::Value>` accepts the text as JSON.
pub uninterp spec fn json_accepts(text: Seq<char>) -> bool;

/// The text that `serde_json::to_string_pretty` writes for the JSON value that
/// `serde_json::from_str::<serde_json::Value>` reads from the text.
pub uninterp spec fn json_pretty(text: Seq<char>) -> Seq<char>;

/// `serde_json::to_string_pretty` of the JSON value that
/// `serde_json::from_str::<serde_json::Value>` reads from the text: the pretty
/// form of the text when it is JSON. The reading turns the argument into the
/// value that `to_string_pretty` takes; a `Value` has no view, so the written
/// text can only be named through the text it was read from. Writing a
/// `Value` fails only for a `Serialize` that fails or a map whose keys are no
/// strings, neither of which a `Value` has, so the result is there exactly when
/// the text is read; what the texts are is left to the names `json_accepts`
/// and `json_pretty`.
#[verifier::external_body]
pub(crate) fn pretty_json_text(text: &str) -> (r: Option<String>)
    ensures
        r is Some <==> json_accepts(text@),
        r matches Some(p) ==> p@ == json_pretty(text@),
{
    serde_json::from_str::<Value>(text).ok().and_then(|v| serde_json::to_string_pretty(&v).ok())
}

} // verus!
