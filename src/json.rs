//! The JSON text of a record, which serde_json writes and reads.
use vstd::prelude::*;
use vstd::utf8::encode_utf8;

verus! {

/// The entries of a JSON object, in the order serde_json's map hands them
/// out: each entry's name, and its value where that value is a JSON string.
pub type JsonEntries = Seq<(Seq<char>, Option<Seq<char>>)>;

/// What serde_json reads from `text` as a JSON object: its entries, or
/// nothing where `text` is not one whole object.
pub uninterp spec fn json_object_of(text: Seq<char>) -> Option<JsonEntries>;

/// The compact JSON text that serde_json writes for an object of two string
/// entries.
pub uninterp spec fn json_object_text(
    n1: Seq<char>,
    v1: Seq<char>,
    n2: Seq<char>,
    v2: Seq<char>,
) -> Seq<char>;

/// The value of the first entry named `name`, if any.
pub open spec fn entry(es: JsonEntries, name: Seq<char>) -> Option<Option<Seq<char>>>
    decreases es.len(),
{
    if es.len() == 0 {
        None
    } else if es[0].0 == name {
        Some(es[0].1)
    } else {
        entry(es.drop_first(), name)
    }
}

/// The view of the entries as the wrapper below hands them out.
pub open spec fn entries_view(es: Seq<(String, Option<String>)>) -> JsonEntries {
    es.map_values(
        |e: (String, Option<String>)|
            (
                e.0@,
                match e.1 {
                    Some(v) => Some(v@),
                    None => None,
                },
            ),
    )
}

/// Relies on `serde_json::from_str` into a `serde_json::Map`: it parses
/// `text` as one JSON object, or fails. Each entry is handed out with its
/// name and, through `Value::as_str`, its string value.
#[verifier::external_body]
pub(crate) fn parse_json_object(text: &str) -> (r: Option<Vec<(String, Option<String>)>>)
    ensures
        r is Some <==> json_object_of(text@) is Some,
        r matches Some(es) ==> entries_view(es@) == json_object_of(text@)->0,
{
    serde_json::from_str::<serde_json::Map<String, serde_json::Value>>(text).ok().map(
        |m| m.into_iter().map(|(k, v)| (k, v.as_str().map(|s| s.to_string()))).collect(),
    )
}

/// Relies on `serde_json::to_string` of a `serde_json::Map` that holds two
/// string entries. It fails only for a failing `Serialize` impl or a map key
/// that is not a string, neither of which can occur here. The compact text
/// starts with `{` and ends with `}`, escapes every control character inside
/// strings (so its UTF-8 holds no newline byte), and serde_json reads it
/// back as an object with the same two entries.
#[verifier::external_body]
pub(crate) fn write_json_object(n1: &str, v1: &str, n2: &str, v2: &str) -> (r: Option<String>)
    requires
        n1@ != n2@,
    ensures
        r is Some,
        r matches Some(t) ==> {
            &&& t@ == json_object_text(n1@, v1@, n2@, v2@)
            &&& t@.len() > 1
            &&& t@[0] == '{'
            &&& t@.last() == '}'
            &&& forall|i: int| 0 <= i < encode_utf8(t@).len() ==> encode_utf8(t@)[i] != 0x0au8
            &&& json_object_of(t@) matches Some(es) && entry(es, n1@) == Some(Some(v1@))
                && entry(es, n2@) == Some(Some(v2@))
        },
{
    let mut m = serde_json::Map::new();
    m.insert(n1.to_string(), serde_json::Value::String(v1.to_string()));
    m.insert(n2.to_string(), serde_json::Value::String(v2.to_string()));
    serde_json::to_string(&m).ok()
}

} // verus!
