//! JSON text, read and written by `serde_json`. A JSON value that leaves this
//! module is its compact serialisation (object keys sorted, no white space).

use vstd::prelude::*;
use vstd::utf8::encode_utf8;

verus! {

/// What `serde_json` answers to "is `text` one JSON value?".
pub uninterp spec fn is_json(text: Seq<u8>) -> bool;

/// The compact serialisation of member `name` of the JSON object `text`;
/// `None` if `text` is not a JSON object with such a member.
pub uninterp spec fn member(text: Seq<u8>, name: Seq<char>) -> Option<Seq<u8>>;

/// The compact serialisations of the elements of the array that is member
/// `name` of the JSON object `text`; `None` if there is no such array.
pub uninterp spec fn member_items(text: Seq<u8>, name: Seq<char>) -> Option<Seq<Seq<u8>>>;

/// The string that the JSON string `text` stands for; `None` if `text` is not
/// a JSON string.
pub uninterp spec fn string_value(text: Seq<u8>) -> Option<Seq<char>>;

/// `s` as a JSON string, quoted and escaped.
pub uninterp spec fn quoted(s: Seq<char>) -> Seq<char>;

/// The views of byte strings.
pub open spec fn byte_views(v: Seq<Vec<u8>>) -> Seq<Seq<u8>> {
    v.map_values(|b: Vec<u8>| b@)
}

/// `serde_json::from_slice` into a `Value`: whether it succeeds on `text`.
#[verifier::external_body]
pub(crate) fn valid(text: &[u8]) -> (r: bool)
    ensures
        r == is_json(text@),
{
    serde_json::from_slice::<serde_json::Value>(text).is_ok()
}

/// `Value::get` on the parsed `text`: the member called `name`, serialised by
/// `serde_json::to_vec`.
#[verifier::external_body]
pub(crate) fn get(text: &[u8], name: &str) -> (r: Option<Vec<u8>>)
    ensures
        match r {
            Some(b) => member(text@, name@) == Some(b@),
            None => member(text@, name@) is None,
        },
{
    let value: serde_json::Value = serde_json::from_slice(text).ok()?;
    serde_json::to_vec(value.get(name)?).ok()
}

/// `Value::as_array` on the member called `name` of the parsed `text`: each
/// element, in order, serialised by `serde_json::to_vec`.
#[verifier::external_body]
pub(crate) fn get_items(text: &[u8], name: &str) -> (r: Option<Vec<Vec<u8>>>)
    ensures
        match r {
            Some(items) => member_items(text@, name@) == Some(byte_views(items@)),
            None => member_items(text@, name@) is None,
        },
{
    let value: serde_json::Value = serde_json::from_slice(text).ok()?;
    let items = value.get(name)?.as_array()?;
    items.iter().map(|item| serde_json::to_vec(item).ok()).collect()
}

/// `serde_json::from_slice` into a `String`: the string that `text` stands
/// for, if it is a JSON string.
#[verifier::external_body]
pub(crate) fn as_string(text: &[u8]) -> (r: Option<String>)
    ensures
        match r {
            Some(s) => string_value(text@) == Some(s@),
            None => string_value(text@) is None,
        },
{
    serde_json::from_slice(text).ok()
}

/// `serde_json::to_string` of a string, which does not fail: `s` quoted and
/// escaped. Read as JSON, it stands for `s` again.
#[verifier::external_body]
pub(crate) fn quote(s: &str) -> (r: String)
    ensures
        r@ == quoted(s@),
        string_value(encode_utf8(r@)) == Some(s@),
{
    serde_json::to_string(s).unwrap_or_default()
}

} // verus!
