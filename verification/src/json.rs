//! JSON values and texts.
use vstd::prelude::*;

use crate::matching;

verus! {

#[verifier::external_type_specification]
#[verifier::external_body]
pub struct ExValue(serde_json::Value);

/// The member of a value with a key: what `Value::get` finds.
pub uninterp spec fn json_member(value: serde_json::Value, key: Seq<char>) -> Option<
    serde_json::Value,
>;

/// The text of a value that is a string: what `Value::as_str` gives.
pub uninterp spec fn json_string(value: serde_json::Value) -> Option<Seq<char>>;

/// A value as JSON on one line: what `serde_json::to_string` gives for a `Value`, `None` if
/// it fails.
pub uninterp spec fn json_text(value: serde_json::Value) -> Option<Seq<char>>;

/// Texts as a JSON array on one line: what `serde_json::to_string` gives for a list of
/// strings, `None` if it fails.
pub uninterp spec fn json_line(texts: Seq<Seq<char>>) -> Option<Seq<char>>;

/// Texts as a JSON array over several lines: what `serde_json::to_string_pretty` gives for
/// a list of strings, `None` if it fails.
pub uninterp spec fn json_lines(texts: Seq<Seq<char>>) -> Option<Seq<char>>;

/// Calls `Value::get` with a text as the index. What it finds is a function of the value
/// and the key.
#[verifier::external_body]
pub(crate) fn member<'a>(value: &'a serde_json::Value, key: &str) -> (r: Option<
    &'a serde_json::Value,
>)
    ensures
        match r {
            Some(v) => json_member(*value, key@) == Some(*v),
            None => json_member(*value, key@) is None,
        },
{
    value.get(key)
}

/// Calls `Value::as_str`. What it gives is a function of the value.
#[verifier::external_body]
pub(crate) fn string_in(value: &serde_json::Value) -> (r: Option<&str>)
    ensures
        match r {
            Some(s) => json_string(*value) == Some(s@),
            None => json_string(*value) is None,
        },
{
    value.as_str()
}

/// Calls `serde_json::to_string` on a value. The text is a function of the value.
#[verifier::external_body]
pub(crate) fn value_text(value: &serde_json::Value) -> (r: Option<String>)
    ensures
        match r {
            Some(s) => json_text(*value) == Some(s@),
            None => json_text(*value) is None,
        },
{
    serde_json::to_string(value).ok()
}

/// Calls `serde_json::to_string` on a list of texts. The text is a function of the list.
#[verifier::external_body]
pub(crate) fn list_text(texts: &Vec<String>) -> (r: Option<String>)
    ensures
        match r {
            Some(s) => json_line(matching::string_views(texts@)) == Some(s@),
            None => json_line(matching::string_views(texts@)) is None,
        },
{
    serde_json::to_string(texts).ok()
}

/// Calls `serde_json::to_string_pretty` on a list of texts. The text is a function of the
/// list.
#[verifier::external_body]
pub(crate) fn pretty_list_text(texts: &Vec<String>) -> (r: Option<String>)
    ensures
        match r {
            Some(s) => json_lines(matching::string_views(texts@)) == Some(s@),
            None => json_lines(matching::string_views(texts@)) is None,
        },
{
    serde_json::to_string_pretty(texts).ok()
}

} // verus!
