//! The JSON values that travel in commands and responses.
//!
//! A `serde_json::Value` is opaque to the verifier. Contracts speak of what a
//! value holds through [`json_view`]; the functions of this module are the only
//! ones that look inside a value or build one, and their contracts are taken on
//! trust from `serde_json`.

use vstd::prelude::*;

verus! {

#[verifier::external_type_specification]
#[verifier::external_body]
pub struct ExJsonValue(serde_json::Value);

/// What a JSON value holds. A number stands as the text `serde_json` prints
/// for it.
pub ghost enum JsonView {
    Null,
    Bool(bool),
    Number(Seq<char>),
    String(Seq<char>),
    Array(Seq<JsonView>),
    Object(Map<Seq<char>, JsonView>),
}

/// The contents of a `serde_json::Value`.
pub uninterp spec fn json_view(value: serde_json::Value) -> JsonView;

/// Whether `value` is a JSON object with a member named `key`.
pub open spec fn has_member(value: serde_json::Value, key: Seq<char>) -> bool {
    json_view(value) matches JsonView::Object(members) && members.contains_key(key)
}

/// `serde_json::Value::is_object`: true exactly for `Value::Object`.
#[verifier::external_body]
pub(crate) fn is_object(value: &serde_json::Value) -> (object: bool)
    ensures
        object == (json_view(*value) is Object),
{
    value.is_object()
}

/// `serde_json::Value::get` with a string index: the member of that name when
/// the value is an object that has one, `None` in every other case.
#[verifier::external_body]
pub(crate) fn get_member<'a>(value: &'a serde_json::Value, key: &str) -> (member: Option<
    &'a serde_json::Value,
>)
    ensures
        member is Some == has_member(*value, key@),
        member matches Some(m) ==> json_view(*m) == json_view(*value)->Object_0[key@],
{
    value.get(key)
}

/// `serde_json::Value`'s `IndexMut<&str>` followed by an assignment: on an
/// object it stores `member` under `key`, replacing a member of that name and
/// leaving the others as they are. (On a value that is neither an object nor
/// null the index panics, so those are left out.)
#[verifier::external_body]
pub(crate) fn set_member(value: &mut serde_json::Value, key: &str, member: serde_json::Value)
    requires
        json_view(*old(value)) is Object,
    ensures
        json_view(*final(value)) == JsonView::Object(
            json_view(*old(value))->Object_0.insert(key@, json_view(member)),
        ),
{
    value[key] = member;
}

/// `serde_json::Value::String`: the JSON string with the characters of `text`.
#[verifier::external_body]
pub(crate) fn string_value(text: String) -> (value: serde_json::Value)
    ensures
        json_view(value) == JsonView::String(text@),
{
    serde_json::Value::String(text)
}

/// `serde_json::Value::Bool`: the JSON boolean `flag`.
#[verifier::external_body]
pub(crate) fn bool_value(flag: bool) -> (value: serde_json::Value)
    ensures
        json_view(value) == JsonView::Bool(flag),
{
    serde_json::Value::Bool(flag)
}

/// `serde_json::Map::new` inside `Value::Object`: the object without members.
#[verifier::external_body]
pub(crate) fn empty_object() -> (value: serde_json::Value)
    ensures
        json_view(value) == JsonView::Object(Map::<Seq<char>, JsonView>::empty()),
{
    serde_json::Value::Object(serde_json::Map::new())
}

} // verus!
