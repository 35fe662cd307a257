use vstd::prelude::*;

verus! {

/// serde_json's document tree, carried through without looking inside.
#[verifier::external_type_specification]
#[verifier::external_body]
pub struct ExJsonValue(serde_json::Value);

/// A JSON number as serde_json holds it.
#[verifier::external_type_specification]
#[verifier::external_body]
pub struct ExJsonNumber(serde_json::Number);

/// serde_json's parse error.
#[verifier::external_type_specification]
#[verifier::external_body]
pub struct ExJsonError(serde_json::Error);

/// Relies on serde_json::Number::as_i64: the number as an `i64`, where it is an
/// integer in that range.
pub assume_specification[ serde_json::Number::as_i64 ](n: &serde_json::Number) -> Option<i64>;

} // verus!
