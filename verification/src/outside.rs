//! Declarations of outside types that the library carries through.

use vstd::prelude::*;

verus! {

/// A JSON value (serde_json): agent metadata and event payloads are carried
/// through unread.
#[verifier::external_type_specification]
#[verifier::external_body]
pub struct ExJsonValue(serde_json::Value);

} // verus!
