//! The types of `serde_json` that pass through this library unopened.

use vstd::prelude::*;

verus! {

/// A tree of `serde_json`.
#[verifier::external_type_specification]
#[verifier::external_body]
pub struct ExTree(serde_json::Value);

/// Why `serde_json` could not read a text.
#[verifier::external_type_specification]
#[verifier::external_body]
pub struct ExTreeError(serde_json::Error);

} // verus!
