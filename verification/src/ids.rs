//! Fresh opaque identifiers for sessions and library items.

use vstd::prelude::*;

verus! {

/// Relies on uuid's Uuid::new_v4 and its hyphenated text form: a fresh
/// random identifier, always 36 characters long. Nothing else can be
/// promised of a random value.
#[verifier::external_body]
pub fn new_uuid() -> (r: String)
    ensures
        r@.len() == 36,
{
    uuid::Uuid::new_v4().to_string()
}

} // verus!
