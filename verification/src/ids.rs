//! Record and session identifiers.

use vstd::prelude::*;

verus! {

/// Number of characters in a generated identifier: 32 hexadecimal digits and
/// four hyphens.
pub const ID_LENGTH: usize = 36;

/// `uuid::Uuid::new_v4` followed by `to_string`: a random version-4 UUID in its
/// hyphenated lower-case form, which is always 36 characters long. Which
/// characters they are depends on chance.
#[verifier::external_body]
pub(crate) fn fresh_id() -> (id: String)
    ensures
        id@.len() == ID_LENGTH,
{
    uuid::Uuid::new_v4().to_string()
}

} // verus!
