use vstd::prelude::*;

verus! {

/// Relies on `uuid::Uuid::new_v4` for a random version-4 UUID, written in its
/// hyphenated form, which is always 36 characters long.
#[verifier::external_body]
pub(crate) fn fresh_token() -> (r: String)
    ensures
        r@.len() == 36,
{
    uuid::Uuid::new_v4().hyphenated().to_string()
}

} // verus!
