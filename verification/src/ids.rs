//! Fresh identifiers.

use vstd::prelude::*;

verus! {

/// A fresh random (version 4) UUID from `uuid::Uuid::new_v4`, as a `u128`.
/// Nothing is promised of the value: it is random.
#[verifier::external_body]
pub(crate) fn new_uuid() -> (id: u128) {
    uuid::Uuid::new_v4().as_u128()
}

/// The canonical hyphenated lower-case text of a UUID.
pub uninterp spec fn uuid_text(id: u128) -> Seq<char>;

/// Formats `id` with `uuid::Uuid`'s `Display` (hyphenated, lower case).
/// Trusted: the text depends on `id` alone and is named `uuid_text(id)`.
#[verifier::external_body]
pub(crate) fn uuid_string(id: u128) -> (s: String)
    ensures
        s@ == uuid_text(id),
{
    uuid::Uuid::from_u128(id).to_string()
}

} // verus!
