//! The ids of users and orders: 128-bit numbers that are drawn and written
//! as UUIDs.

use crate::text::hex_text;
use vstd::prelude::*;

verus! {

/// Whether `id` has the version and variant bits of a random UUID
/// (version 4 of RFC 9562).
pub open spec fn is_random_uuid(id: u128) -> bool {
    id & 0x0000_0000_0000_f000_c000_0000_0000_0000 == 0x0000_0000_0000_4000_8000_0000_0000_0000
}

/// An id written as a UUID: its 32 hexadecimal digits in lower case, in
/// groups of 8, 4, 4, 4 and 12 with a hyphen between them.
pub open spec fn uuid_text(id: u128) -> Seq<char> {
    let hex = hex_text(id as nat, 32);
    hex.subrange(0, 8) + seq!['-'] + hex.subrange(8, 12) + seq!['-'] + hex.subrange(12, 16)
        + seq!['-'] + hex.subrange(16, 20) + seq!['-'] + hex.subrange(20, 32)
}

/// `uuid::Uuid::new_v4`, as the 128-bit number that `Uuid::as_u128` gives
/// for it. The UUID is random but for its version and variant bits, so
/// nothing more is known of the number, and two calls may well differ.
#[verifier::external_body]
pub(crate) fn random_id() -> (id: u128)
    ensures
        is_random_uuid(id),
{
    uuid::Uuid::new_v4().as_u128()
}

/// `Uuid::to_string` of the UUID that `Uuid::from_u128` makes of `id`: the
/// hyphenated form in lower case.
#[verifier::external_body]
pub(crate) fn id_text(id: u128) -> (text: String)
    ensures
        text@ == uuid_text(id),
{
    uuid::Uuid::from_u128(id).to_string()
}

} // verus!
