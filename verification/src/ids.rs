//! Random identifiers drawn from the operating system.

use vstd::prelude::*;

verus! {

/// Bits of a UUID that hold its version nibble and its variant bits.
pub const UUID_LAYOUT_MASK: u128 = 0xF000_C000_0000_0000_0000u128;

/// The values of those bits in a random (version 4, RFC 4122 variant) UUID.
pub const UUID_V4_LAYOUT: u128 = 0x4000_8000_0000_0000_0000u128;

/// Calls `uuid::Uuid::new_v4` and returns the UUID as its 128-bit big-endian
/// integer (`Uuid::as_u128`). The bits come from the operating system's random
/// source, so nothing is promised of them but the version and variant bits that
/// `new_v4` sets by masking: version 4 and the RFC 4122 variant.
#[verifier::external_body]
pub fn random_uuid() -> (r: u128)
    ensures
        r & UUID_LAYOUT_MASK == UUID_V4_LAYOUT,
{
    uuid::Uuid::new_v4().as_u128()
}

} // verus!
