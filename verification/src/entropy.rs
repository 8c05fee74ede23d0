//! Access to the operating system's randomness source.

use rand_core::RngCore;
use vstd::prelude::*;

verus! {

/// Relies on rand_core::OsRng (RngCore::next_u32): draws operating-system
/// entropy. Nothing is assumed of the value; every caller must be correct
/// for every outcome. Aborts only if the operating system cannot supply
/// entropy at all.
#[verifier::external_body]
pub(crate) fn os_next_u32() -> u32 {
    rand_core::OsRng.next_u32()
}

/// Relies on rand_core::OsRng (RngCore::next_u64): draws operating-system
/// entropy. Nothing is assumed of the value; every caller must be correct
/// for every outcome. Aborts only if the operating system cannot supply
/// entropy at all.
#[verifier::external_body]
pub(crate) fn os_next_u64() -> u64 {
    rand_core::OsRng.next_u64()
}

} // verus!
