//! The header of a versioned, candid-style serialized state: the state
//! type's version together with the type-table bytes that precede the
//! encoded field values.

use vstd::prelude::*;

verus! {

/// The header part of a serialized state struct: its version, and the
/// serialized type description (without the 4-byte magic prefix). It can be
/// exchanged to check that two parties agree on the state's shape.
pub struct CandidHeader {
    /// Version of the state as its upgrade chain defines it.
    pub version: u32,
    /// The serialized type table for the state struct, not including the
    /// magic prefix.
    pub header: Vec<u8>,
}

} // verus!
