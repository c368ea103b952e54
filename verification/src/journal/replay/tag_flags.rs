//! Flags of a tag in a descriptor block.
use vstd::prelude::*;

verus! {

/// The tag is not followed by a UUID.
pub const SAME_UUID: u16 = 0x1;

/// The block was deleted by the transaction.
pub const DELETED: u16 = 0x2;

/// The block starts with the journal's magic number, which was zeroed.
pub const ESCAPE: u16 = 0x4;

/// The last tag of the descriptor.
pub const LAST_TAG: u16 = 0x8;

} // verus!
