//! Bits of the superblock's state field.
use vstd::prelude::*;

verus! {

/// The volume was unmounted cleanly.
pub const VALID_FS: u16 = 0x0001;

/// Errors were found on the volume.
pub const ERROR_FS: u16 = 0x0002;

} // verus!
