//! Features that a driver must understand before it may read the volume.
use vstd::prelude::*;

verus! {

pub const FILETYPE: u32 = 0x0002;

pub const RECOVER: u32 = 0x0004;

pub const EXTENTS: u32 = 0x0040;

pub const FLEX_BG: u32 = 0x0200;

pub const INLINE_DATA: u32 = 0x8000;

pub const ENCRYPT: u32 = 0x10000;

/// Features that rule out mounting. Inline data lives in the inode's block
/// field, where it would be read as an extent tree. A volume that needs
/// recovery is not ruled out: the journal is replayed.
pub const UNSUPPORTED_MASK: u32 = ENCRYPT | INLINE_DATA;

} // verus!
