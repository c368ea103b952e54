//! Features that a driver must understand before it may write to the volume.
use vstd::prelude::*;

verus! {

pub const SPARSE_SUPER: u32 = 0x0001;

pub const LARGE_FILE: u32 = 0x0002;

pub const HUGE_FILE: u32 = 0x0008;

pub const GDT_CSUM: u32 = 0x0010;

pub const DIR_NLINK: u32 = 0x0020;

pub const EXTRA_ISIZE: u32 = 0x0040;

pub const METADATA_CSUM: u32 = 0x0400;

} // verus!
