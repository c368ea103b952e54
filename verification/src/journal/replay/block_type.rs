//! What a journal block is.
use vstd::prelude::*;

verus! {

pub const DESCRIPTOR: u32 = 1;

pub const COMMIT: u32 = 2;

pub const SUPERBLOCK_V1: u32 = 3;

pub const SUPERBLOCK_V2: u32 = 4;

pub const REVOKE: u32 = 5;

} // verus!
