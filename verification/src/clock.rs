//! The time of day.
use vstd::prelude::*;

verus! {

/// Reads `SystemTime::now` and gives the whole seconds since the Unix epoch;
/// `None` where the clock stands before it. Nothing is promised of the time.
#[verifier::external_body]
pub(crate) fn unix_seconds() -> (r: Option<u64>) {
    std::time::SystemTime::now().duration_since(std::time::UNIX_EPOCH).ok().map(|d| d.as_secs())
}

/// The seconds since the Unix epoch as an inode holds them: the low 32 bits,
/// and 1 where the clock stands before the epoch.
pub open spec fn stamp(seconds: Option<u64>) -> u32 {
    match seconds {
        Some(s) => (s % 0x1_0000_0000) as u32,
        None => 1,
    }
}

pub fn inode_stamp(seconds: Option<u64>) -> (r: u32)
    ensures
        r == stamp(seconds),
{
    match seconds {
        Some(s) => (s % 0x1_0000_0000) as u32,
        None => 1,
    }
}

/// The current time as an inode holds it.
pub fn unix_now() -> (r: u32)
    ensures
        exists|s: Option<u64>| r == stamp(s),
{
    inode_stamp(unix_seconds())
}

} // verus!
