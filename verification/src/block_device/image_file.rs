//! The geometry of a flat disk image.
use vstd::prelude::*;
use super::{BlockDeviceError, SECTOR};

verus! {

/// The number of sectors of an image of `size` bytes, which has to be a multiple
/// of the sector size.
pub fn image_sectors(size: u64) -> (r: Result<u64, BlockDeviceError>)
    ensures
        r == (if size % 512 == 0 {
            Ok::<u64, BlockDeviceError>(size / 512)
        } else {
            Err(BlockDeviceError::InvalidGeometry(size))
        }),
{
    if size % SECTOR as u64 != 0 {
        return Err(BlockDeviceError::InvalidGeometry(size));
    }
    Ok(size / SECTOR as u64)
}

/// Where sector `index` of an image of `sectors` sectors starts.
pub fn sector_offset(index: u64, sectors: u64) -> (r: Result<u64, BlockDeviceError>)
    requires
        sectors <= u64::MAX / 512,
    ensures
        r == (if index < sectors {
            Ok::<u64, BlockDeviceError>((512 * index) as u64)
        } else {
            Err(BlockDeviceError::OutOfRange(index, sectors))
        }),
{
    if index >= sectors {
        return Err(BlockDeviceError::OutOfRange(index, sectors));
    }
    Ok(SECTOR as u64 * index)
}

} // verus!
