//! The superblock: the geometry of a volume.
use vstd::prelude::*;
use crate::block_device;
use crate::block_device::{BlockDevice, BlockDeviceError};
use crate::bytes;
use crate::text;

pub mod incompat;
pub mod ro_compat;
pub mod state;

verus! {

/// Bytes that the superblock takes up on disk.
pub const SUPERBLOCK_SIZE: usize = 1024;

/// The fields of the on-disk superblock that the driver reads or writes.
/// Each stands at the offset given, little-endian.
#[derive(Debug)]
pub struct RawSuperblock {
    /// 0
    pub s_inodes_count: u32,
    /// 4
    pub s_blocks_count_lo: u32,
    /// 8
    pub s_r_blocks_count_lo: u32,
    /// 12
    pub s_free_blocks_count_lo: u32,
    /// 16
    pub s_free_inodes_count: u32,
    /// 20
    pub s_first_data_block: u32,
    /// 24
    pub s_log_block_size: u32,
    /// 32
    pub s_blocks_per_group: u32,
    /// 40
    pub s_inodes_per_group: u32,
    /// 56
    pub s_magic: u16,
    /// 58
    pub s_state: u16,
    /// 64
    pub s_rev_level: u32,
    /// 88
    pub s_inode_size: u16,
    /// 92
    pub s_feature_compat: u32,
    /// 96
    pub s_feature_incompat: u32,
    /// 100
    pub s_feature_ro_compat: u32,
    /// 104
    pub s_uuid: [u8; 16],
    /// 120
    pub s_volume_name: [u8; 16],
    /// 254
    pub s_desc_size: u16,
    /// 336
    pub s_blocks_count_hi: u32,
    /// 340
    pub s_r_blocks_count_hi: u32,
    /// 344
    pub s_free_blocks_count_hi: u32,
}

impl RawSuperblock {
    /// Whether each field is what the bytes `s` hold at its offset.
    pub open spec fn reads(&self, s: Seq<u8>) -> bool {
        &&& self.s_inodes_count == bytes::le32(s, 0)
        &&& self.s_blocks_count_lo == bytes::le32(s, 4)
        &&& self.s_r_blocks_count_lo == bytes::le32(s, 8)
        &&& self.s_free_blocks_count_lo == bytes::le32(s, 12)
        &&& self.s_free_inodes_count == bytes::le32(s, 16)
        &&& self.s_first_data_block == bytes::le32(s, 20)
        &&& self.s_log_block_size == bytes::le32(s, 24)
        &&& self.s_blocks_per_group == bytes::le32(s, 32)
        &&& self.s_inodes_per_group == bytes::le32(s, 40)
        &&& self.s_magic == bytes::le16(s, 56)
        &&& self.s_state == bytes::le16(s, 58)
        &&& self.s_rev_level == bytes::le32(s, 64)
        &&& self.s_inode_size == bytes::le16(s, 88)
        &&& self.s_feature_compat == bytes::le32(s, 92)
        &&& self.s_feature_incompat == bytes::le32(s, 96)
        &&& self.s_feature_ro_compat == bytes::le32(s, 100)
        &&& self.s_uuid@ == s.subrange(104, 120)
        &&& self.s_volume_name@ == s.subrange(120, 136)
        &&& self.s_desc_size == bytes::le16(s, 254)
        &&& self.s_blocks_count_hi == bytes::le32(s, 336)
        &&& self.s_r_blocks_count_hi == bytes::le32(s, 340)
        &&& self.s_free_blocks_count_hi == bytes::le32(s, 344)
    }

    /// Read the fields out of `s`; `None` unless `s` is as long as a superblock.
    pub fn read_from(s: &[u8]) -> (r: Option<RawSuperblock>)
        ensures
            r is Some <==> s@.len() == 1024,
            r is Some ==> r->Some_0.reads(s@),
    {
        if s.len() != SUPERBLOCK_SIZE {
            return None;
        }
        Some(
            RawSuperblock {
                s_inodes_count: bytes::get_u32_le(s, 0),
                s_blocks_count_lo: bytes::get_u32_le(s, 4),
                s_r_blocks_count_lo: bytes::get_u32_le(s, 8),
                s_free_blocks_count_lo: bytes::get_u32_le(s, 12),
                s_free_inodes_count: bytes::get_u32_le(s, 16),
                s_first_data_block: bytes::get_u32_le(s, 20),
                s_log_block_size: bytes::get_u32_le(s, 24),
                s_blocks_per_group: bytes::get_u32_le(s, 32),
                s_inodes_per_group: bytes::get_u32_le(s, 40),
                s_magic: bytes::get_u16_le(s, 56),
                s_state: bytes::get_u16_le(s, 58),
                s_rev_level: bytes::get_u32_le(s, 64),
                s_inode_size: bytes::get_u16_le(s, 88),
                s_feature_compat: bytes::get_u32_le(s, 92),
                s_feature_incompat: bytes::get_u32_le(s, 96),
                s_feature_ro_compat: bytes::get_u32_le(s, 100),
                s_uuid: bytes::copy16(s, 104),
                s_volume_name: bytes::copy16(s, 120),
                s_desc_size: bytes::get_u16_le(s, 254),
                s_blocks_count_hi: bytes::get_u32_le(s, 336),
                s_r_blocks_count_hi: bytes::get_u32_le(s, 340),
                s_free_blocks_count_hi: bytes::get_u32_le(s, 344),
            },
        )
    }
}

/// What the driver keeps of the superblock.
#[derive(Debug, Clone)]
pub struct Superblock {
    pub block_size: u32,
    pub blocks_count: u64,
    pub inodes_count: u32,
    pub inodes_per_group: u32,
    pub blocks_per_group: u32,
    pub first_data_block: u32,
    pub uuid: [u8; 16],
    pub volume_name: String,
    pub desc_size: u16,
    pub feature_incompat: u32,
    pub feature_ro_compat: u32,
    pub inode_size: u16,
    pub state: u16,
}

/// The sizes an inode record can have.
pub open spec fn valid_inode_size(n: u16) -> bool {
    n == 128 || n == 256 || n == 512 || n == 1024
}

impl Superblock {
    /// The geometry that a parsed superblock has.
    pub open spec fn wf(&self) -> bool {
        &&& block_device::valid_block_size(self.block_size)
        &&& valid_inode_size(self.inode_size)
        &&& self.inodes_per_group > 0
        &&& self.blocks_per_group > 0
        &&& self.desc_size >= 32
    }

    /// Whether errors were recorded on the volume.
    pub fn state_has_error(&self) -> (r: bool)
        ensures
            r == (self.state & state::ERROR_FS != 0),
    {
        self.state & state::ERROR_FS != 0
    }

    /// Whether the volume was unmounted cleanly.
    pub fn was_cleanly_unmounted(&self) -> (r: bool)
        ensures
            r == (self.state & state::VALID_FS != 0),
    {
        self.state & state::VALID_FS != 0
    }
}

/// Why a superblock is refused.
#[derive(Debug)]
pub enum SuperblockError {
    /// Not an ext2/3/4 volume; the magic number found.
    BadMagic(u16),
    /// Features that cannot be handled.
    UnsupportedFeatures(u32),
    BlockDevice(BlockDeviceError),
    InvalidBuffer,
    /// The block size's exponent is over 6 (64 KiB blocks).
    InvalidBlockSize(u32),
    /// The inode size is not a power of two from 128 to 1024.
    InvalidInodeSize(u16),
    /// Inodes or blocks per group is zero.
    InvalidGeometry,
}

/// `1024 * 2^k`, for the exponents that are accepted.
pub open spec fn block_size_of(k: u32) -> u32 {
    if k == 0 {
        1024
    } else if k == 1 {
        2048
    } else if k == 2 {
        4096
    } else if k == 3 {
        8192
    } else if k == 4 {
        16384
    } else if k == 5 {
        32768
    } else {
        65536
    }
}

/// The size of an inode record: 128 on revision 0 and wherever a smaller one
/// is given.
pub open spec fn inode_size_of(s: Seq<u8>) -> u16 {
    if bytes::le32(s, 64) == 0 || bytes::le16(s, 88) < 128 {
        128
    } else {
        bytes::le16(s, 88)
    }
}

/// The bytes before the first zero byte.
pub open spec fn until_nul(s: Seq<u8>) -> Seq<u8>
    decreases s.len(),
{
    if s.len() == 0 || s[0] == 0 {
        Seq::empty()
    } else {
        seq![s[0]] + until_nul(s.skip(1))
    }
}

/// What is wrong with the superblock in the bytes `s`, if anything; of several
/// faults the first in this order.
pub open spec fn fault(s: Seq<u8>) -> Option<SuperblockError> {
    if bytes::le16(s, 56) != 0xEF53 {
        Some(SuperblockError::BadMagic(bytes::le16(s, 56)))
    } else if bytes::le32(s, 96) & incompat::UNSUPPORTED_MASK != 0 {
        Some(
            SuperblockError::UnsupportedFeatures(
                bytes::le32(s, 96) & incompat::UNSUPPORTED_MASK,
            ),
        )
    } else if bytes::le32(s, 24) > 6 {
        Some(SuperblockError::InvalidBlockSize(bytes::le32(s, 24)))
    } else if !valid_inode_size(inode_size_of(s)) {
        Some(SuperblockError::InvalidInodeSize(inode_size_of(s)))
    } else if bytes::le32(s, 40) == 0 || bytes::le32(s, 32) == 0 {
        Some(SuperblockError::InvalidGeometry)
    } else {
        None
    }
}

impl Superblock {
    /// Whether this is what the bytes `s` of an on-disk superblock say.
    pub open spec fn reads(&self, s: Seq<u8>) -> bool {
        &&& self.block_size == block_size_of(bytes::le32(s, 24))
        &&& self.blocks_count == bytes::le32(s, 336) * 0x1_0000_0000 + bytes::le32(s, 4)
        &&& self.inodes_count == bytes::le32(s, 0)
        &&& self.inodes_per_group == bytes::le32(s, 40)
        &&& self.blocks_per_group == bytes::le32(s, 32)
        &&& self.first_data_block == bytes::le32(s, 20)
        &&& self.uuid@ == s.subrange(104, 120)
        &&& self.volume_name@ == text::text_of(until_nul(s.subrange(120, 136)))
        &&& self.desc_size == (if bytes::le16(s, 254) < 32 {
            32
        } else {
            bytes::le16(s, 254)
        })
        &&& self.feature_incompat == bytes::le32(s, 96)
        &&& self.feature_ro_compat == bytes::le32(s, 100)
        &&& self.inode_size == inode_size_of(s)
        &&& self.state == bytes::le16(s, 58)
    }
}

fn nul_position(name: &[u8; 16]) -> (n: usize)
    ensures
        n <= 16,
        name@.take(n as int) == until_nul(name@),
{
    let mut n: usize = 0;
    assert(name@.skip(0) =~= name@);
    assert(name@.take(0) + until_nul(name@) =~= until_nul(name@));
    while n < 16 && name[n] != 0
        invariant
            n <= 16,
            until_nul(name@) == name@.take(n as int) + until_nul(name@.skip(n as int)),
        decreases 16 - n,
    {
        let ghost rest = name@.skip(n as int);
        assert(rest.skip(1) =~= name@.skip(n + 1));
        assert(until_nul(rest) == seq![rest[0]] + until_nul(rest.skip(1)));
        assert(until_nul(name@) =~= name@.take(n + 1) + until_nul(name@.skip(n + 1)));
        n = n + 1;
    }
    assert(until_nul(name@.skip(n as int)) =~= Seq::<u8>::empty());
    assert(until_nul(name@) =~= name@.take(n as int));
    n
}

/// Read and validate the superblock of `dev`. It lies at byte 1024, in the
/// sectors 2 and 3.
pub fn parse<D: BlockDevice>(dev: &D) -> (r: Result<Superblock, SuperblockError>)
    ensures
        r is Ok || dev.reliable() ==> match block_device::read_at(dev.bytes(), 2, 2) {
            Err(e) => r == Err::<Superblock, SuperblockError>(SuperblockError::BlockDevice(e)),
            Ok(s) => match fault(s) {
                Some(e) => r == Err::<Superblock, SuperblockError>(e),
                None => r is Ok && r->Ok_0.reads(s) && r->Ok_0.wf(),
            },
        },
        r is Ok ==> r->Ok_0.wf(),
{
    let raw_bytes = match block_device::read_sectors(dev, 2, 2) {
        Ok(b) => b,
        Err(e) => {
            return Err(SuperblockError::BlockDevice(e));
        },
    };
    let raw = match RawSuperblock::read_from(raw_bytes.as_slice()) {
        Some(raw) => raw,
        None => {
            return Err(SuperblockError::InvalidBuffer);
        },
    };
    if raw.s_magic != 0xEF53 {
        return Err(SuperblockError::BadMagic(raw.s_magic));
    }
    let unsupported: u32 = raw.s_feature_incompat & incompat::UNSUPPORTED_MASK;
    if unsupported != 0 {
        return Err(SuperblockError::UnsupportedFeatures(unsupported));
    }
    let log_block_size: u32 = raw.s_log_block_size;
    if log_block_size > 6 {
        return Err(SuperblockError::InvalidBlockSize(log_block_size));
    }
    let block_size: u32 = block_size_from_log(log_block_size);
    let blocks_count: u64 = raw.s_blocks_count_hi as u64 * 0x1_0000_0000
        + raw.s_blocks_count_lo as u64;
    let name_end: usize = nul_position(&raw.s_volume_name);
    let name = bytes::copy_range(raw.s_volume_name.as_slice(), 0, name_end);
    assert(name@ =~= until_nul(raw.s_volume_name@));
    let volume_name = text::from_utf8_lossy(name.as_slice());
    let mut desc_size: u16 = raw.s_desc_size;
    if desc_size < 32 {
        desc_size = 32;
    }
    let mut inode_size: u16 = 128;
    if raw.s_rev_level != 0 && raw.s_inode_size >= 128 {
        inode_size = raw.s_inode_size;
        if inode_size != 128 && inode_size != 256 && inode_size != 512 && inode_size != 1024 {
            return Err(SuperblockError::InvalidInodeSize(inode_size));
        }
    }
    if raw.s_inodes_per_group == 0 || raw.s_blocks_per_group == 0 {
        return Err(SuperblockError::InvalidGeometry);
    }
    Ok(
        Superblock {
            block_size,
            blocks_count,
            inodes_count: raw.s_inodes_count,
            inodes_per_group: raw.s_inodes_per_group,
            blocks_per_group: raw.s_blocks_per_group,
            first_data_block: raw.s_first_data_block,
            uuid: raw.s_uuid,
            volume_name,
            desc_size,
            feature_incompat: raw.s_feature_incompat,
            feature_ro_compat: raw.s_feature_ro_compat,
            inode_size,
            state: raw.s_state,
        },
    )
}

fn block_size_from_log(k: u32) -> (bs: u32)
    requires
        k <= 6,
    ensures
        bs == block_size_of(k),
{
    if k == 0 {
        1024
    } else if k == 1 {
        2048
    } else if k == 2 {
        4096
    } else if k == 3 {
        8192
    } else if k == 4 {
        16384
    } else if k == 5 {
        32768
    } else {
        65536
    }
}

} // verus!
