//! Inodes: reading the record of a file.
use vstd::prelude::*;
use crate::block_device;
use crate::block_device::{BlockDevice, BlockDeviceError};
use crate::bytes;
use crate::group_desc;
use crate::group_desc::{GroupDesc, GroupDescError, GroupDescTable};
use crate::journal::writer;
use crate::journal::writer::Transaction;
use crate::superblock::Superblock;

pub mod mode;

verus! {

/// Bytes of an inode record that the driver knows.
pub const RAW_INODE_SIZE: usize = 128;

/// An on-disk inode record. Each field stands at the offset given, little-endian.
#[derive(Debug, Clone, Copy)]
pub struct RawInode {
    /// 0
    pub i_mode: u16,
    /// 2
    pub i_uid: u16,
    /// 4
    pub i_size_lo: u32,
    /// 8
    pub i_atime: u32,
    /// 12
    pub i_ctime: u32,
    /// 16
    pub i_mtime: u32,
    /// 20
    pub i_dtime: u32,
    /// 24
    pub i_gid: u16,
    /// 26
    pub i_links_count: u16,
    /// 28
    pub i_blocks_lo: u32,
    /// 32
    pub i_flags: u32,
    /// 36
    pub osd1: u32,
    /// 40
    pub i_block: [u8; 60],
    /// 100
    pub i_generation: u32,
    /// 104
    pub i_file_acl_lo: u32,
    /// 108
    pub i_size_hi: u32,
    /// 112
    pub i_obso_faddr: u32,
    /// 116
    pub i_blocks_hi: u16,
    /// 118
    pub i_file_acl_hi: u16,
    /// 120
    pub i_uid_hi: u16,
    /// 122
    pub i_gid_hi: u16,
    /// 124
    pub i_checksum_lo: u16,
    /// 126
    pub i_reserved: u16,
}

impl RawInode {
    /// Whether each field is what the bytes `s` hold at its offset.
    pub open spec fn reads(&self, s: Seq<u8>) -> bool {
        &&& self.i_mode == bytes::le16(s, 0)
        &&& self.i_uid == bytes::le16(s, 2)
        &&& self.i_size_lo == bytes::le32(s, 4)
        &&& self.i_atime == bytes::le32(s, 8)
        &&& self.i_ctime == bytes::le32(s, 12)
        &&& self.i_mtime == bytes::le32(s, 16)
        &&& self.i_dtime == bytes::le32(s, 20)
        &&& self.i_gid == bytes::le16(s, 24)
        &&& self.i_links_count == bytes::le16(s, 26)
        &&& self.i_blocks_lo == bytes::le32(s, 28)
        &&& self.i_flags == bytes::le32(s, 32)
        &&& self.osd1 == bytes::le32(s, 36)
        &&& self.i_block@ == s.subrange(40, 100)
        &&& self.i_generation == bytes::le32(s, 100)
        &&& self.i_file_acl_lo == bytes::le32(s, 104)
        &&& self.i_size_hi == bytes::le32(s, 108)
        &&& self.i_obso_faddr == bytes::le32(s, 112)
        &&& self.i_blocks_hi == bytes::le16(s, 116)
        &&& self.i_file_acl_hi == bytes::le16(s, 118)
        &&& self.i_uid_hi == bytes::le16(s, 120)
        &&& self.i_gid_hi == bytes::le16(s, 122)
        &&& self.i_checksum_lo == bytes::le16(s, 124)
        &&& self.i_reserved == bytes::le16(s, 126)
    }

    /// Read a record out of `s`; `None` unless `s` is 128 bytes long.
    pub fn read_from(s: &[u8]) -> (r: Option<RawInode>)
        ensures
            r is Some <==> s@.len() == 128,
            r is Some ==> r->Some_0.reads(s@),
    {
        if s.len() != RAW_INODE_SIZE {
            return None;
        }
        Some(
            RawInode {
                i_mode: bytes::get_u16_le(s, 0),
                i_uid: bytes::get_u16_le(s, 2),
                i_size_lo: bytes::get_u32_le(s, 4),
                i_atime: bytes::get_u32_le(s, 8),
                i_ctime: bytes::get_u32_le(s, 12),
                i_mtime: bytes::get_u32_le(s, 16),
                i_dtime: bytes::get_u32_le(s, 20),
                i_gid: bytes::get_u16_le(s, 24),
                i_links_count: bytes::get_u16_le(s, 26),
                i_blocks_lo: bytes::get_u32_le(s, 28),
                i_flags: bytes::get_u32_le(s, 32),
                osd1: bytes::get_u32_le(s, 36),
                i_block: bytes::copy60(s, 40),
                i_generation: bytes::get_u32_le(s, 100),
                i_file_acl_lo: bytes::get_u32_le(s, 104),
                i_size_hi: bytes::get_u32_le(s, 108),
                i_obso_faddr: bytes::get_u32_le(s, 112),
                i_blocks_hi: bytes::get_u16_le(s, 116),
                i_file_acl_hi: bytes::get_u16_le(s, 118),
                i_uid_hi: bytes::get_u16_le(s, 120),
                i_gid_hi: bytes::get_u16_le(s, 122),
                i_checksum_lo: bytes::get_u16_le(s, 124),
                i_reserved: bytes::get_u16_le(s, 126),
            },
        )
    }
}

#[derive(Debug, Clone, Copy, PartialEq, Eq, Structural)]
pub enum FileType {
    Regular,
    Directory,
    Symlink,
    Other,
}

/// The type that the mode's upper bits say.
pub open spec fn file_type_of(mode: u16) -> FileType {
    let t = mode & mode::S_IFMT;
    if t == mode::S_IFREG {
        FileType::Regular
    } else if t == mode::S_IFDIR {
        FileType::Directory
    } else if t == mode::S_IFLNK {
        FileType::Symlink
    } else {
        FileType::Other
    }
}

/// What the driver keeps of an inode record.
#[derive(Debug, Clone, Copy)]
pub struct Inode {
    pub mode: u16,
    pub uid: u32,
    pub gid: u32,
    pub size: u64,
    pub atime: u32,
    pub mtime: u32,
    pub ctime: u32,
    pub links_count: u16,
    pub flags: u32,
    pub block_data: [u8; 60],
}

/// An inode as a value.
#[verifier::ext_equal]
pub struct InodeView {
    pub mode: u16,
    pub uid: u32,
    pub gid: u32,
    pub size: u64,
    pub atime: u32,
    pub mtime: u32,
    pub ctime: u32,
    pub links_count: u16,
    pub flags: u32,
    pub block_data: Seq<u8>,
}

impl View for Inode {
    type V = InodeView;

    open spec fn view(&self) -> InodeView {
        InodeView {
            mode: self.mode,
            uid: self.uid,
            gid: self.gid,
            size: self.size,
            atime: self.atime,
            mtime: self.mtime,
            ctime: self.ctime,
            links_count: self.links_count,
            flags: self.flags,
            block_data: self.block_data@,
        }
    }
}

/// Flag of an inode whose block field holds an extent tree.
pub const EXTENTS_FL: u32 = 0x80000;

impl InodeView {
    pub open spec fn is_dir(self) -> bool {
        file_type_of(self.mode) is Directory
    }

    pub open spec fn is_file(self) -> bool {
        file_type_of(self.mode) is Regular
    }

    pub open spec fn is_symlink(self) -> bool {
        file_type_of(self.mode) is Symlink
    }

    pub open spec fn uses_extents(self) -> bool {
        self.flags & EXTENTS_FL != 0
    }
}

impl Inode {
    pub fn file_type(&self) -> (t: FileType)
        ensures
            t == file_type_of(self.mode),
    {
        let t: u16 = self.mode & mode::S_IFMT;
        if t == mode::S_IFREG {
            FileType::Regular
        } else if t == mode::S_IFDIR {
            FileType::Directory
        } else if t == mode::S_IFLNK {
            FileType::Symlink
        } else {
            FileType::Other
        }
    }

    pub fn is_dir(&self) -> (r: bool)
        ensures
            r == self@.is_dir(),
    {
        self.file_type() == FileType::Directory
    }

    pub fn is_file(&self) -> (r: bool)
        ensures
            r == self@.is_file(),
    {
        self.file_type() == FileType::Regular
    }

    pub fn is_symlink(&self) -> (r: bool)
        ensures
            r == self@.is_symlink(),
    {
        self.file_type() == FileType::Symlink
    }

    pub fn uses_extents(&self) -> (r: bool)
        ensures
            r == self@.uses_extents(),
    {
        self.flags & EXTENTS_FL != 0
    }
}

/// Why an inode cannot be read.
#[derive(Debug)]
pub enum InodeError {
    /// The inode asked for, and the largest there is.
    OutOfRange(u32, u32),
    /// The inode carries a deletion time.
    Deleted(u32),
    BlockDevice(BlockDeviceError),
    GroupDesc(GroupDescError),
    InvalidBuffer,
}

/// The inode in the record `rec`.
pub open spec fn inode_of(rec: Seq<u8>) -> InodeView {
    InodeView {
        mode: bytes::le16(rec, 0),
        uid: group_desc::join16(bytes::le16(rec, 2), bytes::le16(rec, 120)),
        gid: group_desc::join16(bytes::le16(rec, 24), bytes::le16(rec, 122)),
        size: group_desc::join32(bytes::le32(rec, 4), bytes::le32(rec, 108)),
        atime: bytes::le32(rec, 8),
        mtime: bytes::le32(rec, 16),
        ctime: bytes::le32(rec, 12),
        links_count: bytes::le16(rec, 26),
        flags: bytes::le32(rec, 32),
        block_data: rec.subrange(40, 100),
    }
}

/// The inode in the record `rec`, unless it was deleted.
pub open spec fn live_inode(rec: Seq<u8>, num: u32) -> Result<InodeView, InodeError> {
    if bytes::le32(rec, 20) != 0 {
        Err(InodeError::Deleted(num))
    } else {
        Ok(inode_of(rec))
    }
}

/// Whether the volume has an inode of this number.
pub open spec fn inode_in_range(sb: Superblock, num: u32) -> bool {
    0 < num <= sb.inodes_count
}

/// The group that holds inode `num`.
pub open spec fn group_of(sb: Superblock, num: u32) -> int {
    (num - 1) / (sb.inodes_per_group as int)
}

/// The place of inode `num` in its group.
pub open spec fn index_of(sb: Superblock, num: u32) -> int {
    (num - 1) % (sb.inodes_per_group as int)
}

pub open spec fn inodes_per_block(sb: Superblock) -> int {
    sb.block_size as int / sb.inode_size as int
}

/// The block that holds the record of inode `num`, in the group `d`.
pub open spec fn slot_block(sb: Superblock, d: GroupDesc, num: u32) -> u64 {
    bytes::sat64(d.inode_table + index_of(sb, num) / inodes_per_block(sb))
}

/// Where in that block the record starts.
pub open spec fn slot_offset(sb: Superblock, num: u32) -> int {
    (index_of(sb, num) % inodes_per_block(sb)) * sb.inode_size
}

/// First byte of the record of inode `num` on the device.
pub open spec fn slot_byte(sb: Superblock, d: GroupDesc, num: u32) -> int {
    d.inode_table * sb.block_size + index_of(sb, num) * sb.inode_size
}

/// What reading the record at byte `at` gives.
pub open spec fn record_at(disk: Seq<u8>, sb: Superblock, at: int) -> Result<
    Seq<u8>,
    BlockDeviceError,
> {
    if at > u64::MAX {
        Err(block_device::out_of_range(disk, u64::MAX as int))
    } else {
        match block_device::read_at(
            disk,
            at / 512,
            bytes::ceil_div(at % 512 + sb.inode_size, 512),
        ) {
            Err(e) => Err(e),
            Ok(s) => Ok(s.subrange(at % 512, at % 512 + 128)),
        }
    }
}

/// What reading inode `num` from `disk` gives.
pub open spec fn inode_at(disk: Seq<u8>, sb: Superblock, gdt: Seq<GroupDesc>, num: u32) -> Result<
    InodeView,
    InodeError,
> {
    if !inode_in_range(sb, num) {
        Err(InodeError::OutOfRange(num, sb.inodes_count))
    } else {
        match group_desc::desc_at(gdt, group_of(sb, num)) {
            Err(e) => Err(InodeError::GroupDesc(e)),
            Ok(d) => match record_at(disk, sb, slot_byte(sb, d, num)) {
                Err(e) => Err(InodeError::BlockDevice(e)),
                Ok(rec) => live_inode(rec, num),
            },
        }
    }
}

/// What reading inode `num` gives inside a transaction: a pinned table block
/// stands for the one on disk.
pub open spec fn inode_in_txn(
    disk: Seq<u8>,
    sb: Superblock,
    gdt: Seq<GroupDesc>,
    pins: Seq<(u64, Seq<u8>)>,
    num: u32,
) -> Result<InodeView, InodeError> {
    if !inode_in_range(sb, num) {
        Err(InodeError::OutOfRange(num, sb.inodes_count))
    } else {
        match group_desc::desc_at(gdt, group_of(sb, num)) {
            Err(e) => Err(InodeError::GroupDesc(e)),
            Ok(d) => match writer::pinned(pins, slot_block(sb, d, num)) {
                Some(b) if b.len() == sb.block_size => live_inode(
                    b.subrange(slot_offset(sb, num), slot_offset(sb, num) + 128),
                    num,
                ),
                _ => inode_at(disk, sb, gdt, num),
            },
        }
    }
}

pub open spec fn inode_result<E>(r: Result<Inode, E>) -> Result<InodeView, E> {
    match r {
        Ok(i) => Ok(i@),
        Err(e) => Err(e),
    }
}

/// A record ends inside its block.
pub proof fn lemma_slot_offset(sb: Superblock, num: u32)
    requires
        sb.wf(),
        num > 0,
    ensures
        0 <= slot_offset(sb, num),
        slot_offset(sb, num) + sb.inode_size <= sb.block_size,
        inodes_per_block(sb) > 0,
        0 <= index_of(sb, num) < sb.inodes_per_group,
        index_of(sb, num) < num,
{
    let k = inodes_per_block(sb);
    let n = sb.inode_size as int;
    let i = index_of(sb, num);
    assert(k * n == sb.block_size && k > 0) by {
        let bs = sb.block_size;
        assert((bs as int / 128) * 128 == bs && (bs as int / 256) * 256 == bs && (bs as int / 512)
            * 512 == bs && (bs as int / 1024) * 1024 == bs);
    }
    assert(0 <= i % k < k) by (nonlinear_arith)
        requires
            k > 0,
    ;
    assert(0 <= (i % k) * n && (i % k) * n + n <= k * n) by (nonlinear_arith)
        requires
            0 <= i % k < k,
            n > 0,
    ;
    vstd::arithmetic::div_mod::lemma_mod_bound(num - 1, sb.inodes_per_group as int);
    vstd::arithmetic::div_mod::lemma_mod_decreases((num - 1) as nat, sb.inodes_per_group as nat);
}

/// The block and the offset in it of the record of inode `num`.
pub(crate) fn slot(sb: &Superblock, desc: &GroupDesc, num: u32) -> (r: (u64, usize))
    requires
        sb.wf(),
        num > 0,
    ensures
        r.0 == slot_block(*sb, *desc, num),
        r.1 == slot_offset(*sb, num),
        r.1 + sb.inode_size <= sb.block_size,
{
    proof {
        lemma_slot_offset(*sb, num);
    }
    let index: u32 = (num - 1) % sb.inodes_per_group;
    let per_block: u32 = sb.block_size / sb.inode_size as u32;
    let block: u64 = desc.inode_table.saturating_add((index / per_block) as u64);
    let offset: usize = (index % per_block) as usize * sb.inode_size as usize;
    (block, offset)
}

/// Load inode `inode_num` (the first is 1) from the volume.
pub fn read_inode<D: BlockDevice>(
    dev: &D,
    sb: &Superblock,
    gdt: &GroupDescTable,
    inode_num: u32,
) -> (r: Result<Inode, InodeError>)
    requires
        sb.wf(),
    ensures
        r is Ok || dev.reliable() ==> inode_result(r) == inode_at(
            dev.bytes(),
            *sb,
            gdt@,
            inode_num,
        ),
{
    if inode_num == 0 || inode_num > sb.inodes_count {
        return Err(InodeError::OutOfRange(inode_num, sb.inodes_count));
    }
    let group: u32 = (inode_num - 1) / sb.inodes_per_group;
    let index: u32 = (inode_num - 1) % sb.inodes_per_group;
    let desc = match gdt.get(group as usize) {
        Ok(d) => *d,
        Err(e) => {
            return Err(InodeError::GroupDesc(e));
        },
    };
    let inode_size: u64 = sb.inode_size as u64;
    assert(index * inode_size <= 0xffff_ffff * 1024) by (nonlinear_arith)
        requires
            index <= 0xffff_ffff,
            inode_size <= 1024,
    ;
    let offset_in_table: u64 = index as u64 * inode_size;
    let ghost at = slot_byte(*sb, desc, inode_num);
    assert(desc.inode_table * sb.block_size >= 0) by (nonlinear_arith);
    let table_byte: u64 = match desc.inode_table.checked_mul(sb.block_size as u64) {
        Some(b) => b,
        None => {
            return Err(
                InodeError::BlockDevice(
                    BlockDeviceError::OutOfRange(u64::MAX, dev.sector_count()),
                ),
            );
        },
    };
    let byte_offset: u64 = match table_byte.checked_add(offset_in_table) {
        Some(b) => b,
        None => {
            return Err(
                InodeError::BlockDevice(
                    BlockDeviceError::OutOfRange(u64::MAX, dev.sector_count()),
                ),
            );
        },
    };
    assert(byte_offset == at);
    let start_sector: u64 = byte_offset / 512;
    let offset: usize = (byte_offset % 512) as usize;
    let sectors_needed: u64 = bytes::div_ceil(offset as u64 + inode_size, 512);
    let raw_bytes = match block_device::read_sectors(dev, start_sector, sectors_needed) {
        Ok(b) => b,
        Err(e) => {
            return Err(InodeError::BlockDevice(e));
        },
    };
    let rec = bytes::copy_range(raw_bytes.as_slice(), offset, offset + RAW_INODE_SIZE);
    parse_record(rec.as_slice(), inode_num)
}

/// Load inode `inode_num`, but from the bytes pinned in `txn` where its table
/// block is pinned there. This is the way to read an inode that the running
/// transaction may have changed.
pub fn read_inode_with_txn<D: BlockDevice>(
    dev: &D,
    sb: &Superblock,
    gdt: &GroupDescTable,
    txn: &Transaction,
    inode_num: u32,
) -> (r: Result<Inode, InodeError>)
    requires
        sb.wf(),
    ensures
        r is Ok || dev.reliable() ==> inode_result(r) == inode_in_txn(
            dev.bytes(),
            *sb,
            gdt@,
            txn@.blocks,
            inode_num,
        ),
{
    if inode_num == 0 || inode_num > sb.inodes_count {
        return Err(InodeError::OutOfRange(inode_num, sb.inodes_count));
    }
    let group: u32 = (inode_num - 1) / sb.inodes_per_group;
    let desc = match gdt.get(group as usize) {
        Ok(d) => *d,
        Err(e) => {
            return Err(InodeError::GroupDesc(e));
        },
    };
    let (block, offset) = slot(sb, &desc, inode_num);
    match txn.pinned_copy(block, sb.block_size) {
        Some(data) => {
            let rec = bytes::copy_range(data.as_slice(), offset, offset + RAW_INODE_SIZE);
            parse_record(rec.as_slice(), inode_num)
        },
        None => read_inode(dev, sb, gdt, inode_num),
    }
}

fn parse_record(rec: &[u8], inode_num: u32) -> (r: Result<Inode, InodeError>)
    requires
        rec@.len() == 128,
    ensures
        inode_result(r) == live_inode(rec@, inode_num),
{
    match RawInode::read_from(rec) {
        None => Err(InodeError::InvalidBuffer),
        Some(raw) => {
            if raw.i_dtime != 0 {
                return Err(InodeError::Deleted(inode_num));
            }
            let i = Inode {
                mode: raw.i_mode,
                uid: raw.i_uid as u32 + 0x1_0000 * raw.i_uid_hi as u32,
                gid: raw.i_gid as u32 + 0x1_0000 * raw.i_gid_hi as u32,
                size: raw.i_size_lo as u64 + 0x1_0000_0000 * raw.i_size_hi as u64,
                atime: raw.i_atime,
                mtime: raw.i_mtime,
                ctime: raw.i_ctime,
                links_count: raw.i_links_count,
                flags: raw.i_flags,
                block_data: raw.i_block,
            };
            assert(i@ =~= inode_of(rec@));
            Ok(i)
        },
    }
}

} // verus!
