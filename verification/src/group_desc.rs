//! The group descriptor table: where each block group keeps its bitmaps and inodes.
use vstd::prelude::*;
use crate::block_device;
use crate::block_device::{BlockDevice, BlockDeviceError};
use crate::bytes;
use crate::superblock::ro_compat;
use crate::superblock::Superblock;

verus! {

/// An on-disk group descriptor. Each field stands at the offset given,
/// little-endian. Descriptors of 32 bytes end before the `_hi` fields, which
/// are zero.
#[derive(Debug, Clone, Copy)]
pub struct RawGroupDesc {
    /// 0
    pub bg_block_bitmap_lo: u32,
    /// 4
    pub bg_inode_bitmap_lo: u32,
    /// 8
    pub bg_inode_table_lo: u32,
    /// 12
    pub bg_free_blocks_count_lo: u16,
    /// 14
    pub bg_free_inodes_count_lo: u16,
    /// 16
    pub bg_used_dirs_count_lo: u16,
    /// 18
    pub bg_flags: u16,
    /// 20
    pub bg_exclude_bitmap_lo: u32,
    /// 24
    pub bg_block_bitmap_csum_lo: u16,
    /// 26
    pub bg_inode_bitmap_csum_lo: u16,
    /// 28
    pub bg_itable_unused_lo: u16,
    /// 30
    pub bg_checksum: u16,
    /// 32
    pub bg_block_bitmap_hi: u32,
    /// 36
    pub bg_inode_bitmap_hi: u32,
    /// 40
    pub bg_inode_table_hi: u32,
    /// 44
    pub bg_free_blocks_count_hi: u16,
    /// 46
    pub bg_free_inodes_count_hi: u16,
    /// 48
    pub bg_used_dirs_count_hi: u16,
    /// 50
    pub bg_itable_unused_hi: u16,
    /// 52
    pub bg_exclude_bitmap_hi: u32,
    /// 56
    pub bg_block_bitmap_csum_hi: u16,
    /// 58
    pub bg_inode_bitmap_csum_hi: u16,
}

/// The descriptor in the 64 bytes `s`.
pub open spec fn raw_desc(s: Seq<u8>) -> RawGroupDesc {
    RawGroupDesc {
        bg_block_bitmap_lo: bytes::le32(s, 0),
        bg_inode_bitmap_lo: bytes::le32(s, 4),
        bg_inode_table_lo: bytes::le32(s, 8),
        bg_free_blocks_count_lo: bytes::le16(s, 12),
        bg_free_inodes_count_lo: bytes::le16(s, 14),
        bg_used_dirs_count_lo: bytes::le16(s, 16),
        bg_flags: bytes::le16(s, 18),
        bg_exclude_bitmap_lo: bytes::le32(s, 20),
        bg_block_bitmap_csum_lo: bytes::le16(s, 24),
        bg_inode_bitmap_csum_lo: bytes::le16(s, 26),
        bg_itable_unused_lo: bytes::le16(s, 28),
        bg_checksum: bytes::le16(s, 30),
        bg_block_bitmap_hi: bytes::le32(s, 32),
        bg_inode_bitmap_hi: bytes::le32(s, 36),
        bg_inode_table_hi: bytes::le32(s, 40),
        bg_free_blocks_count_hi: bytes::le16(s, 44),
        bg_free_inodes_count_hi: bytes::le16(s, 46),
        bg_used_dirs_count_hi: bytes::le16(s, 48),
        bg_itable_unused_hi: bytes::le16(s, 50),
        bg_exclude_bitmap_hi: bytes::le32(s, 52),
        bg_block_bitmap_csum_hi: bytes::le16(s, 56),
        bg_inode_bitmap_csum_hi: bytes::le16(s, 58),
    }
}

impl RawGroupDesc {
    /// Read a descriptor out of `s`; `None` unless `s` is 64 bytes long.
    pub fn read_from(s: &[u8]) -> (r: Option<RawGroupDesc>)
        ensures
            r == (if s@.len() == 64 {
                Some(raw_desc(s@))
            } else {
                None
            }),
    {
        if s.len() != 64 {
            return None;
        }
        Some(
            RawGroupDesc {
                bg_block_bitmap_lo: bytes::get_u32_le(s, 0),
                bg_inode_bitmap_lo: bytes::get_u32_le(s, 4),
                bg_inode_table_lo: bytes::get_u32_le(s, 8),
                bg_free_blocks_count_lo: bytes::get_u16_le(s, 12),
                bg_free_inodes_count_lo: bytes::get_u16_le(s, 14),
                bg_used_dirs_count_lo: bytes::get_u16_le(s, 16),
                bg_flags: bytes::get_u16_le(s, 18),
                bg_exclude_bitmap_lo: bytes::get_u32_le(s, 20),
                bg_block_bitmap_csum_lo: bytes::get_u16_le(s, 24),
                bg_inode_bitmap_csum_lo: bytes::get_u16_le(s, 26),
                bg_itable_unused_lo: bytes::get_u16_le(s, 28),
                bg_checksum: bytes::get_u16_le(s, 30),
                bg_block_bitmap_hi: bytes::get_u32_le(s, 32),
                bg_inode_bitmap_hi: bytes::get_u32_le(s, 36),
                bg_inode_table_hi: bytes::get_u32_le(s, 40),
                bg_free_blocks_count_hi: bytes::get_u16_le(s, 44),
                bg_free_inodes_count_hi: bytes::get_u16_le(s, 46),
                bg_used_dirs_count_hi: bytes::get_u16_le(s, 48),
                bg_itable_unused_hi: bytes::get_u16_le(s, 50),
                bg_exclude_bitmap_hi: bytes::get_u32_le(s, 52),
                bg_block_bitmap_csum_hi: bytes::get_u16_le(s, 56),
                bg_inode_bitmap_csum_hi: bytes::get_u16_le(s, 58),
            },
        )
    }
}

/// What the driver keeps of a group descriptor.
#[derive(Debug, Clone, Copy)]
pub struct GroupDesc {
    /// Block that holds the block bitmap.
    pub block_bitmap: u64,
    /// Block that holds the inode bitmap.
    pub inode_bitmap: u64,
    /// First block of the inode table.
    pub inode_table: u64,
    pub free_blocks_count: u32,
    pub free_inodes_count: u32,
    /// Inodes at the end of the table that were never used.
    pub itable_unused: u32,
}

pub open spec fn join32(lo: u32, hi: u32) -> u64 {
    (hi * 0x1_0000_0000 + lo) as u64
}

pub open spec fn join16(lo: u16, hi: u16) -> u32 {
    (hi * 0x1_0000 + lo) as u32
}

/// The descriptor that `raw` stands for; the high halves count only where the
/// descriptor is long enough to have them.
pub open spec fn desc_of(raw: RawGroupDesc, desc_size: u16) -> GroupDesc {
    let wide = desc_size >= 64;
    GroupDesc {
        block_bitmap: join32(raw.bg_block_bitmap_lo, if wide { raw.bg_block_bitmap_hi } else { 0 }),
        inode_bitmap: join32(raw.bg_inode_bitmap_lo, if wide { raw.bg_inode_bitmap_hi } else { 0 }),
        inode_table: join32(raw.bg_inode_table_lo, if wide { raw.bg_inode_table_hi } else { 0 }),
        free_blocks_count: join16(
            raw.bg_free_blocks_count_lo,
            if wide { raw.bg_free_blocks_count_hi } else { 0 },
        ),
        free_inodes_count: join16(
            raw.bg_free_inodes_count_lo,
            if wide { raw.bg_free_inodes_count_hi } else { 0 },
        ),
        itable_unused: join16(
            raw.bg_itable_unused_lo,
            if wide { raw.bg_itable_unused_hi } else { 0 },
        ),
    }
}

fn combine32(lo: u32, hi: u32) -> (r: u64)
    ensures
        r == join32(lo, hi),
{
    hi as u64 * 0x1_0000_0000 + lo as u64
}

fn combine16(lo: u16, hi: u16) -> (r: u32)
    ensures
        r == join16(lo, hi),
{
    hi as u32 * 0x1_0000 + lo as u32
}

impl GroupDesc {
    fn from_raw(raw: &RawGroupDesc, desc_size: u16) -> (r: GroupDesc)
        ensures
            r == desc_of(*raw, desc_size),
    {
        if desc_size >= 64 {
            GroupDesc {
                block_bitmap: combine32(raw.bg_block_bitmap_lo, raw.bg_block_bitmap_hi),
                inode_bitmap: combine32(raw.bg_inode_bitmap_lo, raw.bg_inode_bitmap_hi),
                inode_table: combine32(raw.bg_inode_table_lo, raw.bg_inode_table_hi),
                free_blocks_count: combine16(
                    raw.bg_free_blocks_count_lo,
                    raw.bg_free_blocks_count_hi,
                ),
                free_inodes_count: combine16(
                    raw.bg_free_inodes_count_lo,
                    raw.bg_free_inodes_count_hi,
                ),
                itable_unused: combine16(raw.bg_itable_unused_lo, raw.bg_itable_unused_hi),
            }
        } else {
            GroupDesc {
                block_bitmap: combine32(raw.bg_block_bitmap_lo, 0),
                inode_bitmap: combine32(raw.bg_inode_bitmap_lo, 0),
                inode_table: combine32(raw.bg_inode_table_lo, 0),
                free_blocks_count: combine16(raw.bg_free_blocks_count_lo, 0),
                free_inodes_count: combine16(raw.bg_free_inodes_count_lo, 0),
                itable_unused: combine16(raw.bg_itable_unused_lo, 0),
            }
        }
    }
}

/// What can go wrong with the group descriptors.
#[derive(Debug)]
pub enum GroupDescError {
    /// The group asked for, and the number of groups there are.
    OutOfRange(usize, usize),
    InvalidInode(u32),
    BlockDevice(BlockDeviceError),
    InvalidBuffer,
    /// More groups than any sane volume has.
    TooManyGroups(u64),
    TableSizeOverflow,
}

/// All group descriptors of a volume.
#[derive(Debug, Clone)]
pub struct GroupDescTable {
    groups: Vec<GroupDesc>,
}

impl View for GroupDescTable {
    type V = Seq<GroupDesc>;

    closed spec fn view(&self) -> Seq<GroupDesc> {
        self.groups@
    }
}

/// The most groups that a volume may have.
pub const MAX_GROUPS: u64 = 0x20_0000;

/// How many groups the volume has.
pub open spec fn group_total(sb: Superblock) -> Result<u64, GroupDescError> {
    let n = bytes::ceil_div(sb.blocks_count as int, sb.blocks_per_group as int);
    if sb.blocks_per_group == 0 {
        Err(GroupDescError::TooManyGroups(0))
    } else if n > MAX_GROUPS {
        Err(GroupDescError::TooManyGroups(n as u64))
    } else {
        Ok(n as u64)
    }
}

/// The 64 bytes of descriptor `i` in the table `s`, zero past its size.
pub open spec fn desc_bytes(s: Seq<u8>, desc_size: u16, i: int) -> Seq<u8> {
    Seq::new(64, |j: int| if j < desc_size { s[i * desc_size + j] } else { 0u8 })
}

/// The table in the bytes `s`.
pub open spec fn table_of(s: Seq<u8>, sb: Superblock, n: int) -> Seq<GroupDesc> {
    Seq::new(
        n as nat,
        |i: int| desc_of(raw_desc(desc_bytes(s, sb.desc_size, i)), sb.desc_size),
    )
}

/// First sector of the table: it starts in the block after the superblock's.
pub open spec fn table_start(sb: Superblock) -> int {
    (sb.first_data_block + 1) * (sb.block_size as int / 512)
}

/// The sectors that hold `n` descriptors.
pub open spec fn table_sectors(sb: Superblock, n: int) -> int {
    bytes::ceil_div(n * sb.desc_size, 512)
}

/// What loading the table from `disk` gives.
pub open spec fn loaded(disk: Seq<u8>, sb: Superblock) -> Result<Seq<GroupDesc>, GroupDescError> {
    match group_total(sb) {
        Err(e) => Err(e),
        Ok(n) => match block_device::read_at(disk, table_start(sb), table_sectors(sb, n as int)) {
            Err(e) => Err(GroupDescError::BlockDevice(e)),
            Ok(s) => Ok(table_of(s, sb, n as int)),
        },
    }
}

/// A group's descriptor, or the error for a group that is not there.
pub open spec fn desc_at(gdt: Seq<GroupDesc>, i: int) -> Result<GroupDesc, GroupDescError> {
    if 0 <= i < gdt.len() {
        Ok(gdt[i])
    } else {
        Err(GroupDescError::OutOfRange(i as usize, gdt.len() as usize))
    }
}

/// A count that was changed by `delta`, never below zero.
pub open spec fn adjusted(count: u32, delta: int) -> u32 {
    if count + delta < 0 {
        0
    } else {
        (count + delta) as u32
    }
}

pub open spec fn with_free_blocks(gdt: Seq<GroupDesc>, i: int, delta: int) -> Seq<GroupDesc> {
    gdt.update(
        i,
        GroupDesc { free_blocks_count: adjusted(gdt[i].free_blocks_count, delta), ..gdt[i] },
    )
}

pub open spec fn with_free_inodes(gdt: Seq<GroupDesc>, i: int, delta: int) -> Seq<GroupDesc> {
    gdt.update(
        i,
        GroupDesc { free_inodes_count: adjusted(gdt[i].free_inodes_count, delta), ..gdt[i] },
    )
}

/// Whether the counts of a volume's groups are written back. Descriptors with
/// checksums are left alone.
pub open spec fn keeps_counts(sb: Superblock) -> bool {
    &&& sb.desc_size >= 32
    &&& sb.feature_ro_compat & ro_compat::GDT_CSUM == 0
    &&& sb.feature_ro_compat & ro_compat::METADATA_CSUM == 0
}

/// The descriptor at byte `off` of `s` with the counts of `d`; the high halves go in
/// only where the descriptor is long enough to have them.
pub open spec fn with_counts(s: Seq<u8>, desc_size: u16, off: int, d: GroupDesc) -> Seq<u8> {
    let blocks = d.free_blocks_count;
    let inodes = d.free_inodes_count;
    let s1 = bytes::put(s, off + 12, bytes::le16_bytes((blocks % 0x1_0000) as u16));
    let s2 = bytes::put(s1, off + 14, bytes::le16_bytes((inodes % 0x1_0000) as u16));
    if desc_size >= 64 {
        let s3 = bytes::put(s2, off + 44, bytes::le16_bytes((blocks / 0x1_0000) as u16));
        bytes::put(s3, off + 46, bytes::le16_bytes((inodes / 0x1_0000) as u16))
    } else {
        s2
    }
}

/// The count of directories in the descriptor at byte `off` of `s`.
pub open spec fn dirs_at(s: Seq<u8>, desc_size: u16, off: int) -> u32 {
    join16(
        bytes::le16(s, off + 16),
        if desc_size >= 64 {
            bytes::le16(s, off + 48)
        } else {
            0
        },
    )
}

/// A count of directories that was changed by `delta`: never below zero, and never
/// over 32 bits.
pub open spec fn dirs_after(count: u32, delta: int) -> u32 {
    if count + delta < 0 {
        0
    } else if count + delta > u32::MAX {
        u32::MAX
    } else {
        (count + delta) as u32
    }
}

/// The descriptor at byte `off` of `s` with another count of directories.
pub open spec fn with_dirs(s: Seq<u8>, desc_size: u16, off: int, n: u32) -> Seq<u8> {
    let s1 = bytes::put(s, off + 16, bytes::le16_bytes((n % 0x1_0000) as u16));
    if desc_size >= 64 {
        bytes::put(s1, off + 48, bytes::le16_bytes((n / 0x1_0000) as u16))
    } else {
        s1
    }
}

/// Where in its block the descriptor of `group` lies.
pub open spec fn desc_offset(sb: Superblock, group: int) -> int {
    (group * sb.desc_size) % (sb.block_size as int)
}

/// A block `b` of the table with the counts of `d` in the descriptor of `group`, and
/// with the directories there changed by `dirs`.
pub open spec fn described(
    b: Seq<u8>,
    sb: Superblock,
    group: int,
    d: GroupDesc,
    dirs: int,
) -> Seq<u8> {
    let off = desc_offset(sb, group);
    if !keeps_counts(sb) || off + sb.desc_size > b.len() {
        b
    } else {
        let s = with_counts(b, sb.desc_size, off, d);
        if dirs == 0 {
            s
        } else {
            with_dirs(s, sb.desc_size, off, dirs_after(dirs_at(b, sb.desc_size, off), dirs))
        }
    }
}

/// What was described has the length that it had.
pub broadcast proof fn lemma_described_len(
    b: Seq<u8>,
    sb: Superblock,
    group: int,
    d: GroupDesc,
    dirs: int,
)
    ensures
        (#[trigger] described(b, sb, group, d, dirs)).len() == b.len(),
{
    broadcast use crate::bytes::group_codec;

}

/// Describing a group twice keeps the last counts.
pub proof fn lemma_described_twice(
    b: Seq<u8>,
    sb: Superblock,
    group: int,
    d: GroupDesc,
    e: GroupDesc,
)
    requires
        sb.wf(),
        group >= 0,
    ensures
        described(described(b, sb, group, d, 0), sb, group, e, 0) == described(b, sb, group, e, 0),
{
    broadcast use crate::bytes::group_codec;

    assert(group * sb.desc_size >= 0) by (nonlinear_arith)
        requires
            group >= 0,
    ;
    let x = described(described(b, sb, group, d, 0), sb, group, e, 0);
    let y = described(b, sb, group, e, 0);
    assert(x =~= y);
}

/// Write the counts of `d` into the descriptor of `group`, which lies in `block`, and
/// change the directories there by `dirs`.
pub(crate) fn describe(block: &mut Vec<u8>, sb: &Superblock, group: usize, d: &GroupDesc, dirs: i8)
    requires
        sb.wf(),
        old(block)@.len() == sb.block_size,
    ensures
        final(block)@ == described(old(block)@, *sb, group as int, *d, dirs as int),
        final(block)@.len() == sb.block_size,
{
    broadcast use crate::bytes::group_codec;

    if sb.feature_ro_compat & ro_compat::GDT_CSUM != 0 || sb.feature_ro_compat
        & ro_compat::METADATA_CSUM != 0 {
        return;
    }
    assert(0 <= group * sb.desc_size <= 0xffff_ffff_ffff_ffff * 0xffff) by (nonlinear_arith)
        requires
            group <= 0xffff_ffff_ffff_ffff,
            sb.desc_size <= 0xffff,
    ;
    let off: usize = (group as u128 * sb.desc_size as u128 % sb.block_size as u128) as usize;
    if sb.desc_size as usize > block.len() - off {
        return;
    }
    let wide: bool = sb.desc_size >= 64;
    let was: u32 = combine16(
        bytes::get_u16_le(block.as_slice(), off + 16),
        if wide {
            bytes::get_u16_le(block.as_slice(), off + 48)
        } else {
            0
        },
    );
    bytes::put_u16_le(block, off + 12, (d.free_blocks_count % 0x1_0000) as u16);
    bytes::put_u16_le(block, off + 14, (d.free_inodes_count % 0x1_0000) as u16);
    if wide {
        bytes::put_u16_le(block, off + 44, (d.free_blocks_count / 0x1_0000) as u16);
        bytes::put_u16_le(block, off + 46, (d.free_inodes_count / 0x1_0000) as u16);
    }
    if dirs != 0 {
        let sum: i64 = was as i64 + dirs as i64;
        let n: u32 = if sum < 0 {
            0
        } else if sum > u32::MAX as i64 {
            u32::MAX
        } else {
            sum as u32
        };
        bytes::put_u16_le(block, off + 16, (n % 0x1_0000) as u16);
        if wide {
            bytes::put_u16_le(block, off + 48, (n / 0x1_0000) as u16);
        }
    }
}

impl GroupDescTable {
    /// Load all group descriptors of the volume.
    pub fn load<D: BlockDevice>(dev: &D, sb: &Superblock) -> (r: Result<Self, GroupDescError>)
        ensures
            r is Ok || dev.reliable() ==> match loaded(dev.bytes(), *sb) {
                Ok(t) => r is Ok && r->Ok_0@ == t,
                Err(e) => r is Err && r->Err_0 == e,
            },
    {
        let group_count: u64 = match groups_count(sb) {
            Ok(n) => n,
            Err(e) => {
                return Err(e);
            },
        };
        let gdt_block: u64 = sb.first_data_block as u64 + 1;
        let desc_size: u64 = sb.desc_size as u64;
        assert(group_count * desc_size <= 0x20_0000 * 0xffff) by (nonlinear_arith)
            requires
                group_count <= 0x20_0000,
                desc_size <= 0xffff,
        ;
        let total_bytes: u64 = group_count * desc_size;
        let sectors_per_block: u64 = sb.block_size as u64 / 512;
        assert(gdt_block * sectors_per_block <= 0x1_0000_0000 * 0x80_0000) by (nonlinear_arith)
            requires
                gdt_block <= 0x1_0000_0000,
                sectors_per_block <= 0x80_0000,
        ;
        let start_sector: u64 = gdt_block * sectors_per_block;
        let sector_count: u64 = bytes::div_ceil(total_bytes, 512);
        let raw_bytes = match block_device::read_sectors(dev, start_sector, sector_count) {
            Ok(b) => b,
            Err(e) => {
                return Err(GroupDescError::BlockDevice(e));
            },
        };
        let ghost s = raw_bytes@;
        let mut groups: Vec<GroupDesc> = Vec::new();
        let mut i: u64 = 0;
        let mut off: usize = 0;
        assert(0 * sb.desc_size == 0);
        while i < group_count
            invariant
                i <= group_count,
                off == i * sb.desc_size,
                group_count * sb.desc_size <= raw_bytes.len(),
                raw_bytes@ == s,
                groups@.len() == i,
                forall|j: int| #![auto] 0 <= j < i ==> groups@[j] == table_of(s, *sb, i as int)[j],
            decreases group_count - i,
        {
            assert((i + 1) * sb.desc_size <= group_count * sb.desc_size && (i + 1) * sb.desc_size
                == i * sb.desc_size + sb.desc_size) by (nonlinear_arith)
                requires
                    i < group_count,
            ;
            let len: usize = if sb.desc_size < 64 {
                sb.desc_size as usize
            } else {
                64
            };
            let head = bytes::copy_range(raw_bytes.as_slice(), off, off + len);
            let mut buf = bytes::zero_vec(64);
            bytes::put_bytes(&mut buf, 0, head.as_slice());
            assert(buf@ =~= desc_bytes(s, sb.desc_size, i as int));
            let raw = match RawGroupDesc::read_from(buf.as_slice()) {
                Some(raw) => raw,
                None => {
                    return Err(GroupDescError::InvalidBuffer);
                },
            };
            groups.push(GroupDesc::from_raw(&raw, sb.desc_size));
            off = off + sb.desc_size as usize;
            i = i + 1;
        }
        assert(groups@ =~= table_of(s, *sb, group_count as int));
        Ok(GroupDescTable { groups })
    }

    /// Descriptor of the group that holds inode `inode_num` (the first is 1).
    pub fn group_for_inode(&self, inode_num: u32, sb: &Superblock) -> (r: Result<
        &GroupDesc,
        GroupDescError,
    >)
        requires
            sb.inodes_per_group > 0,
        ensures
            if inode_num == 0 {
                r == Err::<&GroupDesc, GroupDescError>(GroupDescError::InvalidInode(0))
            } else {
                match desc_at(self@, (inode_num - 1) / (sb.inodes_per_group as int)) {
                    Ok(d) => r is Ok && *r->Ok_0 == d,
                    Err(e) => r is Err && r->Err_0 == e,
                }
            },
    {
        if inode_num == 0 {
            return Err(GroupDescError::InvalidInode(0));
        }
        let idx: usize = (inode_num - 1) as usize / sb.inodes_per_group as usize;
        self.get(idx)
    }

    /// Descriptor of the group `index`.
    pub fn get(&self, index: usize) -> (r: Result<&GroupDesc, GroupDescError>)
        ensures
            match desc_at(self@, index as int) {
                Ok(d) => r is Ok && *r->Ok_0 == d,
                Err(e) => r is Err && r->Err_0 == e,
            },
    {
        if index < self.groups.len() {
            Ok(&self.groups[index])
        } else {
            Err(GroupDescError::OutOfRange(index, self.groups.len()))
        }
    }

    pub fn group_count(&self) -> (n: usize)
        ensures
            n == self@.len(),
    {
        self.groups.len()
    }

    /// A table of the given descriptors.
    pub fn from_groups(groups: Vec<GroupDesc>) -> (t: Self)
        ensures
            t@ == groups@,
    {
        GroupDescTable { groups }
    }

    /// A table of the same descriptors.
    pub fn copy(&self) -> (t: Self)
        ensures
            t@ == self@,
    {
        GroupDescTable { groups: vstd::slice::slice_to_vec(self.groups.as_slice()) }
    }

    /// Change a group's count of free blocks by `delta`; it stops at zero.
    pub fn adjust_free_blocks(&mut self, group: usize, delta: i64) -> (r: Result<
        (),
        GroupDescError,
    >)
        requires
            group < old(self)@.len() ==> old(self)@[group as int].free_blocks_count + delta
                <= i64::MAX,
        ensures
            group < old(self)@.len() ==> r is Ok && final(self)@ == with_free_blocks(
                old(self)@,
                group as int,
                delta as int,
            ),
            group >= old(self)@.len() ==> final(self)@ == old(self)@ && r == Err::<
                (),
                GroupDescError,
            >(GroupDescError::OutOfRange(group, old(self)@.len() as usize)),
    {
        let n: usize = self.groups.len();
        if group >= n {
            return Err(GroupDescError::OutOfRange(group, n));
        }
        let mut desc = self.groups[group];
        let sum: i64 = desc.free_blocks_count as i64 + delta;
        desc.free_blocks_count = if sum < 0 {
            0
        } else {
            sum as u32
        };
        self.groups.set(group, desc);
        Ok(())
    }

    /// Change a group's count of free inodes by `delta`; it stops at zero.
    pub fn adjust_free_inodes(&mut self, group: usize, delta: i64) -> (r: Result<
        (),
        GroupDescError,
    >)
        requires
            group < old(self)@.len() ==> old(self)@[group as int].free_inodes_count + delta
                <= i64::MAX,
        ensures
            group < old(self)@.len() ==> r is Ok && final(self)@ == with_free_inodes(
                old(self)@,
                group as int,
                delta as int,
            ),
            group >= old(self)@.len() ==> final(self)@ == old(self)@ && r == Err::<
                (),
                GroupDescError,
            >(GroupDescError::OutOfRange(group, old(self)@.len() as usize)),
    {
        let n: usize = self.groups.len();
        if group >= n {
            return Err(GroupDescError::OutOfRange(group, n));
        }
        let mut desc = self.groups[group];
        let sum: i64 = desc.free_inodes_count as i64 + delta;
        desc.free_inodes_count = if sum < 0 {
            0
        } else {
            sum as u32
        };
        self.groups.set(group, desc);
        Ok(())
    }
}

fn groups_count(sb: &Superblock) -> (r: Result<u64, GroupDescError>)
    ensures
        r == group_total(*sb),
{
    if sb.blocks_per_group == 0 {
        return Err(GroupDescError::TooManyGroups(0));
    }
    let count: u64 = bytes::div_ceil(sb.blocks_count, sb.blocks_per_group as u64);
    if count > MAX_GROUPS {
        return Err(GroupDescError::TooManyGroups(count));
    }
    Ok(count)
}

} // verus!
