//! Allocating, initialising and freeing inodes.
use vstd::prelude::*;
use super::bits;
use super::block_alloc;
use super::inode_bitmap;
use super::inode_bitmap::InodeBitmap;
use super::AllocError;
use crate::block_device;
use crate::block_device::BlockDevice;
use crate::bytes;
use crate::clock;
use crate::fs_state;
use crate::fs_state::FsState;
use crate::group_desc;
use crate::group_desc::{GroupDesc, GroupDescTable};
use crate::inode;
use crate::journal::writer::Transaction;
use crate::superblock::Superblock;

verus! {

broadcast use crate::bytes::group_codec;

/// An empty extent tree: magic 0xF30A, no entries of at most 4, depth 0.
pub open spec fn empty_tree() -> Seq<u8> {
    seq![0x0Au8, 0xF3u8, 0u8, 0u8, 4u8, 0u8, 0u8, 0u8, 0u8, 0u8, 0u8, 0u8]
}

/// The number of the inode in slot `k` of `group`.
pub open spec fn inode_number(sb: Superblock, group: int, k: int) -> int {
    group * sb.inodes_per_group + k + 1
}

/// The directories that an inode counts as.
pub open spec fn dirs_of(is_dir: bool) -> int {
    if is_dir {
        1
    } else {
        0
    }
}

/// Taking slot `k` of `group`, whose bitmap is `bm`, for a directory or another file.
pub open spec fn taken(
    st: FsState,
    sb: Superblock,
    is_dir: bool,
    group: int,
    bm: Seq<u8>,
    k: u32,
) -> (FsState, Result<u32, AllocError>) {
    if inode_number(sb, group, k as int) > u32::MAX {
        (st, Err(AllocError::NoFreeInodes))
    } else {
        let (s1, r1) = block_alloc::stored(
            st,
            sb,
            st.gdt[group].inode_bitmap,
            bits::with_bit(bm, k as int),
        );
        match r1 {
            Err(e) => (s1, Err(e)),
            Ok(()) => {
                let (s2, r2) = block_alloc::tallied(
                    FsState { gdt: group_desc::with_free_inodes(s1.gdt, group, -1), ..s1 },
                    sb,
                    group,
                    dirs_of(is_dir),
                );
                match r2 {
                    Err(e) => (s2, Err(e)),
                    Ok(()) => (s2, Ok(inode_number(sb, group, k as int) as u32)),
                }
            },
        }
    }
}

/// Allocating from the `i`-th group on: the first group whose count says that
/// it has a free inode, and whose bitmap has one, gives its lowest.
pub open spec fn allocated_from(
    st: FsState,
    sb: Superblock,
    is_dir: bool,
    hint: int,
    i: int,
) -> (FsState, Result<u32, AllocError>)
    decreases st.gdt.len() - i,
{
    let n = st.gdt.len() as int;
    if i >= n {
        (st, Err(AllocError::NoFreeInodes))
    } else {
        let g = block_alloc::nth_group(hint, i, n);
        if st.gdt[g].free_inodes_count == 0 {
            allocated_from(st, sb, is_dir, hint, i + 1)
        } else {
            match inode_bitmap::loaded(st.disk, sb, st.gdt, g) {
                Err(e) => (st, Err(e)),
                Ok(bm) => match bits::first_clear(bm) {
                    None => allocated_from(st, sb, is_dir, hint, i + 1),
                    Some(k) => taken(st, sb, is_dir, g, bm, k),
                },
            }
        }
    }
}

/// Allocating an inode, the group `hint` first.
pub open spec fn allocated(st: FsState, sb: Superblock, is_dir: bool, hint: int) -> (
    FsState,
    Result<u32, AllocError>,
) {
    allocated_from(st, sb, is_dir, hint, 0)
}

/// The links that a new inode starts with: the entry that names it, and for a
/// directory its own "." too.
pub open spec fn first_links(mode: u16) -> u16 {
    if inode::file_type_of(mode) is Directory {
        2
    } else {
        1
    }
}

/// The record of a new inode with an empty extent tree.
pub open spec fn fresh_record(mode: u16, uid: u32, gid: u32, now: u32) -> Seq<u8> {
    let r0 = bytes::put(bytes::zeros(128), 0, bytes::le16_bytes(mode));
    let r1 = bytes::put(r0, 2, bytes::le16_bytes((uid % 0x1_0000) as u16));
    let r2 = bytes::put(r1, 8, bytes::le32_bytes(now));
    let r3 = bytes::put(r2, 12, bytes::le32_bytes(now));
    let r4 = bytes::put(r3, 16, bytes::le32_bytes(now));
    let r5 = bytes::put(r4, 24, bytes::le16_bytes((gid % 0x1_0000) as u16));
    let r6 = bytes::put(r5, 26, bytes::le16_bytes(first_links(mode)));
    let r7 = bytes::put(r6, 32, bytes::le32_bytes(inode::EXTENTS_FL));
    let r8 = bytes::put(r7, 40, empty_tree());
    let r9 = bytes::put(r8, 120, bytes::le16_bytes((uid / 0x1_0000) as u16));
    bytes::put(r9, 122, bytes::le16_bytes((gid / 0x1_0000) as u16))
}

/// Overwriting part of the record of inode `num` with `data`, from its byte
/// `at` on. The table block is read from the device.
pub open spec fn patched(st: FsState, sb: Superblock, num: u32, at: int, data: Seq<u8>) -> (
    FsState,
    Result<(), AllocError>,
) {
    match group_desc::desc_at(st.gdt, inode::group_of(sb, num)) {
        Err(e) => (st, Err(AllocError::GroupDesc(e))),
        Ok(d) => {
            let b = inode::slot_block(sb, d, num);
            match block_device::block_at(st.disk, sb.block_size, b) {
                Err(e) => (st, Err(AllocError::BlockDevice(e))),
                Ok(t) => block_alloc::stored(
                    st,
                    sb,
                    b,
                    bytes::put(t, inode::slot_offset(sb, num) + at, data),
                ),
            }
        },
    }
}

/// Initialising inode `num` at the time `now`.
pub open spec fn initialised(
    st: FsState,
    sb: Superblock,
    num: u32,
    mode: u16,
    uid: u32,
    gid: u32,
    now: u32,
) -> (FsState, Result<(), AllocError>) {
    patched(st, sb, num, 0, fresh_record(mode, uid, gid, now))
}

/// The bitmap with slot `k` free.
pub open spec fn cleared(bm: Seq<u8>, k: int) -> Seq<u8> {
    if k < 8 * bm.len() {
        bits::without_bit(bm, k)
    } else {
        bm
    }
}

/// Whether the record of inode `num` on disk is that of a directory.
pub open spec fn is_dir_at(disk: Seq<u8>, sb: Superblock, gdt: Seq<GroupDesc>, num: u32) -> bool {
    let b = block_device::block_at(
        disk,
        sb.block_size,
        inode::slot_block(sb, gdt[inode::group_of(sb, num)], num),
    );
    b is Ok && inode::file_type_of(
        bytes::le16(b->Ok_0, inode::slot_offset(sb, num)),
    ) is Directory
}

/// Freeing inode `num` at the time `now`: its bit is cleared, its record gets
/// a deletion time, and its group counts one more free inode, and one directory less
/// where it was one.
pub open spec fn freed(st: FsState, sb: Superblock, num: u32, now: u32) -> (
    FsState,
    Result<(), AllocError>,
) {
    let g = inode::group_of(sb, num);
    match inode_bitmap::loaded(st.disk, sb, st.gdt, g) {
        Err(e) => (st, Err(e)),
        Ok(bm) => {
            let (s1, r1) = block_alloc::stored(
                st,
                sb,
                st.gdt[g].inode_bitmap,
                cleared(bm, inode::index_of(sb, num)),
            );
            match r1 {
                Err(e) => (s1, Err(e)),
                Ok(()) => {
                    let (s2, r2) = patched(s1, sb, num, 20, bytes::le32_bytes(now));
                    match r2 {
                        Err(e) => (s2, Err(e)),
                        Ok(()) => block_alloc::tallied(
                            FsState { gdt: group_desc::with_free_inodes(s2.gdt, g, 1), ..s2 },
                            sb,
                            g,
                            -dirs_of(is_dir_at(s2.disk, sb, s2.gdt, num)),
                        ),
                    }
                },
            }
        },
    }
}

/// Allocate an inode; the group `hint_group` is tried first.
pub fn alloc_inode<D: BlockDevice>(
    dev: &mut D,
    sb: &Superblock,
    gdt: &mut GroupDescTable,
    txn: &mut Transaction,
    is_dir: bool,
    hint_group: usize,
) -> (r: Result<u32, AllocError>)
    requires
        sb.wf(),
    ensures
        block_device::same_shape(*old(dev), *final(dev)),
        final(gdt)@.len() == old(gdt)@.len(),
        r is Ok || old(dev).reliable() ==> (
            fs_state::now(*final(dev), *final(txn), *final(gdt)),
            r,
        ) == allocated(
            fs_state::now(*old(dev), *old(txn), *old(gdt)),
            *sb,
            is_dir,
            hint_group as int,
        ),
        r is Ok ==> r->Ok_0 > 0,
{
    let ghost st = fs_state::now(*dev, *txn, *gdt);
    let n: usize = gdt.group_count();
    if n == 0 {
        return Err(AllocError::NoFreeInodes);
    }
    let first: usize = hint_group % n;
    let mut i: usize = 0;
    while i < n
        invariant
            sb.wf(),
            n == gdt@.len(),
            n > 0,
            i <= n,
            *dev == *old(dev),
            *txn == *old(txn),
            *gdt == *old(gdt),
            st == (fs_state::now(*dev, *txn, *gdt)),
            first == hint_group as int % n as int,
            allocated(st, *sb, is_dir, hint_group as int) == allocated_from(
                st,
                *sb,
                is_dir,
                hint_group as int,
                i as int,
            ),
        decreases n - i,
    {
        let group: usize = if first >= n - i {
            first - (n - i)
        } else {
            first + i
        };
        proof {
            vstd::arithmetic::div_mod::lemma_mod_bound(hint_group as int, n as int);
            if first >= n - i {
                vstd::arithmetic::div_mod::lemma_mod_sub_multiples_vanish(first + i, n as int);
            }
            vstd::arithmetic::div_mod::lemma_small_mod(group as nat, n as nat);
        }
        assert(group == block_alloc::nth_group(hint_group as int, i as int, n as int));
        i = i + 1;
        let desc = match gdt.get(group) {
            Ok(d) => *d,
            Err(e) => {
                return Err(AllocError::GroupDesc(e));
            },
        };
        if desc.free_inodes_count == 0 {
            continue ;
        }
        let mut bm = match InodeBitmap::load(dev, sb, gdt, group) {
            Ok(b) => b,
            Err(e) => {
                return Err(e);
            },
        };
        let slot: u32 = match bm.first_free() {
            Some(s) => s,
            None => {
                continue ;
            },
        };
        assert(0 <= group * sb.inodes_per_group <= 0xffff_ffff_ffff_ffff * 0xffff_ffff)
            by (nonlinear_arith)
            requires
                group <= 0xffff_ffff_ffff_ffff,
                sb.inodes_per_group <= 0xffff_ffff,
        ;
        let number: u128 = group as u128 * sb.inodes_per_group as u128 + slot as u128 + 1;
        if number > u32::MAX as u128 {
            return Err(AllocError::NoFreeInodes);
        }
        let _ = bm.allocate(slot);
        match fs_state::store_block(dev, txn, sb.block_size, desc.inode_bitmap, bm.into_bytes()) {
            Ok(()) => {},
            Err(e) => {
                return Err(AllocError::BlockDevice(e));
            },
        }
        match gdt.adjust_free_inodes(group, -1) {
            Ok(()) => {},
            Err(e) => {
                return Err(AllocError::GroupDesc(e));
            },
        }
        let dirs: i8 = if is_dir {
            1
        } else {
            0
        };
        match block_alloc::tally(dev, sb, gdt, txn, group, dirs) {
            Ok(()) => {},
            Err(e) => {
                return Err(e);
            },
        }
        return Ok(number as u32);
    }
    Err(AllocError::NoFreeInodes)
}

fn patch_record<D: BlockDevice>(
    dev: &mut D,
    sb: &Superblock,
    gdt: &GroupDescTable,
    txn: &mut Transaction,
    inode_num: u32,
    at: usize,
    data: &[u8],
) -> (r: Result<(), AllocError>)
    requires
        sb.wf(),
        inode_num > 0,
        at + data@.len() <= 128,
    ensures
        block_device::same_shape(*old(dev), *final(dev)),
        r is Ok || old(dev).reliable() ==> (
            fs_state::now(*final(dev), *final(txn), *gdt),
            r,
        ) == patched(
            fs_state::now(*old(dev), *old(txn), *gdt),
            *sb,
            inode_num,
            at as int,
            data@,
        ),
{
    let group: usize = ((inode_num - 1) / sb.inodes_per_group) as usize;
    let desc = match gdt.get(group) {
        Ok(d) => *d,
        Err(e) => {
            return Err(AllocError::GroupDesc(e));
        },
    };
    let (block, offset) = inode::slot(sb, &desc, inode_num);
    let mut table = match block_device::read_block(dev, sb.block_size, block) {
        Ok(t) => t,
        Err(e) => {
            return Err(AllocError::BlockDevice(e));
        },
    };
    bytes::put_bytes(&mut table, offset + at, data);
    match fs_state::store_block(dev, txn, sb.block_size, block, table) {
        Ok(()) => Ok(()),
        Err(e) => Err(AllocError::BlockDevice(e)),
    }
}

fn build_record(mode: u16, uid: u32, gid: u32, now: u32) -> (rec: Vec<u8>)
    ensures
        rec@ == fresh_record(mode, uid, gid, now),
        rec@.len() == 128,
{
    let mut rec = bytes::zero_vec(128);
    bytes::put_u16_le(&mut rec, 0, mode);
    bytes::put_u16_le(&mut rec, 2, (uid % 0x1_0000) as u16);
    bytes::put_u32_le(&mut rec, 8, now);
    bytes::put_u32_le(&mut rec, 12, now);
    bytes::put_u32_le(&mut rec, 16, now);
    bytes::put_u16_le(&mut rec, 24, (gid % 0x1_0000) as u16);
    bytes::put_u16_le(
        &mut rec,
        26,
        if mode & inode::mode::S_IFMT == inode::mode::S_IFDIR {
            2
        } else {
            1
        },
    );
    bytes::put_u32_le(&mut rec, 32, inode::EXTENTS_FL);
    let header: [u8; 12] = [0x0A, 0xF3, 0, 0, 4, 0, 0, 0, 0, 0, 0, 0];
    assert(header@ =~= empty_tree());
    bytes::put_bytes(&mut rec, 40, header.as_slice());
    bytes::put_u16_le(&mut rec, 120, (uid / 0x1_0000) as u16);
    bytes::put_u16_le(&mut rec, 122, (gid / 0x1_0000) as u16);
    rec
}

/// Initialise inode `inode_num`: an empty file of the given mode and owner,
/// with one link, or two for a directory, and the time stamps `now`.
pub fn init_inode_at<D: BlockDevice>(
    dev: &mut D,
    sb: &Superblock,
    gdt: &GroupDescTable,
    txn: &mut Transaction,
    inode_num: u32,
    mode: u16,
    uid: u32,
    gid: u32,
    now: u32,
) -> (r: Result<(), AllocError>)
    requires
        sb.wf(),
        inode_num > 0,
    ensures
        block_device::same_shape(*old(dev), *final(dev)),
        r is Ok || old(dev).reliable() ==> (
            fs_state::now(*final(dev), *final(txn), *gdt),
            r,
        ) == initialised(
            fs_state::now(*old(dev), *old(txn), *gdt),
            *sb,
            inode_num,
            mode,
            uid,
            gid,
            now,
        ),
{
    let rec = build_record(mode, uid, gid, now);
    patch_record(dev, sb, gdt, txn, inode_num, 0, rec.as_slice())
}

/// Initialise inode `inode_num` at the current time.
pub fn init_inode<D: BlockDevice>(
    dev: &mut D,
    sb: &Superblock,
    gdt: &GroupDescTable,
    txn: &mut Transaction,
    inode_num: u32,
    mode: u16,
    uid: u32,
    gid: u32,
) -> (r: Result<(), AllocError>)
    requires
        sb.wf(),
        inode_num > 0,
    ensures
        block_device::same_shape(*old(dev), *final(dev)),
        r is Ok || old(dev).reliable() ==> exists|now: u32|
            (
                fs_state::now(*final(dev), *final(txn), *gdt),
                r,
            ) == initialised(
                fs_state::now(*old(dev), *old(txn), *gdt),
                *sb,
                inode_num,
                mode,
                uid,
                gid,
                now,
            ),
{
    let now: u32 = clock::unix_now();
    init_inode_at(dev, sb, gdt, txn, inode_num, mode, uid, gid, now)
}

/// How the count of directories changes with an inode that goes. Its record can be
/// read.
fn freed_dirs<D: BlockDevice>(
    dev: &D,
    sb: &Superblock,
    gdt: &GroupDescTable,
    inode_num: u32,
) -> (r: Result<i8, AllocError>)
    requires
        sb.wf(),
        inode_num > 0,
        inode::group_of(*sb, inode_num) < gdt@.len(),
    ensures
        r is Ok ==> r->Ok_0 == -dirs_of(is_dir_at(dev.bytes(), *sb, gdt@, inode_num)),
        dev.reliable() && block_device::block_at(
            dev.bytes(),
            sb.block_size,
            inode::slot_block(*sb, gdt@[inode::group_of(*sb, inode_num)], inode_num),
        ) is Ok ==> r is Ok,
{
    let group: usize = ((inode_num - 1) / sb.inodes_per_group) as usize;
    let desc = match gdt.get(group) {
        Ok(d) => *d,
        Err(e) => {
            return Err(AllocError::GroupDesc(e));
        },
    };
    let (block, offset): (u64, usize) = inode::slot(sb, &desc, inode_num);
    let table = match block_device::read_block(dev, sb.block_size, block) {
        Ok(t) => t,
        Err(e) => {
            return Err(AllocError::BlockDevice(e));
        },
    };
    let m: u16 = bytes::get_u16_le(table.as_slice(), offset);
    Ok(
        if m & inode::mode::S_IFMT == inode::mode::S_IFDIR {
            -1
        } else {
            0
        },
    )
}

/// Free inode `inode_num`, with the deletion time `now`.
pub fn free_inode_at<D: BlockDevice>(
    dev: &mut D,
    sb: &Superblock,
    gdt: &mut GroupDescTable,
    txn: &mut Transaction,
    inode_num: u32,
    now: u32,
) -> (r: Result<(), AllocError>)
    requires
        sb.wf(),
        inode_num > 0,
    ensures
        block_device::same_shape(*old(dev), *final(dev)),
        final(gdt)@.len() == old(gdt)@.len(),
        r is Ok || old(dev).reliable() ==> (
            fs_state::now(*final(dev), *final(txn), *final(gdt)),
            r,
        ) == freed(
            fs_state::now(*old(dev), *old(txn), *old(gdt)),
            *sb,
            inode_num,
            now,
        ),
{
    let group: usize = ((inode_num - 1) / sb.inodes_per_group) as usize;
    let slot: u32 = (inode_num - 1) % sb.inodes_per_group;
    let mut bm = match InodeBitmap::load(dev, sb, gdt, group) {
        Ok(b) => b,
        Err(e) => {
            return Err(e);
        },
    };
    let desc = match gdt.get(group) {
        Ok(d) => *d,
        Err(e) => {
            return Err(AllocError::GroupDesc(e));
        },
    };
    if slot < 8 * sb.block_size {
        let _ = bm.free(slot);
    }
    match fs_state::store_block(dev, txn, sb.block_size, desc.inode_bitmap, bm.into_bytes()) {
        Ok(()) => {},
        Err(e) => {
            return Err(AllocError::BlockDevice(e));
        },
    }
    let mut stamp = bytes::zero_vec(4);
    bytes::put_u32_le(&mut stamp, 0, now);
    assert(stamp@ =~= bytes::le32_bytes(now));
    match patch_record(dev, sb, gdt, txn, inode_num, 20, stamp.as_slice()) {
        Ok(()) => {},
        Err(e) => {
            return Err(e);
        },
    }
    let dirs: i8 = match freed_dirs(dev, sb, gdt, inode_num) {
        Ok(n) => n,
        Err(e) => {
            return Err(e);
        },
    };
    match gdt.adjust_free_inodes(group, 1) {
        Ok(()) => {},
        Err(e) => {
            return Err(AllocError::GroupDesc(e));
        },
    }
    block_alloc::tally(dev, sb, gdt, txn, group, dirs)
}

/// Free inode `inode_num` at the current time.
pub fn free_inode<D: BlockDevice>(
    dev: &mut D,
    sb: &Superblock,
    gdt: &mut GroupDescTable,
    txn: &mut Transaction,
    inode_num: u32,
) -> (r: Result<(), AllocError>)
    requires
        sb.wf(),
        inode_num > 0,
    ensures
        block_device::same_shape(*old(dev), *final(dev)),
        final(gdt)@.len() == old(gdt)@.len(),
        r is Ok || old(dev).reliable() ==> exists|now: u32|
            (
                fs_state::now(*final(dev), *final(txn), *final(gdt)),
                r,
            ) == freed(
                fs_state::now(*old(dev), *old(txn), *old(gdt)),
                *sb,
                inode_num,
                now,
            ),
{
    let now: u32 = clock::unix_now();
    free_inode_at(dev, sb, gdt, txn, inode_num, now)
}

} // verus!
