//! Allocating and freeing blocks.
use vstd::prelude::*;
use super::bits;
use super::block_bitmap;
use super::block_bitmap::BlockBitmap;
use super::AllocError;
use crate::block_device;
use crate::block_device::BlockDevice;
use crate::bytes;
use crate::fs_state;
use crate::fs_state::FsState;
use crate::group_desc;
use crate::group_desc::GroupDescTable;
use crate::journal::writer::Transaction;
use crate::superblock::Superblock;

verus! {

/// The block of the descriptor table that holds the descriptor of `group`.
pub open spec fn gdt_block(sb: Superblock, group: int) -> u64 {
    bytes::sat64(sb.first_data_block + 1 + group * sb.desc_size / (sb.block_size as int))
}

/// The number on the volume of block `k` of `group`. The groups start at the first
/// data block.
pub open spec fn block_number(sb: Superblock, group: int, k: int) -> u64 {
    bytes::sat64(sb.first_data_block + group * sb.blocks_per_group + k)
}

/// The group that block `b` lies in, and its place there. A block in front of the
/// first data block lies in none.
pub open spec fn group_of(sb: Superblock, b: u64) -> int {
    (b - sb.first_data_block) / sb.blocks_per_group as int
}

pub open spec fn bit_of(sb: Superblock, b: u64) -> int {
    (b - sb.first_data_block) % sb.blocks_per_group as int
}

/// Writing a bitmap, or a table block, through.
pub open spec fn stored(st: FsState, sb: Superblock, b: u64, data: Seq<u8>) -> (
    FsState,
    Result<(), AllocError>,
) {
    let (s, r) = fs_state::store(st, sb.block_size, b, data);
    match r {
        Ok(()) => (s, Ok(())),
        Err(e) => (s, Err(AllocError::BlockDevice(e))),
    }
}

/// Writing the counts of `group` into its descriptor, with the directories there
/// changed by `dirs`.
pub open spec fn tallied(st: FsState, sb: Superblock, group: int, dirs: int) -> (
    FsState,
    Result<(), AllocError>,
) {
    let b = gdt_block(sb, group);
    match block_device::block_at(st.disk, sb.block_size, b) {
        Err(e) => (st, Err(AllocError::BlockDevice(e))),
        Ok(d) => stored(
            st,
            sb,
            b,
            group_desc::described(d, sb, group, st.gdt[group], dirs),
        ),
    }
}

/// Changing a group's count of free blocks by `delta`, in memory and in its
/// descriptor.
pub open spec fn counted(st: FsState, sb: Superblock, group: int, delta: int) -> (
    FsState,
    Result<(), AllocError>,
) {
    tallied(
        FsState { gdt: group_desc::with_free_blocks(st.gdt, group, delta), ..st },
        sb,
        group,
        0,
    )
}

/// Taking the `count` free blocks from block `k` of `group` on, whose bitmap
/// is `bm`.
pub open spec fn taken(
    st: FsState,
    sb: Superblock,
    group: int,
    bm: Seq<u8>,
    k: u32,
    count: u32,
) -> (FsState, Result<u64, AllocError>) {
    let (s1, r1) = stored(
        st,
        sb,
        st.gdt[group].block_bitmap,
        bits::with_run(bm, k as int, count as int),
    );
    match r1 {
        Err(e) => (s1, Err(e)),
        Ok(()) => {
            let (s2, r2) = counted(s1, sb, group, -(count as int));
            match r2 {
                Err(e) => (s2, Err(e)),
                Ok(()) => (s2, Ok(block_number(sb, group, k as int))),
            }
        },
    }
}

/// The group that is tried `i` groups after the one of `hint`.
pub open spec fn nth_group(hint: int, i: int, n: int) -> int {
    (hint % n + i) % n
}

/// Allocating from the `i`-th group on: the first group whose count says that
/// it has room, and whose bitmap has `count` free blocks in a row, gives its
/// lowest such run.
pub open spec fn allocated_from(
    st: FsState,
    sb: Superblock,
    count: u32,
    hint: u64,
    i: int,
) -> (FsState, Result<u64, AllocError>)
    decreases st.gdt.len() - i,
{
    let n = st.gdt.len() as int;
    if i >= n {
        (st, Err(AllocError::NoFreeBlocks))
    } else {
        let g = nth_group(hint as int / sb.blocks_per_group as int, i, n);
        if st.gdt[g].free_blocks_count < count {
            allocated_from(st, sb, count, hint, i + 1)
        } else {
            match block_bitmap::loaded(st.disk, sb, st.gdt, g) {
                Err(e) => (st, Err(e)),
                Ok(bm) => match bits::first_run(bm, count as int, sb.blocks_per_group as int) {
                    None => allocated_from(st, sb, count, hint, i + 1),
                    Some(k) => taken(st, sb, g, bm, k, count),
                },
            }
        }
    }
}

/// Allocating `count` blocks in a row, the group of block `hint` first.
pub open spec fn allocated(st: FsState, sb: Superblock, count: u32, hint: u64) -> (
    FsState,
    Result<u64, AllocError>,
) {
    allocated_from(st, sb, count, hint, 0)
}

/// Freeing a block: its bit is cleared, it is revoked, and its group counts
/// one more free block. A block that is free already, that lies in no group, or
/// whose bit lies past its group's bitmap, is refused.
pub open spec fn freed(st: FsState, sb: Superblock, block: u64) -> (
    FsState,
    Result<(), AllocError>,
) {
    let g = group_of(sb, block);
    let k = bit_of(sb, block);
    if block < sb.first_data_block {
        (st, Err(AllocError::DoubleFreed(block)))
    } else {
        match block_bitmap::loaded(st.disk, sb, st.gdt, g) {
            Err(e) => (st, Err(e)),
            Ok(bm) => if !(k < 8 * bm.len() && bits::bit(bm, k)) {
                (st, Err(AllocError::DoubleFreed(block)))
            } else {
                let (s1, r1) = stored(st, sb, st.gdt[g].block_bitmap, bits::without_bit(bm, k));
                match r1 {
                    Err(e) => (s1, Err(e)),
                    Ok(()) => counted(fs_state::revoke(s1, block), sb, g, 1),
                }
            },
        }
    }
}

/// Allocate `count` blocks in a row. Returns the first of them. Tries to
/// allocate near `hint_block`.
pub fn alloc_blocks<D: BlockDevice>(
    dev: &mut D,
    sb: &Superblock,
    gdt: &mut GroupDescTable,
    txn: &mut Transaction,
    count: u32,
    hint_block: u64,
) -> (r: Result<u64, AllocError>)
    requires
        sb.wf(),
    ensures
        block_device::same_shape(*old(dev), *final(dev)),
        final(gdt)@.len() == old(gdt)@.len(),
        r is Ok || old(dev).reliable() ==> (
            fs_state::now(*final(dev), *final(txn), *final(gdt)),
            r,
        ) == allocated(
            fs_state::now(*old(dev), *old(txn), *old(gdt)),
            *sb,
            count,
            hint_block,
        ),
{
    let ghost st = fs_state::now(*dev, *txn, *gdt);
    let num_groups: usize = gdt.group_count();
    if num_groups == 0 {
        return Err(AllocError::NoFreeBlocks);
    }
    let n: u64 = num_groups as u64;
    let hint_group: u64 = hint_block / sb.blocks_per_group as u64 % n;
    let mut i: u64 = 0;
    while i < n
        invariant
            sb.wf(),
            num_groups == n,
            n == gdt@.len(),
            n > 0,
            i <= n,
            *dev == *old(dev),
            *txn == *old(txn),
            *gdt == *old(gdt),
            st == (fs_state::now(*dev, *txn, *gdt)),
            hint_group == (hint_block as int / sb.blocks_per_group as int) % n as int,
            allocated(st, *sb, count, hint_block) == allocated_from(
                st,
                *sb,
                count,
                hint_block,
                i as int,
            ),
        decreases n - i,
    {
        let group: usize = if hint_group >= n - i {
            (hint_group - (n - i)) as usize
        } else {
            (hint_group + i) as usize
        };
        proof {
            vstd::arithmetic::div_mod::lemma_mod_bound(
                hint_block as int / sb.blocks_per_group as int,
                n as int,
            );
            if hint_group >= n - i {
                vstd::arithmetic::div_mod::lemma_mod_sub_multiples_vanish(
                    hint_group + i,
                    n as int,
                );
                vstd::arithmetic::div_mod::lemma_small_mod(group as nat, n as nat);
            } else {
                vstd::arithmetic::div_mod::lemma_small_mod(group as nat, n as nat);
            }
        }
        assert(group == nth_group(
            hint_block as int / sb.blocks_per_group as int,
            i as int,
            n as int,
        ));
        i = i + 1;
        let desc = match gdt.get(group) {
            Ok(d) => *d,
            Err(e) => {
                return Err(AllocError::GroupDesc(e));
            },
        };
        if desc.free_blocks_count < count {
            continue ;
        }
        let bm = match BlockBitmap::load(dev, sb, gdt, group) {
            Ok(b) => b,
            Err(e) => {
                return Err(e);
            },
        };
        match bm.first_free_run(count, sb.blocks_per_group) {
            None => {
                continue ;
            },
            Some(start) => {
                return take_run(dev, sb, gdt, txn, group, bm, start, count);
            },
        }
    }
    Err(AllocError::NoFreeBlocks)
}

fn take_run<D: BlockDevice>(
    dev: &mut D,
    sb: &Superblock,
    gdt: &mut GroupDescTable,
    txn: &mut Transaction,
    group: usize,
    bm: BlockBitmap,
    start: u32,
    count: u32,
) -> (r: Result<u64, AllocError>)
    requires
        sb.wf(),
        group < old(gdt)@.len(),
        bm@.len() == sb.block_size,
        start + count <= 8 * bm@.len(),
    ensures
        block_device::same_shape(*old(dev), *final(dev)),
        final(gdt)@.len() == old(gdt)@.len(),
        r is Ok || old(dev).reliable() ==> (
            fs_state::now(*final(dev), *final(txn), *final(gdt)),
            r,
        ) == taken(
            fs_state::now(*old(dev), *old(txn), *old(gdt)),
            *sb,
            group as int,
            bm@,
            start,
            count,
        ),
{
    let ghost before = bm@;
    let mut bm = bm;
    let mut i: u32 = 0;
    while i < count
        invariant
            i <= count,
            bm@.len() == before.len(),
            start + count <= 8 * before.len(),
            before.len() <= 65536,
            bm@ == bits::with_run(before, start as int, i as int),
        decreases count - i,
    {
        let _ = bm.allocate(start + i);
        i = i + 1;
    }
    let desc = match gdt.get(group) {
        Ok(d) => *d,
        Err(e) => {
            return Err(AllocError::GroupDesc(e));
        },
    };
    match fs_state::store_block(dev, txn, sb.block_size, desc.block_bitmap, bm.into_bytes()) {
        Ok(()) => {},
        Err(e) => {
            return Err(AllocError::BlockDevice(e));
        },
    }
    match update_gdt_free_blocks(dev, sb, gdt, txn, group, -(count as i64)) {
        Ok(()) => {},
        Err(e) => {
            return Err(e);
        },
    }
    assert(group * sb.blocks_per_group >= 0) by (nonlinear_arith);
    assert(group * sb.blocks_per_group <= 0xffff_ffff_ffff_ffff * 0xffff_ffff) by (nonlinear_arith)
        requires
            group <= 0xffff_ffff_ffff_ffff,
            sb.blocks_per_group <= 0xffff_ffff,
    ;
    let wide: u128 = sb.first_data_block as u128 + group as u128 * sb.blocks_per_group as u128
        + start as u128;
    Ok(
        if wide > u64::MAX as u128 {
            u64::MAX
        } else {
            wide as u64
        },
    )
}

/// Free a single block.
pub fn free_block<D: BlockDevice>(
    dev: &mut D,
    sb: &Superblock,
    gdt: &mut GroupDescTable,
    txn: &mut Transaction,
    block: u64,
) -> (r: Result<(), AllocError>)
    requires
        sb.wf(),
    ensures
        block_device::same_shape(*old(dev), *final(dev)),
        final(gdt)@.len() == old(gdt)@.len(),
        r is Ok || old(dev).reliable() ==> (
            fs_state::now(*final(dev), *final(txn), *final(gdt)),
            r,
        ) == freed(
            fs_state::now(*old(dev), *old(txn), *old(gdt)),
            *sb,
            block,
        ),
{
    if block < sb.first_data_block as u64 {
        return Err(AllocError::DoubleFreed(block));
    }
    let place: u64 = block - sb.first_data_block as u64;
    let group_number: u64 = place / sb.blocks_per_group as u64;
    let k: u32 = (place % sb.blocks_per_group as u64) as u32;
    let num_groups: usize = gdt.group_count();
    if group_number >= num_groups as u64 {
        return Err(
            AllocError::GroupDesc(
                group_desc::GroupDescError::OutOfRange(group_number as usize, num_groups),
            ),
        );
    }
    let group: usize = group_number as usize;
    let mut bm = match BlockBitmap::load(dev, sb, gdt, group) {
        Ok(b) => b,
        Err(e) => {
            return Err(e);
        },
    };
    if k >= 8 * sb.block_size {
        return Err(AllocError::DoubleFreed(block));
    }
    if !bm.free(k) {
        return Err(AllocError::DoubleFreed(block));
    }
    let desc = match gdt.get(group) {
        Ok(d) => *d,
        Err(e) => {
            return Err(AllocError::GroupDesc(e));
        },
    };
    match fs_state::store_block(dev, txn, sb.block_size, desc.block_bitmap, bm.into_bytes()) {
        Ok(()) => {},
        Err(e) => {
            return Err(AllocError::BlockDevice(e));
        },
    }
    txn.revoke_block(block);
    update_gdt_free_blocks(dev, sb, gdt, txn, group, 1)
}

/// Change a group's count of free blocks, in memory and in its descriptor.
fn update_gdt_free_blocks<D: BlockDevice>(
    dev: &mut D,
    sb: &Superblock,
    gdt: &mut GroupDescTable,
    txn: &mut Transaction,
    group: usize,
    delta: i64,
) -> (r: Result<(), AllocError>)
    requires
        sb.wf(),
        group < old(gdt)@.len(),
        delta <= 1,
    ensures
        block_device::same_shape(*old(dev), *final(dev)),
        final(gdt)@.len() == old(gdt)@.len(),
        r is Ok || old(dev).reliable() ==> (
            fs_state::now(*final(dev), *final(txn), *final(gdt)),
            r,
        ) == counted(
            fs_state::now(*old(dev), *old(txn), *old(gdt)),
            *sb,
            group as int,
            delta as int,
        ),
{
    match gdt.adjust_free_blocks(group, delta) {
        Ok(()) => {},
        Err(e) => {
            return Err(AllocError::GroupDesc(e));
        },
    }
    tally(dev, sb, gdt, txn, group, 0)
}

/// Write the counts of a group into its descriptor, with the directories there
/// changed by `dirs`.
pub(crate) fn tally<D: BlockDevice>(
    dev: &mut D,
    sb: &Superblock,
    gdt: &GroupDescTable,
    txn: &mut Transaction,
    group: usize,
    dirs: i8,
) -> (r: Result<(), AllocError>)
    requires
        sb.wf(),
        group < gdt@.len(),
    ensures
        block_device::same_shape(*old(dev), *final(dev)),
        r is Ok || old(dev).reliable() ==> (
            fs_state::now(*final(dev), *final(txn), *gdt),
            r,
        ) == tallied(
            fs_state::now(*old(dev), *old(txn), *gdt),
            *sb,
            group as int,
            dirs as int,
        ),
{
    let d = match gdt.get(group) {
        Ok(d) => *d,
        Err(e) => {
            return Err(AllocError::GroupDesc(e));
        },
    };
    let b: u64 = descriptor_block(sb, group);
    let mut data = match block_device::read_block(dev, sb.block_size, b) {
        Ok(data) => data,
        Err(e) => {
            return Err(AllocError::BlockDevice(e));
        },
    };
    group_desc::describe(&mut data, sb, group, &d, dirs);
    match fs_state::store_block(dev, txn, sb.block_size, b, data) {
        Ok(()) => Ok(()),
        Err(e) => Err(AllocError::BlockDevice(e)),
    }
}

fn descriptor_block(sb: &Superblock, group: usize) -> (b: u64)
    requires
        sb.wf(),
    ensures
        b == gdt_block(*sb, group as int),
{
    assert(0 <= group * sb.desc_size <= 0xffff_ffff_ffff_ffff * 0xffff) by (nonlinear_arith)
        requires
            group <= 0xffff_ffff_ffff_ffff,
            sb.desc_size <= 0xffff,
    ;
    let product: u128 = group as u128 * sb.desc_size as u128;
    let wide: u128 = product / sb.block_size as u128;
    assert(wide <= product) by (nonlinear_arith)
        requires
            wide == product / (sb.block_size as u128),
            sb.block_size > 0,
    ;
    let number: u128 = sb.first_data_block as u128 + 1 + wide;
    if number > u64::MAX as u128 {
        u64::MAX
    } else {
        number as u64
    }
}

} // verus!
