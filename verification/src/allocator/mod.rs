//! Allocation of blocks and inodes.
use vstd::prelude::*;
use crate::block_device;
use crate::block_device::{BlockDevice, BlockDeviceError};
use crate::fs_state::FsState;
use crate::group_desc::{GroupDesc, GroupDescError, GroupDescTable};
use crate::journal::writer::Transaction;
use crate::superblock::Superblock;

pub mod bits;
pub mod block_alloc;
pub mod block_bitmap;
pub mod inode_alloc;
pub mod inode_bitmap;
pub mod laws;

verus! {

/// Why nothing was allocated or freed.
#[derive(Debug)]
pub enum AllocError {
    NoFreeBlocks,
    NoFreeInodes,
    /// The block is free already.
    DoubleFreed(u64),
    GroupDesc(GroupDescError),
    BlockDevice(BlockDeviceError),
}

/// Allocates and frees blocks and inodes of a volume.
pub struct Allocator<'a> {
    pub sb: &'a Superblock,
    pub gdt: &'a mut GroupDescTable,
}

impl<'a> Allocator<'a> {
    /// The group descriptors as they stand.
    pub open spec fn table(&self) -> Seq<GroupDesc> {
        self.gdt@
    }

    pub fn new(sb: &'a Superblock, gdt: &'a mut GroupDescTable) -> (r: Self)
        ensures
            r.sb == sb,
            r.table() == old(gdt)@,
            *r.gdt == *old(gdt),
            *final(r.gdt) == *final(gdt),
    {
        Allocator { sb, gdt }
    }

    /// Allocate `count` blocks in a row.
    pub fn alloc_blocks<D: BlockDevice>(
        &mut self,
        dev: &mut D,
        txn: &mut Transaction,
        count: u32,
        hint: u64,
    ) -> (r: Result<u64, AllocError>)
        requires
            old(self).sb.wf(),
        ensures
            final(self).sb == old(self).sb,
            *final(final(self).gdt) == *final(old(self).gdt),
            block_device::same_shape(*old(dev), *final(dev)),
            r is Ok || old(dev).reliable() ==> (
                (FsState { disk: final(dev).bytes(), txn: final(txn)@, gdt: final(self).table() }),
                r,
            ) == block_alloc::allocated(
                FsState { disk: old(dev).bytes(), txn: old(txn)@, gdt: old(self).table() },
                *old(self).sb,
                count,
                hint,
            ),
    {
        block_alloc::alloc_blocks(dev, self.sb, self.gdt, txn, count, hint)
    }

    /// Free a single block.
    pub fn free_block<D: BlockDevice>(
        &mut self,
        dev: &mut D,
        txn: &mut Transaction,
        block: u64,
    ) -> (r: Result<(), AllocError>)
        requires
            old(self).sb.wf(),
        ensures
            final(self).sb == old(self).sb,
            *final(final(self).gdt) == *final(old(self).gdt),
            block_device::same_shape(*old(dev), *final(dev)),
            r is Ok || old(dev).reliable() ==> (
                (FsState { disk: final(dev).bytes(), txn: final(txn)@, gdt: final(self).table() }),
                r,
            ) == block_alloc::freed(
                FsState { disk: old(dev).bytes(), txn: old(txn)@, gdt: old(self).table() },
                *old(self).sb,
                block,
            ),
    {
        block_alloc::free_block(dev, self.sb, self.gdt, txn, block)
    }

    /// Allocate an inode; the group `hint_group` is tried first.
    pub fn alloc_inode<D: BlockDevice>(
        &mut self,
        dev: &mut D,
        txn: &mut Transaction,
        is_dir: bool,
        hint_group: usize,
    ) -> (r: Result<u32, AllocError>)
        requires
            old(self).sb.wf(),
        ensures
            final(self).sb == old(self).sb,
            *final(final(self).gdt) == *final(old(self).gdt),
            block_device::same_shape(*old(dev), *final(dev)),
            r is Ok || old(dev).reliable() ==> (
                (FsState { disk: final(dev).bytes(), txn: final(txn)@, gdt: final(self).table() }),
                r,
            ) == inode_alloc::allocated(
                FsState { disk: old(dev).bytes(), txn: old(txn)@, gdt: old(self).table() },
                *old(self).sb,
                is_dir,
                hint_group as int,
            ),
    {
        inode_alloc::alloc_inode(dev, self.sb, self.gdt, txn, is_dir, hint_group)
    }

    /// Free inode `inode_num` at the current time.
    pub fn free_inode<D: BlockDevice>(
        &mut self,
        dev: &mut D,
        txn: &mut Transaction,
        inode_num: u32,
    ) -> (r: Result<(), AllocError>)
        requires
            old(self).sb.wf(),
            inode_num > 0,
        ensures
            final(self).sb == old(self).sb,
            *final(final(self).gdt) == *final(old(self).gdt),
            block_device::same_shape(*old(dev), *final(dev)),
            r is Ok || old(dev).reliable() ==> exists|now: u32|
                (
                    (FsState {
                        disk: final(dev).bytes(),
                        txn: final(txn)@,
                        gdt: final(self).table(),
                    }),
                    r,
                ) == inode_alloc::freed(
                    FsState { disk: old(dev).bytes(), txn: old(txn)@, gdt: old(self).table() },
                    *old(self).sb,
                    inode_num,
                    now,
                ),
    {
        inode_alloc::free_inode(dev, self.sb, self.gdt, txn, inode_num)
    }

    pub fn gdt_ref(&self) -> (r: &GroupDescTable)
        ensures
            r@ == self.table(),
    {
        &*self.gdt
    }

    pub fn sb_ref(&self) -> (r: &Superblock)
        ensures
            r == self.sb,
    {
        self.sb
    }
}

} // verus!
