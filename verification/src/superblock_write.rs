//! Changing the superblock inside a transaction.
use vstd::prelude::*;
use crate::block_device;
use crate::block_device::{BlockDevice, BlockDeviceError};
use crate::bytes;
use crate::journal::writer;
use crate::journal::writer::{Transaction, TxnView};
use crate::journal::JournalError;
use crate::superblock::{Superblock, SUPERBLOCK_SIZE};

verus! {

broadcast use crate::bytes::group_codec;

/// Why the superblock was not changed.
#[derive(Debug)]
pub enum SuperblockWriteError {
    BlockDevice(BlockDeviceError),
    InvalidBuffer,
    Journal(JournalError),
}

/// The block that holds the superblock, at byte 1024 of the volume: block 1
/// where blocks are 1 KiB, and block 0 otherwise.
pub open spec fn home_block(sb: Superblock) -> u64 {
    if sb.block_size <= 1024 {
        1
    } else {
        0
    }
}

/// Where in that block the superblock starts.
pub open spec fn home_offset(sb: Superblock) -> int {
    if sb.block_size <= 1024 {
        0
    } else {
        1024
    }
}

/// The block with the counts of free blocks and inodes, and the time of the
/// last write, changed in the superblock at `o`.
pub open spec fn recounted(
    b: Seq<u8>,
    o: int,
    free_blocks: u64,
    free_inodes: u32,
    wtime: u32,
) -> Seq<
    u8,
> {
    let b1 = bytes::put(b, o + 12, bytes::le32_bytes((free_blocks % 0x1_0000_0000) as u32));
    let b2 = bytes::put(b1, o + 344, bytes::le32_bytes((free_blocks / 0x1_0000_0000) as u32));
    let b3 = bytes::put(b2, o + 16, bytes::le32_bytes(free_inodes));
    bytes::put(b3, o + 48, bytes::le32_bytes(wtime))
}

/// Updating the superblock: its block, with the new counts, is pinned.
pub open spec fn updated(
    disk: Seq<u8>,
    sb: Superblock,
    txn: TxnView,
    free_blocks: u64,
    free_inodes: u32,
    wtime: u32,
) -> (TxnView, Result<(), SuperblockWriteError>) {
    match block_device::block_at(disk, sb.block_size, home_block(sb)) {
        Err(e) => (txn, Err(SuperblockWriteError::BlockDevice(e))),
        Ok(b) => (
            writer::txn_pin(
                txn,
                home_block(sb),
                recounted(b, home_offset(sb), free_blocks, free_inodes, wtime),
            ),
            Ok(()),
        ),
    }
}

/// The new counts and time stand in the superblock, at the offsets of their
/// fields, and nothing else in the block changes.
pub proof fn law_recounted(b: Seq<u8>, o: int, free_blocks: u64, free_inodes: u32, wtime: u32)
    requires
        0 <= o,
        o + 1024 <= b.len(),
    ensures
        ({
            let n = recounted(b, o, free_blocks, free_inodes, wtime);
            &&& n.len() == b.len()
            &&& bytes::le32(n, o + 12) + 0x1_0000_0000 * bytes::le32(n, o + 344) == free_blocks
            &&& bytes::le32(n, o + 16) == free_inodes
            &&& bytes::le32(n, o + 48) == wtime
            &&& forall|i: int|
                0 <= i < b.len() && !(o + 12 <= i < o + 20) && !(o + 48 <= i < o + 52) && !(o + 344
                    <= i < o + 348) ==> n[i] == b[i]
        }),
{
}

/// Put new counts of free blocks and inodes, and the time of the write, into
/// the superblock, inside a transaction.
pub fn update_superblock<D: BlockDevice>(
    dev: &D,
    sb: &Superblock,
    txn: &mut Transaction,
    free_blocks: u64,
    free_inodes: u32,
    wtime: u32,
) -> (r: Result<(), SuperblockWriteError>)
    requires
        sb.wf(),
    ensures
        r is Ok || dev.reliable() ==> (final(txn)@, r) == updated(
            dev.bytes(),
            *sb,
            old(txn)@,
            free_blocks,
            free_inodes,
            wtime,
        ),
        r is Err ==> final(txn)@ == old(txn)@,
{
    let (block, offset): (u64, usize) = if sb.block_size <= 1024 {
        (1, 0)
    } else {
        (0, 1024)
    };
    let mut buf = match block_device::read_block(dev, sb.block_size, block) {
        Ok(b) => b,
        Err(e) => {
            return Err(SuperblockWriteError::BlockDevice(e));
        },
    };
    if buf.len() < offset + SUPERBLOCK_SIZE {
        return Err(SuperblockWriteError::InvalidBuffer);
    }
    bytes::put_u32_le(&mut buf, offset + 12, (free_blocks % 0x1_0000_0000) as u32);
    bytes::put_u32_le(&mut buf, offset + 344, (free_blocks / 0x1_0000_0000) as u32);
    bytes::put_u32_le(&mut buf, offset + 16, free_inodes);
    bytes::put_u32_le(&mut buf, offset + 48, wtime);
    match txn.pin_block(block, buf) {
        Ok(()) => Ok(()),
        Err(e) => Err(SuperblockWriteError::Journal(e)),
    }
}

} // verus!
