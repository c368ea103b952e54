//! What an operation on a volume reads and changes, as one value.
use vstd::prelude::*;
use crate::block_device;
use crate::block_device::{BlockDevice, BlockDeviceError};
use crate::group_desc::{GroupDesc, GroupDescTable};
use crate::journal::writer;
use crate::journal::writer::{Transaction, TxnView};

verus! {

/// The bytes on the device, the running transaction, and the group descriptors
/// in memory.
#[verifier::ext_equal]
pub struct FsState {
    pub disk: Seq<u8>,
    pub txn: TxnView,
    pub gdt: Seq<GroupDesc>,
}

/// The state of a device, a transaction and a descriptor table.
pub open spec fn now<D: BlockDevice>(dev: D, txn: Transaction, gdt: GroupDescTable) -> FsState {
    FsState { disk: dev.bytes(), txn: txn@, gdt: gdt@ }
}

pub open spec fn pin(st: FsState, b: u64, data: Seq<u8>) -> FsState {
    FsState { txn: writer::txn_pin(st.txn, b, data), ..st }
}

pub open spec fn revoke(st: FsState, b: u64) -> FsState {
    FsState { txn: writer::txn_revoke(st.txn, b), ..st }
}

/// Writing block `b` through: to the device at once, and into the transaction.
pub open spec fn store(st: FsState, bs: u32, b: u64, data: Seq<u8>) -> (
    FsState,
    Result<(), BlockDeviceError>,
) {
    let disk = block_device::with_block(st.disk, bs, b, data);
    let r = block_device::block_write_result(st.disk, bs, b, data);
    (
        FsState {
            disk,
            txn: if r is Ok {
                writer::txn_pin(st.txn, b, data)
            } else {
                st.txn
            },
            gdt: st.gdt,
        },
        r,
    )
}

/// The contents of block `b` as the transaction sees it: what it pinned, or
/// else what is on the device.
pub open spec fn fetched(disk: Seq<u8>, pins: Seq<(u64, Seq<u8>)>, bs: u32, b: u64) -> Result<
    Seq<u8>,
    BlockDeviceError,
> {
    match writer::pinned(pins, b) {
        Some(d) if d.len() == bs => Ok(d),
        _ => block_device::block_at(disk, bs, b),
    }
}

/// Write block `b` through to the device, and pin it.
pub(crate) fn store_block<D: BlockDevice>(
    dev: &mut D,
    txn: &mut Transaction,
    block_size: u32,
    b: u64,
    data: Vec<u8>,
) -> (r: Result<(), BlockDeviceError>)
    requires
        block_device::sectored(block_size),
        data@.len() == block_size,
    ensures
        block_device::same_shape(*old(dev), *final(dev)),
        r is Ok || old(dev).reliable() ==> {
            &&& final(dev).bytes() == block_device::with_block(
                old(dev).bytes(),
                block_size,
                b,
                data@,
            )
            &&& r == block_device::block_write_result(old(dev).bytes(), block_size, b, data@)
        },
        final(txn)@ == (if r is Ok {
            writer::txn_pin(old(txn)@, b, data@)
        } else {
            old(txn)@
        }),
{
    match block_device::write_block(dev, block_size, b, data.as_slice()) {
        Ok(()) => {},
        Err(e) => {
            return Err(e);
        },
    }
    let _ = txn.pin_block(b, data);
    Ok(())
}

/// Read block `b` as the transaction sees it.
pub(crate) fn fetch_block<D: BlockDevice>(
    dev: &D,
    txn: &Transaction,
    block_size: u32,
    b: u64,
) -> (r: Result<Vec<u8>, BlockDeviceError>)
    requires
        block_device::sectored(block_size),
    ensures
        r is Ok || dev.reliable() ==> block_device::bytes_of(r) == fetched(
            dev.bytes(),
            txn@.blocks,
            block_size,
            b,
        ),
        r is Ok ==> r->Ok_0@.len() == block_size,
{
    match txn.pinned_copy(b, block_size) {
        Some(d) => Ok(d),
        None => block_device::read_block(dev, block_size, b),
    }
}

} // verus!
