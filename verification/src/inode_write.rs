//! Changing the fields of an inode inside a transaction.
use vstd::prelude::*;
use crate::block_device::{BlockDevice, BlockDeviceError};
use crate::bytes;
use crate::fs_state;
use crate::group_desc;
use crate::group_desc::{GroupDesc, GroupDescError, GroupDescTable};
use crate::inode;
use crate::inode::InodeView;
use crate::journal::writer;
use crate::journal::writer::{Transaction, TxnView};
use crate::journal::JournalError;
use crate::superblock::Superblock;

verus! {

broadcast use crate::bytes::group_codec;

/// Why an inode was not changed.
#[derive(Debug)]
pub enum InodeWriteError {
    /// The inode asked for, and the largest there is.
    OutOfRange(u32, u32),
    BlockDevice(BlockDeviceError),
    GroupDesc(GroupDescError),
    InvalidBuffer,
    Journal(JournalError),
}

/// Which fields of an inode to change, and to what.
#[derive(Clone, Copy)]
pub struct InodeUpdate {
    pub size: Option<u64>,
    pub mode: Option<u16>,
    pub uid: Option<u32>,
    pub gid: Option<u32>,
    pub atime: Option<u32>,
    pub mtime: Option<u32>,
    pub ctime: Option<u32>,
    pub links_count: Option<u16>,
    pub flags: Option<u32>,
}

/// The update that changes nothing.
pub open spec fn no_update() -> InodeUpdate {
    InodeUpdate {
        size: None,
        mode: None,
        uid: None,
        gid: None,
        atime: None,
        mtime: None,
        ctime: None,
        links_count: None,
        flags: None,
    }
}

impl Default for InodeUpdate {
    fn default() -> (r: InodeUpdate)
        ensures
            r == no_update(),
    {
        InodeUpdate {
            size: None,
            mode: None,
            uid: None,
            gid: None,
            atime: None,
            mtime: None,
            ctime: None,
            links_count: None,
            flags: None,
        }
    }
}

impl InodeUpdate {
    pub fn with_size(self, v: u64) -> (r: Self)
        ensures
            r == (InodeUpdate { size: Some(v), ..self }),
    {
        let mut u = self;
        u.size = Some(v);
        u
    }

    pub fn with_mode(self, v: u16) -> (r: Self)
        ensures
            r == (InodeUpdate { mode: Some(v), ..self }),
    {
        let mut u = self;
        u.mode = Some(v);
        u
    }

    pub fn with_uid(self, v: u32) -> (r: Self)
        ensures
            r == (InodeUpdate { uid: Some(v), ..self }),
    {
        let mut u = self;
        u.uid = Some(v);
        u
    }

    pub fn with_gid(self, v: u32) -> (r: Self)
        ensures
            r == (InodeUpdate { gid: Some(v), ..self }),
    {
        let mut u = self;
        u.gid = Some(v);
        u
    }

    pub fn with_atime(self, v: u32) -> (r: Self)
        ensures
            r == (InodeUpdate { atime: Some(v), ..self }),
    {
        let mut u = self;
        u.atime = Some(v);
        u
    }

    pub fn with_mtime(self, v: u32) -> (r: Self)
        ensures
            r == (InodeUpdate { mtime: Some(v), ..self }),
    {
        let mut u = self;
        u.mtime = Some(v);
        u
    }

    pub fn with_ctime(self, v: u32) -> (r: Self)
        ensures
            r == (InodeUpdate { ctime: Some(v), ..self }),
    {
        let mut u = self;
        u.ctime = Some(v);
        u
    }

    pub fn with_links_count(self, v: u16) -> (r: Self)
        ensures
            r == (InodeUpdate { links_count: Some(v), ..self }),
    {
        let mut u = self;
        u.links_count = Some(v);
        u
    }

    pub fn with_flags(self, v: u32) -> (r: Self)
        ensures
            r == (InodeUpdate { flags: Some(v), ..self }),
    {
        let mut u = self;
        u.flags = Some(v);
        u
    }
}

/// The record with the 16-bit field at `at` changed.
pub open spec fn set16(rec: Seq<u8>, at: int, v: Option<u16>) -> Seq<u8> {
    match v {
        Some(v) => bytes::put(rec, at, bytes::le16_bytes(v)),
        None => rec,
    }
}

/// The record with the 32-bit field at `at` changed.
pub open spec fn set32(rec: Seq<u8>, at: int, v: Option<u32>) -> Seq<u8> {
    match v {
        Some(v) => bytes::put(rec, at, bytes::le32_bytes(v)),
        None => rec,
    }
}

/// The record with the size changed, whose halves lie apart.
pub open spec fn set_size(rec: Seq<u8>, v: Option<u64>) -> Seq<u8> {
    match v {
        Some(v) => bytes::put(
            bytes::put(rec, 4, bytes::le32_bytes((v % 0x1_0000_0000) as u32)),
            108,
            bytes::le32_bytes((v / 0x1_0000_0000) as u32),
        ),
        None => rec,
    }
}

/// The record with an owner changed, whose halves lie at `lo` and `hi`.
pub open spec fn set_owner(rec: Seq<u8>, lo: int, hi: int, v: Option<u32>) -> Seq<u8> {
    match v {
        Some(v) => bytes::put(
            bytes::put(rec, lo, bytes::le16_bytes((v % 0x1_0000) as u16)),
            hi,
            bytes::le16_bytes((v / 0x1_0000) as u16),
        ),
        None => rec,
    }
}

/// The record after the update.
pub open spec fn updated_record(rec: Seq<u8>, u: InodeUpdate) -> Seq<u8> {
    let r1 = set_size(rec, u.size);
    let r2 = set16(r1, 0, u.mode);
    let r3 = set32(r2, 8, u.atime);
    let r4 = set32(r3, 16, u.mtime);
    let r5 = set32(r4, 12, u.ctime);
    let r6 = set16(r5, 26, u.links_count);
    let r7 = set32(r6, 32, u.flags);
    let r8 = set_owner(r7, 2, 120, u.uid);
    set_owner(r8, 24, 122, u.gid)
}

/// The inode after the update: the fields that are named change, the others stay.
pub open spec fn updated_inode(i: InodeView, u: InodeUpdate) -> InodeView {
    InodeView {
        mode: u.mode.unwrap_or(i.mode),
        uid: u.uid.unwrap_or(i.uid),
        gid: u.gid.unwrap_or(i.gid),
        size: u.size.unwrap_or(i.size),
        atime: u.atime.unwrap_or(i.atime),
        mtime: u.mtime.unwrap_or(i.mtime),
        ctime: u.ctime.unwrap_or(i.ctime),
        links_count: u.links_count.unwrap_or(i.links_count),
        flags: u.flags.unwrap_or(i.flags),
        block_data: i.block_data,
    }
}

proof fn lemma_set_size(rec: Seq<u8>, v: Option<u64>)
    requires
        rec.len() == 128,
    ensures
        set_size(rec, v).len() == 128,
        bytes::le32(set_size(rec, v), 20) == bytes::le32(rec, 20),
        inode::inode_of(set_size(rec, v)) == updated_inode(
            inode::inode_of(rec),
            InodeUpdate { size: v, ..no_update() },
        ),
{
    assert(inode::inode_of(set_size(rec, v)) =~= updated_inode(
        inode::inode_of(rec),
        InodeUpdate { size: v, ..no_update() },
    ));
}

proof fn lemma_set_small(rec: Seq<u8>, m: Option<u16>, l: Option<u16>, f: Option<u32>)
    requires
        rec.len() == 128,
    ensures
        bytes::le32(set16(rec, 0, m), 20) == bytes::le32(rec, 20),
        bytes::le32(set16(rec, 26, l), 20) == bytes::le32(rec, 20),
        bytes::le32(set32(rec, 32, f), 20) == bytes::le32(rec, 20),
        inode::inode_of(set16(rec, 0, m)) == updated_inode(
            inode::inode_of(rec),
            InodeUpdate { mode: m, ..no_update() },
        ),
        inode::inode_of(set16(rec, 26, l)) == updated_inode(
            inode::inode_of(rec),
            InodeUpdate { links_count: l, ..no_update() },
        ),
        inode::inode_of(set32(rec, 32, f)) == updated_inode(
            inode::inode_of(rec),
            InodeUpdate { flags: f, ..no_update() },
        ),
{
    assert(inode::inode_of(set16(rec, 0, m)) =~= updated_inode(
        inode::inode_of(rec),
        InodeUpdate { mode: m, ..no_update() },
    ));
    assert(inode::inode_of(set16(rec, 26, l)) =~= updated_inode(
        inode::inode_of(rec),
        InodeUpdate { links_count: l, ..no_update() },
    ));
    assert(inode::inode_of(set32(rec, 32, f)) =~= updated_inode(
        inode::inode_of(rec),
        InodeUpdate { flags: f, ..no_update() },
    ));
}

proof fn lemma_set_times(rec: Seq<u8>, a: Option<u32>, m: Option<u32>, c: Option<u32>)
    requires
        rec.len() == 128,
    ensures
        bytes::le32(set32(rec, 8, a), 20) == bytes::le32(rec, 20),
        bytes::le32(set32(rec, 16, m), 20) == bytes::le32(rec, 20),
        bytes::le32(set32(rec, 12, c), 20) == bytes::le32(rec, 20),
        inode::inode_of(set32(rec, 8, a)) == updated_inode(
            inode::inode_of(rec),
            InodeUpdate { atime: a, ..no_update() },
        ),
        inode::inode_of(set32(rec, 16, m)) == updated_inode(
            inode::inode_of(rec),
            InodeUpdate { mtime: m, ..no_update() },
        ),
        inode::inode_of(set32(rec, 12, c)) == updated_inode(
            inode::inode_of(rec),
            InodeUpdate { ctime: c, ..no_update() },
        ),
{
    assert(inode::inode_of(set32(rec, 8, a)) =~= updated_inode(
        inode::inode_of(rec),
        InodeUpdate { atime: a, ..no_update() },
    ));
    assert(inode::inode_of(set32(rec, 16, m)) =~= updated_inode(
        inode::inode_of(rec),
        InodeUpdate { mtime: m, ..no_update() },
    ));
    assert(inode::inode_of(set32(rec, 12, c)) =~= updated_inode(
        inode::inode_of(rec),
        InodeUpdate { ctime: c, ..no_update() },
    ));
}

proof fn lemma_set_owners(rec: Seq<u8>, u: Option<u32>, g: Option<u32>)
    requires
        rec.len() == 128,
    ensures
        bytes::le32(set_owner(rec, 2, 120, u), 20) == bytes::le32(rec, 20),
        bytes::le32(set_owner(rec, 24, 122, g), 20) == bytes::le32(rec, 20),
        inode::inode_of(set_owner(rec, 2, 120, u)) == updated_inode(
            inode::inode_of(rec),
            InodeUpdate { uid: u, ..no_update() },
        ),
        inode::inode_of(set_owner(rec, 24, 122, g)) == updated_inode(
            inode::inode_of(rec),
            InodeUpdate { gid: g, ..no_update() },
        ),
{
    assert(inode::inode_of(set_owner(rec, 2, 120, u)) =~= updated_inode(
        inode::inode_of(rec),
        InodeUpdate { uid: u, ..no_update() },
    ));
    assert(inode::inode_of(set_owner(rec, 24, 122, g)) =~= updated_inode(
        inode::inode_of(rec),
        InodeUpdate { gid: g, ..no_update() },
    ));
}

/// An updated record holds the updated inode, and is deleted only if it was.
pub proof fn lemma_updated_record(rec: Seq<u8>, u: InodeUpdate)
    requires
        rec.len() == 128,
    ensures
        updated_record(rec, u).len() == 128,
        inode::inode_of(updated_record(rec, u)) == updated_inode(inode::inode_of(rec), u),
        bytes::le32(updated_record(rec, u), 20) == bytes::le32(rec, 20),
{
    let r1 = set_size(rec, u.size);
    let r2 = set16(r1, 0, u.mode);
    let r3 = set32(r2, 8, u.atime);
    let r4 = set32(r3, 16, u.mtime);
    let r5 = set32(r4, 12, u.ctime);
    let r6 = set16(r5, 26, u.links_count);
    let r7 = set32(r6, 32, u.flags);
    let r8 = set_owner(r7, 2, 120, u.uid);
    lemma_set_size(rec, u.size);
    lemma_set_small(r1, u.mode, None, None);
    lemma_set_times(r2, u.atime, None, None);
    lemma_set_times(r3, None, u.mtime, None);
    lemma_set_times(r4, None, None, u.ctime);
    lemma_set_small(r5, None, u.links_count, None);
    lemma_set_small(r6, None, None, u.flags);
    lemma_set_owners(r7, u.uid, None);
    lemma_set_owners(r8, None, u.gid);
    assert(inode::inode_of(updated_record(rec, u)) =~= updated_inode(inode::inode_of(rec), u));
}

/// Updating inode `num`: the table block as the transaction sees it, with the
/// record changed, is pinned.
pub open spec fn updated(
    disk: Seq<u8>,
    sb: Superblock,
    gdt: Seq<GroupDesc>,
    txn: TxnView,
    num: u32,
    u: InodeUpdate,
) -> (TxnView, Result<(), InodeWriteError>) {
    if !inode::inode_in_range(sb, num) {
        (txn, Err(InodeWriteError::OutOfRange(num, sb.inodes_count)))
    } else {
        match group_desc::desc_at(gdt, inode::group_of(sb, num)) {
            Err(e) => (txn, Err(InodeWriteError::GroupDesc(e))),
            Ok(d) => {
                let b = inode::slot_block(sb, d, num);
                let o = inode::slot_offset(sb, num);
                match fs_state::fetched(disk, txn.blocks, sb.block_size, b) {
                    Err(e) => (txn, Err(InodeWriteError::BlockDevice(e))),
                    Ok(t) => (
                        writer::txn_pin(
                            txn,
                            b,
                            bytes::put(t, o, updated_record(t.subrange(o, o + 128), u)),
                        ),
                        Ok(()),
                    ),
                }
            },
        }
    }
}

/// Whether inodes `a` and `b` have records of their own: in different blocks,
/// or apart from each other in one.
pub open spec fn apart(sb: Superblock, gdt: Seq<GroupDesc>, a: u32, b: u32) -> bool {
    inode::slot_block(sb, gdt[inode::group_of(sb, a)], a) != inode::slot_block(
        sb,
        gdt[inode::group_of(sb, b)],
        b,
    ) || inode::slot_offset(sb, a) + 128 <= inode::slot_offset(sb, b) || inode::slot_offset(sb, b)
        + 128 <= inode::slot_offset(sb, a)
}

/// An update is seen by later reads in the same transaction, and does not
/// change how another inode reads in it, though both records lie in one block.
///
/// On a device of more than 2^64 bytes the other record's block must be pinned: one
/// behind that many is out of reach on the device, and not in a pinned block.
pub proof fn law_update_then_read(
    disk: Seq<u8>,
    sb: Superblock,
    gdt: Seq<GroupDesc>,
    txn: TxnView,
    num: u32,
    u: InodeUpdate,
    other: u32,
)
    requires
        sb.wf(),
        updated(disk, sb, gdt, txn, num, u).1 is Ok,
        inode::inode_in_range(sb, other),
        inode::group_of(sb, other) < gdt.len(),
    ensures
        ({
            let after = updated(disk, sb, gdt, txn, num, u).0;
            let d = gdt[inode::group_of(sb, num)];
            let o = inode::slot_offset(sb, num);
            let rec = fs_state::fetched(
                disk,
                txn.blocks,
                sb.block_size,
                inode::slot_block(sb, d, num),
            )->Ok_0.subrange(o, o + 128);
            inode::inode_in_txn(disk, sb, gdt, after.blocks, num) == (if bytes::le32(rec, 20)
                != 0 {
                Err(inode::InodeError::Deleted(num))
            } else {
                Ok(updated_inode(inode::inode_of(rec), u))
            })
        }),
        ({
            let after = updated(disk, sb, gdt, txn, num, u).0;
            let p = writer::pinned(
                txn.blocks,
                inode::slot_block(sb, gdt[inode::group_of(sb, other)], other),
            );
            let in_reach = disk.len() <= u64::MAX || (p is Some && p->Some_0.len()
                == sb.block_size);
            in_reach && apart(sb, gdt, num, other) ==> inode::inode_in_txn(
                disk,
                sb,
                gdt,
                after.blocks,
                other,
            ) == inode::inode_in_txn(disk, sb, gdt, txn.blocks, other)
        }),
{
    let d = gdt[inode::group_of(sb, num)];
    let b = inode::slot_block(sb, d, num);
    let o = inode::slot_offset(sb, num);
    inode::lemma_slot_offset(sb, num);
    inode::lemma_slot_offset(sb, other);
    crate::block_device::lemma_block_at(disk, sb.block_size, b);
    let t = fs_state::fetched(disk, txn.blocks, sb.block_size, b)->Ok_0;
    let rec = t.subrange(o, o + 128);
    lemma_updated_record(rec, u);
    let t2 = bytes::put(t, o, updated_record(rec, u));
    assert(t.len() == sb.block_size);
    assert(t2.subrange(o, o + 128) =~= updated_record(rec, u));
    writer::lemma_pin(
        txn.blocks,
        b,
        t2,
        inode::slot_block(sb, gdt[inode::group_of(sb, other)], other),
    );
    vstd::arithmetic::div_mod::lemma_div_pos_is_pos(num - 1, sb.inodes_per_group as int);
    vstd::arithmetic::div_mod::lemma_div_pos_is_pos(other - 1, sb.inodes_per_group as int);
    let oo = inode::slot_offset(sb, other);
    if apart(sb, gdt, num, other) {
        let x = inode::slot_block(sb, gdt[inode::group_of(sb, other)], other);
        if b == x {
            assert(t2.subrange(oo, oo + 128) =~= t.subrange(oo, oo + 128));
            let p = writer::pinned(txn.blocks, b);
            if !(p is Some && p->Some_0.len() == sb.block_size) && disk.len() <= u64::MAX {
                let e = gdt[inode::group_of(sb, other)];
                let bs = sb.block_size;
                if e.inode_table + inode::index_of(sb, other) / inode::inodes_per_block(sb)
                    > u64::MAX {
                    assert(x * bs > u64::MAX) by (nonlinear_arith)
                        requires
                            x == u64::MAX,
                            bs >= 1024,
                    ;
                }
                crate::laws::inodes::lemma_record_block(sb, e, other);
                crate::laws::volume::lemma_record_in_block(disk, sb, gdt, other);
            }
        }
    }
}

/// The block that holds the record of inode `inode_num`, and where in it.
pub(crate) fn inode_location(sb: &Superblock, gdt: &GroupDescTable, inode_num: u32) -> (r: Result<
    (u64, usize),
    InodeWriteError,
>)
    requires
        sb.wf(),
    ensures
        if !inode::inode_in_range(*sb, inode_num) {
            r == Err::<(u64, usize), InodeWriteError>(
                InodeWriteError::OutOfRange(inode_num, sb.inodes_count),
            )
        } else {
            match group_desc::desc_at(gdt@, inode::group_of(*sb, inode_num)) {
                Err(e) => r == Err::<(u64, usize), InodeWriteError>(
                    InodeWriteError::GroupDesc(e),
                ),
                Ok(d) => {
                    &&& r is Ok
                    &&& r->Ok_0.0 == inode::slot_block(*sb, d, inode_num)
                    &&& r->Ok_0.1 == inode::slot_offset(*sb, inode_num)
                    &&& r->Ok_0.1 + sb.inode_size <= sb.block_size
                },
            }
        },
{
    if inode_num == 0 || inode_num > sb.inodes_count {
        return Err(InodeWriteError::OutOfRange(inode_num, sb.inodes_count));
    }
    let group: u32 = (inode_num - 1) / sb.inodes_per_group;
    match gdt.get(group as usize) {
        Ok(d) => Ok(inode::slot(sb, d, inode_num)),
        Err(e) => Err(InodeWriteError::GroupDesc(e)),
    }
}

fn apply(rec: &mut Vec<u8>, u: InodeUpdate)
    requires
        old(rec)@.len() == 128,
    ensures
        final(rec)@ == updated_record(old(rec)@, u),
        final(rec)@.len() == 128,
{
    if let Some(v) = u.size {
        bytes::put_u32_le(rec, 4, (v % 0x1_0000_0000) as u32);
        bytes::put_u32_le(rec, 108, (v / 0x1_0000_0000) as u32);
    }
    if let Some(v) = u.mode {
        bytes::put_u16_le(rec, 0, v);
    }
    if let Some(v) = u.atime {
        bytes::put_u32_le(rec, 8, v);
    }
    if let Some(v) = u.mtime {
        bytes::put_u32_le(rec, 16, v);
    }
    if let Some(v) = u.ctime {
        bytes::put_u32_le(rec, 12, v);
    }
    if let Some(v) = u.links_count {
        bytes::put_u16_le(rec, 26, v);
    }
    if let Some(v) = u.flags {
        bytes::put_u32_le(rec, 32, v);
    }
    if let Some(v) = u.uid {
        bytes::put_u16_le(rec, 2, (v % 0x1_0000) as u16);
        bytes::put_u16_le(rec, 120, (v / 0x1_0000) as u16);
    }
    if let Some(v) = u.gid {
        bytes::put_u16_le(rec, 24, (v % 0x1_0000) as u16);
        bytes::put_u16_le(rec, 122, (v / 0x1_0000) as u16);
    }
}

/// Change fields of an inode inside a transaction.
pub fn update_inode<D: BlockDevice>(
    dev: &D,
    sb: &Superblock,
    gdt: &GroupDescTable,
    txn: &mut Transaction,
    inode_num: u32,
    update: InodeUpdate,
) -> (r: Result<(), InodeWriteError>)
    requires
        sb.wf(),
    ensures
        r is Ok || dev.reliable() ==> (final(txn)@, r) == updated(
            dev.bytes(),
            *sb,
            gdt@,
            old(txn)@,
            inode_num,
            update,
        ),
        r is Err ==> final(txn)@ == old(txn)@,
{
    let (block, offset) = match inode_location(sb, gdt, inode_num) {
        Ok(l) => l,
        Err(e) => {
            return Err(e);
        },
    };
    let mut table = match fs_state::fetch_block(dev, txn, sb.block_size, block) {
        Ok(t) => t,
        Err(e) => {
            return Err(InodeWriteError::BlockDevice(e));
        },
    };
    let mut rec = bytes::copy_range(table.as_slice(), offset, offset + 128);
    apply(&mut rec, update);
    bytes::put_bytes(&mut table, offset, rec.as_slice());
    match txn.pin_block(block, table) {
        Ok(()) => Ok(()),
        Err(e) => Err(InodeWriteError::Journal(e)),
    }
}

} // verus!
