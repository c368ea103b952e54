//! The requests that a mounted volume serves.
use vstd::prelude::*;
use crate::block_device::BlockDevice;
use crate::bytes;
use crate::extent_write;
use crate::fs_context;
use crate::fs_context::{Ext4Fs, VolState};
use crate::fs_state;
use crate::fs_state::FsState;
use crate::group_desc::{GroupDesc, GroupDescTable};
use crate::inode;
use crate::inode::{Inode, InodeView};
use crate::inode_write;
use crate::inode_write::InodeUpdate;
use crate::journal::writer::{Transaction, TxnView};
use crate::superblock::Superblock;
use crate::superblock_write;
use crate::text;

pub mod create;
pub mod delete;
pub mod file_info;
pub mod flush;
pub mod open_close;
pub mod read_directory;
pub mod read_file;
pub mod rename;
pub mod security;
pub mod set_file_info;
pub mod set_file_size;
pub mod volume_info;
pub mod write_file;

verus! {

/// What a refused request is answered.
#[derive(Debug, Clone, Copy, PartialEq, Eq, Structural)]
pub enum Status {
    /// The mount is read-only.
    MediaWriteProtected,
    ObjectPathNotFound,
    ObjectNameInvalid,
    ObjectNameNotFound,
    ObjectNameCollision,
    NotADirectory,
    DirectoryNotEmpty,
    DiskFull,
    AccessDenied,
    NotAReparsePoint,
    BufferTooSmall,
    NameTooLong,
    InvalidDeviceRequest,
    InternalError,
}

impl Status {
    /// The number that the status has on Windows.
    pub open spec fn number(self) -> u32 {
        match self {
            Status::MediaWriteProtected => 0xC000_00A2,
            Status::ObjectPathNotFound => 0xC000_003A,
            Status::ObjectNameInvalid => 0xC000_0033,
            Status::ObjectNameNotFound => 0xC000_0034,
            Status::ObjectNameCollision => 0xC000_0035,
            Status::NotADirectory => 0xC000_0103,
            Status::DirectoryNotEmpty => 0xC000_0101,
            Status::DiskFull => 0xC000_007F,
            Status::AccessDenied => 0xC000_0022,
            Status::NotAReparsePoint => 0xC000_0275,
            Status::BufferTooSmall => 0xC000_0023,
            Status::NameTooLong => 0xC000_0106,
            Status::InvalidDeviceRequest => 0xC000_0010,
            Status::InternalError => 0xC000_00E5,
        }
    }

    /// The number that the status has on Windows.
    pub fn code(self) -> (n: u32)
        ensures
            n == self.number(),
    {
        match self {
            Status::MediaWriteProtected => 0xC000_00A2,
            Status::ObjectPathNotFound => 0xC000_003A,
            Status::ObjectNameInvalid => 0xC000_0033,
            Status::ObjectNameNotFound => 0xC000_0034,
            Status::ObjectNameCollision => 0xC000_0035,
            Status::NotADirectory => 0xC000_0103,
            Status::DirectoryNotEmpty => 0xC000_0101,
            Status::DiskFull => 0xC000_007F,
            Status::AccessDenied => 0xC000_0022,
            Status::NotAReparsePoint => 0xC000_0275,
            Status::BufferTooSmall => 0xC000_0023,
            Status::NameTooLong => 0xC000_0106,
            Status::InvalidDeviceRequest => 0xC000_0010,
            Status::InternalError => 0xC000_00E5,
        }
    }
}

/// A Windows path as a path of the volume.
pub open spec fn volume_path(file_name: Seq<char>) -> Seq<char> {
    text::replaced(file_name, '\\', "/"@)
}

/// The time as a request stamps it: the low 32 bits of the seconds since the
/// Unix epoch, and 0 where the clock stands before it.
pub open spec fn stamp(seconds: Option<u64>) -> u32 {
    match seconds {
        Some(s) => (s % 0x1_0000_0000) as u32,
        None => 0,
    }
}

pub(crate) fn now(seconds: Option<u64>) -> (r: u32)
    ensures
        r == stamp(seconds),
{
    match seconds {
        Some(s) => (s % 0x1_0000_0000) as u32,
        None => 0,
    }
}

/// The free blocks of all groups.
pub open spec fn free_blocks(gdt: Seq<GroupDesc>) -> int
    decreases gdt.len(),
{
    if gdt.len() == 0 {
        0
    } else {
        free_blocks(gdt.drop_last()) + gdt.last().free_blocks_count
    }
}

/// The free inodes of all groups.
pub open spec fn free_inodes(gdt: Seq<GroupDesc>) -> int
    decreases gdt.len(),
{
    if gdt.len() == 0 {
        0
    } else {
        free_inodes(gdt.drop_last()) + gdt.last().free_inodes_count
    }
}

/// Count the free blocks of all groups; the count stops at what 64 bits hold.
pub(crate) fn count_free_blocks(gdt: &GroupDescTable) -> (n: u64)
    ensures
        n == bytes::sat64(free_blocks(gdt@)),
{
    let len: usize = gdt.group_count();
    let mut n: u64 = 0;
    let mut i: usize = 0;
    assert(gdt@.take(0) =~= Seq::empty());
    while i < len
        invariant
            len == gdt@.len(),
            i <= len,
            n == bytes::sat64(free_blocks(gdt@.take(i as int))),
            0 <= free_blocks(gdt@.take(i as int)),
        decreases len - i,
    {
        assert(gdt@.take(i + 1).drop_last() =~= gdt@.take(i as int));
        match gdt.get(i) {
            Ok(d) => {
                n = n.saturating_add(d.free_blocks_count as u64);
            },
            Err(_) => {},
        }
        i = i + 1;
    }
    assert(gdt@.take(len as int) =~= gdt@);
    n
}

/// Count the free inodes of all groups; the count stops at what 32 bits hold.
pub(crate) fn count_free_inodes(gdt: &GroupDescTable) -> (n: u32)
    ensures
        n == extent_write::sat32(free_inodes(gdt@)),
{
    let len: usize = gdt.group_count();
    let mut n: u32 = 0;
    let mut i: usize = 0;
    assert(gdt@.take(0) =~= Seq::empty());
    while i < len
        invariant
            len == gdt@.len(),
            i <= len,
            n == extent_write::sat32(free_inodes(gdt@.take(i as int))),
            0 <= free_inodes(gdt@.take(i as int)),
        decreases len - i,
    {
        assert(gdt@.take(i + 1).drop_last() =~= gdt@.take(i as int));
        match gdt.get(i) {
            Ok(d) => {
                n = n.saturating_add(d.free_inodes_count);
            },
            Err(_) => {},
        }
        i = i + 1;
    }
    assert(gdt@.take(len as int) =~= gdt@);
    n
}

/// Changing fields of inode `num` in a transaction.
pub open spec fn touched(st: FsState, sb: Superblock, num: u32, u: InodeUpdate) -> (
    FsState,
    Result<(), Status>,
) {
    let (t, r) = inode_write::updated(st.disk, sb, st.gdt, st.txn, num, u);
    (
        FsState { txn: t, ..st },
        if r is Ok {
            Ok(())
        } else {
            Err(Status::InternalError)
        },
    )
}

/// The update of a number of links.
pub open spec fn relink(links: u16, seconds: Option<u64>) -> InodeUpdate {
    InodeUpdate {
        links_count: Some(links),
        ctime: Some(stamp(seconds)),
        ..inode_write::no_update()
    }
}

/// The update of a file's size.
pub open spec fn resize(size: u64, seconds: Option<u64>) -> InodeUpdate {
    InodeUpdate {
        size: Some(size),
        mtime: Some(stamp(seconds)),
        ctime: Some(stamp(seconds)),
        ..inode_write::no_update()
    }
}

pub(crate) fn touch<D: BlockDevice>(
    dev: &D,
    sb: &Superblock,
    gdt: &GroupDescTable,
    txn: &mut Transaction,
    num: u32,
    update: InodeUpdate,
) -> (r: Result<(), Status>)
    requires
        sb.wf(),
    ensures
        r is Ok || dev.reliable() ==> (fs_state::now(*dev, *final(txn), *gdt), r) == touched(
            fs_state::now(*dev, *old(txn), *gdt),
            *sb,
            num,
            update,
        ),
{
    match inode_write::update_inode(dev, sb, gdt, txn, num, update) {
        Ok(()) => Ok(()),
        Err(_) => Err(Status::InternalError),
    }
}

pub(crate) fn relinked_at(links: u16, seconds: Option<u64>) -> (r: InodeUpdate)
    ensures
        r == relink(links, seconds),
{
    InodeUpdate::default().with_links_count(links).with_ctime(now(seconds))
}

pub(crate) fn resized_at(size: u64, seconds: Option<u64>) -> (r: InodeUpdate)
    ensures
        r == resize(size, seconds),
{
    let t: u32 = now(seconds);
    InodeUpdate::default().with_size(size).with_mtime(t).with_ctime(t)
}

/// Putting the counts of free blocks and inodes into the superblock.
pub open spec fn recounted(st: FsState, sb: Superblock, seconds: Option<u64>) -> (
    FsState,
    Result<(), Status>,
) {
    let (t, r) = superblock_write::updated(
        st.disk,
        sb,
        st.txn,
        bytes::sat64(free_blocks(st.gdt)),
        extent_write::sat32(free_inodes(st.gdt)),
        stamp(seconds),
    );
    (
        FsState { txn: t, ..st },
        if r is Ok {
            Ok(())
        } else {
            Err(Status::InternalError)
        },
    )
}

pub(crate) fn recount<D: BlockDevice>(
    dev: &D,
    sb: &Superblock,
    gdt: &GroupDescTable,
    txn: &mut Transaction,
    seconds: Option<u64>,
) -> (r: Result<(), Status>)
    requires
        sb.wf(),
    ensures
        r is Ok || dev.reliable() ==> (fs_state::now(*dev, *final(txn), *gdt), r) == recounted(
            fs_state::now(*dev, *old(txn), *gdt),
            *sb,
            seconds,
        ),
{
    let blocks: u64 = count_free_blocks(gdt);
    let inodes: u32 = count_free_inodes(gdt);
    match superblock_write::update_superblock(dev, sb, txn, blocks, inodes, now(seconds)) {
        Ok(()) => Ok(()),
        Err(_) => Err(Status::InternalError),
    }
}

/// Committing the transaction `t`.
pub open spec fn ended(v: VolState, t: TxnView) -> (VolState, Result<(), Status>) {
    let (v2, ok) = fs_context::closed(v, t);
    (
        v2,
        if ok {
            Ok(())
        } else {
            Err(Status::InternalError)
        },
    )
}

/// Committing the transaction `t`, and reading inode `num` afterwards.
pub open spec fn finished(v: VolState, sb: Superblock, t: TxnView, num: u32) -> (
    VolState,
    Result<InodeView, Status>,
) {
    let (v2, r) = ended(v, t);
    match r {
        Err(e) => (v2, Err(e)),
        Ok(()) => match inode::inode_at(v2.disk, sb, v2.gdt, num) {
            Err(_) => (v2, Err(Status::InternalError)),
            Ok(i) => (v2, Ok(i)),
        },
    }
}

impl<D: BlockDevice> Ext4Fs<D> {
    /// Commit a transaction.
    pub(crate) fn close(&mut self, txn: Transaction) -> (r: Result<(), Status>)
        requires
            old(self).wf(),
        ensures
            old(self).same_volume(final(self)),
            r is Ok || old(self).dev.reliable() ==> (final(self).state(), r) == ended(
                old(self).state(),
                txn@,
            ),
            r is Ok ==> final(self).dev.synced(),
    {
        match self.journal.commit(&mut self.dev, txn) {
            Ok(()) => Ok(()),
            Err(_) => Err(Status::InternalError),
        }
    }

    /// Commit a transaction, and read an inode afterwards.
    pub(crate) fn finish(&mut self, txn: Transaction, num: u32) -> (r: Result<Inode, Status>)
        requires
            old(self).wf(),
        ensures
            old(self).same_volume(final(self)),
            r is Ok || old(self).dev.reliable() ==> (final(self).state(), inode::inode_result(r))
                == finished(old(self).state(), old(self).sb, txn@, num),
            r is Ok ==> final(self).dev.synced(),
    {
        match self.close(txn) {
            Ok(()) => {},
            Err(e) => {
                return Err(e);
            },
        }
        match self.inode(num) {
            Ok(i) => Ok(i),
            Err(_) => Err(Status::InternalError),
        }
    }
}

/// On a read-only mount every request that writes is answered with
/// `MediaWriteProtected`, and changes nothing.
pub proof fn law_read_only(
    v: VolState,
    sb: Superblock,
    name: Seq<char>,
    other: Seq<char>,
    flag: bool,
    is_file: bool,
    num: u32,
    data: Seq<u8>,
    offset: u64,
    u: InodeUpdate,
    file_name: Option<Seq<char>>,
    flags: u32,
    seconds: Option<u64>,
)
    ensures
        create::created(v, sb, true, name, flag, seconds) == (
            v,
            Err::<(u32, InodeView), Status>(Status::MediaWriteProtected),
        ),
        write_file::written(v, sb, true, is_file, num, data, offset, flag, flag, seconds) == (
            v,
            Err::<(u32, InodeView), Status>(Status::MediaWriteProtected),
        ),
        set_file_size::resized(v, sb, true, is_file, num, offset, seconds) == (
            v,
            Err::<InodeView, Status>(Status::MediaWriteProtected),
        ),
        set_file_info::retimed(v, sb, true, num, u) == (
            v,
            Err::<InodeView, Status>(Status::MediaWriteProtected),
        ),
        rename::renamed(v, sb, true, name, other, flag, seconds) == (
            v,
            Err::<(), Status>(Status::MediaWriteProtected),
        ),
        delete::cleaned_up(v, sb, true, num, flag, file_name, flags, seconds) == v,
{
}

} // verus!
