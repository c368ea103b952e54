//! Renaming files and directories.
use vstd::prelude::*;
use super::create;
use super::delete;
use super::Status;
use crate::allocator::inode_alloc;
use crate::block_device;
use crate::block_device::BlockDevice;
use crate::clock;
use crate::dir;
use crate::dir_write;
use crate::extent_write;
use crate::fs_context;
use crate::fs_context::{Ext4Fs, VolState};
use crate::fs_state;
use crate::fs_state::FsState;
use crate::group_desc::GroupDescTable;
use crate::inode;
use crate::inode::InodeView;
use crate::journal::writer::Transaction;
use crate::superblock::Superblock;
use crate::text;

verus! {

/// Moving the entry `from` of `src` to the name `to` of `dst`, in a transaction
/// of its own.
pub open spec fn shifted(
    v: VolState,
    sb: Superblock,
    src: u32,
    from: Seq<char>,
    dst: u32,
    to: Seq<char>,
) -> (VolState, Result<(), Status>) {
    let (s, r) = dir_write::renamed(
        fs_context::running(v, fs_context::begun(v)),
        sb,
        v.gdt,
        src,
        from,
        dst,
        to,
    );
    let v1 = fs_context::after(v, s);
    if r is Err {
        (v1, Err(Status::InternalError))
    } else {
        super::ended(v1, s.txn)
    }
}

/// Whether an inode has blocks that a tree of extents lists. A short symbolic link holds
/// its target where the tree would be.
pub open spec fn has_tree(i: InodeView) -> bool {
    i.uses_extents() && !(i.is_symlink() && i.size < 60)
}

/// Freeing inode `num`, which has no name any more, and its blocks.
pub open spec fn released(st: FsState, sb: Superblock, num: u32, seconds: Option<u64>) -> (
    FsState,
    Result<(), Status>,
) {
    match inode::inode_at(st.disk, sb, st.gdt, num) {
        Err(_) => (st, Err(Status::InternalError)),
        Ok(i) => {
            let (s1, r1) = if has_tree(i) {
                extent_write::truncated(st, sb, num, 0)
            } else {
                (st, Ok(()))
            };
            if r1 is Err {
                (s1, Err(Status::InternalError))
            } else {
                let (s2, r2) = inode_alloc::freed(s1, sb, num, clock::stamp(seconds));
                (
                    s2,
                    if r2 is Err {
                        Err(Status::InternalError)
                    } else {
                        Ok(())
                    },
                )
            }
        },
    }
}

/// One link more, as far as they can be counted.
pub open spec fn one_more(links: u16) -> u16 {
    if links == u16::MAX {
        links
    } else {
        (links + 1) as u16
    }
}

/// Directory `num` got a link more, or has one less, or both.
pub open spec fn relinked(
    st: FsState,
    sb: Superblock,
    num: u32,
    more: bool,
    less: bool,
    seconds: Option<u64>,
) -> (FsState, Result<(), Status>) {
    if more == less {
        (st, Ok(()))
    } else {
        match inode::inode_at(st.disk, sb, st.gdt, num) {
            Err(_) => (st, Err(Status::InternalError)),
            Ok(p) => super::touched(
                st,
                sb,
                num,
                super::relink(
                    if more {
                        one_more(p.links_count)
                    } else {
                        delete::one_less(p.links_count)
                    },
                    seconds,
                ),
            ),
        }
    }
}

/// What is left to do after an entry went from `src` to `dst`: what it replaced is
/// freed, and a directory that went with it is linked from its new parent.
pub open spec fn settled(
    st: FsState,
    sb: Superblock,
    gone: Option<(u32, bool)>,
    turn: bool,
    src: u32,
    dst: u32,
    seconds: Option<u64>,
) -> (FsState, Result<(), Status>) {
    let (s1, r1) = match gone {
        None => (st, Ok(())),
        Some((num, _)) => released(st, sb, num, seconds),
    };
    let less = gone matches Some((num, is_dir)) && is_dir;
    match r1 {
        Err(e) => (s1, Err(e)),
        Ok(()) => {
            let (s2, r2) = relinked(s1, sb, src, false, turn, seconds);
            match r2 {
                Err(e) => (s2, Err(e)),
                Ok(()) => relinked(s2, sb, dst, turn, less, seconds),
            }
        },
    }
}

/// The same in a transaction of its own, if there is anything to do.
pub open spec fn tidied(
    v: VolState,
    sb: Superblock,
    gone: Option<(u32, bool)>,
    turn: bool,
    src: u32,
    dst: u32,
    seconds: Option<u64>,
) -> (VolState, Result<(), Status>) {
    if gone is None && !turn {
        (v, Ok(()))
    } else {
        let (s, r) = settled(
            fs_context::running(v, fs_context::begun(v)),
            sb,
            gone,
            turn,
            src,
            dst,
            seconds,
        );
        let v1 = fs_context::after(v, s);
        match r {
            Err(e) => (v1, Err(e)),
            Ok(()) => super::ended(v1, s.txn),
        }
    }
}

/// Moving an entry: first it goes to its new place, in one transaction. What that left
/// without a name is freed in the next.
pub open spec fn moved(
    v: VolState,
    sb: Superblock,
    src: u32,
    from: Seq<char>,
    dst: u32,
    to: Seq<char>,
    seconds: Option<u64>,
) -> (VolState, Result<(), Status>) {
    let (v1, r1) = shifted(v, sb, src, from, dst, to);
    match r1 {
        Err(e) => (v1, Err(e)),
        Ok(()) => tidied(
            v1,
            sb,
            dir_write::left_over(v.disk, sb, v.gdt, src, from, dst, to),
            dir_write::turns(v.disk, sb, v.gdt, src, from, dst),
            src,
            dst,
            seconds,
        ),
    }
}

/// Whether something has the name `name` in directory `num`.
pub open spec fn is_taken(v: VolState, sb: Superblock, num: u32, name: Seq<char>) -> Result<
    bool,
    Status,
> {
    match inode::inode_at(v.disk, sb, v.gdt, num) {
        Err(_) => Err(Status::InternalError),
        Ok(i) => match dir::dir_entries(v.disk, sb, i) {
            Err(_) => Err(Status::InternalError),
            Ok(entries) => Ok(dir::first_named(entries, name) is Some),
        },
    }
}

/// Renaming a file or directory. What has the new name already is replaced only
/// where `replace` says so.
pub open spec fn renamed(
    v: VolState,
    sb: Superblock,
    read_only: bool,
    file_name: Seq<char>,
    new_file_name: Seq<char>,
    replace: bool,
    seconds: Option<u64>,
) -> (VolState, Result<(), Status>) {
    if read_only {
        (v, Err(Status::MediaWriteProtected))
    } else {
        match (
            create::parted(super::volume_path(file_name)),
            create::parted(super::volume_path(new_file_name)),
        ) {
            (Some((src_path, from)), Some((dst_path, to))) => match fs_context::resolved(
                v.disk,
                sb,
                v.gdt,
                dst_path,
            ) {
                Err(_) => (v, Err(Status::ObjectPathNotFound)),
                Ok(dst) => match is_taken(v, sb, dst, to) {
                    Err(e) => (v, Err(e)),
                    Ok(taken) => if taken && !replace {
                        (v, Err(Status::ObjectNameCollision))
                    } else {
                        match fs_context::resolved(v.disk, sb, v.gdt, src_path) {
                            Err(_) => (v, Err(Status::ObjectPathNotFound)),
                            Ok(src) => moved(v, sb, src, from, dst, to, seconds),
                        }
                    },
                },
            },
            _ => (v, Err(Status::ObjectNameInvalid)),
        }
    }
}

fn release<D: BlockDevice>(
    dev: &mut D,
    sb: &Superblock,
    gdt: &mut GroupDescTable,
    txn: &mut Transaction,
    num: u32,
    seconds: Option<u64>,
) -> (r: Result<(), Status>)
    requires
        sb.wf(),
        num > 0,
    ensures
        block_device::same_shape(*old(dev), *final(dev)),
        final(gdt)@.len() == old(gdt)@.len(),
        r is Ok || old(dev).reliable() ==> (
            fs_state::now(*final(dev), *final(txn), *final(gdt)),
            r,
        ) == released(fs_state::now(*old(dev), *old(txn), *old(gdt)), *sb, num, seconds),
{
    let i = match inode::read_inode(dev, sb, gdt, num) {
        Ok(i) => i,
        Err(_) => {
            return Err(Status::InternalError);
        },
    };
    if i.uses_extents() && !(i.is_symlink() && i.size < 60) {
        match extent_write::truncate(dev, sb, gdt, txn, num, 0) {
            Ok(()) => {},
            Err(_) => {
                return Err(Status::InternalError);
            },
        }
    }
    match inode_alloc::free_inode_at(dev, sb, gdt, txn, num, clock::inode_stamp(seconds)) {
        Ok(()) => Ok(()),
        Err(_) => Err(Status::InternalError),
    }
}

fn change_links<D: BlockDevice>(
    dev: &D,
    sb: &Superblock,
    gdt: &GroupDescTable,
    txn: &mut Transaction,
    num: u32,
    more: bool,
    less: bool,
    seconds: Option<u64>,
) -> (r: Result<(), Status>)
    requires
        sb.wf(),
    ensures
        r is Ok || dev.reliable() ==> (fs_state::now(*dev, *final(txn), *gdt), r) == relinked(
            fs_state::now(*dev, *old(txn), *gdt),
            *sb,
            num,
            more,
            less,
            seconds,
        ),
{
    if more == less {
        return Ok(());
    }
    let p = match inode::read_inode(dev, sb, gdt, num) {
        Ok(i) => i,
        Err(_) => {
            return Err(Status::InternalError);
        },
    };
    let links: u16 = if more {
        if p.links_count == u16::MAX {
            p.links_count
        } else {
            p.links_count + 1
        }
    } else if p.links_count == 0 {
        0
    } else {
        p.links_count - 1
    };
    super::touch(dev, sb, gdt, txn, num, super::relinked_at(links, seconds))
}

fn settle<D: BlockDevice>(
    dev: &mut D,
    sb: &Superblock,
    gdt: &mut GroupDescTable,
    txn: &mut Transaction,
    gone: Option<(u32, bool)>,
    turn: bool,
    src: u32,
    dst: u32,
    seconds: Option<u64>,
) -> (r: Result<(), Status>)
    requires
        sb.wf(),
        gone is Some ==> gone->Some_0.0 > 0,
    ensures
        block_device::same_shape(*old(dev), *final(dev)),
        final(gdt)@.len() == old(gdt)@.len(),
        r is Ok || old(dev).reliable() ==> (
            fs_state::now(*final(dev), *final(txn), *final(gdt)),
            r,
        ) == settled(
            fs_state::now(*old(dev), *old(txn), *old(gdt)),
            *sb,
            gone,
            turn,
            src,
            dst,
            seconds,
        ),
{
    let mut less: bool = false;
    if let Some((num, is_dir)) = gone {
        less = is_dir;
        match release(dev, sb, gdt, txn, num, seconds) {
            Ok(()) => {},
            Err(e) => {
                return Err(e);
            },
        }
    }
    match change_links(dev, sb, gdt, txn, src, false, turn, seconds) {
        Ok(()) => {},
        Err(e) => {
            return Err(e);
        },
    }
    change_links(dev, sb, gdt, txn, dst, turn, less, seconds)
}

impl<D: BlockDevice> Ext4Fs<D> {
    /// Rename a file or directory. Refused on a read-only mount.
    pub fn rename_handle(
        &mut self,
        file_name: &str,
        new_file_name: &str,
        replace_if_exists: bool,
    ) -> (r: Result<(), Status>)
        requires
            old(self).wf(),
        ensures
            old(self).same_volume(final(self)),
            r is Ok || old(self).dev.reliable() ==> exists|seconds: Option<u64>|
                (final(self).state(), r) == #[trigger] renamed(
                    old(self).state(),
                    old(self).sb,
                    old(self).read_only,
                    file_name@,
                    new_file_name@,
                    replace_if_exists,
                    seconds,
                ),
            old(self).read_only ==> r == Err::<(), Status>(Status::MediaWriteProtected)
                && *final(self) == *old(self),
            r is Ok ==> final(self).dev.synced(),
    {
        let seconds: Option<u64> = clock::unix_seconds();
        self.rename_handle_at(file_name, new_file_name, replace_if_exists, seconds)
    }

    /// Rename a file or directory, at the time `seconds`.
    pub fn rename_handle_at(
        &mut self,
        file_name: &str,
        new_file_name: &str,
        replace_if_exists: bool,
        seconds: Option<u64>,
    ) -> (r: Result<(), Status>)
        requires
            old(self).wf(),
        ensures
            old(self).same_volume(final(self)),
            r is Ok || old(self).dev.reliable() ==> (final(self).state(), r) == renamed(
                old(self).state(),
                old(self).sb,
                old(self).read_only,
                file_name@,
                new_file_name@,
                replace_if_exists,
                seconds,
            ),
            old(self).read_only ==> r == Err::<(), Status>(Status::MediaWriteProtected)
                && *final(self) == *old(self),
            r is Ok ==> final(self).dev.synced(),
    {
        if self.read_only {
            return Err(Status::MediaWriteProtected);
        }
        let src = text::replace_char(file_name, '\\', "/");
        let dst = text::replace_char(new_file_name, '\\', "/");
        let (src_path, from) = match create::split_path(src.as_str()) {
            Some(p) => p,
            None => {
                return Err(Status::ObjectNameInvalid);
            },
        };
        let (dst_path, to) = match create::split_path(dst.as_str()) {
            Some(p) => p,
            None => {
                return Err(Status::ObjectNameInvalid);
            },
        };
        let dst_num: u32 = match self.resolve_path(dst_path) {
            Ok(n) => n,
            Err(_) => {
                return Err(Status::ObjectPathNotFound);
            },
        };
        let dst_inode = match self.inode(dst_num) {
            Ok(i) => i,
            Err(_) => {
                return Err(Status::InternalError);
            },
        };
        let taken: bool = match self.lookup(&dst_inode, to) {
            Ok(None) => false,
            Ok(Some(_)) => true,
            Err(_) => {
                return Err(Status::InternalError);
            },
        };
        if taken && !replace_if_exists {
            return Err(Status::ObjectNameCollision);
        }
        let src_num: u32 = match self.resolve_path(src_path) {
            Ok(n) => n,
            Err(_) => {
                return Err(Status::ObjectPathNotFound);
            },
        };
        self.move_entry(src_num, from, dst_num, to, seconds)
    }

    fn move_entry(
        &mut self,
        src: u32,
        from: &str,
        dst: u32,
        to: &str,
        seconds: Option<u64>,
    ) -> (r: Result<(), Status>)
        requires
            old(self).wf(),
        ensures
            old(self).same_volume(final(self)),
            r is Ok || old(self).dev.reliable() ==> (final(self).state(), r) == moved(
                old(self).state(),
                old(self).sb,
                src,
                from@,
                dst,
                to@,
                seconds,
            ),
            r is Ok ==> final(self).dev.synced(),
    {
        let mut txn = self.journal.begin_transaction();
        let snapshot = self.gdt.copy();
        let (gone, turn): (Option<(u32, bool)>, bool) = match dir_write::rename(
            &mut self.dev,
            &self.sb,
            &snapshot,
            &mut self.gdt,
            &mut txn,
            src,
            from,
            dst,
            to,
        ) {
            Ok(x) => x,
            Err(_) => {
                return Err(Status::InternalError);
            },
        };
        match self.close(txn) {
            Ok(()) => {},
            Err(e) => {
                return Err(e);
            },
        }
        if gone.is_none() && !turn {
            return Ok(());
        }
        let mut txn = self.journal.begin_transaction();
        match settle(
            &mut self.dev,
            &self.sb,
            &mut self.gdt,
            &mut txn,
            gone,
            turn,
            src,
            dst,
            seconds,
        ) {
            Ok(()) => {},
            Err(e) => {
                return Err(e);
            },
        }
        self.close(txn)
    }
}

} // verus!
