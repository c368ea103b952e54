//! Deleting files and directories.
use vstd::prelude::*;
use super::create;
use super::read_directory;
use super::Status;
use crate::allocator::inode_alloc;
use crate::block_device;
use crate::block_device::BlockDevice;
use crate::clock;
use crate::dir;
use crate::dir::EntryView;
use crate::dir_write;
use crate::extent_write;
use crate::fs_context;
use crate::fs_context::{Ext4Fs, FileHandle, VolState};
use crate::fs_state;
use crate::fs_state::FsState;
use crate::group_desc::GroupDescTable;
use crate::inode;
use crate::journal::writer::Transaction;
use crate::superblock::Superblock;
use crate::text;

verus! {

/// Flag of a cleanup that deletes the file.
pub const FSP_CLEANUP_DELETE: u32 = 1;

/// Whether a cleanup deletes the file.
pub open spec fn wants_delete(flags: u32) -> bool {
    flags & FSP_CLEANUP_DELETE != 0
}

/// Whether a directory holds anything but "." and "..".
pub open spec fn holds_files(entries: Seq<EntryView>) -> bool {
    exists|i: int| 0 <= i < entries.len() && !read_directory::is_dot((#[trigger] entries[i]).name)
}

/// One link less.
pub open spec fn one_less(links: u16) -> u16 {
    if links == 0 {
        0
    } else {
        (links - 1) as u16
    }
}

/// Dropping a link of inode `num`, which has `links`: with the last one its
/// blocks and the inode itself are freed.
pub open spec fn unlinked(
    st: FsState,
    sb: Superblock,
    num: u32,
    links: u16,
    seconds: Option<u64>,
) -> (FsState, Result<(), Status>) {
    if one_less(links) == 0 {
        let (s1, r1) = extent_write::truncated(st, sb, num, 0);
        if r1 is Err {
            (s1, Err(Status::InternalError))
        } else {
            let (s2, r2) = inode_alloc::freed(s1, sb, num, clock::stamp(seconds));
            if r2 is Err {
                (s2, Err(Status::InternalError))
            } else {
                (s2, Ok(()))
            }
        }
    } else {
        super::touched(st, sb, num, super::relink(one_less(links), seconds))
    }
}

/// The links that go with the entry of a file that has `links`. A directory has one
/// entry, and its own "." goes with it: for a directory that entry is the last link.
pub open spec fn last_links(is_dir: bool, links: u16) -> u16 {
    if is_dir {
        1
    } else {
        links
    }
}

/// Removing the entry `name` of `parent`, and the link of `num` that it is. A
/// directory is freed, and with it goes the link to `parent` that its ".." is.
pub open spec fn unmade(
    st: FsState,
    sb: Superblock,
    parent: u32,
    name: Seq<char>,
    num: u32,
    links: u16,
    is_dir: bool,
    seconds: Option<u64>,
) -> (FsState, Result<(), Status>) {
    let (s0, r0) = dir_write::removed(st, sb, st.gdt, parent, name);
    let s1 = FsState { txn: s0.txn, ..st };
    if r0 is Err {
        (s1, Err(Status::InternalError))
    } else {
        let (s2, r2) = unlinked(s1, sb, num, last_links(is_dir, links), seconds);
        match r2 {
            Err(e) => (s2, Err(e)),
            Ok(()) => if is_dir {
                match inode::inode_at(s2.disk, sb, s2.gdt, parent) {
                    Err(_) => (s2, Err(Status::InternalError)),
                    Ok(p) => super::touched(
                        s2,
                        sb,
                        parent,
                        super::relink(one_less(p.links_count), seconds),
                    ),
                }
            } else {
                (s2, Ok(()))
            },
        }
    }
}

/// Deleting the file `num`, known as `name` in the directory `parent_path`, in a
/// transaction of its own.
pub open spec fn deleted(
    v: VolState,
    sb: Superblock,
    parent_path: Seq<char>,
    name: Seq<char>,
    num: u32,
    is_dir: bool,
    seconds: Option<u64>,
) -> (VolState, Result<(), Status>) {
    match fs_context::resolved(v.disk, sb, v.gdt, parent_path) {
        Err(_) => (v, Err(Status::InternalError)),
        Ok(parent) => match inode::inode_at(v.disk, sb, v.gdt, num) {
            Err(_) => (v, Err(Status::InternalError)),
            Ok(i) => {
                let (s, r) = unmade(
                    fs_context::running(v, fs_context::begun(v)),
                    sb,
                    parent,
                    name,
                    num,
                    i.links_count,
                    is_dir,
                    seconds,
                );
                let v1 = fs_context::after(v, s);
                match r {
                    Err(e) => (v1, Err(e)),
                    Ok(()) => super::ended(v1, s.txn),
                }
            },
        },
    }
}

/// Cleaning up after an open file: it is deleted where the flags say so.
pub open spec fn cleaned_up(
    v: VolState,
    sb: Superblock,
    read_only: bool,
    num: u32,
    is_dir: bool,
    file_name: Option<Seq<char>>,
    flags: u32,
    seconds: Option<u64>,
) -> VolState {
    if read_only || !wants_delete(flags) {
        v
    } else {
        match file_name {
            None => v,
            Some(f) => match create::parted(super::volume_path(f)) {
                None => v,
                Some((parent_path, name)) => deleted(
                    v,
                    sb,
                    parent_path,
                    name,
                    num,
                    is_dir,
                    seconds,
                ).0,
            },
        }
    }
}

/// A directory that lists anything but itself and its parent is not empty.
pub proof fn law_holds_files(entries: Seq<EntryView>)
    ensures
        holds_files(entries) <==> exists|k: int|
            0 <= k < entries.len() && (#[trigger] entries[k]).name != "."@ && entries[k].name
                != ".."@,
{
    if exists|k: int|
        0 <= k < entries.len() && (#[trigger] entries[k]).name != "."@ && entries[k].name
            != ".."@ {
        let k = choose|k: int|
            0 <= k < entries.len() && (#[trigger] entries[k]).name != "."@ && entries[k].name
                != ".."@;
        assert(!read_directory::is_dot(entries[k].name));
    }
}

/// A cleanup deletes the file where the lowest of its flags is set and it names the file, under
/// that name; otherwise, and on a read-only mount, it changes nothing.
pub proof fn law_cleanup(
    v: VolState,
    sb: Superblock,
    read_only: bool,
    num: u32,
    is_dir: bool,
    file_name: Option<Seq<char>>,
    flags: u32,
    seconds: Option<u64>,
)
    ensures
        ({
            let v2 = cleaned_up(v, sb, read_only, num, is_dir, file_name, flags, seconds);
            &&& read_only || flags % 2 == 0 || file_name is None ==> v2 == v
            &&& !read_only && flags % 2 == 1 && file_name is Some && create::parted(
                super::volume_path(file_name->Some_0),
            ) is Some ==> ({
                let (parent_path, name) = create::parted(
                    super::volume_path(file_name->Some_0),
                )->Some_0;
                v2 == deleted(v, sb, parent_path, name, num, is_dir, seconds).0
            })
        }),
{
    assert(flags & 1u32 != 0 <==> flags % 2 == 1) by (bit_vector);
}

/// The text of an optional name.
pub open spec fn name_of(f: Option<&str>) -> Option<Seq<char>> {
    match f {
        Some(s) => Some(s@),
        None => None,
    }
}

fn unlink<D: BlockDevice>(
    dev: &mut D,
    sb: &Superblock,
    gdt: &mut GroupDescTable,
    txn: &mut Transaction,
    num: u32,
    links: u16,
    seconds: Option<u64>,
) -> (r: Result<(), Status>)
    requires
        sb.wf(),
        num > 0,
    ensures
        block_device::same_shape(*old(dev), *final(dev)),
        r is Ok || old(dev).reliable() ==> (
            fs_state::now(*final(dev), *final(txn), *final(gdt)),
            r,
        ) == unlinked(
            fs_state::now(*old(dev), *old(txn), *old(gdt)),
            *sb,
            num,
            links,
            seconds,
        ),
{
    let fewer: u16 = if links == 0 {
        0
    } else {
        links - 1
    };
    if fewer == 0 {
        match extent_write::truncate(dev, sb, gdt, txn, num, 0) {
            Ok(()) => {},
            Err(_) => {
                return Err(Status::InternalError);
            },
        }
        match inode_alloc::free_inode_at(dev, sb, gdt, txn, num, clock::inode_stamp(seconds)) {
            Ok(()) => Ok(()),
            Err(_) => Err(Status::InternalError),
        }
    } else {
        super::touch(dev, sb, gdt, txn, num, super::relinked_at(fewer, seconds))
    }
}

fn unmake<D: BlockDevice>(
    dev: &mut D,
    sb: &Superblock,
    gdt: &mut GroupDescTable,
    txn: &mut Transaction,
    parent: u32,
    name: &str,
    num: u32,
    links: u16,
    is_dir: bool,
    seconds: Option<u64>,
) -> (r: Result<(), Status>)
    requires
        sb.wf(),
        num > 0,
    ensures
        block_device::same_shape(*old(dev), *final(dev)),
        r is Ok || old(dev).reliable() ==> (
            fs_state::now(*final(dev), *final(txn), *final(gdt)),
            r,
        ) == unmade(
            fs_state::now(*old(dev), *old(txn), *old(gdt)),
            *sb,
            parent,
            name@,
            num,
            links,
            is_dir,
            seconds,
        ),
{
    match dir_write::dir_remove_entry(dev, sb, gdt, txn, parent, name) {
        Ok(_) => {},
        Err(_) => {
            return Err(Status::InternalError);
        },
    }
    let last: u16 = if is_dir {
        1
    } else {
        links
    };
    match unlink(dev, sb, gdt, txn, num, last, seconds) {
        Ok(()) => {},
        Err(e) => {
            return Err(e);
        },
    }
    if !is_dir {
        return Ok(());
    }
    let p = match inode::read_inode(dev, sb, gdt, parent) {
        Ok(i) => i,
        Err(_) => {
            return Err(Status::InternalError);
        },
    };
    let fewer: u16 = if p.links_count == 0 {
        0
    } else {
        p.links_count - 1
    };
    super::touch(dev, sb, gdt, txn, parent, super::relinked_at(fewer, seconds))
}

impl<D: BlockDevice> Ext4Fs<D> {
    /// Ask whether an open file may be deleted. A directory has to be empty, and
    /// nothing is deleted on a read-only mount.
    pub fn set_delete_cb(&self, context: &FileHandle, delete_file: bool) -> (r: Result<(), Status>)
        requires
            self.wf(),
        ensures
            r is Ok || self.dev.reliable() ==> r == (if !delete_file {
                Ok::<(), Status>(())
            } else if self.read_only {
                Err(Status::MediaWriteProtected)
            } else if !context.snapshot().is_dir() {
                Ok(())
            } else {
                match dir::dir_entries(self.state().disk, self.sb, context.snapshot()) {
                    Err(_) => Err(Status::InternalError),
                    Ok(entries) => if holds_files(entries) {
                        Err(Status::DirectoryNotEmpty)
                    } else {
                        Ok(())
                    },
                }
            }),
            delete_file && self.read_only ==> r == Err::<(), Status>(Status::MediaWriteProtected),
    {
        if !delete_file {
            return Ok(());
        }
        if self.read_only {
            return Err(Status::MediaWriteProtected);
        }
        let (_, inode) = context.parts();
        if !inode.is_dir() {
            return Ok(());
        }
        let entries = match self.read_dir(&inode) {
            Ok(v) => v,
            Err(_) => {
                return Err(Status::InternalError);
            },
        };
        let ghost all = dir::entries_view(entries@);
        let mut i: usize = 0;
        while i < entries.len()
            invariant
                i <= entries@.len(),
                all == dir::entries_view(entries@),
                delete_file,
                !self.read_only,
                context.snapshot().is_dir(),
                Ok::<Seq<EntryView>, dir::DirError>(all) == dir::dir_entries(
                    self.state().disk,
                    self.sb,
                    context.snapshot(),
                ),
                forall|j: int|
                    0 <= j < i ==> read_directory::is_dot((#[trigger] all[j]).name),
            decreases entries@.len() - i,
        {
            let e = &entries[i];
            assert(all[i as int] == e@);
            if !text::same_text(e.name.as_str(), ".") && !text::same_text(e.name.as_str(), "..") {
                return Err(Status::DirectoryNotEmpty);
            }
            i = i + 1;
        }
        Ok(())
    }

    /// Clean up after an open file, at the time `seconds`.
    pub fn cleanup_handle_write_at(
        &mut self,
        context: &FileHandle,
        file_name: Option<&str>,
        flags: u32,
        seconds: Option<u64>,
    )
        requires
            old(self).wf(),
        ensures
            old(self).same_volume(final(self)),
            old(self).dev.reliable() ==> final(self).state() == cleaned_up(
                old(self).state(),
                old(self).sb,
                old(self).read_only,
                context.num(),
                context is Directory,
                name_of(file_name),
                flags,
                seconds,
            ),
            old(self).read_only || !wants_delete(flags) ==> *final(self) == *old(self),
    {
        if self.read_only || flags & FSP_CLEANUP_DELETE == 0 {
            return ;
        }
        let path = match file_name {
            Some(f) => text::replace_char(f, '\\', "/"),
            None => {
                return ;
            },
        };
        match create::split_path(path.as_str()) {
            Some((parent_path, name)) => {
                let _ = self.do_delete(parent_path, name, context, seconds);
            },
            None => {},
        }
    }

    /// Clean up after an open file: where the flags ask for it, the file is
    /// deleted. Errors are not reported.
    pub fn cleanup_handle_write(
        &mut self,
        context: &FileHandle,
        file_name: Option<&str>,
        flags: u32,
    )
        requires
            old(self).wf(),
        ensures
            old(self).same_volume(final(self)),
            old(self).dev.reliable() ==> exists|seconds: Option<u64>|
                final(self).state() == #[trigger] cleaned_up(
                    old(self).state(),
                    old(self).sb,
                    old(self).read_only,
                    context.num(),
                    context is Directory,
                    name_of(file_name),
                    flags,
                    seconds,
                ),
            old(self).read_only || !wants_delete(flags) ==> *final(self) == *old(self),
    {
        let seconds: Option<u64> = clock::unix_seconds();
        self.cleanup_handle_write_at(context, file_name, flags, seconds)
    }

    fn do_delete(
        &mut self,
        parent_path: &str,
        name: &str,
        handle: &FileHandle,
        seconds: Option<u64>,
    ) -> (r: Result<(), Status>)
        requires
            old(self).wf(),
        ensures
            old(self).same_volume(final(self)),
            r is Ok || old(self).dev.reliable() ==> (final(self).state(), r) == deleted(
                old(self).state(),
                old(self).sb,
                parent_path@,
                name@,
                handle.num(),
                handle is Directory,
                seconds,
            ),
    {
        let parent: u32 = match self.resolve_path(parent_path) {
            Ok(n) => n,
            Err(_) => {
                return Err(Status::InternalError);
            },
        };
        let (num, _) = handle.parts();
        let is_dir: bool = match handle {
            FileHandle::Directory { inode_num: _, inode: _ } => true,
            _ => false,
        };
        let inode = match self.inode(num) {
            Ok(i) => i,
            Err(_) => {
                return Err(Status::InternalError);
            },
        };
        let mut txn = self.journal.begin_transaction();
        match unmake(
            &mut self.dev,
            &self.sb,
            &mut self.gdt,
            &mut txn,
            parent,
            name,
            num,
            inode.links_count,
            is_dir,
            seconds,
        ) {
            Ok(()) => {},
            Err(e) => {
                return Err(e);
            },
        }
        self.close(txn)
    }
}

} // verus!
