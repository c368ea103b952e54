//! Creating files and directories.
use vstd::prelude::*;
use vstd::string::*;
use super::file_info;
use super::file_info::FileInfo;
use super::Status;
use crate::allocator::inode_alloc;
use crate::block_device;
use crate::block_device::BlockDevice;
use crate::clock;
use crate::dir;
use crate::dir::dir_file_type;
use crate::dir_write;
use crate::fs_context;
use crate::fs_context::{Ext4Fs, FileHandle, VolState};
use crate::fs_state;
use crate::fs_state::FsState;
use crate::group_desc::GroupDescTable;
use crate::inode;
use crate::inode::InodeView;
use crate::journal::writer::Transaction;
use crate::superblock::Superblock;
use crate::text;

verus! {

/// Option of a request that creates a directory.
pub const FILE_DIRECTORY_FILE: u32 = 1;

/// The mode of a new directory, rwxr-xr-x.
pub const DIR_MODE: u16 = 0x41ED;

/// The mode of a new file, rw-r--r--.
pub const FILE_MODE: u16 = 0x81A4;

/// Whether a request creates a directory.
pub open spec fn wants_dir(create_options: u32) -> bool {
    create_options & FILE_DIRECTORY_FILE != 0
}

/// A path without the slashes at its end.
pub open spec fn trimmed(path: Seq<char>) -> Seq<char>
    decreases path.len(),
{
    if path.len() > 0 && path.last() == '/' {
        trimmed(path.drop_last())
    } else {
        path
    }
}

/// How many characters lead up to the last slash, and -1 where there is none.
pub open spec fn last_slash(path: Seq<char>) -> int
    decreases path.len(),
{
    if path.len() == 0 {
        -1
    } else if path.last() == '/' {
        path.len() - 1
    } else {
        last_slash(path.drop_last())
    }
}

/// The directory and the name that a path consists of.
pub open spec fn parted(path: Seq<char>) -> Option<(Seq<char>, Seq<char>)> {
    let p = trimmed(path);
    let k = last_slash(p);
    if k < 0 {
        None
    } else {
        Some(
            (
                if k == 0 {
                    p.take(1)
                } else {
                    p.take(k)
                },
                p.skip(k + 1),
            ),
        )
    }
}

/// The texts of a split path.
pub open spec fn parts_of(r: Option<(&str, &str)>) -> Option<(Seq<char>, Seq<char>)> {
    match r {
        Some((a, b)) => Some((a@, b@)),
        None => None,
    }
}

/// A path that was parted names something, in a directory that starts with a
/// slash if the path does; slashes at the end of a path do not matter.
pub proof fn law_parted(path: Seq<char>)
    ensures
        match parted(path) {
            Some((parent, name)) => {
                &&& parent.len() > 0
                &&& name.len() > 0
                &&& forall|i: int| 0 <= i < name.len() ==> name[i] != '/'
                &&& path[0] == '/' ==> parent[0] == '/'
            },
            None => forall|i: int|
                0 <= i < trimmed(path).len() ==> #[trigger] trimmed(path)[i] != '/',
        },
        parted(path.push('/')) == parted(path),
{
    lemma_trimmed(path);
    lemma_last_slash(trimmed(path));
    assert(path.push('/').drop_last() =~= path);
}

proof fn lemma_trimmed(path: Seq<char>)
    ensures
        trimmed(path).len() <= path.len(),
        trimmed(path) == path.take(trimmed(path).len() as int),
        trimmed(path).len() > 0 ==> trimmed(path).last() != '/',
    decreases path.len(),
{
    if path.len() > 0 && path.last() == '/' {
        lemma_trimmed(path.drop_last());
        let n = trimmed(path).len() as int;
        assert(path.drop_last().take(n) =~= path.take(n));
    } else {
        assert(path.take(path.len() as int) =~= path);
    }
}

/// Behind the last slash there is none.
pub proof fn lemma_last_slash(p: Seq<char>)
    ensures
        -1 <= last_slash(p) < p.len(),
        last_slash(p) >= 0 ==> p[last_slash(p)] == '/',
        forall|i: int| last_slash(p) < i < p.len() ==> p[i] != '/',
    decreases p.len(),
{
    if p.len() > 0 && p.last() != '/' {
        lemma_last_slash(p.drop_last());
        assert forall|i: int| last_slash(p) < i < p.len() implies p[i] != '/' by {
            if i < p.len() - 1 {
                assert(p.drop_last()[i] == p[i]);
            }
        }
    }
}

/// Split "/parent/dir/name" into "/parent/dir" and "name".
pub fn split_path<'a>(path: &'a str) -> (r: Option<(&'a str, &'a str)>)
    ensures
        parts_of(r) == parted(path@),
{
    let len: usize = path.unicode_len();
    let mut n: usize = len;
    assert(path@.take(len as int) =~= path@);
    while n > 0 && path.get_char(n - 1) == '/'
        invariant
            len == path@.len(),
            n <= len,
            trimmed(path@) == trimmed(path@.take(n as int)),
        decreases n,
    {
        assert(path@.take(n as int).drop_last() =~= path@.take(n - 1));
        n = n - 1;
    }
    let ghost p = path@.take(n as int);
    assert(trimmed(path@) == p);
    let mut k: usize = n;
    assert(p.take(n as int) =~= p);
    while k > 0 && path.get_char(k - 1) != '/'
        invariant
            len == path@.len(),
            k <= n <= len,
            p == path@.take(n as int),
            last_slash(p) == last_slash(p.take(k as int)),
        decreases k,
    {
        assert(p.take(k as int).drop_last() =~= p.take(k - 1));
        k = k - 1;
    }
    if k == 0 {
        return None;
    }
    assert(last_slash(p) == k - 1);
    let parent = path.substring_char(
        0,
        if k == 1 {
            1
        } else {
            k - 1
        },
    );
    let name = path.substring_char(k, n);
    assert(parent@ =~= parted(path@)->Some_0.0);
    assert(name@ =~= p.skip(k as int));
    Some((parent, name))
}

/// One link more.
pub open spec fn one_more(links: u16) -> u16 {
    if links == u16::MAX {
        links
    } else {
        (links + 1) as u16
    }
}

/// Making the entries "." and ".." of the new directory `num`, and counting the
/// link that ".." is.
pub open spec fn furnished(
    st: FsState,
    sb: Superblock,
    parent: u32,
    links: u16,
    num: u32,
    seconds: Option<u64>,
) -> (FsState, Result<u32, Status>) {
    let (s1, r1) = dir_write::added(st, sb, st.gdt, num, "."@, num, dir_file_type::DIR);
    if r1 is Err {
        (s1, Err(Status::InternalError))
    } else {
        let (s2, r2) = dir_write::added(s1, sb, s1.gdt, num, ".."@, parent, dir_file_type::DIR);
        if r2 is Err {
            (s2, Err(Status::InternalError))
        } else {
            let (s3, r3) = super::touched(s2, sb, parent, super::relink(one_more(links), seconds));
            match r3 {
                Err(e) => (s3, Err(e)),
                Ok(()) => (s3, Ok(num)),
            }
        }
    }
}

/// Making a file or directory of the given name in the directory `parent`,
/// which has `links` links. Gives its inode number.
pub open spec fn made(
    st: FsState,
    sb: Superblock,
    parent: u32,
    links: u16,
    name: Seq<char>,
    is_dir: bool,
    seconds: Option<u64>,
) -> (FsState, Result<u32, Status>) {
    let (s1, r1) = inode_alloc::allocated(st, sb, is_dir, inode::group_of(sb, parent));
    match r1 {
        Err(_) => (s1, Err(Status::DiskFull)),
        Ok(num) => {
            let (s2, r2) = inode_alloc::initialised(
                s1,
                sb,
                num,
                if is_dir {
                    DIR_MODE
                } else {
                    FILE_MODE
                },
                0,
                0,
                clock::stamp(seconds),
            );
            if r2 is Err {
                (s2, Err(Status::InternalError))
            } else {
                let (s3, r3) = dir_write::added(
                    s2,
                    sb,
                    s2.gdt,
                    parent,
                    name,
                    num,
                    if is_dir {
                        dir_file_type::DIR
                    } else {
                        dir_file_type::REG_FILE
                    },
                );
                if r3 is Err {
                    (s3, Err(Status::InternalError))
                } else if is_dir {
                    furnished(s3, sb, parent, links, num, seconds)
                } else {
                    (s3, Ok(num))
                }
            }
        },
    }
}

/// Creating a file or directory. Gives its inode and the number of that.
pub open spec fn created(
    v: VolState,
    sb: Superblock,
    read_only: bool,
    file_name: Seq<char>,
    is_dir: bool,
    seconds: Option<u64>,
) -> (VolState, Result<(u32, InodeView), Status>) {
    if read_only {
        (v, Err(Status::MediaWriteProtected))
    } else {
        match parted(super::volume_path(file_name)) {
            None => (v, Err(Status::ObjectNameInvalid)),
            Some((parent_path, name)) => match fs_context::resolved(
                v.disk,
                sb,
                v.gdt,
                parent_path,
            ) {
                Err(_) => (v, Err(Status::ObjectPathNotFound)),
                Ok(parent) => match inode::inode_at(v.disk, sb, v.gdt, parent) {
                    Err(_) => (v, Err(Status::InternalError)),
                    Ok(p) => if !p.is_dir() {
                        (v, Err(Status::NotADirectory))
                    } else {
                        match dir::dir_entries(v.disk, sb, p) {
                            Err(_) => (v, Err(Status::InternalError)),
                            Ok(entries) => if dir::first_named(entries, name) is Some {
                                (v, Err(Status::ObjectNameCollision))
                            } else {
                                created_in(v, sb, parent, p.links_count, name, is_dir, seconds)
                            },
                        }
                    },
                },
            },
        }
    }
}

/// Creating a file or directory in `parent`, in a transaction of its own.
pub open spec fn created_in(
    v: VolState,
    sb: Superblock,
    parent: u32,
    links: u16,
    name: Seq<char>,
    is_dir: bool,
    seconds: Option<u64>,
) -> (VolState, Result<(u32, InodeView), Status>) {
    let (s, r) = made(
        fs_context::running(v, fs_context::begun(v)),
        sb,
        parent,
        links,
        name,
        is_dir,
        seconds,
    );
    let v1 = fs_context::after(v, s);
    match r {
        Err(e) => (v1, Err(e)),
        Ok(num) => {
            let (v2, r2) = super::finished(v1, sb, s.txn, num);
            match r2 {
                Err(e) => (v2, Err(e)),
                Ok(i) => (v2, Ok((num, i))),
            }
        },
    }
}

/// A request that creates a file is refused on a read-only mount, for a path without a name,
/// for a directory that is not there or is none, and for a name that is taken, and nothing
/// changes then. A name that is not taken is never said to be.
pub proof fn law_creation_refused(
    v: VolState,
    sb: Superblock,
    read_only: bool,
    file_name: Seq<char>,
    is_dir: bool,
    seconds: Option<u64>,
)
    ensures
        ({
            let (v2, r) = created(v, sb, read_only, file_name, is_dir, seconds);
            let p = parted(super::volume_path(file_name));
            let parent = fs_context::resolved(v.disk, sb, v.gdt, p->Some_0.0);
            let i = inode::inode_at(v.disk, sb, v.gdt, parent->Ok_0);
            let entries = dir::dir_entries(v.disk, sb, i->Ok_0);
            let known = !read_only && p is Some && parent is Ok && i is Ok;
            &&& read_only <==> (r is Err && r->Err_0 is MediaWriteProtected)
            &&& !read_only && p is None <==> (r is Err && r->Err_0 is ObjectNameInvalid)
            &&& !read_only && p is Some && parent is Err <==> (r is Err && r->Err_0 is ObjectPathNotFound)
            &&& known && !i->Ok_0.is_dir() <==> (r is Err && r->Err_0 is NotADirectory)
            &&& known && i->Ok_0.is_dir() && entries is Ok && dir::first_named(
                entries->Ok_0,
                p->Some_0.1,
            ) is Some <==> (r is Err && r->Err_0 is ObjectNameCollision)
            &&& r is Err && (r->Err_0 is ObjectNameCollision || r->Err_0 is NotADirectory
                || r->Err_0 is ObjectPathNotFound || r->Err_0 is ObjectNameInvalid
                || r->Err_0 is MediaWriteProtected) ==> v2 == v
        }),
{
    if !read_only && parted(super::volume_path(file_name)) is Some {
        let (parent_path, name) = parted(super::volume_path(file_name))->Some_0;
        let parent = fs_context::resolved(v.disk, sb, v.gdt, parent_path);
        if parent is Ok {
            let i = inode::inode_at(v.disk, sb, v.gdt, parent->Ok_0);
            if i is Ok {
                lemma_made_errors(
                    fs_context::running(v, fs_context::begun(v)),
                    sb,
                    parent->Ok_0,
                    i->Ok_0.links_count,
                    name,
                    is_dir,
                    seconds,
                );
            }
        }
    }
}

/// Making a file fails for want of room, or of the device.
proof fn lemma_made_errors(
    st: FsState,
    sb: Superblock,
    parent: u32,
    links: u16,
    name: Seq<char>,
    is_dir: bool,
    seconds: Option<u64>,
)
    ensures
        ({
            let r = made(st, sb, parent, links, name, is_dir, seconds).1;
            r is Err ==> r->Err_0 is DiskFull || r->Err_0 is InternalError
        }),
{
}

/// A new file is an empty regular one that its owner may write and all may read, with one
/// link; a new directory has two, and may be searched too. Both hold an empty tree.
pub proof fn law_new_file(now: u32)
    ensures
        ({
            let f = inode::inode_of(inode_alloc::fresh_record(FILE_MODE, 0, 0, now));
            let d = inode::inode_of(inode_alloc::fresh_record(DIR_MODE, 0, 0, now));
            &&& f.is_file()
            &&& f.mode % 0x1000 == 420
            &&& f.links_count == 1
            &&& f.size == 0
            &&& f.uses_extents()
            &&& f.mtime == now
            &&& d.is_dir()
            &&& d.mode % 0x1000 == 493
            &&& d.links_count == 2
            &&& d.size == 0
            &&& d.uses_extents()
        }),
{
    crate::allocator::laws::law_fresh_inode(FILE_MODE, 0, 0, now);
    crate::allocator::laws::law_fresh_inode(DIR_MODE, 0, 0, now);
    assert(0x81A4u16 & 0xF000 == 0x8000 && 0x41EDu16 & 0xF000 == 0x4000) by (bit_vector);
    assert(0x80000u32 & 0x80000 != 0) by (bit_vector);
}

/// The lowest bit of the options asks for a directory.
pub proof fn law_wants_dir(create_options: u32)
    ensures
        wants_dir(create_options) <==> create_options % 2 == 1,
{
    assert(create_options & 1u32 != 0 <==> create_options % 2 == 1) by (bit_vector);
}

fn furnish<D: BlockDevice>(
    dev: &mut D,
    sb: &Superblock,
    gdt: &mut GroupDescTable,
    txn: &mut Transaction,
    parent: u32,
    links: u16,
    num: u32,
    seconds: Option<u64>,
) -> (r: Result<u32, Status>)
    requires
        sb.wf(),
    ensures
        block_device::same_shape(*old(dev), *final(dev)),
        r is Ok || old(dev).reliable() ==> (
            fs_state::now(*final(dev), *final(txn), *final(gdt)),
            r,
        ) == furnished(
            fs_state::now(*old(dev), *old(txn), *old(gdt)),
            *sb,
            parent,
            links,
            num,
            seconds,
        ),
{
    let snapshot = gdt.copy();
    match dir_write::add_entry(dev, sb, &snapshot, gdt, txn, num, ".", num, dir_file_type::DIR) {
        Ok(()) => {},
        Err(_) => {
            return Err(Status::InternalError);
        },
    }
    let snapshot = gdt.copy();
    match dir_write::add_entry(
        dev,
        sb,
        &snapshot,
        gdt,
        txn,
        num,
        "..",
        parent,
        dir_file_type::DIR,
    ) {
        Ok(()) => {},
        Err(_) => {
            return Err(Status::InternalError);
        },
    }
    let more: u16 = if links == u16::MAX {
        links
    } else {
        links + 1
    };
    match super::touch(dev, sb, gdt, txn, parent, super::relinked_at(more, seconds)) {
        Ok(()) => Ok(num),
        Err(e) => Err(e),
    }
}

fn make<D: BlockDevice>(
    dev: &mut D,
    sb: &Superblock,
    gdt: &mut GroupDescTable,
    txn: &mut Transaction,
    parent: u32,
    links: u16,
    name: &str,
    is_dir: bool,
    seconds: Option<u64>,
) -> (r: Result<u32, Status>)
    requires
        sb.wf(),
        parent > 0,
    ensures
        block_device::same_shape(*old(dev), *final(dev)),
        r is Ok || old(dev).reliable() ==> (
            fs_state::now(*final(dev), *final(txn), *final(gdt)),
            r,
        ) == made(
            fs_state::now(*old(dev), *old(txn), *old(gdt)),
            *sb,
            parent,
            links,
            name@,
            is_dir,
            seconds,
        ),
{
    let group: usize = ((parent - 1) / sb.inodes_per_group) as usize;
    let num: u32 = match inode_alloc::alloc_inode(dev, sb, gdt, txn, is_dir, group) {
        Ok(n) => n,
        Err(_) => {
            return Err(Status::DiskFull);
        },
    };
    let mode: u16 = if is_dir {
        DIR_MODE
    } else {
        FILE_MODE
    };
    match inode_alloc::init_inode_at(
        dev,
        sb,
        gdt,
        txn,
        num,
        mode,
        0,
        0,
        clock::inode_stamp(seconds),
    ) {
        Ok(()) => {},
        Err(_) => {
            return Err(Status::InternalError);
        },
    }
    let file_type: u8 = if is_dir {
        dir_file_type::DIR
    } else {
        dir_file_type::REG_FILE
    };
    let snapshot = gdt.copy();
    match dir_write::add_entry(dev, sb, &snapshot, gdt, txn, parent, name, num, file_type) {
        Ok(()) => {},
        Err(_) => {
            return Err(Status::InternalError);
        },
    }
    if is_dir {
        furnish(dev, sb, gdt, txn, parent, links, num, seconds)
    } else {
        Ok(num)
    }
}

/// What a create request gives, of its handle.
pub open spec fn handle_of(r: Result<FileHandle, Status>) -> Result<(u32, InodeView), Status> {
    match r {
        Ok(h) => Ok((h.num(), h.snapshot())),
        Err(e) => Err(e),
    }
}

impl<D: BlockDevice> Ext4Fs<D> {
    /// Create a file or directory at the time `seconds`.
    pub fn create_handle_at(
        &mut self,
        file_name: &str,
        create_options: u32,
        seconds: Option<u64>,
        file_info: &mut FileInfo,
    ) -> (r: Result<FileHandle, Status>)
        requires
            old(self).wf(),
        ensures
            old(self).same_volume(final(self)),
            r is Ok || old(self).dev.reliable() ==> (final(self).state(), handle_of(r)) == created(
                old(self).state(),
                old(self).sb,
                old(self).read_only,
                file_name@,
                wants_dir(create_options),
                seconds,
            ),
            old(self).read_only ==> r is Err && r->Err_0 == Status::MediaWriteProtected
                && *final(self) == *old(self),
            r is Ok ==> {
                &&& r->Ok_0 is Directory == wants_dir(create_options)
                &&& r->Ok_0 is File == !wants_dir(create_options)
                &&& *final(file_info) == file_info::info_of(r->Ok_0.snapshot(), r->Ok_0.num())
                &&& final(self).dev.synced()
            },
            r is Err ==> *final(file_info) == *old(file_info),
    {
        if self.read_only {
            return Err(Status::MediaWriteProtected);
        }
        let path = text::replace_char(file_name, '\\', "/");
        let (parent_path, name) = match split_path(path.as_str()) {
            Some(p) => p,
            None => {
                return Err(Status::ObjectNameInvalid);
            },
        };
        let is_dir: bool = create_options & FILE_DIRECTORY_FILE != 0;
        let parent: u32 = match self.resolve_path(parent_path) {
            Ok(n) => n,
            Err(_) => {
                return Err(Status::ObjectPathNotFound);
            },
        };
        let parent_inode = match self.inode(parent) {
            Ok(i) => i,
            Err(_) => {
                return Err(Status::InternalError);
            },
        };
        if !parent_inode.is_dir() {
            return Err(Status::NotADirectory);
        }
        match self.lookup(&parent_inode, name) {
            Ok(None) => {},
            Ok(Some(_)) => {
                return Err(Status::ObjectNameCollision);
            },
            Err(_) => {
                return Err(Status::InternalError);
            },
        }
        let mut txn = self.journal.begin_transaction();
        let num: u32 = match make(
            &mut self.dev,
            &self.sb,
            &mut self.gdt,
            &mut txn,
            parent,
            parent_inode.links_count,
            name,
            is_dir,
            seconds,
        ) {
            Ok(n) => n,
            Err(e) => {
                return Err(e);
            },
        };
        let inode = match self.finish(txn, num) {
            Ok(i) => i,
            Err(e) => {
                return Err(e);
            },
        };
        *file_info = file_info::file_info_from_inode(&inode, num);
        if is_dir {
            Ok(FileHandle::Directory { inode_num: num, inode })
        } else {
            Ok(FileHandle::File { inode_num: num, inode })
        }
    }

    /// Create a file or directory. Refused on a read-only mount.
    pub fn create_handle(
        &mut self,
        file_name: &str,
        create_options: u32,
        file_info: &mut FileInfo,
    ) -> (r: Result<FileHandle, Status>)
        requires
            old(self).wf(),
        ensures
            old(self).same_volume(final(self)),
            r is Ok || old(self).dev.reliable() ==> exists|seconds: Option<u64>|
                (final(self).state(), handle_of(r)) == #[trigger] created(
                    old(self).state(),
                    old(self).sb,
                    old(self).read_only,
                    file_name@,
                    wants_dir(create_options),
                    seconds,
                ),
            old(self).read_only ==> r is Err && r->Err_0 == Status::MediaWriteProtected
                && *final(self) == *old(self),
            r is Ok ==> {
                &&& r->Ok_0 is Directory == wants_dir(create_options)
                &&& r->Ok_0 is File == !wants_dir(create_options)
                &&& *final(file_info) == file_info::info_of(r->Ok_0.snapshot(), r->Ok_0.num())
                &&& final(self).dev.synced()
            },
            r is Err ==> *final(file_info) == *old(file_info),
    {
        let seconds: Option<u64> = clock::unix_seconds();
        self.create_handle_at(file_name, create_options, seconds, file_info)
    }
}

} // verus!
