//! A mounted volume.
use vstd::prelude::*;
use vstd::string::*;
use crate::block_device;
use crate::block_device::{BlockDevice, BlockDeviceError};
use crate::bytes;
use crate::dir;
use crate::dir::{DirEntry, DirError};
use crate::extent;
use crate::file;
use crate::file::{FileError, FileReader};
use crate::fs_state::FsState;
use crate::group_desc;
use crate::group_desc::{GroupDesc, GroupDescError, GroupDescTable};
use crate::inode;
use crate::inode::{Inode, InodeError, InodeView};
use crate::journal;
use crate::journal::writer;
use crate::journal::writer::{JournalWriter, TxnView, WriterView};
use crate::journal::{Journal, JournalError};
use crate::superblock;
use crate::superblock::{Superblock, SuperblockError};
use crate::text;

verus! {

/// Why an operation on a volume failed.
#[derive(Debug)]
pub enum Ext4FsError {
    Superblock(SuperblockError),
    GroupDesc(GroupDescError),
    Inode(InodeError),
    Dir(DirError),
    File(FileError),
    Journal(JournalError),
    /// No file of this path.
    NotFound(String),
    /// The path leads through a file of this name.
    NotADirectory(String),
    /// A path may not hold "..".
    DotDotNotAllowed,
    SymlinkLoop,
    /// The journal has to be replayed, which a read-only mount may not do.
    DirtyJournalReadOnly,
}

/// How a volume is opened.
#[derive(Debug, Clone, Copy, PartialEq, Eq, Structural)]
pub enum OpenMode {
    ReadOnly,
    /// Read-only, though the journal may have to be replayed.
    ReadOnlyForce,
    ReadWrite,
}

/// What an open file or directory is known by.
pub enum FileHandle {
    File { inode_num: u32, inode: Inode },
    Directory { inode_num: u32, inode: Inode },
    Symlink { inode_num: u32, inode: Inode, target: String },
}

impl FileHandle {
    /// The inode's number.
    pub open spec fn num(self) -> u32 {
        match self {
            FileHandle::File { inode_num, inode } => inode_num,
            FileHandle::Directory { inode_num, inode } => inode_num,
            FileHandle::Symlink { inode_num, inode, target } => inode_num,
        }
    }

    /// The inode as it was when the handle was opened.
    pub open spec fn snapshot(self) -> InodeView {
        match self {
            FileHandle::File { inode_num, inode } => inode@,
            FileHandle::Directory { inode_num, inode } => inode@,
            FileHandle::Symlink { inode_num, inode, target } => inode@,
        }
    }

    /// The number and the inode.
    pub fn parts(&self) -> (r: (u32, Inode))
        ensures
            r.0 == self.num(),
            r.1@ == self.snapshot(),
    {
        match self {
            FileHandle::File { inode_num, inode } => (*inode_num, *inode),
            FileHandle::Directory { inode_num, inode } => (*inode_num, *inode),
            FileHandle::Symlink { inode_num, inode, target: _ } => (*inode_num, *inode),
        }
    }
}

/// What operations on a volume read and change.
#[verifier::ext_equal]
pub struct VolState {
    pub disk: Seq<u8>,
    pub gdt: Seq<GroupDesc>,
    pub w: WriterView,
}

/// The transaction that begins in a state.
pub open spec fn begun(v: VolState) -> TxnView {
    TxnView { sequence: v.w.sequence, blocks: Seq::empty(), revoked: Seq::empty() }
}

/// The state with a transaction running in it.
pub open spec fn running(v: VolState, t: TxnView) -> FsState {
    FsState { disk: v.disk, txn: t, gdt: v.gdt }
}

/// The state after the steps of a transaction left `s`.
pub open spec fn after(v: VolState, s: FsState) -> VolState {
    VolState { disk: s.disk, gdt: s.gdt, w: v.w }
}

/// Committing the transaction `t`. Says whether it succeeded.
pub open spec fn closed(v: VolState, t: TxnView) -> (VolState, bool) {
    let (s, r) = writer::committed(writer::LogState { disk: v.disk, w: v.w }, t);
    (VolState { disk: s.disk, gdt: v.gdt, w: s.w }, r is Ok)
}

/// A mounted volume.
pub struct Ext4Fs<D: BlockDevice> {
    pub dev: D,
    pub sb: Superblock,
    pub gdt: GroupDescTable,
    pub journal: JournalWriter,
    pub read_only: bool,
}

/// Whether opening the volume on `disk`, whose superblock is `sb`, gives `r`. After a
/// replay the descriptors are loaded again.
pub open spec fn opens_from<D: BlockDevice>(
    disk: Seq<u8>,
    sb: Superblock,
    mode: OpenMode,
    r: Result<Ext4Fs<D>, Ext4FsError>,
) -> bool {
    match group_desc::loaded(disk, sb) {
        Err(e) => r is Err && r->Err_0 == Ext4FsError::GroupDesc(e),
        Ok(g) => if mode == OpenMode::ReadWrite {
            exists|disk2: Seq<u8>, rj: Result<Journal, JournalError>|
                #[trigger] journal::recovery(disk, sb, g, disk2, rj) && match rj {
                    Err(e) => r is Err && r->Err_0 == Ext4FsError::Journal(e),
                    Ok(j) => match group_desc::loaded(disk2, sb) {
                        Err(e) => r is Err && r->Err_0 == Ext4FsError::GroupDesc(e),
                        Ok(g2) => r is Ok && r->Ok_0.sb == sb && !r->Ok_0.read_only
                            && r->Ok_0.state() == (VolState {
                            disk: disk2,
                            gdt: g2,
                            w: writer::writer_of(j),
                        }),
                    },
                }
        } else {
            opens_ro(disk, sb, g, mode == OpenMode::ReadOnlyForce, r)
        },
    }
}

/// Whether opening a volume for reading gives `r`: one whose journal carries an
/// error number, or has to be replayed, is refused unless `force` is given. The
/// device is not written.
pub open spec fn opens_ro<D: BlockDevice>(
    disk: Seq<u8>,
    sb: Superblock,
    g: Seq<GroupDesc>,
    force: bool,
    r: Result<Ext4Fs<D>, Ext4FsError>,
) -> bool {
    match journal::journal_blocks(disk, sb, g) {
        Err(e) => r is Err && r->Err_0 == Ext4FsError::Journal(e),
        Ok(blocks) => match journal::journal_block(disk, sb.block_size, blocks, 0) {
            Err(e) => r is Err && r->Err_0 == Ext4FsError::Journal(e),
            Ok(s) => match journal::superblock_fault(s) {
                Some(e) => r is Err && r->Err_0 == Ext4FsError::Journal(e),
                None => exists|j: Journal|
                    #![trigger j.is_on(disk, sb, g)]
                    j.is_on(disk, sb, g) && if !force && j.sb.errno != 0 {
                        r is Err && r->Err_0 == Ext4FsError::Journal(
                            JournalError::JournalErrno(j.sb.errno),
                        )
                    } else if !force && !j.sb.clean() {
                        r is Err && r->Err_0 is DirtyJournalReadOnly
                    } else {
                        r is Ok && r->Ok_0.sb == sb && r->Ok_0.read_only && r->Ok_0.state() == (
                        VolState { disk, gdt: g, w: writer::writer_of(j) })
                    },
            },
        },
    }
}

/// Whether opening the volume on `disk` gives `r`.
pub open spec fn opens<D: BlockDevice>(
    disk: Seq<u8>,
    mode: OpenMode,
    r: Result<Ext4Fs<D>, Ext4FsError>,
) -> bool {
    match block_device::read_at(disk, 2, 2) {
        Err(e) => r is Err && r->Err_0 == Ext4FsError::Superblock(
            SuperblockError::BlockDevice(e),
        ),
        Ok(s) => match superblock::fault(s) {
            Some(e) => r is Err && r->Err_0 == Ext4FsError::Superblock(e),
            None => exists|sb: Superblock|
                #![trigger sb.reads(s)]
                sb.reads(s) && sb.wf() && opens_from(disk, sb, mode, r),
        },
    }
}

/// Where the component that starts at `i` ends: at the next slash, or with the
/// path.
pub open spec fn component_end(path: Seq<char>, i: int) -> int
    decreases path.len() - i,
{
    if i >= path.len() || path[i] == '/' {
        i
    } else {
        component_end(path, i + 1)
    }
}

/// A component ends behind its start, and inside the path.
pub proof fn lemma_component_end(path: Seq<char>, i: int)
    requires
        0 <= i <= path.len(),
    ensures
        i <= component_end(path, i) <= path.len(),
        i < path.len() && path[i] != '/' ==> component_end(path, i) > i,
    decreases path.len() - i,
{
    if i < path.len() && path[i] != '/' {
        lemma_component_end(path, i + 1);
    }
}

/// Following `path` from its character `i` on, from inode `at`. Empty
/// components and "." stay where they are; ".." is refused.
pub open spec fn followed(
    disk: Seq<u8>,
    sb: Superblock,
    gdt: Seq<GroupDesc>,
    path: Seq<char>,
    i: int,
    at: u32,
) -> Result<u32, Ext4FsError>
    decreases path.len() - i,
{
    if i < 0 || i >= path.len() {
        Ok(at)
    } else if path[i] == '/' {
        followed(disk, sb, gdt, path, i + 1, at)
    } else {
        proof {
            lemma_component_end(path, i);
        }
        let e = component_end(path, i);
        let name = path.subrange(i, e);
        if name == ".."@ {
            Err(Ext4FsError::DotDotNotAllowed)
        } else if name == "."@ {
            followed(disk, sb, gdt, path, e, at)
        } else {
            match inode::inode_at(disk, sb, gdt, at) {
                Err(x) => Err(Ext4FsError::Inode(x)),
                Ok(ino) => if !ino.is_dir() {
                    Err(Ext4FsError::NotADirectory(text::named(name)))
                } else {
                    match dir::dir_entries(disk, sb, ino) {
                        Err(x) => Err(Ext4FsError::Dir(x)),
                        Ok(entries) => match dir::first_named(entries, name) {
                            None => Err(Ext4FsError::NotFound(text::named(path))),
                            Some(n) => followed(disk, sb, gdt, path, e, n),
                        },
                    }
                },
            }
        }
    }
}

/// The root directory's inode.
pub const ROOT_INODE: u32 = 2;

/// The inode that an absolute path leads to.
pub open spec fn resolved(
    disk: Seq<u8>,
    sb: Superblock,
    gdt: Seq<GroupDesc>,
    path: Seq<char>,
) -> Result<
    u32,
    Ext4FsError,
> {
    followed(disk, sb, gdt, path, 0, ROOT_INODE)
}

/// Whether two errors say the same; names are compared as texts.
pub open spec fn same_error(a: Ext4FsError, b: Ext4FsError) -> bool {
    match (a, b) {
        (Ext4FsError::NotFound(x), Ext4FsError::NotFound(y)) => x@ == y@,
        (Ext4FsError::NotADirectory(x), Ext4FsError::NotADirectory(y)) => x@ == y@,
        _ => a == b,
    }
}

/// The bytes of a whole file.
pub open spec fn whole_file(
    disk: Seq<u8>,
    bs: u32,
    leaves: Seq<extent::ExtentLeaf>,
    size: int,
) -> Seq<
    u8,
> {
    Seq::new(size as nat, |o: int| file::file_byte(disk, bs, leaves, o))
}

/// The message of an error for text that is not UTF-8.
pub open spec fn not_utf8() -> Seq<char> {
    "stream did not contain valid UTF-8"@
}

/// Whether an error says that text is not UTF-8.
pub open spec fn is_not_utf8(e: Ext4FsError) -> bool {
    match e {
        Ext4FsError::File(FileError::BlockDevice(BlockDeviceError::Io(m))) => m@ == not_utf8(),
        _ => false,
    }
}

/// Whether reading the target of a symbolic link gives `r`: it stands in the
/// inode, or it is the contents of the file.
pub open spec fn link_reads(
    disk: Seq<u8>,
    sb: Superblock,
    i: InodeView,
    r: Result<Seq<char>, Ext4FsError>,
) -> bool {
    match file::symlink_target(i) {
        Ok(t) => r == Ok::<Seq<char>, Ext4FsError>(t),
        Err(_) => if !i.is_file() && !i.is_symlink() {
            r == Err::<Seq<char>, Ext4FsError>(Ext4FsError::File(FileError::NotAFile))
        } else {
            match extent::file_leaves(disk, sb, i.uses_extents(), i.block_data) {
                Err(e) => r == Err::<Seq<char>, Ext4FsError>(
                    Ext4FsError::File(FileError::Extent(e)),
                ),
                Ok(v) => {
                    let leaves = extent::in_order(v);
                    match file::read_fault(disk, sb.block_size, leaves, 0, i.size as int) {
                        Some(e) => r == Err::<Seq<char>, Ext4FsError>(
                            Ext4FsError::File(FileError::BlockDevice(e)),
                        ),
                        None => {
                            let s = whole_file(disk, sb.block_size, leaves, i.size as int);
                            if vstd::utf8::valid_utf8(s) {
                                r == Ok::<Seq<char>, Ext4FsError>(vstd::utf8::decode_utf8(s))
                            } else {
                                r is Err && is_not_utf8(r->Err_0)
                            }
                        },
                    }
                },
            }
        },
    }
}

/// The text of a result.
pub open spec fn text_of(r: Result<String, Ext4FsError>) -> Result<Seq<char>, Ext4FsError> {
    match r {
        Ok(s) => Ok(s@),
        Err(e) => Err(e),
    }
}

impl<D: BlockDevice> Ext4Fs<D> {
    pub open spec fn state(&self) -> VolState {
        VolState { disk: self.dev.bytes(), gdt: self.gdt@, w: self.journal@ }
    }

    /// The volume's geometry is valid.
    pub open spec fn wf(&self) -> bool {
        self.sb.wf()
    }

    /// Whether `other` is this volume in another state.
    pub open spec fn same_volume(&self, other: &Self) -> bool {
        self.sb == other.sb && self.read_only == other.read_only && block_device::same_shape(
            self.dev,
            other.dev,
        )
    }

    /// Open a volume for reading. One whose journal has to be replayed, which
    /// would write to the device, is refused.
    pub fn open(dev: D) -> (r: Result<Self, Ext4FsError>)
        ensures
            r is Ok || dev.reliable() ==> opens(dev.bytes(), OpenMode::ReadOnly, r),
            r is Ok ==> r->Ok_0.wf() && r->Ok_0.dev == dev && r->Ok_0.read_only,
    {
        Self::open_inner(dev, OpenMode::ReadOnly)
    }

    /// Open a volume for reading and writing. The journal is replayed if needed.
    pub fn open_rw(dev: D) -> (r: Result<Self, Ext4FsError>)
        ensures
            r is Ok || dev.reliable() ==> opens(dev.bytes(), OpenMode::ReadWrite, r),
            r is Ok ==> r->Ok_0.wf() && r->Ok_0.dev.reliable() == dev.reliable(),
            r is Ok ==> !r->Ok_0.read_only,
    {
        Self::open_inner(dev, OpenMode::ReadWrite)
    }

    /// Open a volume for reading, without a replay even where the journal needs
    /// one. What only the journal holds is not seen.
    pub fn open_ro_force(dev: D) -> (r: Result<Self, Ext4FsError>)
        ensures
            r is Ok || dev.reliable() ==> opens(dev.bytes(), OpenMode::ReadOnlyForce, r),
            r is Ok ==> r->Ok_0.wf() && r->Ok_0.dev == dev && r->Ok_0.read_only,
    {
        Self::open_inner(dev, OpenMode::ReadOnlyForce)
    }

    fn open_inner(dev: D, mode: OpenMode) -> (r: Result<Self, Ext4FsError>)
        ensures
            r is Ok || dev.reliable() ==> opens(dev.bytes(), mode, r),
            r is Ok ==> r->Ok_0.wf() && r->Ok_0.dev.reliable() == dev.reliable(),
            r is Ok && mode != OpenMode::ReadWrite ==> r->Ok_0.dev == dev,
            r is Ok ==> r->Ok_0.read_only == (mode != OpenMode::ReadWrite),
    {
        let mut dev = dev;
        let ghost disk = dev.bytes();
        let sb = match superblock::parse(&dev) {
            Ok(sb) => sb,
            Err(e) => {
                return Err(Ext4FsError::Superblock(e));
            },
        };
        let gdt = match GroupDescTable::load(&dev, &sb) {
            Ok(g) => g,
            Err(e) => {
                return Err(Ext4FsError::GroupDesc(e));
            },
        };
        if mode == OpenMode::ReadWrite {
            let journal = match journal::check_and_recover(&mut dev, &sb, &gdt) {
                Ok(j) => j,
                Err(e) => {
                    assert(dev.reliable() ==> journal::recovery(
                        disk,
                        sb,
                        gdt@,
                        dev.bytes(),
                        Err::<Journal, JournalError>(e),
                    ));
                    return Err(Ext4FsError::Journal(e));
                },
            };
            assert(journal::recovery(
                disk,
                sb,
                gdt@,
                dev.bytes(),
                Ok::<Journal, JournalError>(journal),
            ));
            let gdt = match GroupDescTable::load(&dev, &sb) {
                Ok(g) => g,
                Err(e) => {
                    return Err(Ext4FsError::GroupDesc(e));
                },
            };
            let writer = JournalWriter::new(&journal);
            return Ok(Ext4Fs { dev, sb, gdt, journal: writer, read_only: false });
        }
        let journal = match Journal::load(&dev, &sb, &gdt) {
            Ok(j) => j,
            Err(e) => {
                return Err(Ext4FsError::Journal(e));
            },
        };
        assert(journal.is_on(disk, sb, gdt@));
        if mode == OpenMode::ReadOnly {
            if journal.sb.errno != 0 {
                return Err(Ext4FsError::Journal(JournalError::JournalErrno(journal.sb.errno)));
            }
            if journal.sb.needs_recovery() {
                return Err(Ext4FsError::DirtyJournalReadOnly);
            }
        }
        let writer = JournalWriter::new(&journal);
        Ok(Ext4Fs { dev, sb, gdt, journal: writer, read_only: true })
    }

    pub fn superblock(&self) -> (r: &Superblock)
        ensures
            *r == self.sb,
    {
        &self.sb
    }

    pub fn dev(&self) -> (r: &D)
        ensures
            *r == self.dev,
    {
        &self.dev
    }

    pub fn sb(&self) -> (r: &Superblock)
        ensures
            *r == self.sb,
    {
        &self.sb
    }

    /// The inode of the given number.
    pub fn inode(&self, num: u32) -> (r: Result<Inode, Ext4FsError>)
        requires
            self.wf(),
        ensures
            r is Ok || self.dev.reliable() ==> match inode::inode_at(
                self.state().disk,
                self.sb,
                self.state().gdt,
                num,
            ) {
                Ok(i) => r is Ok && r->Ok_0@ == i,
                Err(e) => r is Err && r->Err_0 == Ext4FsError::Inode(e),
            },
    {
        match inode::read_inode(&self.dev, &self.sb, &self.gdt, num) {
            Ok(i) => Ok(i),
            Err(e) => Err(Ext4FsError::Inode(e)),
        }
    }

    /// The entries of a directory.
    pub fn read_dir(&self, dir_inode: &Inode) -> (r: Result<Vec<DirEntry>, Ext4FsError>)
        requires
            self.wf(),
        ensures
            r is Ok || self.dev.reliable() ==> match dir::dir_entries(
                self.state().disk,
                self.sb,
                dir_inode@,
            ) {
                Ok(v) => r is Ok && dir::entries_view(r->Ok_0@) == v,
                Err(e) => r is Err && r->Err_0 == Ext4FsError::Dir(e),
            },
    {
        match dir::read_dir(&self.dev, &self.sb, &self.gdt, dir_inode) {
            Ok(v) => Ok(v),
            Err(e) => Err(Ext4FsError::Dir(e)),
        }
    }

    /// The target of a symbolic link.
    pub fn read_symlink_target(&self, inode: &Inode) -> (r: Result<String, Ext4FsError>)
        requires
            self.wf(),
        ensures
            r is Ok || self.dev.reliable() ==> link_reads(
                self.state().disk,
                self.sb,
                inode@,
                text_of(r),
            ),
    {
        match file::read_symlink(inode) {
            Ok(t) => {
                return Ok(t);
            },
            Err(_) => {},
        }
        let mut reader = match FileReader::new(&self.dev, &self.sb, inode) {
            Ok(r) => r,
            Err(e) => {
                return Err(Ext4FsError::File(e));
            },
        };
        let raw = match read_to_end(&mut reader) {
            Ok(b) => b,
            Err(e) => {
                return Err(Ext4FsError::File(e));
            },
        };
        match text::from_utf8(raw) {
            Some(t) => Ok(t),
            None => Err(
                Ext4FsError::File(
                    FileError::BlockDevice(
                        BlockDeviceError::Io("stream did not contain valid UTF-8".to_owned()),
                    ),
                ),
            ),
        }
    }

    /// The inode number that a directory holds under `name`.
    pub fn lookup(&self, dir_inode: &Inode, name: &str) -> (r: Result<Option<u32>, Ext4FsError>)
        requires
            self.wf(),
        ensures
            r is Ok || self.dev.reliable() ==> match dir::dir_entries(
                self.state().disk,
                self.sb,
                dir_inode@,
            ) {
                Ok(v) => r == Ok::<Option<u32>, Ext4FsError>(dir::first_named(v, name@)),
                Err(e) => r is Err && r->Err_0 == Ext4FsError::Dir(e),
            },
    {
        match dir::lookup(&self.dev, &self.sb, &self.gdt, dir_inode, name) {
            Ok(n) => Ok(n),
            Err(e) => Err(Ext4FsError::Dir(e)),
        }
    }

    /// The inode number that an absolute path like "/subdir/file.txt" leads to.
    pub fn resolve_path(&self, path: &str) -> (r: Result<u32, Ext4FsError>)
        requires
            self.wf(),
        ensures
            r is Ok || self.dev.reliable() ==> match resolved(
                self.state().disk,
                self.sb,
                self.state().gdt,
                path@,
            ) {
                Ok(n) => r is Ok && r->Ok_0 == n,
                Err(e) => r is Err && same_error(r->Err_0, e),
            },
    {
        let len: usize = path.unicode_len();
        let mut at: u32 = ROOT_INODE;
        let mut i: usize = 0;
        while i < len
            invariant
                self.wf(),
                len == path@.len(),
                i <= len,
                resolved(self.state().disk, self.sb, self.state().gdt, path@) == followed(
                    self.state().disk,
                    self.sb,
                    self.state().gdt,
                    path@,
                    i as int,
                    at,
                ),
            decreases len - i,
        {
            if path.get_char(i) == '/' {
                i = i + 1;
                continue ;
            }
            let e: usize = find_component_end(path, i);
            proof {
                lemma_component_end(path@, i as int);
            }
            let name = path.substring_char(i, e);
            if text::same_text(name, "..") {
                return Err(Ext4FsError::DotDotNotAllowed);
            }
            if text::same_text(name, ".") {
                i = e;
                continue ;
            }
            let ino = match self.inode(at) {
                Ok(ino) => ino,
                Err(x) => {
                    return Err(x);
                },
            };
            if !ino.is_dir() {
                return Err(Ext4FsError::NotADirectory(name.to_owned()));
            }
            match self.lookup(&ino, name) {
                Err(x) => {
                    return Err(x);
                },
                Ok(None) => {
                    return Err(Ext4FsError::NotFound(path.to_owned()));
                },
                Ok(Some(n)) => {
                    at = n;
                },
            }
            i = e;
        }
        Ok(at)
    }
}

fn find_component_end(path: &str, i: usize) -> (e: usize)
    requires
        i < path@.len(),
        path@.len() <= usize::MAX,
    ensures
        e == component_end(path@, i as int),
{
    let len: usize = path.unicode_len();
    let mut e: usize = i;
    while e < len && path.get_char(e) != '/'
        invariant
            len == path@.len(),
            i <= e <= len,
            component_end(path@, i as int) == component_end(path@, e as int),
        decreases len - e,
    {
        e = e + 1;
    }
    e
}

/// Read a file to its end.
fn read_to_end<D: BlockDevice>(reader: &mut FileReader<D>) -> (r: Result<Vec<u8>, FileError>)
    requires
        old(reader).wf(),
        old(reader).pos() == 0,
        block_device::valid_block_size(old(reader).block_size()),
    ensures
        r is Ok || old(reader).device().reliable() ==> ({
            let disk = old(reader).device().bytes();
            let bs = old(reader).block_size();
            let leaves = old(reader).extents();
            let size = old(reader).file().size as int;
            match file::read_fault(disk, bs, leaves, 0, size) {
                Some(e) => r is Err && r->Err_0 == FileError::BlockDevice(e),
                None => r is Ok && r->Ok_0@ == whole_file(disk, bs, leaves, size),
            }
        }),
{
    let ghost disk = reader.device().bytes();
    let ghost bs = reader.block_size();
    let ghost leaves = reader.extents();
    let size: u64 = reader.size();
    let step: usize = reader.chunk();
    let mut out: Vec<u8> = Vec::new();
    assert(out@ =~= whole_file(disk, bs, leaves, 0));
    let mut done: u64 = 0;
    while done < size
        invariant
            reader.wf(),
            reader.device() == old(reader).device(),
            reader.block_size() == bs,
            bs == old(reader).block_size(),
            reader.extents() == leaves,
            leaves == old(reader).extents(),
            reader.file() == old(reader).file(),
            disk == reader.device().bytes(),
            size == reader.file().size,
            reader.pos() == done,
            step == bs,
            block_device::valid_block_size(bs),
            done <= size,
            done % (bs as u64) == 0 || done == size,
            out@ == whole_file(disk, bs, leaves, done as int),
            file::read_fault(disk, bs, leaves, 0, size as int) == file::read_fault(
                disk,
                bs,
                leaves,
                done as int,
                size as int,
            ),
        decreases size - done,
    {
        let mut buf = bytes::zero_vec(step);
        proof {
            let left = size - done;
            let n = if bs < left {
                bs as int
            } else {
                left
            };
            file::lemma_read_fault_step(disk, bs, leaves, done as int, n, size as int);
        }
        let n: usize = match reader.read(buf.as_mut_slice()) {
            Ok(n) => n,
            Err(e) => {
                return Err(e);
            },
        };
        let part = bytes::copy_range(buf.as_slice(), 0, n);
        let ghost before = out@;
        out.extend_from_slice(part.as_slice());
        assert(out@ =~= whole_file(disk, bs, leaves, done + n));
        proof {
            assert((done + bs) % (bs as int) == 0) by {
                vstd::arithmetic::div_mod::lemma_mod_add_multiples_vanish(done as int, bs as int);
            }
        }
        done = done + n as u64;
    }
    Ok(out)
}

} // verus!
