//! Changing directories.
use vstd::prelude::*;
use crate::allocator::block_alloc;
use crate::allocator::{AllocError, Allocator};
use crate::block_device;
use crate::block_device::{BlockDevice, BlockDeviceError};
use crate::bytes;
use crate::dir;
use crate::extent;
use crate::extent::ExtentError;
use crate::extent_write;
use crate::extent_write::ExtentWriteError;
use crate::fs_state;
use crate::fs_state::FsState;
use crate::group_desc::{GroupDesc, GroupDescTable};
use crate::inode;
use crate::inode::{FileType, Inode, InodeError, InodeView};
use crate::inode_write;
use crate::inode_write::{InodeUpdate, InodeWriteError};
use crate::journal::writer::Transaction;
use crate::journal::JournalError;
use crate::superblock::Superblock;
use crate::text;

pub use crate::dir::dir_file_type;

verus! {

broadcast use crate::bytes::group_codec;

/// Why a directory was not changed.
#[derive(Debug)]
pub enum DirWriteError {
    AlreadyExists(String),
    NotFound(String),
    NotEmpty,
    HardLinkToDirectory,
    /// The inode has as many links as it may have (65000).
    TooManyLinks,
    /// The name is longer than 255 bytes.
    NameTooLong,
    InodeWrite(InodeWriteError),
    Alloc(AllocError),
    BlockDevice(BlockDeviceError),
    Journal(JournalError),
    Inode(InodeError),
    Extent(ExtentError),
    ExtentWrite(ExtentWriteError),
    BlockNumberOverflow,
    /// The directory is too large to be sound.
    SizeTooLarge,
    /// An entry's length is invalid.
    InvalidRecLen(u16),
}

/// Blocks that a directory may span.
pub const MAX_DIR_BLOCKS: u64 = 65536;

/// Links that an inode may have.
pub const MAX_LINKS: u16 = 65000;

/// Whether two errors say the same; names are compared as texts.
pub open spec fn same_error(a: DirWriteError, b: DirWriteError) -> bool {
    match (a, b) {
        (DirWriteError::AlreadyExists(x), DirWriteError::AlreadyExists(y)) => x@ == y@,
        (DirWriteError::NotFound(x), DirWriteError::NotFound(y)) => x@ == y@,
        _ => a == b,
    }
}

/// Whether two results are the same.
pub open spec fn same_result<T>(
    a: Result<T, DirWriteError>,
    b: Result<T, DirWriteError>,
) -> bool {
    match (a, b) {
        (Ok(x), Ok(y)) => x == y,
        (Err(x), Err(y)) => same_error(x, y),
        _ => false,
    }
}

/// Least length of an entry whose name has `n` bytes: a header of 8 bytes and
/// the name, up to a multiple of 4.
pub open spec fn min_len(n: int) -> int {
    (8 + n + 3) / 4 * 4
}

/// Whether the entry at `pos` is live and its name is `name`.
pub open spec fn is_named(b: Seq<u8>, pos: int, name: Seq<u8>) -> bool {
    &&& dir::entry_inode(b, pos) != 0
    &&& dir::entry_name_len(b, pos) == name.len()
    &&& pos + 8 + name.len() <= b.len()
    &&& b.subrange(pos + 8, pos + 8 + name.len()) == name
}

/// Whether the entry at `pos` is live and is neither "." nor "..".
pub open spec fn is_other(b: Seq<u8>, pos: int) -> bool {
    dir::entry_inode(b, pos) != 0 && !is_named(b, pos, seq![46u8]) && !is_named(
        b,
        pos,
        seq![46u8, 46u8],
    )
}

/// What is looked for in a directory.
pub enum Query {
    /// An entry of this name.
    Named(Seq<u8>),
    /// An entry of this name that has room for it.
    Fitting(Seq<u8>),
    /// An entry that is neither "." nor "..".
    Other,
}

/// Whether the entry at `pos` is one that is looked for.
pub open spec fn answers(b: Seq<u8>, pos: int, q: Query) -> bool {
    match q {
        Query::Named(name) => is_named(b, pos, name),
        Query::Fitting(name) => is_named(b, pos, name) && name.len() + 8 <= dir::entry_len(b, pos),
        Query::Other => is_other(b, pos),
    }
}

/// Where the first entry that is looked for lies, from byte `pos` on. The
/// search ends at an entry that is too short.
pub open spec fn found_at(b: Seq<u8>, pos: int, q: Query) -> Option<int>
    decreases b.len() + 0x1_0000 - pos,
{
    if pos + 8 > b.len() || dir::entry_len(b, pos) < 8 {
        None
    } else if answers(b, pos, q) {
        Some(pos)
    } else {
        found_at(b, pos + dir::entry_len(b, pos), q)
    }
}

/// The inode number and the type of the first entry that is looked for, in a
/// directory's logical blocks from `l` to `n`.
pub open spec fn found_from(
    disk: Seq<u8>,
    sb: Superblock,
    i: InodeView,
    q: Query,
    l: int,
    n: int,
) -> Result<Option<(u32, u8)>, DirWriteError>
    decreases n - l,
{
    if l >= n {
        Ok(None)
    } else {
        match extent::file_block(disk, sb, i.uses_extents(), i.block_data, l as u64) {
            Err(e) => Err(DirWriteError::Extent(e)),
            Ok(None) => found_from(disk, sb, i, q, l + 1, n),
            Ok(Some(p)) => match block_device::block_at(disk, sb.block_size, p) {
                Err(e) => Err(DirWriteError::BlockDevice(e)),
                Ok(b) => match found_at(b, 0, q) {
                    Some(pos) => Ok(Some((dir::entry_inode(b, pos), dir::entry_type(b, pos)))),
                    None => found_from(disk, sb, i, q, l + 1, n),
                },
            },
        }
    }
}

/// The first entry that is looked for in directory `num`, as it is on disk.
pub open spec fn found(
    disk: Seq<u8>,
    sb: Superblock,
    gdt: Seq<GroupDesc>,
    num: u32,
    q: Query,
) -> Result<Option<(u32, u8)>, DirWriteError> {
    match inode::inode_at(disk, sb, gdt, num) {
        Err(e) => Err(DirWriteError::Inode(e)),
        Ok(i) => if dir::dir_blocks(sb, i) > MAX_DIR_BLOCKS {
            Err(DirWriteError::SizeTooLarge)
        } else {
            found_from(disk, sb, i, q, 0, dir::dir_blocks(sb, i))
        },
    }
}

/// The bytes of an entry, without padding.
pub open spec fn dirent_bytes(num: u32, name: Seq<u8>, file_type: u8, len: u16) -> Seq<u8> {
    bytes::le32_bytes(num) + bytes::le16_bytes(len) + seq![name.len() as u8, file_type] + name
}

/// The block with an entry written at `pos`.
pub open spec fn with_dirent(
    b: Seq<u8>,
    pos: int,
    num: u32,
    name: Seq<u8>,
    file_type: u8,
    len: u16,
) -> Seq<u8> {
    bytes::put(b, pos, dirent_bytes(num, name, file_type, len))
}

/// How far the entry at `pos` reaches. An entry that fills a block of 65536 bytes has
/// the largest length that can be written.
pub open spec fn reach(b: Seq<u8>, pos: int) -> int {
    let len = dir::entry_len(b, pos);
    if len == u16::MAX && pos + len + 1 == b.len() {
        len + 1
    } else {
        len as int
    }
}

/// The block with a new entry, put into a deleted entry that is long enough,
/// or behind the block's last entry, from byte `pos` on; `None` where there is
/// no room.
pub open spec fn inserted_at(
    b: Seq<u8>,
    pos: int,
    name: Seq<u8>,
    num: u32,
    file_type: u8,
) -> Result<Option<Seq<u8>>, DirWriteError>
    decreases b.len() + 0x1_0000 - pos,
{
    if pos + 8 > b.len() {
        Ok(None)
    } else {
        let len = dir::entry_len(b, pos);
        let own = min_len(dir::entry_name_len(b, pos) as int);
        if len < 8 {
            Err(DirWriteError::InvalidRecLen(len))
        } else if dir::entry_inode(b, pos) == 0 && len >= min_len(name.len() as int) {
            if pos + 8 + name.len() > b.len() {
                Err(DirWriteError::InvalidRecLen(len))
            } else {
                Ok(Some(with_dirent(b, pos, num, name, file_type, len)))
            }
        } else if dir::entry_inode(b, pos) != 0 && pos + reach(b, pos) >= b.len() && reach(b, pos) - own
            >= min_len(name.len() as int) {
            if pos + own + 8 + name.len() > b.len() {
                Err(DirWriteError::InvalidRecLen(len))
            } else {
                Ok(
                    Some(
                        with_dirent(
                            bytes::put(b, pos + 4, bytes::le16_bytes(own as u16)),
                            pos + own,
                            num,
                            name,
                            file_type,
                            (reach(b, pos) - own) as u16,
                        ),
                    ),
                )
            }
        } else {
            inserted_at(b, pos + len, name, num, file_type)
        }
    }
}

/// The block without the entry named `name`, and the inode it named: the live
/// entry in front of it, at `prev`, is made to reach to its end, over any deleted
/// ones in between, or, where there is none, the entry is marked as deleted.
pub open spec fn removed_at(b: Seq<u8>, pos: int, prev: Option<int>, name: Seq<u8>) -> Result<
    Option<(Seq<u8>, u32)>,
    DirWriteError,
>
    decreases b.len() + 0x1_0000 - pos,
{
    if pos + 8 > b.len() {
        Ok(None)
    } else {
        let len = dir::entry_len(b, pos);
        let num = dir::entry_inode(b, pos);
        if len < 8 {
            Err(DirWriteError::InvalidRecLen(len))
        } else if is_named(b, pos, name) {
            match prev {
                Some(p) => if pos + len - p > u16::MAX && !(pos + len == b.len() && pos + len - p
                    == u16::MAX + 1) {
                    Err(DirWriteError::InvalidRecLen(len))
                } else {
                    Ok(
                        Some(
                            (
                                bytes::put(
                                    b,
                                    p + 4,
                                    bytes::le16_bytes(coded_len((pos + len - p) as u32)),
                                ),
                                num,
                            ),
                        ),
                    )
                },
                None => Ok(Some((bytes::put(b, pos, bytes::le32_bytes(0)), num))),
            }
        } else {
            removed_at(
                b,
                pos + len,
                if num != 0 {
                    Some(pos)
                } else {
                    prev
                },
                name,
            )
        }
    }
}

/// What a directory's inode says inside a transaction.
pub open spec fn dir_inode(st: FsState, sb: Superblock, gdt: Seq<GroupDesc>, num: u32) -> Result<
    InodeView,
    DirWriteError,
> {
    match inode::inode_in_txn(st.disk, sb, gdt, st.txn.blocks, num) {
        Err(e) => Err(DirWriteError::Inode(e)),
        Ok(i) => if dir::dir_blocks(sb, i) > MAX_DIR_BLOCKS {
            Err(DirWriteError::SizeTooLarge)
        } else {
            Ok(i)
        },
    }
}

/// Inserting into the first of a directory's logical blocks, from `l` to `n`,
/// that has room. False where none has.
pub open spec fn inserted_from(
    st: FsState,
    sb: Superblock,
    i: InodeView,
    name: Seq<u8>,
    num: u32,
    file_type: u8,
    l: int,
    n: int,
) -> (FsState, Result<bool, DirWriteError>)
    decreases n - l,
{
    if l >= n {
        (st, Ok(false))
    } else {
        match extent::file_block(st.disk, sb, i.uses_extents(), i.block_data, l as u64) {
            Err(e) => (st, Err(DirWriteError::Extent(e))),
            Ok(None) => inserted_from(st, sb, i, name, num, file_type, l + 1, n),
            Ok(Some(p)) => match fs_state::fetched(st.disk, st.txn.blocks, sb.block_size, p) {
                Err(e) => (st, Err(DirWriteError::BlockDevice(e))),
                Ok(b) => match inserted_at(b, 0, name, num, file_type) {
                    Err(e) => (st, Err(e)),
                    Ok(Some(b2)) => (fs_state::pin(st, p, b2), Ok(true)),
                    Ok(None) => inserted_from(st, sb, i, name, num, file_type, l + 1, n),
                },
            },
        }
    }
}

/// Where a new block of a directory should lie: near its last block.
pub open spec fn growth_hint(disk: Seq<u8>, sb: Superblock, i: InodeView) -> Result<
    u64,
    DirWriteError,
> {
    let n = dir::dir_blocks(sb, i);
    if n == 0 {
        Ok(0)
    } else {
        match extent::file_block(disk, sb, i.uses_extents(), i.block_data, (n - 1) as u64) {
            Err(e) => Err(DirWriteError::Extent(e)),
            Ok(Some(p)) => Ok(p),
            Ok(None) => Ok(0),
        }
    }
}

/// How the length of an entry that fills a block is written: 65536 does not fit
/// into 16 bits, and is written as the largest number that does.
pub open spec fn coded_len(bs: u32) -> u16 {
    if bs > u16::MAX {
        u16::MAX
    } else {
        bs as u16
    }
}

/// Adding a block to directory `dir_num` that holds the new entry alone.
pub open spec fn extended(
    st: FsState,
    sb: Superblock,
    gdt: Seq<GroupDesc>,
    dir_num: u32,
    i: InodeView,
    name: Seq<u8>,
    num: u32,
    file_type: u8,
) -> (FsState, Result<(), DirWriteError>) {
    match growth_hint(st.disk, sb, i) {
        Err(e) => (st, Err(e)),
        Ok(hint) => {
            let (s1, r1) = block_alloc::allocated(st, sb, 1, hint);
            match r1 {
                Err(e) => (s1, Err(DirWriteError::Alloc(e))),
                Ok(fresh) => {
                    let s2 = fs_state::pin(
                        s1,
                        fresh,
                        with_dirent(
                            bytes::zeros(sb.block_size as int),
                            0,
                            num,
                            name,
                            file_type,
                            coded_len(sb.block_size),
                        ),
                    );
                    let (s3, r3) = extent_write::appended(s2, sb, dir_num, fresh, 1);
                    match r3 {
                        Err(e) => (s3, Err(DirWriteError::ExtentWrite(e))),
                        Ok(()) => {
                            let (t, r4) = inode_write::updated(
                                s3.disk,
                                sb,
                                gdt,
                                s3.txn,
                                dir_num,
                                InodeUpdate {
                                    size: Some((i.size + sb.block_size) as u64),
                                    ..inode_write::no_update()
                                },
                            );
                            (
                                FsState { txn: t, ..s3 },
                                match r4 {
                                    Err(e) => Err(DirWriteError::InodeWrite(e)),
                                    Ok(()) => Ok(()),
                                },
                            )
                        },
                    }
                },
            }
        },
    }
}

/// Inserting an entry without a look at what the directory already holds.
/// `gdt` is where inodes are looked up.
pub open spec fn inserted(
    st: FsState,
    sb: Superblock,
    gdt: Seq<GroupDesc>,
    dir_num: u32,
    name: Seq<u8>,
    num: u32,
    file_type: u8,
) -> (FsState, Result<(), DirWriteError>) {
    match dir_inode(st, sb, gdt, dir_num) {
        Err(e) => (st, Err(e)),
        Ok(i) => {
            let (s1, r1) = inserted_from(
                st,
                sb,
                i,
                name,
                num,
                file_type,
                0,
                dir::dir_blocks(sb, i),
            );
            match r1 {
                Err(e) => (s1, Err(e)),
                Ok(true) => (s1, Ok(())),
                Ok(false) => extended(s1, sb, gdt, dir_num, i, name, num, file_type),
            }
        },
    }
}

/// The bytes of a name.
pub open spec fn name_bytes(name: Seq<char>) -> Seq<u8> {
    vstd::utf8::encode_utf8(name)
}

/// Adding an entry, unless the directory on disk has one of that name.
pub open spec fn added(
    st: FsState,
    sb: Superblock,
    gdt: Seq<GroupDesc>,
    dir_num: u32,
    name: Seq<char>,
    num: u32,
    file_type: u8,
) -> (FsState, Result<(), DirWriteError>) {
    if name_bytes(name).len() > 255 {
        (st, Err(DirWriteError::NameTooLong))
    } else {
        match found(st.disk, sb, gdt, dir_num, Query::Fitting(name_bytes(name))) {
            Err(e) => (st, Err(e)),
            Ok(Some(_)) => (st, Err(DirWriteError::AlreadyExists(text::named(name)))),
            Ok(None) => inserted(st, sb, gdt, dir_num, name_bytes(name), num, file_type),
        }
    }
}

/// Block `p` as the transaction sees it, if it can be read from the device too.
pub open spec fn readable(st: FsState, sb: Superblock, p: u64) -> Result<
    Seq<u8>,
    BlockDeviceError,
> {
    match block_device::block_at(st.disk, sb.block_size, p) {
        Err(e) => Err(e),
        Ok(_) => fs_state::fetched(st.disk, st.txn.blocks, sb.block_size, p),
    }
}

/// Removing an entry from the first of a directory's logical blocks, from `l`
/// to `n`, that holds it.
pub open spec fn removed_from(
    st: FsState,
    sb: Superblock,
    i: InodeView,
    name: Seq<char>,
    l: int,
    n: int,
) -> (FsState, Result<u32, DirWriteError>)
    decreases n - l,
{
    if l >= n {
        (st, Err(DirWriteError::NotFound(text::named(name))))
    } else {
        match extent::file_block(st.disk, sb, i.uses_extents(), i.block_data, l as u64) {
            Err(e) => (st, Err(DirWriteError::Extent(e))),
            Ok(None) => removed_from(st, sb, i, name, l + 1, n),
            Ok(Some(p)) => match readable(st, sb, p) {
                Err(e) => (st, Err(DirWriteError::BlockDevice(e))),
                Ok(b) => match removed_at(b, 0, None, name_bytes(name)) {
                    Err(e) => (st, Err(e)),
                    Ok(Some((b2, num))) => (fs_state::pin(st, p, b2), Ok(num)),
                    Ok(None) => removed_from(st, sb, i, name, l + 1, n),
                },
            },
        }
    }
}

/// Removing the entry of the given name. Gives the inode that it named.
pub open spec fn removed(
    st: FsState,
    sb: Superblock,
    gdt: Seq<GroupDesc>,
    dir_num: u32,
    name: Seq<char>,
) -> (FsState, Result<u32, DirWriteError>) {
    match dir_inode(st, sb, gdt, dir_num) {
        Err(e) => (st, Err(e)),
        Ok(i) => removed_from(st, sb, i, name, 0, dir::dir_blocks(sb, i)),
    }
}

/// Pointing the ".." of a directory at a new parent, in its logical blocks from
/// `l` to `n`. A directory without ".." is left as it is.
pub open spec fn reparented_from(
    st: FsState,
    sb: Superblock,
    i: InodeView,
    parent: u32,
    l: int,
    n: int,
) -> (FsState, Result<(), DirWriteError>)
    decreases n - l,
{
    if l >= n {
        (st, Ok(()))
    } else {
        match extent::file_block(st.disk, sb, i.uses_extents(), i.block_data, l as u64) {
            Err(e) => (st, Err(DirWriteError::Extent(e))),
            Ok(None) => reparented_from(st, sb, i, parent, l + 1, n),
            Ok(Some(p)) => match block_device::block_at(st.disk, sb.block_size, p) {
                Err(e) => (st, Err(DirWriteError::BlockDevice(e))),
                Ok(b) => match found_at(b, 0, Query::Named(seq![46u8, 46u8])) {
                    Some(pos) => (
                        fs_state::pin(st, p, bytes::put(b, pos, bytes::le32_bytes(parent))),
                        Ok(()),
                    ),
                    None => reparented_from(st, sb, i, parent, l + 1, n),
                },
            },
        }
    }
}

/// Pointing the ".." of directory `num` at a new parent.
pub open spec fn reparented(
    st: FsState,
    sb: Superblock,
    gdt: Seq<GroupDesc>,
    num: u32,
    parent: u32,
) -> (FsState, Result<(), DirWriteError>) {
    match inode::inode_at(st.disk, sb, gdt, num) {
        Err(e) => (st, Err(DirWriteError::Inode(e))),
        Ok(i) => {
            let n = dir::dir_blocks(sb, i);
            reparented_from(
                st,
                sb,
                i,
                parent,
                0,
                if n < MAX_DIR_BLOCKS {
                    n
                } else {
                    MAX_DIR_BLOCKS as int
                },
            )
        },
    }
}

/// Taking away the entry of what a rename replaces: a directory must be empty.
pub open spec fn displaced(
    st: FsState,
    sb: Superblock,
    gdt: Seq<GroupDesc>,
    dir_num: u32,
    name: Seq<char>,
) -> (FsState, Result<(), DirWriteError>) {
    match found(st.disk, sb, gdt, dir_num, Query::Named(name_bytes(name))) {
        Err(e) => (st, Err(e)),
        Ok(None) => (st, Ok(())),
        Ok(Some((num, _))) => match inode::inode_at(st.disk, sb, gdt, num) {
            Err(e) => (st, Err(DirWriteError::Inode(e))),
            Ok(i) => match (if i.is_dir() {
                found(st.disk, sb, gdt, num, Query::Other)
            } else {
                Ok(None)
            }) {
                Err(e) => (st, Err(e)),
                Ok(Some(_)) => (st, Err(DirWriteError::NotEmpty)),
                Ok(None) => {
                    let (s1, r1) = removed(st, sb, gdt, dir_num, name);
                    match r1 {
                        Err(e) => (s1, Err(e)),
                        Ok(_) => (s1, Ok(())),
                    }
                },
            },
        },
    }
}

/// What has the name `name` in a directory: its inode, whether that is a directory,
/// and its links.
pub open spec fn taken_by(
    disk: Seq<u8>,
    sb: Superblock,
    gdt: Seq<GroupDesc>,
    dir_num: u32,
    name: Seq<char>,
) -> Option<(u32, bool, u16)> {
    match found(disk, sb, gdt, dir_num, Query::Named(name_bytes(name))) {
        Ok(Some((num, _))) => match inode::inode_at(disk, sb, gdt, num) {
            Ok(i) => Some((num, i.is_dir(), i.links_count)),
            Err(_) => None,
        },
        _ => None,
    }
}

/// The file with more than one link that has the name `name` in a directory, and its
/// links.
pub open spec fn shared(
    disk: Seq<u8>,
    sb: Superblock,
    gdt: Seq<GroupDesc>,
    dir_num: u32,
    name: Seq<char>,
) -> Option<(u32, u16)> {
    match taken_by(disk, sb, gdt, dir_num, name) {
        Some((num, is_dir, links)) => if !is_dir && links > 1 {
            Some((num, links))
        } else {
            None
        },
        None => None,
    }
}

/// What a rename leaves without a name: the inode that had the new one, and whether it
/// is a directory.
pub open spec fn left_over(
    disk: Seq<u8>,
    sb: Superblock,
    gdt: Seq<GroupDesc>,
    src_dir: u32,
    src_name: Seq<char>,
    dst_dir: u32,
    dst_name: Seq<char>,
) -> Option<(u32, bool)> {
    match (
        taken_by(disk, sb, gdt, src_dir, src_name),
        taken_by(disk, sb, gdt, dst_dir, dst_name),
    ) {
        (Some((num, _, _)), Some((other, is_dir, links))) => if other != num && (is_dir || links
            <= 1) {
            Some((other, is_dir))
        } else {
            None
        },
        _ => None,
    }
}

/// Whether a rename moves a directory to another one.
pub open spec fn turns(
    disk: Seq<u8>,
    sb: Superblock,
    gdt: Seq<GroupDesc>,
    src_dir: u32,
    src_name: Seq<char>,
    dst_dir: u32,
) -> bool {
    src_dir != dst_dir && (taken_by(disk, sb, gdt, src_dir, src_name) matches Some(
        (num, is_dir, links),
    ) && is_dir)
}

/// Dropping a link of such a file.
pub open spec fn dropped(
    st: FsState,
    sb: Superblock,
    gdt: Seq<GroupDesc>,
    file: Option<(u32, u16)>,
) -> (FsState, Result<(), DirWriteError>) {
    match file {
        None => (st, Ok(())),
        Some((num, links)) => {
            let (t, r) = inode_write::updated(
                st.disk,
                sb,
                gdt,
                st.txn,
                num,
                InodeUpdate { links_count: Some((links - 1) as u16), ..inode_write::no_update() },
            );
            (
                FsState { txn: t, ..st },
                match r {
                    Err(e) => Err(DirWriteError::InodeWrite(e)),
                    Ok(()) => Ok(()),
                },
            )
        },
    }
}

/// Renaming: the entry is added at its new place, then removed at the old one,
/// and a directory that changes its parent gets a new "..". What had the new name is
/// replaced, and loses a link where it has more than one. An entry that keeps its name
/// and its directory stays as it is.
pub open spec fn renamed(
    st: FsState,
    sb: Superblock,
    gdt: Seq<GroupDesc>,
    src_dir: u32,
    src_name: Seq<char>,
    dst_dir: u32,
    dst_name: Seq<char>,
) -> (FsState, Result<(), DirWriteError>) {
    if name_bytes(dst_name).len() > 255 {
        (st, Err(DirWriteError::NameTooLong))
    } else {
        match found(st.disk, sb, gdt, src_dir, Query::Named(name_bytes(src_name))) {
            Err(e) => (st, Err(e)),
            Ok(None) => (st, Err(DirWriteError::NotFound(text::named(src_name)))),
            Ok(Some((num, file_type))) => match inode::inode_at(st.disk, sb, gdt, num) {
                Err(e) => (st, Err(DirWriteError::Inode(e))),
                Ok(i) => if src_dir == dst_dir && src_name == dst_name {
                    (st, Ok(()))
                } else {
                    let (s1, r1) = displaced(st, sb, gdt, dst_dir, dst_name);
                    match r1 {
                        Err(e) => (s1, Err(e)),
                        Ok(()) => {
                            let (s2, r2) = inserted(
                                s1,
                                sb,
                                gdt,
                                dst_dir,
                                name_bytes(dst_name),
                                num,
                                file_type,
                            );
                            match r2 {
                                Err(e) => (s2, Err(e)),
                                Ok(()) => {
                                    let (s3, r3) = removed(s2, sb, gdt, src_dir, src_name);
                                    match r3 {
                                        Err(e) => (s3, Err(e)),
                                        Ok(_) => {
                                            let (s4, r4) = if i.is_dir() && src_dir != dst_dir {
                                                reparented(s3, sb, gdt, num, dst_dir)
                                            } else {
                                                (s3, Ok(()))
                                            };
                                            match r4 {
                                                Err(e) => (s4, Err(e)),
                                                Ok(()) => dropped(
                                                    s4,
                                                    sb,
                                                    gdt,
                                                    shared(st.disk, sb, gdt, dst_dir, dst_name),
                                                ),
                                            }
                                        },
                                    }
                                },
                            }
                        },
                    }
                },
            },
        }
    }
}

/// The entry type of a file that may be linked to.
pub open spec fn link_type(i: InodeView) -> u8 {
    if i.is_file() {
        dir_file_type::REG_FILE
    } else if i.is_symlink() {
        dir_file_type::SYMLINK
    } else {
        dir_file_type::UNKNOWN
    }
}

/// Linking to inode `num` under another name.
pub open spec fn linked(
    st: FsState,
    sb: Superblock,
    gdt: Seq<GroupDesc>,
    num: u32,
    dir_num: u32,
    name: Seq<char>,
) -> (FsState, Result<(), DirWriteError>) {
    if name_bytes(name).len() > 255 {
        (st, Err(DirWriteError::NameTooLong))
    } else {
        match inode::inode_at(st.disk, sb, gdt, num) {
            Err(e) => (st, Err(DirWriteError::Inode(e))),
            Ok(i) => if i.is_dir() {
                (st, Err(DirWriteError::HardLinkToDirectory))
            } else if i.links_count >= MAX_LINKS {
                (st, Err(DirWriteError::TooManyLinks))
            } else {
                let (s1, r1) = added(st, sb, gdt, dir_num, name, num, link_type(i));
                match r1 {
                    Err(e) => (s1, Err(e)),
                    Ok(()) => {
                        let (t, r2) = inode_write::updated(
                            s1.disk,
                            sb,
                            gdt,
                            s1.txn,
                            num,
                            InodeUpdate {
                                links_count: Some((i.links_count + 1) as u16),
                                ..inode_write::no_update()
                            },
                        );
                        (
                            FsState { txn: t, ..s1 },
                            match r2 {
                                Err(e) => Err(DirWriteError::InodeWrite(e)),
                                Ok(()) => Ok(()),
                            },
                        )
                    },
                }
            },
        }
    }
}

/// What is looked for in a directory, over the bytes of a name in memory.
enum Wanted<'a> {
    Named(&'a [u8]),
    Fitting(&'a [u8]),
    Other,
}

impl<'a> Wanted<'a> {
    spec fn query(&self) -> Query {
        match self {
            Wanted::Named(name) => Query::Named(name@),
            Wanted::Fitting(name) => Query::Fitting(name@),
            Wanted::Other => Query::Other,
        }
    }
}

fn entry_is_named(b: &[u8], pos: usize, name: &[u8]) -> (r: bool)
    requires
        pos + 8 <= b.len(),
    ensures
        r == is_named(b@, pos as int, name@),
{
    if bytes::get_u32_le(b, pos) == 0 {
        return false;
    }
    if b[pos + 6] as usize != name.len() {
        return false;
    }
    if name.len() > b.len() - pos - 8 {
        return false;
    }
    let own = bytes::copy_range(b, pos + 8, pos + 8 + name.len());
    bytes::same_bytes(own.as_slice(), name)
}

fn entry_answers(b: &[u8], pos: usize, w: &Wanted) -> (r: bool)
    requires
        pos + 8 <= b.len(),
    ensures
        r == answers(b@, pos as int, w.query()),
{
    match w {
        Wanted::Named(name) => entry_is_named(b, pos, name),
        Wanted::Fitting(name) => entry_is_named(b, pos, name) && name.len() + 8
            <= bytes::get_u16_le(b, pos + 4) as usize,
        Wanted::Other => {
            let dot: [u8; 1] = [46u8];
            let dots: [u8; 2] = [46u8, 46u8];
            assert(dot@ =~= seq![46u8]);
            assert(dots@ =~= seq![46u8, 46u8]);
            bytes::get_u32_le(b, pos) != 0 && !entry_is_named(b, pos, dot.as_slice())
                && !entry_is_named(b, pos, dots.as_slice())
        },
    }
}

/// Where the first entry of a block lies that is looked for.
fn find_in_block(b: &[u8], w: &Wanted) -> (r: Option<usize>)
    ensures
        match found_at(b@, 0, w.query()) {
            Some(p) => r is Some && r->Some_0 == p && 0 <= p && p + 8 <= b@.len(),
            None => r is None,
        },
{
    let mut pos: usize = 0;
    while pos <= b.len() && b.len() - pos >= 8
        invariant
            b@.len() == b.len(),
            pos <= b@.len() + 0x1_0000,
            found_at(b@, 0, w.query()) == found_at(b@, pos as int, w.query()),
        decreases b@.len() + 0x1_0000 - pos,
    {
        let len: usize = bytes::get_u16_le(b, pos + 4) as usize;
        if len < 8 {
            return None;
        }
        if entry_answers(b, pos, w) {
            return Some(pos);
        }
        if len > b.len() - pos {
            assert(found_at(b@, pos + len, w.query()) is None);
            return None;
        }
        pos = pos + len;
    }
    None
}

/// Look through the blocks of a directory on disk for an entry.
fn walk_dir_blocks<D: BlockDevice>(
    dev: &D,
    sb: &Superblock,
    gdt: &GroupDescTable,
    dir_inode_num: u32,
    w: &Wanted,
) -> (r: Result<Option<(u32, u8)>, DirWriteError>)
    requires
        sb.wf(),
    ensures
        r is Ok || dev.reliable() ==> r == found(
            dev.bytes(),
            *sb,
            gdt@,
            dir_inode_num,
            w.query(),
        ),
{
    let i = match inode::read_inode(dev, sb, gdt, dir_inode_num) {
        Ok(i) => i,
        Err(e) => {
            return Err(DirWriteError::Inode(e));
        },
    };
    let n: u64 = bytes::div_ceil(i.size, sb.block_size as u64);
    if n > MAX_DIR_BLOCKS {
        return Err(DirWriteError::SizeTooLarge);
    }
    let mut l: u64 = 0;
    while l < n
        invariant
            sb.wf(),
            l <= n,
            n <= MAX_DIR_BLOCKS,
            n == dir::dir_blocks(*sb, i@),
            found(dev.bytes(), *sb, gdt@, dir_inode_num, w.query()) == found_from(
                dev.bytes(),
                *sb,
                i@,
                w.query(),
                l as int,
                n as int,
            ),
        decreases n - l,
    {
        match extent::lookup_block(dev, sb, &i, l) {
            Err(e) => {
                return Err(DirWriteError::Extent(e));
            },
            Ok(None) => {},
            Ok(Some(p)) => {
                let b = match block_device::read_block(dev, sb.block_size, p) {
                    Ok(b) => b,
                    Err(e) => {
                        return Err(DirWriteError::BlockDevice(e));
                    },
                };
                match find_in_block(b.as_slice(), w) {
                    Some(pos) => {
                        return Ok(Some((bytes::get_u32_le(b.as_slice(), pos), b[pos + 7])));
                    },
                    None => {},
                }
            },
        }
        l = l + 1;
    }
    Ok(None)
}

fn min_rec_len(n: usize) -> (r: u16)
    requires
        n <= 255,
    ensures
        r == min_len(n as int),
        r >= 8 + n,
{
    ((n + 11) / 4 * 4) as u16
}

/// Write an entry into `b` at `pos`.
fn write_dirent(b: &mut Vec<u8>, pos: usize, num: u32, name: &[u8], file_type: u8, len: u16)
    requires
        name@.len() <= 255,
        pos + 8 + name@.len() <= old(b).len(),
    ensures
        final(b)@ == with_dirent(old(b)@, pos as int, num, name@, file_type, len),
        final(b)@.len() == old(b)@.len(),
{
    let mut e = bytes::zero_vec(8);
    bytes::put_u32_le(&mut e, 0, num);
    bytes::put_u16_le(&mut e, 4, len);
    e.set(6, name.len() as u8);
    e.set(7, file_type);
    e.extend_from_slice(name);
    assert(e@ =~= dirent_bytes(num, name@, file_type, len));
    bytes::put_bytes(b, pos, e.as_slice());
}

/// Put a new entry into a directory block, if there is room.
fn try_insert_in_block(b: &mut Vec<u8>, name: &[u8], num: u32, file_type: u8) -> (r: Result<
    bool,
    DirWriteError,
>)
    requires
        name@.len() <= 255,
    ensures
        final(b)@.len() == old(b)@.len(),
        match inserted_at(old(b)@, 0, name@, num, file_type) {
            Ok(Some(b2)) => r == Ok::<bool, DirWriteError>(true) && final(b)@ == b2,
            Ok(None) => r == Ok::<bool, DirWriteError>(false) && final(b)@ == old(b)@,
            Err(e) => r is Err && r->Err_0 == e,
        },
{
    let needed: u16 = min_rec_len(name.len());
    let mut pos: usize = 0;
    while pos <= b.len() && b.len() - pos >= 8
        invariant
            name@.len() <= 255,
            needed == min_len(name@.len() as int),
            b@ == old(b)@,
            b@.len() == b.len(),
            pos <= b@.len() + 0x1_0000,
            inserted_at(old(b)@, 0, name@, num, file_type) == inserted_at(
                b@,
                pos as int,
                name@,
                num,
                file_type,
            ),
        decreases b@.len() + 0x1_0000 - pos,
    {
        let inum: u32 = bytes::get_u32_le(b.as_slice(), pos);
        let len: u16 = bytes::get_u16_le(b.as_slice(), pos + 4);
        let own: u16 = min_rec_len(b[pos + 6] as usize);
        let reach: usize = if len == u16::MAX && b.len() - pos == 65536 {
            65536
        } else {
            len as usize
        };
        if len < 8 {
            return Err(DirWriteError::InvalidRecLen(len));
        }
        if inum == 0 {
            if len >= needed {
                if 8 + name.len() > b.len() - pos {
                    return Err(DirWriteError::InvalidRecLen(len));
                }
                write_dirent(b, pos, num, name, file_type, len);
                return Ok(true);
            }
        } else if reach >= b.len() - pos && reach >= own as usize && reach - own as usize
            >= needed as usize {
            if own as usize + 8 + name.len() > b.len() - pos {
                return Err(DirWriteError::InvalidRecLen(len));
            }
            bytes::put_u16_le(b, pos + 4, own);
            write_dirent(
                b,
                pos + own as usize,
                num,
                name,
                file_type,
                (reach - own as usize) as u16,
            );
            return Ok(true);
        }
        if len as usize > b.len() - pos {
            assert(inserted_at(b@, pos + len, name@, num, file_type) == Ok::<
                Option<Seq<u8>>,
                DirWriteError,
            >(None));
            return Ok(false);
        }
        pos = pos + len as usize;
    }
    Ok(false)
}

/// Take the entry of the given name out of a directory block.
fn remove_in_block(b: &mut Vec<u8>, name: &[u8]) -> (r: Result<Option<u32>, DirWriteError>)
    ensures
        final(b)@.len() == old(b)@.len(),
        match removed_at(old(b)@, 0, None, name@) {
            Ok(Some((b2, num))) => r == Ok::<Option<u32>, DirWriteError>(Some(num)) && final(b)@
                == b2,
            Ok(None) => r == Ok::<Option<u32>, DirWriteError>(None) && final(b)@ == old(b)@,
            Err(e) => r is Err && r->Err_0 == e,
        },
{
    let mut pos: usize = 0;
    let mut prev: Option<usize> = None;
    while pos <= b.len() && b.len() - pos >= 8
        invariant
            b@ == old(b)@,
            b@.len() == b.len(),
            pos <= b@.len() + 0x1_0000,
            prev is Some ==> prev->Some_0 + 8 <= b@.len() && prev->Some_0 <= pos,
            removed_at(old(b)@, 0, None, name@) == removed_at(
                b@,
                pos as int,
                match prev {
                    Some(p) => Some(p as int),
                    None => None,
                },
                name@,
            ),
        decreases b@.len() + 0x1_0000 - pos,
    {
        let inum: u32 = bytes::get_u32_le(b.as_slice(), pos);
        let len: u16 = bytes::get_u16_le(b.as_slice(), pos + 4);
        if len < 8 {
            return Err(DirWriteError::InvalidRecLen(len));
        }
        if entry_is_named(b.as_slice(), pos, name) {
            match prev {
                Some(p) => {
                    if pos - p > u16::MAX as usize - len as usize {
                        if len as usize != b.len() - pos || pos - p != 65536 - len as usize {
                            return Err(DirWriteError::InvalidRecLen(len));
                        }
                        bytes::put_u16_le(b, p + 4, u16::MAX);
                    } else {
                        bytes::put_u16_le(b, p + 4, (len as usize + (pos - p)) as u16);
                    }
                },
                None => {
                    bytes::put_u32_le(b, pos, 0);
                },
            }
            return Ok(Some(inum));
        }
        if inum != 0 {
            prev = Some(pos);
        }
        if len as usize > b.len() - pos {
            assert(removed_at(
                b@,
                pos + len,
                match prev {
                    Some(p) => Some(p as int),
                    None => None,
                },
                name@,
            ) == Ok::<Option<(Seq<u8>, u32)>, DirWriteError>(None));
            return Ok(None);
        }
        pos = pos + len as usize;
    }
    Ok(None)
}

fn read_dir_inode<D: BlockDevice>(
    dev: &D,
    sb: &Superblock,
    gdt: &GroupDescTable,
    txn: &Transaction,
    Ghost(g): Ghost<Seq<GroupDesc>>,
    num: u32,
) -> (r: Result<Inode, DirWriteError>)
    requires
        sb.wf(),
    ensures
        r is Ok || dev.reliable() ==> inode::inode_result(r) == dir_inode(
            FsState { disk: dev.bytes(), txn: txn@, gdt: g },
            *sb,
            gdt@,
            num,
        ),
        r is Ok ==> dir::dir_blocks(*sb, r->Ok_0@) <= MAX_DIR_BLOCKS,
{
    let i = match inode::read_inode_with_txn(dev, sb, gdt, txn, num) {
        Ok(i) => i,
        Err(e) => {
            return Err(DirWriteError::Inode(e));
        },
    };
    let n: u64 = bytes::div_ceil(i.size, sb.block_size as u64);
    if n > MAX_DIR_BLOCKS {
        return Err(DirWriteError::SizeTooLarge);
    }
    Ok(i)
}

fn insert_existing<D: BlockDevice>(
    dev: &D,
    sb: &Superblock,
    txn: &mut Transaction,
    Ghost(g): Ghost<Seq<GroupDesc>>,
    i: &Inode,
    name: &[u8],
    num: u32,
    file_type: u8,
) -> (r: Result<bool, DirWriteError>)
    requires
        sb.wf(),
        name@.len() <= 255,
        dir::dir_blocks(*sb, i@) <= MAX_DIR_BLOCKS,
    ensures
        r is Ok || dev.reliable() ==> ({
            let (s, x) = inserted_from(
                FsState { disk: dev.bytes(), txn: old(txn)@, gdt: g },
                *sb,
                i@,
                name@,
                num,
                file_type,
                0,
                dir::dir_blocks(*sb, i@),
            );
            &&& (FsState { disk: dev.bytes(), txn: final(txn)@, gdt: g }) == s
            &&& same_result(r, x)
        }),
{
    let n: u64 = bytes::div_ceil(i.size, sb.block_size as u64);
    let ghost st = FsState { disk: dev.bytes(), txn: old(txn)@, gdt: g };
    let mut l: u64 = 0;
    while l < n
        invariant
            sb.wf(),
            name@.len() <= 255,
            l <= n <= MAX_DIR_BLOCKS,
            n == dir::dir_blocks(*sb, i@),
            st == (FsState { disk: dev.bytes(), txn: old(txn)@, gdt: g }),
            txn@ == st.txn,
            inserted_from(st, *sb, i@, name@, num, file_type, 0, n as int) == inserted_from(
                st,
                *sb,
                i@,
                name@,
                num,
                file_type,
                l as int,
                n as int,
            ),
        decreases n - l,
    {
        match extent::lookup_block(dev, sb, i, l) {
            Err(e) => {
                return Err(DirWriteError::Extent(e));
            },
            Ok(None) => {},
            Ok(Some(p)) => {
                let mut b = match fs_state::fetch_block(dev, txn, sb.block_size, p) {
                    Ok(b) => b,
                    Err(e) => {
                        return Err(DirWriteError::BlockDevice(e));
                    },
                };
                match try_insert_in_block(&mut b, name, num, file_type) {
                    Ok(true) => {
                        let _ = txn.pin_block(p, b);
                        return Ok(true);
                    },
                    Ok(false) => {},
                    Err(e) => {
                        return Err(e);
                    },
                }
            },
        }
        l = l + 1;
    }
    Ok(false)
}

fn find_hint<D: BlockDevice>(dev: &D, sb: &Superblock, i: &Inode) -> (r: Result<
    u64,
    DirWriteError,
>)
    requires
        sb.wf(),
    ensures
        r is Ok || dev.reliable() ==> r == growth_hint(dev.bytes(), *sb, i@),
{
    let n: u64 = bytes::div_ceil(i.size, sb.block_size as u64);
    if n == 0 {
        return Ok(0);
    }
    match extent::lookup_block(dev, sb, i, n - 1) {
        Err(e) => Err(DirWriteError::Extent(e)),
        Ok(Some(p)) => Ok(p),
        Ok(None) => Ok(0),
    }
}

fn extend<D: BlockDevice>(
    dev: &mut D,
    sb: &Superblock,
    snapshot: &GroupDescTable,
    gdt: &mut GroupDescTable,
    txn: &mut Transaction,
    dir_num: u32,
    i: &Inode,
    name: &[u8],
    num: u32,
    file_type: u8,
) -> (r: Result<(), DirWriteError>)
    requires
        sb.wf(),
        name@.len() <= 255,
        dir::dir_blocks(*sb, i@) <= MAX_DIR_BLOCKS,
    ensures
        block_device::same_shape(*old(dev), *final(dev)),
        final(gdt)@.len() == old(gdt)@.len(),
        r is Ok || old(dev).reliable() ==> ({
            let (s, x) = extended(
                fs_state::now(*old(dev), *old(txn), *old(gdt)),
                *sb,
                snapshot@,
                dir_num,
                i@,
                name@,
                num,
                file_type,
            );
            &&& fs_state::now(*final(dev), *final(txn), *final(gdt)) == s
            &&& same_result(r, x)
        }),
{
    let hint: u64 = match find_hint(dev, sb, i) {
        Ok(h) => h,
        Err(e) => {
            return Err(e);
        },
    };
    let fresh: u64 = match block_alloc::alloc_blocks(dev, sb, gdt, txn, 1, hint) {
        Ok(b) => b,
        Err(e) => {
            return Err(DirWriteError::Alloc(e));
        },
    };
    let mut b = bytes::zero_vec(sb.block_size as usize);
    let len: u16 = if sb.block_size > u16::MAX as u32 {
        u16::MAX
    } else {
        sb.block_size as u16
    };
    write_dirent(&mut b, 0, num, name, file_type, len);
    let _ = txn.pin_block(fresh, b);
    match extent_write::append(dev, sb, gdt, txn, dir_num, fresh, 1) {
        Ok(()) => {},
        Err(e) => {
            return Err(DirWriteError::ExtentWrite(e));
        },
    }
    proof {
        lemma_dir_size(*sb, i@);
    }
    let size: u64 = i.size + sb.block_size as u64;
    let update = InodeUpdate::default().with_size(size);
    match inode_write::update_inode(dev, sb, snapshot, txn, dir_num, update) {
        Ok(()) => Ok(()),
        Err(e) => Err(DirWriteError::InodeWrite(e)),
    }
}

proof fn lemma_dir_size(sb: Superblock, i: InodeView)
    requires
        sb.wf(),
        dir::dir_blocks(sb, i) <= MAX_DIR_BLOCKS,
    ensures
        i.size <= 65536 * 65536,
{
    let bs = sb.block_size as int;
    vstd::arithmetic::div_mod::lemma_fundamental_div_mod(i.size as int, bs);
    assert(bs * (i.size as int / bs) <= 65536 * 65536) by (nonlinear_arith)
        requires
            0 < bs <= 65536,
            i.size as int / bs <= 65536,
    ;
    if i.size as int % bs != 0 {
        assert(bs * (i.size as int / bs) + bs <= 65536 * 65536) by (nonlinear_arith)
            requires
                0 < bs <= 65536,
                i.size as int / bs + 1 <= 65536,
        ;
    }
}

fn insert<D: BlockDevice>(
    dev: &mut D,
    sb: &Superblock,
    snapshot: &GroupDescTable,
    gdt: &mut GroupDescTable,
    txn: &mut Transaction,
    dir_num: u32,
    name: &[u8],
    num: u32,
    file_type: u8,
) -> (r: Result<(), DirWriteError>)
    requires
        sb.wf(),
        name@.len() <= 255,
    ensures
        block_device::same_shape(*old(dev), *final(dev)),
        final(gdt)@.len() == old(gdt)@.len(),
        r is Ok || old(dev).reliable() ==> ({
            let (s, x) = inserted(
                fs_state::now(*old(dev), *old(txn), *old(gdt)),
                *sb,
                snapshot@,
                dir_num,
                name@,
                num,
                file_type,
            );
            &&& fs_state::now(*final(dev), *final(txn), *final(gdt)) == s
            &&& same_result(r, x)
        }),
{
    let i = match read_dir_inode(dev, sb, snapshot, txn, Ghost(gdt@), dir_num) {
        Ok(i) => i,
        Err(e) => {
            return Err(e);
        },
    };
    match insert_existing(dev, sb, txn, Ghost(gdt@), &i, name, num, file_type) {
        Ok(true) => Ok(()),
        Ok(false) => extend(dev, sb, snapshot, gdt, txn, dir_num, &i, name, num, file_type),
        Err(e) => Err(e),
    }
}

pub(crate) fn add_entry<D: BlockDevice>(
    dev: &mut D,
    sb: &Superblock,
    snapshot: &GroupDescTable,
    gdt: &mut GroupDescTable,
    txn: &mut Transaction,
    dir_num: u32,
    name: &str,
    num: u32,
    file_type: u8,
) -> (r: Result<(), DirWriteError>)
    requires
        sb.wf(),
    ensures
        block_device::same_shape(*old(dev), *final(dev)),
        final(gdt)@.len() == old(gdt)@.len(),
        r is Ok || old(dev).reliable() ==> ({
            let (s, x) = added(
                fs_state::now(*old(dev), *old(txn), *old(gdt)),
                *sb,
                snapshot@,
                dir_num,
                name@,
                num,
                file_type,
            );
            &&& fs_state::now(*final(dev), *final(txn), *final(gdt)) == s
            &&& same_result(r, x)
        }),
{
    let raw = name.as_bytes();
    if raw.len() > 255 {
        return Err(DirWriteError::NameTooLong);
    }
    match walk_dir_blocks(dev, sb, snapshot, dir_num, &Wanted::Fitting(raw)) {
        Err(e) => {
            return Err(e);
        },
        Ok(Some(_)) => {
            return Err(DirWriteError::AlreadyExists(name.to_owned()));
        },
        Ok(None) => {},
    }
    insert(dev, sb, snapshot, gdt, txn, dir_num, raw, num, file_type)
}

/// Add an entry that names `child_inode_num` to a directory.
pub fn dir_add_entry<D: BlockDevice>(
    dev: &mut D,
    sb: &Superblock,
    gdt: &GroupDescTable,
    alloc: &mut Allocator,
    txn: &mut Transaction,
    dir_inode_num: u32,
    name: &str,
    child_inode_num: u32,
    file_type: u8,
) -> (r: Result<(), DirWriteError>)
    requires
        sb.wf(),
    ensures
        final(alloc).sb == old(alloc).sb,
        *final(final(alloc).gdt) == *final(old(alloc).gdt),
        block_device::same_shape(*old(dev), *final(dev)),
        r is Ok || old(dev).reliable() ==> ({
            let (s, x) = added(
                FsState { disk: old(dev).bytes(), txn: old(txn)@, gdt: old(alloc).table() },
                *sb,
                gdt@,
                dir_inode_num,
                name@,
                child_inode_num,
                file_type,
            );
            &&& (FsState {
                disk: final(dev).bytes(),
                txn: final(txn)@,
                gdt: final(alloc).table(),
            }) == s
            &&& same_result(r, x)
        }),
{
    add_entry(dev, sb, gdt, alloc.gdt, txn, dir_inode_num, name, child_inode_num, file_type)
}

fn remove<D: BlockDevice>(
    dev: &D,
    sb: &Superblock,
    gdt: &GroupDescTable,
    txn: &mut Transaction,
    Ghost(g): Ghost<Seq<GroupDesc>>,
    dir_num: u32,
    name: &str,
) -> (r: Result<u32, DirWriteError>)
    requires
        sb.wf(),
    ensures
        r is Ok || dev.reliable() ==> ({
            let (s, x) = removed(
                FsState { disk: dev.bytes(), txn: old(txn)@, gdt: g },
                *sb,
                gdt@,
                dir_num,
                name@,
            );
            &&& (FsState { disk: dev.bytes(), txn: final(txn)@, gdt: g }) == s
            &&& same_result(r, x)
        }),
{
    let raw = name.as_bytes();
    let i = match read_dir_inode(dev, sb, gdt, txn, Ghost(g), dir_num) {
        Ok(i) => i,
        Err(e) => {
            return Err(e);
        },
    };
    let n: u64 = bytes::div_ceil(i.size, sb.block_size as u64);
    let ghost st = FsState { disk: dev.bytes(), txn: old(txn)@, gdt: g };
    let mut l: u64 = 0;
    while l < n
        invariant
            sb.wf(),
            raw@ == name_bytes(name@),
            l <= n <= MAX_DIR_BLOCKS,
            n == dir::dir_blocks(*sb, i@),
            st == (FsState { disk: dev.bytes(), txn: old(txn)@, gdt: g }),
            txn@ == st.txn,
            removed(st, *sb, gdt@, dir_num, name@) == removed_from(
                st,
                *sb,
                i@,
                name@,
                l as int,
                n as int,
            ),
        decreases n - l,
    {
        match extent::lookup_block(dev, sb, &i, l) {
            Err(e) => {
                return Err(DirWriteError::Extent(e));
            },
            Ok(None) => {},
            Ok(Some(p)) => {
                let on_disk = match block_device::read_block(dev, sb.block_size, p) {
                    Ok(b) => b,
                    Err(e) => {
                        return Err(DirWriteError::BlockDevice(e));
                    },
                };
                let mut b = match txn.pinned_copy(p, sb.block_size) {
                    Some(d) => d,
                    None => on_disk,
                };
                match remove_in_block(&mut b, raw) {
                    Ok(Some(num)) => {
                        let _ = txn.pin_block(p, b);
                        return Ok(num);
                    },
                    Ok(None) => {},
                    Err(e) => {
                        return Err(e);
                    },
                }
            },
        }
        l = l + 1;
    }
    Err(DirWriteError::NotFound(name.to_owned()))
}

/// Remove the entry of the given name. Returns the inode that it named, whose
/// count of links the caller may have to change.
pub fn dir_remove_entry<D: BlockDevice>(
    dev: &D,
    sb: &Superblock,
    gdt: &GroupDescTable,
    txn: &mut Transaction,
    dir_inode_num: u32,
    name: &str,
) -> (r: Result<u32, DirWriteError>)
    requires
        sb.wf(),
    ensures
        r is Ok || dev.reliable() ==> ({
            let (s, x) = removed(
                FsState { disk: dev.bytes(), txn: old(txn)@, gdt: gdt@ },
                *sb,
                gdt@,
                dir_inode_num,
                name@,
            );
            &&& final(txn)@ == s.txn
            &&& same_result(r, x)
        }),
{
    remove(dev, sb, gdt, txn, Ghost(gdt@), dir_inode_num, name)
}

/// Point the ".." of a directory at a new parent.
fn update_dotdot<D: BlockDevice>(
    dev: &D,
    sb: &Superblock,
    gdt: &GroupDescTable,
    txn: &mut Transaction,
    Ghost(g): Ghost<Seq<GroupDesc>>,
    dir_num: u32,
    parent: u32,
) -> (r: Result<(), DirWriteError>)
    requires
        sb.wf(),
    ensures
        r is Ok || dev.reliable() ==> ({
            let (s, x) = reparented(
                FsState { disk: dev.bytes(), txn: old(txn)@, gdt: g },
                *sb,
                gdt@,
                dir_num,
                parent,
            );
            &&& (FsState { disk: dev.bytes(), txn: final(txn)@, gdt: g }) == s
            &&& same_result(r, x)
        }),
{
    let i = match inode::read_inode(dev, sb, gdt, dir_num) {
        Ok(i) => i,
        Err(e) => {
            return Err(DirWriteError::Inode(e));
        },
    };
    let mut n: u64 = bytes::div_ceil(i.size, sb.block_size as u64);
    if n > MAX_DIR_BLOCKS {
        n = MAX_DIR_BLOCKS;
    }
    let dots: [u8; 2] = [46u8, 46u8];
    assert(dots@ =~= seq![46u8, 46u8]);
    let ghost st = FsState { disk: dev.bytes(), txn: old(txn)@, gdt: g };
    let mut l: u64 = 0;
    while l < n
        invariant
            sb.wf(),
            dots@ == seq![46u8, 46u8],
            l <= n <= MAX_DIR_BLOCKS,
            st == (FsState { disk: dev.bytes(), txn: old(txn)@, gdt: g }),
            txn@ == st.txn,
            reparented(st, *sb, gdt@, dir_num, parent) == reparented_from(
                st,
                *sb,
                i@,
                parent,
                l as int,
                n as int,
            ),
        decreases n - l,
    {
        match extent::lookup_block(dev, sb, &i, l) {
            Err(e) => {
                return Err(DirWriteError::Extent(e));
            },
            Ok(None) => {},
            Ok(Some(p)) => {
                let mut b = match block_device::read_block(dev, sb.block_size, p) {
                    Ok(b) => b,
                    Err(e) => {
                        return Err(DirWriteError::BlockDevice(e));
                    },
                };
                match find_in_block(b.as_slice(), &Wanted::Named(dots.as_slice())) {
                    Some(pos) => {
                        bytes::put_u32_le(&mut b, pos, parent);
                        let _ = txn.pin_block(p, b);
                        return Ok(());
                    },
                    None => {},
                }
            },
        }
        l = l + 1;
    }
    Ok(())
}

/// Take away the entry that a rename replaces, if there is one.
fn displace<D: BlockDevice>(
    dev: &D,
    sb: &Superblock,
    gdt: &GroupDescTable,
    txn: &mut Transaction,
    Ghost(g): Ghost<Seq<GroupDesc>>,
    dir_num: u32,
    name: &str,
) -> (r: Result<Option<(u32, bool, u16)>, DirWriteError>)
    requires
        sb.wf(),
    ensures
        r is Ok || dev.reliable() ==> ({
            let (s, x) = displaced(
                FsState { disk: dev.bytes(), txn: old(txn)@, gdt: g },
                *sb,
                gdt@,
                dir_num,
                name@,
            );
            &&& (FsState { disk: dev.bytes(), txn: final(txn)@, gdt: g }) == s
            &&& match r {
                Ok(file) => x is Ok && file == taken_by(dev.bytes(), *sb, gdt@, dir_num, name@),
                Err(e) => same_result(Err::<(), DirWriteError>(e), x),
            }
        }),
{
    let num: u32 = match walk_dir_blocks(
        dev,
        sb,
        gdt,
        dir_num,
        &Wanted::Named(name.as_bytes()),
    ) {
        Err(e) => {
            return Err(e);
        },
        Ok(None) => {
            return Ok(None);
        },
        Ok(Some(e)) => e.0,
    };
    let i = match inode::read_inode(dev, sb, gdt, num) {
        Ok(i) => i,
        Err(e) => {
            return Err(DirWriteError::Inode(e));
        },
    };
    if i.is_dir() {
        match walk_dir_blocks(dev, sb, gdt, num, &Wanted::Other) {
            Err(e) => {
                return Err(e);
            },
            Ok(Some(_)) => {
                return Err(DirWriteError::NotEmpty);
            },
            Ok(None) => {},
        }
    }
    match remove(dev, sb, gdt, txn, Ghost(g), dir_num, name) {
        Ok(_) => {},
        Err(e) => {
            return Err(e);
        },
    }
    Ok(Some((num, i.is_dir(), i.links_count)))
}

pub(crate) fn rename<D: BlockDevice>(
    dev: &mut D,
    sb: &Superblock,
    snapshot: &GroupDescTable,
    gdt: &mut GroupDescTable,
    txn: &mut Transaction,
    src_dir: u32,
    src_name: &str,
    dst_dir: u32,
    dst_name: &str,
) -> (r: Result<(Option<(u32, bool)>, bool), DirWriteError>)
    requires
        sb.wf(),
    ensures
        block_device::same_shape(*old(dev), *final(dev)),
        final(gdt)@.len() == old(gdt)@.len(),
        r is Ok || old(dev).reliable() ==> ({
            let disk = old(dev).bytes();
            let (s, x) = renamed(
                fs_state::now(*old(dev), *old(txn), *old(gdt)),
                *sb,
                snapshot@,
                src_dir,
                src_name@,
                dst_dir,
                dst_name@,
            );
            &&& fs_state::now(*final(dev), *final(txn), *final(gdt)) == s
            &&& match r {
                Ok((file, turn)) => {
                    &&& x is Ok
                    &&& file == left_over(
                        disk,
                        *sb,
                        snapshot@,
                        src_dir,
                        src_name@,
                        dst_dir,
                        dst_name@,
                    )
                    &&& turn == turns(disk, *sb, snapshot@, src_dir, src_name@, dst_dir)
                },
                Err(e) => same_result(Err::<(), DirWriteError>(e), x),
            }
        }),
        r is Ok && r->Ok_0.0 is Some ==> r->Ok_0.0->Some_0.0 > 0,
{
    let dst_raw = dst_name.as_bytes();
    if dst_raw.len() > 255 {
        return Err(DirWriteError::NameTooLong);
    }
    let (num, file_type): (u32, u8) = match walk_dir_blocks(
        dev,
        sb,
        snapshot,
        src_dir,
        &Wanted::Named(src_name.as_bytes()),
    ) {
        Err(e) => {
            return Err(e);
        },
        Ok(None) => {
            return Err(DirWriteError::NotFound(src_name.to_owned()));
        },
        Ok(Some(e)) => e,
    };
    let i = match inode::read_inode(dev, sb, snapshot, num) {
        Ok(i) => i,
        Err(e) => {
            return Err(DirWriteError::Inode(e));
        },
    };
    if src_dir == dst_dir && text::same_text(src_name, dst_name) {
        return Ok((None, false));
    }
    let file = match displace(dev, sb, snapshot, txn, Ghost(gdt@), dst_dir, dst_name) {
        Ok(file) => file,
        Err(e) => {
            return Err(e);
        },
    };
    match insert(dev, sb, snapshot, gdt, txn, dst_dir, dst_raw, num, file_type) {
        Ok(()) => {},
        Err(e) => {
            return Err(e);
        },
    }
    match remove(dev, sb, snapshot, txn, Ghost(gdt@), src_dir, src_name) {
        Ok(_) => {},
        Err(e) => {
            return Err(e);
        },
    }
    if i.is_dir() && src_dir != dst_dir {
        match update_dotdot(dev, sb, snapshot, txn, Ghost(gdt@), num, dst_dir) {
            Ok(()) => {},
            Err(e) => {
                return Err(e);
            },
        }
    }
    let turn = i.is_dir() && src_dir != dst_dir;
    match file {
        None => Ok((None, turn)),
        Some((other, is_dir, links)) => if !is_dir && links > 1 {
            let update = InodeUpdate::default().with_links_count(links - 1);
            match inode_write::update_inode(dev, sb, snapshot, txn, other, update) {
                Ok(()) => Ok((None, turn)),
                Err(e) => Err(DirWriteError::InodeWrite(e)),
            }
        } else if other != num {
            Ok((Some((other, is_dir)), turn))
        } else {
            Ok((None, turn))
        },
    }
}

/// Renaming an entry to the name that it has changes nothing. It fails only where
/// the name is too long, or the entry or its inode is not found.
pub proof fn law_same_name_kept(
    st: FsState,
    sb: Superblock,
    gdt: Seq<GroupDesc>,
    dir_num: u32,
    name: Seq<char>,
)
    ensures
        renamed(st, sb, gdt, dir_num, name, dir_num, name).0 == st,
        ({
            let f = found(st.disk, sb, gdt, dir_num, Query::Named(name_bytes(name)));
            renamed(st, sb, gdt, dir_num, name, dir_num, name).1 is Ok <==> name_bytes(name).len()
                <= 255 && f is Ok && f->Ok_0 is Some && inode::inode_at(
                st.disk,
                sb,
                gdt,
                f->Ok_0->Some_0.0,
            ) is Ok
        }),
{
}

/// Rename an entry, within a directory or from one to another. What the new
/// name stood for is replaced, unless it is a directory that is not empty. An entry
/// that keeps its name and its directory stays as it is.
pub fn dir_rename<D: BlockDevice>(
    dev: &mut D,
    sb: &Superblock,
    gdt: &GroupDescTable,
    alloc: &mut Allocator,
    txn: &mut Transaction,
    src_dir_inode: u32,
    src_name: &str,
    dst_dir_inode: u32,
    dst_name: &str,
) -> (r: Result<(), DirWriteError>)
    requires
        sb.wf(),
    ensures
        final(alloc).sb == old(alloc).sb,
        *final(final(alloc).gdt) == *final(old(alloc).gdt),
        block_device::same_shape(*old(dev), *final(dev)),
        r is Ok || old(dev).reliable() ==> ({
            let (s, x) = renamed(
                FsState { disk: old(dev).bytes(), txn: old(txn)@, gdt: old(alloc).table() },
                *sb,
                gdt@,
                src_dir_inode,
                src_name@,
                dst_dir_inode,
                dst_name@,
            );
            &&& (FsState {
                disk: final(dev).bytes(),
                txn: final(txn)@,
                gdt: final(alloc).table(),
            }) == s
            &&& same_result(r, x)
        }),
{
    match rename(
        dev,
        sb,
        gdt,
        alloc.gdt,
        txn,
        src_dir_inode,
        src_name,
        dst_dir_inode,
        dst_name,
    ) {
        Ok(_) => Ok(()),
        Err(e) => Err(e),
    }
}

/// Make a hard link: another entry for an inode that is not a directory.
pub fn hard_link<D: BlockDevice>(
    dev: &mut D,
    sb: &Superblock,
    gdt: &GroupDescTable,
    alloc: &mut Allocator,
    txn: &mut Transaction,
    target_inode_num: u32,
    dst_dir_inode: u32,
    link_name: &str,
) -> (r: Result<(), DirWriteError>)
    requires
        sb.wf(),
    ensures
        final(alloc).sb == old(alloc).sb,
        *final(final(alloc).gdt) == *final(old(alloc).gdt),
        block_device::same_shape(*old(dev), *final(dev)),
        r is Ok || old(dev).reliable() ==> ({
            let (s, x) = linked(
                FsState { disk: old(dev).bytes(), txn: old(txn)@, gdt: old(alloc).table() },
                *sb,
                gdt@,
                target_inode_num,
                dst_dir_inode,
                link_name@,
            );
            &&& (FsState {
                disk: final(dev).bytes(),
                txn: final(txn)@,
                gdt: final(alloc).table(),
            }) == s
            &&& same_result(r, x)
        }),
{
    if link_name.as_bytes().len() > 255 {
        return Err(DirWriteError::NameTooLong);
    }
    let target = match inode::read_inode(dev, sb, gdt, target_inode_num) {
        Ok(i) => i,
        Err(e) => {
            return Err(DirWriteError::Inode(e));
        },
    };
    if target.is_dir() {
        return Err(DirWriteError::HardLinkToDirectory);
    }
    if target.links_count >= MAX_LINKS {
        return Err(DirWriteError::TooManyLinks);
    }
    let file_type: u8 = match target.file_type() {
        FileType::Regular => dir_file_type::REG_FILE,
        FileType::Symlink => dir_file_type::SYMLINK,
        _ => dir_file_type::UNKNOWN,
    };
    match add_entry(
        dev,
        sb,
        gdt,
        alloc.gdt,
        txn,
        dst_dir_inode,
        link_name,
        target_inode_num,
        file_type,
    ) {
        Ok(()) => {},
        Err(e) => {
            return Err(e);
        },
    }
    let update = InodeUpdate::default().with_links_count(target.links_count + 1);
    match inode_write::update_inode(dev, sb, gdt, txn, target_inode_num, update) {
        Ok(()) => Ok(()),
        Err(e) => Err(DirWriteError::InodeWrite(e)),
    }
}

} // verus!
