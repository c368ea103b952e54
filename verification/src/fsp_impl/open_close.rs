//! Opening files, and the targets of symbolic links.
use vstd::prelude::*;
use vstd::string::*;
use super::file_info;
use super::file_info::{FileInfo, IO_REPARSE_TAG_SYMLINK};
use super::Status;
use crate::block_device::BlockDevice;
use crate::bytes;
use crate::fs_context;
use crate::fs_context::{Ext4Fs, Ext4FsError, FileHandle, VolState};
use crate::inode;
use crate::inode::mode;
use crate::inode::InodeView;
use crate::superblock::Superblock;
use crate::text;

verus! {

broadcast use crate::bytes::group_codec;

/// Flag of a symbolic link whose target is relative.
pub const SYMLINK_FLAG_RELATIVE: u32 = 1;

/// UTF-16 code units that a link's target may have: the two copies of it, and
/// 12 bytes more, are counted in 16 bits.
pub const MAX_SYMLINK_UTF16_LEN: usize = 16380;

/// Code units as bytes, low byte first.
pub open spec fn unit_bytes(units: Seq<u16>) -> Seq<u8> {
    Seq::new(
        2 * units.len(),
        |i: int|
            if i % 2 == 0 {
                (units[i / 2] % 256) as u8
            } else {
                (units[i / 2] / 256) as u8
            },
    )
}

/// The code units of a link's target, with backslashes for slashes.
pub open spec fn target_units(target: Seq<char>) -> Seq<u16> {
    text::utf16(text::replaced(target, '/', "\\"@))
}

/// The fixed part of a symbolic link's reparse buffer, for a name of `len`
/// bytes.
pub open spec fn link_header(len: int, relative: bool) -> Seq<u8> {
    let b0 = bytes::put(bytes::zeros(20), 0, bytes::le32_bytes(IO_REPARSE_TAG_SYMLINK));
    let b1 = bytes::put(b0, 4, bytes::le16_bytes((12 + 2 * len) as u16));
    let b2 = bytes::put(b1, 10, bytes::le16_bytes(len as u16));
    let b3 = bytes::put(b2, 12, bytes::le16_bytes(len as u16));
    let b4 = bytes::put(b3, 14, bytes::le16_bytes(len as u16));
    bytes::put(
        b4,
        16,
        bytes::le32_bytes(
            if relative {
                SYMLINK_FLAG_RELATIVE
            } else {
                0
            },
        ),
    )
}

/// The reparse buffer of a symbolic link: a header, and the target twice, as
/// the name to substitute and the name to print.
pub open spec fn reparse_buffer(target: Seq<char>) -> Result<Seq<u8>, Status> {
    let units = target_units(target);
    if units.len() > MAX_SYMLINK_UTF16_LEN {
        Err(Status::NameTooLong)
    } else {
        let name = unit_bytes(units);
        Ok(
            link_header(name.len() as int, target.len() == 0 || target[0] != '/') + name + name,
        )
    }
}

/// The fields of a reparse buffer stand where Windows looks for them: the tag,
/// the length of what follows the first 8 bytes, and where the two names lie
/// behind the header. Both names are the target.
pub proof fn law_reparse_buffer(target: Seq<char>)
    requires
        reparse_buffer(target) is Ok,
    ensures
        ({
            let b = reparse_buffer(target)->Ok_0;
            let name = unit_bytes(target_units(target));
            &&& bytes::le32(b, 0) == IO_REPARSE_TAG_SYMLINK
            &&& b.len() == 8 + bytes::le16(b, 4)
            &&& bytes::le16(b, 6) == 0
            &&& bytes::le16(b, 8) == 0
            &&& bytes::le16(b, 10) == name.len()
            &&& bytes::le16(b, 12) == name.len()
            &&& bytes::le16(b, 14) == name.len()
            &&& bytes::le32(b, 16) == (if target.len() > 0 && target[0] == '/' {
                0u32
            } else {
                SYMLINK_FLAG_RELATIVE
            })
            &&& b.subrange(20, 20 + name.len() as int) == name
            &&& b.subrange(20 + name.len() as int, 20 + 2 * name.len() as int) == name
        }),
{
    let b = reparse_buffer(target)->Ok_0;
    let name = unit_bytes(target_units(target));
    let h = link_header(name.len() as int, target.len() == 0 || target[0] != '/');
    assert(h.len() == 20);
    assert(bytes::le16(h, 6) == 0 && bytes::le16(h, 8) == 0) by {
        reveal(bytes::le16);
    }
    assert(b.subrange(0, 20) =~= h);
    bytes::lemma_le32_part(b, 0, 20, 0);
    bytes::lemma_le16_part(b, 0, 20, 4);
    bytes::lemma_le16_part(b, 0, 20, 6);
    bytes::lemma_le16_part(b, 0, 20, 8);
    bytes::lemma_le16_part(b, 0, 20, 10);
    bytes::lemma_le16_part(b, 0, 20, 12);
    bytes::lemma_le16_part(b, 0, 20, 14);
    bytes::lemma_le32_part(b, 0, 20, 16);
    assert(b.subrange(20, 20 + name.len() as int) =~= name);
    assert(b.subrange(20 + name.len() as int, 20 + 2 * name.len() as int) =~= name);
}

fn put_units(units: &Vec<u16>) -> (r: Vec<u8>)
    requires
        units@.len() <= MAX_SYMLINK_UTF16_LEN,
    ensures
        r@ == unit_bytes(units@),
{
    let mut out: Vec<u8> = Vec::new();
    let mut i: usize = 0;
    while i < units.len()
        invariant
            i <= units@.len() <= MAX_SYMLINK_UTF16_LEN,
            out@ == unit_bytes(units@.take(i as int)),
        decreases units@.len() - i,
    {
        let u: u16 = units[i];
        out.push((u % 256) as u8);
        out.push((u / 256) as u8);
        i = i + 1;
        assert(out@ =~= unit_bytes(units@.take(i as int)));
    }
    assert(units@.take(i as int) =~= units@);
    out
}

/// Encode the target of a symbolic link as Windows wants it. A target that
/// starts with a slash is absolute, on the volume; others are relative.
pub fn encode_symlink_reparse_buffer(unix_target: &str) -> (r: Result<Vec<u8>, Status>)
    ensures
        crate::block_device::bytes_of(r) == reparse_buffer(unix_target@),
{
    let win_target = text::replace_char(unix_target, '/', "\\");
    let units = text::encode_utf16(win_target.as_str());
    if units.len() > MAX_SYMLINK_UTF16_LEN {
        return Err(Status::NameTooLong);
    }
    let name = put_units(&units);
    let len: u16 = name.len() as u16;
    let relative: bool = unix_target.unicode_len() == 0 || unix_target.get_char(0) != '/';
    let mut out = bytes::zero_vec(20);
    bytes::put_u32_le(&mut out, 0, IO_REPARSE_TAG_SYMLINK);
    bytes::put_u16_le(&mut out, 4, 12 + 2 * len);
    bytes::put_u16_le(&mut out, 10, len);
    bytes::put_u16_le(&mut out, 12, len);
    bytes::put_u16_le(&mut out, 14, len);
    bytes::put_u32_le(
        &mut out,
        16,
        if relative {
            SYMLINK_FLAG_RELATIVE
        } else {
            0
        },
    );
    assert(out@ == link_header(name@.len() as int, relative));
    out.extend_from_slice(name.as_slice());
    out.extend_from_slice(name.as_slice());
    assert(out@ =~= link_header(name@.len() as int, relative) + name@ + name@);
    Ok(out)
}

/// Whether a mode is that of a device, a pipe or a socket.
pub open spec fn is_special(m: u16) -> bool {
    let t = m & mode::S_IFMT;
    t == mode::S_IFCHR || t == mode::S_IFBLK || t == mode::S_IFIFO || t == mode::S_IFSOCK
}

/// The inode that a Windows path leads to, with its number.
pub open spec fn named_inode(v: VolState, sb: Superblock, file_name: Seq<char>) -> Option<
    (u32, InodeView),
> {
    match fs_context::resolved(v.disk, sb, v.gdt, super::volume_path(file_name)) {
        Err(_) => None,
        Ok(n) => match inode::inode_at(v.disk, sb, v.gdt, n) {
            Err(_) => None,
            Ok(i) => Some((n, i)),
        },
    }
}

/// Whether opening a file gives `r`.
pub open spec fn opens(
    v: VolState,
    sb: Superblock,
    file_name: Seq<char>,
    r: Result<FileHandle, Status>,
) -> bool {
    match named_inode(v, sb, file_name) {
        None => r is Err && r->Err_0 == Status::ObjectNameNotFound,
        Some((n, i)) => if is_special(i.mode) {
            r is Err && r->Err_0 == Status::AccessDenied
        } else if i.is_symlink() {
            exists|t: Result<Seq<char>, Ext4FsError>| #[trigger]
                fs_context::link_reads(v.disk, sb, i, t) && match t {
                    Err(_) => r is Err && r->Err_0 == Status::ObjectNameNotFound,
                    Ok(s) => r is Ok && is_link(r->Ok_0, s) && r->Ok_0.num() == n
                        && r->Ok_0.snapshot() == i,
                }
        } else {
            &&& r is Ok
            &&& r->Ok_0 is Directory == i.is_dir()
            &&& r->Ok_0 is File == !i.is_dir()
            &&& r->Ok_0.num() == n
            &&& r->Ok_0.snapshot() == i
        },
    }
}

/// Whether a handle is that of a link to `target`.
pub open spec fn is_link(h: FileHandle, t: Seq<char>) -> bool {
    match h {
        FileHandle::Symlink { inode_num, inode, target } => target@ == t,
        _ => false,
    }
}

/// The reparse buffer for a link's target, where it fits into `room` bytes.
pub open spec fn reparse_fit(target: Seq<char>, room: int) -> Result<Seq<u8>, Status> {
    match reparse_buffer(target) {
        Err(e) => Err(e),
        Ok(b) => if room < b.len() {
            Err(Status::BufferTooSmall)
        } else {
            Ok(b)
        },
    }
}

/// Whether asking for a link's reparse buffer, by `f`, changes `before` to
/// `after` and gives `r`.
pub open spec fn answered(
    f: Result<Seq<u8>, Status>,
    before: Seq<u8>,
    after: Seq<u8>,
    r: Result<u64, Status>,
) -> bool {
    match f {
        Err(e) => r == Err::<u64, Status>(e) && after == before,
        Ok(b) => r == Ok::<u64, Status>(b.len() as u64) && after == bytes::put(before, 0, b),
    }
}

fn write_reparse(target: &str, buffer: &mut [u8]) -> (r: Result<u64, Status>)
    ensures
        answered(
            reparse_fit(target@, old(buffer)@.len() as int),
            old(buffer)@,
            final(buffer)@,
            r,
        ),
{
    let encoded = match encode_symlink_reparse_buffer(target) {
        Ok(b) => b,
        Err(e) => {
            return Err(e);
        },
    };
    if buffer.len() < encoded.len() {
        return Err(Status::BufferTooSmall);
    }
    bytes::put_slice(buffer, 0, encoded.as_slice());
    Ok(encoded.len() as u64)
}

impl<D: BlockDevice> Ext4Fs<D> {
    /// Open a file, a directory or a symbolic link.
    pub fn open_handle(&self, file_name: &str, file_info: &mut FileInfo) -> (r: Result<
        FileHandle,
        Status,
    >)
        requires
            self.wf(),
        ensures
            r is Ok || self.dev.reliable() ==> opens(self.state(), self.sb, file_name@, r),
            r is Ok ==> *final(file_info) == file_info::info_of(
                r->Ok_0.snapshot(),
                r->Ok_0.num(),
            ),
    {
        let path = text::replace_char(file_name, '\\', "/");
        let inode_num: u32 = match self.resolve_path(path.as_str()) {
            Ok(n) => n,
            Err(_) => {
                return Err(Status::ObjectNameNotFound);
            },
        };
        let inode = match self.inode(inode_num) {
            Ok(i) => i,
            Err(_) => {
                return Err(Status::ObjectNameNotFound);
            },
        };
        let t: u16 = inode.mode & mode::S_IFMT;
        if t == mode::S_IFCHR || t == mode::S_IFBLK || t == mode::S_IFIFO || t == mode::S_IFSOCK {
            return Err(Status::AccessDenied);
        }
        *file_info = file_info::file_info_from_inode(&inode, inode_num);
        if inode.is_symlink() {
            let found = self.read_symlink_target(&inode);
            assert(found is Ok || self.dev.reliable() ==> fs_context::link_reads(
                self.state().disk,
                self.sb,
                inode@,
                fs_context::text_of(found),
            ));
            let target = match found {
                Ok(s) => s,
                Err(_) => {
                    return Err(Status::ObjectNameNotFound);
                },
            };
            return Ok(FileHandle::Symlink { inode_num, inode, target });
        }
        if inode.is_dir() {
            Ok(FileHandle::Directory { inode_num, inode })
        } else {
            Ok(FileHandle::File { inode_num, inode })
        }
    }

    /// Put the reparse buffer of an open symbolic link into `buffer`. Returns its
    /// length.
    pub fn get_reparse_point_data(&self, context: &FileHandle, buffer: &mut [u8]) -> (r: Result<
        u64,
        Status,
    >)
        ensures
            answered(
                match context {
                    FileHandle::Symlink { inode_num, inode, target } => reparse_fit(
                        target@,
                        old(buffer)@.len() as int,
                    ),
                    _ => Err(Status::NotAReparsePoint),
                },
                old(buffer)@,
                final(buffer)@,
                r,
            ),
    {
        match context {
            FileHandle::Symlink { inode_num: _, inode: _, target } => write_reparse(
                target.as_str(),
                buffer,
            ),
            _ => Err(Status::NotAReparsePoint),
        }
    }

    /// Put the reparse buffer of the symbolic link of the given path into
    /// `buffer`. Returns its length.
    pub fn get_reparse_point_data_by_name(&self, file_name: &str, buffer: &mut [u8]) -> (r: Result<
        u64,
        Status,
    >)
        requires
            self.wf(),
        ensures
            r is Ok || self.dev.reliable() ==> match named_inode(
                self.state(),
                self.sb,
                file_name@,
            ) {
                Some((n, i)) if i.is_symlink() => exists|t: Result<Seq<char>, Ext4FsError>| #[trigger]
                    fs_context::link_reads(self.state().disk, self.sb, i, t) && answered(
                        match t {
                            Err(_) => Err(Status::NotAReparsePoint),
                            Ok(s) => reparse_fit(s, old(buffer)@.len() as int),
                        },
                        old(buffer)@,
                        final(buffer)@,
                        r,
                    ),
                _ => answered(
                    Err(Status::NotAReparsePoint),
                    old(buffer)@,
                    final(buffer)@,
                    r,
                ),
            },
            final(buffer)@.len() == old(buffer)@.len(),
    {
        let path = text::replace_char(file_name, '\\', "/");
        let inode_num: u32 = match self.resolve_path(path.as_str()) {
            Ok(n) => n,
            Err(_) => {
                return Err(Status::NotAReparsePoint);
            },
        };
        let inode = match self.inode(inode_num) {
            Ok(i) => i,
            Err(_) => {
                return Err(Status::NotAReparsePoint);
            },
        };
        if !inode.is_symlink() {
            return Err(Status::NotAReparsePoint);
        }
        let found = self.read_symlink_target(&inode);
        assert(found is Ok || self.dev.reliable() ==> fs_context::link_reads(
            self.state().disk,
            self.sb,
            inode@,
            fs_context::text_of(found),
        ));
        match found {
            Ok(target) => write_reparse(target.as_str(), buffer),
            Err(_) => Err(Status::NotAReparsePoint),
        }
    }
}

} // verus!
