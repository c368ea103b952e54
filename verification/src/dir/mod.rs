//! Reading directories.
use vstd::prelude::*;
use crate::block_device;
use crate::block_device::{BlockDevice, BlockDeviceError};
use crate::bytes;
use crate::extent;
use crate::extent::ExtentError;
use crate::group_desc::GroupDescTable;
use crate::inode::{Inode, InodeView};
use crate::superblock::Superblock;
use crate::text;

pub mod dir_file_type;

verus! {

/// An entry of a directory.
#[derive(Debug, Clone)]
pub struct DirEntry {
    pub inode_num: u32,
    pub name: String,
    pub file_type: u8,
}

/// An entry as a value.
#[verifier::ext_equal]
pub struct EntryView {
    pub inode_num: u32,
    pub name: Seq<char>,
    pub file_type: u8,
}

impl View for DirEntry {
    type V = EntryView;

    open spec fn view(&self) -> EntryView {
        EntryView { inode_num: self.inode_num, name: self.name@, file_type: self.file_type }
    }
}

pub open spec fn entries_view(s: Seq<DirEntry>) -> Seq<EntryView> {
    s.map_values(|e: DirEntry| e@)
}

/// Why a directory cannot be read.
#[derive(Debug)]
pub enum DirError {
    NotADirectory,
    /// An entry is too short, or reaches past its block.
    InvalidRecLen(u16),
    Extent(ExtentError),
    BlockDevice(BlockDeviceError),
}

/// Inode number of the entry at `pos`; 0 marks a deleted entry.
pub open spec fn entry_inode(b: Seq<u8>, pos: int) -> u32 {
    bytes::le32(b, pos)
}

/// Length of the entry at `pos`, its name and padding with it.
pub open spec fn entry_len(b: Seq<u8>, pos: int) -> u16 {
    bytes::le16(b, pos + 4)
}

/// Length of the name of the entry at `pos`.
pub open spec fn entry_name_len(b: Seq<u8>, pos: int) -> u8 {
    b[pos + 6]
}

pub open spec fn entry_type(b: Seq<u8>, pos: int) -> u8 {
    b[pos + 7]
}

/// The entry at `pos`. A name that is said to be longer than its entry ends
/// with the entry.
pub open spec fn entry_at(b: Seq<u8>, pos: int) -> EntryView {
    let room = entry_len(b, pos) - 8;
    let n = if entry_name_len(b, pos) < room {
        entry_name_len(b, pos) as int
    } else {
        room
    };
    EntryView {
        inode_num: entry_inode(b, pos),
        name: text::text_of(b.subrange(pos + 8, pos + 8 + n)),
        file_type: entry_type(b, pos),
    }
}

/// The entries of the block `b` from byte `pos` on, without the deleted ones.
pub open spec fn block_entries(b: Seq<u8>, pos: int) -> Result<Seq<EntryView>, DirError>
    decreases b.len() - pos,
{
    if pos + 8 > b.len() {
        Ok(Seq::empty())
    } else if entry_len(b, pos) < 8 || pos + entry_len(b, pos) > b.len() {
        Err(DirError::InvalidRecLen(entry_len(b, pos)))
    } else {
        match block_entries(b, pos + entry_len(b, pos)) {
            Err(e) => Err(e),
            Ok(rest) => if entry_inode(b, pos) == 0 {
                Ok(rest)
            } else {
                Ok(seq![entry_at(b, pos)] + rest)
            },
        }
    }
}

/// `a`, then what `r` holds.
pub open spec fn prepended(a: Seq<EntryView>, r: Result<Seq<EntryView>, DirError>) -> Result<
    Seq<EntryView>,
    DirError,
> {
    match r {
        Ok(b) => Ok(a + b),
        Err(e) => Err(e),
    }
}

/// The entries of a directory, from logical block `l` of its `n` on. Holes
/// contribute nothing.
pub open spec fn entries_from(
    disk: Seq<u8>,
    sb: Superblock,
    i: InodeView,
    l: int,
    n: int,
) -> Result<
    Seq<EntryView>,
    DirError,
>
    decreases n - l,
{
    if l >= n {
        Ok(Seq::empty())
    } else {
        match extent::file_block(disk, sb, i.uses_extents(), i.block_data, l as u64) {
            Err(e) => Err(DirError::Extent(e)),
            Ok(None) => entries_from(disk, sb, i, l + 1, n),
            Ok(Some(p)) => match block_device::block_at(disk, sb.block_size, p) {
                Err(e) => Err(DirError::BlockDevice(e)),
                Ok(b) => match block_entries(b, 0) {
                    Err(e) => Err(e),
                    Ok(a) => prepended(a, entries_from(disk, sb, i, l + 1, n)),
                },
            },
        }
    }
}

/// How many blocks a directory spans.
pub open spec fn dir_blocks(sb: Superblock, i: InodeView) -> int {
    bytes::ceil_div(i.size as int, sb.block_size as int)
}

/// All entries of a directory.
pub open spec fn dir_entries(disk: Seq<u8>, sb: Superblock, i: InodeView) -> Result<
    Seq<EntryView>,
    DirError,
> {
    if !i.is_dir() {
        Err(DirError::NotADirectory)
    } else {
        entries_from(disk, sb, i, 0, dir_blocks(sb, i))
    }
}

/// The inode of the first entry of the given name.
pub open spec fn first_named(s: Seq<EntryView>, name: Seq<char>) -> Option<u32>
    decreases s.len(),
{
    if s.len() == 0 {
        None
    } else if s[0].name == name {
        Some(s[0].inode_num)
    } else {
        first_named(s.skip(1), name)
    }
}

/// Append the entries of a block that are not deleted.
fn parse_block_entries(block: &[u8], out: &mut Vec<DirEntry>) -> (r: Result<(), DirError>)
    ensures
        match block_entries(block@, 0) {
            Ok(v) => r is Ok && entries_view(final(out)@) == entries_view(old(out)@) + v,
            Err(e) => r is Err && r->Err_0 == e,
        },
{
    let ghost before = entries_view(out@);
    let ghost whole = block_entries(block@, 0);
    let mut pos: usize = 0;
    proof {
        if whole is Ok {
            assert(before + whole->Ok_0 =~= entries_view(out@) + whole->Ok_0);
        }
    }
    while pos < block.len() && block.len() - pos >= 8
        invariant
            pos <= block@.len(),
            block@.len() == block.len(),
            whole == block_entries(block@, 0),
            match block_entries(block@, pos as int) {
                Ok(v) => whole is Ok && before + whole->Ok_0 == entries_view(out@) + v,
                Err(e) => whole is Err && whole->Err_0 == e,
            },
        decreases block@.len() - pos,
    {
        let inode_num: u32 = bytes::get_u32_le(block, pos);
        let rec_len: u16 = bytes::get_u16_le(block, pos + 4);
        let name_len: usize = block[pos + 6] as usize;
        let file_type: u8 = block[pos + 7];
        let rec: usize = rec_len as usize;
        if rec_len < 8 || rec > block.len() - pos {
            return Err(DirError::InvalidRecLen(rec_len));
        }
        if inode_num != 0 {
            let n: usize = if name_len < rec - 8 {
                name_len
            } else {
                rec - 8
            };
            let raw = bytes::copy_range(block, pos + 8, pos + 8 + n);
            let name = text::from_utf8_lossy(raw.as_slice());
            let entry = DirEntry { inode_num, name, file_type };
            assert(entry@ == entry_at(block@, pos as int));
            let ghost sofar = entries_view(out@);
            out.push(entry);
            proof {
                assert(entries_view(out@) =~= sofar.push(entry@));
                if block_entries(block@, pos + rec) is Ok {
                    let rest = block_entries(block@, pos + rec)->Ok_0;
                    assert(sofar + (seq![entry@] + rest) =~= entries_view(out@) + rest);
                }
            }
        }
        pos = pos + rec;
    }
    proof {
        if whole is Ok {
            assert(entries_view(out@) =~= before + whole->Ok_0);
        }
    }
    Ok(())
}

/// All entries of the directory `dir_inode`, "." and ".." with them, but not
/// the deleted ones.
pub fn read_dir<D: BlockDevice>(
    dev: &D,
    sb: &Superblock,
    _gdt: &GroupDescTable,
    dir_inode: &Inode,
) -> (r: Result<Vec<DirEntry>, DirError>)
    requires
        sb.wf(),
    ensures
        r is Ok || dev.reliable() ==> match dir_entries(dev.bytes(), *sb, dir_inode@) {
            Ok(v) => r is Ok && entries_view(r->Ok_0@) == v,
            Err(e) => r is Err && r->Err_0 == e,
        },
{
    if !dir_inode.is_dir() {
        return Err(DirError::NotADirectory);
    }
    let n: u64 = bytes::div_ceil(dir_inode.size, sb.block_size as u64);
    let mut out: Vec<DirEntry> = Vec::new();
    let ghost whole = dir_entries(dev.bytes(), *sb, dir_inode@);
    let mut l: u64 = 0;
    proof {
        assert(entries_view(out@) =~= Seq::<EntryView>::empty());
        if whole is Ok {
            assert(entries_view(out@) + whole->Ok_0 =~= whole->Ok_0);
        }
    }
    while l < n
        invariant
            sb.wf(),
            l <= n,
            n == dir_blocks(*sb, dir_inode@),
            dir_inode@.is_dir(),
            whole == dir_entries(dev.bytes(), *sb, dir_inode@),
            whole == prepended(
                entries_view(out@),
                entries_from(dev.bytes(), *sb, dir_inode@, l as int, n as int),
            ),
        decreases n - l,
    {
        match extent::lookup_block(dev, sb, dir_inode, l) {
            Err(e) => {
                return Err(DirError::Extent(e));
            },
            Ok(None) => {},
            Ok(Some(p)) => {
                let block = match block_device::read_block(dev, sb.block_size, p) {
                    Ok(b) => b,
                    Err(e) => {
                        return Err(DirError::BlockDevice(e));
                    },
                };
                let ghost sofar = entries_view(out@);
                match parse_block_entries(block.as_slice(), &mut out) {
                    Ok(()) => {
                        proof {
                            let a = block_entries(block@, 0)->Ok_0;
                            let rest = entries_from(
                                dev.bytes(),
                                *sb,
                                dir_inode@,
                                l + 1,
                                n as int,
                            );
                            if rest is Ok {
                                assert(sofar + (a + rest->Ok_0) =~= (sofar + a) + rest->Ok_0);
                            }
                        }
                    },
                    Err(e) => {
                        return Err(e);
                    },
                }
            },
        }
        l = l + 1;
    }
    assert(entries_view(out@) + Seq::<EntryView>::empty() =~= entries_view(out@));
    Ok(out)
}

/// The inode number that the directory holds under `name`.
pub fn lookup<D: BlockDevice>(
    dev: &D,
    sb: &Superblock,
    gdt: &GroupDescTable,
    dir_inode: &Inode,
    name: &str,
) -> (r: Result<Option<u32>, DirError>)
    requires
        sb.wf(),
    ensures
        r is Ok || dev.reliable() ==> match dir_entries(dev.bytes(), *sb, dir_inode@) {
            Ok(v) => r == Ok::<Option<u32>, DirError>(first_named(v, name@)),
            Err(e) => r is Err && r->Err_0 == e,
        },
{
    let entries = match read_dir(dev, sb, gdt, dir_inode) {
        Ok(v) => v,
        Err(e) => {
            return Err(e);
        },
    };
    let ghost v = entries_view(entries@);
    let mut i: usize = 0;
    assert(v.skip(0) =~= v);
    while i < entries.len()
        invariant
            i <= entries@.len(),
            v == entries_view(entries@),
            dir_entries(dev.bytes(), *sb, dir_inode@) == Ok::<Seq<EntryView>, DirError>(v),
            first_named(v, name@) == first_named(v.skip(i as int), name@),
        decreases entries@.len() - i,
    {
        assert(v.skip(i as int)[0] == entries@[i as int]@);
        if text::same_text(entries[i].name.as_str(), name) {
            return Ok(Some(entries[i].inode_num));
        }
        assert(v.skip(i as int).skip(1) =~= v.skip(i + 1));
        i = i + 1;
    }
    Ok(None)
}

} // verus!
