//! Growing and truncating extent trees.
use vstd::prelude::*;
use crate::allocator::block_alloc;
use crate::allocator::{AllocError, Allocator};
use crate::block_device;
use crate::block_device::{BlockDevice, BlockDeviceError};
use crate::bytes;
use crate::extent;
use crate::extent::{ExtentHeader, EXTENT_MAGIC, MAX_INIT_LEN};
use crate::extent_insert;
use crate::fs_state;
use crate::fs_state::FsState;
use crate::group_desc::{GroupDescError, GroupDescTable};
use crate::inode;
use crate::inode::InodeError;
use crate::journal::writer::Transaction;
use crate::journal::JournalError;
use crate::superblock::Superblock;

verus! {

broadcast use crate::bytes::group_codec;

/// Entries that fit into the 60 bytes of an inode's block field.
pub const ROOT_MAX_ENTRIES: u16 = 4;

/// Why a tree was not changed.
#[derive(Debug)]
pub enum ExtentWriteError {
    /// The inode maps its blocks in the old, indirect way.
    NotExtentBased,
    /// The root has no room for another child.
    DepthLimitExceeded,
    /// A node is damaged; the block it lies in, 0 for the root.
    CorruptTree(u64),
    /// Nothing can be mapped at a logical block: an extent without data is there, or
    /// its number has more than 32 bits.
    Unmappable(u64),
    Alloc(AllocError),
    BlockDevice(BlockDeviceError),
    Inode(InodeError),
    Journal(JournalError),
    GroupDesc(GroupDescError),
}

/// `n`, or the largest 32-bit number where `n` is over it.
pub open spec fn sat32(n: int) -> u32 {
    if n > u32::MAX {
        u32::MAX
    } else {
        n as u32
    }
}

/// Entries that fit into a block behind the header.
pub open spec fn node_capacity(bs: u32) -> u16 {
    ((bs - 12) / 12) as u16
}

/// The bytes of a node header.
pub open spec fn header_bytes(entries: u16, max: u16, depth: u16) -> Seq<u8> {
    let b0 = bytes::put(bytes::zeros(12), 0, bytes::le16_bytes(EXTENT_MAGIC));
    let b1 = bytes::put(b0, 2, bytes::le16_bytes(entries));
    let b2 = bytes::put(b1, 4, bytes::le16_bytes(max));
    bytes::put(b2, 6, bytes::le16_bytes(depth))
}

/// The upper 16 of a block number's 48 bits.
pub open spec fn high(phys: u64) -> u16 {
    (phys / 0x1_0000_0000 % 0x1_0000) as u16
}

/// The lower 32 bits of a block number.
pub open spec fn low(phys: u64) -> u32 {
    (phys % 0x1_0000_0000) as u32
}

/// The bytes of a leaf entry.
pub open spec fn leaf_bytes(block: u32, len: u16, phys: u64) -> Seq<u8> {
    let b0 = bytes::put(bytes::zeros(12), 0, bytes::le32_bytes(block));
    let b1 = bytes::put(b0, 4, bytes::le16_bytes(len));
    let b2 = bytes::put(b1, 6, bytes::le16_bytes(high(phys)));
    bytes::put(b2, 8, bytes::le32_bytes(low(phys)))
}

/// The bytes of an index entry.
pub open spec fn idx_bytes(block: u32, child: u64) -> Seq<u8> {
    let b0 = bytes::put(bytes::zeros(12), 0, bytes::le32_bytes(block));
    let b1 = bytes::put(b0, 4, bytes::le32_bytes(low(child)));
    bytes::put(b1, 8, bytes::le16_bytes(high(child)))
}

pub open spec fn with_header(node: Seq<u8>, entries: int, max: u16, depth: u16) -> Seq<u8> {
    bytes::put(node, 0, header_bytes(entries as u16, max, depth))
}

pub open spec fn with_entry(node: Seq<u8>, i: int, entry: Seq<u8>) -> Seq<u8> {
    bytes::put(node, extent::entry_offset(i), entry)
}

/// The node without entry `i` of its `n`: those behind it move up.
pub open spec fn without_entry(node: Seq<u8>, i: int, n: int) -> Seq<u8> {
    bytes::put(
        node,
        extent::entry_offset(i),
        node.subrange(extent::entry_offset(i + 1), extent::entry_offset(n)),
    )
}

/// The header of the node in block `at`, if the node is sound.
pub open spec fn parsed(node: Seq<u8>, at: u64) -> Result<ExtentHeader, ExtentWriteError> {
    if node.len() < 12 || extent::header(node).eh_magic != EXTENT_MAGIC || node.len()
        < extent::entry_offset(extent::header(node).eh_entries as int) {
        Err(ExtentWriteError::CorruptTree(at))
    } else {
        Ok(extent::header(node))
    }
}

/// The logical block behind the last one that the node maps.
pub open spec fn next_logical(node: Seq<u8>) -> u32 {
    let n = extent::header(node).eh_entries;
    if n == 0 {
        0
    } else {
        let last = extent::leaf_at(node, extent::entry_offset(n - 1));
        sat32(last.ee_block + last.blocks())
    }
}

/// The node with its last extent made longer by `count` blocks; `None` unless
/// that extent is initialised, ends where `phys` starts, and stays within the
/// longest length an extent can have.
pub open spec fn coalesced(node: Seq<u8>, phys: u64, count: u16) -> Option<Seq<u8>> {
    let n = extent::header(node).eh_entries;
    if n == 0 {
        None
    } else {
        let off = extent::entry_offset(n - 1);
        let last = extent::leaf_at(node, off);
        if last.ee_len == 0 || last.uninit() || last.phys() + last.ee_len != phys || last.ee_len
            + count > MAX_INIT_LEN {
            None
        } else {
            Some(bytes::put(node, off + 4, bytes::le16_bytes((last.ee_len + count) as u16)))
        }
    }
}

/// Writing a block through.
pub open spec fn wrote(st: FsState, sb: Superblock, b: u64, data: Seq<u8>) -> (
    FsState,
    Result<(), ExtentWriteError>,
) {
    let (s, r) = fs_state::store(st, sb.block_size, b, data);
    match r {
        Ok(()) => (s, Ok(())),
        Err(e) => (s, Err(ExtentWriteError::BlockDevice(e))),
    }
}

/// Writing the record of inode `num` through: into its table block as the
/// transaction sees it, so that nothing else in the block is lost.
pub open spec fn flushed(st: FsState, sb: Superblock, num: u32, rec: Seq<u8>) -> (
    FsState,
    Result<(), ExtentWriteError>,
) {
    let b = inode::slot_block(sb, st.gdt[inode::group_of(sb, num)], num);
    match fs_state::fetched(st.disk, st.txn.blocks, sb.block_size, b) {
        Err(e) => (st, Err(ExtentWriteError::BlockDevice(e))),
        Ok(t) => wrote(st, sb, b, bytes::put(t, inode::slot_offset(sb, num), rec)),
    }
}

/// The record of an inode whose tree is to be changed.
pub open spec fn opened(st: FsState, sb: Superblock, num: u32) -> Result<
    Seq<u8>,
    ExtentWriteError,
> {
    match inode::inode_at(st.disk, sb, st.gdt, num) {
        Err(e) => Err(ExtentWriteError::Inode(e)),
        Ok(i) => if !i.uses_extents() {
            Err(ExtentWriteError::NotExtentBased)
        } else {
            let b = inode::slot_block(sb, st.gdt[inode::group_of(sb, num)], num);
            let o = inode::slot_offset(sb, num);
            match fs_state::fetched(st.disk, st.txn.blocks, sb.block_size, b) {
                Err(e) => Err(ExtentWriteError::BlockDevice(e)),
                Ok(t) => Ok(t.subrange(o, o + 128)),
            }
        },
    }
}

/// The root node in an inode record.
pub open spec fn root_of(rec: Seq<u8>) -> Seq<u8> {
    rec.subrange(40, 100)
}

pub open spec fn with_root(rec: Seq<u8>, root: Seq<u8>) -> Seq<u8> {
    bytes::put(rec, 40, root)
}

/// The record with `count` blocks more in its count of sectors.
pub open spec fn with_more_blocks(rec: Seq<u8>, sb: Superblock, count: u16) -> Seq<u8> {
    bytes::put(
        rec,
        28,
        bytes::le32_bytes(
            sat32(bytes::le32(rec, 28) + count * (sb.block_size as int / 512)),
        ),
    )
}

/// The blocks of nodes that a root leads to.
pub open spec fn nodes_under(root: Seq<u8>) -> int {
    let h = extent::header(root);
    if h.eh_depth == 0 {
        0
    } else {
        h.eh_entries as int
    }
}

/// The `count` blocks that were appended, and the nodes that the root got with them.
pub open spec fn with_nodes(count: u16, before: Seq<u8>, after: Seq<u8>) -> u16 {
    let n = count + nodes_under(after) - nodes_under(before);
    if n < count {
        count
    } else if n > u16::MAX {
        u16::MAX
    } else {
        n as u16
    }
}

/// The root with one more child.
pub open spec fn with_child(root: Seq<u8>, first: u32, child: u64) -> Result<
    Seq<u8>,
    ExtentWriteError,
> {
    match parsed(root, 0) {
        Err(e) => Err(e),
        Ok(h) => if h.eh_entries >= h.eh_max {
            Err(ExtentWriteError::DepthLimitExceeded)
        } else if extent::entry_offset(h.eh_entries + 1) > root.len() {
            Err(ExtentWriteError::CorruptTree(0))
        } else {
            Ok(
                with_header(
                    with_entry(root, h.eh_entries as int, idx_bytes(first, child)),
                    h.eh_entries + 1,
                    h.eh_max,
                    h.eh_depth,
                ),
            )
        },
    }
}

/// The leaf node with one more entry.
pub open spec fn with_leaf(node: Seq<u8>, h: ExtentHeader, entry: Seq<u8>) -> Seq<u8> {
    with_header(
        with_entry(node, h.eh_entries as int, entry),
        h.eh_entries + 1,
        h.eh_max,
        0,
    )
}

/// Splitting the full leaf node `node` of block `at`: the upper half of its
/// entries moves to a new block, which becomes a child of the root.
pub open spec fn split(
    st: FsState,
    sb: Superblock,
    hint: u64,
    at: u64,
    node: Seq<u8>,
    root: Seq<u8>,
) -> (FsState, Result<(u64, Seq<u8>), ExtentWriteError>) {
    let h = extent::header(node);
    let keep = h.eh_entries as int / 2;
    let (s1, r1) = block_alloc::allocated(st, sb, 1, hint);
    match r1 {
        Err(e) => (s1, Err(ExtentWriteError::Alloc(e))),
        Ok(fresh) => {
            let upper = bytes::put(
                with_header(
                    bytes::zeros(sb.block_size as int),
                    h.eh_entries - keep,
                    h.eh_max,
                    0,
                ),
                12,
                node.subrange(
                    extent::entry_offset(keep),
                    extent::entry_offset(h.eh_entries as int),
                ),
            );
            let (s2, r2) = wrote(s1, sb, at, with_header(node, keep, h.eh_max, 0));
            match r2 {
                Err(e) => (s2, Err(e)),
                Ok(()) => {
                    let (s3, r3) = wrote(s2, sb, fresh, upper);
                    match r3 {
                        Err(e) => (s3, Err(e)),
                        Ok(()) => match with_child(root, bytes::le32(upper, 12), fresh) {
                            Err(e) => (s3, Err(e)),
                            Ok(root2) => (s3, Ok((fresh, root2))),
                        },
                    }
                },
            }
        },
    }
}

/// Adding an entry to the leaf node in block `at`, which is split if it is
/// full. Gives the root as it stands then.
pub open spec fn leaf_added(
    st: FsState,
    sb: Superblock,
    hint: u64,
    at: u64,
    entry: Seq<u8>,
    root: Seq<u8>,
) -> (FsState, Result<Seq<u8>, ExtentWriteError>) {
    match block_device::block_at(st.disk, sb.block_size, at) {
        Err(e) => (st, Err(ExtentWriteError::BlockDevice(e))),
        Ok(node) => match parsed(node, at) {
            Err(e) => (st, Err(e)),
            Ok(h) => if h.eh_entries < h.eh_max {
                if extent::entry_offset(h.eh_entries + 1) > node.len() {
                    (st, Err(ExtentWriteError::CorruptTree(at)))
                } else {
                    let (s1, r1) = wrote(st, sb, at, with_leaf(node, h, entry));
                    match r1 {
                        Err(e) => (s1, Err(e)),
                        Ok(()) => (s1, Ok(root)),
                    }
                }
            } else {
                let (s1, r1) = split(st, sb, hint, at, node, root);
                match r1 {
                    Err(e) => (s1, Err(e)),
                    Ok((fresh, root2)) => match block_device::block_at(
                        s1.disk,
                        sb.block_size,
                        fresh,
                    ) {
                        Err(e) => (s1, Err(ExtentWriteError::BlockDevice(e))),
                        Ok(upper) => match parsed(upper, fresh) {
                            Err(e) => (s1, Err(e)),
                            Ok(h2) => if h2.eh_entries >= h2.eh_max {
                                (s1, Ok(root2))
                            } else if extent::entry_offset(h2.eh_entries + 1) > upper.len() {
                                (s1, Err(ExtentWriteError::CorruptTree(fresh)))
                            } else {
                                let (s2, r2) = wrote(s1, sb, fresh, with_leaf(upper, h2, entry));
                                match r2 {
                                    Err(e) => (s2, Err(e)),
                                    Ok(()) => (s2, Ok(root2)),
                                }
                            },
                        },
                    },
                }
            },
        },
    }
}

/// Growing the tree by a level: the root's entries move to a new block, which
/// becomes the root's only child. Gives the record as it stands then.
pub open spec fn grown(st: FsState, sb: Superblock, num: u32, rec: Seq<u8>) -> (
    FsState,
    Result<Seq<u8>, ExtentWriteError>,
) {
    let root = root_of(rec);
    let h = extent::header(root);
    let (s1, r1) = block_alloc::allocated(st, sb, 1, num as u64);
    match r1 {
        Err(e) => (s1, Err(ExtentWriteError::Alloc(e))),
        Ok(fresh) => {
            let child = bytes::put(
                with_header(
                    bytes::zeros(sb.block_size as int),
                    h.eh_entries as int,
                    node_capacity(sb.block_size),
                    h.eh_depth,
                ),
                12,
                root.subrange(12, extent::entry_offset(h.eh_entries as int)),
            );
            let (s2, r2) = wrote(s1, sb, fresh, child);
            match r2 {
                Err(e) => (s2, Err(e)),
                Ok(()) => {
                    let root2 = bytes::put(
                        with_header(
                            bytes::zeros(60),
                            1,
                            ROOT_MAX_ENTRIES,
                            (h.eh_depth + 1) as u16,
                        ),
                        12,
                        idx_bytes(0, fresh),
                    );
                    let rec2 = with_root(rec, root2);
                    let (s3, r3) = flushed(s2, sb, num, rec2);
                    match r3 {
                        Err(e) => (s3, Err(e)),
                        Ok(()) => (s3, Ok(rec2)),
                    }
                },
            }
        },
    }
}

/// The rightmost leaf block under an inner node of the given depth.
pub open spec fn rightmost(disk: Seq<u8>, bs: u32, node: Seq<u8>, depth: nat) -> Result<
    u64,
    ExtentWriteError,
>
    decreases depth,
{
    match parsed(node, 0) {
        Err(e) => Err(e),
        Ok(h) => if h.eh_entries == 0 {
            Err(ExtentWriteError::CorruptTree(0))
        } else {
            let child = extent::idx_at(node, extent::entry_offset(h.eh_entries - 1)).child();
            if depth <= 1 {
                Ok(child)
            } else {
                match block_device::block_at(disk, bs, child) {
                    Err(e) => Err(ExtentWriteError::BlockDevice(e)),
                    Ok(d) => rightmost(disk, bs, d, (depth - 1) as nat),
                }
            }
        },
    }
}

/// Making the last extent of the leaf block `at` longer, where that can be done.
pub open spec fn block_coalesced(st: FsState, sb: Superblock, at: u64, phys: u64, count: u16) -> (
    FsState,
    Result<bool, ExtentWriteError>,
) {
    match fs_state::fetched(st.disk, st.txn.blocks, sb.block_size, at) {
        Err(e) => (st, Err(ExtentWriteError::BlockDevice(e))),
        Ok(node) => match parsed(node, at) {
            Err(e) => (st, Err(e)),
            Ok(h) => match coalesced(node, phys, count) {
                None => (st, Ok(false)),
                Some(node2) => {
                    let (s1, r1) = wrote(st, sb, at, node2);
                    match r1 {
                        Err(e) => (s1, Err(e)),
                        Ok(()) => (s1, Ok(true)),
                    }
                },
            },
        },
    }
}

/// Appending to a tree whose root is a leaf.
pub open spec fn appended_flat(
    st: FsState,
    sb: Superblock,
    num: u32,
    rec: Seq<u8>,
    phys: u64,
    count: u16,
) -> (FsState, Result<(), ExtentWriteError>) {
    let root = root_of(rec);
    let h = extent::header(root);
    match coalesced(root, phys, count) {
        Some(root2) => flushed(
            st,
            sb,
            num,
            with_more_blocks(with_root(rec, root2), sb, count),
        ),
        None => {
            let entry = leaf_bytes(next_logical(root), count, phys);
            if h.eh_entries < h.eh_max {
                if extent::entry_offset(h.eh_entries + 1) > root.len() {
                    (st, Err(ExtentWriteError::CorruptTree(0)))
                } else {
                    flushed(
                        st,
                        sb,
                        num,
                        with_more_blocks(with_root(rec, with_leaf(root, h, entry)), sb, count),
                    )
                }
            } else {
                let (s1, r1) = grown(st, sb, num, rec);
                match r1 {
                    Err(e) => (s1, Err(e)),
                    Ok(rec2) => {
                        let child = extent::idx_at(root_of(rec2), 12).child();
                        let (s2, r2) = leaf_added(
                            s1,
                            sb,
                            num as u64,
                            child,
                            entry,
                            root_of(rec2),
                        );
                        match r2 {
                            Err(e) => (s2, Err(e)),
                            Ok(root3) => flushed(
                                s2,
                                sb,
                                num,
                                with_more_blocks(
                                    with_root(rec2, root3),
                                    sb,
                                    with_nodes(count, root, root3),
                                ),
                            ),
                        }
                    },
                }
            }
        },
    }
}

/// Appending to a tree whose root is an inner node. Where the last leaf is full and
/// does not hang from a root that has room for another, the blocks are inserted behind
/// it.
pub open spec fn appended_deep(
    st: FsState,
    sb: Superblock,
    num: u32,
    rec: Seq<u8>,
    phys: u64,
    count: u16,
) -> (FsState, Result<(), ExtentWriteError>) {
    let root = root_of(rec);
    let h = extent::header(root);
    match rightmost(st.disk, sb.block_size, root, h.eh_depth as nat) {
        Err(e) => (st, Err(e)),
        Ok(at) => {
            let (s1, r1) = block_coalesced(st, sb, at, phys, count);
            match r1 {
                Err(e) => (s1, Err(e)),
                Ok(true) => flushed(s1, sb, num, with_more_blocks(rec, sb, count)),
                Ok(false) => match block_device::block_at(s1.disk, sb.block_size, at) {
                    Err(e) => (s1, Err(ExtentWriteError::BlockDevice(e))),
                    Ok(node) => match parsed(node, at) {
                        Err(e) => (s1, Err(e)),
                        Ok(nh) => if nh.eh_entries >= nh.eh_max && (h.eh_depth > 1 || h.eh_entries
                            >= h.eh_max) && count <= MAX_INIT_LEN {
                            extent_insert::inserted(
                                s1,
                                sb,
                                num,
                                next_logical(node) as int,
                                phys,
                                count,
                            )
                        } else {
                            let entry = leaf_bytes(next_logical(node), count, phys);
                            let (s2, r2) = leaf_added(s1, sb, num as u64, at, entry, root);
                            match r2 {
                                Err(e) => (s2, Err(e)),
                                Ok(root2) => flushed(
                                    s2,
                                    sb,
                                    num,
                                    with_more_blocks(
                                        with_root(rec, root2),
                                        sb,
                                        with_nodes(count, root, root2),
                                    ),
                                ),
                            }
                        },
                    },
                },
            }
        },
    }
}

/// Appending `count` blocks from `phys` on to the tree of inode `num`, behind
/// the last logical block that it maps.
pub open spec fn appended(st: FsState, sb: Superblock, num: u32, phys: u64, count: u16) -> (
    FsState,
    Result<(), ExtentWriteError>,
) {
    match opened(st, sb, num) {
        Err(e) => (st, Err(e)),
        Ok(rec) => match parsed(root_of(rec), 0) {
            Err(e) => (st, Err(e)),
            Ok(h) => if h.eh_depth == 0 {
                appended_flat(st, sb, num, rec, phys, count)
            } else {
                appended_deep(st, sb, num, rec, phys, count)
            },
        },
    }
}

/// Freeing the `n` blocks from `start` on.
pub open spec fn run_freed(st: FsState, sb: Superblock, start: u64, n: int) -> (
    FsState,
    Result<(), ExtentWriteError>,
)
    decreases n,
{
    if n <= 0 {
        (st, Ok(()))
    } else {
        let (s1, r1) = block_freed(st, sb, start);
        match r1 {
            Err(e) => (s1, Err(e)),
            Ok(()) => run_freed(s1, sb, (start + 1) as u64, n - 1),
        }
    }
}

/// Freeing a block of a tree.
pub open spec fn block_freed(st: FsState, sb: Superblock, b: u64) -> (
    FsState,
    Result<(), ExtentWriteError>,
) {
    let (s1, r1) = block_alloc::freed(st, sb, b);
    match r1 {
        Err(e) => (s1, Err(ExtentWriteError::Alloc(e))),
        Ok(()) => (fs_state::revoke(s1, b), Ok(())),
    }
}

/// Truncating the entries of a leaf node, of which there are `n`, from entry
/// `i` on: logical blocks from `keep` on are freed. Gives the node, and how
/// many entries are left.
pub open spec fn leaf_truncated(
    st: FsState,
    sb: Superblock,
    node: Seq<u8>,
    i: int,
    n: int,
    keep: u32,
) -> (FsState, Result<(Seq<u8>, int), ExtentWriteError>)
    decreases n - i,
{
    if i >= n {
        (st, Ok((node, n)))
    } else {
        let off = extent::entry_offset(i);
        let leaf = extent::leaf_at(node, off);
        let end = sat32(leaf.ee_block + leaf.blocks());
        if leaf.ee_block >= keep {
            let (s1, r1) = run_freed(st, sb, leaf.phys(), leaf.blocks());
            match r1 {
                Err(e) => (s1, Err(e)),
                Ok(()) => leaf_truncated(s1, sb, without_entry(node, i, n), i, n - 1, keep),
            }
        } else if end > keep {
            let kept = keep - leaf.ee_block;
            let (s1, r1) = run_freed(st, sb, (leaf.phys() + kept) as u64, end - keep);
            match r1 {
                Err(e) => (s1, Err(e)),
                Ok(()) => leaf_truncated(
                    s1,
                    sb,
                    bytes::put(
                        node,
                        off + 4,
                        bytes::le16_bytes(
                            (if leaf.uninit() {
                                kept + MAX_INIT_LEN
                            } else {
                                kept
                            }) as u16,
                        ),
                    ),
                    i + 1,
                    n,
                    keep,
                ),
            }
        } else {
            leaf_truncated(st, sb, node, i + 1, n, keep)
        }
    }
}

/// Freeing what the leaf entries of `node` map, from entry `i` of `n` on.
pub open spec fn leaves_freed(st: FsState, sb: Superblock, node: Seq<u8>, i: int, n: int) -> (
    FsState,
    Result<(), ExtentWriteError>,
)
    decreases n - i,
{
    if i >= n {
        (st, Ok(()))
    } else {
        let leaf = extent::leaf_at(node, extent::entry_offset(i));
        let (s1, r1) = run_freed(st, sb, leaf.phys(), leaf.blocks());
        match r1 {
            Err(e) => (s1, Err(e)),
            Ok(()) => leaves_freed(s1, sb, node, i + 1, n),
        }
    }
}

/// Freeing the subtree in block `at`, the block itself last.
pub open spec fn subtree_freed(st: FsState, sb: Superblock, at: u64, depth: nat) -> (
    FsState,
    Result<(), ExtentWriteError>,
)
    decreases depth, 70000int,
{
    match block_device::block_at(st.disk, sb.block_size, at) {
        Err(e) => (st, Err(ExtentWriteError::BlockDevice(e))),
        Ok(node) => match parsed(node, at) {
            Err(e) => (st, Err(e)),
            Ok(h) => {
                let (s1, r1) = if depth == 0 {
                    leaves_freed(st, sb, node, 0, h.eh_entries as int)
                } else {
                    children_freed(st, sb, node, 0, h.eh_entries as int, depth)
                };
                match r1 {
                    Err(e) => (s1, Err(e)),
                    Ok(()) => block_freed(s1, sb, at),
                }
            },
        },
    }
}

/// Freeing the children of `node`, from entry `i` of `n` on.
pub open spec fn children_freed(
    st: FsState,
    sb: Superblock,
    node: Seq<u8>,
    i: int,
    n: int,
    depth: nat,
) -> (FsState, Result<(), ExtentWriteError>)
    decreases depth, n - i,
{
    if i >= n || depth == 0 {
        (st, Ok(()))
    } else {
        let child = extent::idx_at(node, extent::entry_offset(i)).child();
        let (s1, r1) = subtree_freed(st, sb, child, (depth - 1) as nat);
        match r1 {
            Err(e) => (s1, Err(e)),
            Ok(()) => children_freed(s1, sb, node, i + 1, n, depth),
        }
    }
}

/// Truncating a node of the given depth. Gives the node, and whether it is
/// empty and may go.
pub open spec fn node_truncated(
    st: FsState,
    sb: Superblock,
    node: Seq<u8>,
    depth: nat,
    keep: u32,
    is_root: bool,
) -> (FsState, Result<(Seq<u8>, bool), ExtentWriteError>)
    decreases depth, 70000int,
{
    match parsed(node, 0) {
        Err(e) => (st, Err(e)),
        Ok(h) => if depth == 0 {
            let (s1, r1) = leaf_truncated(st, sb, node, 0, h.eh_entries as int, keep);
            match r1 {
                Err(e) => (s1, Err(e)),
                Ok((node2, left)) => (
                    s1,
                    Ok((with_header(node2, left, h.eh_max, 0), left == 0)),
                ),
            }
        } else {
            let (s1, r1) = children_truncated(
                st,
                sb,
                node,
                0,
                h.eh_entries as int,
                depth,
                keep,
            );
            match r1 {
                Err(e) => (s1, Err(e)),
                Ok((node2, left)) => (
                    s1,
                    Ok(
                        (
                            with_header(node2, left, h.eh_max, depth as u16),
                            left == 0 && !is_root,
                        ),
                    ),
                ),
            }
        },
    }
}

/// Truncating the children of a node, from entry `i` of `n` on. A child that
/// only maps logical blocks from `keep` on is freed whole.
pub open spec fn children_truncated(
    st: FsState,
    sb: Superblock,
    node: Seq<u8>,
    i: int,
    n: int,
    depth: nat,
    keep: u32,
) -> (FsState, Result<(Seq<u8>, int), ExtentWriteError>)
    decreases depth, n - i,
{
    if i >= n || depth == 0 {
        (st, Ok((node, n)))
    } else {
        let idx = extent::idx_at(node, extent::entry_offset(i));
        if idx.ei_block >= keep && keep > 0 {
            let (s1, r1) = subtree_freed(st, sb, idx.child(), (depth - 1) as nat);
            match r1 {
                Err(e) => (s1, Err(e)),
                Ok(()) => children_truncated(
                    s1,
                    sb,
                    without_entry(node, i, n),
                    i,
                    n - 1,
                    depth,
                    keep,
                ),
            }
        } else {
            match block_device::block_at(st.disk, sb.block_size, idx.child()) {
                Err(e) => (st, Err(ExtentWriteError::BlockDevice(e))),
                Ok(child) => {
                    let (s1, r1) = node_truncated(
                        st,
                        sb,
                        child,
                        (depth - 1) as nat,
                        keep,
                        false,
                    );
                    match r1 {
                        Err(e) => (s1, Err(e)),
                        Ok((child2, empty)) => if empty {
                            let (s2, r2) = block_freed(s1, sb, idx.child());
                            match r2 {
                                Err(e) => (s2, Err(e)),
                                Ok(()) => children_truncated(
                                    s2,
                                    sb,
                                    without_entry(node, i, n),
                                    i,
                                    n - 1,
                                    depth,
                                    keep,
                                ),
                            }
                        } else {
                            let (s2, r2) = wrote(s1, sb, idx.child(), child2);
                            match r2 {
                                Err(e) => (s2, Err(e)),
                                Ok(()) => children_truncated(s2, sb, node, i + 1, n, depth, keep),
                            }
                        },
                    }
                },
            }
        }
    }
}

/// The sectors of what a leaf node maps, over its first `k` entries.
pub open spec fn sectors_of(node: Seq<u8>, sb: Superblock, k: int) -> u32
    decreases k,
{
    if k <= 0 {
        0
    } else {
        sat32(
            sectors_of(node, sb, k - 1) + extent::leaf_at(
                node,
                extent::entry_offset(k - 1),
            ).blocks() * (sb.block_size as int / 512),
        )
    }
}

/// The sectors of the blocks that lead on from an inner node over its first `k`
/// entries: its children, and all that is under them.
pub open spec fn sectors_of_children(
    disk: Seq<u8>,
    sb: Superblock,
    node: Seq<u8>,
    depth: nat,
    k: int,
) -> Result<u32, ExtentWriteError>
    decreases depth, k,
{
    if k <= 0 || depth == 0 {
        Ok(0)
    } else {
        let at = extent::idx_at(node, extent::entry_offset(k - 1)).child();
        match sectors_of_children(disk, sb, node, depth, k - 1) {
            Err(e) => Err(e),
            Ok(total) => match block_device::block_at(disk, sb.block_size, at) {
                Err(e) => Err(ExtentWriteError::BlockDevice(e)),
                Ok(child) => match parsed(child, at) {
                    Err(e) => Err(e),
                    Ok(_) => match sectors_under(disk, sb, child, (depth - 1) as nat) {
                        Err(e) => Err(e),
                        Ok(n) => Ok(sat32(total + sb.block_size as int / 512 + n)),
                    },
                },
            },
        }
    }
}

/// The sectors of what is under a node of a tree: the blocks that it maps, and the
/// nodes that lead there.
pub open spec fn sectors_under(
    disk: Seq<u8>,
    sb: Superblock,
    node: Seq<u8>,
    depth: nat,
) -> Result<u32, ExtentWriteError>
    decreases depth, 0x1_0000int,
{
    let n = extent::header(node).eh_entries as int;
    if depth == 0 {
        Ok(sectors_of(node, sb, n))
    } else {
        sectors_of_children(disk, sb, node, depth, n)
    }
}

/// A root that has no entries leads nowhere: it is a leaf again.
pub open spec fn lowered(root: Seq<u8>) -> Seq<u8> {
    if extent::header(root).eh_entries == 0 {
        with_header(root, 0, extent::header(root).eh_max, 0)
    } else {
        root
    }
}

/// Freeing every block of inode `num` from logical block `keep` on. The inode's count
/// of sectors is that of what is left, the nodes of the tree with it. A tree of which
/// nothing is left is a root that is a leaf.
pub open spec fn truncated(st: FsState, sb: Superblock, num: u32, keep: u32) -> (
    FsState,
    Result<(), ExtentWriteError>,
) {
    match opened(st, sb, num) {
        Err(e) => (st, Err(e)),
        Ok(rec) => match parsed(root_of(rec), 0) {
            Err(e) => (st, Err(e)),
            Ok(h) => {
                let (s1, r1) = node_truncated(
                    st,
                    sb,
                    root_of(rec),
                    h.eh_depth as nat,
                    keep,
                    true,
                );
                match r1 {
                    Err(e) => (s1, Err(e)),
                    Ok((root2, _)) => match sectors_under(
                        s1.disk,
                        sb,
                        root2,
                        h.eh_depth as nat,
                    ) {
                        Err(e) => (s1, Err(e)),
                        Ok(n) => flushed(
                            s1,
                            sb,
                            num,
                            bytes::put(with_root(rec, lowered(root2)), 28, bytes::le32_bytes(n)),
                        ),
                    },
                }
            },
        },
    }
}

/// A header that was written is read back.
pub proof fn lemma_header(node: Seq<u8>, entries: int, max: u16, depth: u16)
    requires
        node.len() >= 12,
        0 <= entries <= u16::MAX,
    ensures
        extent::header(with_header(node, entries, max, depth)) == (ExtentHeader {
            eh_magic: EXTENT_MAGIC,
            eh_entries: entries as u16,
            eh_max: max,
            eh_depth: depth,
            eh_generation: 0,
        }),
        with_header(node, entries, max, depth).len() == node.len(),
{
    let d = header_bytes(entries as u16, max, depth);
    bytes::lemma_le16_inside(node, 0, d, 0);
    bytes::lemma_le16_inside(node, 0, d, 2);
    bytes::lemma_le16_inside(node, 0, d, 4);
    bytes::lemma_le16_inside(node, 0, d, 6);
    bytes::lemma_le32_inside(node, 0, d, 8);
    assert(bytes::le32(d, 8) == 0) by {
        assert(bytes::le32(bytes::zeros(12), 8) == 0) by {
            reveal(bytes::le32);
        }
    }
}

/// A leaf entry that was written is read back; of the block number, 48 bits.
pub proof fn lemma_leaf(node: Seq<u8>, i: int, block: u32, len: u16, phys: u64)
    requires
        0 <= i,
        extent::entry_offset(i + 1) <= node.len(),
    ensures
        ({
            let l = extent::leaf_at(
                with_entry(node, i, leaf_bytes(block, len, phys)),
                extent::entry_offset(i),
            );
            &&& l.ee_block == block
            &&& l.ee_len == len
            &&& l.phys() == phys as int % 0x1_0000_0000_0000
        }),
{
    let d = leaf_bytes(block, len, phys);
    let at = extent::entry_offset(i);
    bytes::lemma_le32_inside(node, at, d, at);
    bytes::lemma_le16_inside(node, at, d, at + 4);
    bytes::lemma_le16_inside(node, at, d, at + 6);
    bytes::lemma_le32_inside(node, at, d, at + 8);
}

fn make_header(entries: u16, max: u16, depth: u16) -> (v: Vec<u8>)
    ensures
        v@ == header_bytes(entries, max, depth),
        v@.len() == 12,
{
    let mut v = bytes::zero_vec(12);
    bytes::put_u16_le(&mut v, 0, EXTENT_MAGIC);
    bytes::put_u16_le(&mut v, 2, entries);
    bytes::put_u16_le(&mut v, 4, max);
    bytes::put_u16_le(&mut v, 6, depth);
    v
}

pub(crate) fn make_leaf_entry(block: u32, len: u16, phys: u64) -> (v: Vec<u8>)
    ensures
        v@ == leaf_bytes(block, len, phys),
        v@.len() == 12,
{
    let mut v = bytes::zero_vec(12);
    bytes::put_u32_le(&mut v, 0, block);
    bytes::put_u16_le(&mut v, 4, len);
    bytes::put_u16_le(&mut v, 6, (phys / 0x1_0000_0000 % 0x1_0000) as u16);
    bytes::put_u32_le(&mut v, 8, (phys % 0x1_0000_0000) as u32);
    v
}

pub(crate) fn make_idx_entry(block: u32, child: u64) -> (v: Vec<u8>)
    ensures
        v@ == idx_bytes(block, child),
        v@.len() == 12,
{
    let mut v = bytes::zero_vec(12);
    bytes::put_u32_le(&mut v, 0, block);
    bytes::put_u32_le(&mut v, 4, (child % 0x1_0000_0000) as u32);
    bytes::put_u16_le(&mut v, 8, (child / 0x1_0000_0000 % 0x1_0000) as u16);
    v
}

pub(crate) fn set_header(node: &mut Vec<u8>, entries: u16, max: u16, depth: u16)
    requires
        old(node).len() >= 12,
    ensures
        final(node)@ == with_header(old(node)@, entries as int, max, depth),
        final(node)@.len() == old(node)@.len(),
{
    let h = make_header(entries, max, depth);
    bytes::put_bytes(node, 0, h.as_slice());
}

fn set_entry(node: &mut Vec<u8>, i: u16, entry: &[u8])
    requires
        extent::entry_offset(i + 1) <= old(node).len(),
        entry@.len() == 12,
    ensures
        final(node)@ == with_entry(old(node)@, i as int, entry@),
        final(node)@.len() == old(node)@.len(),
{
    bytes::put_bytes(node, 12 + 12 * i as usize, entry);
}

fn remove_entry(node: &mut Vec<u8>, i: u16, n: u16)
    requires
        i < n,
        extent::entry_offset(n as int) <= old(node).len(),
    ensures
        final(node)@ == without_entry(old(node)@, i as int, n as int),
        final(node)@.len() == old(node)@.len(),
{
    let tail = bytes::copy_range(node.as_slice(), 24 + 12 * i as usize, 12 + 12 * n as usize);
    bytes::put_bytes(node, 12 + 12 * i as usize, tail.as_slice());
}

pub(crate) fn parse_header(node: &[u8], at: u64) -> (r: Result<ExtentHeader, ExtentWriteError>)
    ensures
        r == parsed(node@, at),
{
    if node.len() < 12 {
        return Err(ExtentWriteError::CorruptTree(at));
    }
    let h = extent::read_header(node);
    if h.eh_magic != EXTENT_MAGIC || node.len() < 12 + 12 * h.eh_entries as usize {
        return Err(ExtentWriteError::CorruptTree(at));
    }
    Ok(h)
}

fn next_logical_block(node: &[u8]) -> (r: u32)
    requires
        parsed(node@, 0) is Ok,
    ensures
        r == next_logical(node@),
{
    let h = extent::read_header(node);
    if h.eh_entries == 0 {
        return 0;
    }
    let last = extent::read_leaf(node, 12 * h.eh_entries as usize);
    last.ee_block.saturating_add(last.length() as u32)
}

/// Make the last extent of a leaf node longer, where the new blocks continue it.
fn try_coalesce(node: &mut Vec<u8>, phys_start: u64, block_count: u16) -> (r: bool)
    requires
        parsed(old(node)@, 0) is Ok,
    ensures
        match coalesced(old(node)@, phys_start, block_count) {
            Some(n2) => r && final(node)@ == n2,
            None => !r && final(node)@ == old(node)@,
        },
        final(node)@.len() == old(node)@.len(),
{
    let h = extent::read_header(node.as_slice());
    if h.eh_entries == 0 {
        return false;
    }
    let off: usize = 12 * h.eh_entries as usize;
    let last = extent::read_leaf(node.as_slice(), off);
    if last.ee_len == 0 || last.ee_len > MAX_INIT_LEN {
        return false;
    }
    if last.start() + last.ee_len as u64 != phys_start {
        return false;
    }
    let combined: u32 = last.ee_len as u32 + block_count as u32;
    if combined > MAX_INIT_LEN as u32 {
        return false;
    }
    bytes::put_u16_le(node, off + 4, combined as u16);
    true
}

pub(crate) fn write_block<D: BlockDevice>(
    dev: &mut D,
    sb: &Superblock,
    txn: &mut Transaction,
    Ghost(g): Ghost<Seq<crate::group_desc::GroupDesc>>,
    b: u64,
    data: Vec<u8>,
) -> (r: Result<(), ExtentWriteError>)
    requires
        sb.wf(),
        data@.len() == sb.block_size,
    ensures
        block_device::same_shape(*old(dev), *final(dev)),
        r is Ok || old(dev).reliable() ==> (
            (FsState { disk: final(dev).bytes(), txn: final(txn)@, gdt: g }),
            r,
        ) == wrote(
            FsState { disk: old(dev).bytes(), txn: old(txn)@, gdt: g },
            *sb,
            b,
            data@,
        ),
{
    match fs_state::store_block(dev, txn, sb.block_size, b, data) {
        Ok(()) => Ok(()),
        Err(e) => Err(ExtentWriteError::BlockDevice(e)),
    }
}

pub(crate) fn read_block<D: BlockDevice>(dev: &D, sb: &Superblock, b: u64) -> (r: Result<
    Vec<u8>,
    ExtentWriteError,
>)
    requires
        sb.wf(),
    ensures
        r is Ok || dev.reliable() ==> match block_device::block_at(dev.bytes(), sb.block_size, b) {
            Ok(d) => r is Ok && r->Ok_0@ == d,
            Err(e) => r is Err && r->Err_0 == ExtentWriteError::BlockDevice(e),
        },
        r is Ok ==> r->Ok_0@.len() == sb.block_size,
{
    match block_device::read_block(dev, sb.block_size, b) {
        Ok(d) => Ok(d),
        Err(e) => Err(ExtentWriteError::BlockDevice(e)),
    }
}

pub(crate) fn flush_record<D: BlockDevice>(
    dev: &mut D,
    sb: &Superblock,
    gdt: &GroupDescTable,
    txn: &mut Transaction,
    inode_num: u32,
    rec: &[u8],
) -> (r: Result<(), ExtentWriteError>)
    requires
        sb.wf(),
        inode_num > 0,
        inode::group_of(*sb, inode_num) < gdt@.len(),
        rec@.len() == 128,
    ensures
        block_device::same_shape(*old(dev), *final(dev)),
        r is Ok || old(dev).reliable() ==> (fs_state::now(*final(dev), *final(txn), *gdt), r)
            == flushed(fs_state::now(*old(dev), *old(txn), *gdt), *sb, inode_num, rec@),
{
    let group: u32 = (inode_num - 1) / sb.inodes_per_group;
    let desc = match gdt.get(group as usize) {
        Ok(d) => *d,
        Err(e) => {
            return Err(ExtentWriteError::GroupDesc(e));
        },
    };
    let (block, offset) = inode::slot(sb, &desc, inode_num);
    let mut table = match fs_state::fetch_block(dev, txn, sb.block_size, block) {
        Ok(t) => t,
        Err(e) => {
            return Err(ExtentWriteError::BlockDevice(e));
        },
    };
    bytes::put_bytes(&mut table, offset, rec);
    write_block(dev, sb, txn, Ghost(gdt@), block, table)
}

pub(crate) fn open_record<D: BlockDevice>(
    dev: &D,
    sb: &Superblock,
    gdt: &GroupDescTable,
    txn: &Transaction,
    inode_num: u32,
) -> (r: Result<Vec<u8>, ExtentWriteError>)
    requires
        sb.wf(),
    ensures
        r is Ok || dev.reliable() ==> block_device::bytes_of(r) == opened(
            fs_state::now(*dev, *txn, *gdt),
            *sb,
            inode_num,
        ),
        r is Ok ==> r->Ok_0@.len() == 128 && inode_num > 0 && inode::group_of(*sb, inode_num)
            < gdt@.len(),
{
    let i = match inode::read_inode(dev, sb, gdt, inode_num) {
        Ok(i) => i,
        Err(e) => {
            return Err(ExtentWriteError::Inode(e));
        },
    };
    if !i.uses_extents() {
        return Err(ExtentWriteError::NotExtentBased);
    }
    let group: u32 = (inode_num - 1) / sb.inodes_per_group;
    let desc = match gdt.get(group as usize) {
        Ok(d) => *d,
        Err(e) => {
            return Err(ExtentWriteError::GroupDesc(e));
        },
    };
    let (block, offset) = inode::slot(sb, &desc, inode_num);
    match fs_state::fetch_block(dev, txn, sb.block_size, block) {
        Ok(t) => Ok(bytes::copy_range(t.as_slice(), offset, offset + 128)),
        Err(e) => Err(ExtentWriteError::BlockDevice(e)),
    }
}

pub(crate) fn update_iblocks(rec: &mut Vec<u8>, sb: &Superblock, added: u16)
    requires
        sb.wf(),
        old(rec)@.len() == 128,
    ensures
        final(rec)@ == with_more_blocks(old(rec)@, *sb, added),
        final(rec)@.len() == 128,
{
    let per_block: u32 = sb.block_size / 512;
    assert(added * per_block <= 65535 * 128) by (nonlinear_arith)
        requires
            added <= 65535,
            per_block <= 128,
    ;
    let sectors: u32 = added as u32 * per_block;
    let total: u32 = bytes::get_u32_le(rec.as_slice(), 28).saturating_add(sectors);
    bytes::put_u32_le(rec, 28, total);
}

fn count_with_nodes(count: u16, before: ExtentHeader, after: ExtentHeader) -> (n: u16)
    ensures
        forall|a: Seq<u8>, b: Seq<u8>|
            extent::header(a) == before && extent::header(b) == after ==> n
                == #[trigger] with_nodes(count, a, b),
{
    let old: u16 = if before.eh_depth == 0 {
        0
    } else {
        before.eh_entries
    };
    let new: u16 = if after.eh_depth == 0 {
        0
    } else {
        after.eh_entries
    };
    if new <= old {
        count
    } else {
        count.saturating_add(new - old)
    }
}

fn add_idx_to_root(root: &mut Vec<u8>, first: u32, child: u64) -> (r: Result<
    (),
    ExtentWriteError,
>)
    ensures
        match with_child(old(root)@, first, child) {
            Ok(root2) => r is Ok && final(root)@ == root2,
            Err(e) => r is Err && r->Err_0 == e,
        },
        final(root)@.len() == old(root)@.len(),
{
    let h = match parse_header(root.as_slice(), 0) {
        Ok(h) => h,
        Err(e) => {
            return Err(e);
        },
    };
    if h.eh_entries >= h.eh_max {
        return Err(ExtentWriteError::DepthLimitExceeded);
    }
    if 24 + 12 * h.eh_entries as usize > root.len() {
        return Err(ExtentWriteError::CorruptTree(0));
    }
    let entry = make_idx_entry(first, child);
    set_entry(root, h.eh_entries, entry.as_slice());
    set_header(root, h.eh_entries + 1, h.eh_max, h.eh_depth);
    Ok(())
}

pub fn extent_leaf_split<D: BlockDevice>(
    dev: &mut D,
    sb: &Superblock,
    gdt: &mut GroupDescTable,
    txn: &mut Transaction,
    inode_hint: u64,
    leaf_block: u64,
    node: Vec<u8>,
    root: &mut Vec<u8>,
) -> (r: Result<u64, ExtentWriteError>)
    requires
        sb.wf(),
        node@.len() == sb.block_size,
        parsed(node@, leaf_block) is Ok,
    ensures
        final(root)@.len() == old(root)@.len(),
        block_device::same_shape(*old(dev), *final(dev)),
        final(gdt)@.len() == old(gdt)@.len(),
        r is Ok || old(dev).reliable() ==> ({
            let (s, x) = split(
                fs_state::now(*old(dev), *old(txn), *old(gdt)),
                *sb,
                inode_hint,
                leaf_block,
                node@,
                old(root)@,
            );
            &&& fs_state::now(*final(dev), *final(txn), *final(gdt)) == s
            &&& match x {
                Ok((fresh, root2)) => r is Ok && r->Ok_0 == fresh && final(root)@ == root2,
                Err(e) => r is Err && r->Err_0 == e,
            }
        }),
{
    let ghost before = node@;
    let h = extent::read_header(node.as_slice());
    let fresh: u64 = match block_alloc::alloc_blocks(dev, sb, gdt, txn, 1, inode_hint) {
        Ok(b) => b,
        Err(e) => {
            return Err(ExtentWriteError::Alloc(e));
        },
    };
    let keep: u16 = h.eh_entries / 2;
    let mut upper = bytes::zero_vec(sb.block_size as usize);
    set_header(&mut upper, h.eh_entries - keep, h.eh_max, 0);
    let moved = bytes::copy_range(
        node.as_slice(),
        12 + 12 * keep as usize,
        12 + 12 * h.eh_entries as usize,
    );
    bytes::put_bytes(&mut upper, 12, moved.as_slice());
    let mut lower = node;
    set_header(&mut lower, keep, h.eh_max, 0);
    match write_block(dev, sb, txn, Ghost(gdt@), leaf_block, lower) {
        Ok(()) => {},
        Err(e) => {
            return Err(e);
        },
    }
    let first: u32 = bytes::get_u32_le(upper.as_slice(), 12);
    match write_block(dev, sb, txn, Ghost(gdt@), fresh, upper) {
        Ok(()) => {},
        Err(e) => {
            return Err(e);
        },
    }
    match add_idx_to_root(root, first, fresh) {
        Ok(()) => Ok(fresh),
        Err(e) => Err(e),
    }
}

fn append_to_leaf_block<D: BlockDevice>(
    dev: &mut D,
    sb: &Superblock,
    gdt: &mut GroupDescTable,
    txn: &mut Transaction,
    inode_hint: u64,
    leaf_phys: u64,
    entry: &[u8],
    root: &mut Vec<u8>,
) -> (r: Result<(), ExtentWriteError>)
    requires
        sb.wf(),
        entry@.len() == 12,
    ensures
        final(root)@.len() == old(root)@.len(),
        block_device::same_shape(*old(dev), *final(dev)),
        final(gdt)@.len() == old(gdt)@.len(),
        r is Ok || old(dev).reliable() ==> ({
            let (s, x) = leaf_added(
                fs_state::now(*old(dev), *old(txn), *old(gdt)),
                *sb,
                inode_hint,
                leaf_phys,
                entry@,
                old(root)@,
            );
            &&& fs_state::now(*final(dev), *final(txn), *final(gdt)) == s
            &&& match x {
                Ok(root2) => r is Ok && final(root)@ == root2,
                Err(e) => r is Err && r->Err_0 == e,
            }
        }),
{
    let mut node = match read_block(dev, sb, leaf_phys) {
        Ok(d) => d,
        Err(e) => {
            return Err(e);
        },
    };
    let h = match parse_header(node.as_slice(), leaf_phys) {
        Ok(h) => h,
        Err(e) => {
            return Err(e);
        },
    };
    if h.eh_entries < h.eh_max {
        if 24 + 12 * h.eh_entries as usize > node.len() {
            return Err(ExtentWriteError::CorruptTree(leaf_phys));
        }
        set_entry(&mut node, h.eh_entries, entry);
        set_header(&mut node, h.eh_entries + 1, h.eh_max, 0);
        return write_block(dev, sb, txn, Ghost(gdt@), leaf_phys, node);
    }
    let fresh: u64 = match extent_leaf_split(
        dev,
        sb,
        gdt,
        txn,
        inode_hint,
        leaf_phys,
        node,
        root,
    ) {
        Ok(b) => b,
        Err(e) => {
            return Err(e);
        },
    };
    let mut upper = match read_block(dev, sb, fresh) {
        Ok(d) => d,
        Err(e) => {
            return Err(e);
        },
    };
    let h2 = match parse_header(upper.as_slice(), fresh) {
        Ok(h) => h,
        Err(e) => {
            return Err(e);
        },
    };
    if h2.eh_entries >= h2.eh_max {
        return Ok(());
    }
    if 24 + 12 * h2.eh_entries as usize > upper.len() {
        return Err(ExtentWriteError::CorruptTree(fresh));
    }
    set_entry(&mut upper, h2.eh_entries, entry);
    set_header(&mut upper, h2.eh_entries + 1, h2.eh_max, 0);
    write_block(dev, sb, txn, Ghost(gdt@), fresh, upper)
}

pub(crate) fn set_root(rec: &mut Vec<u8>, root: &[u8])
    requires
        old(rec)@.len() == 128,
        root@.len() == 60,
    ensures
        final(rec)@ == with_root(old(rec)@, root@),
        final(rec)@.len() == 128,
{
    bytes::put_bytes(rec, 40, root);
}

pub(crate) fn extent_tree_grow<D: BlockDevice>(
    dev: &mut D,
    sb: &Superblock,
    gdt: &mut GroupDescTable,
    txn: &mut Transaction,
    inode_num: u32,
    rec: &mut Vec<u8>,
) -> (r: Result<(), ExtentWriteError>)
    requires
        sb.wf(),
        inode_num > 0,
        inode::group_of(*sb, inode_num) < old(gdt)@.len(),
        old(rec)@.len() == 128,
        parsed(root_of(old(rec)@), 0) is Ok,
        extent::header(root_of(old(rec)@)).eh_depth < extent::MAX_DEPTH,
    ensures
        final(rec)@.len() == 128,
        r is Ok ==> extent::header(root_of(final(rec)@)).eh_depth == extent::header(
            root_of(old(rec)@),
        ).eh_depth + 1,
        block_device::same_shape(*old(dev), *final(dev)),
        final(gdt)@.len() == old(gdt)@.len(),
        r is Ok || old(dev).reliable() ==> ({
            let (s, x) = grown(
                fs_state::now(*old(dev), *old(txn), *old(gdt)),
                *sb,
                inode_num,
                old(rec)@,
            );
            &&& fs_state::now(*final(dev), *final(txn), *final(gdt)) == s
            &&& match x {
                Ok(rec2) => r is Ok && final(rec)@ == rec2,
                Err(e) => r is Err && r->Err_0 == e,
            }
        }),
{
    let root = bytes::copy_range(rec.as_slice(), 40, 100);
    let h = extent::read_header(root.as_slice());
    let fresh: u64 = match block_alloc::alloc_blocks(dev, sb, gdt, txn, 1, inode_num as u64) {
        Ok(b) => b,
        Err(e) => {
            return Err(ExtentWriteError::Alloc(e));
        },
    };
    let capacity: u16 = ((sb.block_size - 12) / 12) as u16;
    let mut child = bytes::zero_vec(sb.block_size as usize);
    set_header(&mut child, h.eh_entries, capacity, h.eh_depth);
    let moved = bytes::copy_range(root.as_slice(), 12, 12 + 12 * h.eh_entries as usize);
    bytes::put_bytes(&mut child, 12, moved.as_slice());
    match write_block(dev, sb, txn, Ghost(gdt@), fresh, child) {
        Ok(()) => {},
        Err(e) => {
            return Err(e);
        },
    }
    let mut root2 = bytes::zero_vec(60);
    set_header(&mut root2, 1, ROOT_MAX_ENTRIES, h.eh_depth + 1);
    let idx = make_idx_entry(0, fresh);
    bytes::put_bytes(&mut root2, 12, idx.as_slice());
    set_root(rec, root2.as_slice());
    proof {
        lemma_header(bytes::zeros(60), 1, ROOT_MAX_ENTRIES, (h.eh_depth + 1) as u16);
        assert(root_of(rec@) =~= root2@);
    }
    flush_record(dev, sb, gdt, txn, inode_num, rec.as_slice())
}

fn find_rightmost_leaf<D: BlockDevice>(dev: &D, sb: &Superblock, node: &[u8], depth: u16) -> (r:
    Result<u64, ExtentWriteError>)
    requires
        sb.wf(),
    ensures
        r is Ok || dev.reliable() ==> r == rightmost(
            dev.bytes(),
            sb.block_size,
            node@,
            depth as nat,
        ),
    decreases depth,
{
    let h = match parse_header(node, 0) {
        Ok(h) => h,
        Err(e) => {
            return Err(e);
        },
    };
    if h.eh_entries == 0 {
        return Err(ExtentWriteError::CorruptTree(0));
    }
    let idx = extent::read_idx(node, 12 * h.eh_entries as usize);
    if depth <= 1 {
        return Ok(idx.child_block());
    }
    let child = match read_block(dev, sb, idx.child_block()) {
        Ok(d) => d,
        Err(e) => {
            return Err(e);
        },
    };
    find_rightmost_leaf(dev, sb, child.as_slice(), depth - 1)
}

fn try_coalesce_leaf_block<D: BlockDevice>(
    dev: &mut D,
    sb: &Superblock,
    txn: &mut Transaction,
    Ghost(g): Ghost<Seq<crate::group_desc::GroupDesc>>,
    leaf_phys: u64,
    phys_start: u64,
    block_count: u16,
) -> (r: Result<bool, ExtentWriteError>)
    requires
        sb.wf(),
    ensures
        block_device::same_shape(*old(dev), *final(dev)),
        r is Ok || old(dev).reliable() ==> (
            (FsState { disk: final(dev).bytes(), txn: final(txn)@, gdt: g }),
            r,
        ) == block_coalesced(
            FsState { disk: old(dev).bytes(), txn: old(txn)@, gdt: g },
            *sb,
            leaf_phys,
            phys_start,
            block_count,
        ),
{
    let mut node = match fs_state::fetch_block(dev, txn, sb.block_size, leaf_phys) {
        Ok(d) => d,
        Err(e) => {
            return Err(ExtentWriteError::BlockDevice(e));
        },
    };
    match parse_header(node.as_slice(), leaf_phys) {
        Ok(_) => {},
        Err(e) => {
            return Err(e);
        },
    }
    if try_coalesce(&mut node, phys_start, block_count) {
        match write_block(dev, sb, txn, Ghost(g), leaf_phys, node) {
            Ok(()) => Ok(true),
            Err(e) => Err(e),
        }
    } else {
        Ok(false)
    }
}

fn append_flat<D: BlockDevice>(
    dev: &mut D,
    sb: &Superblock,
    gdt: &mut GroupDescTable,
    txn: &mut Transaction,
    inode_num: u32,
    rec: Vec<u8>,
    phys_start: u64,
    block_count: u16,
) -> (r: Result<(), ExtentWriteError>)
    requires
        sb.wf(),
        inode_num > 0,
        inode::group_of(*sb, inode_num) < old(gdt)@.len(),
        rec@.len() == 128,
        parsed(root_of(rec@), 0) is Ok,
        extent::header(root_of(rec@)).eh_depth == 0,
    ensures
        block_device::same_shape(*old(dev), *final(dev)),
        final(gdt)@.len() == old(gdt)@.len(),
        r is Ok || old(dev).reliable() ==> (
            fs_state::now(*final(dev), *final(txn), *final(gdt)),
            r,
        ) == appended_flat(
            fs_state::now(*old(dev), *old(txn), *old(gdt)),
            *sb,
            inode_num,
            rec@,
            phys_start,
            block_count,
        ),
{
    let mut rec = rec;
    let mut root = bytes::copy_range(rec.as_slice(), 40, 100);
    let h = extent::read_header(root.as_slice());
    if try_coalesce(&mut root, phys_start, block_count) {
        set_root(&mut rec, root.as_slice());
        update_iblocks(&mut rec, sb, block_count);
        return flush_record(dev, sb, gdt, txn, inode_num, rec.as_slice());
    }
    let logical: u32 = next_logical_block(root.as_slice());
    let entry = make_leaf_entry(logical, block_count, phys_start);
    if h.eh_entries < h.eh_max {
        if 24 + 12 * h.eh_entries as usize > 60 {
            return Err(ExtentWriteError::CorruptTree(0));
        }
        set_entry(&mut root, h.eh_entries, entry.as_slice());
        set_header(&mut root, h.eh_entries + 1, h.eh_max, 0);
        set_root(&mut rec, root.as_slice());
        update_iblocks(&mut rec, sb, block_count);
        return flush_record(dev, sb, gdt, txn, inode_num, rec.as_slice());
    }
    match extent_tree_grow(dev, sb, gdt, txn, inode_num, &mut rec) {
        Ok(()) => {},
        Err(e) => {
            return Err(e);
        },
    }
    let mut root2 = bytes::copy_range(rec.as_slice(), 40, 100);
    let idx = extent::read_idx(root2.as_slice(), 12);
    match append_to_leaf_block(
        dev,
        sb,
        gdt,
        txn,
        inode_num as u64,
        idx.child_block(),
        entry.as_slice(),
        &mut root2,
    ) {
        Ok(()) => {},
        Err(e) => {
            return Err(e);
        },
    }
    let grown = extent::read_header(root2.as_slice());
    set_root(&mut rec, root2.as_slice());
    update_iblocks(&mut rec, sb, count_with_nodes(block_count, h, grown));
    flush_record(dev, sb, gdt, txn, inode_num, rec.as_slice())
}

fn append_deep<D: BlockDevice>(
    dev: &mut D,
    sb: &Superblock,
    gdt: &mut GroupDescTable,
    txn: &mut Transaction,
    inode_num: u32,
    rec: Vec<u8>,
    phys_start: u64,
    block_count: u16,
) -> (r: Result<(), ExtentWriteError>)
    requires
        sb.wf(),
        inode_num > 0,
        inode::group_of(*sb, inode_num) < old(gdt)@.len(),
        rec@.len() == 128,
        parsed(root_of(rec@), 0) is Ok,
    ensures
        block_device::same_shape(*old(dev), *final(dev)),
        final(gdt)@.len() == old(gdt)@.len(),
        r is Ok || old(dev).reliable() ==> (
            fs_state::now(*final(dev), *final(txn), *final(gdt)),
            r,
        ) == appended_deep(
            fs_state::now(*old(dev), *old(txn), *old(gdt)),
            *sb,
            inode_num,
            rec@,
            phys_start,
            block_count,
        ),
{
    let mut rec = rec;
    let mut root = bytes::copy_range(rec.as_slice(), 40, 100);
    let h = extent::read_header(root.as_slice());
    let leaf_phys: u64 = match find_rightmost_leaf(dev, sb, root.as_slice(), h.eh_depth) {
        Ok(b) => b,
        Err(e) => {
            return Err(e);
        },
    };
    match try_coalesce_leaf_block(
        dev,
        sb,
        txn,
        Ghost(gdt@),
        leaf_phys,
        phys_start,
        block_count,
    ) {
        Ok(true) => {
            update_iblocks(&mut rec, sb, block_count);
            return flush_record(dev, sb, gdt, txn, inode_num, rec.as_slice());
        },
        Ok(false) => {},
        Err(e) => {
            return Err(e);
        },
    }
    let node = match read_block(dev, sb, leaf_phys) {
        Ok(d) => d,
        Err(e) => {
            return Err(e);
        },
    };
    let nh = match parse_header(node.as_slice(), leaf_phys) {
        Ok(nh) => nh,
        Err(e) => {
            return Err(e);
        },
    };
    let logical: u32 = next_logical_block(node.as_slice());
    if nh.eh_entries >= nh.eh_max && (h.eh_depth > 1 || h.eh_entries >= h.eh_max) && block_count
        <= MAX_INIT_LEN {
        return extent_insert::extent_insert(
            dev,
            sb,
            gdt,
            txn,
            inode_num,
            logical as u64,
            phys_start,
            block_count,
        );
    }
    let entry = make_leaf_entry(logical, block_count, phys_start);
    match append_to_leaf_block(
        dev,
        sb,
        gdt,
        txn,
        inode_num as u64,
        leaf_phys,
        entry.as_slice(),
        &mut root,
    ) {
        Ok(()) => {},
        Err(e) => {
            return Err(e);
        },
    }
    let grown = extent::read_header(root.as_slice());
    set_root(&mut rec, root.as_slice());
    update_iblocks(&mut rec, sb, count_with_nodes(block_count, h, grown));
    flush_record(dev, sb, gdt, txn, inode_num, rec.as_slice())
}

pub(crate) fn append<D: BlockDevice>(
    dev: &mut D,
    sb: &Superblock,
    gdt: &mut GroupDescTable,
    txn: &mut Transaction,
    inode_num: u32,
    phys_start: u64,
    block_count: u16,
) -> (r: Result<(), ExtentWriteError>)
    requires
        sb.wf(),
    ensures
        block_device::same_shape(*old(dev), *final(dev)),
        final(gdt)@.len() == old(gdt)@.len(),
        r is Ok || old(dev).reliable() ==> (
            fs_state::now(*final(dev), *final(txn), *final(gdt)),
            r,
        ) == appended(
            fs_state::now(*old(dev), *old(txn), *old(gdt)),
            *sb,
            inode_num,
            phys_start,
            block_count,
        ),
{
    let rec = match open_record(dev, sb, gdt, txn, inode_num) {
        Ok(rec) => rec,
        Err(e) => {
            return Err(e);
        },
    };
    let root = bytes::copy_range(rec.as_slice(), 40, 100);
    let h = match parse_header(root.as_slice(), 0) {
        Ok(h) => h,
        Err(e) => {
            return Err(e);
        },
    };
    if h.eh_depth == 0 {
        append_flat(dev, sb, gdt, txn, inode_num, rec, phys_start, block_count)
    } else {
        append_deep(dev, sb, gdt, txn, inode_num, rec, phys_start, block_count)
    }
}

/// Append `block_count` newly allocated blocks from `phys_start` on to the
/// extent tree of `inode_num`, and update the inode on disk.
///
/// Where the new blocks continue the last extent on disk, and the longer extent
/// stays within 32768 blocks, that extent is made longer. So a sequential write
/// gives one extent, not one for each block.
pub fn extent_append<D: BlockDevice>(
    dev: &mut D,
    sb: &Superblock,
    txn: &mut Transaction,
    inode_num: u32,
    phys_start: u64,
    block_count: u16,
    alloc: &mut Allocator,
) -> (r: Result<(), ExtentWriteError>)
    requires
        sb.wf(),
    ensures
        final(alloc).sb == old(alloc).sb,
        *final(final(alloc).gdt) == *final(old(alloc).gdt),
        block_device::same_shape(*old(dev), *final(dev)),
        r is Ok || old(dev).reliable() ==> (
            (FsState { disk: final(dev).bytes(), txn: final(txn)@, gdt: final(alloc).table() }),
            r,
        ) == appended(
            FsState { disk: old(dev).bytes(), txn: old(txn)@, gdt: old(alloc).table() },
            *sb,
            inode_num,
            phys_start,
            block_count,
        ),
{
    append(dev, sb, alloc.gdt, txn, inode_num, phys_start, block_count)
}

fn free_one<D: BlockDevice>(
    dev: &mut D,
    sb: &Superblock,
    gdt: &mut GroupDescTable,
    txn: &mut Transaction,
    b: u64,
) -> (r: Result<(), ExtentWriteError>)
    requires
        sb.wf(),
    ensures
        block_device::same_shape(*old(dev), *final(dev)),
        final(gdt)@.len() == old(gdt)@.len(),
        r is Ok || old(dev).reliable() ==> (
            fs_state::now(*final(dev), *final(txn), *final(gdt)),
            r,
        ) == block_freed(fs_state::now(*old(dev), *old(txn), *old(gdt)), *sb, b),
{
    match block_alloc::free_block(dev, sb, gdt, txn, b) {
        Ok(()) => {},
        Err(e) => {
            return Err(ExtentWriteError::Alloc(e));
        },
    }
    txn.revoke_block(b);
    Ok(())
}

fn free_run<D: BlockDevice>(
    dev: &mut D,
    sb: &Superblock,
    gdt: &mut GroupDescTable,
    txn: &mut Transaction,
    start: u64,
    n: u64,
) -> (r: Result<(), ExtentWriteError>)
    requires
        sb.wf(),
        start + n <= u64::MAX,
    ensures
        block_device::same_shape(*old(dev), *final(dev)),
        final(gdt)@.len() == old(gdt)@.len(),
        r is Ok || old(dev).reliable() ==> (
            fs_state::now(*final(dev), *final(txn), *final(gdt)),
            r,
        ) == run_freed(fs_state::now(*old(dev), *old(txn), *old(gdt)), *sb, start, n as int),
{
    let mut i: u64 = 0;
    while i < n
        invariant
            sb.wf(),
            block_device::same_shape(*old(dev), *dev),
            gdt@.len() == old(gdt)@.len(),
            start + n <= u64::MAX,
            i <= n,
            run_freed(
                fs_state::now(*old(dev), *old(txn), *old(gdt)),
                *sb,
                start,
                n as int,
            ) == run_freed(
                fs_state::now(*dev, *txn, *gdt),
                *sb,
                (start + i) as u64,
                n - i,
            ),
        decreases n - i,
    {
        match free_one(dev, sb, gdt, txn, start + i) {
            Ok(()) => {},
            Err(e) => {
                return Err(e);
            },
        }
        i = i + 1;
    }
    Ok(())
}

fn truncate_leaf<D: BlockDevice>(
    dev: &mut D,
    sb: &Superblock,
    gdt: &mut GroupDescTable,
    txn: &mut Transaction,
    node: &mut Vec<u8>,
    entries: u16,
    keep_from: u32,
) -> (r: Result<u16, ExtentWriteError>)
    requires
        sb.wf(),
        extent::entry_offset(entries as int) <= old(node).len(),
    ensures
        final(node)@.len() == old(node)@.len(),
        r is Ok ==> r->Ok_0 <= entries,
        block_device::same_shape(*old(dev), *final(dev)),
        final(gdt)@.len() == old(gdt)@.len(),
        r is Ok || old(dev).reliable() ==> ({
            let (s, x) = leaf_truncated(
                fs_state::now(*old(dev), *old(txn), *old(gdt)),
                *sb,
                old(node)@,
                0,
                entries as int,
                keep_from,
            );
            &&& fs_state::now(*final(dev), *final(txn), *final(gdt)) == s
            &&& match x {
                Ok((node2, left)) => r is Ok && r->Ok_0 == left && final(node)@ == node2,
                Err(e) => r is Err && r->Err_0 == e,
            }
        }),
{
    let mut n: u16 = entries;
    let mut i: u16 = 0;
    while i < n
        invariant
            sb.wf(),
            block_device::same_shape(*old(dev), *dev),
            gdt@.len() == old(gdt)@.len(),
            i <= n <= entries,
            node@.len() == old(node)@.len(),
            extent::entry_offset(entries as int) <= node.len(),
            leaf_truncated(
                fs_state::now(*old(dev), *old(txn), *old(gdt)),
                *sb,
                old(node)@,
                0,
                entries as int,
                keep_from,
            )
                == leaf_truncated(
                    fs_state::now(*dev, *txn, *gdt),
                    *sb,
                    node@,
                    i as int,
                    n as int,
                    keep_from,
                ),
        decreases n - i,
    {
        let off: usize = 12 + 12 * i as usize;
        let leaf = extent::read_leaf(node.as_slice(), off);
        let first: u32 = leaf.ee_block;
        let len: u16 = leaf.length();
        let end: u32 = first.saturating_add(len as u32);
        let phys: u64 = leaf.start();
        if first >= keep_from {
            match free_run(dev, sb, gdt, txn, phys, len as u64) {
                Ok(()) => {},
                Err(e) => {
                    return Err(e);
                },
            }
            remove_entry(node, i, n);
            n = n - 1;
        } else if end > keep_from {
            let kept: u16 = (keep_from - first) as u16;
            match free_run(dev, sb, gdt, txn, phys + kept as u64, (end - keep_from) as u64) {
                Ok(()) => {},
                Err(e) => {
                    return Err(e);
                },
            }
            let new_len: u16 = if leaf.ee_len > MAX_INIT_LEN {
                kept + MAX_INIT_LEN
            } else {
                kept
            };
            bytes::put_u16_le(node, off + 4, new_len);
            i = i + 1;
        } else {
            i = i + 1;
        }
    }
    Ok(n)
}

fn free_leaves<D: BlockDevice>(
    dev: &mut D,
    sb: &Superblock,
    gdt: &mut GroupDescTable,
    txn: &mut Transaction,
    node: &[u8],
    entries: u16,
) -> (r: Result<(), ExtentWriteError>)
    requires
        sb.wf(),
        extent::entry_offset(entries as int) <= node.len(),
    ensures
        block_device::same_shape(*old(dev), *final(dev)),
        final(gdt)@.len() == old(gdt)@.len(),
        r is Ok || old(dev).reliable() ==> (
            fs_state::now(*final(dev), *final(txn), *final(gdt)),
            r,
        ) == leaves_freed(
            fs_state::now(*old(dev), *old(txn), *old(gdt)),
            *sb,
            node@,
            0,
            entries as int,
        ),
{
    let mut i: u16 = 0;
    while i < entries
        invariant
            sb.wf(),
            block_device::same_shape(*old(dev), *dev),
            gdt@.len() == old(gdt)@.len(),
            i <= entries,
            extent::entry_offset(entries as int) <= node.len(),
            leaves_freed(
                fs_state::now(*old(dev), *old(txn), *old(gdt)),
                *sb,
                node@,
                0,
                entries as int,
            ) == leaves_freed(
                fs_state::now(*dev, *txn, *gdt),
                *sb,
                node@,
                i as int,
                entries as int,
            ),
        decreases entries - i,
    {
        let leaf = extent::read_leaf(node, 12 + 12 * i as usize);
        match free_run(dev, sb, gdt, txn, leaf.start(), leaf.length() as u64) {
            Ok(()) => {},
            Err(e) => {
                return Err(e);
            },
        }
        i = i + 1;
    }
    Ok(())
}

fn free_subtree<D: BlockDevice>(
    dev: &mut D,
    sb: &Superblock,
    gdt: &mut GroupDescTable,
    txn: &mut Transaction,
    block_phys: u64,
    depth: u16,
) -> (r: Result<(), ExtentWriteError>)
    requires
        sb.wf(),
    ensures
        block_device::same_shape(*old(dev), *final(dev)),
        final(gdt)@.len() == old(gdt)@.len(),
        r is Ok || old(dev).reliable() ==> (
            fs_state::now(*final(dev), *final(txn), *final(gdt)),
            r,
        ) == subtree_freed(
            fs_state::now(*old(dev), *old(txn), *old(gdt)),
            *sb,
            block_phys,
            depth as nat,
        ),
    decreases depth,
{
    let node = match read_block(dev, sb, block_phys) {
        Ok(d) => d,
        Err(e) => {
            return Err(e);
        },
    };
    let h = match parse_header(node.as_slice(), block_phys) {
        Ok(h) => h,
        Err(e) => {
            return Err(e);
        },
    };
    let entries: u16 = h.eh_entries;
    if depth == 0 {
        match free_leaves(dev, sb, gdt, txn, node.as_slice(), entries) {
            Ok(()) => {},
            Err(e) => {
                return Err(e);
            },
        }
    } else {
        let mut i: u16 = 0;
        while i < entries
            invariant
                sb.wf(),
                block_device::same_shape(*old(dev), *dev),
                gdt@.len() == old(gdt)@.len(),
                depth > 0,
                i <= entries,
                extent::entry_offset(entries as int) <= node.len(),
                children_freed(
                    fs_state::now(*old(dev), *old(txn), *old(gdt)),
                    *sb,
                    node@,
                    0,
                    entries as int,
                    depth as nat,
                )
                    == children_freed(
                    fs_state::now(*dev, *txn, *gdt),
                    *sb,
                    node@,
                    i as int,
                    entries as int,
                    depth as nat,
                ),
                h == extent::header(node@),
                entries == h.eh_entries,
                parsed(node@, block_phys) == Ok::<ExtentHeader, ExtentWriteError>(h),
                block_device::block_at(old(dev).bytes(), sb.block_size, block_phys) == Ok::<
                    Seq<u8>,
                    BlockDeviceError,
                >(node@),
            decreases entries - i,
        {
            let idx = extent::read_idx(node.as_slice(), 12 + 12 * i as usize);
            match free_subtree(dev, sb, gdt, txn, idx.child_block(), depth - 1) {
                Ok(()) => {},
                Err(e) => {
                    return Err(e);
                },
            }
            i = i + 1;
        }
    }
    free_one(dev, sb, gdt, txn, block_phys)
}

fn truncate_node<D: BlockDevice>(
    dev: &mut D,
    sb: &Superblock,
    gdt: &mut GroupDescTable,
    txn: &mut Transaction,
    node: &mut Vec<u8>,
    depth: u16,
    keep_from: u32,
    is_root: bool,
) -> (r: Result<bool, ExtentWriteError>)
    requires
        sb.wf(),
    ensures
        final(node)@.len() == old(node)@.len(),
        r is Ok ==> parsed(final(node)@, 0) is Ok,
        block_device::same_shape(*old(dev), *final(dev)),
        final(gdt)@.len() == old(gdt)@.len(),
        r is Ok || old(dev).reliable() ==> ({
            let (s, x) = node_truncated(
                fs_state::now(*old(dev), *old(txn), *old(gdt)),
                *sb,
                old(node)@,
                depth as nat,
                keep_from,
                is_root,
            );
            &&& fs_state::now(*final(dev), *final(txn), *final(gdt)) == s
            &&& match x {
                Ok((node2, empty)) => r is Ok && r->Ok_0 == empty && final(node)@ == node2,
                Err(e) => r is Err && r->Err_0 == e,
            }
        }),
    decreases depth,
{
    let h = match parse_header(node.as_slice(), 0) {
        Ok(h) => h,
        Err(e) => {
            return Err(e);
        },
    };
    let entries: u16 = h.eh_entries;
    if depth == 0 {
        let left: u16 = match truncate_leaf(dev, sb, gdt, txn, node, entries, keep_from) {
            Ok(n) => n,
            Err(e) => {
                return Err(e);
            },
        };
        proof {
            lemma_header(node@, left as int, h.eh_max, 0);
        }
        set_header(node, left, h.eh_max, 0);
        return Ok(left == 0);
    }
    let mut n: u16 = entries;
    let mut i: u16 = 0;
    while i < n
        invariant
            sb.wf(),
            block_device::same_shape(*old(dev), *dev),
            gdt@.len() == old(gdt)@.len(),
            depth > 0,
            i <= n <= entries,
            node@.len() == old(node)@.len(),
            extent::entry_offset(entries as int) <= node.len(),
            h == extent::header(old(node)@),
            entries == h.eh_entries,
            parsed(old(node)@, 0) == Ok::<ExtentHeader, ExtentWriteError>(h),
            children_truncated(
                fs_state::now(*old(dev), *old(txn), *old(gdt)),
                *sb,
                old(node)@,
                0,
                entries as int,
                depth as nat,
                keep_from,
            ) == children_truncated(
                fs_state::now(*dev, *txn, *gdt),
                *sb,
                node@,
                i as int,
                n as int,
                depth as nat,
                keep_from,
            ),
        decreases n - i,
    {
        let idx = extent::read_idx(node.as_slice(), 12 + 12 * i as usize);
        let child_phys: u64 = idx.child_block();
        if idx.ei_block >= keep_from && keep_from > 0 {
            match free_subtree(dev, sb, gdt, txn, child_phys, depth - 1) {
                Ok(()) => {},
                Err(e) => {
                    return Err(e);
                },
            }
            remove_entry(node, i, n);
            n = n - 1;
        } else {
            let mut child = match read_block(dev, sb, child_phys) {
                Ok(d) => d,
                Err(e) => {
                    return Err(e);
                },
            };
            match truncate_node(dev, sb, gdt, txn, &mut child, depth - 1, keep_from, false) {
                Ok(true) => {
                    match free_one(dev, sb, gdt, txn, child_phys) {
                        Ok(()) => {},
                        Err(e) => {
                            return Err(e);
                        },
                    }
                    remove_entry(node, i, n);
                    n = n - 1;
                },
                Ok(false) => {
                    match write_block(dev, sb, txn, Ghost(gdt@), child_phys, child) {
                        Ok(()) => {},
                        Err(e) => {
                            return Err(e);
                        },
                    }
                    i = i + 1;
                },
                Err(e) => {
                    return Err(e);
                },
            }
        }
    }
    proof {
        lemma_header(node@, n as int, h.eh_max, depth);
    }
    set_header(node, n, h.eh_max, depth);
    Ok(n == 0 && !is_root)
}

fn count_leaf(node: &[u8], sb: &Superblock) -> (r: u32)
    requires
        sb.wf(),
        parsed(node@, 0) is Ok,
    ensures
        r == sectors_of(node@, *sb, extent::header(node@).eh_entries as int),
{
    let h = extent::read_header(node);
    let per_block: u32 = sb.block_size / 512;
    let mut total: u32 = 0;
    let mut i: u16 = 0;
    while i < h.eh_entries
        invariant
            sb.wf(),
            per_block == sb.block_size / 512,
            h == extent::header(node@),
            parsed(node@, 0) is Ok,
            i <= h.eh_entries,
            total == sectors_of(node@, *sb, i as int),
        decreases h.eh_entries - i,
    {
        let leaf = extent::read_leaf(node, 12 + 12 * i as usize);
        let len: u32 = leaf.length() as u32;
        assert(len * per_block <= 32768 * 128) by (nonlinear_arith)
            requires
                len <= 32768,
                per_block <= 128,
        ;
        total = total.saturating_add(len * per_block);
        i = i + 1;
    }
    total
}

/// A child that cannot be counted stops the count.
proof fn lemma_uncounted(
    disk: Seq<u8>,
    sb: Superblock,
    node: Seq<u8>,
    depth: nat,
    i: int,
    k: int,
)
    requires
        0 < i <= k,
        depth > 0,
    ensures
        sectors_of_children(disk, sb, node, depth, i) is Err ==> sectors_of_children(
            disk,
            sb,
            node,
            depth,
            k,
        ) == sectors_of_children(disk, sb, node, depth, i),
    decreases k - i,
{
    if i < k {
        lemma_uncounted(disk, sb, node, depth, i, k - 1);
    }
}

fn count_iblocks<D: BlockDevice>(dev: &D, sb: &Superblock, node: &[u8], depth: u16) -> (r: Result<
    u32,
    ExtentWriteError,
>)
    requires
        sb.wf(),
        parsed(node@, 0) is Ok,
    ensures
        r is Ok || dev.reliable() ==> r == sectors_under(dev.bytes(), *sb, node@, depth as nat),
    decreases depth,
{
    if depth == 0 {
        return Ok(count_leaf(node, sb));
    }
    let h = extent::read_header(node);
    let per_block: u32 = sb.block_size / 512;
    let mut total: u32 = 0;
    let mut i: u16 = 0;
    while i < h.eh_entries
        invariant
            sb.wf(),
            depth > 0,
            per_block == sb.block_size / 512,
            h == extent::header(node@),
            parsed(node@, 0) is Ok,
            i <= h.eh_entries,
            sectors_of_children(dev.bytes(), *sb, node@, depth as nat, i as int) == Ok::<
                u32,
                ExtentWriteError,
            >(total),
        decreases h.eh_entries - i,
    {
        let at: u64 = extent::read_idx(node, 12 + 12 * i as usize).child_block();
        proof {
            lemma_uncounted(dev.bytes(), *sb, node@, depth as nat, i + 1, h.eh_entries as int);
        }
        let child = match read_block(dev, sb, at) {
            Ok(c) => c,
            Err(e) => {
                return Err(e);
            },
        };
        match parse_header(child.as_slice(), at) {
            Ok(_) => {},
            Err(e) => {
                return Err(e);
            },
        }
        let below: u32 = match count_iblocks(dev, sb, child.as_slice(), depth - 1) {
            Ok(n) => n,
            Err(e) => {
                return Err(e);
            },
        };
        total = total.saturating_add(per_block).saturating_add(below);
        i = i + 1;
    }
    Ok(total)
}

pub(crate) fn truncate<D: BlockDevice>(
    dev: &mut D,
    sb: &Superblock,
    gdt: &mut GroupDescTable,
    txn: &mut Transaction,
    inode_num: u32,
    keep_from: u32,
) -> (r: Result<(), ExtentWriteError>)
    requires
        sb.wf(),
    ensures
        block_device::same_shape(*old(dev), *final(dev)),
        final(gdt)@.len() == old(gdt)@.len(),
        r is Ok || old(dev).reliable() ==> (
            fs_state::now(*final(dev), *final(txn), *final(gdt)),
            r,
        ) == truncated(fs_state::now(*old(dev), *old(txn), *old(gdt)), *sb, inode_num, keep_from),
{
    let mut rec = match open_record(dev, sb, gdt, txn, inode_num) {
        Ok(rec) => rec,
        Err(e) => {
            return Err(e);
        },
    };
    let mut root = bytes::copy_range(rec.as_slice(), 40, 100);
    let h = match parse_header(root.as_slice(), 0) {
        Ok(h) => h,
        Err(e) => {
            return Err(e);
        },
    };
    match truncate_node(dev, sb, gdt, txn, &mut root, h.eh_depth, keep_from, true) {
        Ok(_) => {},
        Err(e) => {
            return Err(e);
        },
    }
    let sectors: u32 = match count_iblocks(dev, sb, root.as_slice(), h.eh_depth) {
        Ok(n) => n,
        Err(e) => {
            return Err(e);
        },
    };
    let left = extent::read_header(root.as_slice());
    if left.eh_entries == 0 {
        set_header(&mut root, 0, left.eh_max, 0);
    }
    set_root(&mut rec, root.as_slice());
    bytes::put_u32_le(&mut rec, 28, sectors);
    flush_record(dev, sb, gdt, txn, inode_num, rec.as_slice())
}

/// Free every block of the file from logical block `keep_from` on, and the
/// tree nodes that only lead there. With `keep_from` zero the whole tree goes,
/// inner nodes too.
pub fn extent_truncate<D: BlockDevice>(
    dev: &mut D,
    sb: &Superblock,
    alloc: &mut Allocator,
    txn: &mut Transaction,
    inode_num: u32,
    keep_from: u32,
) -> (r: Result<(), ExtentWriteError>)
    requires
        sb.wf(),
    ensures
        final(alloc).sb == old(alloc).sb,
        *final(final(alloc).gdt) == *final(old(alloc).gdt),
        block_device::same_shape(*old(dev), *final(dev)),
        r is Ok || old(dev).reliable() ==> (
            (FsState { disk: final(dev).bytes(), txn: final(txn)@, gdt: final(alloc).table() }),
            r,
        ) == truncated(
            FsState { disk: old(dev).bytes(), txn: old(txn)@, gdt: old(alloc).table() },
            *sb,
            inode_num,
            keep_from,
        ),
{
    truncate(dev, sb, alloc.gdt, txn, inode_num, keep_from)
}

} // verus!
