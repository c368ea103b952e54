//! Mapping blocks at a given place of an extent tree.
use vstd::prelude::*;
use crate::allocator::block_alloc;
use crate::block_device;
use crate::block_device::BlockDevice;
use crate::bytes;
use crate::extent;
use crate::extent::{MAX_DEPTH, MAX_INIT_LEN};
use crate::extent_write;
use crate::extent_write::ExtentWriteError;
use crate::fs_state;
use crate::fs_state::FsState;
use crate::group_desc::GroupDescTable;
use crate::inode;
use crate::journal::writer::Transaction;
use crate::superblock::Superblock;

verus! {

broadcast use crate::bytes::group_codec;

/// Behind the last logical block that an extent can map.
pub const LOGICAL_LIMIT: u64 = 0x1_0000_0000;

/// The first logical block of entry `i` of a node.
pub open spec fn key_at(node: Seq<u8>, i: int) -> u32 {
    bytes::le32(node, extent::entry_offset(i))
}

/// Behind the last of the first `n` entries that starts at `at` or before.
pub open spec fn place(node: Seq<u8>, at: u32, n: int) -> int
    decreases n,
{
    if n <= 0 {
        0
    } else if key_at(node, n - 1) <= at {
        n
    } else {
        place(node, at, n - 1)
    }
}

/// The child that logical block `at` belongs to: the last one that starts there or
/// before, or the first.
pub open spec fn child_place(node: Seq<u8>, at: u32, n: int) -> int {
    let i = place(node, at, n);
    if i > 0 {
        i - 1
    } else {
        0
    }
}

/// The node with an entry put in at position `i`: those from there on move down.
pub open spec fn with_inserted(node: Seq<u8>, i: int, entry: Seq<u8>) -> Seq<u8> {
    let h = extent::header(node);
    let n = h.eh_entries as int;
    extent_write::with_header(
        extent_write::with_entry(
            bytes::put(
                node,
                extent::entry_offset(i + 1),
                node.subrange(extent::entry_offset(i), extent::entry_offset(n)),
            ),
            i,
            entry,
        ),
        n + 1,
        h.eh_max,
        h.eh_depth,
    )
}

/// The first `keep` entries of a node.
pub open spec fn lower_half(node: Seq<u8>, keep: int) -> Seq<u8> {
    let h = extent::header(node);
    extent_write::with_header(node, keep, h.eh_max, h.eh_depth)
}

/// The other entries, in a block of their own.
pub open spec fn upper_half(node: Seq<u8>, bs: u32, keep: int) -> Seq<u8> {
    let h = extent::header(node);
    bytes::put(
        extent_write::with_header(
            bytes::zeros(bs as int),
            h.eh_entries - keep,
            h.eh_max,
            h.eh_depth,
        ),
        12,
        node.subrange(
            extent::entry_offset(keep),
            extent::entry_offset(h.eh_entries as int),
        ),
    )
}

/// A node after something was put into it: its bytes, the first logical block and the
/// block of the node that was split off it, and how many blocks were taken for nodes.
pub struct Put {
    pub node: Seq<u8>,
    pub split: Option<(u32, u64)>,
    pub taken: int,
}

/// Putting an entry into a node that lies in block `b`, at position `i`. A node that
/// is full is split in two halves.
pub open spec fn entry_put(
    st: FsState,
    sb: Superblock,
    hint: u64,
    node: Seq<u8>,
    b: u64,
    i: int,
    entry: Seq<u8>,
) -> (FsState, Result<Put, ExtentWriteError>) {
    let h = extent::header(node);
    let n = h.eh_entries as int;
    if n < h.eh_max {
        if extent::entry_offset(n + 1) > node.len() {
            (st, Err(ExtentWriteError::CorruptTree(b)))
        } else {
            (st, Ok(Put { node: with_inserted(node, i, entry), split: None, taken: 0 }))
        }
    } else if n < 2 || extent::entry_offset(n) > sb.block_size {
        (st, Err(ExtentWriteError::CorruptTree(b)))
    } else {
        let keep = n / 2;
        let (s1, r1) = block_alloc::allocated(st, sb, 1, hint);
        match r1 {
            Err(e) => (s1, Err(ExtentWriteError::Alloc(e))),
            Ok(fresh) => {
                let low = lower_half(node, keep);
                let high = upper_half(node, sb.block_size, keep);
                let low2 = if i <= keep {
                    with_inserted(low, i, entry)
                } else {
                    low
                };
                let high2 = if i <= keep {
                    high
                } else {
                    with_inserted(high, i - keep, entry)
                };
                let (s2, r2) = extent_write::wrote(s1, sb, fresh, high2);
                match r2 {
                    Err(e) => (s2, Err(e)),
                    Ok(()) => (
                        s2,
                        Ok(Put { node: low2, split: Some((key_at(high2, 0), fresh)), taken: 1 }),
                    ),
                }
            },
        }
    }
}

/// Whether `count` blocks at `at` would overlap the extents of a leaf node around
/// position `i`.
pub open spec fn overlaps(node: Seq<u8>, i: int, at: u32, count: u16) -> bool {
    let n = extent::header(node).eh_entries as int;
    ||| i > 0 && {
        let p = extent::leaf_at(node, extent::entry_offset(i - 1));
        p.ee_block + p.blocks() > at
    }
    ||| i < n && key_at(node, i) < at + count
}

/// Whether the extent in front of position `i` can be made longer by `count` blocks
/// from `phys` on, which are mapped at `at`.
pub open spec fn joins(node: Seq<u8>, i: int, at: u32, phys: u64, count: u16) -> bool {
    i > 0 && {
        let p = extent::leaf_at(node, extent::entry_offset(i - 1));
        &&& 0 < p.ee_len
        &&& p.ee_len + count <= MAX_INIT_LEN
        &&& p.ee_block + p.ee_len == at
        &&& p.phys() + p.ee_len == phys
    }
}

/// The node with that extent made longer.
pub open spec fn joined(node: Seq<u8>, i: int, count: u16) -> Seq<u8> {
    let off = extent::entry_offset(i - 1);
    bytes::put(
        node,
        off + 4,
        bytes::le16_bytes((extent::leaf_at(node, off).ee_len + count) as u16),
    )
}

/// Mapping blocks in a leaf node.
pub open spec fn leaf_put(
    st: FsState,
    sb: Superblock,
    hint: u64,
    node: Seq<u8>,
    b: u64,
    at: u32,
    phys: u64,
    count: u16,
) -> (FsState, Result<Put, ExtentWriteError>) {
    let i = place(node, at, extent::header(node).eh_entries as int);
    if overlaps(node, i, at, count) {
        (st, Err(ExtentWriteError::Unmappable(at as u64)))
    } else if joins(node, i, at, phys, count) {
        (st, Ok(Put { node: joined(node, i, count), split: None, taken: 0 }))
    } else {
        entry_put(st, sb, hint, node, b, i, extent_write::leaf_bytes(at, count, phys))
    }
}

/// The node with another first logical block for entry `k`.
pub open spec fn with_key(node: Seq<u8>, k: int, key: u32) -> Seq<u8> {
    bytes::put(node, extent::entry_offset(k), bytes::le32_bytes(key))
}

pub open spec fn lesser(a: u32, b: u32) -> u32 {
    if a < b {
        a
    } else {
        b
    }
}

/// Mapping blocks under a node that lies in block `b`.
pub open spec fn put_in(
    st: FsState,
    sb: Superblock,
    hint: u64,
    node: Seq<u8>,
    b: u64,
    depth: nat,
    at: u32,
    phys: u64,
    count: u16,
) -> (FsState, Result<Put, ExtentWriteError>)
    decreases depth,
{
    match extent_write::parsed(node, b) {
        Err(e) => (st, Err(e)),
        Ok(h) => if depth == 0 {
            leaf_put(st, sb, hint, node, b, at, phys, count)
        } else if h.eh_entries == 0 {
            (st, Err(ExtentWriteError::CorruptTree(b)))
        } else {
            let n = h.eh_entries as int;
            let k = child_place(node, at, n);
            let c = extent::idx_at(node, extent::entry_offset(k)).child();
            if k + 1 < n && key_at(node, k + 1) < at + count {
                (st, Err(ExtentWriteError::Unmappable(at as u64)))
            } else {
                match block_device::block_at(st.disk, sb.block_size, c) {
                    Err(e) => (st, Err(ExtentWriteError::BlockDevice(e))),
                    Ok(child) => {
                        let (s1, r1) = put_in(
                            st,
                            sb,
                            hint,
                            child,
                            c,
                            (depth - 1) as nat,
                            at,
                            phys,
                            count,
                        );
                        match r1 {
                            Err(e) => (s1, Err(e)),
                            Ok(p) => {
                                let (s2, r2) = extent_write::wrote(s1, sb, c, p.node);
                                match r2 {
                                    Err(e) => (s2, Err(e)),
                                    Ok(()) => parent_put(s2, sb, hint, node, b, k, at, p),
                                }
                            },
                        }
                    },
                }
            }
        },
    }
}

/// What an inner node gets once something was put in under its entry `k`.
pub open spec fn parent_put(
    st: FsState,
    sb: Superblock,
    hint: u64,
    node: Seq<u8>,
    b: u64,
    k: int,
    at: u32,
    p: Put,
) -> (FsState, Result<Put, ExtentWriteError>) {
    let node2 = with_key(node, k, lesser(key_at(node, k), at));
    match p.split {
        None => (st, Ok(Put { node: node2, split: None, taken: p.taken })),
        Some((key, fresh)) => {
            let (s, r) = entry_put(
                st,
                sb,
                hint,
                node2,
                b,
                k + 1,
                extent_write::idx_bytes(key, fresh),
            );
            match r {
                Err(e) => (s, Err(e)),
                Ok(q) => (s, Ok(Put { taken: p.taken + q.taken, ..q })),
            }
        },
    }
}

/// Making room in the root of an inode record: a root that is full moves down a level,
/// unless what is to be mapped continues one of its extents. Gives the record, and how
/// many blocks were taken.
pub open spec fn roomy(
    st: FsState,
    sb: Superblock,
    num: u32,
    rec: Seq<u8>,
    at: u32,
    phys: u64,
    count: u16,
) -> (FsState, Result<(Seq<u8>, int), ExtentWriteError>) {
    let root = extent_write::root_of(rec);
    let h = extent::header(root);
    let i = place(root, at, h.eh_entries as int);
    if h.eh_entries < h.eh_max || h.eh_depth == 0 && joins(root, i, at, phys, count) {
        (st, Ok((rec, 0)))
    } else if h.eh_entries == 0 {
        (st, Err(ExtentWriteError::CorruptTree(0)))
    } else if h.eh_depth >= MAX_DEPTH {
        (st, Err(ExtentWriteError::DepthLimitExceeded))
    } else {
        let (s, r) = extent_write::grown(st, sb, num, rec);
        match r {
            Err(e) => (s, Err(e)),
            Ok(rec2) => (s, Ok((rec2, 1))),
        }
    }
}

/// Mapping the `count` blocks from `phys` on at logical block `at` of inode `num`.
pub open spec fn inserted(
    st: FsState,
    sb: Superblock,
    num: u32,
    at: int,
    phys: u64,
    count: u16,
) -> (FsState, Result<(), ExtentWriteError>) {
    if at >= LOGICAL_LIMIT || at + count > LOGICAL_LIMIT {
        (st, Err(ExtentWriteError::Unmappable(at as u64)))
    } else {
        match extent_write::opened(st, sb, num) {
            Err(e) => (st, Err(e)),
            Ok(rec) => match extent_write::parsed(extent_write::root_of(rec), 0) {
                Err(e) => (st, Err(e)),
                Ok(h) => if h.eh_depth > MAX_DEPTH {
                    (st, Err(ExtentWriteError::CorruptTree(0)))
                } else {
                    let (s1, r1) = roomy(st, sb, num, rec, at as u32, phys, count);
                    match r1 {
                        Err(e) => (s1, Err(e)),
                        Ok((rec1, taken)) => root_put(
                            s1,
                            sb,
                            num,
                            rec1,
                            at as u32,
                            phys,
                            count,
                            taken,
                        ),
                    }
                },
            },
        }
    }
}

/// Mapping blocks in a tree whose root has room.
pub open spec fn root_put(
    st: FsState,
    sb: Superblock,
    num: u32,
    rec: Seq<u8>,
    at: u32,
    phys: u64,
    count: u16,
    taken: int,
) -> (FsState, Result<(), ExtentWriteError>) {
    let root = extent_write::root_of(rec);
    let (s2, r2) = put_in(
        st,
        sb,
        num as u64,
        root,
        0,
        extent::header(root).eh_depth as nat,
        at,
        phys,
        count,
    );
    match r2 {
        Err(e) => (s2, Err(e)),
        Ok(p) => if p.split is Some {
            (s2, Err(ExtentWriteError::CorruptTree(0)))
        } else {
            extent_write::flushed(
                s2,
                sb,
                num,
                extent_write::with_more_blocks(
                    extent_write::with_root(rec, p.node),
                    sb,
                    (count + taken + p.taken) as u16,
                ),
            )
        },
    }
}

fn find_place(node: &[u8], at: u32, n: u16) -> (i: u16)
    requires
        extent::entry_offset(n as int) <= node@.len(),
    ensures
        i == place(node@, at, n as int),
        i <= n,
{
    let mut i: u16 = n;
    while i > 0
        invariant
            i <= n,
            extent::entry_offset(n as int) <= node@.len(),
            place(node@, at, n as int) == place(node@, at, i as int),
        decreases i,
    {
        if bytes::get_u32_le(node, 12 * i as usize) <= at {
            return i;
        }
        i = i - 1;
    }
    0
}

fn insert_entry(node: &mut Vec<u8>, i: u16, entry: &[u8])
    requires
        old(node)@.len() >= 12,
        i <= extent::header(old(node)@).eh_entries < u16::MAX,
        extent::entry_offset(extent::header(old(node)@).eh_entries + 1) <= old(node)@.len(),
        entry@.len() == 12,
    ensures
        final(node)@ == with_inserted(old(node)@, i as int, entry@),
        final(node)@.len() == old(node)@.len(),
{
    let h = extent::read_header(node.as_slice());
    let tail = bytes::copy_range(
        node.as_slice(),
        12 + 12 * i as usize,
        12 + 12 * h.eh_entries as usize,
    );
    bytes::put_bytes(node, 24 + 12 * i as usize, tail.as_slice());
    bytes::put_bytes(node, 12 + 12 * i as usize, entry);
    extent_write::set_header(node, h.eh_entries + 1, h.eh_max, h.eh_depth);
}

fn put_entry<D: BlockDevice>(
    dev: &mut D,
    sb: &Superblock,
    gdt: &mut GroupDescTable,
    txn: &mut Transaction,
    hint: u64,
    node: &mut Vec<u8>,
    b: u64,
    i: u16,
    entry: &[u8],
) -> (r: Result<Option<(u32, u64)>, ExtentWriteError>)
    requires
        sb.wf(),
        extent_write::parsed(old(node)@, b) is Ok,
        i <= extent::header(old(node)@).eh_entries,
        entry@.len() == 12,
    ensures
        final(node)@.len() == old(node)@.len(),
        block_device::same_shape(*old(dev), *final(dev)),
        final(gdt)@.len() == old(gdt)@.len(),
        r is Ok || old(dev).reliable() ==> ({
            let (s, x) = entry_put(
                fs_state::now(*old(dev), *old(txn), *old(gdt)),
                *sb,
                hint,
                old(node)@,
                b,
                i as int,
                entry@,
            );
            &&& fs_state::now(*final(dev), *final(txn), *final(gdt)) == s
            &&& match x {
                Ok(p) => {
                    &&& r is Ok
                    &&& final(node)@ == p.node
                    &&& r->Ok_0 == p.split
                    &&& p.taken == (if p.split is Some {
                        1int
                    } else {
                        0
                    })
                },
                Err(e) => r is Err && r->Err_0 == e,
            }
        }),
{
    let h = extent::read_header(node.as_slice());
    let n: u16 = h.eh_entries;
    if n < h.eh_max {
        if 24 + 12 * n as usize > node.len() {
            return Err(ExtentWriteError::CorruptTree(b));
        }
        insert_entry(node, i, entry);
        return Ok(None);
    }
    if n < 2 || 12 + 12 * n as usize > sb.block_size as usize {
        return Err(ExtentWriteError::CorruptTree(b));
    }
    let keep: u16 = n / 2;
    let fresh: u64 = match block_alloc::alloc_blocks(dev, sb, gdt, txn, 1, hint) {
        Ok(x) => x,
        Err(e) => {
            return Err(ExtentWriteError::Alloc(e));
        },
    };
    let mut high = bytes::zero_vec(sb.block_size as usize);
    extent_write::set_header(&mut high, n - keep, h.eh_max, h.eh_depth);
    let moved = bytes::copy_range(
        node.as_slice(),
        12 + 12 * keep as usize,
        12 + 12 * n as usize,
    );
    bytes::put_bytes(&mut high, 12, moved.as_slice());
    assert(high@ == upper_half(old(node)@, sb.block_size, keep as int));
    proof {
        extent_write::lemma_header(
            bytes::zeros(sb.block_size as int),
            n - keep,
            h.eh_max,
            h.eh_depth,
        );
        extent_write::lemma_header(old(node)@, keep as int, h.eh_max, h.eh_depth);
        assert(extent::header(high@).eh_entries == n - keep);
    }
    extent_write::set_header(node, keep, h.eh_max, h.eh_depth);
    if i <= keep {
        insert_entry(node, i, entry);
    } else {
        insert_entry(&mut high, i - keep, entry);
    }
    let key: u32 = bytes::get_u32_le(high.as_slice(), 12);
    match extent_write::write_block(dev, sb, txn, Ghost(gdt@), fresh, high) {
        Ok(()) => Ok(Some((key, fresh))),
        Err(e) => Err(e),
    }
}

fn does_join(node: &[u8], i: u16, at: u32, phys: u64, count: u16) -> (r: bool)
    requires
        extent::entry_offset(i as int) <= node@.len(),
    ensures
        r == joins(node@, i as int, at, phys, count),
{
    if i == 0 {
        return false;
    }
    let p = extent::read_leaf(node, 12 * i as usize);
    0 < p.ee_len && p.ee_len as u32 + count as u32 <= MAX_INIT_LEN as u32 && p.ee_block as u64
        + p.ee_len as u64 == at as u64 && p.start() + p.ee_len as u64 == phys
}

fn put_leaf<D: BlockDevice>(
    dev: &mut D,
    sb: &Superblock,
    gdt: &mut GroupDescTable,
    txn: &mut Transaction,
    hint: u64,
    node: &mut Vec<u8>,
    b: u64,
    at: u32,
    phys: u64,
    count: u16,
) -> (r: Result<Option<(u32, u64)>, ExtentWriteError>)
    requires
        sb.wf(),
        extent_write::parsed(old(node)@, b) is Ok,
    ensures
        final(node)@.len() == old(node)@.len(),
        block_device::same_shape(*old(dev), *final(dev)),
        final(gdt)@.len() == old(gdt)@.len(),
        r is Ok || old(dev).reliable() ==> ({
            let (s, x) = leaf_put(
                fs_state::now(*old(dev), *old(txn), *old(gdt)),
                *sb,
                hint,
                old(node)@,
                b,
                at,
                phys,
                count,
            );
            &&& fs_state::now(*final(dev), *final(txn), *final(gdt)) == s
            &&& match x {
                Ok(p) => {
                    &&& r is Ok
                    &&& final(node)@ == p.node
                    &&& r->Ok_0 == p.split
                    &&& p.taken == (if p.split is Some {
                        1int
                    } else {
                        0
                    })
                },
                Err(e) => r is Err && r->Err_0 == e,
            }
        }),
{
    let h = extent::read_header(node.as_slice());
    let i: u16 = find_place(node.as_slice(), at, h.eh_entries);
    let behind: u64 = at as u64 + count as u64;
    if i < h.eh_entries && (bytes::get_u32_le(node.as_slice(), 12 + 12 * i as usize) as u64)
        < behind {
        return Err(ExtentWriteError::Unmappable(at as u64));
    }
    if i > 0 {
        let p = extent::read_leaf(node.as_slice(), 12 * i as usize);
        if p.ee_block as u64 + p.length() as u64 > at as u64 {
            return Err(ExtentWriteError::Unmappable(at as u64));
        }
        if does_join(node.as_slice(), i, at, phys, count) {
            bytes::put_u16_le(node, 4 + 12 * i as usize, p.ee_len + count);
            return Ok(None);
        }
    }
    let entry = extent_write::make_leaf_entry(at, count, phys);
    put_entry(dev, sb, gdt, txn, hint, node, b, i, entry.as_slice())
}

fn put_under<D: BlockDevice>(
    dev: &mut D,
    sb: &Superblock,
    gdt: &mut GroupDescTable,
    txn: &mut Transaction,
    hint: u64,
    node: &mut Vec<u8>,
    b: u64,
    depth: u16,
    at: u32,
    phys: u64,
    count: u16,
) -> (r: Result<(Option<(u32, u64)>, u16), ExtentWriteError>)
    requires
        sb.wf(),
        depth <= MAX_DEPTH,
    ensures
        r is Ok ==> r->Ok_0.1 <= depth + 1,
        final(node)@.len() == old(node)@.len(),
        block_device::same_shape(*old(dev), *final(dev)),
        final(gdt)@.len() == old(gdt)@.len(),
        r is Ok || old(dev).reliable() ==> ({
            let (s, x) = put_in(
                fs_state::now(*old(dev), *old(txn), *old(gdt)),
                *sb,
                hint,
                old(node)@,
                b,
                depth as nat,
                at,
                phys,
                count,
            );
            &&& fs_state::now(*final(dev), *final(txn), *final(gdt)) == s
            &&& match x {
                Ok(p) => {
                    &&& r is Ok
                    &&& final(node)@ == p.node
                    &&& r->Ok_0 == (p.split, p.taken as u16)
                    &&& 0 <= p.taken <= depth + 1
                },
                Err(e) => r is Err && r->Err_0 == e,
            }
        }),
    decreases depth,
{
    let h = match extent_write::parse_header(node.as_slice(), b) {
        Ok(h) => h,
        Err(e) => {
            return Err(e);
        },
    };
    if depth == 0 {
        return match put_leaf(dev, sb, gdt, txn, hint, node, b, at, phys, count) {
            Ok(split) => {
                let taken: u16 = if split.is_some() {
                    1
                } else {
                    0
                };
                Ok((split, taken))
            },
            Err(e) => Err(e),
        };
    }
    let n: u16 = h.eh_entries;
    if n == 0 {
        return Err(ExtentWriteError::CorruptTree(b));
    }
    let i: u16 = find_place(node.as_slice(), at, n);
    let k: u16 = if i > 0 {
        i - 1
    } else {
        0
    };
    let off: usize = 12 + 12 * k as usize;
    let c: u64 = extent::read_idx(node.as_slice(), off).child_block();
    if k + 1 < n && (bytes::get_u32_le(node.as_slice(), off + 12) as u64) < at as u64
        + count as u64 {
        return Err(ExtentWriteError::Unmappable(at as u64));
    }
    let mut child = match extent_write::read_block(dev, sb, c) {
        Ok(x) => x,
        Err(e) => {
            return Err(e);
        },
    };
    let (split, taken): (Option<(u32, u64)>, u16) = match put_under(
        dev,
        sb,
        gdt,
        txn,
        hint,
        &mut child,
        c,
        depth - 1,
        at,
        phys,
        count,
    ) {
        Ok(x) => x,
        Err(e) => {
            return Err(e);
        },
    };
    match extent_write::write_block(dev, sb, txn, Ghost(gdt@), c, child) {
        Ok(()) => {},
        Err(e) => {
            return Err(e);
        },
    }
    let key: u32 = bytes::get_u32_le(node.as_slice(), off);
    let least: u32 = if key < at {
        key
    } else {
        at
    };
    bytes::put_u32_le(node, off, least);
    assert(node@ == with_key(old(node)@, k as int, lesser(key, at)));
    match split {
        None => Ok((None, taken)),
        Some((first, fresh)) => {
            let entry = extent_write::make_idx_entry(first, fresh);
            assert(extent::header(node@) == h);
            match put_entry(dev, sb, gdt, txn, hint, node, b, k + 1, entry.as_slice()) {
                Ok(more) => {
                    let own: u16 = if more.is_some() {
                        1
                    } else {
                        0
                    };
                    Ok((more, taken + own))
                },
                Err(e) => Err(e),
            }
        },
    }
}

/// Map `block_count` newly allocated blocks from `phys_start` on at logical block
/// `at` of `inode_num`, and update the inode on disk.
///
/// Where the new blocks continue an extent, that extent is made longer. A node that
/// is full is split, up to the root, which moves down a level then.
pub(crate) fn extent_insert<D: BlockDevice>(
    dev: &mut D,
    sb: &Superblock,
    gdt: &mut GroupDescTable,
    txn: &mut Transaction,
    inode_num: u32,
    at: u64,
    phys_start: u64,
    block_count: u16,
) -> (r: Result<(), ExtentWriteError>)
    requires
        sb.wf(),
        block_count <= MAX_INIT_LEN,
    ensures
        block_device::same_shape(*old(dev), *final(dev)),
        final(gdt)@.len() == old(gdt)@.len(),
        r is Ok || old(dev).reliable() ==> (
            fs_state::now(*final(dev), *final(txn), *final(gdt)),
            r,
        ) == inserted(
            fs_state::now(*old(dev), *old(txn), *old(gdt)),
            *sb,
            inode_num,
            at as int,
            phys_start,
            block_count,
        ),
{
    if at >= LOGICAL_LIMIT || at + block_count as u64 > LOGICAL_LIMIT {
        return Err(ExtentWriteError::Unmappable(at));
    }
    let mut rec = match extent_write::open_record(dev, sb, gdt, txn, inode_num) {
        Ok(x) => x,
        Err(e) => {
            return Err(e);
        },
    };
    let root = bytes::copy_range(rec.as_slice(), 40, 100);
    let h = match extent_write::parse_header(root.as_slice(), 0) {
        Ok(h) => h,
        Err(e) => {
            return Err(e);
        },
    };
    if h.eh_depth > MAX_DEPTH {
        return Err(ExtentWriteError::CorruptTree(0));
    }
    let place: u32 = at as u32;
    let i: u16 = find_place(root.as_slice(), place, h.eh_entries);
    let mut taken: u16 = 0;
    if h.eh_entries >= h.eh_max && !(h.eh_depth == 0 && does_join(
        root.as_slice(),
        i,
        place,
        phys_start,
        block_count,
    )) {
        if h.eh_entries == 0 {
            return Err(ExtentWriteError::CorruptTree(0));
        }
        if h.eh_depth >= MAX_DEPTH {
            return Err(ExtentWriteError::DepthLimitExceeded);
        }
        match extent_write::extent_tree_grow(dev, sb, gdt, txn, inode_num, &mut rec) {
            Ok(()) => {},
            Err(e) => {
                return Err(e);
            },
        }
        taken = 1;
    }
    put_in_root(dev, sb, gdt, txn, inode_num, rec, place, phys_start, block_count, taken)
}

fn put_in_root<D: BlockDevice>(
    dev: &mut D,
    sb: &Superblock,
    gdt: &mut GroupDescTable,
    txn: &mut Transaction,
    inode_num: u32,
    rec: Vec<u8>,
    at: u32,
    phys: u64,
    count: u16,
    taken: u16,
) -> (r: Result<(), ExtentWriteError>)
    requires
        sb.wf(),
        inode_num > 0,
        inode::group_of(*sb, inode_num) < old(gdt)@.len(),
        rec@.len() == 128,
        extent::header(extent_write::root_of(rec@)).eh_depth <= MAX_DEPTH,
        count <= MAX_INIT_LEN,
        taken <= 1,
    ensures
        block_device::same_shape(*old(dev), *final(dev)),
        final(gdt)@.len() == old(gdt)@.len(),
        r is Ok || old(dev).reliable() ==> (
            fs_state::now(*final(dev), *final(txn), *final(gdt)),
            r,
        ) == root_put(
            fs_state::now(*old(dev), *old(txn), *old(gdt)),
            *sb,
            inode_num,
            rec@,
            at,
            phys,
            count,
            taken as int,
        ),
{
    let mut rec = rec;
    let mut root = bytes::copy_range(rec.as_slice(), 40, 100);
    let depth: u16 = extent::read_header(root.as_slice()).eh_depth;
    let (split, more): (Option<(u32, u64)>, u16) = match put_under(
        dev,
        sb,
        gdt,
        txn,
        inode_num as u64,
        &mut root,
        0,
        depth,
        at,
        phys,
        count,
    ) {
        Ok(x) => x,
        Err(e) => {
            return Err(e);
        },
    };
    if split.is_some() {
        return Err(ExtentWriteError::CorruptTree(0));
    }
    extent_write::set_root(&mut rec, root.as_slice());
    extent_write::update_iblocks(&mut rec, sb, count + taken + more);
    extent_write::flush_record(dev, sb, gdt, txn, inode_num, rec.as_slice())
}

} // verus!
