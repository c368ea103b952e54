//! Extent trees: which physical blocks hold a file's contents.
use vstd::prelude::*;
use crate::block_device;
use crate::block_device::{BlockDevice, BlockDeviceError};
use crate::bytes;
use crate::inode::Inode;
use crate::superblock::Superblock;

verus! {

pub const EXTENT_MAGIC: u16 = 0xF30A;

/// Deepest tree that is read.
pub const MAX_DEPTH: u16 = 5;

/// Longest extent that holds data; a longer `ee_len` marks one that is
/// allocated but not initialised.
pub const MAX_INIT_LEN: u16 = 32768;

/// Header of a tree node. A node is the header and entries of 12 bytes each.
#[derive(Debug, Clone, Copy)]
pub struct ExtentHeader {
    pub eh_magic: u16,
    pub eh_entries: u16,
    pub eh_max: u16,
    pub eh_depth: u16,
    pub eh_generation: u32,
}

/// Entry of an inner node: a child block and its first logical block.
#[derive(Debug, Clone, Copy)]
pub struct ExtentIdx {
    pub ei_block: u32,
    pub ei_leaf_lo: u32,
    pub ei_leaf_hi: u16,
}

/// Entry of a leaf: a run of logical blocks and the physical blocks they lie in.
#[derive(Debug, Clone, Copy)]
pub struct ExtentLeaf {
    pub ee_block: u32,
    pub ee_len: u16,
    pub ee_start_hi: u16,
    pub ee_start_lo: u32,
}

/// Why a tree cannot be read.
#[derive(Debug)]
pub enum ExtentError {
    BadMagic(u16),
    /// The inode maps its blocks in the old, indirect way.
    UnsupportedBlockMap,
    /// The tree is too deep, or leads back into itself.
    DepthExceeded(u16),
    /// The node is too small for the entries it declares.
    TruncatedNode,
    BlockNumberOverflow,
    BlockDevice(BlockDeviceError),
}

/// The header of the node `s`.
pub open spec fn header(s: Seq<u8>) -> ExtentHeader {
    ExtentHeader {
        eh_magic: bytes::le16(s, 0),
        eh_entries: bytes::le16(s, 2),
        eh_max: bytes::le16(s, 4),
        eh_depth: bytes::le16(s, 6),
        eh_generation: bytes::le32(s, 8),
    }
}

/// Where entry `i` of a node starts.
pub open spec fn entry_offset(i: int) -> int {
    12 + 12 * i
}

/// The leaf entry at byte `off`.
pub open spec fn leaf_at(s: Seq<u8>, off: int) -> ExtentLeaf {
    ExtentLeaf {
        ee_block: bytes::le32(s, off),
        ee_len: bytes::le16(s, off + 4),
        ee_start_hi: bytes::le16(s, off + 6),
        ee_start_lo: bytes::le32(s, off + 8),
    }
}

/// The index entry at byte `off`.
pub open spec fn idx_at(s: Seq<u8>, off: int) -> ExtentIdx {
    ExtentIdx {
        ei_block: bytes::le32(s, off),
        ei_leaf_lo: bytes::le32(s, off + 4),
        ei_leaf_hi: bytes::le16(s, off + 8),
    }
}

/// The leaf entries of the node `s`.
pub open spec fn node_leaves(s: Seq<u8>) -> Seq<ExtentLeaf> {
    Seq::new(header(s).eh_entries as nat, |i: int| leaf_at(s, entry_offset(i)))
}

/// The index entries of the node `s`.
pub open spec fn node_idxs(s: Seq<u8>) -> Seq<ExtentIdx> {
    Seq::new(header(s).eh_entries as nat, |i: int| idx_at(s, entry_offset(i)))
}

impl ExtentLeaf {
    /// First physical block.
    pub open spec fn phys(self) -> u64 {
        (self.ee_start_hi * 0x1_0000_0000 + self.ee_start_lo) as u64
    }

    /// Whether the extent holds no data yet.
    pub open spec fn uninit(self) -> bool {
        self.ee_len > MAX_INIT_LEN
    }

    /// How many blocks it spans.
    pub open spec fn blocks(self) -> int {
        if self.uninit() {
            self.ee_len - MAX_INIT_LEN
        } else {
            self.ee_len as int
        }
    }

    /// Whether it holds the data of logical block `lblock`.
    pub open spec fn covers(self, lblock: u64) -> bool {
        !self.uninit() && self.ee_block <= lblock < self.ee_block + self.ee_len
    }

    pub fn start(&self) -> (r: u64)
        ensures
            r == self.phys(),
            r < 0x1_0000_0000_0000,
    {
        self.ee_start_hi as u64 * 0x1_0000_0000 + self.ee_start_lo as u64
    }

    /// Number of blocks, initialised or not.
    pub fn length(&self) -> (r: u16)
        ensures
            r == self.blocks(),
            r <= MAX_INIT_LEN,
    {
        if self.ee_len > MAX_INIT_LEN {
            self.ee_len - MAX_INIT_LEN
        } else {
            self.ee_len
        }
    }
}

impl ExtentIdx {
    /// The child block.
    pub open spec fn child(self) -> u64 {
        (self.ei_leaf_hi * 0x1_0000_0000 + self.ei_leaf_lo) as u64
    }

    pub fn child_block(&self) -> (r: u64)
        ensures
            r == self.child(),
            r < 0x1_0000_0000_0000,
    {
        self.ei_leaf_hi as u64 * 0x1_0000_0000 + self.ei_leaf_lo as u64
    }
}

/// What is wrong with the node `s`, if anything.
pub open spec fn node_fault(s: Seq<u8>) -> Option<ExtentError> {
    if s.len() < 12 {
        Some(ExtentError::TruncatedNode)
    } else if header(s).eh_magic != EXTENT_MAGIC {
        Some(ExtentError::BadMagic(header(s).eh_magic))
    } else if header(s).eh_depth > MAX_DEPTH {
        Some(ExtentError::DepthExceeded(header(s).eh_depth))
    } else if s.len() < entry_offset(header(s).eh_entries as int) {
        Some(ExtentError::TruncatedNode)
    } else {
        None
    }
}

/// The physical block of logical block `lblock`: the first extent that covers
/// it decides; `None` is a hole.
pub open spec fn mapped(leaves: Seq<ExtentLeaf>, lblock: u64) -> Option<u64>
    decreases leaves.len(),
{
    if leaves.len() == 0 {
        None
    } else {
        match mapped(leaves.drop_last(), lblock) {
            Some(p) => Some(p),
            None => if leaves.last().covers(lblock) {
                Some((leaves.last().phys() + lblock - leaves.last().ee_block) as u64)
            } else {
                None
            },
        }
    }
}

/// How many entries, from the first on, start at or before `lblock`.
pub open spec fn leading(idxs: Seq<ExtentIdx>, lblock: u64) -> int
    decreases idxs.len(),
{
    if idxs.len() == 0 {
        0
    } else {
        let k = leading(idxs.drop_last(), lblock);
        if k == idxs.len() - 1 && idxs.last().ei_block <= lblock {
            idxs.len() as int
        } else {
            k
        }
    }
}

/// The child that leads to `lblock`: the last of the leading entries.
pub open spec fn chosen(idxs: Seq<ExtentIdx>, lblock: u64) -> Option<u64> {
    let k = leading(idxs, lblock);
    if k == 0 {
        None
    } else {
        Some(idxs[k - 1].child())
    }
}

/// Where logical block `lblock` lies, in the tree under the node `node`. At
/// most `hops` child nodes are visited: a longer way down revisits a node.
pub open spec fn looked_up(
    disk: Seq<u8>,
    bs: u32,
    node: Seq<u8>,
    lblock: u64,
    hops: nat,
) -> Result<Option<u64>, ExtentError>
    decreases hops,
{
    match node_fault(node) {
        Some(e) => Err(e),
        None => if header(node).eh_depth == 0 {
            Ok(mapped(node_leaves(node), lblock))
        } else {
            match chosen(node_idxs(node), lblock) {
                None => Ok(None),
                Some(c) => if hops == 0 {
                    Err(ExtentError::DepthExceeded(header(node).eh_depth))
                } else {
                    match block_device::block_at(disk, bs, c) {
                        Err(e) => Err(ExtentError::BlockDevice(e)),
                        Ok(d) => looked_up(disk, bs, d, lblock, (hops - 1) as nat),
                    }
                },
            }
        },
    }
}

/// All leaf entries of the tree under `node`, from left to right.
pub open spec fn tree_leaves(disk: Seq<u8>, bs: u32, node: Seq<u8>, hops: nat) -> Result<
    Seq<ExtentLeaf>,
    ExtentError,
>
    decreases hops, 70000int,
{
    match node_fault(node) {
        Some(e) => Err(e),
        None => if header(node).eh_depth == 0 {
            Ok(node_leaves(node))
        } else {
            child_leaves(disk, bs, node, header(node).eh_entries as int, hops)
        },
    }
}

/// The leaf entries under the first `k` children of `node`.
pub open spec fn child_leaves(
    disk: Seq<u8>,
    bs: u32,
    node: Seq<u8>,
    k: int,
    hops: nat,
) -> Result<Seq<ExtentLeaf>, ExtentError>
    decreases hops, k,
{
    if k <= 0 {
        Ok(Seq::empty())
    } else {
        match child_leaves(disk, bs, node, k - 1, hops) {
            Err(e) => Err(e),
            Ok(a) => if hops == 0 {
                Err(ExtentError::DepthExceeded(header(node).eh_depth))
            } else {
                match block_device::block_at(disk, bs, node_idxs(node)[k - 1].child()) {
                    Err(e) => Err(ExtentError::BlockDevice(e)),
                    Ok(d) => match tree_leaves(disk, bs, d, (hops - 1) as nat) {
                        Err(e) => Err(e),
                        Ok(b) => Ok(a + b),
                    },
                }
            },
        }
    }
}

/// The leaves of a file, in the order in which the tree holds them.
pub open spec fn file_leaves(
    disk: Seq<u8>,
    sb: Superblock,
    uses_extents: bool,
    root: Seq<u8>,
) -> Result<
    Seq<ExtentLeaf>,
    ExtentError,
> {
    if !uses_extents {
        Err(ExtentError::UnsupportedBlockMap)
    } else {
        tree_leaves(disk, sb.block_size, root, block_device::sectors(disk) as nat)
    }
}

/// Where logical block `lblock` of a file lies.
pub open spec fn file_block(
    disk: Seq<u8>,
    sb: Superblock,
    uses_extents: bool,
    root: Seq<u8>,
    lblock: u64,
) -> Result<Option<u64>, ExtentError> {
    if !uses_extents {
        Err(ExtentError::UnsupportedBlockMap)
    } else {
        looked_up(disk, sb.block_size, root, lblock, block_device::sectors(disk) as nat)
    }
}

/// Where a leaf that starts at `key` goes: behind the last that starts at or
/// before it.
pub open spec fn place(s: Seq<ExtentLeaf>, key: u32) -> int
    decreases s.len(),
{
    if s.len() == 0 {
        0
    } else if s.last().ee_block <= key {
        s.len() as int
    } else {
        place(s.drop_last(), key)
    }
}

/// The leaves in the order of their first logical block; those that start
/// alike stay in their order.
pub open spec fn in_order(s: Seq<ExtentLeaf>) -> Seq<ExtentLeaf>
    decreases s.len(),
{
    if s.len() == 0 {
        s
    } else {
        let rest = in_order(s.drop_last());
        rest.insert(place(rest, s.last().ee_block), s.last())
    }
}

/// Whether no leaf starts before the one in front of it.
pub open spec fn ordered(s: Seq<ExtentLeaf>) -> bool {
    forall|i: int, j: int| 0 <= i < j < s.len() ==> s[i].ee_block <= s[j].ee_block
}

proof fn lemma_place(s: Seq<ExtentLeaf>, key: u32)
    requires
        ordered(s),
    ensures
        0 <= place(s, key) <= s.len(),
        forall|i: int| 0 <= i < place(s, key) ==> (#[trigger] s[i]).ee_block <= key,
        forall|i: int| place(s, key) <= i < s.len() ==> (#[trigger] s[i]).ee_block > key,
    decreases s.len(),
{
    if s.len() > 0 && s.last().ee_block > key {
        let d = s.drop_last();
        assert forall|i: int, j: int| 0 <= i < j < d.len() implies d[i].ee_block
            <= d[j].ee_block by {
            assert(s[i].ee_block <= s[j].ee_block);
        }
        lemma_place(d, key);
        assert forall|i: int| 0 <= i < place(s, key) implies (#[trigger] s[i]).ee_block
            <= key by {
            assert(d[i] == s[i]);
        }
        assert forall|i: int| place(s, key) <= i < s.len() implies (#[trigger] s[i]).ee_block
            > key by {
            if i < d.len() {
                assert(d[i] == s[i]);
            }
        }
    }
}

/// Sorting puts the leaves in order and keeps each of them.
pub proof fn lemma_in_order(s: Seq<ExtentLeaf>)
    ensures
        ordered(in_order(s)),
        in_order(s).to_multiset() == s.to_multiset(),
        in_order(s).len() == s.len(),
    decreases s.len(),
{
    broadcast use vstd::seq_lib::group_to_multiset_ensures;

    if s.len() > 0 {
        let d = s.drop_last();
        lemma_in_order(d);
        let rest = in_order(d);
        let p = place(rest, s.last().ee_block);
        lemma_place(rest, s.last().ee_block);
        assert(s =~= d.push(s.last()));
    }
}

/// Read the header of a node; the error where the node cannot be used.
fn check_node(node: &[u8]) -> (r: Result<ExtentHeader, ExtentError>)
    ensures
        match node_fault(node@) {
            Some(e) => r is Err && r->Err_0 == e,
            None => r is Ok && r->Ok_0 == header(node@),
        },
{
    if node.len() < 12 {
        return Err(ExtentError::TruncatedNode);
    }
    let h = read_header(node);
    if h.eh_magic != EXTENT_MAGIC {
        return Err(ExtentError::BadMagic(h.eh_magic));
    }
    if h.eh_depth > MAX_DEPTH {
        return Err(ExtentError::DepthExceeded(h.eh_depth));
    }
    if node.len() < 12 + 12 * h.eh_entries as usize {
        return Err(ExtentError::TruncatedNode);
    }
    Ok(h)
}

pub(crate) fn read_header(node: &[u8]) -> (h: ExtentHeader)
    requires
        node.len() >= 12,
    ensures
        h == header(node@),
{
    ExtentHeader {
        eh_magic: bytes::get_u16_le(node, 0),
        eh_entries: bytes::get_u16_le(node, 2),
        eh_max: bytes::get_u16_le(node, 4),
        eh_depth: bytes::get_u16_le(node, 6),
        eh_generation: bytes::get_u32_le(node, 8),
    }
}

pub(crate) fn read_leaf(node: &[u8], off: usize) -> (l: ExtentLeaf)
    requires
        off + 12 <= node.len(),
    ensures
        l == leaf_at(node@, off as int),
{
    ExtentLeaf {
        ee_block: bytes::get_u32_le(node, off),
        ee_len: bytes::get_u16_le(node, off + 4),
        ee_start_hi: bytes::get_u16_le(node, off + 6),
        ee_start_lo: bytes::get_u32_le(node, off + 8),
    }
}

pub(crate) fn read_idx(node: &[u8], off: usize) -> (i: ExtentIdx)
    requires
        off + 12 <= node.len(),
    ensures
        i == idx_at(node@, off as int),
{
    ExtentIdx {
        ei_block: bytes::get_u32_le(node, off),
        ei_leaf_lo: bytes::get_u32_le(node, off + 4),
        ei_leaf_hi: bytes::get_u16_le(node, off + 8),
    }
}

fn find_in_leaf(node: &[u8], lblock: u64) -> (r: Option<u64>)
    requires
        node_fault(node@) is None,
    ensures
        r == mapped(node_leaves(node@), lblock),
{
    let h = read_header(node);
    let n: usize = h.eh_entries as usize;
    let ghost leaves = node_leaves(node@);
    let mut i: usize = 0;
    assert(leaves.take(0) =~= Seq::<ExtentLeaf>::empty());
    while i < n
        invariant
            node_fault(node@) is None,
            n == header(node@).eh_entries,
            leaves == node_leaves(node@),
            i <= n,
            mapped(leaves.take(i as int), lblock) is None,
        decreases n - i,
    {
        let leaf = read_leaf(node, 12 + 12 * i);
        assert(leaf == leaves[i as int]);
        assert(leaves.take(i + 1).drop_last() =~= leaves.take(i as int));
        let first: u64 = leaf.ee_block as u64;
        if leaf.ee_len <= MAX_INIT_LEN && lblock >= first && lblock < first + leaf.ee_len as u64 {
            proof {
                lemma_mapped_prefix(leaves, i + 1, lblock);
            }
            return Some(leaf.start() + (lblock - first));
        }
        i = i + 1;
    }
    assert(leaves.take(n as int) =~= leaves);
    None
}

/// What a prefix of the leaves decides, all of them decide.
pub proof fn lemma_mapped_prefix(leaves: Seq<ExtentLeaf>, k: int, lblock: u64)
    requires
        0 <= k <= leaves.len(),
        mapped(leaves.take(k), lblock) is Some,
    ensures
        mapped(leaves, lblock) == mapped(leaves.take(k), lblock),
    decreases leaves.len() - k,
{
    if k < leaves.len() {
        assert(leaves.take(k + 1).drop_last() =~= leaves.take(k));
        lemma_mapped_prefix(leaves, k + 1, lblock);
    } else {
        assert(leaves.take(k) =~= leaves);
    }
}

proof fn lemma_leading(idxs: Seq<ExtentIdx>, lblock: u64, k: int)
    requires
        0 <= k <= idxs.len(),
        forall|i: int| 0 <= i < k ==> (#[trigger] idxs[i]).ei_block <= lblock,
        k < idxs.len() ==> idxs[k].ei_block > lblock,
    ensures
        leading(idxs, lblock) == k,
    decreases idxs.len(),
{
    if idxs.len() > 0 {
        let d = idxs.drop_last();
        assert forall|i: int| 0 <= i < k && i < d.len() implies (#[trigger] d[i]).ei_block
            <= lblock by {
            assert(d[i] == idxs[i]);
        }
        if k == idxs.len() {
            lemma_leading(d, lblock, k - 1);
            assert(idxs[k - 1].ei_block <= lblock);
        } else {
            lemma_leading(d, lblock, k);
        }
    }
}

fn find_child(node: &[u8], lblock: u64) -> (r: Option<u64>)
    requires
        node_fault(node@) is None,
    ensures
        r == chosen(node_idxs(node@), lblock),
{
    let h = read_header(node);
    let n: usize = h.eh_entries as usize;
    let ghost idxs = node_idxs(node@);
    let mut best: Option<u64> = None;
    let mut i: usize = 0;
    while i < n
        invariant
            node_fault(node@) is None,
            n == header(node@).eh_entries,
            idxs == node_idxs(node@),
            i <= n,
            forall|j: int| 0 <= j < i ==> (#[trigger] idxs[j]).ei_block <= lblock,
            best == (if i == 0 {
                None
            } else {
                Some(idxs[i - 1].child())
            }),
        decreases n - i,
    {
        let idx = read_idx(node, 12 + 12 * i);
        assert(idx == idxs[i as int]);
        if idx.ei_block as u64 > lblock {
            proof {
                lemma_leading(idxs, lblock, i as int);
            }
            return best;
        }
        best = Some(idx.child_block());
        i = i + 1;
    }
    proof {
        lemma_leading(idxs, lblock, n as int);
    }
    best
}

/// Whether looking a logical block up reads the device: where the tree goes on behind
/// its root.
pub open spec fn needs_device(uses_extents: bool, root: Seq<u8>, lblock: u64) -> bool {
    uses_extents && node_fault(root) is None && header(root).eh_depth > 0 && chosen(
        node_idxs(root),
        lblock,
    ) is Some
}

/// Find the physical block of logical block `lblock`. `None` is a hole, or an
/// extent that is not initialised.
pub fn lookup_block<D: BlockDevice>(dev: &D, sb: &Superblock, inode: &Inode, lblock: u64) -> (r:
    Result<Option<u64>, ExtentError>)
    requires
        sb.wf(),
    ensures
        r is Ok || dev.reliable() ==> r == file_block(
            dev.bytes(),
            *sb,
            inode@.uses_extents(),
            inode@.block_data,
            lblock,
        ),
        !needs_device(inode@.uses_extents(), inode@.block_data, lblock) ==> r == file_block(
            dev.bytes(),
            *sb,
            inode@.uses_extents(),
            inode@.block_data,
            lblock,
        ),
{
    if !inode.uses_extents() {
        return Err(ExtentError::UnsupportedBlockMap);
    }
    let mut hops: u64 = dev.sector_count();
    let mut node = vstd::slice::slice_to_vec(inode.block_data.as_slice());
    loop
        invariant
            sb.wf(),
            looked_up(dev.bytes(), sb.block_size, node@, lblock, hops as nat) == file_block(
                dev.bytes(),
                *sb,
                true,
                inode@.block_data,
                lblock,
            ),
            inode@.uses_extents(),
            node@ == inode@.block_data || needs_device(true, inode@.block_data, lblock),
        decreases hops,
    {
        let h = match check_node(node.as_slice()) {
            Ok(h) => h,
            Err(e) => {
                return Err(e);
            },
        };
        if h.eh_depth == 0 {
            return Ok(find_in_leaf(node.as_slice(), lblock));
        }
        let child: u64 = match find_child(node.as_slice(), lblock) {
            Some(c) => c,
            None => {
                return Ok(None);
            },
        };
        if hops == 0 {
            return Err(ExtentError::DepthExceeded(h.eh_depth));
        }
        hops = hops - 1;
        node =
        match block_device::read_block(dev, sb.block_size, child) {
            Ok(d) => d,
            Err(e) => {
                return Err(ExtentError::BlockDevice(e));
            },
        };
    }
}

/// All leaf entries of an inode's tree, from left to right.
pub fn collect_leaves_pub<D: BlockDevice>(
    dev: &D,
    sb: &Superblock,
    inode: &Inode,
    out: &mut Vec<ExtentLeaf>,
) -> (r: Result<(), ExtentError>)
    requires
        sb.wf(),
    ensures
        r is Ok || dev.reliable() ==> match file_leaves(
            dev.bytes(),
            *sb,
            inode@.uses_extents(),
            inode@.block_data,
        ) {
            Ok(v) => r is Ok && final(out)@ == old(out)@ + v,
            Err(e) => r is Err && r->Err_0 == e,
        },
{
    if !inode.uses_extents() {
        return Err(ExtentError::UnsupportedBlockMap);
    }
    let hops: u64 = dev.sector_count();
    collect_leaves(dev, sb, inode.block_data.as_slice(), hops, out)
}

fn collect_leaves<D: BlockDevice>(
    dev: &D,
    sb: &Superblock,
    node: &[u8],
    hops: u64,
    out: &mut Vec<ExtentLeaf>,
) -> (r: Result<(), ExtentError>)
    requires
        sb.wf(),
    ensures
        r is Ok || dev.reliable() ==> match tree_leaves(
            dev.bytes(),
            sb.block_size,
            node@,
            hops as nat,
        ) {
            Ok(v) => r is Ok && final(out)@ == old(out)@ + v,
            Err(e) => r is Err && r->Err_0 == e,
        },
    decreases hops,
{
    let h = match check_node(node) {
        Ok(h) => h,
        Err(e) => {
            return Err(e);
        },
    };
    let n: usize = h.eh_entries as usize;
    let ghost before = out@;
    let mut i: usize = 0;
    if h.eh_depth == 0 {
        while i < n
            invariant
                node_fault(node@) is None,
                n == header(node@).eh_entries,
                i <= n,
                out@ == before + node_leaves(node@).take(i as int),
            decreases n - i,
        {
            out.push(read_leaf(node, 12 + 12 * i));
            assert(out@ =~= before + node_leaves(node@).take(i + 1));
            i = i + 1;
        }
        assert(node_leaves(node@).take(n as int) =~= node_leaves(node@));
    } else {
        assert(before =~= before + Seq::<ExtentLeaf>::empty());
        while i < n
            invariant
                sb.wf(),
                node_fault(node@) is None,
                h == header(node@),
                n == header(node@).eh_entries,
                i <= n,
                child_leaves(dev.bytes(), sb.block_size, node@, i as int, hops as nat) is Ok,
                out@ == before + child_leaves(
                    dev.bytes(),
                    sb.block_size,
                    node@,
                    i as int,
                    hops as nat,
                )->Ok_0,
                h.eh_depth != 0,
                before == old(out)@,
                out@.len() >= 0,
            decreases n - i,
        {
            let ghost done = child_leaves(
                dev.bytes(),
                sb.block_size,
                node@,
                i as int,
                hops as nat,
            )->Ok_0;
            let idx = read_idx(node, 12 + 12 * i);
            assert(idx == node_idxs(node@)[i as int]);
            if hops == 0 {
                proof {
                    lemma_child_err(
                        dev.bytes(),
                        sb.block_size,
                        node@,
                        i + 1,
                        n as int,
                        hops as nat,
                    );
                }
                return Err(ExtentError::DepthExceeded(h.eh_depth));
            }
            let child = match block_device::read_block(dev, sb.block_size, idx.child_block()) {
                Ok(d) => d,
                Err(e) => {
                    proof {
                        if dev.reliable() {
                            lemma_child_err(
                                dev.bytes(),
                                sb.block_size,
                                node@,
                                i + 1,
                                n as int,
                                hops as nat,
                            );
                        }
                    }
                    return Err(ExtentError::BlockDevice(e));
                },
            };
            match collect_leaves(dev, sb, child.as_slice(), hops - 1, out) {
                Ok(()) => {
                    let ghost more = tree_leaves(
                        dev.bytes(),
                        sb.block_size,
                        child@,
                        (hops - 1) as nat,
                    )->Ok_0;
                    assert((before + done) + more =~= before + (done + more));
                },
                Err(e) => {
                    proof {
                        if dev.reliable() {
                            lemma_child_err(
                                dev.bytes(),
                                sb.block_size,
                                node@,
                                i + 1,
                                n as int,
                                hops as nat,
                            );
                        }
                    }
                    return Err(e);
                },
            }
            i = i + 1;
        }
    }
    Ok(())
}

/// An error under the first children is the error of the whole node.
proof fn lemma_child_err(disk: Seq<u8>, bs: u32, node: Seq<u8>, k: int, n: int, hops: nat)
    requires
        k <= n,
        child_leaves(disk, bs, node, k, hops) is Err,
    ensures
        child_leaves(disk, bs, node, n, hops) == child_leaves(disk, bs, node, k, hops),
    decreases n - k,
{
    if k < n {
        lemma_child_err(disk, bs, node, k, n - 1, hops);
    }
}

/// Put leaves in the order of their first logical block, without moving those
/// that start alike past each other.
pub(crate) fn sort_leaves(leaves: &Vec<ExtentLeaf>) -> (out: Vec<ExtentLeaf>)
    ensures
        out@ == in_order(leaves@),
{
    let mut out: Vec<ExtentLeaf> = Vec::new();
    let mut i: usize = 0;
    while i < leaves.len()
        invariant
            i <= leaves@.len(),
            out@ == in_order(leaves@.take(i as int)),
        decreases leaves@.len() - i,
    {
        let leaf = leaves[i];
        let ghost rest = out@;
        proof {
            assert(leaves@.take(i + 1).drop_last() =~= leaves@.take(i as int));
            lemma_in_order(leaves@.take(i as int));
        }
        let mut p: usize = out.len();
        assert(rest.take(p as int) =~= rest);
        while p > 0 && out[p - 1].ee_block > leaf.ee_block
            invariant
                out@ == rest,
                p <= rest.len(),
                place(rest, leaf.ee_block) == place(rest.take(p as int), leaf.ee_block),
            decreases p,
        {
            assert(rest.take(p as int).drop_last() =~= rest.take(p - 1));
            p = p - 1;
        }
        assert(place(rest, leaf.ee_block) == p);
        out.insert(p, leaf);
        i = i + 1;
    }
    assert(leaves@.take(leaves@.len() as int) =~= leaves@);
    out
}

/// Walks the logical blocks of a file, each with its physical block.
pub struct ExtentIter {
    leaves: Vec<ExtentLeaf>,
    leaf_idx: usize,
    next_lblock: u64,
    total_lblocks: u64,
}

/// The first leaf from number `i` on that does not end before `lblock`.
pub open spec fn not_passed(leaves: Seq<ExtentLeaf>, i: int, lblock: int) -> int
    decreases leaves.len() - i,
{
    if i < leaves.len() && leaves[i].ee_block + leaves[i].blocks() <= lblock {
        not_passed(leaves, i + 1, lblock)
    } else {
        i
    }
}

/// The physical block of `lblock`, given that leaf `j` is the first that does
/// not end before it.
pub open spec fn phys_in(leaves: Seq<ExtentLeaf>, j: int, lblock: int) -> Option<u64> {
    if j >= leaves.len() || lblock < leaves[j].ee_block || leaves[j].uninit() {
        None
    } else {
        Some((leaves[j].phys() + lblock - leaves[j].ee_block) as u64)
    }
}

impl ExtentIter {
    /// The leaves that are walked.
    pub closed spec fn leaves(&self) -> Seq<ExtentLeaf> {
        self.leaves@
    }

    /// The leaf that the walk has come to.
    pub closed spec fn position(&self) -> int {
        self.leaf_idx as int
    }

    /// The logical block that comes next.
    pub closed spec fn lblock(&self) -> u64 {
        self.next_lblock
    }

    /// How many logical blocks the file has.
    pub closed spec fn total(&self) -> u64 {
        self.total_lblocks
    }

    pub fn new<D: BlockDevice>(dev: &D, sb: &Superblock, inode: &Inode) -> (r: Result<
        Self,
        ExtentError,
    >)
        requires
            sb.wf(),
        ensures
            r is Ok || dev.reliable() ==> match file_leaves(
                dev.bytes(),
                *sb,
                inode@.uses_extents(),
                inode@.block_data,
            ) {
                Ok(v) => {
                    &&& r is Ok
                    &&& r->Ok_0.leaves() == in_order(v)
                    &&& r->Ok_0.position() == 0
                    &&& r->Ok_0.lblock() == 0
                    &&& r->Ok_0.total() == bytes::ceil_div(inode.size as int, sb.block_size as int)
                },
                Err(e) => r is Err && r->Err_0 == e,
            },
    {
        let mut leaves: Vec<ExtentLeaf> = Vec::new();
        match collect_leaves_pub(dev, sb, inode, &mut leaves) {
            Ok(()) => {},
            Err(e) => {
                return Err(e);
            },
        }
        proof {
            let v = file_leaves(dev.bytes(), *sb, inode@.uses_extents(), inode@.block_data)->Ok_0;
            assert(Seq::<ExtentLeaf>::empty() + v =~= v);
        }
        let leaves = sort_leaves(&leaves);
        let total_lblocks: u64 = bytes::div_ceil(inode.size, sb.block_size as u64);
        Ok(ExtentIter { leaves, leaf_idx: 0, next_lblock: 0, total_lblocks })
    }

    /// The next logical block with its physical block, until the file ends.
    /// No physical block means a hole, or an extent that is not initialised.
    pub fn next(&mut self) -> (r: Option<Result<(u64, Option<u64>), ExtentError>>)
        ensures
            final(self).leaves() == old(self).leaves(),
            final(self).total() == old(self).total(),
            if old(self).lblock() >= old(self).total() {
                r is None && *final(self) == *old(self)
            } else {
                let j = not_passed(
                    old(self).leaves(),
                    old(self).position(),
                    old(self).lblock() as int,
                );
                &&& r == Some(
                    Ok::<(u64, Option<u64>), ExtentError>(
                        (
                            old(self).lblock(),
                            phys_in(old(self).leaves(), j, old(self).lblock() as int),
                        ),
                    ),
                )
                &&& final(self).lblock() == old(self).lblock() + 1
                &&& final(self).position() == j
            },
    {
        if self.next_lblock >= self.total_lblocks {
            return None;
        }
        let lblock: u64 = self.next_lblock;
        self.next_lblock = lblock + 1;
        while self.leaf_idx < self.leaves.len()
            invariant
                self.leaves == old(self).leaves,
                self.total_lblocks == old(self).total_lblocks,
                self.next_lblock == lblock + 1,
                lblock == old(self).next_lblock,
                lblock < self.total_lblocks,
                not_passed(old(self).leaves@, old(self).leaf_idx as int, lblock as int)
                    == not_passed(self.leaves@, self.leaf_idx as int, lblock as int),
            decreases self.leaves@.len() - self.leaf_idx,
        {
            let leaf = self.leaves[self.leaf_idx];
            let first: u64 = leaf.ee_block as u64;
            let count: u64 = leaf.length() as u64;
            if lblock < first {
                return Some(Ok((lblock, None)));
            }
            if lblock < first + count {
                let phys: Option<u64> = if leaf.ee_len > MAX_INIT_LEN {
                    None
                } else {
                    Some(leaf.start() + (lblock - first))
                };
                return Some(Ok((lblock, phys)));
            }
            self.leaf_idx = self.leaf_idx + 1;
        }
        Some(Ok((lblock, None)))
    }
}

} // verus!
