//! Reading files and symbolic links.
use vstd::prelude::*;
use crate::block_device;
use crate::block_device::{BlockDevice, BlockDeviceError};
use crate::bytes;
use crate::extent;
use crate::extent::{ExtentError, ExtentLeaf, MAX_INIT_LEN};
use crate::inode::{Inode, InodeView};
use crate::superblock::Superblock;
use crate::text;

verus! {

/// Why a file cannot be read.
#[derive(Debug)]
pub enum FileError {
    /// Neither a regular file nor a symbolic link.
    NotAFile,
    /// The link's target is not in its inode.
    SlowSymlink,
    Extent(ExtentError),
    BlockDevice(BlockDeviceError),
}

/// Where to move the position of a reader.
#[derive(Debug, Clone, Copy)]
pub enum SeekTo {
    /// From the start of the file.
    Start(u64),
    /// From its end.
    End(i64),
    /// From the position.
    Current(i64),
}

/// Why a position was not moved.
#[derive(Debug, Clone, Copy, PartialEq, Eq, Structural)]
pub enum SeekError {
    /// The offset is too large.
    TooLarge,
    /// The new position cannot be expressed.
    OutOfRange,
    /// The new position lies before the start of the file.
    BeforeStart,
}

/// How many leaves, in order, start at or before `lblock`.
pub open spec fn started(leaves: Seq<ExtentLeaf>, lblock: int) -> int
    decreases leaves.len(),
{
    if leaves.len() == 0 {
        0
    } else if leaves.last().ee_block <= lblock {
        leaves.len() as int
    } else {
        started(leaves.drop_last(), lblock)
    }
}

/// The physical block of `lblock`: the last leaf that starts at or before it
/// decides. `None` is a hole, or an extent that is not initialised.
pub open spec fn resolved(leaves: Seq<ExtentLeaf>, lblock: int) -> Option<u64> {
    let k = started(leaves, lblock);
    if k == 0 {
        None
    } else {
        let leaf = leaves[k - 1];
        if leaf.uninit() || lblock >= leaf.ee_block + leaf.ee_len {
            None
        } else {
            Some((leaf.phys() + lblock - leaf.ee_block) as u64)
        }
    }
}

/// The contents of logical block `lblock`; a hole reads as zeros.
pub open spec fn lblock_bytes(
    disk: Seq<u8>,
    bs: u32,
    leaves: Seq<ExtentLeaf>,
    lblock: int,
) -> Result<
    Seq<u8>,
    BlockDeviceError,
> {
    match resolved(leaves, lblock) {
        None => Ok(bytes::zeros(bs as int)),
        Some(p) => block_device::block_at(disk, bs, p),
    }
}

/// The byte at offset `o` of the file.
pub open spec fn file_byte(disk: Seq<u8>, bs: u32, leaves: Seq<ExtentLeaf>, o: int) -> u8 {
    lblock_bytes(disk, bs, leaves, o / (bs as int))->Ok_0[o % (bs as int)]
}

/// The error of the first block that cannot be read, of those that hold the
/// bytes from `from` to `to` of the file.
pub open spec fn read_fault(
    disk: Seq<u8>,
    bs: u32,
    leaves: Seq<ExtentLeaf>,
    from: int,
    to: int,
) -> Option<BlockDeviceError>
    decreases to + 0x1_0000_0000 - from,
{
    if from >= to || bs == 0 {
        None
    } else {
        match lblock_bytes(disk, bs, leaves, from / (bs as int)) {
            Err(e) => Some(e),
            Ok(_) => read_fault(disk, bs, leaves, from + bs - from % (bs as int), to),
        }
    }
}

/// The fault of a stretch that starts with a block is the fault of its first
/// `n` bytes, at most a block, or else that of the rest.
pub proof fn lemma_read_fault_step(
    disk: Seq<u8>,
    bs: u32,
    leaves: Seq<ExtentLeaf>,
    from: int,
    n: int,
    to: int,
)
    requires
        bs > 0,
        0 <= from,
        from % (bs as int) == 0,
        0 < n <= bs,
        from + n <= to,
        n == bs || from + n == to,
    ensures
        read_fault(disk, bs, leaves, from, to) == (match read_fault(
            disk,
            bs,
            leaves,
            from,
            from + n,
        ) {
            Some(e) => Some(e),
            None => read_fault(disk, bs, leaves, from + n, to),
        }),
{
    assert(read_fault(disk, bs, leaves, from + bs, from + n) is None);
    if n < bs {
        assert(read_fault(disk, bs, leaves, from + bs, to) is None);
        assert(read_fault(disk, bs, leaves, from + n, to) is None);
    }
}

/// How many extents start at or before a block, where the first `k` do.
pub proof fn lemma_started(leaves: Seq<ExtentLeaf>, lblock: int, k: int)
    requires
        0 <= k <= leaves.len(),
        forall|i: int| 0 <= i < k ==> (#[trigger] leaves[i]).ee_block <= lblock,
        forall|i: int| k <= i < leaves.len() ==> (#[trigger] leaves[i]).ee_block > lblock,
    ensures
        started(leaves, lblock) == k,
    decreases leaves.len(),
{
    if leaves.len() > 0 {
        let d = leaves.drop_last();
        if k < leaves.len() {
            assert(leaves[leaves.len() - 1].ee_block > lblock);
            assert forall|i: int| 0 <= i < k implies (#[trigger] d[i]).ee_block <= lblock by {
                assert(leaves[i].ee_block <= lblock);
            }
            assert forall|i: int| k <= i < d.len() implies (#[trigger] d[i]).ee_block
                > lblock by {
                assert(leaves[i].ee_block > lblock);
            }
            lemma_started(d, lblock, k);
        } else {
            assert(leaves[leaves.len() - 1].ee_block <= lblock);
        }
    }
}

/// Reads a file from a position on. Its extents are gathered once.
pub struct FileReader<'a, D: BlockDevice> {
    dev: &'a D,
    sb: &'a Superblock,
    inode: &'a Inode,
    position: u64,
    leaves: Vec<ExtentLeaf>,
}

impl<'a, D: BlockDevice> FileReader<'a, D> {
    /// The leaves are in order, and the volume's geometry is valid.
    pub closed spec fn wf(&self) -> bool {
        extent::ordered(self.leaves@) && self.sb.wf()
    }

    /// The device that is read.
    pub closed spec fn device(&self) -> D {
        *self.dev
    }

    pub closed spec fn block_size(&self) -> u32 {
        self.sb.block_size
    }

    /// The file's extents, in order.
    pub closed spec fn extents(&self) -> Seq<ExtentLeaf> {
        self.leaves@
    }

    /// The inode of the file.
    pub closed spec fn file(&self) -> InodeView {
        self.inode@
    }

    /// Where the next read starts.
    pub closed spec fn pos(&self) -> u64 {
        self.position
    }

    pub fn new(dev: &'a D, sb: &'a Superblock, inode: &'a Inode) -> (r: Result<Self, FileError>)
        requires
            sb.wf(),
        ensures
            r is Ok || dev.reliable() ==> if !inode@.is_file() && !inode@.is_symlink() {
                r is Err && r->Err_0 is NotAFile
            } else {
                match extent::file_leaves(
                    dev.bytes(),
                    *sb,
                    inode@.uses_extents(),
                    inode@.block_data,
                ) {
                    Err(e) => r is Err && r->Err_0 == FileError::Extent(e),
                    Ok(v) => r is Ok && r->Ok_0.extents() == extent::in_order(v),
                }
            },
            r is Ok ==> {
                &&& r->Ok_0.wf()
                &&& r->Ok_0.device() == *dev
                &&& r->Ok_0.block_size() == sb.block_size
                &&& r->Ok_0.file() == inode@
                &&& r->Ok_0.pos() == 0
            },
    {
        if !inode.is_file() && !inode.is_symlink() {
            return Err(FileError::NotAFile);
        }
        let mut leaves: Vec<ExtentLeaf> = Vec::new();
        match extent::collect_leaves_pub(dev, sb, inode, &mut leaves) {
            Ok(()) => {},
            Err(e) => {
                return Err(FileError::Extent(e));
            },
        }
        proof {
            let v = extent::file_leaves(
                dev.bytes(),
                *sb,
                inode@.uses_extents(),
                inode@.block_data,
            )->Ok_0;
            assert(Seq::<ExtentLeaf>::empty() + v =~= v);
            extent::lemma_in_order(leaves@);
        }
        let leaves = extent::sort_leaves(&leaves);
        Ok(FileReader { dev, sb, inode, position: 0, leaves })
    }

    pub fn size(&self) -> (n: u64)
        ensures
            n == self.file().size,
    {
        self.inode.size
    }

    /// The volume's block size, as a length to read.
    pub(crate) fn chunk(&self) -> (n: usize)
        ensures
            n == self.block_size(),
    {
        self.sb.block_size as usize
    }

    /// The physical block of a logical block, by binary search.
    fn resolve_lblock(&self, lblock: u64) -> (r: Option<u64>)
        requires
            self.wf(),
        ensures
            r == resolved(self.leaves@, lblock as int),
            r is Some ==> r->Some_0 < 0x2_0000_0000_0000,
    {
        let mut lo: usize = 0;
        let mut hi: usize = self.leaves.len();
        while lo < hi
            invariant
                extent::ordered(self.leaves@),
                lo <= hi <= self.leaves@.len(),
                forall|i: int| 0 <= i < lo ==> (#[trigger] self.leaves@[i]).ee_block <= lblock,
                forall|i: int|
                    hi <= i < self.leaves@.len() ==> (#[trigger] self.leaves@[i]).ee_block
                        > lblock,
            decreases hi - lo,
        {
            let mid: usize = lo + (hi - lo) / 2;
            if self.leaves[mid].ee_block as u64 <= lblock {
                lo = mid + 1;
            } else {
                hi = mid;
            }
        }
        proof {
            lemma_started(self.leaves@, lblock as int, lo as int);
        }
        if lo == 0 {
            return None;
        }
        let leaf = self.leaves[lo - 1];
        if leaf.ee_len > MAX_INIT_LEN {
            return None;
        }
        let first: u64 = leaf.ee_block as u64;
        if lblock < first + leaf.ee_len as u64 {
            Some(leaf.start() + (lblock - first))
        } else {
            None
        }
    }

    fn read_lblock(&self, lblock: u64) -> (r: Result<Vec<u8>, BlockDeviceError>)
        requires
            self.wf(),
        ensures
            r is Ok || self.device().reliable() ==> block_device::bytes_of(r) == lblock_bytes(
                self.device().bytes(),
                self.block_size(),
                self.extents(),
                lblock as int,
            ),
            r is Ok ==> r->Ok_0@.len() == self.block_size(),
    {
        match self.resolve_lblock(lblock) {
            None => Ok(bytes::zero_vec(self.sb.block_size as usize)),
            Some(p) => block_device::read_block(self.dev, self.sb.block_size, p),
        }
    }

    /// Read bytes into `buf` from the position on, and move the position behind
    /// them. Returns how many: `buf`'s length, or what is left of the file.
    pub fn read(&mut self, buf: &mut [u8]) -> (r: Result<usize, FileError>)
        requires
            old(self).wf(),
        ensures
            final(self).wf(),
            final(self).device() == old(self).device(),
            final(self).block_size() == old(self).block_size(),
            final(self).extents() == old(self).extents(),
            final(self).file() == old(self).file(),
            final(buf)@.len() == old(buf)@.len(),
            r is Err ==> final(self).pos() == old(self).pos(),
            r is Ok || old(self).device().reliable() ==> ({
                let disk = old(self).device().bytes();
                let bs = old(self).block_size();
                let leaves = old(self).extents();
                let from = old(self).pos() as int;
                let left = old(self).file().size - from;
                let n = if left <= 0 {
                    0
                } else if old(buf)@.len() < left {
                    old(buf)@.len() as int
                } else {
                    left
                };
                match read_fault(disk, bs, leaves, from, from + n) {
                    Some(e) => r is Err && r->Err_0 == FileError::BlockDevice(e),
                    None => {
                        &&& r is Ok
                        &&& r->Ok_0 == n
                        &&& final(self).pos() == from + n
                        &&& forall|i: int|
                            0 <= i < n ==> #[trigger] final(buf)@[i] == file_byte(
                                disk,
                                bs,
                                leaves,
                                from + i,
                            )
                        &&& forall|i: int|
                            n <= i < old(buf)@.len() ==> final(buf)@[i] == old(buf)@[i]
                    },
                }
            }),
    {
        if self.position >= self.inode.size {
            return Ok(0);
        }
        let remaining: u64 = self.inode.size - self.position;
        let n: usize = if (buf.len() as u64) < remaining {
            buf.len()
        } else {
            remaining as usize
        };
        let ghost disk = self.device().bytes();
        let ghost bs = self.block_size();
        let ghost leaves = self.extents();
        let ghost from = self.pos() as int;
        let block_size: u64 = self.sb.block_size as u64;
        let mut done: usize = 0;
        while done < n
            invariant
                self.wf(),
                *self == *old(self),
                disk == self.device().bytes(),
                bs == self.block_size(),
                leaves == self.extents(),
                from == self.position,
                self.position < self.inode.size,
                n == (if old(buf)@.len() < self.inode.size - from {
                    old(buf)@.len() as int
                } else {
                    self.inode.size - from
                }),
                block_size == bs,
                block_device::valid_block_size(bs),
                done <= n <= buf@.len(),
                buf@.len() == buf.len(),
                buf@.len() == old(buf)@.len(),
                from + n <= u64::MAX,
                done < n ==> read_fault(disk, bs, leaves, from, from + n) == read_fault(
                    disk,
                    bs,
                    leaves,
                    from + done,
                    from + n,
                ),
                done >= n ==> read_fault(disk, bs, leaves, from, from + n) is None,
                forall|i: int|
                    0 <= i < done ==> #[trigger] buf@[i] == file_byte(
                        disk,
                        bs,
                        leaves,
                        from + i,
                    ),
                forall|i: int| done <= i < buf@.len() ==> buf@[i] == old(buf)@[i],
            decreases n - done,
        {
            let file_off: u64 = self.position + done as u64;
            let lblock: u64 = file_off / block_size;
            let block_off: u64 = file_off % block_size;
            let room: u64 = block_size - block_off;
            let take: usize = if room < (n - done) as u64 {
                room as usize
            } else {
                n - done
            };
            let block = match self.read_lblock(lblock) {
                Ok(b) => b,
                Err(e) => {
                    return Err(FileError::BlockDevice(e));
                },
            };
            let part = bytes::copy_range(
                block.as_slice(),
                block_off as usize,
                block_off as usize + take,
            );
            let ghost before = buf@;
            bytes::put_slice(buf, done, part.as_slice());
            proof {
                let next = file_off + bs - block_off;
                assert(read_fault(disk, bs, leaves, file_off as int, from + n) == read_fault(
                    disk,
                    bs,
                    leaves,
                    next,
                    from + n,
                ));
                assert(next >= from + n ==> read_fault(disk, bs, leaves, next, from + n) is None);
                assert forall|i: int| 0 <= i < done + take implies #[trigger] buf@[i] == file_byte(
                    disk,
                    bs,
                    leaves,
                    from + i,
                ) by {
                    if i >= done {
                        lemma_same_block(file_off as int, i - done, bs as int);
                        assert(part@[i - done] == block@[block_off + (i - done)]);
                    } else {
                        assert(before[i] == file_byte(disk, bs, leaves, from + i));
                    }
                }
            }
            done = done + take;
        }
        self.position = self.position + n as u64;
        Ok(n)
    }

    /// Move the position. It never goes past the end of the file.
    pub fn seek(&mut self, to: SeekTo) -> (r: Result<u64, SeekError>)
        ensures
            final(self).wf() == old(self).wf(),
            final(self).device() == old(self).device(),
            final(self).block_size() == old(self).block_size(),
            final(self).extents() == old(self).extents(),
            final(self).file() == old(self).file(),
            r == sought(old(self).file().size, old(self).pos(), to),
            final(self).pos() == (match r {
                Ok(p) => p,
                Err(_) => old(self).pos(),
            }),
    {
        let target: i64 = match to {
            SeekTo::Start(n) => {
                if n > i64::MAX as u64 {
                    return Err(SeekError::TooLarge);
                }
                n as i64
            },
            SeekTo::End(n) => match (self.inode.size as i64).checked_add(n) {
                Some(p) => p,
                None => {
                    return Err(SeekError::OutOfRange);
                },
            },
            SeekTo::Current(n) => match (self.position as i64).checked_add(n) {
                Some(p) => p,
                None => {
                    return Err(SeekError::OutOfRange);
                },
            },
        };
        if target < 0 {
            return Err(SeekError::BeforeStart);
        }
        let p: u64 = target as u64;
        self.position = if p < self.inode.size {
            p
        } else {
            self.inode.size
        };
        Ok(self.position)
    }
}

/// Where a seek from `pos` in a file of the given size leads.
pub open spec fn sought(size: u64, pos: u64, to: SeekTo) -> Result<u64, SeekError> {
    let target: int = match to {
        SeekTo::Start(n) => n as int,
        SeekTo::End(n) => (size as i64) + n,
        SeekTo::Current(n) => (pos as i64) + n,
    };
    if to is Start && target > i64::MAX {
        Err(SeekError::TooLarge)
    } else if target > i64::MAX || target < i64::MIN {
        Err(SeekError::OutOfRange)
    } else if target < 0 {
        Err(SeekError::BeforeStart)
    } else if target < size {
        Ok(target as u64)
    } else {
        Ok(size)
    }
}

proof fn lemma_same_block(o: int, d: int, bs: int)
    requires
        bs > 0,
        0 <= o,
        0 <= d,
        o % bs + d < bs,
    ensures
        (o + d) / bs == o / bs,
        (o + d) % bs == o % bs + d,
{
    vstd::arithmetic::div_mod::lemma_fundamental_div_mod(o, bs);
    vstd::arithmetic::mul::lemma_mul_is_commutative(bs, o / bs);
    vstd::arithmetic::div_mod::lemma_fundamental_div_mod_converse(
        o + d,
        bs,
        o / bs,
        o % bs + d,
    );
}

/// What the inode of a symbolic link says its target is.
pub open spec fn symlink_target(i: InodeView) -> Result<Seq<char>, FileError> {
    if i.size < 60 {
        Ok(text::text_of(i.block_data.take(i.size as int)))
    } else {
        Err(FileError::SlowSymlink)
    }
}

/// The target of a symbolic link that is short enough to stand in its inode.
pub fn read_symlink(inode: &Inode) -> (r: Result<String, FileError>)
    ensures
        match symlink_target(inode@) {
            Ok(t) => r is Ok && r->Ok_0@ == t,
            Err(e) => r is Err && r->Err_0 == e,
        },
{
    if inode.size < 60 {
        let raw = bytes::copy_range(inode.block_data.as_slice(), 0, inode.size as usize);
        assert(raw@ =~= inode.block_data@.take(inode.size as int));
        Ok(text::from_utf8_lossy(raw.as_slice()))
    } else {
        Err(FileError::SlowSymlink)
    }
}

} // verus!
