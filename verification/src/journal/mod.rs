//! The journal: replaying what a crash left behind, and writing transactions.
use vstd::prelude::*;
use crate::block_device;
use crate::block_device::{BlockDevice, BlockDeviceError};
use crate::bytes;
use crate::extent;
use crate::extent::{ExtentError, ExtentLeaf, MAX_INIT_LEN};
use crate::group_desc::{GroupDesc, GroupDescTable};
use crate::inode;
use crate::inode::InodeError;
use crate::superblock::Superblock;

pub mod laws;
pub mod mount;
pub mod replay;
pub mod superblock;
pub mod writer;

pub use self::superblock::{JournalSuperblock, RawJournalSuperblock, JOURNAL_MAGIC};

verus! {

/// The inode that holds the journal.
pub const EXT4_JOURNAL_INO: u32 = 8;

/// What can go wrong with the journal.
#[derive(Debug)]
pub enum JournalError {
    BadMagic(u32),
    /// The journal has no such block.
    BlockOutOfRange(u32),
    /// The journal carries an error number: the volume needs repair.
    JournalErrno(i32),
    UnsupportedFeatures(u32),
    BlockDevice(BlockDeviceError),
    Inode(InodeError),
    Extent(ExtentError),
    InvalidBuffer,
    /// The number of blocks, and the first usable one, do not fit together.
    InvalidGeometry(u32, u32),
}

/// A loaded journal: where its blocks lie, and its superblock.
pub struct Journal {
    /// The physical block of each block of the journal.
    pub blocks: Vec<u64>,
    pub sb: JournalSuperblock,
}

/// What reading block `j` of a journal gives.
pub open spec fn journal_block(disk: Seq<u8>, bs: u32, blocks: Seq<u64>, j: u32) -> Result<
    Seq<u8>,
    JournalError,
> {
    if j >= blocks.len() {
        Err(JournalError::BlockOutOfRange(j))
    } else {
        match block_device::block_at(disk, bs, blocks[j as int]) {
            Err(e) => Err(JournalError::BlockDevice(e)),
            Ok(b) => Ok(b),
        }
    }
}

/// The physical blocks of a file whose leaves are `leaves`, in order, and
/// which has `n` logical blocks; 0 stands for a hole.
pub open spec fn block_map(leaves: Seq<ExtentLeaf>, n: int) -> Seq<u64> {
    Seq::new(n as nat, |l: int| extent::mapped(leaves, l as u64).unwrap_or(0))
}

/// Where the blocks of the journal lie.
pub open spec fn journal_blocks(disk: Seq<u8>, sb: Superblock, gdt: Seq<GroupDesc>) -> Result<
    Seq<u64>,
    JournalError,
> {
    match inode::inode_at(disk, sb, gdt, EXT4_JOURNAL_INO) {
        Err(e) => Err(JournalError::Inode(e)),
        Ok(i) => match extent::file_leaves(disk, sb, i.uses_extents(), i.block_data) {
            Err(e) => Err(JournalError::Extent(e)),
            Ok(v) => Ok(
                block_map(
                    extent::in_order(v),
                    bytes::ceil_div(i.size as int, sb.block_size as int),
                ),
            ),
        },
    }
}

/// What is wrong with the journal superblock in the bytes `s`, if anything.
pub open spec fn superblock_fault(s: Seq<u8>) -> Option<JournalError> {
    superblock::fault(
        bytes::be32(s, 0),
        bytes::be32(s, 40),
        bytes::be32(s, 16),
        bytes::be32(s, 20),
    )
}

/// Whether `j` is what the bytes `s` of the journal's superblock say.
pub open spec fn superblock_reads(j: JournalSuperblock, s: Seq<u8>) -> bool {
    &&& j.block_size == bytes::be32(s, 12)
    &&& j.total_blocks == bytes::be32(s, 16)
    &&& j.first_usable_block == bytes::be32(s, 20)
    &&& j.start_sequence == bytes::be32(s, 24)
    &&& j.start_block == bytes::be32(s, 28)
    &&& j.errno == bytes::be32(s, 32) as i32
    &&& j.feature_incompat == bytes::be32(s, 40)
    &&& j.uuid@ == s.subrange(48, 64)
}

impl Journal {
    /// Whether this is the journal that loading from `disk` gives.
    pub open spec fn is_on(&self, disk: Seq<u8>, sb: Superblock, gdt: Seq<GroupDesc>) -> bool {
        &&& journal_blocks(disk, sb, gdt) == Ok::<Seq<u64>, JournalError>(self.blocks@)
        &&& journal_block(disk, sb.block_size, self.blocks@, 0) is Ok
        &&& superblock_fault(journal_block(disk, sb.block_size, self.blocks@, 0)->Ok_0) is None
        &&& superblock_reads(
            self.sb,
            journal_block(disk, sb.block_size, self.blocks@, 0)->Ok_0,
        )
    }

    /// Load the journal from its inode.
    pub fn load<D: BlockDevice>(dev: &D, fs_sb: &Superblock, gdt: &GroupDescTable) -> (r: Result<
        Self,
        JournalError,
    >)
        requires
            fs_sb.wf(),
        ensures
            r is Ok || dev.reliable() ==> match journal_blocks(dev.bytes(), *fs_sb, gdt@) {
                Err(e) => r is Err && r->Err_0 == e,
                Ok(blocks) => match journal_block(dev.bytes(), fs_sb.block_size, blocks, 0) {
                    Err(e) => r is Err && r->Err_0 == e,
                    Ok(s) => match superblock_fault(s) {
                        Some(e) => r is Err && r->Err_0 == e,
                        None => r is Ok && r->Ok_0.is_on(dev.bytes(), *fs_sb, gdt@),
                    },
                },
            },
    {
        let i = match inode::read_inode(dev, fs_sb, gdt, EXT4_JOURNAL_INO) {
            Ok(i) => i,
            Err(e) => {
                return Err(JournalError::Inode(e));
            },
        };
        let mut leaves: Vec<ExtentLeaf> = Vec::new();
        match extent::collect_leaves_pub(dev, fs_sb, &i, &mut leaves) {
            Ok(()) => {},
            Err(e) => {
                return Err(JournalError::Extent(e));
            },
        }
        proof {
            let v = extent::file_leaves(
                dev.bytes(),
                *fs_sb,
                i@.uses_extents(),
                i@.block_data,
            )->Ok_0;
            assert(Seq::<ExtentLeaf>::empty() + v =~= v);
        }
        let leaves = extent::sort_leaves(&leaves);
        let n: u64 = bytes::div_ceil(i.size, fs_sb.block_size as u64);
        let mut blocks: Vec<u64> = Vec::new();
        let mut l: u64 = 0;
        while l < n
            invariant
                l <= n,
                blocks@ == block_map(leaves@, l as int),
            decreases n - l,
        {
            let phys: u64 = match find_phys(&leaves, l) {
                Some(p) => p,
                None => 0,
            };
            blocks.push(phys);
            l = l + 1;
            assert(blocks@ =~= block_map(leaves@, l as int));
        }
        let sb = match read_journal_superblock(dev, fs_sb, &blocks) {
            Ok(sb) => sb,
            Err(e) => {
                return Err(e);
            },
        };
        Ok(Journal { blocks, sb })
    }

    /// Read block `jblock` of the journal into `buf`, which gets the size of a
    /// block of the volume.
    pub fn read_block<D: BlockDevice>(
        &self,
        dev: &D,
        fs_sb: &Superblock,
        jblock: u32,
        buf: &mut Vec<u8>,
    ) -> (r: Result<(), JournalError>)
        requires
            fs_sb.wf(),
        ensures
            r is Ok || dev.reliable() ==> match journal_block(
                dev.bytes(),
                fs_sb.block_size,
                self.blocks@,
                jblock,
            ) {
                Ok(b) => r is Ok && final(buf)@ == b,
                Err(e) => r is Err && r->Err_0 == e,
            },
            r is Ok ==> final(buf)@.len() == fs_sb.block_size,
            r is Err ==> final(buf)@ == old(buf)@,
            jblock >= self.blocks@.len() ==> r == Err::<(), JournalError>(
                JournalError::BlockOutOfRange(jblock),
            ),
            jblock < self.blocks@.len() && r is Err ==> r->Err_0 is BlockDevice,
    {
        if jblock as usize >= self.blocks.len() {
            return Err(JournalError::BlockOutOfRange(jblock));
        }
        match block_device::read_block(dev, fs_sb.block_size, self.blocks[jblock as usize]) {
            Ok(b) => {
                *buf = b;
                Ok(())
            },
            Err(e) => Err(JournalError::BlockDevice(e)),
        }
    }
}

fn find_phys(leaves: &Vec<ExtentLeaf>, lblock: u64) -> (r: Option<u64>)
    ensures
        r == extent::mapped(leaves@, lblock),
{
    let mut i: usize = 0;
    assert(leaves@.take(0) =~= Seq::<ExtentLeaf>::empty());
    while i < leaves.len()
        invariant
            i <= leaves@.len(),
            extent::mapped(leaves@.take(i as int), lblock) is None,
        decreases leaves@.len() - i,
    {
        let leaf = leaves[i];
        assert(leaves@.take(i + 1).drop_last() =~= leaves@.take(i as int));
        let first: u64 = leaf.ee_block as u64;
        if leaf.ee_len <= MAX_INIT_LEN && lblock >= first && lblock < first + leaf.ee_len as u64 {
            proof {
                extent::lemma_mapped_prefix(leaves@, i + 1, lblock);
            }
            return Some(leaf.start() + (lblock - first));
        }
        i = i + 1;
    }
    assert(leaves@.take(leaves@.len() as int) =~= leaves@);
    None
}

fn read_journal_superblock<D: BlockDevice>(dev: &D, fs_sb: &Superblock, blocks: &Vec<u64>) -> (r:
    Result<JournalSuperblock, JournalError>)
    requires
        fs_sb.wf(),
    ensures
        r is Ok || dev.reliable() ==> match journal_block(
            dev.bytes(),
            fs_sb.block_size,
            blocks@,
            0,
        ) {
            Err(e) => r is Err && r->Err_0 == e,
            Ok(s) => match superblock_fault(s) {
                Some(e) => r is Err && r->Err_0 == e,
                None => r is Ok && superblock_reads(r->Ok_0, s),
            },
        },
{
    if blocks.len() == 0 {
        return Err(JournalError::BlockOutOfRange(0));
    }
    let data = match block_device::read_block(dev, fs_sb.block_size, blocks[0]) {
        Ok(b) => b,
        Err(e) => {
            return Err(JournalError::BlockDevice(e));
        },
    };
    let head = bytes::copy_range(data.as_slice(), 0, superblock::JOURNAL_SUPERBLOCK_SIZE);
    proof {
        bytes::lemma_be32_part(data@, 0, 1024, 0);
        bytes::lemma_be32_part(data@, 0, 1024, 12);
        bytes::lemma_be32_part(data@, 0, 1024, 16);
        bytes::lemma_be32_part(data@, 0, 1024, 20);
        bytes::lemma_be32_part(data@, 0, 1024, 24);
        bytes::lemma_be32_part(data@, 0, 1024, 28);
        bytes::lemma_be32_part(data@, 0, 1024, 32);
        bytes::lemma_be32_part(data@, 0, 1024, 40);
        assert(head@.subrange(48, 64) =~= data@.subrange(48, 64));
    }
    match RawJournalSuperblock::read_from(head.as_slice()) {
        None => Err(JournalError::InvalidBuffer),
        Some(raw) => superblock::parse(&raw),
    }
}

/// Whether loading and replaying the journal on `disk` leaves `after`, and
/// gives `r`.
pub open spec fn recovery(
    disk: Seq<u8>,
    sb: Superblock,
    gdt: Seq<GroupDesc>,
    after: Seq<u8>,
    r: Result<Journal, JournalError>,
) -> bool {
    match journal_blocks(disk, sb, gdt) {
        Err(e) => r is Err && r->Err_0 == e && after == disk,
        Ok(blocks) => match journal_block(disk, sb.block_size, blocks, 0) {
            Err(e) => r is Err && r->Err_0 == e && after == disk,
            Ok(s) => match superblock_fault(s) {
                Some(e) => r is Err && r->Err_0 == e && after == disk,
                None => exists|j: Journal|
                    #![trigger j.is_on(disk, sb, gdt)]
                    j.is_on(disk, sb, gdt) && if j.sb.errno != 0 {
                        r is Err && r->Err_0 == JournalError::JournalErrno(j.sb.errno) && after
                            == disk
                    } else {
                        let (disk2, x) = replay::replayed(disk, sb, j);
                        &&& after == disk2
                        &&& match x {
                            Err(e) => r is Err && r->Err_0 == e,
                            Ok(()) => r is Ok && r->Ok_0 == j,
                        }
                    },
            },
        },
    }
}

/// Load the journal, and replay it if it is not clean. A journal that carries
/// an error number is refused.
pub fn check_and_recover<D: BlockDevice>(
    dev: &mut D,
    fs_sb: &Superblock,
    gdt: &GroupDescTable,
) -> (r: Result<Journal, JournalError>)
    requires
        fs_sb.wf(),
    ensures
        block_device::same_shape(*old(dev), *final(dev)),
        r is Ok || old(dev).reliable() ==> recovery(
            old(dev).bytes(),
            *fs_sb,
            gdt@,
            final(dev).bytes(),
            r,
        ),
{
    let journal = match Journal::load(dev, fs_sb, gdt) {
        Ok(j) => j,
        Err(e) => {
            return Err(e);
        },
    };
    if journal.sb.errno != 0 {
        return Err(JournalError::JournalErrno(journal.sb.errno));
    }
    match replay::replay(dev, fs_sb, &journal) {
        Ok(()) => Ok(journal),
        Err(e) => Err(e),
    }
}

} // verus!
