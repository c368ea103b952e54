//! Writing the contents of files.
use vstd::prelude::*;
use crate::allocator::block_alloc;
use crate::allocator::{AllocError, Allocator};
use crate::block_device;
use crate::block_device::{BlockDevice, BlockDeviceError};
use crate::bytes;
use crate::extent;
use crate::extent::ExtentError;
use crate::extent_insert;
use crate::extent_write::ExtentWriteError;
use crate::fs_state;
use crate::fs_state::FsState;
use crate::group_desc::{GroupDescError, GroupDescTable};
use crate::inode;
use crate::inode::{Inode, InodeView};
use crate::journal::writer::Transaction;
use crate::journal::JournalError;
use crate::superblock::Superblock;

verus! {

/// Why data was not written.
#[derive(Debug)]
pub enum FileWriteError {
    BlockDevice(BlockDeviceError),
    Extent(ExtentError),
    ExtentWrite(ExtentWriteError),
    Journal(JournalError),
    GroupDesc(GroupDescError),
    Alloc(AllocError),
}

/// Most blocks that are asked of the allocator at once: the longest extent
/// that holds data.
pub const EXTENT_BATCH_MAX: u32 = 32768;

/// Where logical block `l` of a file lies.
pub open spec fn mapped_block(disk: Seq<u8>, sb: Superblock, i: InodeView, l: int) -> Result<
    Option<u64>,
    ExtentError,
> {
    extent::file_block(disk, sb, i.uses_extents(), i.block_data, l as u64)
}

/// Where the run of unmapped logical blocks ends that starts at `start`, given
/// that it reaches up to `e`: at the first mapped block, behind `last`, or
/// after the longest batch.
pub open spec fn run_end(
    disk: Seq<u8>,
    sb: Superblock,
    i: InodeView,
    start: int,
    e: int,
    last: int,
) -> Result<int, ExtentError>
    decreases last + 1 - e,
{
    if e > last || e - start >= EXTENT_BATCH_MAX {
        Ok(e)
    } else {
        match mapped_block(disk, sb, i, e) {
            Err(x) => Err(x),
            Ok(Some(_)) => Ok(e),
            Ok(None) => run_end(disk, sb, i, start, e + 1, last),
        }
    }
}

/// A run is never empty, and ends behind `last` at the latest.
pub proof fn lemma_run_end(
    disk: Seq<u8>,
    sb: Superblock,
    i: InodeView,
    start: int,
    e: int,
    last: int,
)
    requires
        start <= e,
        e - start <= EXTENT_BATCH_MAX,
        e <= last + 1,
    ensures
        run_end(disk, sb, i, start, e, last) is Ok ==> e <= run_end(
            disk,
            sb,
            i,
            start,
            e,
            last,
        )->Ok_0 <= last + 1 && run_end(disk, sb, i, start, e, last)->Ok_0 - start
            <= EXTENT_BATCH_MAX,
    decreases last + 1 - e,
{
    if e <= last && e - start < EXTENT_BATCH_MAX {
        lemma_run_end(disk, sb, i, start, e + 1, last);
    }
}

/// Allocating `want` blocks in a row, or half of that as often as it fails.
/// Gives the first block, and how many there are.
pub open spec fn shrinking(st: FsState, sb: Superblock, want: u32, hint: u64) -> (
    FsState,
    Result<(u64, u32), FileWriteError>,
)
    decreases want,
{
    let (s1, r1) = block_alloc::allocated(st, sb, want, hint);
    match r1 {
        Ok(p) => (s1, Ok((p, want))),
        Err(e) => if want <= 1 {
            (s1, Err(FileWriteError::Alloc(e)))
        } else {
            shrinking(s1, sb, want / 2, hint)
        },
    }
}

/// As many blocks are given as were wanted, or fewer, but at least one.
pub proof fn lemma_shrinking(st: FsState, sb: Superblock, want: u32, hint: u64)
    requires
        want > 0,
    ensures
        shrinking(st, sb, want, hint).1 is Ok ==> 0 < shrinking(st, sb, want, hint).1->Ok_0.1
            <= want,
    decreases want,
{
    if want > 1 {
        lemma_shrinking(block_alloc::allocated(st, sb, want, hint).0, sb, want / 2, hint);
    }
}

/// The blocks from `p` on, `n` of them.
pub open spec fn run(p: u64, n: int) -> Seq<u64> {
    Seq::new(n as nat, |i: int| (p + i) as u64)
}

/// Giving the file blocks for its `n` logical blocks from `l` on: they are allocated,
/// zeroed on the device, and mapped in the tree. Gives the blocks.
pub open spec fn filled(st: FsState, sb: Superblock, num: u32, hint: u64, l: int, n: int) -> (
    FsState,
    Result<Seq<u64>, FileWriteError>,
)
    decreases n,
{
    if n <= 0 || n > u32::MAX {
        (st, Ok(Seq::empty()))
    } else {
        let (s1, r1) = shrinking(st, sb, n as u32, hint);
        match r1 {
            Err(e) => (s1, Err(e)),
            Ok((p, got)) => {
                let at = p * (sb.block_size as int / 512);
                let zeros = bytes::zeros(got * sb.block_size);
                let s2 = FsState { disk: block_device::written(s1.disk, at, zeros), ..s1 };
                match block_device::write_result(s1.disk, at, zeros) {
                    Err(e) => (s2, Err(FileWriteError::BlockDevice(e))),
                    Ok(()) => {
                        let (s3, r3) = extent_insert::inserted(
                            s2,
                            sb,
                            num,
                            l,
                            p,
                            got as u16,
                        );
                        match r3 {
                            Err(e) => (s3, Err(FileWriteError::ExtentWrite(e))),
                            Ok(()) => {
                                proof {
                                    lemma_shrinking(st, sb, n as u32, hint);
                                }
                                let (s4, r4) = filled(s3, sb, num, hint, l + got, n - got);
                                match r4 {
                                    Err(e) => (s4, Err(e)),
                                    Ok(rest) => (s4, Ok(run(p, got as int) + rest)),
                                }
                            },
                        }
                    },
                }
            },
        }
    }
}

/// Finding a physical block for each of the logical blocks from `l` to `last`:
/// the one that the tree of the inode `i` maps it to, or a new one. Once blocks were
/// added, the inode is read again.
pub open spec fn provisioned(
    st: FsState,
    sb: Superblock,
    num: u32,
    i: InodeView,
    l: int,
    last: int,
) -> (FsState, Result<Seq<u64>, FileWriteError>)
    decreases last + 1 - l,
{
    if l > last {
        (st, Ok(Seq::empty()))
    } else {
        match mapped_block(st.disk, sb, i, l) {
            Err(e) => (st, Err(FileWriteError::Extent(e))),
            Ok(Some(p)) => {
                let (s1, r1) = provisioned(st, sb, num, i, l + 1, last);
                match r1 {
                    Err(e) => (s1, Err(e)),
                    Ok(rest) => (s1, Ok(seq![p] + rest)),
                }
            },
            Ok(None) => match run_end(st.disk, sb, i, l, l + 1, last) {
                Err(e) => (st, Err(FileWriteError::Extent(e))),
                Ok(end) => {
                    let hint = block_device::max(i.size as int / sb.block_size as int, l) as u64;
                    let (s1, r1) = filled(st, sb, num, hint, l, end - l);
                    match r1 {
                        Err(e) => (s1, Err(e)),
                        Ok(fresh) => {
                            proof {
                                lemma_run_end(st.disk, sb, i, l, l + 1, last);
                            }
                            match inode::inode_at(s1.disk, sb, s1.gdt, num) {
                                Err(e) => (
                                    s1,
                                    Err(FileWriteError::ExtentWrite(ExtentWriteError::Inode(e))),
                                ),
                                Ok(i2) => {
                                    let (s2, r2) = provisioned(s1, sb, num, i2, end, last);
                                    match r2 {
                                        Err(e) => (s2, Err(e)),
                                        Ok(rest) => (s2, Ok(fresh + rest)),
                                    }
                                },
                            }
                        },
                    }
                },
            },
        }
    }
}

/// How many blocks `len` bytes at `offset` touch.
pub open spec fn span(bs: int, offset: int, len: int) -> int {
    (offset + len - 1) / bs - offset / bs + 1
}

/// Where in the data the part starts that goes into the `k`-th block.
pub open spec fn part_start(bs: int, offset: int, k: int) -> int {
    if k == 0 {
        0
    } else {
        k * bs - offset % bs
    }
}

/// Where in the `k`-th block that part starts.
pub open spec fn part_offset(bs: int, offset: int, k: int) -> int {
    if k == 0 {
        offset % bs
    } else {
        0
    }
}

/// Where in the data that part ends.
pub open spec fn part_end(bs: int, offset: int, len: int, k: int) -> int {
    let e = (k + 1) * bs - offset % bs;
    if e < len {
        e
    } else {
        len
    }
}

/// The part of the data that goes into the `k`-th block.
pub open spec fn part(bs: int, offset: int, data: Seq<u8>, k: int) -> Seq<u8> {
    data.subrange(part_start(bs, offset, k), part_end(bs, offset, data.len() as int, k))
}

/// Whether that part is a whole block.
pub open spec fn is_whole(bs: int, offset: int, data: Seq<u8>, k: int) -> bool {
    part_offset(bs, offset, k) == 0 && part_end(bs, offset, data.len() as int, k) - part_start(
        bs,
        offset,
        k,
    ) == bs
}

/// Writing the data into the blocks `map`, from the `k`-th on. A block that is
/// not overwritten whole is read first.
pub open spec fn poured(
    st: FsState,
    sb: Superblock,
    map: Seq<u64>,
    offset: int,
    data: Seq<u8>,
    k: int,
) -> (FsState, Result<(), FileWriteError>)
    decreases map.len() - k,
{
    let bs = sb.block_size as int;
    if k >= map.len() {
        (st, Ok(()))
    } else {
        let base = if is_whole(bs, offset, data, k) {
            Ok(bytes::zeros(bs))
        } else {
            block_device::block_at(st.disk, sb.block_size, map[k])
        };
        match base {
            Err(e) => (st, Err(FileWriteError::BlockDevice(e))),
            Ok(b) => {
                let (s1, r1) = fs_state::store(
                    st,
                    sb.block_size,
                    map[k],
                    bytes::put(b, part_offset(bs, offset, k), part(bs, offset, data, k)),
                );
                match r1 {
                    Err(e) => (s1, Err(FileWriteError::BlockDevice(e))),
                    Ok(()) => poured(s1, sb, map, offset, data, k + 1),
                }
            },
        }
    }
}

/// Writing `data` at `offset` of inode `num`, whose tree was `i`'s.
pub open spec fn file_written(
    st: FsState,
    sb: Superblock,
    num: u32,
    i: InodeView,
    offset: int,
    data: Seq<u8>,
) -> (FsState, Result<(), FileWriteError>) {
    let bs = sb.block_size as int;
    if data.len() == 0 {
        (st, Ok(()))
    } else {
        let (s1, r1) = provisioned(
            st,
            sb,
            num,
            i,
            offset / bs,
            (offset + data.len() - 1) / bs,
        );
        match r1 {
            Err(e) => (s1, Err(e)),
            Ok(map) => poured(s1, sb, map, offset, data, 0),
        }
    }
}

/// Allocate blocks in a row, as many as there are. A failed attempt is tried
/// again with half as many, whatever it failed with.
fn alloc_shrinking<D: BlockDevice>(
    dev: &mut D,
    sb: &Superblock,
    gdt: &mut GroupDescTable,
    txn: &mut Transaction,
    want: u32,
    hint: u64,
) -> (r: Result<(u64, u32), FileWriteError>)
    requires
        sb.wf(),
        want > 0,
    ensures
        r is Ok ==> 0 < r->Ok_0.1 <= want,
        block_device::same_shape(*old(dev), *final(dev)),
        final(gdt)@.len() == old(gdt)@.len(),
        old(dev).reliable() ==> ({
            let (s, x) = shrinking(fs_state::now(*old(dev), *old(txn), *old(gdt)), *sb, want, hint);
            &&& fs_state::now(*final(dev), *final(txn), *final(gdt)) == s
            &&& r == x
        }),
{
    let mut want_now: u32 = want;
    loop
        invariant
            sb.wf(),
            0 < want_now <= want,
            block_device::same_shape(*old(dev), *dev),
            gdt@.len() == old(gdt)@.len(),
            old(dev).reliable() ==> shrinking(
                fs_state::now(*old(dev), *old(txn), *old(gdt)),
                *sb,
                want,
                hint,
            ) == shrinking(
                fs_state::now(*dev, *txn, *gdt),
                *sb,
                want_now,
                hint,
            ),
        decreases want_now,
    {
        match block_alloc::alloc_blocks(dev, sb, gdt, txn, want_now, hint) {
            Ok(p) => {
                return Ok((p, want_now));
            },
            Err(e) => {
                if want_now == 1 {
                    return Err(FileWriteError::Alloc(e));
                }
            },
        }
        want_now = want_now / 2;
    }
}

/// A run of zeroed blocks is a whole number of sectors.
proof fn lemma_zeroed(bs: u32, got: u32)
    requires
        block_device::valid_block_size(bs),
        0 < got <= EXTENT_BATCH_MAX,
    ensures
        0 < bs <= got * bs <= 32768 * 65536,
        (got * bs) % 512 == 0,
        bs == 512 * (bs as int / 512),
        got * bs == 512 * (got * (bs as int / 512)),
{
    let k = bs as int / 512;
    assert(bs <= got * bs <= 32768 * 65536) by (nonlinear_arith)
        requires
            1 <= got <= 32768,
            0 < bs <= 65536,
    ;
    assert(got * (512 * k) == 512 * (got * k)) by (nonlinear_arith);
    assert((512 * (got * k)) % 512 == 0);
}

/// A run that was written to the device has no number past the largest.
proof fn lemma_run_fits(bs: u32, p: u64, got: u32, total: u64)
    requires
        block_device::valid_block_size(bs),
        512 * (p * (bs as int / 512)) + 512 * (got * (bs as int / 512)) <= 512 * total,
    ensures
        p + got <= u64::MAX,
{
    let k = bs as int / 512;
    assert(p + got <= p * k + got * k) by (nonlinear_arith)
        requires
            k >= 1,
            p >= 0,
            got >= 0,
    ;
}

/// Write zeros to the `got` blocks from `p` on.
fn zero_run<D: BlockDevice>(dev: &mut D, sb: &Superblock, p: u64, got: u32) -> (r: Result<
    (),
    BlockDeviceError,
>)
    requires
        sb.wf(),
        0 < got <= EXTENT_BATCH_MAX,
    ensures
        r is Ok ==> p + got <= u64::MAX,
        block_device::same_shape(*old(dev), *final(dev)),
        old(dev).reliable() ==> ({
            let at = p * (sb.block_size as int / 512);
            let zeros = bytes::zeros(got * sb.block_size);
            &&& final(dev).bytes() == block_device::written(old(dev).bytes(), at, zeros)
            &&& r == block_device::write_result(old(dev).bytes(), at, zeros)
        }),
{
    let per_block: u64 = sb.block_size as u64 / 512;
    proof {
        lemma_zeroed(sb.block_size, got);
    }
    let zeros = bytes::zero_vec(got as usize * sb.block_size as usize);
    let start: u64 = match p.checked_mul(per_block) {
        Some(s) => s,
        None => {
            let total: u64 = dev.sector_count();
            assert(dev.bytes() =~= block_device::written(
                dev.bytes(),
                p * (sb.block_size as int / 512),
                zeros@,
            ));
            return Err(BlockDeviceError::OutOfRange(u64::MAX, total));
        },
    };
    match block_device::write_sectors(dev, start, zeros.as_slice()) {
        Ok(()) => {},
        Err(e) => {
            return Err(e);
        },
    }
    let total: u64 = dev.sector_count();
    proof {
        lemma_run_fits(sb.block_size, p, got, total);
    }
    Ok(())
}

/// Allocate a run of blocks, zero it on the device, and map it at logical block `l`.
fn grow_once<D: BlockDevice>(
    dev: &mut D,
    sb: &Superblock,
    gdt: &mut GroupDescTable,
    txn: &mut Transaction,
    inode_num: u32,
    hint: u64,
    l: u64,
    n: u32,
) -> (r: Result<(u64, u32), FileWriteError>)
    requires
        sb.wf(),
        0 < n <= EXTENT_BATCH_MAX,
    ensures
        r is Ok ==> 0 < r->Ok_0.1 <= n && r->Ok_0.0 + r->Ok_0.1 <= u64::MAX,
        block_device::same_shape(*old(dev), *final(dev)),
        final(gdt)@.len() == old(gdt)@.len(),
        old(dev).reliable() ==> ({
            let whole = filled(
                fs_state::now(*old(dev), *old(txn), *old(gdt)),
                *sb,
                inode_num,
                hint,
                l as int,
                n as int,
            );
            match r {
                Err(e) => whole.0 == fs_state::now(*final(dev), *final(txn), *final(gdt))
                    && whole.1 == Err::<Seq<u64>, FileWriteError>(e),
                Ok((p, got)) => {
                    let (s, x) = filled(
                        fs_state::now(*final(dev), *final(txn), *final(gdt)),
                        *sb,
                        inode_num,
                        hint,
                        l + got,
                        n - got,
                    );
                    &&& whole.0 == s
                    &&& whole.1 == (match x {
                        Err(e) => Err(e),
                        Ok(rest) => Ok(run(p, got as int) + rest),
                    })
                },
            }
        }),
{
    proof {
        lemma_shrinking(fs_state::now(*old(dev), *old(txn), *old(gdt)), *sb, n, hint);
    }
    let (p, got): (u64, u32) = match alloc_shrinking(dev, sb, gdt, txn, n, hint) {
        Ok(x) => x,
        Err(e) => {
            return Err(e);
        },
    };
    match zero_run(dev, sb, p, got) {
        Ok(()) => {},
        Err(e) => {
            return Err(FileWriteError::BlockDevice(e));
        },
    }
    match extent_insert::extent_insert(dev, sb, gdt, txn, inode_num, l, p, got as u16) {
        Ok(()) => Ok((p, got)),
        Err(e) => Err(FileWriteError::ExtentWrite(e)),
    }
}

/// Give the file blocks for its `n` logical blocks from `l` on, and note them in `map`.
#[verifier::rlimit(100)]
fn fill_run<D: BlockDevice>(
    dev: &mut D,
    sb: &Superblock,
    gdt: &mut GroupDescTable,
    txn: &mut Transaction,
    inode_num: u32,
    hint: u64,
    l: u64,
    n: u32,
    map: &mut Vec<u64>,
) -> (r: Result<(), FileWriteError>)
    requires
        sb.wf(),
        n <= EXTENT_BATCH_MAX,
        l + n <= u64::MAX,
    ensures
        r is Ok ==> final(map)@.len() == old(map)@.len() + n,
        block_device::same_shape(*old(dev), *final(dev)),
        final(gdt)@.len() == old(gdt)@.len(),
        old(dev).reliable() ==> ({
            let (s, x) = filled(
                fs_state::now(*old(dev), *old(txn), *old(gdt)),
                *sb,
                inode_num,
                hint,
                l as int,
                n as int,
            );
            &&& fs_state::now(*final(dev), *final(txn), *final(gdt)) == s
            &&& match x {
                Ok(m) => r is Ok && final(map)@ == old(map)@ + m,
                Err(e) => r is Err && r->Err_0 == e,
            }
        }),
{
    let ghost whole = filled(
        fs_state::now(*old(dev), *old(txn), *old(gdt)),
        *sb,
        inode_num,
        hint,
        l as int,
        n as int,
    );
    let mut left: u32 = n;
    let ghost mut done = Seq::<u64>::empty();
    proof {
        if whole.1 is Ok {
            assert(done + whole.1->Ok_0 =~= whole.1->Ok_0);
        }
        assert(old(map)@ + done =~= old(map)@);
    }
    while left > 0
        invariant
            sb.wf(),
            left <= n <= EXTENT_BATCH_MAX,
            l + n <= u64::MAX,
            block_device::same_shape(*old(dev), *dev),
            gdt@.len() == old(gdt)@.len(),
            map@ == old(map)@ + done,
            done.len() == n - left,
            whole == filled(
                fs_state::now(*old(dev), *old(txn), *old(gdt)),
                *sb,
                inode_num,
                hint,
                l as int,
                n as int,
            ),
            old(dev).reliable() ==> ({
                let (s, x) = filled(
                    fs_state::now(*dev, *txn, *gdt),
                    *sb,
                    inode_num,
                    hint,
                    l + (n - left),
                    left as int,
                );
                &&& whole.0 == s
                &&& whole.1 == (match x {
                    Err(e) => Err(e),
                    Ok(rest) => Ok(done + rest),
                })
            }),
        decreases left,
    {
        let (p, got): (u64, u32) = match grow_once(
            dev,
            sb,
            gdt,
            txn,
            inode_num,
            hint,
            l + (n - left) as u64,
            left,
        ) {
            Ok(x) => x,
            Err(e) => {
                return Err(e);
            },
        };
        let ghost before = map@;
        let mut j: u32 = 0;
        while j < got
            invariant
                j <= got,
                p + got <= u64::MAX,
                map@ == before + run(p, j as int),
            decreases got - j,
        {
            map.push(p + j as u64);
            j = j + 1;
            assert(map@ =~= before + run(p, j as int));
        }
        proof {
            let more = run(p, got as int);
            assert((old(map)@ + done) + more =~= old(map)@ + (done + more));
            let x = filled(
                fs_state::now(*dev, *txn, *gdt),
                *sb,
                inode_num,
                hint,
                l + (n - left) + got,
                left - got,
            ).1;
            if x is Ok {
                assert(done + (more + x->Ok_0) =~= (done + more) + x->Ok_0);
            }
            done = done + more;
        }
        left = left - got;
    }
    proof {
        assert(done + Seq::<u64>::empty() =~= done);
    }
    Ok(())
}

fn find_run_end<D: BlockDevice>(
    dev: &D,
    sb: &Superblock,
    inode: &Inode,
    start: u64,
    last: u64,
) -> (r: Result<u64, FileWriteError>)
    requires
        sb.wf(),
        start <= last < u64::MAX,
    ensures
        r is Ok ==> start < r->Ok_0 <= last + 1 && r->Ok_0 - start <= EXTENT_BATCH_MAX,
        r is Ok || dev.reliable() ==> match run_end(
            dev.bytes(),
            *sb,
            inode@,
            start as int,
            start + 1,
            last as int,
        ) {
            Ok(e) => r is Ok && r->Ok_0 == e,
            Err(e) => r is Err && r->Err_0 == FileWriteError::Extent(e),
        },
{
    let mut e: u64 = start + 1;
    while e <= last && e - start < EXTENT_BATCH_MAX as u64
        invariant
            sb.wf(),
            start < e <= last + 1,
            last < u64::MAX,
            e - start <= EXTENT_BATCH_MAX,
            run_end(dev.bytes(), *sb, inode@, start as int, start + 1, last as int) == run_end(
                dev.bytes(),
                *sb,
                inode@,
                start as int,
                e as int,
                last as int,
            ),
        decreases last + 1 - e,
    {
        match extent::lookup_block(dev, sb, inode, e) {
            Err(x) => {
                return Err(FileWriteError::Extent(x));
            },
            Ok(Some(_)) => {
                return Ok(e);
            },
            Ok(None) => {},
        }
        e = e + 1;
    }
    Ok(e)
}

/// Find or make a physical block for each logical block from `first` to `last`.
#[verifier::rlimit(100)]
fn provision<D: BlockDevice>(
    dev: &mut D,
    sb: &Superblock,
    gdt: &mut GroupDescTable,
    txn: &mut Transaction,
    inode_num: u32,
    inode: &Inode,
    first: u64,
    last: u64,
) -> (r: Result<Vec<u64>, FileWriteError>)
    requires
        sb.wf(),
        first <= last < u64::MAX,
    ensures
        r is Ok ==> r->Ok_0@.len() == last - first + 1,
        block_device::same_shape(*old(dev), *final(dev)),
        final(gdt)@.len() == old(gdt)@.len(),
        old(dev).reliable() ==> ({
            let (s, x) = provisioned(
                fs_state::now(*old(dev), *old(txn), *old(gdt)),
                *sb,
                inode_num,
                inode@,
                first as int,
                last as int,
            );
            &&& fs_state::now(*final(dev), *final(txn), *final(gdt)) == s
            &&& match x {
                Ok(m) => r is Ok && r->Ok_0@ == m,
                Err(e) => r is Err && r->Err_0 == e,
            }
        }),
{
    let ghost whole = provisioned(
        fs_state::now(*old(dev), *old(txn), *old(gdt)),
        *sb,
        inode_num,
        inode@,
        first as int,
        last as int,
    );
    let mut map: Vec<u64> = Vec::new();
    proof {
        if whole.1 is Ok {
            assert(map@ + whole.1->Ok_0 =~= whole.1->Ok_0);
        }
    }
    let mut own: Option<Inode> = None;
    let ghost mut cur = inode@;
    let mut l: u64 = first;
    while l <= last
        invariant
            cur == (match own {
                Some(i) => i@,
                None => inode@,
            }),
            sb.wf(),
            first <= l <= last + 1,
            last < u64::MAX,
            block_device::same_shape(*old(dev), *dev),
            gdt@.len() == old(gdt)@.len(),
            map@.len() == l - first,
            old(dev).reliable() ==> ({
                let (s, x) = provisioned(
                    fs_state::now(*dev, *txn, *gdt),
                    *sb,
                    inode_num,
                    cur,
                    l as int,
                    last as int,
                );
                &&& whole.0 == s
                &&& whole.1 == (match x {
                    Err(e) => Err(e),
                    Ok(rest) => Ok(map@ + rest),
                })
            }),
            whole == provisioned(
                fs_state::now(*old(dev), *old(txn), *old(gdt)),
                *sb,
                inode_num,
                inode@,
                first as int,
                last as int,
            ),
        decreases last + 1 - l,
    {
        let ghost before = map@;
        let inode_now: &Inode = match &own {
            Some(i) => i,
            None => inode,
        };
        match extent::lookup_block(dev, sb, inode_now, l) {
            Err(e) => {
                return Err(FileWriteError::Extent(e));
            },
            Ok(Some(p)) => {
                map.push(p);
                l = l + 1;
                proof {
                    let x = provisioned(
                        fs_state::now(*dev, *txn, *gdt),
                        *sb,
                        inode_num,
                        cur,
                        l as int,
                        last as int,
                    ).1;
                    if x is Ok {
                        assert(before + (seq![p] + x->Ok_0) =~= map@ + x->Ok_0);
                    }
                }
            },
            Ok(None) => {
                let end: u64 = match find_run_end(dev, sb, inode_now, l, last) {
                    Ok(e) => e,
                    Err(e) => {
                        return Err(e);
                    },
                };
                let size_blocks: u64 = inode_now.size / sb.block_size as u64;
                let hint: u64 = if size_blocks > l {
                    size_blocks
                } else {
                    l
                };
                let ghost st = fs_state::now(*dev, *txn, *gdt);
                let ghost at = l as int;
                match fill_run(
                    dev,
                    sb,
                    gdt,
                    txn,
                    inode_num,
                    hint,
                    l,
                    (end - l) as u32,
                    &mut map,
                ) {
                    Ok(()) => {},
                    Err(e) => {
                        return Err(e);
                    },
                }
                let again = match inode::read_inode(dev, sb, gdt, inode_num) {
                    Ok(i) => i,
                    Err(e) => {
                        return Err(FileWriteError::ExtentWrite(ExtentWriteError::Inode(e)));
                    },
                };
                proof {
                    cur = again@;
                }
                own = Some(again);
                l = end;
                proof {
                    let x = provisioned(
                        fs_state::now(*dev, *txn, *gdt),
                        *sb,
                        inode_num,
                        cur,
                        l as int,
                        last as int,
                    ).1;
                    if x is Ok && old(dev).reliable() {
                        let fresh = filled(st, *sb, inode_num, hint, at, end - at).1->Ok_0;
                        assert(map@ == before + fresh);
                        assert(before + (fresh + x->Ok_0) =~= map@ + x->Ok_0);
                    }
                }
            },
        }
    }
    proof {
        assert(map@ + Seq::<u64>::empty() =~= map@);
    }
    Ok(map)
}

fn pour_block<D: BlockDevice>(
    dev: &mut D,
    sb: &Superblock,
    txn: &mut Transaction,
    phys: u64,
    intra: usize,
    slice: &[u8],
) -> (r: Result<(), FileWriteError>)
    requires
        sb.wf(),
        intra + slice@.len() <= sb.block_size,
    ensures
        block_device::same_shape(*old(dev), *final(dev)),
        r is Ok || old(dev).reliable() ==> ({
            let base = if intra == 0 && slice@.len() == sb.block_size {
                Ok(bytes::zeros(sb.block_size as int))
            } else {
                block_device::block_at(old(dev).bytes(), sb.block_size, phys)
            };
            match base {
                Err(e) => {
                    &&& r == Err::<(), FileWriteError>(FileWriteError::BlockDevice(e))
                    &&& final(dev).bytes() == old(dev).bytes()
                    &&& final(txn)@ == old(txn)@
                },
                Ok(b) => {
                    let d = bytes::put(b, intra as int, slice@);
                    &&& final(dev).bytes() == block_device::with_block(
                        old(dev).bytes(),
                        sb.block_size,
                        phys,
                        d,
                    )
                    &&& match block_device::block_write_result(
                        old(dev).bytes(),
                        sb.block_size,
                        phys,
                        d,
                    ) {
                        Err(e) => r == Err::<(), FileWriteError>(FileWriteError::BlockDevice(e))
                            && final(txn)@ == old(txn)@,
                        Ok(()) => r is Ok && final(txn)@ == crate::journal::writer::txn_pin(
                            old(txn)@,
                            phys,
                            d,
                        ),
                    }
                },
            }
        }),
{
    let mut block = if intra == 0 && slice.len() == sb.block_size as usize {
        bytes::zero_vec(sb.block_size as usize)
    } else {
        match block_device::read_block(dev, sb.block_size, phys) {
            Ok(b) => b,
            Err(e) => {
                return Err(FileWriteError::BlockDevice(e));
            },
        }
    };
    bytes::put_bytes(&mut block, intra, slice);
    match fs_state::store_block(dev, txn, sb.block_size, phys, block) {
        Ok(()) => Ok(()),
        Err(e) => Err(FileWriteError::BlockDevice(e)),
    }
}

/// Write `data` into the blocks `map`, the first of which holds `offset`.
fn pour<D: BlockDevice>(
    dev: &mut D,
    sb: &Superblock,
    txn: &mut Transaction,
    Ghost(g): Ghost<Seq<crate::group_desc::GroupDesc>>,
    map: &Vec<u64>,
    offset: u64,
    data: &[u8],
) -> (r: Result<(), FileWriteError>)
    requires
        sb.wf(),
        data@.len() > 0,
        offset + data@.len() <= u64::MAX,
        map@.len() == span(sb.block_size as int, offset as int, data@.len() as int),
    ensures
        block_device::same_shape(*old(dev), *final(dev)),
        r is Ok || old(dev).reliable() ==> (
            (FsState { disk: final(dev).bytes(), txn: final(txn)@, gdt: g }),
            r,
        ) == poured(
            FsState { disk: old(dev).bytes(), txn: old(txn)@, gdt: g },
            *sb,
            map@,
            offset as int,
            data@,
            0,
        ),
{
    let bs: usize = sb.block_size as usize;
    let first_intra: usize = (offset % sb.block_size as u64) as usize;
    let ghost whole = poured(
        FsState { disk: old(dev).bytes(), txn: old(txn)@, gdt: g },
        *sb,
        map@,
        offset as int,
        data@,
        0,
    );
    let mut k: usize = 0;
    let mut start: usize = 0;
    while k < map.len()
        invariant
            sb.wf(),
            bs == sb.block_size,
            first_intra == offset as int % bs as int,
            data@.len() > 0,
            data@.len() == data.len(),
            offset + data@.len() <= u64::MAX,
            map@.len() == span(sb.block_size as int, offset as int, data@.len() as int),
            k <= map@.len(),
            k < map@.len() ==> start == part_start(bs as int, offset as int, k as int),
            block_device::same_shape(*old(dev), *dev),
            whole == poured(
                FsState { disk: old(dev).bytes(), txn: old(txn)@, gdt: g },
                *sb,
                map@,
                offset as int,
                data@,
                0,
            ),
            whole == poured(
                FsState { disk: dev.bytes(), txn: txn@, gdt: g },
                *sb,
                map@,
                offset as int,
                data@,
                k as int,
            ),
        decreases map@.len() - k,
    {
        proof {
            lemma_parts(bs as int, offset as int, data@.len() as int, k as int);
        }
        let intra: usize = if k == 0 {
            first_intra
        } else {
            0
        };
        let room: usize = bs - intra;
        let end: usize = if room < data.len() - start {
            start + room
        } else {
            data.len()
        };
        let slice = bytes::copy_range(data, start, end);
        assert(end == part_end(bs as int, offset as int, data@.len() as int, k as int));
        match pour_block(dev, sb, txn, map[k], intra, slice.as_slice()) {
            Ok(()) => {},
            Err(e) => {
                return Err(e);
            },
        }
        start = end;
        k = k + 1;
    }
    Ok(())
}

/// Every part lies inside the data and inside its block, and each but the last
/// reaches to the end of its block.
pub proof fn lemma_parts(bs: int, offset: int, len: int, k: int)
    requires
        bs > 0,
        offset >= 0,
        len > 0,
        0 <= k < span(bs, offset, len),
    ensures
        0 <= part_start(bs, offset, k) < len,
        part_start(bs, offset, k) < part_end(bs, offset, len, k) <= len,
        part_offset(bs, offset, k) >= 0,
        part_end(bs, offset, len, k) == (if bs - part_offset(bs, offset, k) < len - part_start(
            bs,
            offset,
            k,
        ) {
            part_start(bs, offset, k) + bs - part_offset(bs, offset, k)
        } else {
            len
        }),
        k + 1 < span(bs, offset, len) ==> part_end(bs, offset, len, k) == part_start(
            bs,
            offset,
            k + 1,
        ),
{
    let q = offset / bs;
    let r = offset % bs;
    let e = offset + len - 1;
    vstd::arithmetic::div_mod::lemma_fundamental_div_mod(offset, bs);
    vstd::arithmetic::div_mod::lemma_fundamental_div_mod(e, bs);
    vstd::arithmetic::div_mod::lemma_mod_bound(offset, bs);
    vstd::arithmetic::div_mod::lemma_mod_bound(e, bs);
    // The `k`-th block starts at or before the last byte.
    assert(bs * (q + k) <= bs * (e / bs)) by (nonlinear_arith)
        requires
            q + k <= e / bs,
            bs > 0,
    ;
    assert(bs * (q + k) == bs * q + k * bs) by (nonlinear_arith);
    assert((k + 1) * bs == k * bs + bs) by (nonlinear_arith);
    if k > 0 {
        assert(k * bs >= bs) by (nonlinear_arith)
            requires
                k >= 1,
                bs > 0,
        ;
    } else {
        assert(k * bs == 0);
    }
    if k < e / bs - q {
        assert(bs * (q + k + 1) <= bs * (e / bs)) by (nonlinear_arith)
            requires
                q + k + 1 <= e / bs,
                bs > 0,
        ;
        assert(bs * (q + k + 1) == bs * q + (k + 1) * bs) by (nonlinear_arith);
    }
}

pub(crate) fn write_data<D: BlockDevice>(
    dev: &mut D,
    sb: &Superblock,
    gdt: &mut GroupDescTable,
    txn: &mut Transaction,
    inode_num: u32,
    inode: &Inode,
    offset: u64,
    data: &[u8],
) -> (r: Result<(), FileWriteError>)
    requires
        sb.wf(),
        offset + data@.len() <= u64::MAX,
    ensures
        block_device::same_shape(*old(dev), *final(dev)),
        final(gdt)@.len() == old(gdt)@.len(),
        old(dev).reliable() ==> (fs_state::now(*final(dev), *final(txn), *final(gdt)), r)
            == file_written(
                fs_state::now(*old(dev), *old(txn), *old(gdt)),
                *sb,
                inode_num,
                inode@,
                offset as int,
                data@,
            ),
        r is Ok && data@.len() > 0 ==> exists|s: FsState, map: Seq<u64>|
            map.len() == span(sb.block_size as int, offset as int, data@.len() as int) && (
                fs_state::now(*final(dev), *final(txn), *final(gdt)),
                r,
            ) == #[trigger] poured(s, *sb, map, offset as int, data@, 0),
{
    if data.len() == 0 {
        return Ok(());
    }
    let bs: u64 = sb.block_size as u64;
    let first: u64 = offset / bs;
    let last: u64 = (offset + (data.len() as u64 - 1)) / bs;
    proof {
        vstd::arithmetic::div_mod::lemma_div_is_ordered(
            offset as int,
            offset + data@.len() - 1,
            bs as int,
        );
        assert(last < u64::MAX) by (nonlinear_arith)
            requires
                last == (offset + (data@.len() - 1)) / (bs as int),
                offset + data@.len() <= u64::MAX,
                bs >= 2,
        ;
    }
    let map = match provision(dev, sb, gdt, txn, inode_num, inode, first, last) {
        Ok(m) => m,
        Err(e) => {
            return Err(e);
        },
    };
    pour(dev, sb, txn, Ghost(gdt@), &map, offset, data)
}

/// Write `data` at byte `offset` of a file, allocating blocks as needed. The
/// caller updates the inode's size.
///
/// Runs of unallocated logical blocks are allocated together, so that they
/// become one extent. New blocks go where the write puts them: behind the last
/// block, in a hole, or past the end with a hole in between.
pub fn write_file_data<D: BlockDevice>(
    dev: &mut D,
    sb: &Superblock,
    alloc: &mut Allocator,
    txn: &mut Transaction,
    inode_num: u32,
    inode: &Inode,
    offset: u64,
    data: &[u8],
) -> (r: Result<(), FileWriteError>)
    requires
        sb.wf(),
        offset + data@.len() <= u64::MAX,
    ensures
        final(alloc).sb == old(alloc).sb,
        *final(final(alloc).gdt) == *final(old(alloc).gdt),
        block_device::same_shape(*old(dev), *final(dev)),
        old(dev).reliable() ==> (
            (FsState { disk: final(dev).bytes(), txn: final(txn)@, gdt: final(alloc).table() }),
            r,
        ) == file_written(
            FsState { disk: old(dev).bytes(), txn: old(txn)@, gdt: old(alloc).table() },
            *sb,
            inode_num,
            inode@,
            offset as int,
            data@,
        ),
        r is Ok && data@.len() > 0 ==> exists|s: FsState, map: Seq<u64>|
            map.len() == span(sb.block_size as int, offset as int, data@.len() as int) && (
                (FsState {
                    disk: final(dev).bytes(),
                    txn: final(txn)@,
                    gdt: final(alloc).table(),
                }),
                r,
            ) == #[trigger] poured(s, *sb, map, offset as int, data@, 0),
{
    write_data(dev, sb, alloc.gdt, txn, inode_num, inode, offset, data)
}

} // verus!
