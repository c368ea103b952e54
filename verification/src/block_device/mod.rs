//! Sector-addressed storage.
use vstd::prelude::*;
use crate::bytes;

pub mod image_file;

verus! {

/// Bytes per sector.
pub const SECTOR: usize = 512;

/// What a device request can fail with.
#[derive(Debug)]
pub enum BlockDeviceError {
    /// The sector is not on the device, which has the given number of sectors.
    OutOfRange(u64, u64),
    /// The medium reported a failure.
    Io(String),
    /// The size asked for cannot be addressed.
    InvalidGeometry(u64),
    /// The device cannot do this.
    NotSupported(&'static str),
}

/// The bytes of a device, as contracts speak of them.
pub type Bytes = Seq<u8>;

/// Storage addressed in sectors of 512 bytes: a disk image, a raw partition,
/// a buffer in memory.
pub trait BlockDevice {
    /// What the device holds, from its first byte to its last.
    spec fn bytes(&self) -> Bytes;

    /// Whether the device serves every request that is in range. A medium that
    /// can fail is not reliable; nothing is promised of when it fails.
    spec fn reliable(&self) -> bool;

    /// Whether everything written so far has reached the medium.
    spec fn synced(&self) -> bool;

    /// Read the sector `sector_index` into `buf`.
    fn read_sector(&self, sector_index: u64, buf: &mut [u8; 512]) -> (r: Result<
        (),
        BlockDeviceError,
    >)
        ensures
            self.bytes().len() % 512 == 0,
            self.bytes().len() / 512 <= u64::MAX,
            r is Ok ==> sector_index < self.bytes().len() / 512 && final(buf)@
                == self.bytes().subrange(512 * sector_index, 512 * sector_index + 512),
            sector_index >= self.bytes().len() / 512 ==> r == Err::<(), BlockDeviceError>(
                BlockDeviceError::OutOfRange(sector_index, (self.bytes().len() / 512) as u64),
            ),
            self.reliable() && sector_index < self.bytes().len() / 512 ==> r is Ok,
    ;

    /// Number of sectors on the device.
    fn sector_count(&self) -> (n: u64)
        ensures
            self.bytes().len() == 512 * n,
    ;

    /// Write the sector `sector_index`. A failed write touches no other sector.
    fn write_sector(&mut self, sector_index: u64, buf: &[u8; 512]) -> (r: Result<
        (),
        BlockDeviceError,
    >)
        ensures
            final(self).reliable() == old(self).reliable(),
            final(self).bytes().len() == old(self).bytes().len(),
            old(self).bytes().len() % 512 == 0,
            old(self).bytes().len() / 512 <= u64::MAX,
            forall|i: int|
                0 <= i < old(self).bytes().len() && !(512 * sector_index <= i < 512 * sector_index
                    + 512) ==> final(self).bytes()[i] == old(self).bytes()[i],
            r is Ok ==> sector_index < old(self).bytes().len() / 512 && final(self).bytes() == bytes::put(
                old(self).bytes(),
                512 * sector_index,
                buf@,
            ),
            sector_index >= old(self).bytes().len() / 512 ==> r == Err::<(), BlockDeviceError>(
                BlockDeviceError::OutOfRange(
                    sector_index,
                    (old(self).bytes().len() / 512) as u64,
                ),
            ),
            old(self).reliable() && sector_index < old(self).bytes().len() / 512 ==> r is Ok,
    ;

    /// Push everything written so far to the medium.
    fn flush(&mut self) -> (r: Result<(), BlockDeviceError>)
        ensures
            final(self).reliable() == old(self).reliable(),
            final(self).bytes() == old(self).bytes(),
            r is Ok ==> final(self).synced(),
            old(self).reliable() ==> r is Ok,
    ;
}

/// Whether `b` is `a` up to what is stored on it.
pub open spec fn same_shape<D: BlockDevice>(a: D, b: D) -> bool {
    a.reliable() == b.reliable() && a.bytes().len() == b.bytes().len()
}

/// Whether two byte strings differ at most in `lo..hi`.
pub open spec fn same_outside(a: Seq<u8>, b: Seq<u8>, lo: int, hi: int) -> bool {
    a.len() == b.len() && forall|i: int| 0 <= i < a.len() && !(lo <= i < hi) ==> a[i] == b[i]
}

/// Number of sectors on a device that holds `disk`.
pub open spec fn sectors(disk: Seq<u8>) -> int {
    disk.len() as int / 512
}

/// The error for a request whose first sector, of those that are not on the
/// device, is `at`. Sector numbers past 64 bits are reported as the largest.
pub open spec fn out_of_range(disk: Seq<u8>, at: int) -> BlockDeviceError {
    BlockDeviceError::OutOfRange(
        if at > u64::MAX {
            u64::MAX
        } else {
            at as u64
        },
        sectors(disk) as u64,
    )
}

pub open spec fn max(a: int, b: int) -> int {
    if a > b {
        a
    } else {
        b
    }
}

/// What reading `count` sectors from sector `start` on gives.
pub open spec fn read_at(disk: Seq<u8>, start: int, count: int) -> Result<
    Seq<u8>,
    BlockDeviceError,
> {
    if count * 512 > usize::MAX {
        Err(BlockDeviceError::InvalidGeometry(count as u64))
    } else if count <= 0 {
        Ok(Seq::empty())
    } else if start + count > sectors(disk) {
        Err(out_of_range(disk, max(start, sectors(disk))))
    } else {
        Ok(disk.subrange(512 * start, 512 * (start + count)))
    }
}

/// What is on the device after `data` was written from sector `start` on: what
/// lies past the end of the device is dropped.
pub open spec fn written(disk: Seq<u8>, start: int, data: Seq<u8>) -> Seq<u8> {
    bytes::put(disk, 512 * start, data)
}

/// Whether such a write succeeds.
pub open spec fn write_result(disk: Seq<u8>, start: int, data: Seq<u8>) -> Result<
    (),
    BlockDeviceError,
> {
    if data.len() > 0 && 512 * start + data.len() > disk.len() {
        Err(out_of_range(disk, max(start, sectors(disk))))
    } else {
        Ok(())
    }
}

/// Whether a write of `data` from sector `start` on stopped at its sector number `k`,
/// which failed with `e`: those in front of it are written, and those behind it are as
/// they were.
pub open spec fn stopped_at(
    before: Seq<u8>,
    after: Seq<u8>,
    start: int,
    data: Seq<u8>,
    k: int,
    e: BlockDeviceError,
) -> bool {
    &&& 0 <= k < data.len() as int / 512
    &&& same_outside(
        written(before, start, data.take(512 * k)),
        after,
        512 * (start + k),
        512 * (start + k) + 512,
    )
    &&& k > 0 ==> start + k <= sectors(before)
    &&& start + k >= sectors(before) ==> after == written(before, start, data.take(512 * k))
        && e == BlockDeviceError::OutOfRange((start + k) as u64, sectors(before) as u64)
}

/// Whether two devices differ in the given blocks at most.
pub open spec fn kept_but(a: Seq<u8>, b: Seq<u8>, bs: u32, blocks: Set<u64>) -> bool {
    a.len() == b.len() && forall|i: int|
        0 <= i < a.len() && !blocks.contains((i / (bs as int)) as u64) ==> #[trigger] b[i] == a[i]
}

/// The bytes of a result that holds a buffer.
pub open spec fn bytes_of<E>(r: Result<Vec<u8>, E>) -> Result<Seq<u8>, E> {
    match r {
        Ok(v) => Ok(v@),
        Err(e) => Err(e),
    }
}

fn sector_of(data: &[u8], off: usize) -> (s: [u8; 512])
    requires
        off + 512 <= data.len(),
    ensures
        s@ == data@.subrange(off as int, off + 512),
{
    let mut s: [u8; 512] = [0u8;512];
    let mut i: usize = 0;
    while i < 512
        invariant
            i <= 512,
            off + 512 <= data.len(),
            forall|j: int| 0 <= j < i ==> s@[j] == data@[off + j],
        decreases 512 - i,
    {
        s[i] = data[off + i];
        i = i + 1;
    }
    assert(s@ =~= data@.subrange(off as int, off + 512));
    s
}

/// Write `data`, a whole number of sectors, from sector `start` on.
pub fn write_sectors<D: BlockDevice>(dev: &mut D, start: u64, data: &[u8]) -> (r: Result<
    (),
    BlockDeviceError,
>)
    requires
        data@.len() % 512 == 0,
    ensures
        same_shape(*old(dev), *final(dev)),
        r is Ok || old(dev).reliable() ==> final(dev).bytes() == written(
            old(dev).bytes(),
            start as int,
            data@,
        ) && r == write_result(old(dev).bytes(), start as int, data@),
        same_outside(
            old(dev).bytes(),
            final(dev).bytes(),
            512 * start,
            512 * start + data@.len(),
        ),
        r is Err ==> exists|k: int| #[trigger]
            stopped_at(
                old(dev).bytes(),
                final(dev).bytes(),
                start as int,
                data@,
                k,
                r->Err_0,
            ),
{
    let count: usize = data.len() / 512;
    let mut i: usize = 0;
    while i < count
        invariant
            data@.len() == 512 * count,
            data@.len() == data.len(),
            i <= count,
            start + i <= u64::MAX,
            same_shape(*old(dev), *dev),
            i > 0 ==> old(dev).bytes().len() % 512 == 0 && start + i <= old(dev).bytes().len() / 512,
            dev.bytes() =~= bytes::put(old(dev).bytes(), 512 * start, data@.take(512 * i)),
            i == 0 ==> *dev == *old(dev),
        decreases count - i,
    {
        let ghost before = dev.bytes();
        let s = sector_of(data, 512 * i);
        match dev.write_sector(start + i as u64, &s) {
            Ok(()) => {
                assert(dev.bytes() =~= bytes::put(
                    old(dev).bytes(),
                    512 * start,
                    data@.take(512 * (i + 1)),
                ));
            },
            Err(e) => {
                assert(before == written(old(dev).bytes(), start as int, data@.take(512 * i)));
                assert(start + i >= sectors(before) ==> dev.bytes() =~= before);
                assert(stopped_at(
                    old(dev).bytes(),
                    dev.bytes(),
                    start as int,
                    data@,
                    i as int,
                    e,
                ));
                return Err(e);
            },
        }
        i = i + 1;
    }
    assert(data@.take(512 * count) =~= data@);
    Ok(())
}

/// Read `count` sectors from sector `start` on.
pub fn read_sectors<D: BlockDevice>(dev: &D, start: u64, count: u64) -> (r: Result<
    Vec<u8>,
    BlockDeviceError,
>)
    ensures
        r is Ok || dev.reliable() ==> bytes_of(r) == read_at(
            dev.bytes(),
            start as int,
            count as int,
        ),
        sectors(dev.bytes()) <= u64::MAX,
        count * 512 > usize::MAX ==> r == Err::<Vec<u8>, BlockDeviceError>(
            BlockDeviceError::InvalidGeometry(count),
        ),
        0 < count && count * 512 <= usize::MAX && start >= sectors(dev.bytes()) ==> r == Err::<
            Vec<u8>,
            BlockDeviceError,
        >(BlockDeviceError::OutOfRange(start, sectors(dev.bytes()) as u64)),
{
    let n: u64 = dev.sector_count();
    let total: u64 = match count.checked_mul(512) {
        Some(t) => t,
        None => {
            return Err(BlockDeviceError::InvalidGeometry(count));
        },
    };
    if total > usize::MAX as u64 {
        return Err(BlockDeviceError::InvalidGeometry(count));
    }
    let mut out: Vec<u8> = Vec::new();
    let mut i: u64 = 0;
    while i < count
        invariant
            dev.bytes().len() == 512 * n,
            count * 512 <= usize::MAX,
            i <= count,
            i > 0 ==> start + i <= n,
            out@.len() == 512 * i,
            i > 0 ==> out@ == dev.bytes().subrange(512 * start, 512 * (start + i)),
        decreases count - i,
    {
        let mut buf: [u8; 512] = [0u8;512];
        match dev.read_sector(start + i, &mut buf) {
            Ok(()) => {
                out.extend_from_slice(buf.as_slice());
                assert(out@ =~= dev.bytes().subrange(512 * start, 512 * (start + i + 1)));
            },
            Err(e) => {
                return Err(e);
            },
        }
        i = i + 1;
    }
    assert(count == 0 ==> out@ =~= Seq::<u8>::empty());
    Ok(out)
}

/// The block sizes that ext4 knows: 1 KiB to 64 KiB.
pub open spec fn valid_block_size(bs: u32) -> bool {
    bs == 1024 || bs == 2048 || bs == 4096 || bs == 8192 || bs == 16384 || bs == 32768 || bs
        == 65536
}

/// Whether a block of `bs` bytes is a whole number of sectors.
pub open spec fn sectored(bs: u32) -> bool {
    bs >= 512 && bs % 512 == 0
}

/// What reading block `b` of a volume with blocks of `bs` bytes gives.
pub open spec fn block_at(disk: Seq<u8>, bs: u32, b: u64) -> Result<Seq<u8>, BlockDeviceError> {
    read_at(disk, b * (bs as int / 512), bs as int / 512)
}

/// What is on the device after block `b` was overwritten with `data`.
pub open spec fn with_block(disk: Seq<u8>, bs: u32, b: u64, data: Seq<u8>) -> Seq<u8> {
    written(disk, b * (bs as int / 512), data)
}

/// Whether overwriting block `b` succeeds.
pub open spec fn block_write_result(disk: Seq<u8>, bs: u32, b: u64, data: Seq<u8>) -> Result<
    (),
    BlockDeviceError,
> {
    write_result(disk, b * (bs as int / 512), data)
}

/// Read block `block`.
pub fn read_block<D: BlockDevice>(dev: &D, block_size: u32, block: u64) -> (r: Result<
    Vec<u8>,
    BlockDeviceError,
>)
    requires
        sectored(block_size),
    ensures
        r is Ok || dev.reliable() ==> bytes_of(r) == block_at(dev.bytes(), block_size, block),
        r is Ok ==> r->Ok_0@.len() == block_size,
{
    let per_block: u64 = block_size as u64 / 512;
    let start: u64 = match block.checked_mul(per_block) {
        Some(s) => s,
        None => {
            return Err(BlockDeviceError::OutOfRange(u64::MAX, dev.sector_count()));
        },
    };
    read_sectors(dev, start, per_block)
}

/// Overwrite block `block`.
pub fn write_block<D: BlockDevice>(
    dev: &mut D,
    block_size: u32,
    block: u64,
    data: &[u8],
) -> (r: Result<(), BlockDeviceError>)
    requires
        sectored(block_size),
        data@.len() == block_size,
    ensures
        same_shape(*old(dev), *final(dev)),
        r is Ok || old(dev).reliable() ==> final(dev).bytes() == with_block(
            old(dev).bytes(),
            block_size,
            block,
            data@,
        ) && r == block_write_result(old(dev).bytes(), block_size, block, data@),
        same_outside(
            old(dev).bytes(),
            final(dev).bytes(),
            512 * (block * (block_size as int / 512)),
            512 * (block * (block_size as int / 512)) + block_size,
        ),
        kept_but(old(dev).bytes(), final(dev).bytes(), block_size, set![block]),
{
    proof {
        lemma_block_at(dev.bytes(), block_size, block);
        lemma_kept_but(block_size, block);
    }
    let per_block: u64 = block_size as u64 / 512;
    let start: u64 = match block.checked_mul(per_block) {
        Some(s) => s,
        None => {
            let n: u64 = dev.sector_count();
            assert(dev.bytes() =~= with_block(dev.bytes(), block_size, block, data@));
            return Err(BlockDeviceError::OutOfRange(u64::MAX, n));
        },
    };
    write_sectors(dev, start, data)
}

/// A byte lies in the block of its number.
pub proof fn lemma_kept_but(bs: u32, b: u64)
    requires
        sectored(bs),
    ensures
        forall|i: int|
            b * bs <= i < b * bs + bs ==> #[trigger] (i / (bs as int)) == b,
{
    assert forall|i: int| b * bs <= i < b * bs + bs implies #[trigger] (i / (bs as int)) == b by {
        let n = bs as int;
        vstd::arithmetic::div_mod::lemma_fundamental_div_mod_converse(i, n, b as int, i - b * n);
    }
}

/// Block `b` is the bytes from `b * bs` on.
pub proof fn lemma_block_at(disk: Seq<u8>, bs: u32, b: u64)
    requires
        sectored(bs),
    ensures
        512 * (b * (bs as int / 512)) == b * bs,
        b * bs >= 0,
        block_at(disk, bs, b) is Ok <==> b * bs + bs <= disk.len() / 512 * 512,
        block_at(disk, bs, b) is Ok ==> block_at(disk, bs, b)->Ok_0 == disk.subrange(
            b * bs,
            b * bs + bs,
        ),
{
    let k = bs as int / 512;
    assert(512 * (b * k) == b * (512 * k)) by (nonlinear_arith);
    assert(512 * (b * k + k) == b * (512 * k) + 512 * k) by (nonlinear_arith);
    assert(b * bs >= 0) by (nonlinear_arith);
}

/// A written block reads back as written, and no other block changes.
pub proof fn lemma_block_write_read(disk: Seq<u8>, bs: u32, b: u64, data: Seq<u8>, c: u64)
    requires
        sectored(bs),
        data.len() == bs,
        disk.len() % 512 == 0,
    ensures
        block_write_result(disk, bs, b, data) is Ok ==> block_at(
            with_block(disk, bs, b, data),
            bs,
            b,
        ) == Ok::<Seq<u8>, BlockDeviceError>(data),
        c != b ==> block_at(with_block(disk, bs, b, data), bs, c) == block_at(disk, bs, c),
{
    lemma_block_at(disk, bs, b);
    lemma_block_at(disk, bs, c);
    let d2 = with_block(disk, bs, b, data);
    lemma_block_at(d2, bs, b);
    lemma_block_at(d2, bs, c);
    if c < b {
        assert(c * bs + bs <= b * bs) by (nonlinear_arith)
            requires
                c < b,
        ;
    }
    if b < c {
        assert(b * bs + bs <= c * bs) by (nonlinear_arith)
            requires
                b < c,
        ;
    }
    if block_write_result(disk, bs, b, data) is Ok {
        assert(d2.subrange(b * bs, b * bs + bs) =~= data);
    }
    if c != b && block_at(disk, bs, c) is Ok {
        assert(d2.subrange(c * bs, c * bs + bs) =~= disk.subrange(c * bs, c * bs + bs));
    }
}

/// A device in memory. Bytes past the last whole sector are not part of it.
pub struct MemoryDevice {
    data: Vec<u8>,
}

impl MemoryDevice {
    /// A device that holds `data`.
    pub fn from_bytes(data: Vec<u8>) -> (d: Self)
        ensures
            d.bytes() == data@.take(data@.len() as int / 512 * 512),
            d.reliable(),
            d.synced(),
    {
        MemoryDevice { data }
    }

    /// A device of `sectors` zeroed sectors.
    pub fn new(sectors: usize) -> (d: Self)
        requires
            sectors * 512 <= usize::MAX,
        ensures
            d.bytes() == bytes::zeros(512 * sectors),
            d.reliable(),
            d.synced(),
    {
        let d = MemoryDevice { data: bytes::zero_vec(sectors * 512) };
        assert(d.bytes() =~= bytes::zeros(512 * sectors));
        d
    }

    /// The bytes that the device was made of, as they stand now.
    pub fn contents(&self) -> (s: &[u8])
        ensures
            s@.take(s@.len() as int / 512 * 512) == self.bytes(),
    {
        self.data.as_slice()
    }
}

impl BlockDevice for MemoryDevice {
    closed spec fn bytes(&self) -> Seq<u8> {
        self.data@.take(self.data@.len() as int / 512 * 512)
    }

    closed spec fn reliable(&self) -> bool {
        true
    }

    closed spec fn synced(&self) -> bool {
        true
    }

    fn read_sector(&self, sector_index: u64, buf: &mut [u8; 512]) -> (r: Result<
        (),
        BlockDeviceError,
    >) {
        let n: u64 = self.data.len() as u64 / 512;
        if sector_index >= n {
            return Err(BlockDeviceError::OutOfRange(sector_index, n));
        }
        let s = sector_of(self.data.as_slice(), sector_index as usize * 512);
        *buf = s;
        assert(s@ =~= self.bytes().subrange(512 * sector_index, 512 * sector_index + 512));
        Ok(())
    }

    fn sector_count(&self) -> (n: u64) {
        self.data.len() as u64 / 512
    }

    fn write_sector(&mut self, sector_index: u64, buf: &[u8; 512]) -> (r: Result<
        (),
        BlockDeviceError,
    >) {
        let n: u64 = self.data.len() as u64 / 512;
        if sector_index >= n {
            return Err(BlockDeviceError::OutOfRange(sector_index, n));
        }
        bytes::put_bytes(&mut self.data, sector_index as usize * 512, buf.as_slice());
        assert(self.bytes() =~= bytes::put(old(self).bytes(), 512 * sector_index, buf@));
        Ok(())
    }

    fn flush(&mut self) -> (r: Result<(), BlockDeviceError>) {
        Ok(())
    }
}

} // verus!
