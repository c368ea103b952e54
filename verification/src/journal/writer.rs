//! Transactions, and the write side of the journal.
use vstd::prelude::*;
use super::replay;
use super::replay::block_type;
use super::{Journal, JournalError, JOURNAL_MAGIC};
use crate::block_device;
use crate::block_device::BlockDevice;
use crate::bytes;

verus! {

broadcast use crate::bytes::group_codec;

/// A transaction as a value: the blocks it pins, in the order in which they
/// were first pinned, and the blocks it revokes.
#[verifier::ext_equal]
pub struct TxnView {
    pub sequence: u32,
    pub blocks: Seq<(u64, Seq<u8>)>,
    pub revoked: Seq<u64>,
}

/// Position of the first entry for block `b`; the length if there is none.
pub open spec fn pin_index(blocks: Seq<(u64, Seq<u8>)>, b: u64) -> int
    decreases blocks.len(),
{
    if blocks.len() == 0 {
        0
    } else {
        let i = pin_index(blocks.drop_last(), b);
        if i < blocks.len() - 1 {
            i
        } else if blocks.last().0 == b {
            blocks.len() - 1
        } else {
            blocks.len() as int
        }
    }
}

/// The data pinned for block `b`.
pub open spec fn pinned(blocks: Seq<(u64, Seq<u8>)>, b: u64) -> Option<Seq<u8>> {
    let i = pin_index(blocks, b);
    if i < blocks.len() {
        Some(blocks[i].1)
    } else {
        None
    }
}

/// The pins after block `b` was pinned with `data`: the entry for `b` is
/// replaced, or one is added at the end.
pub open spec fn pin(blocks: Seq<(u64, Seq<u8>)>, b: u64, data: Seq<u8>) -> Seq<(u64, Seq<u8>)> {
    let i = pin_index(blocks, b);
    if i < blocks.len() {
        blocks.update(i, (b, data))
    } else {
        blocks.push((b, data))
    }
}

/// Whether no block is pinned twice.
pub open spec fn pinned_once(blocks: Seq<(u64, Seq<u8>)>) -> bool {
    forall|i: int, j: int|
        0 <= i < j < blocks.len() ==> (#[trigger] blocks[i]).0 != (#[trigger] blocks[j]).0
}

/// The numbers without `b`.
pub open spec fn without(nums: Seq<u64>, b: u64) -> Seq<u64>
    decreases nums.len(),
{
    if nums.len() == 0 {
        nums
    } else if nums.last() == b {
        without(nums.drop_last(), b)
    } else {
        without(nums.drop_last(), b).push(nums.last())
    }
}

/// Pinning a block in a transaction: it is in use, so it is not revoked any more.
pub open spec fn txn_pin(t: TxnView, b: u64, data: Seq<u8>) -> TxnView {
    TxnView { blocks: pin(t.blocks, b, data), revoked: without(t.revoked, b), ..t }
}

pub open spec fn txn_revoke(t: TxnView, b: u64) -> TxnView {
    TxnView { revoked: t.revoked.push(b), ..t }
}

/// The first entry for a block is the one that `pin_index` finds.
pub proof fn lemma_pin_index(blocks: Seq<(u64, Seq<u8>)>, b: u64)
    ensures
        0 <= pin_index(blocks, b) <= blocks.len(),
        pin_index(blocks, b) < blocks.len() ==> blocks[pin_index(blocks, b)].0 == b,
        forall|i: int| 0 <= i < pin_index(blocks, b) ==> (#[trigger] blocks[i]).0 != b,
    decreases blocks.len(),
{
    if blocks.len() > 0 {
        let d = blocks.drop_last();
        lemma_pin_index(d, b);
        assert forall|i: int| 0 <= i < pin_index(blocks, b) implies (#[trigger] blocks[i]).0
            != b by {
            if i < d.len() {
                assert(d[i] == blocks[i]);
            }
        }
        if pin_index(d, b) < d.len() {
            assert(d[pin_index(d, b)] == blocks[pin_index(d, b)]);
        }
    }
}

/// An index that is the first of its block is the one `pin_index` finds.
pub proof fn lemma_pin_index_is(blocks: Seq<(u64, Seq<u8>)>, b: u64, i: int)
    requires
        0 <= i <= blocks.len(),
        i < blocks.len() ==> blocks[i].0 == b,
        forall|j: int| 0 <= j < i ==> (#[trigger] blocks[j]).0 != b,
    ensures
        pin_index(blocks, b) == i,
{
    lemma_pin_index(blocks, b);
}

/// Pinning a block makes its data the latest, leaves every other block's pin
/// alone, and never pins a block twice.
pub proof fn lemma_pin(blocks: Seq<(u64, Seq<u8>)>, b: u64, data: Seq<u8>, c: u64)
    ensures
        pinned(pin(blocks, b, data), b) == Some(data),
        c != b ==> pinned(pin(blocks, b, data), c) == pinned(blocks, c),
        pinned_once(blocks) ==> pinned_once(pin(blocks, b, data)),
{
    let p = pin(blocks, b, data);
    let i = pin_index(blocks, b);
    lemma_pin_index(blocks, b);
    lemma_pin_index(blocks, c);
    lemma_pin_index_is(p, b, i);
    if c != b {
        let k = pin_index(blocks, c);
        if k < blocks.len() {
            lemma_pin_index_is(p, c, k);
        } else {
            lemma_pin_index_is(p, c, p.len() as int);
        }
    }
}

pub open spec fn entries_view(v: Seq<(u64, Vec<u8>)>) -> Seq<(u64, Seq<u8>)> {
    v.map_values(|e: (u64, Vec<u8>)| (e.0, e.1@))
}

/// A pending transaction: it gathers block modifications before they are
/// committed.
pub struct Transaction {
    sequence: u32,
    blocks: Vec<(u64, Vec<u8>)>,
    revoked: Vec<u64>,
}

impl View for Transaction {
    type V = TxnView;

    closed spec fn view(&self) -> TxnView {
        TxnView {
            sequence: self.sequence,
            blocks: entries_view(self.blocks@),
            revoked: self.revoked@,
        }
    }
}

impl Transaction {
    /// An empty transaction with the given sequence number.
    pub fn new(sequence: u32) -> (t: Self)
        ensures
            t@ == (TxnView { sequence, blocks: Seq::empty(), revoked: Seq::empty() }),
    {
        let t = Transaction { sequence, blocks: Vec::new(), revoked: Vec::new() };
        assert(t@ =~= (TxnView { sequence, blocks: Seq::empty(), revoked: Seq::empty() }));
        t
    }

    /// Pin a block for journaling. If it is pinned already, its data is replaced;
    /// if it was revoked, it is no more.
    pub fn pin_block(&mut self, fs_block: u64, data: Vec<u8>) -> (r: Result<(), JournalError>)
        ensures
            r is Ok,
            final(self)@ == txn_pin(old(self)@, fs_block, data@),
    {
        let ghost before = entries_view(self.blocks@);
        let ghost data_view = data@;
        let n: usize = self.blocks.len();
        let mut i: usize = 0;
        while i < n && self.blocks[i].0 != fs_block
            invariant
                *self == *old(self),
                i <= n == self.blocks@.len(),
                forall|j: int| 0 <= j < i ==> (#[trigger] self.blocks@[j]).0 != fs_block,
            decreases n - i,
        {
            i = i + 1;
        }
        proof {
            assert forall|j: int| 0 <= j < i implies (#[trigger] before[j]).0 != fs_block by {
                assert(self.blocks@[j].0 != fs_block);
            }
            lemma_pin_index_is(before, fs_block, i as int);
        }
        if i < n {
            self.blocks.set(i, (fs_block, data));
        } else {
            self.blocks.push((fs_block, data));
        }
        assert(entries_view(self.blocks@) =~= pin(before, fs_block, data_view));
        self.withdraw_revoke(fs_block);
        Ok(())
    }

    fn withdraw_revoke(&mut self, fs_block: u64)
        ensures
            final(self)@ == (TxnView {
                revoked: without(old(self)@.revoked, fs_block),
                ..old(self)@
            }),
    {
        let mut kept: Vec<u64> = Vec::new();
        let mut k: usize = 0;
        assert(self.revoked@.take(0) =~= Seq::<u64>::empty());
        while k < self.revoked.len()
            invariant
                *self == *old(self),
                k <= self.revoked@.len(),
                kept@ == without(self.revoked@.take(k as int), fs_block),
            decreases self.revoked@.len() - k,
        {
            let b: u64 = self.revoked[k];
            if b != fs_block {
                kept.push(b);
            }
            k = k + 1;
            proof {
                let now = self.revoked@.take(k as int);
                assert(now.drop_last() =~= self.revoked@.take(k - 1));
            }
        }
        assert(self.revoked@.take(k as int) =~= self.revoked@);
        self.revoked = kept;
    }

    /// Note that a block was freed: replay does not restore its old contents.
    pub fn revoke_block(&mut self, fs_block: u64)
        ensures
            final(self)@ == txn_revoke(old(self)@, fs_block),
    {
        self.revoked.push(fs_block);
    }

    pub fn is_empty(&self) -> (r: bool)
        ensures
            r == (self@.blocks.len() == 0 && self@.revoked.len() == 0),
    {
        self.blocks.len() == 0 && self.revoked.len() == 0
    }

    /// The pinned blocks with their data.
    pub fn pinned_blocks(&self) -> (s: &[(u64, Vec<u8>)])
        ensures
            entries_view(s@) == self@.blocks,
    {
        self.blocks.as_slice()
    }

    /// The data pinned for block `fs_block`, where it is `size` bytes long.
    pub(crate) fn pinned_copy(&self, fs_block: u64, size: u32) -> (r: Option<Vec<u8>>)
        ensures
            match pinned(self@.blocks, fs_block) {
                Some(d) if d.len() == size => r is Some && r->Some_0@ == d,
                _ => r is None,
            },
    {
        let n: usize = self.blocks.len();
        let mut i: usize = 0;
        while i < n && self.blocks[i].0 != fs_block
            invariant
                i <= n == self.blocks@.len(),
                forall|j: int| 0 <= j < i ==> (#[trigger] self.blocks@[j]).0 != fs_block,
            decreases n - i,
        {
            i = i + 1;
        }
        proof {
            let v = entries_view(self.blocks@);
            assert forall|j: int| 0 <= j < i implies (#[trigger] v[j]).0 != fs_block by {
                assert(self.blocks@[j].0 != fs_block);
            }
            lemma_pin_index_is(v, fs_block, i as int);
        }
        if i < n && self.blocks[i].1.len() == size as usize {
            let d = &self.blocks[i].1;
            Some(vstd::slice::slice_to_vec(d.as_slice()))
        } else {
            None
        }
    }
}

/// The write side of the journal as a value.
#[verifier::ext_equal]
pub struct WriterView {
    /// The journal block that is written next.
    pub head: u32,
    /// The number of the next transaction.
    pub sequence: u32,
    /// The physical block of each block of the journal.
    pub blocks: Seq<u64>,
    pub bs: u32,
    pub first: u32,
    pub total: u32,
    pub uuid: Seq<u8>,
    /// Whether commit blocks carry a checksum.
    pub checksummed: bool,
    /// Whether block numbers take 64 bits in a revoke block.
    pub wide: bool,
}

/// Writes transactions to the log, which is a ring of blocks.
pub struct JournalWriter {
    write_head: u32,
    next_sequence: u32,
    journal_blocks: Vec<u64>,
    block_size: u32,
    first_usable_block: u32,
    total_journal_blocks: u32,
    journal_uuid: [u8; 16],
    has_csum_v3: bool,
    has_64bit: bool,
}

impl View for JournalWriter {
    type V = WriterView;

    closed spec fn view(&self) -> WriterView {
        WriterView {
            head: self.write_head,
            sequence: self.next_sequence,
            blocks: self.journal_blocks@,
            bs: self.block_size,
            first: self.first_usable_block,
            total: self.total_journal_blocks,
            uuid: self.journal_uuid@,
            checksummed: self.has_csum_v3,
            wide: self.has_64bit,
        }
    }
}

/// The write side of a loaded journal: it goes on where the log starts.
pub open spec fn writer_of(j: Journal) -> WriterView {
    WriterView {
        head: if j.sb.clean() {
            j.sb.first_usable_block
        } else {
            j.sb.start_block
        },
        sequence: j.sb.start_sequence,
        blocks: j.blocks@,
        bs: j.sb.block_size,
        first: j.sb.first_usable_block,
        total: j.sb.total_blocks,
        uuid: j.sb.uuid@,
        checksummed: j.sb.checksummed(),
        wide: j.sb.wide(),
    }
}

/// A device and the write side of its journal.
#[verifier::ext_equal]
pub struct LogState {
    pub disk: Seq<u8>,
    pub w: WriterView,
}

/// `data`, cut or filled with zeros to `bs` bytes.
pub open spec fn padded(data: Seq<u8>, bs: u32) -> Seq<u8> {
    Seq::new(
        bs as nat,
        |i: int|
            if i < data.len() {
                data[i]
            } else {
                0u8
            },
    )
}

/// Writing one block to the log.
pub open spec fn logged(s: LogState, data: Seq<u8>) -> (LogState, Result<(), JournalError>) {
    if s.w.head >= s.w.blocks.len() {
        (s, Err(JournalError::BlockOutOfRange(s.w.head)))
    } else {
        let b = s.w.blocks[s.w.head as int];
        let d = padded(data, s.w.bs);
        let disk = block_device::with_block(s.disk, s.w.bs, b, d);
        match block_device::block_write_result(s.disk, s.w.bs, b, d) {
            Err(e) => (LogState { disk, ..s }, Err(JournalError::BlockDevice(e))),
            Ok(()) => (
                LogState {
                    disk,
                    w: WriterView {
                        head: replay::next_block(s.w.head, s.w.total, s.w.first),
                        ..s.w
                    },
                },
                Ok(()),
            ),
        }
    }
}

/// A block of zeros with a header.
pub open spec fn headed(bs: u32, kind: u32, seq: u32) -> Seq<u8> {
    let b0 = bytes::put(bytes::zeros(bs as int), 0, bytes::be32_bytes(JOURNAL_MAGIC));
    let b1 = bytes::put(b0, 4, bytes::be32_bytes(kind));
    bytes::put(b1, 8, bytes::be32_bytes(seq))
}

/// Where tag `i` of a descriptor starts: the first tag is followed by a UUID.
pub open spec fn tag_offset(i: int) -> int {
    if i == 0 {
        12
    } else {
        28 + 12 * i
    }
}

/// Whether data starts with the journal's magic number.
pub open spec fn starts_with_magic(data: Seq<u8>) -> bool {
    data.len() >= 4 && bytes::be32(data, 0) == JOURNAL_MAGIC
}

/// The flags of tag `i` of `n`, for a block that is escaped or not.
pub open spec fn flags_of(i: int, n: int, magic: bool) -> u16 {
    ((if i > 0 {
        1int
    } else {
        0
    }) + (if magic {
        4int
    } else {
        0
    }) + (if i == n - 1 {
        8int
    } else {
        0
    })) as u16
}

/// The block with a tag at `off`.
pub open spec fn with_tag(b: Seq<u8>, off: int, home: u64, flags: u16) -> Seq<u8> {
    let b0 = bytes::put(b, off, bytes::be32_bytes((home % 0x1_0000_0000) as u32));
    let b1 = bytes::put(b0, off + 4, bytes::be16_bytes(flags));
    let b2 = bytes::put(
        b1,
        off + 6,
        bytes::be16_bytes((home / 0x1_0000_0000 % 0x1_0000) as u16),
    );
    bytes::put(b2, off + 8, bytes::be32_bytes(0))
}

/// A descriptor of the given blocks, with the tags of the first `k`.
pub open spec fn descriptor(
    w: WriterView,
    blocks: Seq<(u64, Seq<u8>)>,
    seq: u32,
    k: int,
) -> Seq<u8>
    decreases k,
{
    if k <= 0 {
        headed(w.bs, block_type::DESCRIPTOR, seq)
    } else {
        let b = with_tag(
            descriptor(w, blocks, seq, k - 1),
            tag_offset(k - 1),
            blocks[k - 1].0,
            flags_of(k - 1, blocks.len() as int, starts_with_magic(blocks[k - 1].1)),
        );
        if k == 1 {
            bytes::put(b, 24, w.uuid)
        } else {
            b
        }
    }
}

/// A data block as the log holds it: the journal's magic number at its start is
/// zeroed.
pub open spec fn escaped(data: Seq<u8>) -> Seq<u8> {
    if starts_with_magic(data) {
        bytes::put(data, 0, bytes::zeros(4))
    } else {
        data
    }
}

/// Writing data blocks to the log, from number `k` on.
pub open spec fn data_logged(s: LogState, blocks: Seq<(u64, Seq<u8>)>, k: int) -> (
    LogState,
    Result<(), JournalError>,
)
    decreases blocks.len() - k,
{
    if k >= blocks.len() {
        (s, Ok(()))
    } else {
        let (s1, r1) = logged(s, escaped(blocks[k].1));
        match r1 {
            Err(e) => (s1, Err(e)),
            Ok(()) => data_logged(s1, blocks, k + 1),
        }
    }
}

/// The bytes that a block number takes in a revoke block.
pub open spec fn number_size(wide: bool) -> int {
    if wide {
        8
    } else {
        4
    }
}

/// A block number as a revoke block holds it: without the 64-bit feature it is cut
/// to 32 bits.
pub open spec fn revoked_number(b: u64, wide: bool) -> u64 {
    if wide {
        b
    } else {
        b % 0x1_0000_0000
    }
}

/// The block with number `k` of the revoked ones.
pub open spec fn with_number(block: Seq<u8>, k: int, b: u64, wide: bool) -> Seq<u8> {
    let low = (b % 0x1_0000_0000) as u32;
    if wide {
        bytes::put(
            bytes::put(block, 16 + 8 * k, bytes::be32_bytes((b / 0x1_0000_0000) as u32)),
            20 + 8 * k,
            bytes::be32_bytes(low),
        )
    } else {
        bytes::put(block, 16 + 4 * k, bytes::be32_bytes(low))
    }
}

/// A revoke block for the given numbers, with the first `k` of them filled in.
pub open spec fn revoke_block(bs: u32, nums: Seq<u64>, seq: u32, wide: bool, k: int) -> Seq<u8>
    decreases k,
{
    if k <= 0 {
        bytes::put(
            headed(bs, block_type::REVOKE, seq),
            12,
            bytes::be32_bytes(nums.len() as u32),
        )
    } else {
        with_number(revoke_block(bs, nums, seq, wide, k - 1), k - 1, nums[k - 1], wide)
    }
}

/// How many block numbers fit into a revoke block.
pub open spec fn revoke_room(bs: u32, wide: bool) -> int {
    (bs - 16) / number_size(wide)
}

/// Those of the revoked numbers that the first revoke block holds.
pub open spec fn first_revoked(bs: u32, revoked: Seq<u64>, wide: bool) -> Seq<u64> {
    if revoked.len() < revoke_room(bs, wide) {
        revoked
    } else {
        revoked.take(revoke_room(bs, wide))
    }
}

/// One step of the checksum.
pub open spec fn crc_step(h: u32) -> u32 {
    if h & 1 != 0 {
        (h >> 1) ^ 0x82F6_3B78
    } else {
        h >> 1
    }
}

pub open spec fn crc_steps(h: u32, n: nat) -> u32
    decreases n,
{
    if n == 0 {
        h
    } else {
        crc_step(crc_steps(h, (n - 1) as nat))
    }
}

/// The checksum over the first `k` bytes of the UUID.
pub open spec fn crc_uuid(uuid: Seq<u8>, k: nat) -> u32
    decreases k,
{
    if k == 0 {
        0xFFFF_FFFF
    } else {
        crc_steps(crc_uuid(uuid, (k - 1) as nat) ^ (uuid[k - 1] as u32), 8)
    }
}

/// The checksum of a commit block: of the UUID and the sequence number.
pub open spec fn commit_checksum(uuid: Seq<u8>, seq: u32) -> u32 {
    !(crc_uuid(uuid, 16) ^ seq)
}

pub open spec fn commit_block(w: WriterView, seq: u32) -> Seq<u8> {
    let b = headed(w.bs, block_type::COMMIT, seq);
    if w.checksummed {
        bytes::put(b, 12, bytes::le32_bytes(commit_checksum(w.uuid, seq)))
    } else {
        b
    }
}

/// Writing the revoke blocks of a transaction, as many as its numbers take.
pub open spec fn revokes_logged(s: LogState, revoked: Seq<u64>, seq: u32) -> (
    LogState,
    Result<(), JournalError>,
)
    decreases revoked.len(),
{
    if revoked.len() == 0 || s.w.bs < 24 {
        (s, Ok(()))
    } else {
        let nums = first_revoked(s.w.bs, revoked, s.w.wide);
        let (s1, r1) = logged(
            s,
            revoke_block(s.w.bs, nums, seq, s.w.wide, nums.len() as int),
        );
        match r1 {
            Err(e) => (s1, Err(e)),
            Ok(()) => revokes_logged(s1, revoked.skip(nums.len() as int), seq),
        }
    }
}

/// Writing the descriptor and the data of a transaction, if it pins anything.
/// A transaction whose tags do not fit into one block is refused.
pub open spec fn blocks_logged(s: LogState, t: TxnView) -> (LogState, Result<(), JournalError>) {
    if t.blocks.len() == 0 {
        (s, Ok(()))
    } else if tag_offset(t.blocks.len() - 1) + 12 > s.w.bs {
        (s, Err(JournalError::BlockOutOfRange(s.w.head)))
    } else {
        let (s1, r1) = logged(
            s,
            descriptor(s.w, t.blocks, t.sequence, t.blocks.len() as int),
        );
        match r1 {
            Err(e) => (s1, Err(e)),
            Ok(()) => data_logged(s1, t.blocks, 0),
        }
    }
}

/// Writing a transaction to the log: what it revokes, then what it pins, then
/// the commit block.
pub open spec fn txn_logged(s: LogState, t: TxnView) -> (LogState, Result<(), JournalError>) {
    let (s1, r1) = revokes_logged(s, t.revoked, t.sequence);
    match r1 {
        Err(e) => (s1, Err(e)),
        Ok(()) => {
            let (s2, r2) = blocks_logged(s1, t);
            match r2 {
                Err(e) => (s2, Err(e)),
                Ok(()) => logged(s2, commit_block(s2.w, t.sequence)),
            }
        },
    }
}

/// Pinned blocks as they are written to their homes.
pub open spec fn padded_all(blocks: Seq<(u64, Seq<u8>)>, bs: u32) -> Seq<(u64, Seq<u8>)> {
    blocks.map_values(|e: (u64, Seq<u8>)| (e.0, padded(e.1, bs)))
}

/// The numbers of the given blocks.
pub open spec fn homes(blocks: Seq<(u64, Seq<u8>)>) -> Set<u64> {
    Set::new(|b: u64| exists|k: int| 0 <= k < blocks.len() && (#[trigger] blocks[k]).0 == b)
}

/// Committing a transaction: it is written to the log, then to its blocks'
/// homes, and then everything is flushed.
pub open spec fn committed(s: LogState, t: TxnView) -> (LogState, Result<(), JournalError>) {
    if !block_device::sectored(s.w.bs) {
        (s, Err(JournalError::InvalidBuffer))
    } else {
        let (s1, r1) = txn_logged(s, t);
        match r1 {
            Err(e) => (s1, Err(e)),
            Ok(()) => {
                let (disk, r2) = replay::applied(
                    s1.disk,
                    s.w.bs,
                    padded_all(t.blocks, s.w.bs),
                    0,
                );
                match r2 {
                    Err(e) => (LogState { disk, ..s1 }, Err(e)),
                    Ok(()) => (
                        LogState {
                            disk,
                            w: WriterView {
                                sequence: ((s.w.sequence + 1) % 0x1_0000_0000) as u32,
                                ..s1.w
                            },
                        },
                        Ok(()),
                    ),
                }
            },
        }
    }
}

/// Moving the start of the log to its first usable block.
pub open spec fn tail_advanced(s: LogState) -> (LogState, Result<(), JournalError>) {
    if s.w.blocks.len() == 0 {
        (s, Err(JournalError::BlockOutOfRange(0)))
    } else {
        match block_device::block_at(s.disk, s.w.bs, s.w.blocks[0]) {
            Err(e) => (s, Err(JournalError::BlockDevice(e))),
            Ok(b) => if s.w.bs < 1024 {
                (s, Err(JournalError::InvalidBuffer))
            } else {
                let b2 = replay::with_tail(b, s.w.first, s.w.sequence);
                (
                    LogState {
                        disk: block_device::with_block(s.disk, s.w.bs, s.w.blocks[0], b2),
                        ..s
                    },
                    match block_device::block_write_result(
                        s.disk,
                        s.w.bs,
                        s.w.blocks[0],
                        b2,
                    ) {
                        Err(e) => Err(JournalError::BlockDevice(e)),
                        Ok(()) => Ok(()),
                    },
                )
            },
        }
    }
}

/// Checkpointing: blocks are written to their homes, and the log starts anew.
pub open spec fn checkpointed(s: LogState, blocks: Seq<(u64, Seq<u8>)>) -> (
    LogState,
    Result<(), JournalError>,
) {
    if !block_device::sectored(s.w.bs) {
        (s, Err(JournalError::InvalidBuffer))
    } else {
        let (disk, r) = replay::applied(s.disk, s.w.bs, padded_all(blocks, s.w.bs), 0);
        match r {
            Err(e) => (LogState { disk, ..s }, Err(e)),
            Ok(()) => tail_advanced(LogState { disk, ..s }),
        }
    }
}

fn pad(data: &[u8], bs: u32) -> (v: Vec<u8>)
    ensures
        v@ == padded(data@, bs),
        v@.len() == bs,
{
    let mut v = bytes::zero_vec(bs as usize);
    let n: usize = if data.len() < bs as usize {
        data.len()
    } else {
        bs as usize
    };
    let head = bytes::copy_range(data, 0, n);
    bytes::put_bytes(&mut v, 0, head.as_slice());
    assert(v@ =~= padded(data@, bs));
    v
}

fn build_headed(bs: u32, kind: u32, seq: u32) -> (v: Vec<u8>)
    requires
        bs >= 12,
    ensures
        v@ == headed(bs, kind, seq),
        v@.len() == bs,
{
    let mut v = bytes::zero_vec(bs as usize);
    bytes::put_u32_be(&mut v, 0, JOURNAL_MAGIC);
    bytes::put_u32_be(&mut v, 4, kind);
    bytes::put_u32_be(&mut v, 8, seq);
    v
}

fn put_tag(v: &mut Vec<u8>, off: usize, home: u64, flags: u16)
    requires
        off + 12 <= old(v).len(),
    ensures
        final(v)@ == with_tag(old(v)@, off as int, home, flags),
        final(v)@.len() == old(v)@.len(),
{
    bytes::put_u32_be(v, off, (home % 0x1_0000_0000) as u32);
    bytes::put_u16_be(v, off + 4, flags);
    bytes::put_u16_be(v, off + 6, (home / 0x1_0000_0000 % 0x1_0000) as u16);
    bytes::put_u32_be(v, off + 8, 0);
}

/// Fold the journal's UUID and the sequence number into a checksum.
fn crc32c_commit(uuid: &[u8; 16], sequence: u32) -> (r: u32)
    ensures
        r == commit_checksum(uuid@, sequence),
{
    let mut h: u32 = 0xFFFF_FFFF;
    let mut i: usize = 0;
    while i < 16
        invariant
            i <= 16,
            h == crc_uuid(uuid@, i as nat),
        decreases 16 - i,
    {
        h = h ^ (uuid[i] as u32);
        let ghost start = h;
        let mut k: u32 = 0;
        while k < 8
            invariant
                k <= 8,
                h == crc_steps(start, k as nat),
            decreases 8 - k,
        {
            h =
            if h & 1 != 0 {
                (h >> 1) ^ 0x82F6_3B78
            } else {
                h >> 1
            };
            k = k + 1;
        }
        i = i + 1;
    }
    !(h ^ sequence)
}

/// Write blocks to their homes.
fn write_fs_blocks<D: BlockDevice>(dev: &mut D, blocks: &[(u64, Vec<u8>)], bs: u32) -> (r: Result<
    (),
    JournalError,
>)
    requires
        block_device::sectored(bs),
    ensures
        block_device::same_shape(*old(dev), *final(dev)),
        block_device::kept_but(
            old(dev).bytes(),
            final(dev).bytes(),
            bs,
            homes(entries_view(blocks@)),
        ),
        r is Ok || old(dev).reliable() ==> (final(dev).bytes(), r) == replay::applied(
            old(dev).bytes(),
            bs,
            padded_all(entries_view(blocks@), bs),
            0,
        ),
{
    let ghost v = padded_all(entries_view(blocks@), bs);
    let mut k: usize = 0;
    while k < blocks.len()
        invariant
            block_device::sectored(bs),
            v == padded_all(entries_view(blocks@), bs),
            k <= blocks@.len(),
            block_device::same_shape(*old(dev), *dev),
            block_device::kept_but(
                old(dev).bytes(),
                dev.bytes(),
                bs,
                homes(entries_view(blocks@)),
            ),
            replay::applied(old(dev).bytes(), bs, v, 0) == replay::applied(
                dev.bytes(),
                bs,
                v,
                k as int,
            ),
        decreases blocks@.len() - k,
    {
        let d = pad(blocks[k].1.as_slice(), bs);
        assert(v[k as int] == (blocks@[k as int].0, d@));
        assert(entries_view(blocks@)[k as int].0 == blocks@[k as int].0);
        match block_device::write_block(dev, bs, blocks[k].0, d.as_slice()) {
            Ok(()) => {},
            Err(e) => {
                return Err(JournalError::BlockDevice(e));
            },
        }
        k = k + 1;
    }
    Ok(())
}

impl JournalWriter {
    /// The write side of a loaded journal.
    pub fn new(journal: &Journal) -> (w: Self)
        ensures
            w@ == writer_of(*journal),
    {
        let head: u32 = if journal.sb.is_clean() {
            journal.sb.first_usable_block
        } else {
            journal.sb.start_block
        };
        JournalWriter {
            write_head: head,
            next_sequence: journal.sb.start_sequence,
            journal_blocks: vstd::slice::slice_to_vec(journal.blocks.as_slice()),
            block_size: journal.sb.block_size,
            first_usable_block: journal.sb.first_usable_block,
            total_journal_blocks: journal.sb.total_blocks,
            journal_uuid: journal.sb.uuid,
            has_csum_v3: journal.sb.has_csum_v3(),
            has_64bit: journal.sb.has_64bit(),
        }
    }

    /// A new, empty transaction with the next sequence number.
    pub fn begin_transaction(&self) -> (t: Transaction)
        ensures
            t@ == (TxnView {
                sequence: self@.sequence,
                blocks: Seq::empty(),
                revoked: Seq::empty(),
            }),
    {
        Transaction::new(self.next_sequence)
    }

    /// The journal block that is written next.
    pub fn write_head(&self) -> (h: u32)
        ensures
            h == self@.head,
    {
        self.write_head
    }

    /// The number of the next transaction.
    pub fn next_sequence(&self) -> (n: u32)
        ensures
            n == self@.sequence,
    {
        self.next_sequence
    }

    fn write_to_journal<D: BlockDevice>(&mut self, dev: &mut D, data: &[u8]) -> (r: Result<
        (),
        JournalError,
    >)
        requires
            block_device::sectored(old(self)@.bs),
        ensures
            final(self)@ == (WriterView { head: final(self)@.head, ..old(self)@ }),
            block_device::same_shape(*old(dev), *final(dev)),
            block_device::kept_but(
                old(dev).bytes(),
                final(dev).bytes(),
                old(self)@.bs,
                old(self)@.blocks.to_set(),
            ),
            r is Ok || old(dev).reliable() ==> (
                (LogState { disk: final(dev).bytes(), w: final(self)@ }),
                r,
            ) == logged(LogState { disk: old(dev).bytes(), w: old(self)@ }, data@),
    {
        if self.write_head as usize >= self.journal_blocks.len() {
            return Err(JournalError::BlockOutOfRange(self.write_head));
        }
        let phys: u64 = self.journal_blocks[self.write_head as usize];
        let d = pad(data, self.block_size);
        assert(self@.blocks.contains(phys)) by {
            assert(self@.blocks[self.write_head as int] == phys);
        }
        match block_device::write_block(dev, self.block_size, phys, d.as_slice()) {
            Ok(()) => {},
            Err(e) => {
                return Err(JournalError::BlockDevice(e));
            },
        }
        self.write_head =
        if self.write_head == u32::MAX || self.write_head + 1 >= self.total_journal_blocks {
            self.first_usable_block
        } else {
            self.write_head + 1
        };
        Ok(())
    }

    /// Write one revoke block for the numbers from `from` up to `to`.
    fn write_revoke_block<D: BlockDevice>(
        &mut self,
        dev: &mut D,
        revoked: &Vec<u64>,
        from: usize,
        to: usize,
        sequence: u32,
    ) -> (r: Result<(), JournalError>)
        requires
            block_device::sectored(old(self)@.bs),
            from <= to <= revoked@.len(),
            to - from <= revoke_room(old(self)@.bs, old(self)@.wide),
        ensures
            final(self)@ == (WriterView { head: final(self)@.head, ..old(self)@ }),
            block_device::same_shape(*old(dev), *final(dev)),
            block_device::kept_but(
                old(dev).bytes(),
                final(dev).bytes(),
                old(self)@.bs,
                old(self)@.blocks.to_set(),
            ),
            r is Ok || old(dev).reliable() ==> (
                (LogState { disk: final(dev).bytes(), w: final(self)@ }),
                r,
            ) == logged(
                LogState { disk: old(dev).bytes(), w: old(self)@ },
                revoke_block(
                    old(self)@.bs,
                    revoked@.subrange(from as int, to as int),
                    sequence,
                    old(self)@.wide,
                    to - from,
                ),
            ),
    {
        let bs: u32 = self.block_size;
        let wide: bool = self.has_64bit;
        let n: usize = to - from;
        let ghost nums = revoked@.subrange(from as int, to as int);
        let mut v = build_headed(bs, block_type::REVOKE, sequence);
        bytes::put_u32_be(&mut v, 12, n as u32);
        let mut k: usize = 0;
        while k < n
            invariant
                bs >= 512,
                k <= n,
                n == to - from,
                from <= to <= revoked@.len(),
                nums == revoked@.subrange(from as int, to as int),
                n <= revoke_room(bs, wide),
                v@.len() == bs,
                v@ == revoke_block(bs, nums, sequence, wide, k as int),
            decreases n - k,
        {
            let b: u64 = revoked[from + k];
            assert(nums[k as int] == b);
            let low: u32 = (b % 0x1_0000_0000) as u32;
            if wide {
                bytes::put_u32_be(&mut v, 16 + 8 * k, (b / 0x1_0000_0000) as u32);
                bytes::put_u32_be(&mut v, 20 + 8 * k, low);
            } else {
                bytes::put_u32_be(&mut v, 16 + 4 * k, low);
            }
            k = k + 1;
        }
        self.write_to_journal(dev, v.as_slice())
    }

    fn write_revoke_blocks<D: BlockDevice>(
        &mut self,
        dev: &mut D,
        revoked: &Vec<u64>,
        sequence: u32,
    ) -> (r: Result<(), JournalError>)
        requires
            block_device::sectored(old(self)@.bs),
        ensures
            final(self)@ == (WriterView { head: final(self)@.head, ..old(self)@ }),
            block_device::same_shape(*old(dev), *final(dev)),
            block_device::kept_but(
                old(dev).bytes(),
                final(dev).bytes(),
                old(self)@.bs,
                old(self)@.blocks.to_set(),
            ),
            r is Ok || old(dev).reliable() ==> (
                (LogState { disk: final(dev).bytes(), w: final(self)@ }),
                r,
            ) == revokes_logged(
                LogState { disk: old(dev).bytes(), w: old(self)@ },
                revoked@,
                sequence,
            ),
    {
        let size: usize = if self.has_64bit {
            8
        } else {
            4
        };
        let room: usize = (self.block_size as usize - 16) / size;
        let mut from: usize = 0;
        assert(revoked@.skip(0) =~= revoked@);
        while from < revoked.len()
            invariant
                block_device::sectored(self@.bs),
                self@ == (WriterView { head: self@.head, ..old(self)@ }),
                room == revoke_room(self@.bs, self@.wide),
                0 < room,
                from <= revoked@.len(),
                block_device::same_shape(*old(dev), *dev),
                block_device::kept_but(
                    old(dev).bytes(),
                    dev.bytes(),
                    self@.bs,
                    self@.blocks.to_set(),
                ),
                revokes_logged(
                    LogState { disk: old(dev).bytes(), w: old(self)@ },
                    revoked@,
                    sequence,
                ) == revokes_logged(
                    LogState { disk: dev.bytes(), w: self@ },
                    revoked@.skip(from as int),
                    sequence,
                ),
            decreases revoked@.len() - from,
        {
            let to: usize = if revoked.len() - from < room {
                revoked.len()
            } else {
                from + room
            };
            proof {
                let rest = revoked@.skip(from as int);
                let nums = first_revoked(self@.bs, rest, self@.wide);
                assert(nums =~= revoked@.subrange(from as int, to as int));
                assert(rest.skip(nums.len() as int) =~= revoked@.skip(to as int));
            }
            match self.write_revoke_block(dev, revoked, from, to, sequence) {
                Ok(()) => {},
                Err(e) => {
                    return Err(e);
                },
            }
            from = to;
        }
        Ok(())
    }

    fn write_descriptor_block<D: BlockDevice>(
        &mut self,
        dev: &mut D,
        blocks: &Vec<(u64, Vec<u8>)>,
        sequence: u32,
    ) -> (r: Result<(), JournalError>)
        requires
            block_device::sectored(old(self)@.bs),
            blocks@.len() > 0,
            tag_offset(blocks@.len() - 1) + 12 <= old(self)@.bs,
            old(self)@.uuid.len() == 16,
        ensures
            final(self)@ == (WriterView { head: final(self)@.head, ..old(self)@ }),
            block_device::same_shape(*old(dev), *final(dev)),
            block_device::kept_but(
                old(dev).bytes(),
                final(dev).bytes(),
                old(self)@.bs,
                old(self)@.blocks.to_set(),
            ),
            r is Ok || old(dev).reliable() ==> (
                (LogState { disk: final(dev).bytes(), w: final(self)@ }),
                r,
            ) == logged(
                LogState { disk: old(dev).bytes(), w: old(self)@ },
                descriptor(
                    old(self)@,
                    entries_view(blocks@),
                    sequence,
                    blocks@.len() as int,
                ),
            ),
    {
        let bs: u32 = self.block_size;
        let n: usize = blocks.len();
        let mut v = build_headed(bs, block_type::DESCRIPTOR, sequence);
        let ghost e = entries_view(blocks@);
        let mut k: usize = 0;
        while k < n
            invariant
                bs >= 512,
                bs == self@.bs,
                *self == *old(self),
                self@.uuid == self.journal_uuid@,
                k <= n,
                n == blocks@.len(),
                n > 0,
                e == entries_view(blocks@),
                tag_offset(n - 1) + 12 <= bs,
                v@.len() == bs,
                v@ == descriptor(self@, e, sequence, k as int),
            decreases n - k,
        {
            let off: usize = if k == 0 {
                12
            } else {
                28 + 12 * k
            };
            let mut flags: u16 = if k > 0 {
                1
            } else {
                0
            };
            let data = blocks[k].1.as_slice();
            if data.len() >= 4 && bytes::get_u32_be(data, 0) == JOURNAL_MAGIC {
                flags = flags + 4;
            }
            if k == n - 1 {
                flags = flags + 8;
            }
            assert(e[k as int] == (blocks@[k as int].0, blocks@[k as int].1@));
            put_tag(&mut v, off, blocks[k].0, flags);
            if k == 0 {
                bytes::put_bytes(&mut v, 24, self.journal_uuid.as_slice());
            }
            k = k + 1;
        }
        self.write_to_journal(dev, v.as_slice())
    }

    fn write_data_blocks<D: BlockDevice>(
        &mut self,
        dev: &mut D,
        blocks: &Vec<(u64, Vec<u8>)>,
    ) -> (r: Result<(), JournalError>)
        requires
            block_device::sectored(old(self)@.bs),
        ensures
            final(self)@ == (WriterView { head: final(self)@.head, ..old(self)@ }),
            block_device::same_shape(*old(dev), *final(dev)),
            block_device::kept_but(
                old(dev).bytes(),
                final(dev).bytes(),
                old(self)@.bs,
                old(self)@.blocks.to_set(),
            ),
            r is Ok || old(dev).reliable() ==> (
                (LogState { disk: final(dev).bytes(), w: final(self)@ }),
                r,
            ) == data_logged(
                LogState { disk: old(dev).bytes(), w: old(self)@ },
                entries_view(blocks@),
                0,
            ),
    {
        let ghost e = entries_view(blocks@);
        let mut k: usize = 0;
        while k < blocks.len()
            invariant
                block_device::sectored(self@.bs),
                self@ == (WriterView { head: self@.head, ..old(self)@ }),
                e == entries_view(blocks@),
                k <= blocks@.len(),
                block_device::same_shape(*old(dev), *dev),
                block_device::kept_but(
                    old(dev).bytes(),
                    dev.bytes(),
                    self@.bs,
                    self@.blocks.to_set(),
                ),
                data_logged(LogState { disk: old(dev).bytes(), w: old(self)@ }, e, 0)
                    == data_logged(LogState { disk: dev.bytes(), w: self@ }, e, k as int),
            decreases blocks@.len() - k,
        {
            assert(e[k as int].1 == blocks@[k as int].1@);
            let data = blocks[k].1.as_slice();
            let mut d = vstd::slice::slice_to_vec(data);
            if d.len() >= 4 && bytes::get_u32_be(d.as_slice(), 0) == JOURNAL_MAGIC {
                let z = bytes::zero_vec(4);
                bytes::put_bytes(&mut d, 0, z.as_slice());
            }
            assert(d@ == escaped(e[k as int].1));
            match self.write_to_journal(dev, d.as_slice()) {
                Ok(()) => {},
                Err(x) => {
                    return Err(x);
                },
            }
            k = k + 1;
        }
        Ok(())
    }

    fn write_commit_block<D: BlockDevice>(&mut self, dev: &mut D, sequence: u32) -> (r: Result<
        (),
        JournalError,
    >)
        requires
            block_device::sectored(old(self)@.bs),
        ensures
            final(self)@ == (WriterView { head: final(self)@.head, ..old(self)@ }),
            block_device::same_shape(*old(dev), *final(dev)),
            block_device::kept_but(
                old(dev).bytes(),
                final(dev).bytes(),
                old(self)@.bs,
                old(self)@.blocks.to_set(),
            ),
            r is Ok || old(dev).reliable() ==> (
                (LogState { disk: final(dev).bytes(), w: final(self)@ }),
                r,
            ) == logged(
                LogState { disk: old(dev).bytes(), w: old(self)@ },
                commit_block(old(self)@, sequence),
            ),
    {
        let mut v = build_headed(self.block_size, block_type::COMMIT, sequence);
        if self.has_csum_v3 {
            let sum: u32 = crc32c_commit(&self.journal_uuid, sequence);
            bytes::put_u32_le(&mut v, 12, sum);
        }
        self.write_to_journal(dev, v.as_slice())
    }

    fn write_txn<D: BlockDevice>(&mut self, dev: &mut D, txn: &Transaction) -> (r: Result<
        (),
        JournalError,
    >)
        requires
            block_device::sectored(old(self)@.bs),
        ensures
            final(self)@ == (WriterView { head: final(self)@.head, ..old(self)@ }),
            block_device::same_shape(*old(dev), *final(dev)),
            block_device::kept_but(
                old(dev).bytes(),
                final(dev).bytes(),
                old(self)@.bs,
                old(self)@.blocks.to_set(),
            ),
            r is Ok || old(dev).reliable() ==> (
                (LogState { disk: final(dev).bytes(), w: final(self)@ }),
                r,
            ) == txn_logged(LogState { disk: old(dev).bytes(), w: old(self)@ }, txn@),
    {
        match self.write_revoke_blocks(dev, &txn.revoked, txn.sequence) {
            Ok(()) => {},
            Err(e) => {
                return Err(e);
            },
        }
        let n: usize = txn.blocks.len();
        if n > 0 {
            let bs: u64 = self.block_size as u64;
            if n as u64 > bs / 12 {
                return Err(JournalError::BlockOutOfRange(self.write_head));
            }
            let last: u64 = if n == 1 {
                12
            } else {
                28 + 12 * (n as u64 - 1)
            };
            if last + 12 > bs {
                return Err(JournalError::BlockOutOfRange(self.write_head));
            }
            assert(self@.uuid.len() == 16);
            match self.write_descriptor_block(dev, &txn.blocks, txn.sequence) {
                Ok(()) => {},
                Err(e) => {
                    return Err(e);
                },
            }
            match self.write_data_blocks(dev, &txn.blocks) {
                Ok(()) => {},
                Err(e) => {
                    return Err(e);
                },
            }
        }
        self.write_commit_block(dev, txn.sequence)
    }

    /// Commit a transaction: write it to the log, then its blocks to their
    /// homes, so that reads see them without a replay. The device is flushed
    /// before this returns.
    pub fn commit<D: BlockDevice>(&mut self, dev: &mut D, txn: Transaction) -> (r: Result<
        (),
        JournalError,
    >)
        ensures
            block_device::same_shape(*old(dev), *final(dev)),
            r is Ok || old(dev).reliable() ==> (
                (LogState { disk: final(dev).bytes(), w: final(self)@ }),
                r,
            ) == committed(LogState { disk: old(dev).bytes(), w: old(self)@ }, txn@),
            r is Ok ==> final(dev).synced(),
            r is Err ==> final(self)@ == (WriterView { head: final(self)@.head, ..old(self)@ }),
            block_device::kept_but(
                old(dev).bytes(),
                final(dev).bytes(),
                old(self)@.bs,
                old(self)@.blocks.to_set().union(homes(txn@.blocks)),
            ),
    {
        if self.block_size < 512 || self.block_size % 512 != 0 {
            return Err(JournalError::InvalidBuffer);
        }
        match self.write_txn(dev, &txn) {
            Ok(()) => {},
            Err(e) => {
                return Err(e);
            },
        }
        match write_fs_blocks(dev, txn.blocks.as_slice(), self.block_size) {
            Ok(()) => {},
            Err(e) => {
                return Err(e);
            },
        }
        match dev.flush() {
            Ok(()) => {},
            Err(e) => {
                return Err(JournalError::BlockDevice(e));
            },
        }
        self.next_sequence =
        if self.next_sequence == u32::MAX {
            0
        } else {
            self.next_sequence + 1
        };
        Ok(())
    }

    /// Write blocks to their homes, and start the log anew. The device is
    /// flushed in between, and before this returns.
    pub fn checkpoint<D: BlockDevice>(
        &mut self,
        dev: &mut D,
        txn_blocks: &[(u64, Vec<u8>)],
    ) -> (r: Result<(), JournalError>)
        ensures
            final(self)@ == old(self)@,
            block_device::same_shape(*old(dev), *final(dev)),
            r is Ok || old(dev).reliable() ==> (
                (LogState { disk: final(dev).bytes(), w: final(self)@ }),
                r,
            ) == checkpointed(
                LogState { disk: old(dev).bytes(), w: old(self)@ },
                entries_view(txn_blocks@),
            ),
            r is Ok ==> final(dev).synced(),
    {
        if self.block_size < 512 || self.block_size % 512 != 0 {
            return Err(JournalError::InvalidBuffer);
        }
        match write_fs_blocks(dev, txn_blocks, self.block_size) {
            Ok(()) => {},
            Err(e) => {
                return Err(e);
            },
        }
        match dev.flush() {
            Ok(()) => {},
            Err(e) => {
                return Err(JournalError::BlockDevice(e));
            },
        }
        match self.advance_journal_tail(dev) {
            Ok(()) => {},
            Err(e) => {
                return Err(e);
            },
        }
        match dev.flush() {
            Ok(()) => Ok(()),
            Err(e) => Err(JournalError::BlockDevice(e)),
        }
    }

    fn advance_journal_tail<D: BlockDevice>(&self, dev: &mut D) -> (r: Result<(), JournalError>)
        requires
            block_device::sectored(self@.bs),
        ensures
            block_device::same_shape(*old(dev), *final(dev)),
            r is Ok || old(dev).reliable() ==> (
                (LogState { disk: final(dev).bytes(), w: self@ }),
                r,
            ) == tail_advanced(LogState { disk: old(dev).bytes(), w: self@ }),
    {
        if self.journal_blocks.len() == 0 {
            return Err(JournalError::BlockOutOfRange(0));
        }
        let phys: u64 = self.journal_blocks[0];
        let mut data = match block_device::read_block(dev, self.block_size, phys) {
            Ok(b) => b,
            Err(e) => {
                return Err(JournalError::BlockDevice(e));
            },
        };
        if data.len() < 1024 {
            return Err(JournalError::InvalidBuffer);
        }
        bytes::put_u32_be(&mut data, 28, self.first_usable_block);
        bytes::put_u32_be(&mut data, 24, self.next_sequence);
        match block_device::write_block(dev, self.block_size, phys, data.as_slice()) {
            Ok(()) => Ok(()),
            Err(e) => Err(JournalError::BlockDevice(e)),
        }
    }

    /// Flush what is pending, on unmount. Each commit is immediate, so nothing is.
    pub fn flush_pending<D: BlockDevice>(&mut self, _dev: &D) -> (r: Result<(), JournalError>)
        ensures
            r is Ok,
            final(self)@ == old(self)@,
    {
        Ok(())
    }
}

} // verus!
