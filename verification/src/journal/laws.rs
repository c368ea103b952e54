//! What committing and replaying promise together.
use vstd::prelude::*;
use super::replay;
use super::replay::block_type;
use super::writer;
use super::writer::{LogState, TxnView, WriterView};
use super::{Journal, JournalError, JOURNAL_MAGIC};
use crate::block_device;
use crate::block_device::BlockDeviceError;
use crate::bytes;
use crate::fs_state;

verus! {

broadcast use crate::bytes::group_codec;

/// Block `b` holds `data`.
pub open spec fn holds(disk: Seq<u8>, bs: u32, b: u64, data: Seq<u8>) -> bool {
    block_device::block_at(disk, bs, b) == Ok::<Seq<u8>, BlockDeviceError>(data)
}

/// Whether blocks are listed once each, and are all as long as a block is.
pub open spec fn listed_once(blocks: Seq<(u64, Seq<u8>)>, bs: u32) -> bool {
    &&& writer::pinned_once(blocks)
    &&& forall|i: int| 0 <= i < blocks.len() ==> (#[trigger] blocks[i]).1.len() == bs
}

/// Whether `b` is not among the blocks from number `k` on.
pub open spec fn elsewhere(blocks: Seq<(u64, Seq<u8>)>, k: int, b: u64) -> bool {
    forall|i: int| k <= i < blocks.len() ==> (#[trigger] blocks[i]).0 != b
}

/// Blocks that were written to their homes are there, and no other block
/// changed.
pub proof fn law_applied(disk: Seq<u8>, bs: u32, blocks: Seq<(u64, Seq<u8>)>, k: int, c: u64)
    requires
        block_device::sectored(bs),
        disk.len() % 512 == 0,
        listed_once(blocks, bs),
        0 <= k,
    ensures
        replay::applied(disk, bs, blocks, k).0.len() == disk.len(),
        replay::applied(disk, bs, blocks, k).1 is Ok ==> forall|i: int|
            k <= i < blocks.len() ==> holds(
                replay::applied(disk, bs, blocks, k).0,
                bs,
                (#[trigger] blocks[i]).0,
                blocks[i].1,
            ),
        elsewhere(blocks, k, c) ==> block_device::block_at(
            replay::applied(disk, bs, blocks, k).0,
            bs,
            c,
        ) == block_device::block_at(disk, bs, c),
    decreases blocks.len() - k,
{
    if k < blocks.len() {
        let b = blocks[k].0;
        let d = blocks[k].1;
        let next = block_device::with_block(disk, bs, b, d);
        block_device::lemma_block_write_read(disk, bs, b, d, c);
        law_applied(next, bs, blocks, k + 1, c);
        if block_device::block_write_result(disk, bs, b, d) is Ok {
            law_applied(next, bs, blocks, k + 1, b);
            block_device::lemma_block_write_read(disk, bs, b, d, b);
        }
    }
}

/// A committed transaction is in place: each block that it pinned holds what was
/// pinned, filled with zeros to a whole block.
pub proof fn law_committed(s: LogState, t: TxnView, i: int)
    requires
        s.disk.len() % 512 == 0,
        writer::pinned_once(t.blocks),
        writer::committed(s, t).1 is Ok,
        0 <= i < t.blocks.len(),
    ensures
        holds(
            writer::committed(s, t).0.disk,
            s.w.bs,
            t.blocks[i].0,
            writer::padded(t.blocks[i].1, s.w.bs),
        ),
{
    let s1 = writer::txn_logged(s, t).0;
    lemma_log_len(s, t);
    let v = writer::padded_all(t.blocks, s.w.bs);
    assert(writer::pinned_once(v)) by {
        assert forall|a: int, b: int| 0 <= a < b < v.len() implies (#[trigger] v[a]).0 != (
        #[trigger] v[b]).0 by {
            assert(t.blocks[a].0 != t.blocks[b].0);
        }
    }
    law_applied(s1.disk, s.w.bs, v, 0, 0);
    assert(v[i] == (t.blocks[i].0, writer::padded(t.blocks[i].1, s.w.bs)));
}

proof fn lemma_log_len(s: LogState, t: TxnView)
    ensures
        writer::txn_logged(s, t).0.disk.len() == s.disk.len(),
        writer::txn_logged(s, t).0.w.blocks == s.w.blocks,
        writer::txn_logged(s, t).0.w.bs == s.w.bs,
{
    lemma_revokes_len(s, t.revoked, t.sequence);
    let (s1, r1) = writer::revokes_logged(s, t.revoked, t.sequence);
    let (s2, r2) = writer::blocks_logged(s1, t);
    let (s3, r3) = writer::logged(
        s1,
        writer::descriptor(s1.w, t.blocks, t.sequence, t.blocks.len() as int),
    );
    lemma_data_len(s3, t.blocks, 0);
}

proof fn lemma_revokes_len(s: LogState, revoked: Seq<u64>, seq: u32)
    ensures
        writer::revokes_logged(s, revoked, seq).0.disk.len() == s.disk.len(),
        writer::revokes_logged(s, revoked, seq).0.w.blocks == s.w.blocks,
        writer::revokes_logged(s, revoked, seq).0.w.bs == s.w.bs,
    decreases revoked.len(),
{
    if revoked.len() > 0 && s.w.bs >= 24 {
        let nums = writer::first_revoked(s.w.bs, revoked, s.w.wide);
        let b = writer::revoke_block(s.w.bs, nums, seq, s.w.wide, nums.len() as int);
        lemma_revokes_len(writer::logged(s, b).0, revoked.skip(nums.len() as int), seq);
    }
}

proof fn lemma_data_len(s: LogState, blocks: Seq<(u64, Seq<u8>)>, k: int)
    ensures
        writer::data_logged(s, blocks, k).0.disk.len() == s.disk.len(),
        writer::data_logged(s, blocks, k).0.w.blocks == s.w.blocks,
        writer::data_logged(s, blocks, k).0.w.bs == s.w.bs,
    decreases blocks.len() - k,
{
    if k < blocks.len() {
        lemma_data_len(writer::logged(s, writer::escaped(blocks[k].1)).0, blocks, k + 1);
    }
}

/// A committed transaction of whole blocks leaves on the device what it saw:
/// what it pinned, and elsewhere what was there, outside of the journal.
pub proof fn law_committed_shows(s: LogState, t: TxnView, c: u64)
    requires
        s.disk.len() % 512 == 0,
        listed_once(t.blocks, s.w.bs),
        writer::committed(s, t).1 is Ok,
        !s.w.blocks.contains(c),
    ensures
        writer::committed(s, t).0.disk.len() == s.disk.len(),
        block_device::block_at(writer::committed(s, t).0.disk, s.w.bs, c) == fs_state::fetched(
            s.disk,
            t.blocks,
            s.w.bs,
            c,
        ),
{
    let bs = s.w.bs;
    let s1 = writer::txn_logged(s, t).0;
    assert forall|i: int| 0 <= i < s.w.blocks.len() implies #[trigger] s.w.blocks[i] != c by {
        assert(s.w.blocks.contains(s.w.blocks[i]));
    }
    lemma_log_frame(s, t, c);
    let v = writer::padded_all(t.blocks, bs);
    assert(v =~= t.blocks) by {
        assert forall|i: int| 0 <= i < v.len() implies v[i] == t.blocks[i] by {
            lemma_padded_whole(t.blocks[i].1, bs);
        }
    }
    law_applied(s1.disk, bs, v, 0, c);
    writer::lemma_pin_index(t.blocks, c);
    let i = writer::pin_index(t.blocks, c);
    if i < t.blocks.len() {
        assert(holds(writer::committed(s, t).0.disk, bs, v[i].0, v[i].1));
    }
}

/// A commit changes neither the size of the device nor where the journal lies.
pub proof fn law_committed_len(s: LogState, t: TxnView)
    ensures
        writer::committed(s, t).0.disk.len() == s.disk.len(),
        writer::committed(s, t).0.w.blocks == s.w.blocks,
        writer::committed(s, t).0.w.bs == s.w.bs,
{
    lemma_log_len(s, t);
    lemma_applied_len(
        writer::txn_logged(s, t).0.disk,
        s.w.bs,
        writer::padded_all(t.blocks, s.w.bs),
        0,
    );
}

/// A transaction that fails before its commit block is in the log changes no
/// block outside the journal.
pub proof fn law_uncommitted(s: LogState, t: TxnView, c: u64)
    requires
        s.disk.len() % 512 == 0,
        block_device::sectored(s.w.bs),
        writer::txn_logged(s, t).1 is Err,
        forall|i: int| 0 <= i < s.w.blocks.len() ==> #[trigger] s.w.blocks[i] != c,
    ensures
        writer::committed(s, t).1 is Err,
        block_device::block_at(writer::committed(s, t).0.disk, s.w.bs, c)
            == block_device::block_at(s.disk, s.w.bs, c),
{
    lemma_log_frame(s, t, c);
}

proof fn lemma_logged_frame(s: LogState, data: Seq<u8>, c: u64)
    requires
        s.disk.len() % 512 == 0,
        block_device::sectored(s.w.bs),
        s.w.head < s.w.blocks.len() ==> s.w.blocks[s.w.head as int] != c,
    ensures
        ({
            let s1 = writer::logged(s, data).0;
            &&& s1.disk.len() == s.disk.len()
            &&& s1.w.blocks == s.w.blocks
            &&& s1.w.bs == s.w.bs
            &&& block_device::block_at(s1.disk, s.w.bs, c) == block_device::block_at(
                s.disk,
                s.w.bs,
                c,
            )
        }),
{
    if s.w.head < s.w.blocks.len() {
        block_device::lemma_block_write_read(
            s.disk,
            s.w.bs,
            s.w.blocks[s.w.head as int],
            writer::padded(data, s.w.bs),
            c,
        );
    }
}

proof fn lemma_revokes_frame(s: LogState, revoked: Seq<u64>, seq: u32, c: u64)
    requires
        s.disk.len() % 512 == 0,
        block_device::sectored(s.w.bs),
        forall|i: int| 0 <= i < s.w.blocks.len() ==> #[trigger] s.w.blocks[i] != c,
    ensures
        ({
            let s1 = writer::revokes_logged(s, revoked, seq).0;
            &&& s1.disk.len() == s.disk.len()
            &&& s1.w.blocks == s.w.blocks
            &&& s1.w.bs == s.w.bs
            &&& block_device::block_at(s1.disk, s.w.bs, c) == block_device::block_at(
                s.disk,
                s.w.bs,
                c,
            )
        }),
    decreases revoked.len(),
{
    if revoked.len() > 0 && s.w.bs >= 24 {
        let nums = writer::first_revoked(s.w.bs, revoked, s.w.wide);
        let b = writer::revoke_block(s.w.bs, nums, seq, s.w.wide, nums.len() as int);
        lemma_logged_frame(s, b, c);
        lemma_revokes_frame(writer::logged(s, b).0, revoked.skip(nums.len() as int), seq, c);
    }
}

proof fn lemma_data_frame(s: LogState, blocks: Seq<(u64, Seq<u8>)>, k: int, c: u64)
    requires
        s.disk.len() % 512 == 0,
        block_device::sectored(s.w.bs),
        forall|i: int| 0 <= i < s.w.blocks.len() ==> #[trigger] s.w.blocks[i] != c,
    ensures
        ({
            let s1 = writer::data_logged(s, blocks, k).0;
            &&& s1.disk.len() == s.disk.len()
            &&& s1.w.blocks == s.w.blocks
            &&& s1.w.bs == s.w.bs
            &&& block_device::block_at(s1.disk, s.w.bs, c) == block_device::block_at(
                s.disk,
                s.w.bs,
                c,
            )
        }),
    decreases blocks.len() - k,
{
    if k < blocks.len() {
        lemma_logged_frame(s, writer::escaped(blocks[k].1), c);
        lemma_data_frame(writer::logged(s, writer::escaped(blocks[k].1)).0, blocks, k + 1, c);
    }
}

proof fn lemma_log_frame(s: LogState, t: TxnView, c: u64)
    requires
        s.disk.len() % 512 == 0,
        block_device::sectored(s.w.bs),
        forall|i: int| 0 <= i < s.w.blocks.len() ==> #[trigger] s.w.blocks[i] != c,
    ensures
        ({
            let s1 = writer::txn_logged(s, t).0;
            &&& s1.disk.len() == s.disk.len()
            &&& s1.w.blocks == s.w.blocks
            &&& s1.w.bs == s.w.bs
            &&& block_device::block_at(s1.disk, s.w.bs, c) == block_device::block_at(
                s.disk,
                s.w.bs,
                c,
            )
        }),
{
    lemma_revokes_frame(s, t.revoked, t.sequence, c);
    let s1 = writer::revokes_logged(s, t.revoked, t.sequence).0;
    let desc = writer::descriptor(s1.w, t.blocks, t.sequence, t.blocks.len() as int);
    lemma_logged_frame(s1, desc, c);
    lemma_data_frame(writer::logged(s1, desc).0, t.blocks, 0, c);
    let s2 = writer::blocks_logged(s1, t).0;
    lemma_logged_frame(s2, writer::commit_block(s2.w, t.sequence), c);
}

/// The journal block that is `n` blocks behind block `h`, around the ring.
pub open spec fn ring(h: int, n: int, first: u32, total: u32) -> int {
    if h + n < total {
        h + n
    } else {
        h + n - total + first
    }
}

/// Whether the write side of a journal is sound: its head is on the ring, and
/// the blocks of the ring are different ones.
pub open spec fn sound(w: WriterView) -> bool {
    &&& block_device::sectored(w.bs)
    &&& w.first <= w.head < w.total
    &&& w.total <= w.blocks.len()
    &&& w.uuid.len() == 16
    &&& forall|i: int, j: int|
        0 <= i < j < w.blocks.len() ==> #[trigger] w.blocks[i] != #[trigger] w.blocks[j]
}

/// Whether `j` is the journal that `w` writes to.
pub open spec fn reads_from(j: Journal, w: WriterView) -> bool {
    &&& j.blocks@ == w.blocks
    &&& j.sb.total_blocks == w.total
    &&& j.sb.first_usable_block == w.first
    &&& j.sb.wide() == w.wide
}

/// How many revoke blocks the given numbers take.
pub open spec fn revoke_len(bs: u32, wide: bool, n: int) -> int
    decreases n,
{
    let room = writer::revoke_room(bs, wide);
    if n <= 0 || bs < 24 {
        0
    } else if n < room {
        1
    } else {
        1 + revoke_len(bs, wide, n - room)
    }
}

/// The journal blocks that a transaction takes.
pub open spec fn log_len(w: WriterView, t: TxnView) -> int {
    revoke_len(w.bs, w.wide, t.revoked.len() as int) + (if t.blocks.len() > 0 {
        1 + t.blocks.len() as int
    } else {
        0
    }) + 1
}

/// The physical block that is `n` blocks behind the head.
pub open spec fn slot(w: WriterView, n: int) -> u64 {
    w.blocks[ring(w.head as int, n, w.first, w.total)]
}

/// Whether the numbers of the pinned blocks fit into tags.
pub open spec fn restorable(t: TxnView, wide: bool) -> bool {
    forall|i: int|
        0 <= i < t.blocks.len() ==> (#[trigger] t.blocks[i]).0 < (if wide {
            0x1_0000_0000_0000
        } else {
            0x1_0000_0000int
        })
}

/// The numbers that a transaction revokes, as the log holds them.
pub open spec fn revoked_by(t: TxnView, wide: bool) -> Seq<u64> {
    as_logged(t.revoked, wide)
}

/// Block numbers as the log holds them.
pub open spec fn as_logged(nums: Seq<u64>, wide: bool) -> Seq<u64> {
    Seq::new(nums.len(), |k: int| writer::revoked_number(nums[k], wide))
}

/// Those of the blocks of transaction `seq` that replay restores, from number `i` on.
pub open spec fn kept(
    blocks: Seq<(u64, Seq<u8>)>,
    revoked: Map<u64, u32>,
    seq: u32,
    i: int,
) -> Seq<(u64, Seq<u8>)>
    decreases blocks.len() - i,
{
    if i >= blocks.len() {
        Seq::empty()
    } else {
        (if replay::skipped(revoked, blocks[i].0, seq) {
            Seq::empty()
        } else {
            seq![blocks[i]]
        }) + kept(blocks, revoked, seq, i + 1)
    }
}

/// Whether transaction `t` was written to the log that `j` reads, with `s` as the
/// state before.
pub open spec fn in_log(s: LogState, t: TxnView, j: Journal) -> bool {
    &&& sound(s.w)
    &&& s.disk.len() % 512 == 0
    &&& reads_from(j, s.w)
    &&& writer::txn_logged(s, t).1 is Ok
    &&& log_len(s.w, t) <= s.w.total - s.w.first
    &&& restorable(t, j.sb.wide())
    &&& t.sequence < u32::MAX
}

/// Whether the log of such a transaction is as it was written.
pub open spec fn intact(d: Seq<u8>, s: LogState, t: TxnView) -> bool {
    forall|n: int|
        0 <= n < log_len(s.w, t) ==> block_device::block_at(d, s.w.bs, #[trigger] slot(s.w, n))
            == block_device::block_at(writer::txn_logged(s, t).0.disk, s.w.bs, slot(s.w, n))
}

/// A transaction whose commit block is in the log is applied by replay, whatever
/// became of its blocks' homes: replay writes what the transaction pinned, but for
/// what is revoked, and goes on behind it. What the transaction revokes is noted.
/// `d` is what is on the device then; the log has to be intact on it.
pub proof fn law_commit_then_replay(
    s: LogState,
    t: TxnView,
    j: Journal,
    d: Seq<u8>,
    revoked: Map<u64, u32>,
    found: Map<u64, u32>,
)
    requires
        in_log(s, t, j),
        intact(d, s, t),
    ensures
        replay::replayed_from(d, s.w.bs, j, t.sequence, s.w.head, revoked, 0) == ({
            let (d2, r) = replay::applied(
                d,
                s.w.bs,
                kept(writer::padded_all(t.blocks, s.w.bs), revoked, t.sequence, 0),
                0,
            );
            match r {
                Err(e) => (d2, Err::<u32, JournalError>(e)),
                Ok(()) => replay::replayed_from(
                    d2,
                    s.w.bs,
                    j,
                    (t.sequence + 1) as u32,
                    writer::txn_logged(s, t).0.w.head,
                    revoked,
                    0,
                ),
            }
        }),
        replay::revoked_from(
            d,
            s.w.bs,
            j,
            t.sequence,
            s.w.head,
            found,
            Seq::empty(),
            0,
        ) == replay::revoked_from(
            d,
            s.w.bs,
            j,
            (t.sequence + 1) as u32,
            writer::txn_logged(s, t).0.w.head,
            replay::with_revoked(found, revoked_by(t, j.sb.wide()), t.sequence),
            Seq::empty(),
            0,
        ),
{
    let bs = s.w.bs;
    let a = revoke_len(bs, s.w.wide, t.revoked.len() as int);
    let n = t.blocks.len() as int;
    let last = log_len(s.w, t) - 1;
    let at = ring(s.w.head as int, a, s.w.first, s.w.total) as u32;
    let v = writer::padded_all(t.blocks, bs);
    lemma_revoke_len(bs, s.w.wide, t.revoked.len() as int);
    lemma_logged_txn(s, t, d);
    lemma_ring(s.w, 0);
    lemma_ring(s.w, a);
    lemma_ring(s.w, last);
    lemma_walk_revokes(s.w, j, d, t.revoked, t.sequence, 0, revoked, found, Seq::empty());
    assert(Seq::<u64>::empty() + revoked_by(t, j.sb.wide()) =~= revoked_by(t, j.sb.wide()));
    let s2 = writer::blocks_logged(
        writer::revokes_logged(s, t.revoked, t.sequence).0,
        t,
    ).0;
    let cb = writer::commit_block(s2.w, t.sequence);
    lemma_commit_block(s2.w, t.sequence);
    assert(holds(d, bs, slot(s.w, last), cb));
    if n > 0 {
        let w1 = writer::revokes_logged(s, t.revoked, t.sequence).0.w;
        let desc = writer::descriptor(w1, t.blocks, t.sequence, n);
        lemma_descriptor(w1, t.blocks, t.sequence, n);
        assert(replay::is_block(desc, block_type::DESCRIPTOR, t.sequence));
        assert(!replay::is_block(desc, block_type::REVOKE, t.sequence));
        assert(holds(d, bs, slot(s.w, a), desc));
        lemma_tagged(s.w, w1, t, j, d, desc, revoked, a, 0);
    } else {
        assert(!replay::is_block(cb, block_type::DESCRIPTOR, t.sequence));
        assert(!replay::is_block(cb, block_type::REVOKE, t.sequence));
        assert(kept(v, revoked, t.sequence, 0) =~= Seq::empty());
    }
}

/// Whether none of the blocks is a block of the journal.
pub open spec fn outside(blocks: Seq<(u64, Seq<u8>)>, journal: Seq<u64>) -> bool {
    forall|i: int, m: int|
        0 <= i < blocks.len() && 0 <= m < journal.len() ==> (#[trigger] blocks[i]).0
            != #[trigger] journal[m]
}

/// Whether transaction `k` of the transactions `ts`, which were written with `ss` as
/// the states before them, is intact in the log, and the next one is behind it.
pub open spec fn stands(
    d: Seq<u8>,
    j: Journal,
    bs: u32,
    ss: Seq<LogState>,
    ts: Seq<TxnView>,
    k: int,
) -> bool {
    &&& in_log(ss[k], ts[k], j)
    &&& ss[k].w.bs == bs
    &&& intact(d, ss[k], ts[k])
    &&& writer::pinned_once(ts[k].blocks)
    &&& outside(ts[k].blocks, j.blocks@)
    &&& ts[k].sequence == ts[0].sequence + k
    &&& k + 1 < ts.len() ==> ss[k + 1].w.head == writer::txn_logged(ss[k], ts[k]).0.w.head
}

/// The journal block behind the first `k` transactions.
pub open spec fn head_at(ss: Seq<LogState>, ts: Seq<TxnView>, k: int) -> u32 {
    if k < ts.len() {
        ss[k].w.head
    } else {
        writer::txn_logged(ss.last(), ts.last()).0.w.head
    }
}

/// Whether the transactions `ts` are the log of `j`, and nothing is behind them.
pub open spec fn is_log(
    d: Seq<u8>,
    j: Journal,
    bs: u32,
    ss: Seq<LogState>,
    ts: Seq<TxnView>,
) -> bool {
    &&& d.len() % 512 == 0
    &&& ts.len() > 0
    &&& ss.len() == ts.len()
    &&& forall|k: int| 0 <= k < ts.len() ==> #[trigger] stands(d, j, bs, ss, ts, k)
    &&& ends(
        d,
        bs,
        j,
        head_at(ss, ts, ts.len() as int),
        (ts[0].sequence + ts.len()) as u32,
    )
}

/// What the transactions from number `k` on revoke, on top of what was `found`.
pub open spec fn revoked_after(
    ts: Seq<TxnView>,
    wide: bool,
    found: Map<u64, u32>,
    k: int,
) -> Map<u64, u32>
    decreases ts.len() - k,
{
    if k >= ts.len() {
        found
    } else {
        revoked_after(
            ts,
            wide,
            replay::with_revoked(found, revoked_by(ts[k], wide), ts[k].sequence),
            k + 1,
        )
    }
}

/// What block `c` holds once the transactions from number `k` on are replayed, where
/// it held `now` before.
pub open spec fn after(
    ts: Seq<TxnView>,
    revoked: Map<u64, u32>,
    bs: u32,
    c: u64,
    now: Result<Seq<u8>, BlockDeviceError>,
    k: int,
) -> Result<Seq<u8>, BlockDeviceError>
    decreases ts.len() - k,
{
    if k >= ts.len() {
        now
    } else {
        let next = match writer::pinned(ts[k].blocks, c) {
            Some(data) if !replay::skipped(revoked, c, ts[k].sequence) => Ok(
                writer::padded(data, bs),
            ),
            _ => now,
        };
        after(ts, revoked, bs, c, next, k + 1)
    }
}

/// Replaying a log gives each block outside the journal what the last transaction
/// pinned that pinned it and that was not followed by a revoke of it, and leaves the
/// others alone.
pub proof fn law_log_replayed(
    d: Seq<u8>,
    sb: crate::superblock::Superblock,
    j: Journal,
    ss: Seq<LogState>,
    ts: Seq<TxnView>,
    c: u64,
)
    requires
        sb.wf(),
        !j.sb.clean(),
        is_log(d, j, sb.block_size, ss, ts),
        j.sb.start_block == ss[0].w.head,
        j.sb.start_sequence == ts[0].sequence,
        replay::replayed(d, sb, j).1 is Ok,
        forall|m: int| 0 <= m < j.blocks@.len() ==> #[trigger] j.blocks@[m] != c,
    ensures
        block_device::block_at(replay::replayed(d, sb, j).0, sb.block_size, c) == after(
            ts,
            revoked_after(ts, j.sb.wide(), Map::empty(), 0),
            sb.block_size,
            c,
            block_device::block_at(d, sb.block_size, c),
            0,
        ),
{
    let bs = sb.block_size;
    let revoked = revoked_after(ts, j.sb.wide(), Map::empty(), 0);
    assert(stands(d, j, bs, ss, ts, 0));
    lemma_scan(d, j, bs, ss, ts, Map::empty(), 0);
    lemma_replay_log(d, j, bs, ss, ts, revoked, c, 0);
    let (d2, r) = replay::replayed_from(
        d,
        bs,
        j,
        j.sb.start_sequence,
        j.sb.start_block,
        revoked,
        0,
    );
    let b = super::journal_block(d2, bs, j.blocks@, 0)->Ok_0;
    block_device::lemma_block_at(d2, bs, j.blocks@[0]);
    block_device::lemma_block_write_read(
        d2,
        bs,
        j.blocks@[0],
        replay::with_tail(b, 0, r->Ok_0),
        c,
    );
}

/// A block that a transaction revoked, and that no later one pinned, keeps what it
/// holds.
pub proof fn law_revoked_stays(
    d: Seq<u8>,
    sb: crate::superblock::Superblock,
    j: Journal,
    ss: Seq<LogState>,
    ts: Seq<TxnView>,
    c: u64,
    r: int,
)
    requires
        sb.wf(),
        !j.sb.clean(),
        is_log(d, j, sb.block_size, ss, ts),
        j.sb.start_block == ss[0].w.head,
        j.sb.start_sequence == ts[0].sequence,
        replay::replayed(d, sb, j).1 is Ok,
        forall|m: int| 0 <= m < j.blocks@.len() ==> #[trigger] j.blocks@[m] != c,
        0 <= r < ts.len(),
        revoked_by(ts[r], j.sb.wide()).contains(c),
        forall|k: int|
            r < k < ts.len() ==> writer::pinned((#[trigger] ts[k]).blocks, c) is None,
    ensures
        block_device::block_at(replay::replayed(d, sb, j).0, sb.block_size, c)
            == block_device::block_at(d, sb.block_size, c),
{
    let bs = sb.block_size;
    law_log_replayed(d, sb, j, ss, ts, c);
    lemma_sequences(d, j, bs, ss, ts);
    lemma_is_skipped(ts, j.sb.wide(), Map::empty(), r, c, 0);
    lemma_after_skipped(
        ts,
        revoked_after(ts, j.sb.wide(), Map::empty(), 0),
        bs,
        c,
        block_device::block_at(d, bs, c),
        r,
        0,
    );
}

/// A block that a transaction pinned, that no later one pinned, and that neither it
/// nor a later one revoked, holds what was pinned, filled with zeros to a whole block.
pub proof fn law_replay_restores(
    d: Seq<u8>,
    sb: crate::superblock::Superblock,
    j: Journal,
    ss: Seq<LogState>,
    ts: Seq<TxnView>,
    c: u64,
    i: int,
)
    requires
        sb.wf(),
        !j.sb.clean(),
        is_log(d, j, sb.block_size, ss, ts),
        j.sb.start_block == ss[0].w.head,
        j.sb.start_sequence == ts[0].sequence,
        replay::replayed(d, sb, j).1 is Ok,
        0 <= i < ts.len(),
        writer::pinned(ts[i].blocks, c) is Some,
        forall|k: int|
            i < k < ts.len() ==> writer::pinned((#[trigger] ts[k]).blocks, c) is None,
        forall|k: int|
            i <= k < ts.len() ==> !revoked_by(#[trigger] ts[k], j.sb.wide()).contains(c),
    ensures
        holds(
            replay::replayed(d, sb, j).0,
            sb.block_size,
            c,
            writer::padded(writer::pinned(ts[i].blocks, c)->Some_0, sb.block_size),
        ),
{
    let bs = sb.block_size;
    assert(stands(d, j, bs, ss, ts, i));
    assert forall|m: int| 0 <= m < j.blocks@.len() implies #[trigger] j.blocks@[m] != c by {
        let x = writer::pin_index(ts[i].blocks, c);
        writer::lemma_pin_index(ts[i].blocks, c);
        assert(ts[i].blocks[x].0 != j.blocks@[m]);
    }
    law_log_replayed(d, sb, j, ss, ts, c);
    lemma_sequences(d, j, bs, ss, ts);
    lemma_not_skipped(ts, j.sb.wide(), Map::empty(), i, c, 0);
    lemma_after_restored(
        ts,
        revoked_after(ts, j.sb.wide(), Map::empty(), 0),
        bs,
        c,
        block_device::block_at(d, bs, c),
        i,
        0,
    );
}

/// A block that is pinned again after it was freed in the same transaction is not
/// revoked; what else is revoked stays so.
pub proof fn law_pin_withdraws_revoke(t: TxnView, b: u64, data: Seq<u8>, c: u64)
    ensures
        !writer::txn_pin(t, b, data).revoked.contains(b),
        c != b ==> writer::txn_pin(t, b, data).revoked.contains(c) == t.revoked.contains(c),
{
    lemma_without(t.revoked, b, b);
    lemma_without(t.revoked, b, c);
}

proof fn lemma_without(nums: Seq<u64>, b: u64, c: u64)
    ensures
        writer::without(nums, b).contains(c) == (c != b && nums.contains(c)),
    decreases nums.len(),
{
    if nums.len() > 0 {
        let p = nums.drop_last();
        lemma_without(p, b, c);
        assert(p.push(nums.last()) =~= nums);
        lemma_push_contains(p, nums.last(), c);
        lemma_push_contains(writer::without(p, b), nums.last(), c);
    }
}

proof fn lemma_push_contains(nums: Seq<u64>, x: u64, c: u64)
    ensures
        nums.push(x).contains(c) == (nums.contains(c) || x == c),
{
    let p = nums.push(x);
    assert(p[nums.len() as int] == x);
    if nums.contains(c) {
        let k = choose|k: int| 0 <= k < nums.len() && nums[k] == c;
        assert(p[k] == c);
    }
    if p.contains(c) {
        let k = choose|k: int| 0 <= k < p.len() && p[k] == c;
        assert(k < nums.len() ==> nums[k] == c);
    }
}

proof fn lemma_sequences(
    d: Seq<u8>,
    j: Journal,
    bs: u32,
    ss: Seq<LogState>,
    ts: Seq<TxnView>,
)
    requires
        is_log(d, j, bs, ss, ts),
    ensures
        numbered(ts),
{
    assert forall|k: int| 0 <= k < ts.len() implies (#[trigger] ts[k]).sequence
        == ts[0].sequence + k by {
        assert(stands(d, j, bs, ss, ts, k));
    }
}

/// Whether the transactions are numbered one by one.
pub open spec fn numbered(ts: Seq<TxnView>) -> bool {
    forall|k: int|
        0 <= k < ts.len() ==> (#[trigger] ts[k]).sequence == ts[0].sequence + k
}

proof fn lemma_with_revoked(found: Map<u64, u32>, nums: Seq<u64>, seq: u32, c: u64)
    ensures
        ({
            let m = replay::with_revoked(found, nums, seq);
            &&& nums.contains(c) ==> m.contains_key(c) && m[c] == seq
            &&& !nums.contains(c) ==> m.contains_key(c) == found.contains_key(c) && (
            found.contains_key(c) ==> m[c] == found[c])
        }),
    decreases nums.len(),
{
    if nums.len() > 0 {
        let p = nums.drop_last();
        lemma_with_revoked(found, p, seq, c);
        assert(p.push(nums.last()) =~= nums);
        lemma_push_contains(p, nums.last(), c);
    }
}

proof fn lemma_is_skipped(
    ts: Seq<TxnView>,
    wide: bool,
    found: Map<u64, u32>,
    r: int,
    c: u64,
    k: int,
)
    requires
        numbered(ts),
        0 <= k <= ts.len(),
        0 <= r < ts.len(),
        revoked_by(ts[r], wide).contains(c),
        k > r ==> found.contains_key(c) && ts[r].sequence <= found[c],
    ensures
        revoked_after(ts, wide, found, k).contains_key(c),
        ts[r].sequence <= revoked_after(ts, wide, found, k)[c],
    decreases ts.len() - k,
{
    if k < ts.len() {
        lemma_with_revoked(found, revoked_by(ts[k], wide), ts[k].sequence, c);
        lemma_is_skipped(
            ts,
            wide,
            replay::with_revoked(found, revoked_by(ts[k], wide), ts[k].sequence),
            r,
            c,
            k + 1,
        );
    }
}

proof fn lemma_not_skipped(
    ts: Seq<TxnView>,
    wide: bool,
    found: Map<u64, u32>,
    i: int,
    c: u64,
    k: int,
)
    requires
        numbered(ts),
        0 <= k <= ts.len(),
        0 <= i < ts.len(),
        forall|m: int| i <= m < ts.len() ==> !revoked_by(#[trigger] ts[m], wide).contains(c),
        found.contains_key(c) ==> found[c] < ts[i].sequence,
        found.contains_key(c) ==> found[c] < ts[0].sequence + k,
    ensures
        !replay::skipped(revoked_after(ts, wide, found, k), c, ts[i].sequence),
    decreases ts.len() - k,
{
    if k < ts.len() {
        lemma_with_revoked(found, revoked_by(ts[k], wide), ts[k].sequence, c);
        lemma_not_skipped(
            ts,
            wide,
            replay::with_revoked(found, revoked_by(ts[k], wide), ts[k].sequence),
            i,
            c,
            k + 1,
        );
    }
}

proof fn lemma_after_skipped(
    ts: Seq<TxnView>,
    revoked: Map<u64, u32>,
    bs: u32,
    c: u64,
    now: Result<Seq<u8>, BlockDeviceError>,
    r: int,
    k: int,
)
    requires
        numbered(ts),
        0 <= k <= ts.len(),
        0 <= r < ts.len(),
        revoked.contains_key(c),
        ts[r].sequence <= revoked[c],
        forall|m: int|
            r < m < ts.len() ==> writer::pinned((#[trigger] ts[m]).blocks, c) is None,
    ensures
        after(ts, revoked, bs, c, now, k) == now,
    decreases ts.len() - k,
{
    if k < ts.len() {
        lemma_after_skipped(ts, revoked, bs, c, now, r, k + 1);
    }
}

proof fn lemma_after_restored(
    ts: Seq<TxnView>,
    revoked: Map<u64, u32>,
    bs: u32,
    c: u64,
    now: Result<Seq<u8>, BlockDeviceError>,
    i: int,
    k: int,
)
    requires
        0 <= k <= ts.len(),
        0 <= i < ts.len(),
        !replay::skipped(revoked, c, ts[i].sequence),
        writer::pinned(ts[i].blocks, c) is Some,
        forall|m: int|
            i < m < ts.len() ==> writer::pinned((#[trigger] ts[m]).blocks, c) is None,
        k > i ==> now == Ok::<Seq<u8>, BlockDeviceError>(
            writer::padded(writer::pinned(ts[i].blocks, c)->Some_0, bs),
        ),
    ensures
        after(ts, revoked, bs, c, now, k) == Ok::<Seq<u8>, BlockDeviceError>(
            writer::padded(writer::pinned(ts[i].blocks, c)->Some_0, bs),
        ),
    decreases ts.len() - k,
{
    if k < ts.len() {
        let next = match writer::pinned(ts[k].blocks, c) {
            Some(data) if !replay::skipped(revoked, c, ts[k].sequence) => Ok(
                writer::padded(data, bs),
            ),
            _ => now,
        };
        lemma_after_restored(ts, revoked, bs, c, next, i, k + 1);
    }
}

/// Gathering what a log revokes.
proof fn lemma_scan(
    d: Seq<u8>,
    j: Journal,
    bs: u32,
    ss: Seq<LogState>,
    ts: Seq<TxnView>,
    found: Map<u64, u32>,
    k: int,
)
    requires
        is_log(d, j, bs, ss, ts),
        0 <= k <= ts.len(),
    ensures
        replay::revoked_from(
            d,
            bs,
            j,
            (ts[0].sequence + k) as u32,
            head_at(ss, ts, k),
            found,
            Seq::empty(),
            0,
        ) == Ok::<Map<u64, u32>, JournalError>(revoked_after(ts, j.sb.wide(), found, k)),
    decreases ts.len() - k,
{
    if k < ts.len() {
        assert(stands(d, j, bs, ss, ts, k));
        law_commit_then_replay(ss[k], ts[k], j, d, found, found);
        lemma_scan(
            d,
            j,
            bs,
            ss,
            ts,
            replay::with_revoked(found, revoked_by(ts[k], j.sb.wide()), ts[k].sequence),
            k + 1,
        );
    }
}

/// Replaying a log from transaction `k` on.
proof fn lemma_replay_log(
    d: Seq<u8>,
    j: Journal,
    bs: u32,
    ss: Seq<LogState>,
    ts: Seq<TxnView>,
    revoked: Map<u64, u32>,
    c: u64,
    k: int,
)
    requires
        is_log(d, j, bs, ss, ts),
        0 <= k <= ts.len(),
        forall|m: int| 0 <= m < j.blocks@.len() ==> #[trigger] j.blocks@[m] != c,
        replay::replayed_from(
            d,
            bs,
            j,
            (ts[0].sequence + k) as u32,
            head_at(ss, ts, k),
            revoked,
            0,
        ).1 is Ok,
    ensures
        ({
            let (d2, r) = replay::replayed_from(
                d,
                bs,
                j,
                (ts[0].sequence + k) as u32,
                head_at(ss, ts, k),
                revoked,
                0,
            );
            &&& d2.len() == d.len()
            &&& block_device::block_at(d2, bs, c) == after(
                ts,
                revoked,
                bs,
                c,
                block_device::block_at(d, bs, c),
                k,
            )
        }),
    decreases ts.len() - k,
{
    if k < ts.len() {
        assert(stands(d, j, bs, ss, ts, k));
        let t = ts[k];
        law_commit_then_replay(ss[k], t, j, d, revoked, revoked);
        let v = writer::padded_all(t.blocks, bs);
        let rest = kept(v, revoked, t.sequence, 0);
        let d2 = replay::applied(d, bs, rest, 0).0;
        lemma_padded_once(t.blocks, bs);
        lemma_kept(v, bs, revoked, t.sequence, 0);
        lemma_outside_kept(t.blocks, bs, revoked, t.sequence, j.blocks@);
        lemma_applied_outside(d, bs, rest, j.blocks@);
        lemma_log_stays(d, d2, j, bs, ss, ts);
        law_applied(d, bs, rest, 0, c);
        lemma_replay_log(d2, j, bs, ss, ts, revoked, c, k + 1);
        writer::lemma_pin_index(t.blocks, c);
        let x = writer::pin_index(t.blocks, c);
        if x < t.blocks.len() && !replay::skipped(revoked, c, t.sequence) {
            assert(v[x] == (c, writer::padded(t.blocks[x].1, bs)));
            assert(rest.contains(v[x]));
            let m = choose|m: int| 0 <= m < rest.len() && rest[m] == v[x];
            assert(holds(d2, bs, rest[m].0, rest[m].1));
        } else {
            assert(elsewhere(rest, 0, c)) by {
                assert forall|m: int| 0 <= m < rest.len() implies (#[trigger] rest[m]).0 != c by {
                    let y = choose|y: int|
                        0 <= y < v.len() && v[y] == rest[m] && !replay::skipped(
                            revoked,
                            (#[trigger] v[y]).0,
                            t.sequence,
                        );
                    assert(v[y].0 == t.blocks[y].0);
                    if v[y].0 == c {
                        if y < x {
                            assert(t.blocks[y].0 != c);
                        }
                    }
                }
            }
        }
    }
}

proof fn lemma_padded_once(blocks: Seq<(u64, Seq<u8>)>, bs: u32)
    requires
        writer::pinned_once(blocks),
    ensures
        listed_once(writer::padded_all(blocks, bs), bs),
{
    let v = writer::padded_all(blocks, bs);
    assert forall|a: int, b: int| 0 <= a < b < v.len() implies (#[trigger] v[a]).0 != (
    #[trigger] v[b]).0 by {
        assert(blocks[a].0 != blocks[b].0);
    }
}

/// The kept blocks are those that are not revoked.
proof fn lemma_kept(
    blocks: Seq<(u64, Seq<u8>)>,
    bs: u32,
    revoked: Map<u64, u32>,
    seq: u32,
    i: int,
)
    requires
        listed_once(blocks, bs),
        0 <= i <= blocks.len(),
    ensures
        ({
            let rest = kept(blocks, revoked, seq, i);
            &&& listed_once(rest, bs)
            &&& forall|m: int|
                0 <= m < rest.len() ==> exists|y: int|
                    i <= y < blocks.len() && blocks[y] == #[trigger] rest[m] && !replay::skipped(
                        revoked,
                        (#[trigger] blocks[y]).0,
                        seq,
                    )
            &&& forall|y: int|
                i <= y < blocks.len() && !replay::skipped(revoked, (#[trigger] blocks[y]).0, seq)
                    ==> rest.contains(blocks[y])
        }),
    decreases blocks.len() - i,
{
    let rest = kept(blocks, revoked, seq, i);
    if i < blocks.len() {
        lemma_kept(blocks, bs, revoked, seq, i + 1);
        let more = kept(blocks, revoked, seq, i + 1);
        let own: int = if replay::skipped(revoked, blocks[i].0, seq) {
            0
        } else {
            1
        };
        assert(rest.len() == own + more.len());
        assert forall|m: int| 0 <= m < rest.len() implies exists|y: int|
            i <= y < blocks.len() && blocks[y] == #[trigger] rest[m] && !replay::skipped(
                revoked,
                (#[trigger] blocks[y]).0,
                seq,
            ) by {
            if m < own {
                assert(rest[m] == blocks[i]);
            } else {
                assert(rest[m] == more[m - own]);
                let y = choose|y: int|
                    i + 1 <= y < blocks.len() && blocks[y] == more[m - own] && !replay::skipped(
                        revoked,
                        (#[trigger] blocks[y]).0,
                        seq,
                    );
                assert(blocks[y] == rest[m]);
            }
        }
        assert forall|a: int, b: int| 0 <= a < b < rest.len() implies (#[trigger] rest[a]).0 != (
        #[trigger] rest[b]).0 by {
            assert(rest[b] == more[b - own]);
            if a < own {
                let y = choose|y: int|
                    i + 1 <= y < blocks.len() && blocks[y] == more[b - own] && !replay::skipped(
                        revoked,
                        (#[trigger] blocks[y]).0,
                        seq,
                    );
                assert(blocks[i].0 != blocks[y].0);
            } else {
                assert(rest[a] == more[a - own]);
            }
        }
        assert forall|m: int| 0 <= m < rest.len() implies (#[trigger] rest[m]).1.len() == bs by {
            if m >= own {
                assert(rest[m] == more[m - own]);
            }
        }
        assert forall|y: int|
            i <= y < blocks.len() && !replay::skipped(revoked, (#[trigger] blocks[y]).0, seq)
            implies rest.contains(blocks[y]) by {
            if y == i {
                assert(rest[0] == blocks[i]);
            } else {
                let m = choose|m: int| 0 <= m < more.len() && more[m] == blocks[y];
                assert(rest[own + m] == blocks[y]);
            }
        }
    }
}

proof fn lemma_outside_kept(
    blocks: Seq<(u64, Seq<u8>)>,
    bs: u32,
    revoked: Map<u64, u32>,
    seq: u32,
    journal: Seq<u64>,
)
    requires
        writer::pinned_once(blocks),
        outside(blocks, journal),
    ensures
        outside(kept(writer::padded_all(blocks, bs), revoked, seq, 0), journal),
{
    let v = writer::padded_all(blocks, bs);
    let rest = kept(v, revoked, seq, 0);
    lemma_padded_once(blocks, bs);
    lemma_kept(v, bs, revoked, seq, 0);
    assert forall|i: int, m: int| 0 <= i < rest.len() && 0 <= m < journal.len() implies (
    #[trigger] rest[i]).0 != #[trigger] journal[m] by {
        let y = choose|y: int|
            0 <= y < v.len() && v[y] == rest[i] && !replay::skipped(
                revoked,
                (#[trigger] v[y]).0,
                seq,
            );
        assert(blocks[y].0 != journal[m]);
    }
}

proof fn lemma_applied_outside(
    d: Seq<u8>,
    bs: u32,
    blocks: Seq<(u64, Seq<u8>)>,
    journal: Seq<u64>,
)
    requires
        block_device::sectored(bs),
        d.len() % 512 == 0,
        listed_once(blocks, bs),
        outside(blocks, journal),
    ensures
        replay::applied(d, bs, blocks, 0).0.len() == d.len(),
        forall|m: int|
            0 <= m < journal.len() ==> block_device::block_at(
                replay::applied(d, bs, blocks, 0).0,
                bs,
                #[trigger] journal[m],
            ) == block_device::block_at(d, bs, journal[m]),
{
    law_applied(d, bs, blocks, 0, 0);
    assert forall|m: int| 0 <= m < journal.len() implies block_device::block_at(
        replay::applied(d, bs, blocks, 0).0,
        bs,
        #[trigger] journal[m],
    ) == block_device::block_at(d, bs, journal[m]) by {
        law_applied(d, bs, blocks, 0, journal[m]);
    }
}

/// A log stays a log where the blocks of the journal stay as they are.
proof fn lemma_log_stays(
    d: Seq<u8>,
    d2: Seq<u8>,
    j: Journal,
    bs: u32,
    ss: Seq<LogState>,
    ts: Seq<TxnView>,
)
    requires
        is_log(d, j, bs, ss, ts),
        d2.len() == d.len(),
        forall|m: int|
            0 <= m < j.blocks@.len() ==> block_device::block_at(d2, bs, #[trigger] j.blocks@[m])
                == block_device::block_at(d, bs, j.blocks@[m]),
    ensures
        is_log(d2, j, bs, ss, ts),
{
    assert forall|k: int| 0 <= k < ts.len() implies #[trigger] stands(d2, j, bs, ss, ts, k) by {
        assert(stands(d, j, bs, ss, ts, k));
        let w = ss[k].w;
        assert forall|n: int| 0 <= n < log_len(w, ts[k]) implies block_device::block_at(
            d2,
            bs,
            #[trigger] slot(w, n),
        ) == block_device::block_at(
            writer::txn_logged(ss[k], ts[k]).0.disk,
            bs,
            slot(w, n),
        ) by {
            lemma_ring(w, n);
            let p = ring(w.head as int, n, w.first, w.total);
            assert(slot(w, n) == j.blocks@[p]);
            assert(block_device::block_at(d, bs, slot(w, n)) == block_device::block_at(
                writer::txn_logged(ss[k], ts[k]).0.disk,
                bs,
                slot(w, n),
            ));
        }
    }
    let e = head_at(ss, ts, ts.len() as int);
    if e < j.blocks@.len() {
        assert(block_device::block_at(d2, bs, j.blocks@[e as int]) == block_device::block_at(
            d,
            bs,
            j.blocks@[e as int],
        ));
    }
}

/// Whether no transaction `seq` starts in journal block `at`.
pub open spec fn ends(disk: Seq<u8>, bs: u32, j: Journal, at: u32, seq: u32) -> bool {
    match super::journal_block(disk, bs, j.blocks@, at) {
        Err(_) => false,
        Ok(b) => !replay::is_block(b, block_type::DESCRIPTOR, seq) && !replay::is_block(
            b,
            block_type::COMMIT,
            seq,
        ) && !replay::is_block(b, block_type::REVOKE, seq),
    }
}

/// A write to the log is where the head was, and moves the head on.
proof fn lemma_logged(s: LogState, data: Seq<u8>)
    requires
        s.disk.len() % 512 == 0,
        block_device::sectored(s.w.bs),
        writer::logged(s, data).1 is Ok,
    ensures
        ({
            let s1 = writer::logged(s, data).0;
            let b = s.w.blocks[s.w.head as int];
            &&& s.w.head < s.w.blocks.len()
            &&& s1.disk.len() == s.disk.len()
            &&& s1.w == (WriterView {
                head: replay::next_block(s.w.head, s.w.total, s.w.first),
                ..s.w
            })
            &&& holds(s1.disk, s.w.bs, b, writer::padded(data, s.w.bs))
            &&& forall|c: u64|
                c != b ==> #[trigger] block_device::block_at(s1.disk, s.w.bs, c)
                    == block_device::block_at(s.disk, s.w.bs, c)
        }),
{
    let b = s.w.blocks[s.w.head as int];
    let d = writer::padded(data, s.w.bs);
    block_device::lemma_block_write_read(s.disk, s.w.bs, b, d, b);
    assert forall|c: u64| c != b implies #[trigger] block_device::block_at(
        writer::logged(s, data).0.disk,
        s.w.bs,
        c,
    ) == block_device::block_at(s.disk, s.w.bs, c) by {
        block_device::lemma_block_write_read(s.disk, s.w.bs, b, d, c);
    }
}

/// One step around the ring.
proof fn lemma_ring(w: WriterView, n: int)
    requires
        sound(w),
        0 <= n < w.total - w.first,
    ensures
        ({
            let p = ring(w.head as int, n, w.first, w.total);
            &&& w.first <= p < w.total
            &&& replay::next_block(p as u32, w.total, w.first) == ring(
                w.head as int,
                n + 1,
                w.first,
                w.total,
            )
        }),
{
}

/// Slots that are fewer than the ring's blocks apart are different blocks.
proof fn lemma_slots(w: WriterView, n: int)
    requires
        sound(w),
        n <= w.total - w.first,
    ensures
        forall|a: int, b: int|
            0 <= a < b < n ==> #[trigger] slot(w, a) != #[trigger] slot(w, b),
{
    assert forall|a: int, b: int| 0 <= a < b < n implies #[trigger] slot(w, a) != #[trigger] slot(
        w,
        b,
    ) by {
        lemma_ring(w, a);
        lemma_ring(w, b);
        let p = ring(w.head as int, a, w.first, w.total);
        let q = ring(w.head as int, b, w.first, w.total);
        assert(p != q);
        if p < q {
            assert(w.blocks[p] != w.blocks[q]);
        } else {
            assert(w.blocks[q] != w.blocks[p]);
        }
    }
}

proof fn lemma_padded_whole(data: Seq<u8>, bs: u32)
    ensures
        data.len() == bs ==> writer::padded(data, bs) == data,
{
    if data.len() == bs {
        assert(writer::padded(data, bs) =~= data);
    }
}

/// Data blocks are in the log, in order, from slot `a` on; nothing else changed.
proof fn lemma_data_logged(
    w: WriterView,
    s: LogState,
    blocks: Seq<(u64, Seq<u8>)>,
    k: int,
    a: int,
)
    requires
        sound(w),
        s.disk.len() % 512 == 0,
        0 <= k <= blocks.len(),
        0 <= a,
        a + blocks.len() - k < w.total - w.first,
        s.w == (WriterView {
            head: ring(w.head as int, a, w.first, w.total) as u32,
            ..w
        }),
        writer::data_logged(s, blocks, k).1 is Ok,
    ensures
        ({
            let s1 = writer::data_logged(s, blocks, k).0;
            &&& s1.disk.len() == s.disk.len()
            &&& s1.w == (WriterView {
                head: ring(w.head as int, a + blocks.len() - k, w.first, w.total) as u32,
                ..w
            })
            &&& forall|i: int|
                k <= i < blocks.len() ==> holds(
                    s1.disk,
                    w.bs,
                    #[trigger] slot(w, a + i - k),
                    writer::padded(writer::escaped(blocks[i].1), w.bs),
                )
            &&& forall|c: u64|
                (forall|m: int| a <= m < a + blocks.len() - k ==> #[trigger] slot(w, m) != c)
                    ==> #[trigger] block_device::block_at(s1.disk, w.bs, c)
                    == block_device::block_at(s.disk, w.bs, c)
        }),
    decreases blocks.len() - k,
{
    lemma_ring(w, a);
    if k < blocks.len() {
        let data = writer::escaped(blocks[k].1);
        lemma_logged(s, data);
        let s1 = writer::logged(s, data).0;
        lemma_data_logged(w, s1, blocks, k + 1, a + 1);
        let e = writer::data_logged(s, blocks, k).0;
        lemma_slots(w, a + blocks.len() - k);
        assert forall|i: int| k <= i < blocks.len() implies holds(
            e.disk,
            w.bs,
            #[trigger] slot(w, a + i - k),
            writer::padded(writer::escaped(blocks[i].1), w.bs),
        ) by {
            if i > k {
                assert(slot(w, (a + 1) + i - (k + 1)) == slot(w, a + i - k));
            } else {
                assert forall|m: int| a + 1 <= m < a + blocks.len() - k implies #[trigger] slot(
                    w,
                    m,
                )
                    != slot(w, a) by {}
                assert(holds(s1.disk, w.bs, slot(w, a), writer::padded(data, w.bs)));
            }
        }
        assert forall|c: u64|
            (forall|m: int| a <= m < a + blocks.len() - k ==> #[trigger] slot(
                w,
                m,
            ) != c) implies #[trigger] block_device::block_at(
        e.disk, w.bs, c) == block_device::block_at(s.disk, w.bs, c) by {
            assert(slot(w, a) != c);
            assert(block_device::block_at(s1.disk, w.bs, c) == block_device::block_at(
                s.disk,
                w.bs,
                c,
            ));
        }
    }
}

proof fn lemma_headed(bs: u32, kind: u32, seq: u32)
    requires
        bs >= 512,
    ensures
        writer::headed(bs, kind, seq).len() == bs,
        replay::is_block(writer::headed(bs, kind, seq), kind, seq),
{
}

proof fn lemma_commit_block(w: WriterView, seq: u32)
    requires
        w.bs >= 512,
    ensures
        writer::commit_block(w, seq).len() == w.bs,
        replay::is_block(writer::commit_block(w, seq), block_type::COMMIT, seq),
{
    lemma_headed(w.bs, block_type::COMMIT, seq);
}

/// A revoke block is one, and holds what was revoked.
proof fn lemma_revoke_block(bs: u32, nums: Seq<u64>, seq: u32, wide: bool, k: int)
    requires
        bs >= 512,
        0 <= k <= nums.len(),
        nums.len() <= writer::revoke_room(bs, wide),
    ensures
        ({
            let b = writer::revoke_block(bs, nums, seq, wide, k);
            &&& b.len() == bs
            &&& replay::is_block(b, block_type::REVOKE, seq)
            &&& bytes::be32(b, 12) == nums.len()
            &&& forall|m: int|
                0 <= m < k ==> #[trigger] replay::number_at(b, m, wide)
                    == writer::revoked_number(nums[m], wide)
        }),
    decreases k,
{
    lemma_headed(bs, block_type::REVOKE, seq);
    if k > 0 {
        lemma_revoke_block(bs, nums, seq, wide, k - 1);
        let p = writer::revoke_block(bs, nums, seq, wide, k - 1);
        let b = writer::revoke_block(bs, nums, seq, wide, k);
        let x = nums[k - 1];
        assert(b == writer::with_number(p, k - 1, x, wide));
        assert(replay::number_at(b, k - 1, wide) == writer::revoked_number(x, wide));
        assert forall|m: int| 0 <= m < k implies #[trigger] replay::number_at(b, m, wide)
            == writer::revoked_number(nums[m], wide) by {
            if m < k - 1 {
                assert(replay::number_at(p, m, wide) == writer::revoked_number(nums[m], wide));
                assert(replay::number_at(b, m, wide) == replay::number_at(p, m, wide));
            }
        }
    }
}

proof fn lemma_revoked_in(bs: u32, nums: Seq<u64>, seq: u32, wide: bool)
    requires
        bs >= 512,
        nums.len() <= writer::revoke_room(bs, wide),
    ensures
        replay::revoked_in(
            writer::revoke_block(bs, nums, seq, wide, nums.len() as int),
            wide,
        ) == as_logged(nums, wide),
{
    lemma_revoke_block(bs, nums, seq, wide, nums.len() as int);
    let b = writer::revoke_block(bs, nums, seq, wide, nums.len() as int);
    assert(replay::revoke_count(b, wide) == nums.len());
    assert(replay::revoked_in(b, wide) =~= as_logged(nums, wide));
}

proof fn lemma_revoke_len(bs: u32, wide: bool, n: int)
    requires
        bs >= 512,
    ensures
        0 <= revoke_len(bs, wide, n),
        n > 0 ==> 0 < revoke_len(bs, wide, n),
    decreases n,
{
    if n > 0 && n >= writer::revoke_room(bs, wide) {
        lemma_revoke_len(bs, wide, n - writer::revoke_room(bs, wide));
    }
}

/// Whether the revoke blocks for the given numbers stand in the log, from slot `a` on.
pub open spec fn holds_revokes(
    d: Seq<u8>,
    w: WriterView,
    revoked: Seq<u64>,
    seq: u32,
    a: int,
) -> bool
    decreases revoked.len(),
{
    if revoked.len() == 0 || w.bs < 24 {
        true
    } else {
        let nums = writer::first_revoked(w.bs, revoked, w.wide);
        &&& holds(
            d,
            w.bs,
            slot(w, a),
            writer::revoke_block(w.bs, nums, seq, w.wide, nums.len() as int),
        )
        &&& holds_revokes(d, w, revoked.skip(nums.len() as int), seq, a + 1)
    }
}

/// The first numbers, and how many revoke blocks the others take.
proof fn lemma_first_revoked(bs: u32, revoked: Seq<u64>, wide: bool)
    requires
        bs >= 512,
        revoked.len() > 0,
    ensures
        ({
            let nums = writer::first_revoked(bs, revoked, wide);
            &&& 0 < nums.len() <= revoked.len()
            &&& nums.len() <= writer::revoke_room(bs, wide)
            &&& nums + revoked.skip(nums.len() as int) =~= revoked
            &&& revoke_len(bs, wide, revoked.len() as int) == 1 + revoke_len(
                bs,
                wide,
                revoked.len() - nums.len(),
            )
            &&& 0 <= revoke_len(bs, wide, revoked.len() - nums.len())
        }),
{
    lemma_revoke_len(bs, wide, revoked.len() - writer::revoke_room(bs, wide));
}

/// Revoke blocks are in the log, from slot `a` on; nothing else changed.
proof fn lemma_revokes_logged(w: WriterView, s: LogState, revoked: Seq<u64>, seq: u32, a: int)
    requires
        sound(w),
        s.disk.len() % 512 == 0,
        0 <= a,
        a + revoke_len(w.bs, w.wide, revoked.len() as int) < w.total - w.first,
        s.w == (WriterView {
            head: ring(w.head as int, a, w.first, w.total) as u32,
            ..w
        }),
        writer::revokes_logged(s, revoked, seq).1 is Ok,
    ensures
        ({
            let s1 = writer::revokes_logged(s, revoked, seq).0;
            let n = revoke_len(w.bs, w.wide, revoked.len() as int);
            &&& s1.disk.len() == s.disk.len()
            &&& s1.w == (WriterView {
                head: ring(w.head as int, a + n, w.first, w.total) as u32,
                ..w
            })
            &&& holds_revokes(s1.disk, w, revoked, seq, a)
            &&& forall|c: u64|
                (forall|m: int| a <= m < a + n ==> #[trigger] slot(w, m) != c)
                    ==> #[trigger] block_device::block_at(s1.disk, w.bs, c)
                    == block_device::block_at(s.disk, w.bs, c)
        }),
    decreases revoked.len(),
{
    let n = revoke_len(w.bs, w.wide, revoked.len() as int);
    lemma_revoke_len(w.bs, w.wide, revoked.len() as int);
    lemma_ring(w, a);
    if revoked.len() > 0 {
        lemma_first_revoked(w.bs, revoked, w.wide);
        let nums = writer::first_revoked(w.bs, revoked, w.wide);
        let b = writer::revoke_block(w.bs, nums, seq, w.wide, nums.len() as int);
        let rest = revoked.skip(nums.len() as int);
        lemma_revoke_block(w.bs, nums, seq, w.wide, nums.len() as int);
        lemma_padded_whole(b, w.bs);
        lemma_logged(s, b);
        let s1 = writer::logged(s, b).0;
        lemma_revokes_logged(w, s1, rest, seq, a + 1);
        let e = writer::revokes_logged(s, revoked, seq).0;
        lemma_slots(w, a + n);
        assert(holds(e.disk, w.bs, slot(w, a), b)) by {
            assert forall|m: int| a + 1 <= m < a + n implies #[trigger] slot(w, m) != slot(
                w,
                a,
            ) by {}
            assert(holds(s1.disk, w.bs, slot(w, a), b));
        }
        assert forall|c: u64|
            (forall|m: int| a <= m < a + n ==> #[trigger] slot(
                w,
                m,
            ) != c) implies #[trigger] block_device::block_at(
        e.disk, w.bs, c) == block_device::block_at(s.disk, w.bs, c) by {
            assert(slot(w, a) != c);
            assert(block_device::block_at(s1.disk, w.bs, c) == block_device::block_at(
                s.disk,
                w.bs,
                c,
            ));
        }
    }
}

proof fn lemma_revokes_same(
    w: WriterView,
    d1: Seq<u8>,
    d2: Seq<u8>,
    revoked: Seq<u64>,
    seq: u32,
    a: int,
)
    requires
        w.bs >= 512,
        holds_revokes(d1, w, revoked, seq, a),
        forall|m: int|
            a <= m < a + revoke_len(w.bs, w.wide, revoked.len() as int)
                ==> block_device::block_at(d2, w.bs, #[trigger] slot(w, m))
                == block_device::block_at(d1, w.bs, slot(w, m)),
    ensures
        holds_revokes(d2, w, revoked, seq, a),
    decreases revoked.len(),
{
    if revoked.len() > 0 {
        lemma_first_revoked(w.bs, revoked, w.wide);
        let nums = writer::first_revoked(w.bs, revoked, w.wide);
        assert(block_device::block_at(d2, w.bs, slot(w, a)) == block_device::block_at(
            d1,
            w.bs,
            slot(w, a),
        ));
        lemma_revokes_same(w, d1, d2, revoked.skip(nums.len() as int), seq, a + 1);
    }
}

/// Reading passes over revoke blocks, and notes what they hold.
proof fn lemma_walk_revokes(
    w: WriterView,
    j: Journal,
    d: Seq<u8>,
    revoked: Seq<u64>,
    seq: u32,
    a: int,
    all: Map<u64, u32>,
    found: Map<u64, u32>,
    pending: Seq<u64>,
)
    requires
        sound(w),
        reads_from(j, w),
        0 <= a,
        a + revoke_len(w.bs, w.wide, revoked.len() as int) < w.total - w.first,
        holds_revokes(d, w, revoked, seq, a),
    ensures
        ({
            let n = revoke_len(w.bs, w.wide, revoked.len() as int);
            let from = ring(w.head as int, a, w.first, w.total) as u32;
            let to = ring(w.head as int, a + n, w.first, w.total) as u32;
            &&& replay::replayed_from(d, w.bs, j, seq, from, all, a) == replay::replayed_from(
                d,
                w.bs,
                j,
                seq,
                to,
                all,
                a + n,
            )
            &&& replay::revoked_from(d, w.bs, j, seq, from, found, pending, a)
                == replay::revoked_from(
                d,
                w.bs,
                j,
                seq,
                to,
                found,
                pending + as_logged(revoked, w.wide),
                a + n,
            )
        }),
    decreases revoked.len(),
{
    if revoked.len() > 0 {
        lemma_first_revoked(w.bs, revoked, w.wide);
        let nums = writer::first_revoked(w.bs, revoked, w.wide);
        let b = writer::revoke_block(w.bs, nums, seq, w.wide, nums.len() as int);
        let rest = revoked.skip(nums.len() as int);
        let now = pending + as_logged(nums, w.wide);
        lemma_revoke_block(w.bs, nums, seq, w.wide, nums.len() as int);
        lemma_revoked_in(w.bs, nums, seq, w.wide);
        lemma_ring(w, a);
        assert(holds(d, w.bs, slot(w, a), b));
        assert(!replay::is_block(b, block_type::DESCRIPTOR, seq));
        assert(!replay::is_block(b, block_type::COMMIT, seq));
        lemma_walk_revokes(w, j, d, rest, seq, a + 1, all, found, now);
        assert(now + as_logged(rest, w.wide) =~= pending + as_logged(revoked, w.wide)) by {
            assert forall|k: int| 0 <= k < revoked.len() implies revoked[k] == (if k
                < nums.len() {
                nums[k]
            } else {
                rest[k - nums.len()]
            }) by {}
        }
    } else {
        assert(pending + as_logged(revoked, w.wide) =~= pending);
    }
}

/// Where the log of a transaction is intact, its blocks are there, in order: the
/// revoke blocks, the descriptor, the data and the commit block.
proof fn lemma_logged_txn(s: LogState, t: TxnView, d: Seq<u8>)
    requires
        sound(s.w),
        s.disk.len() % 512 == 0,
        writer::txn_logged(s, t).1 is Ok,
        log_len(s.w, t) <= s.w.total - s.w.first,
        intact(d, s, t),
    ensures
        ({
            let bs = s.w.bs;
            let a = revoke_len(bs, s.w.wide, t.revoked.len() as int);
            let n = t.blocks.len() as int;
            let s1 = writer::revokes_logged(s, t.revoked, t.sequence).0;
            let s2 = writer::blocks_logged(s1, t).0;
            &&& 0 <= a
            &&& s1.w == (WriterView { head: s1.w.head, ..s.w })
            &&& s2.w == (WriterView { head: s2.w.head, ..s.w })
            &&& holds_revokes(d, s.w, t.revoked, t.sequence, 0)
            &&& n > 0 ==> writer::tag_offset(n - 1) + 12 <= bs
            &&& n > 0 ==> holds(
                d,
                bs,
                slot(s.w, a),
                writer::descriptor(s1.w, t.blocks, t.sequence, n),
            )
            &&& forall|i: int|
                0 <= i < n ==> holds(
                    d,
                    bs,
                    #[trigger] slot(s.w, a + 1 + i),
                    writer::padded(writer::escaped(t.blocks[i].1), bs),
                )
            &&& holds(
                d,
                bs,
                slot(s.w, log_len(s.w, t) - 1),
                writer::commit_block(s2.w, t.sequence),
            )
            &&& writer::txn_logged(s, t).0.w.head == replay::next_block(
                ring(s.w.head as int, log_len(s.w, t) - 1, s.w.first, s.w.total) as u32,
                s.w.total,
                s.w.first,
            )
        }),
{
    let bs = s.w.bs;
    let w = s.w;
    let a = revoke_len(bs, w.wide, t.revoked.len() as int);
    let n = t.blocks.len() as int;
    let last = log_len(w, t) - 1;
    let e = writer::txn_logged(s, t).0;
    lemma_revoke_len(bs, w.wide, t.revoked.len() as int);
    lemma_ring(w, 0);
    lemma_revokes_logged(w, s, t.revoked, t.sequence, 0);
    let s1 = writer::revokes_logged(s, t.revoked, t.sequence).0;
    let s2 = writer::blocks_logged(s1, t).0;
    lemma_slots(w, log_len(w, t));
    lemma_ring(w, a);
    if n > 0 {
        let desc = writer::descriptor(s1.w, t.blocks, t.sequence, n);
        lemma_descriptor(s1.w, t.blocks, t.sequence, n);
        lemma_padded_whole(desc, bs);
        lemma_logged(s1, desc);
        let sd = writer::logged(s1, desc).0;
        lemma_data_logged(w, sd, t.blocks, 0, a + 1);
        assert(s2 == writer::data_logged(sd, t.blocks, 0).0);
        assert forall|m: int| 0 <= m < a implies block_device::block_at(
            s2.disk,
            bs,
            #[trigger] slot(w, m),
        ) == block_device::block_at(s1.disk, bs, slot(w, m)) by {
            assert(slot(w, m) != slot(w, a));
            assert forall|q: int| a + 1 <= q < a + 1 + n implies #[trigger] slot(w, q) != slot(
                w,
                m,
            ) by {}
            assert(block_device::block_at(sd.disk, bs, slot(w, m)) == block_device::block_at(
                s1.disk,
                bs,
                slot(w, m),
            ));
        }
        assert(holds(s2.disk, bs, slot(w, a), desc)) by {
            assert forall|q: int| a + 1 <= q < a + 1 + n implies #[trigger] slot(w, q) != slot(
                w,
                a,
            ) by {}
            assert(holds(sd.disk, bs, slot(w, a), desc));
        }
    }
    lemma_ring(w, last);
    let cb = writer::commit_block(s2.w, t.sequence);
    lemma_commit_block(s2.w, t.sequence);
    lemma_padded_whole(cb, bs);
    lemma_logged(s2, cb);
    assert(holds(e.disk, bs, slot(w, last), cb));
    assert forall|m: int| 0 <= m < last implies block_device::block_at(
        d,
        bs,
        #[trigger] slot(w, m),
    ) == block_device::block_at(s2.disk, bs, slot(w, m)) by {
        assert(slot(w, m) != slot(w, last));
        assert(block_device::block_at(e.disk, bs, slot(w, m)) == block_device::block_at(
            s2.disk,
            bs,
            slot(w, m),
        ));
    }
    assert forall|m: int| 0 <= m < a implies block_device::block_at(d, bs, #[trigger] slot(w, m))
        == block_device::block_at(s1.disk, bs, slot(w, m)) by {}
    lemma_revokes_same(w, s1.disk, d, t.revoked, t.sequence, 0);
    if n > 0 {
        let sd = writer::logged(
            s1,
            writer::descriptor(s1.w, t.blocks, t.sequence, n),
        ).0;
        assert forall|i: int| 0 <= i < n implies holds(
            d,
            bs,
            #[trigger] slot(w, a + 1 + i),
            writer::padded(writer::escaped(t.blocks[i].1), bs),
        ) by {
            assert(holds(
                s2.disk,
                bs,
                slot(w, (a + 1) + i - 0),
                writer::padded(writer::escaped(t.blocks[i].1), bs),
            ));
        }
    }
}

/// A descriptor is one, and its tags say what they were made from.
proof fn lemma_descriptor(w: WriterView, blocks: Seq<(u64, Seq<u8>)>, seq: u32, k: int)
    requires
        w.bs >= 512,
        w.uuid.len() == 16,
        0 <= k <= blocks.len(),
        k > 0 ==> writer::tag_offset(k - 1) + 12 <= w.bs,
    ensures
        ({
            let b = writer::descriptor(w, blocks, seq, k);
            &&& b.len() == w.bs
            &&& replay::is_block(b, block_type::DESCRIPTOR, seq)
            &&& forall|i: int|
                0 <= i < k ==> is_tag(
                    b,
                    writer::tag_offset(i),
                    (#[trigger] blocks[i]).0,
                    writer::flags_of(
                        i,
                        blocks.len() as int,
                        writer::starts_with_magic(blocks[i].1),
                    ),
                )
        }),
    decreases k,
{
    lemma_headed(w.bs, block_type::DESCRIPTOR, seq);
    if k > 0 {
        lemma_descriptor(w, blocks, seq, k - 1);
        let p = writer::descriptor(w, blocks, seq, k - 1);
        let b = writer::descriptor(w, blocks, seq, k);
        assert forall|i: int| 0 <= i < k implies is_tag(
            b,
            writer::tag_offset(i),
            (#[trigger] blocks[i]).0,
            writer::flags_of(
                        i,
                        blocks.len() as int,
                        writer::starts_with_magic(blocks[i].1),
                    ),
        ) by {
            if i < k - 1 {
                assert(is_tag(
                    p,
                    writer::tag_offset(i),
                    blocks[i].0,
                    writer::flags_of(
                        i,
                        blocks.len() as int,
                        writer::starts_with_magic(blocks[i].1),
                    ),
                ));
            }
        }
    }
}

/// Whether a tag for `home` with the given flags stands at `off`.
pub open spec fn is_tag(b: Seq<u8>, off: int, home: u64, flags: u16) -> bool {
    let t = replay::tag_at(b, off);
    &&& t.t_blocknr == home % 0x1_0000_0000
    &&& t.t_blocknr_high == home / 0x1_0000_0000 % 0x1_0000
    &&& t.t_flags == flags
}

proof fn lemma_flags(f: u16)
    requires
        f == 0 || f == 1 || f == 4 || f == 5 || f == 8 || f == 9 || f == 12 || f == 13,
    ensures
        (f & 1 != 0) == (f == 1 || f == 5 || f == 9 || f == 13),
        f & 2 == 0,
        (f & 4 != 0) == (f == 4 || f == 5 || f == 12 || f == 13),
        (f & 8 != 0) == (f >= 8),
{
    assert(((f & 1 != 0) == (f == 1 || f == 5 || f == 9 || f == 13)) && f & 2 == 0 && ((f & 4
        != 0) == (f == 4 || f == 5 || f == 12 || f == 13)) && ((f & 8 != 0) == (f >= 8)))
        by (bit_vector)
        requires
            f == 0 || f == 1 || f == 4 || f == 5 || f == 8 || f == 9 || f == 12 || f == 13,
    ;
}

/// An escaped block gets its magic number back.
proof fn lemma_unescaped(data: Seq<u8>, bs: u32, tag: replay::JournalBlockTag)
    requires
        bs >= 512,
        tag.has(replay::tag_flags::ESCAPE) == writer::starts_with_magic(data),
    ensures
        replay::unescaped(writer::padded(writer::escaped(data), bs), tag) == writer::padded(
            data,
            bs,
        ),
{
    if writer::starts_with_magic(data) {
        reveal(bytes::be32);
        let m = replay::magic_bytes();
        assert(data[0] == m[0] && data[1] == m[1] && data[2] == m[2] && data[3] == m[3]);
        assert(replay::unescaped(writer::padded(writer::escaped(data), bs), tag)
            =~= writer::padded(data, bs));
    }
}

/// From tag `i` on, a descriptor restores the blocks from number `i` on that are not
/// revoked.
proof fn lemma_tagged(
    w: WriterView,
    w1: WriterView,
    t: TxnView,
    j: Journal,
    d: Seq<u8>,
    desc: Seq<u8>,
    rev: Map<u64, u32>,
    a: int,
    i: int,
)
    requires
        sound(w),
        reads_from(j, w),
        w1.bs == w.bs,
        w1.uuid == w.uuid,
        0 <= i < t.blocks.len(),
        0 <= a,
        a + 1 + t.blocks.len() < w.total - w.first,
        writer::tag_offset(t.blocks.len() - 1) + 12 <= w.bs,
        desc == writer::descriptor(w1, t.blocks, t.sequence, t.blocks.len() as int),
        restorable(t, j.sb.wide()),
        forall|n: int|
            0 <= n < t.blocks.len() ==> holds(
                d,
                w.bs,
                #[trigger] slot(w, a + 1 + n),
                writer::padded(writer::escaped(t.blocks[n].1), w.bs),
            ),
    ensures
        replay::tagged(
            d,
            w.bs,
            j,
            desc,
            writer::tag_offset(i),
            ring(w.head as int, a + 1 + i, w.first, w.total) as u32,
            t.sequence,
            rev,
        ) == Ok::<(u32, Seq<(u64, Seq<u8>)>), JournalError>(
            (
                ring(w.head as int, a + 1 + t.blocks.len(), w.first, w.total) as u32,
                kept(writer::padded_all(t.blocks, w.bs), rev, t.sequence, i),
            ),
        ),
        replay::tags_end(
            j,
            desc,
            writer::tag_offset(i),
            ring(w.head as int, a + 1 + i, w.first, w.total) as u32,
        ) == ring(w.head as int, a + 1 + t.blocks.len(), w.first, w.total) as u32,
    decreases t.blocks.len() - i,
{
    let n = t.blocks.len() as int;
    let v = writer::padded_all(t.blocks, w.bs);
    let off = writer::tag_offset(i);
    let flags = writer::flags_of(i, n, writer::starts_with_magic(t.blocks[i].1));
    lemma_descriptor(w1, t.blocks, t.sequence, n);
    assert(is_tag(desc, off, t.blocks[i].0, flags));
    lemma_flags(flags);
    lemma_ring(w, a + 1 + i);
    let tag = replay::tag_at(desc, off);
    assert(tag.home(j.sb.wide()) == t.blocks[i].0);
    lemma_unescaped(t.blocks[i].1, w.bs, tag);
    assert(holds(
        d,
        w.bs,
        slot(w, a + 1 + i),
        writer::padded(writer::escaped(t.blocks[i].1), w.bs),
    ));
    assert(v[i] == (t.blocks[i].0, writer::padded(t.blocks[i].1, w.bs)));
    let own = if replay::skipped(rev, v[i].0, t.sequence) {
        Seq::empty()
    } else {
        seq![v[i]]
    };
    if i == n - 1 {
        assert(kept(v, rev, t.sequence, i + 1) =~= Seq::empty());
        assert(kept(v, rev, t.sequence, i) =~= own);
    } else {
        lemma_tagged(w, w1, t, j, d, desc, rev, a, i + 1);
    }
}

/// A transaction whose commit block is missing is not applied: replay stops in
/// front of it, and writes nothing. What it revokes does not count either.
pub proof fn law_partial_not_applied(
    disk: Seq<u8>,
    bs: u32,
    j: Journal,
    seq: u32,
    at: u32,
    revoked: Map<u64, u32>,
    found: Map<u64, u32>,
    pending: Seq<u64>,
    desc: Seq<u8>,
    end: u32,
    blocks: Seq<(u64, Seq<u8>)>,
    last: Seq<u8>,
)
    requires
        super::journal_block(disk, bs, j.blocks@, at) == Ok::<Seq<u8>, JournalError>(desc),
        replay::is_block(desc, block_type::DESCRIPTOR, seq),
        replay::tagged(
            disk,
            bs,
            j,
            desc,
            12,
            replay::next_block(at, j.sb.total_blocks, j.sb.first_usable_block),
            seq,
            revoked,
        ) == Ok::<(u32, Seq<(u64, Seq<u8>)>), JournalError>((end, blocks)),
        super::journal_block(disk, bs, j.blocks@, end) == Ok::<Seq<u8>, JournalError>(last),
        !replay::is_block(last, block_type::COMMIT, seq),
    ensures
        replay::replayed_from(disk, bs, j, seq, at, revoked, 0) == (
            disk,
            Ok::<u32, JournalError>(seq),
        ),
        replay::revoked_from(disk, bs, j, seq, at, found, pending, 0) == Ok::<
            Map<u64, u32>,
            JournalError,
        >(found),
{
    lemma_tags_end(
        disk,
        bs,
        j,
        desc,
        12,
        replay::next_block(at, j.sb.total_blocks, j.sb.first_usable_block),
        seq,
        revoked,
    );
}

/// Both readings of a descriptor come to the same end.
proof fn lemma_tags_end(
    disk: Seq<u8>,
    bs: u32,
    j: Journal,
    desc: Seq<u8>,
    off: int,
    at: u32,
    seq: u32,
    revoked: Map<u64, u32>,
)
    requires
        replay::tagged(disk, bs, j, desc, off, at, seq, revoked) is Ok,
    ensures
        replay::tags_end(j, desc, off, at) == replay::tagged(
            disk,
            bs,
            j,
            desc,
            off,
            at,
            seq,
            revoked,
        )->Ok_0.0,
    decreases desc.len() + 28 - off,
{
    if off + 12 <= desc.len() {
        let tag = replay::tag_at(desc, off);
        let next = replay::next_block(at, j.sb.total_blocks, j.sb.first_usable_block);
        if !tag.has(replay::tag_flags::LAST_TAG) {
            lemma_tags_end(
                disk,
                bs,
                j,
                desc,
                off + 12 + (if tag.has(replay::tag_flags::SAME_UUID) {
                    0int
                } else {
                    16
                }),
                next,
                seq,
                revoked,
            );
        }
    }
}

/// After a replay the journal says that it is clean, and the next replay of it
/// does nothing.
pub proof fn law_replay_cleans(disk: Seq<u8>, sb: crate::superblock::Superblock, j: Journal)
    requires
        sb.wf(),
        disk.len() % 512 == 0,
        !j.sb.clean(),
        replay::replayed(disk, sb, j).1 is Ok,
    ensures
        ({
            let d = replay::replayed(disk, sb, j).0;
            &&& super::journal_block(d, sb.block_size, j.blocks@, 0) is Ok
            &&& bytes::be32(super::journal_block(d, sb.block_size, j.blocks@, 0)->Ok_0, 28) == 0
        }),
        forall|k: Journal|
            k.sb.clean() ==> #[trigger] replay::replayed(disk, sb, k) == (
                disk,
                Ok::<(), JournalError>(()),
            ),
{
    let bs = sb.block_size;
    let revoked = replay::revoked_by_log(disk, bs, j)->Ok_0;
    let (d2, r) = replay::replayed_from(
        disk,
        bs,
        j,
        j.sb.start_sequence,
        j.sb.start_block,
        revoked,
        0,
    );
    lemma_replay_len(disk, bs, j, j.sb.start_sequence, j.sb.start_block, revoked, 0);
    let b = super::journal_block(d2, bs, j.blocks@, 0)->Ok_0;
    let home = j.blocks@[0];
    block_device::lemma_block_at(d2, bs, home);
    block_device::lemma_block_write_read(
        d2,
        bs,
        home,
        replay::with_tail(b, 0, r->Ok_0),
        home,
    );
}

/// Whether the journal lies where it lay, and its superblock differs at most in where
/// the log starts.
pub open spec fn journal_kept(
    disk: Seq<u8>,
    once: Seq<u8>,
    sb: crate::superblock::Superblock,
    gdt: Seq<crate::group_desc::GroupDesc>,
) -> bool {
    &&& super::journal_blocks(once, sb, gdt) == super::journal_blocks(disk, sb, gdt)
    &&& super::journal_blocks(disk, sb, gdt) matches Ok(blocks) ==> {
        let a = super::journal_block(disk, sb.block_size, blocks, 0);
        let b = super::journal_block(once, sb.block_size, blocks, 0);
        a is Ok && b is Ok ==> forall|i: int|
            0 <= i < sb.block_size && !(24 <= i < 32) ==> #[trigger] b->Ok_0[i] == a->Ok_0[i]
    }
}

/// What decides whether a journal is refused does not depend on where the log starts.
proof fn lemma_refused_alike(a: Seq<u8>, b: Seq<u8>)
    requires
        a.len() == b.len(),
        b.len() >= 64,
        forall|i: int| 0 <= i < b.len() && !(24 <= i < 32) ==> #[trigger] b[i] == a[i],
    ensures
        super::superblock_fault(b) == super::superblock_fault(a),
        bytes::be32(b, 32) == bytes::be32(a, 32),
{
    reveal(bytes::be32);
}

/// Recovering a second time succeeds, and writes nothing. The log must not have
/// written over the journal's own inode or superblock.
pub proof fn law_recovered_once(
    disk: Seq<u8>,
    sb: crate::superblock::Superblock,
    gdt: Seq<crate::group_desc::GroupDesc>,
    once: Seq<u8>,
    r: Result<Journal, JournalError>,
    twice: Seq<u8>,
    r2: Result<Journal, JournalError>,
)
    requires
        sb.wf(),
        disk.len() % 512 == 0,
        super::recovery(disk, sb, gdt, once, r),
        r is Ok,
        journal_kept(disk, once, sb, gdt),
        super::recovery(once, sb, gdt, twice, r2),
    ensures
        twice == once,
        r2 is Ok,
        r2->Ok_0.sb.clean(),
        r2->Ok_0.blocks@ == r->Ok_0.blocks@,
{
    let j = r->Ok_0;
    let bs = sb.block_size;
    if !j.sb.clean() {
        law_replay_cleans(disk, sb, j);
    }
    block_device::lemma_block_at(disk, bs, j.blocks@[0]);
    block_device::lemma_block_at(once, bs, j.blocks@[0]);
    let a = super::journal_block(disk, bs, j.blocks@, 0)->Ok_0;
    let b = super::journal_block(once, bs, j.blocks@, 0)->Ok_0;
    lemma_refused_alike(a, b);
    assert(bytes::be32(b, 28) == 0);
    let k = choose|k: Journal|
        #![trigger k.is_on(once, sb, gdt)]
        k.is_on(once, sb, gdt) && if k.sb.errno != 0 {
            r2 is Err && r2->Err_0 == JournalError::JournalErrno(k.sb.errno) && twice == once
        } else {
            let (disk2, x) = replay::replayed(once, sb, k);
            &&& twice == disk2
            &&& match x {
                Err(e) => r2 is Err && r2->Err_0 == e,
                Ok(()) => r2 is Ok && r2->Ok_0 == k,
            }
        };
    assert(k.sb.errno == 0 && k.sb.clean());
    assert(replay::replayed(once, sb, k) == (once, Ok::<(), JournalError>(())));
}

/// Whether every block that one of the transactions pinned is on the device.
pub open spec fn homes_on(d: Seq<u8>, bs: u32, ts: Seq<TxnView>) -> bool {
    forall|k: int, i: int|
        0 <= k < ts.len() && 0 <= i < ts[k].blocks.len() ==> block_device::block_at(
            d,
            bs,
            (#[trigger] ts[k].blocks[i]).0,
        ) is Ok
}

/// Applying blocks succeeds where all of their homes are on the device.
proof fn lemma_applied_ok(disk: Seq<u8>, bs: u32, blocks: Seq<(u64, Seq<u8>)>, k: int)
    requires
        block_device::sectored(bs),
        disk.len() % 512 == 0,
        listed_once(blocks, bs),
        0 <= k,
        forall|i: int|
            0 <= i < blocks.len() ==> block_device::block_at(disk, bs, (#[trigger] blocks[i]).0)
                is Ok,
    ensures
        replay::applied(disk, bs, blocks, k).1 is Ok,
    decreases blocks.len() - k,
{
    if k < blocks.len() {
        let b = blocks[k].0;
        let data = blocks[k].1;
        let next = block_device::with_block(disk, bs, b, data);
        block_device::lemma_block_at(disk, bs, b);
        block_device::lemma_block_write_read(disk, bs, b, data, b);
        assert forall|i: int| 0 <= i < blocks.len() implies block_device::block_at(
            next,
            bs,
            (#[trigger] blocks[i]).0,
        ) is Ok by {
            block_device::lemma_block_write_read(disk, bs, b, data, blocks[i].0);
        }
        lemma_applied_ok(next, bs, blocks, k + 1);
    }
}

/// Replaying a log from transaction `k` on succeeds, and leaves the blocks of the
/// journal alone.
proof fn lemma_replay_ok(
    d: Seq<u8>,
    j: Journal,
    bs: u32,
    ss: Seq<LogState>,
    ts: Seq<TxnView>,
    revoked: Map<u64, u32>,
    k: int,
)
    requires
        block_device::sectored(bs),
        is_log(d, j, bs, ss, ts),
        homes_on(d, bs, ts),
        0 <= k <= ts.len(),
    ensures
        ({
            let (d2, r) = replay::replayed_from(
                d,
                bs,
                j,
                (ts[0].sequence + k) as u32,
                head_at(ss, ts, k),
                revoked,
                0,
            );
            &&& r == Ok::<u32, JournalError>((ts[0].sequence + ts.len()) as u32)
            &&& forall|m: int|
                0 <= m < j.blocks@.len() ==> block_device::block_at(
                    d2,
                    bs,
                    #[trigger] j.blocks@[m],
                ) == block_device::block_at(d, bs, j.blocks@[m])
        }),
    decreases ts.len() - k,
{
    if k < ts.len() {
        assert(stands(d, j, bs, ss, ts, k));
        let t = ts[k];
        law_commit_then_replay(ss[k], t, j, d, revoked, revoked);
        let v = writer::padded_all(t.blocks, bs);
        let rest = kept(v, revoked, t.sequence, 0);
        let d2 = replay::applied(d, bs, rest, 0).0;
        lemma_padded_once(t.blocks, bs);
        lemma_kept(v, bs, revoked, t.sequence, 0);
        assert forall|i: int| 0 <= i < rest.len() implies block_device::block_at(
            d,
            bs,
            (#[trigger] rest[i]).0,
        ) is Ok by {
            let y = choose|y: int|
                0 <= y < v.len() && v[y] == rest[i] && !replay::skipped(
                    revoked,
                    (#[trigger] v[y]).0,
                    t.sequence,
                );
            assert(v[y].0 == ts[k].blocks[y].0);
        }
        lemma_applied_ok(d, bs, rest, 0);
        lemma_outside_kept(t.blocks, bs, revoked, t.sequence, j.blocks@);
        lemma_applied_outside(d, bs, rest, j.blocks@);
        lemma_log_stays(d, d2, j, bs, ss, ts);
        assert forall|h: int, i: int| 0 <= h < ts.len() && 0 <= i < ts[h].blocks.len() implies
            block_device::block_at(d2, bs, (#[trigger] ts[h].blocks[i]).0) is Ok by {
            let c = ts[h].blocks[i].0;
            law_applied(d, bs, rest, 0, c);
            if !elsewhere(rest, 0, c) {
                let m = choose|m: int| 0 <= m < rest.len() && (#[trigger] rest[m]).0 == c;
                assert(holds(d2, bs, rest[m].0, rest[m].1));
            }
        }
        lemma_replay_ok(d2, j, bs, ss, ts, revoked, k + 1);
    }
}

/// Replaying a log succeeds where all blocks that its transactions pinned, and the
/// journal's superblock, are on the device. The journal's superblock says then that the
/// log is empty, and that the next transaction follows the last one.
pub proof fn law_log_replays(
    d: Seq<u8>,
    sb: crate::superblock::Superblock,
    j: Journal,
    ss: Seq<LogState>,
    ts: Seq<TxnView>,
)
    requires
        sb.wf(),
        is_log(d, j, sb.block_size, ss, ts),
        j.sb.start_block == ss[0].w.head,
        j.sb.start_sequence == ts[0].sequence,
        homes_on(d, sb.block_size, ts),
        super::journal_block(d, sb.block_size, j.blocks@, 0) is Ok,
    ensures
        replay::replayed(d, sb, j).1 is Ok,
        !j.sb.clean() ==> super::journal_block(
            replay::replayed(d, sb, j).0,
            sb.block_size,
            j.blocks@,
            0,
        ) == Ok::<Seq<u8>, JournalError>(
            replay::with_tail(
                super::journal_block(d, sb.block_size, j.blocks@, 0)->Ok_0,
                0,
                (ts[0].sequence + ts.len()) as u32,
            ),
        ),
{
    let bs = sb.block_size;
    if !j.sb.clean() {
        assert(stands(d, j, bs, ss, ts, 0));
        lemma_scan(d, j, bs, ss, ts, Map::empty(), 0);
        let revoked = replay::revoked_by_log(d, bs, j)->Ok_0;
        lemma_replay_ok(d, j, bs, ss, ts, revoked, 0);
        let (d2, r) = replay::replayed_from(
            d,
            bs,
            j,
            j.sb.start_sequence,
            j.sb.start_block,
            revoked,
            0,
        );
        lemma_replay_len(d, bs, j, j.sb.start_sequence, j.sb.start_block, revoked, 0);
        let home = j.blocks@[0];
        let b = super::journal_block(d2, bs, j.blocks@, 0)->Ok_0;
        assert(block_device::block_at(d2, bs, j.blocks@[0]) == block_device::block_at(
            d,
            bs,
            j.blocks@[0],
        ));
        block_device::lemma_block_at(d2, bs, home);
        block_device::lemma_block_write_read(
            d2,
            bs,
            home,
            replay::with_tail(b, 0, r->Ok_0),
            home,
        );
    }
}

/// What one transaction pinned is restored: it is committed to a log that starts with
/// it and ends behind it, anything may then become of its blocks' homes, and replay
/// succeeds and puts back what was pinned, filled with zeros to a whole block.
pub proof fn law_committed_is_restored(
    s: LogState,
    t: TxnView,
    d: Seq<u8>,
    sb: crate::superblock::Superblock,
    j: Journal,
    c: u64,
)
    requires
        sb.wf(),
        !j.sb.clean(),
        s.w.bs == sb.block_size,
        d.len() % 512 == 0,
        in_log(s, t, j),
        intact(d, s, t),
        writer::pinned_once(t.blocks),
        outside(t.blocks, j.blocks@),
        j.sb.start_block == s.w.head,
        j.sb.start_sequence == t.sequence,
        ends(d, sb.block_size, j, writer::txn_logged(s, t).0.w.head, (t.sequence + 1) as u32),
        homes_on(d, sb.block_size, seq![t]),
        super::journal_block(d, sb.block_size, j.blocks@, 0) is Ok,
        writer::pinned(t.blocks, c) is Some,
        !revoked_by(t, j.sb.wide()).contains(c),
    ensures
        replay::replayed(d, sb, j).1 is Ok,
        holds(
            replay::replayed(d, sb, j).0,
            sb.block_size,
            c,
            writer::padded(writer::pinned(t.blocks, c)->Some_0, sb.block_size),
        ),
{
    let ss = seq![s];
    let ts = seq![t];
    assert(ss.last() == s && ts.last() == t);
    assert forall|k: int| 0 <= k < ts.len() implies #[trigger] stands(
        d,
        j,
        sb.block_size,
        ss,
        ts,
        k,
    ) by {
        assert(k == 0);
    }
    assert(is_log(d, j, sb.block_size, ss, ts));
    law_log_replays(d, sb, j, ss, ts);
    law_replay_restores(d, sb, j, ss, ts, c, 0);
}

proof fn lemma_applied_len(disk: Seq<u8>, bs: u32, blocks: Seq<(u64, Seq<u8>)>, k: int)
    ensures
        replay::applied(disk, bs, blocks, k).0.len() == disk.len(),
    decreases blocks.len() - k,
{
    if k < blocks.len() {
        lemma_applied_len(
            block_device::with_block(disk, bs, blocks[k].0, blocks[k].1),
            bs,
            blocks,
            k + 1,
        );
    }
}

/// A replay does not change the size of the device.
pub proof fn lemma_replayed_len(disk: Seq<u8>, sb: crate::superblock::Superblock, j: Journal)
    ensures
        replay::replayed(disk, sb, j).0.len() == disk.len(),
{
    if !j.sb.clean() {
        let bs = sb.block_size;
        let revoked = replay::revoked_by_log(disk, bs, j);
        if revoked is Ok {
            lemma_replay_len(
                disk,
                bs,
                j,
                j.sb.start_sequence,
                j.sb.start_block,
                revoked->Ok_0,
                0,
            );
        }
    }
}

proof fn lemma_replay_len(
    disk: Seq<u8>,
    bs: u32,
    j: Journal,
    seq: u32,
    at: u32,
    revoked: Map<u64, u32>,
    run: int,
)
    ensures
        replay::replayed_from(disk, bs, j, seq, at, revoked, run).0.len() == disk.len(),
    decreases u32::MAX - seq, j.sb.total_blocks - run,
{
    let total = j.sb.total_blocks;
    let first = j.sb.first_usable_block;
    match super::journal_block(disk, bs, j.blocks@, at) {
        Err(_) => {},
        Ok(b) => {
            if replay::is_block(b, block_type::DESCRIPTOR, seq) {
                match replay::tagged(
                    disk,
                    bs,
                    j,
                    b,
                    12,
                    replay::next_block(at, total, first),
                    seq,
                    revoked,
                ) {
                    Err(_) => {},
                    Ok((end, blocks)) => {
                        lemma_applied_len(disk, bs, blocks, 0);
                        if seq < u32::MAX {
                            lemma_replay_len(
                                replay::applied(disk, bs, blocks, 0).0,
                                bs,
                                j,
                                (seq + 1) as u32,
                                replay::next_block(end, total, first),
                                revoked,
                                0,
                            );
                        }
                    },
                }
            } else if replay::is_block(b, block_type::COMMIT, seq) {
                if seq < u32::MAX {
                    lemma_replay_len(
                        disk,
                        bs,
                        j,
                        (seq + 1) as u32,
                        replay::next_block(at, total, first),
                        revoked,
                        0,
                    );
                }
            } else if replay::is_block(b, block_type::REVOKE, seq) && run < total {
                lemma_replay_len(
                    disk,
                    bs,
                    j,
                    seq,
                    replay::next_block(at, total, first),
                    revoked,
                    run + 1,
                );
            }
        },
    }
}

} // verus!
