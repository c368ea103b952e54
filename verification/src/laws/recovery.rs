//! What mounting promises of a volume that was not unmounted cleanly.
use vstd::prelude::*;
use super::layout;
use crate::block_device;
use crate::block_device::BlockDevice;
use crate::bytes;
use crate::fs_context;
use crate::fs_context::{Ext4Fs, Ext4FsError, OpenMode};
use crate::group_desc;
use crate::group_desc::GroupDesc;
use crate::journal;
use crate::journal::laws;
use crate::journal::mount;
use crate::journal::mount::{Ext4FsRw, MountError};
use crate::journal::replay;
use crate::journal::writer;
use crate::journal::writer::{LogState, TxnView};
use crate::journal::{Journal, JournalError};
use crate::superblock;
use crate::superblock::Superblock;

verus! {

/// What the first block of a journal holds on the device.
pub open spec fn tail_block(disk: Seq<u8>, sb: Superblock, j: Journal) -> Seq<u8> {
    block_device::block_at(disk, sb.block_size, j.blocks@[0])->Ok_0
}

/// Whether the journal on `disk`, which was not left clean, holds the log of the
/// transactions `ts`: its superblock carries no error number, the number of the first of
/// them at byte 24, and at byte 28 where that starts; each of them is intact, and the
/// blocks that they pinned are on the device.
pub open spec fn left_behind(
    disk: Seq<u8>,
    sb: Superblock,
    g: Seq<GroupDesc>,
    j: Journal,
    ss: Seq<LogState>,
    ts: Seq<TxnView>,
) -> bool {
    let s = tail_block(disk, sb, j);
    &&& j.is_on(disk, sb, g)
    &&& laws::is_log(disk, j, sb.block_size, ss, ts)
    &&& laws::homes_on(disk, sb.block_size, ts)
    &&& layout::big(s, 24, 4) == ts[0].sequence
    &&& layout::big(s, 28, 4) == ss[0].w.head
    &&& layout::big(s, 32, 4) == 0
}

/// Whether transaction `i` is the last one that pinned block `c`, and neither it nor a
/// later one revoked it.
pub open spec fn last_pin(j: Journal, ts: Seq<TxnView>, c: u64, i: int) -> bool {
    &&& 0 <= i < ts.len()
    &&& writer::pinned(ts[i].blocks, c) is Some
    &&& forall|k: int| i < k < ts.len() ==> writer::pinned((#[trigger] ts[k]).blocks, c) is None
    &&& forall|k: int|
        i <= k < ts.len() ==> !laws::revoked_by(#[trigger] ts[k], j.sb.wide()).contains(c)
}

/// A log is one of every journal that is loaded from the same device.
proof fn lemma_same_log(
    disk: Seq<u8>,
    sb: Superblock,
    g: Seq<GroupDesc>,
    a: Journal,
    b: Journal,
    ss: Seq<LogState>,
    ts: Seq<TxnView>,
)
    requires
        a.is_on(disk, sb, g),
        b.is_on(disk, sb, g),
        laws::is_log(disk, a, sb.block_size, ss, ts),
    ensures
        laws::is_log(disk, b, sb.block_size, ss, ts),
        a.blocks@ == b.blocks@,
        a.sb.wide() == b.sb.wide(),
{
    assert forall|k: int| 0 <= k < ts.len() implies #[trigger] laws::stands(
        disk,
        b,
        sb.block_size,
        ss,
        ts,
        k,
    ) by {
        assert(laws::stands(disk, a, sb.block_size, ss, ts, k));
    }
}

/// Recovering a volume replays the log that its journal's superblock leads to: that
/// succeeds, each block holds what the last transaction pinned that pinned it, unless it was
/// revoked, and the journal is clean then, and goes on behind the last transaction.
pub proof fn law_recovery_restores(
    disk: Seq<u8>,
    sb: Superblock,
    g: Seq<GroupDesc>,
    after: Seq<u8>,
    r: Result<Journal, JournalError>,
    j: Journal,
    ss: Seq<LogState>,
    ts: Seq<TxnView>,
)
    requires
        sb.wf(),
        journal::recovery(disk, sb, g, after, r),
        left_behind(disk, sb, g, j, ss, ts),
    ensures
        r is Ok,
        after.len() == disk.len(),
        forall|c: u64, i: int|
            #![trigger writer::pinned(ts[i].blocks, c)]
            last_pin(j, ts, c, i) ==> laws::holds(
                after,
                sb.block_size,
                c,
                writer::padded(writer::pinned(ts[i].blocks, c)->Some_0, sb.block_size),
            ),
        block_device::block_at(after, sb.block_size, j.blocks@[0]) is Ok,
        layout::big(tail_block(after, sb, j), 28, 4) == 0,
        layout::big(tail_block(after, sb, j), 24, 4) == ts[0].sequence + ts.len(),
        forall|k: int|
            0 <= k < sb.block_size && !(24 <= k < 32) ==> #[trigger] tail_block(after, sb, j)[k]
                == tail_block(disk, sb, j)[k],
{
    let bs = sb.block_size;
    let s = tail_block(disk, sb, j);
    layout::law_journal_loaded(disk, sb, g, j);
    let k = choose|k: Journal|
        #![trigger k.is_on(disk, sb, g)]
        k.is_on(disk, sb, g) && if k.sb.errno != 0 {
            r is Err && r->Err_0 == JournalError::JournalErrno(k.sb.errno) && after == disk
        } else {
            let (disk2, x) = replay::replayed(disk, sb, k);
            &&& after == disk2
            &&& match x {
                Err(e) => r is Err && r->Err_0 == e,
                Ok(()) => r is Ok && r->Ok_0 == k,
            }
        };
    layout::law_journal_loaded(disk, sb, g, k);
    lemma_same_log(disk, sb, g, j, k, ss, ts);
    assert(laws::stands(disk, k, bs, ss, ts, 0));
    assert(laws::sound(ss[0].w));
    assert(!k.sb.clean());
    laws::law_log_replays(disk, sb, k, ss, ts);
    let n = (ts[0].sequence + ts.len()) as u32;
    assert(ts[0].sequence + ts.len() <= u32::MAX) by {
        assert(laws::stands(disk, k, bs, ss, ts, ts.len() - 1));
    }
    block_device::lemma_block_at(disk, bs, j.blocks@[0]);
    let b = replay::with_tail(s, 0, n);
    assert(tail_block(after, sb, j) == b);
    layout::law_numbers(b, 24);
    layout::law_numbers(b, 28);
    assert(bytes::be32(b, 24) == n && bytes::be32(b, 28) == 0) by {
        broadcast use crate::bytes::group_codec;

    }
    assert forall|i: int| 0 <= i < bs && !(24 <= i < 32) implies #[trigger] b[i] == s[i] by {
        broadcast use crate::bytes::group_codec;

    }
    laws::lemma_replayed_len(disk, sb, k);
    assert forall|c: u64, i: int|
        #![trigger writer::pinned(ts[i].blocks, c)]
        last_pin(j, ts, c, i) implies laws::holds(
        after,
        bs,
        c,
        writer::padded(writer::pinned(ts[i].blocks, c)->Some_0, bs),
    ) by {
        laws::law_replay_restores(disk, sb, k, ss, ts, c, i);
    }
}

/// A block that no transaction in the log pinned, and that is no block of the journal, is as
/// it was after a recovery.
pub proof fn law_recovery_leaves_others(
    disk: Seq<u8>,
    sb: Superblock,
    g: Seq<GroupDesc>,
    after: Seq<u8>,
    r: Result<Journal, JournalError>,
    j: Journal,
    ss: Seq<LogState>,
    ts: Seq<TxnView>,
    c: u64,
)
    requires
        sb.wf(),
        journal::recovery(disk, sb, g, after, r),
        left_behind(disk, sb, g, j, ss, ts),
        !j.blocks@.contains(c),
        forall|k: int| 0 <= k < ts.len() ==> writer::pinned((#[trigger] ts[k]).blocks, c) is None,
    ensures
        block_device::block_at(after, sb.block_size, c) == block_device::block_at(
            disk,
            sb.block_size,
            c,
        ),
{
    let bs = sb.block_size;
    layout::law_journal_loaded(disk, sb, g, j);
    let k = choose|k: Journal|
        #![trigger k.is_on(disk, sb, g)]
        k.is_on(disk, sb, g) && if k.sb.errno != 0 {
            r is Err && r->Err_0 == JournalError::JournalErrno(k.sb.errno) && after == disk
        } else {
            let (disk2, x) = replay::replayed(disk, sb, k);
            &&& after == disk2
            &&& match x {
                Err(e) => r is Err && r->Err_0 == e,
                Ok(()) => r is Ok && r->Ok_0 == k,
            }
        };
    layout::law_journal_loaded(disk, sb, g, k);
    lemma_same_log(disk, sb, g, j, k, ss, ts);
    assert(laws::stands(disk, k, bs, ss, ts, 0));
    laws::law_log_replays(disk, sb, k, ss, ts);
    assert forall|m: int| 0 <= m < k.blocks@.len() implies #[trigger] k.blocks@[m] != c by {
        assert(j.blocks@[m] == k.blocks@[m]);
    }
    laws::law_log_replayed(disk, sb, k, ss, ts, c);
    lemma_after_unpinned(
        ts,
        laws::revoked_after(ts, k.sb.wide(), Map::empty(), 0),
        bs,
        c,
        block_device::block_at(disk, bs, c),
        0,
    );
}

/// A volume whose journal is clean, and carries no error number, is recovered as it is.
pub proof fn law_clean_untouched(
    disk: Seq<u8>,
    sb: Superblock,
    g: Seq<GroupDesc>,
    after: Seq<u8>,
    r: Result<Journal, JournalError>,
    j: Journal,
)
    requires
        sb.wf(),
        journal::recovery(disk, sb, g, after, r),
        j.is_on(disk, sb, g),
    ensures
        layout::big(tail_block(disk, sb, j), 28, 4) == 0 ==> after == disk,
        layout::big(tail_block(disk, sb, j), 28, 4) == 0 ==> (r is Ok <==> layout::big(
            tail_block(disk, sb, j),
            32,
            4,
        ) == 0),
        layout::big(tail_block(disk, sb, j), 32, 4) != 0 ==> r is Err && after == disk,
{
    let k = choose|k: Journal|
        #![trigger k.is_on(disk, sb, g)]
        k.is_on(disk, sb, g) && if k.sb.errno != 0 {
            r is Err && r->Err_0 == JournalError::JournalErrno(k.sb.errno) && after == disk
        } else {
            let (disk2, x) = replay::replayed(disk, sb, k);
            &&& after == disk2
            &&& match x {
                Err(e) => r is Err && r->Err_0 == e,
                Ok(()) => r is Ok && r->Ok_0 == k,
            }
        };
    layout::law_journal_loaded(disk, sb, g, j);
    layout::law_journal_loaded(disk, sb, g, k);
}

proof fn lemma_after_unpinned(
    ts: Seq<TxnView>,
    revoked: Map<u64, u32>,
    bs: u32,
    c: u64,
    now: Result<Seq<u8>, block_device::BlockDeviceError>,
    k: int,
)
    requires
        0 <= k,
        forall|k: int| 0 <= k < ts.len() ==> writer::pinned((#[trigger] ts[k]).blocks, c) is None,
    ensures
        laws::after(ts, revoked, bs, c, now, k) == now,
    decreases ts.len() - k,
{
    if k < ts.len() {
        lemma_after_unpinned(ts, revoked, bs, c, now, k + 1);
    }
}

/// What is on the device after a volume with such a log was mounted for writing: in each
/// block, what the last transaction pinned that pinned it, but for the two bytes of the
/// volume's state, and a journal that is clean and goes on behind the last transaction.
pub open spec fn put_right(
    disk: Seq<u8>,
    after: Seq<u8>,
    sb: Superblock,
    j: Journal,
    ts: Seq<TxnView>,
) -> bool {
    let home = j.blocks@[0] * sb.block_size;
    &&& after.len() == disk.len()
    &&& forall|c: u64, i: int, k: int|
        #![trigger writer::pinned(ts[i].blocks, c), after[c * sb.block_size + k]]
        last_pin(j, ts, c, i) && 0 <= k < sb.block_size && !(1082 <= c * sb.block_size + k < 1084)
            ==> after[c * sb.block_size + k] == writer::padded(
            writer::pinned(ts[i].blocks, c)->Some_0,
            sb.block_size,
        )[k]
    &&& home >= 1084 ==> layout::big(after, home + 28, 4) == 0 && layout::big(after, home + 24, 4)
        == ts[0].sequence + ts.len()
}

proof fn lemma_put_right(
    disk: Seq<u8>,
    mid: Seq<u8>,
    after: Seq<u8>,
    sb: Superblock,
    g: Seq<GroupDesc>,
    r: Result<Journal, JournalError>,
    j: Journal,
    ss: Seq<LogState>,
    ts: Seq<TxnView>,
)
    requires
        sb.wf(),
        journal::recovery(disk, sb, g, mid, r),
        left_behind(disk, sb, g, j, ss, ts),
        block_device::same_outside(mid, after, 1082, 1084),
    ensures
        put_right(disk, after, sb, j, ts),
{
    let bs = sb.block_size;
    law_recovery_restores(disk, sb, g, mid, r, j, ss, ts);
    assert forall|c: u64, i: int, k: int|
        #![trigger writer::pinned(ts[i].blocks, c), after[c * sb.block_size + k]]
        last_pin(j, ts, c, i) && 0 <= k < bs && !(1082 <= c * bs + k < 1084) implies after[c * bs
        + k] == writer::padded(writer::pinned(ts[i].blocks, c)->Some_0, bs)[k] by {
        let data = writer::padded(writer::pinned(ts[i].blocks, c)->Some_0, bs);
        assert(laws::holds(mid, bs, c, data));
        block_device::lemma_block_at(mid, bs, c);
        assert(data == mid.subrange(c * bs, c * bs + bs));
        assert(data[k] == mid[c * bs + k]);
    }
    let home = j.blocks@[0] * bs;
    block_device::lemma_block_at(mid, bs, j.blocks@[0]);
    if home >= 1084 {
        let s = tail_block(mid, sb, j);
        reveal_with_fuel(layout::big, 5);
        assert(s == mid.subrange(home, home + bs));
        assert forall|x: int| 0 <= x < bs implies #[trigger] s[x] == after[home + x] by {
            assert(s[x] == mid[home + x]);
        }
        assert(s[24] == after[home + 24] && s[25] == after[home + 25] && s[26] == after[home + 26]
            && s[27] == after[home + 27]);
        assert(s[28] == after[home + 28] && s[29] == after[home + 29] && s[30] == after[home + 30]
            && s[31] == after[home + 31]);
    }
}

/// Mounting a volume for writing puts every committed transaction in its log in place.
pub proof fn law_mount_restores<D: BlockDevice>(
    disk: Seq<u8>,
    fs: Ext4FsRw<D>,
    j: Journal,
    ss: Seq<LogState>,
    ts: Seq<TxnView>,
)
    requires
        mount::mounts(disk, Ok::<Ext4FsRw<D>, MountError>(fs)),
        disk.len() >= 2048,
        disk.len() % 512 == 0,
        left_behind(disk, fs.sb, group_desc::loaded(disk, fs.sb)->Ok_0, j, ss, ts),
    ensures
        put_right(disk, fs.dev.bytes(), fs.sb, j, ts),
{
    let s = block_device::read_at(disk, 2, 2)->Ok_0;
    let r = Ok::<Ext4FsRw<D>, MountError>(fs);
    let sb = choose|sb: Superblock|
        #![trigger sb.reads(s)]
        sb.reads(s) && sb.wf() && mount::mounts_from(disk, sb, r);
    let g = group_desc::loaded(disk, sb)->Ok_0;
    let (mid, rj) = choose|mid: Seq<u8>, rj: Result<Journal, JournalError>|
        #[trigger] journal::recovery(disk, sb, g, mid, rj) && mount::mounts_recovered(
            sb,
            mid,
            rj,
            r,
        );
    law_recovery_restores(disk, sb, g, mid, rj, j, ss, ts);
    mount::law_state_flag(mid);
    lemma_put_right(disk, mid, fs.dev.bytes(), sb, g, rj, j, ss, ts);
}

/// A volume on which errors are recorded is not mounted for writing: that is bit 1 of the
/// state in its superblock.
pub proof fn law_errors_refused<D: BlockDevice>(disk: Seq<u8>, r: Result<Ext4FsRw<D>, MountError>)
    requires
        mount::mounts(disk, r),
        disk.len() >= 2048,
        layout::little(disk, 1082, 2) / 2 % 2 == 1,
    ensures
        r is Err,
{
    if block_device::read_at(disk, 2, 2) is Ok {
        let s = block_device::read_at(disk, 2, 2)->Ok_0;
        let v = bytes::le16(s, 58);
        bytes::lemma_le16_part(disk, 1024, 2048, 58);
        layout::law_numbers(disk, 1082);
        assert(v & 2u16 == 0 <==> v / 2 % 2 == 0) by (bit_vector);
    }
}

/// Mounting a volume for writing succeeds where its superblock is accepted and records no
/// errors, its descriptors can be read, and its journal holds the log of some
/// transactions.
pub proof fn law_mount_succeeds<D: BlockDevice>(
    disk: Seq<u8>,
    r: Result<Ext4FsRw<D>, MountError>,
    j: Journal,
    ss: Seq<LogState>,
    ts: Seq<TxnView>,
)
    requires
        mount::mounts(disk, r),
        disk.len() >= 2048,
        disk.len() % 512 == 0,
        block_device::read_at(disk, 2, 2) is Ok,
        superblock::fault(block_device::read_at(disk, 2, 2)->Ok_0) is None,
        layout::little(disk, 1082, 2) / 2 % 2 == 0,
        forall|sb: Superblock| #[trigger]
            layout::superblock_on(disk, sb) && sb.wf() ==> group_desc::loaded(disk, sb) is Ok
                && left_behind(disk, sb, group_desc::loaded(disk, sb)->Ok_0, j, ss, ts),
    ensures
        r is Ok,
{
    let s = block_device::read_at(disk, 2, 2)->Ok_0;
    let v = bytes::le16(s, 58);
    bytes::lemma_le16_part(disk, 1024, 2048, 58);
    layout::law_numbers(disk, 1082);
    assert(v & 2u16 == 0 <==> v / 2 % 2 == 0) by (bit_vector);
    let sb = choose|sb: Superblock|
        #![trigger sb.reads(s)]
        sb.reads(s) && sb.wf() && mount::mounts_from(disk, sb, r);
    assert(layout::superblock_on(disk, sb));
    let g = group_desc::loaded(disk, sb)->Ok_0;
    let (mid, rj) = choose|mid: Seq<u8>, rj: Result<Journal, JournalError>|
        #[trigger] journal::recovery(disk, sb, g, mid, rj) && mount::mounts_recovered(
            sb,
            mid,
            rj,
            r,
        );
    law_recovery_restores(disk, sb, g, mid, rj, j, ss, ts);
    mount::law_state_flag(mid);
}

/// Opening a volume for writing puts every committed transaction in its log in place.
pub proof fn law_open_restores<D: BlockDevice>(
    disk: Seq<u8>,
    fs: Ext4Fs<D>,
    j: Journal,
    ss: Seq<LogState>,
    ts: Seq<TxnView>,
)
    requires
        fs_context::opens(disk, OpenMode::ReadWrite, Ok::<Ext4Fs<D>, Ext4FsError>(fs)),
        left_behind(disk, fs.sb, group_desc::loaded(disk, fs.sb)->Ok_0, j, ss, ts),
    ensures
        put_right(disk, fs.state().disk, fs.sb, j, ts),
        !fs.read_only,
{
    let s = block_device::read_at(disk, 2, 2)->Ok_0;
    let r = Ok::<Ext4Fs<D>, Ext4FsError>(fs);
    let sb = choose|sb: Superblock|
        #![trigger sb.reads(s)]
        sb.reads(s) && sb.wf() && fs_context::opens_from(disk, sb, OpenMode::ReadWrite, r);
    let g = group_desc::loaded(disk, sb)->Ok_0;
    let (mid, rj) = choose|mid: Seq<u8>, rj: Result<Journal, JournalError>|
        #[trigger] journal::recovery(disk, sb, g, mid, rj) && match rj {
            Err(e) => r is Err && r->Err_0 == Ext4FsError::Journal(e),
            Ok(j) => match group_desc::loaded(mid, sb) {
                Err(e) => r is Err && r->Err_0 == Ext4FsError::GroupDesc(e),
                Ok(g2) => r is Ok && r->Ok_0.sb == sb && !r->Ok_0.read_only && r->Ok_0.state() == (
                fs_context::VolState { disk: mid, gdt: g2, w: writer::writer_of(j) }),
            },
        };
    lemma_put_right(disk, mid, fs.state().disk, sb, g, rj, j, ss, ts);
}

/// A volume whose log is not empty, or whose journal carries an error number, is not opened
/// for reading.
pub proof fn law_dirty_not_read<D: BlockDevice>(
    disk: Seq<u8>,
    sb: Superblock,
    r: Result<Ext4Fs<D>, Ext4FsError>,
    j: Journal,
)
    requires
        sb.wf(),
        fs_context::opens_from(disk, sb, OpenMode::ReadOnly, r),
        group_desc::loaded(disk, sb) is Ok,
        j.is_on(disk, sb, group_desc::loaded(disk, sb)->Ok_0),
    ensures
        r is Ok <==> layout::big(tail_block(disk, sb, j), 28, 4) == 0 && layout::big(
            tail_block(disk, sb, j),
            32,
            4,
        ) == 0,
        r matches Ok(fs) ==> fs.read_only && fs.state().disk == disk,
{
    let g = group_desc::loaded(disk, sb)->Ok_0;
    layout::law_journal_loaded(disk, sb, g, j);
    assert forall|k: Journal| k.is_on(disk, sb, g) implies k.sb.errno == j.sb.errno
        && #[trigger] k.sb.clean() == j.sb.clean() by {}
}

} // verus!
