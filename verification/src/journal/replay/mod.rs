//! Replaying committed transactions.
use std::collections::HashMap;
use vstd::prelude::*;
use super::{Journal, JournalError, JOURNAL_MAGIC};
use crate::block_device;
use crate::block_device::BlockDevice;
use crate::bytes;
use crate::superblock::Superblock;

pub mod block_type;
pub mod tag_flags;

verus! {

broadcast use {crate::bytes::group_codec, vstd::std_specs::hash::group_hash_axioms};

/// Header of every journal block, big-endian.
#[derive(Debug, Clone, Copy)]
pub struct JournalBlockHeader {
    pub h_magic: u32,
    pub h_blocktype: u32,
    pub h_sequence: u32,
}

/// Tag in a descriptor block, 12 bytes, big-endian: the home of a journaled
/// block. The high part of the number counts only in a 64-bit journal.
#[derive(Debug, Clone, Copy)]
pub struct JournalBlockTag {
    pub t_blocknr: u32,
    pub t_flags: u16,
    pub t_blocknr_high: u16,
    pub t_checksum: u32,
}

/// The header in the bytes `s`.
pub open spec fn header(s: Seq<u8>) -> JournalBlockHeader {
    JournalBlockHeader {
        h_magic: bytes::be32(s, 0),
        h_blocktype: bytes::be32(s, 4),
        h_sequence: bytes::be32(s, 8),
    }
}

/// The tag at byte `off`.
pub open spec fn tag_at(s: Seq<u8>, off: int) -> JournalBlockTag {
    JournalBlockTag {
        t_blocknr: bytes::be32(s, off),
        t_flags: bytes::be16(s, off + 4),
        t_blocknr_high: bytes::be16(s, off + 6),
        t_checksum: bytes::be32(s, off + 8),
    }
}

impl JournalBlockHeader {
    /// Read a header; `None` unless `s` is 12 bytes long.
    pub fn read_from(s: &[u8]) -> (r: Option<JournalBlockHeader>)
        ensures
            r == (if s@.len() == 12 {
                Some(header(s@))
            } else {
                None
            }),
    {
        if s.len() != 12 {
            return None;
        }
        Some(read_header(s))
    }
}

impl JournalBlockTag {
    /// Read a tag; `None` unless `s` is 12 bytes long.
    pub fn read_from(s: &[u8]) -> (r: Option<JournalBlockTag>)
        ensures
            r == (if s@.len() == 12 {
                Some(tag_at(s@, 0))
            } else {
                None
            }),
    {
        if s.len() != 12 {
            return None;
        }
        Some(read_tag(s, 0))
    }

    /// The home of the block.
    pub open spec fn home(self, wide: bool) -> u64 {
        if wide {
            (self.t_blocknr_high * 0x1_0000_0000 + self.t_blocknr) as u64
        } else {
            self.t_blocknr as u64
        }
    }

    pub open spec fn has(self, flag: u16) -> bool {
        self.t_flags & flag != 0
    }
}

fn read_header(s: &[u8]) -> (h: JournalBlockHeader)
    requires
        s.len() >= 12,
    ensures
        h == header(s@),
{
    JournalBlockHeader {
        h_magic: bytes::get_u32_be(s, 0),
        h_blocktype: bytes::get_u32_be(s, 4),
        h_sequence: bytes::get_u32_be(s, 8),
    }
}

fn read_tag(s: &[u8], off: usize) -> (t: JournalBlockTag)
    requires
        off + 12 <= s.len(),
    ensures
        t == tag_at(s@, off as int),
{
    JournalBlockTag {
        t_blocknr: bytes::get_u32_be(s, off),
        t_flags: bytes::get_u16_be(s, off + 4),
        t_blocknr_high: bytes::get_u16_be(s, off + 6),
        t_checksum: bytes::get_u32_be(s, off + 8),
    }
}

/// The journal block behind block `j`: the log is a ring.
pub open spec fn next_block(j: u32, total: u32, first: u32) -> u32 {
    if j + 1 >= total {
        first
    } else {
        (j + 1) as u32
    }
}

/// The bytes of the journal's magic number.
pub open spec fn magic_bytes() -> Seq<u8> {
    seq![0xC0u8, 0x3Bu8, 0x39u8, 0x98u8]
}

/// The contents of a journaled block: an escaped one gets its magic number back.
pub open spec fn unescaped(data: Seq<u8>, tag: JournalBlockTag) -> Seq<u8> {
    if tag.has(tag_flags::ESCAPE) {
        bytes::put(data, 0, magic_bytes())
    } else {
        data
    }
}

/// Whether block `home` of transaction `seq` was revoked by that transaction or by a
/// later one. `revoked` gives the last transaction that revoked a block.
pub open spec fn skipped(revoked: Map<u64, u32>, home: u64, seq: u32) -> bool {
    revoked.contains_key(home) && seq <= revoked[home]
}

/// The journal block behind the contents that the descriptor `desc` speaks of, from
/// its byte `off` on; the contents start in journal block `at`.
pub open spec fn tags_end(j: Journal, desc: Seq<u8>, off: int, at: u32) -> u32
    decreases desc.len() + 28 - off,
{
    if off + 12 > desc.len() {
        at
    } else {
        let tag = tag_at(desc, off);
        let next = next_block(at, j.sb.total_blocks, j.sb.first_usable_block);
        if tag.has(tag_flags::LAST_TAG) {
            next
        } else {
            tags_end(
                j,
                desc,
                off + 12 + (if tag.has(tag_flags::SAME_UUID) {
                    0int
                } else {
                    16
                }),
                next,
            )
        }
    }
}

/// The blocks that the descriptor `desc` restores, from its byte `off` on, with
/// their contents, which start in journal block `j`; and the journal block
/// behind the contents. Revoked and deleted blocks are passed over.
pub open spec fn tagged(
    disk: Seq<u8>,
    bs: u32,
    j: Journal,
    desc: Seq<u8>,
    off: int,
    at: u32,
    seq: u32,
    revoked: Map<u64, u32>,
) -> Result<(u32, Seq<(u64, Seq<u8>)>), JournalError>
    decreases desc.len() + 28 - off,
{
    if off + 12 > desc.len() {
        Ok((at, Seq::empty()))
    } else {
        let tag = tag_at(desc, off);
        let home = tag.home(j.sb.wide());
        let next = next_block(at, j.sb.total_blocks, j.sb.first_usable_block);
        let skip = skipped(revoked, home, seq) || tag.has(tag_flags::DELETED);
        let found = super::journal_block(disk, bs, j.blocks@, at);
        if !skip && found is Err {
            Err(found->Err_0)
        } else {
            let own = if skip {
                Seq::empty()
            } else {
                seq![(home, unescaped(found->Ok_0, tag))]
            };
            if tag.has(tag_flags::LAST_TAG) {
                Ok((next, own))
            } else {
                match tagged(
                    disk,
                    bs,
                    j,
                    desc,
                    off + 12 + (if tag.has(tag_flags::SAME_UUID) {
                        0int
                    } else {
                        16
                    }),
                    next,
                    seq,
                    revoked,
                ) {
                    Err(e) => Err(e),
                    Ok((end, rest)) => Ok((end, own + rest)),
                }
            }
        }
    }
}

/// Number `k` in a revoke block: the numbers stand behind a count, with 4 bytes
/// each, or 8 in a 64-bit journal.
pub open spec fn number_at(b: Seq<u8>, k: int, wide: bool) -> u64 {
    if wide {
        (bytes::be32(b, 16 + 8 * k) * 0x1_0000_0000 + bytes::be32(b, 20 + 8 * k)) as u64
    } else {
        bytes::be32(b, 16 + 4 * k) as u64
    }
}

/// How many block numbers a revoke block holds: what it says, as far as they
/// fit into the block.
pub open spec fn revoke_count(b: Seq<u8>, wide: bool) -> int {
    let said = bytes::be32(b, 12) as int;
    let room = (b.len() - 16) / super::writer::number_size(wide);
    if said < room {
        said
    } else {
        room
    }
}

/// The block numbers in a revoke block.
pub open spec fn revoked_in(b: Seq<u8>, wide: bool) -> Seq<u64> {
    Seq::new(revoke_count(b, wide) as nat, |k: int| number_at(b, k, wide))
}

/// What was revoked, and then the given numbers by transaction `seq`.
pub open spec fn with_revoked(revoked: Map<u64, u32>, nums: Seq<u64>, seq: u32) -> Map<u64, u32>
    decreases nums.len(),
{
    if nums.len() == 0 {
        revoked
    } else {
        with_revoked(revoked, nums.drop_last(), seq).insert(nums.last(), seq)
    }
}

/// Writing blocks to their homes, from number `k` on.
pub open spec fn applied(disk: Seq<u8>, bs: u32, blocks: Seq<(u64, Seq<u8>)>, k: int) -> (
    Seq<u8>,
    Result<(), JournalError>,
)
    decreases blocks.len() - k,
{
    if k >= blocks.len() {
        (disk, Ok(()))
    } else {
        let next = block_device::with_block(disk, bs, blocks[k].0, blocks[k].1);
        match block_device::block_write_result(disk, bs, blocks[k].0, blocks[k].1) {
            Err(e) => (next, Err(JournalError::BlockDevice(e))),
            Ok(()) => applied(next, bs, blocks, k + 1),
        }
    }
}

/// Whether `b` is a block of the log, of this type and transaction.
pub open spec fn is_block(b: Seq<u8>, kind: u32, seq: u32) -> bool {
    header(b) == (JournalBlockHeader {
        h_magic: JOURNAL_MAGIC,
        h_blocktype: kind,
        h_sequence: seq,
    })
}

/// What the committed transactions from journal block `at` on revoke, where
/// transaction `seq` is expected: for each block the last transaction that revoked
/// it. `found` is what the blocks in front of `at` revoke, and `pending` what
/// transaction `seq` revokes so far. `run` counts the revoke blocks in a row: more
/// than the journal has blocks cannot be, unless the log leads into itself.
pub open spec fn revoked_from(
    disk: Seq<u8>,
    bs: u32,
    j: Journal,
    seq: u32,
    at: u32,
    found: Map<u64, u32>,
    pending: Seq<u64>,
    run: int,
) -> Result<Map<u64, u32>, JournalError>
    decreases u32::MAX - seq, j.sb.total_blocks - run,
{
    let total = j.sb.total_blocks;
    let first = j.sb.first_usable_block;
    match super::journal_block(disk, bs, j.blocks@, at) {
        Err(e) => Err(e),
        Ok(b) => if is_block(b, block_type::REVOKE, seq) && run < total {
            revoked_from(
                disk,
                bs,
                j,
                seq,
                next_block(at, total, first),
                found,
                pending + revoked_in(b, j.sb.wide()),
                run + 1,
            )
        } else if is_block(b, block_type::DESCRIPTOR, seq) || is_block(
            b,
            block_type::COMMIT,
            seq,
        ) {
            let end = commit_place(j, b, at);
            match super::journal_block(disk, bs, j.blocks@, end) {
                Err(e) => Err(e),
                Ok(c) => if !is_block(c, block_type::COMMIT, seq) {
                    Ok(found)
                } else {
                    let now = with_revoked(found, pending, seq);
                    if seq == u32::MAX {
                        Ok(now)
                    } else {
                        revoked_from(
                            disk,
                            bs,
                            j,
                            (seq + 1) as u32,
                            next_block(end, total, first),
                            now,
                            Seq::empty(),
                            0,
                        )
                    }
                },
            }
        } else {
            Ok(found)
        },
    }
}

/// Where the commit block of a transaction is owed, whose descriptor or commit block
/// `b` stands in journal block `at`.
pub open spec fn commit_place(j: Journal, b: Seq<u8>, at: u32) -> u32 {
    if header(b).h_blocktype == block_type::COMMIT {
        at
    } else {
        tags_end(
            j,
            b,
            12,
            next_block(at, j.sb.total_blocks, j.sb.first_usable_block),
        )
    }
}

/// Replaying from journal block `at` on, where transaction `seq` is expected.
/// A transaction is applied only if its commit block is there, and without the
/// blocks that it or a later one revoked. Gives the number of the transaction that
/// comes next. `run` counts the revoke blocks in a row, as for what they revoke.
pub open spec fn replayed_from(
    disk: Seq<u8>,
    bs: u32,
    j: Journal,
    seq: u32,
    at: u32,
    revoked: Map<u64, u32>,
    run: int,
) -> (Seq<u8>, Result<u32, JournalError>)
    decreases u32::MAX - seq, j.sb.total_blocks - run,
{
    let total = j.sb.total_blocks;
    let first = j.sb.first_usable_block;
    match super::journal_block(disk, bs, j.blocks@, at) {
        Err(e) => (disk, Err(e)),
        Ok(b) => if is_block(b, block_type::DESCRIPTOR, seq) {
            match tagged(disk, bs, j, b, 12, next_block(at, total, first), seq, revoked) {
                Err(e) => (disk, Err(e)),
                Ok((end, blocks)) => match super::journal_block(disk, bs, j.blocks@, end) {
                    Err(e) => (disk, Err(e)),
                    Ok(c) => if !is_block(c, block_type::COMMIT, seq) {
                        (disk, Ok(seq))
                    } else {
                        let (disk2, r) = applied(disk, bs, blocks, 0);
                        match r {
                            Err(e) => (disk2, Err(e)),
                            Ok(()) => if seq == u32::MAX {
                                (disk2, Ok(0))
                            } else {
                                replayed_from(
                                    disk2,
                                    bs,
                                    j,
                                    (seq + 1) as u32,
                                    next_block(end, total, first),
                                    revoked,
                                    0,
                                )
                            },
                        }
                    },
                },
            }
        } else if is_block(b, block_type::COMMIT, seq) {
            if seq == u32::MAX {
                (disk, Ok(0))
            } else {
                replayed_from(
                    disk,
                    bs,
                    j,
                    (seq + 1) as u32,
                    next_block(at, total, first),
                    revoked,
                    0,
                )
            }
        } else if is_block(b, block_type::REVOKE, seq) && run < total {
            replayed_from(disk, bs, j, seq, next_block(at, total, first), revoked, run + 1)
        } else {
            (disk, Ok(seq))
        },
    }
}

/// The journal's superblock with a new start of the log and a new sequence.
pub open spec fn with_tail(b: Seq<u8>, start: u32, seq: u32) -> Seq<u8> {
    bytes::put(
        bytes::put(b, 28, bytes::be32_bytes(start)),
        24,
        bytes::be32_bytes(seq),
    )
}

/// Marking the journal as clean, with `seq` as the next transaction.
pub open spec fn cleaned(disk: Seq<u8>, bs: u32, j: Journal, seq: u32) -> (
    Seq<u8>,
    Result<(), JournalError>,
) {
    match super::journal_block(disk, bs, j.blocks@, 0) {
        Err(e) => (disk, Err(e)),
        Ok(b) => {
            let b2 = with_tail(b, 0, seq);
            (
                block_device::with_block(disk, bs, j.blocks@[0], b2),
                match block_device::block_write_result(disk, bs, j.blocks@[0], b2) {
                    Err(e) => Err(JournalError::BlockDevice(e)),
                    Ok(()) => Ok(()),
                },
            )
        },
    }
}

/// What the committed transactions in the log revoke.
pub open spec fn revoked_by_log(disk: Seq<u8>, bs: u32, j: Journal) -> Result<
    Map<u64, u32>,
    JournalError,
> {
    revoked_from(
        disk,
        bs,
        j,
        j.sb.start_sequence,
        j.sb.start_block,
        Map::empty(),
        Seq::empty(),
        0,
    )
}

/// Replaying a journal, and marking it as clean; one that is clean is left alone.
/// What is revoked is gathered from the whole log first.
pub open spec fn replayed(disk: Seq<u8>, sb: Superblock, j: Journal) -> (
    Seq<u8>,
    Result<(), JournalError>,
) {
    if j.sb.clean() {
        (disk, Ok(()))
    } else {
        match revoked_by_log(disk, sb.block_size, j) {
            Err(e) => (disk, Err(e)),
            Ok(revoked) => {
                let (disk2, r) = replayed_from(
                    disk,
                    sb.block_size,
                    j,
                    j.sb.start_sequence,
                    j.sb.start_block,
                    revoked,
                    0,
                );
                match r {
                    Err(e) => (disk2, Err(e)),
                    Ok(seq) => cleaned(disk2, sb.block_size, j, seq),
                }
            },
        }
    }
}

fn advance_jblock(jblock: u32, journal: &Journal) -> (r: u32)
    ensures
        r == next_block(jblock, journal.sb.total_blocks, journal.sb.first_usable_block),
{
    if jblock == u32::MAX || jblock + 1 >= journal.sb.total_blocks {
        journal.sb.first_usable_block
    } else {
        jblock + 1
    }
}

fn is_block_of(b: &Vec<u8>, kind: u32, seq: u32) -> (r: bool)
    requires
        b@.len() >= 12,
    ensures
        r == is_block(b@, kind, seq),
{
    let h = read_header(b.as_slice());
    h.h_magic == JOURNAL_MAGIC && h.h_blocktype == kind && h.h_sequence == seq
}

/// Gather the blocks that a descriptor restores. Writes nothing.
fn parse_descriptor_block<D: BlockDevice>(
    dev: &D,
    fs_sb: &Superblock,
    journal: &Journal,
    desc: &Vec<u8>,
    first: u32,
    seq: u32,
    revoked: &HashMap<u64, u32>,
) -> (r: Result<(u32, Vec<(u64, Vec<u8>)>), JournalError>)
    requires
        fs_sb.wf(),
        desc@.len() == fs_sb.block_size,
    ensures
        r is Ok || dev.reliable() ==> match tagged(
            dev.bytes(),
            fs_sb.block_size,
            *journal,
            desc@,
            12,
            first,
            seq,
            revoked@,
        ) {
            Err(e) => r is Err && r->Err_0 == e,
            Ok((end, blocks)) => r is Ok && r->Ok_0.0 == end && super::writer::entries_view(
                r->Ok_0.1@,
            ) == blocks,
        },
        r is Ok ==> forall|i: int|
            0 <= i < r->Ok_0.1@.len() ==> (#[trigger] r->Ok_0.1@[i]).1@.len() == fs_sb.block_size,
{
    let ghost whole = tagged(
        dev.bytes(),
        fs_sb.block_size,
        *journal,
        desc@,
        12,
        first,
        seq,
        revoked@,
    );
    let mut off: usize = 12;
    let mut at: u32 = first;
    let mut out: Vec<(u64, Vec<u8>)> = Vec::new();
    proof {
        assert(super::writer::entries_view(out@) =~= Seq::<(u64, Seq<u8>)>::empty());
        if whole is Ok {
            assert(super::writer::entries_view(out@) + whole->Ok_0.1 =~= whole->Ok_0.1);
        }
    }
    while off <= desc.len() && desc.len() - off >= 12
        invariant
            fs_sb.wf(),
            desc@.len() == fs_sb.block_size,
            12 <= off <= desc@.len() + 28,
            whole == tagged(
                dev.bytes(),
                fs_sb.block_size,
                *journal,
                desc@,
                12,
                first,
                seq,
                revoked@,
            ),
            forall|i: int|
                0 <= i < out@.len() ==> (#[trigger] out@[i]).1@.len() == fs_sb.block_size,
            match tagged(
                dev.bytes(),
                fs_sb.block_size,
                *journal,
                desc@,
                off as int,
                at,
                seq,
                revoked@,
            ) {
                Err(e) => whole is Err && whole->Err_0 == e,
                Ok((end, rest)) => whole is Ok && whole->Ok_0.0 == end && whole->Ok_0.1
                    == super::writer::entries_view(out@) + rest,
            },
        decreases desc@.len() + 28 - off,
    {
        let tag = read_tag(desc.as_slice(), off);
        let home: u64 = if journal.sb.has_64bit() {
            tag.t_blocknr_high as u64 * 0x1_0000_0000 + tag.t_blocknr as u64
        } else {
            tag.t_blocknr as u64
        };
        let ghost sofar = super::writer::entries_view(out@);
        let ghost here = tagged(
            dev.bytes(),
            fs_sb.block_size,
            *journal,
            desc@,
            off as int,
            at,
            seq,
            revoked@,
        );
        let ghost mut own = Seq::<(u64, Seq<u8>)>::empty();
        let skip: bool = match revoked.get(&home) {
            Some(last) => seq <= *last,
            None => false,
        };
        if !skip && tag.t_flags & tag_flags::DELETED == 0 {
            let mut data: Vec<u8> = Vec::new();
            match journal.read_block(dev, fs_sb, at, &mut data) {
                Ok(()) => {},
                Err(e) => {
                    return Err(e);
                },
            }
            if tag.t_flags & tag_flags::ESCAPE != 0 {
                let magic: [u8; 4] = [0xC0u8, 0x3Bu8, 0x39u8, 0x98u8];
                assert(magic@ =~= magic_bytes());
                bytes::put_bytes(&mut data, 0, magic.as_slice());
            }
            proof {
                own = seq![(home, data@)];
            }
            out.push((home, data));
            assert(super::writer::entries_view(out@) =~= sofar + own);
        } else {
            assert(sofar + own =~= sofar);
        }
        let next: u32 = advance_jblock(at, journal);
        off = off + 12;
        if tag.t_flags & tag_flags::SAME_UUID == 0 {
            off = off + 16;
        }
        at = next;
        if tag.t_flags & tag_flags::LAST_TAG != 0 {
            proof {
                assert(here is Ok && here->Ok_0 == (next, own));
            }
            return Ok((at, out));
        }
        proof {
            let more = tagged(
                dev.bytes(),
                fs_sb.block_size,
                *journal,
                desc@,
                off as int,
                at,
                seq,
                revoked@,
            );
            if more is Ok {
                assert(here is Ok && here->Ok_0.1 == own + more->Ok_0.1);
                assert(sofar + (own + more->Ok_0.1) =~= (sofar + own) + more->Ok_0.1);
            }
        }
    }
    proof {
        assert(super::writer::entries_view(out@) + Seq::<(u64, Seq<u8>)>::empty()
            =~= super::writer::entries_view(out@));
    }
    Ok((at, out))
}

/// Note the block numbers of a revoke block.
fn collect_revoked_blocks(b: &Vec<u8>, wide: bool, pending: &mut Vec<u64>)
    requires
        b@.len() >= 16,
        b@.len() <= 0x1_0000,
    ensures
        final(pending)@ == old(pending)@ + revoked_in(b@, wide),
{
    let said: usize = bytes::get_u32_be(b.as_slice(), 12) as usize;
    let size: usize = if wide {
        8
    } else {
        4
    };
    let room: usize = (b.len() - 16) / size;
    let n: usize = if said < room {
        said
    } else {
        room
    };
    let ghost all = revoked_in(b@, wide);
    let mut k: usize = 0;
    assert(pending@ =~= old(pending)@ + all.take(0));
    while k < n
        invariant
            k <= n,
            n == all.len(),
            all == revoked_in(b@, wide),
            n <= (b@.len() - 16) / super::writer::number_size(wide),
            b@.len() == b.len(),
            16 <= b@.len() <= 0x1_0000,
            pending@ == old(pending)@ + all.take(k as int),
        decreases n - k,
    {
        let num: u64 = if wide {
            bytes::get_u32_be(b.as_slice(), 16 + 8 * k) as u64 * 0x1_0000_0000
                + bytes::get_u32_be(b.as_slice(), 20 + 8 * k) as u64
        } else {
            bytes::get_u32_be(b.as_slice(), 16 + 4 * k) as u64
        };
        pending.push(num);
        assert(num == all[k as int]);
        assert(pending@ =~= old(pending)@ + all.take(k + 1));
        k = k + 1;
    }
    assert(all.take(n as int) =~= all);
}

/// Note that a committed transaction revokes the given blocks.
fn note_revoked(found: &mut HashMap<u64, u32>, nums: &Vec<u64>, seq: u32)
    ensures
        final(found)@ == with_revoked(old(found)@, nums@, seq),
{
    let mut k: usize = 0;
    assert(nums@.take(0) =~= Seq::<u64>::empty());
    while k < nums.len()
        invariant
            k <= nums@.len(),
            found@ == with_revoked(old(found)@, nums@.take(k as int), seq),
        decreases nums@.len() - k,
    {
        found.insert(nums[k], seq);
        k = k + 1;
        proof {
            let now = nums@.take(k as int);
            assert(now.drop_last() =~= nums@.take(k - 1));
            assert(now.last() == nums@[k - 1]);
        }
    }
    assert(nums@.take(k as int) =~= nums@);
}

/// Find the journal block behind the contents of a descriptor.
fn skip_tags(journal: &Journal, desc: &Vec<u8>, first: u32) -> (end: u32)
    requires
        12 <= desc@.len() <= 0x1_0000,
    ensures
        end == tags_end(*journal, desc@, 12, first),
{
    let mut off: usize = 12;
    let mut at: u32 = first;
    while off <= desc.len() && desc.len() - off >= 12
        invariant
            12 <= off <= desc@.len() + 28,
            desc@.len() <= 0x1_0000,
            tags_end(*journal, desc@, 12, first) == tags_end(*journal, desc@, off as int, at),
        decreases desc@.len() + 28 - off,
    {
        let tag = read_tag(desc.as_slice(), off);
        at = advance_jblock(at, journal);
        if tag.t_flags & tag_flags::LAST_TAG != 0 {
            return at;
        }
        off = off + 12;
        if tag.t_flags & tag_flags::SAME_UUID == 0 {
            off = off + 16;
        }
    }
    at
}

/// Gather what the committed transactions in the log revoke. Writes nothing.
fn collect_revokes<D: BlockDevice>(dev: &D, fs_sb: &Superblock, journal: &Journal) -> (r: Result<
    HashMap<u64, u32>,
    JournalError,
>)
    requires
        fs_sb.wf(),
    ensures
        r is Ok || dev.reliable() ==> match revoked_by_log(
            dev.bytes(),
            fs_sb.block_size,
            *journal,
        ) {
            Err(e) => r is Err && r->Err_0 == e,
            Ok(m) => r is Ok && r->Ok_0@ == m,
        },
{
    let ghost bs = fs_sb.block_size;
    let ghost whole = revoked_by_log(dev.bytes(), bs, *journal);
    let mut seq: u32 = journal.sb.start_sequence;
    let mut at: u32 = journal.sb.start_block;
    let mut found: HashMap<u64, u32> = HashMap::new();
    let mut pending: Vec<u64> = Vec::new();
    let mut run: u32 = 0;
    assert(found@ =~= Map::<u64, u32>::empty());
    loop
        invariant
            fs_sb.wf(),
            bs == fs_sb.block_size,
            whole == revoked_by_log(dev.bytes(), bs, *journal),
            run <= journal.sb.total_blocks,
            whole == revoked_from(
                dev.bytes(),
                bs,
                *journal,
                seq,
                at,
                found@,
                pending@,
                run as int,
            ),
        decreases u32::MAX - seq, journal.sb.total_blocks - run,
    {
        let mut buf: Vec<u8> = Vec::new();
        match journal.read_block(dev, fs_sb, at, &mut buf) {
            Ok(()) => {},
            Err(e) => {
                return Err(e);
            },
        }
        if is_block_of(&buf, block_type::REVOKE, seq) && run < journal.sb.total_blocks {
            collect_revoked_blocks(&buf, journal.sb.has_64bit(), &mut pending);
            at = advance_jblock(at, journal);
            run = run + 1;
        } else {
            let ends: bool = is_block_of(&buf, block_type::COMMIT, seq);
            if !ends && !is_block_of(&buf, block_type::DESCRIPTOR, seq) {
                return Ok(found);
            }
            let end: u32 = if ends {
                at
            } else {
                skip_tags(journal, &buf, advance_jblock(at, journal))
            };
            let mut commit: Vec<u8> = Vec::new();
            match journal.read_block(dev, fs_sb, end, &mut commit) {
                Ok(()) => {},
                Err(e) => {
                    return Err(e);
                },
            }
            if !is_block_of(&commit, block_type::COMMIT, seq) {
                return Ok(found);
            }
            note_revoked(&mut found, &pending, seq);
            if seq == u32::MAX {
                return Ok(found);
            }
            seq = seq + 1;
            at = advance_jblock(end, journal);
            pending = Vec::new();
            run = 0;
        }
    }
}

/// Write blocks to their homes.
fn apply_blocks<D: BlockDevice>(dev: &mut D, fs_sb: &Superblock, blocks: &Vec<(u64, Vec<u8>)>) -> (r:
    Result<(), JournalError>)
    requires
        fs_sb.wf(),
        forall|i: int|
            0 <= i < blocks@.len() ==> (#[trigger] blocks@[i]).1@.len() == fs_sb.block_size,
    ensures
        block_device::same_shape(*old(dev), *final(dev)),
        r is Ok || old(dev).reliable() ==> (final(dev).bytes(), r) == applied(
            old(dev).bytes(),
            fs_sb.block_size,
            super::writer::entries_view(blocks@),
            0,
        ),
{
    let ghost v = super::writer::entries_view(blocks@);
    let mut k: usize = 0;
    while k < blocks.len()
        invariant
            fs_sb.wf(),
            forall|i: int|
                0 <= i < blocks@.len() ==> (#[trigger] blocks@[i]).1@.len() == fs_sb.block_size,
            v == super::writer::entries_view(blocks@),
            k <= blocks@.len(),
            block_device::same_shape(*old(dev), *dev),
            applied(old(dev).bytes(), fs_sb.block_size, v, 0) == applied(
                dev.bytes(),
                fs_sb.block_size,
                v,
                k as int,
            ),
        decreases blocks@.len() - k,
    {
        assert(v[k as int] == (blocks@[k as int].0, blocks@[k as int].1@));
        match block_device::write_block(
            dev,
            fs_sb.block_size,
            blocks[k].0,
            blocks[k].1.as_slice(),
        ) {
            Ok(()) => {},
            Err(e) => {
                return Err(JournalError::BlockDevice(e));
            },
        }
        k = k + 1;
    }
    Ok(())
}

fn mark_journal_clean<D: BlockDevice>(
    dev: &mut D,
    fs_sb: &Superblock,
    journal: &Journal,
    next_seq: u32,
) -> (r: Result<(), JournalError>)
    requires
        fs_sb.wf(),
    ensures
        block_device::same_shape(*old(dev), *final(dev)),
        r is Ok || old(dev).reliable() ==> (final(dev).bytes(), r) == cleaned(
            old(dev).bytes(),
            fs_sb.block_size,
            *journal,
            next_seq,
        ),
        r is Ok ==> final(dev).synced(),
{
    let mut data: Vec<u8> = Vec::new();
    match journal.read_block(dev, fs_sb, 0, &mut data) {
        Ok(()) => {},
        Err(e) => {
            return Err(e);
        },
    }
    bytes::put_u32_be(&mut data, 28, 0);
    bytes::put_u32_be(&mut data, 24, next_seq);
    match block_device::write_block(dev, fs_sb.block_size, journal.blocks[0], data.as_slice()) {
        Ok(()) => {},
        Err(e) => {
            return Err(JournalError::BlockDevice(e));
        },
    }
    match dev.flush() {
        Ok(()) => Ok(()),
        Err(e) => Err(JournalError::BlockDevice(e)),
    }
}

/// Replay the log onto the volume. This comes before any write, where the
/// journal needs recovery. Afterwards the journal is clean.
pub fn replay<D: BlockDevice>(dev: &mut D, fs_sb: &Superblock, journal: &Journal) -> (r: Result<
    (),
    JournalError,
>)
    requires
        fs_sb.wf(),
    ensures
        block_device::same_shape(*old(dev), *final(dev)),
        r is Ok || old(dev).reliable() ==> (final(dev).bytes(), r) == replayed(
            old(dev).bytes(),
            *fs_sb,
            *journal,
        ),
        r is Ok && !journal.sb.clean() ==> final(dev).synced(),
{
    if journal.sb.is_clean() {
        return Ok(());
    }
    let revoked = match collect_revokes(dev, fs_sb, journal) {
        Ok(m) => m,
        Err(e) => {
            return Err(e);
        },
    };
    let ghost bs = fs_sb.block_size;
    let ghost whole = replayed_from(
        dev.bytes(),
        bs,
        *journal,
        journal.sb.start_sequence,
        journal.sb.start_block,
        revoked@,
        0,
    );
    let mut seq: u32 = journal.sb.start_sequence;
    let mut at: u32 = journal.sb.start_block;
    let mut run: u32 = 0;
    let next_seq: u32;
    loop
        invariant_except_break
            whole == replayed_from(
                dev.bytes(),
                bs,
                *journal,
                seq,
                at,
                revoked@,
                run as int,
            ),
        invariant
            fs_sb.wf(),
            bs == fs_sb.block_size,
            !journal.sb.clean(),
            whole == replayed_from(
                old(dev).bytes(),
                bs,
                *journal,
                journal.sb.start_sequence,
                journal.sb.start_block,
                revoked@,
                0,
            ),
            revoked_by_log(old(dev).bytes(), bs, *journal) == Ok::<
                Map<u64, u32>,
                JournalError,
            >(revoked@),
            block_device::same_shape(*old(dev), *dev),
            run <= journal.sb.total_blocks,
        ensures
            whole == (dev.bytes(), Ok::<u32, JournalError>(next_seq)),
        decreases u32::MAX - seq, journal.sb.total_blocks - run,
    {
        let mut buf: Vec<u8> = Vec::new();
        match journal.read_block(dev, fs_sb, at, &mut buf) {
            Ok(()) => {},
            Err(e) => {
                return Err(e);
            },
        }
        if is_block_of(&buf, block_type::DESCRIPTOR, seq) {
            let (end, blocks) = match parse_descriptor_block(
                dev,
                fs_sb,
                journal,
                &buf,
                advance_jblock(at, journal),
                seq,
                &revoked,
            ) {
                Ok(x) => x,
                Err(e) => {
                    return Err(e);
                },
            };
            let mut commit: Vec<u8> = Vec::new();
            match journal.read_block(dev, fs_sb, end, &mut commit) {
                Ok(()) => {},
                Err(e) => {
                    return Err(e);
                },
            }
            if !is_block_of(&commit, block_type::COMMIT, seq) {
                next_seq = seq;
                break ;
            }
            match apply_blocks(dev, fs_sb, &blocks) {
                Ok(()) => {},
                Err(e) => {
                    return Err(e);
                },
            }
            if seq == u32::MAX {
                next_seq = 0;
                break ;
            }
            seq = seq + 1;
            at = advance_jblock(end, journal);
            run = 0;
        } else if is_block_of(&buf, block_type::COMMIT, seq) {
            if seq == u32::MAX {
                next_seq = 0;
                break ;
            }
            seq = seq + 1;
            at = advance_jblock(at, journal);
            run = 0;
        } else if is_block_of(&buf, block_type::REVOKE, seq) && run < journal.sb.total_blocks {
            at = advance_jblock(at, journal);
            run = run + 1;
        } else {
            next_seq = seq;
            break ;
        }
    }
    mark_journal_clean(dev, fs_sb, journal, next_seq)
}

} // verus!
