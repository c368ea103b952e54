//! What the bytes of a volume mean: which number stands where.
use vstd::prelude::*;
use crate::block_device;
use crate::bytes;
use crate::group_desc;
use crate::group_desc::{GroupDesc, GroupDescError};
use crate::inode;
use crate::journal;
use crate::journal::{Journal, JournalSuperblock, RawJournalSuperblock};
use crate::superblock;
use crate::superblock::state;
use crate::superblock::{Superblock, SuperblockError};
use vstd::arithmetic::power2::pow2;

verus! {

/// The number in `n` bytes of `s` from `at` on, low byte first.
pub open spec fn little(s: Seq<u8>, at: int, n: nat) -> int
    decreases n,
{
    if n == 0 {
        0
    } else {
        s[at] + 256 * little(s, at + 1, (n - 1) as nat)
    }
}

/// The number in `n` bytes of `s` from `at` on, high byte first.
pub open spec fn big(s: Seq<u8>, at: int, n: nat) -> int
    decreases n,
{
    if n == 0 {
        0
    } else {
        256 * big(s, at, (n - 1) as nat) + s[at + n - 1]
    }
}

/// Reading a number out of bytes weighs each byte by its place.
pub proof fn law_numbers(s: Seq<u8>, at: int)
    ensures
        bytes::le16(s, at) == little(s, at, 2),
        bytes::le32(s, at) == little(s, at, 4),
        bytes::be16(s, at) == big(s, at, 2),
        bytes::be32(s, at) == big(s, at, 4),
{
    reveal(bytes::le16);
    reveal(bytes::le32);
    reveal(bytes::be16);
    reveal(bytes::be32);
    reveal_with_fuel(little, 5);
    reveal_with_fuel(big, 5);
}

/// A number inside a part of the bytes is the number in the whole.
proof fn lemma_little_part(s: Seq<u8>, lo: int, hi: int, at: int, n: nat)
    requires
        0 <= lo,
        0 <= at,
        lo + at + n <= hi <= s.len(),
    ensures
        little(s.subrange(lo, hi), at, n) == little(s, lo + at, n),
    decreases n,
{
    if n > 0 {
        lemma_little_part(s, lo, hi, at + 1, (n - 1) as nat);
    }
}

proof fn lemma_big_part(s: Seq<u8>, lo: int, hi: int, at: int, n: nat)
    requires
        0 <= lo,
        0 <= at,
        lo + at + n <= hi <= s.len(),
    ensures
        big(s.subrange(lo, hi), at, n) == big(s, lo + at, n),
    decreases n,
{
    if n > 0 {
        lemma_big_part(s, lo, hi, at, (n - 1) as nat);
    }
}

proof fn lemma_little_bounds(s: Seq<u8>, at: int)
    ensures
        0 <= little(s, at, 2) < 0x1_0000,
        0 <= little(s, at, 4) < 0x1_0000_0000,
{
    reveal_with_fuel(little, 5);
}

/// The superblock of the volume on `disk`, at byte 1024.
pub open spec fn superblock_on(disk: Seq<u8>, sb: Superblock) -> bool {
    &&& block_device::read_at(disk, 2, 2) is Ok
    &&& superblock::fault(block_device::read_at(disk, 2, 2)->Ok_0) is None
    &&& sb.reads(block_device::read_at(disk, 2, 2)->Ok_0)
}

/// The size of a block is 1024 doubled as often as the number at byte 24 of the
/// superblock says, and that is six times at most.
pub proof fn law_block_size(disk: Seq<u8>, sb: Superblock)
    requires
        superblock_on(disk, sb),
    ensures
        0 <= little(disk, 1048, 4) <= 6,
        sb.block_size == 1024 * pow2(little(disk, 1048, 4) as nat),
{
    let s = block_device::read_at(disk, 2, 2)->Ok_0;
    law_numbers(s, 24);
    lemma_little_part(disk, 1024, 2048, 24, 4);
    lemma_little_bounds(disk, 1048);
    vstd::arithmetic::power2::lemma2_to64();
}

/// Volumes whose exponents differ by one have blocks of which one is twice as large as
/// the other, and only those with the same exponent have blocks of one size.
pub proof fn law_block_sizes(d1: Seq<u8>, s1: Superblock, d2: Seq<u8>, s2: Superblock)
    requires
        superblock_on(d1, s1),
        superblock_on(d2, s2),
    ensures
        little(d2, 1048, 4) == little(d1, 1048, 4) + 1 ==> s2.block_size == 2 * s1.block_size,
        little(d1, 1048, 4) < little(d2, 1048, 4) ==> s1.block_size < s2.block_size,
        s1.block_size == s2.block_size <==> little(d1, 1048, 4) == little(d2, 1048, 4),
{
    law_block_size(d1, s1);
    law_block_size(d2, s2);
    vstd::arithmetic::power2::lemma2_to64();
}

/// The counts and sizes of a volume are the numbers in its superblock.
pub proof fn law_geometry(disk: Seq<u8>, sb: Superblock)
    requires
        superblock_on(disk, sb),
    ensures
        sb.inodes_count == little(disk, 1024, 4),
        sb.blocks_count == little(disk, 1028, 4) + 0x1_0000_0000 * little(disk, 1360, 4),
        sb.first_data_block == little(disk, 1044, 4),
        sb.blocks_per_group == little(disk, 1056, 4),
        sb.inodes_per_group == little(disk, 1064, 4),
        sb.state == little(disk, 1082, 2),
        sb.feature_incompat == little(disk, 1120, 4),
        sb.feature_ro_compat == little(disk, 1124, 4),
        little(disk, 1278, 2) >= 32 ==> sb.desc_size == little(disk, 1278, 2),
        little(disk, 1278, 2) < 32 ==> sb.desc_size == 32,
        little(disk, 1088, 4) > 0 && little(disk, 1112, 2) >= 128 ==> sb.inode_size == little(
            disk,
            1112,
            2,
        ),
        little(disk, 1088, 4) == 0 || little(disk, 1112, 2) < 128 ==> sb.inode_size == 128,
        forall|i: int| 0 <= i < 16 ==> #[trigger] sb.uuid@[i] == disk[1128 + i],
{
    let s = block_device::read_at(disk, 2, 2)->Ok_0;
    assert forall|at: int, n: nat| 0 <= at && at + n <= 1024 implies #[trigger] little(s, at, n)
        == little(disk, 1024 + at, n) by {
        lemma_little_part(disk, 1024, 2048, at, n);
    }
    lemma_little_bounds(s, 4);
    lemma_little_bounds(s, 64);
    law_numbers(s, 0);
    law_numbers(s, 4);
    law_numbers(s, 20);
    law_numbers(s, 32);
    law_numbers(s, 40);
    law_numbers(s, 58);
    law_numbers(s, 64);
    law_numbers(s, 88);
    law_numbers(s, 96);
    law_numbers(s, 100);
    law_numbers(s, 254);
    law_numbers(s, 336);
}

/// The sizes of an inode record that are accepted: 128 doubled three times at most. Where
/// the volume has no such number, or a smaller one, the record is 128 bytes long.
pub open spec fn record_size_ok(revision: int, n: int) -> bool {
    revision == 0 || n < 128 || exists|k: nat| k <= 3 && n == 128 * #[trigger] pow2(k)
}

/// A superblock is refused for a wrong magic number, for inline data or encryption
/// (bits 15 and 16 of the features), for blocks of over 64 KiB, for records of another
/// size than those accepted, and for empty groups; for the first of these that holds,
/// and for nothing else.
pub proof fn law_superblock_refused(s: Seq<u8>)
    ensures
        little(s, 56, 2) != 0xEF53 <==> superblock::fault(s) matches Some(
            SuperblockError::BadMagic(_),
        ),
        superblock::fault(s) matches Some(SuperblockError::BadMagic(m)) ==> m == little(s, 56, 2),
        superblock::fault(s) is None <==> little(s, 56, 2) == 0xEF53 && little(s, 96, 4) / 0x8000
            % 4 == 0 && little(s, 24, 4) <= 6 && record_size_ok(
            little(s, 64, 4),
            little(s, 88, 2),
        ) && little(s, 40, 4) > 0 && little(s, 32, 4) > 0,
{
    law_numbers(s, 24);
    law_numbers(s, 32);
    law_numbers(s, 40);
    law_numbers(s, 56);
    law_numbers(s, 64);
    law_numbers(s, 88);
    law_numbers(s, 96);
    lemma_little_bounds(s, 32);
    lemma_little_bounds(s, 40);
    let f = bytes::le32(s, 96);
    assert(f & (0x10000u32 | 0x8000u32) == 0 <==> f / 0x8000 % 4 == 0) by (bit_vector);
    vstd::arithmetic::power2::lemma2_to64();
    let n = little(s, 88, 2);
    if n == 128 || n == 256 || n == 512 || n == 1024 {
        let k: nat = if n == 128 {
            0
        } else if n == 256 {
            1
        } else if n == 512 {
            2
        } else {
            3
        };
        assert(n == 128 * pow2(k));
    }
    if exists|k: nat| k <= 3 && n == 128 * #[trigger] pow2(k) {
        let k = choose|k: nat| k <= 3 && n == 128 * #[trigger] pow2(k);
        assert(k == 0 || k == 1 || k == 2 || k == 3);
    }
}

/// First byte of the descriptor of `group` on the device: the table starts in the
/// block behind that of the superblock.
pub open spec fn desc_byte(sb: Superblock, group: int) -> int {
    (sb.first_data_block + 1) * sb.block_size + group * sb.desc_size
}

/// A number in a group's descriptor of which the low half, of two or four bytes, stands
/// at `lo` and the high half at `hi`. A descriptor of less than 64 bytes has no high halves.
pub open spec fn halves(disk: Seq<u8>, sb: Superblock, at: int, lo: int, hi: int, n: nat) -> int {
    if sb.desc_size >= 64 {
        little(disk, at + lo, n) + (if n == 2 {
            0x1_0000 * little(disk, at + hi, 2)
        } else {
            0x1_0000_0000 * little(disk, at + hi, 4)
        })
    } else {
        little(disk, at + lo, n)
    }
}

proof fn lemma_table_start(sb: Superblock)
    requires
        sb.wf(),
    ensures
        512 * group_desc::table_start(sb) == (sb.first_data_block + 1) * sb.block_size,
{
    let a = sb.first_data_block + 1;
    let b = sb.block_size as int / 512;
    assert(sb.block_size == 512 * b);
    assert(512 * (a * b) == a * (512 * b)) by (nonlinear_arith);
}

proof fn lemma_desc_bytes(disk: Seq<u8>, sb: Superblock, g: Seq<GroupDesc>, i: int, off: int, n: nat)
    requires
        sb.wf(),
        group_desc::loaded(disk, sb) == Ok::<Seq<GroupDesc>, GroupDescError>(g),
        0 <= i < g.len(),
        0 <= off,
        off + n <= 64,
        off + n <= sb.desc_size,
    ensures
        little(
            group_desc::desc_bytes(
                block_device::read_at(
                    disk,
                    group_desc::table_start(sb),
                    group_desc::table_sectors(sb, g.len() as int),
                )->Ok_0,
                sb.desc_size,
                i,
            ),
            off,
            n,
        ) == little(disk, desc_byte(sb, i) + off, n),
    decreases n,
{
    if n > 0 {
        let w = sb.desc_size as int;
        let t = group_desc::table_start(sb);
        let k = group_desc::table_sectors(sb, g.len() as int);
        lemma_table_start(sb);
        assert(i * w + w <= g.len() * w && 0 <= i * w) by (nonlinear_arith)
            requires
                0 <= i < g.len(),
                w > 0,
        ;
        assert(g.len() * w <= 512 * k);
        assert(k > 0);
        lemma_desc_bytes(disk, sb, g, i, off + 1, (n - 1) as nat);
        let s = block_device::read_at(disk, t, k)->Ok_0;
        assert(s == disk.subrange(512 * t, 512 * (t + k)));
        assert(0 <= t) by (nonlinear_arith)
            requires
                t == (sb.first_data_block + 1) * (sb.block_size as int / 512),
                sb.block_size >= 512,
        ;
        assert(s[i * w + off] == disk[512 * t + (i * w + off)]);
    }
}

/// Where each group keeps its bitmaps and its inodes, and what is free in it, is what
/// its descriptor on the device says.
pub proof fn law_group_described(disk: Seq<u8>, sb: Superblock, g: Seq<GroupDesc>, i: int)
    requires
        sb.wf(),
        group_desc::loaded(disk, sb) == Ok::<Seq<GroupDesc>, GroupDescError>(g),
        0 <= i < g.len(),
    ensures
        g[i].block_bitmap == halves(disk, sb, desc_byte(sb, i), 0, 32, 4),
        g[i].inode_bitmap == halves(disk, sb, desc_byte(sb, i), 4, 36, 4),
        g[i].inode_table == halves(disk, sb, desc_byte(sb, i), 8, 40, 4),
        g[i].free_blocks_count == halves(disk, sb, desc_byte(sb, i), 12, 44, 2),
        g[i].free_inodes_count == halves(disk, sb, desc_byte(sb, i), 14, 46, 2),
        g[i].itable_unused == halves(disk, sb, desc_byte(sb, i), 28, 50, 2),
{
    let s = block_device::read_at(
        disk,
        group_desc::table_start(sb),
        group_desc::table_sectors(sb, g.len() as int),
    )->Ok_0;
    let d = group_desc::desc_bytes(s, sb.desc_size, i);
    assert forall|off: int, n: nat| 0 <= off && off + n <= 64 && off + n <= sb.desc_size implies
        #[trigger] little(d, off, n) == little(disk, desc_byte(sb, i) + off, n) by {
        lemma_desc_bytes(disk, sb, g, i, off, n);
    }
    law_numbers(d, 0);
    law_numbers(d, 4);
    law_numbers(d, 8);
    law_numbers(d, 12);
    law_numbers(d, 14);
    law_numbers(d, 28);
    law_numbers(d, 32);
    law_numbers(d, 36);
    law_numbers(d, 40);
    law_numbers(d, 44);
    law_numbers(d, 46);
    law_numbers(d, 50);
}

/// There are as many groups as it takes to hold all blocks: the last one may be short,
/// and none is empty.
pub proof fn law_groups_hold_blocks(disk: Seq<u8>, sb: Superblock, g: Seq<GroupDesc>)
    requires
        group_desc::loaded(disk, sb) == Ok::<Seq<GroupDesc>, GroupDescError>(g),
    ensures
        g.len() * sb.blocks_per_group >= sb.blocks_count,
        g.len() > 0 ==> (g.len() - 1) * sb.blocks_per_group < sb.blocks_count,
{
    let a = sb.blocks_count as int;
    let b = sb.blocks_per_group as int;
    let n = g.len() as int;
    assert(b > 0);
    assert(n == bytes::ceil_div(a, b));
    assert(n * b >= a && (n - 1) * b < a) by (nonlinear_arith)
        requires
            n == (if a % b == 0 {
                a / b
            } else {
                a / b + 1
            }),
            b > 0,
            a >= 0,
    ;
}

/// First byte of the record of inode `num` on the device: inodes are counted from one,
/// and those of a group stand in its table in order.
pub open spec fn record_byte(sb: Superblock, g: Seq<GroupDesc>, num: u32) -> int {
    let group = (num - 1) / sb.inodes_per_group as int;
    g[group].inode_table * sb.block_size + (num - 1 - group * sb.inodes_per_group)
        * sb.inode_size
}

/// An inode is what its record on the device says. One that carries a deletion time
/// cannot be read.
pub proof fn law_inode_read(disk: Seq<u8>, sb: Superblock, g: Seq<GroupDesc>, num: u32)
    requires
        sb.wf(),
        inode::inode_at(disk, sb, g, num) is Ok,
    ensures
        0 < num <= sb.inodes_count,
        ({
            let i = inode::inode_at(disk, sb, g, num)->Ok_0;
            let at = record_byte(sb, g, num);
            &&& 0 <= at
            &&& at + 128 <= disk.len()
            &&& little(disk, at + 20, 4) == 0
            &&& i.mode == little(disk, at, 2)
            &&& i.uid == little(disk, at + 2, 2) + 0x1_0000 * little(disk, at + 120, 2)
            &&& i.gid == little(disk, at + 24, 2) + 0x1_0000 * little(disk, at + 122, 2)
            &&& i.size == little(disk, at + 4, 4) + 0x1_0000_0000 * little(disk, at + 108, 4)
            &&& i.atime == little(disk, at + 8, 4)
            &&& i.ctime == little(disk, at + 12, 4)
            &&& i.mtime == little(disk, at + 16, 4)
            &&& i.links_count == little(disk, at + 26, 2)
            &&& i.flags == little(disk, at + 32, 4)
            &&& i.block_data == disk.subrange(at + 40, at + 100)
        }),
{
    let d = g[inode::group_of(sb, num)];
    let at = inode::slot_byte(sb, d, num);
    let w = sb.inodes_per_group as int;
    let x = num - 1;
    assert(x % w == x - (x / w) * w) by (nonlinear_arith)
        requires
            w > 0,
    ;
    assert(0 <= x % w);
    assert(at == record_byte(sb, g, num));
    assert(0 <= at) by (nonlinear_arith)
        requires
            at == d.inode_table * sb.block_size + (x % w) * sb.inode_size,
            0 <= x % w,
    ;
    let k = bytes::ceil_div(at % 512 + sb.inode_size, 512);
    assert(k > 0 && 512 * k >= at % 512 + sb.inode_size);
    let s = block_device::read_at(disk, at / 512, k)->Ok_0;
    let rec = inode::record_at(disk, sb, at)->Ok_0;
    assert(rec =~= disk.subrange(at, at + 128));
    assert forall|off: int, n: nat| 0 <= off && off + n <= 128 implies #[trigger] little(
        rec,
        off,
        n,
    ) == little(disk, at + off, n) by {
        lemma_little_part(disk, at, at + 128, off, n);
    }
    law_numbers(rec, 0);
    law_numbers(rec, 2);
    law_numbers(rec, 4);
    law_numbers(rec, 8);
    law_numbers(rec, 12);
    law_numbers(rec, 16);
    law_numbers(rec, 20);
    law_numbers(rec, 24);
    law_numbers(rec, 26);
    law_numbers(rec, 32);
    law_numbers(rec, 108);
    law_numbers(rec, 120);
    law_numbers(rec, 122);
    assert(inode::inode_at(disk, sb, g, num)->Ok_0.block_data =~= disk.subrange(
        at + 40,
        at + 100,
    ));
}

/// An inode that is in range, whose record lies on the device and carries no deletion
/// time, can be read.
pub proof fn law_inode_readable(disk: Seq<u8>, sb: Superblock, g: Seq<GroupDesc>, num: u32)
    requires
        sb.wf(),
        0 < num <= sb.inodes_count,
        (num - 1) / (sb.inodes_per_group as int) < g.len(),
        disk.len() % 512 == 0,
        record_byte(sb, g, num) + sb.inode_size <= disk.len(),
        record_byte(sb, g, num) <= u64::MAX,
        little(disk, record_byte(sb, g, num) + 20, 4) == 0,
    ensures
        inode::inode_at(disk, sb, g, num) is Ok,
{
    let d = g[inode::group_of(sb, num)];
    let at = inode::slot_byte(sb, d, num);
    let w = sb.inodes_per_group as int;
    let x = num - 1;
    assert(x % w == x - (x / w) * w && 0 <= x / w) by (nonlinear_arith)
        requires
            w > 0,
            x >= 0,
    ;
    assert(0 <= x % w);
    assert(at == record_byte(sb, g, num));
    assert(0 <= at) by (nonlinear_arith)
        requires
            at == d.inode_table * sb.block_size + (x % w) * sb.inode_size,
            0 <= x % w,
    ;
    let k = bytes::ceil_div(at % 512 + sb.inode_size, 512);
    assert(0 < k <= 4 && 512 * k < at % 512 + sb.inode_size + 512);
    let rec = inode::record_at(disk, sb, at)->Ok_0;
    assert(rec =~= disk.subrange(at, at + 128));
    lemma_little_part(disk, at, at + 128, 20, 4);
    law_numbers(rec, 20);
}

/// The upper four bits of the mode tell what a file is.
pub proof fn law_file_type(mode: u16)
    ensures
        inode::file_type_of(mode) is Regular <==> mode / 0x1000 == 8,
        inode::file_type_of(mode) is Directory <==> mode / 0x1000 == 4,
        inode::file_type_of(mode) is Symlink <==> mode / 0x1000 == 10,
{
    assert(mode & 0xF000 == 0x8000 <==> mode / 0x1000 == 8) by (bit_vector);
    assert(mode & 0xF000 == 0x4000 <==> mode / 0x1000 == 4) by (bit_vector);
    assert(mode & 0xF000 == 0xA000 <==> mode / 0x1000 == 10) by (bit_vector);
}

/// What is kept of the journal's superblock `s` are the numbers in it: the number of
/// the first transaction of the log, and where in the journal that starts, among them.
pub open spec fn journal_says(j: JournalSuperblock, s: Seq<u8>) -> bool {
    &&& j.block_size == big(s, 12, 4)
    &&& j.total_blocks == big(s, 16, 4)
    &&& j.first_usable_block == big(s, 20, 4)
    &&& j.start_sequence == big(s, 24, 4)
    &&& j.start_block == big(s, 28, 4)
    &&& j.errno == 0 <==> big(s, 32, 4) == 0
    &&& j.feature_incompat == big(s, 40, 4)
    &&& forall|i: int| 0 <= i < 16 ==> #[trigger] j.uuid@[i] == s[48 + i]
}

/// A journal superblock is read as what its bytes say.
pub proof fn law_journal_superblock(j: JournalSuperblock, raw: RawJournalSuperblock, s: Seq<u8>)
    requires
        s.len() == 1024,
        raw.reads(s),
        j.keeps(raw),
    ensures
        journal_says(j, s),
        raw.h_magic == big(s, 0, 4),
{
    law_numbers(s, 0);
    law_numbers(s, 12);
    law_numbers(s, 16);
    law_numbers(s, 20);
    law_numbers(s, 24);
    law_numbers(s, 28);
    law_numbers(s, 32);
    law_numbers(s, 40);
    let e = bytes::be32(s, 32);
    assert(e as i32 == 0 <==> e == 0) by (bit_vector);
}

/// A journal that is loaded from a device is what the first of its blocks says.
pub proof fn law_journal_loaded(disk: Seq<u8>, sb: Superblock, g: Seq<GroupDesc>, j: Journal)
    requires
        sb.wf(),
        j.is_on(disk, sb, g),
    ensures
        j.blocks@.len() > 0,
        block_device::block_at(disk, sb.block_size, j.blocks@[0]) is Ok,
        journal_says(j.sb, block_device::block_at(disk, sb.block_size, j.blocks@[0])->Ok_0),
        big(block_device::block_at(disk, sb.block_size, j.blocks@[0])->Ok_0, 0, 4) == 0xC03B3998,
        0 < j.sb.first_usable_block < j.sb.total_blocks,
{
    let s = block_device::block_at(disk, sb.block_size, j.blocks@[0])->Ok_0;
    law_numbers(s, 0);
    law_numbers(s, 12);
    law_numbers(s, 16);
    law_numbers(s, 20);
    law_numbers(s, 24);
    law_numbers(s, 28);
    law_numbers(s, 32);
    law_numbers(s, 40);
    let e = bytes::be32(s, 32);
    assert(e as i32 == 0 <==> e == 0) by (bit_vector);
}

/// A journal superblock into which a log's start and the number of its first
/// transaction were written is loaded with these, whatever they are.
pub proof fn law_tail_is_loaded(b: Seq<u8>, start: u32, sequence: u32, j: JournalSuperblock)
    requires
        b.len() >= 1024,
        journal::superblock_reads(j, journal::replay::with_tail(b, start, sequence)),
    ensures
        j.start_block == start,
        j.start_sequence == sequence,
        j.clean() <==> start == 0,
        forall|i: int|
            0 <= i < b.len() && !(24 <= i < 32) ==> #[trigger] journal::replay::with_tail(
                b,
                start,
                sequence,
            )[i] == b[i],
        b.len() == journal::replay::with_tail(b, start, sequence).len(),
{
    broadcast use crate::bytes::group_codec;

}

/// The descriptor of a group that is written back lies where it is loaded from: in the block
/// that is said to hold it, at the place that is said to be its own there.
pub proof fn law_descriptor_place(sb: Superblock, group: int)
    requires
        sb.wf(),
        0 <= group,
        desc_byte(sb, group) <= u64::MAX,
    ensures
        crate::allocator::block_alloc::gdt_block(sb, group) * sb.block_size
            + group_desc::desc_offset(sb, group) == desc_byte(sb, group),
        0 <= group_desc::desc_offset(sb, group) < sb.block_size,
{
    let bs = sb.block_size as int;
    let x = group * sb.desc_size;
    assert(x >= 0) by (nonlinear_arith)
        requires
            x == group * sb.desc_size,
            group >= 0,
    ;
    vstd::arithmetic::div_mod::lemma_fundamental_div_mod(x, bs);
    vstd::arithmetic::div_mod::lemma_mod_bound(x, bs);
    vstd::arithmetic::div_mod::lemma_div_pos_is_pos(x, bs);
    let q = x / bs;
    let f = sb.first_data_block + 1;
    assert((f + q) * bs == f * bs + bs * q && f + q <= (f + q) * bs) by (nonlinear_arith)
        requires
            f >= 0,
            q >= 0,
            bs >= 1,
    ;
}

/// After a checkpoint the journal's superblock says that the log starts with the next
/// transaction, in the first block of the ring; the rest of it is as it was.
pub proof fn law_tail_advanced(s: journal::writer::LogState)
    requires
        block_device::sectored(s.w.bs),
        s.disk.len() % 512 == 0,
        journal::writer::tail_advanced(s).1 is Ok,
    ensures
        ({
            let d = journal::writer::tail_advanced(s).0.disk;
            let a = block_device::block_at(s.disk, s.w.bs, s.w.blocks[0]);
            let b = block_device::block_at(d, s.w.bs, s.w.blocks[0]);
            &&& a is Ok
            &&& b is Ok
            &&& big(b->Ok_0, 24, 4) == s.w.sequence
            &&& big(b->Ok_0, 28, 4) == s.w.first
            &&& forall|i: int|
                0 <= i < s.w.bs && !(24 <= i < 32) ==> #[trigger] b->Ok_0[i] == a->Ok_0[i]
            &&& forall|c: u64|
                c != s.w.blocks[0] ==> #[trigger] block_device::block_at(d, s.w.bs, c)
                    == block_device::block_at(s.disk, s.w.bs, c)
        }),
{
    let bs = s.w.bs;
    let home = s.w.blocks[0];
    let a = block_device::block_at(s.disk, bs, home)->Ok_0;
    let b = journal::replay::with_tail(a, s.w.first, s.w.sequence);
    block_device::lemma_block_at(s.disk, bs, home);
    block_device::lemma_block_write_read(s.disk, bs, home, b, home);
    law_numbers(b, 24);
    law_numbers(b, 28);
    assert(bytes::be32(b, 24) == s.w.sequence && bytes::be32(b, 28) == s.w.first && b.len()
        == bs) by {
        broadcast use crate::bytes::group_codec;

    }
    assert forall|i: int| 0 <= i < bs && !(24 <= i < 32) implies #[trigger] b[i] == a[i] by {
        broadcast use crate::bytes::group_codec;

    }
    let d = journal::writer::tail_advanced(s).0.disk;
    assert forall|c: u64| c != home implies #[trigger] block_device::block_at(d, bs, c)
        == block_device::block_at(s.disk, bs, c) by {
        block_device::lemma_block_write_read(s.disk, bs, home, b, c);
    }
}

} // verus!
