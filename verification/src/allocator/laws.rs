//! What allocating and freeing promise together.
use vstd::prelude::*;
use super::bits;
use super::block_alloc;
use super::block_bitmap;
use super::inode_alloc;
use super::inode_bitmap;
use super::AllocError;
use crate::block_device;
use crate::block_device::BlockDeviceError;
use crate::bytes;
use crate::fs_state;
use crate::fs_state::FsState;
use crate::group_desc;
use crate::group_desc::GroupDesc;
use crate::inode;
use crate::superblock::Superblock;

verus! {

broadcast use crate::bytes::group_codec;

/// Whether no block of the descriptor table is a bitmap.
pub open spec fn table_apart(gdt: Seq<GroupDesc>, sb: Superblock) -> bool {
    forall|g: int, h: int| #![trigger block_alloc::gdt_block(sb, g), gdt[h]]
        0 <= g < gdt.len() && 0 <= h < gdt.len() ==> block_alloc::gdt_block(sb, g)
            != gdt[h].block_bitmap && block_alloc::gdt_block(sb, g) != gdt[h].inode_bitmap
}

/// Whether the descriptor of each group holds its counts.
pub open spec fn tallies(st: FsState, sb: Superblock) -> bool {
    forall|g: int| 0 <= g < st.gdt.len() ==> tallies_at(st, sb, g)
}

pub open spec fn tallies_at(st: FsState, sb: Superblock, g: int) -> bool {
    let b = block_device::block_at(st.disk, sb.block_size, block_alloc::gdt_block(sb, g));
    b is Ok ==> group_desc::described(b->Ok_0, sb, g, st.gdt[g], 0) == b->Ok_0
}

/// Writing a group's counts writes the block of its descriptor, and no other.
pub proof fn lemma_tallied(st: FsState, sb: Superblock, g: int, dirs: int)
    requires
        sb.wf(),
        st.disk.len() % 512 == 0,
        block_alloc::tallied(st, sb, g, dirs).1 is Ok,
    ensures
        ({
            let s = block_alloc::tallied(st, sb, g, dirs).0;
            let b = block_alloc::gdt_block(sb, g);
            let d = block_device::block_at(st.disk, sb.block_size, b);
            let data = group_desc::described(d->Ok_0, sb, g, st.gdt[g], dirs);
            &&& d is Ok
            &&& data.len() == sb.block_size
            &&& block_device::block_write_result(st.disk, sb.block_size, b, data) is Ok
            &&& s == fs_state::store(st, sb.block_size, b, data).0
            &&& s.gdt == st.gdt
            &&& s.disk.len() == st.disk.len()
            &&& block_device::block_at(s.disk, sb.block_size, b) == Ok::<
                Seq<u8>,
                BlockDeviceError,
            >(data)
            &&& forall|c: u64|
                c != b ==> #[trigger] block_device::block_at(s.disk, sb.block_size, c)
                    == block_device::block_at(st.disk, sb.block_size, c)
        }),
{
    let bs = sb.block_size;
    let s = block_alloc::tallied(st, sb, g, dirs).0;
    let b = block_alloc::gdt_block(sb, g);
    let d = block_device::block_at(st.disk, bs, b)->Ok_0;
    let data = group_desc::described(d, sb, g, st.gdt[g], dirs);
    block_device::lemma_block_at(st.disk, bs, b);
    group_desc::lemma_described_len(d, sb, g, st.gdt[g], dirs);
    block_device::lemma_block_write_read(st.disk, bs, b, data, b);
    assert forall|c: u64|
        c != b implies #[trigger] block_device::block_at(s.disk, bs, c) == block_device::block_at(
        st.disk,
        bs,
        c,
    ) by {
        block_device::lemma_block_write_read(st.disk, bs, b, data, c);
    }
}

/// Whether the device holds whole sectors, the numbers of the volume's blocks fit
/// into 64 bits, and its descriptors lie apart from its bitmaps.
pub open spec fn fits(st: FsState, sb: Superblock) -> bool {
    &&& sb.wf()
    &&& st.disk.len() % 512 == 0
    &&& table_apart(st.gdt, sb)
    &&& sb.first_data_block + st.gdt.len() * sb.blocks_per_group <= u64::MAX
}

/// Whether `s` is `st` with the `count` blocks from block `k` of group `g` on
/// taken: they were free, they are used now, no other block's state changed, and
/// nothing else on the device did but the group's counts.
pub open spec fn took(st: FsState, s: FsState, sb: Superblock, g: int, k: int, count: int) -> bool {
    &&& 0 <= g < st.gdt.len()
    &&& 0 <= k
    &&& k + count <= sb.blocks_per_group
    &&& block_bitmap::loaded(st.disk, sb, st.gdt, g) is Ok
    &&& block_bitmap::loaded(s.disk, sb, s.gdt, g) is Ok
    &&& ({
        let before = block_bitmap::loaded(st.disk, sb, st.gdt, g)->Ok_0;
        let after = block_bitmap::loaded(s.disk, sb, s.gdt, g)->Ok_0;
        &&& k + count <= 8 * before.len()
        &&& after.len() == before.len()
        &&& forall|i: int| k <= i < k + count ==> !#[trigger] bits::bit(before, i)
        &&& forall|i: int|
            0 <= i < 8 * after.len() ==> #[trigger] bits::bit(after, i) == (k <= i < k + count
                || bits::bit(before, i))
        &&& (s.disk, Ok::<(), AllocError>(())) == ({
            let (x, r) = block_alloc::tallied(
                FsState {
                    disk: block_device::with_block(
                        st.disk,
                        sb.block_size,
                        st.gdt[g].block_bitmap,
                        after,
                    ),
                    txn: st.txn,
                    gdt: s.gdt,
                },
                sb,
                g,
                0,
            );
            (x.disk, r)
        })
    })
    &&& st.gdt[g].free_blocks_count >= count
    &&& s.gdt == group_desc::with_free_blocks(st.gdt, g, -count)
}

/// An allocation hands out blocks that were free, in a row inside one group,
/// and marks exactly those as used.
pub proof fn law_allocated(st: FsState, sb: Superblock, count: u32, hint: u64) -> (r: (int, int))
    requires
        fits(st, sb),
        block_alloc::allocated(st, sb, count, hint).1 is Ok,
    ensures
        took(st, block_alloc::allocated(st, sb, count, hint).0, sb, r.0, r.1, count as int),
        block_alloc::allocated(st, sb, count, hint).1->Ok_0 == sb.first_data_block + r.0
            * sb.blocks_per_group + r.1,
{
    lemma_allocated_from(st, sb, count, hint, 0)
}

proof fn lemma_allocated_from(st: FsState, sb: Superblock, count: u32, hint: u64, i: int) -> (r: (
    int,
    int,
))
    requires
        fits(st, sb),
        0 <= i,
        block_alloc::allocated_from(st, sb, count, hint, i).1 is Ok,
    ensures
        took(st, block_alloc::allocated_from(st, sb, count, hint, i).0, sb, r.0, r.1, count as int),
        block_alloc::allocated_from(st, sb, count, hint, i).1->Ok_0 == sb.first_data_block + r.0
            * sb.blocks_per_group + r.1,
    decreases st.gdt.len() - i,
{
    let n = st.gdt.len() as int;
    let g = block_alloc::nth_group(hint as int / sb.blocks_per_group as int, i, n);
    vstd::arithmetic::div_mod::lemma_mod_bound(
        (hint as int / sb.blocks_per_group as int) % n + i,
        n,
    );
    if st.gdt[g].free_blocks_count < count {
        lemma_allocated_from(st, sb, count, hint, i + 1)
    } else {
        let bm = block_bitmap::loaded(st.disk, sb, st.gdt, g)->Ok_0;
        block_device::lemma_block_at(st.disk, sb.block_size, st.gdt[g].block_bitmap);
        match bits::first_run(bm, count as int, sb.blocks_per_group as int) {
            None => lemma_allocated_from(st, sb, count, hint, i + 1),
            Some(k) => {
                lemma_first_run_is(bm, count as int, sb.blocks_per_group as int);
                lemma_taken(st, sb, g, bm, k, count);
                (g, k as int)
            },
        }
    }
}

/// The run that is found is the lowest.
pub proof fn lemma_first_run_is(bm: Seq<u8>, n: int, limit: int)
    requires
        bits::first_run(bm, n, limit) is Some,
        limit <= u32::MAX,
        n >= 0,
    ensures
        bits::is_first_run(bm, n, limit, bits::first_run(bm, n, limit)->Some_0 as int),
{
    let k = choose|k: int| bits::is_first_run(bm, n, limit, k);
    assert(bits::is_first_run(bm, n, limit, k));
}

proof fn lemma_taken(st: FsState, sb: Superblock, g: int, bm: Seq<u8>, k: u32, count: u32)
    requires
        fits(st, sb),
        0 <= g < st.gdt.len(),
        block_bitmap::loaded(st.disk, sb, st.gdt, g) == Ok::<Seq<u8>, AllocError>(bm),
        bits::is_first_run(bm, count as int, sb.blocks_per_group as int, k as int),
        st.gdt[g].free_blocks_count >= count,
        block_alloc::taken(st, sb, g, bm, k, count).1 is Ok,
    ensures
        took(st, block_alloc::taken(st, sb, g, bm, k, count).0, sb, g, k as int, count as int),
        block_alloc::taken(st, sb, g, bm, k, count).1->Ok_0 == sb.first_data_block + g
            * sb.blocks_per_group + k,
{
    let b = st.gdt[g].block_bitmap;
    let after = bits::with_run(bm, k as int, count as int);
    block_device::lemma_block_at(st.disk, sb.block_size, b);
    bits::lemma_run(bm, k as int, count as int, 0);
    block_device::lemma_block_write_read(st.disk, sb.block_size, b, after, b);
    let s1 = block_alloc::stored(st, sb, b, after).0;
    let s2 = FsState { gdt: group_desc::with_free_blocks(s1.gdt, g, -(count as int)), ..s1 };
    lemma_tallied(s2, sb, g, 0);
    assert(block_alloc::gdt_block(sb, g) != st.gdt[g].block_bitmap);
    assert forall|i: int| 0 <= i < 8 * after.len() implies #[trigger] bits::bit(after, i) == (k <= i
        < k + count || bits::bit(bm, i)) by {
        bits::lemma_run(bm, k as int, count as int, i);
    }
    assert(g * sb.blocks_per_group + sb.blocks_per_group <= st.gdt.len() * sb.blocks_per_group)
        by (nonlinear_arith)
        requires
            g + 1 <= st.gdt.len(),
            sb.blocks_per_group > 0,
    ;
    assert(g * sb.blocks_per_group >= 0) by (nonlinear_arith)
        requires
            g >= 0,
            sb.blocks_per_group > 0,
    ;
}

/// Blocks that are handed out one after the other are never the same.
pub proof fn law_allocated_twice(
    st: FsState,
    sb: Superblock,
    count: u32,
    hint: u64,
    count2: u32,
    hint2: u64,
)
    requires
        fits(st, sb),
        block_alloc::allocated(st, sb, count, hint).1 is Ok,
        block_alloc::allocated(
            block_alloc::allocated(st, sb, count, hint).0,
            sb,
            count2,
            hint2,
        ).1 is Ok,
    ensures
        ({
            let (s, r) = block_alloc::allocated(st, sb, count, hint);
            let (s2, r2) = block_alloc::allocated(s, sb, count2, hint2);
            r->Ok_0 + count <= r2->Ok_0 || r2->Ok_0 + count2 <= r->Ok_0 || count == 0 || count2
                == 0
        }),
{
    let (s, r) = block_alloc::allocated(st, sb, count, hint);
    let (g, k) = law_allocated(st, sb, count, hint);
    let (g2, k2) = law_allocated(s, sb, count2, hint2);
    let n = sb.blocks_per_group as int;
    if g == g2 {
        let mid = block_bitmap::loaded(s.disk, sb, s.gdt, g)->Ok_0;
        if count > 0 && count2 > 0 && k < k2 + count2 && k2 < k + count {
            let i = if k < k2 {
                k2
            } else {
                k
            };
            assert(bits::bit(mid, i));
        }
    } else if g < g2 {
        assert(g * n + n <= g2 * n) by (nonlinear_arith)
            requires
                g < g2,
                n > 0,
        ;
    } else {
        assert(g2 * n + n <= g * n) by (nonlinear_arith)
            requires
                g2 < g,
                n > 0,
        ;
    }
}

/// Freeing a block that was just allocated leaves the device and the counts as
/// they were, the group's descriptor too where it held the counts.
pub proof fn law_alloc_then_free(st: FsState, sb: Superblock, hint: u64)
    requires
        fits(st, sb),
        tallies(st, sb),
        block_alloc::allocated(st, sb, 1, hint).1 is Ok,
    ensures
        ({
            let (s, r) = block_alloc::allocated(st, sb, 1, hint);
            let (f, x) = block_alloc::freed(s, sb, r->Ok_0);
            &&& x is Ok
            &&& f.disk == st.disk
            &&& f.gdt == st.gdt
        }),
{
    let (s, r) = block_alloc::allocated(st, sb, 1, hint);
    let (g, k) = law_allocated(st, sb, 1, hint);
    let n = sb.blocks_per_group as int;
    let b = r->Ok_0 - sb.first_data_block;
    vstd::arithmetic::div_mod::lemma_fundamental_div_mod_converse(b, n, g, k);
    let before = block_bitmap::loaded(st.disk, sb, st.gdt, g)->Ok_0;
    let after = block_bitmap::loaded(s.disk, sb, s.gdt, g)->Ok_0;
    let at = st.gdt[g].block_bitmap;
    assert(bits::bit(after, k));
    assert(bits::without_bit(after, k) =~= before) by {
        lemma_same_bits(bits::without_bit(after, k), before, after, k);
    }
    block_device::lemma_block_at(st.disk, sb.block_size, at);
    block_device::lemma_block_at(s.disk, sb.block_size, at);
    assert(group_desc::with_free_blocks(s.gdt, g, 1) =~= st.gdt);
    let bs = sb.block_size;
    let gb = block_alloc::gdt_block(sb, g);
    assert(gb != at);
    let s1 = FsState {
        disk: block_device::with_block(st.disk, bs, at, after),
        txn: st.txn,
        gdt: s.gdt,
    };
    lemma_tallied(s1, sb, g, 0);
    block_device::lemma_block_write_read(st.disk, bs, at, after, gb);
    let d0 = block_device::block_at(st.disk, bs, gb)->Ok_0;
    let d1 = group_desc::described(d0, sb, g, s.gdt[g], 0);
    let s2 = FsState {
        gdt: st.gdt,
        ..fs_state::revoke(block_alloc::stored(s, sb, at, before).0, r->Ok_0)
    };
    block_device::lemma_block_write_read(s.disk, bs, at, before, gb);
    group_desc::lemma_described_twice(d0, sb, g, s.gdt[g], st.gdt[g]);
    assert(tallies_at(st, sb, g));
    block_device::lemma_block_at(st.disk, bs, gb);
    block_device::lemma_block_at(s1.disk, bs, gb);
    block_device::lemma_block_at(s.disk, bs, gb);
    block_device::lemma_block_at(s2.disk, bs, gb);
    if at < gb {
        assert(at * bs + bs <= gb * bs) by (nonlinear_arith)
            requires
                at < gb,
        ;
    } else {
        assert(gb * bs + bs <= at * bs) by (nonlinear_arith)
            requires
                gb < at,
        ;
    }
    let f = block_device::with_block(s2.disk, bs, gb, d0);
    assert(f =~= st.disk);
    group_desc::lemma_described_len(d1, sb, g, st.gdt[g], 0);
}

/// Two byte strings that agree in every bit are the same.
proof fn lemma_same_bits(a: Seq<u8>, before: Seq<u8>, after: Seq<u8>, k: int)
    requires
        after.len() == before.len(),
        0 <= k < 8 * before.len(),
        a == bits::without_bit(after, k),
        !bits::bit(before, k),
        forall|i: int|
            0 <= i < 8 * after.len() ==> #[trigger] bits::bit(after, i) == (i == k || bits::bit(
                before,
                i,
            )),
    ensures
        a =~= before,
{
    assert forall|j: int| 0 <= j < before.len() implies a[j] == before[j] by {
        assert forall|i: int| 8 * j <= i < 8 * j + 8 implies #[trigger] bits::bit(a, i)
            == bits::bit(before, i) by {
            bits::lemma_bit(after, k, i);
        }
        bits::lemma_byte(a, before, j);
    }
}

/// A block that was freed cannot be freed again.
pub proof fn law_double_free(st: FsState, sb: Superblock, b: u64)
    requires
        fits(st, sb),
        block_alloc::freed(st, sb, b).1 is Ok,
    ensures
        block_alloc::freed(block_alloc::freed(st, sb, b).0, sb, b).1 == Err::<(), AllocError>(
            AllocError::DoubleFreed(b),
        ),
{
    let n = sb.blocks_per_group as int;
    let g = block_alloc::group_of(sb, b);
    let k = block_alloc::bit_of(sb, b);
    let bm = block_bitmap::loaded(st.disk, sb, st.gdt, g)->Ok_0;
    let at = st.gdt[g].block_bitmap;
    vstd::arithmetic::div_mod::lemma_mod_bound(b - sb.first_data_block, n);
    block_device::lemma_block_at(st.disk, sb.block_size, at);
    bits::lemma_bit(bm, k, k);
    block_device::lemma_block_write_read(
        st.disk,
        sb.block_size,
        at,
        bits::without_bit(bm, k),
        at,
    );
    let s1 = fs_state::revoke(block_alloc::stored(st, sb, at, bits::without_bit(bm, k)).0, b);
    lemma_tallied(
        FsState { gdt: group_desc::with_free_blocks(s1.gdt, g, 1), ..s1 },
        sb,
        g,
        0,
    );
    vstd::arithmetic::div_mod::lemma_div_pos_is_pos(b - sb.first_data_block, n);
    assert(block_alloc::gdt_block(sb, g) != st.gdt[g].block_bitmap);
}

/// An inode that is allocated was free, and is used from then on; its group
/// counts one free inode less.
pub proof fn law_inode_allocated(st: FsState, sb: Superblock, is_dir: bool, hint: int) -> (r: (
    int,
    int,
))
    requires
        fits(st, sb),
        0 <= hint,
        inode_alloc::allocated(st, sb, is_dir, hint).1 is Ok,
    ensures
        ({
            let (s, x) = inode_alloc::allocated(st, sb, is_dir, hint);
            let (g, k) = r;
            &&& 0 <= g < st.gdt.len()
            &&& 0 <= k
            &&& x->Ok_0 == inode_alloc::inode_number(sb, g, k)
            &&& inode_bitmap::loaded(st.disk, sb, st.gdt, g) is Ok
            &&& inode_bitmap::loaded(s.disk, sb, s.gdt, g) == Ok::<Seq<u8>, AllocError>(
                bits::with_bit(inode_bitmap::loaded(st.disk, sb, st.gdt, g)->Ok_0, k),
            )
            &&& k < 8 * inode_bitmap::loaded(st.disk, sb, st.gdt, g)->Ok_0.len()
            &&& !bits::bit(inode_bitmap::loaded(st.disk, sb, st.gdt, g)->Ok_0, k)
            &&& st.gdt[g].free_inodes_count > 0
            &&& s.gdt == group_desc::with_free_inodes(st.gdt, g, -1)
            &&& k <= u32::MAX
            &&& inode_alloc::allocated(st, sb, is_dir, hint) == inode_alloc::taken(
                st,
                sb,
                is_dir,
                g,
                inode_bitmap::loaded(st.disk, sb, st.gdt, g)->Ok_0,
                k as u32,
            )
        }),
{
    lemma_inode_allocated_from(st, sb, is_dir, hint, 0)
}

proof fn lemma_inode_allocated_from(
    st: FsState,
    sb: Superblock,
    is_dir: bool,
    hint: int,
    i: int,
) -> (r: (int, int))
    requires
        fits(st, sb),
        0 <= hint,
        0 <= i,
        inode_alloc::allocated_from(st, sb, is_dir, hint, i).1 is Ok,
    ensures
        ({
            let (s, x) = inode_alloc::allocated_from(st, sb, is_dir, hint, i);
            let (g, k) = r;
            &&& 0 <= g < st.gdt.len()
            &&& 0 <= k
            &&& x->Ok_0 == inode_alloc::inode_number(sb, g, k)
            &&& inode_bitmap::loaded(st.disk, sb, st.gdt, g) is Ok
            &&& inode_bitmap::loaded(s.disk, sb, s.gdt, g) == Ok::<Seq<u8>, AllocError>(
                bits::with_bit(inode_bitmap::loaded(st.disk, sb, st.gdt, g)->Ok_0, k),
            )
            &&& k < 8 * inode_bitmap::loaded(st.disk, sb, st.gdt, g)->Ok_0.len()
            &&& !bits::bit(inode_bitmap::loaded(st.disk, sb, st.gdt, g)->Ok_0, k)
            &&& st.gdt[g].free_inodes_count > 0
            &&& s.gdt == group_desc::with_free_inodes(st.gdt, g, -1)
            &&& k <= u32::MAX
            &&& inode_alloc::allocated_from(st, sb, is_dir, hint, i) == inode_alloc::taken(
                st,
                sb,
                is_dir,
                g,
                inode_bitmap::loaded(st.disk, sb, st.gdt, g)->Ok_0,
                k as u32,
            )
        }),
    decreases st.gdt.len() - i,
{
    let n = st.gdt.len() as int;
    let g = block_alloc::nth_group(hint, i, n);
    vstd::arithmetic::div_mod::lemma_mod_bound(hint % n + i, n);
    if st.gdt[g].free_inodes_count == 0 {
        lemma_inode_allocated_from(st, sb, is_dir, hint, i + 1)
    } else {
        let bm = inode_bitmap::loaded(st.disk, sb, st.gdt, g)->Ok_0;
        let at = st.gdt[g].inode_bitmap;
        block_device::lemma_block_at(st.disk, sb.block_size, at);
        match bits::first_clear(bm) {
            None => lemma_inode_allocated_from(st, sb, is_dir, hint, i + 1),
            Some(k) => {
                let c = choose|c: int| bits::is_first_clear(bm, c);
                assert(bits::is_first_clear(bm, c));
                assert(c == k);
                assert(inode_alloc::inode_number(sb, g, k as int) >= 0) by (nonlinear_arith)
                    requires
                        g >= 0,
                        sb.inodes_per_group > 0,
                        k >= 0,
                        inode_alloc::inode_number(sb, g, k as int) == g * sb.inodes_per_group + k
                            + 1,
                ;
                block_device::lemma_block_write_read(
                    st.disk,
                    sb.block_size,
                    at,
                    bits::with_bit(bm, k as int),
                    at,
                );
                let s1 = block_alloc::stored(st, sb, at, bits::with_bit(bm, k as int)).0;
                lemma_tallied(
                    FsState { gdt: group_desc::with_free_inodes(s1.gdt, g, -1), ..s1 },
                    sb,
                    g,
                    inode_alloc::dirs_of(is_dir),
                );
                assert(block_alloc::gdt_block(sb, g) != st.gdt[g].inode_bitmap);
                (g, k as int)
            },
        }
    }
}

/// Freeing an inode makes its slot free and counts it, unless the volume keeps
/// its bitmap and its record in one block.
pub proof fn law_inode_freed(st: FsState, sb: Superblock, num: u32, now: u32)
    requires
        fits(st, sb),
        num > 0,
        inode_alloc::freed(st, sb, num, now).1 is Ok,
        inode::slot_block(sb, st.gdt[inode::group_of(sb, num)], num) != st.gdt[inode::group_of(
            sb,
            num,
        )].inode_bitmap,
        inode::index_of(sb, num) < 8 * sb.block_size,
    ensures
        ({
            let s = inode_alloc::freed(st, sb, num, now).0;
            let g = inode::group_of(sb, num);
            &&& inode_bitmap::loaded(s.disk, sb, s.gdt, g) is Ok
            &&& !bits::bit(
                inode_bitmap::loaded(s.disk, sb, s.gdt, g)->Ok_0,
                inode::index_of(sb, num),
            )
            &&& s.gdt == group_desc::with_free_inodes(st.gdt, g, 1)
        }),
{
    let g = inode::group_of(sb, num);
    let k = inode::index_of(sb, num);
    let bm = inode_bitmap::loaded(st.disk, sb, st.gdt, g)->Ok_0;
    let at = st.gdt[g].inode_bitmap;
    vstd::arithmetic::div_mod::lemma_mod_bound(num - 1, sb.inodes_per_group as int);
    vstd::arithmetic::div_mod::lemma_div_pos_is_pos(num - 1, sb.inodes_per_group as int);
    block_device::lemma_block_at(st.disk, sb.block_size, at);
    bits::lemma_bit(bm, k, k);
    let d1 = bits::without_bit(bm, k);
    block_device::lemma_block_write_read(st.disk, sb.block_size, at, d1, at);
    let s1 = block_alloc::stored(st, sb, at, d1).0;
    let b = inode::slot_block(sb, st.gdt[g], num);
    block_device::lemma_block_at(s1.disk, sb.block_size, b);
    let t = block_device::block_at(s1.disk, sb.block_size, b)->Ok_0;
    block_device::lemma_block_write_read(
        s1.disk,
        sb.block_size,
        b,
        bytes::put(t, inode::slot_offset(sb, num) + 20, bytes::le32_bytes(now)),
        at,
    );
    let s2 = inode_alloc::patched(s1, sb, num, 20, bytes::le32_bytes(now)).0;
    lemma_tallied(
        FsState { gdt: group_desc::with_free_inodes(s2.gdt, g, 1), ..s2 },
        sb,
        g,
        -inode_alloc::dirs_of(inode_alloc::is_dir_at(s2.disk, sb, s2.gdt, num)),
    );
    assert(block_alloc::gdt_block(sb, g) != st.gdt[g].inode_bitmap);
}

/// A new inode's record says what it was made with: its mode, its owner and its
/// times, one link or, for a directory, two, and an empty extent tree.
pub proof fn law_fresh_inode(mode: u16, uid: u32, gid: u32, now: u32)
    ensures
        ({
            let i = inode::inode_of(inode_alloc::fresh_record(mode, uid, gid, now));
            &&& i.mode == mode
            &&& i.uid == uid
            &&& i.gid == gid
            &&& i.size == 0
            &&& i.atime == now
            &&& i.mtime == now
            &&& i.ctime == now
            &&& i.links_count == inode_alloc::first_links(mode)
            &&& i.flags == inode::EXTENTS_FL
            &&& i.block_data.take(12) == inode_alloc::empty_tree()
        }),
{
    let r = inode_alloc::fresh_record(mode, uid, gid, now);
    assert(bytes::le32(r, 4) == 0 && bytes::le32(r, 108) == 0) by {
        reveal(bytes::le32);
    }
    assert(inode::inode_of(r).block_data.take(12) =~= inode_alloc::empty_tree());
}

} // verus!
