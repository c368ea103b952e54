//! How many blocks a volume has to give, and that it gives them.
use vstd::prelude::*;
use super::trim;
use super::volume;
use crate::allocator;
use crate::allocator::bits;
use crate::allocator::block_alloc;
use crate::allocator::block_bitmap;
use crate::allocator::inode_alloc;
use crate::allocator::inode_bitmap;
use crate::allocator::AllocError;
use crate::block_device;
use crate::fs_state;
use crate::fs_state::FsState;
use crate::group_desc;
use crate::superblock::Superblock;

verus! {

/// How many of the first `n` bits are clear.
pub open spec fn clear(bm: Seq<u8>, n: int) -> int
    decreases n,
{
    if n <= 0 {
        0
    } else if bits::bit(bm, n - 1) {
        clear(bm, n - 1)
    } else {
        clear(bm, n - 1) + 1
    }
}

/// How many bits of its bitmap a group has.
pub open spec fn width(sb: Superblock, bm: Seq<u8>) -> int {
    if sb.blocks_per_group < 8 * bm.len() {
        sb.blocks_per_group as int
    } else {
        8 * bm.len() as int
    }
}

/// How many blocks group `g` has to give: as many as its bitmap marks as free, and its
/// descriptor counts.
pub open spec fn to_give(st: FsState, sb: Superblock, g: int) -> int {
    match block_bitmap::loaded(st.disk, sb, st.gdt, g) {
        Err(_) => 0,
        Ok(bm) => {
            let n = clear(bm, width(sb, bm));
            if n < st.gdt[g].free_blocks_count {
                n
            } else {
                st.gdt[g].free_blocks_count as int
            }
        },
    }
}

/// How many blocks the first `n` groups have to give.
pub open spec fn room_in(st: FsState, sb: Superblock, n: int) -> int
    decreases n,
{
    if n <= 0 {
        0
    } else {
        room_in(st, sb, n - 1) + to_give(st, sb, n - 1)
    }
}

/// How many blocks a volume has to give.
pub open spec fn room(st: FsState, sb: Superblock) -> int {
    room_in(st, sb, st.gdt.len() as int)
}

/// Whether group `g` has `count` free blocks in a row, and counts as many.
pub open spec fn has_run(st: FsState, sb: Superblock, g: int, count: int) -> bool {
    &&& 0 <= g < st.gdt.len()
    &&& st.gdt[g].free_blocks_count >= count
    &&& block_bitmap::loaded(st.disk, sb, st.gdt, g) is Ok
    &&& exists|k: int|
        0 <= k && k + count <= width(sb, block_bitmap::loaded(st.disk, sb, st.gdt, g)->Ok_0)
            && #[trigger] bits::run_clear(
            block_bitmap::loaded(st.disk, sb, st.gdt, g)->Ok_0,
            k,
            count,
        )
}

/// The lowest run of clear bits is found where there is any.
proof fn lemma_first_run(bm: Seq<u8>, n: int, limit: int, k: int)
    requires
        0 <= k,
        k + n <= limit,
        k + n <= 8 * bm.len(),
        bits::run_clear(bm, k, n),
    ensures
        bits::first_run(bm, n, limit) is Some,
    decreases k,
{
    if forall|j: int| 0 <= j < k ==> !#[trigger] bits::run_clear(bm, j, n) {
        assert(bits::is_first_run(bm, n, limit, k));
    } else {
        let j = choose|j: int| 0 <= j < k && #[trigger] bits::run_clear(bm, j, n);
        lemma_first_run(bm, n, limit, j);
    }
}

/// Taking a run of clear bits of a group of a sound volume succeeds.
proof fn lemma_taken(st: FsState, sb: Superblock, g: int, bm: Seq<u8>, k: u32, count: u32)
    requires
        volume::sound_volume(st, sb),
        0 <= g < st.gdt.len(),
        block_bitmap::loaded(st.disk, sb, st.gdt, g) == Ok::<Seq<u8>, AllocError>(bm),
        k + count <= 8 * bm.len(),
    ensures
        block_alloc::taken(st, sb, g, bm, k, count).1 is Ok,
{
    let bs = sb.block_size;
    let at = st.gdt[g].block_bitmap;
    let after = bits::with_run(bm, k as int, count as int);
    block_device::lemma_block_at(st.disk, bs, at);
    bits::lemma_run(bm, k as int, count as int, 0);
    block_device::lemma_block_write_read(st.disk, bs, at, after, at);
    let s1 = block_alloc::stored(st, sb, at, after).0;
    let s2 = FsState { gdt: group_desc::with_free_blocks(s1.gdt, g, -(count as int)), ..s1 };
    let gb = block_alloc::gdt_block(sb, g);
    volume::lemma_readable(st.disk, s2.disk, bs, gb);
    let d = block_device::block_at(s2.disk, bs, gb)->Ok_0;
    block_device::lemma_block_at(s2.disk, bs, gb);
    group_desc::lemma_described_len(d, sb, g, s2.gdt[g], 0);
    block_device::lemma_block_write_read(
        s2.disk,
        bs,
        gb,
        group_desc::described(d, sb, g, s2.gdt[g], 0),
        gb,
    );
}

/// Allocating succeeds where the groups from the `i`-th on hold such a run.
proof fn lemma_allocated_from(
    st: FsState,
    sb: Superblock,
    count: u32,
    hint: u64,
    i: int,
    to: int,
)
    requires
        volume::sound_volume(st, sb),
        count > 0,
        0 <= i <= to < st.gdt.len(),
        has_run(
            st,
            sb,
            block_alloc::nth_group(
                hint as int / sb.blocks_per_group as int,
                to,
                st.gdt.len() as int,
            ),
            count as int,
        ),
    ensures
        block_alloc::allocated_from(st, sb, count, hint, i).1 is Ok,
    decreases to - i,
{
    let n = st.gdt.len() as int;
    let h = hint as int / sb.blocks_per_group as int;
    let g = block_alloc::nth_group(h, i, n);
    vstd::arithmetic::div_mod::lemma_mod_bound(h % n + i, n);
    assert(volume::used(st, sb, st.gdt[g].block_bitmap));
    let bm = block_bitmap::loaded(st.disk, sb, st.gdt, g)->Ok_0;
    if i == to {
        let k = choose|k: int|
            0 <= k && k + count <= width(sb, bm) && #[trigger] bits::run_clear(
                bm,
                k,
                count as int,
            );
        lemma_first_run(bm, count as int, sb.blocks_per_group as int, k);
    }
    if st.gdt[g].free_blocks_count < count {
        lemma_allocated_from(st, sb, count, hint, i + 1, to);
    } else {
        match bits::first_run(bm, count as int, sb.blocks_per_group as int) {
            None => {
                lemma_allocated_from(st, sb, count, hint, i + 1, to);
            },
            Some(k) => {
                allocator::laws::lemma_first_run_is(
                    bm,
                    count as int,
                    sb.blocks_per_group as int,
                );
                lemma_taken(st, sb, g, bm, k, count);
            },
        }
    }
}

/// Every group is tried.
proof fn lemma_tried(h: int, g: int, n: int) -> (i: int)
    requires
        0 <= g < n,
        0 <= h,
    ensures
        0 <= i < n,
        block_alloc::nth_group(h, i, n) == g,
{
    let m = h % n;
    vstd::arithmetic::div_mod::lemma_mod_bound(h, n);
    if m <= g {
        vstd::arithmetic::div_mod::lemma_small_mod(g as nat, n as nat);
        g - m
    } else {
        vstd::arithmetic::div_mod::lemma_mod_add_multiples_vanish(g, n);
        vstd::arithmetic::div_mod::lemma_small_mod(g as nat, n as nat);
        g + n - m
    }
}

/// An allocation succeeds where a group has as many free blocks in a row as are asked for.
pub proof fn law_allocation_succeeds(
    st: FsState,
    sb: Superblock,
    count: u32,
    hint: u64,
    g: int,
)
    requires
        volume::sound_volume(st, sb),
        count > 0,
        has_run(st, sb, g, count as int),
    ensures
        block_alloc::allocated(st, sb, count, hint).1 is Ok,
{
    let h = hint as int / sb.blocks_per_group as int;
    vstd::arithmetic::div_mod::lemma_div_pos_is_pos(hint as int, sb.blocks_per_group as int);
    let i = lemma_tried(h, g, st.gdt.len() as int);
    lemma_allocated_from(st, sb, count, hint, 0, i);
}

/// Where bits are clear, one is.
proof fn lemma_some_clear(bm: Seq<u8>, n: int) -> (k: int)
    requires
        clear(bm, n) > 0,
    ensures
        0 <= k < n,
        !bits::bit(bm, k),
    decreases n,
{
    if !bits::bit(bm, n - 1) {
        n - 1
    } else {
        lemma_some_clear(bm, n - 1)
    }
}

/// Where groups have blocks to give, one does.
proof fn lemma_some_group(st: FsState, sb: Superblock, n: int) -> (g: int)
    requires
        room_in(st, sb, n) > 0,
    ensures
        0 <= g < n,
        to_give(st, sb, g) > 0,
    decreases n,
{
    if to_give(st, sb, n - 1) > 0 {
        n - 1
    } else {
        lemma_some_group(st, sb, n - 1)
    }
}

/// A block is allocated where the volume has one to give.
pub proof fn law_block_given(st: FsState, sb: Superblock, hint: u64)
    requires
        volume::sound_volume(st, sb),
        room(st, sb) > 0,
    ensures
        block_alloc::allocated(st, sb, 1, hint).1 is Ok,
{
    let g = lemma_some_group(st, sb, st.gdt.len() as int);
    let bm = block_bitmap::loaded(st.disk, sb, st.gdt, g)->Ok_0;
    let k = lemma_some_clear(bm, width(sb, bm));
    assert(bits::run_clear(bm, k, 1));
    law_allocation_succeeds(st, sb, 1, hint, g);
}

/// Groups whose bitmaps and counts are the same have as many blocks to give.
proof fn lemma_same_room(a: FsState, b: FsState, sb: Superblock, n: int)
    requires
        n <= a.gdt.len(),
        a.gdt.len() == b.gdt.len(),
        forall|g: int| 0 <= g < n ==> #[trigger] to_give(a, sb, g) == to_give(b, sb, g),
    ensures
        room_in(a, sb, n) == room_in(b, sb, n),
    decreases n,
{
    if n > 0 {
        lemma_same_room(a, b, sb, n - 1);
        assert(to_give(a, sb, n - 1) == to_give(b, sb, n - 1));
    }
}

/// Where one group has less to give, the volume does.
proof fn lemma_less_room(a: FsState, b: FsState, sb: Superblock, n: int, x: int, by: int)
    requires
        n <= a.gdt.len(),
        a.gdt.len() == b.gdt.len(),
        forall|g: int| 0 <= g < n && g != x ==> #[trigger] to_give(a, sb, g) == to_give(b, sb, g),
        0 <= x < n ==> to_give(b, sb, x) == to_give(a, sb, x) - by,
    ensures
        room_in(b, sb, n) == room_in(a, sb, n) - (if 0 <= x < n {
            by
        } else {
            0
        }),
    decreases n,
{
    if n > 0 {
        lemma_less_room(a, b, sb, n - 1, x, by);
        if n - 1 != x {
            assert(to_give(a, sb, n - 1) == to_give(b, sb, n - 1));
        }
    }
}

/// Setting a run of clear bits leaves that many fewer.
proof fn lemma_clear_taken(a: Seq<u8>, b: Seq<u8>, k: int, count: int, n: int)
    requires
        0 <= k,
        0 <= count,
        n <= 8 * a.len(),
        a.len() == b.len(),
        forall|i: int| k <= i < k + count ==> !#[trigger] bits::bit(a, i),
        forall|i: int|
            0 <= i < 8 * b.len() ==> #[trigger] bits::bit(b, i) == (k <= i < k + count || bits::bit(
                a,
                i,
            )),
    ensures
        clear(b, n) == clear(a, n) - (if n <= k {
            0
        } else if n <= k + count {
            n - k
        } else {
            count
        }),
    decreases n,
{
    if n > 0 {
        lemma_clear_taken(a, b, k, count, n - 1);
        assert(bits::bit(b, n - 1) == (k <= n - 1 < k + count || bits::bit(a, n - 1)));
        if k <= n - 1 < k + count {
            assert(!bits::bit(a, n - 1));
        }
    }
}

/// Whether every block of a group that is not used is on the device.
pub open spec fn free_on(st: FsState, sb: Superblock) -> bool {
    forall|b: u64|
        sb.first_data_block <= b < sb.first_data_block + st.gdt.len() * sb.blocks_per_group
            && !(#[trigger] volume::used(st, sb, b)) ==> block_device::block_at(
            st.disk,
            sb.block_size,
            b,
        ) is Ok
}

/// Whether a sound volume has `n` blocks to give, and each of them is on the device.
pub open spec fn gives(st: FsState, sb: Superblock, n: int) -> bool {
    &&& volume::sound_volume(st, sb)
    &&& trim::own_maps(st.gdt)
    &&& free_on(st, sb)
    &&& room(st, sb) >= n
}

/// What is used only grows, so that what is free stays on the device.
proof fn lemma_free_on(st: FsState, s: FsState, sb: Superblock)
    requires
        sb.wf(),
        free_on(st, sb),
        volume::later(st, s, sb),
    ensures
        free_on(s, sb),
        trim::own_maps(st.gdt) ==> trim::own_maps(s.gdt),
{
    assert forall|b: u64|
        sb.first_data_block <= b < sb.first_data_block + s.gdt.len() * sb.blocks_per_group
            && !(#[trigger] volume::used(s, sb, b)) implies block_device::block_at(
        s.disk,
        sb.block_size,
        b,
    ) is Ok by {
        assert(!volume::used(st, sb, b));
        volume::lemma_readable(st.disk, s.disk, sb.block_size, b);
    }
    if trim::own_maps(st.gdt) {
        assert forall|g: int, h: int| #![trigger s.gdt[g], s.gdt[h]]
            0 <= g < h < s.gdt.len() implies s.gdt[g].block_bitmap != s.gdt[h].block_bitmap by {
            assert(st.gdt[g].block_bitmap == s.gdt[g].block_bitmap);
            assert(st.gdt[h].block_bitmap == s.gdt[h].block_bitmap);
        }
    }
}

/// After an allocation the volume has that many fewer blocks to give; those that were given
/// are on the device, and are no group's.
#[verifier::rlimit(100)]
pub proof fn law_given(st: FsState, sb: Superblock, count: u32, hint: u64, n: int)
    requires
        gives(st, sb, n),
        count > 0,
        block_alloc::allocated(st, sb, count, hint).1 is Ok,
    ensures
        ({
            let (s, r) = block_alloc::allocated(st, sb, count, hint);
            let p = r->Ok_0;
            &&& gives(s, sb, n - count)
            &&& volume::later(st, s, sb)
            &&& forall|b: u64|
                p <= b < p + count ==> block_device::block_at(
                    s.disk,
                    sb.block_size,
                    b,
                ) is Ok && !#[trigger] volume::is_group_block(st.gdt, sb, b)
            &&& p + count <= volume::BLOCK_END
        }),
{
    let bs = sb.block_size;
    let (s, r) = block_alloc::allocated(st, sb, count, hint);
    let p = r->Ok_0;
    volume::lemma_allocated(st, sb, count, hint);
    let (g, k) = allocator::laws::law_allocated(st, sb, count, hint);
    lemma_free_on(st, s, sb);
    let w = sb.blocks_per_group as int;
    assert(g * w + w <= st.gdt.len() * w && 0 <= g * w) by (nonlinear_arith)
        requires
            0 <= g,
            g + 1 <= st.gdt.len(),
            w > 0,
    ;
    assert forall|b: u64| p <= b < p + count implies block_device::block_at(s.disk, bs, b) is Ok
        && !#[trigger] volume::is_group_block(st.gdt, sb, b) by {
        assert(volume::used(s, sb, b));
        assert(!volume::used(st, sb, b));
        volume::lemma_readable(st.disk, s.disk, bs, b);
        if volume::is_group_block(st.gdt, sb, b) {
            super::data::lemma_group_blocks_used(st, sb, b);
        }
    }
    let before = block_bitmap::loaded(st.disk, sb, st.gdt, g)->Ok_0;
    let after = block_bitmap::loaded(s.disk, sb, s.gdt, g)->Ok_0;
    lemma_clear_taken(before, after, k, count as int, width(sb, before));
    assert(to_give(s, sb, g) == to_give(st, sb, g) - count);
    let at = st.gdt[g].block_bitmap;
    let mid = FsState {
        disk: block_device::with_block(st.disk, bs, at, after),
        txn: st.txn,
        gdt: s.gdt,
    };
    allocator::laws::lemma_tallied(mid, sb, g, 0);
    block_device::lemma_block_at(st.disk, bs, at);
    assert forall|h: int| 0 <= h < st.gdt.len() && h != g implies #[trigger] to_give(st, sb, h)
        == to_give(s, sb, h) by {
        let x = st.gdt[h].block_bitmap;
        assert(s.gdt[h] == st.gdt[h]);
        assert(x != at) by {
            if h < g {
                assert(st.gdt[h].block_bitmap != st.gdt[g].block_bitmap);
            } else {
                assert(st.gdt[g].block_bitmap != st.gdt[h].block_bitmap);
            }
        }
        assert(block_alloc::gdt_block(sb, g) != x);
        block_device::lemma_block_write_read(st.disk, bs, at, after, x);
        assert(block_device::block_at(s.disk, bs, x) == block_device::block_at(mid.disk, bs, x));
    }
    lemma_less_room(st, s, sb, st.gdt.len() as int, g, count as int);
}

/// Where neither the groups nor their bitmaps changed, the volume has as much to give.
pub proof fn lemma_gives_still(st: FsState, s: FsState, sb: Superblock, n: int)
    requires
        gives(st, sb, n),
        s.gdt == st.gdt,
        volume::later(st, s, sb),
        volume::sound_volume(s, sb),
        forall|c: u64|
            #[trigger] volume::is_group_block(st.gdt, sb, c) ==> block_device::block_at(
                s.disk,
                sb.block_size,
                c,
            ) == block_device::block_at(st.disk, sb.block_size, c),
    ensures
        gives(s, sb, n),
{
    lemma_free_on(st, s, sb);
    assert forall|g: int| 0 <= g < st.gdt.len() implies #[trigger] to_give(st, sb, g) == to_give(
        s,
        sb,
        g,
    ) by {
        let m = st.gdt[g].block_bitmap;
        assert(volume::is_group_block(st.gdt, sb, m)) by {
            reveal(volume::is_group_block);
            assert(volume::is_of_group(st.gdt, sb, g, m));
        }
    }
    lemma_same_room(st, s, sb, st.gdt.len() as int);
}

/// Writing a block that is no group's leaves what a volume has to give.
pub proof fn lemma_store_gives(st: FsState, sb: Superblock, b: u64, data: Seq<u8>, n: int)
    requires
        gives(st, sb, n),
        data.len() == sb.block_size,
        !volume::is_group_block(st.gdt, sb, b),
        fs_state::store(st, sb.block_size, b, data).1 is Ok,
    ensures
        gives(fs_state::store(st, sb.block_size, b, data).0, sb, n),
        volume::later(st, fs_state::store(st, sb.block_size, b, data).0, sb),
{
    let s = fs_state::store(st, sb.block_size, b, data).0;
    volume::lemma_stored(st, sb, b, data);
    assert forall|c: u64| #[trigger]
        volume::is_group_block(st.gdt, sb, c) implies block_device::block_at(
        s.disk,
        sb.block_size,
        c,
    ) == block_device::block_at(st.disk, sb.block_size, c) by {
        assert(c != b);
        assert(volume::untouched(st, s, sb.block_size, c));
    }
    lemma_gives_still(st, s, sb, n);
}

/// The lowest clear bit is found where there is any.
proof fn lemma_first_clear(bm: Seq<u8>, k: int)
    requires
        0 <= k < 8 * bm.len(),
        !bits::bit(bm, k),
    ensures
        bits::first_clear(bm) is Some,
    decreases k,
{
    if forall|j: int| 0 <= j < k ==> #[trigger] bits::bit(bm, j) {
        assert(bits::is_first_clear(bm, k));
    } else {
        let j = choose|j: int| 0 <= j < k && !#[trigger] bits::bit(bm, j);
        lemma_first_clear(bm, j);
    }
}

/// Whether the groups' bitmaps of inodes and their descriptors can be read, and the number of
/// each inode in them has 32 bits.
pub open spec fn inodes_known(st: FsState, sb: Superblock) -> bool {
    &&& sb.wf()
    &&& st.disk.len() % 512 == 0
    &&& st.gdt.len() * sb.inodes_per_group + 8 * sb.block_size <= u32::MAX
    &&& forall|g: int|
        0 <= g < st.gdt.len() ==> inode_bitmap::loaded(st.disk, sb, st.gdt, g) is Ok
            && block_device::block_at(
            st.disk,
            sb.block_size,
            #[trigger] block_alloc::gdt_block(sb, g),
        ) is Ok
}

/// Whether group `g` has a free inode, and counts one.
pub open spec fn has_inode(st: FsState, sb: Superblock, g: int) -> bool {
    &&& 0 <= g < st.gdt.len()
    &&& st.gdt[g].free_inodes_count > 0
    &&& inode_bitmap::loaded(st.disk, sb, st.gdt, g) is Ok
    &&& exists|k: int|
        0 <= k < 8 * inode_bitmap::loaded(st.disk, sb, st.gdt, g)->Ok_0.len()
            && !#[trigger] bits::bit(inode_bitmap::loaded(st.disk, sb, st.gdt, g)->Ok_0, k)
}

proof fn lemma_inode_taken(
    st: FsState,
    sb: Superblock,
    is_dir: bool,
    g: int,
    bm: Seq<u8>,
    k: u32,
)
    requires
        inodes_known(st, sb),
        0 <= g < st.gdt.len(),
        inode_bitmap::loaded(st.disk, sb, st.gdt, g) == Ok::<Seq<u8>, AllocError>(bm),
        k < 8 * bm.len(),
    ensures
        inode_alloc::taken(st, sb, is_dir, g, bm, k).1 is Ok,
{
    let bs = sb.block_size;
    let at = st.gdt[g].inode_bitmap;
    let after = bits::with_bit(bm, k as int);
    let gb = block_alloc::gdt_block(sb, g);
    assert(block_device::block_at(st.disk, bs, gb) is Ok);
    block_device::lemma_block_at(st.disk, bs, at);
    let w = sb.inodes_per_group as int;
    assert(g * w + w <= st.gdt.len() * w) by (nonlinear_arith)
        requires
            g + 1 <= st.gdt.len(),
            w > 0,
    ;
    block_device::lemma_block_write_read(st.disk, bs, at, after, at);
    let s1 = block_alloc::stored(st, sb, at, after).0;
    let s2 = FsState { gdt: group_desc::with_free_inodes(s1.gdt, g, -1), ..s1 };
    volume::lemma_readable(st.disk, s2.disk, bs, gb);
    let d = block_device::block_at(s2.disk, bs, gb)->Ok_0;
    block_device::lemma_block_at(s2.disk, bs, gb);
    let dirs = inode_alloc::dirs_of(is_dir);
    group_desc::lemma_described_len(d, sb, g, s2.gdt[g], dirs);
    block_device::lemma_block_write_read(
        s2.disk,
        bs,
        gb,
        group_desc::described(d, sb, g, s2.gdt[g], dirs),
        gb,
    );
}

proof fn lemma_inode_from(
    st: FsState,
    sb: Superblock,
    is_dir: bool,
    hint: int,
    i: int,
    to: int,
)
    requires
        inodes_known(st, sb),
        0 <= hint,
        0 <= i <= to < st.gdt.len(),
        has_inode(st, sb, block_alloc::nth_group(hint, to, st.gdt.len() as int)),
    ensures
        inode_alloc::allocated_from(st, sb, is_dir, hint, i).1 is Ok,
    decreases to - i,
{
    let n = st.gdt.len() as int;
    let g = block_alloc::nth_group(hint, i, n);
    vstd::arithmetic::div_mod::lemma_mod_bound(hint % n + i, n);
    assert(block_device::block_at(st.disk, sb.block_size, block_alloc::gdt_block(sb, g)) is Ok);
    let bm = inode_bitmap::loaded(st.disk, sb, st.gdt, g)->Ok_0;
    block_device::lemma_block_at(st.disk, sb.block_size, st.gdt[g].inode_bitmap);
    if i == to {
        let k = choose|k: int| 0 <= k < 8 * bm.len() && !#[trigger] bits::bit(bm, k);
        lemma_first_clear(bm, k);
    }
    if st.gdt[g].free_inodes_count == 0 {
        lemma_inode_from(st, sb, is_dir, hint, i + 1, to);
    } else {
        match bits::first_clear(bm) {
            None => {
                lemma_inode_from(st, sb, is_dir, hint, i + 1, to);
            },
            Some(k) => {
                let x = choose|x: int| bits::is_first_clear(bm, x);
                assert(bits::is_first_clear(bm, x));
                lemma_inode_taken(st, sb, is_dir, g, bm, k);
            },
        }
    }
}

/// An inode is allocated where a group has one to give, whichever group is tried first.
pub proof fn law_inode_given(st: FsState, sb: Superblock, is_dir: bool, hint: int, g: int)
    requires
        inodes_known(st, sb),
        0 <= hint,
        has_inode(st, sb, g),
    ensures
        inode_alloc::allocated(st, sb, is_dir, hint).1 is Ok,
{
    let i = lemma_tried(hint, g, st.gdt.len() as int);
    lemma_inode_from(st, sb, is_dir, hint, 0, i);
}

} // verus!
