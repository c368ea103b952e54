//! What a read of a file gives back of a write.
use vstd::prelude::*;
use super::append;
use super::insert;
use super::tree;
use super::volume;
use crate::allocator::block_alloc;
use crate::block_device;
use crate::block_device::BlockDeviceError;
use crate::bytes;
use crate::extent;
use crate::extent::{ExtentError, ExtentLeaf};
use crate::extent_insert;
use crate::file;
use crate::file_write;
use crate::fs_state;
use crate::fs_state::FsState;
use crate::inode::InodeView;
use crate::superblock::Superblock;

verus! {

/// Whether `map` lists where the logical blocks from `l` on lie in `s`: where they lay
/// in `st`, or, if they were not mapped, in blocks that are new and zero. The file is
/// sound, and nothing else of it, or of what was used, changed.
pub open spec fn provided(
    st: FsState,
    s: FsState,
    sb: Superblock,
    num: u32,
    d: nat,
    d2: nat,
    l: int,
    map: Seq<u64>,
) -> bool {
    let v = volume::extents_now(st, sb, num);
    let w = volume::extents_now(s, sb, num);
    &&& volume::sound_file(s, sb, num, d2)
    &&& volume::later(st, s, sb)
    &&& volume::table_block(s.gdt, sb, num) == volume::table_block(st.gdt, sb, num)
    &&& volume::record_changed(st, s, sb, num)
    &&& volume::inode_now(s, sb, num) == (InodeView {
        block_data: volume::inode_now(s, sb, num).block_data,
        ..volume::inode_now(st, sb, num)
    })
    &&& forall|b: u64| #[trigger]
        append::bystander(st, sb, num, d, b) ==> volume::untouched(st, s, sb.block_size, b)
            && append::bystander(
            s,
            sb,
            num,
            d2,
            b,
        )
    &&& forall|m: u64| #[trigger]
        extent::mapped(w, m) == (if l <= m < l + map.len() {
            Some(map[m - l])
        } else {
            extent::mapped(v, m)
        })
    &&& forall|k: int|
        0 <= k < map.len() ==> match extent::mapped(v, (l + k) as u64) {
            Some(p) => #[trigger] map[k] == p,
            None => is_new(st, s, sb, num, d2, map[k]),
        }
}

/// Whether block `b` is zero, was not used, and is no part of the file's tree.
pub open spec fn is_new(
    st: FsState,
    s: FsState,
    sb: Superblock,
    num: u32,
    d2: nat,
    b: u64,
) -> bool {
    &&& block_device::block_at(s.disk, sb.block_size, b) == Ok::<Seq<u8>, BlockDeviceError>(
        bytes::zeros(sb.block_size as int),
    )
    &&& append::bystander(s, sb, num, d2, b)
    &&& !volume::used(st, sb, b)
}

/// As many blocks as were to be had come from one allocation.
proof fn lemma_shrinking(st: FsState, sb: Superblock, want: u32, hint: u64)
    requires
        volume::sound_volume(st, sb),
        want > 0,
        file_write::shrinking(st, sb, want, hint).1 is Ok,
    ensures
        ({
            let (s, r) = file_write::shrinking(st, sb, want, hint);
            let (p, got) = r->Ok_0;
            &&& 0 < got <= want
            &&& block_alloc::allocated(st, sb, got, hint) == (
                s,
                Ok::<u64, crate::allocator::AllocError>(p),
            )
        }),
    decreases want,
{
    let (s1, r1) = block_alloc::allocated(st, sb, want, hint);
    volume::lemma_allocated(st, sb, want, hint);
    if r1 is Err && want > 1 {
        lemma_shrinking(st, sb, want / 2, hint);
    }
}

/// Taking blocks in a row and zeroing them makes them ready to be appended.
#[verifier::rlimit(100)]
pub proof fn lemma_zeroed_ready(
    st: FsState,
    sb: Superblock,
    num: u32,
    d: nat,
    hint: u64,
    got: u32,
) -> (s2: FsState)
    requires
        volume::sound_file(st, sb, num, d),
        got > 0,
        block_alloc::allocated(st, sb, got, hint).1 is Ok,
        ({
            let (s1, r1) = block_alloc::allocated(st, sb, got, hint);
            block_device::write_result(
                s1.disk,
                r1->Ok_0 * (sb.block_size as int / 512),
                bytes::zeros(got * sb.block_size),
            ) is Ok
        }),
    ensures
        ({
            let (s1, r1) = block_alloc::allocated(st, sb, got, hint);
            let p = r1->Ok_0;
            &&& s2 == (FsState {
                disk: block_device::written(
                    s1.disk,
                    p * (sb.block_size as int / 512),
                    bytes::zeros(got * sb.block_size),
                ),
                ..s1
            })
            &&& volume::sound_file(s2, sb, num, d)
            &&& volume::later(st, s2, sb)
            &&& volume::table_block(s2.gdt, sb, num) == volume::table_block(st.gdt, sb, num)
            &&& volume::record_changed(st, s2, sb, num)
            &&& append::ready(s2, sb, num, d, p, got as int)
            &&& volume::extents_now(s2, sb, num) == volume::extents_now(st, sb, num)
            &&& volume::inode_now(s2, sb, num) == volume::inode_now(st, sb, num)
            &&& forall|b: u64|
                p <= b < p + got ==> #[trigger] block_device::block_at(
                    s2.disk,
                    sb.block_size,
                    b,
                ) == Ok::<Seq<u8>, BlockDeviceError>(bytes::zeros(sb.block_size as int))
                    && !volume::used(st, sb, b)
            &&& forall|b: u64| #[trigger]
                append::bystander(st, sb, num, d, b) ==> volume::untouched(st, s2, sb.block_size, b)
                    && append::bystander(
                    s2,
                    sb,
                    num,
                    d,
                    b,
                )
        }),
{
    let bs = sb.block_size;
    let (s1, r1) = block_alloc::allocated(st, sb, got, hint);
    let p = r1->Ok_0;
    let zeros = bytes::zeros(got * bs);
    let s2 = FsState { disk: block_device::written(s1.disk, p * (bs as int / 512), zeros), ..s1 };
    volume::lemma_allocated(st, sb, got, hint);
    volume::lemma_volume_kept(st, s1, sb);
    volume::lemma_file_kept(st, s1, sb, num, d);
    assert forall|c: u64| #[trigger] block_device::block_at(s2.disk, bs, c) == (if p <= c < p
        + got {
        Ok(bytes::zeros(bs as int))
    } else {
        block_device::block_at(s1.disk, bs, c)
    }) by {
        volume::lemma_zeroed(s1.disk, bs, p, got as int, c);
    }
    volume::lemma_zeroed(s1.disk, bs, p, got as int, p);
    assert forall|c: u64| p <= c < p + got implies !(#[trigger] volume::is_group_block(
        st.gdt,
        sb,
        c,
    ))
        && volume::used(s1, sb, c) && !volume::used(st, sb, c) by {
        assert(volume::used(s1, sb, c));
        if volume::is_group_block(st.gdt, sb, c) {
            lemma_group_blocks_used(st, sb, c);
        }
    }
    lemma_same_bitmaps(s1, s2, sb, p, got as int);
    assert forall|c: u64| volume::agrees(s1, bs, c) && !(p <= c < p + got) implies #[trigger]
        volume::agrees(s2, bs, c) by {
        reveal(volume::agrees);
    }
    volume::lemma_file_kept(s1, s2, sb, num, d);
    append::lemma_later(st, s1, s2, sb);
    assert(volume::record_changed(st, s2, sb, num)) by {
        let t = volume::table_block(st.gdt, sb, num);
        assert(block_device::block_at(s2.disk, bs, t) == block_device::block_at(s1.disk, bs, t));
    }
    assert(append::ready(s2, sb, num, d, p, got as int)) by {
        assert forall|b: u64| p <= b < p + got implies #[trigger] volume::kept_apart(
            s2,
            sb,
            num,
            b,
        ) && !volume::node_block(s2, sb, num, d, b) && append::unmapped(
            volume::extents_now(s2, sb, num),
            b,
        ) by {
            assert(!volume::is_group_block(st.gdt, sb, b));
            assert(volume::used(s2, sb, b));
            assert(!volume::is_group_block(s2.gdt, sb, b));
            assert(!volume::node_block(st, sb, num, d, b));
        }
    }
    assert forall|b: u64| #[trigger] append::bystander(st, sb, num, d, b) implies {
        &&& volume::untouched(st, s2, bs, b)
        &&& append::bystander(s2, sb, num, d, b)
    } by {
        assert(volume::used(s2, sb, b));
        assert(volume::untouched(st, s1, bs, b));
        assert(block_device::block_at(s2.disk, bs, b) == block_device::block_at(s1.disk, bs, b));
    }
    assert forall|b: u64| p <= b < p + got implies #[trigger] block_device::block_at(
        s2.disk,
        bs,
        b,
    ) == Ok::<Seq<u8>, BlockDeviceError>(bytes::zeros(bs as int)) && !volume::used(st, sb, b) by {
        assert(!volume::is_group_block(st.gdt, sb, b));
    }
    s2
}

/// A group's blocks are used.
pub proof fn lemma_group_blocks_used(st: FsState, sb: Superblock, b: u64)
    requires
        volume::sound_volume(st, sb),
        volume::is_group_block(st.gdt, sb, b),
    ensures
        volume::used(st, sb, b),
{
    reveal(volume::is_group_block);
    let g = choose|g: int|
        0 <= g < st.gdt.len() && #[trigger] volume::is_of_group(st.gdt, sb, g, b);
    assert(volume::used(st, sb, st.gdt[g].block_bitmap));
    assert(volume::used(st, sb, block_alloc::gdt_block(sb, g)));
}

/// Where no bitmap changed, the same blocks are used.
pub proof fn lemma_same_bitmaps(st: FsState, s: FsState, sb: Superblock, p: u64, n: int)
    requires
        sb.wf(),
        s.gdt == st.gdt,
        s.disk.len() == st.disk.len(),
        forall|c: u64|
            !(p <= c < p + n) ==> #[trigger] block_device::block_at(s.disk, sb.block_size, c)
                == block_device::block_at(st.disk, sb.block_size, c),
        forall|c: u64| p <= c < p + n ==> !#[trigger] volume::is_group_block(st.gdt, sb, c),
    ensures
        volume::later(st, s, sb),
        forall|b: u64| volume::used(st, sb, b) == #[trigger] volume::used(s, sb, b),
{
    assert forall|b: u64| volume::used(st, sb, b) == #[trigger] volume::used(s, sb, b) by {
        reveal(volume::used);
        reveal(volume::is_group_block);
        let g = crate::allocator::block_alloc::group_of(sb, b);
        if b >= sb.first_data_block {
            vstd::arithmetic::div_mod::lemma_div_pos_is_pos(
                b - sb.first_data_block,
                sb.blocks_per_group as int,
            );
        }
        if b >= sb.first_data_block && g < st.gdt.len() {
            assert(volume::is_of_group(st.gdt, sb, g, st.gdt[g].block_bitmap));
            assert(volume::is_group_block(st.gdt, sb, st.gdt[g].block_bitmap));
        }
    }
}

/// Providing blocks in two steps.
#[verifier::rlimit(100)]
proof fn lemma_provided_twice(
    st: FsState,
    s1: FsState,
    s2: FsState,
    sb: Superblock,
    num: u32,
    d: nat,
    d1: nat,
    d2: nat,
    l: int,
    a: Seq<u64>,
    b: Seq<u64>,
)
    requires
        0 <= l,
        l + a.len() + b.len() <= tree::LOGICAL_END,
        provided(st, s1, sb, num, d, d1, l, a),
        provided(s1, s2, sb, num, d1, d2, l + a.len(), b),
    ensures
        provided(st, s2, sb, num, d, d2, l, a + b),
{
    let v = volume::extents_now(st, sb, num);
    let w = volume::extents_now(s1, sb, num);
    let x = volume::extents_now(s2, sb, num);
    let map = a + b;
    append::lemma_later(st, s1, s2, sb);
    assert forall|c: u64| #[trigger]
        append::bystander(st, sb, num, d, c) implies volume::untouched(
        st,
        s2,
        sb.block_size,
        c,
    ) && append::bystander(
        s2,
        sb,
        num,
        d2,
        c,
    ) by {
        assert(append::bystander(s1, sb, num, d1, c));
    }
    assert forall|m: u64| #[trigger]
        extent::mapped(x, m) == (if l <= m < l + map.len() {
            Some(map[m - l])
        } else {
            extent::mapped(v, m)
        }) by {
        assert(extent::mapped(w, m) == (if l <= m < l + a.len() {
            Some(a[m - l])
        } else {
            extent::mapped(v, m)
        }));
    }
    assert forall|k: int| 0 <= k < map.len() implies match extent::mapped(v, (l + k) as u64) {
        Some(p) => #[trigger] map[k] == p,
        None => is_new(st, s2, sb, num, d2, map[k]),
    } by {
        if k < a.len() {
            assert(map[k] == a[k]);
            if extent::mapped(v, (l + k) as u64) is None {
                assert(is_new(st, s1, sb, num, d1, a[k]));
                assert(append::bystander(s1, sb, num, d1, a[k]));
            }
        } else {
            let j = k - a.len();
            assert(map[k] == b[j]);
            assert((l + a.len() + j) as u64 == (l + k) as u64);
            assert(extent::mapped(w, (l + k) as u64) == extent::mapped(v, (l + k) as u64));
            if extent::mapped(v, (l + k) as u64) is None {
                assert(is_new(s1, s2, sb, num, d2, b[j]));
                if volume::used(st, sb, b[j]) {
                    assert(volume::used(s1, sb, b[j]));
                }
            }
        }
    }
}

/// Nothing is provided without blocks.
proof fn lemma_provided_none(st: FsState, sb: Superblock, num: u32, d: nat, l: int)
    requires
        volume::sound_file(st, sb, num, d),
    ensures
        provided(st, st, sb, num, d, d, l, Seq::empty()),
{
    volume::lemma_slot_read(st, sb, num);
}

/// Giving a sound file blocks for logical blocks that it does not map keeps it sound,
/// and the blocks are new and zero. Gives the depth of its tree.
#[verifier::rlimit(100)]
pub proof fn law_filled(
    st: FsState,
    sb: Superblock,
    num: u32,
    d: nat,
    hint: u64,
    l: int,
    n: int,
) -> (d2: nat)
    requires
        volume::sound_file(st, sb, num, d),
        0 <= n <= file_write::EXTENT_BATCH_MAX,
        0 <= l,
        l + n <= tree::LOGICAL_END,
        forall|m: u64|
            l <= m < l + n ==> (#[trigger] extent::mapped(
                volume::extents_now(st, sb, num),
                m,
            )) is None,
        file_write::filled(st, sb, num, hint, l, n).1 is Ok,
    ensures
        file_write::filled(st, sb, num, hint, l, n).1->Ok_0.len() == n,
        provided(
            st,
            file_write::filled(st, sb, num, hint, l, n).0,
            sb,
            num,
            d,
            d2,
            l,
            file_write::filled(st, sb, num, hint, l, n).1->Ok_0,
        ),
    decreases n,
{
    if n == 0 {
        lemma_provided_none(st, sb, num, d, l);
        d
    } else {
        let (s1, r1) = file_write::shrinking(st, sb, n as u32, hint);
        lemma_shrinking(st, sb, n as u32, hint);
        let (p, got) = r1->Ok_0;
        let s2 = lemma_zeroed_ready(st, sb, num, d, hint, got);
        let s3 = extent_insert::inserted(s2, sb, num, l, p, got as u16).0;
        let d3 = insert::law_inserted(s2, sb, num, d, l, p, got as u16);
        lemma_first_run(st, s2, s3, sb, num, d, d3, l, p, got);
        let d2 = law_filled(s3, sb, num, d3, hint, l + got, n - got);
        lemma_provided_twice(
            st,
            s3,
            file_write::filled(s3, sb, num, hint, l + got, n - got).0,
            sb,
            num,
            d,
            d3,
            d2,
            l,
            file_write::run(p, got as int),
            file_write::filled(s3, sb, num, hint, l + got, n - got).1->Ok_0,
        );
        d2
    }
}

#[verifier::rlimit(100)]
proof fn lemma_first_run(
    st: FsState,
    s2: FsState,
    s3: FsState,
    sb: Superblock,
    num: u32,
    d: nat,
    d3: nat,
    l: int,
    p: u64,
    got: u32,
)
    requires
        volume::later(st, s2, sb),
        volume::table_block(s2.gdt, sb, num) == volume::table_block(st.gdt, sb, num),
        volume::record_changed(st, s2, sb, num),
        append::ready(s2, sb, num, d, p, got as int),
        volume::extents_now(s2, sb, num) == volume::extents_now(st, sb, num),
        volume::inode_now(s2, sb, num) == volume::inode_now(st, sb, num),
        got > 0,
        0 <= l,
        l + got <= tree::LOGICAL_END,
        forall|m: u64|
            l <= m < l + got ==> (#[trigger] extent::mapped(
                volume::extents_now(st, sb, num),
                m,
            )) is None,
        forall|b: u64|
            p <= b < p + got ==> #[trigger] block_device::block_at(s2.disk, sb.block_size, b)
                == Ok::<Seq<u8>, BlockDeviceError>(bytes::zeros(sb.block_size as int))
                && !volume::used(st, sb, b),
        forall|b: u64| #[trigger]
            append::bystander(st, sb, num, d, b) ==> volume::untouched(st, s2, sb.block_size, b)
                    && append::bystander(
                s2,
                sb,
                num,
                d,
                b,
            ),
        insert::placed(s2, s3, sb, num, d, d3, l, p, got as int),
    ensures
        provided(st, s3, sb, num, d, d3, l, file_write::run(p, got as int)),
{
    let run = file_write::run(p, got as int);
    append::lemma_later(st, s2, s3, sb);
    assert forall|b: u64| #[trigger]
        append::bystander(st, sb, num, d, b) implies volume::untouched(
        st,
        s3,
        sb.block_size,
        b,
    ) && append::bystander(
        s3,
        sb,
        num,
        d3,
        b,
    ) by {
        assert(append::bystander(s2, sb, num, d, b));
    }
    assert forall|k: int| 0 <= k < run.len() implies match extent::mapped(
        volume::extents_now(st, sb, num),
        (l + k) as u64,
    ) {
        Some(q) => #[trigger] run[k] == q,
        None => is_new(st, s3, sb, num, d3, run[k]),
    } by {
        assert(extent::mapped(volume::extents_now(st, sb, num), (l + k) as u64) is None);
        assert(p <= run[k] < p + got);
        assert(volume::kept_apart(s2, sb, num, run[k]));
        assert(append::bystander(s2, sb, num, d, run[k]));
        assert(block_device::block_at(s2.disk, sb.block_size, run[k]) is Ok);
    }
}

/// A run ends where a block is mapped, or before.
proof fn lemma_run_unmapped(
    st: FsState,
    sb: Superblock,
    num: u32,
    d: nat,
    start: int,
    e: int,
    last: int,
    m: u64,
)
    requires
        volume::sound_file(st, sb, num, d),
        0 <= start <= e,
        last < tree::LOGICAL_END,
        file_write::run_end(
            st.disk,
            sb,
            volume::inode_now(st, sb, num),
            start,
            e,
            last,
        ) is Ok,
        e <= m < file_write::run_end(
            st.disk,
            sb,
            volume::inode_now(st, sb, num),
            start,
            e,
            last,
        )->Ok_0,
    ensures
        extent::mapped(volume::extents_now(st, sb, num), m) is None,
    decreases last + 1 - e,
{
    if e <= last && e - start < file_write::EXTENT_BATCH_MAX {
        lemma_found(st, sb, num, d, e as u64);
        if e < m {
            lemma_run_unmapped(st, sb, num, d, start, e + 1, last, m);
        }
    }
}

/// Finding a place for each block of a stretch of a sound file. Gives the depth of the
/// file's tree.
#[verifier::spinoff_prover]
#[verifier::rlimit(100)]
pub proof fn law_provisioned(
    st: FsState,
    sb: Superblock,
    num: u32,
    d: nat,
    l: int,
    last: int,
) -> (d2: nat)
    requires
        volume::sound_file(st, sb, num, d),
        0 <= l <= last + 1,
        last < tree::LOGICAL_END,
        file_write::provisioned(
            st,
            sb,
            num,
            volume::inode_now(st, sb, num),
            l,
            last,
        ).1 is Ok,
    ensures
        ({
            let (s, r) = file_write::provisioned(
                st,
                sb,
                num,
                volume::inode_now(st, sb, num),
                l,
                last,
            );
            &&& r->Ok_0.len() == last + 1 - l
            &&& provided(st, s, sb, num, d, d2, l, r->Ok_0)
        }),
    decreases last + 1 - l,
{
    let v = volume::extents_now(st, sb, num);
    let i = volume::inode_now(st, sb, num);
    let (s, r) = file_write::provisioned(st, sb, num, i, l, last);
    let map = r->Ok_0;
    if l > last {
        lemma_provided_none(st, sb, num, d, l);
        d
    } else {
        volume::lemma_slot_read(st, sb, num);
        lemma_found(st, sb, num, d, l as u64);
        match extent::mapped(v, l as u64) {
            Some(p) => {
                let d2 = law_provisioned(st, sb, num, d, l + 1, last);
                let rest = file_write::provisioned(st, sb, num, i, l + 1, last).1->Ok_0;
                assert(map == seq![p] + rest);
                let w = volume::extents_now(s, sb, num);
                assert forall|m: u64| #[trigger]
                    extent::mapped(w, m) == (if l <= m < l + map.len() {
                        Some(map[m - l])
                    } else {
                        extent::mapped(v, m)
                    }) by {
                    if m == l {
                        assert(map[0] == p);
                    } else if l < m < l + map.len() {
                        assert(map[m - l] == rest[m - l - 1]);
                    }
                }
                assert forall|k: int| 0 <= k < map.len() implies match extent::mapped(
                    v,
                    (l + k) as u64,
                ) {
                    Some(q) => #[trigger] map[k] == q,
                    None => is_new(st, s, sb, num, d2, map[k]),
                } by {
                    if k > 0 {
                        assert(map[k] == rest[k - 1]);
                        assert((l + 1 + (k - 1)) as u64 == (l + k) as u64);
                    }
                }
                d2
            },
            None => {
                let stop = file_write::run_end(st.disk, sb, i, l, l + 1, last)->Ok_0;
                file_write::lemma_run_end(st.disk, sb, i, l, l + 1, last);
                let hint = block_device::max(i.size as int / sb.block_size as int, l) as u64;
                let (s1, r1) = file_write::filled(st, sb, num, hint, l, stop - l);
                let fresh = r1->Ok_0;
                assert forall|m: u64| l <= m < l + (stop - l) implies (#[trigger] extent::mapped(
                    v,
                    m,
                )) is None by {
                    if m > l {
                        lemma_run_unmapped(st, sb, num, d, l, l + 1, last, m);
                    }
                }
                let d1 = law_filled(st, sb, num, d, hint, l, stop - l);
                volume::lemma_slot_read(s1, sb, num);
                let d2 = law_provisioned(s1, sb, num, d1, stop, last);
                let (s2, r2) = file_write::provisioned(
                    s1,
                    sb,
                    num,
                    volume::inode_now(s1, sb, num),
                    stop,
                    last,
                );
                let rest = r2->Ok_0;
                assert(map == fresh + rest);
                lemma_provided_twice(st, s1, s2, sb, num, d, d1, d2, l, fresh, rest);
                d2
            },
        }
    }
}

/// Whether no block is listed twice, and none is a group's.
pub open spec fn listed_apart(st: FsState, sb: Superblock, map: Seq<u64>) -> bool {
    &&& forall|a: int, b: int|
        0 <= a < b < map.len() ==> #[trigger] map[a] != #[trigger] map[b]
    &&& forall|a: int|
        0 <= a < map.len() ==> !volume::is_group_block(st.gdt, sb, #[trigger] map[a])
}

/// Whether block `c` is not listed from number `k` on.
pub open spec fn not_listed(map: Seq<u64>, k: int, c: u64) -> bool {
    forall|a: int| k <= a < map.len() ==> #[trigger] map[a] != c
}

/// The contents of the `k`-th block after the write.
pub open spec fn poured_block(
    st: FsState,
    sb: Superblock,
    map: Seq<u64>,
    offset: int,
    data: Seq<u8>,
    k: int,
) -> Seq<u8> {
    let bs = sb.block_size as int;
    let base = if file_write::is_whole(bs, offset, data, k) {
        bytes::zeros(bs)
    } else {
        block_device::block_at(st.disk, sb.block_size, map[k])->Ok_0
    };
    bytes::put(
        base,
        file_write::part_offset(bs, offset, k),
        file_write::part(bs, offset, data, k),
    )
}

/// Writing data into blocks that are listed apart puts each part into its block,
/// and changes no other block.
#[verifier::rlimit(100)]
pub proof fn law_poured(
    st: FsState,
    sb: Superblock,
    map: Seq<u64>,
    offset: int,
    data: Seq<u8>,
    k: int,
)
    requires
        volume::sound_volume(st, sb),
        listed_apart(st, sb, map),
        0 <= k <= map.len(),
        file_write::poured(st, sb, map, offset, data, k).1 is Ok,
    ensures
        ({
            let s = file_write::poured(st, sb, map, offset, data, k).0;
            &&& s.gdt == st.gdt
            &&& volume::later(st, s, sb)
            &&& forall|j: int|
                k <= j < map.len() ==> block_device::block_at(
                    s.disk,
                    sb.block_size,
                    #[trigger] map[j],
                ) == Ok::<Seq<u8>, BlockDeviceError>(
                    poured_block(st, sb, map, offset, data, j),
                ) && (file_write::is_whole(sb.block_size as int, offset, data, j)
                    || block_device::block_at(st.disk, sb.block_size, map[j]) is Ok)
                    && volume::agrees(s, sb.block_size, map[j])
            &&& forall|c: u64| #![trigger block_device::block_at(s.disk, sb.block_size, c)]
                not_listed(map, k, c) ==> block_device::block_at(s.disk, sb.block_size, c)
                    == block_device::block_at(st.disk, sb.block_size, c)
            &&& forall|c: u64| #[trigger]
                volume::agrees(s, sb.block_size, c) || !volume::agrees(st, sb.block_size, c)
                    || !not_listed(map, k, c)
        }),
    decreases map.len() - k,
{
    let bs = sb.block_size;
    if k < map.len() {
        let data_k = poured_block(st, sb, map, offset, data, k);
        block_device::lemma_block_at(st.disk, bs, map[k]);
        let s1 = fs_state::store(st, bs, map[k], data_k).0;
        assert(data_k.len() == bs);
        volume::lemma_stored(st, sb, map[k], data_k);
        law_poured(s1, sb, map, offset, data, k + 1);
        let s = file_write::poured(st, sb, map, offset, data, k).0;
        assert(s == file_write::poured(s1, sb, map, offset, data, k + 1).0);
        append::lemma_later(st, s1, s, sb);
        assert(not_listed(map, k + 1, map[k]));
        assert forall|j: int| k <= j < map.len() implies block_device::block_at(
            s.disk,
            bs,
            #[trigger] map[j],
        ) == Ok::<Seq<u8>, BlockDeviceError>(poured_block(st, sb, map, offset, data, j)) && (
        file_write::is_whole(bs as int, offset, data, j) || block_device::block_at(
            st.disk,
            bs,
            map[j],
        ) is Ok) && volume::agrees(s, bs, map[j]) by {
            if j > k {
                assert(map[k] != map[j]);
                assert(block_device::block_at(s1.disk, bs, map[j]) == block_device::block_at(
                    st.disk,
                    bs,
                    map[j],
                ));
            } else {
                assert(block_device::block_at(s.disk, bs, map[k]) == block_device::block_at(
                    s1.disk,
                    bs,
                    map[k],
                ));
                assert(volume::agrees(s1, bs, map[k]));
                assert(volume::agrees(s, bs, map[k]) || !volume::agrees(s1, bs, map[k])
                    || !not_listed(map, k + 1, map[k]));
            }
        }
        assert forall|c: u64| #![trigger block_device::block_at(s.disk, bs, c)]
            not_listed(map, k, c) implies block_device::block_at(s.disk, bs, c)
            == block_device::block_at(st.disk, bs, c) by {
            assert(map[k] != c);
            assert(not_listed(map, k + 1, c));
            assert(block_device::block_at(s1.disk, bs, c) == block_device::block_at(
                st.disk,
                bs,
                c,
            ));
        }
        assert forall|c: u64| #[trigger] volume::agrees(s, bs, c) || !volume::agrees(st, bs, c)
            || !not_listed(map, k, c) by {
            if volume::agrees(st, bs, c) && not_listed(map, k, c) {
                assert(map[k] != c);
                assert(not_listed(map, k + 1, c));
                assert(volume::agrees(s1, bs, c));
            }
        }
    }
}

/// Whether the transaction sees a file's data as it is on the device.
pub open spec fn data_agrees(st: FsState, sb: Superblock, num: u32) -> bool {
    forall|l: u64|
        (#[trigger] extent::mapped(volume::extents_now(st, sb, num), l)) is Some
            ==> volume::agrees(
            st,
            sb.block_size,
            extent::mapped(volume::extents_now(st, sb, num), l)->Some_0,
        )
}

/// Looking a block of a sound file up finds what its extents say.
pub proof fn lemma_found(st: FsState, sb: Superblock, num: u32, d: nat, l: u64)
    requires
        volume::sound_file(st, sb, num, d),
    ensures
        extent::file_block(
            st.disk,
            sb,
            true,
            volume::inode_now(st, sb, num).block_data,
            l,
        ) == Ok::<Option<u64>, ExtentError>(
            extent::mapped(volume::extents_now(st, sb, num), l),
        ),
{
    volume::lemma_extents(st, sb, num, d);
    tree::law_found_as_listed(
        st.disk,
        sb.block_size,
        volume::inode_now(st, sb, num).block_data,
        d,
        0,
        tree::LOGICAL_END as int,
        block_device::sectors(st.disk) as nat,
        l,
    );
}

/// Whether `s` is `st` but for a file and for blocks that were not used: the
/// table block of its inode differs in that inode's record alone, and the used
/// blocks of others are as they were.
pub open spec fn left_alone(st: FsState, s: FsState, sb: Superblock, num: u32, d: nat) -> bool {
    &&& volume::table_block(s.gdt, sb, num) == volume::table_block(st.gdt, sb, num)
    &&& volume::record_changed(st, s, sb, num)
    &&& forall|b: u64| #[trigger]
        append::foreign(st, sb, num, d, b) ==> block_device::block_at(s.disk, sb.block_size, b)
            == block_device::block_at(st.disk, sb.block_size, b) && (volume::agrees(
            st,
            sb.block_size,
            b,
        ) ==> volume::agrees(s, sb.block_size, b))
}

/// A write changes nothing that is used by something else than the file.
#[verifier::rlimit(100)]
proof fn lemma_left_alone(
    st: FsState,
    s1: FsState,
    s: FsState,
    sb: Superblock,
    num: u32,
    d: nat,
    d2: nat,
    first: int,
    map: Seq<u64>,
)
    requires
        provided(st, s1, sb, num, d, d2, first, map),
        0 <= first,
        first + map.len() <= tree::LOGICAL_END,
        volume::table_block(s.gdt, sb, num) == volume::table_block(s1.gdt, sb, num),
        forall|c: u64| #![trigger block_device::block_at(s.disk, sb.block_size, c)]
            not_listed(map, 0, c) ==> block_device::block_at(s.disk, sb.block_size, c)
                == block_device::block_at(s1.disk, sb.block_size, c),
        forall|c: u64| #[trigger]
            volume::agrees(s, sb.block_size, c) || !volume::agrees(s1, sb.block_size, c)
                || !not_listed(map, 0, c),
    ensures
        left_alone(st, s, sb, num, d),
{
    let bs = sb.block_size;
    let v = volume::extents_now(st, sb, num);
    let w = volume::extents_now(s1, sb, num);
    let t = volume::table_block(st.gdt, sb, num);
    assert(not_listed(map, 0, t)) by {
        assert forall|a: int| 0 <= a < map.len() implies #[trigger] map[a] != t by {
            assert(extent::mapped(w, (first + a) as u64) is Some);
            assert(volume::kept_apart(s1, sb, num, map[a]));
        }
    }
    assert(block_device::block_at(s.disk, bs, t) == block_device::block_at(s1.disk, bs, t));
    assert forall|b: u64| #[trigger] append::foreign(
        st,
        sb,
        num,
        d,
        b,
    ) implies block_device::block_at(
        s.disk,
        bs,
        b,
    ) == block_device::block_at(st.disk, bs, b) && (volume::agrees(st, bs, b) ==> volume::agrees(
        s,
        bs,
        b,
    )) by {
        assert(append::bystander(st, sb, num, d, b));
        assert(not_listed(map, 0, b)) by {
            assert forall|a: int| 0 <= a < map.len() implies #[trigger] map[a] != b by {
                if extent::mapped(v, (first + a) as u64) is Some {
                    assert(extent::mapped(v, (first + a) as u64) == Some(map[a]));
                } else {
                    assert(is_new(st, s1, sb, num, d2, map[a]));
                }
            }
        }
        assert(volume::untouched(st, s1, bs, b));
        assert(volume::agrees(st, bs, b) ==> volume::agrees(s1, bs, b)) by {
            reveal(volume::agrees);
        }
        assert(volume::agrees(s, bs, b) || !volume::agrees(s1, bs, b) || !not_listed(map, 0, b));
    }
}

/// What a write puts into a file is what reading the file gives back, and every
/// other byte of the file stays. The file stays clear of the blocks `log`, and what
/// others use is left alone. Blocks between the file's end and the write stay a hole.
#[verifier::rlimit(100)]
pub proof fn law_write_then_read(
    st: FsState,
    sb: Superblock,
    num: u32,
    d: nat,
    offset: int,
    data: Seq<u8>,
    log: Seq<u64>,
) -> (d2: nat)
    requires
        volume::sound_file(st, sb, num, d),
        0 <= offset,
        data.len() > 0,
        offset + data.len() <= tree::LOGICAL_END * sb.block_size,
        file_write::file_written(
            st,
            sb,
            num,
            volume::inode_now(st, sb, num),
            offset,
            data,
        ).1 is Ok,
    ensures
        ({
            let s = file_write::file_written(
                st,
                sb,
                num,
                volume::inode_now(st, sb, num),
                offset,
                data,
            ).0;
            &&& volume::sound_file(s, sb, num, d2)
            &&& volume::inode_now(s, sb, num) == (InodeView {
                block_data: volume::inode_now(s, sb, num).block_data,
                ..volume::inode_now(st, sb, num)
            })
            &&& volume::same_layout(st.gdt, s.gdt)
            &&& s.disk.len() == st.disk.len()
            &&& left_alone(st, s, sb, num, d)
            &&& data_agrees(st, sb, num) ==> data_agrees(s, sb, num)
            &&& append::clear_of(st, sb, num, d, log) ==> append::clear_of(s, sb, num, d2, log)
            &&& file::read_fault(
                s.disk,
                sb.block_size,
                extent::in_order(volume::extents_now(s, sb, num)),
                offset,
                offset + data.len(),
            ) is None
            &&& forall|o: int|
                0 <= o <= u64::MAX ==> #[trigger] file::file_byte(
                    s.disk,
                    sb.block_size,
                    extent::in_order(volume::extents_now(s, sb, num)),
                    o,
                ) == (if offset <= o < offset + data.len() {
                    data[o - offset]
                } else {
                    file::file_byte(
                        st.disk,
                        sb.block_size,
                        extent::in_order(volume::extents_now(st, sb, num)),
                        o,
                    )
                })
        }),
{
    let bs = sb.block_size as int;
    let len = data.len() as int;
    let v = volume::extents_now(st, sb, num);
    let i = volume::inode_now(st, sb, num);
    let first = offset / bs;
    let last = (offset + len - 1) / bs;
    volume::lemma_extents(st, sb, num, d);
    vstd::arithmetic::div_mod::lemma_div_pos_is_pos(offset, bs);
    vstd::arithmetic::div_mod::lemma_div_is_ordered(offset, offset + len - 1, bs);
    vstd::arithmetic::div_mod::lemma_fundamental_div_mod(offset + len - 1, bs);
    vstd::arithmetic::div_mod::lemma_mod_bound(offset + len - 1, bs);
    assert(last < tree::LOGICAL_END) by (nonlinear_arith)
        requires
            offset + len - 1 == bs * last + (offset + len - 1) % bs,
            (offset + len - 1) % bs >= 0,
            offset + len <= tree::LOGICAL_END * bs,
            bs > 0,
    ;
    let (s1, r1) = file_write::provisioned(st, sb, num, i, first, last);
    let map = r1->Ok_0;
    let d2 = law_provisioned(st, sb, num, d, first, last);
    let w = volume::extents_now(s1, sb, num);
    lemma_pour_kept(st, s1, sb, num, d, d2, first, map, offset, data);
    let s = file_write::poured(s1, sb, map, offset, data, 0).0;
    volume::lemma_extents(s1, sb, num, d2);
    tree::law_resolved_as_mapped(v, 0, tree::LOGICAL_END as int, 0);
    tree::law_resolved_as_mapped(w, 0, tree::LOGICAL_END as int, 0);
    assert forall|l: int| first <= l <= last implies (#[trigger] file::lblock_bytes(
        s.disk,
        sb.block_size,
        w,
        l,
    )) == Ok::<Seq<u8>, BlockDeviceError>(
        poured_block(s1, sb, map, offset, data, l - first),
    ) by {
        tree::law_resolved_as_mapped(w, 0, tree::LOGICAL_END as int, l as u64);
        assert(map[l - first] == extent::mapped(w, l as u64)->Some_0);
    }
    lemma_no_fault(s.disk, sb.block_size, w, offset, offset + len);
    append::lemma_later(st, s1, s, sb);
    lemma_left_alone(st, s1, s, sb, num, d, d2, first, map);
    if data_agrees(st, sb, num) {
        lemma_data_agrees(st, s1, s, sb, num, d, d2, first, map);
    }
    if append::clear_of(st, sb, num, d, log) {
        lemma_still_clear(st, s1, s, sb, num, d, d2, first, map, log);
    }
    assert forall|o: int| 0 <= o <= u64::MAX implies #[trigger] file::file_byte(
        s.disk,
        sb.block_size,
        w,
        o,
    ) == (if offset <= o < offset + len {
        data[o - offset]
    } else {
        file::file_byte(st.disk, sb.block_size, v, o)
    }) by {
        lemma_byte(st, s1, s, sb, num, d, d2, first, map, offset, data, o);
    }
    d2
}

/// After the blocks were written the file is still sound, and lies where it lay.
#[verifier::rlimit(100)]
proof fn lemma_pour_kept(
    st: FsState,
    s1: FsState,
    sb: Superblock,
    num: u32,
    d: nat,
    d2: nat,
    first: int,
    map: Seq<u64>,
    offset: int,
    data: Seq<u8>,
)
    requires
        provided(st, s1, sb, num, d, d2, first, map),
        0 <= first,
        first + map.len() <= tree::LOGICAL_END,
        file_write::poured(s1, sb, map, offset, data, 0).1 is Ok,
    ensures
        ({
            let s = file_write::poured(s1, sb, map, offset, data, 0).0;
            &&& listed_apart(s1, sb, map)
            &&& volume::sound_file(s, sb, num, d2)
            &&& volume::extents_now(s, sb, num) == volume::extents_now(s1, sb, num)
            &&& volume::inode_now(s, sb, num) == volume::inode_now(s1, sb, num)
            &&& forall|j: int|
                0 <= j < map.len() ==> block_device::block_at(
                    s.disk,
                    sb.block_size,
                    #[trigger] map[j],
                ) == Ok::<Seq<u8>, BlockDeviceError>(
                    poured_block(s1, sb, map, offset, data, j),
                ) && (file_write::is_whole(sb.block_size as int, offset, data, j)
                    || block_device::block_at(s1.disk, sb.block_size, map[j]) is Ok)
                    && volume::agrees(s, sb.block_size, map[j])
            &&& forall|c: u64| #![trigger block_device::block_at(s.disk, sb.block_size, c)]
                not_listed(map, 0, c) ==> block_device::block_at(s.disk, sb.block_size, c)
                    == block_device::block_at(s1.disk, sb.block_size, c)
            &&& forall|c: u64| #[trigger]
                volume::agrees(s, sb.block_size, c) || !volume::agrees(s1, sb.block_size, c)
                    || !not_listed(map, 0, c)
            &&& volume::later(s1, s, sb)
            &&& volume::table_block(s.gdt, sb, num) == volume::table_block(s1.gdt, sb, num)
            &&& forall|b: u64| #[trigger]
                append::bystander(s1, sb, num, d2, b) ==> append::bystander(s, sb, num, d2, b)
        }),
{
    let w = volume::extents_now(s1, sb, num);
    let bs = sb.block_size;
    assert forall|k: int| 0 <= k < map.len() implies volume::kept_apart(
        s1,
        sb,
        num,
        #[trigger] map[k],
    ) && !volume::node_block(s1, sb, num, d2, map[k]) && extent::mapped(w, (first + k) as u64)
        == Some(map[k]) by {
        assert(extent::mapped(w, (first + k) as u64) is Some);
    }
    assert forall|a: int, b: int| 0 <= a < b < map.len() implies #[trigger] map[a]
        != #[trigger] map[b] by {
        assert(extent::mapped(w, (first + a) as u64) == Some(map[a]));
        assert(extent::mapped(w, (first + b) as u64) == Some(map[b]));
        assert((first + a) as u64 != (first + b) as u64);
    }
    let s = file_write::poured(s1, sb, map, offset, data, 0).0;
    law_poured(s1, sb, map, offset, data, 0);
    let t = volume::table_block(s1.gdt, sb, num);
    assert(not_listed(map, 0, t)) by {
        assert forall|a: int| 0 <= a < map.len() implies #[trigger] map[a] != t by {
            assert(volume::kept_apart(s1, sb, num, map[a]));
        }
    }
    assert(volume::agrees(s, bs, t));
    assert forall|b: u64| #[trigger] volume::node_block(s1, sb, num, d2, b) implies {
        &&& block_device::block_at(s.disk, bs, b) == block_device::block_at(s1.disk, bs, b)
        &&& volume::agrees(s, bs, b)
    } by {
        assert(not_listed(map, 0, b)) by {
            assert forall|a: int| 0 <= a < map.len() implies #[trigger] map[a] != b by {
                assert(!volume::node_block(s1, sb, num, d2, map[a]));
            }
        }
        assert(volume::agrees(s, bs, b) || !volume::agrees(s1, bs, b) || !not_listed(map, 0, b));
    }
    volume::lemma_file_kept(s1, s, sb, num, d2);
    volume::lemma_volume_kept(s1, s, sb);
    assert forall|b: u64| #[trigger] append::bystander(
        s1,
        sb,
        num,
        d2,
        b,
    ) implies append::bystander(
        s,
        sb,
        num,
        d2,
        b,
    ) by {
        assert(volume::used(s, sb, b));
    }
}

/// Blocks that can all be read give no fault.
pub proof fn lemma_no_fault(disk: Seq<u8>, bs: u32, leaves: Seq<ExtentLeaf>, from: int, to: int)
    requires
        bs > 0,
        0 <= from,
        forall|l: int|
            from / (bs as int) <= l <= (to - 1) / (bs as int) ==> (#[trigger] file::lblock_bytes(
                disk,
                bs,
                leaves,
                l,
            )) is Ok,
    ensures
        file::read_fault(disk, bs, leaves, from, to) is None,
    decreases to + 0x1_0000_0000 - from,
{
    if from < to {
        let n = bs as int;
        let next = from + n - from % n;
        vstd::arithmetic::div_mod::lemma_fundamental_div_mod(from, n);
        vstd::arithmetic::div_mod::lemma_mod_bound(from, n);
        vstd::arithmetic::div_mod::lemma_div_is_ordered(from, to - 1, n);
        assert(next / n == from / n + 1) by (nonlinear_arith)
            requires
                n > 0,
                next == n * (from / n) + n,
        ;
        assert(file::lblock_bytes(disk, bs, leaves, from / n) is Ok);
        lemma_no_fault(disk, bs, leaves, next, to);
    }
}

/// One byte of the file after the write.
#[verifier::rlimit(100)]
proof fn lemma_byte(
    st: FsState,
    s1: FsState,
    s: FsState,
    sb: Superblock,
    num: u32,
    d: nat,
    d2: nat,
    first: int,
    map: Seq<u64>,
    offset: int,
    data: Seq<u8>,
    o: int,
)
    requires
        volume::sound_file(st, sb, num, d),
        provided(st, s1, sb, num, d, d2, first, map),
        0 <= first,
        first + map.len() <= tree::LOGICAL_END,
        listed_apart(s1, sb, map),
        0 <= offset,
        data.len() > 0,
        first == offset / (sb.block_size as int),
        map.len() == file_write::span(sb.block_size as int, offset, data.len() as int),
        forall|j: int|
            0 <= j < map.len() ==> block_device::block_at(
                s.disk,
                sb.block_size,
                #[trigger] map[j],
            ) == Ok::<Seq<u8>, BlockDeviceError>(poured_block(s1, sb, map, offset, data, j)) && (
            file_write::is_whole(sb.block_size as int, offset, data, j) || block_device::block_at(
                s1.disk,
                sb.block_size,
                map[j],
            ) is Ok),
        forall|c: u64| #![trigger block_device::block_at(s.disk, sb.block_size, c)]
            not_listed(map, 0, c) ==> block_device::block_at(s.disk, sb.block_size, c)
                == block_device::block_at(s1.disk, sb.block_size, c),
        0 <= o <= u64::MAX,
    ensures
        file::file_byte(s.disk, sb.block_size, volume::extents_now(s1, sb, num), o) == (if offset
            <= o < offset + data.len() {
            data[o - offset]
        } else {
            file::file_byte(st.disk, sb.block_size, volume::extents_now(st, sb, num), o)
        }),
{
    let bs = sb.block_size as int;
    let len = data.len() as int;
    let v = volume::extents_now(st, sb, num);
    let w = volume::extents_now(s1, sb, num);
    let end = tree::LOGICAL_END as int;
    let l = o / bs;
    let x = o % bs;
    volume::lemma_extents(st, sb, num, d);
    volume::lemma_extents(s1, sb, num, d2);
    vstd::arithmetic::div_mod::lemma_fundamental_div_mod(o, bs);
    vstd::arithmetic::div_mod::lemma_mod_bound(o, bs);
    vstd::arithmetic::div_mod::lemma_div_pos_is_pos(o, bs);
    assert(l <= o) by (nonlinear_arith)
        requires
            o == bs * l + x,
            bs >= 1,
            0 <= x,
            0 <= l,
    ;
    tree::law_resolved_as_mapped(v, 0, end, l as u64);
    tree::law_resolved_as_mapped(w, 0, end, l as u64);
    let k = l - first;
    lemma_place(bs, offset, len, o);
    if 0 <= k < map.len() {
        assert(extent::mapped(w, l as u64) == Some(map[k]));
        file_write::lemma_parts(bs, offset, len, k);
        let at = file_write::part_offset(bs, offset, k);
        let part = file_write::part(bs, offset, data, k);
        let b = map[k];
        let base = block_device::block_at(s1.disk, sb.block_size, b)->Ok_0;
        if file_write::is_whole(bs, offset, data, k) {
            assert(offset <= o < offset + len);
        } else {
            block_device::lemma_block_at(s1.disk, sb.block_size, b);
            assert((first + k) as u64 == l as u64);
            if extent::mapped(v, l as u64) is Some {
                assert(extent::mapped(v, (first + k) as u64) == Some(map[k]));
                assert(append::bystander(st, sb, num, d, b));
            } else {
                assert(is_new(st, s1, sb, num, d2, map[k]));
            }
        }
    } else {
        assert(extent::mapped(w, l as u64) == extent::mapped(v, l as u64));
        if extent::mapped(v, l as u64) is Some {
            let b = extent::mapped(v, l as u64)->Some_0;
            assert(append::bystander(st, sb, num, d, b));
            assert(not_listed(map, 0, b)) by {
                assert forall|a: int| 0 <= a < map.len() implies #[trigger] map[a] != b by {
                    assert(extent::mapped(w, (first + a) as u64) == Some(map[a]));
                    assert(extent::mapped(w, l as u64) is Some);
                    assert(extent::mapped(w, l as u64) != extent::mapped(w, (first + a) as u64));
                }
            }
        }
    }
}

/// Which part of the data byte `o` of the file comes from.
proof fn lemma_place(bs: int, offset: int, len: int, o: int)
    requires
        bs > 0,
        0 <= offset,
        0 < len,
        0 <= o,
    ensures
        ({
            let k = o / bs - offset / bs;
            let at = file_write::part_offset(bs, offset, k);
            let n = file_write::part_end(bs, offset, len, k) - file_write::part_start(
                bs,
                offset,
                k,
            );
            &&& offset <= o < offset + len ==> 0 <= k < file_write::span(bs, offset, len)
            &&& 0 <= k < file_write::span(bs, offset, len) ==> {
                &&& (offset <= o < offset + len) == (at <= o % bs < at + n)
                &&& file_write::part_start(bs, offset, k) + (o % bs - at) == o - offset
            }
        }),
{
    let k = o / bs - offset / bs;
    let q = offset / bs;
    let r = offset % bs;
    let x = o % bs;
    let last = offset + len - 1;
    vstd::arithmetic::div_mod::lemma_fundamental_div_mod(o, bs);
    vstd::arithmetic::div_mod::lemma_fundamental_div_mod(offset, bs);
    vstd::arithmetic::div_mod::lemma_mod_bound(o, bs);
    vstd::arithmetic::div_mod::lemma_mod_bound(offset, bs);
    assert(o - offset == k * bs + x - r) by (nonlinear_arith)
        requires
            o == bs * (o / bs) + x,
            offset == bs * q + r,
            k == o / bs - q,
    ;
    if offset <= o < offset + len {
        vstd::arithmetic::div_mod::lemma_div_is_ordered(offset, o, bs);
        vstd::arithmetic::div_mod::lemma_div_is_ordered(o, last, bs);
    }
    if 0 <= k < file_write::span(bs, offset, len) {
        file_write::lemma_parts(bs, offset, len, k);
        assert((k + 1) * bs == k * bs + bs) by (nonlinear_arith);
        if k == 0 {
            assert(k * bs == 0);
        } else {
            assert(k * bs >= bs) by (nonlinear_arith)
                requires
                    k >= 1,
                    bs > 0,
            ;
        }
    }
}

/// What was seen as it is on the device still is.
proof fn lemma_data_agrees(
    st: FsState,
    s1: FsState,
    s: FsState,
    sb: Superblock,
    num: u32,
    d: nat,
    d2: nat,
    first: int,
    map: Seq<u64>,
)
    requires
        volume::sound_file(st, sb, num, d),
        data_agrees(st, sb, num),
        provided(st, s1, sb, num, d, d2, first, map),
        0 <= first,
        first + map.len() <= tree::LOGICAL_END,
        volume::extents_now(s, sb, num) == volume::extents_now(s1, sb, num),
        forall|j: int|
            0 <= j < map.len() ==> volume::agrees(s, sb.block_size, #[trigger] map[j]),
        forall|c: u64| #[trigger]
            volume::agrees(s, sb.block_size, c) || !volume::agrees(s1, sb.block_size, c)
                || !not_listed(map, 0, c),
    ensures
        data_agrees(s, sb, num),
{
    let v = volume::extents_now(st, sb, num);
    let w = volume::extents_now(s1, sb, num);
    assert forall|l: u64| (#[trigger] extent::mapped(w, l)) is Some implies volume::agrees(
        s,
        sb.block_size,
        extent::mapped(w, l)->Some_0,
    ) by {
        let b = extent::mapped(w, l)->Some_0;
        if first <= l < first + map.len() {
            assert(map[l - first] == b);
        } else {
            assert(extent::mapped(v, l) is Some);
            assert(append::bystander(st, sb, num, d, b));
            assert(volume::agrees(st, sb.block_size, b));
            assert(volume::agrees(s1, sb.block_size, b)) by {
                reveal(volume::agrees);
            }
            assert(not_listed(map, 0, b)) by {
                assert forall|a: int| 0 <= a < map.len() implies #[trigger] map[a] != b by {
                    assert(extent::mapped(w, (first + a) as u64) == Some(map[a]));
                    assert(extent::mapped(w, l) != extent::mapped(w, (first + a) as u64));
                }
            }
            assert(volume::agrees(s, sb.block_size, b) || !volume::agrees(s1, sb.block_size, b)
                || !not_listed(map, 0, b));
        }
    }
}

/// What was clear of the journal still is.
proof fn lemma_still_clear(
    st: FsState,
    s1: FsState,
    s: FsState,
    sb: Superblock,
    num: u32,
    d: nat,
    d2: nat,
    first: int,
    map: Seq<u64>,
    log: Seq<u64>,
)
    requires
        append::clear_of(st, sb, num, d, log),
        0 <= first,
        first + map.len() <= tree::LOGICAL_END,
        provided(st, s1, sb, num, d, d2, first, map),
        volume::extents_now(s, sb, num) == volume::extents_now(s1, sb, num),
        forall|b: u64| #[trigger]
            append::bystander(s1, sb, num, d2, b) ==> append::bystander(s, sb, num, d2, b),
    ensures
        append::clear_of(s, sb, num, d2, log),
{
    let v = volume::extents_now(st, sb, num);
    let w = volume::extents_now(s1, sb, num);
    assert forall|b: u64| #[trigger] log.contains(b) implies append::bystander(
        s,
        sb,
        num,
        d2,
        b,
    ) && append::unmapped(w, b) by {
        assert(append::bystander(st, sb, num, d, b));
        assert(append::bystander(s1, sb, num, d2, b));
        assert(append::unmapped(v, b));
        assert forall|l: u64| (#[trigger] extent::mapped(w, l)) != Some(b) by {
            assert(extent::mapped(v, l) != Some(b));
            if first <= l < first + map.len() {
                assert(map[l - first] == map[l - first]);
                assert((first + (l - first)) as u64 == l);
                if extent::mapped(v, l) is None {
                    assert(is_new(st, s1, sb, num, d2, map[l - first]));
                }
            }
        }
    }
}

} // verus!
