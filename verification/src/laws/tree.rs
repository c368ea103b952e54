//! Sound extent trees, and what looking up and listing their extents agree on.
use vstd::prelude::*;
use crate::block_device;
use crate::block_device::BlockDeviceError;
use crate::extent;
use crate::extent::{ExtentError, ExtentIdx, ExtentLeaf};
use crate::extent_write;
use crate::extent_write::ExtentWriteError;
use crate::file;

verus! {

/// Behind the last logical block that an extent can map.
pub const LOGICAL_END: u64 = 0x1_0000_0000;

/// Whether extents hold a block each at least, lie between the logical blocks
/// `lo` and `hi`, and follow one another without overlap.
pub open spec fn in_range(v: Seq<ExtentLeaf>, lo: int, hi: int) -> bool {
    &&& forall|i: int| #![trigger v[i]]
        0 <= i < v.len() ==> lo <= v[i].ee_block && v[i].blocks() > 0 && v[i].ee_block
            + v[i].blocks() <= hi
    &&& forall|i: int, j: int| #![trigger v[i], v[j]]
        0 <= i < j < v.len() ==> v[i].ee_block + v[i].blocks() <= v[j].ee_block
}

/// The logical block behind the last extent.
pub open spec fn end_of(v: Seq<ExtentLeaf>) -> int {
    if v.len() == 0 {
        0
    } else {
        v.last().ee_block + v.last().blocks()
    }
}

/// Whether a node by itself can be used, at depth `d`: it has room for as many
/// entries as its header allows.
pub open spec fn sound_node(node: Seq<u8>, d: nat) -> bool {
    &&& extent::node_fault(node) is None
    &&& extent::header(node).eh_depth == d
    &&& extent::header(node).eh_entries <= extent::header(node).eh_max
    &&& extent::entry_offset(extent::header(node).eh_max as int) <= node.len()
}

/// Whether a node has an entry, and would have room for two.
pub open spec fn inhabited(node: Seq<u8>) -> bool {
    extent::header(node).eh_entries > 0 && extent::header(node).eh_max >= 2
}

/// The node under entry `k` of an inner node.
pub open spec fn child_of(disk: Seq<u8>, bs: u32, node: Seq<u8>, k: int) -> Result<
    Seq<u8>,
    BlockDeviceError,
> {
    block_device::block_at(disk, bs, extent::node_idxs(node)[k].child())
}

/// Where the logical blocks under entry `k` end: where the next entry's start.
pub open spec fn upper(idxs: Seq<ExtentIdx>, k: int, hi: int) -> int {
    if k + 1 < idxs.len() {
        idxs[k + 1].ei_block as int
    } else {
        hi
    }
}

/// Whether the tree under `node` is sound: it is `d` levels deep, no node but
/// the root is empty or too small to be split, and the extents under each entry lie
/// between its key and the next.
pub open spec fn sound(disk: Seq<u8>, bs: u32, node: Seq<u8>, d: nat, lo: int, hi: int) -> bool
    decreases d,
{
    &&& sound_node(node, d)
    &&& if d == 0 {
        in_range(extent::node_leaves(node), lo, hi)
    } else {
        &&& extent::header(node).eh_entries > 0
        &&& forall|k: int|
            0 <= k < extent::header(node).eh_entries ==> {
                let c = #[trigger] child_of(disk, bs, node, k);
                let key = extent::node_idxs(node)[k].ei_block as int;
                let end = upper(extent::node_idxs(node), k, hi);
                &&& lo <= key <= end <= hi
                &&& c is Ok
                &&& inhabited(c->Ok_0)
                &&& sound(disk, bs, c->Ok_0, (d - 1) as nat, key, end)
            }
    }
}

/// Whether block `b` holds a node of the tree under `node`.
pub open spec fn within(disk: Seq<u8>, bs: u32, node: Seq<u8>, d: nat, b: u64) -> bool
    decreases d,
{
    d > 0 && exists|k: int|
        0 <= k < extent::header(node).eh_entries && {
            let c = #[trigger] child_of(disk, bs, node, k);
            ||| extent::node_idxs(node)[k].child() == b
            ||| c is Ok && within(disk, bs, c->Ok_0, (d - 1) as nat, b)
        }
}

/// The extents under entry `k`.
pub open spec fn below(disk: Seq<u8>, bs: u32, node: Seq<u8>, k: int, hops: nat) -> Seq<
    ExtentLeaf,
> {
    extent::tree_leaves(disk, bs, child_of(disk, bs, node, k)->Ok_0, hops)->Ok_0
}

/// Extents in order behind extents in order are in order.
pub proof fn lemma_in_range_joined(
    a: Seq<ExtentLeaf>,
    b: Seq<ExtentLeaf>,
    lo: int,
    m: int,
    n: int,
    hi: int,
)
    requires
        in_range(a, lo, m),
        in_range(b, n, hi),
        lo <= n,
        m <= n,
        a.len() > 0 ==> m <= hi,
    ensures
        in_range(a + b, lo, hi),
{
    let c = a + b;
    assert forall|i: int| #![trigger c[i]] 0 <= i < c.len() implies lo <= c[i].ee_block
        && c[i].blocks() > 0 && c[i].ee_block + c[i].blocks() <= hi by {
        if i < a.len() {
            assert(c[i] == a[i]);
        } else {
            assert(c[i] == b[i - a.len()]);
        }
    }
    assert forall|i: int, j: int| #![trigger c[i], c[j]] 0 <= i < j < c.len() implies c[i].ee_block
        + c[i].blocks() <= c[j].ee_block by {
        if j < a.len() {
            assert(c[i] == a[i] && c[j] == a[j]);
        } else if i < a.len() {
            assert(c[i] == a[i] && c[j] == b[j - a.len()]);
        } else {
            assert(c[i] == b[i - a.len()] && c[j] == b[j - a.len()]);
        }
    }
}

/// A sound tree can be listed, and its extents are in order.
pub proof fn law_listed(
    disk: Seq<u8>,
    bs: u32,
    node: Seq<u8>,
    d: nat,
    lo: int,
    hi: int,
    hops: nat,
)
    requires
        sound(disk, bs, node, d, lo, hi),
        lo <= hi,
        d <= hops,
    ensures
        extent::tree_leaves(disk, bs, node, hops) is Ok,
        in_range(extent::tree_leaves(disk, bs, node, hops)->Ok_0, lo, hi),
        extent::header(node).eh_entries > 0 ==> extent::tree_leaves(
            disk,
            bs,
            node,
            hops,
        )->Ok_0.len() > 0,
    decreases d, 70000int,
{
    if d > 0 {
        lemma_children(disk, bs, node, d, lo, hi, hops, extent::header(node).eh_entries as int);
    }
}

/// Where the extents under the first `k` entries end.
pub open spec fn reach(idxs: Seq<ExtentIdx>, k: int, lo: int, hi: int) -> int {
    if k == 0 {
        lo
    } else {
        upper(idxs, k - 1, hi)
    }
}

/// The extents under the first `k` entries can be listed, and are in order.
pub proof fn lemma_children(
    disk: Seq<u8>,
    bs: u32,
    node: Seq<u8>,
    d: nat,
    lo: int,
    hi: int,
    hops: nat,
    k: int,
)
    requires
        sound(disk, bs, node, d, lo, hi),
        lo <= hi,
        0 < d <= hops,
        0 <= k <= extent::header(node).eh_entries,
    ensures
        extent::child_leaves(disk, bs, node, k, hops) is Ok,
        in_range(
            extent::child_leaves(disk, bs, node, k, hops)->Ok_0,
            lo,
            reach(extent::node_idxs(node), k, lo, hi),
        ),
        k > 0 ==> extent::child_leaves(disk, bs, node, k, hops)->Ok_0.len() > 0,
        k > 0 ==> extent::child_leaves(disk, bs, node, k, hops)->Ok_0
            == extent::child_leaves(disk, bs, node, k - 1, hops)->Ok_0 + below(
            disk,
            bs,
            node,
            k - 1,
            (hops - 1) as nat,
        ),
    decreases d, k,
{
    if k > 0 {
        lemma_children(disk, bs, node, d, lo, hi, hops, k - 1);
        let c = child_of(disk, bs, node, k - 1);
        let idxs = extent::node_idxs(node);
        let key = idxs[k - 1].ei_block as int;
        let end = upper(idxs, k - 1, hi);
        law_listed(disk, bs, c->Ok_0, (d - 1) as nat, key, end, (hops - 1) as nat);
        let a = extent::child_leaves(disk, bs, node, k - 1, hops)->Ok_0;
        let b = below(disk, bs, node, k - 1, (hops - 1) as nat);
        lemma_in_range_joined(a, b, lo, reach(idxs, k - 1, lo, hi), key, end);
    }
}

/// An entry's key is below the next one's.
pub proof fn lemma_keys(
    disk: Seq<u8>,
    bs: u32,
    node: Seq<u8>,
    d: nat,
    lo: int,
    hi: int,
    j: int,
    k: int,
)
    requires
        sound(disk, bs, node, d, lo, hi),
        lo <= hi,
        0 < d,
        0 <= j < k < extent::header(node).eh_entries,
    ensures
        extent::node_idxs(node)[j].ei_block < extent::node_idxs(node)[k].ei_block,
    decreases k - j,
{
    let idxs = extent::node_idxs(node);
    let c = child_of(disk, bs, node, j);
    law_listed(
        disk,
        bs,
        c->Ok_0,
        (d - 1) as nat,
        idxs[j].ei_block as int,
        upper(idxs, j, hi),
        (d - 1) as nat,
    );
    let v = extent::tree_leaves(disk, bs, c->Ok_0, (d - 1) as nat)->Ok_0;
    assert(v[0].blocks() > 0);
    if j + 1 < k {
        lemma_keys(disk, bs, node, d, lo, hi, j + 1, k);
    }
}

/// Extents that do not cover a block do not map it.
pub proof fn lemma_mapped_none(v: Seq<ExtentLeaf>, l: u64)
    requires
        forall|i: int| 0 <= i < v.len() ==> !(#[trigger] v[i]).covers(l),
    ensures
        extent::mapped(v, l) is None,
    decreases v.len(),
{
    if v.len() > 0 {
        assert forall|i: int| 0 <= i < v.drop_last().len() implies !(
        #[trigger] v.drop_last()[i]).covers(l) by {
            assert(v[i] == v.drop_last()[i]);
        }
        lemma_mapped_none(v.drop_last(), l);
        assert(!v[v.len() - 1].covers(l));
    }
}

/// Of extents in order, the one that covers a block maps it.
pub proof fn lemma_mapped_some(v: Seq<ExtentLeaf>, lo: int, hi: int, l: u64, i: int)
    requires
        in_range(v, lo, hi),
        0 <= i < v.len(),
        v[i].covers(l),
    ensures
        extent::mapped(v, l) == Some((v[i].phys() + l - v[i].ee_block) as u64),
    decreases v.len(),
{
    let d = v.drop_last();
    assert(in_range(d, lo, hi)) by {
        assert forall|a: int| #![trigger d[a]] 0 <= a < d.len() implies lo <= d[a].ee_block
            && d[a].blocks() > 0 && d[a].ee_block + d[a].blocks() <= hi by {
            assert(d[a] == v[a]);
        }
        assert forall|a: int, b: int| #![trigger d[a], d[b]]
            0 <= a < b < d.len() implies d[a].ee_block + d[a].blocks() <= d[b].ee_block by {
            assert(d[a] == v[a] && d[b] == v[b]);
        }
    }
    if i < v.len() - 1 {
        assert(d[i] == v[i]);
        lemma_mapped_some(d, lo, hi, l, i);
    } else {
        assert forall|a: int| 0 <= a < d.len() implies !(#[trigger] d[a]).covers(l) by {
            assert(d[a] == v[a]);
            assert(v[a].ee_block + v[a].blocks() <= v[i].ee_block);
        }
        lemma_mapped_none(d, l);
    }
}

/// What the first of two lists maps, or else the second.
pub proof fn lemma_mapped_joined(a: Seq<ExtentLeaf>, b: Seq<ExtentLeaf>, l: u64)
    ensures
        extent::mapped(a + b, l) == (match extent::mapped(a, l) {
            Some(p) => Some(p),
            None => extent::mapped(b, l),
        }),
    decreases b.len(),
{
    if b.len() == 0 {
        assert(a + b =~= a);
    } else {
        assert((a + b).drop_last() =~= a + b.drop_last());
        assert((a + b).last() == b.last());
        lemma_mapped_joined(a, b.drop_last(), l);
    }
}

/// Looking a block up finds what the tree's list of extents says of it.
pub proof fn law_found_as_listed(
    disk: Seq<u8>,
    bs: u32,
    node: Seq<u8>,
    d: nat,
    lo: int,
    hi: int,
    hops: nat,
    l: u64,
)
    requires
        sound(disk, bs, node, d, lo, hi),
        lo <= hi,
        d <= hops,
    ensures
        extent::looked_up(disk, bs, node, l, hops) == Ok::<Option<u64>, ExtentError>(
            extent::mapped(extent::tree_leaves(disk, bs, node, hops)->Ok_0, l),
        ),
    decreases d,
{
    if d > 0 {
        let n = extent::header(node).eh_entries as int;
        let idxs = extent::node_idxs(node);
        let m = lemma_leading_range(idxs, l);
        lemma_children(disk, bs, node, d, lo, hi, hops, n);
        if m > 0 {
            assert(child_of(disk, bs, node, m - 1) is Ok);
            law_found_as_listed(
                disk,
                bs,
                child_of(disk, bs, node, m - 1)->Ok_0,
                (d - 1) as nat,
                idxs[m - 1].ei_block as int,
                upper(idxs, m - 1, hi),
                (hops - 1) as nat,
                l,
            );
        }
        lemma_one_child(disk, bs, node, d, lo, hi, hops, l, m, n);
    }
}

proof fn lemma_leading_range(idxs: Seq<ExtentIdx>, l: u64) -> (m: int)
    ensures
        m == extent::leading(idxs, l),
        0 <= m <= idxs.len(),
        forall|i: int| 0 <= i < m ==> (#[trigger] idxs[i]).ei_block <= l,
        m < idxs.len() ==> idxs[m].ei_block > l,
    decreases idxs.len(),
{
    if idxs.len() > 0 {
        let k = lemma_leading_range(idxs.drop_last(), l);
        assert forall|i: int| 0 <= i < k implies (#[trigger] idxs[i]).ei_block <= l by {
            assert(idxs.drop_last()[i].ei_block <= l);
        }
        if k < idxs.len() - 1 {
            assert(idxs.drop_last()[k] == idxs[k]);
        }
    }
    extent::leading(idxs, l)
}

/// Of the first `k` entries, only entry `m - 1` leads to block `l`.
proof fn lemma_one_child(
    disk: Seq<u8>,
    bs: u32,
    node: Seq<u8>,
    d: nat,
    lo: int,
    hi: int,
    hops: nat,
    l: u64,
    m: int,
    k: int,
)
    requires
        sound(disk, bs, node, d, lo, hi),
        lo <= hi,
        0 < d <= hops,
        m == extent::leading(extent::node_idxs(node), l),
        0 <= k <= extent::header(node).eh_entries,
    ensures
        extent::mapped(extent::child_leaves(disk, bs, node, k, hops)->Ok_0, l) == (if 0 < m <= k {
            extent::mapped(below(disk, bs, node, m - 1, (hops - 1) as nat), l)
        } else {
            None
        }),
    decreases k,
{
    let idxs = extent::node_idxs(node);
    lemma_leading_range(idxs, l);
    if k > 0 {
        lemma_one_child(disk, bs, node, d, lo, hi, hops, l, m, k - 1);
        lemma_children(disk, bs, node, d, lo, hi, hops, k);
        let a = extent::child_leaves(disk, bs, node, k - 1, hops)->Ok_0;
        let b = below(disk, bs, node, k - 1, (hops - 1) as nat);
        lemma_mapped_joined(a, b, l);
        let c = child_of(disk, bs, node, k - 1);
        let key = idxs[k - 1].ei_block as int;
        law_listed(
            disk,
            bs,
            c->Ok_0,
            (d - 1) as nat,
            key,
            upper(idxs, k - 1, hi),
            (hops - 1) as nat,
        );
        if k != m {
            assert forall|i: int| 0 <= i < b.len() implies !(#[trigger] b[i]).covers(l) by {
                if k < m {
                    assert(idxs[k].ei_block <= l);
                } else if m < k - 1 {
                    lemma_keys(disk, bs, node, d, lo, hi, m, k - 1);
                }
            }
            lemma_mapped_none(b, l);
        }
    }
}

/// Of extents in order, sorting changes nothing, and searching for the last
/// that starts at or before a block finds what maps the block.
pub proof fn law_resolved_as_mapped(v: Seq<ExtentLeaf>, lo: int, hi: int, l: u64)
    requires
        in_range(v, lo, hi),
    ensures
        extent::in_order(v) == v,
        file::resolved(v, l as int) == extent::mapped(v, l),
{
    lemma_in_order_same(v, lo, hi);
    let k = lemma_started_at(v, l);
    if k > 0 && v[k - 1].covers(l) {
        lemma_mapped_some(v, lo, hi, l, k - 1);
    } else {
        assert forall|i: int| 0 <= i < v.len() implies !(#[trigger] v[i]).covers(l) by {
            if i < k - 1 {
                assert(v[i].ee_block + v[i].blocks() <= v[k - 1].ee_block);
                assert(v[k - 1].ee_block <= l);
            } else if i >= k {
                assert(v[i].ee_block > l);
            }
        }
        lemma_mapped_none(v, l);
    }
}

proof fn lemma_started_at(v: Seq<ExtentLeaf>, l: u64) -> (k: int)
    requires
        extent::ordered(v),
    ensures
        k == file::started(v, l as int),
        0 <= k <= v.len(),
        forall|i: int| 0 <= i < k ==> (#[trigger] v[i]).ee_block <= l,
        forall|i: int| k <= i < v.len() ==> (#[trigger] v[i]).ee_block > l,
    decreases v.len(),
{
    if v.len() > 0 && v.last().ee_block > l {
        let d = v.drop_last();
        assert forall|i: int, j: int| 0 <= i < j < d.len() implies d[i].ee_block
            <= d[j].ee_block by {
            assert(v[i].ee_block <= v[j].ee_block);
        }
        let k = lemma_started_at(d, l);
        assert forall|i: int| 0 <= i < k implies (#[trigger] v[i]).ee_block <= l by {
            assert(d[i] == v[i]);
        }
        assert forall|i: int| k <= i < v.len() implies (#[trigger] v[i]).ee_block > l by {
            if i < d.len() {
                assert(d[i] == v[i]);
            }
        }
    } else if v.len() > 0 {
        assert forall|i: int| 0 <= i < v.len() implies (#[trigger] v[i]).ee_block <= l by {
            if i < v.len() - 1 {
                assert(v[i].ee_block <= v[v.len() - 1].ee_block);
            }
        }
    }
    file::started(v, l as int)
}

/// Part of extents in order is in order.
pub proof fn lemma_in_range_part(v: Seq<ExtentLeaf>, lo: int, hi: int, a: int, b: int)
    requires
        in_range(v, lo, hi),
        0 <= a <= b <= v.len(),
    ensures
        in_range(v.subrange(a, b), lo, hi),
{
    let d = v.subrange(a, b);
    assert forall|i: int| #![trigger d[i]] 0 <= i < d.len() implies lo <= d[i].ee_block
        && d[i].blocks() > 0 && d[i].ee_block + d[i].blocks() <= hi by {
        assert(d[i] == v[a + i]);
    }
    assert forall|i: int, j: int| #![trigger d[i], d[j]] 0 <= i < j < d.len() implies d[i].ee_block
        + d[i].blocks() <= d[j].ee_block by {
        assert(d[i] == v[a + i] && d[j] == v[a + j]);
    }
}

proof fn lemma_in_order_same(v: Seq<ExtentLeaf>, lo: int, hi: int)
    requires
        in_range(v, lo, hi),
    ensures
        extent::in_order(v) == v,
        extent::ordered(v),
    decreases v.len(),
{
    assert forall|i: int, j: int| 0 <= i < j < v.len() implies v[i].ee_block <= v[j].ee_block by {
        assert(v[i].ee_block + v[i].blocks() <= v[j].ee_block);
    }
    if v.len() > 0 {
        lemma_in_range_part(v, lo, hi, 0, v.len() - 1);
        assert(v.drop_last() =~= v.subrange(0, v.len() - 1));
        lemma_in_order_same(v.drop_last(), lo, hi);
        let d = v.drop_last();
        if d.len() > 0 {
            assert(v[d.len() - 1].ee_block <= v[d.len() as int].ee_block);
        }
        assert(d.insert(d.len() as int, v.last()) =~= v);
    }
}

/// The rightmost leaf node is found, and is a node of the tree.
proof fn lemma_rightmost(disk: Seq<u8>, bs: u32, node: Seq<u8>, d: nat, lo: int, hi: int)
    requires
        sound(disk, bs, node, d, lo, hi),
        d > 0,
    ensures
        extent_write::rightmost(disk, bs, node, d) is Ok,
        within(disk, bs, node, d, extent_write::rightmost(disk, bs, node, d)->Ok_0),
    decreases d,
{
    let n = extent::header(node).eh_entries as int;
    let idxs = extent::node_idxs(node);
    let c = child_of(disk, bs, node, n - 1);
    assert(c is Ok);
    if d > 1 {
        lemma_rightmost(
            disk,
            bs,
            c->Ok_0,
            (d - 1) as nat,
            idxs[n - 1].ei_block as int,
            upper(idxs, n - 1, hi),
        );
    }
}

/// A tree depends on the blocks that hold its nodes alone.
pub proof fn law_depends_on_nodes(
    disk: Seq<u8>,
    other: Seq<u8>,
    bs: u32,
    node: Seq<u8>,
    d: nat,
    lo: int,
    hi: int,
    hops: nat,
)
    requires
        sound(disk, bs, node, d, lo, hi),
        lo <= hi,
        d <= hops,
        forall|b: u64| #[trigger]
            within(disk, bs, node, d, b) ==> block_device::block_at(other, bs, b)
                == block_device::block_at(disk, bs, b),
    ensures
        sound(other, bs, node, d, lo, hi),
        extent::tree_leaves(other, bs, node, hops) == extent::tree_leaves(disk, bs, node, hops),
        forall|b: u64| #[trigger]
            within(other, bs, node, d, b) == within(disk, bs, node, d, b),
        extent_write::rightmost(other, bs, node, d) == extent_write::rightmost(disk, bs, node, d),
    decreases d,
{
    if d > 0 {
        lemma_rightmost(disk, bs, node, d, lo, hi);
        let n = extent::header(node).eh_entries as int;
        let idxs = extent::node_idxs(node);
        assert forall|k: int| 0 <= k < n implies {
            let c = #[trigger] child_of(other, bs, node, k);
            let key = idxs[k].ei_block as int;
            let end = upper(idxs, k, hi);
            &&& c == child_of(disk, bs, node, k)
            &&& sound(other, bs, c->Ok_0, (d - 1) as nat, key, end)
            &&& below(other, bs, node, k, (hops - 1) as nat) == below(
                disk,
                bs,
                node,
                k,
                (hops - 1) as nat,
            )
            &&& extent::tree_leaves(other, bs, c->Ok_0, (hops - 1) as nat)
                == extent::tree_leaves(disk, bs, c->Ok_0, (hops - 1) as nat)
            &&& forall|b: u64| #[trigger]
                within(other, bs, c->Ok_0, (d - 1) as nat, b) == within(
                    disk,
                    bs,
                    c->Ok_0,
                    (d - 1) as nat,
                    b,
                )
            &&& extent_write::rightmost(other, bs, c->Ok_0, (d - 1) as nat)
                == extent_write::rightmost(disk, bs, c->Ok_0, (d - 1) as nat)
        } by {
            let c = child_of(disk, bs, node, k);
            assert(within(disk, bs, node, d, idxs[k].child()));
            assert forall|b: u64| #[trigger]
                within(disk, bs, c->Ok_0, (d - 1) as nat, b) implies block_device::block_at(
                other,
                bs,
                b,
            ) == block_device::block_at(disk, bs, b) by {
                assert(within(disk, bs, node, d, b));
            }
            law_depends_on_nodes(
                disk,
                other,
                bs,
                c->Ok_0,
                (d - 1) as nat,
                idxs[k].ei_block as int,
                upper(idxs, k, hi),
                (hops - 1) as nat,
            );
        }
        assert forall|k: int| 0 <= k < n implies {
            let c = #[trigger] child_of(other, bs, node, k);
            let key = idxs[k].ei_block as int;
            let end = upper(idxs, k, hi);
            &&& lo <= key <= end <= hi
            &&& c is Ok
            &&& inhabited(c->Ok_0)
            &&& sound(other, bs, c->Ok_0, (d - 1) as nat, key, end)
        } by {
            let c = child_of(disk, bs, node, k);
            assert(child_of(other, bs, node, k) == c);
        }
        lemma_same_children(disk, other, bs, node, hops, n);
        assert(child_of(other, bs, node, n - 1) == child_of(disk, bs, node, n - 1));
        assert forall|b: u64| #[trigger] within(other, bs, node, d, b) == within(
            disk,
            bs,
            node,
            d,
            b,
        ) by {
            if within(other, bs, node, d, b) {
                let k = choose|k: int|
                    0 <= k < n && {
                        let c = #[trigger] child_of(other, bs, node, k);
                        ||| idxs[k].child() == b
                        ||| c is Ok && within(other, bs, c->Ok_0, (d - 1) as nat, b)
                    };
                let c = child_of(disk, bs, node, k);
                assert(child_of(other, bs, node, k) == c);
                assert(within(other, bs, c->Ok_0, (d - 1) as nat, b) == within(
                    disk,
                    bs,
                    c->Ok_0,
                    (d - 1) as nat,
                    b,
                ));
            }
            if within(disk, bs, node, d, b) {
                let k = choose|k: int|
                    0 <= k < n && {
                        let c = #[trigger] child_of(disk, bs, node, k);
                        ||| idxs[k].child() == b
                        ||| c is Ok && within(disk, bs, c->Ok_0, (d - 1) as nat, b)
                    };
                let c = child_of(other, bs, node, k);
                assert(child_of(disk, bs, node, k) == c);
                assert(within(other, bs, c->Ok_0, (d - 1) as nat, b) == within(
                    disk,
                    bs,
                    c->Ok_0,
                    (d - 1) as nat,
                    b,
                ));
            }
        }
    }
}

proof fn lemma_same_children(
    disk: Seq<u8>,
    other: Seq<u8>,
    bs: u32,
    node: Seq<u8>,
    hops: nat,
    k: int,
)
    requires
        hops > 0,
        0 <= k <= extent::header(node).eh_entries,
        forall|j: int|
            0 <= j < k ==> {
                let c = #[trigger] child_of(other, bs, node, j);
                &&& c == child_of(disk, bs, node, j)
                &&& c is Ok
                &&& extent::tree_leaves(other, bs, c->Ok_0, (hops - 1) as nat)
                    == extent::tree_leaves(disk, bs, c->Ok_0, (hops - 1) as nat)
            },
    ensures
        extent::child_leaves(other, bs, node, k, hops) == extent::child_leaves(
            disk,
            bs,
            node,
            k,
            hops,
        ),
    decreases k,
{
    if k > 0 {
        lemma_same_children(disk, other, bs, node, hops, k - 1);
        let c = child_of(other, bs, node, k - 1);
        assert(c == child_of(disk, bs, node, k - 1));
    }
}

/// A node of a sound tree is itself sound, over part of the range.
pub proof fn lemma_node_of(
    disk: Seq<u8>,
    bs: u32,
    node: Seq<u8>,
    d: nat,
    lo: int,
    hi: int,
    b: u64,
) -> (r: (nat, int, int))
    requires
        sound(disk, bs, node, d, lo, hi),
        within(disk, bs, node, d, b),
    ensures
        r.0 < d,
        lo <= r.1 <= r.2 <= hi,
        block_device::block_at(disk, bs, b) is Ok,
        inhabited(block_device::block_at(disk, bs, b)->Ok_0),
        sound(disk, bs, block_device::block_at(disk, bs, b)->Ok_0, r.0, r.1, r.2),
    decreases d,
{
    let n = extent::header(node).eh_entries as int;
    let idxs = extent::node_idxs(node);
    let k = choose|k: int|
        0 <= k < n && {
            let c = #[trigger] child_of(disk, bs, node, k);
            ||| idxs[k].child() == b
            ||| c is Ok && within(disk, bs, c->Ok_0, (d - 1) as nat, b)
        };
    let c = child_of(disk, bs, node, k);
    let key = idxs[k].ei_block as int;
    let end = upper(idxs, k, hi);
    if idxs[k].child() == b {
        ((d - 1) as nat, key, end)
    } else {
        lemma_node_of(disk, bs, c->Ok_0, (d - 1) as nat, key, end, b)
    }
}

/// Changing the rightmost leaf node of a sound tree to another whose extents
/// follow the rest changes the end of the list of extents, and nothing else.
/// Gives the extents in front of that node's.
pub proof fn law_right_edge(
    disk: Seq<u8>,
    other: Seq<u8>,
    bs: u32,
    node: Seq<u8>,
    d: nat,
    lo: int,
    hi: int,
    hops: nat,
    at: u64,
) -> (pre: Seq<ExtentLeaf>)
    requires
        sound(disk, bs, node, d, lo, hi),
        lo <= hi,
        0 < d <= hops,
        extent_write::rightmost(disk, bs, node, d) == Ok::<u64, ExtentWriteError>(at),
    ensures
        within(disk, bs, node, d, at),
        block_device::block_at(disk, bs, at) is Ok,
        ({
            let old_leaf = block_device::block_at(disk, bs, at)->Ok_0;
            let leaf = block_device::block_at(other, bs, at)->Ok_0;
            let before = extent::node_leaves(old_leaf);
            let after = extent::node_leaves(leaf);
            &&& sound_node(old_leaf, 0)
            &&& inhabited(old_leaf)
            &&& in_range(before, lo, hi)
            &&& in_range(pre, lo, before[0].ee_block as int)
            &&& extent::tree_leaves(disk, bs, node, hops) == Ok::<Seq<ExtentLeaf>, ExtentError>(
                pre + before,
            )
            &&& (forall|b: u64| #[trigger]
                within(disk, bs, node, d, b) && b != at ==> block_device::block_at(other, bs, b)
                    == block_device::block_at(disk, bs, b)) && block_device::block_at(
                other,
                bs,
                at,
            ) is Ok && sound_node(leaf, 0) && inhabited(leaf) && in_range(
                after,
                before[0].ee_block as int,
                hi,
            ) ==> {
                &&& sound(other, bs, node, d, lo, hi)
                &&& extent::tree_leaves(other, bs, node, hops) == Ok::<
                    Seq<ExtentLeaf>,
                    ExtentError,
                >(pre + after)
                &&& forall|b: u64| #[trigger]
                    within(other, bs, node, d, b) == within(disk, bs, node, d, b)
                &&& extent_write::rightmost(other, bs, node, d) == Ok::<u64, ExtentWriteError>(at)
            }
        }),
    decreases d,
{
    let n = extent::header(node).eh_entries as int;
    let idxs = extent::node_idxs(node);
    let c = child_of(disk, bs, node, n - 1);
    let cb = idxs[n - 1].child();
    let key = idxs[n - 1].ei_block as int;
    lemma_children(disk, bs, node, d, lo, hi, hops, n);
    lemma_children(disk, bs, node, d, lo, hi, hops, n - 1);
    let front = extent::child_leaves(disk, bs, node, n - 1, hops)->Ok_0;
    law_listed(disk, bs, c->Ok_0, (d - 1) as nat, key, hi, (hops - 1) as nat);
    assert(sound(disk, bs, c->Ok_0, (d - 1) as nat, key, hi));
    let inner = if d == 1 {
        Seq::<ExtentLeaf>::empty()
    } else {
        law_right_edge(disk, other, bs, c->Ok_0, (d - 1) as nat, key, hi, (hops - 1) as nat, at)
    };
    let pre = front + inner;
    let old_leaf = block_device::block_at(disk, bs, at)->Ok_0;
    let before = extent::node_leaves(old_leaf);
    assert(pre + before =~= front + (inner + before));
    if d == 1 {
        assert(inner + before =~= before);
    }
    assert(in_range(inner, key, before[0].ee_block as int));
    lemma_in_range_joined(
        front,
        inner,
        lo,
        reach(idxs, n - 1, lo, hi),
        key,
        before[0].ee_block as int,
    );
    let leaf = block_device::block_at(other, bs, at)->Ok_0;
    let after = extent::node_leaves(leaf);
    if (forall|b: u64| #[trigger]
        within(disk, bs, node, d, b) && b != at ==> block_device::block_at(other, bs, b)
            == block_device::block_at(disk, bs, b)) && block_device::block_at(other, bs, at) is Ok
        && sound_node(leaf, 0) && inhabited(leaf) && in_range(
        after,
        before[0].ee_block as int,
        hi,
    ) {
        lemma_right_edge_changed(disk, other, bs, node, d, lo, hi, hops, at, front, inner);
    }
    pre
}

proof fn lemma_right_edge_changed(
    disk: Seq<u8>,
    other: Seq<u8>,
    bs: u32,
    node: Seq<u8>,
    d: nat,
    lo: int,
    hi: int,
    hops: nat,
    at: u64,
    front: Seq<ExtentLeaf>,
    inner: Seq<ExtentLeaf>,
)
    requires
        sound(disk, bs, node, d, lo, hi),
        lo <= hi,
        0 < d <= hops,
        block_device::block_at(disk, bs, at) is Ok,
        block_device::block_at(other, bs, at) is Ok,
        forall|b: u64| #[trigger]
            within(disk, bs, node, d, b) && b != at ==> block_device::block_at(other, bs, b)
                == block_device::block_at(disk, bs, b),
        ({
            let n = extent::header(node).eh_entries as int;
            let idxs = extent::node_idxs(node);
            let c = child_of(disk, bs, node, n - 1);
            let old_leaf = block_device::block_at(disk, bs, at)->Ok_0;
            let leaf = block_device::block_at(other, bs, at)->Ok_0;
            let before = extent::node_leaves(old_leaf);
            let after = extent::node_leaves(leaf);
            &&& front == extent::child_leaves(disk, bs, node, n - 1, hops)->Ok_0
            &&& sound_node(old_leaf, 0)
            &&& before.len() > 0
            &&& before[0].ee_block >= idxs[n - 1].ei_block
            &&& sound_node(leaf, 0)
            &&& inhabited(leaf)
            &&& in_range(after, before[0].ee_block as int, hi)
            &&& if d == 1 {
                at == idxs[n - 1].child() && inner.len() == 0
            } else {
                &&& within(disk, bs, c->Ok_0, (d - 1) as nat, at)
                &&& (forall|b: u64| #[trigger]
                    within(disk, bs, c->Ok_0, (d - 1) as nat, b) && b != at
                        ==> block_device::block_at(other, bs, b) == block_device::block_at(
                        disk,
                        bs,
                        b,
                    )) ==> {
                    &&& sound(
                        other,
                        bs,
                        c->Ok_0,
                        (d - 1) as nat,
                        idxs[n - 1].ei_block as int,
                        hi,
                    )
                    &&& extent::tree_leaves(other, bs, c->Ok_0, (hops - 1) as nat) == Ok::<
                        Seq<ExtentLeaf>,
                        ExtentError,
                    >(inner + after)
                    &&& forall|b: u64| #[trigger]
                        within(other, bs, c->Ok_0, (d - 1) as nat, b) == within(
                            disk,
                            bs,
                            c->Ok_0,
                            (d - 1) as nat,
                            b,
                        )
                    &&& extent_write::rightmost(other, bs, c->Ok_0, (d - 1) as nat) == Ok::<
                        u64,
                        ExtentWriteError,
                    >(at)
                }
            }
        }),
    ensures
        sound(other, bs, node, d, lo, hi),
        extent::tree_leaves(other, bs, node, hops) == Ok::<Seq<ExtentLeaf>, ExtentError>(
            front + inner + extent::node_leaves(block_device::block_at(other, bs, at)->Ok_0),
        ),
        forall|b: u64| #[trigger] within(other, bs, node, d, b) == within(disk, bs, node, d, b),
        extent_write::rightmost(other, bs, node, d) == Ok::<u64, ExtentWriteError>(at),
{
    let n = extent::header(node).eh_entries as int;
    let idxs = extent::node_idxs(node);
    let old_leaf = block_device::block_at(disk, bs, at)->Ok_0;
    let leaf = block_device::block_at(other, bs, at)->Ok_0;
    let before = extent::node_leaves(old_leaf);
    let after = extent::node_leaves(leaf);
    let c = child_of(disk, bs, node, n - 1);
    lemma_children(disk, bs, node, d, lo, hi, hops, n);
    // The other entries lead to the same nodes as before.
    assert forall|k: int| 0 <= k < n - 1 implies {
        let x = #[trigger] child_of(other, bs, node, k);
        &&& x == child_of(disk, bs, node, k)
        &&& x is Ok
        &&& sound(
            other,
            bs,
            x->Ok_0,
            (d - 1) as nat,
            idxs[k].ei_block as int,
            upper(idxs, k, hi),
        )
        &&& extent::tree_leaves(other, bs, x->Ok_0, (hops - 1) as nat) == extent::tree_leaves(
            disk,
            bs,
            x->Ok_0,
            (hops - 1) as nat,
        )
        &&& forall|b: u64| #[trigger]
            within(other, bs, x->Ok_0, (d - 1) as nat, b) == within(
                disk,
                bs,
                x->Ok_0,
                (d - 1) as nat,
                b,
            )
    } by {
        let x = child_of(disk, bs, node, k);
        let end = upper(idxs, k, hi);
        assert(end <= idxs[n - 1].ei_block) by {
            if k + 1 < n - 1 {
                lemma_keys(disk, bs, node, d, lo, hi, k + 1, n - 1);
            }
        }
        assert(within(disk, bs, node, d, idxs[k].child()));
        assert(idxs[k].child() != at) by {
            if idxs[k].child() == at {
                assert(sound(
                    disk,
                    bs,
                    x->Ok_0,
                    (d - 1) as nat,
                    idxs[k].ei_block as int,
                    end,
                ));
                assert(before[0].ee_block + before[0].blocks() <= end);
            }
        }
        assert forall|b: u64| #[trigger]
            within(disk, bs, x->Ok_0, (d - 1) as nat, b) implies block_device::block_at(
            other,
            bs,
            b,
        ) == block_device::block_at(disk, bs, b) by {
            assert(within(disk, bs, node, d, b));
            if b == at {
                let r = lemma_node_of(
                    disk,
                    bs,
                    x->Ok_0,
                    (d - 1) as nat,
                    idxs[k].ei_block as int,
                    end,
                    b,
                );
                assert(before[0].ee_block + before[0].blocks() <= r.2);
            }
        }
        law_depends_on_nodes(
            disk,
            other,
            bs,
            x->Ok_0,
            (d - 1) as nat,
            idxs[k].ei_block as int,
            end,
            (hops - 1) as nat,
        );
    }
    lemma_same_children(disk, other, bs, node, hops, n - 1);
    let y = child_of(other, bs, node, n - 1);
    if d == 1 {
        assert(y->Ok_0 == leaf);
        assert(extent::tree_leaves(other, bs, leaf, (hops - 1) as nat)->Ok_0 == after);
        assert(inner + after =~= after);
    } else {
        assert(within(disk, bs, node, d, idxs[n - 1].child()));
        assert(idxs[n - 1].child() != at) by {
            assert(sound(disk, bs, c->Ok_0, (d - 1) as nat, idxs[n - 1].ei_block as int, hi));
        }
        assert(y == c);
        assert forall|b: u64| #[trigger]
            within(disk, bs, c->Ok_0, (d - 1) as nat, b) && b != at implies block_device::block_at(
            other,
            bs,
            b,
        ) == block_device::block_at(disk, bs, b) by {
            assert(within(disk, bs, node, d, b));
        }
    }
    assert forall|k: int| 0 <= k < n implies {
        let x = #[trigger] child_of(other, bs, node, k);
        let key = idxs[k].ei_block as int;
        let end = upper(idxs, k, hi);
        &&& lo <= key <= end <= hi
        &&& x is Ok
        &&& inhabited(x->Ok_0)
        &&& sound(other, bs, x->Ok_0, (d - 1) as nat, key, end)
    } by {
        let x = child_of(disk, bs, node, k);
        if k < n - 1 {
            assert(child_of(other, bs, node, k) == x);
        } else if d == 1 {
            assert forall|i: int| #![trigger after[i]] 0 <= i < after.len() implies idxs[k].ei_block
                <= after[i].ee_block && after[i].blocks() > 0 && after[i].ee_block
                + after[i].blocks() <= hi by {}
        }
    }
    assert(front + inner + after =~= front + (inner + after));
    assert forall|b: u64| #[trigger] within(other, bs, node, d, b) == within(
        disk,
        bs,
        node,
        d,
        b,
    ) by {
        if within(other, bs, node, d, b) {
            let k = choose|k: int|
                0 <= k < n && {
                    let x = #[trigger] child_of(other, bs, node, k);
                    ||| idxs[k].child() == b
                    ||| x is Ok && within(other, bs, x->Ok_0, (d - 1) as nat, b)
                };
            let x = child_of(disk, bs, node, k);
            assert(x is Ok);
            if k < n - 1 {
                assert(child_of(other, bs, node, k) == x);
            }
            if k < n - 1 || d > 1 {
                assert(within(other, bs, x->Ok_0, (d - 1) as nat, b) == within(
                    disk,
                    bs,
                    x->Ok_0,
                    (d - 1) as nat,
                    b,
                ));
            }
        }
        if within(disk, bs, node, d, b) {
            let k = choose|k: int|
                0 <= k < n && {
                    let x = #[trigger] child_of(disk, bs, node, k);
                    ||| idxs[k].child() == b
                    ||| x is Ok && within(disk, bs, x->Ok_0, (d - 1) as nat, b)
                };
            let x = child_of(other, bs, node, k);
            assert(x is Ok);
            if k < n - 1 {
                assert(child_of(disk, bs, node, k) == x);
            }
            if k < n - 1 || d > 1 {
                assert(within(other, bs, x->Ok_0, (d - 1) as nat, b) == within(
                    disk,
                    bs,
                    x->Ok_0,
                    (d - 1) as nat,
                    b,
                ));
            }
        }
    }
}

/// Splitting the rightmost leaf node of a tree of one level, after its entry
/// `keep`: the rest is in a node of its own, with one more extent at its end.
pub proof fn law_split_edge(
    disk: Seq<u8>,
    other: Seq<u8>,
    bs: u32,
    root: Seq<u8>,
    root2: Seq<u8>,
    hi: int,
    hops: nat,
    fresh: u64,
    keep: int,
    leaf: ExtentLeaf,
)
    requires
        sound(disk, bs, root, 1, 0, hi),
        sound_node(root2, 1),
        0 <= hi,
        1 <= hops,
        ({
            let n = extent::header(root).eh_entries as int;
            let idxs = extent::node_idxs(root);
            let at = idxs[n - 1].child();
            let before = extent::node_leaves(block_device::block_at(disk, bs, at)->Ok_0);
            let low = block_device::block_at(other, bs, at);
            let high = block_device::block_at(other, bs, fresh);
            &&& extent::header(root2).eh_entries == n + 1
            &&& extent::node_idxs(root2).take(n) == idxs
            &&& extent::node_idxs(root2)[n].child() == fresh
            &&& 0 < keep < before.len()
            &&& extent::node_idxs(root2)[n].ei_block == before[keep].ee_block
            &&& low is Ok
            &&& sound_node(low->Ok_0, 0)
            &&& inhabited(low->Ok_0)
            &&& extent::node_leaves(low->Ok_0) == before.take(keep)
            &&& high is Ok
            &&& sound_node(high->Ok_0, 0)
            &&& inhabited(high->Ok_0)
            &&& extent::node_leaves(high->Ok_0) == before.skip(keep).push(leaf)
            &&& in_range(before.push(leaf), 0, hi)
            &&& forall|b: u64| #[trigger]
                within(disk, bs, root, 1, b) && b != at ==> block_device::block_at(other, bs, b)
                    == block_device::block_at(disk, bs, b)
        }),
    ensures
        sound(other, bs, root2, 1, 0, hi),
        extent::tree_leaves(other, bs, root2, hops) == Ok::<Seq<ExtentLeaf>, ExtentError>(
            extent::tree_leaves(disk, bs, root, hops)->Ok_0.push(leaf),
        ),
        forall|b: u64| #[trigger]
            within(other, bs, root2, 1, b) ==> b == fresh || within(disk, bs, root, 1, b),
{
    let n = extent::header(root).eh_entries as int;
    let idxs = extent::node_idxs(root);
    let idxs2 = extent::node_idxs(root2);
    let at = idxs[n - 1].child();
    let old_leaf = child_of(disk, bs, root, n - 1)->Ok_0;
    let before = extent::node_leaves(old_leaf);
    let low = block_device::block_at(other, bs, at)->Ok_0;
    let high = block_device::block_at(other, bs, fresh)->Ok_0;
    assert(sound(disk, bs, old_leaf, 0, idxs[n - 1].ei_block as int, hi));
    lemma_children(disk, bs, root, 1, 0, hi, hops, n);
    assert forall|k: int| 0 <= k < n implies idxs2[k] == idxs[k] by {
        assert(idxs2.take(n)[k] == idxs2[k]);
    }
    let all = before.push(leaf);
    assert(all[keep] == before[keep]);
    // What is left of the first node.
    assert(in_range(before.take(keep), idxs[n - 1].ei_block as int, before[keep].ee_block as int))
        by {
        let a = before.take(keep);
        assert forall|i: int| #![trigger a[i]] 0 <= i < a.len() implies idxs[n - 1].ei_block
            <= a[i].ee_block && a[i].blocks() > 0 && a[i].ee_block + a[i].blocks()
            <= before[keep].ee_block by {
            assert(a[i] == before[i]);
        }
        assert forall|i: int, j: int| #![trigger a[i], a[j]]
            0 <= i < j < a.len() implies a[i].ee_block + a[i].blocks() <= a[j].ee_block by {
            assert(a[i] == before[i] && a[j] == before[j]);
        }
    }
    // The new node.
    assert(in_range(before.skip(keep).push(leaf), before[keep].ee_block as int, hi)) by {
        let a = before.skip(keep).push(leaf);
        assert forall|i: int| #![trigger a[i]] 0 <= i < a.len() implies before[keep].ee_block
            <= a[i].ee_block && a[i].blocks() > 0 && a[i].ee_block + a[i].blocks() <= hi by {
            assert(a[i] == all[keep + i]);
            if i > 0 {
                assert(all[keep].ee_block + all[keep].blocks() <= all[keep + i].ee_block);
            }
        }
        assert forall|i: int, j: int| #![trigger a[i], a[j]]
            0 <= i < j < a.len() implies a[i].ee_block + a[i].blocks() <= a[j].ee_block by {
            assert(a[i] == all[keep + i] && a[j] == all[keep + j]);
        }
    }
    assert forall|k: int| 0 <= k < n - 1 implies {
        let x = #[trigger] child_of(other, bs, root2, k);
        &&& x == child_of(disk, bs, root, k)
        &&& x is Ok
        &&& idxs[k].child() != at
    } by {
        let x = child_of(disk, bs, root, k);
        let end = upper(idxs, k, hi);
        assert(within(disk, bs, root, 1, idxs[k].child()));
        assert(sound(disk, bs, x->Ok_0, 0, idxs[k].ei_block as int, end));
        assert(end <= idxs[n - 1].ei_block) by {
            if k + 1 < n - 1 {
                lemma_keys(disk, bs, root, 1, 0, hi, k + 1, n - 1);
            }
        }
        if idxs[k].child() == at {
            assert(before[0].ee_block + before[0].blocks() <= end);
            assert(before[0].ee_block >= idxs[n - 1].ei_block);
        }
    }
    assert forall|k: int| 0 <= k < n + 1 implies {
        let x = #[trigger] child_of(other, bs, root2, k);
        let key = idxs2[k].ei_block as int;
        let end = upper(idxs2, k, hi);
        &&& 0 <= key <= end <= hi
        &&& x is Ok
        &&& inhabited(x->Ok_0)
        &&& sound(other, bs, x->Ok_0, 0, key, end)
    } by {
        let x = child_of(other, bs, root2, k);
        if k < n - 1 {
            let y = child_of(disk, bs, root, k);
            assert(x == y);
            assert(sound(disk, bs, y->Ok_0, 0, idxs[k].ei_block as int, upper(idxs, k, hi)));
            assert(upper(idxs2, k, hi) == upper(idxs, k, hi));
        } else if k == n - 1 {
            assert(x->Ok_0 == low);
            assert(before[keep].ee_block >= idxs[n - 1].ei_block);
            assert(before[keep].ee_block + before[keep].blocks() <= hi);
        } else {
            assert(x->Ok_0 == high);
            assert(before[keep].ee_block + before[keep].blocks() <= hi);
        }
    }
    lemma_first_children(disk, other, bs, root, root2, hops, n - 1);
    let front = extent::child_leaves(disk, bs, root, n - 1, hops)->Ok_0;
    assert(child_of(other, bs, root2, n - 1)->Ok_0 == low);
    assert(child_of(other, bs, root2, n)->Ok_0 == high);
    assert(extent::tree_leaves(other, bs, low, (hops - 1) as nat)->Ok_0 == before.take(keep));
    assert(extent::tree_leaves(other, bs, high, (hops - 1) as nat)->Ok_0 == before.skip(
        keep,
    ).push(leaf));
    assert(extent::child_leaves(other, bs, root2, n, hops)->Ok_0 == front + before.take(keep));
    assert(extent::child_leaves(other, bs, root2, n + 1, hops)->Ok_0 == front + before.take(keep)
        + before.skip(keep).push(leaf));
    assert(front + before.take(keep) + before.skip(keep).push(leaf) =~= (front + before).push(
        leaf,
    ));
    assert forall|b: u64| #[trigger] within(other, bs, root2, 1, b) implies b == fresh || within(
        disk,
        bs,
        root,
        1,
        b,
    ) by {
        let k = choose|k: int|
            0 <= k < n + 1 && {
                let c = #[trigger] child_of(other, bs, root2, k);
                ||| idxs2[k].child() == b
                ||| c is Ok && within(other, bs, c->Ok_0, 0, b)
            };
        if k < n {
            assert(child_of(disk, bs, root, k) is Ok);
        }
    }
}

proof fn lemma_first_children(
    disk: Seq<u8>,
    other: Seq<u8>,
    bs: u32,
    root: Seq<u8>,
    root2: Seq<u8>,
    hops: nat,
    k: int,
)
    requires
        hops > 0,
        0 <= k < extent::header(root).eh_entries,
        extent::header(root2).eh_entries >= k,
        forall|j: int|
            0 <= j < k ==> {
                let x = #[trigger] child_of(other, bs, root2, j);
                &&& x == child_of(disk, bs, root, j)
                &&& x is Ok
                &&& sound_node(x->Ok_0, 0)
            },
    ensures
        extent::child_leaves(other, bs, root2, k, hops) == extent::child_leaves(
            disk,
            bs,
            root,
            k,
            hops,
        ),
    decreases k,
{
    if k > 0 {
        lemma_first_children(disk, other, bs, root, root2, hops, k - 1);
        let c = child_of(other, bs, root2, k - 1);
        assert(c == child_of(disk, bs, root, k - 1));
        let v = Ok::<Seq<ExtentLeaf>, ExtentError>(extent::node_leaves(c->Ok_0));
        assert(extent::tree_leaves(other, bs, c->Ok_0, (hops - 1) as nat) == v);
        assert(extent::tree_leaves(disk, bs, c->Ok_0, (hops - 1) as nat) == v);
    }
}

/// A tree is sound over a wider range too.
pub proof fn lemma_wider(
    disk: Seq<u8>,
    bs: u32,
    node: Seq<u8>,
    d: nat,
    lo: int,
    hi: int,
    wider: int,
)
    requires
        sound(disk, bs, node, d, lo, hi),
        hi <= wider,
    ensures
        sound(disk, bs, node, d, lo, wider),
    decreases d,
{
    if d > 0 {
        let n = extent::header(node).eh_entries as int;
        let idxs = extent::node_idxs(node);
        assert forall|k: int| 0 <= k < n implies {
            let c = #[trigger] child_of(disk, bs, node, k);
            let key = idxs[k].ei_block as int;
            let end = upper(idxs, k, wider);
            &&& lo <= key <= end <= wider
            &&& c is Ok
            &&& inhabited(c->Ok_0)
            &&& sound(disk, bs, c->Ok_0, (d - 1) as nat, key, end)
        } by {
            let c = child_of(disk, bs, node, k);
            let key = idxs[k].ei_block as int;
            assert(sound(disk, bs, c->Ok_0, (d - 1) as nat, key, upper(idxs, k, hi)));
            if k == n - 1 {
                lemma_wider(disk, bs, c->Ok_0, (d - 1) as nat, key, hi, wider);
            }
        }
    }
}

/// The extents under the first entries come first.
pub proof fn lemma_child_prefix(disk: Seq<u8>, bs: u32, node: Seq<u8>, hops: nat, j: int, k: int)
    requires
        0 <= j <= k,
        extent::child_leaves(disk, bs, node, k, hops) is Ok,
    ensures
        extent::child_leaves(disk, bs, node, j, hops) is Ok,
        extent::child_leaves(disk, bs, node, j, hops)->Ok_0.is_prefix_of(
            extent::child_leaves(disk, bs, node, k, hops)->Ok_0,
        ),
    decreases k,
{
    if j < k {
        lemma_child_prefix(disk, bs, node, hops, j, k - 1);
    }
}

} // verus!
