//! What following a path promises, before and after a request.
use vstd::prelude::*;
use super::append;
use super::dirs;
use super::names;
use super::others;
use super::requests;
use super::tree;
use super::volume;
use crate::dir;
use crate::dir_write;
use crate::fs_context;
use crate::fs_context::VolState;
use crate::fsp_impl;
use crate::fsp_impl::create;
use crate::fsp_impl::delete;
use crate::group_desc::GroupDesc;
use crate::inode;
use crate::superblock::Superblock;

verus! {

/// What a name leads to in directory `at`.
pub open spec fn leads_to(
    disk: Seq<u8>,
    sb: Superblock,
    gdt: Seq<GroupDesc>,
    at: u32,
    name: Seq<char>,
) -> Option<u32> {
    match inode::inode_at(disk, sb, gdt, at) {
        Err(_) => None,
        Ok(i) => match dir::dir_entries(disk, sb, i) {
            Err(_) => None,
            Ok(e) => dir::first_named(e, name),
        },
    }
}

/// Whether directory `x` is looked into when `path` is followed from its character
/// `i` on, from inode `at`.
pub open spec fn looks_into(
    disk: Seq<u8>,
    sb: Superblock,
    gdt: Seq<GroupDesc>,
    path: Seq<char>,
    i: int,
    at: u32,
    x: u32,
) -> bool
    decreases path.len() - i,
{
    if i < 0 || i >= path.len() {
        false
    } else if path[i] == '/' {
        looks_into(disk, sb, gdt, path, i + 1, at, x)
    } else {
        proof {
            fs_context::lemma_component_end(path, i);
        }
        let e = fs_context::component_end(path, i);
        let name = path.subrange(i, e);
        if name == "."@ {
            looks_into(disk, sb, gdt, path, e, at, x)
        } else {
            x == at || match leads_to(disk, sb, gdt, at, name) {
                None => false,
                Some(n) => looks_into(disk, sb, gdt, path, e, n, x),
            }
        }
    }
}

/// A path leads to the same place where each name on the way does.
proof fn lemma_same_way(
    a: VolState,
    b: VolState,
    sb: Superblock,
    path: Seq<char>,
    i: int,
    at: u32,
)
    requires
        0 <= i,
        fs_context::followed(a.disk, sb, a.gdt, path, i, at) is Ok,
        forall|x: u32, name: Seq<char>|
            looks_into(a.disk, sb, a.gdt, path, i, at, x) && leads_to(
                a.disk,
                sb,
                a.gdt,
                x,
                name,
            ) is Some ==> #[trigger] leads_to(b.disk, sb, b.gdt, x, name) == leads_to(
                a.disk,
                sb,
                a.gdt,
                x,
                name,
            ),
    ensures
        fs_context::followed(b.disk, sb, b.gdt, path, i, at) == fs_context::followed(
            a.disk,
            sb,
            a.gdt,
            path,
            i,
            at,
        ),
    decreases path.len() - i,
{
    if i < path.len() {
        if path[i] == '/' {
            lemma_same_way(a, b, sb, path, i + 1, at);
        } else {
            fs_context::lemma_component_end(path, i);
            let e = fs_context::component_end(path, i);
            let name = path.subrange(i, e);
            if name == "."@ {
                lemma_same_way(a, b, sb, path, e, at);
            } else if name != ".."@ {
                assert(looks_into(a.disk, sb, a.gdt, path, i, at, at));
                let n = leads_to(a.disk, sb, a.gdt, at, name);
                assert(n is Some);
                assert(leads_to(b.disk, sb, b.gdt, at, name) == n);
                lemma_same_way(a, b, sb, path, e, n->Some_0);
            }
        }
    }
}

/// A component that ends before a slash is the same in a path that is longer.
proof fn lemma_component_prefix(path: Seq<char>, k: int, i: int)
    requires
        0 <= i <= k <= path.len(),
        k == path.len() || path[k] == '/',
    ensures
        fs_context::component_end(path.take(k), i) == fs_context::component_end(path, i),
        fs_context::component_end(path, i) <= k,
    decreases k - i,
{
    if i < k && path[i] != '/' {
        lemma_component_prefix(path, k, i + 1);
    }
}

/// A path is followed to where its first part leads, and on from there.
proof fn lemma_way_on(
    disk: Seq<u8>,
    sb: Superblock,
    gdt: Seq<GroupDesc>,
    path: Seq<char>,
    k: int,
    i: int,
    at: u32,
)
    requires
        0 <= i <= k <= path.len(),
        k == path.len() || path[k] == '/',
        fs_context::followed(disk, sb, gdt, path.take(k), i, at) is Ok,
    ensures
        fs_context::followed(disk, sb, gdt, path, i, at) == fs_context::followed(
            disk,
            sb,
            gdt,
            path,
            k,
            fs_context::followed(disk, sb, gdt, path.take(k), i, at)->Ok_0,
        ),
    decreases k - i,
{
    if i < k {
        let p = path.take(k);
        assert(p[i] == path[i]);
        if path[i] == '/' {
            lemma_way_on(disk, sb, gdt, path, k, i + 1, at);
        } else {
            lemma_component_prefix(path, k, i);
            fs_context::lemma_component_end(path, i);
            let e = fs_context::component_end(path, i);
            let name = path.subrange(i, e);
            assert(p.subrange(i, e) =~= name);
            if name == "."@ {
                lemma_way_on(disk, sb, gdt, path, k, e, at);
            } else if name != ".."@ {
                let n = leads_to(disk, sb, gdt, at, name);
                assert(n is Some);
                lemma_way_on(disk, sb, gdt, path, k, e, n->Some_0);
            }
        }
    }
}

/// A path without the slashes at its end.
proof fn lemma_slashes(path: Seq<char>)
    ensures
        create::trimmed(path).len() <= path.len(),
        create::trimmed(path) == path.take(create::trimmed(path).len() as int),
        create::trimmed(path).len() == path.len() || path[create::trimmed(path).len() as int]
            == '/',
        forall|j: int| create::trimmed(path).len() <= j < path.len() ==> path[j] == '/',
    decreases path.len(),
{
    let p = create::trimmed(path);
    if path.len() > 0 && path.last() == '/' {
        let q = path.drop_last();
        lemma_slashes(q);
        assert(q.take(p.len() as int) =~= path.take(p.len() as int));
        assert forall|j: int| p.len() <= j < path.len() implies path[j] == '/' by {
            if j < q.len() {
                assert(q[j] == path[j]);
            }
        }
    } else {
        assert(path.take(path.len() as int) =~= path);
    }
}

/// Following slashes stays.
proof fn lemma_stays(
    disk: Seq<u8>,
    sb: Superblock,
    gdt: Seq<GroupDesc>,
    path: Seq<char>,
    i: int,
    at: u32,
)
    requires
        0 <= i,
        forall|j: int| i <= j < path.len() ==> path[j] == '/',
    ensures
        fs_context::followed(disk, sb, gdt, path, i, at) == Ok::<u32, fs_context::Ext4FsError>(at),
    decreases path.len() - i,
{
    if i < path.len() {
        lemma_stays(disk, sb, gdt, path, i + 1, at);
    }
}

/// Whether a component of a path is the name of something in a directory.
pub open spec fn is_plain(name: Seq<char>) -> bool {
    name != "."@ && name != ".."@
}

/// A path leads to what its last component leads to in the directory that it
/// parts into, and nowhere if that leads nowhere.
pub proof fn law_path_leads(
    disk: Seq<u8>,
    sb: Superblock,
    gdt: Seq<GroupDesc>,
    path: Seq<char>,
    parent_path: Seq<char>,
    name: Seq<char>,
    parent: u32,
)
    requires
        create::parted(path) == Some((parent_path, name)),
        is_plain(name),
        fs_context::resolved(disk, sb, gdt, parent_path) == Ok::<u32, fs_context::Ext4FsError>(
            parent,
        ),
        inode::inode_at(disk, sb, gdt, parent) is Ok,
        inode::inode_at(disk, sb, gdt, parent)->Ok_0.is_dir(),
    ensures
        match leads_to(disk, sb, gdt, parent, name) {
            Some(num) => fs_context::resolved(disk, sb, gdt, path) == Ok::<
                u32,
                fs_context::Ext4FsError,
            >(num),
            None => fs_context::resolved(disk, sb, gdt, path) is Err,
        },
{
    let root = fs_context::ROOT_INODE;
    let p = create::trimmed(path);
    let n = p.len() as int;
    let k = create::last_slash(p);
    lemma_slashes(path);
    create::lemma_last_slash(p);
    assert(path[k] == p[k]);
    if k == 0 {
        assert(parent_path[0] == '/');
        assert(fs_context::followed(disk, sb, gdt, parent_path, 1, root) == Ok::<
            u32,
            fs_context::Ext4FsError,
        >(root));
    } else {
        assert(path.take(k) =~= parent_path);
        lemma_way_on(disk, sb, gdt, path, k, 0, root);
    }
    assert(fs_context::resolved(disk, sb, gdt, path) == fs_context::followed(
        disk,
        sb,
        gdt,
        path,
        k + 1,
        parent,
    ));
    create::law_parted(path);
    assert forall|j: int| k + 1 <= j < n implies path[j] != '/' by {
        assert(path[j] == p[j]);
    }
    assert(p[k + 1] == name[0]);
    lemma_component_is(path, n, k + 1);
    assert(path.subrange(k + 1, n) =~= name);
    if let Some(num) = leads_to(disk, sb, gdt, parent, name) {
        lemma_stays(disk, sb, gdt, path, n, num);
    }
}

/// A component without slashes ends where the next slash is.
proof fn lemma_component_is(path: Seq<char>, n: int, i: int)
    requires
        0 <= i <= n <= path.len(),
        n == path.len() || path[n] == '/',
        forall|j: int| i <= j < n ==> path[j] != '/',
    ensures
        fs_context::component_end(path, i) == n,
    decreases n - i,
{
    if i < n {
        lemma_component_is(path, n, i + 1);
    }
}

/// A file that was created is opened by its path, where each directory on the way to
/// the new file's is unrelated to that.
#[verifier::rlimit(100)]
pub proof fn law_created_is_opened(
    v: VolState,
    sb: Superblock,
    file_name: Seq<char>,
    parent_path: Seq<char>,
    parent: u32,
    d: nat,
    name: Seq<char>,
    seconds: Option<u64>,
    depths: spec_fn(u32) -> nat,
)
    requires
        create::parted(fsp_impl::volume_path(file_name)) == Some((parent_path, name)),
        is_plain(name),
        fs_context::resolved(v.disk, sb, v.gdt, parent_path) is Ok,
        fs_context::resolved(v.disk, sb, v.gdt, parent_path)->Ok_0 == parent,
        names::may_grow(requests::at_rest(v), sb, parent, d),
        append::clear_of(requests::at_rest(v), sb, parent, d, v.w.blocks),
        v.w.bs == sb.block_size,
        names::maps_foreign(requests::at_rest(v), sb, parent, d),
        create::created(v, sb, false, file_name, false, seconds).1 is Ok,
        names::record_apart(
            requests::at_rest(v),
            sb,
            parent,
            d,
            create::created(v, sb, false, file_name, false, seconds).1->Ok_0.0,
        ),
        !v.w.blocks.contains(
            volume::table_block(
                v.gdt,
                sb,
                create::created(v, sb, false, file_name, false, seconds).1->Ok_0.0,
            ),
        ),
        forall|x: u32| #[trigger]
            looks_into(v.disk, sb, v.gdt, parent_path, 0, fs_context::ROOT_INODE, x) && x != parent
                ==> {
                &&& others::unrelated(v, sb, parent, d, x, depths(x))
                &&& names::maps_foreign(requests::at_rest(v), sb, x, depths(x))
                &&& names::record_apart(
                    requests::at_rest(v),
                    sb,
                    x,
                    depths(x),
                    create::created(v, sb, false, file_name, false, seconds).1->Ok_0.0,
                )
            },
    ensures
        ({
            let (v2, r) = create::created(v, sb, false, file_name, false, seconds);
            fs_context::resolved(v2.disk, sb, v2.gdt, fsp_impl::volume_path(file_name)) == Ok::<
                u32,
                fs_context::Ext4FsError,
            >(r->Ok_0.0)
        }),
{
    let st = requests::at_rest(v);
    let root = fs_context::ROOT_INODE;
    let (v2, r) = create::created(v, sb, false, file_name, false, seconds);
    let num = r->Ok_0.0;
    let k = names::law_created_is_found(
        v,
        sb,
        file_name,
        parent_path,
        parent,
        d,
        name,
        seconds,
    );
    let i = volume::inode_now(st, sb, parent);
    let e = dir::dir_entries(v.disk, sb, i)->Ok_0;
    assert forall|x: u32, other: Seq<char>|
        looks_into(v.disk, sb, v.gdt, parent_path, 0, root, x) && leads_to(
            v.disk,
            sb,
            v.gdt,
            x,
            other,
        ) is Some implies #[trigger] leads_to(v2.disk, sb, v2.gdt, x, other) == leads_to(
        v.disk,
        sb,
        v.gdt,
        x,
        other,
    ) by {
        if x != parent {
            others::law_created_leaves_others(
                v,
                sb,
                file_name,
                parent_path,
                parent,
                d,
                name,
                seconds,
                x,
                depths(x),
                0,
                0,
            );
        } else {
            assert(dir::first_named(e, other) is Some);
            assert(other != name);
        }
    }
    lemma_same_way(v, v2, sb, parent_path, 0, root);
    law_path_leads(
        v2.disk,
        sb,
        v2.gdt,
        fsp_impl::volume_path(file_name),
        parent_path,
        name,
        parent,
    );
}

/// A file or directory that was deleted is not opened by its path any more, where its
/// name was listed once, and each directory on the way to that of the deleted one is
/// unrelated to both.
///
/// A file that reaches the last logical block there can be is left out, as it is of
/// cutting a tree.
#[verifier::rlimit(100)]
pub proof fn law_deleted_is_not_opened(
    v: VolState,
    sb: Superblock,
    path: Seq<char>,
    parent_path: Seq<char>,
    parent: u32,
    d: nat,
    name: Seq<char>,
    num: u32,
    dn: nat,
    is_dir: bool,
    seconds: Option<u64>,
    depths: spec_fn(u32) -> nat,
)
    requires
        create::parted(path) == Some((parent_path, name)),
        is_plain(name),
        fs_context::resolved(v.disk, sb, v.gdt, parent_path) is Ok,
        fs_context::resolved(v.disk, sb, v.gdt, parent_path)->Ok_0 == parent,
        volume::sound_file(requests::at_rest(v), sb, parent, d),
        volume::sound_file(requests::at_rest(v), sb, num, dn),
        append::clear_of(requests::at_rest(v), sb, parent, d, v.w.blocks),
        names::out_of_reach(requests::at_rest(v), sb, parent, d, num, dn),
        v.w.bs == sb.block_size,
        tree::end_of(volume::extents_now(requests::at_rest(v), sb, num)) <= u32::MAX,
        ({
            let i = volume::inode_now(requests::at_rest(v), sb, parent);
            let e = dir::dir_entries(v.disk, sb, i);
            &&& e is Ok
            &&& names::listed_once(e->Ok_0, name)
            &&& dirs::all_fit(v.disk, sb, i, dir::dir_blocks(sb, i))
        }),
        delete::deleted(v, sb, parent_path, name, num, is_dir, seconds).1 is Ok,
        forall|x: u32| #[trigger]
            looks_into(v.disk, sb, v.gdt, parent_path, 0, fs_context::ROOT_INODE, x) ==> {
                &&& others::unrelated(v, sb, num, dn, x, depths(x))
                &&& others::unrelated(v, sb, parent, d, x, depths(x))
                &&& append::foreign(
                    requests::at_rest(v),
                    sb,
                    x,
                    depths(x),
                    names::inode_map(v.gdt, sb, num),
                )
            },
    ensures
        ({
            let v2 = delete::deleted(v, sb, parent_path, name, num, is_dir, seconds).0;
            fs_context::resolved(v2.disk, sb, v2.gdt, path) is Err
        }),
{
    let root = fs_context::ROOT_INODE;
    let v2 = delete::deleted(v, sb, parent_path, name, num, is_dir, seconds).0;
    let k = names::law_deleted_is_gone(
        v,
        sb,
        parent_path,
        parent,
        d,
        name,
        num,
        dn,
        is_dir,
        seconds,
    );
    assert forall|x: u32, other: Seq<char>|
        looks_into(v.disk, sb, v.gdt, parent_path, 0, root, x) && leads_to(
            v.disk,
            sb,
            v.gdt,
            x,
            other,
        ) is Some implies #[trigger] leads_to(v2.disk, sb, v2.gdt, x, other) == leads_to(
        v.disk,
        sb,
        v.gdt,
        x,
        other,
    ) by {
        others::law_deleted_leaves_others(
            v,
            sb,
            parent_path,
            parent,
            d,
            name,
            num,
            dn,
            is_dir,
            seconds,
            x,
            depths(x),
            0,
            0,
        );
    }
    lemma_same_way(v, v2, sb, parent_path, 0, root);
    law_path_leads(v2.disk, sb, v2.gdt, path, parent_path, name, parent);
}

} // verus!
