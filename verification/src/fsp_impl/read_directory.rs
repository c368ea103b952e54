//! Listing an open directory.
use vstd::prelude::*;
use super::file_info;
use super::file_info::FileInfo;
use super::Status;
use crate::block_device::BlockDevice;
use crate::dir;
use crate::dir::EntryView;
use crate::fs_context::{Ext4Fs, FileHandle, VolState};
use crate::inode;
use crate::superblock::Superblock;
use crate::text;

verus! {

/// A file of a listed directory.
#[derive(Debug)]
pub struct DirInfo {
    pub name: String,
    pub info: FileInfo,
}

/// A listed file as a value.
pub struct DirInfoView {
    pub name: Seq<char>,
    pub info: FileInfo,
}

impl View for DirInfo {
    type V = DirInfoView;

    open spec fn view(&self) -> DirInfoView {
        DirInfoView { name: self.name@, info: self.info }
    }
}

pub open spec fn infos_view(s: Seq<DirInfo>) -> Seq<DirInfoView> {
    s.map_values(|e: DirInfo| e@)
}

/// Whether a name is "." or "..".
pub open spec fn is_dot(name: Seq<char>) -> bool {
    name == "."@ || name == ".."@
}

/// Listing entries of a directory: each but "." and ".." with what is told of
/// its file, in order.
pub open spec fn listed(v: VolState, sb: Superblock, entries: Seq<EntryView>) -> Result<
    Seq<DirInfoView>,
    Status,
>
    decreases entries.len(),
{
    if entries.len() == 0 {
        Ok(Seq::empty())
    } else {
        let e = entries.last();
        match listed(v, sb, entries.drop_last()) {
            Err(x) => Err(x),
            Ok(s) => if is_dot(e.name) {
                Ok(s)
            } else {
                match inode::inode_at(v.disk, sb, v.gdt, e.inode_num) {
                    Err(_) => Err(Status::InternalError),
                    Ok(i) => Ok(
                        s.push(
                            DirInfoView {
                                name: e.name,
                                info: file_info::info_of(i, e.inode_num),
                            },
                        ),
                    ),
                }
            },
        }
    }
}

/// A listing that fails on the first entries fails on all.
proof fn lemma_listed_err(v: VolState, sb: Superblock, entries: Seq<EntryView>, k: int)
    requires
        0 <= k <= entries.len(),
        listed(v, sb, entries.take(k)) is Err,
    ensures
        listed(v, sb, entries) == listed(v, sb, entries.take(k)),
    decreases entries.len() - k,
{
    if k < entries.len() {
        assert(entries.take(k + 1).drop_last() =~= entries.take(k));
        lemma_listed_err(v, sb, entries, k + 1);
    } else {
        assert(entries.take(k) =~= entries);
    }
}

/// Whether an entry is named neither "." nor "..".
pub open spec fn undotted() -> spec_fn(EntryView) -> bool {
    |e: EntryView| e.name != "."@ && e.name != ".."@
}

/// The entries that are listed: all but those named "." and "..".
pub open spec fn kept(entries: Seq<EntryView>) -> Seq<EntryView> {
    entries.filter(undotted())
}

/// Whether an item of a listing has the name of the entry `e`, and tells what there is
/// to tell of its inode.
pub open spec fn tells(v: VolState, sb: Superblock, e: EntryView, x: DirInfoView) -> bool {
    let i = inode::inode_at(v.disk, sb, v.gdt, e.inode_num);
    &&& i is Ok
    &&& x.name == e.name
    &&& x.info == file_info::info_of(i->Ok_0, e.inode_num)
}

/// A listing holds, in the order of the directory, one item for each entry that is not
/// named "." or "..", with that entry's name and what is told of its inode, and nothing
/// else.
pub proof fn law_listing(v: VolState, sb: Superblock, entries: Seq<EntryView>)
    requires
        listed(v, sb, entries) is Ok,
    ensures
        listed(v, sb, entries)->Ok_0.len() == kept(entries).len(),
        forall|k: int|
            0 <= k < kept(entries).len() ==> tells(
                v,
                sb,
                kept(entries)[k],
                #[trigger] listed(v, sb, entries)->Ok_0[k],
            ),
    decreases entries.len(),
{
    reveal(Seq::filter);
    if entries.len() > 0 {
        let front = entries.drop_last();
        law_listing(v, sb, front);
        let r = listed(v, sb, entries)->Ok_0;
        assert forall|k: int| 0 <= k < kept(entries).len() implies tells(
            v,
            sb,
            kept(entries)[k],
            #[trigger] r[k],
        ) by {
            if k < kept(front).len() {
                assert(r[k] == listed(v, sb, front)->Ok_0[k]);
                assert(kept(entries)[k] == kept(front)[k]);
            }
        }
    }
}

/// A directory is listed where the inode of each of its entries, but for "." and "..",
/// can be read, and only there.
pub proof fn law_listing_succeeds(v: VolState, sb: Superblock, entries: Seq<EntryView>)
    ensures
        listed(v, sb, entries) is Ok <==> forall|k: int|
            0 <= k < entries.len() && (#[trigger] entries[k]).name != "."@ && entries[k].name
                != ".."@ ==> inode::inode_at(v.disk, sb, v.gdt, entries[k].inode_num) is Ok,
        listed(v, sb, entries) matches Err(e) ==> e == Status::InternalError,
    decreases entries.len(),
{
    if entries.len() > 0 {
        let n = entries.len() - 1;
        let front = entries.drop_last();
        law_listing_succeeds(v, sb, front);
        assert(forall|k: int| 0 <= k < n ==> #[trigger] entries[k] == front[k]);
        assert(entries[n] == entries.last());
        if listed(v, sb, front) is Err {
            let k = choose|k: int|
                0 <= k < n && (#[trigger] front[k]).name != "."@ && front[k].name != ".."@
                    && inode::inode_at(v.disk, sb, v.gdt, front[k].inode_num) is Err;
            assert(entries[k] == front[k]);
        }
    }
}

/// A name that is found in a directory, and is not "." or "..", is in the listing, with
/// what is told of the inode that it is found as; a listed name is found, and is neither
/// of these.
pub proof fn law_found_is_listed(
    v: VolState,
    sb: Superblock,
    entries: Seq<EntryView>,
    name: Seq<char>,
)
    requires
        listed(v, sb, entries) is Ok,
    ensures
        name != "."@ && name != ".."@ && dir::first_named(entries, name) is Some ==> exists|k: int|
            0 <= k < listed(v, sb, entries)->Ok_0.len() && (#[trigger] listed(
                v,
                sb,
                entries,
            )->Ok_0[k]).name == name && listed(v, sb, entries)->Ok_0[k].info == file_info::info_of(
                inode::inode_at(
                    v.disk,
                    sb,
                    v.gdt,
                    dir::first_named(entries, name)->Some_0,
                )->Ok_0,
                dir::first_named(entries, name)->Some_0,
            ),
        (exists|k: int|
            0 <= k < listed(v, sb, entries)->Ok_0.len() && (#[trigger] listed(
                v,
                sb,
                entries,
            )->Ok_0[k]).name == name) ==> dir::first_named(entries, name) is Some && name != "."@
            && name != ".."@,
{
    law_listing(v, sb, entries);
    let p = undotted();
    let r = listed(v, sb, entries)->Ok_0;
    if name != "."@ && name != ".."@ && dir::first_named(entries, name) is Some {
        let m = lemma_first_named(entries, name);
        entries.lemma_filter_contains(p, m);
        assert(kept(entries).contains(entries[m]));
        let k = choose|k: int| 0 <= k < kept(entries).len() && kept(entries)[k] == entries[m];
        assert(r[k].name == name);
    }
    if exists|k: int| 0 <= k < r.len() && (#[trigger] r[k]).name == name {
        let k = choose|k: int| 0 <= k < r.len() && (#[trigger] r[k]).name == name;
        entries.lemma_filter_pred(p, k);
        entries.lemma_filter_contains_rev(p, kept(entries)[k]);
        let m = choose|m: int| 0 <= m < entries.len() && entries[m] == kept(entries)[k];
        lemma_named(entries, name, m);
    }
}

/// The first entry of a name that is found. Gives its place.
proof fn lemma_first_named(entries: Seq<EntryView>, name: Seq<char>) -> (m: int)
    requires
        dir::first_named(entries, name) is Some,
    ensures
        0 <= m < entries.len(),
        entries[m].name == name,
        entries[m].inode_num == dir::first_named(entries, name)->Some_0,
    decreases entries.len(),
{
    if entries[0].name == name {
        0
    } else {
        lemma_first_named(entries.skip(1), name) + 1
    }
}

/// A name that an entry has is found.
proof fn lemma_named(entries: Seq<EntryView>, name: Seq<char>, m: int)
    requires
        0 <= m < entries.len(),
        entries[m].name == name,
    ensures
        dir::first_named(entries, name) is Some,
    decreases entries.len(),
{
    if m > 0 {
        lemma_named(entries.skip(1), name, m - 1);
    }
}

/// The text of a result.
pub open spec fn infos_of(r: Result<Vec<DirInfo>, Status>) -> Result<Seq<DirInfoView>, Status> {
    match r {
        Ok(v) => Ok(infos_view(v@)),
        Err(e) => Err(e),
    }
}

impl<D: BlockDevice> Ext4Fs<D> {
    /// List an open directory: every file in it, with what is told of it.
    pub fn read_dir_entries(&self, context: &FileHandle) -> (r: Result<Vec<DirInfo>, Status>)
        requires
            self.wf(),
        ensures
            !(context is Directory) ==> r is Err && r->Err_0 == Status::NotADirectory,
            context is Directory && (r is Ok || self.dev.reliable()) ==> infos_of(r) == (
            match dir::dir_entries(self.state().disk, self.sb, context.snapshot()) {
                Err(_) => Err::<Seq<DirInfoView>, Status>(Status::InternalError),
                Ok(entries) => listed(self.state(), self.sb, entries),
            }),
    {
        let inode = match context {
            FileHandle::Directory { inode_num: _, inode } => *inode,
            _ => {
                return Err(Status::NotADirectory);
            },
        };
        let entries = match self.read_dir(&inode) {
            Ok(v) => v,
            Err(_) => {
                return Err(Status::InternalError);
            },
        };
        let ghost all = dir::entries_view(entries@);
        let mut out: Vec<DirInfo> = Vec::new();
        let mut i: usize = 0;
        assert(all.take(0) =~= Seq::empty());
        assert(infos_view(out@) =~= Seq::empty());
        while i < entries.len()
            invariant
                self.wf(),
                i <= entries@.len(),
                all == dir::entries_view(entries@),
                context is Directory,
                Ok::<Seq<EntryView>, dir::DirError>(all) == dir::dir_entries(
                    self.state().disk,
                    self.sb,
                    context.snapshot(),
                ),
                listed(self.state(), self.sb, all.take(i as int)) == Ok::<Seq<DirInfoView>, Status>(
                    infos_view(out@),
                ),
            decreases entries@.len() - i,
        {
            let e = &entries[i];
            assert(all.take(i + 1).drop_last() =~= all.take(i as int));
            assert(all.take(i + 1).last() == e@);
            i = i + 1;
            if text::same_text(e.name.as_str(), ".") || text::same_text(e.name.as_str(), "..") {
                continue ;
            }
            let found = match self.inode(e.inode_num) {
                Ok(x) => x,
                Err(_) => {
                    proof {
                        if self.dev.reliable() {
                            lemma_listed_err(self.state(), self.sb, all, i as int);
                        }
                    }
                    return Err(Status::InternalError);
                },
            };
            let ghost before = out@;
            out.push(
                DirInfo {
                    name: e.name.as_str().to_owned(),
                    info: file_info::file_info_from_inode(&found, e.inode_num),
                },
            );
            assert(infos_view(out@) =~= infos_view(before).push(out@.last()@));
        }
        assert(all.take(i as int) =~= all);
        Ok(out)
    }
}

} // verus!
