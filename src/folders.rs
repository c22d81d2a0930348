//! Directory listings: the entries of a real directory, and the views that
//! let containers be browsed as folders.
use vstd::prelude::*;

use crate::paths::{has_container_ext, parent_dir, path_parent, path_has_container_ext};

verus! {

/// One entry of a listing.
#[derive(Debug)]
pub struct FileEntry {
    pub name: String,
    pub is_directory: bool,
    /// Milliseconds since the epoch.
    pub last_modified: u128,
    pub fsize: u64,
    pub absolute_path: String,
    pub parent_path: String,
}

/// A listing: a directory, or what a container holds at some level.
#[derive(Debug)]
pub struct FolderData {
    pub entries: Vec<FileEntry>,
    pub absolute_path: String,
    pub parent_path: Option<String>,
    /// How many records could not be read and were left out.
    pub skipped: usize,
}

/// What a listing's entry says, over plain values.
pub struct EntryView {
    pub name: Seq<char>,
    pub is_directory: bool,
    pub last_modified: u128,
    pub fsize: u64,
    pub absolute_path: Seq<char>,
    pub parent_path: Seq<char>,
}

/// What a listing says, over plain values.
pub struct FolderView {
    pub entries: Seq<EntryView>,
    pub absolute_path: Seq<char>,
    pub parent_path: Option<Seq<char>>,
    pub skipped: usize,
}

impl View for FileEntry {
    type V = EntryView;

    open spec fn view(&self) -> EntryView {
        EntryView {
            name: self.name@,
            is_directory: self.is_directory,
            last_modified: self.last_modified,
            fsize: self.fsize,
            absolute_path: self.absolute_path@,
            parent_path: self.parent_path@,
        }
    }
}

pub open spec fn entries_view(v: Seq<FileEntry>) -> Seq<EntryView> {
    v.map_values(|e: FileEntry| e@)
}

pub open spec fn opt_view(o: Option<String>) -> Option<Seq<char>> {
    match o {
        Some(s) => Some(s@),
        None => None,
    }
}

impl View for FolderData {
    type V = FolderView;

    open spec fn view(&self) -> FolderView {
        FolderView {
            entries: entries_view(self.entries@),
            absolute_path: self.absolute_path@,
            parent_path: opt_view(self.parent_path),
            skipped: self.skipped,
        }
    }
}

/// A child of a real directory as the file system reported it, with its
/// canonical path already resolved.
pub struct DirChild {
    pub name: String,
    pub is_directory: bool,
    pub last_modified: u128,
    pub fsize: u64,
    pub canonical_path: String,
}

/// The entry that a directory child gives, if it was readable and changed
/// after the threshold.
pub open spec fn child_entry(c: Option<DirChild>, since: Option<u128>, dir: Seq<char>) -> Option<
    EntryView,
> {
    match c {
        None => None,
        Some(c) => if since matches Some(t) && c.last_modified <= t {
            None
        } else {
            Some(
                EntryView {
                    name: c.name@,
                    is_directory: c.is_directory,
                    last_modified: c.last_modified,
                    fsize: c.fsize,
                    absolute_path: c.canonical_path@,
                    parent_path: dir,
                },
            )
        },
    }
}

/// The entries of a real directory listing.
pub open spec fn dir_entries(children: Seq<Option<DirChild>>, since: Option<u128>, dir: Seq<char>) -> Seq<
    EntryView,
> {
    children.filter_map(|c: Option<DirChild>| child_entry(c, since, dir))
}

/// How many of the records could not be read.
pub open spec fn unreadable_count<T>(s: Seq<Option<T>>) -> nat
    decreases s.len(),
{
    if s.len() == 0 {
        0
    } else {
        unreadable_count(s.drop_last()) + if s.last() is None {
            1nat
        } else {
            0nat
        }
    }
}

pub proof fn lemma_unreadable_count_bound<T>(s: Seq<Option<T>>)
    ensures
        unreadable_count(s) <= s.len(),
    decreases s.len(),
{
    if s.len() > 0 {
        lemma_unreadable_count_bound(s.drop_last());
    }
}

pub proof fn lemma_entries_view_push(v: Seq<FileEntry>, e: FileEntry)
    ensures
        entries_view(v.push(e)) == entries_view(v).push(e@),
{
    assert(entries_view(v.push(e)) =~= entries_view(v).push(e@));
}

pub(crate) fn copy_string(s: &String) -> (r: String)
    ensures
        r@ == s@,
{
    s.clone()
}

/// Lists a real directory from its children as read. Unreadable children
/// (`None`) are left out; with a threshold, so is every child modified at or
/// before it.
pub fn get_folder_data(
    absolute_path: String,
    changed_since: Option<u128>,
    children: Vec<Option<DirChild>>,
) -> (r: FolderData)
    ensures
        r@.entries == dir_entries(children@, changed_since, absolute_path@),
        r@.absolute_path == absolute_path@,
        r@.parent_path == parent_dir(absolute_path@),
        r@.skipped == unreadable_count(children@),
{
    let mut entries: Vec<FileEntry> = Vec::new();
    let mut skipped: usize = 0;
    let mut i: usize = 0;
    while i < children.len()
        invariant
            i <= children@.len(),
            skipped == unreadable_count(children@.subrange(0, i as int)),
            entries_view(entries@) == dir_entries(
                children@.subrange(0, i as int),
                changed_since,
                absolute_path@,
            ),
        decreases children@.len() - i,
    {
        assert(children@.subrange(0, i + 1).drop_last() =~= children@.subrange(0, i as int));
        match &children[i] {
            Some(c) => {
                let keep = match changed_since {
                    Some(t) => c.last_modified > t,
                    None => true,
                };
                if keep {
                    let e = FileEntry {
                        name: copy_string(&c.name),
                        is_directory: c.is_directory,
                        last_modified: c.last_modified,
                        fsize: c.fsize,
                        absolute_path: copy_string(&c.canonical_path),
                        parent_path: copy_string(&absolute_path),
                    };
                    proof {
                        lemma_entries_view_push(entries@, e);
                    }
                    entries.push(e);
                }
            },
            None => {
                proof {
                    lemma_unreadable_count_bound(children@.subrange(0, i as int));
                }
                skipped = skipped + 1;
            },
        }
        i = i + 1;
    }
    assert(children@.subrange(0, i as int) =~= children@);
    let parent_path = path_parent(absolute_path.as_str());
    FolderData { entries, absolute_path, parent_path, skipped }
}

/// An entry as a listing with container access shows it: a file with a
/// container's extension is shown as a directory.
pub open spec fn as_folder_entry(e: EntryView) -> EntryView {
    if !e.is_directory && has_container_ext(e.name) {
        EntryView { is_directory: true, ..e }
    } else {
        e
    }
}

/// Marks every container file of a listing as a directory, so that a
/// client knows it can be browsed further.
pub fn archive_as_folder(folder_data: FolderData) -> (r: FolderData)
    ensures
        r@.entries == folder_data@.entries.map_values(|e: EntryView| as_folder_entry(e)),
        r@.absolute_path == folder_data@.absolute_path,
        r@.parent_path == folder_data@.parent_path,
        r@.skipped == folder_data@.skipped,
{
    let ghost src = folder_data@.entries;
    let FolderData { entries: old_entries, absolute_path, parent_path, skipped } = folder_data;
    let mut entries: Vec<FileEntry> = Vec::new();
    let mut i: usize = 0;
    while i < old_entries.len()
        invariant
            i <= old_entries@.len(),
            src == entries_view(old_entries@),
            entries_view(entries@) == src.subrange(0, i as int).map_values(
                |e: EntryView| as_folder_entry(e),
            ),
        decreases old_entries@.len() - i,
    {
        let e = &old_entries[i];
        assert(src[i as int] == e@);
        let is_directory = e.is_directory || path_has_container_ext(e.name.as_str());
        let ne = FileEntry {
            name: copy_string(&e.name),
            is_directory,
            last_modified: e.last_modified,
            fsize: e.fsize,
            absolute_path: copy_string(&e.absolute_path),
            parent_path: copy_string(&e.parent_path),
        };
        proof {
            lemma_entries_view_push(entries@, ne);
        }
        entries.push(ne);
        assert(src.subrange(0, i + 1).map_values(|e: EntryView| as_folder_entry(e)) =~= src.subrange(
            0,
            i as int,
        ).map_values(|e: EntryView| as_folder_entry(e)).push(as_folder_entry(src[i as int])));
        i = i + 1;
    }
    assert(src.subrange(0, i as int) =~= src);
    FolderData { entries, absolute_path, parent_path, skipped }
}

/// Whether a path is a container file: a regular file with a container's
/// extension.
pub fn is_archive(is_file: bool, path: &str) -> (r: bool)
    ensures
        r == (is_file && has_container_ext(path@)),
{
    is_file && path_has_container_ext(path)
}

/// The children of a directory changed strictly after `t`.
pub open spec fn changed_after(children: Seq<Option<DirChild>>, t: u128) -> Seq<Option<DirChild>> {
    children.filter(|c: Option<DirChild>| c matches Some(d) && d.last_modified > t)
}

/// The threshold law of directory listings: with a threshold the listing
/// holds exactly the children modified strictly after it, in order; without
/// one, it holds every readable child. Every entry listed with a threshold
/// was modified after it.
pub proof fn lemma_threshold_listing(children: Seq<Option<DirChild>>, t: u128, dir: Seq<char>)
    ensures
        dir_entries(children, Some(t), dir) == dir_entries(changed_after(children, t), None, dir),
        forall|i: int|
            0 <= i < dir_entries(children, Some(t), dir).len() ==> #[trigger] dir_entries(
                children,
                Some(t),
                dir,
            )[i].last_modified > t,
        (forall|i: int| 0 <= i < children.len() ==> #[trigger] children[i] is Some) ==> dir_entries(
            children,
            None,
            dir,
        ).len() == children.len(),
    decreases children.len(),
{
    reveal(Seq::filter);
    if children.len() > 0 {
        let rest = children.drop_last();
        lemma_threshold_listing(rest, t, dir);
        let f = |c: Option<DirChild>| c matches Some(d) && d.last_modified > t;
        assert(changed_after(children, t) == if f(children.last()) {
            changed_after(rest, t).push(children.last())
        } else {
            changed_after(rest, t)
        });
        if f(children.last()) {
            let a = changed_after(rest, t);
            assert(a.push(children.last()).drop_last() =~= a);
        }
        let r = dir_entries(children, Some(t), dir);
        let rr = dir_entries(rest, Some(t), dir);
        assert forall|i: int| 0 <= i < r.len() implies #[trigger] r[i].last_modified > t by {
            if i < rr.len() {
                assert(r[i] == rr[i]);
            }
        }
        if forall|i: int| 0 <= i < children.len() ==> #[trigger] children[i] is Some {
            assert forall|i: int| 0 <= i < rest.len() implies #[trigger] rest[i] is Some by {
                assert(rest[i] == children[i]);
            }
        }
    }
}

} // verus!
