//! Containers browsed as folders: listing what a container holds, the
//! entries at one level of it, and finding one stored entry.
use vstd::prelude::*;

use crate::folders::{copy_string, lemma_unreadable_count_bound, unreadable_count, EntryView, FileEntry, FolderData, entries_view, lemma_entries_view_push};
use crate::error::{ErrorKind, ImgetError};
use crate::paths::{
    chars_of,
    contains_string,
    first_index,
    first_index_of,
    is_below,
    is_below_exec,
    lemma_strings_view_push,
    strings_view,
    substring,
    ContainerBoundary,
    qualifies,
    resolves_to,
    split_archive_path,
    extension,
    path_extension,
    dir_of,
    file_name,
    joined,
    parent_dir,
    trimmed,
    path_dir,
    path_file_name,
    path_parent,
    path_trimmed,
    join_path,
    lemma_file_name_has_no_separator,
};

verus! {

/// A record of a container's listing, as the container codec decoded it.
pub struct ArchiveHeader {
    pub filename: String,
    /// Seconds since the epoch.
    pub file_time: u32,
    pub unpacked_size: u64,
    pub is_directory: bool,
}

/// The entry that a container record gives: none for a record that could
/// not be decoded, or one modified before the threshold.
pub open spec fn header_entry(h: Option<ArchiveHeader>, since: Option<u128>, container: Seq<char>) -> Option<
    EntryView,
> {
    match h {
        None => None,
        Some(h) => {
            let m = h.file_time as u128 * 1000;
            if since matches Some(t) && m < t {
                None
            } else {
                Some(
                    EntryView {
                        name: h.filename@,
                        is_directory: h.is_directory,
                        last_modified: m as u128,
                        fsize: h.unpacked_size,
                        absolute_path: container + seq!['/'] + h.filename@,
                        parent_path: container,
                    },
                )
            }
        },
    }
}

/// The flat entries of a container.
pub open spec fn archive_entries(
    headers: Seq<Option<ArchiveHeader>>,
    since: Option<u128>,
    container: Seq<char>,
) -> Seq<EntryView> {
    headers.filter_map(|h: Option<ArchiveHeader>| header_entry(h, since, container))
}

/// Lists every entry of a container from its decoded records, in storage
/// order; records that failed to decode (`None`) are left out, and with a
/// threshold, so is every entry modified strictly before it. A 7z
/// container gives `UnsupportedFormat`, a path without a container
/// extension `NotFound`.
pub fn get_archive_data(
    absolute_path: String,
    changed_since: Option<u128>,
    headers: Vec<Option<ArchiveHeader>>,
) -> (r: Result<FolderData, ImgetError>)
    ensures
        match r {
            Ok(d) => format_of(absolute_path@) matches Some(Ok(_)) && d@.entries == archive_entries(
                headers@,
                changed_since,
                absolute_path@,
            ) && d@.absolute_path == absolute_path@ && d@.parent_path is None && d@.skipped
                == unreadable_count(headers@),
            Err(e) => container_error(absolute_path@, e.kind),
        },
{
    match container_format(absolute_path.as_str()) {
        Ok(_) => {},
        Err(e) => {
            return Err(e);
        },
    }
    let mut entries: Vec<FileEntry> = Vec::new();
    let mut skipped: usize = 0;
    let mut i: usize = 0;
    while i < headers.len()
        invariant
            i <= headers@.len(),
            skipped == unreadable_count(headers@.subrange(0, i as int)),
            entries_view(entries@) == archive_entries(
                headers@.subrange(0, i as int),
                changed_since,
                absolute_path@,
            ),
        decreases headers@.len() - i,
    {
        proof {
            lemma_filter_map_step(
                headers@,
                |h: Option<ArchiveHeader>| header_entry(h, changed_since, absolute_path@),
                i as int,
            );
        }
        match &headers[i] {
            Some(h) => {
                let modified: u128 = h.file_time as u128 * 1000;
                let keep = match changed_since {
                    Some(t) => modified >= t,
                    None => true,
                };
                if keep {
                    proof {
                        reveal_strlit("/");
                    }
                    let mut abs = copy_string(&absolute_path);
                    abs.append("/");
                    abs.append(h.filename.as_str());
                    assert("/"@ =~= seq!['/']);
                    assert(abs@ =~= absolute_path@ + seq!['/'] + h.filename@);
                    let e = FileEntry {
                        name: copy_string(&h.filename),
                        is_directory: h.is_directory,
                        last_modified: modified,
                        fsize: h.unpacked_size,
                        absolute_path: abs,
                        parent_path: copy_string(&absolute_path),
                    };
                    assert(e@ == header_entry(headers@[i as int], changed_since, absolute_path@)->0);
                    proof {
                        lemma_entries_view_push(entries@, e);
                    }
                    entries.push(e);
                }
            },
            None => {
                proof {
                    lemma_unreadable_count_bound(headers@.subrange(0, i as int));
                }
                skipped = skipped + 1;
            },
        }
        assert(headers@.subrange(0, i + 1).drop_last() =~= headers@.subrange(0, i as int));
        i = i + 1;
    }
    assert(headers@.subrange(0, i as int) =~= headers@);
    Ok(FolderData { entries, absolute_path, parent_path: None, skipped })
}

/// The entry that a flat container entry gives in the listing of
/// subfolder `sub`: entries directly inside it with a non-empty last
/// segment, renamed to that segment, with the directory of their own path
/// as parent.
pub open spec fn sub_entry(e: EntryView, sub: Seq<char>) -> Option<EntryView> {
    let n = trimmed(e.name);
    if dir_of(n) == sub && file_name(n).len() > 0 {
        Some(
            EntryView {
                name: file_name(n),
                parent_path: dir_of(trimmed(e.absolute_path)),
                ..e
            },
        )
    } else {
        None
    }
}

/// The part of `n` below `sub`, where `n` lies below it (everything, at the
/// container's top level).
pub open spec fn rest_below(sub: Seq<char>, n: Seq<char>) -> Option<Seq<char>> {
    if sub.len() == 0 {
        Some(n)
    } else if is_below(sub, n) {
        Some(n.subrange(sub.len() + 1int, n.len() as int))
    } else {
        None
    }
}

/// The folder of `sub` that an entry deeper than `sub`'s direct children
/// lies in: the first segment of its path below `sub`, where non-empty.
pub open spec fn implied_segment(e: EntryView, sub: Seq<char>) -> Option<Seq<char>> {
    match rest_below(sub, trimmed(e.name)) {
        Some(r) => {
            let k = first_index_of(r, '/');
            if k > 0 {
                Some(r.subrange(0, k))
            } else {
                None
            }
        },
        None => None,
    }
}

/// The folders of `sub` that deeper entries lie in, each once, in the
/// order of their first entry.
pub open spec fn implied_segments(entries: Seq<EntryView>, sub: Seq<char>) -> Seq<Seq<char>>
    decreases entries.len(),
{
    if entries.len() == 0 {
        Seq::empty()
    } else {
        let p = implied_segments(entries.drop_last(), sub);
        match implied_segment(entries.last(), sub) {
            Some(g) => if p.contains(g) {
                p
            } else {
                p.push(g)
            },
            None => p,
        }
    }
}

/// The entries stored directly in subfolder `sub`.
pub open spec fn direct_entries(entries: Seq<EntryView>, sub: Seq<char>) -> Seq<EntryView> {
    entries.filter_map(|e: EntryView| sub_entry(e, sub))
}

pub open spec fn names_of(entries: Seq<EntryView>) -> Seq<Seq<char>> {
    entries.map_values(|e: EntryView| e.name)
}

/// The directory entry listed for folder `g` of the listing at `dir`,
/// which the container holds no record of.
pub open spec fn implied_entry(g: Seq<char>, dir: Seq<char>) -> EntryView {
    EntryView {
        name: g,
        is_directory: true,
        last_modified: 0,
        fsize: 0,
        absolute_path: joined(dir, g),
        parent_path: dir,
    }
}

/// The folders of `sub` without a record of their own, as entries.
pub open spec fn implied_entries(entries: Seq<EntryView>, sub: Seq<char>, container: Seq<char>) -> Seq<
    EntryView,
> {
    let names = names_of(direct_entries(entries, sub));
    let dir = joined(container, sub);
    implied_segments(entries, sub).filter_map(
        |g: Seq<char>| if names.contains(g) { None } else { Some(implied_entry(g, dir)) },
    )
}

/// The entries of subfolder `sub` of the flat listing of `container`: the
/// entries stored directly in it, then a directory for each folder that
/// deeper entries imply and that has no record of its own.
pub open spec fn subfolder_entries(entries: Seq<EntryView>, sub: Seq<char>, container: Seq<char>) -> Seq<
    EntryView,
> {
    direct_entries(entries, sub) + implied_entries(entries, sub, container)
}

pub proof fn lemma_filter_map_step<A, B>(s: Seq<A>, f: spec_fn(A) -> Option<B>, i: int)
    requires
        0 <= i < s.len(),
    ensures
        s.subrange(0, i + 1).filter_map(f) == match f(s[i]) {
            Some(b) => s.subrange(0, i).filter_map(f).push(b),
            None => s.subrange(0, i).filter_map(f),
        },
{
    assert(s.subrange(0, i + 1).drop_last() =~= s.subrange(0, i));
    if let Some(b) = f(s[i]) {
        assert(s.subrange(0, i).filter_map(f) + seq![b] =~= s.subrange(0, i).filter_map(f).push(
            b,
        ));
    }
}

fn rest_below_exec(sub: &String, n: &String) -> (r: Option<String>)
    ensures
        match r {
            Some(x) => rest_below(sub@, n@) == Some(x@),
            None => rest_below(sub@, n@) is None,
        },
{
    let sc = chars_of(sub.as_str());
    if sc.len() == 0 {
        return Some(n.clone());
    }
    let nc = chars_of(n.as_str());
    if is_below_exec(&sc, &nc) {
        let k = sc.len();
        assert(k < nc.len());
        Some(substring(n.as_str(), k + 1, nc.len()))
    } else {
        None
    }
}

fn implied_segment_exec(e: &FileEntry, sub: &String) -> (r: Option<String>)
    ensures
        match r {
            Some(x) => implied_segment(e@, sub@) == Some(x@),
            None => implied_segment(e@, sub@) is None,
        },
{
    let n = path_trimmed(e.name.as_str());
    match rest_below_exec(sub, &n) {
        Some(rest) => {
            let rc = chars_of(rest.as_str());
            proof {
                lemma_first_index_props(rc@, '/');
            }
            match first_index(&rc, '/') {
                Some(k) => {
                    if k > 0 {
                        Some(substring(rest.as_str(), 0, k))
                    } else {
                        None
                    }
                },
                None => None,
            }
        },
        None => None,
    }
}

/// The listing of one subfolder of a container, from the container's flat
/// listing. Its own path is the container's path joined with `sub_folder`.
pub fn get_archive_subfolder(folder_data: FolderData, sub_folder: String) -> (r: FolderData)
    ensures
        r@.entries == subfolder_entries(
            folder_data@.entries,
            sub_folder@,
            folder_data@.absolute_path,
        ),
        r@.absolute_path == joined(folder_data@.absolute_path, sub_folder@),
        r@.parent_path == parent_dir(joined(folder_data@.absolute_path, sub_folder@)),
        r@.skipped == folder_data@.skipped,
{
    let ghost src = folder_data@.entries;
    let ghost f = |e: EntryView| sub_entry(e, sub_folder@);
    let mut entries: Vec<FileEntry> = Vec::new();
    let mut names: Vec<String> = Vec::new();
    let mut segments: Vec<String> = Vec::new();
    let mut i: usize = 0;
    while i < folder_data.entries.len()
        invariant
            i <= folder_data.entries@.len(),
            src == entries_view(folder_data.entries@),
            f == (|e: EntryView| sub_entry(e, sub_folder@)),
            entries_view(entries@) == src.subrange(0, i as int).filter_map(f),
            strings_view(names@) == names_of(entries_view(entries@)),
            strings_view(segments@) == implied_segments(src.subrange(0, i as int), sub_folder@),
        decreases folder_data.entries@.len() - i,
    {
        proof {
            lemma_filter_map_step(src, f, i as int);
        }
        let e = &folder_data.entries[i];
        assert(src[i as int] == e@);
        assert(src.subrange(0, i + 1).drop_last() =~= src.subrange(0, i as int));
        let n = path_trimmed(e.name.as_str());
        let d = path_dir(n.as_str());
        let base = path_file_name(n.as_str());
        if d == sub_folder && base.unicode_len() > 0 {
            let abs_trimmed = path_trimmed(e.absolute_path.as_str());
            let ne = FileEntry {
                name: base,
                is_directory: e.is_directory,
                last_modified: e.last_modified,
                fsize: e.fsize,
                absolute_path: copy_string(&e.absolute_path),
                parent_path: path_dir(abs_trimmed.as_str()),
            };
            assert(f(src[i as int]) == Some(ne@));
            proof {
                lemma_entries_view_push(entries@, ne);
                lemma_strings_view_push(names@, ne.name);
                assert(names_of(entries_view(entries@).push(ne@)) =~= names_of(
                    entries_view(entries@),
                ).push(ne@.name));
            }
            names.push(copy_string(&ne.name));
            entries.push(ne);
        }
        match implied_segment_exec(e, &sub_folder) {
            Some(g) => {
                if !contains_string(&segments, &g) {
                    proof {
                        lemma_strings_view_push(segments@, g);
                    }
                    segments.push(g);
                }
            },
            None => {},
        }
        i = i + 1;
    }
    assert(src.subrange(0, i as int) =~= src);
    let absolute_path = join_path(folder_data.absolute_path.as_str(), sub_folder.as_str());
    let ghost direct = entries_view(entries@);
    let ghost segs = strings_view(segments@);
    let ghost dnames = names_of(direct);
    let ghost g = |x: Seq<char>| if dnames.contains(x) { None } else { Some(implied_entry(x, absolute_path@)) };
    let mut j: usize = 0;
    while j < segments.len()
        invariant
            j <= segments@.len(),
            segs == strings_view(segments@),
            dnames == strings_view(names@),
            g == (|x: Seq<char>| if dnames.contains(x) { None } else { Some(implied_entry(x, absolute_path@)) }),
            entries_view(entries@) == direct + segs.subrange(0, j as int).filter_map(g),
        decreases segments@.len() - j,
    {
        proof {
            lemma_filter_map_step(segs, g, j as int);
        }
        let sg = &segments[j];
        assert(segs[j as int] == sg@);
        if !contains_string(&names, sg) {
            let ne = FileEntry {
                name: copy_string(sg),
                is_directory: true,
                last_modified: 0,
                fsize: 0,
                absolute_path: join_path(absolute_path.as_str(), sg.as_str()),
                parent_path: copy_string(&absolute_path),
            };
            proof {
                lemma_entries_view_push(entries@, ne);
                assert(direct + segs.subrange(0, j as int).filter_map(g).push(ne@) =~= (direct
                    + segs.subrange(0, j as int).filter_map(g)).push(ne@));
            }
            entries.push(ne);
        }
        j = j + 1;
    }
    assert(segs.subrange(0, j as int) =~= segs);
    let parent_path = path_parent(absolute_path.as_str());
    FolderData { entries, absolute_path, parent_path, skipped: folder_data.skipped }
}

/// Entries of a flat container listing that are not directories.
pub open spec fn leaf_entry(e: EntryView) -> Option<EntryView> {
    if e.is_directory {
        None
    } else {
        Some(e)
    }
}

/// A flat container listing without its directories: only the leaf files.
pub fn flatten_archive(folder_data: FolderData) -> (r: FolderData)
    ensures
        r@.entries == folder_data@.entries.filter_map(|e: EntryView| leaf_entry(e)),
        r@.absolute_path == folder_data@.absolute_path,
        r@.parent_path == folder_data@.parent_path,
        r@.skipped == folder_data@.skipped,
{
    let ghost src = folder_data@.entries;
    let ghost f = |e: EntryView| leaf_entry(e);
    let FolderData { entries: old_entries, absolute_path, parent_path, skipped } = folder_data;
    let mut entries: Vec<FileEntry> = Vec::new();
    let mut i: usize = 0;
    while i < old_entries.len()
        invariant
            i <= old_entries@.len(),
            src == entries_view(old_entries@),
            f == (|e: EntryView| leaf_entry(e)),
            entries_view(entries@) == src.subrange(0, i as int).filter_map(f),
        decreases old_entries@.len() - i,
    {
        proof {
            lemma_filter_map_step(src, f, i as int);
        }
        let e = &old_entries[i];
        assert(src[i as int] == e@);
        if !e.is_directory {
            let ne = FileEntry {
                name: copy_string(&e.name),
                is_directory: e.is_directory,
                last_modified: e.last_modified,
                fsize: e.fsize,
                absolute_path: copy_string(&e.absolute_path),
                parent_path: copy_string(&e.parent_path),
            };
            proof {
                lemma_entries_view_push(entries@, ne);
            }
            entries.push(ne);
        }
        i = i + 1;
    }
    assert(src.subrange(0, i as int) =~= src);
    FolderData { entries, absolute_path, parent_path, skipped }
}

/// The container formats that have a reader.
#[derive(Clone, Copy, Debug, PartialEq, Eq, Structural)]
pub enum ContainerFormat {
    Zip,
    Rar,
}

/// The reader format for a container path: zip and rar each have a reader
/// of their own; 7z is recognized but unsupported; anything else is no
/// container.
pub open spec fn format_of(s: Seq<char>) -> Option<Result<ContainerFormat, ErrorKind>> {
    match extension(s) {
        Some(e) => if e =~= seq!['z', 'i', 'p'] {
            Some(Ok(ContainerFormat::Zip))
        } else if e =~= seq!['r', 'a', 'r'] {
            Some(Ok(ContainerFormat::Rar))
        } else if e =~= seq!['7', 'z'] {
            Some(Err(ErrorKind::UnsupportedFormat))
        } else {
            None
        },
        None => None,
    }
}

/// The error that a path gives as a container: `UnsupportedFormat` for
/// 7z, `NotFound` for a path without a container extension.
pub open spec fn container_error(path: Seq<char>, k: ErrorKind) -> bool {
    match format_of(path) {
        Some(Err(e)) => k == e,
        Some(Ok(_)) => false,
        None => k == ErrorKind::NotFound,
    }
}

/// Chooses the reader for a container before it is opened. A 7z container
/// gives `UnsupportedFormat`; a path without a container extension gives
/// `NotFound`.
pub fn container_format(path: &str) -> (r: Result<ContainerFormat, ImgetError>)
    ensures
        match r {
            Ok(f) => format_of(path@) == Some(Ok::<ContainerFormat, ErrorKind>(f)),
            Err(e) => match format_of(path@) {
                Some(Err(k)) => e.kind == k,
                Some(Ok(_)) => false,
                None => e.kind == ErrorKind::NotFound,
            },
        },
{
    proof {
        reveal_strlit("zip");
        reveal_strlit("rar");
        reveal_strlit("7z");
        reveal_strlit("no reader for 7z containers");
        reveal_strlit("not a container");
    }
    match path_extension(path) {
        Some(e) => {
            let zip = String::from_str("zip");
            let rar = String::from_str("rar");
            let sz = String::from_str("7z");
            assert(zip@ =~= seq!['z', 'i', 'p']);
            assert(rar@ =~= seq!['r', 'a', 'r']);
            assert(sz@ =~= seq!['7', 'z']);
            if e == zip {
                Ok(ContainerFormat::Zip)
            } else if e == rar {
                Ok(ContainerFormat::Rar)
            } else if e == sz {
                Err(ImgetError::new(ErrorKind::UnsupportedFormat, String::from_str("no reader for 7z containers")))
            } else {
                Err(ImgetError::new(ErrorKind::NotFound, String::from_str("not a container")))
            }
        },
        None => Err(ImgetError::new(ErrorKind::NotFound, String::from_str("not a container"))),
    }
}

/// What to do with one record while a container is scanned for an entry.
#[derive(Clone, Copy, Debug, PartialEq, Eq, Structural)]
pub enum RecordAction {
    /// The record is the one wanted: decode its payload and stop.
    Extract,
    /// Another record: skip its payload without decoding it.
    Skip,
}

/// Decides, for a record met while scanning a container, whether it is the
/// wanted entry: names match exactly, case included.
pub fn record_action(record_name: &String, wanted: &String) -> (r: RecordAction)
    ensures
        r == RecordAction::Extract <==> record_name@ == wanted@,
{
    if *record_name == *wanted {
        RecordAction::Extract
    } else {
        RecordAction::Skip
    }
}

/// Reads a file stored in a container: resolves the path to a container
/// and the entry's name inside it, then has `read_entry` read that entry.
/// Gives `Ok(None)` where the path has no container ancestor; the reader's
/// result otherwise, its errors with their own kind.
pub fn try_archive_file<F: Fn(&String, &String) -> Result<Option<Vec<u8>>, ImgetError>>(
    full_path: &str,
    real_files: &Vec<bool>,
    read_entry: F,
) -> (r: Result<Option<Vec<u8>>, ImgetError>)
    requires
        forall|c: &String, i: &String| read_entry.requires((c, i)),
    ensures
        (forall|j: int| !qualifies(full_path@, real_files@, j)) ==> r == Ok::<
            Option<Vec<u8>>,
            ImgetError,
        >(None),
        !(forall|j: int| !qualifies(full_path@, real_files@, j)) ==> exists|b: ContainerBoundary|
            resolves_to(full_path@, real_files@, Some(b)) && read_entry.ensures(
                (&b.container_path, &b.inner_path),
                r,
            ),
{
    match split_archive_path(full_path, real_files) {
        Some(b) => {
            let r = read_entry(&b.container_path, &b.inner_path);
            r
        },
        None => Ok(None),
    }
}

/// The fetch failed with `NotFound`.
pub open spec fn is_not_found(r: Result<Vec<u8>, ImgetError>) -> bool {
    r matches Err(e) && e.kind == ErrorKind::NotFound
}

/// What a fetch returns once the container reader gave `o`: the bytes, a
/// `NotFound` where the entry is missing, or the reader's own error.
pub open spec fn fetched_from(o: Result<Option<Vec<u8>>, ImgetError>, r: Result<Vec<u8>, ImgetError>) -> bool {
    match o {
        Ok(Some(d)) => r == Ok::<Vec<u8>, ImgetError>(d),
        Ok(None) => is_not_found(r),
        Err(e) => r == Err::<Vec<u8>, ImgetError>(e),
    }
}

/// Fetches a file: its bytes as read directly where that succeeded, else
/// the entry of a container that the path resolves to. `NotFound` comes
/// where the path resolves to no container or the container holds no such
/// entry; an error of the container reader (an invalid container, a payload
/// that does not decode) comes out with its own kind.
pub fn fetch_file<F: Fn(&String, &String) -> Result<Option<Vec<u8>>, ImgetError>>(
    path: &str,
    direct: Option<Vec<u8>>,
    real_files: &Vec<bool>,
    read_entry: F,
) -> (r: Result<Vec<u8>, ImgetError>)
    requires
        forall|c: &String, i: &String| read_entry.requires((c, i)),
    ensures
        direct matches Some(d) ==> r == Ok::<Vec<u8>, ImgetError>(d),
        direct is None && (forall|j: int| !qualifies(path@, real_files@, j)) ==> is_not_found(r),
        direct is None && !(forall|j: int| !qualifies(path@, real_files@, j)) ==> exists|
            b: ContainerBoundary,
            o: Result<Option<Vec<u8>>, ImgetError>,
        |
            resolves_to(path@, real_files@, Some(b)) && read_entry.ensures(
                (&b.container_path, &b.inner_path),
                o,
            ) && fetched_from(o, r),
{
    match direct {
        Some(d) => Ok(d),
        None => {
            proof {
                reveal_strlit("file not found");
            }
            let o = try_archive_file(path, real_files, read_entry);
            match o {
                Ok(Some(d)) => Ok(d),
                Ok(None) => Err(ImgetError::new(ErrorKind::NotFound, String::from_str("file not found"))),
                Err(e) => Err(e),
            }
        },
    }
}

/// Every item that `filter_map` gives comes from some item of the source.
pub proof fn lemma_filter_map_origin<A, B>(s: Seq<A>, f: spec_fn(A) -> Option<B>)
    ensures
        forall|i: int|
            0 <= i < s.filter_map(f).len() ==> exists|j: int|
                0 <= j < s.len() && f(s[j]) == Some(#[trigger] s.filter_map(f)[i]),
    decreases s.len(),
{
    if s.len() > 0 {
        let rest = s.drop_last();
        lemma_filter_map_origin(rest, f);
        let r = s.filter_map(f);
        let rr = rest.filter_map(f);
        assert forall|i: int| 0 <= i < r.len() implies exists|j: int|
            0 <= j < s.len() && f(s[j]) == Some(#[trigger] r[i]) by {
            if i < rr.len() {
                assert(r[i] == rr[i]);
                let j = choose|j: int| 0 <= j < rest.len() && f(rest[j]) == Some(rr[i]);
                assert(s[j] == rest[j]);
            } else {
                assert(s[s.len() - 1] == s.last());
            }
        }
    }
}

pub proof fn lemma_first_index_props(s: Seq<char>, c: char)
    ensures
        -1 <= first_index_of(s, c) < s.len(),
        first_index_of(s, c) >= 0 ==> s[first_index_of(s, c)] == c,
        forall|i: int| 0 <= i < first_index_of(s, c) ==> s[i] != c,
    decreases s.len(),
{
    if s.len() > 0 && s[0] != c {
        let t = s.drop_first();
        lemma_first_index_props(t, c);
        assert forall|i: int| 0 <= i < first_index_of(s, c) implies s[i] != c by {
            if i > 0 {
                assert(s[i] == t[i - 1]);
            }
        }
    }
}

proof fn lemma_segments_are_names(entries: Seq<EntryView>, sub: Seq<char>)
    ensures
        forall|k: int|
            0 <= k < implied_segments(entries, sub).len() ==> (#[trigger] implied_segments(
                entries,
                sub,
            )[k]).len() > 0 && !implied_segments(entries, sub)[k].contains('/'),
    decreases entries.len(),
{
    if entries.len() > 0 {
        let p = implied_segments(entries.drop_last(), sub);
        lemma_segments_are_names(entries.drop_last(), sub);
        if let Some(r) = rest_below(sub, trimmed(entries.last().name)) {
            lemma_first_index_props(r, '/');
        }
        assert forall|k: int| 0 <= k < implied_segments(entries, sub).len() implies (
        #[trigger] implied_segments(entries, sub)[k]).len() > 0 && !implied_segments(
            entries,
            sub,
        )[k].contains('/') by {
            if k < p.len() {
                assert(implied_segments(entries, sub)[k] == p[k]);
            }
        }
    }
}

/// The subfolder law: every entry of the listing of `sub` has a non-empty
/// name without a separator; each entry stored directly in it comes from a
/// flat entry whose directory is exactly `sub` and carries that entry's
/// last segment as its name.
pub proof fn lemma_subfolder_entries(entries: Seq<EntryView>, sub: Seq<char>, container: Seq<char>)
    ensures
        forall|i: int|
            0 <= i < subfolder_entries(entries, sub, container).len() ==> (#[trigger] subfolder_entries(
                entries,
                sub,
                container,
            )[i]).name.len() > 0 && !subfolder_entries(entries, sub, container)[i].name.contains(
                '/',
            ),
        forall|i: int|
            0 <= i < direct_entries(entries, sub).len() ==> exists|j: int|
                0 <= j < entries.len() && dir_of(trimmed(entries[j].name)) == sub && (
                #[trigger] direct_entries(entries, sub)[i]).name == file_name(
                    trimmed(entries[j].name),
                ),
{
    let fd = |e: EntryView| sub_entry(e, sub);
    let d = direct_entries(entries, sub);
    let names = names_of(d);
    let dir = joined(container, sub);
    let fi = |g: Seq<char>| if names.contains(g) { None } else { Some(implied_entry(g, dir)) };
    let segs = implied_segments(entries, sub);
    let im = implied_entries(entries, sub, container);
    lemma_filter_map_origin(entries, fd);
    lemma_filter_map_origin(segs, fi);
    lemma_segments_are_names(entries, sub);
    assert forall|i: int| 0 <= i < d.len() implies (#[trigger] d[i]).name.len() > 0 && !d[i].name.contains('/')
        && exists|j: int|
        0 <= j < entries.len() && dir_of(trimmed(entries[j].name)) == sub && d[i].name == file_name(
            trimmed(entries[j].name),
        ) by {
        let j = choose|j: int| 0 <= j < entries.len() && fd(entries[j]) == Some(d[i]);
        lemma_file_name_has_no_separator(trimmed(entries[j].name));
    }
    assert forall|i: int| 0 <= i < im.len() implies (#[trigger] im[i]).name.len() > 0 && !im[i].name.contains('/') by {
        let j = choose|j: int| 0 <= j < segs.len() && fi(segs[j]) == Some(im[i]);
        assert(segs[j] == im[i].name);
    }
    assert forall|i: int| 0 <= i < direct_entries(entries, sub).len() implies exists|j: int|
        0 <= j < entries.len() && dir_of(trimmed(entries[j].name)) == sub && (
        #[trigger] direct_entries(entries, sub)[i]).name == file_name(trimmed(entries[j].name)) by {
        assert(d[i] == direct_entries(entries, sub)[i]);
        let j = choose|j: int| 0 <= j < entries.len() && fd(entries[j]) == Some(d[i]);
        assert(sub_entry(entries[j], sub) == Some(d[i]));
    }
    let all = subfolder_entries(entries, sub, container);
    assert forall|i: int| 0 <= i < all.len() implies (#[trigger] all[i]).name.len() > 0
        && !all[i].name.contains('/') by {
        if i < d.len() {
            assert(all[i] == d[i]);
        } else {
            assert(all[i] == im[i - d.len()]);
        }
    }
}

} // verus!
