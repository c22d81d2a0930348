//! One listing for any virtual path: a real directory, a whole container,
//! or a folder inside a container.
use vstd::prelude::*;

use crate::archives::{
    ArchiveHeader,
    container_error,
    format_of,
    archive_entries,
    flatten_archive,
    get_archive_data,
    get_archive_subfolder,
    leaf_entry,
    subfolder_entries,
};
use crate::folders::{
    DirChild,
    EntryView,
    FolderData,
    archive_as_folder,
    as_folder_entry,
    dir_entries,
    get_folder_data,
    unreadable_count,
};
use crate::error::ImgetError;
use crate::paths::{
    ContainerBoundary,
    has_container_ext,
    joined,
    parent_dir,
    path_has_container_ext,
    resolves_to,
    split_archive_path,
};

verus! {

/// Where a listing comes from.
pub enum ListingPlan {
    /// A real directory, by its canonical path.
    RealDirectory(String),
    /// A whole container file, by its canonical path.
    WholeContainer(String),
    /// A folder inside a container that the requested path resolved to.
    ContainerSubfolder(ContainerBoundary),
    /// Nothing to list.
    NotFound,
}

/// Decides where the listing of `path` comes from. `canonical` is the
/// path's canonical form where it exists on the file system, with
/// `is_dir` and `is_file` from its metadata; `real_files` flags which
/// ancestors of `path` are regular files (see `split_archive_path`).
pub fn plan_listing(
    path: &str,
    canonical: Option<String>,
    is_dir: bool,
    is_file: bool,
    archive_access: bool,
    real_files: &Vec<bool>,
) -> (r: ListingPlan)
    ensures
        match canonical {
            None => match r {
                ListingPlan::ContainerSubfolder(b) => resolves_to(path@, real_files@, Some(b)),
                ListingPlan::NotFound => resolves_to(path@, real_files@, None),
                _ => false,
            },
            Some(c) => if is_dir {
                r matches ListingPlan::RealDirectory(d) && d@ == c@
            } else if is_file && archive_access && has_container_ext(c@) {
                r matches ListingPlan::WholeContainer(d) && d@ == c@
            } else {
                r is NotFound
            },
        },
{
    match canonical {
        None => match split_archive_path(path, real_files) {
            Some(b) => ListingPlan::ContainerSubfolder(b),
            None => ListingPlan::NotFound,
        },
        Some(c) => {
            if is_dir {
                ListingPlan::RealDirectory(c)
            } else if is_file && archive_access && path_has_container_ext(c.as_str()) {
                ListingPlan::WholeContainer(c)
            } else {
                ListingPlan::NotFound
            }
        },
    }
}

/// Lists a real directory; with container access, its container files are
/// shown as directories.
pub fn list_real_directory(
    path: String,
    changed_since: Option<u128>,
    children: Vec<Option<DirChild>>,
    archive_access: bool,
) -> (r: FolderData)
    ensures
        r@.entries == if archive_access {
            dir_entries(children@, changed_since, path@).map_values(
                |e: EntryView| as_folder_entry(e),
            )
        } else {
            dir_entries(children@, changed_since, path@)
        },
        r@.absolute_path == path@,
        r@.parent_path == parent_dir(path@),
        r@.skipped == unreadable_count(children@),
{
    let data = get_folder_data(path, changed_since, children);
    if archive_access {
        archive_as_folder(data)
    } else {
        data
    }
}

/// Lists a whole container: only its leaf files when flattened, else its
/// top level. Fails as `get_archive_data` does on the container's format.
pub fn list_whole_container(
    container: String,
    changed_since: Option<u128>,
    headers: Vec<Option<ArchiveHeader>>,
    flatten_archives: bool,
) -> (r: Result<FolderData, ImgetError>)
    ensures
        match r {
            Ok(d) => format_of(container@) matches Some(Ok(_)) && d@.entries == (if flatten_archives {
                archive_entries(headers@, changed_since, container@).filter_map(
                    |e: EntryView| leaf_entry(e),
                )
            } else {
                subfolder_entries(
                    archive_entries(headers@, changed_since, container@),
                    Seq::empty(),
                    container@,
                )
            }) && d@.absolute_path == container@ && d@.skipped == unreadable_count(headers@) && (flatten_archives ==> d@.parent_path is None)
                && (!flatten_archives ==> d@.parent_path == parent_dir(container@)),
            Err(e) => container_error(container@, e.kind),
        },
{
    let data = get_archive_data(container, changed_since, headers)?;
    if flatten_archives {
        Ok(flatten_archive(data))
    } else {
        let r = get_archive_subfolder(data, String::new());
        assert(joined(data@.absolute_path, Seq::empty()) == data@.absolute_path);
        Ok(r)
    }
}

/// Lists the folder inside a container that a path resolved to. Fails as
/// `get_archive_data` does on the container's format.
pub fn list_container_subfolder(boundary: ContainerBoundary, headers: Vec<Option<ArchiveHeader>>) -> (r:
    Result<FolderData, ImgetError>)
    ensures
        match r {
            Ok(d) => format_of(boundary.container_path@) matches Some(Ok(_)) && d@.entries
                == subfolder_entries(
                archive_entries(headers@, None, boundary.container_path@),
                boundary.inner_path@,
                boundary.container_path@,
            ) && d@.skipped == unreadable_count(headers@) && d@.absolute_path == joined(
                boundary.container_path@,
                boundary.inner_path@,
            )
                && d@.parent_path == parent_dir(
                joined(boundary.container_path@, boundary.inner_path@),
            ),
            Err(e) => container_error(boundary.container_path@, e.kind),
        },
{
    let ContainerBoundary { container_path, inner_path } = boundary;
    let data = get_archive_data(container_path, None, headers)?;
    Ok(get_archive_subfolder(data, inner_path))
}

} // verus!
