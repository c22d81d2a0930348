use imget::archives::{
    container_format, fetch_file, flatten_archive, get_archive_data, get_archive_subfolder,
    record_action, try_archive_file, ArchiveHeader, ContainerFormat, RecordAction,
};
use imget::error::{ErrorKind, ImgetError};
use imget::listing::{list_container_subfolder, list_whole_container};
use imget::paths::{path_ancestors, split_archive_path};

fn header(name: &str, time: u32, size: u64, dir: bool) -> Option<ArchiveHeader> {
    Some(ArchiveHeader { filename: name.to_string(), file_time: time, unpacked_size: size, is_directory: dir })
}

fn sample_headers() -> Vec<Option<ArchiveHeader>> {
    vec![
        header("docs", 100, 0, true),
        header("docs/readme.txt", 200, 11, false),
        header("docs/img.png", 300, 42, false),
    ]
}

fn scenario_headers() -> Vec<Option<ArchiveHeader>> {
    vec![header("docs/readme.txt", 200, 11, false), header("docs/img.png", 300, 42, false)]
}

fn flags_for(path: &str, real: &str) -> Vec<bool> {
    path_ancestors(path).iter().map(|a| a == real).collect()
}

#[test]
fn archive_data_converts_records() {
    let d = get_archive_data("/srv/a.zip".to_string(), None, sample_headers()).unwrap();
    assert_eq!(d.absolute_path, "/srv/a.zip");
    assert_eq!(d.parent_path, None);
    assert_eq!(d.entries.len(), 3);
    let e = &d.entries[1];
    assert_eq!(e.name, "docs/readme.txt");
    assert_eq!(e.last_modified, 200_000);
    assert_eq!(e.fsize, 11);
    assert!(!e.is_directory);
    assert_eq!(e.absolute_path, "/srv/a.zip/docs/readme.txt");
    assert_eq!(e.parent_path, "/srv/a.zip");
}

#[test]
fn archive_threshold_keeps_equal_times() {
    let d = get_archive_data("a.zip".to_string(), Some(200_000), sample_headers()).unwrap();
    let names: Vec<&str> = d.entries.iter().map(|e| e.name.as_str()).collect();
    assert_eq!(names, vec!["docs/readme.txt", "docs/img.png"]);
}

#[test]
fn archive_undecodable_records_are_dropped() {
    let hs = vec![None, header("a.txt", 1, 1, false), None];
    let d = get_archive_data("a.zip".to_string(), None, hs).unwrap();
    assert_eq!(d.entries.len(), 1);
    assert_eq!(d.entries[0].name, "a.txt");
    assert_eq!(d.skipped, 2);
    assert_eq!(get_archive_subfolder(d, "".to_string()).skipped, 2);
}

#[test]
fn subfolder_keeps_direct_children_renamed() {
    let mut hs = sample_headers();
    hs.push(header("docs/deep/x.txt", 1, 1, false));
    hs.push(header("other/y.txt", 1, 1, false));
    let d = get_archive_data("/srv/a.zip".to_string(), None, hs).unwrap();
    let sub = get_archive_subfolder(d, "docs".to_string());
    let names: Vec<&str> = sub.entries.iter().map(|e| e.name.as_str()).collect();
    assert_eq!(names, vec!["readme.txt", "img.png", "deep"]);
    for e in &sub.entries {
        assert!(!e.name.contains('/'));
        assert_eq!(e.parent_path, "/srv/a.zip/docs");
    }
    let deep = &sub.entries[2];
    assert!(deep.is_directory);
    assert_eq!(deep.absolute_path, "/srv/a.zip/docs/deep");
    assert_eq!(sub.absolute_path, "/srv/a.zip/docs");
    assert_eq!(sub.parent_path, Some("/srv/a.zip".to_string()));
}

#[test]
fn top_level_lists_implied_folders_once() {
    let mut hs = sample_headers();
    hs.push(header("other/y.txt", 1, 1, false));
    hs.push(header("other/z.txt", 1, 1, false));
    let d = get_archive_data("/srv/a.zip".to_string(), None, hs).unwrap();
    let top = get_archive_subfolder(d, "".to_string());
    let names: Vec<&str> = top.entries.iter().map(|e| e.name.as_str()).collect();
    assert_eq!(names, vec!["docs", "other"]);
    assert!(top.entries[1].is_directory);
    assert_eq!(top.entries[1].absolute_path, "/srv/a.zip/other");
    assert_eq!(top.entries[1].parent_path, "/srv/a.zip");
}

#[test]
fn empty_last_segments_are_left_out() {
    let hs = vec![header("docs//", 1, 0, true), header("docs/a.txt", 1, 1, false)];
    let d = get_archive_data("a.zip".to_string(), None, hs).unwrap();
    let sub = get_archive_subfolder(d, "docs".to_string());
    let names: Vec<&str> = sub.entries.iter().map(|e| e.name.as_str()).collect();
    assert_eq!(names, vec!["a.txt"]);
}

#[test]
fn seven_zip_has_no_reader() {
    let e = get_archive_data("/srv/x.7z".to_string(), None, vec![]).err().unwrap();
    assert_eq!(e.kind, ErrorKind::UnsupportedFormat);
    let e = get_archive_data("/srv/x.txt".to_string(), None, vec![]).err().unwrap();
    assert_eq!(e.kind, ErrorKind::NotFound);
}

#[test]
fn subfolder_treats_trailing_separator_as_directory() {
    let hs = vec![header("docs/", 1, 0, true), header("docs/a.txt", 1, 1, false)];
    let d = get_archive_data("a.zip".to_string(), None, hs).unwrap();
    let root = get_archive_subfolder(d, "".to_string());
    assert_eq!(root.entries.len(), 1);
    assert_eq!(root.entries[0].name, "docs");
    assert_eq!(root.entries[0].parent_path, "a.zip");
}

#[test]
fn scenario_container_listing() {
    let top = list_whole_container("/srv/a.zip".to_string(), None, scenario_headers(), false).unwrap();
    assert_eq!(top.entries.len(), 1);
    assert_eq!(top.entries[0].name, "docs");
    assert!(top.entries[0].is_directory);

    let path = "/srv/a.zip/docs";
    let b = split_archive_path(path, &flags_for(path, "/srv/a.zip")).unwrap();
    let docs = list_container_subfolder(b, scenario_headers()).unwrap();
    let names: Vec<&str> = docs.entries.iter().map(|e| e.name.as_str()).collect();
    assert_eq!(names, vec!["readme.txt", "img.png"]);
    for e in &docs.entries {
        assert!(e.parent_path.ends_with("a.zip/docs"));
    }
}

#[test]
fn flattened_container_has_only_files() {
    let flat = list_whole_container("/srv/a.zip".to_string(), None, sample_headers(), true).unwrap();
    let names: Vec<&str> = flat.entries.iter().map(|e| e.name.as_str()).collect();
    assert_eq!(names, vec!["docs/readme.txt", "docs/img.png"]);
    let d = get_archive_data("a.zip".to_string(), None, vec![header("d", 1, 0, true)]).unwrap();
    assert_eq!(flatten_archive(d).entries.len(), 0);
}

#[test]
fn container_formats() {
    assert_eq!(container_format("/a/b.zip").ok(), Some(ContainerFormat::Zip));
    assert_eq!(container_format("/a/b.rar").ok(), Some(ContainerFormat::Rar));
    let e = container_format("/a/b.7z").err().unwrap();
    assert_eq!(e.kind, ErrorKind::UnsupportedFormat);
    assert_eq!(e.status_code(), 415);
    let e = container_format("/a/b.txt").err().unwrap();
    assert_eq!(e.kind, ErrorKind::NotFound);
    assert_eq!(e.status_code(), 404);
}

#[test]
fn record_matching_is_exact() {
    let w = "docs/readme.txt".to_string();
    assert_eq!(record_action(&"docs/readme.txt".to_string(), &w), RecordAction::Extract);
    assert_eq!(record_action(&"docs/README.txt".to_string(), &w), RecordAction::Skip);
    assert_eq!(record_action(&"docs/readme.txt.bak".to_string(), &w), RecordAction::Skip);
}

fn stored(container: &String, inner: &String) -> Result<Option<Vec<u8>>, ImgetError> {
    if container == "/srv/a.zip" && inner == "docs/readme.txt" {
        Ok(Some(b"hello world".to_vec()))
    } else {
        Ok(None)
    }
}

fn corrupt(_container: &String, _inner: &String) -> Result<Option<Vec<u8>>, ImgetError> {
    Err(ImgetError::new(ErrorKind::InvalidContainer, "bad header".to_string()))
}

#[test]
fn scenario_fetch_from_container() {
    let p = "/srv/a.zip/docs/readme.txt";
    let flags = flags_for(p, "/srv/a.zip");
    assert_eq!(try_archive_file(p, &flags, stored).unwrap(), Some(b"hello world".to_vec()));
    assert_eq!(fetch_file(p, None, &flags, stored).ok(), Some(b"hello world".to_vec()));

    let m = "/srv/a.zip/docs/missing.txt";
    let flags = flags_for(m, "/srv/a.zip");
    assert_eq!(try_archive_file(m, &flags, stored).unwrap(), None);
    let e = fetch_file(m, None, &flags, stored).err().unwrap();
    assert_eq!(e.kind, ErrorKind::NotFound);
}

#[test]
fn fetch_prefers_the_direct_read() {
    let p = "/srv/a.zip/docs/readme.txt";
    let flags = flags_for(p, "/srv/a.zip");
    assert_eq!(fetch_file(p, Some(vec![1, 2]), &flags, stored).ok(), Some(vec![1, 2]));
    let e = fetch_file("/srv/plain/x.txt", None, &vec![false; 4], stored).err().unwrap();
    assert_eq!(e.kind, ErrorKind::NotFound);
    assert_eq!(try_archive_file("/srv/plain/x.txt", &vec![false; 4], stored).unwrap(), None);
}

#[test]
fn invalid_container_is_not_not_found() {
    let p = "/srv/a.zip/docs/readme.txt";
    let flags = flags_for(p, "/srv/a.zip");
    let e = fetch_file(p, None, &flags, corrupt).err().unwrap();
    assert_eq!(e.kind, ErrorKind::InvalidContainer);
    assert_eq!(e.status_code(), 500);
}
