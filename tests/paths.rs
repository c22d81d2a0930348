use imget::archives::{get_archive_data, get_archive_subfolder, ArchiveHeader};
use imget::paths::{
    join_path, path_ancestors, path_dir, path_extension, path_file_name, path_has_container_ext,
    path_parent, split_archive_path,
};

#[test]
fn test_add() {
    let fullpath = "/projects/imget/thumbs/test.zip/test.rar/Rapiere.rar/Rapiere CH 8 PNG".to_string();
    let ancestors = path_ancestors(&fullpath);
    let real_files: Vec<bool> = ancestors.iter().map(|a| a == "/projects/imget/thumbs/test.zip").collect();
    let boundary = split_archive_path(&fullpath, &real_files).unwrap();
    assert_eq!(boundary.container_path, "/projects/imget/thumbs/test.zip");
    assert_eq!(boundary.inner_path, "test.rar/Rapiere.rar/Rapiere CH 8 PNG");
    let headers = vec![Some(ArchiveHeader {
        filename: "test.rar".to_string(),
        file_time: 1,
        unpacked_size: 10,
        is_directory: false,
    })];
    let fdata = get_archive_data(boundary.container_path.clone(), None, headers).unwrap();
    let sub = get_archive_subfolder(fdata, boundary.inner_path.clone());
    assert_eq!(sub.entries.len(), 0);
    assert_eq!(sub.absolute_path, fullpath);
}

#[test]
fn ancestors_run_from_the_path_upward() {
    let a = path_ancestors("/srv/a.zip/docs");
    assert_eq!(a, vec!["/srv/a.zip/docs".to_string(), "/srv/a.zip".to_string(), "/srv".to_string(), "".to_string()]);
    let b = path_ancestors("a.zip/docs/");
    assert_eq!(b, vec!["a.zip/docs/".to_string(), "a.zip".to_string()]);
}

#[test]
fn split_without_container_fails() {
    let p = "/srv/a.zip/docs/readme.txt";
    // no ancestor is a real file
    assert!(split_archive_path(p, &vec![false; 5]).is_none());
    // a real file without a container extension
    assert!(split_archive_path("/srv/notes.txt/x", &vec![false, true, false, false]).is_none());
    // missing flags read as false
    assert!(split_archive_path(p, &vec![]).is_none());
}

#[test]
fn split_at_container_joins_back() {
    let p = "/srv/a.zip/docs/readme.txt";
    let anc = path_ancestors(p);
    let flags: Vec<bool> = anc.iter().map(|a| a == "/srv/a.zip").collect();
    let b = split_archive_path(p, &flags).unwrap();
    assert_eq!(b.container_path, "/srv/a.zip");
    assert_eq!(b.inner_path, "docs/readme.txt");
    assert_eq!(join_path(&b.container_path, &b.inner_path), p);
}

#[test]
fn split_takes_the_nearest_container() {
    let p = "/srv/a.zip/b.rar/c.txt";
    let flags = vec![false, true, true, false, false];
    let b = split_archive_path(p, &flags).unwrap();
    assert_eq!(b.container_path, "/srv/a.zip/b.rar");
    assert_eq!(b.inner_path, "c.txt");
}

#[test]
fn split_of_container_itself_has_empty_inner() {
    let b = split_archive_path("/srv/x.7z", &vec![true]).unwrap();
    assert_eq!(b.container_path, "/srv/x.7z");
    assert_eq!(b.inner_path, "");
}

#[test]
fn doubled_separator_after_container() {
    let p = "/srv/a.zip//docs/x.txt";
    let anc = path_ancestors(p);
    assert_eq!(anc, vec![
        "/srv/a.zip//docs/x.txt".to_string(),
        "/srv/a.zip//docs".to_string(),
        "/srv/a.zip".to_string(),
        "/srv".to_string(),
        "".to_string(),
    ]);
    let flags: Vec<bool> = anc.iter().map(|a| a == "/srv/a.zip").collect();
    let b = split_archive_path(p, &flags).unwrap();
    assert_eq!(b.container_path, "/srv/a.zip");
    assert_eq!(b.inner_path, "docs/x.txt");
}

#[test]
fn extensions_and_segments() {
    assert_eq!(path_extension("/a/b.tar.zip"), Some("zip".to_string()));
    assert_eq!(path_extension("/a/.zip"), None);
    assert_eq!(path_extension("/a.zip/readme"), None);
    assert!(path_has_container_ext("x.rar"));
    assert!(path_has_container_ext("x.7z"));
    assert!(!path_has_container_ext("x.ZIP"));
    assert_eq!(path_file_name("/a/b/c.txt"), "c.txt");
    assert_eq!(path_dir("/a/b/c.txt"), "/a/b");
    assert_eq!(path_dir("/c.txt"), "/");
    assert_eq!(path_dir("c.txt"), "");
    assert_eq!(path_parent("/"), None);
    assert_eq!(path_parent("/srv/a"), Some("/srv".to_string()));
    assert_eq!(join_path("a.zip", ""), "a.zip");
    assert_eq!(join_path("a.zip", "docs"), "a.zip/docs");
}
