use imget::folders::{archive_as_folder, get_folder_data, is_archive, DirChild};
use imget::listing::{list_real_directory, plan_listing, ListingPlan};
use imget::paths::path_ancestors;

fn child(name: &str, dir: bool, modified: u128) -> Option<DirChild> {
    Some(DirChild {
        name: name.to_string(),
        is_directory: dir,
        last_modified: modified,
        fsize: 7,
        canonical_path: format!("/data/{}", name),
    })
}

fn children() -> Vec<Option<DirChild>> {
    vec![child("a.txt", false, 10), child("b", true, 20), None, child("c.zip", false, 30)]
}

#[test]
fn listing_without_threshold_has_every_readable_child() {
    let d = get_folder_data("/data".to_string(), None, children());
    let names: Vec<&str> = d.entries.iter().map(|e| e.name.as_str()).collect();
    assert_eq!(names, vec!["a.txt", "b", "c.zip"]);
    assert_eq!(d.absolute_path, "/data");
    assert_eq!(d.parent_path, Some("/".to_string()));
    assert_eq!(d.entries[0].absolute_path, "/data/a.txt");
    assert_eq!(d.entries[0].parent_path, "/data");
    assert_eq!(d.entries[0].fsize, 7);
    assert_eq!(d.skipped, 1);
}

#[test]
fn listing_threshold_is_strictly_greater() {
    let d = get_folder_data("/data".to_string(), Some(20), children());
    let names: Vec<&str> = d.entries.iter().map(|e| e.name.as_str()).collect();
    assert_eq!(names, vec!["c.zip"]);
    for e in &d.entries {
        assert!(e.last_modified > 20);
    }
    let none = get_folder_data("/data".to_string(), Some(30), children());
    assert_eq!(none.entries.len(), 0);
}

#[test]
fn containers_shown_as_folders() {
    let d = get_folder_data("/data".to_string(), None, children());
    let d = archive_as_folder(d);
    let dirs: Vec<bool> = d.entries.iter().map(|e| e.is_directory).collect();
    assert_eq!(dirs, vec![false, true, true]);
    let plain = list_real_directory("/data".to_string(), None, children(), false);
    let dirs: Vec<bool> = plain.entries.iter().map(|e| e.is_directory).collect();
    assert_eq!(dirs, vec![false, true, false]);
}

#[test]
fn archive_needs_file_and_extension() {
    assert!(is_archive(true, "/a/b.zip"));
    assert!(!is_archive(false, "/a/b.zip"));
    assert!(!is_archive(true, "/a/b.txt"));
}

#[test]
fn plan_follows_decision_order() {
    let p = "/data/sub";
    let r = plan_listing(p, Some("/data/sub".to_string()), true, false, false, &vec![]);
    assert!(matches!(r, ListingPlan::RealDirectory(ref d) if d == "/data/sub"));
    let r = plan_listing("/data/c.zip", Some("/data/c.zip".to_string()), false, true, true, &vec![]);
    assert!(matches!(r, ListingPlan::WholeContainer(ref d) if d == "/data/c.zip"));
    let r = plan_listing("/data/c.zip", Some("/data/c.zip".to_string()), false, true, false, &vec![]);
    assert!(matches!(r, ListingPlan::NotFound));
    let r = plan_listing("/data/a.txt", Some("/data/a.txt".to_string()), false, true, true, &vec![]);
    assert!(matches!(r, ListingPlan::NotFound));
    let q = "/data/c.zip/docs";
    let flags: Vec<bool> = path_ancestors(q).iter().map(|a| a == "/data/c.zip").collect();
    let r = plan_listing(q, None, false, false, true, &flags);
    match r {
        ListingPlan::ContainerSubfolder(b) => {
            assert_eq!(b.container_path, "/data/c.zip");
            assert_eq!(b.inner_path, "docs");
        }
        _ => panic!("expected a container subfolder"),
    }
    let r = plan_listing("/nowhere/x", None, false, false, true, &vec![false; 3]);
    assert!(matches!(r, ListingPlan::NotFound));
}
