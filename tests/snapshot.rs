use image_db::fs::{FileSystem, ModTime, ScanEntry};

fn file(name: &str, secs: i64) -> ScanEntry {
    ScanEntry {
        name: name.as_bytes().to_vec(),
        modify_time: ModTime { secs, nanos: 0 },
        entries: None,
    }
}

fn dir(name: &str, secs: i64, children: Vec<ScanEntry>) -> ScanEntry {
    ScanEntry {
        name: name.as_bytes().to_vec(),
        modify_time: ModTime { secs, nanos: 0 },
        entries: Some(children),
    }
}

fn paths(v: &[Vec<u8>]) -> Vec<String> {
    let mut out: Vec<String> = v.iter().map(|p| String::from_utf8(p.clone()).unwrap()).collect();
    out.sort();
    out
}

#[test]
fn diff_reports_added_then_removed_file() {
    let first = FileSystem::from_scan(&dir("A", 1, vec![file("x", 1), file("y", 1)]));
    let second = FileSystem::from_scan(&dir("A", 2, vec![file("x", 1), file("y", 1), file("z", 2)]));
    let d = first.diff(&second, &Vec::new());
    assert_eq!(paths(&d.added), vec!["A/z".to_string()]);
    assert!(d.removed.is_empty());

    let third = FileSystem::from_scan(&dir("A", 3, vec![file("y", 1), file("z", 2)]));
    let d = second.diff(&third, &Vec::new());
    assert_eq!(paths(&d.removed), vec!["A/x".to_string()]);
    assert!(d.added.is_empty());
}

#[test]
fn rescan_of_unchanged_tree_is_empty_diff() {
    let tree = || dir("A", 5, vec![file("x", 1), dir("sub", 2, vec![file("y", 3)])]);
    let first = FileSystem::from_scan(&tree());
    let second = FileSystem::from_scan(&tree());
    assert_eq!(first.get_hash(), second.get_hash());
    let d = first.diff(&second, &b"/mnt".to_vec());
    assert!(d.added.is_empty());
    assert!(d.removed.is_empty());
}

#[test]
fn diff_recurses_into_changed_subdirectory() {
    let first = FileSystem::from_scan(&dir("A", 1, vec![dir("sub", 1, vec![file("p", 1)]), file("q", 1)]));
    let second = FileSystem::from_scan(&dir("A", 1, vec![dir("sub", 2, vec![file("p", 1), file("r", 2)]), file("q", 1)]));
    let d = first.diff(&second, &b"/mnt".to_vec());
    assert_eq!(paths(&d.added), vec!["/mnt/A/sub/r".to_string()]);
    assert!(d.removed.is_empty());
}

#[test]
fn diff_of_changed_timestamp_replaces_file() {
    let first = FileSystem::from_scan(&dir("A", 1, vec![file("x", 1)]));
    let second = FileSystem::from_scan(&dir("A", 1, vec![file("x", 9)]));
    let d = first.diff(&second, &Vec::new());
    assert_eq!(paths(&d.added), vec!["A/x".to_string()]);
    assert_eq!(paths(&d.removed), vec!["A/x".to_string()]);
}

#[test]
fn diff_of_kind_change_is_wholesale() {
    let first = FileSystem::from_scan(&dir("A", 1, vec![file("x", 1)]));
    let second = FileSystem::from_scan(&dir("A", 2, vec![dir("x", 2, vec![file("inner", 2)])]));
    let d = first.diff(&second, &Vec::new());
    assert_eq!(paths(&d.removed), vec!["A/x".to_string()]);
    assert_eq!(paths(&d.added), vec!["A/x/inner".to_string()]);
}

#[test]
fn diff_from_empty_snapshot_adds_everything() {
    let before = FileSystem::empty();
    assert_eq!(before.get_hash(), 0);
    let after = FileSystem::from_scan(&dir("A", 1, vec![file("x", 1), dir("s", 1, vec![file("y", 1)])]));
    let d = before.diff(&after, &b"/mnt/".to_vec());
    assert_eq!(paths(&d.added), vec!["/mnt/A/s/y".to_string(), "/mnt/A/x".to_string()]);
    assert!(d.removed.is_empty());
}

#[test]
fn default_snapshot_is_empty() {
    let d: FileSystem = Default::default();
    assert_eq!(d.get_hash(), 0);
    assert!(d.info().path.is_empty());
    assert!(d.files(&b"/r".to_vec()).is_empty());
}

#[test]
fn files_lists_leaves_under_parent() {
    let tree = FileSystem::from_scan(&dir("A", 1, vec![file("b", 1), dir("c", 1, vec![file("d", 1)]), dir("e", 1, vec![])]));
    assert_eq!(paths(&tree.files(&b"/root".to_vec())), vec!["/root/A/b".to_string(), "/root/A/c/d".to_string()]);
    let leaf = FileSystem::from_scan(&file("f", 1));
    assert_eq!(paths(&leaf.files(&Vec::new())), vec!["f".to_string()]);
}

#[test]
fn children_are_ordered_by_name() {
    let tree = FileSystem::from_scan(&dir("A", 1, vec![file("c", 1), file("a", 1), file("b", 1)]));
    match &tree {
        FileSystem::Directory { entries, .. } => {
            let names: Vec<Vec<u8>> = entries.iter().map(|e| e.info().path.clone()).collect();
            assert_eq!(names, vec![b"a".to_vec(), b"b".to_vec(), b"c".to_vec()]);
        }
        FileSystem::File { .. } => panic!("expected a directory"),
    }
}

#[test]
fn fingerprint_depends_on_name_time_and_children() {
    let a = FileSystem::from_scan(&file("x", 1)).get_hash();
    assert_ne!(a, FileSystem::from_scan(&file("y", 1)).get_hash());
    assert_ne!(a, FileSystem::from_scan(&file("x", 2)).get_hash());
    let d1 = FileSystem::from_scan(&dir("d", 1, vec![file("x", 1)])).get_hash();
    let d2 = FileSystem::from_scan(&dir("d", 1, vec![file("x", 2)])).get_hash();
    assert_ne!(d1, d2);
    let o1 = FileSystem::from_scan(&dir("d", 1, vec![file("x", 1), file("y", 1)])).get_hash();
    let o2 = FileSystem::from_scan(&dir("d", 1, vec![file("y", 1), file("x", 1)])).get_hash();
    assert_eq!(o1, o2);
}

#[test]
fn listing_order_does_not_change_snapshot() {
    let first = FileSystem::from_scan(&dir("A", 4, vec![
        dir("s", 2, vec![file("p", 1), file("q", 1), file("r", 1)]),
        file("x", 1),
        file("y", 3),
    ]));
    let second = FileSystem::from_scan(&dir("A", 4, vec![
        file("y", 3),
        dir("s", 2, vec![file("r", 1), file("p", 1), file("q", 1)]),
        file("x", 1),
    ]));
    assert_eq!(first.get_hash(), second.get_hash());
    let d = first.diff(&second, &b"/r".to_vec());
    assert!(d.added.is_empty());
    assert!(d.removed.is_empty());
}
