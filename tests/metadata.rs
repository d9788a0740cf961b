use image_db::store::{plan_insert, Entry, MetadataStore, StoreError};

fn entry(id: &str, fingerprint: u128, path: &str) -> Entry {
    Entry { id: id.to_string(), fingerprint, path: path.as_bytes().to_vec() }
}

#[test]
fn lookup_returns_committed_path_until_removed() {
    let mut store = MetadataStore::new();
    let report = store.insert_if_new(&vec![entry("a", 1, "/up/a.jpg"), entry("b", 2, "/up/b.png")]).unwrap();
    assert_eq!(report.len(), 2);
    assert_eq!(report[0], (b"/up/a.jpg".to_vec(), Some((1, "a".to_string()))));
    assert_eq!(report[1], (b"/up/b.png".to_vec(), Some((2, "b".to_string()))));
    assert_eq!(store.lookup_path("a"), Ok(b"/up/a.jpg".to_vec()));
    assert_eq!(store.lookup_path("b"), Ok(b"/up/b.png".to_vec()));
    let ids = store.delete_by_paths(&vec![b"/up/a.jpg".to_vec()]);
    assert_eq!(ids, vec!["a".to_string()]);
    assert_eq!(store.lookup_path("a"), Err(StoreError::NotFound));
    assert_eq!(store.lookup_path("b"), Ok(b"/up/b.png".to_vec()));
    assert_eq!(store.count(), 1);
}

#[test]
fn equal_fingerprints_in_one_batch_commit_once() {
    let mut store = MetadataStore::new();
    let report = store.insert_if_new(&vec![entry("a", 7, "/up/a.jpg"), entry("b", 7, "/up/b.jpg")]).unwrap();
    assert_eq!(report[0].1, Some((7, "a".to_string())));
    assert_eq!(report[1], (b"/up/b.jpg".to_vec(), None));
    assert_eq!(store.count(), 1);
    assert_eq!(store.lookup_path("b"), Err(StoreError::NotFound));
}

#[test]
fn stored_fingerprint_is_skipped() {
    let mut store = MetadataStore::new();
    store.insert_if_new(&vec![entry("a", 7, "/up/a.jpg")]).unwrap();
    let report = store.insert_if_new(&vec![entry("b", 7, "/up/b.jpg"), entry("c", 8, "/up/c.jpg")]).unwrap();
    assert_eq!(report[0].1, None);
    assert_eq!(report[1].1, Some((8, "c".to_string())));
    assert_eq!(store.count(), 2);
}

#[test]
fn repeated_identifier_commits_nothing() {
    let mut store = MetadataStore::new();
    store.insert_if_new(&vec![entry("a", 1, "/up/a.jpg")]).unwrap();
    let r = store.insert_if_new(&vec![entry("b", 2, "/up/b.jpg"), entry("a", 3, "/up/a2.jpg")]);
    assert_eq!(r, Err(StoreError::DuplicateId));
    assert_eq!(store.count(), 1);
    assert_eq!(store.lookup_path("b"), Err(StoreError::NotFound));
    let r = store.insert_if_new(&vec![entry("x", 4, "/up/x.jpg"), entry("x", 5, "/up/y.jpg")]);
    assert_eq!(r, Err(StoreError::DuplicateId));
    assert_eq!(store.count(), 1);
}

#[test]
fn empty_batch_commits_nothing() {
    let mut store = MetadataStore::new();
    assert_eq!(store.insert_if_new(&vec![]), Ok(vec![]));
    assert_eq!(store.count(), 0);
    assert_eq!(store.lookup_path(""), Err(StoreError::NotFound));
}

#[test]
fn plan_marks_first_of_each_new_fingerprint() {
    let batch = vec![entry("a", 1, "p1"), entry("b", 2, "p2"), entry("c", 1, "p3"), entry("d", 3, "p4"), entry("e", 2, "p5")];
    assert_eq!(plan_insert(&batch, &vec![false, true, false, false, false]), vec![true, false, false, true, true]);
    assert_eq!(plan_insert(&vec![], &vec![]), Vec::<bool>::new());
}

#[test]
fn delete_skips_unknown_paths_and_keeps_order() {
    let mut store = MetadataStore::new();
    store.insert_if_new(&vec![entry("a", 1, "/p/a"), entry("b", 2, "/p/b"), entry("c", 3, "/p/c")]).unwrap();
    let ids = store.delete_by_paths(&vec![b"/p/c".to_vec(), b"/nowhere".to_vec(), b"/p/a".to_vec()]);
    assert_eq!(ids, vec!["c".to_string(), "a".to_string()]);
    assert_eq!(store.count(), 1);
    assert_eq!(store.delete_by_paths(&vec![b"/p/c".to_vec()]), Vec::<String>::new());
}
