use image_db::ingest::{image_metadata, remove_paths, target_path, Ingestion};
use image_db::store::{Entry, MetadataStore, StoreError};

#[test]
fn target_path_uses_identifier_and_extension() {
    let dir = b"/up".to_vec();
    assert_eq!(target_path(&dir, &"abc".to_string(), &"photo.jpg".to_string()), Some(b"/up/abc.jpg".to_vec()));
    assert_eq!(target_path(&dir, &"abc".to_string(), &"a.b.PNG".to_string()), Some(b"/up/abc.PNG".to_vec()));
    assert_eq!(target_path(&b"/up/".to_vec(), &"abc".to_string(), &"x.raw".to_string()), Some(b"/up/abc.raw".to_vec()));
    assert_eq!(target_path(&dir, &"abc".to_string(), &"noext".to_string()), None);
    assert_eq!(target_path(&dir, &"abc".to_string(), &"trailing.".to_string()), Some(b"/up/abc.".to_vec()));
}

#[test]
fn image_metadata_is_md5_and_base64() {
    let (fp, b64) = image_metadata(&b"abc".to_vec());
    assert_eq!(fp, 0x900150983cd24fb0d6963f7d28e17f72);
    assert_eq!(b64, "YWJj");
    let (fp, b64) = image_metadata(&Vec::new());
    assert_eq!(fp, 0xd41d8cd98f00b204e9800998ecf8427e);
    assert_eq!(b64, "");
}

#[test]
fn failed_write_deletes_earlier_files_and_commits_nothing() {
    let mut batch = Ingestion::new(b"/up".to_vec());
    let mut written = vec![];
    for (k, name) in ["a.jpg", "b.jpg", "c.jpg", "d.jpg", "e.jpg"].iter().enumerate() {
        let path = batch.stage(name.to_string()).unwrap();
        if k == 2 {
            // the third write fails
            let to_delete = batch.abort();
            assert_eq!(to_delete, written);
            break;
        }
        written.push(path);
        batch.persisted();
    }
    assert_eq!(written.len(), 2);
    assert!(batch.entries(&vec![]).is_empty());
    let mut store = MetadataStore::new();
    let outcome = batch.commit(&vec![], &mut store).unwrap();
    assert!(outcome.path_ids.is_empty());
    assert_eq!(store.count(), 0);
}

#[test]
fn equal_previews_commit_one_entry_and_delete_the_copy() {
    let mut batch = Ingestion::new(b"/up".to_vec());
    let first = batch.stage("one.jpg".to_string()).unwrap();
    batch.persisted();
    let second = batch.stage("two.jpg".to_string()).unwrap();
    batch.persisted();
    assert_ne!(first, second);
    let previews = vec![Some((5u128, "AAAA".to_string())), Some((5u128, "AAAA".to_string()))];
    let mut store = MetadataStore::new();
    let outcome = batch.commit(&previews, &mut store).unwrap();
    assert_eq!(store.count(), 1);
    assert_eq!(outcome.to_delete, vec![second]);
    assert_eq!(outcome.path_ids.len(), 2);
    assert_eq!(outcome.path_ids[0].0, "one.jpg");
    assert!(outcome.path_ids[0].1.is_some());
    assert_eq!(outcome.path_ids[1], ("two.jpg".to_string(), None));
    let id = outcome.path_ids[0].1.clone().unwrap();
    assert_eq!(store.lookup_path(&id), Ok(first));
    assert_eq!(outcome.upsert.objects.len(), 1);
    assert_eq!(outcome.upsert.objects[0].id, Some(id));
}

#[test]
fn dropped_and_skipped_inputs_get_no_identifier() {
    let mut batch = Ingestion::new(b"/up".to_vec());
    assert_eq!(batch.stage("README".to_string()), None);
    let kept = batch.stage("k.png".to_string()).unwrap();
    batch.persisted();
    let broken = batch.stage("b.png".to_string()).unwrap();
    batch.persisted();
    let previews = vec![None, Some((1u128, "eA==".to_string())), None];
    let entries = batch.entries(&previews);
    assert_eq!(entries.len(), 1);
    assert_eq!(entries[0].path, kept);
    let outcome = batch.finish(&previews, &vec![true]);
    assert_eq!(outcome.path_ids[0], ("README".to_string(), None));
    assert!(outcome.path_ids[1].1.is_some());
    assert_eq!(outcome.path_ids[2], ("b.png".to_string(), None));
    assert_eq!(outcome.to_delete, vec![broken]);
    let json = outcome.upsert.to_json();
    assert!(json.contains("\"properties\":{\"image\":\"eA==\"}"));
}

#[test]
fn existing_files_are_never_deleted() {
    let mut batch = Ingestion::new(b"/up".to_vec());
    batch.add_existing("/mnt/a.jpg".to_string(), b"/mnt/a.jpg".to_vec());
    batch.add_existing("/mnt/b.jpg".to_string(), b"/mnt/b.jpg".to_vec());
    let previews = vec![Some((3u128, "x".to_string())), Some((3u128, "x".to_string()))];
    let mut store = MetadataStore::new();
    let outcome = batch.commit(&previews, &mut store).unwrap();
    assert!(outcome.to_delete.is_empty());
    assert_eq!(store.count(), 1);
    assert_eq!(outcome.path_ids[0].0, "/mnt/a.jpg");
    assert!(outcome.path_ids[0].1.is_some());
    assert_eq!(outcome.path_ids[1], ("/mnt/b.jpg".to_string(), None));
    assert!(batch.abort().is_empty());
}

#[test]
fn store_error_leaves_store_unchanged() {
    let mut store = MetadataStore::new();
    let mut batch = Ingestion::new(b"/up".to_vec());
    batch.stage("a.jpg".to_string()).unwrap();
    batch.persisted();
    let previews = vec![Some((9u128, "x".to_string()))];
    let entries = batch.entries(&previews);
    store.insert_if_new(&vec![Entry { id: entries[0].id.clone(), fingerprint: 1, path: b"/other".to_vec() }]).unwrap();
    assert_eq!(batch.commit(&previews, &mut store).err(), Some(StoreError::DuplicateId));
    assert_eq!(store.count(), 1);
}

#[test]
fn remove_paths_deletes_rows_and_builds_index_delete() {
    let mut store = MetadataStore::new();
    store.insert_if_new(&vec![
        Entry { id: "a".to_string(), fingerprint: 1, path: b"/up/a.jpg".to_vec() },
        Entry { id: "b".to_string(), fingerprint: 2, path: b"/up/b.jpg".to_vec() },
    ]).unwrap();
    let request = remove_paths(&mut store, &vec![b"/up/a.jpg".to_vec()]);
    assert_eq!(store.lookup_path("a"), Err(StoreError::NotFound));
    assert_eq!(store.lookup_path("b"), Ok(b"/up/b.jpg".to_vec()));
    assert!(request.to_json().contains(
        "\"where\":{\"operator\":\"Or\",\"operands\":[{\"path\":[\"id\"],\"operator\":\"Equal\",\"valueString\":\"a\"}]}"
    ));
}
