use parget::errors::StoreError;
use parget::segment::SubDownload;
use parget::store::SegmentStore;

fn segment(id: i32, url: &str, offset: usize, remaining: usize, path: &str) -> SubDownload {
    SubDownload {
        id,
        url: url.to_string(),
        offset,
        remaining,
        file_path: path.to_string(),
    }
}

#[test]
fn sqlite_store_can_add() {
    let mut store = SegmentStore::new();

    let download = segment(-90999, "https://www.google.com", 0, 5000, "/tmp/test.txt");
    let res1 = store.add_download(&download).unwrap();

    // we do a bit of trolling
    let download = segment(-0, "https://www.google.com", 0, 5000, "/tmp/test.txt");
    let res2 = store.add_download(&download).unwrap();

    assert_ne!(res1, res2);
}

#[test]
fn sqlite_store_remove_by_url_cleans_itself() {
    let mut store = SegmentStore::new();

    let url = "https://www.google.com".to_string();
    let download = segment(-90999, &url, 0, 5000, "/tmp/test.txt");
    store.add_download(&download).unwrap();

    // we do a bit of trolling
    let download = segment(-0, &url, 0, 5000, "/tmp/test.txt");
    store.add_download(&download).unwrap();

    store.remove_by_url(&url).unwrap();

    assert!(store.segments().is_empty());
    assert!(store.urls().is_empty());
    assert!(store.file_paths().is_empty());
}

#[test]
fn sqlite_store_removes_by_id() {
    let mut store = SegmentStore::new();

    let url = "https://www.google.com".to_string();
    let mut download1 = segment(-90999, &url, 0, 5000, "/tmp/test.txt");
    download1.id = store.add_download(&download1).unwrap();

    // we do a bit of trolling
    let mut download2 = segment(-0, &url, 0, 5000, "/tmp/test.txt");
    download2.id = store.add_download(&download2).unwrap();

    store.remove_by_id(download1.id).unwrap();

    let result = store.segments();
    assert_eq!(result.len(), 1);
    assert_eq!(result[0].id, download2.id);
}

#[test]
fn add_then_list_by_url_round_trips() {
    let mut store = SegmentStore::new();
    let url = "https://example.com/a".to_string();
    let d = segment(0, &url, 40, 60, "/tmp/a.bin");
    let id = store.add_download(&d).unwrap();

    let listed = store.downloads_by_url(&url).unwrap();
    assert_eq!(listed.len(), 1);
    assert_eq!(listed[0].id, id);
    assert_eq!(listed[0].url, url);
    assert_eq!(listed[0].offset, 40);
    assert_eq!(listed[0].remaining, 60);
    assert_eq!(listed[0].file_path, "/tmp/a.bin");

    let other = store.downloads_by_url(&"https://example.com/b".to_string()).unwrap();
    assert!(other.is_empty());
}

#[test]
fn remove_by_url_keeps_shared_paths() {
    let mut store = SegmentStore::new();
    let a = segment(0, "https://one.example", 0, 10, "/tmp/shared.bin");
    let b = segment(0, "https://two.example", 10, 10, "/tmp/shared.bin");
    store.add_download(&a).unwrap();
    store.add_download(&b).unwrap();

    store.remove_by_url(&"https://one.example".to_string()).unwrap();

    assert_eq!(store.segments().len(), 1);
    assert_eq!(store.urls().len(), 1);
    assert_eq!(store.urls()[0], "https://two.example");
    // the path is still referenced by the other transfer, so it survives
    assert_eq!(store.file_paths().len(), 1);
    assert_eq!(store.file_paths()[0], "/tmp/shared.bin");
}

#[test]
fn update_download_unknown_id_is_not_found() {
    let mut store = SegmentStore::new();
    let d = segment(42, "https://example.com", 0, 5, "/tmp/x");
    assert_eq!(store.update_download(&d), Err(StoreError::NotFound));
}

#[test]
fn update_download_overwrites_progress() {
    let mut store = SegmentStore::new();
    let mut d = segment(0, "https://example.com", 0, 100, "/tmp/x");
    d.id = store.add_download(&d).unwrap();

    d.offset = 30;
    d.remaining = 70;
    store.update_download(&d).unwrap();

    let listed = store.downloads_by_url(&d.url).unwrap();
    assert_eq!(listed.len(), 1);
    assert_eq!(listed[0].offset, 30);
    assert_eq!(listed[0].remaining, 70);
}

#[test]
fn update_download_with_changed_parents_is_corrupt() {
    let mut store = SegmentStore::new();
    let mut d = segment(0, "https://example.com", 0, 100, "/tmp/x");
    d.id = store.add_download(&d).unwrap();

    let mut renamed = d.clone();
    renamed.url = "https://elsewhere.example".to_string();
    assert_eq!(store.update_download(&renamed), Err(StoreError::Corrupt));

    // the failed update left the store as it was
    let listed = store.downloads_by_url(&d.url).unwrap();
    assert_eq!(listed.len(), 1);
    assert_eq!(listed[0].offset, 0);
}

#[test]
fn remove_by_id_is_idempotent() {
    let mut store = SegmentStore::new();
    let mut d = segment(0, "https://example.com", 0, 100, "/tmp/x");
    d.id = store.add_download(&d).unwrap();

    store.remove_by_id(d.id).unwrap();
    assert!(store.segments().is_empty());
    store.remove_by_id(d.id).unwrap();
    assert!(store.segments().is_empty());
}
