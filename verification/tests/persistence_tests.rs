use parget::model::{Download, DownloadId, SubDownload};
use parget::persistence::in_memory::{HttpInMemoryStore, SubHttpInMemoryStore};

#[test]
fn http_in_memory_basic_crud() {
    let mut store = HttpInMemoryStore::new();

    let domains = vec![
        "google.ca".to_string(),
        "yahoo.com".to_string(),
        "https://releases.ubuntu.com/21.10/ubuntu-21.10-desktop-amd64.iso".to_string(),
        "https://diesel.rs/guides/getting-started.html".to_string(),
        "https://download.mozilla.org/?product=firefox-latest-ssl&os=linux64&lang=en-CA"
            .to_string(),
    ];

    for (index, domain) in domains.iter().enumerate() {
        let download = Download::new(
            index as DownloadId,
            domain.clone(),
            0f64.to_bits(),
            "/tmp/downloads".to_string(),
        );
        store.store_download(&download).unwrap();

        assert_eq!(store.download_by_id(download.id).unwrap(), Some(download.clone()));
        assert_eq!(store.download_by_uri(domain).unwrap(), Some(vec![download.clone()]));
    }
}

#[test]
fn store_download_overwrites_by_id() {
    let mut store = HttpInMemoryStore::new();
    let d1 = Download::new(7, "https://a.example".to_string(), 0f64.to_bits(), "/tmp/a".to_string());
    store.store_download(&d1).unwrap();

    let d2 = Download::new(7, "https://a.example".to_string(), 0.5f64.to_bits(), "/tmp/a".to_string());
    store.store_download(&d2).unwrap();

    assert_eq!(store.download_by_id(7).unwrap(), Some(d2));
}

#[test]
fn remove_download_leaves_the_rest() {
    let mut store = HttpInMemoryStore::new();
    let d1 = Download::new(1, "https://a.example".to_string(), 0, "/tmp/a".to_string());
    let d2 = Download::new(2, "https://b.example".to_string(), 0, "/tmp/b".to_string());
    store.store_download(&d1).unwrap();
    store.store_download(&d2).unwrap();

    store.remove_download(1).unwrap();
    assert_eq!(store.download_by_id(1).unwrap(), None);
    assert_eq!(store.download_by_id(2).unwrap(), Some(d2));
    store.remove_download(1).unwrap();
    assert_eq!(store.download_by_id(2).unwrap().map(|d| d.id), Some(2));
}

#[test]
fn sub_downloads_are_indexed_by_parent() {
    let mut store = SubHttpInMemoryStore::new();
    let a = SubDownload::new(1, 7, 0, "https://a.example/f".to_string(), 0);
    let b = SubDownload::new(2, 7, 100, "https://a.example/f".to_string(), 0);
    store.store_sub_download(&a, 7).unwrap();
    store.store_sub_download(&b, 7).unwrap();

    // the parent index answers with the records carrying the first
    // sub-download id that was stored for the parent
    let got = store.sub_download_by_parent(7).unwrap().unwrap();
    assert_eq!(got, vec![a.clone()]);

    assert_eq!(store.sub_download_by_parent(9).unwrap(), None);
    assert_eq!(store.sub_download_by_id(2).unwrap(), Some(b.clone()));
    assert_eq!(
        store.sub_download_by_uri(&"https://a.example/f".to_string()).unwrap(),
        Some(vec![a.clone(), b.clone()])
    );
}

#[test]
fn remove_sub_download_keeps_the_parent_index() {
    let mut store = SubHttpInMemoryStore::new();
    let a = SubDownload::new(1, 7, 0, "https://a.example/f".to_string(), 0);
    store.store_sub_download(&a, 7).unwrap();
    store.remove_sub_download(1).unwrap();

    assert_eq!(store.sub_download_by_id(1).unwrap(), None);
    // the index still knows the parent; the record itself is gone
    assert_eq!(store.sub_download_by_parent(7).unwrap(), Some(vec![]));
}
