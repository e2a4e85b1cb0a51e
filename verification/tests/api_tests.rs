use parget::api::DownloadResponse;
use parget::util::{EnableForeignKeys, Never};

#[test]
fn download_response_carries_its_message() {
    let r = DownloadResponse::new("you passed in https://a.example".to_string());
    assert_eq!(r.message(), "you passed in https://a.example");
}

#[test]
fn markers_are_plain_values() {
    let fk = EnableForeignKeys::new();
    assert_eq!(fk, EnableForeignKeys);
    let n = Never {};
    assert_eq!(n, Never {});
}
