use bytes::Bytes;
use local_lru::s3_store::{GetObjectReply, S3Store, StoreError};

#[test]
fn object_key_is_prefix_slash_key() {
    let store = S3Store::new("somebucket", "phi3");
    assert_eq!(store.bucket(), "somebucket");
    assert_eq!(store.object_key("weights.bin"), "phi3/weights.bin");
    assert_eq!(store.object_key(""), "phi3/");
    assert_eq!(store.object_key("a/b"), "phi3/a/b");
    let bare = S3Store::new("b", "");
    assert_eq!(bare.object_key("k"), "/k");
}

#[test]
fn get_hands_the_body_on() {
    let store = S3Store::new("somebucket", "phi3");
    assert_eq!(
        store.get("k", GetObjectReply::Body(Bytes::from("data"))),
        Ok(Bytes::from("data"))
    );
}

#[test]
fn get_reports_a_missing_key_with_its_object_key() {
    let store = S3Store::new("somebucket", "phi3");
    assert_eq!(
        store.get("k", GetObjectReply::NoSuchKey),
        Err(StoreError::ItemNotFound("phi3/k".to_string()))
    );
}

#[test]
fn get_reports_every_other_failure_as_read_error() {
    let store = S3Store::new("somebucket", "phi3");
    assert_eq!(
        store.get("k", GetObjectReply::Failed("dispatch failure".to_string())),
        Err(StoreError::S3ReadError("dispatch failure".to_string()))
    );
}

#[test]
fn set_passes_success_and_wraps_failure() {
    let store = S3Store::new("somebucket", "phi3");
    assert_eq!(store.set(Ok(())), Ok(()));
    assert_eq!(
        store.set(Err("access denied".to_string())),
        Err(StoreError::S3WriteError("access denied".to_string()))
    );
}

#[test]
fn error_messages() {
    assert_eq!(
        StoreError::S3WriteError("boom".to_string()).message(),
        "S3 write operation failed: boom"
    );
    assert_eq!(
        StoreError::S3ReadError("boom".to_string()).message(),
        "S3 read operation failed: boom"
    );
    assert_eq!(
        StoreError::ItemNotFound("phi3/k".to_string()).message(),
        "Item phi3/k not found"
    );
    assert_eq!(StoreError::S3ReadError(String::new()).message(), "S3 read operation failed: ");
}

#[test]
fn only_item_not_found_is_not_found() {
    assert!(StoreError::ItemNotFound("k".to_string()).is_not_found());
    assert!(!StoreError::S3ReadError("k".to_string()).is_not_found());
    assert!(!StoreError::S3WriteError("k".to_string()).is_not_found());
}
