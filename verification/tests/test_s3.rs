use symbolserver::s3::{
    bucket_prefix, download_key, filename_from_key, object_to_remote_sdk, remote_sdks,
    unquote_etag, S3Object,
};

fn object(key: Option<&str>, e_tag: Option<&str>, size: Option<i64>) -> S3Object {
    S3Object { key: key.map(|k| k.to_string()), e_tag: e_tag.map(|e| e.to_string()), size }
}

#[test]
fn test_filename_from_key() {
    assert_eq!(filename_from_key("sdks/ios/iOS_10.2.3_14C93.memdbz"), "iOS_10.2.3_14C93.memdbz");
    assert_eq!(filename_from_key("iOS_10.2.3_14C93.memdbz"), "iOS_10.2.3_14C93.memdbz");
    assert_eq!(filename_from_key("sdks/"), "");
    assert_eq!(filename_from_key(""), "");
}

#[test]
fn test_unquote_etag() {
    assert_eq!(unquote_etag(Some("\"abc\"".to_string())), Some("abc".to_string()));
    assert_eq!(unquote_etag(Some("\"a\"".to_string())), Some("a".to_string()));
    assert_eq!(unquote_etag(Some("\"\"".to_string())), None);
    assert_eq!(unquote_etag(Some("abc".to_string())), None);
    assert_eq!(unquote_etag(Some("\"abc".to_string())), None);
    assert_eq!(unquote_etag(Some("abc\"".to_string())), None);
    assert_eq!(unquote_etag(Some(String::new())), None);
    assert_eq!(unquote_etag(None), None);
}

#[test]
fn test_bucket_prefix() {
    assert_eq!(bucket_prefix(""), "");
    assert_eq!(bucket_prefix("/"), "");
    assert_eq!(bucket_prefix("///"), "");
    assert_eq!(bucket_prefix("/sdks"), "sdks/");
    assert_eq!(bucket_prefix("/sdks/ios/"), "sdks/ios/");
    assert_eq!(bucket_prefix("//sdks//ios//"), "sdks//ios/");
}

#[test]
fn test_download_key() {
    assert_eq!(download_key("sdks/", "iOS_10.2.3_14C93.memdbz"), "sdks/iOS_10.2.3_14C93.memdbz");
    assert_eq!(download_key("sdks", "a.memdbz"), "sdks/a.memdbz");
    assert_eq!(download_key("", "a.memdbz"), "/a.memdbz");
    assert_eq!(download_key(&bucket_prefix("/sdks/ios/"), "a.memdbz"), "sdks/ios/a.memdbz");
}

#[test]
fn test_object_to_remote_sdk() {
    let sdk = object_to_remote_sdk(&object(Some("sdks/iOS_10.2.3_14C93.memdbz"), Some("\"e1\""), Some(17))).unwrap();
    assert_eq!(sdk.filename(), "iOS_10.2.3_14C93.memdbz");
    assert_eq!(sdk.local_filename(), "iOS_10.2.3_14C93.memdb");
    assert_eq!(sdk.etag(), "e1");
    assert_eq!(sdk.size(), 17);
    assert_eq!(sdk.info().build(), Some("14C93"));
    assert!(object_to_remote_sdk(&object(None, Some("\"e1\""), Some(17))).is_none());
    assert!(object_to_remote_sdk(&object(Some("sdks/iOS_10.2.3_14C93.memdb"), Some("\"e1\""), Some(17))).is_none());
    assert!(object_to_remote_sdk(&object(Some("sdks/readme.memdbz"), Some("\"e1\""), Some(17))).is_none());
    assert!(object_to_remote_sdk(&object(Some("sdks/iOS_10.2.3_14C93.memdbz"), Some("e1"), Some(17))).is_none());
    assert!(object_to_remote_sdk(&object(Some("sdks/iOS_10.2.3_14C93.memdbz"), None, Some(17))).is_none());
    assert!(object_to_remote_sdk(&object(Some("sdks/iOS_10.2.3_14C93.memdbz"), Some("\"e1\""), None)).is_none());
}

#[test]
fn test_remote_sdks_of_listing() {
    let listing = vec![
        object(Some("sdks/"), Some("\"d\""), Some(0)),
        object(Some("sdks/iOS_10.2.3_14C93.memdbz"), Some("\"e1\""), Some(17)),
        object(Some("sdks/notes.txt"), Some("\"e2\""), Some(3)),
        object(Some("sdks/tvOS_9.0_13T1.memdbz"), Some("\"e3\""), Some(5)),
    ];
    let sdks = remote_sdks(&listing);
    assert_eq!(sdks.len(), 2);
    assert_eq!(sdks[0].etag(), "e1");
    assert_eq!(sdks[1].info().name(), "tvOS");
    assert_eq!(sdks[1].local_filename(), "tvOS_9.0_13T1.memdb");
}
