use symbolserver::errors::ErrorKind;
use symbolserver::sdk::{
    get_sdk_name_from_folder, strip_archive_file_prefix, DumpOptions, Sdk, SdkInfo, Version,
};

#[test]
fn test_sdk_info_parse_ios() {
    let info = SdkInfo::from_path("/Users/mitsuhiko/Library/Developer/Xcode/iOS DeviceSupport/10.2 (14C92)").unwrap();
    assert_eq!(info.name(), "iOS");
    assert_eq!(info.version_major(), 10);
    assert_eq!(info.version_minor(), 2);
    assert_eq!(info.version_patchlevel(), 0);
    assert_eq!(info.build(), Some("14C92"));
}

#[test]
fn test_sdk_info_parse_ios_patchlevel() {
    let info = SdkInfo::from_path("/Users/mitsuhiko/Library/Developer/Xcode/iOS DeviceSupport/10.2.3 (14C93)").unwrap();
    assert_eq!(info.name(), "iOS");
    assert_eq!(info.version_major(), 10);
    assert_eq!(info.version_minor(), 2);
    assert_eq!(info.version_patchlevel(), 3);
    assert_eq!(info.build(), Some("14C93"));
}

#[test]
fn test_sdk_info_parse_ios_patchlevel_ext() {
    let info = SdkInfo::from_path("/Users/mitsuhiko/Library/Developer/Xcode/iOS DeviceSupport/10.2.3 (14C93).zip").unwrap();
    assert_eq!(info.name(), "iOS");
    assert_eq!(info.version_major(), 10);
    assert_eq!(info.version_minor(), 2);
    assert_eq!(info.version_patchlevel(), 3);
    assert_eq!(info.build(), Some("14C93"));
}

#[test]
fn test_sdk_info_parse_ios_patchlevel_ext_memdb() {
    let info = SdkInfo::from_path("iOS_10.2.3_14C93.memdb").unwrap();
    assert_eq!(info.name(), "iOS");
    assert_eq!(info.version_major(), 10);
    assert_eq!(info.version_minor(), 2);
    assert_eq!(info.version_patchlevel(), 3);
    assert_eq!(info.build(), Some("14C93"));
}

#[test]
fn test_sdk_info_parse_tvos_patchlevel_ext() {
    let info = SdkInfo::from_path("/Users/mitsuhiko/Library/Developer/Xcode/tvOS DeviceSupport/2.2.3 (14C93).zip").unwrap();
    assert_eq!(info.name(), "tvOS");
    assert_eq!(info.version_major(), 2);
    assert_eq!(info.version_minor(), 2);
    assert_eq!(info.version_patchlevel(), 3);
    assert_eq!(info.build(), Some("14C93"));
}

#[test]
fn test_sdk_info_parse_filename() {
    let info = SdkInfo::from_filename("iOS_10.2.3_14C93.memdb").unwrap();
    assert_eq!(info.name(), "iOS");
    assert_eq!(info.version_major(), 10);
    assert_eq!(info.version_minor(), 2);
    assert_eq!(info.version_patchlevel(), 3);
    assert_eq!(info.build(), Some("14C93"));
}

#[test]
fn test_sdk_info_parse_filename_no_build() {
    let info = SdkInfo::from_filename("iOS_10.2.3.memdb").unwrap();
    assert_eq!(info.name(), "iOS");
    assert_eq!(info.version_major(), 10);
    assert_eq!(info.version_minor(), 2);
    assert_eq!(info.version_patchlevel(), 3);
    assert_eq!(info.build(), None);
}

#[test]
fn test_sdk_info_filename_round_trip() {
    let name = "iOS_10.2.3_14C93.memdb";
    let info = SdkInfo::from_filename(name).unwrap();
    assert_eq!(info.memdb_filename(), name);
    assert_eq!(info.sdk_id(), "iOS_10.2.3_14C93");
    let again = SdkInfo::from_filename(&info.memdb_filename()).unwrap();
    assert!(again.same_as(&info));
}

#[test]
fn test_sdk_info_round_trip_of_made_infos() {
    let infos = vec![
        SdkInfo::new("iOS", 10, 2, 3, Some("14C93")),
        SdkInfo::new("tvOS", 9, 0, 0, None),
        SdkInfo::new("watch_OS", 0, 0, 4294967295, Some("A")),
        SdkInfo::new("a.b_1.2", 3, 4, 5, Some("memdb")),
        SdkInfo::new("x", 1, 2, 3, Some("1")),
    ];
    for info in infos.iter() {
        assert!(SdkInfo::from_filename(&info.memdb_filename()).unwrap().same_as(info));
        assert!(SdkInfo::from_filename(&info.sdk_id()).unwrap().same_as(info));
        let compressed = format!("{}z", info.memdb_filename());
        assert!(SdkInfo::from_filename(&compressed).unwrap().same_as(info));
    }
}

#[test]
fn test_sdk_info_parse_filename_variants() {
    let info = SdkInfo::from_filename("iOS_10.2_14C92").unwrap();
    assert_eq!(info.version_patchlevel(), 0);
    assert_eq!(info.build(), Some("14C92"));
    let info = SdkInfo::from_filename("iOS_10.2.3_14C93.memdbz").unwrap();
    assert_eq!(info.build(), Some("14C93"));
    let info = SdkInfo::from_filename("my_sdk_010.002.003").unwrap();
    assert_eq!(info.name(), "my_sdk");
    assert_eq!(info.version_major(), 10);
    assert_eq!(info.version_minor(), 2);
    assert_eq!(info.version_patchlevel(), 3);
    assert_eq!(info.build(), None);
}

#[test]
fn test_sdk_info_parse_filename_refused() {
    assert!(SdkInfo::from_filename("").is_none());
    assert!(SdkInfo::from_filename("iOS").is_none());
    assert!(SdkInfo::from_filename("iOS_10").is_none());
    assert!(SdkInfo::from_filename("_10.2.3").is_none());
    assert!(SdkInfo::from_filename("i-OS_10.2.3_14C93").is_none());
    assert!(SdkInfo::from_filename("iOS_10.2.3.4_14C93").is_none());
    assert!(SdkInfo::from_filename("iOS_10.2.3_14-C93").is_none());
    assert!(SdkInfo::from_filename("iOS_10.2.3_").is_none());
    assert!(SdkInfo::from_filename("iOS_10.x.3_14C93").is_none());
    assert!(SdkInfo::from_filename("iOS_4294967296.2.3_14C93").is_none());
    assert!(SdkInfo::from_filename("iOS_10.2.3_14C93.zip").is_none());
}

#[test]
fn test_sdk_info_from_path_parts() {
    let info = SdkInfo::from_path_parts("10.2 (14C92)", Some("iOS DeviceSupport")).unwrap();
    assert_eq!(info.name(), "iOS");
    assert_eq!(info.version_patchlevel(), 0);
    assert_eq!(info.build(), Some("14C92"));
    let info = SdkInfo::from_path_parts("2.2.3 \t (14C93).zip", Some("tvOS DeviceSupport")).unwrap();
    assert_eq!(info.name(), "tvOS");
    assert_eq!(info.version_major(), 2);
    assert_eq!(info.build(), Some("14C93"));
    assert!(SdkInfo::from_path_parts("10.2 (14C92)", Some("watchOS DeviceSupport")).is_none());
    assert!(SdkInfo::from_path_parts("10.2 (14C92)", None).is_none());
    assert!(SdkInfo::from_path_parts("10.2(14C92)", Some("iOS DeviceSupport")).is_none());
    assert!(SdkInfo::from_path_parts("10.2 ()", Some("iOS DeviceSupport")).is_none());
    assert!(SdkInfo::from_path_parts("10.2 (14C92", Some("iOS DeviceSupport")).is_none());
    assert!(SdkInfo::from_path_parts("10 (14C92)", Some("iOS DeviceSupport")).is_none());
    let info = SdkInfo::from_path_parts("iOS_10.2.3.memdb", None).unwrap();
    assert_eq!(info.build(), None);
}

#[test]
fn test_sdk_info_from_path_without_folder() {
    assert!(SdkInfo::from_path("10.2 (14C92)").is_none());
    assert!(SdkInfo::from_path("/").is_none());
    assert!(SdkInfo::from_path("/stash/iOS_10.2.3_14C93.memdb").is_some());
    assert!(SdkInfo::from_path("/Xcode/iOS DeviceSupport/10.2 (14C92)/").is_some());
}

#[test]
fn test_sdk_name_from_folder() {
    assert_eq!(get_sdk_name_from_folder("iOS DeviceSupport"), Some("iOS"));
    assert_eq!(get_sdk_name_from_folder("tvOS DeviceSupport"), Some("tvOS"));
    assert_eq!(get_sdk_name_from_folder("macOS DeviceSupport"), None);
    assert_eq!(get_sdk_name_from_folder(""), None);
}

#[test]
fn test_strip_archive_file_prefix() {
    assert_eq!(strip_archive_file_prefix("Symbols/foo/bar"), "foo/bar");
    assert_eq!(strip_archive_file_prefix("Foo/Symbols/foo/bar"), "foo/bar");
    assert_eq!(strip_archive_file_prefix("foo/bar"), "foo/bar");
    assert_eq!(strip_archive_file_prefix("Symbols"), "Symbols");
    assert_eq!(strip_archive_file_prefix("Foo/Symbols"), "Foo/Symbols");
    assert_eq!(strip_archive_file_prefix("Symbols/"), "");
    assert_eq!(strip_archive_file_prefix("a/b/Symbols/c"), "a/b/Symbols/c");
}

#[test]
fn test_version_text() {
    assert_eq!(Version(10, 2, 0).to_text(), "10.2");
    assert_eq!(Version(10, 2, 3).to_text(), "10.2.3");
    assert_eq!(Version(0, 0, 0).to_text(), "0.0");
    assert_eq!(Version(4294967295, 0, 1).to_text(), "4294967295.0.1");
}

#[test]
fn test_sdk_info_text() {
    assert_eq!(SdkInfo::new("iOS", 10, 2, 1, Some("14D27")).to_text(), "iOS 10.2.1 (14D27)");
    assert_eq!(SdkInfo::new("iOS", 10, 3, 0, None).to_text(), "iOS 10.3");
    let v = SdkInfo::new("iOS", 10, 3, 7, None).version();
    assert_eq!((v.0, v.1, v.2), (10, 3, 7));
}

#[test]
fn test_sdk_new() {
    let sdk = Sdk::new("/Xcode/iOS DeviceSupport/10.2.3 (14C93)").unwrap();
    assert_eq!(sdk.info().name(), "iOS");
    assert_eq!(sdk.path(), "/Xcode/iOS DeviceSupport/10.2.3 (14C93)");
    assert_eq!(sdk.memdb_filename(), "iOS_10.2.3_14C93.memdb");
    match Sdk::new("/Xcode/Other/10.2.3 (14C93)") {
        Err(e) => assert_eq!(e, ErrorKind::UnknownSdk),
        Ok(_) => panic!("a folder outside a device support folder is no SDK"),
    }
}

#[test]
fn test_dump_options_default() {
    let opts = DumpOptions::default();
    assert!(!opts.show_progress_bar);
    assert!(!opts.compress);
}

#[test]
fn test_fuzzy_match_quality() {
    let wanted = SdkInfo::new("iOS", 10, 2, 3, Some("14C93"));
    let same = SdkInfo::new("iOS", 10, 2, 3, Some("14C93"));
    let same_patch = SdkInfo::new("iOS", 10, 2, 3, Some("14C94"));
    let same_build = SdkInfo::new("iOS", 10, 2, 4, Some("14C93"));
    let newer = SdkInfo::new("iOS", 10, 2, 9, Some("14X1"));
    let older = SdkInfo::new("iOS", 10, 2, 1, Some("14D27"));
    assert_eq!(same.get_fuzzy_match(&wanted), Some(0xffff_ffff - 3));
    assert_eq!(same_build.get_fuzzy_match(&wanted), Some(0x1_0000_0000 + 0xffff_ffff - 4));
    assert_eq!(same_patch.get_fuzzy_match(&wanted), Some(0x2_0000_0000 + 0xffff_ffff - 3));
    assert_eq!(newer.get_fuzzy_match(&wanted), Some(0x3_0000_0000 + 0xffff_ffff - 9));
    assert!(same.get_fuzzy_match(&wanted) < same_build.get_fuzzy_match(&wanted));
    assert!(same_build.get_fuzzy_match(&wanted) < same_patch.get_fuzzy_match(&wanted));
    assert!(same_patch.get_fuzzy_match(&wanted) < newer.get_fuzzy_match(&wanted));
    assert!(newer.get_fuzzy_match(&wanted) < older.get_fuzzy_match(&wanted));
    assert_eq!(SdkInfo::new("iOS", 10, 3, 3, Some("14C93")).get_fuzzy_match(&wanted), None);
    assert_eq!(SdkInfo::new("iOS", 11, 2, 3, Some("14C93")).get_fuzzy_match(&wanted), None);
    assert_eq!(SdkInfo::new("tvOS", 10, 2, 3, Some("14C93")).get_fuzzy_match(&wanted), None);
}
