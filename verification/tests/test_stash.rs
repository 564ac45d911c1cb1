use symbolserver::api::server::{get_healthcheck_result, health_status, HealthCheckResponse};
use symbolserver::errors::ErrorKind;
use symbolserver::memdb::stash::{RemoteSdk, SdkSyncState, SyncAction, SyncOptions, SyncStatus};
use symbolserver::sdk::SdkInfo;

fn remote(filename: &str, etag: &str, size: u64) -> RemoteSdk {
    let info = SdkInfo::from_filename(filename).unwrap();
    RemoteSdk::new(filename.to_string(), info, etag.to_string(), size)
}

fn sdk_a(etag: &str, size: u64) -> RemoteSdk {
    remote("iOS_10.2.1_14D27.memdbz", etag, size)
}

fn sdk_b(etag: &str, size: u64) -> RemoteSdk {
    remote("iOS_10.2.3_14C93.memdbz", etag, size)
}

/// Runs one sync: every step of the plan is taken as done.
fn sync(state: &mut SdkSyncState, listing: &Vec<RemoteSdk>) -> Vec<String> {
    let mut done = Vec::new();
    for action in state.plan_sync(listing).iter() {
        let text = match action {
            SyncAction::Download(sdk) => format!("download {}", sdk.local_filename()),
            SyncAction::Delete(sdk) => format!("delete {}", sdk.local_filename()),
        };
        assert!(state.apply(action));
        done.push(text);
    }
    done
}

#[test]
fn test_remote_sdk() {
    let sdk = sdk_a("x", 10);
    assert_eq!(sdk.filename(), "iOS_10.2.1_14D27.memdbz");
    assert_eq!(sdk.local_filename(), "iOS_10.2.1_14D27.memdb");
    assert_eq!(sdk.size(), 10);
    assert_eq!(sdk.etag(), "x");
    assert_eq!(sdk.info().version_patchlevel(), 1);
    assert!(sdk.same_as(&sdk.clone()));
    assert!(!sdk.same_as(&sdk_a("y", 10)));
    assert!(!sdk.same_as(&sdk_a("x", 11)));
    assert!(!sdk.same_as(&sdk_b("x", 10)));
    let many = RemoteSdk::new("jazzzz".to_string(), SdkInfo::new("a", 1, 2, 3, None), "e".to_string(), 0);
    assert_eq!(many.local_filename(), "ja");
    let none = RemoteSdk::new("zz".to_string(), SdkInfo::new("a", 1, 2, 3, None), "e".to_string(), 0);
    assert_eq!(none.local_filename(), "");
}

#[test]
fn test_sync_state_update_and_get() {
    let mut state = SdkSyncState::new();
    assert_eq!(state.revision(), 0);
    assert!(state.get_sdk("iOS_10.2.1_14D27.memdb").is_none());
    state.update_sdk(&sdk_a("x", 10));
    state.update_sdk(&sdk_b("z", 20));
    assert_eq!(state.sdks().len(), 2);
    assert_eq!(state.get_sdk("iOS_10.2.1_14D27.memdb").unwrap().etag(), "x");
    assert!(state.get_sdk("iOS_10.2.1_14D27.memdbz").is_none());
    state.update_sdk(&sdk_a("y", 11));
    assert_eq!(state.sdks().len(), 2);
    assert_eq!(state.get_sdk("iOS_10.2.1_14D27.memdb").unwrap().etag(), "y");
    assert_eq!(state.sdks()[0].size(), 11);
    assert_eq!(state.revision(), 0);
    assert!(state.remove_sdk("iOS_10.2.1_14D27.memdb"));
    assert!(!state.remove_sdk("iOS_10.2.1_14D27.memdb"));
    assert_eq!(state.sdks().len(), 1);
    assert_eq!(state.sdks()[0].etag(), "z");
}

#[test]
fn test_sync_add_replace_delete() {
    let mut state = SdkSyncState::new();
    let a = SdkInfo::from_filename("iOS_10.2.1_14D27").unwrap();

    assert_eq!(sync(&mut state, &vec![sdk_a("x", 10)]), vec!["download iOS_10.2.1_14D27.memdb"]);
    assert_eq!(state.revision(), 1);
    assert_eq!(state.get_memdb_filename(&a), Ok("iOS_10.2.1_14D27.memdb".to_string()));

    assert_eq!(sync(&mut state, &vec![sdk_a("y", 11), sdk_b("z", 20)]),
               vec!["download iOS_10.2.1_14D27.memdb", "download iOS_10.2.3_14C93.memdb"]);
    assert_eq!(state.revision(), 3);
    assert_eq!(state.get_sdk("iOS_10.2.1_14D27.memdb").unwrap().size(), 11);

    assert_eq!(sync(&mut state, &vec![sdk_b("z", 20)]), vec!["delete iOS_10.2.1_14D27.memdb"]);
    assert_eq!(state.revision(), 4);
    assert_eq!(state.get_memdb_filename(&a), Err(ErrorKind::UnknownSdk));
    assert_eq!(state.get_memdb_filename_from_sdk_id("iOS_10.2.1_14D27"), Err(ErrorKind::UnknownSdk));
    assert_eq!(state.get_memdb_filename_from_sdk_id("iOS_10.2.3_14C93"),
               Ok("iOS_10.2.3_14C93.memdb".to_string()));
    assert_eq!(state.get_memdb_filename_from_sdk_id("no sdk"), Err(ErrorKind::UnknownSdk));
}

#[test]
fn test_sync_twice_changes_nothing() {
    let mut state = SdkSyncState::new();
    state.update_sdk(&remote("tvOS_9.0.0_13T1.memdbz", "old", 1));
    let listing = vec![sdk_a("x", 10), sdk_b("z", 20), sdk_a("y", 11)];
    let first = sync(&mut state, &listing);
    assert_eq!(first, vec!["download iOS_10.2.1_14D27.memdb", "download iOS_10.2.3_14C93.memdb",
                           "delete tvOS_9.0.0_13T1.memdb"]);
    let revision = state.revision();
    assert_eq!(revision, 3);
    let before: Vec<(String, String, u64)> = state.sdks().iter()
        .map(|s| (s.filename().to_string(), s.etag().to_string(), s.size())).collect();
    assert!(state.plan_sync(&listing).is_empty());
    assert!(sync(&mut state, &listing).is_empty());
    assert_eq!(state.revision(), revision);
    let after: Vec<(String, String, u64)> = state.sdks().iter()
        .map(|s| (s.filename().to_string(), s.etag().to_string(), s.size())).collect();
    assert_eq!(before, after);
    assert_eq!(state.get_sdk("iOS_10.2.1_14D27.memdb").unwrap().etag(), "y");
}

#[test]
fn test_apply_counts_only_changes() {
    let mut state = SdkSyncState::new();
    assert!(state.apply(&SyncAction::Download(sdk_a("x", 10))));
    assert!(!state.apply(&SyncAction::Download(sdk_a("x", 10))));
    assert_eq!(state.revision(), 1);
    assert!(!state.apply(&SyncAction::Delete(sdk_b("z", 20))));
    assert_eq!(state.revision(), 1);
    assert!(state.apply(&SyncAction::Delete(sdk_a("other", 0))));
    assert_eq!(state.revision(), 2);
    assert_eq!(state.sdks().len(), 0);
    let state = SdkSyncState::from_parts(&vec![sdk_a("x", 10), sdk_a("y", 11)], 7);
    assert_eq!(state.revision(), 7);
    assert_eq!(state.sdks().len(), 1);
    assert_eq!(state.sdks()[0].etag(), "y");
}

#[test]
fn test_fuzzy_match_ordering() {
    let mut state = SdkSyncState::new();
    state.update_sdk(&remote("iOS_10.2.1_14D27.memdbz", "a", 1));
    state.update_sdk(&remote("iOS_10.2.3_14C93.memdbz", "b", 1));
    state.update_sdk(&remote("iOS_10.3.0_14E8.memdbz", "c", 1));
    let ids = |v: Vec<SdkInfo>| -> Vec<String> { v.iter().map(|i| i.to_text()).collect() };
    // neither patchlevel nor build are in the stash: the higher patchlevel comes first
    assert_eq!(ids(state.fuzzy_match_sdk_id("iOS_10.2.2_14X99")),
               vec!["iOS 10.2.3 (14C93)", "iOS 10.2.1 (14D27)"]);
    // the same patchlevel comes first
    assert_eq!(ids(state.fuzzy_match_sdk_id("iOS_10.2.1_14X99")),
               vec!["iOS 10.2.1 (14D27)", "iOS 10.2.3 (14C93)"]);
    // the same build comes before the same patchlevel
    assert_eq!(ids(state.fuzzy_match_sdk_id("iOS_10.2.3_14D27.memdb")),
               vec!["iOS 10.2.1 (14D27)", "iOS 10.2.3 (14C93)"]);
    assert_eq!(ids(state.fuzzy_match_sdk_id("iOS_10.3.7_1")), vec!["iOS 10.3 (14E8)"]);
    assert!(state.fuzzy_match_sdk_id("iOS_10.4.0_14E8").is_empty());
    assert!(state.fuzzy_match_sdk_id("tvOS_10.2.1_14D27").is_empty());
    assert!(state.fuzzy_match_sdk_id("not an id").is_empty());
    assert_eq!(ids(state.list_sdks()),
               vec!["iOS 10.2.1 (14D27)", "iOS 10.2.3 (14C93)", "iOS 10.3 (14E8)"]);
}

#[test]
fn test_fuzzy_match_is_repeatable() {
    let mut state = SdkSyncState::new();
    state.update_sdk(&remote("iOS_10.2.1_14D27.memdbz", "a", 1));
    state.update_sdk(&remote("iOS_10.2.1_14D28.memdbz", "b", 1));
    state.update_sdk(&remote("iOS_10.2.3_14C93.memdbz", "c", 1));
    let ids = |v: Vec<SdkInfo>| -> Vec<String> { v.iter().map(|i| i.sdk_id()).collect() };
    let first = ids(state.fuzzy_match_sdk_id("iOS_10.2.0_1"));
    assert_eq!(first, vec!["iOS_10.2.3_14C93", "iOS_10.2.1_14D27", "iOS_10.2.1_14D28"]);
    assert_eq!(ids(state.fuzzy_match_sdk_id("iOS_10.2.0_1")), first);
}

#[test]
fn test_fuzzy_match_does_not_depend_on_the_order_of_the_state() {
    let names = ["iOS_10.2.1_14D28.memdbz", "iOS_10.2.3_14C93.memdbz", "iOS_10.2.1_14D27.memdbz",
                 "iOS_10.2.1.memdbz", "tvOS_10.2.1_14D27.memdbz"];
    let ids = |v: Vec<SdkInfo>| -> Vec<String> { v.iter().map(|i| i.sdk_id()).collect() };
    let mut forward = SdkSyncState::new();
    for name in names.iter() {
        forward.update_sdk(&remote(name, "e", 1));
    }
    let mut backward = SdkSyncState::new();
    for name in names.iter().rev() {
        backward.update_sdk(&remote(name, "e", 1));
    }
    let expected = vec!["iOS_10.2.3_14C93", "iOS_10.2.1", "iOS_10.2.1_14D27", "iOS_10.2.1_14D28"];
    assert_eq!(ids(forward.fuzzy_match_sdk_id("iOS_10.2.0_1")), expected);
    assert_eq!(ids(backward.fuzzy_match_sdk_id("iOS_10.2.0_1")), expected);
    assert_eq!(ids(forward.fuzzy_match_sdk_id("iOS_10.2.1_14D28")),
               vec!["iOS_10.2.1_14D28", "iOS_10.2.1", "iOS_10.2.1_14D27", "iOS_10.2.3_14C93"]);
}

#[test]
fn test_fits_before() {
    let wanted = SdkInfo::new("iOS", 10, 2, 3, Some("14C93"));
    let a = SdkInfo::new("iOS", 10, 2, 3, Some("14C93"));
    let b = SdkInfo::new("iOS", 10, 2, 1, Some("14D27"));
    let c = SdkInfo::new("iOS", 10, 2, 1, Some("14D28"));
    let d = SdkInfo::new("iOS", 10, 2, 1, None);
    let other = SdkInfo::new("tvOS", 10, 2, 3, Some("14C93"));
    assert!(a.fits_before(&a, &wanted));
    assert!(a.fits_before(&b, &wanted) && !b.fits_before(&a, &wanted));
    assert!(b.fits_before(&c, &wanted) && !c.fits_before(&b, &wanted));
    assert!(d.fits_before(&b, &wanted) && !b.fits_before(&d, &wanted));
    assert!(c.fits_before(&other, &wanted) && !other.fits_before(&c, &wanted));
    assert!(other.fits_before(&other, &wanted));
}

#[test]
fn test_sync_status() {
    let mut state = SdkSyncState::new();
    state.apply(&SyncAction::Download(sdk_a("x", 10)));
    let status = state.sync_status(Some(&vec![sdk_a("y", 11), sdk_b("z", 20)]));
    assert!(!status.is_offline());
    assert_eq!(status.remote_total(), 2);
    assert_eq!(status.lag(), 2);
    assert_eq!(status.revision(), 1);
    assert!(!status.is_healthy());
    let status = state.sync_status(Some(&vec![sdk_a("x", 10)]));
    assert_eq!(status.lag(), 0);
    assert!(status.is_healthy());
    let status = state.sync_status(None);
    assert!(status.is_offline());
    assert!(status.is_healthy());
    assert_eq!(status.lag(), 0);
    assert_eq!(status.remote_total(), 0);
    assert_eq!(status.revision(), 1);
    let status = state.sync_status(Some(&vec![]));
    assert_eq!(status.remote_total(), 0);
    assert!(!status.is_healthy());
}

#[test]
fn test_health_thresholds() {
    assert!(SyncStatus::new(100, 5, 4, 0, false).is_healthy());
    assert!(!SyncStatus::new(100, 5, 5, 0, false).is_healthy());
    assert!(!SyncStatus::new(100, 10, 5, 0, false).is_healthy());
    assert!(SyncStatus::new(100, 10, 5, 0, true).is_healthy());
    assert!(!SyncStatus::new(0, 0, 0, 0, false).is_healthy());
    assert!(SyncStatus::new(1, 0, 0, 0, false).is_healthy());
    assert_eq!(SyncStatus::new(100, 10, 5, 9, false).lag(), 15);
    assert_eq!(SyncStatus::new(100, 10, 5, 9, false).revision(), 9);
    assert_eq!(SyncStatus::new(1, u32::MAX, u32::MAX, 0, false).lag(), u32::MAX);
}

#[test]
fn test_health_under_outage() {
    let state = SdkSyncState::new();
    let status = state.sync_status(None);
    let response = get_healthcheck_result(true, Some(&status));
    assert_eq!(response, HealthCheckResponse { is_offline: true, is_healthy: true, sync_lag: 0 });
    assert_eq!(health_status(&response), 200);
    // fifteen of a hundred are behind
    let status = SyncStatus::new(100, 10, 5, 2, false);
    let response = get_healthcheck_result(true, Some(&status));
    assert_eq!(response, HealthCheckResponse { is_offline: false, is_healthy: false, sync_lag: 15 });
    assert_eq!(health_status(&response), 503);
    // before the first probe
    let response = get_healthcheck_result(true, None);
    assert_eq!(response, HealthCheckResponse { is_offline: true, is_healthy: false, sync_lag: 0 });
    // with the sync switched off
    let response = get_healthcheck_result(false, Some(&status));
    assert_eq!(response, HealthCheckResponse { is_offline: true, is_healthy: true, sync_lag: 0 });
}

#[test]
fn test_sync_options_default() {
    assert!(!SyncOptions::default().user_facing);
}

#[test]
fn test_revision_stays_at_the_greatest_number() {
    let mut state = SdkSyncState::from_parts(&vec![], u64::MAX - 1);
    assert!(state.apply(&SyncAction::Download(sdk_a("x", 10))));
    assert_eq!(state.revision(), u64::MAX);
    assert!(state.apply(&SyncAction::Download(sdk_b("z", 20))));
    assert_eq!(state.revision(), u64::MAX);
    assert!(state.apply(&SyncAction::Delete(sdk_a("x", 10))));
    assert_eq!(state.revision(), u64::MAX);
    assert_eq!(state.sdks().len(), 1);
}
