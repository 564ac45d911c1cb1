use symbolserver::api::handlers::{
    check_candidates, list_sdk_ids, lookup_in, lookup_step, lookup_symbol, lookup_symbols, LookupStep,
    SymbolQuery,
};
use symbolserver::api::server::{bind_options, check_content_length, check_method, route, BindOptions, Route};
use symbolserver::api::types::{ApiError, ApiResponse};
use symbolserver::dsym::{find_arch, select_arch, select_arch_with, LoadInfo, ObjectSlice, Variant};
use symbolserver::errors::ErrorKind;
use symbolserver::memdb::read::MemDb;
use symbolserver::memdb::types::Uuid;
use symbolserver::memdb::write::MemDbBuilder;
use symbolserver::sdk::{DumpOptions, SdkInfo};

const ARM64: i32 = 0x0100000c;

fn memdb_with(info: &SdkInfo, uuid: u128, name: &str, symbols: &[(u64, &str)]) -> Vec<u8> {
    let mut builder = MemDbBuilder::new(info, DumpOptions::default()).unwrap();
    let slice = ObjectSlice {
        variant: Variant::new(ARM64, 0, "arm64", Some(Uuid::from_u128(uuid)), Some(name), 0, 0x1000),
        symbols: symbols.iter().map(|s| (s.0, s.1.to_string())).collect(),
    };
    builder.write_object(&vec![slice], None).unwrap();
    builder.flush().unwrap()
}

#[test]
fn test_api_error() {
    assert_eq!(ApiError::NotFound.get_status(), 404);
    assert_eq!(ApiError::BadRequest.get_status(), 400);
    assert_eq!(ApiError::MethodNotAllowed.get_status(), 405);
    assert_eq!(ApiError::PayloadTooLarge.get_status(), 413);
    assert_eq!(ApiError::BadJson("x".to_string()).get_status(), 400);
    assert_eq!(ApiError::SdkNotFound.get_status(), 404);
    assert_eq!(ApiError::InternalServerError("x".to_string()).get_status(), 500);
    let d = ApiError::SdkNotFound.describe();
    assert_eq!(d.ty, "sdk_not_found");
    assert_eq!(d.message, "The requested SDK was not found");
    let d = ApiError::BadJson("eof".to_string()).describe();
    assert_eq!(d.ty, "bad_json");
    assert_eq!(d.message, "The client sent bad json: eof");
    assert_eq!(ApiError::NotFound.describe().ty, "not_found");
    assert_eq!(ApiError::BadRequest.describe().message, "The client sent a bad request");
    assert_eq!(ApiError::MethodNotAllowed.describe().ty, "method_not_allowed");
    assert_eq!(ApiError::PayloadTooLarge.describe().ty, "payload_too_large");
    let e = ApiError::from_error_kind(&ErrorKind::BadMemDb);
    assert_eq!(e, ApiError::InternalServerError("bad memdb file".to_string()));
    assert_eq!(e.describe().message, "The server failed with an internal error: bad memdb file");
}

#[test]
fn test_error_messages() {
    assert_eq!(ErrorKind::UnknownSdk.message(), "unknown SDK");
    assert_eq!(ErrorKind::UnknownArchitecture("z80".to_string()).message(), "unknown architecture: 'z80'");
    assert_eq!(ErrorKind::MissingArchitecture("arm64".to_string()).message(), "missing architecture: 'arm64'");
    assert_eq!(ErrorKind::UnsupportedMemDbVersion.message(), "unsupported memdb version");
    assert_eq!(ErrorKind::BadConfigKey("a.b", "bad").message(), "config key 'a.b' has a bad value: bad");
    assert_eq!(ErrorKind::MissingConfigKey("a.b").message(), "encountered missing config key 'a.b'");
    assert_eq!(ErrorKind::BadEnvVar("V", "bad").message(), "bad environment variable 'V': bad");
    assert_eq!(ErrorKind::S3Unavailable("down".to_string()).message(), "S3 is unavailable: down");
    assert_eq!(ErrorKind::S3Unavailable("down".to_string()).description(), "S3 is unavailable");
    assert_eq!(ErrorKind::MemDbLimit.description(), "data exceeds the limits of the memdb format");
    assert_eq!(ErrorKind::CompressionFailed.message(), "failed to compress the memdb");
}

#[test]
fn test_api_response() {
    let r = ApiResponse::new(b"{}".to_vec(), 200);
    assert_eq!(r.body(), &b"{}\n".to_vec());
    assert_eq!(r.status(), 200);
    assert_eq!(r.body_to_send(false), Some(&b"{}\n".to_vec()));
    assert_eq!(r.body_to_send(true), None);
}

#[test]
fn test_routes() {
    assert_eq!(route(Some("/health")), Route::Health);
    assert_eq!(route(Some("/lookup")), Route::Lookup);
    assert_eq!(route(Some("/sdks")), Route::Sdks);
    assert_eq!(route(Some("/")), Route::NotFound);
    assert_eq!(route(Some("/health/")), Route::NotFound);
    assert_eq!(route(None), Route::BadRequest);
    assert_eq!(check_method(Route::Health, true, false), Ok(()));
    assert_eq!(check_method(Route::Health, false, true), Err(ApiError::MethodNotAllowed));
    assert_eq!(check_method(Route::Sdks, false, false), Err(ApiError::MethodNotAllowed));
    assert_eq!(check_method(Route::Lookup, false, true), Ok(()));
    assert_eq!(check_method(Route::Lookup, true, false), Err(ApiError::MethodNotAllowed));
    assert_eq!(check_method(Route::NotFound, true, false), Err(ApiError::NotFound));
    assert_eq!(check_method(Route::BadRequest, true, false), Err(ApiError::BadRequest));
}

#[test]
fn test_content_length() {
    assert_eq!(check_content_length(Some(0)), Ok(()));
    assert_eq!(check_content_length(Some(2 * 1024 * 1024)), Ok(()));
    assert_eq!(check_content_length(Some(2 * 1024 * 1024 + 1)), Err(ApiError::PayloadTooLarge));
    assert_eq!(check_content_length(None), Err(ApiError::BadRequest));
}

#[test]
fn test_bind_options() {
    assert_eq!(bind_options(None, None), Some(BindOptions::UseConfig));
    assert_eq!(bind_options(Some("0.0.0.0:80"), Some("3")), Some(BindOptions::BindToAddr("0.0.0.0:80".to_string())));
    assert_eq!(bind_options(None, Some("3")), Some(BindOptions::BindToFd(3)));
    assert_eq!(bind_options(None, Some("-1")), Some(BindOptions::BindToFd(-1)));
    assert_eq!(bind_options(None, Some("2147483648")), None);
    assert_eq!(bind_options(None, Some("three")), None);
}

#[test]
fn test_lookup_goes_through_the_sdks_in_order() {
    let first = memdb_with(&SdkInfo::new("iOS", 10, 2, 3, None), 1, "/lib/a", &[(0x10, "_new")]);
    let second = memdb_with(&SdkInfo::new("iOS", 10, 2, 1, None), 1, "/lib/a", &[(0x8, "_old"), (0x20, "_late")]);
    let third = memdb_with(&SdkInfo::new("iOS", 10, 2, 0, None), 2, "/lib/b", &[(0x10, "_other")]);
    let memdbs = vec![MemDb::from_slice(&first).unwrap(), MemDb::from_slice(&second).unwrap(),
                      MemDb::from_slice(&third).unwrap()];
    let by_uuid = |uuid: u128, addr: u64| SymbolQuery {
        object_uuid: Some(Uuid::from_u128(uuid)), object_name: None, addr,
    };
    let by_name = |name: &str, addr: u64| SymbolQuery {
        object_uuid: None, object_name: Some(name.to_string()), addr,
    };
    assert_eq!(lookup_symbol(&memdbs, &by_uuid(1, 0x10), "arm64").unwrap().symbol(), "_new");
    // the first memdb knows nothing below its first address: the second answers
    assert_eq!(lookup_symbol(&memdbs, &by_uuid(1, 0x9), "arm64").unwrap().symbol(), "_old");
    assert_eq!(lookup_symbol(&memdbs, &by_uuid(1, 0x20), "arm64").unwrap().symbol(), "_new");
    assert_eq!(lookup_symbol(&memdbs, &by_uuid(2, 0x10), "arm64").unwrap().symbol(), "_other");
    assert!(lookup_symbol(&memdbs, &by_uuid(3, 0x10), "arm64").is_none());
    assert_eq!(lookup_symbol(&memdbs, &by_name("/lib/b", 0x11), "arm64").unwrap().symbol(), "_other");
    assert!(lookup_symbol(&memdbs, &by_name("/lib/b", 0x11), "armv7").is_none());
    let nothing = SymbolQuery { object_uuid: None, object_name: None, addr: 0x10 };
    assert!(lookup_symbol(&memdbs, &nothing, "arm64").is_none());

    let queries = vec![by_uuid(2, 0x10), by_uuid(3, 0x10), by_name("/lib/a", 0x9), by_uuid(1, 0x10)];
    let answers = lookup_symbols(&memdbs, &queries, "arm64").unwrap();
    let names: Vec<Option<&str>> = answers.iter().map(|a| a.as_ref().map(|s| s.symbol())).collect();
    assert_eq!(names, vec![Some("_other"), None, Some("_old"), Some("_new")]);
    match lookup_symbols(&Vec::new(), &queries, "arm64") {
        Err(e) => assert_eq!(e, ApiError::SdkNotFound),
        Ok(_) => panic!("without an SDK nothing can be looked up"),
    }
}

#[test]
fn test_list_sdk_ids() {
    let sdks = vec![SdkInfo::new("iOS", 10, 2, 3, Some("14C93")), SdkInfo::new("tvOS", 9, 0, 0, None)];
    assert_eq!(list_sdk_ids(&sdks), vec!["iOS_10.2.3_14C93".to_string(), "tvOS_9.0.0".to_string()]);
}

#[test]
fn test_variant_from_load_commands() {
    let commands = vec![
        LoadInfo::Segment { segname: "__PAGEZERO".to_string(), vmaddr: 0, vmsize: 0x1000 },
        LoadInfo::Uuid(Uuid::from_u128(1)),
        LoadInfo::Segment { segname: "__TEXT".to_string(), vmaddr: 6804459520, vmsize: 143360 },
        LoadInfo::Other,
        LoadInfo::IdDyLib("/System/Library/CoreServices/Encodings/libKoreanConverter.dylib".to_string()),
        LoadInfo::Segment { segname: "__DATA".to_string(), vmaddr: 7, vmsize: 8 },
        LoadInfo::Uuid(Uuid::from_u128(0xfe6d76d48c3a3a9a9f63f4a475501f1b)),
    ];
    let v = Variant::from_load_commands(ARM64, 0, &commands);
    assert_eq!(v.arch(), "arm64");
    assert_eq!(v.cputype(), ARM64);
    assert_eq!(v.cpusubtype(), 0);
    assert_eq!(v.name(), Some("/System/Library/CoreServices/Encodings/libKoreanConverter.dylib"));
    assert_eq!(v.uuid(), Uuid::parse_str("fe6d76d4-8c3a-3a9a-9f63-f4a475501f1b"));
    assert_eq!(v.vmaddr(), 6804459520);
    assert_eq!(v.vmsize(), 143360);
    let v = Variant::from_load_commands(12, 11, &vec![]);
    assert_eq!(v.arch(), "armv7s");
    assert_eq!(v.name(), None);
    assert_eq!(v.uuid(), None);
    assert_eq!((v.vmaddr(), v.vmsize()), (0, 0));
    assert_eq!(Variant::from_load_commands(0x7fff_0000, 0, &vec![]).arch(), "unknown");
}

#[test]
fn test_select_arch() {
    let archs = vec![(12, 9), (12, 11), (ARM64, 0), (12, 11)];
    assert_eq!(find_arch(&archs, 12, 11), Some(1));
    assert_eq!(find_arch(&archs, ARM64, 0), Some(2));
    assert_eq!(find_arch(&archs, ARM64, 1), None);
    assert_eq!(select_arch(&archs, "arm64"), Ok(2));
    assert_eq!(select_arch(&archs, "armv7s"), Ok(1));
    assert_eq!(select_arch(&archs, "x86_64"), Err(ErrorKind::MissingArchitecture("x86_64".to_string())));
    assert_eq!(select_arch(&archs, "z80"), Err(ErrorKind::UnknownArchitecture("z80".to_string())));
    assert_eq!(select_arch_with(&archs, "mine", Some((12, 9))), Ok(0));
    assert_eq!(select_arch_with(&archs, "mine", None), Err(ErrorKind::UnknownArchitecture("mine".to_string())));
}

#[test]
fn test_arch_name_ignores_feature_bits() {
    const X86_64: i32 = 0x0100_0007;
    assert_eq!(Variant::from_load_commands(X86_64, 3, &vec![]).arch(), "x86_64");
    assert_eq!(Variant::from_load_commands(X86_64, 0x8000_0003u32 as i32, &vec![]).arch(), "x86_64");
    assert_eq!(Variant::from_load_commands(X86_64, 8, &vec![]).arch(), "x86_64h");
    assert_eq!(Variant::from_load_commands(ARM64, 0x8000_0002u32 as i32, &vec![]).arch(), "arm64e");
    assert_eq!(Variant::from_load_commands(ARM64, 0x00ff_ffff, &vec![]).arch(), "unknown");
    assert_eq!(Variant::from_load_commands(X86_64, 0x00ff_0003, &vec![]).arch(), "unknown");
}

#[test]
fn test_lookup_step_by_step() {
    let first = memdb_with(&SdkInfo::new("iOS", 10, 2, 3, None), 1, "/lib/a", &[(0x10, "_new")]);
    let second = memdb_with(&SdkInfo::new("iOS", 10, 2, 1, None), 1, "/lib/a", &[(0x8, "_old")]);
    let files = vec![first, second];
    let run = |query: &SymbolQuery| -> (Option<String>, Vec<usize>) {
        let mut opened = vec![];
        let mut asked = 0;
        let mut last = None;
        loop {
            match lookup_step(query, files.len(), asked, last) {
                LookupStep::Done(answer) => {
                    return (answer.map(|s| s.symbol().to_string()), opened);
                }
                LookupStep::Ask(idx) => {
                    opened.push(idx);
                    last = lookup_in(&MemDb::from_slice(&files[idx]).unwrap(), query, "arm64");
                    asked = idx + 1;
                }
            }
        }
    };
    let by_uuid = |uuid: u128, addr: u64| SymbolQuery {
        object_uuid: Some(Uuid::from_u128(uuid)), object_name: None, addr,
    };
    // the first memdb answers: the second is not asked
    assert_eq!(run(&by_uuid(1, 0x10)), (Some("_new".to_string()), vec![0]));
    assert_eq!(run(&by_uuid(1, 0x9)), (Some("_old".to_string()), vec![0, 1]));
    assert_eq!(run(&by_uuid(2, 0x9)), (None, vec![0, 1]));
    let by_name = SymbolQuery { object_uuid: None, object_name: Some("/lib/a".to_string()), addr: 0x8 };
    assert_eq!(run(&by_name), (Some("_old".to_string()), vec![0, 1]));
    // a query that names no object asks no memdb
    let nothing = SymbolQuery { object_uuid: None, object_name: None, addr: 0x10 };
    assert_eq!(run(&nothing), (None, vec![]));

    let db = MemDb::from_slice(&files[1]).unwrap();
    assert_eq!(lookup_in(&db, &by_uuid(1, 0x8), "arm64").unwrap().symbol(), "_old");
    assert!(lookup_in(&db, &by_uuid(1, 0x7), "arm64").is_none());
    assert!(lookup_in(&db, &nothing, "arm64").is_none());

    assert_eq!(check_candidates(0), Err(ApiError::SdkNotFound));
    assert_eq!(check_candidates(1), Ok(()));
    assert_eq!(check_candidates(usize::MAX), Ok(()));
}
