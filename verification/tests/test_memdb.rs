use symbolserver::dsym::{ObjectSlice, Variant};
use symbolserver::errors::ErrorKind;
use symbolserver::memdb::read::MemDb;
use symbolserver::memdb::types::Uuid;
use symbolserver::memdb::write::{dump_memdb, finish_flush, MemDbBuilder};
use symbolserver::sdk::{DumpOptions, SdkInfo};

const ARM64: i32 = 0x0100000c;
const ARMV7: i32 = 12;

fn korean_uuid() -> Uuid {
    Uuid::parse_str("fe6d76d4-8c3a-3a9a-9f63-f4a475501f1b").unwrap()
}

fn other_uuid() -> Uuid {
    Uuid::parse_str("383fbe5b-e16e-362f-8937-ed303ab58e72").unwrap()
}

fn slice(arch: &str, cputype: i32, uuid: Option<Uuid>, name: Option<&str>, vmaddr: u64,
         vmsize: u64, symbols: &[(u64, &str)]) -> ObjectSlice {
    ObjectSlice {
        variant: Variant::new(cputype, 0, arch, uuid, name, vmaddr, vmsize),
        symbols: symbols.iter().map(|s| (s.0, s.1.to_string())).collect(),
    }
}

fn trivial_slice() -> ObjectSlice {
    slice("arm64", ARM64, Some(korean_uuid()), Some("/usr/lib/lib.dylib"), 0x195A84000, 0x23000,
          &[(0x195A86090, "_foo"), (0x195A86100, "_bar")])
}

fn trivial_memdb() -> Vec<u8> {
    let info = SdkInfo::new("iOS", 10, 2, 3, Some("14C93"));
    let mut builder = MemDbBuilder::new(&info, DumpOptions::default()).unwrap();
    builder.write_object(&vec![trivial_slice()], Some("lib.dylib")).unwrap();
    builder.flush().unwrap()
}

fn found(db: &MemDb, uuid: &Uuid, addr: u64) -> Option<(String, String, u64)> {
    db.lookup_by_uuid(uuid, addr)
        .map(|s| (s.object_name().to_string(), s.symbol().to_string(), s.addr()))
}

fn is_bad_memdb(result: Result<MemDb, ErrorKind>) -> bool {
    match result {
        Err(ErrorKind::BadMemDb) => true,
        _ => false,
    }
}

#[test]
fn test_build_and_query_trivial_memdb() {
    let bytes = trivial_memdb();
    let db = MemDb::from_slice(&bytes).unwrap();
    let uuid = korean_uuid();
    let name = "/usr/lib/lib.dylib".to_string();
    assert_eq!(found(&db, &uuid, 0x2090), Some((name.clone(), "_foo".to_string(), 0x2090)));
    assert_eq!(found(&db, &uuid, 0x20FF), Some((name.clone(), "_foo".to_string(), 0x2090)));
    assert_eq!(found(&db, &uuid, 0x2100), Some((name.clone(), "_bar".to_string(), 0x2100)));
    assert_eq!(found(&db, &uuid, 0x22FFF), Some((name.clone(), "_bar".to_string(), 0x2100)));
    assert_eq!(found(&db, &uuid, 0x23000), None);
}

#[test]
fn test_lookup_boundaries() {
    let bytes = trivial_memdb();
    let db = MemDb::from_slice(&bytes).unwrap();
    let uuid = korean_uuid();
    assert_eq!(found(&db, &uuid, 0), None);
    assert_eq!(found(&db, &uuid, 0x208F), None);
    assert_eq!(found(&db, &uuid, 0x2091).unwrap().1, "_foo");
    assert_eq!(found(&db, &uuid, 0x23001), None);
    assert_eq!(found(&db, &uuid, u64::MAX), None);
    assert_eq!(found(&db, &other_uuid(), 0x2090), None);
}

#[test]
fn test_lookup_is_repeatable() {
    let bytes = trivial_memdb();
    let db = MemDb::from_slice(&bytes).unwrap();
    let uuid = korean_uuid();
    for addr in [0u64, 0x2090, 0x20ff, 0x2100, 0x23000] {
        assert_eq!(found(&db, &uuid, addr), found(&db, &uuid, addr));
    }
    let copy = MemDb::from_vec(bytes.clone()).unwrap();
    assert_eq!(found(&db, &uuid, 0x2100), found(&copy, &uuid, 0x2100));
}

#[test]
fn test_memdb_info() {
    let bytes = trivial_memdb();
    let db = MemDb::from_vec(bytes).unwrap();
    assert!(db.info().same_as(&SdkInfo::new("iOS", 10, 2, 3, Some("14C93"))));
    let info = SdkInfo::new("tvOS", 9, 0, 0, None);
    let builder = MemDbBuilder::new(&info, DumpOptions::default()).unwrap();
    let db = MemDb::from_vec(builder.flush().unwrap()).unwrap();
    assert!(db.info().same_as(&info));
}

#[test]
fn test_memdb_layout_of_trivial_file() {
    let bytes = trivial_memdb();
    // header
    assert_eq!(&bytes[0..4], &[2, 0, 0, 0]);
    assert_eq!(&bytes[4..12], b"iOS\0\0\0\0\0");
    assert_eq!(&bytes[12..18], &[10, 0, 2, 0, 3, 0]);
    assert_eq!(&bytes[18..28], b"14C93\0\0\0\0\0");
    let word = |at: usize| u32::from_le_bytes([bytes[at], bytes[at + 1], bytes[at + 2], bytes[at + 3]]);
    // three entries of twelve bytes behind the header
    assert_eq!(word(28), 68 + 36);
    assert_eq!(word(32), 1);
    assert_eq!(word(36), 68 + 36 + 8);
    assert_eq!(word(40), 1);
    assert_eq!(word(44), 68 + 36 + 8 + 18);
    let tagged = "/usr/lib/lib.dylib:arm64\0";
    assert_eq!(word(48) as usize, 68 + 36 + 8 + 18 + tagged.len());
    let names = word(48) as usize;
    assert_eq!(&bytes[word(44) as usize..names], tagged.as_bytes());
    assert_eq!(word(52) as usize, names + 18);
    assert_eq!(word(56), 1);
    assert_eq!(word(60) as usize, names + 18 + 8 + 8);
    assert_eq!(word(64), 2);
    assert_eq!(bytes.len(), names + 18 + 8 + 8 + 16);
    // the first entry of the index: address 0x2090, object 0, symbol 0
    assert_eq!(&bytes[68..80], &[0x90, 0x20, 0, 0, 0, 0, 0, 0, 0, 0, 0, 0]);
    // the last entry marks the end at 0x23000
    assert_eq!(&bytes[92..104], &[0, 0x30, 2, 0, 0, 0, 0, 0, 0xff, 0xff, 0xff, 0xff]);
    // the slice of the index
    assert_eq!(&bytes[104..112], &[68, 0, 0, 0, 36, 0, 0, 0]);
    // the UUID and the index of its variant
    assert_eq!(&bytes[112..128], &[0xfe, 0x6d, 0x76, 0xd4, 0x8c, 0x3a, 0x3a, 0x9a, 0x9f, 0x63,
                                   0xf4, 0xa4, 0x75, 0x50, 0x1f, 0x1b]);
    assert_eq!(&bytes[128..130], &[0, 0]);
    // the strings
    assert_eq!(&bytes[names..names + 18], b"/usr/lib/lib.dylib");
    assert_eq!(&bytes[names + 26..names + 34], b"_foo_bar");
}

#[test]
fn test_symbols_in_any_order_are_sorted() {
    let info = SdkInfo::new("iOS", 10, 2, 3, Some("14C93"));
    let mut builder = MemDbBuilder::new(&info, DumpOptions::default()).unwrap();
    let s = slice("arm64", ARM64, Some(korean_uuid()), None, 0x1000, 0x100,
                  &[(0x1050, "_c"), (0x1010, "_a"), (0x1030, "_b"), (0x1000, "_start")]);
    assert_eq!(builder.write_object(&vec![s], Some("libx.dylib")), Ok(()));
    assert_eq!(builder.symbol_count(), 5);
    let bytes = builder.flush().unwrap();
    let db = MemDb::from_slice(&bytes).unwrap();
    let uuid = korean_uuid();
    assert_eq!(found(&db, &uuid, 0x0).unwrap().1, "_start");
    assert_eq!(found(&db, &uuid, 0x0f).unwrap().1, "_start");
    assert_eq!(found(&db, &uuid, 0x10).unwrap().1, "_a");
    assert_eq!(found(&db, &uuid, 0x30).unwrap().1, "_b");
    assert_eq!(found(&db, &uuid, 0x4f).unwrap().1, "_b");
    assert_eq!(found(&db, &uuid, 0x50).unwrap().1, "_c");
    assert_eq!(found(&db, &uuid, 0xff).unwrap().1, "_c");
    assert_eq!(found(&db, &uuid, 0xff).unwrap().0, "libx.dylib");
    assert_eq!(found(&db, &uuid, 0x100), None);
    let all = db.iter_symbols(&uuid).unwrap();
    let addrs: Vec<u64> = all.iter().map(|s| s.addr()).collect();
    assert_eq!(addrs, vec![0, 0x10, 0x30, 0x50]);
    let names: Vec<&str> = all.iter().map(|s| s.symbol()).collect();
    assert_eq!(names, vec!["_start", "_a", "_b", "_c"]);
}

#[test]
fn test_symbols_at_one_address_give_the_last() {
    let info = SdkInfo::new("iOS", 10, 2, 3, Some("14C93"));
    let mut builder = MemDbBuilder::new(&info, DumpOptions::default()).unwrap();
    let s = slice("arm64", ARM64, Some(korean_uuid()), None, 0, 0,
                  &[(0x10, "_first"), (0x20, "_x"), (0x10, "_second")]);
    builder.write_object(&vec![s], Some("lib")).unwrap();
    let bytes = builder.flush().unwrap();
    let db = MemDb::from_slice(&bytes).unwrap();
    assert_eq!(found(&db, &korean_uuid(), 0x10).unwrap().1, "_second");
    assert_eq!(found(&db, &korean_uuid(), 0x1f).unwrap().1, "_second");
    // without a size of the image nothing marks the end
    assert_eq!(found(&db, &korean_uuid(), u64::MAX).unwrap().1, "_x");
}

#[test]
fn test_interning_of_names() {
    let info = SdkInfo::new("iOS", 10, 2, 3, Some("14C93"));
    let mut builder = MemDbBuilder::new(&info, DumpOptions::default()).unwrap();
    let a = slice("arm64", ARM64, Some(korean_uuid()), Some("/lib/a"), 0, 0x100,
                  &[(0x10, "_f"), (0x20, "_g"), (0x30, "_f")]);
    let b = slice("armv7", ARMV7, Some(other_uuid()), Some("/lib/a"), 0, 0x100,
                  &[(0x40, "_g"), (0x50, "_h")]);
    builder.write_object(&vec![a, b], None).unwrap();
    let bytes = builder.flush().unwrap();
    let word = |at: usize| u32::from_le_bytes([bytes[at], bytes[at + 1], bytes[at + 2], bytes[at + 3]]);
    assert_eq!(word(32), 2);
    assert_eq!(word(56), 1);
    assert_eq!(word(64), 3);
    let db = MemDb::from_slice(&bytes).unwrap();
    assert_eq!(found(&db, &korean_uuid(), 0x30).unwrap().1, "_f");
    assert_eq!(found(&db, &korean_uuid(), 0x10).unwrap().1, "_f");
    assert_eq!(found(&db, &other_uuid(), 0x40).unwrap().1, "_g");
    assert_eq!(found(&db, &other_uuid(), 0x50).unwrap().1, "_h");
    assert_eq!(found(&db, &other_uuid(), 0x50).unwrap().0, "/lib/a");
}

#[test]
fn test_uuid_table_is_sorted_and_tagged_names_are_parallel() {
    let info = SdkInfo::new("iOS", 10, 2, 3, None);
    let mut builder = MemDbBuilder::new(&info, DumpOptions::default()).unwrap();
    // the greater UUID is written first
    let a = slice("arm64", ARM64, Some(korean_uuid()), Some("/lib/a"), 0, 0x100, &[(0x10, "_a")]);
    let b = slice("armv7", ARMV7, Some(other_uuid()), Some("/lib/b"), 0, 0x100, &[(0x10, "_b")]);
    builder.write_object(&vec![a], None).unwrap();
    builder.write_object(&vec![b], None).unwrap();
    let bytes = builder.flush().unwrap();
    let word = |at: usize| u32::from_le_bytes([bytes[at], bytes[at + 1], bytes[at + 2], bytes[at + 3]]) as usize;
    let uuids = word(36);
    assert_eq!(bytes[uuids], 0x38);
    assert_eq!(&bytes[uuids + 16..uuids + 18], &[1, 0]);
    assert_eq!(bytes[uuids + 18], 0xfe);
    assert_eq!(&bytes[uuids + 34..uuids + 36], &[0, 0]);
    assert_eq!(&bytes[word(44)..word(48)], b"/lib/b:armv7\0/lib/a:arm64\0");
    let db = MemDb::from_slice(&bytes).unwrap();
    assert_eq!(db.find_uuid("/lib/a", "arm64"), Ok(Some(korean_uuid())));
    assert_eq!(db.find_uuid("/lib/b", "armv7"), Ok(Some(other_uuid())));
    assert_eq!(db.find_uuid("/lib/b", "arm64"), Ok(None));
    assert_eq!(db.find_uuid("/lib/c", "arm64"), Ok(None));
    let sym = db.lookup_by_object_name("/lib/b", "armv7", 0x10).unwrap();
    assert_eq!(sym.symbol(), "_b");
    assert_eq!(sym.object_name(), "/lib/b");
    assert!(db.lookup_by_object_name("/lib/b", "arm64", 0x10).is_none());
    assert_eq!(found(&db, &korean_uuid(), 0x10).unwrap().1, "_a");
    assert_eq!(found(&db, &other_uuid(), 0x10).unwrap().1, "_b");
}

#[test]
fn test_variant_met_twice_is_kept_once() {
    let info = SdkInfo::new("iOS", 10, 2, 3, None);
    let mut builder = MemDbBuilder::new(&info, DumpOptions::default()).unwrap();
    let a = slice("arm64", ARM64, Some(korean_uuid()), Some("/lib/a"), 0, 0x100, &[(0x10, "_a")]);
    let again = slice("arm64", ARM64, Some(korean_uuid()), Some("/other/a"), 0, 0x100,
                      &[(0x10, "_different")]);
    let v = Variant::new(ARM64, 0, "arm64", Some(korean_uuid()), Some("/lib/a"), 0, 0x100);
    assert_eq!(builder.write_object_variant(&v, &a.symbols, &korean_uuid(), "/lib/a"), Ok(true));
    assert_eq!(builder.write_object_variant(&v, &again.symbols, &korean_uuid(), "/other/a"), Ok(false));
    assert_eq!(builder.symbol_count(), 2);
    let bytes = builder.flush().unwrap();
    let word = |at: usize| u32::from_le_bytes([bytes[at], bytes[at + 1], bytes[at + 2], bytes[at + 3]]) as usize;
    assert_eq!(word(32), 1);
    assert_eq!(word(40), 1);
    assert_eq!(&bytes[word(44)..word(48)], b"/lib/a:arm64\0/other/a:arm64\0");
    let db = MemDb::from_slice(&bytes).unwrap();
    assert_eq!(found(&db, &korean_uuid(), 0x10).unwrap().1, "_a");
}

#[test]
fn test_slice_without_uuid_is_passed_over() {
    let info = SdkInfo::new("iOS", 10, 2, 3, None);
    let mut builder = MemDbBuilder::new(&info, DumpOptions::default()).unwrap();
    let a = slice("arm64", ARM64, None, Some("/lib/a"), 0, 0x100, &[(0x10, "_a")]);
    builder.write_object(&vec![a], None).unwrap();
    assert_eq!(builder.symbol_count(), 0);
    let bytes = builder.flush().unwrap();
    assert_eq!(bytes.len(), 68);
}

#[test]
fn test_find_uuid_fuzzy() {
    let info = SdkInfo::new("iOS", 10, 2, 3, None);
    let mut builder = MemDbBuilder::new(&info, DumpOptions::default()).unwrap();
    let a = slice("arm64", ARM64, Some(korean_uuid()),
                  Some("/System/Library/CoreServices/Encodings/libKoreanConverter.dylib"),
                  0, 0x100, &[(0x10, "_a")]);
    let b = slice("armv7", ARMV7, Some(other_uuid()), Some("/usr/lib/libz.dylib"), 0, 0x100,
                  &[(0x10, "_b")]);
    builder.write_object(&vec![a, b], None).unwrap();
    let bytes = builder.flush().unwrap();
    let db = MemDb::from_slice(&bytes).unwrap();
    assert_eq!(db.find_uuid_fuzzy("fe6d76d4-8c3a-3a9a-9f63-f4a475501f1b"), Ok(Some(korean_uuid())));
    assert_eq!(db.find_uuid_fuzzy("FE6D76D48C3A3A9A9F63F4A475501F1B"), Ok(Some(korean_uuid())));
    assert_eq!(db.find_uuid_fuzzy("00000000-0000-0000-0000-000000000000"), Ok(None));
    assert_eq!(db.find_uuid_fuzzy("libKoreanConverter.dylib"), Ok(Some(korean_uuid())));
    assert_eq!(db.find_uuid_fuzzy("/usr/lib/libz.dylib"), Ok(Some(other_uuid())));
    assert_eq!(db.find_uuid_fuzzy("libz.dylib"), Ok(Some(other_uuid())));
    assert_eq!(db.find_uuid_fuzzy("libmissing.dylib"), Ok(None));
    assert_eq!(db.find_uuid_fuzzy_with(Some(other_uuid()), "libKoreanConverter.dylib"),
               Ok(Some(other_uuid())));
    assert_eq!(db.find_uuid_fuzzy_with(None, "libKoreanConverter.dylib"), Ok(Some(korean_uuid())));
}

#[test]
fn test_uuid_parse() {
    let uuid = Uuid::parse_str("fe6d76d4-8c3a-3a9a-9f63-f4a475501f1b").unwrap();
    assert_eq!(uuid.as_u128(), 0xfe6d76d48c3a3a9a9f63f4a475501f1b);
    assert_eq!(uuid, Uuid::from_u128(0xfe6d76d48c3a3a9a9f63f4a475501f1b));
    assert_eq!(Uuid::parse_str("libz.dylib"), None);
    assert_eq!(Uuid::parse_str(""), None);
}

#[test]
fn test_iter_symbols_of_unknown_uuid() {
    let bytes = trivial_memdb();
    let db = MemDb::from_slice(&bytes).unwrap();
    assert_eq!(db.iter_symbols(&other_uuid()).unwrap().len(), 0);
    let all = db.iter_symbols(&korean_uuid()).unwrap();
    assert_eq!(all.len(), 2);
    assert_eq!(all[0].symbol(), "_foo");
    assert_eq!(all[1].symbol(), "_bar");
}

#[test]
fn test_open_short_buffer_is_bad() {
    let bytes = trivial_memdb();
    assert!(is_bad_memdb(MemDb::from_slice(&bytes[..67])));
    assert!(is_bad_memdb(MemDb::from_slice(&[])));
    assert!(MemDb::from_slice(&bytes[..68]).is_ok());
}

#[test]
fn test_open_other_version_is_unsupported() {
    let mut bytes = trivial_memdb();
    bytes[0] = 1;
    match MemDb::from_vec(bytes.clone()) {
        Err(e) => assert_eq!(e, ErrorKind::UnsupportedMemDbVersion),
        Ok(_) => panic!("version 1 must be refused"),
    }
    bytes[0] = 3;
    match MemDb::from_vec(bytes) {
        Err(e) => assert_eq!(e, ErrorKind::UnsupportedMemDbVersion),
        Ok(_) => panic!("version 3 must be refused"),
    }
}

#[test]
fn test_open_header_with_bad_text_is_bad() {
    let mut bytes = trivial_memdb();
    bytes[4] = 0xff;
    assert!(is_bad_memdb(MemDb::from_vec(bytes)));
}

#[test]
fn test_truncated_buffer_is_bad_memdb() {
    let bytes = trivial_memdb();
    let uuid = korean_uuid();
    let word = |at: usize| u32::from_le_bytes([bytes[at], bytes[at + 1], bytes[at + 2], bytes[at + 3]]) as usize;
    // one byte short of the end: the table of symbols is cut
    let db = MemDb::from_slice(&bytes[..bytes.len() - 1]).unwrap();
    assert_eq!(db.lookup_impl(&uuid, 0x2090).err(), Some(ErrorKind::BadMemDb));
    assert!(db.lookup_by_uuid(&uuid, 0x2090).is_none());
    assert_eq!(db.iter_symbols(&uuid).err(), Some(ErrorKind::BadMemDb));
    // cut inside the table of object names
    let db = MemDb::from_slice(&bytes[..word(52) + 7]).unwrap();
    assert_eq!(db.lookup_impl(&uuid, 0x2090).err(), Some(ErrorKind::BadMemDb));
    // cut inside the table of UUIDs
    let db = MemDb::from_slice(&bytes[..word(36) + 17]).unwrap();
    assert_eq!(db.lookup_impl(&uuid, 0x2090).err(), Some(ErrorKind::BadMemDb));
    assert_eq!(db.find_uuid("/usr/lib/lib.dylib", "arm64"), Err(ErrorKind::BadMemDb));
    // cut inside the table of variants
    let db = MemDb::from_slice(&bytes[..word(28) + 7]).unwrap();
    assert_eq!(db.lookup_impl(&uuid, 0x2090).err(), Some(ErrorKind::BadMemDb));
    // every cut must be survived
    for len in 68..bytes.len() {
        let db = MemDb::from_slice(&bytes[..len]).unwrap();
        let _ = db.lookup_by_uuid(&uuid, 0x2090);
        let _ = db.lookup_by_object_name("/usr/lib/lib.dylib", "arm64", 0x2090);
        let _ = db.find_uuid_fuzzy("lib.dylib");
        let _ = db.iter_symbols(&uuid);
    }
}

#[test]
fn test_get_data_bounds() {
    let bytes = trivial_memdb();
    let db = MemDb::from_slice(&bytes).unwrap();
    assert_eq!(db.get_data(0, 4), Ok(&bytes[0..4]));
    assert_eq!(db.get_data(bytes.len(), 0), Ok(&bytes[0..0]));
    assert_eq!(db.get_data(bytes.len() - 1, 1), Ok(&bytes[bytes.len() - 1..]));
    assert_eq!(db.get_data(bytes.len() - 1, 2), Err(ErrorKind::BadMemDb));
    assert_eq!(db.get_data(bytes.len() + 1, 0), Err(ErrorKind::BadMemDb));
    assert_eq!(db.get_data(usize::MAX, 2), Err(ErrorKind::BadMemDb));
    assert_eq!(db.get_data(2, usize::MAX), Err(ErrorKind::BadMemDb));
}

#[test]
fn test_compressed_flag_is_refused() {
    let mut bytes = trivial_memdb();
    let word = |bytes: &Vec<u8>, at: usize| u32::from_le_bytes([bytes[at], bytes[at + 1], bytes[at + 2], bytes[at + 3]]) as usize;
    // set the high bit of the length of the first symbol
    let symbols = word(&bytes, 60);
    bytes[symbols + 7] |= 0x80;
    let db = MemDb::from_slice(&bytes).unwrap();
    assert_eq!(db.lookup_impl(&korean_uuid(), 0x2090).err(), Some(ErrorKind::BadMemDb));
    assert!(db.lookup_impl(&korean_uuid(), 0x2100).is_ok());
}

#[test]
fn test_builder_refuses_what_does_not_fit() {
    let long_name = SdkInfo::new("ninechars", 10, 2, 3, None);
    assert_eq!(MemDbBuilder::new(&long_name, DumpOptions::default()).err(), Some(ErrorKind::MemDbLimit));
    let long_build = SdkInfo::new("iOS", 10, 2, 3, Some("12345678901"));
    assert_eq!(MemDbBuilder::new(&long_build, DumpOptions::default()).err(), Some(ErrorKind::MemDbLimit));
    let large = SdkInfo::new("iOS", 65536, 2, 3, None);
    assert_eq!(MemDbBuilder::new(&large, DumpOptions::default()).err(), Some(ErrorKind::MemDbLimit));
    let fits = SdkInfo::new("12345678", 65535, 65535, 65535, Some("1234567890"));
    assert!(MemDbBuilder::new(&fits, DumpOptions::default()).is_ok());

    let info = SdkInfo::new("iOS", 10, 2, 3, None);
    let mut builder = MemDbBuilder::new(&info, DumpOptions::default()).unwrap();
    // a symbol below the start of the image
    let below = slice("arm64", ARM64, Some(korean_uuid()), Some("/lib/a"), 0x1000, 0x100,
                      &[(0xfff, "_a")]);
    assert_eq!(builder.write_object(&vec![below], None), Err(ErrorKind::MemDbLimit));
    // an address that needs more than 48 bits
    let far = slice("arm64", ARM64, Some(korean_uuid()), Some("/lib/a"), 0, 0x100,
                    &[(0x1_0000_0000_0000, "_a")]);
    assert_eq!(builder.write_object(&vec![far], None), Err(ErrorKind::MemDbLimit));
    let wide = slice("arm64", ARM64, Some(korean_uuid()), Some("/lib/a"), 0, 0x1_0000_0000_0000,
                     &[(0x10, "_a")]);
    assert_eq!(builder.write_object(&vec![wide], None), Err(ErrorKind::MemDbLimit));
    // nothing was taken in
    assert_eq!(builder.symbol_count(), 0);
    assert_eq!(builder.flush().unwrap().len(), 68);
    let near = slice("arm64", ARM64, Some(korean_uuid()), Some("/lib/a"), 1, 0,
                     &[(0x1_0000_0000_0000, "_a")]);
    assert_eq!(builder.write_object(&vec![near], None), Ok(()));
    let bytes = builder.flush().unwrap();
    let db = MemDb::from_slice(&bytes).unwrap();
    assert_eq!(found(&db, &korean_uuid(), 0xffff_ffff_ffff).unwrap().2, 0xffff_ffff_ffff);
}

#[test]
fn test_flush_compressed() {
    let info = SdkInfo::new("iOS", 10, 2, 3, Some("14C93"));
    let opts = DumpOptions { show_progress_bar: false, compress: true };
    let mut builder = MemDbBuilder::new(&info, opts).unwrap();
    builder.write_object(&vec![trivial_slice()], Some("lib.dylib")).unwrap();
    let plain = builder.flush_plain().unwrap();
    assert_eq!(plain, trivial_memdb());
    let compressed = builder.flush().unwrap();
    assert_ne!(compressed, plain);
    assert_eq!(&compressed[..6], &[0xfd, b'7', b'z', b'X', b'Z', 0]);
    let mut unpacked = Vec::new();
    let mut reader = xz2::read::XzDecoder::new(&compressed[..]);
    std::io::Read::read_to_end(&mut reader, &mut unpacked).unwrap();
    assert_eq!(unpacked, plain);
}

#[test]
fn test_finish_flush() {
    assert_eq!(finish_flush(vec![1, 2], false, None), Ok(vec![1, 2]));
    assert_eq!(finish_flush(vec![1, 2], false, Some(vec![9])), Ok(vec![1, 2]));
    assert_eq!(finish_flush(vec![1, 2], true, Some(vec![9])), Ok(vec![9]));
    assert_eq!(finish_flush(vec![1, 2], true, None), Err(ErrorKind::CompressionFailed));
}

#[test]
fn test_dump_memdb() {
    let info = SdkInfo::new("iOS", 10, 2, 3, Some("14C93"));
    let objects = vec![("lib.dylib".to_string(), vec![trivial_slice()])];
    let bytes = dump_memdb(&info, DumpOptions::default(), &objects).unwrap();
    assert_eq!(bytes, trivial_memdb());
    let nameless = vec![("found/here.dylib".to_string(),
                         vec![slice("arm64", ARM64, Some(korean_uuid()), None, 0, 0, &[(1, "_a")])])];
    let bytes = dump_memdb(&info, DumpOptions::default(), &nameless).unwrap();
    let db = MemDb::from_slice(&bytes).unwrap();
    assert_eq!(found(&db, &korean_uuid(), 1).unwrap().0, "found/here.dylib");
    let bad = SdkInfo::new("much_too_long", 10, 2, 3, None);
    assert_eq!(dump_memdb(&bad, DumpOptions::default(), &objects), Err(ErrorKind::MemDbLimit));
}

#[test]
fn test_name_with_zero_byte_is_refused() {
    let info = SdkInfo::new("iOS", 10, 2, 3, Some("14C93"));
    let mut builder = MemDbBuilder::new(&info, DumpOptions::default()).unwrap();
    builder.write_object(&vec![trivial_slice()], None).unwrap();
    let before = builder.flush().unwrap();
    let count = builder.symbol_count();

    let bad_name = slice("arm64", ARM64, Some(other_uuid()), Some("/usr/lib/a\0b.dylib"), 0, 0x10,
                         &[(1, "_x")]);
    assert_eq!(builder.write_object(&vec![bad_name], None), Err(ErrorKind::MemDbLimit));
    let bad_arch = slice("arm\0v7", ARMV7, Some(other_uuid()), Some("/usr/lib/c.dylib"), 0, 0x10,
                         &[(1, "_x")]);
    assert_eq!(builder.write_object(&vec![bad_arch], None), Err(ErrorKind::MemDbLimit));
    let bad_file = slice("arm64", ARM64, Some(other_uuid()), None, 0, 0x10, &[(1, "_x")]);
    assert_eq!(builder.write_object(&vec![bad_file], Some("d\0")), Err(ErrorKind::MemDbLimit));
    // a variant that was seen before leaves no such name either
    let again = slice("arm64", ARM64, Some(korean_uuid()), Some("alias\0"), 0, 0, &[]);
    assert_eq!(builder.write_object(&vec![again], None), Err(ErrorKind::MemDbLimit));
    let var = Variant::new(ARM64, 0, "arm64", Some(korean_uuid()), None, 0, 0);
    assert_eq!(builder.write_object_variant(&var, &vec![], &korean_uuid(), "\0"),
               Err(ErrorKind::MemDbLimit));

    assert_eq!(builder.symbol_count(), count);
    assert_eq!(builder.flush().unwrap(), before);

    // a zero byte in the name of a symbol is no hindrance
    let sym = slice("arm64", ARM64, Some(other_uuid()), Some("/usr/lib/e.dylib"), 0, 0x10,
                    &[(1, "_x\0y")]);
    builder.write_object(&vec![sym], None).unwrap();
    let bytes = builder.flush().unwrap();
    let db = MemDb::from_slice(&bytes).unwrap();
    assert_eq!(found(&db, &other_uuid(), 1),
               Some(("/usr/lib/e.dylib".to_string(), "_x\0y".to_string(), 1)));
}

#[test]
fn test_add_symbol_gives_each_name_one_id() {
    let info = SdkInfo::new("iOS", 10, 2, 3, Some("14C93"));
    let mut builder = MemDbBuilder::new(&info, DumpOptions::default()).unwrap();
    assert_eq!(builder.add_symbol("_a"), 0);
    assert_eq!(builder.add_symbol("_b"), 1);
    assert_eq!(builder.add_symbol("_a"), 0);
    assert_eq!(builder.add_symbol(""), 2);
    assert_eq!(builder.add_symbol("_b"), 1);
    assert_eq!(builder.add_symbol("_A"), 3);
    assert_eq!(builder.add_symbol(""), 2);
    // the names of a variant that is written later keep these ids
    let later = slice("arm64", ARM64, Some(korean_uuid()), Some("/usr/lib/lib.dylib"), 0x1000, 0x100,
                      &[(0x1010, "_b"), (0x1020, "_c"), (0x1030, "_a")]);
    builder.write_object(&vec![later], None).unwrap();
    assert_eq!(builder.add_symbol("_c"), 4);
    assert_eq!(builder.add_symbol("_d"), 5);
    let bytes = builder.flush().unwrap();
    let db = MemDb::from_slice(&bytes).unwrap();
    let name = "/usr/lib/lib.dylib".to_string();
    assert_eq!(found(&db, &korean_uuid(), 0x10), Some((name.clone(), "_b".to_string(), 0x10)));
    assert_eq!(found(&db, &korean_uuid(), 0x20), Some((name.clone(), "_c".to_string(), 0x20)));
    assert_eq!(found(&db, &korean_uuid(), 0x30), Some((name.clone(), "_a".to_string(), 0x30)));
}

#[test]
fn test_earlier_variants_stay_found() {
    let info = SdkInfo::new("iOS", 10, 2, 3, Some("14C93"));
    let mut builder = MemDbBuilder::new(&info, DumpOptions::default()).unwrap();
    builder.write_object(&vec![trivial_slice()], None).unwrap();
    let second = slice("armv7", ARMV7, Some(other_uuid()), Some("/usr/lib/other.dylib"), 0x4000,
                       0x1000, &[(0x4010, "_bar"), (0x4020, "_baz"), (0x4030, "_foo")]);
    builder.write_object(&vec![second], None).unwrap();
    let third = slice("arm64", ARM64, Some(Uuid::from_u128(7)), None, 0, 0x10, &[(8, "_late")]);
    builder.write_object(&vec![third], Some("third.dylib")).unwrap();
    // the first variant once more, under another name
    let again = slice("arm64", ARM64, Some(korean_uuid()), Some("/usr/lib/alias.dylib"), 0, 0, &[]);
    builder.write_object(&vec![again], None).unwrap();

    let bytes = builder.flush().unwrap();
    let db = MemDb::from_slice(&bytes).unwrap();
    let name = "/usr/lib/lib.dylib".to_string();
    assert_eq!(found(&db, &korean_uuid(), 0x2090), Some((name.clone(), "_foo".to_string(), 0x2090)));
    assert_eq!(found(&db, &korean_uuid(), 0x2100), Some((name.clone(), "_bar".to_string(), 0x2100)));
    assert_eq!(found(&db, &korean_uuid(), 0x23000), None);
    let other = "/usr/lib/other.dylib".to_string();
    assert_eq!(found(&db, &other_uuid(), 0x10), Some((other.clone(), "_bar".to_string(), 0x10)));
    assert_eq!(found(&db, &other_uuid(), 0x20), Some((other.clone(), "_baz".to_string(), 0x20)));
    assert_eq!(found(&db, &other_uuid(), 0x30), Some((other.clone(), "_foo".to_string(), 0x30)));
    assert_eq!(found(&db, &other_uuid(), 0x1000), None);
    assert_eq!(found(&db, &Uuid::from_u128(7), 8),
               Some(("third.dylib".to_string(), "_late".to_string(), 8)));
}
