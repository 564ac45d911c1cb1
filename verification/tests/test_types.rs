use symbolserver::memdb::types::{
    copy_str_to_slice, read_u16, read_u32, str_from_zero_slice, IndexItem, IndexedUuid,
    MemDbHeader, PackedSdkInfo, StoredSlice, Uuid,
};
use symbolserver::sdk::SdkInfo;

#[test]
fn test_stored_slice() {
    let s = StoredSlice::new(100, 20, false);
    assert_eq!(s.offset(), 100);
    assert_eq!(s.len(), 20);
    assert!(!s.is_compressed());
    let s = StoredSlice::new(100, 20, true);
    assert_eq!(s.len(), 20);
    assert!(s.is_compressed());
    assert_eq!(s.len, 0x8000_0014);
    let s = StoredSlice::new(0x1_0000_0005usize, 0x8000_0001usize, false);
    assert_eq!(s.offset(), 5);
    assert_eq!(s.len(), 1);
    assert!(s.is_compressed());
}

#[test]
fn test_stored_slice_bytes() {
    let s = StoredSlice::new(0x01020304, 0x0a0b0c0d, false);
    let mut out = vec![0xee];
    s.write_to(&mut out);
    assert_eq!(out, vec![0xee, 4, 3, 2, 1, 0x0d, 0x0c, 0x0b, 0x0a]);
    assert_eq!(StoredSlice::read_at(&out, 1), s);
}

#[test]
fn test_index_item() {
    let item = IndexItem::new(0x1234_5678_9abc, 7, 42);
    assert_eq!(item.addr(), 0x1234_5678_9abc);
    assert_eq!(item.src_id(), 7);
    assert_eq!(item.sym_id(), 42);
    assert!(!item.is_end_marker());
    let cut = IndexItem::new(0xffff_1234_5678_9abc, 0x1_0007, 42);
    assert_eq!(cut.addr(), 0x1234_5678_9abc);
    assert_eq!(cut.src_id(), 7);
    let end = IndexItem::end_marker(0x23000, 3);
    assert_eq!(end.addr(), 0x23000);
    assert_eq!(end.src_id(), 3);
    assert!(end.is_end_marker());
    assert_eq!(end.sym_id(), 0xffff_ffff);
}

#[test]
fn test_index_item_bytes() {
    let item = IndexItem::new(0x1234_5678_9abc, 0x0102, 0x0a0b0c0d);
    let mut out = Vec::new();
    item.write_to(&mut out);
    assert_eq!(out, vec![0xbc, 0x9a, 0x78, 0x56, 0x34, 0x12, 2, 1, 0x0d, 0x0c, 0x0b, 0x0a]);
    assert_eq!(IndexItem::read_at(&out, 0), item);
}

#[test]
fn test_indexed_uuid() {
    let uuid = Uuid::from_u128(0xfe6d76d48c3a3a9a9f63f4a475501f1b);
    let entry = IndexedUuid::new(&uuid, 0x1_0203);
    assert_eq!(*entry.uuid(), uuid);
    assert_eq!(entry.idx(), 0x0203);
    let mut out = Vec::new();
    entry.write_to(&mut out);
    assert_eq!(out, vec![0xfe, 0x6d, 0x76, 0xd4, 0x8c, 0x3a, 0x3a, 0x9a, 0x9f, 0x63, 0xf4, 0xa4,
                         0x75, 0x50, 0x1f, 0x1b, 3, 2]);
    assert_eq!(IndexedUuid::read_at(&out, 0), entry);
}

#[test]
fn test_read_numbers() {
    let buf = [0x34, 0x12, 0x78, 0x56, 0xff];
    assert_eq!(read_u16(&buf, 0), 0x1234);
    assert_eq!(read_u16(&buf, 3), 0xff56);
    assert_eq!(read_u32(&buf, 0), 0x56781234);
    assert_eq!(read_u32(&buf, 1), 0xff567812);
}

#[test]
fn test_zero_padded_text() {
    let mut field = [0u8; 8];
    copy_str_to_slice(&mut field, "iOS");
    assert_eq!(&field, b"iOS\0\0\0\0\0");
    assert_eq!(str_from_zero_slice(&field), Some("iOS".to_string()));
    copy_str_to_slice(&mut field, "tv");
    assert_eq!(&field, b"tvS\0\0\0\0\0");
    assert_eq!(str_from_zero_slice(&[0u8; 4]), Some(String::new()));
    assert_eq!(str_from_zero_slice(b"a\0b\0"), Some("a\0b".to_string()));
    assert_eq!(str_from_zero_slice(&[0xff, 0]), None);
    assert_eq!(str_from_zero_slice(b"12345678"), Some("12345678".to_string()));
}

#[test]
fn test_packed_sdk_info() {
    let info = SdkInfo::new("iOS", 10, 2, 3, Some("14C93"));
    let mut packed = PackedSdkInfo::default();
    packed.set_from_sdk_info(&info);
    assert_eq!(&packed.name, b"iOS\0\0\0\0\0");
    assert_eq!(&packed.build, b"14C93\0\0\0\0\0");
    assert_eq!((packed.version_major, packed.version_minor, packed.version_patchlevel), (10, 2, 3));
    assert!(packed.to_sdk_info().unwrap().same_as(&info));
    let mut packed = PackedSdkInfo::default();
    packed.set_from_sdk_info(&SdkInfo::new("tvOS", 65537, 0, 0, None));
    assert_eq!(packed.version_major, 1);
    let back = packed.to_sdk_info().unwrap();
    assert_eq!(back.build(), None);
    assert_eq!(back.name(), "tvOS");
}

#[test]
fn test_header_bytes() {
    let mut header = MemDbHeader::default();
    header.version = 2;
    header.sdk_info.set_from_sdk_info(&SdkInfo::new("iOS", 10, 2, 3, Some("14C93")));
    header.variants_start = 1;
    header.variants_count = 2;
    header.uuids_start = 3;
    header.uuids_count = 4;
    header.tagged_object_names_start = 5;
    header.tagged_object_names_end = 6;
    header.object_names_start = 7;
    header.object_names_count = 8;
    header.symbols_start = 9;
    header.symbols_count = 0x0a0b0c0d;
    let mut out = Vec::new();
    header.write_to(&mut out);
    assert_eq!(out.len(), 68);
    assert_eq!(&out[0..4], &[2, 0, 0, 0]);
    assert_eq!(&out[28..32], &[1, 0, 0, 0]);
    assert_eq!(&out[60..68], &[9, 0, 0, 0, 0x0d, 0x0c, 0x0b, 0x0a]);
    let back = MemDbHeader::read_from(&out);
    assert_eq!(back.version, 2);
    assert_eq!(back.sdk_info.name, header.sdk_info.name);
    assert_eq!(back.sdk_info.build, header.sdk_info.build);
    assert_eq!(back.variants_count, 2);
    assert_eq!(back.uuids_start, 3);
    assert_eq!(back.uuids_count, 4);
    assert_eq!(back.tagged_object_names_start, 5);
    assert_eq!(back.tagged_object_names_end, 6);
    assert_eq!(back.object_names_start, 7);
    assert_eq!(back.object_names_count, 8);
    assert_eq!(back.symbols_start, 9);
    assert_eq!(back.symbols_count, 0x0a0b0c0d);
}
