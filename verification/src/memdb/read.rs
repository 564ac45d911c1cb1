//! Reading a memdb.
//!
//! The reader works on the bytes of the file as they are: it checks
//! every offset against the length of the buffer before it follows it,
//! and finds symbols by two binary searches on the stored tables.
use vstd::prelude::*;
use vstd::utf8::{decode_utf8, encode_utf8, valid_utf8};
use vstd::string::StringSliceAdditionalSpecFns;
use vstd::slice::slice_subrange;
use crate::errors::ErrorKind;
use crate::sdk::{SdkInfo, SdkInfoView};
use crate::text::{bytes_eq, string_from_utf8};
use crate::memdb::types::{
    read_u32, spec_le16, spec_le32, spec_str_from_zero_slice, IndexItem, IndexedUuid,
    MemDbHeader, StoredSlice, Uuid, MEMDB_VERSION,
};

verus! {

/// What a `Symbol` stands for.
pub struct SymbolView {
    pub object_name: Seq<char>,
    pub symbol: Seq<char>,
    pub addr: u64,
}

/// Represents a symbol from a memdb file.
#[derive(Debug)]
pub struct Symbol {
    object_name: String,
    symbol: String,
    addr: u64,
}

impl View for Symbol {
    type V = SymbolView;

    closed spec fn view(&self) -> SymbolView {
        SymbolView { object_name: self.object_name@, symbol: self.symbol@, addr: self.addr }
    }
}

impl Symbol {
    /// The object name a string
    pub fn object_name(&self) -> (r: &str)
        ensures
            r@ == self@.object_name,
    {
        self.object_name.as_str()
    }

    /// The symbol as string
    pub fn symbol(&self) -> (r: &str)
        ensures
            r@ == self@.symbol,
    {
        self.symbol.as_str()
    }

    /// The symbol address as u64
    pub fn addr(&self) -> (r: u64)
        ensures
            r == self@.addr,
    {
        self.addr
    }
}

/// The bytes from `start` on, `len` of them, lie within `b`.
pub open spec fn region_ok(b: Seq<u8>, start: int, len: int) -> bool {
    0 <= start && 0 <= len && start + len <= b.len()
}

/// The place in `low..high` at which a binary search for `x` ends: it
/// halves the range, going left where `x` is below the key in the
/// middle and right otherwise. On keys in ascending order this is the
/// number of keys that are at most `x`.
pub open spec fn bisect(keys: Seq<int>, x: int, low: int, high: int) -> int
    decreases high - low,
{
    if low >= high {
        low
    } else {
        let mid = low + (high - low) / 2;
        if x < keys[mid] {
            bisect(keys, x, low, mid)
        } else {
            bisect(keys, x, mid + 1, high)
        }
    }
}

/// The keys are in ascending order between `low` and `high`.
pub open spec fn keys_sorted(keys: Seq<int>, low: int, high: int) -> bool {
    forall|i: int, j: int| low <= i <= j < high ==> keys[i] <= keys[j]
}

/// On keys in ascending order a binary search ends behind the last key
/// that is at most `x`: every key before that place is at most `x` and
/// every key from it on is above.
pub proof fn lemma_bisect_sorted(keys: Seq<int>, x: int, low: int, high: int)
    requires
        0 <= low <= high <= keys.len(),
        keys_sorted(keys, low, high),
    ensures
        low <= bisect(keys, x, low, high) <= high,
        forall|i: int| low <= i < bisect(keys, x, low, high) ==> keys[i] <= x,
        forall|i: int| bisect(keys, x, low, high) <= i < high ==> x < keys[i],
    decreases high - low,
{
    if low < high {
        let mid = low + (high - low) / 2;
        if x < keys[mid] {
            lemma_bisect_sorted(keys, x, low, mid);
            let r = bisect(keys, x, low, mid);
            assert forall|i: int| r <= i < high implies x < keys[i] by {
                if i >= mid {
                    assert(keys[mid] <= keys[i]);
                }
            }
        } else {
            lemma_bisect_sorted(keys, x, mid + 1, high);
            let r = bisect(keys, x, mid + 1, high);
            assert forall|i: int| low <= i < r implies keys[i] <= x by {
                if i <= mid {
                    assert(keys[i] <= keys[mid]);
                }
            }
        }
    }
}

/// The offset of the table of variants.
pub open spec fn variants_start(b: Seq<u8>) -> int {
    spec_le32(b, 28)
}

/// The number of variants.
pub open spec fn variants_count(b: Seq<u8>) -> int {
    spec_le32(b, 32)
}

/// The offset of the table of UUIDs.
pub open spec fn uuids_start(b: Seq<u8>) -> int {
    spec_le32(b, 36)
}

/// The number of entries of the table of UUIDs.
pub open spec fn uuids_count(b: Seq<u8>) -> int {
    spec_le32(b, 40)
}

/// The offset of the tagged object names.
pub open spec fn tagged_start(b: Seq<u8>) -> int {
    spec_le32(b, 44)
}

/// The offset behind the tagged object names.
pub open spec fn tagged_end(b: Seq<u8>) -> int {
    spec_le32(b, 48)
}

/// The offset of the table of object names.
pub open spec fn object_names_start(b: Seq<u8>) -> int {
    spec_le32(b, 52)
}

/// The number of object names.
pub open spec fn object_names_count(b: Seq<u8>) -> int {
    spec_le32(b, 56)
}

/// The offset of the table of symbols.
pub open spec fn symbols_start(b: Seq<u8>) -> int {
    spec_le32(b, 60)
}

/// The number of symbols.
pub open spec fn symbols_count(b: Seq<u8>) -> int {
    spec_le32(b, 64)
}

/// The SDK that the header describes, or `None` where its name or its
/// build is not valid UTF-8.
pub open spec fn spec_header_info(b: Seq<u8>) -> Option<SdkInfoView> {
    match (
        spec_str_from_zero_slice(b.subrange(4, 12)),
        spec_str_from_zero_slice(b.subrange(18, 28)),
    ) {
        (Some(name), Some(build)) => Some(
            SdkInfoView {
                name,
                version_major: spec_le16(b, 12) as u32,
                version_minor: spec_le16(b, 14) as u32,
                version_patchlevel: spec_le16(b, 16) as u32,
                build: if build.len() == 0 {
                    None
                } else {
                    Some(build)
                },
            },
        ),
        _ => None,
    }
}

/// What opening a buffer gives: the SDK of its header, `BadMemDb`
/// where the buffer is shorter than a header or the header holds no
/// readable SDK, and `UnsupportedMemDbVersion` where the version is not
/// the supported one.
pub open spec fn spec_open(b: Seq<u8>) -> Result<SdkInfoView, ErrorKind> {
    if b.len() < 68 {
        Err(ErrorKind::BadMemDb)
    } else if spec_le32(b, 0) != MEMDB_VERSION {
        Err(ErrorKind::UnsupportedMemDbVersion)
    } else {
        match spec_header_info(b) {
            Some(info) => Ok(info),
            None => Err(ErrorKind::BadMemDb),
        }
    }
}

/// The entry with index `i` of the table of UUIDs.
pub open spec fn uuid_entry(b: Seq<u8>, i: int) -> IndexedUuid {
    IndexedUuid::spec_decode(b, uuids_start(b) + 18 * i)
}

/// The UUIDs of the table of UUIDs as keys of a search.
pub open spec fn uuid_keys(b: Seq<u8>) -> Seq<int> {
    Seq::new(uuids_count(b) as nat, |i: int| uuid_entry(b, i).uuid.value as int)
}

/// The entry with index `i` of the symbol index that starts at `start`.
pub open spec fn index_item(b: Seq<u8>, start: int, i: int) -> IndexItem {
    IndexItem::spec_decode(b, start + 12 * i)
}

/// The addresses of the symbol index of `count` entries that starts at
/// `start` as keys of a search.
pub open spec fn item_keys(b: Seq<u8>, start: int, count: int) -> Seq<int> {
    Seq::new(count as nat, |i: int| index_item(b, start, i).spec_addr())
}

/// The variant of `uuid`: its index in the table of variants. `None`
/// where the table of UUIDs does not hold `uuid`.
pub open spec fn spec_find_variant(b: Seq<u8>, uuid: Uuid) -> Result<Option<int>, ErrorKind> {
    if !region_ok(b, uuids_start(b), 18 * uuids_count(b)) {
        Err(ErrorKind::BadMemDb)
    } else {
        let pos = bisect(uuid_keys(b), uuid.value as int, 0, uuids_count(b));
        if pos > 0 && uuid_entry(b, pos - 1).uuid == uuid {
            Ok(Some(uuid_entry(b, pos - 1).idx as int))
        } else {
            Ok(None)
        }
    }
}

/// The symbol index of the variant with index `idx`: its offset and
/// the number of its entries.
pub open spec fn spec_variant_index(b: Seq<u8>, idx: int) -> Result<(int, int), ErrorKind> {
    if !region_ok(b, variants_start(b), 8 * variants_count(b)) || idx >= variants_count(b) {
        Err(ErrorKind::BadMemDb)
    } else {
        let s = StoredSlice::spec_decode(b, variants_start(b) + 8 * idx);
        if s.spec_is_compressed() || !region_ok(b, s.spec_offset(), s.spec_len()) {
            Err(ErrorKind::BadMemDb)
        } else {
            Ok((s.spec_offset(), s.spec_len() / 12))
        }
    }
}

/// The string with index `id` of the table of `count` stored slices at
/// `start`. `BadMemDb` where the table or the string does not lie in
/// the file, where there is no such index, where the slice is marked
/// as compressed, and where the bytes are not valid UTF-8.
pub open spec fn spec_string(b: Seq<u8>, start: int, count: int, id: int) -> Result<
    Seq<char>,
    ErrorKind,
> {
    if !region_ok(b, start, 8 * count) || id >= count {
        Err(ErrorKind::BadMemDb)
    } else {
        let s = StoredSlice::spec_decode(b, start + 8 * id);
        if s.spec_is_compressed() || !region_ok(b, s.spec_offset(), s.spec_len()) {
            Err(ErrorKind::BadMemDb)
        } else {
            let bytes = b.subrange(s.spec_offset(), s.spec_offset() + s.spec_len());
            if valid_utf8(bytes) {
                Ok(decode_utf8(bytes))
            } else {
                Err(ErrorKind::BadMemDb)
            }
        }
    }
}

/// The symbol that an entry of a symbol index stands for.
pub open spec fn spec_symbol_of(b: Seq<u8>, item: IndexItem) -> Result<SymbolView, ErrorKind> {
    match (
        spec_string(b, object_names_start(b), object_names_count(b), item.src_id as int),
        spec_string(b, symbols_start(b), symbols_count(b), item.sym_id as int),
    ) {
        (Ok(object_name), Ok(symbol)) => Ok(
            SymbolView { object_name, symbol, addr: item.spec_addr() as u64 },
        ),
        _ => Err(ErrorKind::BadMemDb),
    }
}

/// The symbol of the entry that a search for `addr` finds in the
/// symbol index of `count` entries at `start`: the last entry whose
/// address is at most `addr`, unless that entry marks the end of the
/// variant.
pub open spec fn spec_lookup_in_index(b: Seq<u8>, start: int, count: int, addr: u64) -> Result<
    Option<SymbolView>,
    ErrorKind,
> {
    let pos = bisect(item_keys(b, start, count), addr as int, 0, count);
    if pos == 0 {
        Ok(None)
    } else {
        let item = index_item(b, start, pos - 1);
        if item.spec_is_end_marker() {
            Ok(None)
        } else {
            match spec_symbol_of(b, item) {
                Ok(s) => Ok(Some(s)),
                Err(e) => Err(e),
            }
        }
    }
}

/// What a lookup by UUID and address gives.
pub open spec fn spec_lookup(b: Seq<u8>, uuid: Uuid, addr: u64) -> Result<
    Option<SymbolView>,
    ErrorKind,
> {
    match spec_find_variant(b, uuid) {
        Err(e) => Err(e),
        Ok(None) => Ok(None),
        Ok(Some(idx)) => match spec_variant_index(b, idx) {
            Err(e) => Err(e),
            Ok((start, count)) => spec_lookup_in_index(b, start, count, addr),
        },
    }
}

/// The optional symbol that an optional `Symbol` stands for.
pub open spec fn opt_symbol_view(o: Option<Symbol>) -> Option<SymbolView> {
    match o {
        Some(s) => Some(s@),
        None => None,
    }
}

/// What the result of a lookup stands for.
pub open spec fn lookup_view(r: Result<Option<Symbol>, ErrorKind>) -> Result<
    Option<SymbolView>,
    ErrorKind,
> {
    match r {
        Ok(o) => Ok(opt_symbol_view(o)),
        Err(e) => Err(e),
    }
}

/// The bytes `buf[start..start + len]`, or `BadMemDb` where they do
/// not all lie within `buf`.
pub fn get_data(buf: &[u8], start: usize, len: usize) -> (r: Result<&[u8], ErrorKind>)
    ensures
        match r {
            Ok(data) => region_ok(buf@, start as int, len as int) && data@ == buf@.subrange(
                start as int,
                start + len,
            ),
            Err(e) => e == ErrorKind::BadMemDb && !region_ok(buf@, start as int, len as int),
        },
{
    let n = buf.len();
    if len > n || start > n - len {
        Err(ErrorKind::BadMemDb)
    } else {
        Ok(slice_subrange(buf, start, start + len))
    }
}

/// Whether a table of `count` records of `size` bytes at `start` lies
/// within `buf`.
fn table_ok(buf: &[u8], start: u32, count: u32, size: u64) -> (r: bool)
    requires
        size <= 18,
    ensures
        r == region_ok(buf@, start as int, size * count),
{
    let n = buf.len() as u64;
    assert(size * count <= 18 * 0xffff_ffff) by (nonlinear_arith)
        requires
            0 <= size <= 18,
            0 <= count <= 0xffff_ffff,
    ;
    let bytes: u64 = size * (count as u64);
    bytes <= n && (start as u64) <= n - bytes
}

/// Searches the table of UUIDs.
fn bisect_uuids(buf: &[u8], start: usize, count: usize, uuid: u128) -> (r: usize)
    requires
        buf@.len() >= 68,
        start == uuids_start(buf@),
        count == uuids_count(buf@),
        start + 18 * count <= buf@.len(),
    ensures
        r == bisect(uuid_keys(buf@), uuid as int, 0, count as int),
        r <= count,
{
    let ghost keys = uuid_keys(buf@);
    let n = buf.len();
    let mut low: usize = 0;
    let mut high: usize = count;
    while low < high
        invariant
            0 <= low <= high <= count,
            n == buf@.len(),
            buf@.len() >= 68,
            start == uuids_start(buf@),
            count == uuids_count(buf@),
            start + 18 * count <= buf@.len(),
            keys == uuid_keys(buf@),
            bisect(keys, uuid as int, 0, count as int) == bisect(
                keys,
                uuid as int,
                low as int,
                high as int,
            ),
        decreases high - low,
    {
        let mid: usize = low + (high - low) / 2;
        let entry = IndexedUuid::read_at(buf, start + 18 * mid);
        assert(entry == uuid_entry(buf@, mid as int));
        assert(keys[mid as int] == entry.uuid.value);
        if uuid < entry.uuid.value {
            high = mid;
        } else {
            low = mid + 1;
        }
    }
    low
}

/// Searches a symbol index.
fn bisect_items(buf: &[u8], start: usize, count: usize, addr: u64) -> (r: usize)
    requires
        start + 12 * count <= buf@.len(),
    ensures
        r == bisect(item_keys(buf@, start as int, count as int), addr as int, 0, count as int),
        r <= count,
{
    let ghost keys = item_keys(buf@, start as int, count as int);
    let n = buf.len();
    let mut low: usize = 0;
    let mut high: usize = count;
    while low < high
        invariant
            0 <= low <= high <= count,
            n == buf@.len(),
            start + 12 * count <= buf@.len(),
            keys == item_keys(buf@, start as int, count as int),
            bisect(keys, addr as int, 0, count as int) == bisect(
                keys,
                addr as int,
                low as int,
                high as int,
            ),
        decreases high - low,
    {
        let mid: usize = low + (high - low) / 2;
        let item = IndexItem::read_at(buf, start + 12 * mid);
        assert(item == index_item(buf@, start as int, mid as int));
        assert(keys[mid as int] == item.spec_addr());
        if addr < item.addr() {
            high = mid;
        } else {
            low = mid + 1;
        }
    }
    low
}

/// Reads the string with index `id` of a table of stored slices.
fn read_string(buf: &[u8], start: u32, count: u32, id: usize) -> (r: Result<String, ErrorKind>)
    ensures
        match r {
            Ok(s) => spec_string(buf@, start as int, count as int, id as int) == Ok::<
                Seq<char>,
                ErrorKind,
            >(s@),
            Err(e) => spec_string(buf@, start as int, count as int, id as int) == Err::<
                Seq<char>,
                ErrorKind,
            >(e),
        },
{
    let n = buf.len();
    if !table_ok(buf, start, count, 8) || id >= count as usize {
        return Err(ErrorKind::BadMemDb);
    }
    let slice = StoredSlice::read_at(buf, start as usize + 8 * id);
    if slice.is_compressed() {
        return Err(ErrorKind::BadMemDb);
    }
    let data = match get_data(buf, slice.offset(), slice.len()) {
        Ok(data) => data,
        Err(e) => {
            return Err(e);
        },
    };
    match string_from_utf8(data) {
        Some(s) => Ok(s),
        None => Err(ErrorKind::BadMemDb),
    }
}

/// The bytes behind a memdb: borrowed or owned.
enum Backing<'a> {
    Buf(&'a [u8]),
    Owned(Vec<u8>),
}

/// Provides access to a memdb file
///
/// The view of a `MemDb` is the bytes of the file.
pub struct MemDb<'a> {
    info: SdkInfo,
    backing: Backing<'a>,
}

impl<'a> View for MemDb<'a> {
    type V = Seq<u8>;

    closed spec fn view(&self) -> Seq<u8> {
        match self.backing {
            Backing::Buf(b) => b@,
            Backing::Owned(v) => v@,
        }
    }
}

/// A tagged object name matches what is looked for: exactly, or, for a
/// fuzzy search, where the name before the last colon ends with it.
pub open spec fn record_matches(record: Seq<u8>, wanted: Seq<u8>, fuzzy: bool) -> bool {
    if fuzzy {
        let name = record.take(name_len(record));
        name.len() >= wanted.len() && name.subrange(
            name.len() - wanted.len(),
            name.len() as int,
        ) == wanted
    } else {
        record == wanted
    }
}

/// The position of the last colon in `record`, or -1 where there is
/// none.
pub open spec fn last_colon(record: Seq<u8>) -> int
    decreases record.len(),
{
    if record.len() == 0 {
        -1
    } else if record.last() == 58 {
        record.len() - 1
    } else {
        last_colon(record.drop_last())
    }
}

/// The length of the name of a tagged object name: what stands before
/// its last colon, or all of it where it holds no colon.
pub open spec fn name_len(record: Seq<u8>) -> int {
    if last_colon(record) >= 0 {
        last_colon(record)
    } else {
        record.len() as int
    }
}

/// The index of the first tagged object name that matches, counting
/// from `idx` for the record that starts at `start`; `pos` is the next
/// byte to look at. The records end with a zero byte each; `BadMemDb`
/// where the last one does not.
pub open spec fn spec_scan_tagged(
    region: Seq<u8>,
    start: int,
    pos: int,
    idx: int,
    wanted: Seq<u8>,
    fuzzy: bool,
) -> Result<Option<int>, ErrorKind>
    decreases region.len() - pos,
{
    if pos < 0 || pos >= region.len() {
        if start == pos {
            Ok(None)
        } else {
            Err(ErrorKind::BadMemDb)
        }
    } else if region[pos] == 0 {
        if record_matches(region.subrange(start, pos), wanted, fuzzy) {
            Ok(Some(idx))
        } else {
            spec_scan_tagged(region, pos + 1, pos + 1, idx + 1, wanted, fuzzy)
        }
    } else {
        spec_scan_tagged(region, start, pos + 1, idx, wanted, fuzzy)
    }
}

/// The UUID that stands in the table of UUIDs at the index of the first
/// tagged object name that matches.
pub open spec fn spec_find_tagged(b: Seq<u8>, wanted: Seq<u8>, fuzzy: bool) -> Result<
    Option<Uuid>,
    ErrorKind,
> {
    if !(tagged_start(b) <= tagged_end(b) <= b.len()) {
        Err(ErrorKind::BadMemDb)
    } else {
        match spec_scan_tagged(
            b.subrange(tagged_start(b), tagged_end(b)),
            0,
            0,
            0,
            wanted,
            fuzzy,
        ) {
            Err(e) => Err(e),
            Ok(None) => Ok(None),
            Ok(Some(i)) => if region_ok(b, uuids_start(b), 18 * uuids_count(b)) && i
                < uuids_count(b) {
                Ok(Some(uuid_entry(b, i).uuid))
            } else {
                Err(ErrorKind::BadMemDb)
            },
        }
    }
}

/// The tagged object name of an object and an architecture.
pub open spec fn tagged_name(object_name: Seq<char>, arch: Seq<char>) -> Seq<u8> {
    encode_utf8(object_name) + seq![58u8] + encode_utf8(arch)
}

/// What a search for an object by its UUID or by the end of its name
/// gives: where the text reads as a UUID, that UUID if the file holds
/// it; else the UUID of the first tagged object whose name ends with
/// the text.
pub open spec fn spec_find_uuid_fuzzy(b: Seq<u8>, parsed: Option<Uuid>, text: Seq<char>) -> Result<
    Option<Uuid>,
    ErrorKind,
> {
    match parsed {
        Some(uuid) => match spec_find_variant(b, uuid) {
            Err(e) => Err(e),
            Ok(Some(_)) => Ok(Some(uuid)),
            Ok(None) => Ok(None),
        },
        None => spec_find_tagged(b, encode_utf8(text), true),
    }
}

/// The symbols of the first `n` entries of a symbol index, without the
/// entries that mark an end.
pub open spec fn spec_symbols_upto(b: Seq<u8>, start: int, n: int) -> Result<
    Seq<SymbolView>,
    ErrorKind,
>
    decreases n,
{
    if n <= 0 {
        Ok(Seq::empty())
    } else {
        match spec_symbols_upto(b, start, n - 1) {
            Err(e) => Err(e),
            Ok(head) => {
                let item = index_item(b, start, n - 1);
                if item.spec_is_end_marker() {
                    Ok(head)
                } else {
                    match spec_symbol_of(b, item) {
                        Ok(s) => Ok(head.push(s)),
                        Err(e) => Err(e),
                    }
                }
            },
        }
    }
}

/// All symbols of the variant of `uuid`, in ascending order of their
/// addresses; none where the file does not hold `uuid`.
pub open spec fn spec_iter_symbols(b: Seq<u8>, uuid: Uuid) -> Result<Seq<SymbolView>, ErrorKind> {
    match spec_find_variant(b, uuid) {
        Err(e) => Err(e),
        Ok(None) => Ok(Seq::empty()),
        Ok(Some(idx)) => match spec_variant_index(b, idx) {
            Err(e) => Err(e),
            Ok((start, count)) => spec_symbols_upto(b, start, count),
        },
    }
}

/// The symbols that a vector of `Symbol`s stands for.
pub open spec fn symbols_view(v: Seq<Symbol>) -> Seq<SymbolView> {
    Seq::new(v.len(), |i: int| v[i]@)
}

/// Finds the variant of `uuid`.
fn find_variant(buf: &[u8], uuid: &Uuid) -> (r: Result<Option<usize>, ErrorKind>)
    requires
        buf@.len() >= 68,
    ensures
        match r {
            Ok(Some(idx)) => spec_find_variant(buf@, *uuid) == Ok::<Option<int>, ErrorKind>(
                Some(idx as int),
            ),
            Ok(None) => spec_find_variant(buf@, *uuid) == Ok::<Option<int>, ErrorKind>(None),
            Err(e) => spec_find_variant(buf@, *uuid) == Err::<Option<int>, ErrorKind>(e),
        },
{
    let n = buf.len();
    let start = read_u32(buf, 36);
    let count = read_u32(buf, 40);
    if !table_ok(buf, start, count, 18) {
        return Err(ErrorKind::BadMemDb);
    }
    let pos = bisect_uuids(buf, start as usize, count as usize, uuid.value);
    if pos == 0 {
        return Ok(None);
    }
    let entry = IndexedUuid::read_at(buf, start as usize + 18 * (pos - 1));
    if entry.uuid.value == uuid.value {
        Ok(Some(entry.idx()))
    } else {
        Ok(None)
    }
}

/// Finds the symbol index of the variant with index `idx`.
fn variant_index(buf: &[u8], idx: usize) -> (r: Result<(usize, usize), ErrorKind>)
    requires
        buf@.len() >= 68,
    ensures
        match r {
            Ok((start, count)) => spec_variant_index(buf@, idx as int) == Ok::<
                (int, int),
                ErrorKind,
            >((start as int, count as int)) && start + 12 * count <= buf@.len(),
            Err(e) => spec_variant_index(buf@, idx as int) == Err::<(int, int), ErrorKind>(e),
        },
{
    let n = buf.len();
    let start = read_u32(buf, 28);
    let count = read_u32(buf, 32);
    if !table_ok(buf, start, count, 8) || idx >= count as usize {
        return Err(ErrorKind::BadMemDb);
    }
    let slice = StoredSlice::read_at(buf, start as usize + 8 * idx);
    if slice.is_compressed() {
        return Err(ErrorKind::BadMemDb);
    }
    match get_data(buf, slice.offset(), slice.len()) {
        Ok(_) => Ok((slice.offset(), slice.len() / 12)),
        Err(e) => Err(e),
    }
}

/// Turns an entry of a symbol index into its symbol.
fn index_item_to_symbol(buf: &[u8], item: &IndexItem) -> (r: Result<Symbol, ErrorKind>)
    requires
        buf@.len() >= 68,
    ensures
        match r {
            Ok(s) => spec_symbol_of(buf@, *item) == Ok::<SymbolView, ErrorKind>(s@),
            Err(e) => spec_symbol_of(buf@, *item) == Err::<SymbolView, ErrorKind>(e),
        },
{
    let object_name = read_string(buf, read_u32(buf, 52), read_u32(buf, 56), item.src_id());
    let symbol = read_string(buf, read_u32(buf, 60), read_u32(buf, 64), item.sym_id());
    match (object_name, symbol) {
        (Ok(object_name), Ok(symbol)) => Ok(Symbol { object_name, symbol, addr: item.addr() }),
        _ => Err(ErrorKind::BadMemDb),
    }
}

/// Whether the name of `record` ends with `wanted`.
fn record_matches_fuzzy(record: &[u8], wanted: &[u8]) -> (r: bool)
    ensures
        r == record_matches(record@, wanted@, true),
{
    let n = record.len();
    let mut name_len: usize = n;
    let mut found = false;
    let mut i: usize = 0;
    assert(record@.take(0) =~= Seq::<u8>::empty());
    while i < n
        invariant
            0 <= i <= n,
            n == record@.len(),
            found ==> last_colon(record@.take(i as int)) == name_len && name_len < i,
            !found ==> last_colon(record@.take(i as int)) == -1 && name_len == n,
        decreases n - i,
    {
        assert(record@.take(i + 1).drop_last() =~= record@.take(i as int));
        if record[i] == 58 {
            name_len = i;
            found = true;
        }
        i += 1;
    }
    assert(record@.take(n as int) =~= record@);
    let w = wanted.len();
    if name_len < w {
        return false;
    }
    let tail = slice_subrange(record, name_len - w, name_len);
    assert(tail@ =~= record@.take(name_len as int).subrange(name_len - w, name_len as int));
    bytes_eq(tail, wanted)
}

/// Scans the tagged object names for the first one that matches.
fn scan_tagged(region: &[u8], wanted: &[u8], fuzzy: bool) -> (r: Result<Option<usize>, ErrorKind>)
    ensures
        match r {
            Ok(Some(i)) => spec_scan_tagged(region@, 0, 0, 0, wanted@, fuzzy) == Ok::<
                Option<int>,
                ErrorKind,
            >(Some(i as int)),
            Ok(None) => spec_scan_tagged(region@, 0, 0, 0, wanted@, fuzzy) == Ok::<
                Option<int>,
                ErrorKind,
            >(None),
            Err(e) => spec_scan_tagged(region@, 0, 0, 0, wanted@, fuzzy) == Err::<
                Option<int>,
                ErrorKind,
            >(e),
        },
{
    let n = region.len();
    let mut start: usize = 0;
    let mut pos: usize = 0;
    let mut idx: usize = 0;
    while pos < n
        invariant
            0 <= start <= pos <= n,
            idx <= start,
            n == region@.len(),
            spec_scan_tagged(region@, 0, 0, 0, wanted@, fuzzy) == spec_scan_tagged(
                region@,
                start as int,
                pos as int,
                idx as int,
                wanted@,
                fuzzy,
            ),
        decreases n - pos,
    {
        if region[pos] == 0 {
            let record = slice_subrange(region, start, pos);
            let found = if fuzzy {
                record_matches_fuzzy(record, wanted)
            } else {
                bytes_eq(record, wanted)
            };
            if found {
                return Ok(Some(idx));
            }
            start = pos + 1;
            idx += 1;
        }
        pos += 1;
    }
    if start == pos {
        Ok(None)
    } else {
        Err(ErrorKind::BadMemDb)
    }
}

/// Finds the UUID of the first tagged object name that matches.
fn find_tagged(buf: &[u8], wanted: &[u8], fuzzy: bool) -> (r: Result<Option<Uuid>, ErrorKind>)
    requires
        buf@.len() >= 68,
    ensures
        r == spec_find_tagged(buf@, wanted@, fuzzy),
{
    let n = buf.len();
    let ts = read_u32(buf, 44) as usize;
    let te = read_u32(buf, 48) as usize;
    if !(ts <= te && te <= n) {
        return Err(ErrorKind::BadMemDb);
    }
    let region = slice_subrange(buf, ts, te);
    match scan_tagged(region, wanted, fuzzy) {
        Err(e) => Err(e),
        Ok(None) => Ok(None),
        Ok(Some(i)) => {
            let start = read_u32(buf, 36);
            let count = read_u32(buf, 40);
            if table_ok(buf, start, count, 18) && i < count as usize {
                Ok(Some(IndexedUuid::read_at(buf, start as usize + 18 * i).uuid))
            } else {
                Err(ErrorKind::BadMemDb)
            }
        },
    }
}

impl<'a> MemDb<'a> {
    #[verifier::type_invariant]
    spec fn inv(&self) -> bool {
        spec_open(self@) == Ok::<SdkInfoView, ErrorKind>(self.info@)
    }

    /// The bytes of the file.
    fn buffer(&self) -> (r: &[u8])
        ensures
            r@ == self@,
    {
        match &self.backing {
            Backing::Buf(b) => b,
            Backing::Owned(v) => v.as_slice(),
        }
    }

    /// Opens the bytes behind `backing`.
    fn load_memdb(backing: Backing<'a>) -> (r: Result<MemDb<'a>, ErrorKind>)
        ensures
            match r {
                Ok(db) => db@ == (match backing {
                    Backing::Buf(b) => b@,
                    Backing::Owned(v) => v@,
                }) && spec_open(db@) == Ok::<SdkInfoView, ErrorKind>(db.spec_info()),
                Err(e) => spec_open(
                    match backing {
                        Backing::Buf(b) => b@,
                        Backing::Owned(v) => v@,
                    },
                ) == Err::<SdkInfoView, ErrorKind>(e),
            },
    {
        let buf: &[u8] = match &backing {
            Backing::Buf(b) => b,
            Backing::Owned(v) => v.as_slice(),
        };
        if buf.len() < 68 {
            return Err(ErrorKind::BadMemDb);
        }
        let header = MemDbHeader::read_from(buf);
        if header.version != MEMDB_VERSION {
            return Err(ErrorKind::UnsupportedMemDbVersion);
        }
        let info = match header.sdk_info.to_sdk_info() {
            Some(info) => info,
            None => {
                return Err(ErrorKind::BadMemDb);
            },
        };
        Ok(MemDb { info, backing })
    }

    /// The SDK that the header of the file describes.
    pub closed spec fn spec_info(&self) -> SdkInfoView {
        self.info@
    }

    /// Constructs a memdb object from a byte slice.
    ///
    /// Fails with `BadMemDb` where the buffer is shorter than a header
    /// or the header holds no readable SDK, and with
    /// `UnsupportedMemDbVersion` where the version is not the supported
    /// one.
    pub fn from_slice(buffer: &'a [u8]) -> (r: Result<MemDb<'a>, ErrorKind>)
        ensures
            match r {
                Ok(db) => db@ == buffer@ && spec_open(buffer@) == Ok::<SdkInfoView, ErrorKind>(
                    db.spec_info(),
                ),
                Err(e) => spec_open(buffer@) == Err::<SdkInfoView, ErrorKind>(e),
            },
    {
        MemDb::load_memdb(Backing::Buf(buffer))
    }

    /// Constructs a memdb object from a byte vector.
    pub fn from_vec(buffer: Vec<u8>) -> (r: Result<MemDb<'a>, ErrorKind>)
        ensures
            match r {
                Ok(db) => db@ == buffer@ && spec_open(buffer@) == Ok::<SdkInfoView, ErrorKind>(
                    db.spec_info(),
                ),
                Err(e) => spec_open(buffer@) == Err::<SdkInfoView, ErrorKind>(e),
            },
    {
        MemDb::load_memdb(Backing::Owned(buffer))
    }

    /// Return the SDK info.
    pub fn info(&self) -> (r: &SdkInfo)
        ensures
            r@ == self.spec_info(),
            spec_open(self@) == Ok::<SdkInfoView, ErrorKind>(r@),
    {
        proof {
            use_type_invariant(self);
        }
        &self.info
    }

    /// The bytes `start..start + len` of the file, or `BadMemDb` where
    /// they do not all lie within it.
    pub fn get_data(&self, start: usize, len: usize) -> (r: Result<&[u8], ErrorKind>)
        ensures
            match r {
                Ok(data) => region_ok(self@, start as int, len as int) && data@
                    == self@.subrange(start as int, start + len),
                Err(e) => e == ErrorKind::BadMemDb && !region_ok(self@, start as int, len as int),
            },
    {
        get_data(self.buffer(), start, len)
    }

    /// Finds a symbol by UUID and address, and says what is wrong with
    /// the file where something is.
    pub fn lookup_impl(&self, uuid: &Uuid, addr: u64) -> (r: Result<Option<Symbol>, ErrorKind>)
        ensures
            lookup_view(r) == spec_lookup(self@, *uuid, addr),
    {
        proof {
            use_type_invariant(self);
        }
        let buf = self.buffer();
        let idx = match find_variant(buf, uuid) {
            Err(e) => {
                return Err(e);
            },
            Ok(None) => {
                return Ok(None);
            },
            Ok(Some(idx)) => idx,
        };
        let (start, count) = match variant_index(buf, idx) {
            Err(e) => {
                return Err(e);
            },
            Ok(x) => x,
        };
        let pos = bisect_items(buf, start, count, addr);
        if pos == 0 {
            return Ok(None);
        }
        let n = buf.len();
        let item = IndexItem::read_at(buf, start + 12 * (pos - 1));
        if item.is_end_marker() {
            return Ok(None);
        }
        match index_item_to_symbol(buf, &item) {
            Ok(s) => Ok(Some(s)),
            Err(e) => Err(e),
        }
    }

    /// Finds a symbol by UUID and address.
    ///
    /// Returns `None` also where the file is damaged.
    pub fn lookup_by_uuid(&self, uuid: &Uuid, addr: u64) -> (r: Option<Symbol>)
        ensures
            opt_symbol_view(r) == match spec_lookup(self@, *uuid, addr) {
                Ok(found) => found,
                Err(_) => None,
            },
    {
        match self.lookup_impl(uuid, addr) {
            Ok(found) => found,
            Err(_) => None,
        }
    }

    /// Finds the UUID of an object by its name and architecture.
    pub fn find_uuid(&self, object_name: &str, arch: &str) -> (r: Result<Option<Uuid>, ErrorKind>)
        ensures
            r == spec_find_tagged(self@, tagged_name(object_name@, arch@), false),
    {
        proof {
            use_type_invariant(self);
        }
        let mut wanted: Vec<u8> = Vec::new();
        crate::memdb::types::push_bytes(&mut wanted, object_name.as_bytes());
        wanted.push(58u8);
        crate::memdb::types::push_bytes(&mut wanted, arch.as_bytes());
        assert(wanted@ =~= tagged_name(object_name@, arch@));
        find_tagged(self.buffer(), wanted.as_slice(), false)
    }

    /// Finds a symbol by object name and architecture
    ///
    /// Returns `None` also where the file is damaged.
    pub fn lookup_by_object_name(&self, object_name: &str, arch: &str, addr: u64) -> (r: Option<
        Symbol,
    >)
        ensures
            opt_symbol_view(r) == match spec_find_tagged(
                self@,
                tagged_name(object_name@, arch@),
                false,
            ) {
                Ok(Some(uuid)) => match spec_lookup(self@, uuid, addr) {
                    Ok(found) => found,
                    Err(_) => None,
                },
                _ => None,
            },
    {
        match self.find_uuid(object_name, arch) {
            Ok(Some(uuid)) => self.lookup_by_uuid(&uuid, addr),
            _ => None,
        }
    }

    /// Finds an object by what `parsed` says its UUID is, or, where
    /// `parsed` is `None`, by the end of its name.
    pub fn find_uuid_fuzzy_with(&self, parsed: Option<Uuid>, name_or_uuid: &str) -> (r: Result<
        Option<Uuid>,
        ErrorKind,
    >)
        ensures
            r == spec_find_uuid_fuzzy(self@, parsed, name_or_uuid@),
    {
        proof {
            use_type_invariant(self);
        }
        match parsed {
            Some(uuid) => match find_variant(self.buffer(), &uuid) {
                Err(e) => Err(e),
                Ok(Some(_)) => Ok(Some(uuid)),
                Ok(None) => Ok(None),
            },
            None => find_tagged(self.buffer(), name_or_uuid.as_bytes(), true),
        }
    }

    /// Finds an object by its UUID, written as text, or by the end of
    /// its name.
    pub fn find_uuid_fuzzy(&self, name_or_uuid: &str) -> (r: Result<Option<Uuid>, ErrorKind>)
        ensures
            r == spec_find_uuid_fuzzy(
                self@,
                match crate::memdb::types::uuid_parse_result(name_or_uuid@) {
                    Some(value) => Some(Uuid { value }),
                    None => None,
                },
                name_or_uuid@,
            ),
    {
        self.find_uuid_fuzzy_with(Uuid::parse_str(name_or_uuid), name_or_uuid)
    }

    /// All symbols of the variant of `uuid`, in the order of the file.
    pub fn iter_symbols(&self, uuid: &Uuid) -> (r: Result<Vec<Symbol>, ErrorKind>)
        ensures
            match r {
                Ok(v) => spec_iter_symbols(self@, *uuid) == Ok::<Seq<SymbolView>, ErrorKind>(
                    symbols_view(v@),
                ),
                Err(e) => spec_iter_symbols(self@, *uuid) == Err::<Seq<SymbolView>, ErrorKind>(e),
            },
    {
        proof {
            use_type_invariant(self);
        }
        let buf = self.buffer();
        let idx = match find_variant(buf, uuid) {
            Err(e) => {
                return Err(e);
            },
            Ok(None) => {
                let out: Vec<Symbol> = Vec::new();
                assert(symbols_view(out@) =~= Seq::<SymbolView>::empty());
                return Ok(out);
            },
            Ok(Some(idx)) => idx,
        };
        let (start, count) = match variant_index(buf, idx) {
            Err(e) => {
                return Err(e);
            },
            Ok(x) => x,
        };
        symbols_of_index(buf, start, count)
    }
}

/// Reads the symbols of a symbol index.
fn symbols_of_index(buf: &[u8], start: usize, count: usize) -> (r: Result<Vec<Symbol>, ErrorKind>)
    requires
        buf@.len() >= 68,
        start + 12 * count <= buf@.len(),
    ensures
        match r {
            Ok(v) => spec_symbols_upto(buf@, start as int, count as int) == Ok::<
                Seq<SymbolView>,
                ErrorKind,
            >(symbols_view(v@)),
            Err(e) => spec_symbols_upto(buf@, start as int, count as int) == Err::<
                Seq<SymbolView>,
                ErrorKind,
            >(e),
        },
{
    let mut out: Vec<Symbol> = Vec::new();
    let n = buf.len();
    let mut i: usize = 0;
    assert(symbols_view(out@) =~= Seq::<SymbolView>::empty());
    while i < count
        invariant
            0 <= i <= count,
            n == buf@.len(),
            buf@.len() >= 68,
            start + 12 * count <= buf@.len(),
            spec_symbols_upto(buf@, start as int, i as int) == Ok::<Seq<SymbolView>, ErrorKind>(
                symbols_view(out@),
            ),
        decreases count - i,
    {
        let item = IndexItem::read_at(buf, start + 12 * i);
        if !item.is_end_marker() {
            match index_item_to_symbol(buf, &item) {
                Ok(s) => {
                    let ghost before = symbols_view(out@);
                    out.push(s);
                    assert(symbols_view(out@) =~= before.push(s@));
                },
                Err(e) => {
                    proof {
                        lemma_symbols_upto_err(buf@, start as int, i + 1, count as int);
                    }
                    return Err(e);
                },
            }
        }
        i += 1;
    }
    Ok(out)
}

/// Once the symbols of the first entries cannot be read, those of more
/// entries cannot be read either.
pub proof fn lemma_symbols_upto_err(b: Seq<u8>, start: int, k: int, n: int)
    requires
        0 <= k <= n,
        spec_symbols_upto(b, start, k) is Err,
    ensures
        spec_symbols_upto(b, start, n) == spec_symbols_upto(b, start, k),
    decreases n - k,
{
    if k < n {
        lemma_symbols_upto_err(b, start, k, n - 1);
    }
}

/// A lookup is a function of the bytes of the file and of what is
/// looked for: two lookups on the same bytes with the same UUID and the
/// same address give the same result, whenever and wherever they run.
pub proof fn lemma_lookup_is_pure(
    first: Seq<u8>,
    second: Seq<u8>,
    uuid: Uuid,
    addr: u64,
    r1: Result<Option<SymbolView>, ErrorKind>,
    r2: Result<Option<SymbolView>, ErrorKind>,
)
    requires
        first == second,
        r1 == spec_lookup(first, uuid, addr),
        r2 == spec_lookup(second, uuid, addr),
    ensures
        r1 == r2,
{
}

} // verus!
