//! The fixed-layout records of a memdb file and their bytes.
//!
//! All integers are stored little-endian and all records are packed
//! without padding. A UUID is stored as its sixteen bytes in order.
use vstd::prelude::*;
use vstd::utf8::{decode_utf8, encode_utf8, valid_utf8};
use vstd::string::StringSliceAdditionalSpecFns;
use crate::sdk::{opt_info_view, SdkInfo, SdkInfoView};
use crate::text::string_from_utf8;

verus! {

/// The version of the format that this library reads and writes.
pub const MEMDB_VERSION: u32 = 2;

/// The number of bytes of the header.
pub const HEADER_SIZE: usize = 68;

/// The number of bytes of a stored slice.
pub const STORED_SLICE_SIZE: usize = 8;

/// The number of bytes of an entry of the UUID table.
pub const INDEXED_UUID_SIZE: usize = 18;

/// The number of bytes of an entry of a symbol index.
pub const INDEX_ITEM_SIZE: usize = 12;

/// The symbol id of the entry that marks the end of a variant.
pub const END_MARKER_SYM_ID: u32 = 0xffff_ffff;

/// The number that two bytes at `at` spell, least significant byte first.
pub open spec fn spec_le16(b: Seq<u8>, at: int) -> int {
    b[at] as int + 256 * (b[at + 1] as int)
}

/// The number that four bytes at `at` spell, least significant byte first.
pub open spec fn spec_le32(b: Seq<u8>, at: int) -> int {
    b[at] as int + 256 * (b[at + 1] as int) + 65536 * (b[at + 2] as int) + 16777216 * (b[at
        + 3] as int)
}

/// The two bytes of `v`, least significant byte first.
pub open spec fn le16_bytes(v: u16) -> Seq<u8> {
    seq![(v % 256) as u8, (v / 256) as u8]
}

/// The four bytes of `v`, least significant byte first.
pub open spec fn le32_bytes(v: u32) -> Seq<u8> {
    seq![
        (v % 256) as u8,
        (v / 256 % 256) as u8,
        (v / 65536 % 256) as u8,
        (v / 16777216) as u8,
    ]
}

/// The number that the bytes of `s` spell, most significant byte first.
pub open spec fn be_value(s: Seq<u8>) -> nat
    decreases s.len(),
{
    if s.len() == 0 {
        0
    } else {
        256 * be_value(s.drop_last()) + s.last() as nat
    }
}

/// The last `n` bytes of `v`, most significant byte first.
pub open spec fn be_bytes(v: nat, n: nat) -> Seq<u8>
    decreases n,
{
    if n == 0 {
        Seq::empty()
    } else {
        be_bytes(v / 256, (n - 1) as nat).push((v % 256) as u8)
    }
}

/// 256 to the power of `n`.
pub open spec fn pow256(n: nat) -> nat
    decreases n,
{
    if n == 0 {
        1
    } else {
        256 * pow256((n - 1) as nat)
    }
}

/// Sixteen bytes hold the numbers below two to the power of 128.
pub proof fn lemma_pow256_16()
    ensures
        pow256(8) == 0x1_0000_0000_0000_0000,
        pow256(16) == 0x1_0000_0000_0000_0000_0000_0000_0000_0000,
{
    assert(pow256(1) == 256) by {
        assert(pow256(0) == 1);
    }
    assert(pow256(2) == 0x1_0000);
    assert(pow256(3) == 0x100_0000);
    assert(pow256(4) == 0x1_0000_0000);
    assert(pow256(5) == 0x100_0000_0000);
    assert(pow256(6) == 0x1_0000_0000_0000);
    assert(pow256(7) == 0x100_0000_0000_0000);
    assert(pow256(8) == 0x1_0000_0000_0000_0000);
    assert(pow256(9) == 0x100_0000_0000_0000_0000);
    assert(pow256(10) == 0x1_0000_0000_0000_0000_0000);
    assert(pow256(11) == 0x100_0000_0000_0000_0000_0000);
    assert(pow256(12) == 0x1_0000_0000_0000_0000_0000_0000);
    assert(pow256(13) == 0x100_0000_0000_0000_0000_0000_0000);
    assert(pow256(14) == 0x1_0000_0000_0000_0000_0000_0000_0000);
    assert(pow256(15) == 0x100_0000_0000_0000_0000_0000_0000_0000);
}

/// What `n` bytes spell is below 256 to the power of `n`.
pub proof fn lemma_be_value_bound(s: Seq<u8>)
    ensures
        be_value(s) < pow256(s.len()),
    decreases s.len(),
{
    if s.len() > 0 {
        lemma_be_value_bound(s.drop_last());
    }
}

/// The bytes of a number spell that number.
pub proof fn lemma_be_roundtrip(v: nat, n: nat)
    requires
        v < pow256(n),
    ensures
        be_bytes(v, n).len() == n,
        be_value(be_bytes(v, n)) == v,
    decreases n,
{
    if n > 0 {
        lemma_be_roundtrip(v / 256, (n - 1) as nat);
        assert(be_bytes(v, n).drop_last() =~= be_bytes(v / 256, (n - 1) as nat));
    }
}

/// Reads two bytes at `at`, least significant byte first.
pub fn read_u16(buf: &[u8], at: usize) -> (r: u16)
    requires
        at + 2 <= buf@.len(),
    ensures
        r == spec_le16(buf@, at as int),
{
    buf[at] as u16 + 256 * (buf[at + 1] as u16)
}

/// Reads four bytes at `at`, least significant byte first.
pub fn read_u32(buf: &[u8], at: usize) -> (r: u32)
    requires
        at + 4 <= buf@.len(),
    ensures
        r == spec_le32(buf@, at as int),
{
    buf[at] as u32 + 256 * (buf[at + 1] as u32) + 65536 * (buf[at + 2] as u32) + 16777216 * (
    buf[at + 3] as u32)
}

/// Reads `n` bytes at `at`, most significant byte first.
pub fn read_be(buf: &[u8], at: usize, n: usize) -> (r: u128)
    requires
        n <= 16,
        at + n <= buf@.len(),
    ensures
        r == be_value(buf@.subrange(at as int, at + n)),
{
    let ghost s = buf@.subrange(at as int, at + n);
    let len = buf.len();
    let mut acc: u128 = 0;
    let mut i: usize = 0;
    while i < n
        invariant
            0 <= i <= n <= 16,
            len == buf@.len(),
            at + n <= buf@.len(),
            s == buf@.subrange(at as int, at + n),
            acc == be_value(s.take(i as int)),
        decreases n - i,
    {
        proof {
            lemma_be_value_bound(s.take(i as int));
            lemma_be_value_bound(s.take(i + 1));
            lemma_pow256_monotone((i + 1) as nat, 16);
            lemma_pow256_16();
            assert(s.take(i + 1).drop_last() =~= s.take(i as int));
        }
        acc = acc * 256 + buf[at + i] as u128;
        i += 1;
    }
    assert(s.take(n as int) =~= s);
    acc
}

/// A higher power of 256 is not smaller.
pub proof fn lemma_pow256_monotone(a: nat, b: nat)
    requires
        a <= b,
    ensures
        pow256(a) <= pow256(b),
        pow256(a) >= 1,
    decreases b,
{
    if a < b {
        lemma_pow256_monotone(a, (b - 1) as nat);
    } else if a > 0 {
        lemma_pow256_monotone((a - 1) as nat, (a - 1) as nat);
    }
}

/// Appends the two bytes of `v`, least significant byte first.
pub fn push_u16(out: &mut Vec<u8>, v: u16)
    ensures
        final(out)@ == old(out)@ + le16_bytes(v),
{
    out.push((v % 256) as u8);
    out.push((v / 256) as u8);
    assert(final(out)@ =~= old(out)@ + le16_bytes(v));
}

/// Appends the four bytes of `v`, least significant byte first.
pub fn push_u32(out: &mut Vec<u8>, v: u32)
    ensures
        final(out)@ == old(out)@ + le32_bytes(v),
{
    out.push((v % 256) as u8);
    out.push((v / 256 % 256) as u8);
    out.push((v / 65536 % 256) as u8);
    out.push((v / 16777216) as u8);
    assert(final(out)@ =~= old(out)@ + le32_bytes(v));
}

/// Appends the last `n` bytes of `v`, most significant byte first.
pub fn push_be(out: &mut Vec<u8>, v: u128, n: usize)
    ensures
        final(out)@ == old(out)@ + be_bytes(v as nat, n as nat),
    decreases n,
{
    if n > 0 {
        push_be(out, v / 256, n - 1);
        out.push((v % 256) as u8);
    }
    assert(final(out)@ =~= old(out)@ + be_bytes(v as nat, n as nat));
}

/// The two bytes of a number, found at `at`, spell the number.
pub proof fn lemma_le16_at(b: Seq<u8>, at: int, v: u16)
    requires
        0 <= at,
        at + 2 <= b.len(),
        b.subrange(at, at + 2) == le16_bytes(v),
    ensures
        spec_le16(b, at) == v,
{
    let s = b.subrange(at, at + 2);
    assert(b[at] == s[0]);
    assert(b[at + 1] == s[1]);
}

/// The four bytes of a number, found at `at`, spell the number.
pub proof fn lemma_le32_at(b: Seq<u8>, at: int, v: u32)
    requires
        0 <= at,
        at + 4 <= b.len(),
        b.subrange(at, at + 4) == le32_bytes(v),
    ensures
        spec_le32(b, at) == v,
{
    let s = b.subrange(at, at + 4);
    assert(b[at] == s[0]);
    assert(b[at + 1] == s[1]);
    assert(b[at + 2] == s[2]);
    assert(b[at + 3] == s[3]);
}

/// The identifier of one architecture-specific slice of an object file:
/// sixteen bytes, held as the number that they spell, most significant
/// byte first. Two identifiers compare as their bytes do.
#[derive(Clone, Copy, Debug, PartialEq, Eq, Structural)]
pub struct Uuid {
    pub value: u128,
}

/// What `uuid::Uuid::parse_str` makes of a text: the number that the
/// sixteen bytes of the parsed identifier spell, most significant byte
/// first, or `None` where the text is refused.
pub uninterp spec fn uuid_parse_result(s: Seq<char>) -> Option<u128>;

/// Calls `uuid::Uuid::parse_str`, which reads a run of hexadecimal
/// digits with optional hyphens, in any of the spellings that the crate
/// writes. The contract names the result and says nothing of it.
#[verifier::external_body]
fn uuid_parse(s: &str) -> (r: Option<u128>)
    ensures
        r == uuid_parse_result(s@),
{
    uuid::Uuid::parse_str(s).ok().map(|u| u.as_u128())
}

impl Uuid {
    /// The identifier whose bytes spell `value`.
    pub fn from_u128(value: u128) -> (r: Uuid)
        ensures
            r.value == value,
    {
        Uuid { value }
    }

    /// The number that the bytes of the identifier spell.
    pub fn as_u128(&self) -> (r: u128)
        ensures
            r == self.value,
    {
        self.value
    }

    /// Reads an identifier from its text.
    pub fn parse_str(s: &str) -> (r: Option<Uuid>)
        ensures
            r == match uuid_parse_result(s@) {
                Some(value) => Some(Uuid { value }),
                None => None,
            },
    {
        match uuid_parse(s) {
            Some(value) => Some(Uuid { value }),
            None => None,
        }
    }

    /// The sixteen bytes of the identifier.
    pub open spec fn spec_bytes(self) -> Seq<u8> {
        be_bytes(self.value as nat, 16)
    }
}

/// A stored slice that points to a memory region in the memdb file
#[derive(Clone, Copy, Debug, PartialEq, Eq, Structural)]
pub struct StoredSlice {
    pub offset: u32,
    pub len: u32,
}

/// For the UUID index this points to a variant by index
#[derive(Clone, Copy, Debug, PartialEq, Eq, Structural)]
pub struct IndexedUuid {
    pub uuid: Uuid,
    pub idx: u16,
}

/// A symbol in the index
#[derive(Clone, Copy, Debug, PartialEq, Eq, Structural)]
pub struct IndexItem {
    pub addr_low: u32,
    pub addr_high: u16,
    pub src_id: u16,
    pub sym_id: u32,
}

impl StoredSlice {
    /// The offset of the region in bytes.
    pub open spec fn spec_offset(self) -> int {
        self.offset as int
    }

    /// The length of the region in bytes: the low 31 bits of the field.
    pub open spec fn spec_len(self) -> int {
        self.len as int % 0x8000_0000
    }

    /// The high bit of the length field, reserved for compression.
    pub open spec fn spec_is_compressed(self) -> bool {
        self.len >= 0x8000_0000
    }

    /// The eight bytes of the record.
    pub open spec fn spec_encode(self) -> Seq<u8> {
        le32_bytes(self.offset) + le32_bytes(self.len)
    }

    /// The record that the eight bytes at `at` hold.
    pub open spec fn spec_decode(b: Seq<u8>, at: int) -> StoredSlice {
        StoredSlice { offset: spec_le32(b, at) as u32, len: spec_le32(b, at + 4) as u32 }
    }

    /// Creates a new stored slice
    ///
    /// Offset and length are cut to their 32 and 31 bits; the flag is
    /// set where `is_compressed` is, or where bit 31 of `len` is.
    pub fn new(offset: usize, len: usize, is_compressed: bool) -> (r: StoredSlice)
        ensures
            r.spec_offset() == offset as int % 0x1_0000_0000,
            r.spec_len() == len % 0x8000_0000,
            r.spec_is_compressed() == (is_compressed || (len / 0x8000_0000) % 2 == 1),
    {
        let low: u32 = (len % 0x8000_0000) as u32;
        let flag = is_compressed || (len / 0x8000_0000) % 2 == 1;
        StoredSlice {
            offset: (offset as u64 % 0x1_0000_0000) as u32,
            len: if flag {
                low + 0x8000_0000
            } else {
                low
            },
        }
    }

    /// Returns the offset of the stored slice as bytes
    pub fn offset(&self) -> (r: usize)
        ensures
            r == self.spec_offset(),
    {
        self.offset as usize
    }

    /// Returns the length of the stored slice
    pub fn len(&self) -> (r: usize)
        ensures
            r == self.spec_len(),
    {
        (self.len % 0x8000_0000) as usize
    }

    /// Indicates that the string is compressed (currently not used)
    pub fn is_compressed(&self) -> (r: bool)
        ensures
            r == self.spec_is_compressed(),
    {
        self.len >= 0x8000_0000
    }

    /// Appends the bytes of the record.
    pub fn write_to(&self, out: &mut Vec<u8>)
        ensures
            final(out)@ == old(out)@ + self.spec_encode(),
    {
        push_u32(out, self.offset);
        push_u32(out, self.len);
        assert(final(out)@ =~= old(out)@ + self.spec_encode());
    }

    /// Reads the record at `at`.
    pub fn read_at(buf: &[u8], at: usize) -> (r: StoredSlice)
        requires
            at + 8 <= buf@.len(),
        ensures
            r == Self::spec_decode(buf@, at as int),
    {
        let _len = buf.len();
        StoredSlice { offset: read_u32(buf, at), len: read_u32(buf, at + 4) }
    }

    /// The bytes of a record, found at `at`, hold the record.
    pub proof fn lemma_decode_encode(self, b: Seq<u8>, at: int)
        requires
            0 <= at,
            at + 8 <= b.len(),
            b.subrange(at, at + 8) == self.spec_encode(),
        ensures
            Self::spec_decode(b, at) == self,
    {
        let s = b.subrange(at, at + 8);
        assert(b.subrange(at, at + 4) =~= le32_bytes(self.offset)) by {
            assert forall|i: int| 0 <= i < 4 implies b.subrange(at, at + 4)[i] == le32_bytes(
                self.offset,
            )[i] by {
                assert(b[at + i] == s[i]);
            }
        }
        assert(b.subrange(at + 4, at + 8) =~= le32_bytes(self.len)) by {
            assert forall|i: int| 0 <= i < 4 implies b.subrange(at + 4, at + 8)[i] == le32_bytes(
                self.len,
            )[i] by {
                assert(b[at + 4 + i] == s[4 + i]);
            }
        }
        lemma_le32_at(b, at, self.offset);
        lemma_le32_at(b, at + 4, self.len);
    }
}

impl IndexedUuid {
    /// The eighteen bytes of the record.
    pub open spec fn spec_encode(self) -> Seq<u8> {
        self.uuid.spec_bytes() + le16_bytes(self.idx)
    }

    /// The record that the eighteen bytes at `at` hold.
    pub open spec fn spec_decode(b: Seq<u8>, at: int) -> IndexedUuid {
        IndexedUuid {
            uuid: Uuid { value: be_value(b.subrange(at, at + 16)) as u128 },
            idx: spec_le16(b, at + 16) as u16,
        }
    }

    /// Pairs a UUID with the index of its variant, cut to 16 bits.
    pub fn new(uuid: &Uuid, idx: usize) -> (r: IndexedUuid)
        ensures
            r.uuid == *uuid,
            r.idx == idx % 0x1_0000,
    {
        IndexedUuid { uuid: *uuid, idx: (idx % 0x1_0000) as u16 }
    }

    /// The UUID of the variant.
    pub fn uuid(&self) -> (r: &Uuid)
        ensures
            *r == self.uuid,
    {
        &self.uuid
    }

    /// The index of the variant in the table of variants.
    pub fn idx(&self) -> (r: usize)
        ensures
            r == self.idx,
    {
        self.idx as usize
    }

    /// Appends the bytes of the record.
    pub fn write_to(&self, out: &mut Vec<u8>)
        ensures
            final(out)@ == old(out)@ + self.spec_encode(),
    {
        push_be(out, self.uuid.value, 16);
        push_u16(out, self.idx);
        assert(final(out)@ =~= old(out)@ + self.spec_encode());
    }

    /// Reads the record at `at`.
    pub fn read_at(buf: &[u8], at: usize) -> (r: IndexedUuid)
        requires
            at + 18 <= buf@.len(),
        ensures
            r == Self::spec_decode(buf@, at as int),
    {
        let _len = buf.len();
        IndexedUuid { uuid: Uuid { value: read_be(buf, at, 16) }, idx: read_u16(buf, at + 16) }
    }

    /// The bytes of a record, found at `at`, hold the record.
    pub proof fn lemma_decode_encode(self, b: Seq<u8>, at: int)
        requires
            0 <= at,
            at + 18 <= b.len(),
            b.subrange(at, at + 18) == self.spec_encode(),
        ensures
            Self::spec_decode(b, at) == self,
    {
        let s = b.subrange(at, at + 18);
        lemma_pow256_16();
        lemma_be_roundtrip(self.uuid.value as nat, 16);
        assert(b.subrange(at, at + 16) =~= self.uuid.spec_bytes()) by {
            assert forall|i: int| 0 <= i < 16 implies b.subrange(at, at + 16)[i]
                == self.uuid.spec_bytes()[i] by {
                assert(b[at + i] == s[i]);
            }
        }
        assert(b.subrange(at + 16, at + 18) =~= le16_bytes(self.idx)) by {
            assert forall|i: int| 0 <= i < 2 implies b.subrange(at + 16, at + 18)[i]
                == le16_bytes(self.idx)[i] by {
                assert(b[at + 16 + i] == s[16 + i]);
            }
        }
        lemma_le16_at(b, at + 16, self.idx);
    }
}

impl IndexItem {
    /// The address of the symbol, relative to the start of the image:
    /// 48 bits.
    pub open spec fn spec_addr(self) -> int {
        self.addr_high as int * 0x1_0000_0000 + self.addr_low as int
    }

    /// Whether the entry marks the end of its variant.
    pub open spec fn spec_is_end_marker(self) -> bool {
        self.sym_id == END_MARKER_SYM_ID
    }

    /// The twelve bytes of the record.
    pub open spec fn spec_encode(self) -> Seq<u8> {
        le32_bytes(self.addr_low) + le16_bytes(self.addr_high) + le16_bytes(self.src_id)
            + le32_bytes(self.sym_id)
    }

    /// The record that the twelve bytes at `at` hold.
    pub open spec fn spec_decode(b: Seq<u8>, at: int) -> IndexItem {
        IndexItem {
            addr_low: spec_le32(b, at) as u32,
            addr_high: spec_le16(b, at + 4) as u16,
            src_id: spec_le16(b, at + 6) as u16,
            sym_id: spec_le32(b, at + 8) as u32,
        }
    }

    /// The record has twelve bytes.
    pub proof fn lemma_encode_len(self)
        ensures
            self.spec_encode().len() == 12,
    {
    }

    /// The entry for a symbol: the address cut to 48 bits, the ids to
    /// 16 and 32 bits.
    pub open spec fn spec_new(addr: int, src_id: int, sym_id: int) -> IndexItem {
        IndexItem {
            addr_low: (addr % 0x1_0000_0000) as u32,
            addr_high: (addr / 0x1_0000_0000 % 0x1_0000) as u16,
            src_id: (src_id % 0x1_0000) as u16,
            sym_id: (sym_id % 0x1_0000_0000) as u32,
        }
    }

    /// The entry that marks the end of a variant at `addr`.
    pub open spec fn spec_end_marker(addr: int, src_id: int) -> IndexItem {
        IndexItem {
            addr_low: (addr % 0x1_0000_0000) as u32,
            addr_high: (addr / 0x1_0000_0000 % 0x1_0000) as u16,
            src_id: (src_id % 0x1_0000) as u16,
            sym_id: END_MARKER_SYM_ID,
        }
    }

    /// Creates a new indexed symbol in the index
    ///
    /// The address is cut to 48 bits, the ids to 16 and 32 bits.
    pub fn new(addr: u64, src_id: usize, sym_id: usize) -> (r: IndexItem)
        ensures
            r == Self::spec_new(addr as int, src_id as int, sym_id as int),
            r.spec_addr() == addr % 0x1_0000_0000_0000,
            r.src_id == src_id % 0x1_0000,
            r.sym_id == sym_id as int % 0x1_0000_0000,
    {
        IndexItem {
            addr_low: (addr % 0x1_0000_0000) as u32,
            addr_high: (addr / 0x1_0000_0000 % 0x1_0000) as u16,
            src_id: (src_id % 0x1_0000) as u16,
            sym_id: (sym_id as u64 % 0x1_0000_0000) as u32,
        }
    }

    /// Creates the entry that marks the end of a variant at `addr`.
    pub fn end_marker(addr: u64, src_id: usize) -> (r: IndexItem)
        ensures
            r == Self::spec_end_marker(addr as int, src_id as int),
            r.spec_addr() == addr % 0x1_0000_0000_0000,
            r.src_id == src_id % 0x1_0000,
            r.spec_is_end_marker(),
    {
        IndexItem {
            addr_low: (addr % 0x1_0000_0000) as u32,
            addr_high: (addr / 0x1_0000_0000 % 0x1_0000) as u16,
            src_id: (src_id % 0x1_0000) as u16,
            sym_id: END_MARKER_SYM_ID,
        }
    }

    /// The address of the symbol
    pub fn addr(&self) -> (r: u64)
        ensures
            r == self.spec_addr(),
    {
        (self.addr_high as u64) * 0x1_0000_0000 + (self.addr_low as u64)
    }

    /// The ID of the source variant
    pub fn src_id(&self) -> (r: usize)
        ensures
            r == self.src_id,
    {
        self.src_id as usize
    }

    /// The ID of the symbol
    pub fn sym_id(&self) -> (r: usize)
        ensures
            r == self.sym_id,
    {
        self.sym_id as usize
    }

    /// Whether the entry marks the end of its variant.
    pub fn is_end_marker(&self) -> (r: bool)
        ensures
            r == self.spec_is_end_marker(),
    {
        self.sym_id == END_MARKER_SYM_ID
    }

    /// Appends the bytes of the record.
    pub fn write_to(&self, out: &mut Vec<u8>)
        ensures
            final(out)@ == old(out)@ + self.spec_encode(),
    {
        push_u32(out, self.addr_low);
        push_u16(out, self.addr_high);
        push_u16(out, self.src_id);
        push_u32(out, self.sym_id);
        assert(final(out)@ =~= old(out)@ + self.spec_encode());
    }

    /// Reads the record at `at`.
    pub fn read_at(buf: &[u8], at: usize) -> (r: IndexItem)
        requires
            at + 12 <= buf@.len(),
        ensures
            r == Self::spec_decode(buf@, at as int),
    {
        let _len = buf.len();
        IndexItem {
            addr_low: read_u32(buf, at),
            addr_high: read_u16(buf, at + 4),
            src_id: read_u16(buf, at + 6),
            sym_id: read_u32(buf, at + 8),
        }
    }

    /// The bytes of a record, found at `at`, hold the record.
    pub proof fn lemma_decode_encode(self, b: Seq<u8>, at: int)
        requires
            0 <= at,
            at + 12 <= b.len(),
            b.subrange(at, at + 12) == self.spec_encode(),
        ensures
            Self::spec_decode(b, at) == self,
    {
        let s = b.subrange(at, at + 12);
        assert(b.subrange(at, at + 4) =~= le32_bytes(self.addr_low)) by {
            assert forall|i: int| 0 <= i < 4 implies b.subrange(at, at + 4)[i] == le32_bytes(
                self.addr_low,
            )[i] by {
                assert(b[at + i] == s[i]);
            }
        }
        assert(b.subrange(at + 4, at + 6) =~= le16_bytes(self.addr_high)) by {
            assert forall|i: int| 0 <= i < 2 implies b.subrange(at + 4, at + 6)[i] == le16_bytes(
                self.addr_high,
            )[i] by {
                assert(b[at + 4 + i] == s[4 + i]);
            }
        }
        assert(b.subrange(at + 6, at + 8) =~= le16_bytes(self.src_id)) by {
            assert forall|i: int| 0 <= i < 2 implies b.subrange(at + 6, at + 8)[i] == le16_bytes(
                self.src_id,
            )[i] by {
                assert(b[at + 6 + i] == s[6 + i]);
            }
        }
        assert(b.subrange(at + 8, at + 12) =~= le32_bytes(self.sym_id)) by {
            assert forall|i: int| 0 <= i < 4 implies b.subrange(at + 8, at + 12)[i]
                == le32_bytes(self.sym_id)[i] by {
                assert(b[at + 8 + i] == s[8 + i]);
            }
        }
        lemma_le32_at(b, at, self.addr_low);
        lemma_le16_at(b, at + 4, self.addr_high);
        lemma_le16_at(b, at + 6, self.src_id);
        lemma_le32_at(b, at + 8, self.sym_id);
    }
}

/// Packed SDK information
#[derive(Clone, Copy)]
pub struct PackedSdkInfo {
    pub name: [u8; 8],
    pub version_major: u16,
    pub version_minor: u16,
    pub version_patchlevel: u16,
    pub build: [u8; 10],
}

/// The stored memdb file header
#[derive(Clone, Copy)]
pub struct MemDbHeader {
    pub version: u32,
    pub sdk_info: PackedSdkInfo,
    pub variants_start: u32,
    pub variants_count: u32,
    pub uuids_start: u32,
    pub uuids_count: u32,
    pub tagged_object_names_start: u32,
    pub tagged_object_names_end: u32,
    pub object_names_start: u32,
    pub object_names_count: u32,
    pub symbols_start: u32,
    pub symbols_count: u32,
}

/// `b` without the zero bytes at its end.
pub open spec fn trim_zeros(b: Seq<u8>) -> Seq<u8>
    decreases b.len(),
{
    if b.len() > 0 && b.last() == 0 {
        trim_zeros(b.drop_last())
    } else {
        b
    }
}

/// Bytes that do not end in zero, followed by zeros, trim to the bytes.
pub proof fn lemma_trim_zeros_padded(head: Seq<u8>, b: Seq<u8>)
    requires
        head.len() <= b.len(),
        b.take(head.len() as int) == head,
        head.len() > 0 ==> head.last() != 0,
        forall|i: int| head.len() <= i < b.len() ==> b[i] == 0,
    ensures
        trim_zeros(b) == head,
    decreases b.len(),
{
    if b.len() > head.len() {
        assert(b.last() == 0);
        assert(b.drop_last().take(head.len() as int) =~= head);
        lemma_trim_zeros_padded(head, b.drop_last());
    } else {
        assert(b =~= head);
    }
}

/// Copies the bytes of `s` to the start of `slice`, leaving the rest
/// of `slice` as it is.
pub fn copy_str_to_slice(slice: &mut [u8], s: &str)
    requires
        s.spec_bytes().len() <= old(slice)@.len(),
    ensures
        final(slice)@ == s.spec_bytes() + old(slice)@.subrange(
            s.spec_bytes().len() as int,
            old(slice)@.len() as int,
        ),
{
    let bytes = s.as_bytes();
    let n = bytes.len();
    let mut i: usize = 0;
    while i < n
        invariant
            0 <= i <= n,
            n == bytes@.len(),
            n <= slice@.len(),
            slice@.len() == old(slice)@.len(),
            forall|j: int| 0 <= j < i ==> slice@[j] == bytes@[j],
            forall|j: int| i <= j < slice@.len() ==> slice@[j] == old(slice)@[j],
        decreases n - i,
    {
        slice[i] = bytes[i];
        i += 1;
    }
    assert(slice@ =~= s.spec_bytes() + old(slice)@.subrange(
        s.spec_bytes().len() as int,
        old(slice)@.len() as int,
    ));
}

/// The text that a zero-padded field holds: its bytes without the
/// zeros at the end, where those are valid UTF-8.
pub open spec fn spec_str_from_zero_slice(b: Seq<u8>) -> Option<Seq<char>> {
    if valid_utf8(trim_zeros(b)) {
        Some(decode_utf8(trim_zeros(b)))
    } else {
        None
    }
}

/// Reads the text of a zero-padded field.
pub fn str_from_zero_slice(slice: &[u8]) -> (r: Option<String>)
    ensures
        crate::sdk::opt_view(r) == spec_str_from_zero_slice(slice@),
{
    let mut n: usize = slice.len();
    assert(slice@.take(slice@.len() as int) =~= slice@);
    while n > 0 && slice[n - 1] == 0
        invariant
            0 <= n <= slice@.len(),
            trim_zeros(slice@) == trim_zeros(slice@.take(n as int)),
        decreases n,
    {
        assert(slice@.take(n as int).drop_last() =~= slice@.take(n - 1));
        n -= 1;
    }
    assert(slice@.take(slice@.len() as int) =~= slice@);
    let head = vstd::slice::slice_subrange(slice, 0, n);
    assert(head@ =~= slice@.take(n as int));
    string_from_utf8(head)
}

impl Default for PackedSdkInfo {
    fn default() -> (r: PackedSdkInfo)
        ensures
            r.name@ == Seq::new(8, |i: int| 0u8),
            r.build@ == Seq::new(10, |i: int| 0u8),
            r.version_major == 0,
            r.version_minor == 0,
            r.version_patchlevel == 0,
    {
        let r = PackedSdkInfo {
            name: [0u8; 8],
            version_major: 0,
            version_minor: 0,
            version_patchlevel: 0,
            build: [0u8; 10],
        };
        assert(r.name@ =~= Seq::new(8, |i: int| 0u8));
        assert(r.build@ =~= Seq::new(10, |i: int| 0u8));
        r
    }
}

impl PackedSdkInfo {
    /// Whether a descriptor fits into the packed form without loss of
    /// its name, its build or its numbers.
    pub open spec fn fits(v: SdkInfoView) -> bool {
        &&& encode_utf8(v.name).len() <= 8
        &&& v.version_major <= 0xffff
        &&& v.version_minor <= 0xffff
        &&& v.version_patchlevel <= 0xffff
        &&& match v.build {
            Some(b) => encode_utf8(b).len() <= 10,
            None => true,
        }
    }

    /// The descriptor that the packed form holds: name and build are
    /// the texts of their fields, and an empty build is no build.
    /// `None` where a field is not valid UTF-8.
    pub open spec fn spec_to_sdk_info(self) -> Option<SdkInfoView> {
        match (spec_str_from_zero_slice(self.name@), spec_str_from_zero_slice(self.build@)) {
            (Some(name), Some(build)) => Some(
                SdkInfoView {
                    name,
                    version_major: self.version_major as u32,
                    version_minor: self.version_minor as u32,
                    version_patchlevel: self.version_patchlevel as u32,
                    build: if build.len() == 0 {
                        None
                    } else {
                        Some(build)
                    },
                },
            ),
            _ => None,
        }
    }

    /// The 24 bytes of the packed form.
    pub open spec fn spec_encode(self) -> Seq<u8> {
        self.name@ + le16_bytes(self.version_major) + le16_bytes(self.version_minor) + le16_bytes(
            self.version_patchlevel,
        ) + self.build@
    }

    /// Takes name, version and build from `info`. The numbers are cut
    /// to 16 bits; the bytes of name and build replace the start of
    /// their fields, and the build stays as it is where `info` has none.
    pub fn set_from_sdk_info(&mut self, info: &SdkInfo)
        requires
            encode_utf8(info@.name).len() <= 8,
            match info@.build {
                Some(b) => encode_utf8(b).len() <= 10,
                None => true,
            },
        ensures
            final(self).version_major == info@.version_major % 0x1_0000,
            final(self).version_minor == info@.version_minor % 0x1_0000,
            final(self).version_patchlevel == info@.version_patchlevel % 0x1_0000,
            final(self).name@ == encode_utf8(info@.name) + old(self).name@.subrange(
                encode_utf8(info@.name).len() as int,
                8,
            ),
            final(self).build@ == match info@.build {
                Some(b) => encode_utf8(b) + old(self).build@.subrange(
                    encode_utf8(b).len() as int,
                    10,
                ),
                None => old(self).build@,
            },
    {
        self.version_major = (info.version_major() % 0x1_0000) as u16;
        self.version_minor = (info.version_minor() % 0x1_0000) as u16;
        self.version_patchlevel = (info.version_patchlevel() % 0x1_0000) as u16;
        copy_str_to_slice(&mut self.name, info.name());
        match info.build() {
            Some(build) => {
                copy_str_to_slice(&mut self.build, build);
            },
            None => {},
        }
    }

    /// The descriptor that the packed form holds.
    pub fn to_sdk_info(&self) -> (r: Option<SdkInfo>)
        ensures
            opt_info_view(r) == self.spec_to_sdk_info(),
    {
        let name = match str_from_zero_slice(&self.name) {
            Some(name) => name,
            None => {
                return None;
            },
        };
        let build = match str_from_zero_slice(&self.build) {
            Some(build) => build,
            None => {
                return None;
            },
        };
        let is_empty = build.as_str().unicode_len() == 0;
        Some(
            SdkInfo::new(
                name.as_str(),
                self.version_major as u32,
                self.version_minor as u32,
                self.version_patchlevel as u32,
                if is_empty {
                    None
                } else {
                    Some(build.as_str())
                },
            ),
        )
    }
}

/// Appends all of `bytes`.
pub fn push_bytes(out: &mut Vec<u8>, bytes: &[u8])
    ensures
        final(out)@ == old(out)@ + bytes@,
{
    let n = bytes.len();
    let mut i: usize = 0;
    while i < n
        invariant
            0 <= i <= n,
            n == bytes@.len(),
            out@ == old(out)@ + bytes@.take(i as int),
        decreases n - i,
    {
        out.push(bytes[i]);
        assert(bytes@.take(i + 1) =~= bytes@.take(i as int).push(bytes@[i as int]));
        i += 1;
    }
    assert(bytes@.take(n as int) =~= bytes@);
}

impl Default for MemDbHeader {
    fn default() -> (r: MemDbHeader)
        ensures
            r.version == 0,
            r.sdk_info.name@ == Seq::new(8, |i: int| 0u8),
            r.sdk_info.build@ == Seq::new(10, |i: int| 0u8),
            r.sdk_info.version_major == 0,
            r.sdk_info.version_minor == 0,
            r.sdk_info.version_patchlevel == 0,
            r.variants_start == 0,
            r.variants_count == 0,
            r.uuids_start == 0,
            r.uuids_count == 0,
            r.tagged_object_names_start == 0,
            r.tagged_object_names_end == 0,
            r.object_names_start == 0,
            r.object_names_count == 0,
            r.symbols_start == 0,
            r.symbols_count == 0,
    {
        MemDbHeader {
            version: 0,
            sdk_info: PackedSdkInfo::default(),
            variants_start: 0,
            variants_count: 0,
            uuids_start: 0,
            uuids_count: 0,
            tagged_object_names_start: 0,
            tagged_object_names_end: 0,
            object_names_start: 0,
            object_names_count: 0,
            symbols_start: 0,
            symbols_count: 0,
        }
    }
}

impl MemDbHeader {
    /// The ten offsets and counts of the header, in the order in which
    /// they are stored.
    pub open spec fn spec_words(self) -> Seq<u32> {
        seq![
            self.variants_start,
            self.variants_count,
            self.uuids_start,
            self.uuids_count,
            self.tagged_object_names_start,
            self.tagged_object_names_end,
            self.object_names_start,
            self.object_names_count,
            self.symbols_start,
            self.symbols_count,
        ]
    }

    /// The 68 bytes of the header: the version, the packed SDK
    /// information, and the ten offsets and counts.
    pub open spec fn spec_encode(self) -> Seq<u8> {
        le32_bytes(self.version) + self.sdk_info.spec_encode() + Seq::new(
            40,
            |i: int| le32_bytes(self.spec_words()[i / 4])[i % 4],
        )
    }

    /// Whether the first 68 bytes of `b` hold this header.
    pub open spec fn spec_matches(self, b: Seq<u8>) -> bool {
        &&& b.len() >= 68
        &&& self.version == spec_le32(b, 0)
        &&& self.sdk_info.name@ == b.subrange(4, 12)
        &&& self.sdk_info.version_major == spec_le16(b, 12)
        &&& self.sdk_info.version_minor == spec_le16(b, 14)
        &&& self.sdk_info.version_patchlevel == spec_le16(b, 16)
        &&& self.sdk_info.build@ == b.subrange(18, 28)
        &&& self.variants_start == spec_le32(b, 28)
        &&& self.variants_count == spec_le32(b, 32)
        &&& self.uuids_start == spec_le32(b, 36)
        &&& self.uuids_count == spec_le32(b, 40)
        &&& self.tagged_object_names_start == spec_le32(b, 44)
        &&& self.tagged_object_names_end == spec_le32(b, 48)
        &&& self.object_names_start == spec_le32(b, 52)
        &&& self.object_names_count == spec_le32(b, 56)
        &&& self.symbols_start == spec_le32(b, 60)
        &&& self.symbols_count == spec_le32(b, 64)
    }

    /// Appends the bytes of the header.
    pub fn write_to(&self, out: &mut Vec<u8>)
        ensures
            final(out)@ == old(out)@ + self.spec_encode(),
    {
        push_u32(out, self.version);
        push_bytes(out, &self.sdk_info.name);
        push_u16(out, self.sdk_info.version_major);
        push_u16(out, self.sdk_info.version_minor);
        push_u16(out, self.sdk_info.version_patchlevel);
        push_bytes(out, &self.sdk_info.build);
        push_u32(out, self.variants_start);
        push_u32(out, self.variants_count);
        push_u32(out, self.uuids_start);
        push_u32(out, self.uuids_count);
        push_u32(out, self.tagged_object_names_start);
        push_u32(out, self.tagged_object_names_end);
        push_u32(out, self.object_names_start);
        push_u32(out, self.object_names_count);
        push_u32(out, self.symbols_start);
        push_u32(out, self.symbols_count);
        assert(final(out)@ =~= old(out)@ + self.spec_encode());
    }

    /// Reads the header at the start of `buf`.
    pub fn read_from(buf: &[u8]) -> (r: MemDbHeader)
        requires
            buf@.len() >= 68,
        ensures
            r.spec_matches(buf@),
    {
        let mut name = [0u8; 8];
        let mut i: usize = 0;
        while i < 8
            invariant
                0 <= i <= 8,
                buf@.len() >= 68,
                forall|j: int| 0 <= j < i ==> name@[j] == buf@[4 + j],
            decreases 8 - i,
        {
            name[i] = buf[4 + i];
            i += 1;
        }
        let mut build = [0u8; 10];
        let mut i: usize = 0;
        while i < 10
            invariant
                0 <= i <= 10,
                buf@.len() >= 68,
                forall|j: int| 0 <= j < i ==> build@[j] == buf@[18 + j],
            decreases 10 - i,
        {
            build[i] = buf[18 + i];
            i += 1;
        }
        assert(name@ =~= buf@.subrange(4, 12));
        assert(build@ =~= buf@.subrange(18, 28));
        MemDbHeader {
            version: read_u32(buf, 0),
            sdk_info: PackedSdkInfo {
                name,
                version_major: read_u16(buf, 12),
                version_minor: read_u16(buf, 14),
                version_patchlevel: read_u16(buf, 16),
                build,
            },
            variants_start: read_u32(buf, 28),
            variants_count: read_u32(buf, 32),
            uuids_start: read_u32(buf, 36),
            uuids_count: read_u32(buf, 40),
            tagged_object_names_start: read_u32(buf, 44),
            tagged_object_names_end: read_u32(buf, 48),
            object_names_start: read_u32(buf, 52),
            object_names_count: read_u32(buf, 56),
            symbols_start: read_u32(buf, 60),
            symbols_count: read_u32(buf, 64),
        }
    }

    /// A file that starts with the bytes of a header holds that header.
    pub proof fn lemma_matches_encode(self, b: Seq<u8>)
        requires
            b.len() >= 68,
            b.take(68) == self.spec_encode(),
        ensures
            self.spec_matches(b),
    {
        let e = self.spec_encode();
        let w = self.spec_words();
        let info = self.sdk_info.spec_encode();
        assert(self.sdk_info.name@.len() == 8);
        assert(self.sdk_info.build@.len() == 10);
        assert(info.len() == 24);
        assert(e.len() == 68);
        assert forall|i: int| 0 <= i < 68 implies b[i] == e[i] by {
            assert(b.take(68)[i] == b[i]);
        }
        assert forall|i: int| 0 <= i < 40 implies #[trigger] b[28 + i] == le32_bytes(w[i / 4])[i
            % 4] by {
            assert(b[28 + i] == e[28 + i]);
        }
        assert(b.subrange(4, 28) =~= info) by {
            assert forall|i: int| 0 <= i < 24 implies b.subrange(4, 28)[i] == info[i] by {
                assert(b[4 + i] == e[4 + i]);
            }
        }
        assert(b.subrange(0, 4) =~= le32_bytes(self.version)) by {
            assert forall|i: int| 0 <= i < 4 implies b.subrange(0, 4)[i] == le32_bytes(
                self.version,
            )[i] by {
                assert(b[i] == e[i]);
            }
        }
        lemma_le32_at(b, 0, self.version);
        self.sdk_info.lemma_fields_at(b, 4);
        lemma_words_at(b, w, 28, 0);
        lemma_words_at(b, w, 28, 1);
        lemma_words_at(b, w, 28, 2);
        lemma_words_at(b, w, 28, 3);
        lemma_words_at(b, w, 28, 4);
        lemma_words_at(b, w, 28, 5);
        lemma_words_at(b, w, 28, 6);
        lemma_words_at(b, w, 28, 7);
        lemma_words_at(b, w, 28, 8);
        lemma_words_at(b, w, 28, 9);
    }
}

impl PackedSdkInfo {
    /// The bytes of the packed form, found at `at`, hold its fields.
    pub proof fn lemma_fields_at(self, b: Seq<u8>, at: int)
        requires
            0 <= at,
            at + 24 <= b.len(),
            b.subrange(at, at + 24) == self.spec_encode(),
        ensures
            self.name@ == b.subrange(at, at + 8),
            self.version_major == spec_le16(b, at + 8),
            self.version_minor == spec_le16(b, at + 10),
            self.version_patchlevel == spec_le16(b, at + 12),
            self.build@ == b.subrange(at + 14, at + 24),
    {
        let e = self.spec_encode();
        assert(self.name@.len() == 8);
        assert(self.build@.len() == 10);
        assert forall|i: int| 0 <= i < 24 implies b[at + i] == e[i] by {
            assert(b.subrange(at, at + 24)[i] == b[at + i]);
        }
        assert(self.name@ =~= b.subrange(at, at + 8)) by {
            assert forall|i: int| 0 <= i < 8 implies self.name@[i] == b.subrange(at, at + 8)[i] by {
                assert(b[at + i] == e[i]);
            }
        }
        assert(self.build@ =~= b.subrange(at + 14, at + 24)) by {
            assert forall|i: int| 0 <= i < 10 implies self.build@[i] == b.subrange(
                at + 14,
                at + 24,
            )[i] by {
                assert(b[at + 14 + i] == e[14 + i]);
            }
        }
        assert(b.subrange(at + 8, at + 10) =~= le16_bytes(self.version_major)) by {
            assert(b[at + 8] == e[8] && b[at + 9] == e[9]);
        }
        assert(b.subrange(at + 10, at + 12) =~= le16_bytes(self.version_minor)) by {
            assert(b[at + 10] == e[10] && b[at + 11] == e[11]);
        }
        assert(b.subrange(at + 12, at + 14) =~= le16_bytes(self.version_patchlevel)) by {
            assert(b[at + 12] == e[12] && b[at + 13] == e[13]);
        }
        lemma_le16_at(b, at + 8, self.version_major);
        lemma_le16_at(b, at + 10, self.version_minor);
        lemma_le16_at(b, at + 12, self.version_patchlevel);
    }
}

/// In a run of four-byte numbers that starts at `base`, the number
/// with index `k` is found at `base + 4 * k`.
pub proof fn lemma_words_at(b: Seq<u8>, w: Seq<u32>, base: int, k: int)
    requires
        0 <= base,
        0 <= k < w.len(),
        base + 4 * w.len() <= b.len(),
        forall|i: int|
            0 <= i < 4 * w.len() ==> #[trigger] b[base + i] == le32_bytes(w[i / 4])[i % 4],
    ensures
        spec_le32(b, base + 4 * k) == w[k],
{
    assert(b.subrange(base + 4 * k, base + 4 * k + 4) =~= le32_bytes(w[k])) by {
        assert forall|j: int| 0 <= j < 4 implies b.subrange(base + 4 * k, base + 4 * k + 4)[j]
            == le32_bytes(w[k])[j] by {
            assert(b[base + (4 * k + j)] == le32_bytes(w[(4 * k + j) / 4])[(4 * k + j) % 4]);
        }
    }
    lemma_le32_at(b, base + 4 * k, w[k]);
}

} // verus!
