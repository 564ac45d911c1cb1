//! What a reader finds in a file that was laid out as `format` says.
use vstd::prelude::*;
use vstd::utf8::{decode_utf8, valid_utf8};
use crate::errors::ErrorKind;
use crate::memdb::format::{
    item_blocks, lemma_index_len, lemma_slice_table_len, lemma_uuid_table_len, slice_blocks,
    slices_of, uuid_blocks, variant_blocks, MemDbContents,
};
use crate::memdb::layout::{
    block_offset, concat_blocks, lemma_block_at, lemma_offset_of_end,
    lemma_subrange_of_subrange, lemma_uniform_offset,
};
use crate::memdb::read::{
    bisect, index_item, item_keys, keys_sorted, lemma_bisect_sorted, record_matches, region_ok,
    spec_find_tagged, spec_find_variant, spec_lookup, spec_lookup_in_index, spec_scan_tagged,
    spec_string, spec_symbol_of, spec_variant_index, uuid_entry, uuid_keys, SymbolView,
};
use crate::memdb::format::tagged_blocks;
use crate::memdb::layout::lemma_concat_step;
use crate::dsym::ObjectSliceView;
use crate::memdb::write::{
    can_be_tagged, has_no_zero, is_packed_of, sorted_tagged, spec_source_name, tagged_sort_keys,
};
use crate::memdb::read::{spec_open, tagged_end, tagged_start};
use crate::memdb::types::{lemma_trim_zeros_padded, trim_zeros};
use crate::sdk::SdkInfoView;
use crate::memdb::types::{IndexItem, IndexedUuid, PackedSdkInfo, StoredSlice, Uuid};
use crate::memdb::write::{
    intern, intern_all, intern_id, is_stable_sort_perm, item_sort_keys, lemma_intern_all,
    lemma_intern_prefix, no_duplicates, perm_holds, permuted, raw_items, raw_symbol_items,
    sorted_items, sorted_uuids, stable_perm, string_blocks, uuid_sort_keys, BuilderView,
    ADDR_LIMIT, MAX_OBJECTS, MAX_SYMBOLS,
};
use vstd::utf8::{encode_utf8, encode_utf8_decode_utf8, encode_utf8_valid_utf8};

verus! {

/// In a table of records of `size` bytes that stands in `f` at `base`,
/// record `k` stands at `base + size * k`.
pub proof fn lemma_table_entry(f: Seq<u8>, base: int, blocks: Seq<Seq<u8>>, size: int, k: int)
    requires
        0 <= base,
        base + concat_blocks(blocks).len() <= f.len(),
        f.subrange(base, base + concat_blocks(blocks).len()) == concat_blocks(blocks),
        forall|i: int| 0 <= i < blocks.len() ==> (#[trigger] blocks[i]).len() == size,
        0 <= k < blocks.len(),
    ensures
        0 <= size * k,
        base + size * k + size <= f.len(),
        size * k + size <= concat_blocks(blocks).len(),
        f.subrange(base + size * k, base + size * k + size) == blocks[k],
{
    lemma_uniform_offset(blocks, size, k);
    lemma_block_at(blocks, k);
    assert(blocks[k].len() == size);
    lemma_subrange_of_subrange(f, base, concat_blocks(blocks).len() as int, size * k, size);
}

/// In a run of blocks that stands in `f` at `base`, block `k` stands at
/// its offset behind `base`.
pub proof fn lemma_run_entry(f: Seq<u8>, base: int, blocks: Seq<Seq<u8>>, k: int)
    requires
        0 <= base,
        base + concat_blocks(blocks).len() <= f.len(),
        f.subrange(base, base + concat_blocks(blocks).len()) == concat_blocks(blocks),
        0 <= k < blocks.len(),
    ensures
        0 <= block_offset(blocks, k),
        base + block_offset(blocks, k) + blocks[k].len() <= f.len(),
        f.subrange(
            base + block_offset(blocks, k),
            base + block_offset(blocks, k) + blocks[k].len(),
        ) == blocks[k],
{
    lemma_block_at(blocks, k);
    lemma_subrange_of_subrange(
        f,
        base,
        concat_blocks(blocks).len() as int,
        block_offset(blocks, k),
        blocks[k].len() as int,
    );
}

/// A reader finds, in the table of stored slices that stands in `f` at
/// `table`, the slice of block `id` of the blocks that stand back to
/// back from `base` on.
pub proof fn lemma_read_stored_slice(
    f: Seq<u8>,
    table: int,
    blocks: Seq<Seq<u8>>,
    base: int,
    id: int,
)
    requires
        0 <= table,
        0 <= base,
        0 <= id < blocks.len(),
        table + 8 * blocks.len() <= f.len(),
        f.subrange(table, table + 8 * blocks.len()) == concat_blocks(
            slice_blocks(slices_of(blocks, base)),
        ),
        base + concat_blocks(blocks).len() <= 0xffff_ffff,
        blocks[id].len() < 0x8000_0000,
    ensures
        table + 8 * id + 8 <= f.len(),
        StoredSlice::spec_decode(f, table + 8 * id).spec_offset() == base + block_offset(
            blocks,
            id,
        ),
        StoredSlice::spec_decode(f, table + 8 * id).spec_len() == blocks[id].len(),
        !StoredSlice::spec_decode(f, table + 8 * id).spec_is_compressed(),
{
    let slices = slices_of(blocks, base);
    let table_blocks = slice_blocks(slices);
    lemma_slice_table_len(slices);
    assert(slices.len() == blocks.len());
    assert(table_blocks.len() == blocks.len());
    assert forall|i: int| 0 <= i < table_blocks.len() implies (#[trigger] table_blocks[i]).len()
        == 8 by {
        assert(table_blocks[i] == slices[i].spec_encode());
    }
    lemma_table_entry(f, table, table_blocks, 8, id);
    assert(table_blocks[id] == slices[id].spec_encode());
    slices[id].lemma_decode_encode(f, table + 8 * id);
    lemma_block_at(blocks, id);
    let s = slices[id];
    let off = base + block_offset(blocks, id);
    let len = blocks[id].len() as int;
    assert(0 <= off <= 0xffff_ffff);
    assert(s.offset == off as u32);
    assert(s.len == len as u32);
    assert(s.spec_len() == len);
}

impl MemDbContents {
    /// The contents are well formed: they can be stored; the table of
    /// UUIDs is in strictly ascending order and points into the table
    /// of variants; every symbol index is in ascending order of its
    /// addresses; every entry names an object and, unless it marks an
    /// end, a symbol; and all strings are valid UTF-8.
    pub open spec fn wf(self) -> bool {
        &&& self.fits()
        &&& forall|k: int|
            0 <= k < self.uuids.len() ==> (#[trigger] self.uuids[k]).idx < self.variants.len()
        &&& forall|k: int, l: int|
            0 <= k < l < self.uuids.len() ==> (#[trigger] self.uuids[k]).uuid.value < (
            #[trigger] self.uuids[l]).uuid.value
        &&& forall|i: int, j: int, l: int|
            0 <= i < self.variants.len() && 0 <= j <= l < self.variants[i].len()
                ==> (#[trigger] self.variants[i][j]).spec_addr() <= (
            #[trigger] self.variants[i][l]).spec_addr()
        &&& forall|i: int, j: int|
            0 <= i < self.variants.len() && 0 <= j < self.variants[i].len() ==> {
                let item = #[trigger] self.variants[i][j];
                item.src_id < self.object_names.len() && (item.spec_is_end_marker()
                    || item.sym_id < self.symbols.len())
            }
        &&& forall|i: int|
            0 <= i < self.object_names.len() ==> valid_utf8(#[trigger] self.object_names[i])
        &&& forall|i: int| 0 <= i < self.symbols.len() ==> valid_utf8(#[trigger] self.symbols[i])
    }

    /// What an entry of a symbol index stands for: nothing where it
    /// marks an end, else the symbol and the object that it names.
    pub open spec fn spec_entry(self, item: IndexItem) -> Result<Option<SymbolView>, ErrorKind> {
        if item.spec_is_end_marker() {
            Ok(None)
        } else {
            Ok(
                Some(
                    SymbolView {
                        object_name: decode_utf8(self.object_names[item.src_id as int]),
                        symbol: decode_utf8(self.symbols[item.sym_id as int]),
                        addr: item.spec_addr() as u64,
                    },
                ),
            )
        }
    }

    /// A reader finds the offsets and counts of the header.
    pub proof fn lemma_read_header(self)
        requires
            self.fits(),
        ensures
            self.file().len() == self.file_len(),
            crate::memdb::read::variants_start(self.file()) == self.variants_start(),
            crate::memdb::read::variants_count(self.file()) == self.variants.len(),
            crate::memdb::read::uuids_start(self.file()) == self.uuids_start(),
            crate::memdb::read::uuids_count(self.file()) == self.uuids.len(),
            crate::memdb::read::tagged_start(self.file()) == self.tagged_start(),
            crate::memdb::read::tagged_end(self.file()) == self.names_start(),
            crate::memdb::read::object_names_start(self.file()) == self.names_table_start(),
            crate::memdb::read::object_names_count(self.file()) == self.object_names.len(),
            crate::memdb::read::symbols_start(self.file()) == self.symbols_table_start(),
            crate::memdb::read::symbols_count(self.file()) == self.symbols.len(),
            self.header().spec_matches(self.file()),
    {
        self.lemma_file_start();
        self.lemma_offsets_ordered();
        self.header().lemma_matches_encode(self.file());
        reveal(MemDbContents::header);
    }

    /// A reader finds entry `k` of the table of UUIDs.
    pub proof fn lemma_read_uuid(self, k: int)
        requires
            self.fits(),
            0 <= k < self.uuids.len(),
        ensures
            region_ok(
                self.file(),
                crate::memdb::read::uuids_start(self.file()),
                18 * crate::memdb::read::uuids_count(self.file()),
            ),
            uuid_entry(self.file(), k) == self.uuids[k],
    {
        self.lemma_read_header();
        self.lemma_part_uuid_table();
        self.lemma_offsets_ordered();
        lemma_uuid_table_len(self.uuids);
        let f = self.file();
        let blocks = uuid_blocks(self.uuids);
        lemma_table_entry(f, self.uuids_start(), blocks, 18, k);
        assert(blocks[k] == self.uuids[k].spec_encode());
        self.uuids[k].lemma_decode_encode(f, self.uuids_start() + 18 * k);
    }

    /// A reader finds the symbol index of variant `i`.
    pub proof fn lemma_read_variant(self, i: int)
        requires
            self.fits(),
            0 <= i < self.variants.len(),
        ensures
            spec_variant_index(self.file(), i) == Ok::<(int, int), ErrorKind>(
                (68 + block_offset(variant_blocks(self.variants), i), self.variants[i].len() as int),
            ),
            68 + block_offset(variant_blocks(self.variants), i) + 12 * self.variants[i].len()
                <= self.file().len(),
            self.file().subrange(
                68 + block_offset(variant_blocks(self.variants), i),
                68 + block_offset(variant_blocks(self.variants), i) + 12
                    * self.variants[i].len(),
            ) == concat_blocks(item_blocks(self.variants[i])),
    {
        self.lemma_read_header();
        self.lemma_part_indexes();
        self.lemma_part_variant_table();
        self.lemma_offsets_ordered();
        let f = self.file();
        let vblocks = variant_blocks(self.variants);
        lemma_index_len(self.variants[i]);
        assert(vblocks[i].len() == 12 * self.variants[i].len());
        lemma_slice_table_len(self.variant_slices());
        lemma_read_stored_slice(f, self.variants_start(), vblocks, 68, i);
        lemma_run_entry(f, 68, vblocks, i);
        let s = StoredSlice::spec_decode(f, self.variants_start() + 8 * i);
        assert(s.spec_len() / 12 == self.variants[i].len());
        assert(region_ok(f, self.variants_start(), 8 * self.variants.len() as int));
        assert(region_ok(f, s.spec_offset(), s.spec_len()));
    }

    /// A reader finds entry `j` of the symbol index of variant `i`.
    pub proof fn lemma_read_item(self, i: int, j: int)
        requires
            self.fits(),
            0 <= i < self.variants.len(),
            0 <= j < self.variants[i].len(),
        ensures
            index_item(self.file(), 68 + block_offset(variant_blocks(self.variants), i), j)
                == self.variants[i][j],
    {
        self.lemma_read_variant(i);
        let f = self.file();
        let start = 68 + block_offset(variant_blocks(self.variants), i);
        let blocks = item_blocks(self.variants[i]);
        lemma_index_len(self.variants[i]);
        lemma_table_entry(f, start, blocks, 12, j);
        assert(blocks[j] == self.variants[i][j].spec_encode());
        self.variants[i][j].lemma_decode_encode(f, start + 12 * j);
    }

    /// A reader finds object name `id`.
    pub proof fn lemma_read_object_name(self, id: int)
        requires
            self.fits(),
            0 <= id < self.object_names.len(),
            valid_utf8(self.object_names[id]),
        ensures
            spec_string(
                self.file(),
                crate::memdb::read::object_names_start(self.file()),
                crate::memdb::read::object_names_count(self.file()),
                id,
            ) == Ok::<Seq<char>, ErrorKind>(decode_utf8(self.object_names[id])),
    {
        self.lemma_read_header();
        self.lemma_part_object_names();
        self.lemma_part_object_name_table();
        self.lemma_offsets_ordered();
        let f = self.file();
        lemma_read_stored_slice(f, self.names_table_start(), self.object_names, self.names_start(), id);
        lemma_run_entry(f, self.names_start(), self.object_names, id);
        let s = StoredSlice::spec_decode(f, self.names_table_start() + 8 * id);
        assert(region_ok(f, self.names_table_start(), 8 * self.object_names.len() as int));
        assert(region_ok(f, s.spec_offset(), s.spec_len()));
        assert(f.subrange(s.spec_offset(), s.spec_offset() + s.spec_len())
            == self.object_names[id]);
    }

    /// A reader finds symbol `id`.
    pub proof fn lemma_read_symbol(self, id: int)
        requires
            self.fits(),
            0 <= id < self.symbols.len(),
            valid_utf8(self.symbols[id]),
        ensures
            spec_string(
                self.file(),
                crate::memdb::read::symbols_start(self.file()),
                crate::memdb::read::symbols_count(self.file()),
                id,
            ) == Ok::<Seq<char>, ErrorKind>(decode_utf8(self.symbols[id])),
    {
        self.lemma_read_header();
        self.lemma_part_symbols();
        self.lemma_part_symbol_table();
        self.lemma_offsets_ordered();
        let f = self.file();
        lemma_read_stored_slice(f, self.symbols_table_start(), self.symbols, self.symbols_start(), id);
        lemma_run_entry(f, self.symbols_start(), self.symbols, id);
        let s = StoredSlice::spec_decode(f, self.symbols_table_start() + 8 * id);
        assert(region_ok(f, self.symbols_table_start(), 8 * self.symbols.len() as int));
        assert(region_ok(f, s.spec_offset(), s.spec_len()));
        assert(f.subrange(s.spec_offset(), s.spec_offset() + s.spec_len()) == self.symbols[id]);
    }
}

/// On keys in ascending order, a search for `x` ends behind position
/// `j` where the key at `j` is at most `x` and the next key, if there
/// is one, is above `x`.
pub proof fn lemma_bisect_at(keys: Seq<int>, x: int, j: int)
    requires
        keys_sorted(keys, 0, keys.len() as int),
        0 <= j < keys.len(),
        keys[j] <= x,
        j + 1 < keys.len() ==> x < keys[j + 1],
    ensures
        bisect(keys, x, 0, keys.len() as int) == j + 1,
{
    lemma_bisect_sorted(keys, x, 0, keys.len() as int);
    let r = bisect(keys, x, 0, keys.len() as int);
    if r <= j {
        assert(x < keys[j]);
    }
    if r > j + 1 {
        assert(keys[j + 1] <= x);
    }
}

/// On keys in ascending order, a search for `x` ends at the start
/// where there is no key or the first key is above `x`.
pub proof fn lemma_bisect_below(keys: Seq<int>, x: int)
    requires
        keys_sorted(keys, 0, keys.len() as int),
        keys.len() == 0 || x < keys[0],
    ensures
        bisect(keys, x, 0, keys.len() as int) == 0,
{
    lemma_bisect_sorted(keys, x, 0, keys.len() as int);
    let r = bisect(keys, x, 0, keys.len() as int);
    if r > 0 {
        assert(keys[0] <= x);
    }
}

impl MemDbContents {
    /// A reader sees the UUIDs of the table as the keys of its search.
    pub proof fn lemma_uuid_keys(self)
        requires
            self.wf(),
        ensures
            uuid_keys(self.file()) == Seq::new(
                self.uuids.len(),
                |l: int| self.uuids[l].uuid.value as int,
            ),
            keys_sorted(uuid_keys(self.file()), 0, self.uuids.len() as int),
            region_ok(
                self.file(),
                crate::memdb::read::uuids_start(self.file()),
                18 * crate::memdb::read::uuids_count(self.file()),
            ),
    {
        self.lemma_read_header();
        self.lemma_offsets_ordered();
        let f = self.file();
        let keys = uuid_keys(f);
        let want = Seq::new(self.uuids.len(), |l: int| self.uuids[l].uuid.value as int);
        assert forall|l: int| 0 <= l < self.uuids.len() implies keys[l] == want[l] by {
            self.lemma_read_uuid(l);
        }
        assert(keys =~= want);
        assert forall|a: int, b: int| 0 <= a <= b < self.uuids.len() implies keys[a]
            <= keys[b] by {
            if a < b {
                assert(self.uuids[a].uuid.value < self.uuids[b].uuid.value);
            }
        }
    }

    /// A reader finds the variant of the UUID that stands at `k`.
    pub proof fn lemma_find_variant(self, k: int)
        requires
            self.wf(),
            0 <= k < self.uuids.len(),
        ensures
            spec_find_variant(self.file(), self.uuids[k].uuid) == Ok::<Option<int>, ErrorKind>(
                Some(self.uuids[k].idx as int),
            ),
    {
        self.lemma_read_header();
        self.lemma_uuid_keys();
        self.lemma_read_uuid(k);
        let f = self.file();
        let keys = uuid_keys(f);
        if k + 1 < self.uuids.len() {
            assert(self.uuids[k].uuid.value < self.uuids[k + 1].uuid.value);
        }
        lemma_bisect_at(keys, self.uuids[k].uuid.value as int, k);
    }

    /// A reader finds no variant for a UUID that is not in the table.
    pub proof fn lemma_find_no_variant(self, uuid: Uuid)
        requires
            self.wf(),
            forall|k: int| 0 <= k < self.uuids.len() ==> (#[trigger] self.uuids[k]).uuid != uuid,
        ensures
            spec_find_variant(self.file(), uuid) == Ok::<Option<int>, ErrorKind>(None),
    {
        self.lemma_read_header();
        self.lemma_uuid_keys();
        let f = self.file();
        let keys = uuid_keys(f);
        let pos = bisect(keys, uuid.value as int, 0, self.uuids.len() as int);
        lemma_bisect_sorted(keys, uuid.value as int, 0, self.uuids.len() as int);
        if pos > 0 {
            self.lemma_read_uuid(pos - 1);
            assert(self.uuids[pos - 1].uuid != uuid);
        }
    }

    /// A reader sees the addresses of a symbol index as the keys of its
    /// search.
    pub proof fn lemma_item_keys(self, i: int)
        requires
            self.wf(),
            0 <= i < self.variants.len(),
        ensures
            item_keys(
                self.file(),
                68 + block_offset(variant_blocks(self.variants), i),
                self.variants[i].len() as int,
            ) == Seq::new(self.variants[i].len(), |j: int| self.variants[i][j].spec_addr()),
            keys_sorted(
                item_keys(
                    self.file(),
                    68 + block_offset(variant_blocks(self.variants), i),
                    self.variants[i].len() as int,
                ),
                0,
                self.variants[i].len() as int,
            ),
    {
        let f = self.file();
        let start = 68 + block_offset(variant_blocks(self.variants), i);
        let n = self.variants[i].len();
        let keys = item_keys(f, start, n as int);
        let want = Seq::new(n, |j: int| self.variants[i][j].spec_addr());
        assert forall|j: int| 0 <= j < n implies keys[j] == want[j] by {
            self.lemma_read_item(i, j);
        }
        assert(keys =~= want);
        assert forall|a: int, b: int| 0 <= a <= b < n implies keys[a] <= keys[b] by {
            assert(self.variants[i][a].spec_addr() <= self.variants[i][b].spec_addr());
        }
    }

    /// A reader turns an entry of a symbol index into what it stands for.
    pub proof fn lemma_read_entry(self, i: int, j: int)
        requires
            self.wf(),
            0 <= i < self.variants.len(),
            0 <= j < self.variants[i].len(),
        ensures
            !self.variants[i][j].spec_is_end_marker() ==> (match spec_symbol_of(
                self.file(),
                self.variants[i][j],
            ) {
                Ok(s) => Ok::<Option<SymbolView>, ErrorKind>(Some(s)),
                Err(e) => Err(e),
            }) == self.spec_entry(self.variants[i][j]),
    {
        let item = self.variants[i][j];
        if !item.spec_is_end_marker() {
            assert(item.src_id < self.object_names.len());
            assert(item.sym_id < self.symbols.len());
            self.lemma_read_object_name(item.src_id as int);
            self.lemma_read_symbol(item.sym_id as int);
        }
    }

    /// A lookup finds the entry whose address is the greatest that is
    /// at most the address looked for: with `addr` at the address of
    /// entry `j` or between it and the address of the next entry, the
    /// lookup gives what entry `j` stands for.
    pub proof fn lemma_lookup_finds(self, k: int, j: int, addr: u64)
        requires
            self.wf(),
            0 <= k < self.uuids.len(),
            0 <= j < self.variants[self.uuids[k].idx as int].len(),
            self.variants[self.uuids[k].idx as int][j].spec_addr() <= addr,
            j + 1 < self.variants[self.uuids[k].idx as int].len() ==> addr
                < self.variants[self.uuids[k].idx as int][j + 1].spec_addr(),
        ensures
            spec_lookup(self.file(), self.uuids[k].uuid, addr) == self.spec_entry(
                self.variants[self.uuids[k].idx as int][j],
            ),
    {
        let f = self.file();
        let i = self.uuids[k].idx as int;
        let start = 68 + block_offset(variant_blocks(self.variants), i);
        let n = self.variants[i].len() as int;
        self.lemma_find_variant(k);
        self.lemma_read_variant(i);
        self.lemma_item_keys(i);
        let keys = item_keys(f, start, n);
        lemma_bisect_at(keys, addr as int, j);
        self.lemma_read_item(i, j);
        self.lemma_read_entry(i, j);
    }

    /// A lookup below the first address of a variant finds nothing.
    pub proof fn lemma_lookup_below_first(self, k: int, addr: u64)
        requires
            self.wf(),
            0 <= k < self.uuids.len(),
            self.variants[self.uuids[k].idx as int].len() == 0 || addr
                < self.variants[self.uuids[k].idx as int][0].spec_addr(),
        ensures
            spec_lookup(self.file(), self.uuids[k].uuid, addr) == Ok::<
                Option<SymbolView>,
                ErrorKind,
            >(None),
    {
        let f = self.file();
        let i = self.uuids[k].idx as int;
        let start = 68 + block_offset(variant_blocks(self.variants), i);
        let n = self.variants[i].len() as int;
        self.lemma_find_variant(k);
        self.lemma_read_variant(i);
        self.lemma_item_keys(i);
        lemma_bisect_below(item_keys(f, start, n), addr as int);
    }

    /// A lookup for a UUID that the file does not hold finds nothing.
    pub proof fn lemma_lookup_unknown_uuid(self, uuid: Uuid, addr: u64)
        requires
            self.wf(),
            forall|k: int| 0 <= k < self.uuids.len() ==> (#[trigger] self.uuids[k]).uuid != uuid,
        ensures
            spec_lookup(self.file(), uuid, addr) == Ok::<Option<SymbolView>, ErrorKind>(None),
    {
        self.lemma_find_no_variant(uuid);
    }
}

impl BuilderView {
    /// What an entry of a symbol index stands for: nothing where it
    /// marks an end, else the interned names that it points to.
    pub open spec fn spec_entry(self, item: IndexItem) -> Result<Option<SymbolView>, ErrorKind> {
        if item.spec_is_end_marker() {
            Ok(None)
        } else {
            Ok(
                Some(
                    SymbolView {
                        object_name: self.object_names[item.src_id as int],
                        symbol: self.symbols[item.sym_id as int],
                        addr: item.spec_addr() as u64,
                    },
                ),
            )
        }
    }

    /// The order in which the UUIDs of the builder are written is a
    /// stable sort of them.
    pub proof fn lemma_uuid_perm(self)
        requires
            self.wf(),
        ensures
            is_stable_sort_perm(uuid_sort_keys(self.uuids), stable_perm(uuid_sort_keys(self.uuids))),
    {
        lemma_stable_perm_exists(uuid_sort_keys(self.uuids));
    }

    /// What the file of a well-formed builder holds is well formed.
    pub proof fn lemma_contents_wf(self, packed: PackedSdkInfo)
        requires
            self.wf(),
            self.contents(packed).fits(),
        ensures
            self.contents(packed).wf(),
    {
        let c = self.contents(packed);
        let keys = uuid_sort_keys(self.uuids);
        let perm = stable_perm(keys);
        self.lemma_uuid_perm();
        assert forall|k: int| 0 <= k < c.uuids.len() implies (#[trigger] c.uuids[k]).idx
            < c.variants.len() by {
            assert(c.uuids[k] == self.uuids[perm[k] as int]);
            assert(self.uuids[perm[k] as int].idx == perm[k]);
        }
        assert forall|k: int, l: int| 0 <= k < l < c.uuids.len() implies (
        #[trigger] c.uuids[k]).uuid.value < (#[trigger] c.uuids[l]).uuid.value by {
            assert(keys[perm[k] as int] <= keys[perm[l] as int]);
            assert(perm[k] != perm[l]);
            let a = perm[k] as int;
            let b = perm[l] as int;
            if a < b {
                assert(self.uuids[a].uuid != self.uuids[b].uuid);
            } else {
                assert(self.uuids[b].uuid != self.uuids[a].uuid);
            }
        }
        assert forall|i: int| 0 <= i < c.object_names.len() implies valid_utf8(
            #[trigger] c.object_names[i],
        ) by {
            encode_utf8_valid_utf8(self.object_names[i]);
        }
        assert forall|i: int| 0 <= i < c.symbols.len() implies valid_utf8(
            #[trigger] c.symbols[i],
        ) by {
            encode_utf8_valid_utf8(self.symbols[i]);
        }
        assert forall|i: int, j: int|
            0 <= i < c.variants.len() && 0 <= j < c.variants[i].len() implies {
            let item = #[trigger] c.variants[i][j];
            item.src_id < c.object_names.len() && (item.spec_is_end_marker() || item.sym_id
                < c.symbols.len())
        } by {
            let item = self.variants[i][j];
            assert(item.src_id < self.object_names.len());
        }
    }

    /// A file that a builder wrote gives back what was written: a
    /// lookup by the UUID of a variant, at the address of one of its
    /// entries or between that address and the next, gives the symbol
    /// name and the object name that the entry points to. Where several
    /// entries have the same address, this holds of the last of them.
    pub proof fn lemma_lookup_roundtrip(self, packed: PackedSdkInfo, i: int, j: int, addr: u64)
        requires
            self.wf(),
            self.contents(packed).fits(),
            0 <= i < self.variants.len(),
            0 <= j < self.variants[i].len(),
            self.variants[i][j].spec_addr() <= addr,
            j + 1 < self.variants[i].len() ==> addr < self.variants[i][j + 1].spec_addr(),
        ensures
            spec_lookup(self.contents(packed).file(), self.uuids[i].uuid, addr) == self.spec_entry(
                self.variants[i][j],
            ),
    {
        let c = self.contents(packed);
        let keys = uuid_sort_keys(self.uuids);
        let perm = stable_perm(keys);
        self.lemma_uuid_perm();
        self.lemma_contents_wf(packed);
        assert(perm_holds(perm, i));
        let k = choose|k: int| 0 <= k < perm.len() && #[trigger] perm[k] == i;
        assert(c.uuids[k] == self.uuids[i]);
        assert(self.uuids[i].idx == i);
        c.lemma_lookup_finds(k, j, addr);
        let item = self.variants[i][j];
        if !item.spec_is_end_marker() {
            assert(item.src_id < self.object_names.len());
            assert(item.sym_id < self.symbols.len());
            encode_utf8_decode_utf8(self.object_names[item.src_id as int]);
            encode_utf8_decode_utf8(self.symbols[item.sym_id as int]);
        }
    }

    /// A lookup below the first address of a variant finds nothing.
    pub proof fn lemma_lookup_below(self, packed: PackedSdkInfo, i: int, addr: u64)
        requires
            self.wf(),
            self.contents(packed).fits(),
            0 <= i < self.variants.len(),
            self.variants[i].len() == 0 || addr < self.variants[i][0].spec_addr(),
        ensures
            spec_lookup(self.contents(packed).file(), self.uuids[i].uuid, addr) == Ok::<
                Option<SymbolView>,
                ErrorKind,
            >(None),
    {
        let c = self.contents(packed);
        let keys = uuid_sort_keys(self.uuids);
        let perm = stable_perm(keys);
        self.lemma_uuid_perm();
        self.lemma_contents_wf(packed);
        assert(perm_holds(perm, i));
        let k = choose|k: int| 0 <= k < perm.len() && #[trigger] perm[k] == i;
        assert(c.uuids[k] == self.uuids[i]);
        assert(self.uuids[i].idx == i);
        c.lemma_lookup_below_first(k, addr);
    }

    /// A lookup at or behind the address of the entry that marks the
    /// end of a variant finds nothing, where that entry is the last of
    /// the variant.
    pub proof fn lemma_lookup_behind_end(self, packed: PackedSdkInfo, i: int, addr: u64)
        requires
            self.wf(),
            self.contents(packed).fits(),
            0 <= i < self.variants.len(),
            self.variants[i].len() > 0,
            self.variants[i].last().spec_is_end_marker(),
            self.variants[i].last().spec_addr() <= addr,
        ensures
            spec_lookup(self.contents(packed).file(), self.uuids[i].uuid, addr) == Ok::<
                Option<SymbolView>,
                ErrorKind,
            >(None),
    {
        self.lemma_lookup_roundtrip(packed, i, self.variants[i].len() - 1, addr);
    }

    /// Each interned symbol name has one id, and a reader finds the
    /// name at that id: the symbol table of the file gives, for every
    /// id, the name with that id, and no name stands at two ids.
    pub proof fn lemma_symbol_ids(self, packed: PackedSdkInfo, id: int, other: int)
        requires
            self.wf(),
            self.contents(packed).fits(),
            0 <= id < self.symbols.len(),
            0 <= other < self.symbols.len(),
        ensures
            spec_string(
                self.contents(packed).file(),
                crate::memdb::read::symbols_start(self.contents(packed).file()),
                crate::memdb::read::symbols_count(self.contents(packed).file()),
                id,
            ) == Ok::<Seq<char>, ErrorKind>(self.symbols[id]),
            self.symbols[id] == self.symbols[other] ==> id == other,
    {
        let c = self.contents(packed);
        self.lemma_contents_wf(packed);
        c.lemma_read_symbol(id);
        encode_utf8_decode_utf8(self.symbols[id]);
        if id < other {
            assert(self.symbols[id] != self.symbols[other]);
        } else if other < id {
            assert(self.symbols[other] != self.symbols[id]);
        }
    }
}

/// Every sequence of keys has a stable sort.
pub proof fn lemma_stable_perm_exists(keys: Seq<u128>)
    requires
        keys.len() <= usize::MAX,
    ensures
        is_stable_sort_perm(keys, stable_perm(keys)),
    decreases keys.len(),
{
    if keys.len() == 0 {
        let p = Seq::<usize>::empty();
        assert(is_stable_sort_perm(keys, p));
    } else {
        let head = keys.drop_last();
        lemma_stable_perm_exists(head);
        let hp = stable_perm(head);
        let n = head.len() as int;
        let x = keys.last();
        // the new position goes behind the last position whose key is at most its key
        let at = insert_place(head, hp, x);
        lemma_insert_place(head, hp, x);
        let p = hp.take(at).push(n as usize) + hp.skip(at);
        assert(p.len() == keys.len());
        assert(p[at] == n);
        assert(keys[n] == x);
        assert forall|j: int| 0 <= j < p.len() && j != at implies keys[(#[trigger] p[j]) as int]
            == head[p[j] as int] && p[j] < n && p[j] == hp[if j < at {
            j
        } else {
            j - 1
        }] by {
            if j < at {
                assert(p[j] == hp[j]);
            } else {
                assert(p[j] == hp[j - 1]);
            }
        }
        assert forall|i: int| 0 <= i < keys.len() implies #[trigger] perm_holds(p, i) by {
            if i == n {
                assert(p[at] == i);
            } else {
                assert(perm_holds(hp, i));
                let j = choose|j: int| 0 <= j < hp.len() && #[trigger] hp[j] == i;
                if j < at {
                    assert(p[j] == i);
                } else {
                    assert(p[j + 1] == hp[j]);
                    assert(p[j + 1] == i);
                }
            }
        }
        assert forall|j: int, k: int| 0 <= j < k < p.len() implies (#[trigger] p[j]) != (
        #[trigger] p[k]) && keys[p[j] as int] <= keys[p[k] as int] && (keys[p[j] as int]
            == keys[p[k] as int] ==> p[j] < p[k]) by {
            if j != at && k != at {
                let a = if j < at {
                    j
                } else {
                    j - 1
                };
                let b = if k < at {
                    k
                } else {
                    k - 1
                };
                assert(p[j] == hp[a]);
                assert(p[k] == hp[b]);
                assert(a < b);
                assert(hp[a] != hp[b]);
                assert(head[hp[a] as int] <= head[hp[b] as int]);
            } else if j == at {
                assert(p[k] == hp[k - 1]);
                assert(x < head[hp[k - 1] as int]);
            } else {
                assert(p[j] == hp[j]);
                assert(head[hp[j] as int] <= x);
            }
        }
        assert(is_stable_sort_perm(keys, p));
    }
}

/// The number of places of `perm`, counted from its start, whose keys
/// are at most `x`, where `perm` sorts `keys`.
pub open spec fn insert_place(keys: Seq<u128>, perm: Seq<usize>, x: u128) -> int
    decreases perm.len(),
{
    if perm.len() == 0 {
        0
    } else if keys[perm.last() as int] <= x {
        perm.len() as int
    } else {
        insert_place(keys, perm.drop_last(), x)
    }
}

/// Before the place of insertion all keys are at most `x`; from it on
/// all keys are above.
pub proof fn lemma_insert_place(keys: Seq<u128>, perm: Seq<usize>, x: u128)
    requires
        forall|j: int, k: int|
            0 <= j < k < perm.len() ==> keys[(#[trigger] perm[j]) as int] <= keys[(
            #[trigger] perm[k]) as int],
    ensures
        0 <= insert_place(keys, perm, x) <= perm.len(),
        forall|j: int| 0 <= j < insert_place(keys, perm, x) ==> keys[(#[trigger] perm[j]) as int] <= x,
        forall|j: int|
            insert_place(keys, perm, x) <= j < perm.len() ==> x < keys[(#[trigger] perm[j]) as int],
    decreases perm.len(),
{
    if perm.len() > 0 {
        if keys[perm.last() as int] <= x {
            assert forall|j: int| 0 <= j < perm.len() implies keys[(#[trigger] perm[j]) as int]
                <= x by {
                if j < perm.len() - 1 {
                    assert(keys[perm[j] as int] <= keys[perm[perm.len() - 1] as int]);
                }
            }
        } else {
            let head = perm.drop_last();
            assert forall|j: int, k: int| 0 <= j < k < head.len() implies keys[(
            #[trigger] head[j]) as int] <= keys[(#[trigger] head[k]) as int] by {
                assert(head[j] == perm[j] && head[k] == perm[k]);
            }
            lemma_insert_place(keys, head, x);
            assert forall|j: int| insert_place(keys, perm, x) <= j < perm.len() implies x < keys[(
            #[trigger] perm[j]) as int] by {
                if j < perm.len() - 1 {
                    assert(head[j] == perm[j]);
                }
            }
            assert forall|j: int| 0 <= j < insert_place(keys, perm, x) implies keys[(
            #[trigger] perm[j]) as int] <= x by {
                assert(head[j] == perm[j]);
            }
        }
    }
}

/// An entry that is made from an address of 48 bits and from ids within
/// their ranges holds that address and those ids.
pub proof fn lemma_new_item(addr: int, src_id: int, sym_id: int)
    requires
        0 <= addr < ADDR_LIMIT,
        0 <= src_id < MAX_OBJECTS,
        0 <= sym_id < MAX_SYMBOLS,
    ensures
        IndexItem::spec_new(addr, src_id, sym_id).spec_addr() == addr,
        IndexItem::spec_new(addr, src_id, sym_id).src_id == src_id,
        IndexItem::spec_new(addr, src_id, sym_id).sym_id == sym_id,
        !IndexItem::spec_new(addr, src_id, sym_id).spec_is_end_marker(),
        IndexItem::spec_end_marker(addr, src_id).spec_addr() == addr,
        IndexItem::spec_end_marker(addr, src_id).src_id == src_id,
        IndexItem::spec_end_marker(addr, src_id).spec_is_end_marker(),
{
}

/// A name that is interned stands in the list at its id.
pub proof fn lemma_intern(list: Seq<Seq<char>>, s: Seq<char>)
    ensures
        0 <= intern_id(list, s) < intern(list, s).len(),
        intern(list, s)[intern_id(list, s)] == s,
        intern(list, s).len() <= list.len() + 1,
        forall|i: int| 0 <= i < list.len() ==> intern(list, s)[i] == list[i],
{
    if list.contains(s) {
        let i = list.index_of(s);
        assert(0 <= i < list.len() && list[i] == s);
    }
}

/// The entries of the symbols of a variant, before they are sorted,
/// hold the relative addresses of the symbols and the ids of their
/// names in the list of all names that were interned.
pub proof fn lemma_raw_symbol_items(
    symbols: Seq<Seq<char>>,
    entries: Seq<(u64, Seq<char>)>,
    vmaddr: u64,
    src_id: int,
    m: int,
)
    requires
        no_duplicates(symbols),
        symbols.len() + entries.len() <= MAX_SYMBOLS,
        0 <= src_id < MAX_OBJECTS,
        0 <= m < entries.len(),
        vmaddr <= entries[m].0,
        entries[m].0 - vmaddr < ADDR_LIMIT,
    ensures
        raw_symbol_items(symbols, entries, vmaddr, src_id)[m].spec_addr() == entries[m].0
            - vmaddr,
        raw_symbol_items(symbols, entries, vmaddr, src_id)[m].src_id == src_id,
        !raw_symbol_items(symbols, entries, vmaddr, src_id)[m].spec_is_end_marker(),
        raw_symbol_items(symbols, entries, vmaddr, src_id)[m].sym_id < intern_all(
            symbols,
            entries,
        ).len(),
        intern_all(symbols, entries)[raw_symbol_items(
            symbols,
            entries,
            vmaddr,
            src_id,
        )[m].sym_id as int] == entries[m].1,
{
    let before = intern_all(symbols, entries.take(m));
    let after = intern_all(symbols, entries.take(m + 1));
    let id = intern_id(before, entries[m].1);
    lemma_intern_all(symbols, entries.take(m));
    lemma_intern_all(symbols, entries);
    assert(entries.take(m + 1).drop_last() =~= entries.take(m));
    assert(entries.take(m + 1).last() == entries[m]);
    assert(after == intern(before, entries[m].1));
    lemma_intern(before, entries[m].1);
    lemma_intern_prefix(symbols, entries, m + 1);
    lemma_new_item(entries[m].0 - vmaddr, src_id, id);
}

impl BuilderView {
    /// Taking in a variant that was not seen before leaves the builder
    /// well formed.
    pub proof fn lemma_written_wf(
        self,
        arch: Seq<char>,
        vmaddr: u64,
        vmsize: u64,
        entries: Seq<(u64, Seq<char>)>,
        uuid: Uuid,
        src: Seq<char>,
    )
        requires
            self.wf(),
            can_be_tagged(src, arch),
            !self.uuid_set().contains(uuid.value),
            self.accepts(vmaddr, vmsize, entries, src),
        ensures
            self.written(arch, vmaddr, vmsize, entries, uuid, src).wf(),
    {
        let w = self.written(arch, vmaddr, vmsize, entries, uuid, src);
        let src_id = intern_id(self.object_names, src);
        let raw = raw_items(self.symbols, entries, vmaddr, vmsize, src_id);
        let keys = item_sort_keys(raw);
        let perm = stable_perm(keys);
        let new = sorted_items(raw);
        lemma_intern(self.object_names, src);
        lemma_intern_all(self.symbols, entries);
        lemma_stable_perm_exists(keys);
        assert(no_duplicates(w.object_names)) by {
            if !self.object_names.contains(src) {
                assert forall|i: int, j: int| 0 <= i < j < w.object_names.len() implies w.object_names[i]
                    != w.object_names[j] by {
                    if j == self.object_names.len() {
                        if w.object_names[i] == src {
                            assert(self.object_names[i] == src);
                        }
                    } else {
                        assert(self.object_names[i] != self.object_names[j]);
                    }
                }
            }
        }
        assert forall|k: int| 0 <= k < raw.len() implies (#[trigger] raw[k]).src_id
            < w.object_names.len() && (raw[k].spec_is_end_marker() || raw[k].sym_id
            < w.symbols.len()) by {
            if k < entries.len() {
                lemma_raw_symbol_items(self.symbols, entries, vmaddr, src_id, k);
                assert(raw[k] == raw_symbol_items(self.symbols, entries, vmaddr, src_id)[k]);
            } else {
                lemma_new_item(vmsize as int, src_id, 0);
            }
        }
        assert forall|j: int, l: int| 0 <= j <= l < new.len() implies new[j].spec_addr()
            <= new[l].spec_addr() by {
            if j < l {
                assert(keys[perm[j] as int] <= keys[perm[l] as int]);
            }
            assert(keys[perm[j] as int] == raw[perm[j] as int].spec_addr() as u128);
            assert(keys[perm[l] as int] == raw[perm[l] as int].spec_addr() as u128);
        }
        assert forall|i: int, j: int, l: int|
            0 <= i < w.variants.len() && 0 <= j <= l < w.variants[i].len() implies (
        #[trigger] w.variants[i][j]).spec_addr() <= (#[trigger] w.variants[i][l]).spec_addr() by {
            if i < self.variants.len() {
                assert(w.variants[i] == self.variants[i]);
                assert(self.variants[i][j].spec_addr() <= self.variants[i][l].spec_addr());
            } else {
                assert(w.variants[i] == new);
            }
        }
        assert forall|i: int, j: int|
            0 <= i < w.variants.len() && 0 <= j < w.variants[i].len() implies {
            let item = #[trigger] w.variants[i][j];
            item.src_id < w.object_names.len() && (item.spec_is_end_marker() || item.sym_id
                < w.symbols.len())
        } by {
            if i < self.variants.len() {
                assert(w.variants[i] == self.variants[i]);
                let item = self.variants[i][j];
                assert(item.src_id < self.object_names.len());
            } else {
                assert(w.variants[i] == new);
                assert(new[j] == raw[perm[j] as int]);
            }
        }
        assert forall|i: int, j: int| 0 <= i < j < w.uuids.len() implies (
        #[trigger] w.uuids[i]).uuid != (#[trigger] w.uuids[j]).uuid by {
            if j == self.uuids.len() {
                assert(self.uuids[i] == w.uuids[i]);
                if w.uuids[i].uuid == uuid {
                    assert(self.uuid_set().contains(uuid.value));
                }
            } else {
                assert(self.uuids[i].uuid != self.uuids[j].uuid);
            }
        }
        assert forall|i: int| 0 <= i < w.uuids.len() implies (#[trigger] w.uuids[i]).idx == i by {
            if i < self.uuids.len() {
                assert(self.uuids[i].idx == i);
            }
        }
    }

    /// What was written is found, whatever is written after it: once a
    /// variant that was not seen before is taken in, a lookup by its
    /// UUID at the relative address of one of its symbols gives the
    /// name of that symbol and the name of the object, in the file of
    /// every later state of the builder, provided that no symbol of the
    /// variant given later has the same address and that the address is
    /// not that of the end of the image.
    pub proof fn lemma_written_symbol_stays_found(
        self,
        later: BuilderView,
        packed: PackedSdkInfo,
        arch: Seq<char>,
        vmaddr: u64,
        vmsize: u64,
        entries: Seq<(u64, Seq<char>)>,
        uuid: Uuid,
        src: Seq<char>,
        m: int,
    )
        requires
            self.wf(),
            can_be_tagged(src, arch),
            !self.uuid_set().contains(uuid.value),
            self.accepts(vmaddr, vmsize, entries, src),
            later.wf(),
            later.extends(self.written(arch, vmaddr, vmsize, entries, uuid, src)),
            later.contents(packed).fits(),
            0 <= m < entries.len(),
            forall|l: int| m < l < entries.len() ==> (#[trigger] entries[l]).0 != entries[m].0,
            vmsize == 0 || entries[m].0 - vmaddr != vmsize,
        ensures
            spec_lookup(later.contents(packed).file(), uuid, (entries[m].0 - vmaddr) as u64) == Ok::<
                Option<SymbolView>,
                ErrorKind,
            >(
                Some(
                    SymbolView {
                        object_name: src,
                        symbol: entries[m].1,
                        addr: (entries[m].0 - vmaddr) as u64,
                    },
                ),
            ),
    {
        let w = self.written(arch, vmaddr, vmsize, entries, uuid, src);
        let src_id = intern_id(self.object_names, src);
        let raw = raw_items(self.symbols, entries, vmaddr, vmsize, src_id);
        let keys = item_sort_keys(raw);
        let perm = stable_perm(keys);
        let new = sorted_items(raw);
        let i = self.variants.len() as int;
        let rel = entries[m].0 - vmaddr;
        self.lemma_written_wf(arch, vmaddr, vmsize, entries, uuid, src);
        lemma_stable_perm_exists(keys);
        lemma_intern(self.object_names, src);
        lemma_raw_symbol_items(self.symbols, entries, vmaddr, src_id, m);
        assert(raw[m] == raw_symbol_items(self.symbols, entries, vmaddr, src_id)[m]);
        assert(perm_holds(perm, m));
        let j = choose|j: int| 0 <= j < perm.len() && #[trigger] perm[j] == m;
        assert(w.variants[i] == new);
        assert(new[j] == raw[m]);
        assert(w.uuids[i].uuid == uuid);
        if j + 1 < new.len() {
            let l = perm[j + 1] as int;
            assert(keys[perm[j] as int] <= keys[perm[j + 1] as int]);
            assert(keys[m] == raw[m].spec_addr() as u128);
            assert(keys[l] == raw[l].spec_addr() as u128);
            assert(new[j + 1] == raw[l]);
            if raw[l].spec_addr() == rel {
                assert(perm[j] < perm[j + 1]);
                if l < entries.len() {
                    lemma_raw_symbol_items(self.symbols, entries, vmaddr, src_id, l);
                    assert(raw[l] == raw_symbol_items(self.symbols, entries, vmaddr, src_id)[l]);
                    assert(entries[l].0 != entries[m].0);
                } else {
                    lemma_new_item(vmsize as int, src_id, 0);
                }
            }
        }
        let item = new[j];
        assert(!item.spec_is_end_marker());
        assert(w.variants[i][j] == item);
        assert(item.src_id < w.object_names.len() && item.sym_id < w.symbols.len());
        assert(w.spec_entry(item) == Ok::<Option<SymbolView>, ErrorKind>(
            Some(SymbolView { object_name: src, symbol: entries[m].1, addr: rel as u64 }),
        ));
        assert(later.variants[i] == w.variants[i]);
        assert(later.uuids[i] == w.uuids[i]);
        assert(later.object_names[item.src_id as int] == w.object_names[item.src_id as int]);
        assert(later.symbols[item.sym_id as int] == w.symbols[item.sym_id as int]);
        later.lemma_lookup_roundtrip(packed, i, j, rel as u64);
    }


    /// What was written is found: once a variant that was not seen
    /// before is taken in, a lookup by its UUID at the relative address
    /// of one of its symbols gives the name of that symbol and the name
    /// of the object, provided that no symbol given later has the same
    /// address and that the address is not that of the end of the image.
    pub proof fn lemma_written_symbol_is_found(
        self,
        packed: PackedSdkInfo,
        arch: Seq<char>,
        vmaddr: u64,
        vmsize: u64,
        entries: Seq<(u64, Seq<char>)>,
        uuid: Uuid,
        src: Seq<char>,
        m: int,
    )
        requires
            self.wf(),
            can_be_tagged(src, arch),
            !self.uuid_set().contains(uuid.value),
            self.accepts(vmaddr, vmsize, entries, src),
            self.written(arch, vmaddr, vmsize, entries, uuid, src).contents(packed).fits(),
            0 <= m < entries.len(),
            forall|l: int| m < l < entries.len() ==> (#[trigger] entries[l]).0 != entries[m].0,
            vmsize == 0 || entries[m].0 - vmaddr != vmsize,
        ensures
            spec_lookup(
                self.written(arch, vmaddr, vmsize, entries, uuid, src).contents(packed).file(),
                uuid,
                (entries[m].0 - vmaddr) as u64,
            ) == Ok::<Option<SymbolView>, ErrorKind>(
                Some(
                    SymbolView {
                        object_name: src,
                        symbol: entries[m].1,
                        addr: (entries[m].0 - vmaddr) as u64,
                    },
                ),
            ),
    {
        let w = self.written(arch, vmaddr, vmsize, entries, uuid, src);
        self.lemma_written_wf(arch, vmaddr, vmsize, entries, uuid, src);
        self.lemma_written_symbol_stays_found(
            w,
            packed,
            arch,
            vmaddr,
            vmsize,
            entries,
            uuid,
            src,
            m,
        );
    }

    /// A lookup at or behind the end of the image of a variant finds
    /// nothing, whatever is written after the variant, where the size
    /// of the image is known and no symbol lies behind the end.
    pub proof fn lemma_nothing_stays_found_behind_the_end(
        self,
        later: BuilderView,
        packed: PackedSdkInfo,
        arch: Seq<char>,
        vmaddr: u64,
        vmsize: u64,
        entries: Seq<(u64, Seq<char>)>,
        uuid: Uuid,
        src: Seq<char>,
        addr: u64,
    )
        requires
            self.wf(),
            can_be_tagged(src, arch),
            !self.uuid_set().contains(uuid.value),
            self.accepts(vmaddr, vmsize, entries, src),
            later.wf(),
            later.extends(self.written(arch, vmaddr, vmsize, entries, uuid, src)),
            later.contents(packed).fits(),
            vmsize > 0,
            forall|l: int| 0 <= l < entries.len() ==> (#[trigger] entries[l]).0 - vmaddr <= vmsize,
            addr >= vmsize,
        ensures
            spec_lookup(later.contents(packed).file(), uuid, addr) == Ok::<
                Option<SymbolView>,
                ErrorKind,
            >(None),
    {
        let w = self.written(arch, vmaddr, vmsize, entries, uuid, src);
        let src_id = intern_id(self.object_names, src);
        let raw = raw_items(self.symbols, entries, vmaddr, vmsize, src_id);
        let keys = item_sort_keys(raw);
        let perm = stable_perm(keys);
        let new = sorted_items(raw);
        let i = self.variants.len() as int;
        let n = raw.len() as int;
        self.lemma_written_wf(arch, vmaddr, vmsize, entries, uuid, src);
        lemma_stable_perm_exists(keys);
        lemma_intern(self.object_names, src);
        lemma_new_item(vmsize as int, src_id, 0);
        assert(raw[n - 1] == IndexItem::spec_end_marker(vmsize as int, src_id));
        assert(keys[n - 1] == vmsize);
        // the entry that marks the end is the last of the sorted entries
        assert(perm_holds(perm, n - 1));
        let k = choose|k: int| 0 <= k < perm.len() && #[trigger] perm[k] == n - 1;
        if k < n - 1 {
            let l = perm[k + 1] as int;
            assert(perm[k] != perm[k + 1]);
            assert(keys[perm[k] as int] <= keys[perm[k + 1] as int]);
            lemma_raw_symbol_items(self.symbols, entries, vmaddr, src_id, l);
            assert(raw[l] == raw_symbol_items(self.symbols, entries, vmaddr, src_id)[l]);
            assert(keys[l] == raw[l].spec_addr() as u128);
            assert(perm[k] < perm[k + 1]);
        }
        assert(new[n - 1] == raw[n - 1]);
        assert(w.variants[i] == new);
        assert(w.uuids[i].uuid == uuid);
        assert(new[n - 1].spec_is_end_marker());
        assert(later.variants[i] == w.variants[i]);
        assert(later.uuids[i] == w.uuids[i]);
        later.lemma_lookup_behind_end(packed, i, addr);
    }


    /// A lookup at or behind the end of the image of a variant finds
    /// nothing, where the size of the image is known and no symbol lies
    /// behind the end.
    pub proof fn lemma_nothing_is_found_behind_the_end(
        self,
        packed: PackedSdkInfo,
        arch: Seq<char>,
        vmaddr: u64,
        vmsize: u64,
        entries: Seq<(u64, Seq<char>)>,
        uuid: Uuid,
        src: Seq<char>,
        addr: u64,
    )
        requires
            self.wf(),
            can_be_tagged(src, arch),
            !self.uuid_set().contains(uuid.value),
            self.accepts(vmaddr, vmsize, entries, src),
            self.written(arch, vmaddr, vmsize, entries, uuid, src).contents(packed).fits(),
            vmsize > 0,
            forall|l: int| 0 <= l < entries.len() ==> (#[trigger] entries[l]).0 - vmaddr <= vmsize,
            addr >= vmsize,
        ensures
            spec_lookup(
                self.written(arch, vmaddr, vmsize, entries, uuid, src).contents(packed).file(),
                uuid,
                addr,
            ) == Ok::<Option<SymbolView>, ErrorKind>(None),
    {
        let w = self.written(arch, vmaddr, vmsize, entries, uuid, src);
        self.lemma_written_wf(arch, vmaddr, vmsize, entries, uuid, src);
        self.lemma_nothing_stays_found_behind_the_end(
            w,
            packed,
            arch,
            vmaddr,
            vmsize,
            entries,
            uuid,
            src,
            addr,
        );
    }

    /// The addresses of a symbol index are in strictly ascending order
    /// where no two entries of the variant were given the same address.
    pub proof fn lemma_index_strictly_ascending(raw: Seq<IndexItem>)
        requires
            raw.len() <= usize::MAX,
            forall|a: int, b: int|
                0 <= a < b < raw.len() ==> (#[trigger] raw[a]).spec_addr() != (
                #[trigger] raw[b]).spec_addr(),
        ensures
            forall|j: int, l: int|
                0 <= j < l < sorted_items(raw).len() ==> (
                #[trigger] sorted_items(raw)[j]).spec_addr() < (
                #[trigger] sorted_items(raw)[l]).spec_addr(),
    {
        let keys = item_sort_keys(raw);
        let perm = stable_perm(keys);
        let new = sorted_items(raw);
        lemma_stable_perm_exists(keys);
        assert forall|j: int, l: int| 0 <= j < l < new.len() implies (
        #[trigger] new[j]).spec_addr() < (#[trigger] new[l]).spec_addr() by {
            let a = perm[j] as int;
            let b = perm[l] as int;
            assert(keys[a] <= keys[b]);
            assert(a != b);
            assert(keys[a] == raw[a].spec_addr() as u128);
            assert(keys[b] == raw[b].spec_addr() as u128);
            if a < b {
                assert(raw[a].spec_addr() != raw[b].spec_addr());
            } else {
                assert(raw[b].spec_addr() != raw[a].spec_addr());
            }
        }
    }
}

/// The position of the first of the records from `from` on that
/// matches, or -1 where none does.
pub open spec fn first_match(records: Seq<Seq<u8>>, wanted: Seq<u8>, fuzzy: bool, from: int) -> int
    decreases records.len() - from,
{
    if from < 0 || from >= records.len() {
        -1
    } else if record_matches(records[from], wanted, fuzzy) {
        from
    } else {
        first_match(records, wanted, fuzzy, from + 1)
    }
}

/// No record holds a zero byte.
pub open spec fn no_zero_bytes(records: Seq<Seq<u8>>) -> bool {
    forall|k: int, q: int|
        0 <= k < records.len() && 0 <= q < records[k].len() ==> (#[trigger] records[k][q]) != 0
}

/// Inside a record the scan goes on to the zero byte that ends it.
proof fn lemma_scan_inside_record(
    records: Seq<Seq<u8>>,
    wanted: Seq<u8>,
    fuzzy: bool,
    k: int,
    q: int,
)
    requires
        no_zero_bytes(records),
        0 <= k < records.len(),
        0 <= q <= records[k].len(),
    ensures
        spec_scan_tagged(
            concat_blocks(tagged_blocks(records)),
            block_offset(tagged_blocks(records), k),
            block_offset(tagged_blocks(records), k) + q,
            k,
            wanted,
            fuzzy,
        ) == spec_scan_tagged(
            concat_blocks(tagged_blocks(records)),
            block_offset(tagged_blocks(records), k),
            block_offset(tagged_blocks(records), k) + records[k].len(),
            k,
            wanted,
            fuzzy,
        ),
    decreases records[k].len() - q,
{
    if q < records[k].len() {
        let blocks = tagged_blocks(records);
        let region = concat_blocks(blocks);
        let p = block_offset(blocks, k);
        lemma_block_at(blocks, k);
        assert(region.subrange(p, p + blocks[k].len())[q] == region[p + q]);
        assert(blocks[k][q] == records[k][q]);
        lemma_scan_inside_record(records, wanted, fuzzy, k, q + 1);
    }
}

/// At the start of a record the scan gives the index of the record
/// where it matches, and goes on with the next record where not.
proof fn lemma_scan_record(records: Seq<Seq<u8>>, wanted: Seq<u8>, fuzzy: bool, k: int)
    requires
        no_zero_bytes(records),
        0 <= k < records.len(),
    ensures
        spec_scan_tagged(
            concat_blocks(tagged_blocks(records)),
            block_offset(tagged_blocks(records), k),
            block_offset(tagged_blocks(records), k),
            k,
            wanted,
            fuzzy,
        ) == (if record_matches(records[k], wanted, fuzzy) {
            Ok::<Option<int>, ErrorKind>(Some(k))
        } else {
            spec_scan_tagged(
                concat_blocks(tagged_blocks(records)),
                block_offset(tagged_blocks(records), k + 1),
                block_offset(tagged_blocks(records), k + 1),
                k + 1,
                wanted,
                fuzzy,
            )
        }),
{
    let blocks = tagged_blocks(records);
    let region = concat_blocks(blocks);
    let p = block_offset(blocks, k);
    let n = records[k].len() as int;
    lemma_scan_inside_record(records, wanted, fuzzy, k, 0);
    lemma_block_at(blocks, k);
    lemma_concat_step(blocks, k);
    assert(blocks[k] == records[k] + seq![0u8]);
    assert(region.subrange(p, p + blocks[k].len())[n] == region[p + n]);
    assert(region[p + n] == 0);
    assert(region.subrange(p, p + n) =~= records[k]) by {
        assert forall|q: int| 0 <= q < n implies region.subrange(p, p + n)[q] == records[k][q] by {
            assert(region.subrange(p, p + blocks[k].len())[q] == region[p + q]);
        }
    }
}

/// A scan of the tagged object names from the start of record `k` on
/// finds the first record from `k` on that matches.
pub proof fn lemma_scan_tagged(records: Seq<Seq<u8>>, wanted: Seq<u8>, fuzzy: bool, k: int)
    requires
        no_zero_bytes(records),
        0 <= k <= records.len(),
    ensures
        spec_scan_tagged(
            concat_blocks(tagged_blocks(records)),
            block_offset(tagged_blocks(records), k),
            block_offset(tagged_blocks(records), k),
            k,
            wanted,
            fuzzy,
        ) == (if first_match(records, wanted, fuzzy, k) >= 0 {
            Ok::<Option<int>, ErrorKind>(Some(first_match(records, wanted, fuzzy, k)))
        } else {
            Ok::<Option<int>, ErrorKind>(None)
        }),
    decreases records.len() - k,
{
    let blocks = tagged_blocks(records);
    if k < records.len() {
        lemma_scan_record(records, wanted, fuzzy, k);
        lemma_scan_tagged(records, wanted, fuzzy, k + 1);
    } else {
        lemma_offset_of_end(blocks);
    }
}

impl BuilderView {
    /// The table of UUIDs of the file is in strictly ascending order.
    pub proof fn lemma_uuid_table_sorted(self, packed: PackedSdkInfo, k: int, l: int)
        requires
            self.wf(),
            self.contents(packed).fits(),
            0 <= k < l < self.uuids.len(),
        ensures
            uuid_entry(self.contents(packed).file(), k).uuid.value < uuid_entry(
                self.contents(packed).file(),
                l,
            ).uuid.value,
    {
        let c = self.contents(packed);
        self.lemma_contents_wf(packed);
        c.lemma_read_uuid(k);
        c.lemma_read_uuid(l);
        assert(c.uuids[k].uuid.value < c.uuids[l].uuid.value);
    }

    /// Where every variant was met once, the tagged object names stand
    /// in the order of the table of UUIDs. The part of the file that
    /// the header gives to them is the names one after the other, each
    /// followed by the zero byte that ends it, and no name holds a zero
    /// byte. The name at position `k` is that of the variant whose UUID
    /// stands at position `k` of the table; a search for that name
    /// gives that UUID, unless an earlier name is the same.
    pub proof fn lemma_tagged_names_parallel(self, packed: PackedSdkInfo, k: int)
        requires
            self.wf(),
            self.contents(packed).fits(),
            self.tagged.len() == self.uuids.len(),
            forall|t: int| 0 <= t < self.tagged.len() ==> (#[trigger] self.tagged[t]).1
                == self.uuids[t].uuid,
            0 <= k < self.tagged.len(),
        ensures
            ({
                let f = self.contents(packed).file();
                let names = sorted_tagged(self.tagged);
                let t = stable_perm(tagged_sort_keys(self.tagged))[k] as int;
                &&& tagged_start(f) <= tagged_end(f) <= f.len()
                &&& f.subrange(tagged_start(f), tagged_end(f)) == concat_blocks(
                    tagged_blocks(names),
                )
                &&& no_zero_bytes(names)
                &&& 0 <= t < self.tagged.len()
                &&& names[k] == encode_utf8(self.tagged[t].0)
                &&& uuid_entry(f, k).uuid == self.tagged[t].1
                &&& first_match(names, names[k], false, 0) == k ==> spec_find_tagged(
                    f,
                    names[k],
                    false,
                ) == Ok::<Option<Uuid>, ErrorKind>(Some(uuid_entry(f, k).uuid))
            }),
    {
        let c = self.contents(packed);
        let f = c.file();
        let records = sorted_tagged(self.tagged);
        let perm = stable_perm(tagged_sort_keys(self.tagged));
        self.lemma_contents_wf(packed);
        c.lemma_read_header();
        c.lemma_part_tagged_names();
        c.lemma_offsets_ordered();
        c.lemma_read_uuid(k);
        assert(tagged_sort_keys(self.tagged) =~= uuid_sort_keys(self.uuids));
        self.lemma_uuid_perm();
        assert forall|i: int, q: int| 0 <= i < records.len() && 0 <= q < records[i].len() implies (
        #[trigger] records[i][q]) != 0 by {
            let t = perm[i] as int;
            assert(0 <= t < self.tagged.len());
            assert(has_no_zero(encode_utf8(self.tagged[t].0)));
        }
        if first_match(records, records[k], false, 0) == k {
            lemma_scan_tagged(records, records[k], false, 0);
            assert(tagged_blocks(records).take(0) =~= Seq::<Seq<u8>>::empty());
        }
    }
}

/// A text that is padded with zero bytes reads back as the text, where
/// its own bytes do not end in a zero byte.
pub proof fn lemma_padded_text(text: Seq<char>, field: Seq<u8>)
    requires
        encode_utf8(text).len() <= field.len(),
        field == encode_utf8(text) + Seq::new(
            (field.len() - encode_utf8(text).len()) as nat,
            |i: int| 0u8,
        ),
        encode_utf8(text).len() > 0 ==> encode_utf8(text).last() != 0,
    ensures
        crate::memdb::types::spec_str_from_zero_slice(field) == Some(text),
{
    let bytes = encode_utf8(text);
    assert(field.take(bytes.len() as int) =~= bytes);
    lemma_trim_zeros_padded(bytes, field);
    encode_utf8_valid_utf8(text);
    encode_utf8_decode_utf8(text);
}

impl BuilderView {
    /// A file gives back the SDK that it was written for, where neither
    /// the name nor the build of the SDK end in a zero byte and the
    /// build, if there is one, is not empty.
    pub proof fn lemma_info_roundtrip(self, packed: PackedSdkInfo)
        requires
            is_packed_of(packed, self.info),
            self.contents(packed).fits(),
            encode_utf8(self.info.name).len() > 0 ==> encode_utf8(self.info.name).last() != 0,
            self.info.build matches Some(b) ==> b.len() > 0 && encode_utf8(b).len() > 0
                && encode_utf8(b).last() != 0,
        ensures
            spec_open(self.contents(packed).file()) == Ok::<SdkInfoView, ErrorKind>(self.info),
    {
        let c = self.contents(packed);
        let f = c.file();
        c.lemma_read_header();
        c.lemma_offsets_ordered();
        reveal(MemDbContents::header);
        assert(c.header().sdk_info == packed);
        assert(f.subrange(4, 12) == packed.name@);
        assert(f.subrange(18, 28) == packed.build@);
        assert(packed.name@.len() == 8);
        assert(packed.build@.len() == 10);
        lemma_padded_text(self.info.name, packed.name@);
        match self.info.build {
            Some(b) => {
                lemma_padded_text(b, packed.build@);
            },
            None => {
                let empty = Seq::<char>::empty();
                assert(encode_utf8(empty) =~= Seq::<u8>::empty());
                assert(packed.build@ =~= encode_utf8(empty) + Seq::new(10, |i: int| 0u8));
                lemma_padded_text(empty, packed.build@);
            },
        }
    }
}

impl BuilderView {
    /// What keeps all that a builder holds that keeps all that another
    /// holds, keeps all that the other holds.
    pub proof fn lemma_extends_transitive(self, middle: BuilderView, earlier: BuilderView)
        requires
            self.extends(middle),
            middle.extends(earlier),
        ensures
            self.extends(earlier),
    {
        assert forall|i: int| 0 <= i < earlier.variants.len() implies #[trigger] self.variants[i]
            == earlier.variants[i] by {
            assert(middle.variants[i] == earlier.variants[i]);
        }
        assert forall|i: int| 0 <= i < earlier.uuids.len() implies #[trigger] self.uuids[i]
            == earlier.uuids[i] by {
            assert(middle.uuids[i] == earlier.uuids[i]);
        }
        assert forall|i: int| 0 <= i < earlier.symbols.len() implies #[trigger] self.symbols[i]
            == earlier.symbols[i] by {
            assert(middle.symbols[i] == earlier.symbols[i]);
        }
        assert forall|i: int| 0 <= i < earlier.object_names.len() implies (
        #[trigger] self.object_names[i]) == earlier.object_names[i] by {
            assert(middle.object_names[i] == earlier.object_names[i]);
        }
    }

    /// Whatever slice a builder is given, it stays well formed and
    /// keeps all that it holds.
    pub proof fn lemma_with_slice_extends(self, slice: ObjectSliceView, filename: Option<Seq<char>>)
        requires
            self.wf(),
        ensures
            self.with_slice(slice, filename).0.wf(),
            self.with_slice(slice, filename).0.extends(self),
    {
        let src = spec_source_name(slice.variant.name, filename);
        match slice.variant.uuid {
            None => {},
            Some(uuid) => {
                if !can_be_tagged(src, slice.variant.arch) {
                } else if self.uuid_set().contains(uuid.value) {
                    let after = self.met_again(slice.variant.arch, uuid, src);
                    assert forall|t: int| 0 <= t < after.tagged.len() implies has_no_zero(
                        encode_utf8((#[trigger] after.tagged[t]).0),
                    ) by {
                        if t < self.tagged.len() {
                            assert(after.tagged[t] == self.tagged[t]);
                        }
                    }
                } else if self.accepts(
                    slice.variant.vmaddr,
                    slice.variant.vmsize,
                    slice.symbols,
                    src,
                ) {
                    self.lemma_written_wf(
                        slice.variant.arch,
                        slice.variant.vmaddr,
                        slice.variant.vmsize,
                        slice.symbols,
                        uuid,
                        src,
                    );
                    lemma_intern(self.object_names, src);
                    lemma_intern_all(self.symbols, slice.symbols);
                }
            },
        }
    }

    /// Whatever slices a builder is given, it stays well formed and
    /// keeps all that it holds.
    pub proof fn lemma_with_slices_extends(
        self,
        slices: Seq<ObjectSliceView>,
        filename: Option<Seq<char>>,
    )
        requires
            self.wf(),
        ensures
            self.with_slices(slices, filename).0.wf(),
            self.with_slices(slices, filename).0.extends(self),
        decreases slices.len(),
    {
        if slices.len() > 0 {
            self.lemma_with_slices_extends(slices.drop_last(), filename);
            let (v, ok) = self.with_slices(slices.drop_last(), filename);
            if ok {
                v.lemma_with_slice_extends(slices.last(), filename);
                v.with_slice(slices.last(), filename).0.lemma_extends_transitive(v, self);
            }
        }
    }

    /// Whatever objects a builder is given, it stays well formed and
    /// keeps all that it holds: what was found in the file of a builder
    /// is found in the file of the builder that more was written to.
    pub proof fn lemma_with_objects_extends(
        self,
        objects: Seq<(Seq<char>, Seq<ObjectSliceView>)>,
    )
        requires
            self.wf(),
        ensures
            self.with_objects(objects).0.wf(),
            self.with_objects(objects).0.extends(self),
        decreases objects.len(),
    {
        if objects.len() > 0 {
            self.lemma_with_objects_extends(objects.drop_last());
            let (v, ok) = self.with_objects(objects.drop_last());
            if ok {
                v.lemma_with_slices_extends(objects.last().1, Some(objects.last().0));
                v.with_slices(objects.last().1, Some(objects.last().0)).0.lemma_extends_transitive(
                    v,
                    self,
                );
            }
        }
    }
}

} // verus!
