//! The layout of a memdb file.
//!
//! The file starts with the header. Behind it stand, in this order:
//! the symbol indexes of the variants; the table of variants, one
//! stored slice for each index; the table of UUIDs, in ascending order;
//! the tagged object names, each ended by a zero byte; the object
//! names; their table of stored slices; the symbols; their table of
//! stored slices.
use vstd::prelude::*;
use crate::memdb::layout::{
    block_offset, concat_blocks, lemma_block_at, lemma_concat_step, lemma_offset_of_end,
    lemma_subrange_of_subrange, lemma_uniform_offset,
};
use crate::memdb::types::{
    IndexItem, IndexedUuid, MemDbHeader, PackedSdkInfo, StoredSlice, MEMDB_VERSION,
};

verus! {

/// What a memdb file holds, table by table, in the order in which the
/// entries of each table are written.
pub struct MemDbContents {
    /// The SDK, packed for the header.
    pub sdk_info: PackedSdkInfo,
    /// The symbol index of each variant.
    pub variants: Seq<Seq<IndexItem>>,
    /// The table of UUIDs.
    pub uuids: Seq<IndexedUuid>,
    /// The tagged object names, without the zero byte that ends each.
    pub tagged: Seq<Seq<u8>>,
    /// The object names.
    pub object_names: Seq<Seq<u8>>,
    /// The symbols.
    pub symbols: Seq<Seq<u8>>,
}

/// The bytes of each entry of a symbol index.
pub open spec fn item_blocks(items: Seq<IndexItem>) -> Seq<Seq<u8>> {
    Seq::new(items.len(), |i: int| items[i].spec_encode())
}

/// The bytes of each symbol index.
pub open spec fn variant_blocks(variants: Seq<Seq<IndexItem>>) -> Seq<Seq<u8>> {
    Seq::new(variants.len(), |i: int| concat_blocks(item_blocks(variants[i])))
}

/// The bytes of each stored slice of a table.
pub open spec fn slice_blocks(slices: Seq<StoredSlice>) -> Seq<Seq<u8>> {
    Seq::new(slices.len(), |i: int| slices[i].spec_encode())
}

/// The bytes of each entry of the table of UUIDs.
pub open spec fn uuid_blocks(uuids: Seq<IndexedUuid>) -> Seq<Seq<u8>> {
    Seq::new(uuids.len(), |i: int| uuids[i].spec_encode())
}

/// The bytes of each tagged object name with the zero byte that ends it.
pub open spec fn tagged_blocks(tagged: Seq<Seq<u8>>) -> Seq<Seq<u8>> {
    Seq::new(tagged.len(), |i: int| tagged[i] + seq![0u8])
}

/// The stored slices of the blocks that stand back to back from `base`
/// on.
pub open spec fn slices_of(blocks: Seq<Seq<u8>>, base: int) -> Seq<StoredSlice> {
    Seq::new(
        blocks.len(),
        |i: int|
            StoredSlice {
                offset: (base + block_offset(blocks, i)) as u32,
                len: blocks[i].len() as u32,
            },
    )
}

impl MemDbContents {
    /// The offset of the symbol indexes: the size of the header.
    pub open spec fn items_start(self) -> int {
        68
    }

    /// The offset of the table of variants.
    pub open spec fn variants_start(self) -> int {
        self.items_start() + concat_blocks(variant_blocks(self.variants)).len()
    }

    /// The offset of the table of UUIDs.
    pub open spec fn uuids_start(self) -> int {
        self.variants_start() + 8 * self.variants.len()
    }

    /// The offset of the tagged object names.
    pub open spec fn tagged_start(self) -> int {
        self.uuids_start() + 18 * self.uuids.len()
    }

    /// The offset of the object names.
    pub open spec fn names_start(self) -> int {
        self.tagged_start() + concat_blocks(tagged_blocks(self.tagged)).len()
    }

    /// The offset of the table of object names.
    pub open spec fn names_table_start(self) -> int {
        self.names_start() + concat_blocks(self.object_names).len()
    }

    /// The offset of the symbols.
    pub open spec fn symbols_start(self) -> int {
        self.names_table_start() + 8 * self.object_names.len()
    }

    /// The offset of the table of symbols.
    pub open spec fn symbols_table_start(self) -> int {
        self.symbols_start() + concat_blocks(self.symbols).len()
    }

    /// The size of the file.
    pub open spec fn file_len(self) -> int {
        self.symbols_table_start() + 8 * self.symbols.len()
    }

    /// Whether the contents can be stored: every offset fits into 32
    /// bits, and the length of every stored slice into 31.
    pub open spec fn fits(self) -> bool {
        &&& self.file_len() <= 0xffff_ffff
        &&& forall|i: int|
            0 <= i < self.variants.len() ==> 12 * (#[trigger] self.variants[i]).len()
                < 0x8000_0000
        &&& forall|i: int|
            0 <= i < self.object_names.len() ==> (#[trigger] self.object_names[i]).len()
                < 0x8000_0000
        &&& forall|i: int|
            0 <= i < self.symbols.len() ==> (#[trigger] self.symbols[i]).len() < 0x8000_0000
    }

    /// The header of the file.
    #[verifier::opaque]
    pub open spec fn header(self) -> MemDbHeader {
        MemDbHeader {
            version: MEMDB_VERSION,
            sdk_info: self.sdk_info,
            variants_start: self.variants_start() as u32,
            variants_count: self.variants.len() as u32,
            uuids_start: self.uuids_start() as u32,
            uuids_count: self.uuids.len() as u32,
            tagged_object_names_start: self.tagged_start() as u32,
            tagged_object_names_end: self.names_start() as u32,
            object_names_start: self.names_table_start() as u32,
            object_names_count: self.object_names.len() as u32,
            symbols_start: self.symbols_table_start() as u32,
            symbols_count: self.symbols.len() as u32,
        }
    }

    /// The table of variants.
    pub open spec fn variant_slices(self) -> Seq<StoredSlice> {
        slices_of(variant_blocks(self.variants), self.items_start())
    }

    /// The eight parts that stand behind the header.
    pub open spec fn parts(self) -> Seq<Seq<u8>> {
        seq![
            concat_blocks(variant_blocks(self.variants)),
            concat_blocks(slice_blocks(self.variant_slices())),
            concat_blocks(uuid_blocks(self.uuids)),
            concat_blocks(tagged_blocks(self.tagged)),
            concat_blocks(self.object_names),
            concat_blocks(slice_blocks(slices_of(self.object_names, self.names_start()))),
            concat_blocks(self.symbols),
            concat_blocks(slice_blocks(slices_of(self.symbols, self.symbols_start()))),
        ]
    }

    /// All that stands behind the header.
    #[verifier::opaque]
    pub open spec fn body(self) -> Seq<u8> {
        concat_blocks(self.parts())
    }

    /// The bytes of the file.
    #[verifier::opaque]
    pub open spec fn file(self) -> Seq<u8> {
        self.header().spec_encode() + self.body()
    }
}

/// A table of `n` stored slices takes `8 * n` bytes.
pub proof fn lemma_slice_table_len(slices: Seq<StoredSlice>)
    ensures
        concat_blocks(slice_blocks(slices)).len() == 8 * slices.len(),
{
    let blocks = slice_blocks(slices);
    lemma_uniform_offset(blocks, 8, blocks.len() as int);
    lemma_offset_of_end(blocks);
}

/// A table of `n` UUIDs takes `18 * n` bytes.
pub proof fn lemma_uuid_table_len(uuids: Seq<IndexedUuid>)
    ensures
        concat_blocks(uuid_blocks(uuids)).len() == 18 * uuids.len(),
        forall|k: int| 0 <= k < uuids.len() ==> (#[trigger] uuid_blocks(uuids)[k]).len() == 18,
{
    let blocks = uuid_blocks(uuids);
    assert forall|k: int| 0 <= k < blocks.len() implies (#[trigger] blocks[k]).len() == 18 by {
        crate::memdb::types::lemma_pow256_16();
        crate::memdb::types::lemma_be_roundtrip(uuids[k].uuid.value as nat, 16);
    }
    lemma_uniform_offset(blocks, 18, blocks.len() as int);
    lemma_offset_of_end(blocks);
}

/// A symbol index of `n` entries takes `12 * n` bytes.
pub proof fn lemma_index_len(items: Seq<IndexItem>)
    ensures
        concat_blocks(item_blocks(items)).len() == 12 * items.len(),
        forall|k: int| 0 <= k < items.len() ==> (#[trigger] item_blocks(items)[k]).len() == 12,
{
    let blocks = item_blocks(items);
    assert forall|k: int| 0 <= k < blocks.len() implies (#[trigger] blocks[k]).len() == 12 by {
        items[k].lemma_encode_len();
    }
    lemma_uniform_offset(blocks, 12, blocks.len() as int);
    lemma_offset_of_end(blocks);
}

impl MemDbContents {
    /// The header takes 68 bytes.
    pub proof fn lemma_header_len(self)
        ensures
            self.header().spec_encode().len() == 68,
    {
        reveal(MemDbContents::header);
        assert(self.sdk_info.name@.len() == 8);
        assert(self.sdk_info.build@.len() == 10);
    }

    /// The offsets of the parts of the file are in ascending order.
    pub proof fn lemma_offsets_ordered(self)
        ensures
            68 <= self.variants_start() <= self.uuids_start() <= self.tagged_start()
                <= self.names_start() <= self.names_table_start() <= self.symbols_start()
                <= self.symbols_table_start() <= self.file_len(),
    {
    }

    /// The offset of each part behind the header.
    pub proof fn lemma_part_offsets(self)
        ensures
            block_offset(self.parts(), 0) == 0,
            block_offset(self.parts(), 1) == self.variants_start() - 68,
            block_offset(self.parts(), 2) == self.uuids_start() - 68,
            block_offset(self.parts(), 3) == self.tagged_start() - 68,
            block_offset(self.parts(), 4) == self.names_start() - 68,
            block_offset(self.parts(), 5) == self.names_table_start() - 68,
            block_offset(self.parts(), 6) == self.symbols_start() - 68,
            block_offset(self.parts(), 7) == self.symbols_table_start() - 68,
            block_offset(self.parts(), 8) == self.file_len() - 68,
            self.body().len() == self.file_len() - 68,
    {
        reveal(MemDbContents::body);
        let parts = self.parts();
        lemma_slice_table_len(self.variant_slices());
        lemma_uuid_table_len(self.uuids);
        lemma_slice_table_len(slices_of(self.object_names, self.names_start()));
        lemma_slice_table_len(slices_of(self.symbols, self.symbols_start()));
        assert(parts.take(0) =~= Seq::<Seq<u8>>::empty());
        lemma_concat_step(parts, 0);
        lemma_concat_step(parts, 1);
        lemma_concat_step(parts, 2);
        lemma_concat_step(parts, 3);
        lemma_concat_step(parts, 4);
        lemma_concat_step(parts, 5);
        lemma_concat_step(parts, 6);
        lemma_concat_step(parts, 7);
        lemma_offset_of_end(parts);
    }

    /// The body is made of its parts in their order.
    pub proof fn lemma_body_parts(self)
        ensures
            self.body() == self.parts()[0] + self.parts()[1] + self.parts()[2] + self.parts()[3]
                + self.parts()[4] + self.parts()[5] + self.parts()[6] + self.parts()[7],
    {
        reveal(MemDbContents::body);
        let parts = self.parts();
        assert(parts.take(0) =~= Seq::<Seq<u8>>::empty());
        assert(concat_blocks(parts.take(0)) =~= Seq::<u8>::empty());
        lemma_concat_step(parts, 0);
        assert(concat_blocks(parts.take(1)) =~= parts[0]);
        lemma_concat_step(parts, 1);
        lemma_concat_step(parts, 2);
        lemma_concat_step(parts, 3);
        lemma_concat_step(parts, 4);
        lemma_concat_step(parts, 5);
        lemma_concat_step(parts, 6);
        lemma_concat_step(parts, 7);
        assert(parts.take(8) =~= parts);
    }

    /// Part `k` of the body stands in the file behind the header at
    /// its offset.
    pub proof fn lemma_file_part(self, k: int)
        requires
            0 <= k < 8,
        ensures
            68 + block_offset(self.parts(), k) + self.parts()[k].len() <= self.file().len(),
            self.file().subrange(
                68 + block_offset(self.parts(), k),
                68 + block_offset(self.parts(), k) + self.parts()[k].len(),
            ) == self.parts()[k],
    {
        reveal(MemDbContents::file);
        reveal(MemDbContents::body);
        self.lemma_header_len();
        let f = self.file();
        let parts = self.parts();
        lemma_block_at(parts, k);
        assert(f.subrange(68, 68 + self.body().len() as int) =~= self.body());
        lemma_subrange_of_subrange(
            f,
            68,
            self.body().len() as int,
            block_offset(parts, k),
            parts[k].len() as int,
        );
    }

    /// Where part 0 of the body stands in the file.
    pub proof fn lemma_part_indexes(self)
        ensures
            self.variants_start() <= self.file().len(),
            self.file().subrange(68, self.variants_start()) == concat_blocks(variant_blocks(self.variants)),
    {
        self.lemma_part_offsets();
        lemma_concat_step(self.parts(), 0);
        self.lemma_file_part(0);
        assert(self.parts()[0] == concat_blocks(variant_blocks(self.variants)));
    }

    /// Where part 1 of the body stands in the file.
    pub proof fn lemma_part_variant_table(self)
        ensures
            self.uuids_start() <= self.file().len(),
            self.file().subrange(self.variants_start(), self.uuids_start()) == concat_blocks(slice_blocks(self.variant_slices())),
    {
        self.lemma_part_offsets();
        lemma_concat_step(self.parts(), 1);
        self.lemma_file_part(1);
        assert(self.parts()[1] == concat_blocks(slice_blocks(self.variant_slices())));
    }

    /// Where part 2 of the body stands in the file.
    pub proof fn lemma_part_uuid_table(self)
        ensures
            self.tagged_start() <= self.file().len(),
            self.file().subrange(self.uuids_start(), self.tagged_start()) == concat_blocks(uuid_blocks(self.uuids)),
    {
        self.lemma_part_offsets();
        lemma_concat_step(self.parts(), 2);
        self.lemma_file_part(2);
        assert(self.parts()[2] == concat_blocks(uuid_blocks(self.uuids)));
    }

    /// Where part 3 of the body stands in the file.
    pub proof fn lemma_part_tagged_names(self)
        ensures
            self.names_start() <= self.file().len(),
            self.file().subrange(self.tagged_start(), self.names_start()) == concat_blocks(tagged_blocks(self.tagged)),
    {
        self.lemma_part_offsets();
        lemma_concat_step(self.parts(), 3);
        self.lemma_file_part(3);
        assert(self.parts()[3] == concat_blocks(tagged_blocks(self.tagged)));
    }

    /// Where part 4 of the body stands in the file.
    pub proof fn lemma_part_object_names(self)
        ensures
            self.names_table_start() <= self.file().len(),
            self.file().subrange(self.names_start(), self.names_table_start()) == concat_blocks(self.object_names),
    {
        self.lemma_part_offsets();
        lemma_concat_step(self.parts(), 4);
        self.lemma_file_part(4);
        assert(self.parts()[4] == concat_blocks(self.object_names));
    }

    /// Where part 5 of the body stands in the file.
    pub proof fn lemma_part_object_name_table(self)
        ensures
            self.symbols_start() <= self.file().len(),
            self.file().subrange(self.names_table_start(), self.symbols_start()) == concat_blocks(slice_blocks(slices_of(self.object_names, self.names_start()))),
    {
        self.lemma_part_offsets();
        lemma_concat_step(self.parts(), 5);
        self.lemma_file_part(5);
        assert(self.parts()[5] == concat_blocks(slice_blocks(slices_of(self.object_names, self.names_start()))));
    }

    /// Where part 6 of the body stands in the file.
    pub proof fn lemma_part_symbols(self)
        ensures
            self.symbols_table_start() <= self.file().len(),
            self.file().subrange(self.symbols_start(), self.symbols_table_start()) == concat_blocks(self.symbols),
    {
        self.lemma_part_offsets();
        lemma_concat_step(self.parts(), 6);
        self.lemma_file_part(6);
        assert(self.parts()[6] == concat_blocks(self.symbols));
    }

    /// Where part 7 of the body stands in the file.
    pub proof fn lemma_part_symbol_table(self)
        ensures
            self.file_len() <= self.file().len(),
            self.file().subrange(self.symbols_table_start(), self.file_len()) == concat_blocks(slice_blocks(slices_of(self.symbols, self.symbols_start()))),
    {
        self.lemma_part_offsets();
        lemma_concat_step(self.parts(), 7);
        self.lemma_file_part(7);
        assert(self.parts()[7] == concat_blocks(slice_blocks(slices_of(self.symbols, self.symbols_start()))));
    }

    /// The file is as long as its parts together, and starts with the
    /// header.
    pub proof fn lemma_file_start(self)
        ensures
            self.file().len() == self.file_len(),
            self.file().take(68) == self.header().spec_encode(),
    {
        reveal(MemDbContents::file);
        self.lemma_header_len();
        self.lemma_part_offsets();
        assert(self.file().take(68) =~= self.header().spec_encode());
    }
}

} // verus!
