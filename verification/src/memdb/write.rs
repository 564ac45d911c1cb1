//! Writing a memdb.
//!
//! The builder collects the symbols of the objects of one SDK in memory:
//! it interns symbol names and object names, keeps one symbol index for
//! each variant that it has not seen before, and remembers under which
//! names each variant was met. `flush` lays all of it out as the bytes
//! of a memdb file.
use std::collections::HashSet;
use std::io::Write;
use vstd::prelude::*;
use vstd::hash_map::StringHashMap;
use vstd::string::StringSliceAdditionalSpecFns;
use vstd::utf8::encode_utf8;
use crate::errors::ErrorKind;
use crate::memdb::format::{
    item_blocks, slice_blocks, slices_of, tagged_blocks, uuid_blocks, variant_blocks,
    MemDbContents,
};
use crate::memdb::layout::{
    block_offset, concat_blocks, lemma_block_at, lemma_concat_step,
    lemma_offset_of_end,
};
use crate::memdb::types::{
    push_bytes, IndexItem, IndexedUuid, MemDbHeader, PackedSdkInfo, StoredSlice, Uuid,
    MEMDB_VERSION,
};
use crate::dsym::{ObjectSlice, ObjectSliceView, Variant, VariantView};
use crate::sdk::{DumpOptions, SdkInfo, SdkInfoView};
use vstd::string::StringExecFns;

verus! {

broadcast use vstd::std_specs::hash::group_hash_axioms;

/// `perm` holds the position `i`.
pub open spec fn perm_holds(perm: Seq<usize>, i: int) -> bool {
    exists|j: int| 0 <= j < perm.len() && #[trigger] perm[j] == i
}

/// `perm` puts the positions of `keys` into ascending order of their
/// keys, positions with equal keys in ascending order: it is the
/// order that a stable sort by key gives.
pub open spec fn is_stable_sort_perm(keys: Seq<u128>, perm: Seq<usize>) -> bool {
    &&& perm.len() == keys.len()
    &&& forall|j: int| 0 <= j < perm.len() ==> (#[trigger] perm[j]) < keys.len()
    &&& forall|i: int| 0 <= i < keys.len() ==> #[trigger] perm_holds(perm, i)
    &&& forall|j: int, k: int|
        0 <= j < k < perm.len() ==> (#[trigger] perm[j]) != (#[trigger] perm[k])
    &&& forall|j: int, k: int|
        0 <= j < k < perm.len() ==> keys[(#[trigger] perm[j]) as int] <= keys[(
        #[trigger] perm[k]) as int]
    &&& forall|j: int, k: int|
        0 <= j < k < perm.len() && keys[(#[trigger] perm[j]) as int] == keys[(
        #[trigger] perm[k]) as int] ==> perm[j] < perm[k]
}

/// Calls `sort_by_key` of std on `perm`, which holds the positions of
/// `keys` in ascending order, with the key at a position as the key of
/// the sort. std documents that sort as stable: it puts the elements
/// into ascending order of their keys and does not reorder elements
/// with equal keys. So `perm` still holds every position once.
#[verifier::external_body]
fn sort_positions(keys: &Vec<u128>, perm: &mut Vec<usize>)
    requires
        old(perm)@.len() == keys@.len(),
        forall|i: int| 0 <= i < keys@.len() ==> old(perm)@[i] == i,
    ensures
        is_stable_sort_perm(keys@, final(perm)@),
{
    perm.sort_by_key(|i| keys[*i]);
}

/// The positions of `keys` in the order of a stable sort by key.
pub(crate) fn stable_sort_permutation(keys: &Vec<u128>) -> (perm: Vec<usize>)
    ensures
        is_stable_sort_perm(keys@, perm@),
{
    let mut perm: Vec<usize> = Vec::new();
    let mut i: usize = 0;
    while i < keys.len()
        invariant
            0 <= i <= keys@.len(),
            perm@.len() == i,
            forall|k: int| 0 <= k < i ==> perm@[k] == k,
        decreases keys@.len() - i,
    {
        perm.push(i);
        i += 1;
    }
    sort_positions(keys, &mut perm);
    perm
}

/// Position `a` comes before position `b` in a stable sort by key.
pub open spec fn sorts_before(keys: Seq<u128>, a: usize, b: usize) -> bool {
    keys[a as int] < keys[b as int] || (keys[a as int] == keys[b as int] && a < b)
}

/// Two orders that a stable sort by key may give agree on their first
/// `n` places.
proof fn lemma_stable_perm_agree(keys: Seq<u128>, p: Seq<usize>, q: Seq<usize>, n: int)
    requires
        is_stable_sort_perm(keys, p),
        is_stable_sort_perm(keys, q),
        0 <= n <= keys.len(),
    ensures
        forall|i: int| 0 <= i < n ==> p[i] == q[i],
    decreases n,
{
    if n > 0 {
        lemma_stable_perm_agree(keys, p, q, n - 1);
        let j = n - 1;
        let a = p[j];
        let b = q[j];
        if a != b {
            assert(perm_holds(q, a as int));
            let ja = choose|k: int| 0 <= k < q.len() && #[trigger] q[k] == a as int;
            assert(perm_holds(p, b as int));
            let jb = choose|k: int| 0 <= k < p.len() && #[trigger] p[k] == b as int;
            if ja < j {
                assert(p[ja] == q[ja]);
                assert(p[ja] != p[j]);
            }
            if jb < j {
                assert(p[jb] == q[jb]);
                assert(q[jb] != q[j]);
            }
            assert(ja > j);
            assert(jb > j);
            assert(sorts_before(keys, q[j], q[ja]));
            assert(sorts_before(keys, p[j], p[jb]));
        }
    }
}

/// A stable sort by key gives one order only.
pub proof fn lemma_stable_perm_unique(keys: Seq<u128>, p: Seq<usize>, q: Seq<usize>)
    requires
        is_stable_sort_perm(keys, p),
        is_stable_sort_perm(keys, q),
    ensures
        p == q,
{
    lemma_stable_perm_agree(keys, p, q, keys.len() as int);
    assert(p =~= q);
}

/// The order that a stable sort by key gives to the positions of `keys`.
pub open spec fn stable_perm(keys: Seq<u128>) -> Seq<usize> {
    choose|p: Seq<usize>| is_stable_sort_perm(keys, p)
}

/// `items` in ascending order of their addresses, items with the same
/// address in the order in which they stand in `items`.
pub open spec fn sorted_items(items: Seq<IndexItem>) -> Seq<IndexItem> {
    permuted(items, stable_perm(item_sort_keys(items)))
}

/// What a builder holds.
pub struct BuilderView {
    /// The SDK that the memdb is for.
    pub info: SdkInfoView,
    /// The symbol names, each once, in the order in which they were
    /// first met.
    pub symbols: Seq<Seq<char>>,
    /// The object names, each once, in the order in which they were
    /// first met.
    pub object_names: Seq<Seq<char>>,
    /// The tagged object name and the UUID of every variant that was
    /// written, in the order of writing.
    pub tagged: Seq<(Seq<char>, Uuid)>,
    /// The UUID of each variant that is kept, with the index of the
    /// variant.
    pub uuids: Seq<IndexedUuid>,
    /// The symbol index of each variant that is kept.
    pub variants: Seq<Seq<IndexItem>>,
}

/// The position of `s` in `list`, or the length of `list` where it
/// does not hold `s`.
pub open spec fn intern_id(list: Seq<Seq<char>>, s: Seq<char>) -> int {
    if list.contains(s) {
        list.index_of(s)
    } else {
        list.len() as int
    }
}

/// `list` with `s` added at the end, unless it holds `s` already.
pub open spec fn intern(list: Seq<Seq<char>>, s: Seq<char>) -> Seq<Seq<char>> {
    if list.contains(s) {
        list
    } else {
        list.push(s)
    }
}

/// No string stands in `list` twice.
pub open spec fn no_duplicates(list: Seq<Seq<char>>) -> bool {
    forall|i: int, j: int| 0 <= i < j < list.len() ==> list[i] != list[j]
}

/// `map` gives each string of `list` its position, and holds nothing
/// else.
pub open spec fn is_index_of<V: Integer>(map: Map<Seq<char>, V>, list: Seq<Seq<char>>) -> bool {
    &&& no_duplicates(list)
    &&& forall|s: Seq<char>| map.contains_key(s) <==> list.contains(s)
    &&& forall|i: int| 0 <= i < list.len() ==> (#[trigger] map[list[i]]) as int == i
}

/// The addresses and names of `v`.
pub open spec fn entries_view(v: Seq<(u64, String)>) -> Seq<(u64, Seq<char>)> {
    Seq::new(v.len(), |i: int| (v[i].0, v[i].1@))
}

/// `list` after the names of `entries` were interned one by one.
pub open spec fn intern_all(list: Seq<Seq<char>>, entries: Seq<(u64, Seq<char>)>) -> Seq<
    Seq<char>,
>
    decreases entries.len(),
{
    if entries.len() == 0 {
        list
    } else {
        intern(intern_all(list, entries.drop_last()), entries.last().1)
    }
}

/// The entries of the symbols of a variant, in the order in which the
/// symbols are given: each at its address relative to the start of the
/// image, with the id that its name has once it is interned.
pub open spec fn raw_symbol_items(
    symbols: Seq<Seq<char>>,
    entries: Seq<(u64, Seq<char>)>,
    vmaddr: u64,
    src_id: int,
) -> Seq<IndexItem> {
    Seq::new(
        entries.len(),
        |m: int|
            IndexItem::spec_new(
                entries[m].0 - vmaddr,
                src_id,
                intern_id(intern_all(symbols, entries.take(m)), entries[m].1),
            ),
    )
}

/// The entries of a variant before they are sorted: those of its
/// symbols, followed by the entry that marks the end where the size of
/// the image is known.
pub open spec fn raw_items(
    symbols: Seq<Seq<char>>,
    entries: Seq<(u64, Seq<char>)>,
    vmaddr: u64,
    vmsize: u64,
    src_id: int,
) -> Seq<IndexItem> {
    if vmsize > 0 {
        raw_symbol_items(symbols, entries, vmaddr, src_id).push(
            IndexItem::spec_end_marker(vmsize as int, src_id),
        )
    } else {
        raw_symbol_items(symbols, entries, vmaddr, src_id)
    }
}

/// The addresses of `items` as keys of a sort.
pub open spec fn item_sort_keys(items: Seq<IndexItem>) -> Seq<u128> {
    Seq::new(items.len(), |i: int| items[i].spec_addr() as u128)
}

/// `items` in the order of `perm`.
pub open spec fn permuted(items: Seq<IndexItem>, perm: Seq<usize>) -> Seq<IndexItem> {
    Seq::new(perm.len(), |j: int| items[perm[j] as int])
}

/// The tagged object name of a variant: the name of its object, a
/// colon, and its architecture.
pub open spec fn spec_tagged_name(src: Seq<char>, arch: Seq<char>) -> Seq<char> {
    src + seq![':'] + arch
}

/// No byte of `bytes` is zero.
pub open spec fn has_no_zero(bytes: Seq<u8>) -> bool {
    forall|q: int| 0 <= q < bytes.len() ==> bytes[q] != 0
}

/// Whether a variant can be stored under the name `src` with the
/// architecture `arch`: in the file a zero byte ends a tagged object
/// name, so the name must hold none.
pub open spec fn can_be_tagged(src: Seq<char>, arch: Seq<char>) -> bool {
    has_no_zero(encode_utf8(spec_tagged_name(src, arch)))
}

impl BuilderView {
    /// Whether a variant that was not seen before can be taken in: there
    /// is room for one more variant, for its object name, for its
    /// symbols and for the entry that marks its end, and its addresses,
    /// taken relative to the start of the image, and its size fit into
    /// 48 bits.
    pub open spec fn accepts(
        self,
        vmaddr: u64,
        vmsize: u64,
        entries: Seq<(u64, Seq<char>)>,
        src: Seq<char>,
    ) -> bool {
        &&& self.variants.len() < MAX_OBJECTS
        &&& (self.object_names.contains(src) || self.object_names.len() < MAX_OBJECTS)
        &&& self.symbols.len() + entries.len() <= MAX_SYMBOLS
        &&& entries.len() < usize::MAX
        &&& vmsize < ADDR_LIMIT
        &&& forall|m: int|
            0 <= m < entries.len() ==> vmaddr <= (#[trigger] entries[m]).0 && entries[m].0
                - vmaddr < ADDR_LIMIT
    }

    /// What the builder holds once a variant that was not seen before
    /// is taken in.
    pub open spec fn written(
        self,
        arch: Seq<char>,
        vmaddr: u64,
        vmsize: u64,
        entries: Seq<(u64, Seq<char>)>,
        uuid: Uuid,
        src: Seq<char>,
    ) -> BuilderView {
        BuilderView {
            info: self.info,
            symbols: intern_all(self.symbols, entries),
            object_names: intern(self.object_names, src),
            tagged: self.tagged.push((spec_tagged_name(src, arch), uuid)),
            uuids: self.uuids.push(IndexedUuid { uuid, idx: self.variants.len() as u16 }),
            variants: self.variants.push(
                sorted_items(
                    raw_items(
                        self.symbols,
                        entries,
                        vmaddr,
                        vmsize,
                        intern_id(self.object_names, src),
                    ),
                ),
            ),
        }
    }

    /// What the builder holds once a variant that was seen before is
    /// met again: the name under which it was met is added.
    pub open spec fn met_again(self, arch: Seq<char>, uuid: Uuid, src: Seq<char>) -> BuilderView {
        BuilderView { tagged: self.tagged.push((spec_tagged_name(src, arch), uuid)), ..self }
    }
}

/// Interning keeps what is there, adds at most one name for each entry,
/// and never a name twice.
pub proof fn lemma_intern_all(list: Seq<Seq<char>>, entries: Seq<(u64, Seq<char>)>)
    requires
        no_duplicates(list),
    ensures
        no_duplicates(intern_all(list, entries)),
        list.len() <= intern_all(list, entries).len() <= list.len() + entries.len(),
        forall|i: int| 0 <= i < list.len() ==> intern_all(list, entries)[i] == list[i],
        forall|m: int|
            0 <= m < entries.len() ==> intern_all(list, entries).contains(
                (#[trigger] entries[m]).1,
            ),
    decreases entries.len(),
{
    if entries.len() > 0 {
        let head = entries.drop_last();
        lemma_intern_all(list, head);
        let before = intern_all(list, head);
        let after = intern_all(list, entries);
        let s = entries.last().1;
        if !before.contains(s) {
            assert forall|i: int, j: int| 0 <= i < j < after.len() implies after[i]
                != after[j] by {
                if j == before.len() {
                    if after[i] == s {
                        assert(before[i] == s);
                    }
                } else {
                    assert(before[i] != before[j]);
                }
            }
            assert(after[before.len() as int] == s);
        }
        assert forall|m: int| 0 <= m < entries.len() implies after.contains(
            (#[trigger] entries[m]).1,
        ) by {
            if m < head.len() {
                assert(head[m] == entries[m]);
                assert(before.contains(head[m].1));
                let i = choose|i: int| 0 <= i < before.len() && before[i] == head[m].1;
                assert(after[i] == entries[m].1);
            } else {
                if before.contains(s) {
                } else {
                    assert(after[before.len() as int] == s);
                }
            }
        }
    }
}

/// Interning the first `m` names gives a prefix of what interning all
/// names gives.
pub proof fn lemma_intern_prefix(list: Seq<Seq<char>>, entries: Seq<(u64, Seq<char>)>, m: int)
    requires
        0 <= m <= entries.len(),
    ensures
        intern_all(list, entries.take(m)).len() <= intern_all(list, entries).len(),
        forall|i: int|
            0 <= i < intern_all(list, entries.take(m)).len() ==> intern_all(list, entries)[i]
                == intern_all(list, entries.take(m))[i],
    decreases entries.len() - m,
{
    if m < entries.len() {
        lemma_intern_prefix(list, entries, m + 1);
        assert(entries.take(m + 1).drop_last() =~= entries.take(m));
    } else {
        assert(entries.take(m) =~= entries);
    }
}

/// The name under which a variant is stored: its install name, or
/// else the name of the file that it was found in.
pub open spec fn spec_source_name(name: Option<Seq<char>>, filename: Option<Seq<char>>) -> Seq<
    char,
> {
    match name {
        Some(n) => n,
        None => match filename {
            Some(f) => f,
            None => Seq::empty(),
        },
    }
}

impl BuilderView {
    /// What the builder holds once it was given one slice of an object,
    /// and whether the slice could be taken in. A slice without a UUID
    /// is passed over. A slice whose name cannot be stored is not taken
    /// in. A slice whose UUID was seen before only leaves its name.
    pub open spec fn with_slice(self, slice: ObjectSliceView, filename: Option<Seq<char>>) -> (
        BuilderView,
        bool,
    ) {
        let src = spec_source_name(slice.variant.name, filename);
        match slice.variant.uuid {
            None => (self, true),
            Some(uuid) => if !can_be_tagged(src, slice.variant.arch) {
                (self, false)
            } else if self.uuid_set().contains(uuid.value) {
                (self.met_again(slice.variant.arch, uuid, src), true)
            } else if self.accepts(slice.variant.vmaddr, slice.variant.vmsize, slice.symbols, src) {
                (
                    self.written(
                        slice.variant.arch,
                        slice.variant.vmaddr,
                        slice.variant.vmsize,
                        slice.symbols,
                        uuid,
                        src,
                    ),
                    true,
                )
            } else {
                (self, false)
            },
        }
    }

    /// What the builder holds once it was given the slices of an
    /// object one after the other, up to the first that could not be
    /// taken in, and whether all could.
    pub open spec fn with_slices(
        self,
        slices: Seq<ObjectSliceView>,
        filename: Option<Seq<char>>,
    ) -> (BuilderView, bool)
        decreases slices.len(),
    {
        if slices.len() == 0 {
            (self, true)
        } else {
            let (v, ok) = self.with_slices(slices.drop_last(), filename);
            if ok {
                v.with_slice(slices.last(), filename)
            } else {
                (v, false)
            }
        }
    }
}

/// The views of the slices of `v`.
pub open spec fn slices_view(v: Seq<ObjectSlice>) -> Seq<ObjectSliceView> {
    Seq::new(v.len(), |i: int| v[i]@)
}

/// The views of the strings of `v`.
pub open spec fn strings_view(v: Seq<String>) -> Seq<Seq<char>> {
    Seq::new(v.len(), |i: int| v[i]@)
}

/// The views of the tagged object names of `v`.
pub open spec fn tagged_view(v: Seq<(String, Uuid)>) -> Seq<(Seq<char>, Uuid)> {
    Seq::new(v.len(), |i: int| (v[i].0@, v[i].1))
}

/// The views of the symbol indexes of `v`.
pub open spec fn variants_view(v: Seq<Vec<IndexItem>>) -> Seq<Seq<IndexItem>> {
    Seq::new(v.len(), |i: int| v[i]@)
}

/// The greatest number of symbols of a memdb: their ids stay below the
/// id that marks an end.
pub const MAX_SYMBOLS: usize = 0xffff_ffff;

/// The greatest number of object names, and of variants, of a memdb.
pub const MAX_OBJECTS: usize = 0x1_0000;

/// The first address that does not fit into the 48 bits of an entry.
pub const ADDR_LIMIT: u64 = 0x1_0000_0000_0000;

/// `packed` is the packed form of `info`: name and build padded with
/// zero bytes, and the three numbers.
pub open spec fn is_packed_of(packed: PackedSdkInfo, info: SdkInfoView) -> bool {
    &&& PackedSdkInfo::fits(info)
    &&& packed.name@ == encode_utf8(info.name) + Seq::new(
        (8 - encode_utf8(info.name).len()) as nat,
        |i: int| 0u8,
    )
    &&& packed.version_major == info.version_major
    &&& packed.version_minor == info.version_minor
    &&& packed.version_patchlevel == info.version_patchlevel
    &&& packed.build@ == match info.build {
        Some(b) => encode_utf8(b) + Seq::new((10 - encode_utf8(b).len()) as nat, |i: int| 0u8),
        None => Seq::new(10, |i: int| 0u8),
    }
}

/// Whether one of the bytes is zero.
fn has_zero_byte(bytes: &[u8]) -> (r: bool)
    ensures
        r == !has_no_zero(bytes@),
{
    let mut i: usize = 0;
    while i < bytes.len()
        invariant
            0 <= i <= bytes@.len(),
            forall|q: int| 0 <= q < i ==> bytes@[q] != 0,
        decreases bytes@.len() - i,
    {
        if bytes[i] == 0 {
            return true;
        }
        i += 1;
    }
    false
}

/// Collects the symbols of an SDK and writes them as a memdb.
pub struct MemDbBuilder {
    info: SdkInfo,
    packed: PackedSdkInfo,
    symbols: Vec<String>,
    symbols_map: StringHashMap<u32>,
    object_names: Vec<String>,
    object_names_map: StringHashMap<u16>,
    object_uuid_mapping: Vec<(String, Uuid)>,
    variant_uuids: Vec<IndexedUuid>,
    variant_uuids_seen: HashSet<u128>,
    variants: Vec<Vec<IndexItem>>,
    symbol_count: usize,
    options: DumpOptions,
}

impl View for MemDbBuilder {
    type V = BuilderView;

    closed spec fn view(&self) -> BuilderView {
        BuilderView {
            info: self.info@,
            symbols: strings_view(self.symbols@),
            object_names: strings_view(self.object_names@),
            tagged: tagged_view(self.object_uuid_mapping@),
            uuids: self.variant_uuids@,
            variants: variants_view(self.variants@),
        }
    }
}

impl BuilderView {
    /// What holds of every builder: no name is interned twice and the
    /// tables stay within the limits of the format; each variant that
    /// is kept has its UUID, and no two have the same; every symbol
    /// index is in ascending order of its addresses; every entry names
    /// an object name and, unless it marks an end, a symbol; and no
    /// tagged object name holds a zero byte.
    pub open spec fn wf(self) -> bool {
        &&& PackedSdkInfo::fits(self.info)
        &&& forall|t: int|
            0 <= t < self.tagged.len() ==> has_no_zero(encode_utf8((#[trigger] self.tagged[t]).0))
        &&& no_duplicates(self.symbols)
        &&& no_duplicates(self.object_names)
        &&& self.symbols.len() <= MAX_SYMBOLS
        &&& self.object_names.len() <= MAX_OBJECTS
        &&& self.variants.len() <= MAX_OBJECTS
        &&& self.uuids.len() == self.variants.len()
        &&& forall|i: int| 0 <= i < self.uuids.len() ==> (#[trigger] self.uuids[i]).idx == i
        &&& forall|i: int, j: int|
            0 <= i < j < self.uuids.len() ==> (#[trigger] self.uuids[i]).uuid != (
            #[trigger] self.uuids[j]).uuid
        &&& forall|i: int, j: int, l: int|
            0 <= i < self.variants.len() && 0 <= j <= l < self.variants[i].len()
                ==> (#[trigger] self.variants[i][j]).spec_addr() <= (
            #[trigger] self.variants[i][l]).spec_addr()
        &&& forall|i: int, j: int|
            0 <= i < self.variants.len() && 0 <= j < self.variants[i].len() ==> {
                let item = #[trigger] self.variants[i][j];
                item.src_id < self.object_names.len() && (item.spec_is_end_marker()
                    || item.sym_id < self.symbols.len())
            }
    }

    /// `self` keeps all that `earlier` holds: every variant with its
    /// UUID, every symbol name and every object name stands where it
    /// stood.
    pub open spec fn extends(self, earlier: BuilderView) -> bool {
        &&& self.info == earlier.info
        &&& earlier.variants.len() <= self.variants.len()
        &&& earlier.uuids.len() <= self.uuids.len()
        &&& earlier.symbols.len() <= self.symbols.len()
        &&& earlier.object_names.len() <= self.object_names.len()
        &&& forall|i: int|
            0 <= i < earlier.variants.len() ==> #[trigger] self.variants[i] == earlier.variants[i]
        &&& forall|i: int|
            0 <= i < earlier.uuids.len() ==> #[trigger] self.uuids[i] == earlier.uuids[i]
        &&& forall|i: int|
            0 <= i < earlier.symbols.len() ==> #[trigger] self.symbols[i] == earlier.symbols[i]
        &&& forall|i: int|
            0 <= i < earlier.object_names.len() ==> #[trigger] self.object_names[i]
                == earlier.object_names[i]
    }

    /// The UUIDs of the variants that are kept.
    pub open spec fn uuid_set(self) -> Set<u128> {
        Set::new(
            |u: u128| exists|i: int| 0 <= i < self.uuids.len() && (#[trigger] self.uuids[i]).uuid.value == u,
        )
    }
}

impl MemDbBuilder {
    /// The builder is in order: what it holds is well formed, and its
    /// lookup tables agree with its lists.
    pub closed spec fn wf(&self) -> bool {
        &&& self@.wf()
        &&& is_packed_of(self.packed, self.info@)
        &&& is_index_of(self.symbols_map@, strings_view(self.symbols@))
        &&& is_index_of(self.object_names_map@, strings_view(self.object_names@))
        &&& self.variant_uuids_seen@ == self@.uuid_set()
    }

    /// The packed form of the SDK, as it stands in the header.
    pub closed spec fn spec_packed(&self) -> PackedSdkInfo {
        self.packed
    }

    /// The options that the builder was made with.
    pub closed spec fn spec_options(&self) -> DumpOptions {
        self.options
    }

    /// The number of entries written so far, the entries that mark an
    /// end among them.
    pub closed spec fn spec_symbol_count(&self) -> usize {
        self.symbol_count
    }

    /// A builder in order holds what is well formed, and the packed
    /// form of its SDK.
    pub proof fn lemma_wf(&self)
        requires
            self.wf(),
        ensures
            self@.wf(),
            is_packed_of(self.spec_packed(), self@.info),
    {
    }

    /// Creates a builder for the memdb of an SDK.
    ///
    /// Fails with `MemDbLimit` where name, build or version of the SDK
    /// do not fit into the header.
    pub fn new(info: &SdkInfo, opts: DumpOptions) -> (r: Result<MemDbBuilder, ErrorKind>)
        ensures
            match r {
                Ok(b) => b.wf() && PackedSdkInfo::fits(info@) && b@ == (BuilderView {
                    info: info@,
                    symbols: Seq::empty(),
                    object_names: Seq::empty(),
                    tagged: Seq::empty(),
                    uuids: Seq::empty(),
                    variants: Seq::empty(),
                }) && b.spec_options() == opts && b.spec_symbol_count() == 0,
                Err(e) => e == ErrorKind::MemDbLimit && !PackedSdkInfo::fits(info@),
            },
    {
        let name_len = info.name().as_bytes().len();
        let build_len = match info.build() {
            Some(b) => b.as_bytes().len(),
            None => 0,
        };
        if name_len > 8 || build_len > 10 || info.version_major() > 0xffff
            || info.version_minor() > 0xffff || info.version_patchlevel() > 0xffff {
            return Err(ErrorKind::MemDbLimit);
        }
        let mut packed = PackedSdkInfo::default();
        packed.set_from_sdk_info(info);
        let b = MemDbBuilder {
            info: info.clone(),
            packed,
            symbols: Vec::new(),
            symbols_map: StringHashMap::new(),
            object_names: Vec::new(),
            object_names_map: StringHashMap::new(),
            object_uuid_mapping: Vec::new(),
            variant_uuids: Vec::new(),
            variant_uuids_seen: HashSet::new(),
            variants: Vec::new(),
            symbol_count: 0,
            options: opts,
        };
        proof {
            assert(b@.symbols =~= Seq::<Seq<char>>::empty());
            assert(b@.object_names =~= Seq::<Seq<char>>::empty());
            assert(b@.tagged =~= Seq::<(Seq<char>, Uuid)>::empty());
            assert(b@.uuids =~= Seq::<IndexedUuid>::empty());
            assert(b@.variants =~= Seq::<Seq<IndexItem>>::empty());
            assert(b.variant_uuids_seen@ =~= b@.uuid_set());
            let n = encode_utf8(info@.name);
            assert(packed.name@ =~= n + Seq::new((8 - n.len()) as nat, |i: int| 0u8));
            match info@.build {
                Some(bd) => {
                    let e = encode_utf8(bd);
                    assert(packed.build@ =~= e + Seq::new((10 - e.len()) as nat, |i: int| 0u8));
                },
                None => {},
            }
        }
        Ok(b)
    }

    /// The SDK that the memdb is for.
    pub fn info(&self) -> (r: &SdkInfo)
        ensures
            r@ == self@.info,
    {
        &self.info
    }

    /// The number of entries written so far.
    pub fn symbol_count(&self) -> (r: usize)
        ensures
            r == self.spec_symbol_count(),
    {
        self.symbol_count
    }

    /// Interns a symbol name and returns its id: the id that the name
    /// has already, or else the next id, under which it is added.
    pub fn add_symbol(&mut self, sym: &str) -> (r: u32)
        requires
            old(self).wf(),
            old(self)@.symbols.len() < MAX_SYMBOLS,
        ensures
            final(self).wf(),
            final(self)@.symbols == intern(old(self)@.symbols, sym@),
            r == intern_id(old(self)@.symbols, sym@),
            final(self)@.info == old(self)@.info,
            final(self)@.object_names == old(self)@.object_names,
            final(self)@.tagged == old(self)@.tagged,
            final(self)@.uuids == old(self)@.uuids,
            final(self)@.variants == old(self)@.variants,
            final(self).spec_symbol_count() == old(self).spec_symbol_count(),
            final(self).spec_options() == old(self).spec_options(),
            final(self).spec_packed() == old(self).spec_packed(),
    {
        let ghost list = strings_view(self.symbols@);
        match self.symbols_map.get(sym) {
            Some(id) => {
                let id = *id;
                proof {
                    assert(list.contains(sym@));
                    let i = list.index_of(sym@);
                    assert(list[i] == sym@);
                }
                return id;
            },
            None => {},
        }
        let symbol_count = self.symbols.len();
        self.symbols.push(String::from_str(sym));
        self.symbols_map.insert(String::from_str(sym), symbol_count as u32);
        proof {
            let after = strings_view(self.symbols@);
            assert(self@.tagged == old(self)@.tagged);
            assert(after =~= list.push(sym@));
            assert(!list.contains(sym@));
            assert forall|i: int, j: int| 0 <= i < j < after.len() implies after[i]
                != after[j] by {
                if j == list.len() {
                    assert(list[i] == after[i]);
                    if after[i] == sym@ {
                        assert(list.contains(sym@));
                    }
                } else {
                    assert(list[i] != list[j]);
                }
            }
            assert forall|s: Seq<char>| self.symbols_map@.contains_key(s) <==> after.contains(
                s,
            ) by {
                if after.contains(s) {
                    let i = choose|i: int| 0 <= i < after.len() && after[i] == s;
                    if i < list.len() {
                        assert(list[i] == s);
                        assert(list.contains(s));
                    }
                }
                if list.contains(s) {
                    let i = choose|i: int| 0 <= i < list.len() && list[i] == s;
                    assert(after[i] == s);
                }
                if s == sym@ {
                    assert(after[list.len() as int] == s);
                }
            }
            assert forall|i: int| 0 <= i < after.len() implies (
            #[trigger] self.symbols_map@[after[i]]) as int == i by {
                if i < list.len() {
                    assert(after[i] == list[i]);
                    assert(list.contains(list[i]));
                }
            }
            assert(self@.variants == old(self)@.variants);
            assert(self.variant_uuids_seen@ == self@.uuid_set());
        }
        symbol_count as u32
    }

    /// Interns an object name and returns its id.
    fn add_object_name(&mut self, src: &str) -> (r: u16)
        requires
            old(self).wf(),
            old(self)@.object_names.contains(src@) || old(self)@.object_names.len() < MAX_OBJECTS,
        ensures
            final(self).wf(),
            final(self)@.object_names == intern(old(self)@.object_names, src@),
            r == intern_id(old(self)@.object_names, src@),
            final(self)@.info == old(self)@.info,
            final(self)@.symbols == old(self)@.symbols,
            final(self)@.tagged == old(self)@.tagged,
            final(self)@.uuids == old(self)@.uuids,
            final(self)@.variants == old(self)@.variants,
            final(self).spec_symbol_count() == old(self).spec_symbol_count(),
            final(self).spec_options() == old(self).spec_options(),
            final(self).spec_packed() == old(self).spec_packed(),
    {
        let ghost list = strings_view(self.object_names@);
        match self.object_names_map.get(src) {
            Some(id) => {
                let id = *id;
                proof {
                    assert(list.contains(src@));
                    let i = list.index_of(src@);
                    assert(list[i] == src@);
                }
                return id;
            },
            None => {},
        }
        let object_count = self.object_names.len();
        self.object_names.push(String::from_str(src));
        self.object_names_map.insert(String::from_str(src), object_count as u16);
        proof {
            let after = strings_view(self.object_names@);
            assert(self@.tagged == old(self)@.tagged);
            assert(after =~= list.push(src@));
            assert(!list.contains(src@));
            assert forall|i: int, j: int| 0 <= i < j < after.len() implies after[i]
                != after[j] by {
                if j == list.len() {
                    assert(list[i] == after[i]);
                    if after[i] == src@ {
                        assert(list.contains(src@));
                    }
                } else {
                    assert(list[i] != list[j]);
                }
            }
            assert forall|s: Seq<char>| self.object_names_map@.contains_key(s)
                <==> after.contains(s) by {
                if after.contains(s) {
                    let i = choose|i: int| 0 <= i < after.len() && after[i] == s;
                    if i < list.len() {
                        assert(list[i] == s);
                        assert(list.contains(s));
                    }
                }
                if list.contains(s) {
                    let i = choose|i: int| 0 <= i < list.len() && list[i] == s;
                    assert(after[i] == s);
                }
                if s == src@ {
                    assert(after[list.len() as int] == s);
                }
            }
            assert forall|i: int| 0 <= i < after.len() implies (
            #[trigger] self.object_names_map@[after[i]]) as int == i by {
                if i < list.len() {
                    assert(after[i] == list[i]);
                    assert(list.contains(list[i]));
                }
            }
            assert(self@.variants == old(self)@.variants);
            assert(self.variant_uuids_seen@ == self@.uuid_set());
        }
        object_count as u16
    }

    /// Whether a variant that was not seen before can be taken in.
    fn accepts(&self, vmaddr: u64, vmsize: u64, symbols: &Vec<(u64, String)>, src: &str) -> (r:
        bool)
        requires
            self.wf(),
        ensures
            r == self@.accepts(vmaddr, vmsize, entries_view(symbols@), src@),
    {
        let ghost entries = entries_view(symbols@);
        if self.variants.len() >= MAX_OBJECTS {
            return false;
        }
        if !self.object_names_map.contains_key(src) && self.object_names.len() >= MAX_OBJECTS {
            return false;
        }
        if symbols.len() > MAX_SYMBOLS || self.symbols.len() > MAX_SYMBOLS - symbols.len() {
            return false;
        }
        if symbols.len() == usize::MAX {
            return false;
        }
        if vmsize >= ADDR_LIMIT {
            return false;
        }
        let mut m: usize = 0;
        while m < symbols.len()
            invariant
                0 <= m <= symbols@.len(),
                entries == entries_view(symbols@),
                forall|k: int|
                    0 <= k < m ==> vmaddr <= (#[trigger] entries[k]).0 && entries[k].0 - vmaddr
                        < ADDR_LIMIT,
            decreases symbols@.len() - m,
        {
            let addr = symbols[m].0;
            if addr < vmaddr || addr - vmaddr >= ADDR_LIMIT {
                assert(entries[m as int].0 == addr);
                return false;
            }
            m += 1;
        }
        true
    }

    /// Interns the names of the symbols of a variant and builds its
    /// entries, in the order in which the symbols are given.
    fn build_index(&mut self, vmaddr: u64, vmsize: u64, symbols: &Vec<(u64, String)>, src_id: u16)
        -> (r: Vec<IndexItem>)
        requires
            old(self).wf(),
            old(self)@.symbols.len() + symbols@.len() <= MAX_SYMBOLS,
            vmsize < ADDR_LIMIT,
            src_id < old(self)@.object_names.len(),
            forall|m: int|
                0 <= m < symbols@.len() ==> vmaddr <= (#[trigger] entries_view(symbols@)[m]).0
                    && entries_view(symbols@)[m].0 - vmaddr < ADDR_LIMIT,
        ensures
            final(self).wf(),
            final(self)@.symbols == intern_all(old(self)@.symbols, entries_view(symbols@)),
            r@ == raw_items(
                old(self)@.symbols,
                entries_view(symbols@),
                vmaddr,
                vmsize,
                src_id as int,
            ),
            forall|k: int|
                0 <= k < r@.len() ==> (#[trigger] r@[k]).src_id == src_id && (
                r@[k].spec_is_end_marker() || r@[k].sym_id < final(self)@.symbols.len()),
            final(self)@.info == old(self)@.info,
            final(self)@.object_names == old(self)@.object_names,
            final(self)@.tagged == old(self)@.tagged,
            final(self)@.uuids == old(self)@.uuids,
            final(self)@.variants == old(self)@.variants,
            final(self).spec_options() == old(self).spec_options(),
            final(self).spec_packed() == old(self).spec_packed(),
            final(self).spec_symbol_count() == if old(self).spec_symbol_count() + r@.len()
                <= usize::MAX {
                (old(self).spec_symbol_count() + r@.len()) as usize
            } else {
                usize::MAX
            },
    {
        let ghost entries = entries_view(symbols@);
        let ghost start = self@.symbols;
        let ghost raw = raw_symbol_items(start, entries, vmaddr, src_id as int);
        let mut index: Vec<IndexItem> = Vec::new();
        let mut m: usize = 0;
        proof {
            assert(entries.take(0) =~= Seq::<(u64, Seq<char>)>::empty());
        }
        while m < symbols.len()
            invariant
                0 <= m <= symbols@.len(),
                entries == entries_view(symbols@),
                start == old(self)@.symbols,
                raw == raw_symbol_items(start, entries, vmaddr, src_id as int),
                self.wf(),
                start.len() + symbols@.len() <= MAX_SYMBOLS,
                src_id < self@.object_names.len(),
                forall|k: int|
                    0 <= k < symbols@.len() ==> vmaddr <= (#[trigger] entries[k]).0
                        && entries[k].0 - vmaddr < ADDR_LIMIT,
                self@.symbols == intern_all(start, entries.take(m as int)),
                self@.symbols.len() <= start.len() + m,
                index@ == raw.take(m as int),
                forall|k: int|
                    0 <= k < m ==> (#[trigger] index@[k]).src_id == src_id && !index@[k].spec_is_end_marker()
                        && index@[k].sym_id < self@.symbols.len(),
                self@.info == old(self)@.info,
                self@.object_names == old(self)@.object_names,
                self@.tagged == old(self)@.tagged,
                self@.uuids == old(self)@.uuids,
                self@.variants == old(self)@.variants,
                self.spec_options() == old(self).spec_options(),
                self.spec_packed() == old(self).spec_packed(),
                self.spec_symbol_count() == old(self).spec_symbol_count(),
            decreases symbols@.len() - m,
        {
            let ghost before = self@.symbols;
            let sym_id = self.add_symbol(symbols[m].1.as_str());
            let addr = symbols[m].0;
            assert(entries[m as int] == (addr, symbols@[m as int].1@));
            let item = IndexItem::new(addr - vmaddr, src_id as usize, sym_id as usize);
            proof {
                assert(entries.take(m + 1).drop_last() =~= entries.take(m as int));
                assert(entries.take(m + 1).last() == entries[m as int]);
                assert(self@.symbols == intern_all(start, entries.take(m + 1)));
                assert(item == raw[m as int]);
                assert(raw.take(m + 1) =~= raw.take(m as int).push(item));
                if before.contains(entries[m as int].1) {
                    let i = before.index_of(entries[m as int].1);
                    assert(0 <= i < before.len());
                }
                assert(sym_id < self@.symbols.len());
                assert(sym_id < 0xffff_ffff);
            }
            index.push(item);
            m += 1;
        }
        assert(entries.take(m as int) =~= entries);
        assert(raw.take(m as int) =~= raw);
        if vmsize > 0 {
            index.push(IndexItem::end_marker(vmsize, src_id as usize));
        }
        let n = index.len();
        self.symbol_count = if n <= usize::MAX - self.symbol_count {
            self.symbol_count + n
        } else {
            usize::MAX
        };
        proof {
            assert(self@.variants == old(self)@.variants);
            assert(self.variant_uuids_seen@ == self@.uuid_set());
        }
        index
    }

    /// Takes in one variant of an object under the name `src`.
    ///
    /// The name is remembered in any case. Where the UUID was seen
    /// before, nothing else happens and `Ok(false)` is returned. Else
    /// the symbols are interned, the entries of the variant are built
    /// and sorted, the variant is kept, and `Ok(true)` is returned.
    /// Fails with `MemDbLimit`, and changes nothing, where the name
    /// holds a zero byte or a variant that was not seen before cannot
    /// be taken in.
    pub fn write_object_variant(
        &mut self,
        var: &Variant,
        symbols: &Vec<(u64, String)>,
        uuid: &Uuid,
        src: &str,
    ) -> (r: Result<bool, ErrorKind>)
        requires
            old(self).wf(),
        ensures
            final(self).wf(),
            final(self).spec_options() == old(self).spec_options(),
            final(self).spec_packed() == old(self).spec_packed(),
            final(self)@.extends(old(self)@),
            match r {
                Ok(false) => can_be_tagged(src@, var@.arch) && old(self)@.uuid_set().contains(
                    uuid.value,
                ) && final(self)@ == old(self)@.met_again(var@.arch, *uuid, src@),
                Ok(true) => can_be_tagged(src@, var@.arch) && !old(self)@.uuid_set().contains(
                    uuid.value,
                ) && old(self)@.accepts(var@.vmaddr, var@.vmsize, entries_view(symbols@), src@)
                    && final(self)@ == old(self)@.written(
                    var@.arch,
                    var@.vmaddr,
                    var@.vmsize,
                    entries_view(symbols@),
                    *uuid,
                    src@,
                ),
                Err(e) => e == ErrorKind::MemDbLimit && (!can_be_tagged(src@, var@.arch) || (
                !old(self)@.uuid_set().contains(uuid.value) && !old(self)@.accepts(
                    var@.vmaddr,
                    var@.vmsize,
                    entries_view(symbols@),
                    src@,
                ))) && final(self)@ == old(self)@,
            },
    {
        let ghost before = self@;
        let ghost entries = entries_view(symbols@);
        let mut tagged = String::from_str(src);
        tagged.push(':');
        tagged.append(var.arch());
        assert(tagged@ =~= spec_tagged_name(src@, var@.arch));
        if has_zero_byte(tagged.as_str().as_bytes()) {
            return Err(ErrorKind::MemDbLimit);
        }
        let seen = self.variant_uuids_seen.contains(&uuid.value);
        if !seen && !self.accepts(var.vmaddr(), var.vmsize(), symbols, src) {
            return Err(ErrorKind::MemDbLimit);
        }
        self.object_uuid_mapping.push((tagged, *uuid));
        proof {
            assert(self@.tagged =~= before.tagged.push((spec_tagged_name(src@, var@.arch), *uuid)));
            assert(self@.variants == before.variants);
            assert(self@.symbols == before.symbols);
            assert(self@.object_names == before.object_names);
            assert(self.variant_uuids_seen@ == self@.uuid_set());
        }
        if seen {
            return Ok(false);
        }
        let src_id = self.add_object_name(src);
        let ghost names = self@.object_names;
        proof {
            if before.object_names.contains(src@) {
                let i = before.object_names.index_of(src@);
                assert(0 <= i < before.object_names.len());
            }
            assert(src_id < names.len());
        }
        let index = self.build_index(var.vmaddr(), var.vmsize(), symbols, src_id);
        let sorted = sort_items(&index);
        let idx = self.variants.len();
        self.variant_uuids_seen.insert(uuid.value);
        self.variant_uuids.push(IndexedUuid::new(uuid, idx));
        self.variants.push(sorted);
        proof {
            let after = self@;
            let raw = raw_items(
                before.symbols,
                entries,
                var@.vmaddr,
                var@.vmsize,
                src_id as int,
            );
            let keys = item_sort_keys(raw);
            let perm = stable_perm(keys);
            assert(after.variants =~= before.variants.push(sorted_items(raw)));
            assert(after.uuids =~= before.uuids.push(
                IndexedUuid { uuid: *uuid, idx: before.variants.len() as u16 },
            ));
            assert(after == before.written(
                var@.arch,
                var@.vmaddr,
                var@.vmsize,
                entries,
                *uuid,
                src@,
            ));
            lemma_intern_all(before.symbols, entries);
            // the new variant is sorted and names what exists
            let new = sorted_items(raw);
            assert forall|j: int, l: int| 0 <= j <= l < new.len() implies new[j].spec_addr()
                <= new[l].spec_addr() by {
                if j < l {
                    assert(keys[perm[j] as int] <= keys[perm[l] as int]);
                }
                assert(keys[perm[j] as int] == raw[perm[j] as int].spec_addr() as u128);
                assert(keys[perm[l] as int] == raw[perm[l] as int].spec_addr() as u128);
            }
            assert forall|j: int| 0 <= j < new.len() implies {
                let item = #[trigger] new[j];
                item.src_id < after.object_names.len() && (item.spec_is_end_marker()
                    || item.sym_id < after.symbols.len())
            } by {
                let item = raw[perm[j] as int];
                assert(new[j] == item);
                assert(index@[perm[j] as int] == item);
            }
            assert forall|i: int, j: int, l: int|
                0 <= i < after.variants.len() && 0 <= j <= l < after.variants[i].len() implies (
            #[trigger] after.variants[i][j]).spec_addr() <= (
            #[trigger] after.variants[i][l]).spec_addr() by {
                if i < before.variants.len() {
                    assert(after.variants[i] == before.variants[i]);
                    assert(before.variants[i][j].spec_addr() <= before.variants[i][l].spec_addr());
                } else {
                    assert(after.variants[i] == new);
                }
            }
            assert forall|i: int, j: int|
                0 <= i < after.variants.len() && 0 <= j < after.variants[i].len() implies {
                let item = #[trigger] after.variants[i][j];
                item.src_id < after.object_names.len() && (item.spec_is_end_marker()
                    || item.sym_id < after.symbols.len())
            } by {
                if i < before.variants.len() {
                    assert(after.variants[i] == before.variants[i]);
                    let item = before.variants[i][j];
                    assert(item.src_id < before.object_names.len());
                } else {
                    assert(after.variants[i] == new);
                    assert(after.variants[i][j] == new[j]);
                }
            }
            assert forall|i: int, j: int| 0 <= i < j < after.uuids.len() implies (
            #[trigger] after.uuids[i]).uuid != (#[trigger] after.uuids[j]).uuid by {
                if j == before.uuids.len() {
                    assert(before.uuids[i] == after.uuids[i]);
                    if after.uuids[i].uuid == *uuid {
                        assert(before.uuid_set().contains(uuid.value));
                    }
                } else {
                    assert(before.uuids[i].uuid != before.uuids[j].uuid);
                }
            }
            assert forall|i: int| 0 <= i < after.uuids.len() implies (
            #[trigger] after.uuids[i]).idx == i by {
                if i < before.uuids.len() {
                    assert(before.uuids[i].idx == i);
                }
            }
            assert(self.variant_uuids_seen@ =~= after.uuid_set()) by {
                assert forall|u: u128| self.variant_uuids_seen@.contains(u)
                    <==> after.uuid_set().contains(u) by {
                    if after.uuid_set().contains(u) {
                        let i = choose|i: int|
                            0 <= i < after.uuids.len() && (
                            #[trigger] after.uuids[i]).uuid.value == u;
                        if i < before.uuids.len() {
                            assert(before.uuids[i].uuid.value == u);
                            assert(before.uuid_set().contains(u));
                        }
                    }
                    if before.uuid_set().contains(u) {
                        let i = choose|i: int|
                            0 <= i < before.uuids.len() && (
                            #[trigger] before.uuids[i]).uuid.value == u;
                        assert(after.uuids[i].uuid.value == u);
                    }
                    if u == uuid.value {
                        assert(after.uuids[before.uuids.len() as int].uuid.value == u);
                    }
                }
            }
        }
        Ok(true)
    }
}

/// Puts the entries of a variant into ascending order of their
/// addresses; entries with the same address stay in their order.
fn sort_items(raw: &Vec<IndexItem>) -> (r: Vec<IndexItem>)
    ensures
        is_stable_sort_perm(item_sort_keys(raw@), stable_perm(item_sort_keys(raw@))),
        r@ == sorted_items(raw@),
{
    let mut keys: Vec<u128> = Vec::new();
    let mut i: usize = 0;
    while i < raw.len()
        invariant
            0 <= i <= raw@.len(),
            keys@ == item_sort_keys(raw@).take(i as int),
        decreases raw@.len() - i,
    {
        keys.push(raw[i].addr() as u128);
        assert(item_sort_keys(raw@).take(i + 1) =~= item_sort_keys(raw@).take(i as int).push(
            raw@[i as int].spec_addr() as u128,
        ));
        i += 1;
    }
    assert(item_sort_keys(raw@).take(i as int) =~= item_sort_keys(raw@));
    let perm = stable_sort_permutation(&keys);
    proof {
        lemma_stable_perm_unique(item_sort_keys(raw@), perm@, stable_perm(item_sort_keys(raw@)));
    }
    let mut sorted: Vec<IndexItem> = Vec::new();
    let mut j: usize = 0;
    while j < perm.len()
        invariant
            0 <= j <= perm@.len(),
            is_stable_sort_perm(item_sort_keys(raw@), perm@),
            sorted@ == permuted(raw@, perm@).take(j as int),
        decreases perm@.len() - j,
    {
        assert(perm@[j as int] < raw@.len());
        sorted.push(raw[perm[j]]);
        assert(permuted(raw@, perm@).take(j + 1) =~= permuted(raw@, perm@).take(j as int).push(
            raw@[perm@[j as int] as int],
        ));
        j += 1;
    }
    assert(permuted(raw@, perm@).take(j as int) =~= permuted(raw@, perm@));
    sorted
}

/// The bytes of each string of `strings`.
pub open spec fn string_blocks(strings: Seq<Seq<char>>) -> Seq<Seq<u8>> {
    Seq::new(strings.len(), |i: int| encode_utf8(strings[i]))
}

/// The UUIDs of `uuids` as keys of a sort.
pub open spec fn uuid_sort_keys(uuids: Seq<IndexedUuid>) -> Seq<u128> {
    Seq::new(uuids.len(), |i: int| uuids[i].uuid.value)
}

/// `uuids` in ascending order.
pub open spec fn sorted_uuids(uuids: Seq<IndexedUuid>) -> Seq<IndexedUuid> {
    Seq::new(uuids.len(), |k: int| uuids[stable_perm(uuid_sort_keys(uuids))[k] as int])
}

/// The UUIDs of `tagged` as keys of a sort.
pub open spec fn tagged_sort_keys(tagged: Seq<(Seq<char>, Uuid)>) -> Seq<u128> {
    Seq::new(tagged.len(), |i: int| tagged[i].1.value)
}

/// The bytes of the names of `tagged`, in ascending order of their
/// UUIDs, names with the same UUID in the order of `tagged`.
pub open spec fn sorted_tagged(tagged: Seq<(Seq<char>, Uuid)>) -> Seq<Seq<u8>> {
    Seq::new(
        tagged.len(),
        |k: int| encode_utf8(tagged[stable_perm(tagged_sort_keys(tagged))[k] as int].0),
    )
}

/// Appends the entries of a symbol index.
fn write_index(out: &mut Vec<u8>, items: &Vec<IndexItem>)
    ensures
        final(out)@ == old(out)@ + concat_blocks(item_blocks(items@)),
{
    let ghost blocks = item_blocks(items@);
    let mut i: usize = 0;
    assert(blocks.take(0) =~= Seq::<Seq<u8>>::empty());
    assert(out@ =~= old(out)@ + concat_blocks(blocks.take(0)));
    while i < items.len()
        invariant
            0 <= i <= items@.len(),
            blocks == item_blocks(items@),
            out@ == old(out)@ + concat_blocks(blocks.take(i as int)),
        decreases items@.len() - i,
    {
        let ghost before = out@;
        items[i].write_to(out);
        proof {
            lemma_concat_step(blocks, i as int);
            assert(out@ =~= old(out)@ + concat_blocks(blocks.take(i + 1)));
        }
        i += 1;
    }
    assert(blocks.take(i as int) =~= blocks);
}

/// Appends a table of stored slices.
fn write_slice_table(out: &mut Vec<u8>, slices: &Vec<StoredSlice>)
    ensures
        final(out)@ == old(out)@ + concat_blocks(slice_blocks(slices@)),
{
    let ghost blocks = slice_blocks(slices@);
    let mut i: usize = 0;
    assert(blocks.take(0) =~= Seq::<Seq<u8>>::empty());
    assert(out@ =~= old(out)@ + concat_blocks(blocks.take(0)));
    while i < slices.len()
        invariant
            0 <= i <= slices@.len(),
            blocks == slice_blocks(slices@),
            out@ == old(out)@ + concat_blocks(blocks.take(i as int)),
        decreases slices@.len() - i,
    {
        slices[i].write_to(out);
        proof {
            lemma_concat_step(blocks, i as int);
            assert(out@ =~= old(out)@ + concat_blocks(blocks.take(i + 1)));
        }
        i += 1;
    }
    assert(blocks.take(i as int) =~= blocks);
}

/// Appends the table of UUIDs in ascending order.
fn write_uuids(out: &mut Vec<u8>, uuids: &Vec<IndexedUuid>)
    ensures
        final(out)@ == old(out)@ + concat_blocks(uuid_blocks(sorted_uuids(uuids@))),
        is_stable_sort_perm(uuid_sort_keys(uuids@), stable_perm(uuid_sort_keys(uuids@))),
{
    let mut keys: Vec<u128> = Vec::new();
    let mut i: usize = 0;
    while i < uuids.len()
        invariant
            0 <= i <= uuids@.len(),
            keys@ == uuid_sort_keys(uuids@).take(i as int),
        decreases uuids@.len() - i,
    {
        keys.push(uuids[i].uuid.value);
        assert(uuid_sort_keys(uuids@).take(i + 1) =~= uuid_sort_keys(uuids@).take(i as int).push(
            uuids@[i as int].uuid.value,
        ));
        i += 1;
    }
    assert(uuid_sort_keys(uuids@).take(i as int) =~= uuid_sort_keys(uuids@));
    let perm = stable_sort_permutation(&keys);
    proof {
        lemma_stable_perm_unique(keys@, perm@, stable_perm(keys@));
    }
    let ghost blocks = uuid_blocks(sorted_uuids(uuids@));
    let mut k: usize = 0;
    assert(blocks.take(0) =~= Seq::<Seq<u8>>::empty());
    assert(out@ =~= old(out)@ + concat_blocks(blocks.take(0)));
    while k < perm.len()
        invariant
            0 <= k <= perm@.len(),
            perm@ == stable_perm(uuid_sort_keys(uuids@)),
            is_stable_sort_perm(uuid_sort_keys(uuids@), perm@),
            blocks == uuid_blocks(sorted_uuids(uuids@)),
            out@ == old(out)@ + concat_blocks(blocks.take(k as int)),
        decreases perm@.len() - k,
    {
        assert(perm@[k as int] < uuids@.len());
        uuids[perm[k]].write_to(out);
        proof {
            lemma_concat_step(blocks, k as int);
            assert(out@ =~= old(out)@ + concat_blocks(blocks.take(k + 1)));
        }
        k += 1;
    }
    assert(blocks.take(k as int) =~= blocks);
}

/// Appends the tagged object names in ascending order of their UUIDs,
/// each followed by a zero byte.
fn write_tagged(out: &mut Vec<u8>, tagged: &Vec<(String, Uuid)>)
    ensures
        final(out)@ == old(out)@ + concat_blocks(
            tagged_blocks(sorted_tagged(tagged_view(tagged@))),
        ),
        is_stable_sort_perm(
            tagged_sort_keys(tagged_view(tagged@)),
            stable_perm(tagged_sort_keys(tagged_view(tagged@))),
        ),
{
    let ghost view = tagged_view(tagged@);
    let mut keys: Vec<u128> = Vec::new();
    let mut i: usize = 0;
    while i < tagged.len()
        invariant
            0 <= i <= tagged@.len(),
            view == tagged_view(tagged@),
            keys@ == tagged_sort_keys(view).take(i as int),
        decreases tagged@.len() - i,
    {
        keys.push(tagged[i].1.value);
        assert(tagged_sort_keys(view).take(i + 1) =~= tagged_sort_keys(view).take(i as int).push(
            tagged@[i as int].1.value,
        ));
        i += 1;
    }
    assert(tagged_sort_keys(view).take(i as int) =~= tagged_sort_keys(view));
    let perm = stable_sort_permutation(&keys);
    proof {
        lemma_stable_perm_unique(keys@, perm@, stable_perm(keys@));
    }
    let ghost blocks = tagged_blocks(sorted_tagged(view));
    let mut k: usize = 0;
    assert(blocks.take(0) =~= Seq::<Seq<u8>>::empty());
    assert(out@ =~= old(out)@ + concat_blocks(blocks.take(0)));
    while k < perm.len()
        invariant
            0 <= k <= perm@.len(),
            view == tagged_view(tagged@),
            perm@ == stable_perm(tagged_sort_keys(view)),
            is_stable_sort_perm(tagged_sort_keys(view), perm@),
            blocks == tagged_blocks(sorted_tagged(view)),
            out@ == old(out)@ + concat_blocks(blocks.take(k as int)),
        decreases perm@.len() - k,
    {
        assert(perm@[k as int] < tagged@.len());
        let ghost before = out@;
        push_bytes(out, tagged[perm[k]].0.as_str().as_bytes());
        out.push(0u8);
        proof {
            lemma_concat_step(blocks, k as int);
            assert(blocks[k as int] == encode_utf8(view[perm@[k as int] as int].0) + seq![0u8]);
            assert(out@ =~= before + blocks[k as int]);
            assert(out@ =~= old(out)@ + concat_blocks(blocks.take(k + 1)));
        }
        k += 1;
    }
    assert(blocks.take(k as int) =~= blocks);
}

/// Appends the bytes of `strings` and returns the stored slice of each.
fn write_strings(out: &mut Vec<u8>, strings: &Vec<String>) -> (r: Vec<StoredSlice>)
    requires
        old(out)@.len() + concat_blocks(string_blocks(strings_view(strings@))).len()
            <= 0xffff_ffff,
        forall|i: int|
            0 <= i < strings@.len() ==> (#[trigger] string_blocks(strings_view(strings@))[i]).len()
                < 0x8000_0000,
    ensures
        final(out)@ == old(out)@ + concat_blocks(string_blocks(strings_view(strings@))),
        r@ == slices_of(string_blocks(strings_view(strings@)), old(out)@.len() as int),
{
    let ghost blocks = string_blocks(strings_view(strings@));
    let ghost base = old(out)@.len() as int;
    let ghost want = slices_of(blocks, base);
    let mut slices: Vec<StoredSlice> = Vec::new();
    let mut i: usize = 0;
    assert(blocks.take(0) =~= Seq::<Seq<u8>>::empty());
    assert(out@ =~= old(out)@ + concat_blocks(blocks.take(0)));
    while i < strings.len()
        invariant
            0 <= i <= strings@.len(),
            blocks == string_blocks(strings_view(strings@)),
            base == old(out)@.len(),
            want == slices_of(blocks, base),
            base + concat_blocks(blocks).len() <= 0xffff_ffff,
            forall|k: int| 0 <= k < blocks.len() ==> (#[trigger] blocks[k]).len() < 0x8000_0000,
            out@ == old(out)@ + concat_blocks(blocks.take(i as int)),
            slices@ == want.take(i as int),
        decreases strings@.len() - i,
    {
        proof {
            lemma_concat_step(blocks, i as int);
            lemma_block_at(blocks, i as int);
        }
        let offset = out.len();
        let bytes = strings[i].as_str().as_bytes();
        assert(bytes@ == blocks[i as int]);
        push_bytes(out, bytes);
        let slice = StoredSlice { offset: offset as u32, len: bytes.len() as u32 };
        slices.push(slice);
        proof {
            assert(offset == base + block_offset(blocks, i as int));
            assert(slice == want[i as int]);
            assert(want.take(i + 1) =~= want.take(i as int).push(slice));
            assert(out@ =~= old(out)@ + concat_blocks(blocks.take(i + 1)));
        }
        i += 1;
    }
    assert(blocks.take(i as int) =~= blocks);
    assert(want.take(i as int) =~= want);
    slices
}

impl BuilderView {
    /// What the file of the builder holds: the UUIDs in ascending
    /// order, the tagged object names in the order of their UUIDs, and
    /// all strings as their bytes.
    pub open spec fn contents(self, packed: PackedSdkInfo) -> MemDbContents {
        MemDbContents {
            sdk_info: packed,
            variants: self.variants,
            uuids: sorted_uuids(self.uuids),
            tagged: sorted_tagged(self.tagged),
            object_names: string_blocks(self.object_names),
            symbols: string_blocks(self.symbols),
        }
    }
}

/// The least size that is too large for a memdb.
pub const SIZE_CAP: u64 = 0x1_0000_0000;

/// The lesser of `a` and the cap.
pub open spec fn capped(a: int) -> int {
    if a < SIZE_CAP {
        a
    } else {
        SIZE_CAP as int
    }
}

/// Adds `b` to a capped size.
fn capped_add(a: u64, b: usize) -> (r: u64)
    requires
        a <= SIZE_CAP,
    ensures
        r == capped(a + b),
        r <= SIZE_CAP,
{
    if b as u64 >= SIZE_CAP - a {
        SIZE_CAP
    } else {
        a + b as u64
    }
}

/// The capped size of all symbol indexes, and whether each index is
/// short enough for its stored slice.
fn index_sizes(variants: &Vec<Vec<IndexItem>>) -> (r: (u64, bool))
    ensures
        r.0 == capped(concat_blocks(variant_blocks(variants_view(variants@))).len() as int),
        r.1 == (forall|i: int|
            0 <= i < variants@.len() ==> 12 * (#[trigger] variants_view(variants@)[i]).len()
                < 0x8000_0000),
{
    let ghost view = variants_view(variants@);
    let ghost blocks = variant_blocks(view);
    let mut total: u64 = 0;
    let mut ok = true;
    let mut i: usize = 0;
    assert(blocks.take(0) =~= Seq::<Seq<u8>>::empty());
    while i < variants.len()
        invariant
            0 <= i <= variants@.len(),
            view == variants_view(variants@),
            blocks == variant_blocks(view),
            total <= SIZE_CAP,
            total == capped(block_offset(blocks, i as int)),
            ok == (forall|k: int| 0 <= k < i ==> 12 * (#[trigger] view[k]).len() < 0x8000_0000),
        decreases variants@.len() - i,
    {
        let n = variants[i].len();
        proof {
            lemma_concat_step(blocks, i as int);
            crate::memdb::format::lemma_index_len(view[i as int]);
            assert(view[i as int] == variants@[i as int]@);
        }
        if n >= 0x8000_0000 / 12 + 1 {
            ok = false;
            assert(12 * view[i as int].len() >= 0x8000_0000);
        }
        if n as u64 >= SIZE_CAP / 12 + 1 {
            total = SIZE_CAP;
        } else {
            total = capped_add(total, 12 * n);
        }
        i += 1;
    }
    proof {
        lemma_offset_of_end(blocks);
    }
    (total, ok)
}

/// The capped size of the bytes of `strings`, and whether each string
/// is short enough for its stored slice.
fn strings_size(strings: &Vec<String>) -> (r: (u64, bool))
    ensures
        r.0 == capped(concat_blocks(string_blocks(strings_view(strings@))).len() as int),
        r.1 == (forall|i: int|
            0 <= i < strings@.len() ==> (#[trigger] string_blocks(strings_view(strings@))[i]).len()
                < 0x8000_0000),
{
    let ghost blocks = string_blocks(strings_view(strings@));
    let mut total: u64 = 0;
    let mut ok = true;
    let mut i: usize = 0;
    assert(blocks.take(0) =~= Seq::<Seq<u8>>::empty());
    while i < strings.len()
        invariant
            0 <= i <= strings@.len(),
            blocks == string_blocks(strings_view(strings@)),
            total <= SIZE_CAP,
            total == capped(block_offset(blocks, i as int)),
            ok == (forall|k: int| 0 <= k < i ==> (#[trigger] blocks[k]).len() < 0x8000_0000),
        decreases strings@.len() - i,
    {
        let n = strings[i].as_str().as_bytes().len();
        proof {
            lemma_concat_step(blocks, i as int);
            assert(blocks[i as int].len() == n);
        }
        if n >= 0x8000_0000 {
            ok = false;
        }
        total = capped_add(total, n);
        i += 1;
    }
    proof {
        lemma_offset_of_end(blocks);
    }
    (total, ok)
}

/// The capped size of the tagged object names with their zero bytes.
fn tagged_size(tagged: &Vec<(String, Uuid)>) -> (r: u64)
    ensures
        r == capped(
            concat_blocks(tagged_blocks(sorted_tagged(tagged_view(tagged@)))).len() as int,
        ),
{
    let ghost view = tagged_view(tagged@);
    let mut keys: Vec<u128> = Vec::new();
    let mut i: usize = 0;
    while i < tagged.len()
        invariant
            0 <= i <= tagged@.len(),
            view == tagged_view(tagged@),
            keys@ == tagged_sort_keys(view).take(i as int),
        decreases tagged@.len() - i,
    {
        keys.push(tagged[i].1.value);
        assert(tagged_sort_keys(view).take(i + 1) =~= tagged_sort_keys(view).take(i as int).push(
            tagged@[i as int].1.value,
        ));
        i += 1;
    }
    assert(tagged_sort_keys(view).take(i as int) =~= tagged_sort_keys(view));
    let perm = stable_sort_permutation(&keys);
    proof {
        lemma_stable_perm_unique(keys@, perm@, stable_perm(keys@));
    }
    let ghost blocks = tagged_blocks(sorted_tagged(view));
    let mut total: u64 = 0;
    let mut k: usize = 0;
    assert(blocks.take(0) =~= Seq::<Seq<u8>>::empty());
    while k < perm.len()
        invariant
            0 <= k <= perm@.len(),
            view == tagged_view(tagged@),
            perm@ == stable_perm(tagged_sort_keys(view)),
            is_stable_sort_perm(tagged_sort_keys(view), perm@),
            blocks == tagged_blocks(sorted_tagged(view)),
            total <= SIZE_CAP,
            total == capped(block_offset(blocks, k as int)),
        decreases perm@.len() - k,
    {
        assert(perm@[k as int] < tagged@.len());
        let n = tagged[perm[k]].0.as_str().as_bytes().len();
        proof {
            lemma_concat_step(blocks, k as int);
            assert(blocks[k as int] == encode_utf8(view[perm@[k as int] as int].0) + seq![0u8]);
            assert(blocks[k as int].len() == n + 1);
        }
        total = capped_add(total, n);
        total = capped_add(total, 1);
        k += 1;
    }
    proof {
        lemma_offset_of_end(blocks);
    }
    total
}

impl MemDbBuilder {
    /// What the file of the builder holds.
    pub open spec fn spec_contents(&self) -> MemDbContents {
        self@.contents(self.spec_packed())
    }

    /// Whether what the builder holds can be stored.
    fn check_fits(&self) -> (r: bool)
        requires
            self.wf(),
        ensures
            r == self.spec_contents().fits(),
    {
        let ghost c = self.spec_contents();
        let (a, ok_v) = index_sizes(&self.variants);
        let (n, ok_n) = strings_size(&self.object_names);
        let (s, ok_s) = strings_size(&self.symbols);
        let t = tagged_size(&self.object_uuid_mapping);
        assert(c.variants == variants_view(self.variants@));
        assert(c.object_names == string_blocks(strings_view(self.object_names@)));
        assert(c.symbols == string_blocks(strings_view(self.symbols@)));
        assert(c.tagged == sorted_tagged(tagged_view(self.object_uuid_mapping@)));
        assert(c.uuids.len() == self.variant_uuids@.len());
        let total: u64 = 68 + a + 8 * (self.variants.len() as u64) + 18 * (
        self.variant_uuids.len() as u64) + t + n + 8 * (self.object_names.len() as u64) + s + 8
            * (self.symbols.len() as u64);
        ok_v && ok_n && ok_s && total <= 0xffff_ffff
    }

    /// Appends the symbol indexes and the table of variants.
    fn write_variants(&self, out: &mut Vec<u8>) -> (r: (usize, Ghost<Seq<u8>>))
        requires
            self.wf(),
            self.spec_contents().fits(),
            old(out)@.len() == 68,
        ensures
            r.0 == self.spec_contents().variants_start(),
            final(out)@ == old(out)@ + r.1@,
            r.1@ == concat_blocks(variant_blocks(self.spec_contents().variants))
                + concat_blocks(slice_blocks(self.spec_contents().variant_slices())),
            final(out)@.len() == self.spec_contents().uuids_start(),
    {
        let ghost c = self.spec_contents();
        let ghost vview = variants_view(self.variants@);
        let ghost vblocks = variant_blocks(vview);
        let ghost zeros = out@;
        proof {
            c.lemma_offsets_ordered();
            assert(c.variants == vview);
        }
        let ghost want = slices_of(vblocks, 68);
        let mut vslices: Vec<StoredSlice> = Vec::new();
        let mut i: usize = 0;
        assert(vblocks.take(0) =~= Seq::<Seq<u8>>::empty());
        assert(out@ =~= zeros + concat_blocks(vblocks.take(0)));
        while i < self.variants.len()
            invariant
                0 <= i <= self.variants@.len(),
                zeros.len() == 68,
                vview == variants_view(self.variants@),
                vblocks == variant_blocks(vview),
                want == slices_of(vblocks, 68),
                68 + concat_blocks(vblocks).len() <= 0xffff_ffff,
                forall|k: int| 0 <= k < vview.len() ==> 12 * (#[trigger] vview[k]).len()
                    < 0x8000_0000,
                out@ == zeros + concat_blocks(vblocks.take(i as int)),
                vslices@ == want.take(i as int),
            decreases self.variants@.len() - i,
        {
            proof {
                lemma_concat_step(vblocks, i as int);
                lemma_block_at(vblocks, i as int);
                crate::memdb::format::lemma_index_len(vview[i as int]);
                assert(vview[i as int] == self.variants@[i as int]@);
            }
            let offset = out.len();
            write_index(out, &self.variants[i]);
            let slice = StoredSlice {
                offset: offset as u32,
                len: (12 * self.variants[i].len()) as u32,
            };
            vslices.push(slice);
            proof {
                assert(offset == 68 + block_offset(vblocks, i as int));
                assert(vblocks[i as int].len() == 12 * vview[i as int].len());
                assert(slice == want[i as int]);
                assert(want.take(i + 1) =~= want.take(i as int).push(slice));
                assert(out@ =~= zeros + concat_blocks(vblocks.take(i + 1)));
            }
            i += 1;
        }
        assert(vblocks.take(i as int) =~= vblocks);
        assert(want.take(i as int) =~= want);
        let variants_start = out.len();
        write_slice_table(out, &vslices);
        proof {
            crate::memdb::format::lemma_slice_table_len(want);
            assert(out@ =~= zeros + (concat_blocks(vblocks) + concat_blocks(slice_blocks(want))));
        }
        (variants_start, Ghost(concat_blocks(vblocks) + concat_blocks(slice_blocks(want))))
    }

    /// Appends the table of UUIDs and the tagged object names.
    fn write_names_of_variants(&self, out: &mut Vec<u8>) -> (r: Ghost<Seq<u8>>)
        requires
            self.wf(),
            self.spec_contents().fits(),
            old(out)@.len() == self.spec_contents().uuids_start(),
        ensures
            final(out)@ == old(out)@ + r@,
            r@ == concat_blocks(uuid_blocks(self.spec_contents().uuids)) + concat_blocks(
                tagged_blocks(self.spec_contents().tagged),
            ),
            old(out)@.len() + 18 * self.spec_contents().uuids.len()
                == self.spec_contents().tagged_start(),
            final(out)@.len() == self.spec_contents().names_start(),
    {
        let ghost c = self.spec_contents();
        let ghost start = out@;
        write_uuids(out, &self.variant_uuids);
        let ghost mid = out@;
        write_tagged(out, &self.object_uuid_mapping);
        proof {
            crate::memdb::format::lemma_uuid_table_len(c.uuids);
            assert(c.tagged == sorted_tagged(tagged_view(self.object_uuid_mapping@)));
            assert(c.uuids == sorted_uuids(self.variant_uuids@));
            assert(out@ =~= start + (concat_blocks(uuid_blocks(c.uuids)) + concat_blocks(
                tagged_blocks(c.tagged),
            )));
        }
        Ghost(concat_blocks(uuid_blocks(c.uuids)) + concat_blocks(tagged_blocks(c.tagged)))
    }

    /// Appends the object names with their table, and the symbols with
    /// theirs.
    fn write_string_tables(&self, out: &mut Vec<u8>) -> (r: (usize, usize, Ghost<Seq<u8>>))
        requires
            self.wf(),
            self.spec_contents().fits(),
            old(out)@.len() == self.spec_contents().names_start(),
        ensures
            r.0 == self.spec_contents().names_table_start(),
            r.1 == self.spec_contents().symbols_table_start(),
            final(out)@ == old(out)@ + r.2@,
            r.2@ == concat_blocks(self.spec_contents().object_names) + concat_blocks(
                slice_blocks(
                    slices_of(
                        self.spec_contents().object_names,
                        self.spec_contents().names_start(),
                    ),
                ),
            ) + concat_blocks(self.spec_contents().symbols) + concat_blocks(
                slice_blocks(
                    slices_of(self.spec_contents().symbols, self.spec_contents().symbols_start()),
                ),
            ),
    {
        let ghost c = self.spec_contents();
        let ghost start = out@;
        proof {
            c.lemma_offsets_ordered();
            assert(c.object_names == string_blocks(strings_view(self.object_names@)));
            assert(c.symbols == string_blocks(strings_view(self.symbols@)));
        }
        let oslices = write_strings(out, &self.object_names);
        let ghost b5 = concat_blocks(c.object_names);
        let object_names_start = out.len();
        write_slice_table(out, &oslices);
        let ghost b6 = concat_blocks(slice_blocks(slices_of(c.object_names, c.names_start())));
        proof {
            crate::memdb::format::lemma_slice_table_len(slices_of(c.object_names, c.names_start()));
            assert(object_names_start == c.names_table_start());
            assert(out@.len() == c.symbols_start());
        }
        let sslices = write_strings(out, &self.symbols);
        let ghost b7 = concat_blocks(c.symbols);
        let symbols_start = out.len();
        write_slice_table(out, &sslices);
        let ghost b8 = concat_blocks(slice_blocks(slices_of(c.symbols, c.symbols_start())));
        proof {
            assert(symbols_start == c.symbols_table_start());
            assert(out@ =~= start + (b5 + b6 + b7 + b8));
        }
        (object_names_start, symbols_start, Ghost(b5 + b6 + b7 + b8))
    }

    /// Lays out what the builder holds as the bytes of a memdb file.
    ///
    /// Fails with `MemDbLimit` where the file would not fit the 32 bits
    /// of its offsets, or a stored slice not the 31 bits of its length.
    #[verifier::rlimit(50)]
    pub fn flush_plain(&self) -> (r: Result<Vec<u8>, ErrorKind>)
        requires
            self.wf(),
        ensures
            match r {
                Ok(bytes) => self.spec_contents().fits() && bytes@ == self.spec_contents().file(),
                Err(e) => e == ErrorKind::MemDbLimit && !self.spec_contents().fits(),
            },
    {
        if !self.check_fits() {
            return Err(ErrorKind::MemDbLimit);
        }
        let ghost c = self.spec_contents();
        proof {
            c.lemma_offsets_ordered();
        }
        let mut out: Vec<u8> = Vec::new();
        let mut i: usize = 0;
        while i < 68
            invariant
                0 <= i <= 68,
                out@.len() == i,
            decreases 68 - i,
        {
            out.push(0u8);
            i += 1;
        }
        let ghost zeros = out@;
        let (variants_start, indexes) = self.write_variants(&mut out);
        let uuids_start = out.len();
        let names = self.write_names_of_variants(&mut out);
        let tagged_start = uuids_start + 18 * self.variant_uuids.len();
        let tagged_end = out.len();
        let (object_names_start, symbols_start, strings) = self.write_string_tables(&mut out);
        let header = MemDbHeader {
            version: MEMDB_VERSION,
            sdk_info: self.packed,
            variants_start: variants_start as u32,
            variants_count: self.variants.len() as u32,
            uuids_start: uuids_start as u32,
            uuids_count: self.variant_uuids.len() as u32,
            tagged_object_names_start: tagged_start as u32,
            tagged_object_names_end: tagged_end as u32,
            object_names_start: object_names_start as u32,
            object_names_count: self.object_names.len() as u32,
            symbols_start: symbols_start as u32,
            symbols_count: self.symbols.len() as u32,
        };
        proof {
            reveal(MemDbContents::header);
            assert(c.uuids.len() == self.variant_uuids@.len());
            assert(c.variants.len() == self.variants@.len());
            assert(c.object_names.len() == self.object_names@.len());
            assert(c.symbols.len() == self.symbols@.len());
            assert(header == c.header());
            c.lemma_header_len();
        }
        let mut head: Vec<u8> = Vec::new();
        header.write_to(&mut head);
        assert(head@ =~= header.spec_encode());
        let ghost body = out@.subrange(68, out@.len() as int);
        proof {
            c.lemma_body_parts();
            assert(body =~= indexes@ + names@ + strings@);
            assert(body =~= c.body());
        }
        let mut i: usize = 0;
        while i < 68
            invariant
                0 <= i <= 68,
                head@.len() == 68,
                out@.len() >= 68,
                out@.subrange(68, out@.len() as int) == body,
                forall|k: int| 0 <= k < i ==> out@[k] == head@[k],
            decreases 68 - i,
        {
            let ghost before = out@;
            out.set(i, head[i]);
            assert(out@.subrange(68, out@.len() as int) =~= before.subrange(
                68,
                before.len() as int,
            ));
            i += 1;
        }
        proof {
            reveal(MemDbContents::file);
            assert(out@ =~= head@ + body);
        }
        Ok(out)
    }
}

/// The bytes of the `.xz` stream that liblzma makes of `data` with the
/// preset `level` and a CRC64 check.
pub uninterp spec fn xz_encoded(data: Seq<u8>, level: u32) -> Seq<u8>;

/// Runs the encoder of the crate `xz2` over `data`: it makes a stream
/// encoder with `Stream::new_easy_encoder`, writes all of `data`
/// through an `XzEncoder` into a vector and finishes the stream. The
/// encoder may fail, for want of memory; where it succeeds, the
/// contract names the bytes that it gives.
#[verifier::external_body]
fn xz_compress(data: &[u8], level: u32) -> (r: Option<Vec<u8>>)
    requires
        level <= 9,
    ensures
        r matches Some(bytes) ==> bytes@ == xz_encoded(data@, level),
{
    let stream = xz2::stream::Stream::new_easy_encoder(level, xz2::stream::Check::Crc64).ok()?;
    let mut encoder = xz2::write::XzEncoder::new_stream(Vec::new(), stream);
    encoder.write_all(data).ok()?;
    encoder.finish().ok()
}

/// What `flush` returns for the bytes of the file and the outcome of
/// the compression, where one is asked for.
pub open spec fn spec_flushed(
    plain: Result<Seq<u8>, ErrorKind>,
    compress: bool,
    compressed: Option<Seq<u8>>,
) -> Result<Seq<u8>, ErrorKind> {
    match plain {
        Err(e) => Err(e),
        Ok(bytes) => if compress {
            match compressed {
                Some(z) => Ok(z),
                None => Err(ErrorKind::CompressionFailed),
            }
        } else {
            Ok(bytes)
        },
    }
}

/// Picks what `flush` returns: the plain bytes where no compression is
/// asked for, else the compressed ones, or `CompressionFailed` where
/// there are none.
pub fn finish_flush(plain: Vec<u8>, compress: bool, compressed: Option<Vec<u8>>) -> (r: Result<
    Vec<u8>,
    ErrorKind,
>)
    ensures
        match r {
            Ok(bytes) => spec_flushed(
                Ok(plain@),
                compress,
                match compressed {
                    Some(z) => Some(z@),
                    None => None,
                },
            ) == Ok::<Seq<u8>, ErrorKind>(bytes@),
            Err(e) => spec_flushed(
                Ok(plain@),
                compress,
                match compressed {
                    Some(z) => Some(z@),
                    None => None,
                },
            ) == Err::<Seq<u8>, ErrorKind>(e),
        },
{
    if compress {
        match compressed {
            Some(z) => Ok(z),
            None => Err(ErrorKind::CompressionFailed),
        }
    } else {
        Ok(plain)
    }
}

impl MemDbBuilder {
    /// Takes in the slices of an object, one after the other, each under
    /// its install name or else under `filename`. Slices without a UUID
    /// are passed over. Stops with `MemDbLimit` at the first slice that
    /// cannot be taken in.
    pub fn write_object(&mut self, slices: &Vec<ObjectSlice>, filename: Option<&str>) -> (r:
        Result<(), ErrorKind>)
        requires
            old(self).wf(),
            filename is Some || forall|i: int|
                0 <= i < slices@.len() ==> (#[trigger] slices@[i]).variant@.name is Some,
        ensures
            final(self).wf(),
            final(self).spec_options() == old(self).spec_options(),
            final(self).spec_packed() == old(self).spec_packed(),
            final(self)@.extends(old(self)@),
            (final(self)@, r is Ok) == old(self)@.with_slices(
                slices_view(slices@),
                match filename {
                    Some(f) => Some(f@),
                    None => None,
                },
            ),
            r matches Err(e) ==> e == ErrorKind::MemDbLimit,
    {
        let ghost start = self@;
        let ghost views = slices_view(slices@);
        let ghost fname = match filename {
            Some(f) => Some(f@),
            None => None,
        };
        let mut i: usize = 0;
        assert(views.take(0) =~= Seq::<ObjectSliceView>::empty());
        while i < slices.len()
            invariant
                0 <= i <= slices@.len(),
                self.wf(),
                views == slices_view(slices@),
                fname == match filename {
                    Some(f) => Some(f@),
                    None => None,
                },
                filename is Some || forall|k: int|
                    0 <= k < slices@.len() ==> (#[trigger] slices@[k]).variant@.name is Some,
                self.spec_options() == old(self).spec_options(),
                self.spec_packed() == old(self).spec_packed(),
                start == old(self)@,
                self@.extends(start),
                (self@, true) == start.with_slices(views.take(i as int), fname),
            decreases slices@.len() - i,
        {
            let slice = &slices[i];
            proof {
                assert(views.take(i + 1).drop_last() =~= views.take(i as int));
                assert(views.take(i + 1).last() == slice@);
                assert(slice@.symbols =~= entries_view(slice.symbols@));
            }
            match slice.variant.uuid() {
                Some(uuid) => {
                    let src: &str = match slice.variant.name() {
                        Some(name) => name,
                        None => match filename {
                            Some(f) => f,
                            None => {
                                assert(slices@[i as int].variant@.name is Some);
                                ""
                            },
                        },
                    };
                    assert(src@ == spec_source_name(slice@.variant.name, fname));
                    let ghost before = self@;
                    match self.write_object_variant(&slice.variant, &slice.symbols, &uuid, src) {
                        Ok(_) => {},
                        Err(e) => {
                            proof {
                                assert(before.with_slice(slice@, fname) == (before, false));
                                assert(start.with_slices(views.take(i + 1), fname) == (
                                    before,
                                    false,
                                ));
                                lemma_with_slices_stops(start, views, fname, i + 1);
                            }
                            return Err(e);
                        },
                    }
                },
                None => {},
            }
            i += 1;
        }
        assert(views.take(i as int) =~= views);
        Ok(())
    }

    /// What `flush` writes: the file as it is, or compressed where the
    /// options of the builder ask for that.
    pub fn flush(&self) -> (r: Result<Vec<u8>, ErrorKind>)
        requires
            self.wf(),
        ensures
            match r {
                Ok(bytes) => self.spec_contents().fits() && bytes@ == (if self.spec_options().compress {
                    xz_encoded(self.spec_contents().file(), 9)
                } else {
                    self.spec_contents().file()
                }),
                Err(ErrorKind::MemDbLimit) => !self.spec_contents().fits(),
                Err(ErrorKind::CompressionFailed) => self.spec_contents().fits()
                    && self.spec_options().compress,
                Err(_) => false,
            },
    {
        let plain = match self.flush_plain() {
            Ok(plain) => plain,
            Err(e) => {
                return Err(e);
            },
        };
        let compressed = if self.options.compress {
            xz_compress(plain.as_slice(), 9)
        } else {
            None
        };
        finish_flush(plain, self.options.compress, compressed)
    }
}

/// Once a slice could not be taken in, the slices behind it change
/// nothing.
pub proof fn lemma_with_slices_stops(
    v: BuilderView,
    slices: Seq<ObjectSliceView>,
    filename: Option<Seq<char>>,
    k: int,
)
    requires
        0 <= k <= slices.len(),
        !v.with_slices(slices.take(k), filename).1,
    ensures
        v.with_slices(slices, filename) == v.with_slices(slices.take(k), filename),
    decreases slices.len() - k,
{
    if k < slices.len() {
        assert(slices.take(k + 1).drop_last() =~= slices.take(k));
        lemma_with_slices_stops(v, slices, filename, k + 1);
    } else {
        assert(slices.take(k) =~= slices);
    }
}

/// The packed form of `info`.
pub open spec fn packed_of(info: SdkInfoView) -> PackedSdkInfo {
    choose|p: PackedSdkInfo| is_packed_of(p, info)
}

/// A descriptor has one packed form only.
pub proof fn lemma_packed_unique(p: PackedSdkInfo, q: PackedSdkInfo, info: SdkInfoView)
    requires
        is_packed_of(p, info),
        is_packed_of(q, info),
    ensures
        p == q,
{
    assert(p.name@ =~= q.name@);
    assert(p.build@ =~= q.build@);
    assert(p.name == q.name);
    assert(p.build == q.build);
}

/// The objects of `v`: the name of the file of each, and its slices.
pub open spec fn objects_view(v: Seq<(String, Vec<ObjectSlice>)>) -> Seq<
    (Seq<char>, Seq<ObjectSliceView>),
> {
    Seq::new(v.len(), |i: int| (v[i].0@, slices_view(v[i].1@)))
}

impl BuilderView {
    /// What a new builder holds.
    pub open spec fn empty(info: SdkInfoView) -> BuilderView {
        BuilderView {
            info,
            symbols: Seq::empty(),
            object_names: Seq::empty(),
            tagged: Seq::empty(),
            uuids: Seq::empty(),
            variants: Seq::empty(),
        }
    }

    /// What the builder holds once it was given the objects one after
    /// the other, up to the first slice that could not be taken in,
    /// and whether all could.
    pub open spec fn with_objects(self, objects: Seq<(Seq<char>, Seq<ObjectSliceView>)>) -> (
        BuilderView,
        bool,
    )
        decreases objects.len(),
    {
        if objects.len() == 0 {
            (self, true)
        } else {
            let (v, ok) = self.with_objects(objects.drop_last());
            if ok {
                v.with_slices(objects.last().1, Some(objects.last().0))
            } else {
                (v, false)
            }
        }
    }
}

/// Once a slice could not be taken in, the objects behind it change
/// nothing.
pub proof fn lemma_with_objects_stops(
    v: BuilderView,
    objects: Seq<(Seq<char>, Seq<ObjectSliceView>)>,
    k: int,
)
    requires
        0 <= k <= objects.len(),
        !v.with_objects(objects.take(k)).1,
    ensures
        v.with_objects(objects) == v.with_objects(objects.take(k)),
    decreases objects.len() - k,
{
    if k < objects.len() {
        assert(objects.take(k + 1).drop_last() =~= objects.take(k));
        lemma_with_objects_stops(v, objects, k + 1);
    } else {
        assert(objects.take(k) =~= objects);
    }
}

/// Writes the memdb of an SDK from the slices of its objects, each
/// object given with the name of its file.
///
/// The result is the file of a builder that took in every slice of
/// every object in turn, compressed where the options ask for that.
/// Fails with `MemDbLimit` where the SDK does not fit into the header,
/// where a slice cannot be taken in, and where the file cannot be
/// stored.
pub fn dump_memdb(info: &SdkInfo, opts: DumpOptions, objects: &Vec<(String, Vec<ObjectSlice>)>) -> (r:
    Result<Vec<u8>, ErrorKind>)
    ensures
        ({
            let (v, ok) = BuilderView::empty(info@).with_objects(objects_view(objects@));
            let c = v.contents(packed_of(info@));
            let stored = PackedSdkInfo::fits(info@) && ok && c.fits();
            match r {
                Ok(bytes) => stored && bytes@ == (if opts.compress {
                    xz_encoded(c.file(), 9)
                } else {
                    c.file()
                }),
                Err(ErrorKind::MemDbLimit) => !stored,
                Err(ErrorKind::CompressionFailed) => stored && opts.compress,
                Err(_) => false,
            }
        }),
{
    let mut builder = match MemDbBuilder::new(info, opts) {
        Ok(b) => b,
        Err(e) => {
            return Err(e);
        },
    };
    let ghost start = builder@;
    let ghost views = objects_view(objects@);
    let mut i: usize = 0;
    assert(views.take(0) =~= Seq::<(Seq<char>, Seq<ObjectSliceView>)>::empty());
    while i < objects.len()
        invariant
            0 <= i <= objects@.len(),
            builder.wf(),
            views == objects_view(objects@),
            start == BuilderView::empty(info@),
            builder@.info == info@,
            builder.spec_options() == opts,
            PackedSdkInfo::fits(info@),
            (builder@, true) == start.with_objects(views.take(i as int)),
        decreases objects@.len() - i,
    {
        proof {
            assert(views.take(i + 1).drop_last() =~= views.take(i as int));
            assert(views.take(i + 1).last() == views[i as int]);
        }
        let ghost before = builder@;
        match builder.write_object(&objects[i].1, Some(objects[i].0.as_str())) {
            Ok(()) => {
                proof {
                    lemma_with_slices_keep_info(before, views[i as int].1, Some(views[i as int].0));
                }
            },
            Err(e) => {
                proof {
                    lemma_with_objects_stops(start, views, i + 1);
                }
                return Err(e);
            },
        }
        i += 1;
    }
    proof {
        assert(views.take(i as int) =~= views);
        builder.lemma_wf();
        lemma_packed_unique(builder.spec_packed(), packed_of(info@), info@);
    }
    builder.flush()
}

/// Taking in slices leaves the SDK of the builder as it is.
pub proof fn lemma_with_slices_keep_info(
    v: BuilderView,
    slices: Seq<ObjectSliceView>,
    filename: Option<Seq<char>>,
)
    ensures
        v.with_slices(slices, filename).0.info == v.info,
    decreases slices.len(),
{
    if slices.len() > 0 {
        lemma_with_slices_keep_info(v, slices.drop_last(), filename);
    }
}

} // verus!
