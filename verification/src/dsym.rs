//! Mach-O objects as the rest of the library sees them.
//!
//! An object file holds one slice for each architecture. Of each slice
//! the library needs a handful of plain values: its architecture, its
//! UUID, its install name and where its text segment lies. This module
//! picks those values from the load commands of a slice, and finds the
//! slice of an architecture. Parsing the file itself is left to the
//! program that uses the library.
use vstd::prelude::*;
use vstd::string::*;
use crate::errors::ErrorKind;
use crate::memdb::types::Uuid;
use crate::sdk::opt_view;

verus! {

/// The CPU type and subtype that `mach_object::get_arch_from_flag`
/// gives for the name of an architecture.
pub uninterp spec fn arch_flag_types(name: Seq<char>) -> Option<(i32, i32)>;

/// Calls `mach_object::get_arch_from_flag`, which looks the name up in
/// a fixed table of architecture names.
#[verifier::external_body]
fn arch_from_flag(name: &str) -> (r: Option<(i32, i32)>)
    ensures
        r == arch_flag_types(name@),
{
    mach_object::get_arch_from_flag(name).map(|types| *types)
}

/// A CPU subtype without its feature bits, which are the highest eight
/// of its thirty-two bits.
pub open spec fn subtype_kind(cpusubtype: i32) -> int {
    (cpusubtype as int) % 0x100_0000
}

/// The table of architectures holds `name` with this CPU type and with
/// a subtype that, feature bits apart, is this one.
pub open spec fn names_arch(name: Seq<char>, cputype: i32, cpusubtype: i32) -> bool {
    arch_flag_types(name) matches Some(types) && types.0 == cputype && subtype_kind(types.1)
        == subtype_kind(cpusubtype)
}

/// Calls `mach_object::get_arch_name_from_types`, which walks the same
/// table and returns a name that stands there with the given CPU type
/// and, feature bits apart, the given subtype; it returns none only
/// where the table holds no such name. Where several names fit, which
/// of them comes back is left open.
#[verifier::external_body]
fn arch_name_from_types(cputype: i32, cpusubtype: i32) -> (r: Option<&'static str>)
    ensures
        match r {
            Some(name) => names_arch(name@, cputype, cpusubtype),
            None => forall|name: Seq<char>| !#[trigger] names_arch(name, cputype, cpusubtype),
        },
{
    mach_object::get_arch_name_from_types(cputype, cpusubtype)
}

/// Whether `arch` is a name of the architecture with this CPU type and
/// subtype: a name that the table of architectures holds for them, or
/// `unknown` where it holds none.
pub open spec fn is_arch_name(arch: Seq<char>, cputype: i32, cpusubtype: i32) -> bool {
    if exists|name: Seq<char>| names_arch(name, cputype, cpusubtype) {
        names_arch(arch, cputype, cpusubtype)
    } else {
        arch == "unknown"@
    }
}

/// What the library reads of a load command.
pub enum LoadInfo {
    /// The UUID of the slice.
    Uuid(Uuid),
    /// The install name of a dynamic library.
    IdDyLib(String),
    /// A segment: its name, its address and its size in memory.
    Segment { segname: String, vmaddr: u64, vmsize: u64 },
    /// Any other load command.
    Other,
}

/// What a `Variant` stands for.
pub struct VariantView {
    pub cputype: i32,
    pub cpusubtype: i32,
    pub arch: Seq<char>,
    pub uuid: Option<Uuid>,
    pub name: Option<Seq<char>>,
    pub vmaddr: u64,
    pub vmsize: u64,
}

/// Represents a variant in an object
pub struct Variant {
    cputype: i32,
    cpusubtype: i32,
    arch: String,
    uuid: Option<Uuid>,
    name: Option<String>,
    vmaddr: u64,
    vmsize: u64,
}

impl View for Variant {
    type V = VariantView;

    closed spec fn view(&self) -> VariantView {
        VariantView {
            cputype: self.cputype,
            cpusubtype: self.cpusubtype,
            arch: self.arch@,
            uuid: self.uuid,
            name: opt_view(self.name),
            vmaddr: self.vmaddr,
            vmsize: self.vmsize,
        }
    }
}

/// What an `ObjectSlice` stands for.
pub struct ObjectSliceView {
    pub variant: VariantView,
    pub symbols: Seq<(u64, Seq<char>)>,
}

/// One slice of an object: the variant, and its symbols with their
/// addresses, in the order in which the object lists them. Only the
/// symbols that are defined in the text section belong here.
pub struct ObjectSlice {
    pub variant: Variant,
    pub symbols: Vec<(u64, String)>,
}

impl View for ObjectSlice {
    type V = ObjectSliceView;

    open spec fn view(&self) -> ObjectSliceView {
        ObjectSliceView {
            variant: self.variant@,
            symbols: Seq::new(
                self.symbols@.len(),
                |i: int| (self.symbols@[i].0, self.symbols@[i].1@),
            ),
        }
    }
}

/// The UUID of the last load command that holds one.
pub open spec fn spec_last_uuid(commands: Seq<LoadInfo>) -> Option<Uuid>
    decreases commands.len(),
{
    if commands.len() == 0 {
        None
    } else {
        match commands.last() {
            LoadInfo::Uuid(uuid) => Some(uuid),
            _ => spec_last_uuid(commands.drop_last()),
        }
    }
}

/// The install name of the last load command that holds one.
pub open spec fn spec_last_name(commands: Seq<LoadInfo>) -> Option<Seq<char>>
    decreases commands.len(),
{
    if commands.len() == 0 {
        None
    } else {
        match commands.last() {
            LoadInfo::IdDyLib(name) => Some(name@),
            _ => spec_last_name(commands.drop_last()),
        }
    }
}

/// Address and size of the last segment that is called `__TEXT`, or
/// zeros where there is none.
pub open spec fn spec_text_segment(commands: Seq<LoadInfo>) -> (u64, u64)
    decreases commands.len(),
{
    if commands.len() == 0 {
        (0, 0)
    } else {
        match commands.last() {
            LoadInfo::Segment { segname, vmaddr, vmsize } => if segname@ == "__TEXT"@ {
                (vmaddr, vmsize)
            } else {
                spec_text_segment(commands.drop_last())
            },
            _ => spec_text_segment(commands.drop_last()),
        }
    }
}

/// The position of the first of `archs` with the given CPU type and
/// subtype, or the length of `archs` where there is none.
pub open spec fn spec_find_arch(archs: Seq<(i32, i32)>, cputype: i32, cpusubtype: i32) -> int
    decreases archs.len(),
{
    if archs.len() == 0 {
        0
    } else {
        let r = spec_find_arch(archs.drop_last(), cputype, cpusubtype);
        if r < archs.len() - 1 {
            r
        } else if archs.last() == (cputype, cpusubtype) {
            archs.len() - 1
        } else {
            archs.len() as int
        }
    }
}

impl Variant {
    /// Makes the variant of a slice from the CPU type and subtype of
    /// its header and from its load commands. The UUID and the install
    /// name are those of the last load command that holds one; address
    /// and size are those of the text segment, or zero. The name of the
    /// architecture is the one that the table of architectures gives
    /// for the CPU type and subtype, or `unknown`.
    pub fn from_load_commands(cputype: i32, cpusubtype: i32, commands: &Vec<LoadInfo>) -> (r:
        Variant)
        ensures
            r@.cputype == cputype,
            r@.cpusubtype == cpusubtype,
            r@.uuid == spec_last_uuid(commands@),
            r@.name == spec_last_name(commands@),
            (r@.vmaddr, r@.vmsize) == spec_text_segment(commands@),
            is_arch_name(r@.arch, cputype, cpusubtype),
    {
        let mut variant_uuid: Option<Uuid> = None;
        let mut variant_name: Option<String> = None;
        let mut variant_vmaddr: u64 = 0;
        let mut variant_vmsize: u64 = 0;
        let mut i: usize = 0;
        assert(commands@.take(0) =~= Seq::<LoadInfo>::empty());
        while i < commands.len()
            invariant
                0 <= i <= commands@.len(),
                variant_uuid == spec_last_uuid(commands@.take(i as int)),
                opt_view(variant_name) == spec_last_name(commands@.take(i as int)),
                (variant_vmaddr, variant_vmsize) == spec_text_segment(commands@.take(i as int)),
            decreases commands@.len() - i,
        {
            assert(commands@.take(i + 1).drop_last() =~= commands@.take(i as int));
            assert(commands@.take(i + 1).last() == commands@[i as int]);
            match &commands[i] {
                LoadInfo::Uuid(uuid) => {
                    variant_uuid = Some(*uuid);
                },
                LoadInfo::IdDyLib(name) => {
                    variant_name = Some(name.clone());
                },
                LoadInfo::Segment { segname, vmaddr, vmsize } => {
                    if crate::text::str_eq(segname.as_str(), "__TEXT") {
                        variant_vmaddr = *vmaddr;
                        variant_vmsize = *vmsize;
                    }
                },
                LoadInfo::Other => {},
            }
            i += 1;
        }
        assert(commands@.take(i as int) =~= commands@);
        let arch = match arch_name_from_types(cputype, cpusubtype) {
            Some(name) => String::from_str(name),
            None => String::from_str("unknown"),
        };
        Variant {
            cputype,
            cpusubtype,
            arch,
            uuid: variant_uuid,
            name: variant_name,
            vmaddr: variant_vmaddr,
            vmsize: variant_vmsize,
        }
    }

    /// Makes a variant from its parts.
    pub fn new(
        cputype: i32,
        cpusubtype: i32,
        arch: &str,
        uuid: Option<Uuid>,
        name: Option<&str>,
        vmaddr: u64,
        vmsize: u64,
    ) -> (r: Variant)
        ensures
            r@ == (VariantView {
                cputype,
                cpusubtype,
                arch: arch@,
                uuid,
                name: match name {
                    Some(n) => Some(n@),
                    None => None,
                },
                vmaddr,
                vmsize,
            }),
    {
        Variant {
            cputype,
            cpusubtype,
            arch: String::from_str(arch),
            uuid,
            name: match name {
                Some(n) => Some(String::from_str(n)),
                None => None,
            },
            vmaddr,
            vmsize,
        }
    }

    /// The CPU type of the variant.
    pub fn cputype(&self) -> (r: i32)
        ensures
            r == self@.cputype,
    {
        self.cputype
    }

    /// The CPU subtype of the variant.
    pub fn cpusubtype(&self) -> (r: i32)
        ensures
            r == self@.cpusubtype,
    {
        self.cpusubtype
    }

    /// Returns the architecture of this variant
    pub fn arch(&self) -> (r: &str)
        ensures
            r@ == self@.arch,
    {
        self.arch.as_str()
    }

    /// Returns the contained name of the variant
    ///
    /// This is the full path of the debug symbol / object file if stored.
    pub fn name(&self) -> (r: Option<&str>)
        ensures
            match r {
                Some(n) => self@.name == Some(n@),
                None => self@.name is None,
            },
    {
        match &self.name {
            Some(n) => Some(n.as_str()),
            None => None,
        }
    }

    /// Returns the UUID of the variant
    ///
    /// Normally mach-o files have contained UUIDs.  In case we have one, it's
    /// being returned here.
    pub fn uuid(&self) -> (r: Option<Uuid>)
        ensures
            r == self@.uuid,
    {
        self.uuid
    }

    /// The vmaddr as u64. Might be 0
    pub fn vmaddr(&self) -> (r: u64)
        ensures
            r == self@.vmaddr,
    {
        self.vmaddr
    }

    /// The vmsize as u64. Might be 0
    pub fn vmsize(&self) -> (r: u64)
        ensures
            r == self@.vmsize,
    {
        self.vmsize
    }
}

/// Finds the first of `archs` with the given CPU type and subtype.
pub fn find_arch(archs: &Vec<(i32, i32)>, cputype: i32, cpusubtype: i32) -> (r: Option<usize>)
    ensures
        match r {
            Some(i) => i < archs@.len() && spec_find_arch(archs@, cputype, cpusubtype) == i,
            None => spec_find_arch(archs@, cputype, cpusubtype) == archs@.len(),
        },
{
    let mut i: usize = 0;
    assert(archs@.take(0) =~= Seq::<(i32, i32)>::empty());
    while i < archs.len()
        invariant
            0 <= i <= archs@.len(),
            spec_find_arch(archs@.take(i as int), cputype, cpusubtype) == i,
        decreases archs@.len() - i,
    {
        assert(archs@.take(i + 1).drop_last() =~= archs@.take(i as int));
        if archs[i].0 == cputype && archs[i].1 == cpusubtype {
            proof {
                lemma_find_arch_prefix(archs@, cputype, cpusubtype, i + 1);
            }
            return Some(i);
        }
        i += 1;
    }
    assert(archs@.take(i as int) =~= archs@);
    None
}

/// Once a slice is found among the first `k`, it is the one found
/// among all.
pub proof fn lemma_find_arch_prefix(archs: Seq<(i32, i32)>, cputype: i32, cpusubtype: i32, k: int)
    requires
        0 <= k <= archs.len(),
        spec_find_arch(archs.take(k), cputype, cpusubtype) < k,
    ensures
        spec_find_arch(archs, cputype, cpusubtype) == spec_find_arch(
            archs.take(k),
            cputype,
            cpusubtype,
        ),
    decreases archs.len() - k,
{
    if k < archs.len() {
        assert(archs.take(k + 1).drop_last() =~= archs.take(k));
        lemma_find_arch_prefix(archs, cputype, cpusubtype, k + 1);
    } else {
        assert(archs.take(k) =~= archs);
    }
}

/// Which slice of an object holds the symbols of the architecture
/// called `arch`, given the CPU type and subtype that the name stands
/// for: `UnknownArchitecture` where it stands for nothing,
/// `MissingArchitecture` where no slice is of that architecture, and
/// else the position of the first slice that is.
pub fn select_arch_with(archs: &Vec<(i32, i32)>, arch: &str, types: Option<(i32, i32)>) -> (r:
    Result<usize, ErrorKind>)
    ensures
        match r {
            Ok(i) => types matches Some(t) && i < archs@.len() && spec_find_arch(
                archs@,
                t.0,
                t.1,
            ) == i,
            Err(ErrorKind::UnknownArchitecture(name)) => types is None && name@ == arch@,
            Err(ErrorKind::MissingArchitecture(name)) => types matches Some(t) && name@ == arch@
                && spec_find_arch(archs@, t.0, t.1) == archs@.len(),
            Err(_) => false,
        },
{
    match types {
        None => Err(ErrorKind::UnknownArchitecture(String::from_str(arch))),
        Some((cputype, cpusubtype)) => match find_arch(archs, cputype, cpusubtype) {
            Some(i) => Ok(i),
            None => Err(ErrorKind::MissingArchitecture(String::from_str(arch))),
        },
    }
}

/// Which slice of an object holds the symbols of the architecture
/// called `arch`: `select_arch_with` on what the table of
/// architectures gives for the name.
pub fn select_arch(archs: &Vec<(i32, i32)>, arch: &str) -> (r: Result<usize, ErrorKind>)
    ensures
        match r {
            Ok(i) => arch_flag_types(arch@) matches Some(t) && i < archs@.len()
                && spec_find_arch(archs@, t.0, t.1) == i,
            Err(ErrorKind::UnknownArchitecture(name)) => arch_flag_types(arch@) is None && name@
                == arch@,
            Err(ErrorKind::MissingArchitecture(name)) => arch_flag_types(arch@) matches Some(t)
                && name@ == arch@ && spec_find_arch(archs@, t.0, t.1) == archs@.len(),
            Err(_) => false,
        },
{
    select_arch_with(archs, arch, arch_from_flag(arch))
}

} // verus!
