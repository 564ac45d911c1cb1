//! SDK descriptors and the names under which they are stored.
use vstd::prelude::*;
use vstd::string::*;
use crate::errors::ErrorKind;
use crate::text::{
    all_alnum, chars_all_alnum, chars_equal, chars_leq, chars_to_string, decimal_digits,
    ends_with, find_char, first_index_of, last_index_of, lemma_text_leq_antisymmetric,
    lemma_text_leq_reflexive, lemma_text_leq_total, lemma_text_leq_transitive, parse_u32,
    push_decimal, rfind_char, spec_parse_u32, str_chars, str_eq, text_leq,
};
use vstd::relations::total_ordering;

verus! {

/// Options for writing a memdb.
#[derive(Clone, Copy)]
pub struct DumpOptions {
    pub show_progress_bar: bool,
    pub compress: bool,
}

impl Default for DumpOptions {
    fn default() -> (r: DumpOptions)
        ensures
            !r.show_progress_bar,
            !r.compress,
    {
        DumpOptions { show_progress_bar: false, compress: false }
    }
}

/// What an `SdkInfo` stands for.
pub struct SdkInfoView {
    pub name: Seq<char>,
    pub version_major: u32,
    pub version_minor: u32,
    pub version_patchlevel: u32,
    pub build: Option<Seq<char>>,
}

/// Information of the SDK
#[derive(Debug)]
pub struct SdkInfo {
    name: String,
    version_major: u32,
    version_minor: u32,
    version_patchlevel: u32,
    build: Option<String>,
}

/// A version of three numbers, shown without the last one where that is zero.
pub struct Version(pub u32, pub u32, pub u32);

/// The optional text that an optional string stands for.
pub open spec fn opt_view(o: Option<String>) -> Option<Seq<char>> {
    match o {
        Some(s) => Some(s@),
        None => None,
    }
}

/// The optional descriptor that an optional `SdkInfo` stands for.
pub open spec fn opt_info_view(o: Option<SdkInfo>) -> Option<SdkInfoView> {
    match o {
        Some(i) => Some(i@),
        None => None,
    }
}

impl View for SdkInfo {
    type V = SdkInfoView;

    closed spec fn view(&self) -> SdkInfoView {
        SdkInfoView {
            name: self.name@,
            version_major: self.version_major,
            version_minor: self.version_minor,
            version_patchlevel: self.version_patchlevel,
            build: opt_view(self.build),
        }
    }
}

impl Clone for SdkInfo {
    fn clone(&self) -> (r: SdkInfo)
        ensures
            r@ == self@,
    {
        SdkInfo {
            name: self.name.clone(),
            version_major: self.version_major,
            version_minor: self.version_minor,
            version_patchlevel: self.version_patchlevel,
            build: match &self.build {
                Some(b) => Some(b.clone()),
                None => None,
            },
        }
    }
}

impl Version {
    /// The text of a version: `major.minor`, followed by `.patchlevel`
    /// unless the patchlevel is zero.
    pub open spec fn spec_text(self) -> Seq<char> {
        let head = decimal_digits(self.0 as nat) + seq!['.'] + decimal_digits(self.1 as nat);
        if self.2 == 0 {
            head
        } else {
            head + seq!['.'] + decimal_digits(self.2 as nat)
        }
    }

    /// The version as text.
    pub fn to_text(&self) -> (r: String)
        ensures
            r@ == self.spec_text(),
    {
        let mut s = String::new();
        push_decimal(&mut s, self.0);
        s.push('.');
        push_decimal(&mut s, self.1);
        if self.2 != 0 {
            s.push('.');
            push_decimal(&mut s, self.2);
        }
        assert(s@ =~= self.spec_text());
        s
    }
}

/// The name of the SDK whose device support folder is called `folder`.
pub open spec fn spec_sdk_name_from_folder(folder: Seq<char>) -> Option<Seq<char>> {
    if folder == "iOS DeviceSupport"@ {
        Some("iOS"@)
    } else if folder == "tvOS DeviceSupport"@ {
        Some("tvOS"@)
    } else {
        None
    }
}

/// Maps the name of a device support folder to the name of its SDK.
pub fn get_sdk_name_from_folder(folder: &str) -> (r: Option<&'static str>)
    ensures
        match r {
            Some(name) => spec_sdk_name_from_folder(folder@) == Some(name@),
            None => spec_sdk_name_from_folder(folder@) is None,
        },
{
    if str_eq(folder, "iOS DeviceSupport") {
        Some("iOS")
    } else if str_eq(folder, "tvOS DeviceSupport") {
        Some("tvOS")
    } else {
        None
    }
}

/// The text `name_major.minor.patchlevel`, followed by `_build` where
/// there is a build.
pub open spec fn spec_sdk_id(v: SdkInfoView) -> Seq<char> {
    let head = v.name + seq!['_'] + decimal_digits(v.version_major as nat) + seq!['.']
        + decimal_digits(v.version_minor as nat) + seq!['.'] + decimal_digits(
        v.version_patchlevel as nat,
    );
    match v.build {
        Some(b) => head + seq!['_'] + b,
        None => head,
    }
}

/// The name of the memdb file of an SDK: its id followed by `.memdb`.
pub open spec fn spec_memdb_filename(v: SdkInfoView) -> Seq<char> {
    spec_sdk_id(v) + memdb_ext()
}

/// The extension of a memdb file.
pub open spec fn memdb_ext() -> Seq<char> {
    seq!['.', 'm', 'e', 'm', 'd', 'b']
}

/// The extension of a compressed memdb file.
pub open spec fn memdbz_ext() -> Seq<char> {
    seq!['.', 'm', 'e', 'm', 'd', 'b', 'z']
}

/// The extension of an SDK archive.
pub open spec fn zip_ext() -> Seq<char> {
    seq!['.', 'z', 'i', 'p']
}

impl SdkInfo {
    /// Manually construct an SDK info
    pub fn new(
        name: &str,
        version_major: u32,
        version_minor: u32,
        version_patchlevel: u32,
        build: Option<&str>,
    ) -> (r: SdkInfo)
        ensures
            r@ == (SdkInfoView {
                name: name@,
                version_major,
                version_minor,
                version_patchlevel,
                build: match build {
                    Some(b) => Some(b@),
                    None => None,
                },
            }),
    {
        SdkInfo {
            name: String::from_str(name),
            version_major,
            version_minor,
            version_patchlevel,
            build: match build {
                Some(b) => Some(String::from_str(b)),
                None => None,
            },
        }
    }

    /// The SDK name (iOS, tvOS etc.)
    pub fn name(&self) -> (r: &str)
        ensures
            r@ == self@.name,
    {
        self.name.as_str()
    }

    /// The major version of the SDK.
    pub fn version_major(&self) -> (r: u32)
        ensures
            r == self@.version_major,
    {
        self.version_major
    }

    /// The minor version of the SDK
    pub fn version_minor(&self) -> (r: u32)
        ensures
            r == self@.version_minor,
    {
        self.version_minor
    }

    /// The patchlevel version of the SDK
    pub fn version_patchlevel(&self) -> (r: u32)
        ensures
            r == self@.version_patchlevel,
    {
        self.version_patchlevel
    }

    /// The version as formattable thing
    pub fn version(&self) -> (r: Version)
        ensures
            r.0 == self@.version_major,
            r.1 == self@.version_minor,
            r.2 == self@.version_patchlevel,
    {
        Version(self.version_major, self.version_minor, self.version_patchlevel)
    }

    /// The build of the SDK
    pub fn build(&self) -> (r: Option<&str>)
        ensures
            match r {
                Some(b) => self@.build == Some(b@),
                None => self@.build is None,
            },
    {
        match &self.build {
            Some(b) => Some(b.as_str()),
            None => None,
        }
    }

    /// Whether two descriptors name the same SDK.
    pub fn same_as(&self, other: &SdkInfo) -> (r: bool)
        ensures
            r == (self@ == other@),
    {
        let builds = match (&self.build, &other.build) {
            (Some(a), Some(b)) => str_eq(a.as_str(), b.as_str()),
            (None, None) => true,
            _ => false,
        };
        builds && str_eq(self.name.as_str(), other.name.as_str()) && self.version_major
            == other.version_major && self.version_minor == other.version_minor
            && self.version_patchlevel == other.version_patchlevel
    }

    /// The id of the SDK: the name of its memdb file without the extension.
    pub fn sdk_id(&self) -> (r: String)
        ensures
            r@ == spec_sdk_id(self@),
    {
        let mut s = self.name.clone();
        s.push('_');
        push_decimal(&mut s, self.version_major);
        s.push('.');
        push_decimal(&mut s, self.version_minor);
        s.push('.');
        push_decimal(&mut s, self.version_patchlevel);
        match &self.build {
            Some(b) => {
                s.push('_');
                s.append(b.as_str());
            },
            None => {},
        }
        assert(s@ =~= spec_sdk_id(self@));
        s
    }

    /// The name of the memdb file that holds this SDK.
    pub fn memdb_filename(&self) -> (r: String)
        ensures
            r@ == spec_memdb_filename(self@),
    {
        let mut s = self.sdk_id();
        s.push('.');
        s.push('m');
        s.push('e');
        s.push('m');
        s.push('d');
        s.push('b');
        assert(s@ =~= spec_memdb_filename(self@));
        s
    }

    /// The text shown for the SDK: its name and version, followed by
    /// the build in brackets where there is one.
    pub open spec fn spec_text(v: SdkInfoView) -> Seq<char> {
        let head = v.name + seq![' '] + Version(
            v.version_major,
            v.version_minor,
            v.version_patchlevel,
        ).spec_text();
        match v.build {
            Some(b) => head + seq![' ', '('] + b + seq![')'],
            None => head,
        }
    }

    /// The SDK as text for a reader, such as `iOS 10.2.3 (14C93)`.
    pub fn to_text(&self) -> (r: String)
        ensures
            r@ == Self::spec_text(self@),
    {
        let mut s = self.name.clone();
        s.push(' ');
        let v = self.version().to_text();
        s.append(v.as_str());
        match &self.build {
            Some(b) => {
                s.push(' ');
                s.push('(');
                s.append(b.as_str());
                s.push(')');
            },
            None => {},
        }
        assert(s@ =~= Self::spec_text(self@));
        s
    }
}

/// A filename without the extension of a memdb file, plain or compressed.
pub open spec fn strip_memdb_ext(s: Seq<char>) -> Seq<char> {
    if ends_with(s, memdbz_ext()) {
        s.take(s.len() - 7)
    } else if ends_with(s, memdb_ext()) {
        s.take(s.len() - 6)
    } else {
        s
    }
}

/// A folder name without the extension of an archive.
pub open spec fn strip_zip_ext(s: Seq<char>) -> Seq<char> {
    if ends_with(s, zip_ext()) {
        s.take(s.len() - 4)
    } else {
        s
    }
}

/// The three numbers of a version written as `major.minor` or as
/// `major.minor.patchlevel`; an absent patchlevel counts as zero.
pub open spec fn spec_parse_version(s: Seq<char>) -> Option<(u32, u32, u32)> {
    let d1 = first_index_of(s, '.');
    if d1 < 0 {
        None
    } else {
        let rest = s.subrange(d1 + 1, s.len() as int);
        let d2 = first_index_of(rest, '.');
        let minor = if d2 < 0 {
            rest
        } else {
            rest.take(d2)
        };
        let patch = if d2 < 0 {
            Some(0u32)
        } else {
            spec_parse_u32(rest.subrange(d2 + 1, rest.len() as int))
        };
        match (spec_parse_u32(s.take(d1)), spec_parse_u32(minor), patch) {
            (Some(a), Some(b), Some(c)) => Some((a, b, c)),
            _ => None,
        }
    }
}

/// A name is usable in a filename if it is not empty and holds no hyphen.
pub open spec fn valid_sdk_name(name: Seq<char>) -> bool {
    name.len() > 0 && !name.contains('-')
}

/// A build is usable in a filename if it is a non-empty run of digits
/// and basic Latin letters.
pub open spec fn valid_build(build: Seq<char>) -> bool {
    build.len() > 0 && all_alnum(build)
}

/// The descriptor that a name and the text of a version give.
pub open spec fn spec_make_info(
    name: Seq<char>,
    version: Seq<char>,
    build: Option<Seq<char>>,
) -> Option<SdkInfoView> {
    match spec_parse_version(version) {
        Some((a, b, c)) => if valid_sdk_name(name) {
            Some(
                SdkInfoView {
                    name,
                    version_major: a,
                    version_minor: b,
                    version_patchlevel: c,
                    build,
                },
            )
        } else {
            None
        },
        None => None,
    }
}

/// What a filename or an SDK id means.
///
/// The text is `name_version`, optionally followed by `_build`, and
/// optionally by `.memdb` or `.memdbz`. The name holds no hyphen, the
/// version is two or three decimal numbers separated by dots, and the
/// build is made of digits and basic Latin letters. The name may itself
/// hold underscores: it ends at the last place that leaves a version,
/// and a build, behind it.
pub open spec fn spec_from_filename(s: Seq<char>) -> Option<SdkInfoView> {
    spec_from_stem(strip_memdb_ext(s))
}

/// What a filename without its extension means.
pub open spec fn spec_from_stem(t: Seq<char>) -> Option<SdkInfoView> {
    let j = last_index_of(t, '_');
    if j < 0 {
        None
    } else {
        let head = t.take(j);
        let tail = t.subrange(j + 1, t.len() as int);
        if spec_parse_version(tail) is Some {
            spec_make_info(head, tail, None)
        } else if valid_build(tail) {
            let k = last_index_of(head, '_');
            if k < 0 {
                None
            } else {
                spec_make_info(head.take(k), head.subrange(k + 1, head.len() as int), Some(tail))
            }
        } else {
            None
        }
    }
}

/// Whether `c` is white space.
pub open spec fn is_space(c: char) -> bool {
    let n = c as u32;
    (0x09 <= n <= 0x0d) || n == 0x20 || n == 0x85 || n == 0xa0 || n == 0x1680 || (0x2000 <= n
        <= 0x200a) || n == 0x2028 || n == 0x2029 || n == 0x202f || n == 0x205f || n == 0x3000
}

/// The position of the first white space in `s`, or the length of `s`
/// where there is none.
pub open spec fn first_space(s: Seq<char>) -> int
    decreases s.len(),
{
    if s.len() == 0 {
        0
    } else {
        let r = first_space(s.drop_last());
        if r < s.len() - 1 {
            r
        } else if is_space(s.last()) {
            s.len() - 1
        } else {
            s.len() as int
        }
    }
}

/// Every character of `s` is white space.
pub open spec fn all_space(s: Seq<char>) -> bool {
    forall|i: int| 0 <= i < s.len() ==> is_space(#[trigger] s[i])
}

/// What the name of an SDK folder means: the version and the build.
///
/// The text is `version`, white space, and the build in round brackets,
/// optionally followed by `.zip`.
pub open spec fn spec_parse_folder_name(s: Seq<char>) -> Option<((u32, u32, u32), Seq<char>)> {
    let t = strip_zip_ext(s);
    let p = last_index_of(t, '(');
    if t.len() == 0 || t.last() != ')' || p < 0 {
        None
    } else {
        let build = t.subrange(p + 1, t.len() - 1);
        let head = t.take(p);
        let sp = first_space(head);
        let gap = head.subrange(sp, head.len() as int);
        match spec_parse_version(head.take(sp)) {
            Some(v) => if valid_build(build) && gap.len() > 0 && all_space(gap) {
                Some((v, build))
            } else {
                None
            },
            None => None,
        }
    }
}

/// What the last component of a path and the name of the folder that
/// holds it mean: the filename of a memdb, or else an SDK folder inside
/// a device support folder.
pub open spec fn spec_from_path_parts(
    filename: Seq<char>,
    folder: Option<Seq<char>>,
) -> Option<SdkInfoView> {
    match spec_from_filename(filename) {
        Some(info) => Some(info),
        None => match folder {
            Some(f) => match (spec_sdk_name_from_folder(f), spec_parse_folder_name(filename)) {
                (Some(name), Some((v, build))) => Some(
                    SdkInfoView {
                        name,
                        version_major: v.0,
                        version_minor: v.1,
                        version_patchlevel: v.2,
                        build: Some(build),
                    },
                ),
                _ => None,
            },
            None => None,
        },
    }
}

/// `first_space` is the least position that holds white space.
pub proof fn lemma_first_space(s: Seq<char>)
    ensures
        0 <= first_space(s) <= s.len(),
        first_space(s) < s.len() ==> is_space(s[first_space(s)]),
        forall|j: int| 0 <= j < first_space(s) ==> !is_space(#[trigger] s[j]),
    decreases s.len(),
{
    if s.len() > 0 {
        lemma_first_space(s.drop_last());
        assert forall|j: int| 0 <= j < first_space(s) implies !is_space(#[trigger] s[j]) by {
            if j < s.len() - 1 {
                assert(s.drop_last()[j] == s[j]);
            }
        }
    }
}

/// Reads the version in `chars[from..to]`.
fn parse_version(chars: &[char], from: usize, to: usize) -> (r: Option<(u32, u32, u32)>)
    requires
        from <= to <= chars@.len(),
    ensures
        r == spec_parse_version(chars@.subrange(from as int, to as int)),
{
    let ghost s = chars@.subrange(from as int, to as int);
    let d1 = match find_char(chars, from, to, '.') {
        Some(d1) => d1,
        None => {
            return None;
        },
    };
    let ghost rest = s.subrange(d1 - from + 1, s.len() as int);
    assert(rest =~= chars@.subrange(d1 + 1, to as int));
    assert(s.take(d1 - from) =~= chars@.subrange(from as int, d1 as int));
    let major = parse_u32(chars, from, d1);
    let d2 = find_char(chars, d1 + 1, to, '.');
    let (minor, patch) = match d2 {
        Some(d2) => {
            assert(rest.take(d2 - d1 - 1) =~= chars@.subrange(d1 + 1, d2 as int));
            assert(rest.subrange(d2 - d1 - 1 + 1, rest.len() as int) =~= chars@.subrange(
                d2 + 1,
                to as int,
            ));
            (parse_u32(chars, d1 + 1, d2), parse_u32(chars, d2 + 1, to))
        },
        None => (parse_u32(chars, d1 + 1, to), Some(0u32)),
    };
    match (major, minor, patch) {
        (Some(a), Some(b), Some(c)) => Some((a, b, c)),
        _ => None,
    }
}

/// Whether `chars[from..to]` holds the character `c`.
fn has_char(chars: &[char], from: usize, to: usize, c: char) -> (r: bool)
    requires
        from <= to <= chars@.len(),
    ensures
        r == chars@.subrange(from as int, to as int).contains(c),
{
    let ghost s = chars@.subrange(from as int, to as int);
    proof {
        crate::text::lemma_first_index_of(s, c);
    }
    match find_char(chars, from, to, c) {
        Some(i) => {
            assert(s[i - from] == c);
            true
        },
        None => {
            assert forall|j: int| 0 <= j < s.len() implies s[j] != c by {}
            false
        },
    }
}

/// Builds the descriptor from the places of its parts in `chars`.
fn make_info(
    chars: &[char],
    name_to: usize,
    version_from: usize,
    version_to: usize,
    build: Option<(usize, usize)>,
) -> (r: Option<SdkInfo>)
    requires
        name_to <= chars@.len(),
        version_from <= version_to <= chars@.len(),
        match build {
            Some((a, b)) => a <= b <= chars@.len(),
            None => true,
        },
    ensures
        opt_info_view(r) == spec_make_info(
            chars@.take(name_to as int),
            chars@.subrange(version_from as int, version_to as int),
            match build {
                Some((a, b)) => Some(chars@.subrange(a as int, b as int)),
                None => None,
            },
        ),
{
    assert(chars@.take(name_to as int) =~= chars@.subrange(0, name_to as int));
    let version = parse_version(chars, version_from, version_to);
    match version {
        Some((a, b, c)) => {
            if name_to > 0 && !has_char(chars, 0, name_to, '-') {
                Some(
                    SdkInfo {
                        name: chars_to_string(chars, 0, name_to),
                        version_major: a,
                        version_minor: b,
                        version_patchlevel: c,
                        build: match build {
                            Some((x, y)) => Some(chars_to_string(chars, x, y)),
                            None => None,
                        },
                    },
                )
            } else {
                None
            }
        },
        None => None,
    }
}

/// The length of `chars` without the extension of a memdb file.
fn memdb_stem_len(chars: &[char]) -> (r: usize)
    ensures
        r <= chars@.len(),
        chars@.take(r as int) == strip_memdb_ext(chars@),
{
    let n = chars.len();
    let extz = vec!['.', 'm', 'e', 'm', 'd', 'b', 'z'];
    let ext = vec!['.', 'm', 'e', 'm', 'd', 'b'];
    assert(extz@ =~= memdbz_ext());
    assert(ext@ =~= memdb_ext());
    if n >= 7 && chars_equal(chars, n - 7, n, extz.as_slice()) {
        n - 7
    } else if n >= 6 && chars_equal(chars, n - 6, n, ext.as_slice()) {
        n - 6
    } else {
        assert(chars@.take(n as int) =~= chars@);
        n
    }
}

impl SdkInfo {
    /// Reads an SDK id or the name of a memdb file.
    ///
    /// Returns `None` where the text is not of that form.
    pub fn from_filename(filename: &str) -> (r: Option<SdkInfo>)
        ensures
            opt_info_view(r) == spec_from_filename(filename@),
    {
        let all = str_chars(filename);
        let n = memdb_stem_len(all.as_slice());
        let mut chars = all;
        chars.truncate(n);
        let chars = chars.as_slice();
        assert(chars@ == strip_memdb_ext(filename@));
        assert(chars@.subrange(0, n as int) =~= chars@);
        let j = match rfind_char(chars, 0, n, '_') {
            Some(j) => j,
            None => {
                return None;
            },
        };
        assert(chars@.take(j as int).take(j as int) =~= chars@.take(j as int));
        if parse_version(chars, j + 1, n).is_some() {
            return make_info(chars, j, j + 1, n, None);
        }
        if j + 1 < n && chars_all_alnum(chars, j + 1, n) {
            assert(chars@.take(j as int) =~= chars@.subrange(0, j as int));
            let k = match rfind_char(chars, 0, j, '_') {
                Some(k) => k,
                None => {
                    return None;
                },
            };
            assert(chars@.take(j as int).take(k as int) =~= chars@.take(k as int));
            assert(chars@.take(j as int).subrange(k + 1, j as int) =~= chars@.subrange(
                k + 1,
                j as int,
            ));
            return make_info(chars, k, k + 1, j, Some((j + 1, n)));
        }
        None
    }
}

/// The last component of a path, as `std::path::Path::file_name` gives it.
pub uninterp spec fn path_file_name(path: Seq<char>) -> Option<Seq<char>>;

/// A path without its last component, as `std::path::Path::parent`
/// gives it.
pub uninterp spec fn path_parent(path: Seq<char>) -> Option<Seq<char>>;

/// Calls `std::path::Path::file_name` on `path`. The result is the last
/// component of the path, which this library does not spell out: the
/// contract gives it the name `path_file_name`.
#[verifier::external_body]
fn file_name_of(path: &str) -> (r: Option<String>)
    ensures
        opt_view(r) == path_file_name(path@),
{
    std::path::Path::new(path).file_name().and_then(|x| x.to_str()).map(|x| x.to_string())
}

/// Calls `std::path::Path::parent` on `path`. The result is the path
/// without its last component, which this library does not spell out:
/// the contract gives it the name `path_parent`.
#[verifier::external_body]
fn parent_of(path: &str) -> (r: Option<String>)
    ensures
        opt_view(r) == path_parent(path@),
{
    std::path::Path::new(path).parent().and_then(|x| x.to_str()).map(|x| x.to_string())
}

/// Whether `c` is white space.
fn char_is_space(c: char) -> (r: bool)
    ensures
        r == is_space(c),
{
    let n: u32 = c as u32;
    (0x09 <= n && n <= 0x0d) || n == 0x20 || n == 0x85 || n == 0xa0 || n == 0x1680 || (0x2000
        <= n && n <= 0x200a) || n == 0x2028 || n == 0x2029 || n == 0x202f || n == 0x205f || n
        == 0x3000
}

/// Reads the name of an SDK folder: the version, and the place of the
/// build in `chars`.
#[verifier::rlimit(60)]
fn parse_folder_name(chars: &[char]) -> (r: Option<((u32, u32, u32), (usize, usize))>)
    ensures
        match r {
            Some((v, (a, b))) => a <= b <= chars@.len() && spec_parse_folder_name(chars@) == Some(
                (v, chars@.subrange(a as int, b as int)),
            ),
            None => spec_parse_folder_name(chars@) is None,
        },
{
    let len = chars.len();
    let ext = vec!['.', 'z', 'i', 'p'];
    assert(ext@ =~= zip_ext());
    let n = if len >= 4 && chars_equal(chars, len - 4, len, ext.as_slice()) {
        len - 4
    } else {
        len
    };
    let ghost t = strip_zip_ext(chars@);
    assert(t =~= chars@.take(n as int));
    assert(t =~= chars@.subrange(0, n as int));
    if n == 0 || chars[n - 1] != ')' {
        return None;
    }
    let p = match rfind_char(chars, 0, n, '(') {
        Some(p) => p,
        None => {
            return None;
        },
    };
    let ghost head = t.take(p as int);
    proof {
        crate::text::lemma_last_index_of(t, '(');
    }
    assert(head =~= chars@.subrange(0, p as int));
    assert(t.subrange(p + 1, t.len() - 1) =~= chars@.subrange(p + 1, n - 1));
    let mut sp: usize = 0;
    while sp < p && !char_is_space(chars[sp])
        invariant
            0 <= sp <= p <= chars@.len(),
            head == chars@.subrange(0, p as int),
            forall|j: int| 0 <= j < sp ==> !is_space(#[trigger] head[j]),
        decreases p - sp,
    {
        sp += 1;
    }
    proof {
        lemma_first_space(head);
        if sp < p {
            assert(is_space(head[sp as int]));
        }
        assert(first_space(head) == sp);
    }
    let ghost gap = head.subrange(sp as int, head.len() as int);
    assert(head.take(sp as int) =~= chars@.subrange(0, sp as int));
    let version = match parse_version(chars, 0, sp) {
        Some(v) => v,
        None => {
            return None;
        },
    };
    if !(p + 1 < n - 1 && chars_all_alnum(chars, p + 1, n - 1)) {
        return None;
    }
    if sp == p {
        return None;
    }
    let mut spaces = true;
    let mut i: usize = sp;
    while i < p
        invariant
            sp <= i <= p <= chars@.len(),
            head == chars@.subrange(0, p as int),
            gap == head.subrange(sp as int, head.len() as int),
            spaces ==> forall|j: int| 0 <= j < i - sp ==> is_space(#[trigger] gap[j]),
            !spaces ==> exists|j: int| 0 <= j < gap.len() && !is_space(#[trigger] gap[j]),
        decreases p - i,
    {
        if !char_is_space(chars[i]) {
            assert(!is_space(gap[i - sp]));
            spaces = false;
        }
        i += 1;
    }
    if !spaces {
        return None;
    }
    Some((version, (p + 1, n - 1)))
}

/// A path inside an SDK archive without the folders that lead to its
/// symbols: `Symbols/x` and `anything/Symbols/x` stand for `x`.
pub open spec fn spec_strip_archive_file_prefix(s: Seq<char>) -> Seq<char> {
    let i1 = first_index_of(s, '/');
    if i1 < 0 {
        s
    } else {
        let rest = s.subrange(i1 + 1, s.len() as int);
        let i2 = first_index_of(rest, '/');
        if s.take(i1) == "Symbols"@ {
            rest
        } else if i2 >= 0 && rest.take(i2) == "Symbols"@ {
            rest.subrange(i2 + 1, rest.len() as int)
        } else {
            s
        }
    }
}

/// Removes the leading folders of a path inside an SDK archive.
pub fn strip_archive_file_prefix(path: &str) -> (r: &str)
    ensures
        r@ == spec_strip_archive_file_prefix(path@),
{
    let chars = str_chars(path);
    let n = chars.len();
    let symbols = str_chars("Symbols");
    assert(chars@.subrange(0, n as int) =~= chars@);
    let i1 = match find_char(chars.as_slice(), 0, n, '/') {
        Some(i1) => i1,
        None => {
            return path;
        },
    };
    let ghost rest = chars@.subrange(i1 + 1, n as int);
    assert(chars@.take(i1 as int) =~= chars@.subrange(0, i1 as int));
    if chars_equal(chars.as_slice(), 0, i1, symbols.as_slice()) {
        return path.substring_char(i1 + 1, n);
    }
    match find_char(chars.as_slice(), i1 + 1, n, '/') {
        Some(i2) => {
            assert(rest.take(i2 - i1 - 1) =~= chars@.subrange(i1 + 1, i2 as int));
            assert(rest.subrange(i2 - i1 - 1 + 1, rest.len() as int) =~= chars@.subrange(
                i2 + 1,
                n as int,
            ));
            if chars_equal(chars.as_slice(), i1 + 1, i2, symbols.as_slice()) {
                path.substring_char(i2 + 1, n)
            } else {
                path
            }
        },
        None => path,
    }
}

impl SdkInfo {
    /// Reads the last component of a path, given together with the name
    /// of the folder that holds it: the name of a memdb file, or the
    /// name of an SDK folder inside a device support folder.
    pub fn from_path_parts(filename: &str, folder: Option<&str>) -> (r: Option<SdkInfo>)
        ensures
            opt_info_view(r) == spec_from_path_parts(
                filename@,
                match folder {
                    Some(f) => Some(f@),
                    None => None,
                },
            ),
    {
        match SdkInfo::from_filename(filename) {
            Some(info) => {
                return Some(info);
            },
            None => {},
        }
        let folder = match folder {
            Some(f) => f,
            None => {
                return None;
            },
        };
        let name = match get_sdk_name_from_folder(folder) {
            Some(name) => name,
            None => {
                return None;
            },
        };
        let chars = str_chars(filename);
        match parse_folder_name(chars.as_slice()) {
            Some((v, (a, b))) => Some(
                SdkInfo {
                    name: String::from_str(name),
                    version_major: v.0,
                    version_minor: v.1,
                    version_patchlevel: v.2,
                    build: Some(chars_to_string(chars.as_slice(), a, b)),
                },
            ),
            None => None,
        }
    }

    /// What a path means: its last component and the name of the folder
    /// that holds that component, read by `from_path_parts`.
    pub open spec fn spec_from_path(path: Seq<char>) -> Option<SdkInfoView> {
        match path_file_name(path) {
            Some(filename) => spec_from_path_parts(
                filename,
                match path_parent(path) {
                    Some(parent) => path_file_name(parent),
                    None => None,
                },
            ),
            None => None,
        }
    }

    /// Load an SDK info from a given path
    ///
    /// If the path cannot be parsed for an SDK info `None` is returned.
    pub fn from_path(path: &str) -> (r: Option<SdkInfo>)
        ensures
            opt_info_view(r) == Self::spec_from_path(path@),
    {
        let filename = match file_name_of(path) {
            Some(f) => f,
            None => {
                return None;
            },
        };
        let folder = match parent_of(path) {
            Some(parent) => file_name_of(parent.as_str()),
            None => None,
        };
        match &folder {
            Some(f) => SdkInfo::from_path_parts(filename.as_str(), Some(f.as_str())),
            None => SdkInfo::from_path_parts(filename.as_str(), None),
        }
    }
}

/// Helper struct to process an SDK from the FS or a ZIP
pub struct Sdk {
    path: String,
    info: SdkInfo,
}

impl Sdk {
    /// The path that the SDK was made from.
    pub closed spec fn spec_path(&self) -> Seq<char> {
        self.path@
    }

    /// The descriptor of the SDK.
    pub closed spec fn spec_info(&self) -> SdkInfoView {
        self.info@
    }

    /// Constructs a processor from a file system path
    ///
    /// Fails with `UnknownSdk` where the path does not name an SDK.
    pub fn new(path: &str) -> (r: Result<Sdk, ErrorKind>)
        ensures
            match r {
                Ok(sdk) => sdk.spec_path() == path@ && SdkInfo::spec_from_path(path@) == Some(
                    sdk.spec_info(),
                ),
                Err(e) => e == ErrorKind::UnknownSdk && SdkInfo::spec_from_path(path@) is None,
            },
    {
        match SdkInfo::from_path(path) {
            Some(info) => Ok(Sdk { path: String::from_str(path), info }),
            None => Err(ErrorKind::UnknownSdk),
        }
    }

    /// The path that the SDK was made from.
    pub fn path(&self) -> (r: &str)
        ensures
            r@ == self.spec_path(),
    {
        self.path.as_str()
    }

    /// Returns the SDK info (derived from the path)
    pub fn info(&self) -> (r: &SdkInfo)
        ensures
            r@ == self.spec_info(),
    {
        &self.info
    }

    /// Returns the intended memdb filename
    pub fn memdb_filename(&self) -> (r: String)
        ensures
            r@ == spec_memdb_filename(self.spec_info()),
    {
        self.info.memdb_filename()
    }

    /// Writes a memdb file for the SDK from the slices of its objects,
    /// each object given with the name of its file.
    ///
    /// This can then be later read with the `MemDb` type.
    pub fn dump_memdb(
        &self,
        opts: DumpOptions,
        objects: &Vec<(String, Vec<crate::dsym::ObjectSlice>)>,
    ) -> (r: Result<Vec<u8>, ErrorKind>)
        ensures
            ({
                let (v, ok) = crate::memdb::write::BuilderView::empty(
                    self.spec_info(),
                ).with_objects(crate::memdb::write::objects_view(objects@));
                let c = v.contents(crate::memdb::write::packed_of(self.spec_info()));
                let stored = crate::memdb::types::PackedSdkInfo::fits(self.spec_info()) && ok
                    && c.fits();
                match r {
                    Ok(bytes) => stored && bytes@ == (if opts.compress {
                        crate::memdb::write::xz_encoded(c.file(), 9)
                    } else {
                        c.file()
                    }),
                    Err(ErrorKind::MemDbLimit) => !stored,
                    Err(ErrorKind::CompressionFailed) => stored && opts.compress,
                    Err(_) => false,
                }
            }),
    {
        crate::memdb::write::dump_memdb(self.info(), opts, objects)
    }
}

/// The text of a version of three numbers reads back as those numbers.
pub proof fn lemma_version_roundtrip(a: u32, b: u32, c: u32)
    ensures
        spec_parse_version(
            decimal_digits(a as nat) + seq!['.'] + decimal_digits(b as nat) + seq!['.']
                + decimal_digits(c as nat),
        ) == Some((a, b, c)),
        !(decimal_digits(a as nat) + seq!['.'] + decimal_digits(b as nat) + seq!['.']
            + decimal_digits(c as nat)).contains('_'),
{
    let da = decimal_digits(a as nat);
    let db = decimal_digits(b as nat);
    let dc = decimal_digits(c as nat);
    crate::text::lemma_decimal_roundtrip(a as nat);
    crate::text::lemma_decimal_roundtrip(b as nat);
    crate::text::lemma_decimal_roundtrip(c as nat);
    let s = da + seq!['.'] + db + seq!['.'] + dc;
    let tail = db + seq!['.'] + dc;
    assert(s =~= da + seq!['.'] + tail);
    assert(!da.contains('.')) by {
        if da.contains('.') {
            let i = choose|i: int| 0 <= i < da.len() && da[i] == '.';
            assert(crate::text::is_digit(da[i]));
        }
    }
    assert(!db.contains('.')) by {
        if db.contains('.') {
            let i = choose|i: int| 0 <= i < db.len() && db[i] == '.';
            assert(crate::text::is_digit(db[i]));
        }
    }
    assert(!dc.contains('.')) by {
        if dc.contains('.') {
            let i = choose|i: int| 0 <= i < dc.len() && dc[i] == '.';
            assert(crate::text::is_digit(dc[i]));
        }
    }
    crate::text::lemma_first_index_of_joined(da, '.', tail);
    let d1 = first_index_of(s, '.');
    assert(d1 == da.len());
    let rest = s.subrange(d1 + 1, s.len() as int);
    assert(rest =~= tail);
    crate::text::lemma_first_index_of_joined(db, '.', dc);
    let d2 = first_index_of(rest, '.');
    assert(d2 == db.len());
    assert(rest.take(d2) =~= db);
    assert(rest.subrange(d2 + 1, rest.len() as int) =~= dc);
    assert(s.take(d1) =~= da);
    assert(!s.contains('_')) by {
        if s.contains('_') {
            let i = choose|i: int| 0 <= i < s.len() && s[i] == '_';
            if i < da.len() {
                assert(crate::text::is_digit(da[i]));
            } else if i == da.len() {
            } else if i < da.len() + 1 + db.len() {
                assert(crate::text::is_digit(db[i - da.len() - 1]));
            } else if i == da.len() + 1 + db.len() {
            } else {
                assert(crate::text::is_digit(dc[i - da.len() - db.len() - 2]));
            }
        }
    }
}

/// The id of an SDK, and the name of its memdb file, read back as the
/// SDK: a canonical filename round-trips through reading and writing.
/// This holds of every descriptor whose name and build can stand in a
/// filename.
pub proof fn lemma_filename_roundtrip(v: SdkInfoView)
    requires
        valid_sdk_name(v.name),
        match v.build {
            Some(b) => valid_build(b),
            None => true,
        },
    ensures
        spec_from_filename(spec_sdk_id(v)) == Some(v),
        spec_from_filename(spec_memdb_filename(v)) == Some(v),
        spec_from_filename(spec_sdk_id(v) + memdbz_ext()) == Some(v),
{
    lemma_stem_roundtrip(v);
    lemma_strip_ext_of_id(v);
    let id = spec_sdk_id(v);
    let f = id + memdb_ext();
    assert(strip_memdb_ext(f) == id) by {
        if ends_with(f, memdbz_ext()) {
            assert(f.subrange(f.len() - 7, f.len() as int)[6] == 'z');
            assert(f[f.len() - 1] == 'b');
        }
        assert(f.subrange(f.len() - 6, f.len() as int) =~= memdb_ext());
        assert(f.take(f.len() - 6) =~= id);
    }
    let z = id + memdbz_ext();
    assert(strip_memdb_ext(z) == id) by {
        assert(z.subrange(z.len() - 7, z.len() as int) =~= memdbz_ext());
        assert(z.take(z.len() - 7) =~= id);
    }
}

/// The id of an SDK reads back as the SDK.
proof fn lemma_stem_roundtrip(v: SdkInfoView)
    requires
        valid_sdk_name(v.name),
        match v.build {
            Some(b) => valid_build(b),
            None => true,
        },
    ensures
        spec_from_stem(spec_sdk_id(v)) == Some(v),
{
    let ver = decimal_digits(v.version_major as nat) + seq!['.'] + decimal_digits(
        v.version_minor as nat,
    ) + seq!['.'] + decimal_digits(v.version_patchlevel as nat);
    lemma_version_roundtrip(v.version_major, v.version_minor, v.version_patchlevel);
    let id = spec_sdk_id(v);
    let head = v.name + seq!['_'] + ver;
    assert(head =~= v.name + seq!['_'] + decimal_digits(v.version_major as nat) + seq!['.']
        + decimal_digits(v.version_minor as nat) + seq!['.'] + decimal_digits(
        v.version_patchlevel as nat,
    ));
    crate::text::lemma_last_index_of_joined(v.name, '_', ver);
    assert(head.take(v.name.len() as int) =~= v.name);
    assert(head.subrange(v.name.len() + 1 as int, head.len() as int) =~= ver);
    assert(spec_make_info(v.name, ver, v.build) == Some(v));
    match v.build {
        Some(b) => {
            assert(id =~= head + seq!['_'] + b);
            assert(!b.contains('_')) by {
                if b.contains('_') {
                    let i = choose|i: int| 0 <= i < b.len() && b[i] == '_';
                    assert(crate::text::is_alnum(b[i]));
                }
            }
            assert(!b.contains('.')) by {
                if b.contains('.') {
                    let i = choose|i: int| 0 <= i < b.len() && b[i] == '.';
                    assert(crate::text::is_alnum(b[i]));
                }
            }
            crate::text::lemma_last_index_of_joined(head, '_', b);
            crate::text::lemma_index_of_absent(b, '.');
            assert(id.take(head.len() as int) =~= head);
            assert(id.subrange(head.len() + 1 as int, id.len() as int) =~= b);
            assert(spec_parse_version(b) is None);
        },
        None => {
            assert(id == head);
        },
    }
}

/// An id does not end with the extension of a memdb file.
proof fn lemma_strip_ext_of_id(v: SdkInfoView)
    requires
        valid_sdk_name(v.name),
        match v.build {
            Some(b) => valid_build(b),
            None => true,
        },
    ensures
        strip_memdb_ext(spec_sdk_id(v)) == spec_sdk_id(v),
{
    let id = spec_sdk_id(v);
    lemma_no_dot_near_end(v, 7);
    lemma_no_dot_near_end(v, 6);
    if ends_with(id, memdbz_ext()) {
        let e = id.subrange(id.len() - 7, id.len() as int);
        assert(e[0] == '.' && e[1] == 'm');
        assert(id[id.len() - 7] == e[0]);
        assert(id[id.len() - 7 + 1] == e[1]);
        assert forall|i: int| id.len() - 7 < i < id.len() implies crate::text::is_alnum(
            #[trigger] id[i],
        ) by {
            assert(id[i] == e[i - (id.len() - 7)]);
        }
    }
    if ends_with(id, memdb_ext()) {
        let e = id.subrange(id.len() - 6, id.len() as int);
        assert(e[0] == '.' && e[1] == 'm');
        assert(id[id.len() - 6] == e[0]);
        assert(id[id.len() - 6 + 1] == e[1]);
        assert forall|i: int| id.len() - 6 < i < id.len() implies crate::text::is_alnum(
            #[trigger] id[i],
        ) by {
            assert(id[i] == e[i - (id.len() - 6)]);
        }
    }
}

/// The spelling of an extension cannot end an id: its dot would stand
/// inside the build or the patchlevel, or in place of the underscore
/// before the build.
proof fn lemma_no_dot_near_end(v: SdkInfoView, k: int)
    requires
        valid_sdk_name(v.name),
        match v.build {
            Some(b) => valid_build(b),
            None => true,
        },
        k >= 2,
    ensures
        !(spec_sdk_id(v).len() >= k && spec_sdk_id(v)[spec_sdk_id(v).len() - k] == '.'
            && spec_sdk_id(v)[spec_sdk_id(v).len() - k + 1] == 'm' && forall|i: int|
            spec_sdk_id(v).len() - k < i < spec_sdk_id(v).len() ==> crate::text::is_alnum(
                #[trigger] spec_sdk_id(v)[i],
            )),
{
    if spec_sdk_id(v).len() >= k && spec_sdk_id(v)[spec_sdk_id(v).len() - k] == '.'
        && spec_sdk_id(v)[spec_sdk_id(v).len() - k + 1] == 'm' && forall|i: int|
        spec_sdk_id(v).len() - k < i < spec_sdk_id(v).len() ==> crate::text::is_alnum(
            #[trigger] spec_sdk_id(v)[i],
        ) {
        lemma_no_dot_near_end_inner(v, k);
    }
}

/// The step of `lemma_no_dot_near_end` that looks at the end of the id.
proof fn lemma_no_dot_near_end_inner(v: SdkInfoView, k: int)
    requires
        valid_sdk_name(v.name),
        match v.build {
            Some(b) => valid_build(b),
            None => true,
        },
        k >= 2,
        spec_sdk_id(v).len() >= k,
        spec_sdk_id(v)[spec_sdk_id(v).len() - k] == '.',
        spec_sdk_id(v)[spec_sdk_id(v).len() - k + 1] == 'm',
        forall|i: int|
            spec_sdk_id(v).len() - k < i < spec_sdk_id(v).len() ==> crate::text::is_alnum(
                #[trigger] spec_sdk_id(v)[i],
            ),
    ensures
        spec_sdk_id(v).len() < k,
{
    let id = spec_sdk_id(v);
    let dp = decimal_digits(v.version_patchlevel as nat);
    crate::text::lemma_decimal_roundtrip(v.version_patchlevel as nat);
    let head = v.name + seq!['_'] + decimal_digits(v.version_major as nat) + seq!['.']
        + decimal_digits(v.version_minor as nat) + seq!['.'] + dp;
    match v.build {
        Some(b) => {
            assert(id =~= head + seq!['_'] + b);
            // the five letters hold no underscore, so the dot is in the build or is the underscore
            if b.len() >= k {
                assert(id[id.len() - k] == b[b.len() - k]);
                assert(crate::text::is_alnum(b[b.len() - k]));
            } else if b.len() == k - 1 {
                assert(id[id.len() - k] == '_');
            } else {
                let i = id.len() - b.len() - 1;
                assert(id[i] == '_');
                assert(crate::text::is_alnum(id[i]));
            }
        },
        None => {
            assert(id == head);
            assert(id[id.len() - k + 1] == dp[dp.len() - k + 1] || dp.len() < k - 1);
            if dp.len() >= k - 1 {
                assert(crate::text::is_digit(dp[dp.len() - k + 1]));
            } else {
                let i = id.len() - dp.len() - 1;
                assert(id[i] == '.');
                assert(crate::text::is_alnum(id[i]));
            }
        },
    }
}

/// How well an SDK fits one that is asked for, as a number: lower is
/// better. SDKs of another name, major or minor version do not fit at
/// all. Of those that fit, one of the same build comes first, then one
/// of the same patchlevel, and then those of a higher patchlevel.
pub open spec fn spec_fuzzy_match(sdk: SdkInfoView, wanted: SdkInfoView) -> Option<u64> {
    if sdk.name != wanted.name || sdk.version_major != wanted.version_major || sdk.version_minor
        != wanted.version_minor {
        None
    } else {
        let build: int = if sdk.build == wanted.build {
            0
        } else {
            0x2_0000_0000
        };
        let patch: int = if sdk.version_patchlevel == wanted.version_patchlevel {
            0
        } else {
            0x1_0000_0000
        };
        Some((build + patch + (0xffff_ffff - sdk.version_patchlevel)) as u64)
    }
}

impl SdkInfo {
    /// How well this SDK fits the one that is asked for; `None` where
    /// it does not fit at all.
    pub fn get_fuzzy_match(&self, wanted: &SdkInfo) -> (r: Option<u64>)
        ensures
            r == spec_fuzzy_match(self@, wanted@),
    {
        if !str_eq(self.name.as_str(), wanted.name.as_str()) || self.version_major
            != wanted.version_major || self.version_minor != wanted.version_minor {
            return None;
        }
        let same_build = match (&self.build, &wanted.build) {
            (Some(a), Some(b)) => str_eq(a.as_str(), b.as_str()),
            (None, None) => true,
            _ => false,
        };
        let build: u64 = if same_build {
            0
        } else {
            0x2_0000_0000
        };
        let patch: u64 = if self.version_patchlevel == wanted.version_patchlevel {
            0
        } else {
            0x1_0000_0000
        };
        Some(build + patch + (0xffff_ffff - self.version_patchlevel as u64))
    }
}

/// The number that says how well an SDK fits, or a number above all of
/// those for an SDK that does not fit.
pub open spec fn fuzzy_rank(sdk: SdkInfoView, wanted: SdkInfoView) -> int {
    match spec_fuzzy_match(sdk, wanted) {
        Some(quality) => quality as int,
        None => 0x4_0000_0000,
    }
}

/// No build stands before any build, and builds stand in the order of
/// a dictionary.
pub open spec fn build_leq(a: Option<Seq<char>>, b: Option<Seq<char>>) -> bool {
    match (a, b) {
        (None, _) => true,
        (Some(_), None) => false,
        (Some(x), Some(y)) => text_leq(x, y),
    }
}

/// Whether `a` comes before `b`, or is `b`, in the list of the SDKs
/// that fit the one that is asked for: the SDK that fits better comes
/// first. SDKs that fit equally well stand in the order of their
/// builds, and then of their names and versions.
pub open spec fn fits_before(wanted: SdkInfoView, a: SdkInfoView, b: SdkInfoView) -> bool {
    if fuzzy_rank(a, wanted) != fuzzy_rank(b, wanted) {
        fuzzy_rank(a, wanted) < fuzzy_rank(b, wanted)
    } else if a.build != b.build {
        build_leq(a.build, b.build)
    } else if a.name != b.name {
        text_leq(a.name, b.name)
    } else if a.version_major != b.version_major {
        a.version_major < b.version_major
    } else if a.version_minor != b.version_minor {
        a.version_minor < b.version_minor
    } else {
        a.version_patchlevel <= b.version_patchlevel
    }
}

/// The order of the SDKs that fit the one that is asked for.
pub open spec fn fuzzy_order(wanted: SdkInfoView) -> spec_fn(SdkInfoView, SdkInfoView) -> bool {
    |a: SdkInfoView, b: SdkInfoView| fits_before(wanted, a, b)
}

/// Two builds that stand before each other are the same.
proof fn lemma_build_leq(a: Option<Seq<char>>, b: Option<Seq<char>>, c: Option<Seq<char>>)
    ensures
        build_leq(a, a),
        build_leq(a, b) || build_leq(b, a),
        build_leq(a, b) && build_leq(b, a) ==> a == b,
        build_leq(a, b) && build_leq(b, c) ==> build_leq(a, c),
{
    match (a, b, c) {
        (Some(x), Some(y), Some(z)) => {
            lemma_text_leq_reflexive(x);
            lemma_text_leq_total(x, y);
            if text_leq(x, y) && text_leq(y, x) {
                lemma_text_leq_antisymmetric(x, y);
            }
            if text_leq(x, y) && text_leq(y, z) {
                lemma_text_leq_transitive(x, y, z);
            }
        },
        (Some(x), Some(y), None) => {
            lemma_text_leq_reflexive(x);
            lemma_text_leq_total(x, y);
            if text_leq(x, y) && text_leq(y, x) {
                lemma_text_leq_antisymmetric(x, y);
            }
        },
        (Some(x), None, _) => {
            lemma_text_leq_reflexive(x);
        },
        _ => {},
    }
}

/// The order of the SDKs that fit is a total order: any two SDKs are
/// in order one way or the other, and both ways only if they are the
/// same SDK.
pub proof fn lemma_fuzzy_order_total(wanted: SdkInfoView)
    ensures
        total_ordering(fuzzy_order(wanted)),
{
    let leq = fuzzy_order(wanted);
    assert forall|x: SdkInfoView| #[trigger] leq(x, x) by {
        lemma_build_leq(x.build, x.build, x.build);
        lemma_text_leq_reflexive(x.name);
    }
    assert forall|x: SdkInfoView, y: SdkInfoView| #[trigger] leq(x, y) && #[trigger] leq(
        y,
        x,
    ) implies x == y by {
        lemma_build_leq(x.build, y.build, x.build);
        if text_leq(x.name, y.name) && text_leq(y.name, x.name) {
            lemma_text_leq_antisymmetric(x.name, y.name);
        }
    }
    assert forall|x: SdkInfoView, y: SdkInfoView| #[trigger] leq(x, y) || #[trigger] leq(y, x) by {
        lemma_build_leq(x.build, y.build, x.build);
        lemma_text_leq_total(x.name, y.name);
    }
    assert forall|x: SdkInfoView, y: SdkInfoView, z: SdkInfoView| #[trigger] leq(x, y)
        && #[trigger] leq(y, z) implies leq(x, z) by {
        lemma_fits_before_transitive(wanted, x, y, z);
    }
}

/// The order of the SDKs that fit is transitive.
proof fn lemma_fits_before_transitive(
    wanted: SdkInfoView,
    x: SdkInfoView,
    y: SdkInfoView,
    z: SdkInfoView,
)
    requires
        fits_before(wanted, x, y),
        fits_before(wanted, y, z),
    ensures
        fits_before(wanted, x, z),
{
    lemma_build_leq(x.build, y.build, z.build);
    lemma_build_leq(y.build, z.build, x.build);
    lemma_build_leq(z.build, x.build, y.build);
    if fuzzy_rank(x, wanted) == fuzzy_rank(y, wanted) && fuzzy_rank(y, wanted) == fuzzy_rank(
        z,
        wanted,
    ) {
        if x.build == y.build && y.build == z.build {
            if text_leq(x.name, y.name) && text_leq(y.name, z.name) {
                lemma_text_leq_transitive(x.name, y.name, z.name);
            }
            if text_leq(x.name, y.name) && text_leq(y.name, x.name) {
                lemma_text_leq_antisymmetric(x.name, y.name);
            }
            if text_leq(z.name, y.name) && text_leq(y.name, z.name) {
                lemma_text_leq_antisymmetric(y.name, z.name);
            }
            if x.name == z.name && x.name != y.name {
                lemma_text_leq_antisymmetric(x.name, y.name);
            }
        }
    }
}

impl SdkInfo {
    /// Whether this SDK comes before `other`, or is `other`, in the
    /// list of the SDKs that fit the one that is asked for.
    pub fn fits_before(&self, other: &SdkInfo, wanted: &SdkInfo) -> (r: bool)
        ensures
            r == fits_before(wanted@, self@, other@),
    {
        let ra: u64 = match self.get_fuzzy_match(wanted) {
            Some(q) => q,
            None => 0x4_0000_0000,
        };
        let rb: u64 = match other.get_fuzzy_match(wanted) {
            Some(q) => q,
            None => 0x4_0000_0000,
        };
        if ra != rb {
            return ra < rb;
        }
        let same_build = match (&self.build, &other.build) {
            (Some(a), Some(b)) => str_eq(a.as_str(), b.as_str()),
            (None, None) => true,
            _ => false,
        };
        if !same_build {
            return match (&self.build, &other.build) {
                (None, _) => true,
                (Some(_), None) => false,
                (Some(a), Some(b)) => {
                    let x = str_chars(a.as_str());
                    let y = str_chars(b.as_str());
                    chars_leq(x.as_slice(), y.as_slice())
                },
            };
        }
        if !str_eq(self.name.as_str(), other.name.as_str()) {
            let x = str_chars(self.name.as_str());
            let y = str_chars(other.name.as_str());
            return chars_leq(x.as_slice(), y.as_slice());
        }
        if self.version_major != other.version_major {
            return self.version_major < other.version_major;
        }
        if self.version_minor != other.version_minor {
            return self.version_minor < other.version_minor;
        }
        self.version_patchlevel <= other.version_patchlevel
    }
}

} // verus!
