//! Small helpers shared by the rest of the crate.
use vstd::prelude::*;
use vstd::std_specs::cmp::PartialOrdSpec;
use core::cmp::Ordering;
use vstd::string::StringExecFns;
use crate::errors::ErrorKind;
use crate::text::{
    chars_to_string, decimal_digits, hex_digits, parse_u32_text, parse_u64, push_decimal_u64,
    push_hex, spec_parse_u32_text, spec_parse_u64, str_chars, str_eq,
};

verus! {

/// `a` is strictly below `b` in the order that `B` declares.
pub open spec fn key_lt<B: PartialOrd>(a: B, b: B) -> bool {
    a.partial_cmp_spec(&b) == Some(Ordering::Less)
}

/// A quick binary search by key.
///
/// Returns the element at the highest position at which the search
/// crosses from keys that are not above `item` to keys that are: the
/// key of the returned element is not greater than `item`, and the key
/// of its successor, if there is one, is greater. On a slice sorted by
/// key this is the last element whose key is at most `item`.
pub fn binsearch_by_key<'a, T, B, F>(slice: &'a [T], item: B, f: F) -> (r: Option<&'a T>)
    where B: Ord, F: Fn(&T) -> B
    requires
        forall|i: int| 0 <= i < slice@.len() ==> call_requires(f, (&#[trigger] slice@[i],)),
    ensures
        B::obeys_partial_cmp_spec() ==> match r {
            Some(x) => exists|i: int, k: B| {
                &&& 0 <= i < slice@.len()
                &&& *x == slice@[i]
                &&& #[trigger] call_ensures(f, (&slice@[i],), k)
                &&& !key_lt(item, k)
                &&& (i + 1 < slice@.len() ==> exists|k2: B|
                    #[trigger] call_ensures(f, (&slice@[i + 1],), k2) && key_lt(item, k2))
            },
            None => slice@.len() == 0 || exists|k: B|
                #[trigger] call_ensures(f, (&slice@[0],), k) && key_lt(item, k),
        },
{
    let mut low: usize = 0;
    let mut high: usize = slice.len();

    while low < high
        invariant
            0 <= low <= high <= slice@.len(),
            forall|i: int| 0 <= i < slice@.len() ==> call_requires(f, (&#[trigger] slice@[i],)),
            B::obeys_partial_cmp_spec() ==> (low == 0 || exists|k: B|
                #[trigger] call_ensures(f, (&slice@[low - 1],), k) && !key_lt(item, k)),
            B::obeys_partial_cmp_spec() ==> (high == slice@.len() || exists|k: B|
                #[trigger] call_ensures(f, (&slice@[high + 0],), k) && key_lt(item, k)),
        decreases high - low,
    {
        let mid: usize = low + (high - low) / 2;
        let cur_item = &slice[mid];
        let key = f(cur_item);
        assert(call_ensures(f, (&slice@[mid + 0],), key));
        if item < key {
            assert(B::obeys_partial_cmp_spec() ==> key_lt(item, key));
            high = mid;
        } else {
            assert(B::obeys_partial_cmp_spec() ==> !key_lt(item, key));
            low = mid + 1;
            assert(slice@[low - 1] == slice@[mid + 0]);
        }
    }

    if low > 0 {
        Some(&slice[low - 1])
    } else {
        None
    }
}

/// The first systemd socket file descriptor.
pub const SD_LISTEN_FDS_START: i32 = 3;

/// Helper for serializing/deserializing addresses in string format
#[derive(Clone, Copy, Debug, PartialEq, Eq, Structural)]
pub struct Addr(pub u64);

/// Reverse sort helper
pub struct Rev<T>(pub T);

/// Helper for formatting durations, given in seconds.
#[derive(Clone, Copy)]
pub struct HumanDuration(pub i64);

/// What a text means as an address: `0x` and digits of base sixteen,
/// or digits of base ten.
pub open spec fn spec_parse_addr(s: Seq<char>) -> Option<u64> {
    if s.len() >= 2 && s[0] == '0' && s[1] == 'x' {
        spec_parse_u64(s.skip(2), 16)
    } else {
        spec_parse_u64(s, 10)
    }
}

impl Addr {
    /// The address as a number.
    pub fn into_u64(self) -> (r: u64)
        ensures
            r == self.0,
    {
        self.0
    }

    /// Reads an address from its text.
    pub fn parse(value: &str) -> (r: Option<Addr>)
        ensures
            r == match spec_parse_addr(value@) {
                Some(v) => Some(Addr(v)),
                None => None,
            },
    {
        let chars = str_chars(value);
        let n = chars.len();
        let parsed = if n >= 2 && chars[0] == '0' && chars[1] == 'x' {
            assert(chars@.subrange(2, n as int) =~= value@.skip(2));
            parse_u64(chars.as_slice(), 2, n, true)
        } else {
            assert(chars@.subrange(0, n as int) =~= value@);
            parse_u64(chars.as_slice(), 0, n, false)
        };
        match parsed {
            Some(v) => Some(Addr(v)),
            None => None,
        }
    }

    /// The text of the address: `0x` and its digits of base sixteen.
    pub open spec fn spec_text(self) -> Seq<char> {
        seq!['0', 'x'] + hex_digits(self.0 as nat)
    }

    /// The address as text.
    pub fn to_text(&self) -> (r: String)
        ensures
            r@ == self.spec_text(),
    {
        let mut s = String::new();
        s.push('0');
        s.push('x');
        push_hex(&mut s, self.0);
        assert(s@ =~= self.spec_text());
        s
    }
}

impl HumanDuration {
    /// The text of a duration: its full hours where it has any, else
    /// its full minutes where it has any, else its seconds; `0 seconds`
    /// for a duration that is not positive.
    pub open spec fn spec_text(self) -> Seq<char> {
        let secs = self.0 as int;
        if secs >= 7200 {
            decimal_digits((secs / 3600) as nat) + " hours"@
        } else if secs >= 3600 {
            "1 hour"@
        } else if secs >= 120 {
            decimal_digits((secs / 60) as nat) + " minutes"@
        } else if secs >= 60 {
            "1 minute"@
        } else if secs >= 2 {
            decimal_digits(secs as nat) + " seconds"@
        } else if secs == 1 {
            "1 second"@
        } else {
            "0 seconds"@
        }
    }

    /// The duration as text for a reader.
    pub fn to_text(&self) -> (r: String)
        ensures
            r@ == self.spec_text(),
    {
        let secs = self.0;
        if secs >= 7200 {
            let mut s = String::new();
            push_decimal_u64(&mut s, (secs / 3600) as u64);
            s.append(" hours");
            s
        } else if secs >= 3600 {
            String::from_str("1 hour")
        } else if secs >= 120 {
            let mut s = String::new();
            push_decimal_u64(&mut s, (secs / 60) as u64);
            s.append(" minutes");
            s
        } else if secs >= 60 {
            String::from_str("1 minute")
        } else if secs >= 2 {
            let mut s = String::new();
            push_decimal_u64(&mut s, secs as u64);
            s.append(" seconds");
            s
        } else if secs == 1 {
            String::from_str("1 second")
        } else {
            String::from_str("0 seconds")
        }
    }
}

/// The longest pattern, in characters, that is read as a glob. The
/// bound keeps the depth of nested alternates, and with it the work of
/// compiling a pattern, small.
pub const MAX_PATTERN_LEN: usize = 4096;

/// Whether the glob `pattern` matches `value`, as the crate `globset`
/// decides it; `None` where `pattern` is no glob, or is one that the
/// crate cannot compile.
pub uninterp spec fn glob_match_result(pattern: Seq<char>, value: Seq<char>) -> Option<bool>;

/// Parses `pattern` with `globset::Glob::new`, builds a set of this one
/// glob with `GlobSetBuilder::build`, which returns an error where the
/// pattern cannot be compiled, and asks the set with `GlobSet::is_match`
/// whether it matches `value`. Both errors give `None`. The contract
/// names the answer. Patterns longer than the bound are left out: the
/// crate reads nested alternates by recursion.
#[verifier::external_body]
fn glob_match(pattern: &str, value: &str) -> (r: Option<bool>)
    requires
        pattern@.len() <= MAX_PATTERN_LEN,
    ensures
        r == glob_match_result(pattern@, value@),
{
    let glob = globset::Glob::new(pattern).ok()?;
    let set = globset::GlobSetBuilder::new().add(glob).build().ok()?;
    Some(set.is_match(value))
}

/// Whether `pattern` matches `value`: `None` where `pattern` is longer
/// than `MAX_PATTERN_LEN` or is no glob.
pub open spec fn spec_glob(pattern: Seq<char>, value: Seq<char>) -> Option<bool> {
    if pattern.len() > MAX_PATTERN_LEN {
        None
    } else {
        glob_match_result(pattern, value)
    }
}

/// Whether `pattern` matches `value`. A pattern that is too long is
/// not handed to the matcher.
pub fn glob_result(pattern: &str, value: &str) -> (r: Option<bool>)
    ensures
        r == spec_glob(pattern@, value@),
{
    if str_chars(pattern).len() > MAX_PATTERN_LEN {
        None
    } else {
        glob_match(pattern, value)
    }
}

/// A list of glob patterns, each of which either includes or excludes
/// what it matches.
pub struct IgnorePatterns {
    patterns: Vec<(bool, String)>,
}

/// The views of the patterns of `v`.
pub open spec fn patterns_view(v: Seq<(bool, String)>) -> Seq<(bool, Seq<char>)> {
    Seq::new(v.len(), |i: int| (v[i].0, v[i].1@))
}

/// What a pattern of a configuration means: a glob, which excludes what
/// it matches where an exclamation mark stands before it.
pub open spec fn spec_make_pattern(value: Seq<char>) -> (bool, Seq<char>) {
    if value.len() > 0 && value[0] == '!' {
        (true, value.skip(1))
    } else {
        (false, value)
    }
}

/// Whether the patterns match `value`, given what each pattern alone
/// says of it: the last pattern that matches decides, and none where
/// no pattern matches.
pub open spec fn spec_is_match(patterns: Seq<(bool, Seq<char>)>, matches: Seq<bool>) -> bool
    decreases patterns.len(),
{
    if patterns.len() == 0 {
        false
    } else if matches[patterns.len() - 1] {
        !patterns.last().0
    } else {
        spec_is_match(patterns.drop_last(), matches)
    }
}

/// What each pattern alone says of `value`.
pub open spec fn spec_matches(patterns: Seq<(bool, Seq<char>)>, value: Seq<char>) -> Seq<bool> {
    Seq::new(patterns.len(), |i: int| spec_glob(patterns[i].1, value) == Some(true))
}

impl View for IgnorePatterns {
    type V = Seq<(bool, Seq<char>)>;

    closed spec fn view(&self) -> Seq<(bool, Seq<char>)> {
        patterns_view(self.patterns@)
    }
}

impl IgnorePatterns {
    /// No patterns.
    pub fn new() -> (r: IgnorePatterns)
        ensures
            r@.len() == 0,
    {
        IgnorePatterns { patterns: Vec::new() }
    }

    /// Whether a text is a glob that the patterns can hold: one of at
    /// most `MAX_PATTERN_LEN` characters that the matcher accepts.
    pub fn is_glob(pattern: &str) -> (r: bool)
        ensures
            r == (spec_glob(pattern@, ""@) is Some),
    {
        glob_result(pattern, "").is_some()
    }

    /// Reads a pattern of a configuration.
    pub fn make_pattern(value: &str) -> (r: (bool, String))
        ensures
            (r.0, r.1@) == spec_make_pattern(value@),
    {
        let chars = str_chars(value);
        let n = chars.len();
        if n > 0 && chars[0] == '!' {
            assert(chars@.subrange(1, n as int) =~= value@.skip(1));
            (true, chars_to_string(chars.as_slice(), 1, n))
        } else {
            (false, String::from_str(value))
        }
    }

    /// Adds a pattern at the end of the list.
    pub fn push(&mut self, value: &str)
        ensures
            final(self)@ == old(self)@.push(spec_make_pattern(value@)),
    {
        let pattern = IgnorePatterns::make_pattern(value);
        self.patterns.push(pattern);
        assert(self@ =~= old(self)@.push(spec_make_pattern(value@)));
    }

    /// Whether the patterns match `value`, given what each pattern
    /// alone says of it.
    pub fn is_match_with(&self, matches: &Vec<bool>) -> (r: bool)
        requires
            matches@.len() == self@.len(),
        ensures
            r == spec_is_match(self@, matches@),
    {
        let mut rv = false;
        let mut i: usize = 0;
        assert(self@.take(0) =~= Seq::<(bool, Seq<char>)>::empty());
        while i < self.patterns.len()
            invariant
                0 <= i <= self.patterns@.len(),
                matches@.len() == self@.len(),
                self@.len() == self.patterns@.len(),
                rv == spec_is_match(self@.take(i as int), matches@),
            decreases self.patterns@.len() - i,
        {
            assert(self@.take(i + 1).drop_last() =~= self@.take(i as int));
            assert(self@.take(i + 1).last() == self@[i as int]);
            if matches[i] {
                rv = !self.patterns[i].0;
            }
            i += 1;
        }
        assert(self@.take(i as int) =~= self@);
        rv
    }

    /// Whether the patterns match `value`: the last pattern that
    /// matches decides.
    pub fn is_match(&self, value: &str) -> (r: bool)
        ensures
            r == spec_is_match(self@, spec_matches(self@, value@)),
    {
        let ghost want = spec_matches(self@, value@);
        let mut matches: Vec<bool> = Vec::new();
        let mut i: usize = 0;
        while i < self.patterns.len()
            invariant
                0 <= i <= self.patterns@.len(),
                self@.len() == self.patterns@.len(),
                want == spec_matches(self@, value@),
                matches@ == want.take(i as int),
            decreases self.patterns@.len() - i,
        {
            let m = match glob_result(self.patterns[i].1.as_str(), value) {
                Some(m) => m,
                None => false,
            };
            matches.push(m);
            assert(self@[i as int].1 == self.patterns@[i as int].1@);
            assert(want.take(i + 1) =~= want.take(i as int).push(want[i as int]));
            i += 1;
        }
        assert(want.take(i as int) =~= want);
        self.is_match_with(&matches)
    }
}

/// The text that `humansize::format_size` gives for a number of bytes
/// with binary units.
pub uninterp spec fn human_size_text(bytes: usize) -> Seq<char>;

/// Calls `humansize::format_size` with the options `BINARY`, which
/// writes a size with a unit such as `KiB`. The contract names the text.
#[verifier::external_body]
fn human_size(bytes: usize) -> (r: String)
    ensures
        r@ == human_size_text(bytes),
{
    humansize::format_size(bytes, humansize::BINARY)
}

/// `s` without its spaces.
pub open spec fn without_spaces(s: Seq<char>) -> Seq<char> {
    s.filter(|c: char| c != ' ')
}

/// Removes the spaces of a text.
pub fn remove_spaces(s: &str) -> (r: String)
    ensures
        r@ == without_spaces(s@),
{
    let chars = str_chars(s);
    let mut out = String::new();
    let mut i: usize = 0;
    assert(chars@.take(0) =~= Seq::<char>::empty());
    while i < chars.len()
        invariant
            0 <= i <= chars@.len(),
            out@ == without_spaces(chars@.take(i as int)),
        decreases chars@.len() - i,
    {
        proof {
            assert(chars@.take(i + 1).drop_last() =~= chars@.take(i as int));
            reveal(Seq::filter);
        }
        if chars[i] != ' ' {
            out.push(chars[i]);
        }
        i += 1;
    }
    assert(chars@.take(i as int) =~= chars@);
    out
}

/// Formats a file size for human readable display.
pub fn file_size_format(bytes: usize) -> (r: String)
    ensures
        r@ == without_spaces(human_size_text(bytes)),
{
    let text = human_size(bytes);
    remove_spaces(text.as_str())
}

/// What the variable that systemd sets says of the sockets that were
/// passed: none where the variable is absent, empty or `0`; the first
/// socket where it is `1`; and an error for anything else.
pub fn systemd_fd_from_var(var: Option<&str>) -> (r: Result<Option<i32>, ErrorKind>)
    ensures
        match var {
            None => r == Ok::<Option<i32>, ErrorKind>(None),
            Some(v) => if v@ == "0"@ || v@ == ""@ {
                r == Ok::<Option<i32>, ErrorKind>(None)
            } else {
                match spec_parse_u32_text(v@) {
                    None => r == Err::<Option<i32>, ErrorKind>(
                        ErrorKind::BadEnvVar("LISTEN_FDS", "Not an integer"),
                    ),
                    Some(fds) => if fds == 1 {
                        r == Ok::<Option<i32>, ErrorKind>(Some(SD_LISTEN_FDS_START))
                    } else {
                        r == Err::<Option<i32>, ErrorKind>(
                            ErrorKind::BadEnvVar(
                                "LISTEN_FDS",
                                "Exactly one socket needs to be passed",
                            ),
                        )
                    },
                }
            },
        },
{
    let var = match var {
        Some(var) => var,
        None => {
            return Ok(None);
        },
    };
    if str_eq(var, "0") || str_eq(var, "") {
        return Ok(None);
    }
    let fds = match parse_u32_text(var) {
        Some(fds) => fds,
        None => {
            return Err(ErrorKind::BadEnvVar("LISTEN_FDS", "Not an integer"));
        },
    };
    if fds != 1 {
        return Err(ErrorKind::BadEnvVar("LISTEN_FDS", "Exactly one socket needs to be passed"));
    }
    Ok(Some(SD_LISTEN_FDS_START))
}

} // verus!
