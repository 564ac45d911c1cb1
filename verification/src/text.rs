//! Characters, decimal numbers and byte strings.
use vstd::prelude::*;
use vstd::utf8::*;

verus! {

/// `String::push` appends one character at the end.
pub assume_specification[ String::push ](s: &mut String, c: char)
    ensures
        final(s)@ == old(s)@.push(c),
;

/// Calls `String::from_utf8`, which accepts exactly the byte strings
/// that are valid UTF-8 and returns the text that they encode.
#[verifier::external_body]
pub(crate) fn string_from_utf8(bytes: &[u8]) -> (r: Option<String>)
    ensures
        r is Some <==> valid_utf8(bytes@),
        r matches Some(s) ==> s@ == decode_utf8(bytes@),
{
    String::from_utf8(bytes.to_vec()).ok()
}

/// The characters of `s` as a vector.
pub fn str_chars(s: &str) -> (v: Vec<char>)
    ensures
        v@ == s@,
{
    let mut v: Vec<char> = Vec::new();
    let chars = s.chars();
    for c in it: chars
        invariant
            it.seq() == s@,
            v@ == s@.take(it.index()),
    {
        v.push(c);
    }
    v
}

/// The characters `chars[from..to]` as a string.
pub(crate) fn chars_to_string(chars: &[char], from: usize, to: usize) -> (s: String)
    requires
        from <= to <= chars@.len(),
    ensures
        s@ == chars@.subrange(from as int, to as int),
{
    let mut s = String::new();
    let mut i: usize = from;
    while i < to
        invariant
            from <= i <= to <= chars@.len(),
            s@ == chars@.subrange(from as int, i as int),
        decreases to - i,
    {
        s.push(chars[i]);
        i += 1;
    }
    s
}

/// Whether two byte strings are the same.
pub fn bytes_eq(a: &[u8], b: &[u8]) -> (r: bool)
    ensures
        r == (a@ == b@),
{
    if a.len() != b.len() {
        return false;
    }
    let mut i: usize = 0;
    while i < a.len()
        invariant
            0 <= i <= a@.len(),
            a@.len() == b@.len(),
            a@.take(i as int) == b@.take(i as int),
        decreases a@.len() - i,
    {
        if a[i] != b[i] {
            return false;
        }
        assert(a@.take(i + 1) =~= a@.take(i as int).push(a@[i as int]));
        assert(b@.take(i + 1) =~= b@.take(i as int).push(b@[i as int]));
        i += 1;
    }
    assert(a@.take(i as int) =~= a@);
    assert(b@.take(i as int) =~= b@);
    true
}

/// Two texts with the same bytes are the same text.
pub proof fn lemma_encode_utf8_injective(a: Seq<char>, b: Seq<char>)
    requires
        encode_utf8(a) == encode_utf8(b),
    ensures
        a == b,
{
    encode_utf8_decode_utf8(a);
    encode_utf8_decode_utf8(b);
}

/// Whether two strings are the same.
pub fn str_eq(a: &str, b: &str) -> (r: bool)
    ensures
        r == (a@ == b@),
{
    let r = bytes_eq(a.as_bytes(), b.as_bytes());
    proof {
        if r {
            lemma_encode_utf8_injective(a@, b@);
        }
    }
    r
}

/// The position of the first `c` in `s`, or -1 where there is none.
pub open spec fn first_index_of(s: Seq<char>, c: char) -> int
    decreases s.len(),
{
    if s.len() == 0 {
        -1
    } else {
        let r = first_index_of(s.drop_last(), c);
        if r >= 0 {
            r
        } else if s.last() == c {
            s.len() - 1
        } else {
            -1
        }
    }
}

/// The position of the last `c` in `s`, or -1 where there is none.
pub open spec fn last_index_of(s: Seq<char>, c: char) -> int
    decreases s.len(),
{
    if s.len() == 0 {
        -1
    } else if s.last() == c {
        s.len() - 1
    } else {
        last_index_of(s.drop_last(), c)
    }
}

/// `first_index_of` is the least position that holds `c`.
pub proof fn lemma_first_index_of(s: Seq<char>, c: char)
    ensures
        -1 <= first_index_of(s, c) < s.len(),
        first_index_of(s, c) >= 0 ==> s[first_index_of(s, c)] == c,
        forall|j: int| 0 <= j < s.len() && #[trigger] s[j] == c ==> 0 <= first_index_of(s, c) <= j,
    decreases s.len(),
{
    if s.len() > 0 {
        lemma_first_index_of(s.drop_last(), c);
        assert forall|j: int| 0 <= j < s.len() && #[trigger] s[j] == c implies 0
            <= first_index_of(s, c) <= j by {
            if j < s.len() - 1 {
                assert(s.drop_last()[j] == c);
            }
        }
    }
}

/// `last_index_of` is the greatest position that holds `c`.
pub proof fn lemma_last_index_of(s: Seq<char>, c: char)
    ensures
        -1 <= last_index_of(s, c) < s.len(),
        last_index_of(s, c) >= 0 ==> s[last_index_of(s, c)] == c,
        forall|j: int| 0 <= j < s.len() && #[trigger] s[j] == c ==> j <= last_index_of(s, c),
    decreases s.len(),
{
    if s.len() > 0 && s.last() != c {
        lemma_last_index_of(s.drop_last(), c);
        assert forall|j: int| 0 <= j < s.len() && #[trigger] s[j] == c implies j <= last_index_of(
            s,
            c,
        ) by {
            assert(s.drop_last()[j] == c);
        }
    }
}

/// Finds the first `c` in `chars[from..to]`.
pub(crate) fn find_char(chars: &[char], from: usize, to: usize, c: char) -> (r: Option<usize>)
    requires
        from <= to <= chars@.len(),
    ensures
        match r {
            Some(i) => from <= i < to && first_index_of(
                chars@.subrange(from as int, to as int),
                c,
            ) == i - from,
            None => first_index_of(chars@.subrange(from as int, to as int), c) == -1,
        },
{
    let ghost s = chars@.subrange(from as int, to as int);
    proof {
        lemma_first_index_of(s, c);
    }
    let mut i: usize = from;
    while i < to
        invariant
            from <= i <= to <= chars@.len(),
            s == chars@.subrange(from as int, to as int),
            forall|j: int| 0 <= j < i - from ==> s[j] != c,
        decreases to - i,
    {
        if chars[i] == c {
            proof {
                lemma_first_index_of(s, c);
                assert(s[i - from] == c);
            }
            return Some(i);
        }
        i += 1;
    }
    None
}

/// Finds the last `c` in `chars[from..to]`.
pub(crate) fn rfind_char(chars: &[char], from: usize, to: usize, c: char) -> (r: Option<usize>)
    requires
        from <= to <= chars@.len(),
    ensures
        match r {
            Some(i) => from <= i < to && last_index_of(
                chars@.subrange(from as int, to as int),
                c,
            ) == i - from,
            None => last_index_of(chars@.subrange(from as int, to as int), c) == -1,
        },
{
    let ghost s = chars@.subrange(from as int, to as int);
    proof {
        lemma_last_index_of(s, c);
    }
    let mut i: usize = to;
    while i > from
        invariant
            from <= i <= to <= chars@.len(),
            s == chars@.subrange(from as int, to as int),
            forall|j: int| i - from <= j < s.len() ==> s[j] != c,
        decreases i,
    {
        i -= 1;
        if chars[i] == c {
            proof {
                lemma_last_index_of(s, c);
                assert(s[i - from] == c);
            }
            return Some(i);
        }
    }
    None
}

/// `s` ends with `suffix`.
pub open spec fn ends_with(s: Seq<char>, suffix: Seq<char>) -> bool {
    s.len() >= suffix.len() && s.subrange(s.len() - suffix.len(), s.len() as int) == suffix
}

/// Whether `chars[from..to]` are exactly the characters of `other`.
pub(crate) fn chars_equal(chars: &[char], from: usize, to: usize, other: &[char]) -> (r: bool)
    requires
        from <= to <= chars@.len(),
    ensures
        r == (chars@.subrange(from as int, to as int) == other@),
{
    let ghost s = chars@.subrange(from as int, to as int);
    if to - from != other.len() {
        return false;
    }
    let mut i: usize = 0;
    while i < other.len()
        invariant
            from <= to <= chars@.len(),
            s == chars@.subrange(from as int, to as int),
            s.len() == other@.len(),
            0 <= i <= other@.len(),
            forall|j: int| 0 <= j < i ==> s[j] == other@[j],
        decreases other@.len() - i,
    {
        if chars[from + i] != other[i] {
            assert(s[i as int] != other@[i as int]);
            return false;
        }
        i += 1;
    }
    assert(s =~= other@);
    true
}

/// Whether every character of `chars[from..to]` is a digit or a basic
/// Latin letter.
pub(crate) fn chars_all_alnum(chars: &[char], from: usize, to: usize) -> (r: bool)
    requires
        from <= to <= chars@.len(),
    ensures
        r == all_alnum(chars@.subrange(from as int, to as int)),
{
    let ghost s = chars@.subrange(from as int, to as int);
    let mut i: usize = from;
    while i < to
        invariant
            from <= i <= to <= chars@.len(),
            s == chars@.subrange(from as int, to as int),
            forall|j: int| 0 <= j < i - from ==> is_alnum(#[trigger] s[j]),
        decreases to - i,
    {
        let c = chars[i];
        if !(('0' <= c && c <= '9') || ('a' <= c && c <= 'z') || ('A' <= c && c <= 'Z')) {
            assert(!is_alnum(s[i - from]));
            return false;
        }
        i += 1;
    }
    true
}

/// `c` is one of the ten decimal digits.
pub open spec fn is_digit(c: char) -> bool {
    '0' <= c <= '9'
}

/// `c` is a digit or a letter of the basic Latin alphabet.
pub open spec fn is_alnum(c: char) -> bool {
    is_digit(c) || ('a' <= c <= 'z') || ('A' <= c <= 'Z')
}

/// Every character of `s` is a decimal digit.
pub open spec fn all_digits(s: Seq<char>) -> bool {
    forall|i: int| 0 <= i < s.len() ==> is_digit(#[trigger] s[i])
}

/// Every character of `s` is a digit or a basic Latin letter.
pub open spec fn all_alnum(s: Seq<char>) -> bool {
    forall|i: int| 0 <= i < s.len() ==> is_alnum(#[trigger] s[i])
}

/// The number that the digit `c` stands for.
pub open spec fn digit_value(c: char) -> nat {
    (c as u32 - '0' as u32) as nat
}

/// The digit that stands for `d`, for `d` below ten.
pub open spec fn digit_char(d: nat) -> char {
    (d + '0' as u32) as char
}

/// The number that the digits of `s` spell in base ten (0 for no digits).
pub open spec fn decimal_value(s: Seq<char>) -> nat
    decreases s.len(),
{
    if s.len() == 0 {
        0
    } else {
        10 * decimal_value(s.drop_last()) + digit_value(s.last())
    }
}

/// `n` in base ten, without leading zeros.
pub open spec fn decimal_digits(n: nat) -> Seq<char>
    decreases n,
{
    if n < 10 {
        seq![digit_char(n)]
    } else {
        decimal_digits(n / 10).push(digit_char(n % 10))
    }
}

/// What a run of characters means as an unsigned 32-bit number: it
/// must be a non-empty run of digits whose value fits.
pub open spec fn spec_parse_u32(s: Seq<char>) -> Option<u32> {
    if s.len() > 0 && all_digits(s) && decimal_value(s) <= u32::MAX {
        Some(decimal_value(s) as u32)
    } else {
        None
    }
}

/// Writing a number in base ten and reading it back gives the number.
pub proof fn lemma_decimal_roundtrip(n: nat)
    ensures
        decimal_digits(n).len() > 0,
        all_digits(decimal_digits(n)),
        decimal_value(decimal_digits(n)) == n,
    decreases n,
{
    if n < 10 {
        let s = decimal_digits(n);
        assert(s.drop_last().len() == 0);
        assert(decimal_value(s.drop_last()) == 0);
    } else {
        lemma_decimal_roundtrip(n / 10);
        let p = decimal_digits(n / 10);
        let s = decimal_digits(n);
        assert(s.drop_last() =~= p);
        assert(s.last() == digit_char(n % 10));
        assert forall|i: int| 0 <= i < s.len() implies is_digit(#[trigger] s[i]) by {
            if i < p.len() {
                assert(s[i] == p[i]);
            }
        }
    }
}

/// A longer run of digits never spells a smaller number than its prefix.
pub proof fn lemma_decimal_value_prefix(s: Seq<char>, k: int)
    requires
        0 <= k <= s.len(),
    ensures
        decimal_value(s.take(k)) <= decimal_value(s),
    decreases s.len() - k,
{
    if k == s.len() {
        assert(s.take(k) =~= s);
    } else {
        lemma_decimal_value_prefix(s.drop_last(), k);
        assert(s.drop_last().take(k) =~= s.take(k));
    }
}

/// Reads the characters `chars[from..to]` as an unsigned 32-bit number.
pub(crate) fn parse_u32(chars: &[char], from: usize, to: usize) -> (r: Option<u32>)
    requires
        from <= to <= chars@.len(),
    ensures
        r == spec_parse_u32(chars@.subrange(from as int, to as int)),
{
    let ghost s = chars@.subrange(from as int, to as int);
    if from == to {
        return None;
    }
    let mut acc: u32 = 0;
    let mut i: usize = from;
    while i < to
        invariant
            from <= i <= to <= chars@.len(),
            s == chars@.subrange(from as int, to as int),
            all_digits(s.take(i - from)),
            acc == decimal_value(s.take(i - from)),
        decreases to - i,
    {
        let c = chars[i];
        let ghost next = s.take(i - from + 1);
        assert(next.drop_last() =~= s.take(i - from));
        assert(next.last() == c);
        if !('0' <= c && c <= '9') {
            assert(!is_digit(s[i - from]));
            return None;
        }
        let d: u32 = c as u32 - '0' as u32;
        if acc > (u32::MAX - d) / 10 {
            proof {
                lemma_decimal_value_prefix(s, i - from + 1);
            }
            return None;
        }
        acc = acc * 10 + d;
        i += 1;
        assert forall|j: int| 0 <= j < next.len() implies is_digit(#[trigger] next[j]) by {
            if j < next.len() - 1 {
                assert(next[j] == s.take(i - from - 1)[j]);
            }
        }
    }
    assert(s.take(i - from) =~= s);
    Some(acc)
}

/// Appends `n` in base ten to `out`.
pub fn push_decimal(out: &mut String, n: u32)
    ensures
        final(out)@ == old(out)@ + decimal_digits(n as nat),
    decreases n,
{
    if n >= 10 {
        push_decimal(out, n / 10);
    }
    let d: u8 = (n % 10) as u8;
    let c: char = (48u8 + d) as char;
    out.push(c);
    assert(c == digit_char((n % 10) as nat));
    assert(final(out)@ =~= old(out)@ + decimal_digits(n as nat));
}

/// In `a`, `c`, `rest`, joined in that order, the first `c` follows `a`
/// where `a` holds none.
pub proof fn lemma_first_index_of_joined(a: Seq<char>, c: char, rest: Seq<char>)
    requires
        !a.contains(c),
    ensures
        first_index_of(a + seq![c] + rest, c) == a.len(),
{
    let s = a + seq![c] + rest;
    lemma_first_index_of(s, c);
    assert(s[a.len() as int] == c);
    let r = first_index_of(s, c);
    if r < a.len() {
        assert(s[r] == a[r]);
        assert(a.contains(c));
    }
}

/// In `head`, `c`, `b`, joined in that order, the last `c` precedes `b`
/// where `b` holds none.
pub proof fn lemma_last_index_of_joined(head: Seq<char>, c: char, b: Seq<char>)
    requires
        !b.contains(c),
    ensures
        last_index_of(head + seq![c] + b, c) == head.len(),
{
    let s = head + seq![c] + b;
    lemma_last_index_of(s, c);
    assert(s[head.len() as int] == c);
    let r = last_index_of(s, c);
    if r > head.len() {
        assert(s[r] == b[r - head.len() - 1]);
        assert(b.contains(c));
    }
}

/// A text without `c` has no position of `c`.
pub proof fn lemma_index_of_absent(s: Seq<char>, c: char)
    requires
        !s.contains(c),
    ensures
        first_index_of(s, c) == -1,
        last_index_of(s, c) == -1,
{
    lemma_first_index_of(s, c);
    lemma_last_index_of(s, c);
    if first_index_of(s, c) >= 0 {
        assert(s.contains(c));
    }
    if last_index_of(s, c) >= 0 {
        assert(s.contains(c));
    }
}

/// What a text means as an unsigned 32-bit number where a plus sign may
/// stand before the digits.
pub open spec fn spec_parse_u32_text(s: Seq<char>) -> Option<u32> {
    if s.len() > 0 && s[0] == '+' {
        spec_parse_u32(s.skip(1))
    } else {
        spec_parse_u32(s)
    }
}

/// Reads a text as an unsigned 32-bit number; a plus sign may stand
/// before the digits.
pub fn parse_u32_text(s: &str) -> (r: Option<u32>)
    ensures
        r == spec_parse_u32_text(s@),
{
    let chars = str_chars(s);
    let n = chars.len();
    if n > 0 && chars[0] == '+' {
        assert(chars@.subrange(1, n as int) =~= s@.skip(1));
        parse_u32(chars.as_slice(), 1, n)
    } else {
        assert(chars@.subrange(0, n as int) =~= s@);
        parse_u32(chars.as_slice(), 0, n)
    }
}

/// `c` is a digit of base sixteen.
pub open spec fn is_hex_digit(c: char) -> bool {
    is_digit(c) || ('a' <= c <= 'f') || ('A' <= c <= 'F')
}

/// The number that the digit `c` of base sixteen stands for.
pub open spec fn hex_digit_value(c: char) -> nat {
    if is_digit(c) {
        digit_value(c)
    } else if 'a' <= c <= 'f' {
        (c as u32 - 'a' as u32 + 10) as nat
    } else {
        (c as u32 - 'A' as u32 + 10) as nat
    }
}

/// The number that the digits of `s` spell in the given base, ten or
/// sixteen (0 for no digits).
pub open spec fn radix_value(s: Seq<char>, radix: nat) -> nat
    decreases s.len(),
{
    if s.len() == 0 {
        0
    } else {
        radix * radix_value(s.drop_last(), radix) + hex_digit_value(s.last())
    }
}

/// Every character of `s` is a digit of the given base, ten or sixteen.
pub open spec fn all_radix_digits(s: Seq<char>, radix: nat) -> bool {
    forall|i: int|
        0 <= i < s.len() ==> if radix == 16 {
            is_hex_digit(#[trigger] s[i])
        } else {
            is_digit(s[i])
        }
}

/// What a run of characters means as an unsigned 64-bit number in the
/// given base: it must be a non-empty run of digits whose value fits.
pub open spec fn spec_parse_u64(s: Seq<char>, radix: nat) -> Option<u64> {
    if s.len() > 0 && all_radix_digits(s, radix) && radix_value(s, radix) <= u64::MAX {
        Some(radix_value(s, radix) as u64)
    } else {
        None
    }
}

/// A longer run of digits never spells a smaller number than its prefix.
pub proof fn lemma_radix_value_prefix(s: Seq<char>, radix: nat, k: int)
    requires
        0 <= k <= s.len(),
        radix >= 1,
    ensures
        radix_value(s.take(k), radix) <= radix_value(s, radix),
    decreases s.len() - k,
{
    if k == s.len() {
        assert(s.take(k) =~= s);
    } else {
        lemma_radix_value_prefix(s.drop_last(), radix, k);
        assert(s.drop_last().take(k) =~= s.take(k));
        assert(radix_value(s.drop_last(), radix) <= radix * radix_value(s.drop_last(), radix))
            by (nonlinear_arith)
            requires
                radix >= 1,
        ;
    }
}

/// Reads the characters `chars[from..to]` as an unsigned 64-bit number
/// in base ten or, where `hex` is set, sixteen.
pub(crate) fn parse_u64(chars: &[char], from: usize, to: usize, hex: bool) -> (r: Option<u64>)
    requires
        from <= to <= chars@.len(),
    ensures
        r == spec_parse_u64(
            chars@.subrange(from as int, to as int),
            if hex {
                16
            } else {
                10
            },
        ),
{
    let ghost s = chars@.subrange(from as int, to as int);
    let ghost radix: nat = if hex {
        16
    } else {
        10
    };
    let base: u64 = if hex {
        16
    } else {
        10
    };
    if from == to {
        return None;
    }
    let mut acc: u64 = 0;
    let mut i: usize = from;
    while i < to
        invariant
            from <= i <= to <= chars@.len(),
            s == chars@.subrange(from as int, to as int),
            radix == base,
            base == 10 || base == 16,
            hex == (base == 16),
            all_radix_digits(s.take(i - from), radix),
            acc == radix_value(s.take(i - from), radix),
        decreases to - i,
    {
        let c = chars[i];
        let ghost next = s.take(i - from + 1);
        assert(next.drop_last() =~= s.take(i - from));
        assert(next.last() == c);
        let d: u64 = if '0' <= c && c <= '9' {
            (c as u32 - '0' as u32) as u64
        } else if hex && 'a' <= c && c <= 'f' {
            (c as u32 - 'a' as u32 + 10) as u64
        } else if hex && 'A' <= c && c <= 'F' {
            (c as u32 - 'A' as u32 + 10) as u64
        } else {
            assert(s[i - from] == c);
            return None;
        };
        assert(d == hex_digit_value(c));
        if acc > (u64::MAX - d) / base {
            proof {
                lemma_radix_value_prefix(s, radix, i - from + 1);
                assert(acc * base + d > u64::MAX) by (nonlinear_arith)
                    requires
                        acc > (u64::MAX - d) / (base as int),
                        base == 10 || base == 16,
                        0 <= d < 16,
                ;
                assert(radix * radix_value(next.drop_last(), radix) == acc * base)
                    by (nonlinear_arith)
                    requires
                        radix == base,
                        radix_value(next.drop_last(), radix) == acc,
                ;
            }
            return None;
        }
        assert(acc * base + d <= u64::MAX) by (nonlinear_arith)
            requires
                acc <= (u64::MAX - d) / (base as int),
                base == 10 || base == 16,
                0 <= d < 16,
        ;
        assert(radix * radix_value(next.drop_last(), radix) == acc * base) by (nonlinear_arith)
            requires
                radix == base,
                radix_value(next.drop_last(), radix) == acc,
        ;
        acc = acc * base + d;
        i += 1;
        assert forall|j: int| 0 <= j < next.len() implies if radix == 16 {
            is_hex_digit(#[trigger] next[j])
        } else {
            is_digit(next[j])
        } by {
            if j < next.len() - 1 {
                assert(next[j] == s.take(i - from - 1)[j]);
            }
        }
    }
    assert(s.take(i - from) =~= s);
    Some(acc)
}

/// `n` in base sixteen, in lower case and without leading zeros.
pub open spec fn hex_digits(n: nat) -> Seq<char>
    decreases n,
{
    if n < 16 {
        seq![hex_digit_char(n)]
    } else {
        hex_digits(n / 16).push(hex_digit_char(n % 16))
    }
}

/// The digit of base sixteen that stands for `d`, in lower case.
pub open spec fn hex_digit_char(d: nat) -> char {
    if d < 10 {
        digit_char(d)
    } else {
        (d - 10 + 'a' as u32) as char
    }
}

/// Appends `n` in base sixteen to `out`.
pub fn push_hex(out: &mut String, n: u64)
    ensures
        final(out)@ == old(out)@ + hex_digits(n as nat),
    decreases n,
{
    if n >= 16 {
        push_hex(out, n / 16);
    }
    let d: u8 = (n % 16) as u8;
    let c: char = if d < 10 {
        (48u8 + d) as char
    } else {
        (87u8 + d) as char
    };
    out.push(c);
    assert(c == hex_digit_char((n % 16) as nat));
    assert(final(out)@ =~= old(out)@ + hex_digits(n as nat));
}

/// Appends `n` in base ten to `out`.
pub fn push_decimal_u64(out: &mut String, n: u64)
    ensures
        final(out)@ == old(out)@ + decimal_digits(n as nat),
    decreases n,
{
    if n >= 10 {
        push_decimal_u64(out, n / 10);
    }
    let d: u8 = (n % 10) as u8;
    let c: char = (48u8 + d) as char;
    out.push(c);
    assert(c == digit_char((n % 10) as nat));
    assert(final(out)@ =~= old(out)@ + decimal_digits(n as nat));
}

/// What a text means as a signed 64-bit number: digits of base ten,
/// before which a plus or a minus sign may stand.
pub open spec fn spec_parse_i64(s: Seq<char>) -> Option<i64> {
    if s.len() > 0 && s[0] == '-' {
        let digits = s.skip(1);
        if digits.len() > 0 && all_radix_digits(digits, 10) && radix_value(digits, 10)
            <= 0x8000_0000_0000_0000 {
            Some((-(radix_value(digits, 10) as int)) as i64)
        } else {
            None
        }
    } else {
        let digits = if s.len() > 0 && s[0] == '+' {
            s.skip(1)
        } else {
            s
        };
        if digits.len() > 0 && all_radix_digits(digits, 10) && radix_value(digits, 10)
            <= 0x7fff_ffff_ffff_ffff {
            Some(radix_value(digits, 10) as i64)
        } else {
            None
        }
    }
}

/// Reads a text as a signed 64-bit number.
pub fn parse_i64_text(s: &str) -> (r: Option<i64>)
    ensures
        r == spec_parse_i64(s@),
{
    let chars = str_chars(s);
    let n = chars.len();
    if n > 0 && chars[0] == '-' {
        assert(chars@.subrange(1, n as int) =~= s@.skip(1));
        match parse_u64(chars.as_slice(), 1, n, false) {
            Some(v) => if v <= 0x7fff_ffff_ffff_ffff {
                Some(-(v as i64))
            } else if v == 0x8000_0000_0000_0000 {
                Some(i64::MIN)
            } else {
                None
            },
            None => None,
        }
    } else {
        let from: usize = if n > 0 && chars[0] == '+' {
            1
        } else {
            0
        };
        proof {
            if from == 1 {
                assert(chars@.subrange(1, n as int) =~= s@.skip(1));
            } else {
                assert(chars@.subrange(0, n as int) =~= s@);
            }
        }
        match parse_u64(chars.as_slice(), from, n, false) {
            Some(v) => if v <= 0x7fff_ffff_ffff_ffff {
                Some(v as i64)
            } else {
                None
            },
            None => None,
        }
    }
}

/// The letter `c` in lower case, where it is a basic Latin letter.
pub open spec fn ascii_lower(c: char) -> char {
    if 'A' <= c <= 'Z' {
        (c as u32 + 32) as char
    } else {
        c
    }
}

/// Whether two texts are the same but for the case of their basic
/// Latin letters.
pub open spec fn eq_ignore_ascii_case(a: Seq<char>, b: Seq<char>) -> bool {
    a.len() == b.len() && forall|i: int|
        0 <= i < a.len() ==> ascii_lower(#[trigger] a[i]) == ascii_lower(b[i])
}

/// `a` stands before `b` in the order of a dictionary, or is `b`.
pub open spec fn text_leq(a: Seq<char>, b: Seq<char>) -> bool
    decreases a.len(),
{
    if a.len() == 0 {
        true
    } else if b.len() == 0 {
        false
    } else if a[0] != b[0] {
        a[0] < b[0]
    } else {
        text_leq(a.skip(1), b.skip(1))
    }
}

/// Every text stands in the order of a dictionary with itself.
pub proof fn lemma_text_leq_reflexive(a: Seq<char>)
    ensures
        text_leq(a, a),
    decreases a.len(),
{
    if a.len() > 0 {
        lemma_text_leq_reflexive(a.skip(1));
    }
}

/// Two texts that stand before each other are the same text.
pub proof fn lemma_text_leq_antisymmetric(a: Seq<char>, b: Seq<char>)
    requires
        text_leq(a, b),
        text_leq(b, a),
    ensures
        a == b,
    decreases a.len(),
{
    if a.len() > 0 {
        lemma_text_leq_antisymmetric(a.skip(1), b.skip(1));
        assert(a =~= seq![a[0]] + a.skip(1));
        assert(b =~= seq![b[0]] + b.skip(1));
    } else {
        assert(a =~= b);
    }
}

/// The order of a dictionary is transitive.
pub proof fn lemma_text_leq_transitive(a: Seq<char>, b: Seq<char>, c: Seq<char>)
    requires
        text_leq(a, b),
        text_leq(b, c),
    ensures
        text_leq(a, c),
    decreases a.len(),
{
    if a.len() > 0 && a[0] == b[0] && b[0] == c[0] {
        lemma_text_leq_transitive(a.skip(1), b.skip(1), c.skip(1));
    }
}

/// Of two texts one stands before the other.
pub proof fn lemma_text_leq_total(a: Seq<char>, b: Seq<char>)
    ensures
        text_leq(a, b) || text_leq(b, a),
    decreases a.len(),
{
    if a.len() > 0 && b.len() > 0 && a[0] == b[0] {
        lemma_text_leq_total(a.skip(1), b.skip(1));
    }
}

/// Whether `a` stands before `b` in the order of a dictionary, or is
/// `b`.
pub fn chars_leq(a: &[char], b: &[char]) -> (r: bool)
    ensures
        r == text_leq(a@, b@),
{
    let n = a.len();
    let m = b.len();
    let mut i: usize = 0;
    assert(a@.skip(0) =~= a@);
    assert(b@.skip(0) =~= b@);
    while i < n && i < m
        invariant
            0 <= i <= n,
            i <= m,
            n == a@.len(),
            m == b@.len(),
            text_leq(a@, b@) == text_leq(a@.skip(i as int), b@.skip(i as int)),
        decreases n - i,
    {
        if a[i] != b[i] {
            return a[i] < b[i];
        }
        assert(a@.skip(i as int).skip(1) =~= a@.skip(i + 1));
        assert(b@.skip(i as int).skip(1) =~= b@.skip(i + 1));
        i += 1;
    }
    i == n
}

} // verus!
