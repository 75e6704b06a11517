//! Text helpers shared by the header parser and writer: UTF-8 decoding,
//! Unicode whitespace trimming, decimal integers and the floating-point
//! literal grammar, all over character sequences.
use vstd::prelude::*;
use vstd::utf8::{
    decode_utf8, decode_utf8_split, encode_utf8, encode_utf8_decode_utf8, encode_utf8_valid_utf8,
    is_ascii_chars, is_ascii_chars_encode_utf8, is_char_boundary_iff_not_is_continuation_byte,
    is_char_boundary_start_end_of_seq, valid_utf8, valid_utf8_concat,
};

verus! {

// ── Conversions (std) ──

/// `str::from_utf8`: the bytes form a string exactly when they are valid
/// UTF-8, and the string's characters are their decoding.
#[verifier::external_body]
pub fn str_from_utf8(bytes: &[u8]) -> (r: Option<&str>)
    ensures
        r is Some <==> valid_utf8(bytes@),
        r matches Some(s) ==> s@ == decode_utf8(bytes@),
{
    core::str::from_utf8(bytes).ok()
}

/// The characters of a string, in order (`str::chars` collected).
#[verifier::external_body]
pub fn chars_of(s: &str) -> (r: Vec<char>)
    ensures
        r@ == s@,
{
    s.chars().collect()
}

/// A `String` holding the given characters (`String::from_iter`).
#[verifier::external_body]
pub fn string_from_chars(cs: &[char]) -> (r: String)
    ensures
        r@ == cs@,
{
    cs.iter().collect()
}

// ── Whitespace and trimming ──

/// Unicode `White_Space`, the set that `char::is_whitespace` and the `str`
/// trimming methods use.
pub open spec fn is_ws(c: char) -> bool {
    let u = c as u32;
    (0x09 <= u <= 0x0D) || u == 0x20 || u == 0x85 || u == 0xA0 || u == 0x1680 || (0x2000 <= u
        <= 0x200A) || u == 0x2028 || u == 0x2029 || u == 0x202F || u == 0x205F || u == 0x3000
}

pub fn is_ws_exec(c: char) -> (r: bool)
    ensures
        r == is_ws(c),
{
    let u = c as u32;
    (0x09 <= u && u <= 0x0D) || u == 0x20 || u == 0x85 || u == 0xA0 || u == 0x1680 || (0x2000 <= u
        && u <= 0x200A) || u == 0x2028 || u == 0x2029 || u == 0x202F || u == 0x205F || u == 0x3000
}

/// `s` without trailing whitespace (`str::trim_end`).
pub open spec fn trim_end(s: Seq<char>) -> Seq<char>
    decreases s.len(),
{
    if s.len() > 0 && is_ws(s.last()) {
        trim_end(s.drop_last())
    } else {
        s
    }
}

/// `s` without leading whitespace (`str::trim_start`).
pub open spec fn trim_start(s: Seq<char>) -> Seq<char>
    decreases s.len(),
{
    if s.len() > 0 && is_ws(s[0]) {
        trim_start(s.drop_first())
    } else {
        s
    }
}

/// `s` without leading or trailing whitespace (`str::trim`).
pub open spec fn trim(s: Seq<char>) -> Seq<char> {
    trim_start(trim_end(s))
}

/// The end of `s[..end]` once trailing whitespace is dropped.
pub fn trim_end_index(s: &[char], end: usize) -> (r: usize)
    requires
        end <= s@.len(),
    ensures
        r <= end,
        s@.subrange(0, r as int) == trim_end(s@.subrange(0, end as int)),
{
    let mut e = end;
    while e > 0 && is_ws_exec(s[e - 1])
        invariant
            e <= end,
            end <= s@.len(),
            trim_end(s@.subrange(0, e as int)) == trim_end(s@.subrange(0, end as int)),
        decreases e,
    {
        assert(s@.subrange(0, e as int).drop_last() =~= s@.subrange(0, e - 1));
        e -= 1;
    }
    e
}

/// The start of `s[start..end]` once leading whitespace is dropped.
fn trim_start_index(s: &[char], start: usize, end: usize) -> (r: usize)
    requires
        start <= end <= s@.len(),
    ensures
        start <= r <= end,
        s@.subrange(r as int, end as int) == trim_start(s@.subrange(start as int, end as int)),
{
    let mut b = start;
    while b < end && is_ws_exec(s[b])
        invariant
            start <= b <= end,
            end <= s@.len(),
            trim_start(s@.subrange(b as int, end as int)) == trim_start(s@.subrange(start as int, end as int)),
        decreases end - b,
    {
        assert(s@.subrange(b as int, end as int).drop_first() =~= s@.subrange(b + 1, end as int));
        b += 1;
    }
    b
}

/// The bounds of `s[start..end]` with surrounding whitespace dropped.
pub fn trim_bounds(s: &[char], start: usize, end: usize) -> (r: (usize, usize))
    requires
        start <= end <= s@.len(),
    ensures
        start <= r.0 <= r.1 <= end,
        s@.subrange(r.0 as int, r.1 as int) == trim(s@.subrange(start as int, end as int)),
{
    let e = trim_end_index(s, end);
    proof {
        lemma_trim_end_shift(s@, start as int, end as int);
    }
    if e < start {
        proof {
            assert(s@.subrange(start as int, start as int) =~= Seq::<char>::empty());
        }
        return (start, start);
    }
    let b = trim_start_index(s, start, e);
    (b, e)
}

/// Whether the two strings hold the same characters (`s == expected`).
pub fn text_equals(s: &str, expected: &str) -> (r: bool)
    ensures
        r == (s@ == expected@),
{
    let a = chars_of(s);
    let b = chars_of(expected);
    if a.len() != b.len() {
        return false;
    }
    let mut i: usize = 0;
    while i < a.len()
        invariant
            i <= a@.len(),
            a@.len() == b@.len(),
            a@ == s@,
            b@ == expected@,
            forall|j: int| 0 <= j < i ==> a@[j] == b@[j],
        decreases a@.len() - i,
    {
        if a[i] != b[i] {
            return false;
        }
        i += 1;
    }
    assert(a@ =~= b@);
    true
}

/// `t` occurs in `s` as a run of consecutive characters.
pub open spec fn has_substring(s: Seq<char>, t: Seq<char>) -> bool {
    exists|i: int| 0 <= i && i + t.len() <= s.len() && #[trigger] s.subrange(i, i + t.len()) == t
}

/// Whether `needle` occurs in `s` (`str::contains` with a `&str` pattern).
pub fn contains_text(s: &str, needle: &str) -> (r: bool)
    ensures
        r == has_substring(s@, needle@),
{
    let a = chars_of(s);
    let b = chars_of(needle);
    if b.len() == 0 {
        assert(a@.subrange(0, 0int + b@.len()) =~= b@);
        assert(s@.subrange(0, 0int + needle@.len()) == needle@);
        return true;
    }
    if b.len() > a.len() {
        return false;
    }
    let al = a.len();
    let last = a.len() - b.len();
    let mut i: usize = 0;
    while i <= last
        invariant
            al == a@.len(),
            b@.len() >= 1,
            last == a@.len() - b@.len(),
            a@ == s@,
            b@ == needle@,
            i <= last + 1,
            forall|k: int| 0 <= k < i ==> #[trigger] a@.subrange(k, k + b@.len()) != b@,
        decreases last + 1 - i,
    {
        let mut j: usize = 0;
        let mut same = true;
        while j < b.len()
            invariant
                j <= b@.len(),
                al == a@.len(),
                i <= last,
                last == a@.len() - b@.len(),
                same <==> forall|m: int| 0 <= m < j ==> a@[i + m] == b@[m],
            decreases b@.len() - j,
        {
            if a[i + j] != b[j] {
                same = false;
            }
            j += 1;
        }
        if same {
            assert(a@.subrange(i as int, i + b@.len()) =~= b@);
            return true;
        }
        proof {
            let m = choose|m: int| 0 <= m < b@.len() && a@[i + m] != b@[m];
            assert(a@.subrange(i as int, i + b@.len())[m] != b@[m]);
        }
        i += 1;
    }
    assert forall|k: int| 0 <= k && k + b@.len() <= a@.len() implies #[trigger] a@.subrange(k, k + b@.len()) != b@ by {
        assert(k < i);
    }
    false
}

/// Whether `s` with surrounding whitespace dropped is `expected`
/// (`s.trim() == expected`).
pub fn trimmed_equals(s: &str, expected: &str) -> (r: bool)
    ensures
        r == (trim(s@) == expected@),
{
    let cs = chars_of(s);
    let ex = chars_of(expected);
    let (b, e) = trim_bounds(&cs, 0, cs.len());
    assert(cs@.subrange(0, cs@.len() as int) =~= cs@);
    if e - b != ex.len() {
        return false;
    }
    let mut i: usize = 0;
    while i < ex.len()
        invariant
            b <= e <= cs@.len(),
            e - b == ex@.len(),
            i <= ex@.len(),
            cs@ == s@,
            ex@ == expected@,
            cs@.subrange(b as int, e as int) == trim(cs@),
            forall|j: int| 0 <= j < i ==> cs@[b + j] == ex@[j],
        decreases ex@.len() - i,
    {
        if cs[b + i] != ex[i] {
            assert(cs@.subrange(b as int, e as int)[i as int] != ex@[i as int]);
            return false;
        }
        i += 1;
    }
    assert(cs@.subrange(b as int, e as int) =~= ex@);
    true
}

/// Trimming the end of a suffix is the suffix of the trimmed whole, when the
/// trimmed whole is still longer than the prefix cut away.
proof fn lemma_trim_end_shift(s: Seq<char>, start: int, end: int)
    requires
        0 <= start <= end <= s.len(),
    ensures
        trim_end(s.subrange(0, end)).len() >= start ==> trim_end(s.subrange(start, end))
            == s.subrange(start, trim_end(s.subrange(0, end)).len() as int),
        trim_end(s.subrange(0, end)).len() < start ==> trim_end(s.subrange(start, end)).len() == 0,
        trim_end(s.subrange(0, end)) == s.subrange(0, trim_end(s.subrange(0, end)).len() as int),
    decreases end,
{
    lemma_trim_end_is_prefix(s.subrange(0, end));
    if end > start && is_ws(s[end - 1]) {
        assert(s.subrange(0, end).drop_last() =~= s.subrange(0, end - 1));
        assert(s.subrange(start, end).drop_last() =~= s.subrange(start, end - 1));
        lemma_trim_end_shift(s, start, end - 1);
    } else if end > start {
        assert(s.subrange(0, end).last() == s.subrange(start, end).last());
    } else {
        lemma_trim_end_is_prefix(s.subrange(0, end));
        assert(s.subrange(start, end) =~= Seq::<char>::empty());
        if trim_end(s.subrange(0, end)).len() >= start {
            assert(s.subrange(start, start) =~= Seq::<char>::empty());
        }
    }
    assert(trim_end(s.subrange(0, end)) =~= s.subrange(0, trim_end(s.subrange(0, end)).len() as int));
}

/// `trim_end` keeps a prefix.
pub proof fn lemma_trim_end_is_prefix(s: Seq<char>)
    ensures
        trim_end(s).len() <= s.len(),
        trim_end(s) == s.subrange(0, trim_end(s).len() as int),
    decreases s.len(),
{
    if s.len() > 0 && is_ws(s.last()) {
        lemma_trim_end_is_prefix(s.drop_last());
        assert(trim_end(s) =~= s.subrange(0, trim_end(s).len() as int));
    } else {
        assert(s =~= s.subrange(0, s.len() as int));
    }
}


// ── Decimal integers ──

/// ASCII decimal digit.
pub open spec fn is_digit(c: char) -> bool {
    '0' <= c <= '9'
}

/// Every character is an ASCII decimal digit.
pub open spec fn all_digits(s: Seq<char>) -> bool {
    forall|i: int| 0 <= i < s.len() ==> #[trigger] is_digit(s[i])
}

/// The value of a string of decimal digits.
pub open spec fn digits_value(s: Seq<char>) -> int
    decreases s.len(),
{
    if s.len() == 0 {
        0
    } else {
        digits_value(s.drop_last()) * 10 + (s.last() as int - 48)
    }
}

/// The digits of an integer after an optional sign (`None` for a missing or
/// `-` sign when `signed` is false).
pub open spec fn sign_split(s: Seq<char>, signed: bool) -> (bool, Seq<char>) {
    if s.len() > 0 && s[0] == '-' && signed {
        (true, s.drop_first())
    } else if s.len() > 0 && s[0] == '+' {
        (false, s.drop_first())
    } else {
        (false, s)
    }
}

/// The integer that `s` spells (the grammar of `i64::from_str`), if any,
/// before the range check.
pub open spec fn spec_int_text(s: Seq<char>, signed: bool) -> Option<int> {
    let (neg, body) = sign_split(s, signed);
    if body.len() == 0 || !all_digits(body) {
        None
    } else if neg {
        Some(-digits_value(body))
    } else {
        Some(digits_value(body))
    }
}

/// `i64::from_str`: the value spelled by `s`, when it fits in an `i64`.
pub open spec fn spec_parse_i64(s: Seq<char>) -> Option<i64> {
    match spec_int_text(s, true) {
        Some(v) => if i64::MIN <= v <= i64::MAX { Some(v as i64) } else { None },
        None => None,
    }
}

/// `usize::from_str`: the value spelled by `s`, when it fits in a `usize`.
pub open spec fn spec_parse_usize(s: Seq<char>) -> Option<usize> {
    match spec_int_text(s, false) {
        Some(v) => if 0 <= v <= usize::MAX { Some(v as usize) } else { None },
        None => None,
    }
}

/// `u64::from_str`: the value spelled by `s`, when it fits in a `u64`.
pub open spec fn spec_parse_u64(s: Seq<char>) -> Option<u64> {
    match spec_int_text(s, false) {
        Some(v) => if 0 <= v <= u64::MAX { Some(v as u64) } else { None },
        None => None,
    }
}

proof fn lemma_digits_value_nonneg(s: Seq<char>)
    requires
        all_digits(s),
    ensures
        digits_value(s) >= 0,
    decreases s.len(),
{
    if s.len() > 0 {
        assert(is_digit(s[s.len() - 1]));
        assert(all_digits(s.drop_last()));
        lemma_digits_value_nonneg(s.drop_last());
    }
}

/// A longer run of digits spells a number at least as large.
proof fn lemma_digits_value_prefix(s: Seq<char>, k: int)
    requires
        all_digits(s),
        0 <= k <= s.len(),
    ensures
        digits_value(s.subrange(0, k)) <= digits_value(s),
    decreases s.len(),
{
    if k < s.len() {
        assert(is_digit(s[s.len() - 1]));
        assert(all_digits(s.drop_last()));
        assert(s.drop_last().subrange(0, k) =~= s.subrange(0, k));
        lemma_digits_value_prefix(s.drop_last(), k);
        lemma_digits_value_nonneg(s.drop_last());
    } else {
        assert(s.subrange(0, k) =~= s);
    }
}

/// The magnitude of the digits in `s[start..end]`, if they are all digits,
/// there is at least one, and it fits in a `u64`; `Err(true)` when they are
/// all digits but too large.
fn digits_magnitude(s: &[char], start: usize, end: usize) -> (r: Result<u64, bool>)
    requires
        start <= end <= s@.len(),
    ensures
        match r {
            Ok(m) => end > start && all_digits(s@.subrange(start as int, end as int)) && m
                == digits_value(s@.subrange(start as int, end as int)),
            Err(big) => if big {
                end > start && all_digits(s@.subrange(start as int, end as int)) && digits_value(
                    s@.subrange(start as int, end as int),
                ) > u64::MAX
            } else {
                end == start || !all_digits(s@.subrange(start as int, end as int))
            },
        },
{
    if start == end {
        return Err(false);
    }
    let mut i = start;
    while i < end
        invariant
            start <= i <= end,
            end <= s@.len(),
            forall|j: int| start <= j < i ==> is_digit(#[trigger] s@[j]),
        decreases end - i,
    {
        if !('0' <= s[i] && s[i] <= '9') {
            assert(!is_digit(s@.subrange(start as int, end as int)[i - start]));
            return Err(false);
        }
        i += 1;
    }
    let ghost body = s@.subrange(start as int, end as int);
    assert(all_digits(body));
    let mut mag: u64 = 0;
    let mut k = start;
    while k < end
        invariant
            start <= k <= end,
            end <= s@.len(),
            body == s@.subrange(start as int, end as int),
            all_digits(body),
            mag == digits_value(body.subrange(0, k - start)),
        decreases end - k,
    {
        assert(body.subrange(0, k + 1 - start).drop_last() =~= body.subrange(0, k - start));
        assert(is_digit(body[k - start]));
        assert(body[k - start] == s@[k as int]);
        let d = (s[k] as u32 - 48) as u64;
        match mag.checked_mul(10) {
            Some(m10) => match m10.checked_add(d) {
                Some(next) => {
                    mag = next;
                },
                None => {
                    proof { lemma_digits_value_prefix(body, k + 1 - start); }
                    return Err(true);
                },
            },
            None => {
                proof {
                    lemma_digits_value_prefix(body, k + 1 - start);
                    lemma_digits_value_nonneg(body.subrange(0, k - start));
                }
                return Err(true);
            },
        }
        k += 1;
    }
    assert(body.subrange(0, end - start) =~= body);
    Ok(mag)
}

/// `i64::from_str` over the characters `s[start..end]`.
pub fn parse_i64_chars(s: &[char], start: usize, end: usize) -> (r: Option<i64>)
    requires
        start <= end <= s@.len(),
    ensures
        r == spec_parse_i64(s@.subrange(start as int, end as int)),
{
    let ghost t = s@.subrange(start as int, end as int);
    let mut b = start;
    let mut neg = false;
    if start < end && s[start] == '-' {
        neg = true;
        b = start + 1;
    } else if start < end && s[start] == '+' {
        b = start + 1;
    }
    assert(sign_split(t, true).1 =~= s@.subrange(b as int, end as int));
    match digits_magnitude(s, b, end) {
        Ok(m) => {
            if neg {
                if m <= 9223372036854775808 {
                    if m == 9223372036854775808 {
                        Some(i64::MIN)
                    } else {
                        Some(-(m as i64))
                    }
                } else {
                    None
                }
            } else if m <= 9223372036854775807 {
                Some(m as i64)
            } else {
                None
            }
        },
        Err(_) => None,
    }
}

/// `usize::from_str` over the characters `s[start..end]`.
pub fn parse_usize_chars(s: &[char], start: usize, end: usize) -> (r: Option<usize>)
    requires
        start <= end <= s@.len(),
    ensures
        r == spec_parse_usize(s@.subrange(start as int, end as int)),
{
    let ghost t = s@.subrange(start as int, end as int);
    let mut b = start;
    if start < end && s[start] == '+' {
        b = start + 1;
    }
    assert(sign_split(t, false).1 =~= s@.subrange(b as int, end as int));
    match digits_magnitude(s, b, end) {
        Ok(m) => {
            if m <= usize::MAX as u64 {
                Some(m as usize)
            } else {
                None
            }
        },
        Err(_) => None,
    }
}

/// `u64::from_str` over the characters `s[start..end]`.
pub fn parse_u64_chars(s: &[char], start: usize, end: usize) -> (r: Option<u64>)
    requires
        start <= end <= s@.len(),
    ensures
        r == spec_parse_u64(s@.subrange(start as int, end as int)),
{
    let ghost t = s@.subrange(start as int, end as int);
    let mut b = start;
    if start < end && s[start] == '+' {
        b = start + 1;
    }
    assert(sign_split(t, false).1 =~= s@.subrange(b as int, end as int));
    match digits_magnitude(s, b, end) {
        Ok(m) => Some(m),
        Err(_) => None,
    }
}

/// The decimal digits of `n`, most significant first.
pub open spec fn nat_digits(n: nat) -> Seq<u8>
    decreases n,
{
    if n < 10 {
        seq![(48 + n) as u8]
    } else {
        nat_digits(n / 10).push((48 + n % 10) as u8)
    }
}

/// The decimal text of an integer (`format!("{}", v)`), as ASCII bytes.
pub open spec fn int_decimal(v: int) -> Seq<u8> {
    if v < 0 {
        seq![45u8] + nat_digits((-v) as nat)
    } else {
        nat_digits(v as nat)
    }
}

fn push_digits(n: u64, out: &mut Vec<u8>)
    ensures
        final(out)@ == old(out)@ + nat_digits(n as nat),
    decreases n,
{
    if n >= 10 {
        push_digits(n / 10, out);
    }
    out.push((48 + n % 10) as u8);
    proof {
        if n >= 10 {
            assert(nat_digits(n as nat) == nat_digits((n / 10) as nat).push((48 + n % 10) as u8));
        }
    }
}

/// The decimal text of `v`, as ASCII bytes.
pub fn i64_decimal(v: i64) -> (r: Vec<u8>)
    ensures
        r@ == int_decimal(v as int),
{
    let mut out: Vec<u8> = Vec::new();
    if v < 0 {
        out.push(45u8);
        let mag: u64 = if v == i64::MIN { 9223372036854775808 } else { (-v) as u64 };
        push_digits(mag, &mut out);
    } else {
        push_digits(v as u64, &mut out);
    }
    out
}

/// The decimal text of `v`, as ASCII bytes.
pub fn u64_decimal(v: u64) -> (r: Vec<u8>)
    ensures
        r@ == int_decimal(v as int),
{
    let mut out: Vec<u8> = Vec::new();
    push_digits(v, &mut out);
    out
}

/// ASCII bytes read as characters.
pub open spec fn ascii_chars(b: Seq<u8>) -> Seq<char> {
    Seq::new(b.len(), |i: int| b[i] as char)
}

/// A `String` holding ASCII (or Latin-1) bytes as characters.
pub fn string_from_bytes(b: &[u8]) -> (r: String)
    ensures
        r@ == ascii_chars(b@),
{
    let mut cs: Vec<char> = Vec::new();
    let mut i: usize = 0;
    while i < b.len()
        invariant
            i <= b@.len(),
            cs@ == ascii_chars(b@.subrange(0, i as int)),
        decreases b@.len() - i,
    {
        cs.push(b[i] as char);
        i += 1;
        assert(cs@ =~= ascii_chars(b@.subrange(0, i as int)));
    }
    assert(b@.subrange(0, b@.len() as int) =~= b@);
    string_from_chars(cs.as_slice())
}

// ── Floating-point literal grammar ──

/// `c` is the lower-case ASCII letter `w` in either case.
pub open spec fn ci_eq(c: char, w: char) -> bool {
    c == w || (('a' <= w <= 'z') && (c as u32) == (w as u32) - 32)
}

/// `s` spells the lower-case ASCII word `w` in any mixture of cases.
pub open spec fn ci_word(s: Seq<char>, w: Seq<char>) -> bool {
    s.len() == w.len() && forall|i: int| 0 <= i < s.len() ==> #[trigger] ci_eq(s[i], w[i])
}

/// Index of the first character of `s` equal to `a` or `b`.
pub open spec fn first_of(s: Seq<char>, a: char, b: char) -> Option<int>
    decreases s.len(),
{
    if s.len() == 0 {
        None
    } else if s[0] == a || s[0] == b {
        Some(0)
    } else {
        match first_of(s.drop_first(), a, b) {
            Some(i) => Some(i + 1),
            None => None,
        }
    }
}

/// A mantissa: digits with at most one `.`, and at least one digit.
pub open spec fn valid_mantissa(m: Seq<char>) -> bool {
    match first_of(m, '.', '.') {
        None => m.len() >= 1 && all_digits(m),
        Some(p) => all_digits(m.subrange(0, p)) && all_digits(m.subrange(p + 1, m.len() as int))
            && m.len() >= 2,
    }
}

/// An exponent after the `e`: an optional sign and at least one digit.
pub open spec fn valid_exponent(x: Seq<char>) -> bool {
    let body = sign_split(x, true).1;
    body.len() >= 1 && all_digits(body)
}

/// The number part of the `f64::from_str` grammar, case-insensitive.
pub open spec fn valid_number(b: Seq<char>) -> bool {
    match first_of(b, 'e', 'E') {
        None => valid_mantissa(b),
        Some(k) => valid_mantissa(b.subrange(0, k)) && valid_exponent(b.subrange(k + 1, b.len() as int)),
    }
}

/// The grammar of `f64::from_str`: an optional sign, then `inf`, `infinity`,
/// `nan` (in any case) or a decimal number with an optional exponent.
pub open spec fn rust_float_grammar(s: Seq<char>) -> bool {
    let body = sign_split(s, true).1;
    ci_word(body, "inf"@) || ci_word(body, "infinity"@) || ci_word(body, "nan"@) || valid_number(body)
}

/// FITS allows `D` as the exponent letter: it is read as `E`.
pub open spec fn d_to_e(c: char) -> char {
    if c == 'D' {
        'E'
    } else if c == 'd' {
        'e'
    } else {
        c
    }
}

/// `s` with the FITS `D` exponent letters replaced by `E`.
pub open spec fn normalize_exponent(s: Seq<char>) -> Seq<char> {
    Seq::new(s.len(), |i: int| d_to_e(s[i]))
}

/// `s` is a floating-point value that the FITS parser accepts.
pub open spec fn is_float_text(s: Seq<char>) -> bool {
    rust_float_grammar(normalize_exponent(s))
}


/// Index (relative to `start`) of the first `a` or `b` in `s[start..end]`.
pub fn first_of_exec(s: &[char], start: usize, end: usize, a: char, b: char) -> (r: Option<usize>)
    requires
        start <= end <= s@.len(),
    ensures
        r matches Some(i) ==> first_of(s@.subrange(start as int, end as int), a, b) == Some(i as int),
        r is None ==> first_of(s@.subrange(start as int, end as int), a, b) is None,
{
    let mut i = end;
    let mut found: Option<usize> = None;
    while i > start
        invariant
            start <= i <= end,
            end <= s@.len(),
            found matches Some(j) ==> first_of(s@.subrange(i as int, end as int), a, b) == Some(j as int),
            found is None ==> first_of(s@.subrange(i as int, end as int), a, b) is None,
            found matches Some(j) ==> j < end - i,
        decreases i - start,
    {
        assert(s@.subrange(i - 1, end as int).drop_first() =~= s@.subrange(i as int, end as int));
        if s[i - 1] == a || s[i - 1] == b {
            found = Some(0);
        } else {
            found = match found {
                Some(j) => Some(j + 1),
                None => None,
            };
        }
        i -= 1;
    }
    found
}

/// Whether every character of `s[start..end]` is a decimal digit.
pub fn all_digits_exec(s: &[char], start: usize, end: usize) -> (r: bool)
    requires
        start <= end <= s@.len(),
    ensures
        r == all_digits(s@.subrange(start as int, end as int)),
{
    let mut i = start;
    while i < end
        invariant
            start <= i <= end,
            end <= s@.len(),
            forall|j: int| start <= j < i ==> is_digit(#[trigger] s@[j]),
        decreases end - i,
    {
        if !('0' <= s[i] && s[i] <= '9') {
            assert(!is_digit(s@.subrange(start as int, end as int)[i - start]));
            return false;
        }
        i += 1;
    }
    assert forall|j: int| 0 <= j < end - start implies #[trigger] is_digit(s@.subrange(start as int, end as int)[j]) by {
        assert(s@.subrange(start as int, end as int)[j] == s@[start + j]);
    }
    true
}

fn ci_word_exec(s: &[char], start: usize, end: usize, w: &[char]) -> (r: bool)
    requires
        start <= end <= s@.len(),
        forall|i: int| 0 <= i < w@.len() ==> 'a' <= #[trigger] w@[i] <= 'z',
    ensures
        r == ci_word(s@.subrange(start as int, end as int), w@),
{
    if end - start != w.len() {
        return false;
    }
    let mut i: usize = 0;
    while i < w.len()
        invariant
            i <= w@.len(),
            end - start == w@.len(),
            end <= s@.len(),
            forall|j: int| 0 <= j < w@.len() ==> 'a' <= #[trigger] w@[j] <= 'z',
            forall|j: int| 0 <= j < i ==> #[trigger] ci_eq(s@.subrange(start as int, end as int)[j], w@[j]),
        decreases w@.len() - i,
    {
        let c = s[start + i];
        let wc = w[i];
        assert(s@.subrange(start as int, end as int)[i as int] == c);
        if !(c == wc || (c as u32) == (wc as u32) - 32) {
            assert(!ci_eq(s@.subrange(start as int, end as int)[i as int], w@[i as int]));
            return false;
        }
        i += 1;
    }
    true
}

fn valid_mantissa_exec(s: &[char], start: usize, end: usize) -> (r: bool)
    requires
        start <= end <= s@.len(),
    ensures
        r == valid_mantissa(s@.subrange(start as int, end as int)),
{
    let ghost m = s@.subrange(start as int, end as int);
    match first_of_exec(s, start, end, '.', '.') {
        None => end - start >= 1 && all_digits_exec(s, start, end),
        Some(p) => {
            proof {
                lemma_first_of_bound(m, '.', '.');
            }
            assert(m.subrange(0, p as int) =~= s@.subrange(start as int, start + p));
            assert(m.subrange(p + 1, m.len() as int) =~= s@.subrange(start + p + 1, end as int));
            all_digits_exec(s, start, start + p) && all_digits_exec(s, start + p + 1, end) && end
                - start >= 2
        },
    }
}

proof fn lemma_first_of_bound(s: Seq<char>, a: char, b: char)
    ensures
        first_of(s, a, b) matches Some(i) ==> 0 <= i < s.len() && (s[i] == a || s[i] == b),
        first_of(s, a, b) is None ==> forall|j: int| 0 <= j < s.len() ==> s[j] != a && s[j] != b,
    decreases s.len(),
{
    if s.len() > 0 {
        lemma_first_of_bound(s.drop_first(), a, b);
        if first_of(s, a, b) is None {
            assert forall|j: int| 0 <= j < s.len() implies s[j] != a && s[j] != b by {
                if j > 0 {
                    assert(s[j] == s.drop_first()[j - 1]);
                }
            }
        }
    }
}

fn valid_exponent_exec(s: &[char], start: usize, end: usize) -> (r: bool)
    requires
        start <= end <= s@.len(),
    ensures
        r == valid_exponent(s@.subrange(start as int, end as int)),
{
    let ghost x = s@.subrange(start as int, end as int);
    let mut b = start;
    if start < end && (s[start] == '-' || s[start] == '+') {
        b = start + 1;
    }
    assert(sign_split(x, true).1 =~= s@.subrange(b as int, end as int));
    end - b >= 1 && all_digits_exec(s, b, end)
}

/// Whether `s[start..end]` is a floating-point value that the FITS parser
/// accepts (the `f64::from_str` grammar, with `D` read as `E`).
pub fn is_float_chars(s: &[char], start: usize, end: usize) -> (r: bool)
    requires
        start <= end <= s@.len(),
    ensures
        r == is_float_text(s@.subrange(start as int, end as int)),
{
    let mut n: Vec<char> = Vec::new();
    let mut i = start;
    while i < end
        invariant
            start <= i <= end,
            end <= s@.len(),
            n@ == normalize_exponent(s@.subrange(start as int, i as int)),
        decreases end - i,
    {
        let c = s[i];
        let d = if c == 'D' { 'E' } else if c == 'd' { 'e' } else { c };
        n.push(d);
        i += 1;
        assert(n@ =~= normalize_exponent(s@.subrange(start as int, i as int)));
    }
    let len = n.len();
    let ns = n.as_slice();
    let ghost t = ns@;
    let mut b: usize = 0;
    if len > 0 && (ns[0] == '-' || ns[0] == '+') {
        b = 1;
    }
    assert(sign_split(t, true).1 =~= ns@.subrange(b as int, len as int));
    let inf_w = ['i', 'n', 'f'];
    let infinity_w = ['i', 'n', 'f', 'i', 'n', 'i', 't', 'y'];
    let nan_w = ['n', 'a', 'n'];
    assert(inf_w@ =~= "inf"@) by { reveal_strlit("inf"); }
    assert(infinity_w@ =~= "infinity"@) by { reveal_strlit("infinity"); }
    assert(nan_w@ =~= "nan"@) by { reveal_strlit("nan"); }
    if ci_word_exec(ns, b, len, &inf_w) || ci_word_exec(ns, b, len, &infinity_w) || ci_word_exec(ns, b, len, &nan_w) {
        return true;
    }
    let ghost body = ns@.subrange(b as int, len as int);
    match first_of_exec(ns, b, len, 'e', 'E') {
        None => valid_mantissa_exec(ns, b, len),
        Some(k) => {
            proof {
                lemma_first_of_bound(body, 'e', 'E');
            }
            assert(body.subrange(0, k as int) =~= ns@.subrange(b as int, b + k));
            assert(body.subrange(k + 1, body.len() as int) =~= ns@.subrange(b + k + 1, len as int));
            valid_mantissa_exec(ns, b, b + k) && valid_exponent_exec(ns, b + k + 1, len)
        },
    }
}


// ── Facts about trimming, ASCII text and decimals ──

/// Spaces after a text do not change the text without its trailing
/// whitespace.
pub proof fn lemma_trim_end_spaces(t: Seq<char>, m: nat)
    ensures
        trim_end(t + Seq::new(m, |i: int| ' ')) == trim_end(t),
    decreases m,
{
    if m > 0 {
        let s1 = t + Seq::new(m, |i: int| ' ');
        assert(s1.last() == ' ');
        assert(s1.drop_last() =~= t + Seq::new((m - 1) as nat, |i: int| ' '));
        lemma_trim_end_spaces(t, (m - 1) as nat);
    } else {
        assert(t + Seq::new(m, |i: int| ' ') =~= t);
    }
}

/// Spaces before a text do not change the text without its leading
/// whitespace.
pub proof fn lemma_trim_start_spaces(t: Seq<char>, m: nat)
    ensures
        trim_start(Seq::new(m, |i: int| ' ') + t) == trim_start(t),
    decreases m,
{
    if m > 0 {
        let s1 = Seq::new(m, |i: int| ' ') + t;
        assert(s1[0] == ' ');
        assert(s1.drop_first() =~= Seq::new((m - 1) as nat, |i: int| ' ') + t);
        lemma_trim_start_spaces(t, (m - 1) as nat);
    } else {
        assert(Seq::new(m, |i: int| ' ') + t =~= t);
    }
}

/// A text between runs of spaces, itself neither starting nor ending with
/// whitespace, is what trimming leaves.
pub proof fn lemma_trim_padded(a: nat, t: Seq<char>, b: nat)
    requires
        t.len() > 0,
        !is_ws(t[0]),
        !is_ws(t.last()),
    ensures
        trim(Seq::new(a, |i: int| ' ') + t + Seq::new(b, |i: int| ' ')) == t,
{
    let sa = Seq::new(a, |i: int| ' ');
    lemma_trim_end_spaces(sa + t, b);
    assert((sa + t).last() == t.last());
    assert(trim_end(sa + t) == sa + t);
    lemma_trim_start_spaces(t, a);
}

/// ASCII bytes are valid UTF-8 and decode to the characters with their
/// codes.
pub proof fn lemma_ascii_decode(b: Seq<u8>)
    requires
        forall|i: int| 0 <= i < b.len() ==> #[trigger] b[i] < 128,
    ensures
        valid_utf8(b),
        decode_utf8(b) == ascii_chars(b),
{
    let cs = ascii_chars(b);
    assert(is_ascii_chars(cs));
    is_ascii_chars_encode_utf8(cs);
    assert(encode_utf8(cs) =~= b);
    encode_utf8_valid_utf8(cs);
    encode_utf8_decode_utf8(cs);
}

/// `first_of` finds nothing in a text holding neither character.
pub proof fn lemma_first_of_none(s: Seq<char>, a: char, b: char)
    requires
        forall|j: int| 0 <= j < s.len() ==> #[trigger] s[j] != a && s[j] != b,
    ensures
        first_of(s, a, b) is None,
    decreases s.len(),
{
    if s.len() > 0 {
        assert forall|j: int| 0 <= j < s.drop_first().len() implies #[trigger] s.drop_first()[j] != a
            && s.drop_first()[j] != b by {
            assert(s.drop_first()[j] == s[j + 1]);
        }
        lemma_first_of_none(s.drop_first(), a, b);
    }
}

/// `10^k`.
pub open spec fn pow10(k: nat) -> nat
    decreases k,
{
    if k == 0 { 1 } else { 10 * pow10((k - 1) as nat) }
}

/// A number below `10^k` has at most `k` decimal digits, each an ASCII
/// digit.
pub proof fn lemma_nat_digits_len(n: nat, k: nat)
    requires
        k >= 1,
        n < pow10(k),
    ensures
        1 <= nat_digits(n).len() <= k,
        forall|i: int| 0 <= i < nat_digits(n).len() ==> 48 <= #[trigger] nat_digits(n)[i] <= 57,
    decreases n,
{
    if n >= 10 {
        assert(k >= 2) by {
            if k == 1 {
                assert(pow10(1) == 10 * pow10(0));
            }
        }
        assert(n / 10 < pow10((k - 1) as nat)) by {
            assert(pow10(k) == 10 * pow10((k - 1) as nat));
        }
        lemma_nat_digits_len(n / 10, (k - 1) as nat);
    }
}

/// Parsing the decimal text of an `i64` gives it back; the text is a
/// minus sign (for a negative number) and digits, at most 20 bytes in all.
pub proof fn lemma_i64_decimal(n: i64)
    ensures
        spec_parse_i64(ascii_chars(int_decimal(n as int))) == Some(n),
        1 <= int_decimal(n as int).len() <= 20,
        forall|i: int| 0 <= i < int_decimal(n as int).len() ==> (48 <= #[trigger] int_decimal(n as int)[i] <= 57
            || (i == 0 && int_decimal(n as int)[i] == 45)),
{
    let m: nat = if n < 0 { (-(n as int)) as nat } else { n as nat };
    reveal_with_fuel(pow10, 20);
    assert(pow10(19) == 10000000000000000000);
    lemma_nat_digits_len(m, 19);
    crate::table::lemma_digits_roundtrip(m);
    let d = ascii_chars(nat_digits(m));
    assert(d[0] != '-' && d[0] != '+') by {
        assert(48 <= nat_digits(m)[0] <= 57);
    }
    if n < 0 {
        let s = ascii_chars(int_decimal(n as int));
        assert(s =~= seq!['-'] + d);
        assert(s.drop_first() =~= d);
    }
}

/// The UTF-8 of a text followed by spaces is valid, and decodes to the text
/// followed by spaces, so that trimming its end gives the trimmed text.
pub proof fn lemma_text_then_spaces(t: Seq<char>, m: nat)
    ensures
        valid_utf8(encode_utf8(t) + Seq::new(m, |i: int| 32u8)),
        decode_utf8(encode_utf8(t) + Seq::new(m, |i: int| 32u8)) == t + Seq::new(m, |i: int| ' '),
        trim_end(decode_utf8(encode_utf8(t) + Seq::new(m, |i: int| 32u8))) == trim_end(t),
{
    let e = encode_utf8(t);
    let cs = Seq::new(m, |i: int| ' ');
    let sp = Seq::new(m, |i: int| 32u8);
    let cell = e + sp;
    assert(is_ascii_chars(cs));
    is_ascii_chars_encode_utf8(cs);
    assert(encode_utf8(cs) =~= sp);
    encode_utf8_valid_utf8(t);
    encode_utf8_valid_utf8(cs);
    valid_utf8_concat(e, sp);
    encode_utf8_decode_utf8(t);
    encode_utf8_decode_utf8(cs);
    let l = e.len() as int;
    if m > 0 {
        is_char_boundary_iff_not_is_continuation_byte(cell, l);
        assert(cell[l] == 32u8);
    } else {
        assert(cell =~= e);
        is_char_boundary_start_end_of_seq(cell);
    }
    decode_utf8_split(cell, l);
    assert(cell.subrange(0, l) =~= e);
    assert(cell.subrange(l, cell.len() as int) =~= sp);
    assert(decode_utf8(cell) =~= t + cs);
    lemma_trim_end_spaces(t, m);
}

/// The index of the first `.` of `s` from `i` on, or the length of `s`.
pub open spec fn dot_index(s: Seq<char>, i: int) -> int
    decreases s.len() - i,
{
    if i < 0 || i >= s.len() {
        s.len() as int
    } else if s[i] == '.' {
        i
    } else {
        dot_index(s, i + 1)
    }
}

/// The characters after position `k` (a `.`), or none when `k` is past the
/// end.
pub open spec fn after_dot(body: Seq<char>, k: int) -> Seq<char> {
    if k < body.len() { body.subrange(k + 1, body.len() as int) } else { Seq::empty() }
}

/// Every character is `0`.
pub open spec fn all_zeros(s: Seq<char>) -> bool {
    forall|i: int| 0 <= i < s.len() ==> #[trigger] s[i] == '0'
}

/// The integer that a decimal literal spells when it has no fraction but
/// zeros, `[sign] digits [. zeros]`, and its magnitude fits in a `u64`.
pub open spec fn decimal_integer(t: Seq<char>) -> Option<int> {
    let neg = sign_split(t, true).0;
    let body = sign_split(t, true).1;
    let k = dot_index(body, 0);
    let int_part = body.subrange(0, k);
    if int_part.len() > 0 && all_digits(int_part) && all_zeros(after_dot(body, k))
        && digits_value(int_part) <= u64::MAX {
        Some(if neg { -digits_value(int_part) } else { digits_value(int_part) })
    } else {
        None
    }
}

proof fn lemma_dot_index(s: Seq<char>, i: int)
    requires
        0 <= i <= s.len(),
    ensures
        i <= dot_index(s, i) <= s.len(),
        dot_index(s, i) < s.len() ==> s[dot_index(s, i)] == '.',
        forall|j: int| i <= j < dot_index(s, i) ==> #[trigger] s[j] != '.',
    decreases s.len() - i,
{
    if i < s.len() && s[i] != '.' {
        lemma_dot_index(s, i + 1);
    }
}

/// The integer a decimal literal spells, as [`decimal_integer`] gives it.
pub fn decimal_integer_exec(t: &str) -> (r: Option<i128>)
    ensures
        match r {
            Some(v) => decimal_integer(t@) == Some(v as int),
            None => decimal_integer(t@) is None,
        },
        r matches Some(v) ==> -0xFFFF_FFFF_FFFF_FFFF <= v <= 0xFFFF_FFFF_FFFF_FFFF,
{
    let cs = chars_of(t);
    let n = cs.len();
    let mut b: usize = 0;
    let mut neg = false;
    if n > 0 && cs[0] == '-' {
        neg = true;
        b = 1;
    } else if n > 0 && cs[0] == '+' {
        b = 1;
    }
    let ghost body = cs@.subrange(b as int, n as int);
    assert(sign_split(t@, true).1 =~= body);
    let mut k = b;
    while k < n && cs[k] != '.'
        invariant
            b <= k <= n,
            n == cs@.len(),
            forall|j: int| b <= j < k ==> cs@[j] != '.',
        decreases n - k,
    {
        k += 1;
    }
    proof {
        lemma_dot_index(body, 0);
        assert forall|j: int| 0 <= j < k - b implies body[j] != '.' by {
            assert(body[j] == cs@[b + j]);
        }
        if k < n {
            assert(body[k - b] == '.');
        }
        assert(dot_index(body, 0) == k - b) by {
            if dot_index(body, 0) < k - b {
                assert(body[dot_index(body, 0)] == '.');
            }
            if dot_index(body, 0) > k - b {
                assert(body[k - b] == '.');
            }
        }
        assert(body.subrange(0, k - b) =~= cs@.subrange(b as int, k as int));
    }
    let m = match digits_magnitude(cs.as_slice(), b, k) {
        Ok(m) => m,
        Err(_) => return None,
    };
    let mut j = if k < n { k + 1 } else { n };
    let ghost frac = if k < n { body.subrange(k - b + 1, body.len() as int) } else { Seq::<char>::empty() };
    let j0 = j;
    while j < n
        invariant
            j0 <= j <= n,
            n == cs@.len(),
            b <= k <= n,
            k < n ==> j0 == k + 1,
            k >= n ==> j0 == n,
            cs@ == t@,
            sign_split(t@, true).1 == body,
            dot_index(body, 0) == k - b,
            frac == (if k < n { body.subrange(k - b + 1, body.len() as int) } else { Seq::<char>::empty() }),
            body == cs@.subrange(b as int, n as int),
            forall|q: int| j0 <= q < j ==> cs@[q] == '0',
        decreases n - j,
    {
        if cs[j] != '0' {
            assert(k < n);
            assert(frac[j - j0] == cs@[j as int]);
            proof {
                let sb = sign_split(t@, true).1;
                let kk = dot_index(sb, 0);
                assert(sb == body);
                assert(kk == k - b);
                assert(kk < sb.len());
                assert(frac == after_dot(sb, kk));
                assert(!all_zeros(frac));
                assert(decimal_integer(t@) is None);
            }
            return None;
        }
        j += 1;
    }
    assert forall|q: int| 0 <= q < frac.len() implies #[trigger] frac[q] == '0' by {
        assert(frac[q] == cs@[j0 + q]);
    }
    assert(all_zeros(frac));
    assert(frac == after_dot(body, k - b));
    if neg { Some(-(m as i128)) } else { Some(m as i128) }
}

} // verus!
