//! FITS header value representation (integer, float, string, logical) and
//! the grammar of the 70-byte value field.
//!
//! Floating-point values are kept as the literal text that spells them, so
//! that no precision is lost and no floating-point arithmetic is needed here;
//! the text is a valid `f64` literal (with FITS `D` exponents allowed).
use vstd::prelude::*;
use vstd::utf8::{decode_utf8, encode_utf8, is_ascii_chars, is_ascii_chars_encode_utf8, valid_utf8};

use crate::text::{
    lemma_ascii_decode, lemma_first_of_none, lemma_i64_decimal, lemma_trim_padded,
    all_digits, ascii_chars, i64_decimal, int_decimal, chars_of, first_of, first_of_exec, is_float_chars, is_float_text, is_ws,
    parse_i64_chars, spec_parse_i64, str_from_utf8, string_from_chars, trim, trim_bounds, trim_end, trim_start,
    trim_end_index,
};

verus! {

/// A parsed FITS header value.
#[derive(Debug, Clone, PartialEq)]
pub enum Value {
    /// FITS logical value (`T` or `F`).
    Logical(bool),
    /// FITS integer value.
    Integer(i64),
    /// FITS floating-point value, as the literal text that spells it.
    Float(String),
    /// FITS character string (content between single quotes).
    String(String),
    /// FITS complex integer `(real, imaginary)`.
    ComplexInt(i64, i64),
    /// FITS complex float `(real, imaginary)`, as the texts of the two parts.
    ComplexFloat(String, String),
}

/// The mathematical content of a [`Value`].
pub enum ValueModel {
    Logical(bool),
    Integer(int),
    Float(Seq<char>),
    Str(Seq<char>),
    ComplexInt(int, int),
    ComplexFloat(Seq<char>, Seq<char>),
}

impl View for Value {
    type V = ValueModel;

    open spec fn view(&self) -> ValueModel {
        match self {
            Value::Logical(b) => ValueModel::Logical(*b),
            Value::Integer(n) => ValueModel::Integer(*n as int),
            Value::Float(t) => ValueModel::Float(t@),
            Value::String(s) => ValueModel::Str(s@),
            Value::ComplexInt(re, im) => ValueModel::ComplexInt(*re as int, *im as int),
            Value::ComplexFloat(re, im) => ValueModel::ComplexFloat(re@, im@),
        }
    }
}

// ── Grammar of the value field ──

/// Index of the first ` /` comment separator at or after `i`.
pub open spec fn find_sep(f: Seq<u8>, i: int) -> Option<int>
    decreases f.len() - i,
{
    if i < 0 || i + 1 >= f.len() {
        None
    } else if f[i] == 32 && f[i + 1] == 47 {
        Some(i)
    } else {
        find_sep(f, i + 1)
    }
}

/// The comment after a separator at `i`: the rest of the field after the
/// slash and one optional space, trimmed at the end; absent when empty or
/// not valid UTF-8.
pub open spec fn comment_at(f: Seq<u8>, i: int) -> Option<Seq<char>> {
    let cs = if i + 2 < f.len() && f[i + 2] == 32 { i + 3 } else { i + 2 };
    let rest = f.subrange(cs, f.len() as int);
    if valid_utf8(rest) && trim_end(decode_utf8(rest)).len() > 0 {
        Some(trim_end(decode_utf8(rest)))
    } else {
        None
    }
}

/// The comment of a field: what follows its first ` /` separator.
pub open spec fn comment_of(f: Seq<u8>) -> Option<Seq<char>> {
    match find_sep(f, 0) {
        Some(i) => comment_at(f, i),
        None => None,
    }
}

/// The part of a field before its first ` /` separator.
pub open spec fn value_part(f: Seq<u8>) -> Seq<u8> {
    match find_sep(f, 0) {
        Some(i) => f.subrange(0, i),
        None => f,
    }
}

/// Scan a quoted string from index `i` (just after the opening quote):
/// the content bytes (with `''` read as `'`) and the index just after the
/// closing quote (or the end of the field, for an unterminated string).
pub open spec fn scan_quoted(f: Seq<u8>, i: int) -> (Seq<u8>, int)
    decreases f.len() - i,
{
    if i >= f.len() || i < 0 {
        (Seq::empty(), f.len() as int)
    } else if f[i] == 39 {
        if i + 1 < f.len() && f[i + 1] == 39 {
            let (c, e) = scan_quoted(f, i + 2);
            (seq![39u8] + c, e)
        } else {
            (Seq::empty(), i + 1)
        }
    } else {
        let (c, e) = scan_quoted(f, i + 1);
        (seq![f[i]] + c, e)
    }
}

/// A string value and its comment, for a field that starts with a quote.
pub open spec fn spec_parse_string(f: Seq<u8>) -> (ValueModel, Option<Seq<char>>) {
    let (c, e) = scan_quoted(f, 1);
    (ValueModel::Str(trim_end(ascii_chars(c))), comment_of(f.subrange(e, f.len() as int)))
}

/// `t` contains the character `c`.
pub open spec fn has_char(t: Seq<char>, c: char) -> bool {
    first_of(t, c, c) is Some
}

/// A complex value `(re, im)`.
pub open spec fn spec_parse_complex(text: Seq<char>) -> Option<ValueModel> {
    let t = trim(text);
    if !(t.len() > 0 && t[0] == '(' && t.last() == ')') {
        None
    } else {
        let inner = t.subrange(1, t.len() - 1);
        match first_of(inner, ',', ',') {
            None => None,
            Some(c) => {
                let left = trim(inner.subrange(0, c));
                let right = trim(inner.subrange(c + 1, inner.len() as int));
                if spec_parse_i64(left) is Some && spec_parse_i64(right) is Some {
                    Some(ValueModel::ComplexInt(spec_parse_i64(left).unwrap() as int, spec_parse_i64(right).unwrap() as int))
                } else if is_float_text(left) && is_float_text(right) {
                    Some(ValueModel::ComplexFloat(left, right))
                } else {
                    None
                }
            },
        }
    }
}

/// The value spelled by a trimmed, non-empty, non-string value text.
pub open spec fn spec_classify(t: Seq<char>) -> Option<ValueModel> {
    if t =~= seq!['T'] {
        Some(ValueModel::Logical(true))
    } else if t =~= seq!['F'] {
        Some(ValueModel::Logical(false))
    } else if t[0] == '(' && spec_parse_complex(t) is Some {
        spec_parse_complex(t)
    } else if !has_char(t, '.') && !has_char(t, 'E') && !has_char(t, 'e') && !has_char(t, 'D')
        && !has_char(t, 'd') && spec_parse_i64(t) is Some {
        Some(ValueModel::Integer(spec_parse_i64(t).unwrap() as int))
    } else if is_float_text(t) {
        Some(ValueModel::Float(t))
    } else {
        None
    }
}

/// The value and comment of a 70-byte value field, if it holds a value.
pub open spec fn spec_parse_value(f: Seq<u8>) -> Option<(ValueModel, Option<Seq<char>>)> {
    if f.len() == 0 {
        None
    } else if f[0] == 39 {
        Some(spec_parse_string(f))
    } else {
        let vp = value_part(f);
        if !valid_utf8(vp) {
            None
        } else {
            let t = trim(decode_utf8(vp));
            if t.len() == 0 {
                None
            } else {
                match spec_classify(t) {
                    Some(v) => Some((v, comment_of(f))),
                    None => None,
                }
            }
        }
    }
}

// ── Parsing ──

/// Index of the first ` /` separator in `f` at or after `from`.
pub fn find_sep_exec(f: &[u8], from: usize) -> (r: Option<usize>)
    requires
        from <= f@.len(),
    ensures
        r matches Some(i) ==> find_sep(f@, from as int) == Some(i as int),
        r is None ==> find_sep(f@, from as int) is None,
{
    let len = f.len();
    let mut i = from;
    while len > 0 && i < len - 1
        invariant
            from <= i <= len,
            len == f@.len(),
            find_sep(f@, i as int) == find_sep(f@, from as int),
        decreases len - i,
    {
        if f[i] == 32 && f[i + 1] == 47 {
            return Some(i);
        }
        i += 1;
    }
    None
}

proof fn lemma_find_sep_bound(f: Seq<u8>, i: int)
    requires
        i >= 0,
    ensures
        find_sep(f, i) matches Some(j) ==> i <= j && j + 1 < f.len(),
    decreases f.len() - i,
{
    if i + 1 < f.len() && !(f[i] == 32 && f[i + 1] == 47) {
        lemma_find_sep_bound(f, i + 1);
    }
}

/// The comment after a separator at `i` in `f`.
fn comment_at_exec(f: &[u8], i: usize) -> (r: Option<String>)
    requires
        i + 1 < f@.len(),
    ensures
        r matches Some(s) ==> comment_at(f@, i as int) == Some(s@),
        r is None ==> comment_at(f@, i as int) is None,
{
    let len = f.len();
    let cs = if i + 2 < len && f[i + 2] == 32 { i + 3 } else { i + 2 };
    let rest = &f[cs..len];
    match str_from_utf8(rest) {
        None => None,
        Some(s) => {
            let chars = chars_of(s);
            let e = chars.len();
            let t = trim_end_index(chars.as_slice(), e);
            assert(chars@.subrange(0, e as int) =~= chars@);
            if t == 0 {
                None
            } else {
                let sl = chars.as_slice();
                Some(string_from_chars(&sl[0..t]))
            }
        },
    }
}

/// The comment of a field.
pub fn comment_of_exec(f: &[u8]) -> (r: Option<String>)
    ensures
        r matches Some(s) ==> comment_of(f@) == Some(s@),
        r is None ==> comment_of(f@) is None,
{
    match find_sep_exec(f, 0) {
        Some(i) => {
            proof { lemma_find_sep_bound(f@, 0); }
            comment_at_exec(f, i)
        },
        None => None,
    }
}

/// Scan a quoted string in `f` starting just after the opening quote.
fn scan_quoted_exec(f: &[u8]) -> (r: (Vec<u8>, usize))
    requires
        f@.len() >= 1,
    ensures
        r.0@ == scan_quoted(f@, 1).0,
        r.1 == scan_quoted(f@, 1).1,
        r.1 <= f@.len(),
{
    let len = f.len();
    let mut content: Vec<u8> = Vec::new();
    let mut i: usize = 1;
    let mut end: usize = len;
    let mut done = false;
    while !done && i < len
        invariant
            1 <= i <= len,
            len == f@.len(),
            end <= len,
            !done ==> content@ + scan_quoted(f@, i as int).0 == scan_quoted(f@, 1).0,
            !done ==> scan_quoted(f@, i as int).1 == scan_quoted(f@, 1).1,
            done ==> content@ == scan_quoted(f@, 1).0 && end == scan_quoted(f@, 1).1,
        decreases len - i, if done { 0int } else { 1int },
    {
        if f[i] == 39 {
            if i + 1 < len && f[i + 1] == 39 {
                proof {
                    let (c, e) = scan_quoted(f@, i + 2);
                    assert(content@ + scan_quoted(f@, i as int).0 =~= content@.push(39u8) + c);
                }
                content.push(39u8);
                i += 2;
            } else {
                end = i + 1;
                proof {
                    assert(content@ + Seq::<u8>::empty() =~= content@);
                }
                done = true;
            }
        } else {
            proof {
                let (c, e) = scan_quoted(f@, i + 1);
                assert(content@ + scan_quoted(f@, i as int).0 =~= content@.push(f@[i as int]) + c);
            }
            content.push(f[i]);
            i += 1;
        }
    }
    if !done {
        proof {
            assert(content@ + Seq::<u8>::empty() =~= content@);
        }
        end = len;
    }
    (content, end)
}

/// Parse a string value and the comment that follows it.
fn parse_string(field: &[u8]) -> (r: (Value, Option<String>))
    requires
        field@.len() >= 1,
        field@[0] == 39,
    ensures
        r.0@ == spec_parse_string(field@).0,
        r.1 matches Some(s) ==> spec_parse_string(field@).1 == Some(s@),
        r.1 is None ==> spec_parse_string(field@).1 is None,
        r.0 is String,
{
    let (content, end) = scan_quoted_exec(field);
    let mut chars: Vec<char> = Vec::new();
    let mut k: usize = 0;
    while k < content.len()
        invariant
            k <= content@.len(),
            chars@ == ascii_chars(content@.subrange(0, k as int)),
        decreases content@.len() - k,
    {
        chars.push(content[k] as char);
        k += 1;
        assert(chars@ =~= ascii_chars(content@.subrange(0, k as int)));
    }
    assert(content@.subrange(0, content@.len() as int) =~= content@);
    let n = chars.len();
    let t = trim_end_index(chars.as_slice(), n);
    assert(chars@.subrange(0, n as int) =~= chars@);
    let sl = chars.as_slice();
    let value = string_from_chars(&sl[0..t]);
    let rest = &field[end..field.len()];
    let comment = comment_of_exec(rest);
    (Value::String(value), comment)
}

/// The characters `t[b..e]` as a `String`.
fn substring(t: &[char], b: usize, e: usize) -> (r: String)
    requires
        b <= e <= t@.len(),
    ensures
        r@ == t@.subrange(b as int, e as int),
{
    string_from_chars(&t[b..e])
}

/// Try to parse a complex value `(real, imag)` from `text[b..e]`.
fn parse_complex(text: &[char], b0: usize, e0: usize) -> (r: Option<Value>)
    requires
        b0 <= e0 <= text@.len(),
    ensures
        r matches Some(v) ==> spec_parse_complex(text@.subrange(b0 as int, e0 as int)) == Some(v@),
        r is None ==> spec_parse_complex(text@.subrange(b0 as int, e0 as int)) is None,
{
    let (b, e) = trim_bounds(text, b0, e0);
    let ghost t = text@.subrange(b as int, e as int);
    if !(e > b && text[b] == '(' && text[e - 1] == ')') {
        return None;
    }
    assert(t[0] == text@[b as int] && t.last() == text@[e - 1]);
    let ib = b + 1;
    let ie = e - 1;
    let ghost inner = t.subrange(1, t.len() - 1);
    assert(inner =~= text@.subrange(ib as int, ie as int));
    let comma = match first_of_exec(text, ib, ie, ',', ',') {
        None => return None,
        Some(c) => c,
    };
    proof { lemma_first_of_in_bounds(inner, ',', ','); }
    let (lb, le) = trim_bounds(text, ib, ib + comma);
    let (rb, re) = trim_bounds(text, ib + comma + 1, ie);
    assert(inner.subrange(0, comma as int) =~= text@.subrange(ib as int, ib + comma));
    assert(inner.subrange(comma + 1, inner.len() as int) =~= text@.subrange(ib + comma + 1, ie as int));
    let li = parse_i64_chars(text, lb, le);
    let ri = parse_i64_chars(text, rb, re);
    if li.is_some() && ri.is_some() {
        return Some(Value::ComplexInt(li.unwrap(), ri.unwrap()));
    }
    if is_float_chars(text, lb, le) && is_float_chars(text, rb, re) {
        return Some(Value::ComplexFloat(substring(text, lb, le), substring(text, rb, re)));
    }
    None
}

proof fn lemma_first_of_in_bounds(s: Seq<char>, a: char, b: char)
    ensures
        first_of(s, a, b) matches Some(i) ==> 0 <= i < s.len(),
    decreases s.len(),
{
    if s.len() > 0 {
        lemma_first_of_in_bounds(s.drop_first(), a, b);
    }
}

fn has_char_exec(t: &[char], b: usize, e: usize, c: char) -> (r: bool)
    requires
        b <= e <= t@.len(),
    ensures
        r == has_char(t@.subrange(b as int, e as int), c),
{
    first_of_exec(t, b, e, c, c).is_some()
}

/// Classify the trimmed, non-empty value text `t[b..e]`.
fn classify(t: &[char], b: usize, e: usize) -> (r: Option<Value>)
    requires
        b < e <= t@.len(),
    ensures
        r matches Some(v) ==> spec_classify(t@.subrange(b as int, e as int)) == Some(v@),
        r is None ==> spec_classify(t@.subrange(b as int, e as int)) is None,
{
    let ghost s = t@.subrange(b as int, e as int);
    if e - b == 1 && t[b] == 'T' {
        assert(s =~= seq!['T']);
        return Some(Value::Logical(true));
    }
    if e - b == 1 && t[b] == 'F' {
        assert(s =~= seq!['F']);
        return Some(Value::Logical(false));
    }
    assert(!(s =~= seq!['T']) && !(s =~= seq!['F'])) by {
        if s =~= seq!['T'] || s =~= seq!['F'] {
            assert(s[0] == t@[b as int]);
        }
    }
    assert(s[0] == t@[b as int]);
    if t[b] == '(' {
        if let Some(v) = parse_complex(t, b, e) {
            return Some(v);
        }
    }
    if !has_char_exec(t, b, e, '.') && !has_char_exec(t, b, e, 'E') && !has_char_exec(t, b, e, 'e')
        && !has_char_exec(t, b, e, 'D') && !has_char_exec(t, b, e, 'd') {
        if let Some(n) = parse_i64_chars(t, b, e) {
            return Some(Value::Integer(n));
        }
    }
    if is_float_chars(t, b, e) {
        return Some(Value::Float(substring(t, b, e)));
    }
    None
}

/// Parse a FITS header value from the 70-byte value portion of an 80-byte
/// card (bytes 10..80).
///
/// Returns the parsed [`Value`] and an optional comment string. The caller
/// checks that bytes 8..10 of the card are `= ` before calling this.
pub fn parse_value(value_bytes: &[u8]) -> (r: Option<(Value, Option<String>)>)
    ensures
        r matches Some((v, c)) ==> spec_parse_value(value_bytes@) matches Some((sv, sc)) && sv == v@ && (
        c matches Some(cs) ==> sc == Some(cs@)) && (c is None ==> sc is None),
        r is None ==> spec_parse_value(value_bytes@) is None,
{
    if value_bytes.len() == 0 {
        return None;
    }
    if value_bytes[0] == 39 {
        return Some(parse_string(value_bytes));
    }
    let len = value_bytes.len();
    let vp_end = match find_sep_exec(value_bytes, 0) {
        Some(i) => i,
        None => len,
    };
    proof { lemma_find_sep_bound(value_bytes@, 0); }
    let vp = &value_bytes[0..vp_end];
    assert(vp@ =~= value_part(value_bytes@));
    let s = match str_from_utf8(vp) {
        Some(s) => s,
        None => return None,
    };
    let chars = chars_of(s);
    let n = chars.len();
    assert(chars@.subrange(0, n as int) =~= chars@);
    let (b, e) = trim_bounds(chars.as_slice(), 0, n);
    if b == e {
        return None;
    }
    match classify(chars.as_slice(), b, e) {
        Some(v) => Some((v, comment_of_exec(value_bytes))),
        None => None,
    }
}


// ── Writing ──

/// `n` ASCII spaces.
pub open spec fn spaces(n: nat) -> Seq<u8> {
    Seq::new(n, |i: int| 32u8)
}

/// `src` right-justified in `width` bytes: padded on the left with spaces,
/// and cut to its first `width` bytes when longer.
pub open spec fn right_justified(src: Seq<u8>, width: nat) -> Seq<u8> {
    let len = if src.len() < width { src.len() } else { width };
    spaces((width - len) as nat) + src.subrange(0, len as int)
}

/// The bytes that a quoted string's content occupies from position `pos` of
/// the value field on: each `'` doubled, stopping before byte 69 so that the
/// closing quote fits.
pub open spec fn quote_body(b: Seq<u8>, pos: int) -> Seq<u8>
    decreases b.len(),
{
    if b.len() == 0 || pos >= 69 {
        Seq::empty()
    } else if b[0] == 39 {
        if pos + 1 >= 69 {
            Seq::empty()
        } else {
            seq![39u8, 39u8] + quote_body(b.drop_first(), pos + 2)
        }
    } else {
        seq![b[0]] + quote_body(b.drop_first(), pos + 1)
    }
}

/// A quoted string value field: the opening quote, the content, spaces up to
/// at least column 9, the closing quote, spaces.
pub open spec fn quoted_field(s: Seq<char>) -> Seq<u8> {
    let w = quote_body(encode_utf8(s), 1);
    let close = if 1 + w.len() < 9 { 9 } else { 1 + w.len() };
    Seq::new(70, |i: int| if i == 0 { 39u8 } else if i < 1 + w.len() { w[i - 1] } else if i == close { 39u8 } else { 32u8 })
}

/// Bytes with each `'` doubled.
pub open spec fn doubled_quotes(b: Seq<u8>) -> Seq<u8>
    decreases b.len(),
{
    if b.len() == 0 {
        Seq::empty()
    } else if b[0] == 39 {
        seq![39u8, 39u8] + doubled_quotes(b.drop_first())
    } else {
        seq![b[0]] + doubled_quotes(b.drop_first())
    }
}

/// Content that fits before byte 69 is written whole, its quotes doubled.
proof fn lemma_quote_body_fits(b: Seq<u8>, pos: int)
    requires
        1 <= pos,
        pos + doubled_quotes(b).len() <= 69,
    ensures
        quote_body(b, pos) == doubled_quotes(b),
    decreases b.len(),
{
    if b.len() > 0 {
        if b[0] == 39 {
            lemma_quote_body_fits(b.drop_first(), pos + 2);
        } else {
            lemma_quote_body_fits(b.drop_first(), pos + 1);
        }
    }
}

/// The layout of a quoted string value whose content, quotes doubled, fits
/// in 68 bytes: an opening quote, the content, spaces up to column 9 at
/// least, the closing quote, then spaces to the end of the field.
pub proof fn lemma_quoted_field_layout(s: Seq<char>)
    requires
        doubled_quotes(encode_utf8(s)).len() <= 68,
    ensures
        ({
            let e = doubled_quotes(encode_utf8(s));
            let q: int = if 1 + e.len() < 9 { 9 } else { 1 + e.len() as int };
            quoted_field(s) == seq![39u8] + e + spaces((q - 1 - e.len()) as nat) + seq![39u8] + spaces((69 - q) as nat)
        }),
{
    let e = doubled_quotes(encode_utf8(s));
    lemma_quote_body_fits(encode_utf8(s), 1);
    let q: int = if 1 + e.len() < 9 { 9 } else { 1 + e.len() as int };
    assert(quoted_field(s) =~= seq![39u8] + e + spaces((q - 1 - e.len()) as nat) + seq![39u8] + spaces((69 - q) as nat));
}

/// The complex-number text `(re, im)`.
pub open spec fn complex_text(re: Seq<u8>, im: Seq<u8>) -> Seq<u8> {
    seq![40u8] + re + seq![44u8, 32u8] + im + seq![41u8]
}

/// The width a floating-point literal is right-justified in: 20 columns, or
/// its own length (up to the whole field) when longer.
pub open spec fn float_width(len: nat) -> nat {
    if len <= 20 {
        20
    } else if len <= 70 {
        len
    } else {
        70
    }
}

/// The 70-byte value field that `format_value` produces.
pub open spec fn spec_format_value(v: ValueModel) -> Seq<u8> {
    match v {
        ValueModel::Logical(b) => spaces(19) + seq![if b { 84u8 } else { 70u8 }] + spaces(50),
        ValueModel::Integer(n) => right_justified(int_decimal(n), 20) + spaces(50),
        ValueModel::Float(t) => right_justified(encode_utf8(t), float_width(encode_utf8(t).len()))
            + spaces((70 - float_width(encode_utf8(t).len())) as nat),
        ValueModel::Str(s) => quoted_field(s),
        ValueModel::ComplexInt(re, im) => right_justified(complex_text(int_decimal(re), int_decimal(im)), 30)
            + spaces(40),
        ValueModel::ComplexFloat(re, im) => right_justified(complex_text(encode_utf8(re), encode_utf8(im)), 50)
            + spaces(20),
    }
}

/// Write `src` right-justified into `buf[0..width]`.
fn right_justify_into(buf: &mut [u8; 70], src: &[u8], width: usize)
    requires
        width <= 70,
    ensures
        final(buf)@ == right_justified(src@, width as nat) + old(buf)@.subrange(width as int, 70),
{
    let len = if src.len() < width { src.len() } else { width };
    let start = width - len;
    let mut i: usize = 0;
    while i < width
        invariant
            i <= width,
            width <= 70,
            len <= src@.len(),
            len == (if src@.len() < width { src@.len() as int } else { width as int }),
            start + len == width,
            buf@.len() == 70,
            forall|j: int| 0 <= j < i ==> buf@[j] == right_justified(src@, width as nat)[j],
            forall|j: int| width <= j < 70 ==> buf@[j] == old(buf)@[j],
        decreases width - i,
    {
        proof {
            let sp = spaces((width - len) as nat);
            let tail = src@.subrange(0, len as int);
            assert(right_justified(src@, width as nat) == sp + tail);
            assert(sp.len() == start);
            if i < start {
                assert((sp + tail)[i as int] == sp[i as int]);
            } else {
                assert((sp + tail)[i as int] == tail[i - start]);
            }
        }
        if i < start {
            buf[i] = 32u8;
        } else {
            buf[i] = src[i - start];
        }
        i += 1;
    }
    assert(buf@ =~= right_justified(src@, width as nat) + old(buf)@.subrange(width as int, 70));
}

/// Write a quoted string value into a field of spaces.
fn write_string(s: &str, buf: &mut [u8; 70])
    requires
        old(buf)@ == spaces(70),
    ensures
        final(buf)@ == quoted_field(s@),
{
    let bytes = s.as_bytes();
    let ghost b = bytes@;
    let mut pos: usize = 1;
    buf[0] = 39u8;
    let mut k: usize = 0;
    let ghost mut written: Seq<u8> = Seq::empty();
    let mut stop = false;
    assert(b.subrange(0, b.len() as int) =~= b);
    assert(written + quote_body(b, 1) =~= quote_body(b, 1));
    while !stop && k < bytes.len()
        invariant
            b == bytes@,
            b == encode_utf8(s@),
            k <= b.len(),
            1 <= pos <= 69,
            pos == 1 + written.len(),
            buf@.len() == 70,
            buf@[0] == 39u8,
            !stop ==> written + quote_body(b.subrange(k as int, b.len() as int), pos as int) == quote_body(b, 1),
            stop ==> written == quote_body(b, 1),
            forall|j: int| 1 <= j < pos ==> buf@[j] == written[j - 1],
            forall|j: int| pos <= j < 70 ==> buf@[j] == 32u8,
        decreases b.len() - k, if stop { 0int } else { 1int },
    {
        let ghost rest = b.subrange(k as int, b.len() as int);
        assert(rest.drop_first() =~= b.subrange(k + 1, b.len() as int));
        if pos >= 69 {
            stop = true;
        } else {
            let ch = bytes[k];
            if ch == 39u8 {
                if pos + 1 >= 69 {
                    stop = true;
                } else {
                    buf[pos] = 39u8;
                    buf[pos + 1] = 39u8;
                    proof {
                        assert(written.push(39u8).push(39u8) + quote_body(rest.drop_first(), pos + 2) =~= written + quote_body(rest, pos as int));
                        written = written.push(39u8).push(39u8);
                    }
                    pos += 2;
                    k += 1;
                }
            } else {
                buf[pos] = ch;
                proof {
                    assert(written.push(ch) + quote_body(rest.drop_first(), pos + 1) =~= written + quote_body(rest, pos as int));
                    written = written.push(ch);
                }
                pos += 1;
                k += 1;
            }
        }
    }
    proof {
        if !stop {
            assert(b.subrange(k as int, b.len() as int) =~= Seq::<u8>::empty());
        }
    }
    let close = if pos < 9 { 9 } else { pos };
    buf[close] = 39u8;
    assert(buf@ =~= quoted_field(s@));
}

/// Serialize a [`Value`] into a 70-byte field suitable for bytes 10..80 of an
/// 80-byte FITS card.
///
/// Numeric and logical values are right-justified in the first 20 bytes
/// (columns 11-30 of the card). String values start at byte 0 with a single
/// quote.
pub fn format_value(value: &Value) -> (r: [u8; 70])
    ensures
        r@ == spec_format_value(value@),
{
    let mut buf = [32u8; 70];
    assert(buf@ =~= spaces(70));
    match value {
        Value::Logical(b) => {
            buf[19] = if *b { 84u8 } else { 70u8 };
            assert(buf@ =~= spec_format_value(value@));
        },
        Value::Integer(n) => {
            let s = i64_decimal(*n);
            right_justify_into(&mut buf, s.as_slice(), 20);
            assert(buf@ =~= spec_format_value(value@));
        },
        Value::Float(t) => {
            let bytes = t.as_str().as_bytes();
            let w = if bytes.len() <= 20 { 20 } else if bytes.len() <= 70 { bytes.len() } else { 70 };
            right_justify_into(&mut buf, bytes, w);
            assert(buf@ =~= spec_format_value(value@));
        },
        Value::String(s) => {
            write_string(s.as_str(), &mut buf);
        },
        Value::ComplexInt(re, im) => {
            let mut text: Vec<u8> = Vec::new();
            text.push(40u8);
            let a = i64_decimal(*re);
            let b = i64_decimal(*im);
            text.extend_from_slice(a.as_slice());
            text.push(44u8);
            text.push(32u8);
            text.extend_from_slice(b.as_slice());
            text.push(41u8);
            assert(text@ =~= complex_text(int_decimal(*re as int), int_decimal(*im as int)));
            right_justify_into(&mut buf, text.as_slice(), 30);
            assert(buf@ =~= spec_format_value(value@));
        },
        Value::ComplexFloat(re, im) => {
            let mut text: Vec<u8> = Vec::new();
            text.push(40u8);
            text.extend_from_slice(re.as_str().as_bytes());
            text.push(44u8);
            text.push(32u8);
            text.extend_from_slice(im.as_str().as_bytes());
            text.push(41u8);
            assert(text@ =~= complex_text(encode_utf8(re@), encode_utf8(im@)));
            right_justify_into(&mut buf, text.as_slice(), 50);
            assert(buf@ =~= spec_format_value(value@));
        },
    }
    buf
}


// ── Writing and reading back ──

/// No separator is found in a field with no slash from `i` on.
proof fn lemma_find_sep_none(f: Seq<u8>, i: int)
    requires
        forall|j: int| i <= j < f.len() ==> #[trigger] f[j] != 47,
    ensures
        find_sep(f, i) is None,
    decreases f.len() - i,
{
    if 0 <= i && i + 1 < f.len() {
        lemma_find_sep_none(f, i + 1);
    }
}

/// A field of ASCII bytes without a slash, whose characters trim to `t`:
/// it holds the value that `t` spells, with no comment.
proof fn lemma_plain_field(f: Seq<u8>, t: Seq<char>)
    requires
        f.len() > 0,
        f[0] != 39,
        forall|j: int| 0 <= j < f.len() ==> #[trigger] f[j] < 128 && f[j] != 47,
        trim(ascii_chars(f)) == t,
        t.len() > 0,
    ensures
        spec_parse_value(f) == match spec_classify(t) {
            Some(v) => Some((v, None::<Seq<char>>)),
            None => None::<(ValueModel, Option<Seq<char>>)>,
        },
{
    lemma_find_sep_none(f, 0);
    lemma_ascii_decode(f);
}

/// The characters of spaces are spaces.
proof fn lemma_ascii_spaces(n: nat)
    ensures
        ascii_chars(spaces(n)) == Seq::new(n, |i: int| ' '),
{
    assert(ascii_chars(spaces(n)) =~= Seq::new(n, |i: int| ' '));
}

/// Formatting a logical value and parsing the field back gives the value,
/// with no comment.
pub proof fn lemma_logical_roundtrip(b: bool)
    ensures
        spec_parse_value(spec_format_value(ValueModel::Logical(b)))
            == Some((ValueModel::Logical(b), None::<Seq<char>>)),
{
    let c: u8 = if b { 84u8 } else { 70u8 };
    let f = spec_format_value(ValueModel::Logical(b));
    let t = seq![c as char];
    lemma_ascii_spaces(19);
    lemma_ascii_spaces(50);
    assert(ascii_chars(f) =~= Seq::new(19, |i: int| ' ') + t + Seq::new(50, |i: int| ' '));
    lemma_trim_padded(19, t, 50);
    lemma_plain_field(f, t);
    if b {
        assert(t =~= seq!['T']);
    } else {
        assert(t =~= seq!['F']);
    }
}

/// Formatting an integer value and parsing the field back gives the value,
/// with no comment.
pub proof fn lemma_integer_roundtrip(n: i64)
    ensures
        spec_parse_value(spec_format_value(ValueModel::Integer(n as int)))
            == Some((ValueModel::Integer(n as int), None::<Seq<char>>)),
{
    let d = int_decimal(n as int);
    lemma_i64_decimal(n);
    let f = spec_format_value(ValueModel::Integer(n as int));
    let t = ascii_chars(d);
    let pad = (20 - d.len()) as nat;
    assert(d.subrange(0, d.len() as int) =~= d);
    lemma_ascii_spaces(pad);
    lemma_ascii_spaces(50);
    assert(ascii_chars(f) =~= Seq::new(pad, |i: int| ' ') + t + Seq::new(50, |i: int| ' '));
    assert(!is_ws(t[0]));
    assert(!is_ws(t.last()));
    lemma_trim_padded(pad, t, 50);
    lemma_plain_field(f, t);
    assert forall|j: int| 0 <= j < t.len() implies #[trigger] t[j] != '.' && t[j] != '.' by {}
    lemma_first_of_none(t, '.', '.');
    lemma_first_of_none(t, 'E', 'E');
    lemma_first_of_none(t, 'e', 'e');
    lemma_first_of_none(t, 'D', 'D');
    lemma_first_of_none(t, 'd', 'd');
    assert(t[0] != 'T' && t[0] != 'F' && t[0] != '(');
    assert(!(t =~= seq!['T']));
    assert(!(t =~= seq!['F']));
}

/// The bytes of a string's content with each quote doubled.
pub open spec fn escaped(b: Seq<u8>) -> Seq<u8>
    decreases b.len(),
{
    if b.len() == 0 {
        Seq::empty()
    } else {
        (if b[0] == 39 { seq![39u8, 39u8] } else { seq![b[0]] }) + escaped(b.drop_first())
    }
}

/// When the doubled content fits before byte 69, the quoted body is all of
/// it.
proof fn lemma_quote_body_whole(b: Seq<u8>, pos: int)
    requires
        pos + escaped(b).len() <= 69,
    ensures
        quote_body(b, pos) == escaped(b),
    decreases b.len(),
{
    if b.len() > 0 {
        lemma_quote_body_whole(b.drop_first(), pos + if b[0] == 39 { 2int } else { 1int });
    }
}

/// Scanning from a run of non-quote bytes up to a lone quote reads the run
/// and ends after the quote.
proof fn lemma_scan_plain(f: Seq<u8>, i: int, close: int)
    requires
        0 <= i <= close < f.len(),
        forall|k: int| i <= k < close ==> #[trigger] f[k] != 39,
        f[close] == 39,
        close + 1 < f.len() ==> f[close + 1] != 39,
    ensures
        scan_quoted(f, i) == (f.subrange(i, close), close + 1),
    decreases close - i,
{
    if i < close {
        lemma_scan_plain(f, i + 1, close);
        assert(seq![f[i]] + f.subrange(i + 1, close) =~= f.subrange(i, close));
    } else {
        assert(f.subrange(i, close) =~= Seq::<u8>::empty());
    }
}

/// Scanning over doubled content reads the content back.
proof fn lemma_scan_escaped(f: Seq<u8>, p: int, b: Seq<u8>)
    requires
        0 <= p,
        p + escaped(b).len() <= f.len(),
        f.subrange(p, p + escaped(b).len()) == escaped(b),
    ensures
        scan_quoted(f, p) == (b + scan_quoted(f, p + escaped(b).len()).0, scan_quoted(f, p + escaped(b).len()).1),
    decreases b.len(),
{
    if b.len() > 0 {
        let e = escaped(b);
        let step: int = if b[0] == 39 { 2 } else { 1 };
        let rest = escaped(b.drop_first());
        assert(e.len() == step + rest.len());
        assert(f.subrange(p + step, p + step + rest.len()) =~= e.subrange(step, e.len() as int));
        assert(e.subrange(step, e.len() as int) =~= rest);
        lemma_scan_escaped(f, p + step, b.drop_first());
        assert(f[p] == e[0]);
        if b[0] == 39 {
            assert(f[p + 1] == e[1]);
        }
        assert(seq![b[0]] + b.drop_first() =~= b);
    } else {
        assert(b + scan_quoted(f, p).0 =~= scan_quoted(f, p).0);
    }
}

/// The content of an ASCII text, doubled quotes and all, is ASCII.
proof fn lemma_ascii_bytes(s: Seq<char>)
    requires
        is_ascii_chars(s),
    ensures
        encode_utf8(s).len() == s.len(),
        ascii_chars(encode_utf8(s)) == s,
        forall|i: int| 0 <= i < s.len() ==> #[trigger] encode_utf8(s)[i] < 128,
{
    is_ascii_chars_encode_utf8(s);
    assert(ascii_chars(encode_utf8(s)) =~= s);
}

/// Where a quoted string's closing quote goes.
pub open spec fn quote_close(s: Seq<char>) -> int {
    let w = escaped(encode_utf8(s)).len() as int;
    if 1 + w < 9 { 9 } else { 1 + w }
}

/// A string whose quoted field reads back as itself: ASCII, not ending in
/// whitespace, and short enough for its doubled quotes to fit.
pub open spec fn exact_string(s: Seq<char>) -> bool {
    &&& is_ascii_chars(s)
    &&& trim_end(s) == s
    &&& escaped(encode_utf8(s)).len() <= 68
}

/// Scanning a field that begins as the quoted field of `s` (up to the byte
/// after the closing quote) reads the content of `s` and the spaces before
/// the closing quote, and stops after the closing quote.
pub(crate) proof fn lemma_string_scan(s: Seq<char>, f: Seq<u8>)
    requires
        exact_string(s),
        f.len() == 70,
        forall|j: int| 0 <= j < quote_close(s) + 2 && j < 70 ==> f[j] == #[trigger] quoted_field(s)[j],
    ensures
        quote_close(s) <= 69,
        scan_quoted(f, 1).1 == quote_close(s) + 1,
        trim_end(ascii_chars(scan_quoted(f, 1).0)) == s,
        forall|j: int| quote_close(s) < j < 70 ==> #[trigger] quoted_field(s)[j] == 32u8,
        quoted_field(s)[0] == 39u8,
{
    let bs = encode_utf8(s);
    lemma_ascii_bytes(s);
    lemma_quote_body_whole(bs, 1);
    let w = escaped(bs);
    let wl = w.len() as int;
    let q = quoted_field(s);
    let close = quote_close(s);
    assert(f.subrange(1, 1 + wl) =~= w) by {
        assert forall|j: int| 0 <= j < wl implies f.subrange(1, 1 + wl)[j] == w[j] by {
            assert(f[1 + j] == q[1 + j]);
        }
    }
    assert forall|k: int| 1 + wl <= k < close implies #[trigger] f[k] != 39 by {
        assert(f[k] == q[k]);
    }
    assert(f[close] == q[close]);
    if close + 1 < 70 {
        assert(f[close + 1] == q[close + 1]);
    }
    lemma_scan_plain(f, 1 + wl, close);
    lemma_scan_escaped(f, 1, bs);
    let pad = (close - 1 - wl) as nat;
    assert(f.subrange(1 + wl, close) =~= spaces(pad)) by {
        assert forall|j: int| 0 <= j < pad implies f.subrange(1 + wl, close)[j] == spaces(pad)[j] by {
            assert(f[1 + wl + j] == q[1 + wl + j]);
        }
    }
    let c = scan_quoted(f, 1).0;
    assert(c =~= bs + spaces(pad));
    lemma_ascii_spaces(pad);
    assert(ascii_chars(c) =~= s + Seq::new(pad, |i: int| ' '));
    crate::text::lemma_trim_end_spaces(s, pad);
}

/// Formatting an ASCII string value and parsing the field back gives the
/// string, with no comment, when the string does not end in whitespace and
/// its doubled content fits the field.
pub proof fn lemma_string_roundtrip(s: Seq<char>)
    requires
        exact_string(s),
    ensures
        spec_parse_value(spec_format_value(ValueModel::Str(s))) == Some((ValueModel::Str(s), None::<Seq<char>>)),
{
    let f = quoted_field(s);
    lemma_string_scan(s, f);
    let tail = f.subrange(quote_close(s) + 1, f.len() as int);
    lemma_find_sep_none(tail, 0);
}

/// The first separator of a field is at `k` when there is one at `k` and
/// none before.
pub(crate) proof fn lemma_find_sep_at(f: Seq<u8>, i: int, k: int)
    requires
        0 <= i <= k,
        k + 1 < f.len(),
        f[k] == 32,
        f[k + 1] == 47,
        forall|j: int| i <= j < k ==> !(f[j] == 32 && #[trigger] f[j + 1] == 47),
    ensures
        find_sep(f, i) == Some(k),
    decreases k - i,
{
    if i < k {
        lemma_find_sep_at(f, i + 1, k);
    }
}

/// A field not starting with a quote, whose value part is ASCII and trims
/// to `t`, holds what `t` spells, with the field's comment.
pub(crate) proof fn lemma_unquoted(f: Seq<u8>, t: Seq<char>)
    requires
        f.len() > 0,
        f[0] != 39,
        forall|j: int| 0 <= j < value_part(f).len() ==> #[trigger] value_part(f)[j] < 128,
        trim(ascii_chars(value_part(f))) == t,
        t.len() > 0,
    ensures
        spec_parse_value(f) == match spec_classify(t) {
            Some(v) => Some((v, comment_of(f))),
            None => None::<(ValueModel, Option<Seq<char>>)>,
        },
{
    lemma_ascii_decode(value_part(f));
}

/// The text a logical or integer value is written as.
pub open spec fn scalar_text(v: ValueModel) -> Seq<char> {
    match v {
        ValueModel::Logical(b) => seq![if b { 'T' } else { 'F' }],
        ValueModel::Integer(n) => ascii_chars(int_decimal(n)),
        _ => Seq::empty(),
    }
}

/// A logical value, or an integer that fits an `i64`.
pub open spec fn scalar_value(v: ValueModel) -> bool {
    ||| v is Logical
    ||| (v matches ValueModel::Integer(n) && i64::MIN <= n <= i64::MAX)
}

/// The field of a logical or integer value: ASCII without a slash in its
/// first 20 bytes, which trim to the value's text, and spaces after them.
pub(crate) proof fn lemma_scalar_field(v: ValueModel)
    requires
        scalar_value(v),
    ensures
        spec_format_value(v).len() == 70,
        spec_format_value(v)[0] != 39,
        forall|j: int| 0 <= j < 20 ==> #[trigger] spec_format_value(v)[j] < 128 && spec_format_value(v)[j] != 47,
        forall|j: int| 20 <= j < 70 ==> #[trigger] spec_format_value(v)[j] == 32,
        trim(ascii_chars(spec_format_value(v).subrange(0, 20))) == scalar_text(v),
        scalar_text(v).len() > 0,
        spec_classify(scalar_text(v)) == Some(v),
{
    let f = spec_format_value(v);
    let t = scalar_text(v);
    match v {
        ValueModel::Logical(b) => {
            let c: u8 = if b { 84u8 } else { 70u8 };
            assert(t =~= seq![c as char]);
            lemma_ascii_spaces(19);
            assert(ascii_chars(f.subrange(0, 20)) =~= Seq::new(19, |i: int| ' ') + t + Seq::new(0, |i: int| ' '));
            lemma_trim_padded(19, t, 0);
            if b {
                assert(t =~= seq!['T']);
            } else {
                assert(t =~= seq!['F']);
            }
        },
        ValueModel::Integer(n) => {
            let d = int_decimal(n);
            lemma_i64_decimal(n as i64);
            let pad = (20 - d.len()) as nat;
            assert(d.subrange(0, d.len() as int) =~= d);
            lemma_ascii_spaces(pad);
            assert(ascii_chars(f.subrange(0, 20)) =~= Seq::new(pad, |i: int| ' ') + t + Seq::new(0, |i: int| ' '));
            assert(!is_ws(t[0]));
            assert(!is_ws(t.last()));
            lemma_trim_padded(pad, t, 0);
            assert forall|j: int| 0 <= j < 20 implies #[trigger] f[j] < 128 && f[j] != 47 by {
                if j >= pad {
                    assert(f[j] == d[j - pad]);
                }
            }
            if pad == 0 {
                assert(f[0] == d[0]);
            }
            lemma_first_of_none(t, '.', '.');
            lemma_first_of_none(t, 'E', 'E');
            lemma_first_of_none(t, 'e', 'e');
            lemma_first_of_none(t, 'D', 'D');
            lemma_first_of_none(t, 'd', 'd');
            assert(t[0] != 'T' && t[0] != 'F' && t[0] != '(');
            assert(!(t =~= seq!['T']));
            assert(!(t =~= seq!['F']));
        },
        _ => {},
    }
}

} // verus!
